use vstd::prelude::*;

verus! {

/// Whether `dst` is `old_dst` with the `n` bytes at `dst_offset` replaced by
/// the `n` bytes of `src` at `src_offset`.
pub open spec fn copied(
    old_dst: Seq<u8>,
    dst: Seq<u8>,
    dst_offset: int,
    src: Seq<u8>,
    src_offset: int,
    n: int,
) -> bool {
    &&& dst.len() == old_dst.len()
    &&& forall|j: int|
        0 <= j < dst.len() ==> #[trigger] dst[j] == if dst_offset <= j < dst_offset + n {
            src[src_offset + (j - dst_offset)]
        } else {
            old_dst[j]
        }
}

/// Copies `num_bytes` bytes from `src[src_offset..]` into `dst[dst_offset..]`,
/// as `memcpy(dst + dst_offset, src + src_offset, num_bytes)` does.
pub fn copy_bytes(src: &[u8], src_offset: usize, dst: &mut [u8], dst_offset: usize, num_bytes: usize)
    requires
        src_offset + num_bytes <= src@.len(),
        dst_offset + num_bytes <= old(dst)@.len(),
    ensures
        copied(
            old(dst)@,
            final(dst)@,
            dst_offset as int,
            src@,
            src_offset as int,
            num_bytes as int,
        ),
{
    let src_len = src.len();
    let dst_len = dst.len();
    let mut i: usize = 0;
    while i < num_bytes
        invariant
            i <= num_bytes,
            src_len == src@.len(),
            dst_len == old(dst)@.len(),
            src_offset + num_bytes <= src@.len(),
            dst_offset + num_bytes <= old(dst)@.len(),
            copied(old(dst)@, dst@, dst_offset as int, src@, src_offset as int, i as int),
        decreases num_bytes - i,
    {
        dst[dst_offset + i] = src[src_offset + i];
        i += 1;
    }
}

// ── Vertex search ─────────────────────────────────────────────────────────────

/// Whether two single-precision floats, given by their bit patterns, count
/// as the same vertex component: the same bits, or equal as floats. Distinct
/// bit patterns are equal as floats only when both are zeros (+0 and -0);
/// a NaN equals nothing but its own bits.
pub open spec fn same_component(a: u32, b: u32) -> bool {
    a == b || (a & 0x7fff_ffff == 0 && b & 0x7fff_ffff == 0)
}

/// Whether the vertex stored at `base` in `vertices` matches `vertex`
/// component by component.
pub open spec fn vertex_at(vertex: Seq<u32>, vertices: Seq<u32>, base: int) -> bool {
    forall|k: int| 0 <= k < vertex.len() ==> #[trigger] same_component(vertices[base + k], vertex[k])
}

/// Whether the search for `vertex` among `count` vertices, `stride`
/// components apart in `vertices`, reads only within `vertices`: every
/// vertex that does not fit comes after one that matches.
pub open spec fn search_in_bounds(vertex: Seq<u32>, vertices: Seq<u32>, stride: int, count: int) -> bool {
    forall|i: int|
        0 <= i < count && #[trigger] vertex_end(stride, vertex.len() as int, i) > vertices.len()
            ==> exists|j: int| 0 <= j < i && #[trigger] vertex_at(vertex, vertices, j * stride)
}

/// One past the last component of vertex `i` of `size` components, the
/// vertices being `stride` components apart.
pub open spec fn vertex_end(stride: int, size: int, i: int) -> int {
    i * stride + size
}

/// Whether `r` is what a search for `vertex` among `count` vertices,
/// `stride` components apart in `vertices`, answers: -1 when none matches,
/// otherwise the index of the first match as an `i64`.
pub open spec fn search_result(vertex: Seq<u32>, vertices: Seq<u32>, stride: int, count: int, r: i64) -> bool {
    ||| r == -1 && forall|i: int| 0 <= i < count ==> !#[trigger] vertex_at(vertex, vertices, i * stride)
    ||| exists|i: int|
        0 <= i < count && #[trigger] vertex_at(vertex, vertices, i * stride) && (forall|j: int|
            0 <= j < i ==> !#[trigger] vertex_at(vertex, vertices, j * stride)) && r == i as i64
}

/// Whether the `size` components of `vertices` at `base` match `vertex`.
fn compare_exact(vertices: &[u32], base: usize, vertex: &[u32]) -> (r: bool)
    requires
        base + vertex@.len() <= vertices@.len(),
    ensures
        r == vertex_at(vertex@, vertices@, base as int),
{
    let size = vertex.len();
    let len = vertices.len();
    let mut k: usize = 0;
    while k < size
        invariant
            size == vertex@.len(),
            len == vertices@.len(),
            k <= size,
            base + size <= vertices@.len(),
            forall|j: int| 0 <= j < k ==> #[trigger] same_component(vertices@[base + j], vertex@[j]),
        decreases size - k,
    {
        let a = vertices[base + k];
        let b = vertex[k];
        if a != b && !(a & 0x7fff_ffff == 0 && b & 0x7fff_ffff == 0) {
            assert(!same_component(vertices@[base + k], vertex@[k as int]));
            return false;
        }
        k += 1;
    }
    true
}

/// Finds the first of `count` vertices, `stride` components apart in
/// `vertices`, that matches `vertex` exactly (bit for bit, or equal as
/// floats); components are given by their bit patterns. Returns its index,
/// or -1 when none matches.
pub fn find_vertex(vertex: &[u32], stride: usize, vertices: &[u32], count: usize) -> (r: i64)
    requires
        search_in_bounds(vertex@, vertices@, stride as int, count as int),
    ensures
        search_result(vertex@, vertices@, stride as int, count as int, r),
{
    let size = vertex.len();
    let len = vertices.len();
    let mut i: usize = 0;
    let mut base: usize = 0;
    while i < count
        invariant
            size == vertex@.len(),
            len == vertices@.len(),
            i <= count,
            i < count ==> base == i * stride,
            search_in_bounds(vertex@, vertices@, stride as int, count as int),
            forall|j: int| 0 <= j < i ==> !#[trigger] vertex_at(vertex@, vertices@, j * stride),
        decreases count - i,
    {
        assert(i * stride + size <= len) by {
            if vertex_end(stride as int, size as int, i as int) > len {
                let j = choose|j: int| 0 <= j < i && #[trigger] vertex_at(vertex@, vertices@, j * stride);
                assert(!vertex_at(vertex@, vertices@, j * stride));
            }
        }
        if compare_exact(vertices, base, vertex) {
            assert(vertex_at(vertex@, vertices@, i * stride));
            return i as i64;
        }
        if i + 1 < count {
            assert((i + 1) * stride + size <= len) by {
                if vertex_end(stride as int, size as int, i + 1) > len {
                    let j = choose|j: int|
                        0 <= j < i + 1 && #[trigger] vertex_at(vertex@, vertices@, j * stride);
                    assert(!vertex_at(vertex@, vertices@, j * stride));
                }
            }
            assert((i + 1) * stride == i * stride + stride) by (nonlinear_arith);
            base = base + stride;
        }
        i += 1;
    }
    -1
}

/// Searches as `find_vertex` does, but gives `None`, instead of reading past
/// the end of `vertices`, when the search reaches a vertex that does not fit
/// before finding a match.
pub fn find_vertex_in_bounds(vertex: &[u32], stride: usize, vertices: &[u32], count: usize) -> (r:
    Option<i64>)
    ensures
        r is None <==> !search_in_bounds(vertex@, vertices@, stride as int, count as int),
        r matches Some(v) ==> search_result(vertex@, vertices@, stride as int, count as int, v),
{
    let size = vertex.len();
    let len = vertices.len();
    let mut i: usize = 0;
    while i < count
        invariant
            size == vertex@.len(),
            len == vertices@.len(),
            i <= count,
            forall|j: int| 0 <= j < i ==> !#[trigger] vertex_at(vertex@, vertices@, j * stride),
            forall|j: int|
                0 <= j < i ==> #[trigger] vertex_end(stride as int, size as int, j) <= len,
        decreases count - i,
    {
        assert(i as int * stride as int <= usize::MAX as int * usize::MAX as int) by (nonlinear_arith)
            requires
                i <= usize::MAX,
                stride <= usize::MAX,
        ;
        let end: u128 = i as u128 * stride as u128 + size as u128;
        if end > len as u128 {
            assert(vertex_end(stride as int, size as int, i as int) > len);
            assert(!search_in_bounds(vertex@, vertices@, stride as int, count as int)) by {
                if search_in_bounds(vertex@, vertices@, stride as int, count as int) {
                    let j = choose|j: int| 0 <= j < i && #[trigger] vertex_at(vertex@, vertices@, j * stride);
                    assert(!vertex_at(vertex@, vertices@, j * stride));
                }
            }
            return None;
        }
        let base = (i as u128 * stride as u128) as usize;
        if compare_exact(vertices, base, vertex) {
            assert(search_in_bounds(vertex@, vertices@, stride as int, count as int)) by {
                assert forall|k: int|
                    0 <= k < count && #[trigger] vertex_end(stride as int, size as int, k) > len implies exists|j: int|
                    0 <= j < k && #[trigger] vertex_at(vertex@, vertices@, j * stride) by {
                    assert(vertex_end(stride as int, size as int, i as int) <= len);
                    if k <= i {
                        assert(k < i || k == i);
                    }
                    assert(vertex_at(vertex@, vertices@, i * stride));
                }
            }
            assert(vertex_at(vertex@, vertices@, i * stride));
            return Some(i as i64);
        }
        i += 1;
    }
    assert(search_in_bounds(vertex@, vertices@, stride as int, count as int));
    Some(-1)
}

} // verus!
