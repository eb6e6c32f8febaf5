use vstd::prelude::*;

verus! {

// ── Handles ───────────────────────────────────────────────────────────────────

/// The 64-bit handle of an arena entry: its generation in the high 32 bits,
/// its index in the low 32 bits.
pub open spec fn handle_value(index: u32, generation: u32) -> int {
    generation as int * 0x1_0000_0000 + index as int
}

/// The index and generation a 64-bit handle carries.
pub open spec fn handle_parts(v: u64) -> (u32, u32) {
    ((v as int % 0x1_0000_0000) as u32, (v as int / 0x1_0000_0000) as u32)
}

/// Packs an arena index and generation into one 64-bit handle.
pub fn encode_handle(index: u32, generation: u32) -> (v: u64)
    ensures
        v == handle_value(index, generation),
{
    let v = ((generation as u64) << 32u64) | (index as u64);
    assert(v == generation as int * 0x1_0000_0000 + index as int) by (bit_vector)
        requires
            v == ((generation as u64) << 32u64) | (index as u64),
    ;
    v
}

/// Splits a 64-bit handle into its arena index (low 32 bits) and generation
/// (high 32 bits).
pub fn decode_handle(v: u64) -> (r: (u32, u32))
    ensures
        r == handle_parts(v),
{
    let index = v as u32;
    let generation = (v >> 32u64) as u32;
    assert(index == v as int % 0x1_0000_0000 && generation == v as int / 0x1_0000_0000)
        by (bit_vector)
        requires
            index == v as u32,
            generation == (v >> 32u64) as u32,
    ;
    (index, generation)
}

/// Decoding an encoded handle gives back the index and generation.
pub proof fn lemma_decode_encode_handle(index: u32, generation: u32)
    ensures
        0 <= handle_value(index, generation) <= u64::MAX,
        handle_parts(handle_value(index, generation) as u64) == (index, generation),
{
    let v = handle_value(index, generation);
    assert(v / 0x1_0000_0000 == generation as int && v % 0x1_0000_0000 == index as int) by (
    nonlinear_arith)
        requires
            v == generation as int * 0x1_0000_0000 + index as int,
            0 <= index < 0x1_0000_0000,
    ;
}

/// Encoding the parts of a handle gives back the handle.
pub proof fn lemma_encode_decode_handle(v: u64)
    ensures
        handle_value(handle_parts(v).0, handle_parts(v).1) == v,
{
    let (i, g) = handle_parts(v);
    assert(v as int / 0x1_0000_0000 * 0x1_0000_0000 + v as int % 0x1_0000_0000 == v) by (
    nonlinear_arith);
    assert(v as int / 0x1_0000_0000 <= u32::MAX) by (nonlinear_arith);
}

// ── Event queues ──────────────────────────────────────────────────────────────

/// Copies the first `min(events.len(), max_events)` buffered pairs of
/// collider handles into `out1` (first colliders) and `out2` (second
/// colliders), leaving the rest of both untouched, and returns how many.
pub fn poll_pair_events(
    events: &[(u64, u64)],
    out1: &mut [u64],
    out2: &mut [u64],
    max_events: usize,
) -> (count: usize)
    requires
        old(out1)@.len() >= max_events,
        old(out2)@.len() >= max_events,
    ensures
        count == if events@.len() < max_events {
            events@.len() as int
        } else {
            max_events as int
        },
        final(out1)@.len() == old(out1)@.len(),
        final(out2)@.len() == old(out2)@.len(),
        forall|i: int|
            0 <= i < final(out1)@.len() ==> #[trigger] final(out1)@[i] == if i < count {
                events@[i].0
            } else {
                old(out1)@[i]
            },
        forall|i: int|
            0 <= i < final(out2)@.len() ==> #[trigger] final(out2)@[i] == if i < count {
                events@[i].1
            } else {
                old(out2)@[i]
            },
{
    let count = if events.len() < max_events {
        events.len()
    } else {
        max_events
    };
    let mut i: usize = 0;
    while i < count
        invariant
            i <= count,
            count <= events@.len(),
            count <= max_events,
            out1@.len() == old(out1)@.len(),
            out2@.len() == old(out2)@.len(),
            old(out1)@.len() >= max_events,
            old(out2)@.len() >= max_events,
            forall|j: int|
                0 <= j < out1@.len() ==> #[trigger] out1@[j] == if j < i {
                    events@[j].0
                } else {
                    old(out1)@[j]
                },
            forall|j: int|
                0 <= j < out2@.len() ==> #[trigger] out2@[j] == if j < i {
                    events@[j].1
                } else {
                    old(out2)@[j]
                },
        decreases count - i,
    {
        let (c1, c2) = events[i];
        out1[i] = c1;
        out2[i] = c2;
        i += 1;
    }
    count
}

// ── Shape topology ────────────────────────────────────────────────────────────

/// The segments of a polyline through `vertex_count` vertices: each vertex
/// joined to the next.
pub fn polyline_segments(vertex_count: u32) -> (segments: Vec<[u32; 2]>)
    requires
        vertex_count >= 1,
    ensures
        segments@.len() == vertex_count - 1,
        forall|i: int|
            0 <= i < segments@.len() ==> #[trigger] segments@[i]@ == seq![i as u32, (i + 1) as u32],
{
    let mut segments: Vec<[u32; 2]> = Vec::new();
    let mut i: u32 = 0;
    while i < vertex_count - 1
        invariant
            vertex_count >= 1,
            i <= vertex_count - 1,
            segments@.len() == i,
            forall|j: int|
                0 <= j < segments@.len() ==> #[trigger] segments@[j]@ == seq![j as u32, (j + 1) as u32],
        decreases vertex_count - 1 - i,
    {
        let seg: [u32; 2] = [i, i + 1];
        assert(seg@ == seq![i, (i + 1) as u32]);
        segments.push(seg);
        i += 1;
    }
    segments
}

/// The triangles of a flat index list: each run of three indices, in order;
/// trailing indices that do not fill a triangle are dropped.
pub fn triangles_from_indices(indices: &[u32]) -> (tris: Vec<[u32; 3]>)
    ensures
        tris@.len() == indices@.len() / 3,
        forall|t: int|
            0 <= t < tris@.len() ==> #[trigger] tris@[t]@ == indices@.subrange(3 * t, 3 * t + 3),
{
    let mut tris: Vec<[u32; 3]> = Vec::new();
    let len = indices.len();
    let n = len / 3;
    let mut t: usize = 0;
    while t < n
        invariant
            len == indices@.len(),
            n == indices@.len() / 3,
            3 * n <= indices@.len(),
            t <= n,
            tris@.len() == t,
            forall|k: int|
                0 <= k < tris@.len() ==> #[trigger] tris@[k]@ == indices@.subrange(3 * k, 3 * k + 3),
        decreases n - t,
    {
        let tri: [u32; 3] = [indices[3 * t], indices[3 * t + 1], indices[3 * t + 2]];
        assert(tri@ =~= indices@.subrange(3 * t as int, 3 * t as int + 3));
        tris.push(tri);
        t += 1;
    }
    tris
}

} // verus!
