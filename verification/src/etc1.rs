use vstd::prelude::*;
use crate::buffer_ops::copy_bytes;

verus! {

// ── Sizes ─────────────────────────────────────────────────────────────────────

/// Bytes in one encoded ETC1 block.
pub const ETC1_ENCODED_BLOCK_SIZE: usize = 8;

/// Bytes in one decoded 4x4 block of RGB888 pixels.
pub const ETC1_DECODED_BLOCK_SIZE: usize = 48;

/// Bytes in a PKM header.
pub const ETC_PKM_HEADER_SIZE: usize = 16;

/// Offset of the big-endian format field in a PKM header.
pub const ETC1_PKM_FORMAT_OFFSET: usize = 6;

/// Offset of the big-endian encoded (padded) width in a PKM header.
pub const ETC1_PKM_ENCODED_WIDTH_OFFSET: usize = 8;

/// Offset of the big-endian encoded (padded) height in a PKM header.
pub const ETC1_PKM_ENCODED_HEIGHT_OFFSET: usize = 10;

/// Offset of the big-endian width in a PKM header.
pub const ETC1_PKM_WIDTH_OFFSET: usize = 12;

/// Offset of the big-endian height in a PKM header.
pub const ETC1_PKM_HEIGHT_OFFSET: usize = 14;

/// The PKM format code of RGB ETC1 data without mipmaps.
pub const ETC1_RGB_NO_MIPMAPS: u32 = 0;

// ── Channel arithmetic ────────────────────────────────────────────────────────

/// `x` clamped to the range of a byte.
pub open spec fn spec_clamp(x: int) -> int {
    if x < 0 {
        0
    } else if x < 255 {
        x
    } else {
        255
    }
}

/// A 4-bit channel value widened to 8 bits by repeating its bits.
pub open spec fn expand4(c: int) -> int {
    c * 16 + c
}

/// A 5-bit channel value widened to 8 bits by repeating its high bits.
pub open spec fn expand5(c: int) -> int {
    c * 8 + c / 4
}

/// A 6-bit channel value widened to 8 bits by repeating its high bits.
pub open spec fn expand6(c: int) -> int {
    c * 4 + c / 16
}

/// Clamps `x` to `0..=255`.
pub fn clamp(x: i32) -> (r: u8)
    ensures
        r == spec_clamp(x as int),
{
    if x >= 0 {
        if x < 255 {
            x as u8
        } else {
            255
        }
    } else {
        0
    }
}

/// Widens the low 4 bits of `b` to an 8-bit channel value.
pub fn convert4_to8(b: i32) -> (r: i32)
    ensures
        0 <= b & 0xf < 16,
        r == expand4((b & 0xf) as int),
{
    let c = b & 0xf;
    assert(0 <= c < 16 && (c << 4) | c == c * 16 + c) by (bit_vector)
        requires
            c == b & 0xf,
    ;
    (c << 4) | c
}

/// Widens the low 5 bits of `b` to an 8-bit channel value.
pub fn convert5_to8(b: i32) -> (r: i32)
    ensures
        0 <= b & 0x1f < 32,
        r == expand5((b & 0x1f) as int),
{
    let c = b & 0x1f;
    assert(0 <= c < 32 && (c << 3) | (c >> 2) == c * 8 + c / 4) by (bit_vector)
        requires
            c == b & 0x1f,
    ;
    (c << 3) | (c >> 2)
}

/// Widens the low 6 bits of `b` to an 8-bit channel value.
pub fn convert6_to8(b: i32) -> (r: i32)
    ensures
        0 <= b & 0x3f < 64,
        r == expand6((b & 0x3f) as int),
{
    let c = b & 0x3f;
    assert(0 <= c < 64 && (c << 2) | (c >> 4) == c * 4 + c / 16) by (bit_vector)
        requires
            c == b & 0x3f,
    ;
    (c << 2) | (c >> 4)
}


/// Rounded quotient of `d` by 255, computed with shifts.
pub open spec fn spec_divide_by_255(d: int) -> int {
    (d + 128 + d / 256) / 256
}

/// Divides by 255 with rounding, using shifts only.
pub fn divide_by_255(d: i32) -> (r: i32)
    requires
        i32::MIN <= d + 128 + d / 256 <= i32::MAX,
    ensures
        r == spec_divide_by_255(d as int),
{
    assert(d >> 8 == d / 256) by (bit_vector);
    let s = d + 128 + (d >> 8);
    assert(s >> 8 == s / 256) by (bit_vector);
    s >> 8
}


/// On the products of a channel with a 5-bit or 4-bit maximum, and well
/// beyond (up to 33022), dividing by 255 with shifts rounds to the nearest
/// integer, halves upwards.
pub proof fn lemma_divide_by_255_rounds(d: int)
    requires
        0 <= d <= 33022,
    ensures
        spec_divide_by_255(d) == (2 * d + 255) / 510,
{
    let u = d as u32;
    assert((u + 128 + u / 256) / 256 == (2 * u + 255) / 510) by (bit_vector)
        requires
            u <= 33022,
    ;
}

/// Widens a channel stored as a 5-bit base plus a signed 3-bit delta.
pub fn convert_diff(base: i32, diff: i32) -> (r: i32)
    ensures
        r == expand5(((base & 0x1f) as int + lookup3((diff & 0x7) as int)) % 32),
{
    let d = 0x7 & diff;
    let c = 0x1f & base;
    assert(0 <= d < 8 && 0 <= c < 32 && c == base & 0x1f && d == diff & 0x7) by (bit_vector)
        requires
            c == 0x1f & base,
            d == 0x7 & diff,
    ;
    let delta = if d < 4 {
        d
    } else {
        d - 8
    };
    let v = c + delta;
    assert(v & 0x1f == (v as int) % 32) by (bit_vector)
        requires
            -4 <= v < 36,
    ;
    convert5_to8(v)
}

// ── Block layout ──────────────────────────────────────────────────────────────

/// The signed value of a 3-bit two's-complement delta.
pub open spec fn lookup3(d: int) -> int {
    if d < 4 {
        d
    } else {
        d - 8
    }
}

/// The positive magnitudes of the intensity modifier table `t`, small then large.
pub open spec fn modifier_magnitudes(t: int) -> (int, int) {
    if t == 0 {
        (2, 8)
    } else if t == 1 {
        (5, 17)
    } else if t == 2 {
        (9, 29)
    } else if t == 3 {
        (13, 42)
    } else if t == 4 {
        (18, 60)
    } else if t == 5 {
        (24, 80)
    } else if t == 6 {
        (33, 106)
    } else {
        (47, 183)
    }
}

/// Entry `i` of intensity modifier table `t`: small, large, minus small, minus large.
pub open spec fn modifier_value(t: int, i: int) -> int {
    let (small, large) = modifier_magnitudes(t);
    if i == 0 {
        small
    } else if i == 1 {
        large
    } else if i == 2 {
        -small
    } else {
        -large
    }
}

/// Entry `i` of intensity modifier table `t`.
fn modifier(t: usize, i: usize) -> (m: i32)
    requires
        t < 8,
        i < 4,
    ensures
        m == modifier_value(t as int, i as int),
{
    let (small, large): (i32, i32) = match t {
        0 => (2, 8),
        1 => (5, 17),
        2 => (9, 29),
        3 => (13, 42),
        4 => (18, 60),
        5 => (24, 80),
        6 => (33, 106),
        _ => (47, 183),
    };
    match i {
        0 => small,
        1 => large,
        2 => -small,
        _ => -large,
    }
}

/// Column of the pixel that decoded byte `q` belongs to.
pub open spec fn pixel_x(q: int) -> int {
    (q / 3) % 4
}

/// Row of the pixel that decoded byte `q` belongs to.
pub open spec fn pixel_y(q: int) -> int {
    (q / 3) / 4
}

/// Whether pixel (x, y) lies in the second sub-block: the lower half when the
/// block is flipped, the right half otherwise.
pub open spec fn in_second(flipped: bool, x: int, y: int) -> bool {
    if flipped {
        y >= 2
    } else {
        x >= 2
    }
}

/// The 2-bit modifier index of pixel (x, y) in the low word of a block: the
/// low bit at position `y + 4x`, the high bit sixteen positions above.
pub open spec fn pixel_mod_index(low: u32, x: int, y: int) -> int {
    let k = y + 4 * x;
    ((low >> (k as u32)) & 1) as int + 2 * ((low >> ((k + 16) as u32)) & 1) as int
}

/// The big-endian 32-bit word in four bytes.
pub open spec fn be_word(b0: u8, b1: u8, b2: u8, b3: u8) -> u32 {
    (b0 as int * 0x1000000 + b1 as int * 0x10000 + b2 as int * 0x100 + b3 as int) as u32
}

/// Shift of the first 4-bit (or 5-bit) base of channel `c` in the high word.
pub open spec fn base_shift(c: int) -> u32 {
    if c == 0 {
        28
    } else if c == 1 {
        20
    } else {
        12
    }
}

/// The 8-bit base colour of channel `c` (0 red, 1 green, 2 blue) of a
/// sub-block, as the high word encodes it: two 4-bit colours, or a 5-bit
/// colour and a signed 3-bit delta for the second sub-block when bit 1 is set.
pub open spec fn base_color(high: u32, second: bool, c: int) -> int {
    let s = base_shift(c);
    if high & 2 != 0 {
        let base = ((high >> ((s - 1) as u32)) & 0x1f) as int;
        if !second {
            expand5(base)
        } else {
            expand5((base + lookup3(((high >> ((s - 4) as u32)) & 0x7) as int)) % 32)
        }
    } else {
        if !second {
            expand4(((high >> s) & 0xf) as int)
        } else {
            expand4(((high >> ((s - 4) as u32)) & 0xf) as int)
        }
    }
}

/// The modifier table a sub-block uses.
pub open spec fn table_of(high: u32, second: bool) -> int {
    if second {
        ((high >> 2u32) & 7) as int
    } else {
        ((high >> 5u32) & 7) as int
    }
}

/// Byte `q` (0..48) of the RGB888 pixels that the block with words `high`
/// and `low` decodes to; pixel (x, y) occupies bytes `3 * (x + 4y) .. + 3`.
pub open spec fn decoded_byte(high: u32, low: u32, q: int) -> int {
    let x = pixel_x(q);
    let y = pixel_y(q);
    let second = in_second(high & 1 != 0, x, y);
    spec_clamp(
        base_color(high, second, q % 3) + modifier_value(table_of(high, second), pixel_mod_index(low, x, y)),
    )
}


/// Channel `c` of the colour (r, g, b).
pub open spec fn rgb_channel(r: int, g: int, b: int, c: int) -> int {
    if c == 0 {
        r
    } else if c == 1 {
        g
    } else {
        b
    }
}

/// Position of pixel (x, y) in the order in which a sub-block visits its pixels.
pub open spec fn subblock_order(flipped: bool, second: bool, x: int, y: int) -> int {
    if flipped {
        2 * x + (y - if second { 2int } else { 0int })
    } else {
        4 * (x - if second { 2int } else { 0int }) + y
    }
}

/// Whether decoded byte `q` lies in the given sub-block.
pub open spec fn byte_in_subblock(flipped: bool, second: bool, q: int) -> bool {
    0 <= q < 48 && in_second(flipped, pixel_x(q), pixel_y(q)) == second
}

proof fn lemma_pixel_of_byte(x: int, y: int, c: int)
    requires
        0 <= x < 4,
        0 <= y < 4,
        0 <= c < 3,
    ensures
        pixel_x(3 * (x + 4 * y) + c) == x,
        pixel_y(3 * (x + 4 * y) + c) == y,
        (3 * (x + 4 * y) + c) % 3 == c,
{
    let q = 3 * (x + 4 * y) + c;
    assert(q / 3 == x + 4 * y);
    assert((x + 4 * y) % 4 == x);
    assert((x + 4 * y) / 4 == y);
}

proof fn lemma_byte_decompose(j: int)
    requires
        0 <= j < 48,
    ensures
        0 <= pixel_x(j) < 4,
        0 <= pixel_y(j) < 4,
        0 <= j % 3 < 3,
        j == 3 * (pixel_x(j) + 4 * pixel_y(j)) + j % 3,
{
    let p = j / 3;
    assert(j == 3 * p + j % 3);
    assert(0 <= p < 16);
    assert(p == 4 * (p / 4) + p % 4);
}

/// The value a sub-block with base colour (r, g, b) and modifier table
/// `table` decodes byte `q` to.
pub open spec fn subblock_byte(r: int, g: int, b: int, table: int, low: u32, q: int) -> int {
    spec_clamp(
        rgb_channel(r, g, b, q % 3) + modifier_value(
            table,
            pixel_mod_index(low, pixel_x(q), pixel_y(q)),
        ),
    )
}

/// Whether byte `q` belongs to one of the first `i` pixels a sub-block visits.
pub open spec fn visited(flipped: bool, second: bool, q: int, i: int) -> bool {
    byte_in_subblock(flipped, second, q) && subblock_order(flipped, second, pixel_x(q), pixel_y(q))
        < i
}

/// Decodes the eight pixels of one sub-block with base colour (r, g, b) and
/// modifier table `table`.
#[verifier::spinoff_prover]
#[verifier::rlimit(40)]
fn decode_subblock(
    p_out: &mut [u8],
    r: i32,
    g: i32,
    b: i32,
    table: usize,
    low: u32,
    second: bool,
    flipped: bool,
)
    requires
        old(p_out)@.len() >= 48,
        i32::MIN + 183 <= r <= i32::MAX - 183,
        i32::MIN + 183 <= g <= i32::MAX - 183,
        i32::MIN + 183 <= b <= i32::MAX - 183,
        table < 8,
    ensures
        final(p_out)@.len() == old(p_out)@.len(),
        forall|q: int|
            byte_in_subblock(flipped, second, q) ==> #[trigger] final(p_out)@[q] == subblock_byte(
                r as int,
                g as int,
                b as int,
                table as int,
                low,
                q,
            ),
        forall|q: int|
            0 <= q < old(p_out)@.len() && !byte_in_subblock(flipped, second, q)
                ==> #[trigger] final(p_out)@[q] == old(p_out)@[q],
{
    let mut base_x: i32 = 0;
    let mut base_y: i32 = 0;
    if second {
        if flipped {
            base_y = 2;
        } else {
            base_x = 2;
        }
    }
    let mut i: i32 = 0;
    while i < 8
        invariant
            0 <= i <= 8,
            p_out@.len() == old(p_out)@.len(),
            p_out@.len() >= 48,
            i32::MIN + 183 <= r <= i32::MAX - 183,
            i32::MIN + 183 <= g <= i32::MAX - 183,
            i32::MIN + 183 <= b <= i32::MAX - 183,
            table < 8,
            base_x == if second && !flipped { 2int } else { 0int },
            base_y == if second && flipped { 2int } else { 0int },
            forall|q: int|
                visited(flipped, second, q, i as int) ==> #[trigger] p_out@[q] == subblock_byte(
                    r as int,
                    g as int,
                    b as int,
                    table as int,
                    low,
                    q,
                ),
            forall|q: int|
                0 <= q < p_out@.len() && !visited(flipped, second, q, i as int)
                    ==> #[trigger] p_out@[q] == old(p_out)@[q],
        decreases 8 - i,
    {
        let x: i32;
        let y: i32;
        assert(i >> 1 == i / 2 && i & 1 == i % 2 && i >> 2 == i / 4 && i & 3 == i % 4)
            by (bit_vector)
            requires
                0 <= i < 8,
        ;
        if flipped {
            x = base_x + (i >> 1);
            y = base_y + (i & 1);
        } else {
            x = base_x + (i >> 2);
            y = base_y + (i & 3);
        }
        assert(0 <= x < 4 && 0 <= y < 4);
        assert(in_second(flipped, x as int, y as int) == second);
        assert(subblock_order(flipped, second, x as int, y as int) == i);
        let k = (y + x * 4) as u32;
        assert(k < 16);
        let offset = ((low >> k) & 1) | ((low >> (k + 15)) & 2);
        assert(((low >> k) & 1) | ((low >> (k + 15)) & 2) == ((low >> k) & 1) + 2 * ((low >> (k
            + 16)) & 1) && ((low >> k) & 1) + 2 * ((low >> (k + 16)) & 1) < 4) by (bit_vector)
            requires
                k < 16,
        ;
        assert(offset as int == pixel_mod_index(low, x as int, y as int));
        let delta = modifier(table, offset as usize);
        let q = (3 * (x + 4 * y)) as usize;
        proof {
            lemma_pixel_of_byte(x as int, y as int, 0);
            lemma_pixel_of_byte(x as int, y as int, 1);
            lemma_pixel_of_byte(x as int, y as int, 2);
        }
        let ghost before = p_out@;
        let ghost ii = i as int;
        p_out[q] = clamp(r + delta);
        p_out[q + 1] = clamp(g + delta);
        p_out[q + 2] = clamp(b + delta);
        proof {
            assert forall|j: int| 0 <= j < p_out@.len() implies (visited(
                flipped,
                second,
                j,
                ii + 1,
            ) ==> #[trigger] p_out@[j] == subblock_byte(
                r as int,
                g as int,
                b as int,
                table as int,
                low,
                j,
            )) && (!visited(flipped, second, j, ii + 1) ==> p_out@[j] == old(p_out)@[j]) by {
                if j == q || j == q + 1 || j == q + 2 {
                    assert(visited(flipped, second, j, ii + 1));
                } else {
                    assert(p_out@[j] == before[j]);
                    if j < 48 {
                        lemma_byte_decompose(j);
                        if pixel_x(j) == x && pixel_y(j) == y {
                            assert(false);
                        }
                        if byte_in_subblock(flipped, second, j) {
                            assert(subblock_order(flipped, second, pixel_x(j), pixel_y(j)) != ii);
                        }
                    }
                    assert(visited(flipped, second, j, ii + 1) == visited(flipped, second, j, ii));
                }
            }
        }
        i += 1;
    }
}

/// Decodes one ETC1 block: `p_in` holds the 8 encoded bytes, `p_out`
/// receives the 4x4 pixels as 48 bytes of R, G, B.
pub fn decode_block(p_in: &[u8], p_out: &mut [u8])
    requires
        p_in@.len() >= 8,
        old(p_out)@.len() >= 48,
    ensures
        final(p_out)@.len() == old(p_out)@.len(),
        forall|q: int|
            0 <= q < 48 ==> #[trigger] final(p_out)@[q] == decoded_byte(
                be_word(p_in@[0], p_in@[1], p_in@[2], p_in@[3]),
                be_word(p_in@[4], p_in@[5], p_in@[6], p_in@[7]),
                q,
            ),
        forall|q: int| 48 <= q < old(p_out)@.len() ==> #[trigger] final(p_out)@[q] == old(p_out)@[q],
{
    let high: u32 = (p_in[0] as u32) << 24 | (p_in[1] as u32) << 16 | (p_in[2] as u32) << 8
        | p_in[3] as u32;
    let low: u32 = (p_in[4] as u32) << 24 | (p_in[5] as u32) << 16 | (p_in[6] as u32) << 8
        | p_in[7] as u32;
    proof {
        let (b0, b1, b2, b3) = (p_in@[0], p_in@[1], p_in@[2], p_in@[3]);
        let (b4, b5, b6, b7) = (p_in@[4], p_in@[5], p_in@[6], p_in@[7]);
        assert((b0 as u32) << 24 | (b1 as u32) << 16 | (b2 as u32) << 8 | b3 as u32 == (b0 as int
            * 0x1000000 + b1 as int * 0x10000 + b2 as int * 0x100 + b3 as int) as u32 && (b4 as u32)
            << 24 | (b5 as u32) << 16 | (b6 as u32) << 8 | b7 as u32 == (b4 as int * 0x1000000
            + b5 as int * 0x10000 + b6 as int * 0x100 + b7 as int) as u32) by (bit_vector);
    }
    let r1: i32;
    let r2: i32;
    let g1: i32;
    let g2: i32;
    let b1: i32;
    let b2: i32;
    if high & 2 != 0 {
        let r_base = (high >> 27) as i32;
        let g_base = (high >> 19) as i32;
        let b_base = (high >> 11) as i32;
        assert((high >> 27) & 0x1f < 32 && (high >> 19) & 0x1f < 32 && (high >> 11) & 0x1f < 32
            && (high >> 24) & 0x7 < 8 && (high >> 16) & 0x7 < 8 && (high >> 8) & 0x7 < 8
            && high >> 27 < 32 && high >> 19 < 0x2000 && high >> 11 < 0x200000 && high >> 24 < 256
            && high >> 16 < 0x10000 && high >> 8 < 0x1000000
            && ((high >> 27) as i32) & 0x1f == ((high >> 27) & 0x1f) as i32
            && ((high >> 19) as i32) & 0x1f == ((high >> 19) & 0x1f) as i32
            && ((high >> 11) as i32) & 0x1f == ((high >> 11) & 0x1f) as i32
            && ((high >> 24) as i32) & 0x7 == ((high >> 24) & 0x7) as i32
            && ((high >> 16) as i32) & 0x7 == ((high >> 16) & 0x7) as i32
            && ((high >> 8) as i32) & 0x7 == ((high >> 8) & 0x7) as i32) by (bit_vector);
        r1 = convert5_to8(r_base);
        r2 = convert_diff(r_base, (high >> 24) as i32);
        g1 = convert5_to8(g_base);
        g2 = convert_diff(g_base, (high >> 16) as i32);
        b1 = convert5_to8(b_base);
        b2 = convert_diff(b_base, (high >> 8) as i32);
    } else {
        assert((high >> 28) & 0xf < 16 && (high >> 24) & 0xf < 16 && (high >> 20) & 0xf < 16
            && (high >> 16) & 0xf < 16 && (high >> 12) & 0xf < 16 && (high >> 8) & 0xf < 16
            && high >> 28 < 16 && high >> 24 < 256 && high >> 20 < 0x1000 && high >> 16 < 0x10000
            && high >> 12 < 0x100000 && high >> 8 < 0x1000000
            && ((high >> 28) as i32) & 0xf == ((high >> 28) & 0xf) as i32
            && ((high >> 24) as i32) & 0xf == ((high >> 24) & 0xf) as i32
            && ((high >> 20) as i32) & 0xf == ((high >> 20) & 0xf) as i32
            && ((high >> 16) as i32) & 0xf == ((high >> 16) & 0xf) as i32
            && ((high >> 12) as i32) & 0xf == ((high >> 12) & 0xf) as i32
            && ((high >> 8) as i32) & 0xf == ((high >> 8) & 0xf) as i32) by (bit_vector);
        r1 = convert4_to8((high >> 28) as i32);
        r2 = convert4_to8((high >> 24) as i32);
        g1 = convert4_to8((high >> 20) as i32);
        g2 = convert4_to8((high >> 16) as i32);
        b1 = convert4_to8((high >> 12) as i32);
        b2 = convert4_to8((high >> 8) as i32);
    }
    assert(r1 == base_color(high, false, 0) && g1 == base_color(high, false, 1) && b1
        == base_color(high, false, 2));
    assert(r2 == base_color(high, true, 0) && g2 == base_color(high, true, 1) && b2
        == base_color(high, true, 2));
    let table_index_a = (7 & (high >> 5)) as usize;
    let table_index_b = (7 & (high >> 2)) as usize;
    assert(7 & (high >> 5) == (high >> 5) & 7 && (high >> 5) & 7 < 8 && 7 & (high >> 2) == (high
        >> 2) & 7 && (high >> 2) & 7 < 8) by (bit_vector);
    let flipped = (high & 1) != 0;
    let ghost start = p_out@;
    decode_subblock(p_out, r1, g1, b1, table_index_a, low, false, flipped);
    let ghost mid = p_out@;
    decode_subblock(p_out, r2, g2, b2, table_index_b, low, true, flipped);
    proof {
        assert forall|q: int| 0 <= q < 48 implies #[trigger] p_out@[q] == decoded_byte(
            high,
            low,
            q,
        ) by {
            if byte_in_subblock(flipped, true, q) {
            } else {
                assert(byte_in_subblock(flipped, false, q));
                assert(mid[q] == p_out@[q]);
            }
        }
        assert forall|q: int| 48 <= q < start.len() implies #[trigger] p_out@[q] == start[q] by {
            assert(mid[q] == start[q]);
        }
    }
}


/// Narrows an 8-bit channel value (the low byte of `b`) to 4 bits with rounding.
pub fn convert8_to4(b: i32) -> (r: i32)
    ensures
        r == spec_divide_by_255(((b & 0xff) as int) * 15),
        0 <= r <= 15,
{
    let c = b & 0xff;
    assert(0 <= c < 256) by (bit_vector)
        requires
            c == b & 0xff,
    ;
    divide_by_255(c * 15)
}

/// Narrows an 8-bit channel value (the low byte of `b`) to 5 bits with rounding.
pub fn convert8_to5(b: i32) -> (r: i32)
    ensures
        r == spec_divide_by_255(((b & 0xff) as int) * 31),
        0 <= r <= 31,
{
    let c = b & 0xff;
    assert(0 <= c < 256) by (bit_vector)
        requires
            c == b & 0xff,
    ;
    divide_by_255(c * 31)
}

/// Squares `x`.
pub fn square(x: i32) -> (r: i32)
    requires
        x * x <= i32::MAX,
    ensures
        r == x * x,
{
    assert(0 <= x * x) by (nonlinear_arith);
    x * x
}

/// Whether `color` fits a signed 3-bit delta.
pub fn in_range_4bit_signed(color: i32) -> (r: bool)
    ensures
        r == (-4 <= color <= 3),
{
    -4 <= color && color <= 3
}

/// Narrowing a widened 4-bit value gives it back.
pub proof fn lemma_convert4_round_trip(v: int)
    requires
        0 <= v < 16,
    ensures
        spec_divide_by_255(expand4(v) * 15) == v,
{
    assert(expand4(v) * 15 == 255 * v);
    if v > 0 {
        assert((255 * v) / 256 == v - 1);
    }
    assert((255 * v + 128 + (255 * v) / 256) == 256 * v + 127 || v == 0);
}

/// Narrowing a widened 5-bit value gives it back.
pub proof fn lemma_convert5_round_trip(v: int)
    requires
        0 <= v < 32,
    ensures
        spec_divide_by_255(expand5(v) * 31) == v,
{
    let u = v as u32;
    assert(((u * 8 + u / 4) * 31 + 128 + ((u * 8 + u / 4) * 31) / 256) / 256 == u) by (bit_vector)
        requires
            u < 32,
    ;
}

/// The big-endian bytes of `d` written at the start of `p_out`.
pub fn write_big_endian(p_out: &mut [u8], d: u32)
    requires
        old(p_out)@.len() >= 4,
    ensures
        final(p_out)@.len() == old(p_out)@.len(),
        be_word(final(p_out)@[0], final(p_out)@[1], final(p_out)@[2], final(p_out)@[3]) == d,
        forall|q: int| 4 <= q < old(p_out)@.len() ==> #[trigger] final(p_out)@[q] == old(p_out)@[q],
{
    p_out[0] = (d >> 24) as u8;
    p_out[1] = (d >> 16) as u8;
    p_out[2] = (d >> 8) as u8;
    p_out[3] = d as u8;
    let ghost (b0, b1, b2, b3) = (p_out@[0], p_out@[1], p_out@[2], p_out@[3]);
    assert((b0 as int * 0x1000000 + b1 as int * 0x10000 + b2 as int * 0x100 + b3 as int) as u32
        == d) by (bit_vector)
        requires
            b0 == (d >> 24) as u8,
            b1 == (d >> 16) as u8,
            b2 == (d >> 8) as u8,
            b3 == d as u8,
    ;
}

/// The big-endian 16-bit value in the two bytes of `s` at `off`.
pub open spec fn be16(s: Seq<u8>, off: int) -> int {
    s[off] as int * 256 + s[off + 1] as int
}

/// Writes the low 16 bits of `data` big-endian at the start of `p_out`.
pub fn write_be_uint16(p_out: &mut [u8], data: u32)
    requires
        old(p_out)@.len() >= 2,
    ensures
        final(p_out)@.len() == old(p_out)@.len(),
        be16(final(p_out)@, 0) == data as int % 65536,
        forall|q: int| 2 <= q < old(p_out)@.len() ==> #[trigger] final(p_out)@[q] == old(p_out)@[q],
{
    p_out[0] = (data >> 8) as u8;
    p_out[1] = data as u8;
    let ghost (b0, b1) = (p_out@[0], p_out@[1]);
    assert(b0 as int * 256 + b1 as int == data as int % 65536) by (bit_vector)
        requires
            b0 == (data >> 8) as u8,
            b1 == data as u8,
    ;
}

/// Reads a big-endian 16-bit value from the start of `p_in`.
pub fn read_be_uint16(p_in: &[u8]) -> (r: u32)
    requires
        p_in@.len() >= 2,
    ensures
        r == be16(p_in@, 0),
{
    let b0 = p_in[0];
    let b1 = p_in[1];
    assert((b0 as u32) << 8 | (b1 as u32) == b0 as int * 256 + b1 as int) by (bit_vector);
    ((b0 as u32) << 8) | (b1 as u32)
}

/// Reading the bytes `write_be_uint16` wrote gives back the low 16 bits.
pub proof fn lemma_be_uint16_round_trip(written: Seq<u8>, data: u32)
    requires
        written.len() >= 2,
        be16(written, 0) == data as int % 65536,
    ensures
        be16(written, 0) == (data & 0xffff) as int,
{
    assert(data & 0xffff == data % 65536) by (bit_vector);
}


// ── Encoded size and PKM header ───────────────────────────────────────────────

/// `n` rounded up to a multiple of 4.
pub open spec fn round_up4(n: int) -> int {
    (n + 3) / 4 * 4
}

/// The number of bytes the blocks of a `width` x `height` image take: one
/// 8-byte block per 4x4 tile, with partial tiles at the edges counted whole.
pub open spec fn spec_encoded_data_size(width: int, height: int) -> int {
    ((width + 3) / 4) * ((height + 3) / 4) * 8
}

/// Whether the size computation for a `width` x `height` image stays within `u32`.
pub open spec fn encoded_size_fits(width: u32, height: u32) -> bool {
    &&& width as int + 3 <= u32::MAX
    &&& height as int + 3 <= u32::MAX
    &&& round_up4(width as int) * round_up4(height as int) <= u32::MAX
}

proof fn lemma_round_up4_mask(n: u32)
    requires
        n as int + 3 <= u32::MAX,
    ensures
        ((n + 3) as u32) & !3u32 == round_up4(n as int),
{
    let m = (n + 3) as u32;
    assert(m & !3u32 == (m / 4) * 4) by (bit_vector);
}

/// Returns the size of the encoded image data, without the PKM header.
pub fn get_encoded_data_size(width: u32, height: u32) -> (r: u32)
    requires
        encoded_size_fits(width, height),
    ensures
        r == spec_encoded_data_size(width as int, height as int),
{
    proof {
        lemma_round_up4_mask(width);
        lemma_round_up4_mask(height);
    }
    let ew = (width + 3) & !3;
    let eh = (height + 3) & !3;
    let p = ew * eh;
    let ghost bw = (width as int + 3) / 4;
    let ghost bh = (height as int + 3) / 4;
    assert(p == 16 * (bw * bh)) by (nonlinear_arith)
        requires
            p == ew * eh,
            ew == bw * 4,
            eh == bh * 4,
    ;
    assert(p >> 1 == p / 2) by (bit_vector);
    p >> 1
}

/// The magic bytes "PKM 10" that open a PKM header.
pub open spec fn pkm_magic() -> Seq<u8> {
    seq![0x50u8, 0x4bu8, 0x4du8, 0x20u8, 0x31u8, 0x30u8]
}

/// The high byte of the low 16 bits of `v`.
pub open spec fn hi8(v: int) -> u8 {
    ((v / 256) % 256) as u8
}

/// The low byte of `v`.
pub open spec fn lo8(v: int) -> u8 {
    (v % 256) as u8
}

/// The 16 bytes of the PKM header of a `width` x `height` ETC1 image: the
/// magic, the format (0, RGB without mipmaps), the encoded width and height
/// (rounded up to multiples of 4), then the width and height, each a
/// big-endian 16-bit field holding the low 16 bits of its value.
pub open spec fn spec_pkm_header(width: int, height: int) -> Seq<u8> {
    let ew = round_up4(width);
    let eh = round_up4(height);
    pkm_magic() + seq![
        0u8,
        0u8,
        hi8(ew),
        lo8(ew),
        hi8(eh),
        lo8(eh),
        hi8(width),
        lo8(width),
        hi8(height),
        lo8(height),
    ]
}

/// Whether `header` is a well-formed PKM header: 16 bytes or more, the magic,
/// format 0, and encoded dimensions that are at most 3 above the dimensions.
pub open spec fn spec_pkm_is_valid(header: Seq<u8>) -> bool {
    &&& header.len() >= 16
    &&& header.subrange(0, 6) == pkm_magic()
    &&& be16(header, 6) == 0
    &&& be16(header, 8) >= be16(header, 12)
    &&& be16(header, 8) - be16(header, 12) < 4
    &&& be16(header, 10) >= be16(header, 14)
    &&& be16(header, 10) - be16(header, 14) < 4
}

/// Writes the 16-byte PKM header of a `width` x `height` image at the start of `header`.
pub fn pkm_format_header(header: &mut [u8], width: u32, height: u32)
    requires
        old(header)@.len() >= 16,
        width as int + 3 <= u32::MAX,
        height as int + 3 <= u32::MAX,
    ensures
        final(header)@.len() == old(header)@.len(),
        final(header)@.subrange(0, 16) == spec_pkm_header(width as int, height as int),
        forall|q: int| 16 <= q < old(header)@.len() ==> #[trigger] final(header)@[q] == old(header)@[q],
{
    header[0] = 0x50;
    header[1] = 0x4b;
    header[2] = 0x4d;
    header[3] = 0x20;
    header[4] = 0x31;
    header[5] = 0x30;
    proof {
        lemma_round_up4_mask(width);
        lemma_round_up4_mask(height);
    }
    let encoded_width = (width + 3) & !3;
    let encoded_height = (height + 3) & !3;
    write_u16_at(header, ETC1_PKM_FORMAT_OFFSET, ETC1_RGB_NO_MIPMAPS);
    write_u16_at(header, ETC1_PKM_ENCODED_WIDTH_OFFSET, encoded_width);
    write_u16_at(header, ETC1_PKM_ENCODED_HEIGHT_OFFSET, encoded_height);
    write_u16_at(header, ETC1_PKM_WIDTH_OFFSET, width);
    write_u16_at(header, ETC1_PKM_HEIGHT_OFFSET, height);
    proof {
        let h = header@;
        let spec = spec_pkm_header(width as int, height as int);
        assert forall|q: int| 6 <= q < 16 implies #[trigger] h[q] == spec[q] by {
            let fv: int = if q < 8 {
                0
            } else if q < 10 {
                encoded_width as int
            } else if q < 12 {
                encoded_height as int
            } else if q < 14 {
                width as int
            } else {
                height as int
            };
            let off: int = q - q % 2;
            assert(off == 6 || off == 8 || off == 10 || off == 12 || off == 14);
            lemma_be16_bytes(h, off, fv);
        }
        assert(h.subrange(0, 16) =~= spec);
    }
}

proof fn lemma_be16_bytes(s: Seq<u8>, off: int, v: int)
    requires
        0 <= off,
        off + 1 < s.len(),
        v >= 0,
        be16(s, off) == v % 65536,
    ensures
        s[off] == hi8(v),
        s[off + 1] == lo8(v),
{
    let a = s[off] as int;
    let b = s[off + 1] as int;
    assert(a * 256 + b == v % 65536);
    assert((v % 65536) / 256 == (v / 256) % 256) by (nonlinear_arith)
        requires
            v >= 0,
    ;
    assert((v % 65536) % 256 == v % 256) by (nonlinear_arith)
        requires
            v >= 0,
    ;
}

/// Writes the low 16 bits of `data` big-endian at `off`.
fn write_u16_at(p_out: &mut [u8], off: usize, data: u32)
    requires
        off + 2 <= old(p_out)@.len(),
    ensures
        final(p_out)@.len() == old(p_out)@.len(),
        be16(final(p_out)@, off as int) == data as int % 65536,
        forall|q: int|
            0 <= q < old(p_out)@.len() && q != off && q != off + 1 ==> #[trigger] final(p_out)@[q]
                == old(p_out)@[q],
{
    p_out[off] = (data >> 8) as u8;
    p_out[off + 1] = data as u8;
    let ghost (b0, b1) = (p_out@[off as int], p_out@[off + 1]);
    assert(b0 as int * 256 + b1 as int == data as int % 65536) by (bit_vector)
        requires
            b0 == (data >> 8) as u8,
            b1 == data as u8,
    ;
}

/// Reads a big-endian 16-bit value at `off`.
fn read_u16_at(p_in: &[u8], off: usize) -> (r: u32)
    requires
        off + 2 <= p_in@.len(),
    ensures
        r == be16(p_in@, off as int),
{
    let b0 = p_in[off];
    let b1 = p_in[off + 1];
    assert((b0 as u32) << 8 | (b1 as u32) == b0 as int * 256 + b1 as int) by (bit_vector);
    ((b0 as u32) << 8) | (b1 as u32)
}

/// Whether `header` holds a well-formed PKM header.
pub fn pkm_is_valid(header: &[u8]) -> (r: bool)
    ensures
        r == spec_pkm_is_valid(header@),
{
    if header.len() < ETC_PKM_HEADER_SIZE {
        return false;
    }
    let magic_ok = header[0] == 0x50 && header[1] == 0x4b && header[2] == 0x4d && header[3] == 0x20
        && header[4] == 0x31 && header[5] == 0x30;
    assert(magic_ok == (header@.subrange(0, 6) =~= pkm_magic()));
    if !magic_ok {
        return false;
    }
    let format = read_u16_at(header, ETC1_PKM_FORMAT_OFFSET);
    let encoded_width = read_u16_at(header, ETC1_PKM_ENCODED_WIDTH_OFFSET);
    let encoded_height = read_u16_at(header, ETC1_PKM_ENCODED_HEIGHT_OFFSET);
    let width = read_u16_at(header, ETC1_PKM_WIDTH_OFFSET);
    let height = read_u16_at(header, ETC1_PKM_HEIGHT_OFFSET);
    format == ETC1_RGB_NO_MIPMAPS && encoded_width >= width && encoded_width - width < 4 && encoded_height >= height
        && encoded_height - height < 4
}

/// Reads the image width from a PKM header.
pub fn pkm_get_width(header: &[u8]) -> (r: u32)
    requires
        header@.len() >= 14,
    ensures
        r == be16(header@, 12),
{
    read_u16_at(header, ETC1_PKM_WIDTH_OFFSET)
}

/// Reads the image height from a PKM header.
pub fn pkm_get_height(header: &[u8]) -> (r: u32)
    requires
        header@.len() >= 16,
    ensures
        r == be16(header@, 14),
{
    read_u16_at(header, ETC1_PKM_HEIGHT_OFFSET)
}

/// A header written for a `width` x `height` image is valid and reads back
/// its width and height, for dimensions up to 65532 (beyond that the 16-bit
/// fields cannot hold the rounded-up sizes).
#[verifier::spinoff_prover]
#[verifier::rlimit(30)]
pub proof fn lemma_pkm_header_round_trip(width: int, height: int)
    requires
        0 <= width <= 65532,
        0 <= height <= 65532,
    ensures
        spec_pkm_is_valid(spec_pkm_header(width, height)),
        be16(spec_pkm_header(width, height), 12) == width,
        be16(spec_pkm_header(width, height), 14) == height,
{
    let h = spec_pkm_header(width, height);
    assert(h.subrange(0, 6) =~= pkm_magic());
    let ew = round_up4(width);
    let eh = round_up4(height);
    assert(be16(h, 8) == ew);
    assert(be16(h, 10) == eh);
    assert(be16(h, 12) == width);
    assert(be16(h, 14) == height);
}


// ── Block encode: what the encoder computes ───────────────────────────────────

/// Channel `c` of pixel `p` (0..16, pixel (x, y) is `x + 4y`) of a block of
/// RGB888 pixels.
pub open spec fn block_px(input: Seq<u8>, p: int, c: int) -> int {
    input[3 * p + c] as int
}

/// Whether pixel `p` lies in the given sub-block.
pub open spec fn pixel_in_subblock(flipped: bool, second: bool, p: int) -> bool {
    in_second(flipped, p % 4, p / 4) == second
}

/// Whether bit `p` of the validity mask is set.
pub open spec fn mask_has(mask: u32, p: int) -> bool {
    (mask >> (p as u32)) & 1 == 1
}

/// Whether pixel `p` is a valid pixel of the given sub-block.
pub open spec fn counted(mask: u32, flipped: bool, second: bool, p: int) -> bool {
    0 <= p < 16 && pixel_in_subblock(flipped, second, p) && mask_has(mask, p)
}

/// Sum of channel `c` over the valid pixels of a sub-block among pixels `0..n`.
pub open spec fn channel_sum(
    input: Seq<u8>,
    mask: u32,
    flipped: bool,
    second: bool,
    c: int,
    n: int,
) -> int
    decreases n,
{
    if n <= 0 {
        0
    } else {
        channel_sum(input, mask, flipped, second, c, n - 1) + if counted(
            mask,
            flipped,
            second,
            n - 1,
        ) {
            block_px(input, n - 1, c)
        } else {
            0
        }
    }
}

/// The average colour channel of a sub-block: the sum over its valid pixels
/// divided, rounding, by its eight pixels.
pub open spec fn average_channel(input: Seq<u8>, mask: u32, flipped: bool, second: bool, c: int) -> int {
    (channel_sum(input, mask, flipped, second, c, 16) + 4) / 8
}

/// The six average channels (first sub-block, then second) for an orientation.
pub open spec fn average_colors(input: Seq<u8>, mask: u32, flipped: bool) -> Seq<u8> {
    seq![
        average_channel(input, mask, flipped, false, 0) as u8,
        average_channel(input, mask, flipped, false, 1) as u8,
        average_channel(input, mask, flipped, false, 2) as u8,
        average_channel(input, mask, flipped, true, 0) as u8,
        average_channel(input, mask, flipped, true, 1) as u8,
        average_channel(input, mask, flipped, true, 2) as u8,
    ]
}

/// An 8-bit channel narrowed to 5 bits.
pub open spec fn q5(v: u8) -> int {
    spec_divide_by_255(v as int * 31)
}

/// An 8-bit channel narrowed to 4 bits.
pub open spec fn q4(v: u8) -> int {
    spec_divide_by_255(v as int * 15)
}

/// Whether the two sub-block colours `a` (six channels) can be stored as a
/// 5-bit colour and a signed 3-bit delta per channel.
pub open spec fn differential_ok(a: Seq<u8>) -> bool {
    &&& -4 <= q5(a[3]) - q5(a[0]) <= 3
    &&& -4 <= q5(a[4]) - q5(a[1]) <= 3
    &&& -4 <= q5(a[5]) - q5(a[2]) <= 3
}

/// The base-colour bits of the high word for the sub-block colours `a`.
pub open spec fn base_bits(a: Seq<u8>) -> u32 {
    if differential_ok(a) {
        ((q5(a[0]) as u32) << 27u32) | ((((q5(a[3]) - q5(a[0])) % 8) as u32) << 24u32) | ((q5(
            a[1],
        ) as u32) << 19u32) | ((((q5(a[4]) - q5(a[1])) % 8) as u32) << 16u32) | ((q5(a[2]) as u32)
            << 11u32) | ((((q5(a[5]) - q5(a[2])) % 8) as u32) << 8u32) | 2u32
    } else {
        ((q4(a[0]) as u32) << 28u32) | ((q4(a[3]) as u32) << 24u32) | ((q4(a[1]) as u32) << 20u32)
            | ((q4(a[4]) as u32) << 16u32) | ((q4(a[2]) as u32) << 12u32) | ((q4(a[5]) as u32)
            << 8u32)
    }
}

/// The 8-bit base colour channel `c` the encoder uses for a sub-block with
/// colours `a`: the quantised colour widened back to 8 bits.
pub open spec fn encoded_base(a: Seq<u8>, second: bool, c: int) -> int {
    let v = a[if second { 3 + c } else { c }];
    if differential_ok(a) {
        expand5(q5(v))
    } else {
        expand4(q4(v))
    }
}

/// The square of `x`.
pub open spec fn sq(x: int) -> int {
    x * x
}

/// The weighted squared error (green 6, red 3, blue 1) between pixel `p` and
/// the base colour (br, bg, bb) shifted by entry `i` of modifier table `t`.
pub open spec fn modifier_error(
    input: Seq<u8>,
    p: int,
    br: int,
    bg: int,
    bb: int,
    t: int,
    i: int,
) -> int {
    let m = modifier_value(t, i);
    6 * sq(spec_clamp(bg + m) - block_px(input, p, 1)) + 3 * sq(
        spec_clamp(br + m) - block_px(input, p, 0),
    ) + sq(spec_clamp(bb + m) - block_px(input, p, 2))
}

/// The first index among `0..n` at which `f` is smallest.
pub open spec fn first_min_index(f: spec_fn(int) -> int, n: int) -> int
    decreases n,
{
    if n <= 1 {
        0
    } else {
        let b = first_min_index(f, n - 1);
        if f(n - 1) < f(b) {
            n - 1
        } else {
            b
        }
    }
}

/// The modifier index (first among the smallest errors) the encoder picks
/// for pixel `p` with base colour (br, bg, bb) and table `t`.
pub open spec fn best_modifier(input: Seq<u8>, p: int, br: int, bg: int, bb: int, t: int) -> int {
    first_min_index(|i: int| modifier_error(input, p, br, bg, bb, t, i), 4)
}

/// The error of the modifier the encoder picks for pixel `p`.
pub open spec fn best_error(input: Seq<u8>, p: int, br: int, bg: int, bb: int, t: int) -> int {
    modifier_error(input, p, br, bg, bb, t, best_modifier(input, p, br, bg, bb, t))
}

/// Sum of the picked errors over the valid pixels of a sub-block among pixels `0..n`.
pub open spec fn subblock_score(
    input: Seq<u8>,
    mask: u32,
    flipped: bool,
    second: bool,
    br: int,
    bg: int,
    bb: int,
    t: int,
    n: int,
) -> int
    decreases n,
{
    if n <= 0 {
        0
    } else {
        subblock_score(input, mask, flipped, second, br, bg, bb, t, n - 1) + if counted(
            mask,
            flipped,
            second,
            n - 1,
        ) {
            best_error(input, n - 1, br, bg, bb, t)
        } else {
            0
        }
    }
}

proof fn lemma_first_min_index_range(f: spec_fn(int) -> int, n: int)
    requires
        n >= 1,
    ensures
        0 <= first_min_index(f, n) < n,
    decreases n,
{
    if n > 1 {
        lemma_first_min_index_range(f, n - 1);
    }
}

/// The first smallest index is smallest: no value of `f` on `0..n` is below
/// it, and every earlier index is strictly above it.
pub proof fn lemma_first_min_index_is_min(f: spec_fn(int) -> int, n: int)
    requires
        n >= 1,
    ensures
        0 <= first_min_index(f, n) < n,
        forall|j: int| 0 <= j < n ==> f(first_min_index(f, n)) <= #[trigger] f(j),
        forall|j: int| 0 <= j < first_min_index(f, n) ==> f(first_min_index(f, n)) < #[trigger] f(j),
    decreases n,
{
    if n > 1 {
        lemma_first_min_index_is_min(f, n - 1);
    }
}

/// The position of the low modifier bit of pixel `p` in the low word.
pub open spec fn mod_bit(p: int) -> int {
    p / 4 + 4 * (p % 4)
}

/// The modifier index the low word holds for pixel `p`.
pub open spec fn mod_index_at(low: u32, p: int) -> int {
    pixel_mod_index(low, p % 4, p / 4)
}

/// The bits that store modifier index `idx` for the pixel whose low bit sits
/// at position `k` of the low word: the index's low bit at `k`, its high bit
/// sixteen positions above.
pub open spec fn mod_mask(idx: u32, k: u32) -> u32 {
    (((idx >> 1u32) << 16u32) | (idx & 1)) << k
}

/// OR-ing a modifier index into the low word leaves every other pixel's bits
/// alone, and stores the index when the pixel's bits were clear.
proof fn lemma_or_mod_bits(low: u32, idx: u32, k: u32, k2: u32)
    requires
        idx < 4,
        k < 16,
        k2 < 16,
    ensures
        ({
            let l2 = low | mod_mask(idx, k);
            &&& (low >> k) & 1 == 0 && (low >> (k + 16)) & 1 == 0 ==> (l2 >> k) & 1 == idx & 1 && (l2
                >> (k + 16)) & 1 == idx >> 1u32
            &&& k2 != k ==> (l2 >> k2) & 1 == (low >> k2) & 1 && (l2 >> (k2 + 16)) & 1 == (low >> (
                k2 + 16)) & 1
        }),
{
    assert({
        let l2 = low | ((((idx >> 1u32) << 16u32) | (idx & 1)) << k);
        &&& (low >> k) & 1 == 0 && (low >> (k + 16)) & 1 == 0 ==> (l2 >> k) & 1 == idx & 1 && (l2
            >> (k + 16)) & 1 == idx >> 1u32
        &&& k2 != k ==> (l2 >> k2) & 1 == (low >> k2) & 1 && (l2 >> (k2 + 16)) & 1 == (low >> (k2
            + 16)) & 1
    }) by (bit_vector)
        requires
            idx < 4,
            k < 16,
            k2 < 16,
    ;
}

proof fn lemma_mod_bit(p: int)
    requires
        0 <= p < 16,
    ensures
        0 <= mod_bit(p) < 16,
        mod_bit(p) == (p / 4) + 4 * (p % 4),
        forall|p2: int| 0 <= p2 < 16 && p2 != p ==> #[trigger] mod_bit(p2) != mod_bit(p),
{
    assert forall|p2: int| 0 <= p2 < 16 && p2 != p implies #[trigger] mod_bit(p2) != mod_bit(p) by {
        assert(p == 4 * (p / 4) + p % 4);
        assert(p2 == 4 * (p2 / 4) + p2 % 4);
    }
}

/// Picks the entry of modifier table `t` that brings pixel `p` closest to the
/// base colour (r, g, b), ORs its index into the pixel's two bits of
/// `p_low`, and returns its error.
fn choose_modifier(
    r: i32,
    g: i32,
    b: i32,
    p_in: &[u8],
    p: usize,
    p_low: &mut u32,
    t: usize,
) -> (score: u32)
    requires
        0 <= r <= 255,
        0 <= g <= 255,
        0 <= b <= 255,
        p < 16,
        p_in@.len() >= 48,
        t < 8,
    ensures
        score == best_error(p_in@, p as int, r as int, g as int, b as int, t as int),
        score <= 650250,
        *final(p_low) == *old(p_low) | mod_mask(
            best_modifier(p_in@, p as int, r as int, g as int, b as int, t as int) as u32,
            mod_bit(p as int) as u32,
        ),
        mod_index_at(*old(p_low), p as int) == 0 ==> mod_index_at(*final(p_low), p as int)
            == best_modifier(p_in@, p as int, r as int, g as int, b as int, t as int),
        forall|p2: int|
            0 <= p2 < 16 && p2 != p ==> #[trigger] mod_index_at(*final(p_low), p2) == mod_index_at(
                *old(p_low),
                p2,
            ),
{
    let ghost f = |i: int| modifier_error(p_in@, p as int, r as int, g as int, b as int, t as int, i);
    let mut best_score: u32 = u32::MAX;
    let mut best_index: u32 = 0;
    let pixel_r = p_in[3 * p] as i32;
    let pixel_g = p_in[3 * p + 1] as i32;
    let pixel_b = p_in[3 * p + 2] as i32;
    let mut i: usize = 0;
    while i < 4
        invariant
            0 <= i <= 4,
            0 <= r <= 255,
            0 <= g <= 255,
            0 <= b <= 255,
            p < 16,
            p_in@.len() >= 48,
            t < 8,
            pixel_r == block_px(p_in@, p as int, 0),
            pixel_g == block_px(p_in@, p as int, 1),
            pixel_b == block_px(p_in@, p as int, 2),
            f == (|j: int| modifier_error(p_in@, p as int, r as int, g as int, b as int, t as int, j)),
            i == 0 ==> best_score == u32::MAX,
            i > 0 ==> best_index == first_min_index(f, i as int) && best_score == f(best_index as int)
                && best_score <= 650250,
        decreases 4 - i,
    {
        let modifier = modifier(t, i);
        let decoded_g = clamp(g + modifier) as i32;
        let dg = decoded_g - pixel_g;
        let dr0 = clamp(r + modifier) as i32 - pixel_r;
        let db0 = clamp(b + modifier) as i32 - pixel_b;
        assert(sq(dg as int) <= 65025 && sq(dr0 as int) <= 65025 && sq(db0 as int) <= 65025)
            by (nonlinear_arith)
            requires
                -255 <= dg <= 255,
                -255 <= dr0 <= 255,
                -255 <= db0 <= 255,
        ;
        assert(0 <= sq(dg as int) && 0 <= sq(dr0 as int) && 0 <= sq(db0 as int)) by (nonlinear_arith);
        let ghost full = f(i as int);
        assert(full == 6 * sq(dg as int) + 3 * sq(dr0 as int) + sq(db0 as int));
        let score_g = (6 * square(dg)) as u32;
        if score_g < best_score {
            let decoded_r = clamp(r + modifier) as i32;
            let score_gr = score_g + (3 * square(decoded_r - pixel_r)) as u32;
            if score_gr < best_score {
                let decoded_b = clamp(b + modifier) as i32;
                let score_grb = score_gr + square(decoded_b - pixel_b) as u32;
                if score_grb < best_score {
                    best_score = score_grb;
                    best_index = i as u32;
                }
            }
        }
        i += 1;
    }
    proof {
        lemma_first_min_index_range(f, 4);
    }
    assert(p >> 2 == p / 4 && p & 3 == p % 4) by (bit_vector);
    let k = ((p >> 2) + (p & 3) * 4) as u32;
    proof {
        lemma_mod_bit(p as int);
    }
    assert(k as int == mod_bit(p as int));
    let ghost old_low = *p_low;
    let low_mask = (((best_index >> 1) << 16) | (best_index & 1)) << k;
    *p_low = *p_low | low_mask;
    proof {
        if mod_index_at(old_low, p as int) == 0 {
            assert((old_low >> k) & 1 == 0 && (old_low >> (k + 16)) & 1 == 0) by (bit_vector)
                requires
                    ((old_low >> k) & 1) as int + 2 * ((old_low >> (k + 16)) & 1) as int == 0,
            ;
        }
        lemma_or_mod_bits(old_low, best_index, k, 0);
        assert(best_index == (best_index & 1) + 2 * (best_index >> 1u32)) by (bit_vector)
            requires
                best_index < 4,
        ;
        assert forall|p2: int| 0 <= p2 < 16 && p2 != p implies #[trigger] mod_index_at(
            *p_low,
            p2,
        ) == mod_index_at(old_low, p2) by {
            lemma_mod_bit(p2);
            lemma_or_mod_bits(old_low, best_index, k, mod_bit(p2) as u32);
        }
    }
    best_score
}


/// Number of pixels of a sub-block among pixels `0..n`.
pub open spec fn subblock_pixels(flipped: bool, second: bool, n: int) -> int
    decreases n,
{
    if n <= 0 {
        0
    } else {
        subblock_pixels(flipped, second, n - 1) + if pixel_in_subblock(flipped, second, n - 1) {
            1int
        } else {
            0
        }
    }
}

proof fn lemma_subblock_has_eight_pixels(flipped: bool, second: bool)
    ensures
        subblock_pixels(flipped, second, 16) == 8,
{
    reveal_with_fuel(subblock_pixels, 17);
}

proof fn lemma_channel_sum_bound(input: Seq<u8>, mask: u32, flipped: bool, second: bool, c: int, n: int)
    requires
        0 <= n <= 16,
        input.len() >= 48,
        0 <= c < 3,
    ensures
        0 <= channel_sum(input, mask, flipped, second, c, n) <= 255 * subblock_pixels(
            flipped,
            second,
            n,
        ),
    decreases n,
{
    if n > 0 {
        lemma_channel_sum_bound(input, mask, flipped, second, c, n - 1);
    }
}

/// Whether pixel `p` is in the given sub-block, computed from its index.
fn is_in_subblock(p: u32, flipped: bool, second: bool) -> (r: bool)
    requires
        p < 16,
    ensures
        r == pixel_in_subblock(flipped, second, p as int),
{
    assert(p & 3 == p % 4 && p >> 2 == p / 4) by (bit_vector);
    let in_second_half = if flipped {
        (p >> 2) >= 2
    } else {
        (p & 3) >= 2
    };
    in_second_half == second
}

/// Whether bit `p` of `mask` is set.
fn mask_bit(mask: u32, p: u32) -> (r: bool)
    requires
        p < 16,
    ensures
        r == mask_has(mask, p as int),
{
    assert((mask & (1u32 << p) != 0) == ((mask >> p) & 1 == 1)) by (bit_vector)
        requires
            p < 16,
    ;
    mask & (1u32 << p) != 0
}

/// The average colour of a sub-block's valid pixels, each channel the sum
/// over valid pixels divided by eight with rounding. Pixels are visited in
/// increasing index order.
fn etc_average_colors_subblock(p_in: &[u8], in_mask: u32, flipped: bool, second: bool) -> (colors: (
    u8,
    u8,
    u8,
))
    requires
        p_in@.len() >= 48,
    ensures
        colors.0 == average_channel(p_in@, in_mask, flipped, second, 0),
        colors.1 == average_channel(p_in@, in_mask, flipped, second, 1),
        colors.2 == average_channel(p_in@, in_mask, flipped, second, 2),
{
    let mut r: i32 = 0;
    let mut g: i32 = 0;
    let mut b: i32 = 0;
    let mut i: u32 = 0;
    proof {
        lemma_subblock_has_eight_pixels(flipped, second);
    }
    while i < 16
        invariant
            0 <= i <= 16,
            p_in@.len() >= 48,
            r == channel_sum(p_in@, in_mask, flipped, second, 0, i as int),
            g == channel_sum(p_in@, in_mask, flipped, second, 1, i as int),
            b == channel_sum(p_in@, in_mask, flipped, second, 2, i as int),
        decreases 16 - i,
    {
        proof {
            lemma_channel_sum_bound(p_in@, in_mask, flipped, second, 0, i as int);
            lemma_channel_sum_bound(p_in@, in_mask, flipped, second, 1, i as int);
            lemma_channel_sum_bound(p_in@, in_mask, flipped, second, 2, i as int);
            lemma_subblock_pixels_bound(flipped, second, i as int);
        }
        if is_in_subblock(i, flipped, second) && mask_bit(in_mask, i) {
            let q = (i * 3) as usize;
            r += p_in[q] as i32;
            g += p_in[q + 1] as i32;
            b += p_in[q + 2] as i32;
        }
        i += 1;
    }
    proof {
        lemma_channel_sum_bound(p_in@, in_mask, flipped, second, 0, 16);
        lemma_channel_sum_bound(p_in@, in_mask, flipped, second, 1, 16);
        lemma_channel_sum_bound(p_in@, in_mask, flipped, second, 2, 16);
    }
    let (r4, g4, b4) = (r + 4, g + 4, b + 4);
    assert(r4 >> 3 == r4 / 8 && g4 >> 3 == g4 / 8 && b4 >> 3 == b4 / 8) by (bit_vector)
        requires
            0 <= r4 <= 2044,
            0 <= g4 <= 2044,
            0 <= b4 <= 2044,
    ;
    ((r4 >> 3) as u8, (g4 >> 3) as u8, (b4 >> 3) as u8)
}

proof fn lemma_subblock_pixels_bound(flipped: bool, second: bool, n: int)
    requires
        0 <= n <= 16,
    ensures
        0 <= subblock_pixels(flipped, second, n) <= n,
    decreases n,
{
    if n > 0 {
        lemma_subblock_pixels_bound(flipped, second, n - 1);
    }
}


/// A candidate encoding of a block: its two words and its total error.
#[derive(Clone, Copy)]
struct EtcCompressed {
    high: u32,
    low: u32,
    score: u32,  // lower is more accurate
}

/// Keeps the candidate with the lower score, `a` on a tie.
fn take_best(a: &mut EtcCompressed, b: &EtcCompressed)
    ensures
        *final(a) == if old(a).score > b.score {
            *b
        } else {
            *old(a)
        },
{
    if a.score > b.score {
        *a = *b;
    }
}

/// The modifier bits the encoder ORs into the low word for the valid pixels
/// of a sub-block among pixels `0..n`: each pixel's best modifier index for
/// base colour (br, bg, bb) and table `t`.
pub open spec fn subblock_low_bits(
    input: Seq<u8>,
    mask: u32,
    flipped: bool,
    second: bool,
    br: int,
    bg: int,
    bb: int,
    t: int,
    n: int,
) -> u32
    decreases n,
{
    if n <= 0 {
        0
    } else if counted(mask, flipped, second, n - 1) {
        subblock_low_bits(input, mask, flipped, second, br, bg, bb, t, n - 1) | mod_mask(
            best_modifier(input, n - 1, br, bg, bb, t) as u32,
            mod_bit(n - 1) as u32,
        )
    } else {
        subblock_low_bits(input, mask, flipped, second, br, bg, bb, t, n - 1)
    }
}

proof fn lemma_or_assoc(a: u32, b: u32, c: u32)
    ensures
        (a | b) | c == a | (b | c),
        a | 0 == a,
{
    assert((a | b) | c == a | (b | c) && a | 0 == a) by (bit_vector);
}

proof fn lemma_subblock_score_monotone(
    input: Seq<u8>,
    mask: u32,
    flipped: bool,
    second: bool,
    br: int,
    bg: int,
    bb: int,
    t: int,
    n: int,
    m: int,
)
    requires
        0 <= n <= m <= 16,
        input.len() >= 48,
        0 <= br <= 255,
        0 <= bg <= 255,
        0 <= bb <= 255,
        0 <= t < 8,
    ensures
        subblock_score(input, mask, flipped, second, br, bg, bb, t, n) <= subblock_score(
            input,
            mask,
            flipped,
            second,
            br,
            bg,
            bb,
            t,
            m,
        ),
    decreases m - n,
{
    if n < m {
        lemma_subblock_score_monotone(input, mask, flipped, second, br, bg, bb, t, n, m - 1);
        if counted(mask, flipped, second, m - 1) {
            lemma_best_error_bound(input, m - 1, br, bg, bb, t);
        }
    }
}

/// Picks, for every valid pixel of one sub-block, the entry of modifier
/// table `t` that best matches it for base colour (r, g, b): ORs the chosen
/// indices into the low word and adds the pixels' errors to the score.
fn etc_encode_subblock_helper(
    p_in: &[u8],
    in_mask: u32,
    p_compressed: &mut EtcCompressed,
    flipped: bool,
    second: bool,
    r: i32,
    g: i32,
    b: i32,
    t: usize,
)
    requires
        p_in@.len() >= 48,
        0 <= r <= 255,
        0 <= g <= 255,
        0 <= b <= 255,
        t < 8,
        old(p_compressed).score + subblock_score(
            p_in@,
            in_mask,
            flipped,
            second,
            r as int,
            g as int,
            b as int,
            t as int,
            16,
        ) <= u32::MAX,
    ensures
        final(p_compressed).high == old(p_compressed).high,
        final(p_compressed).score == old(p_compressed).score + subblock_score(
            p_in@,
            in_mask,
            flipped,
            second,
            r as int,
            g as int,
            b as int,
            t as int,
            16,
        ),
        final(p_compressed).low == old(p_compressed).low | subblock_low_bits(
            p_in@,
            in_mask,
            flipped,
            second,
            r as int,
            g as int,
            b as int,
            t as int,
            16,
        ),
        (forall|p: int|
            #![trigger mod_index_at(old(p_compressed).low, p)]
            counted(in_mask, flipped, second, p) ==> mod_index_at(old(p_compressed).low, p) == 0)
            ==> forall|p: int|
            0 <= p < 16 ==> #[trigger] mod_index_at(final(p_compressed).low, p) == if counted(
                in_mask,
                flipped,
                second,
                p,
            ) {
                best_modifier(p_in@, p, r as int, g as int, b as int, t as int)
            } else {
                mod_index_at(old(p_compressed).low, p)
            },
{
    let ghost low0 = p_compressed.low;
    let ghost score0 = p_compressed.score;
    let ghost clear0 = forall|p: int|
        #![trigger mod_index_at(low0, p)]
        counted(in_mask, flipped, second, p) ==> mod_index_at(low0, p) == 0;
    let mut score = p_compressed.score;
    let mut low = p_compressed.low;
    proof {
        lemma_or_assoc(low0, 0, 0);
    }
    let mut i: u32 = 0;
    while i < 16
        invariant
            0 <= i <= 16,
            p_in@.len() >= 48,
            0 <= r <= 255,
            0 <= g <= 255,
            0 <= b <= 255,
            t < 8,
            score0 + subblock_score(
                p_in@,
                in_mask,
                flipped,
                second,
                r as int,
                g as int,
                b as int,
                t as int,
                16,
            ) <= u32::MAX,
            score == score0 + subblock_score(
                p_in@,
                in_mask,
                flipped,
                second,
                r as int,
                g as int,
                b as int,
                t as int,
                i as int,
            ),
            low == low0 | subblock_low_bits(
                p_in@,
                in_mask,
                flipped,
                second,
                r as int,
                g as int,
                b as int,
                t as int,
                i as int,
            ),
            clear0 == forall|p: int|
                #![trigger mod_index_at(low0, p)]
                counted(in_mask, flipped, second, p) ==> mod_index_at(low0, p) == 0,
            clear0 ==> forall|p: int|
                0 <= p < 16 ==> #[trigger] mod_index_at(low, p) == if counted(
                    in_mask,
                    flipped,
                    second,
                    p,
                ) && p < i {
                    best_modifier(p_in@, p, r as int, g as int, b as int, t as int)
                } else {
                    mod_index_at(low0, p)
                },
        decreases 16 - i,
    {
        proof {
            lemma_subblock_score_monotone(
                p_in@,
                in_mask,
                flipped,
                second,
                r as int,
                g as int,
                b as int,
                t as int,
                i + 1,
                16,
            );
        }
        if is_in_subblock(i, flipped, second) && mask_bit(in_mask, i) {
            proof {
                if clear0 {
                    assert(mod_index_at(low, i as int) == 0);
                }
            }
            let s = choose_modifier(r, g, b, p_in, i as usize, &mut low, t);
            proof {
                lemma_or_assoc(
                    low0,
                    subblock_low_bits(
                        p_in@,
                        in_mask,
                        flipped,
                        second,
                        r as int,
                        g as int,
                        b as int,
                        t as int,
                        i as int,
                    ),
                    mod_mask(
                        best_modifier(p_in@, i as int, r as int, g as int, b as int, t as int) as u32,
                        mod_bit(i as int) as u32,
                    ),
                );
            }
            score = score + s;
        }
        i += 1;
    }
    p_compressed.score = score;
    p_compressed.low = low;
}

/// Quantises the two sub-block colours `p_colors` to the base colours of the
/// block: a 5-bit colour and a 3-bit delta when the deltas fit, two 4-bit
/// colours otherwise. Adds their bits to the high word and returns the base
/// colours widened back to 8 bits.
fn etc_encode_base_colors(p_colors: &[u8; 6], p_compressed: &mut EtcCompressed) -> (bases: [u8; 6])
    ensures
        final(p_compressed).high == old(p_compressed).high | base_bits(p_colors@),
        final(p_compressed).low == old(p_compressed).low,
        final(p_compressed).score == old(p_compressed).score,
        forall|c: int|
            0 <= c < 3 ==> #[trigger] bases@[c] as int == encoded_base(p_colors@, false, c) && bases@[3
                + c] as int == encoded_base(p_colors@, true, c),
{
    let ghost a = p_colors@;
    let c0 = p_colors[0] as i32;
    let c1 = p_colors[1] as i32;
    let c2 = p_colors[2] as i32;
    let c3 = p_colors[3] as i32;
    let c4 = p_colors[4] as i32;
    let c5 = p_colors[5] as i32;
    assert(c0 & 0xff == c0 && c1 & 0xff == c1 && c2 & 0xff == c2 && c3 & 0xff == c3 && c4 & 0xff
        == c4 && c5 & 0xff == c5) by (bit_vector)
        requires
            0 <= c0 < 256,
            0 <= c1 < 256,
            0 <= c2 < 256,
            0 <= c3 < 256,
            0 <= c4 < 256,
            0 <= c5 < 256,
    ;
    let r51 = convert8_to5(c0);
    let g51 = convert8_to5(c1);
    let b51 = convert8_to5(c2);
    let r52 = convert8_to5(c3);
    let g52 = convert8_to5(c4);
    let b52 = convert8_to5(c5);
    assert(r51 == q5(a[0]) && g51 == q5(a[1]) && b51 == q5(a[2]) && r52 == q5(a[3]) && g52 == q5(
        a[4],
    ) && b52 == q5(a[5]));
    let dr = r52 - r51;
    let dg = g52 - g51;
    let db = b52 - b51;
    let differential = in_range_4bit_signed(dr) && in_range_4bit_signed(dg) && in_range_4bit_signed(
        db,
    );
    assert(differential == differential_ok(a));
    let r1: i32;
    let g1: i32;
    let b1: i32;
    let r2: i32;
    let g2: i32;
    let b2: i32;
    if differential {
        r1 = convert5_to8(r51);
        g1 = convert5_to8(g51);
        b1 = convert5_to8(b51);
        r2 = convert5_to8(r51 + dr);
        g2 = convert5_to8(g51 + dg);
        b2 = convert5_to8(b51 + db);
        assert(r51 & 0x1f == r51 && g51 & 0x1f == g51 && b51 & 0x1f == b51 && r52 & 0x1f == r52
            && g52 & 0x1f == g52 && b52 & 0x1f == b52) by (bit_vector)
            requires
                0 <= r51 < 32,
                0 <= g51 < 32,
                0 <= b51 < 32,
                0 <= r52 < 32,
                0 <= g52 < 32,
                0 <= b52 < 32,
        ;
        assert((7 & dr) as int == dr as int % 8 && (7 & dg) as int == dg as int % 8 && (7 & db) as int
            == db as int % 8 && 0 <= 7 & dr < 8 && 0 <= 7 & dg < 8 && 0 <= 7 & db < 8)
            by (bit_vector)
            requires
                -4 <= dr <= 3,
                -4 <= dg <= 3,
                -4 <= db <= 3,
        ;
        p_compressed.high = p_compressed.high | (((r51 as u32) << 27) | (((7 & dr) as u32) << 24) | ((
        g51 as u32) << 19) | (((7 & dg) as u32) << 16) | ((b51 as u32) << 11) | (((7 & db) as u32)
            << 8) | 2);
    } else {
        let r41 = convert8_to4(c0);
        let g41 = convert8_to4(c1);
        let b41 = convert8_to4(c2);
        let r42 = convert8_to4(c3);
        let g42 = convert8_to4(c4);
        let b42 = convert8_to4(c5);
        assert(r41 & 0xf == r41 && g41 & 0xf == g41 && b41 & 0xf == b41 && r42 & 0xf == r42 && g42
            & 0xf == g42 && b42 & 0xf == b42) by (bit_vector)
            requires
                0 <= r41 < 16,
                0 <= g41 < 16,
                0 <= b41 < 16,
                0 <= r42 < 16,
                0 <= g42 < 16,
                0 <= b42 < 16,
        ;
        r1 = convert4_to8(r41);
        g1 = convert4_to8(g41);
        b1 = convert4_to8(b41);
        r2 = convert4_to8(r42);
        g2 = convert4_to8(g42);
        b2 = convert4_to8(b42);
        p_compressed.high = p_compressed.high | (((r41 as u32) << 28) | ((r42 as u32) << 24) | ((
        g41 as u32) << 20) | ((g42 as u32) << 16) | ((b41 as u32) << 12) | ((b42 as u32) << 8));
    }
    [r1 as u8, g1 as u8, b1 as u8, r2 as u8, g2 as u8, b2 as u8]
}

/// The error of sub-block `second` when every valid pixel uses the best entry
/// of modifier table `t` around the base colour the encoder derives from `a`.
pub open spec fn table_score(
    input: Seq<u8>,
    mask: u32,
    flipped: bool,
    second: bool,
    a: Seq<u8>,
    t: int,
) -> int {
    subblock_score(
        input,
        mask,
        flipped,
        second,
        encoded_base(a, second, 0),
        encoded_base(a, second, 1),
        encoded_base(a, second, 2),
        t,
        16,
    )
}

/// The modifier table (first among the smallest errors) the encoder picks for a sub-block.
pub open spec fn best_table(input: Seq<u8>, mask: u32, flipped: bool, second: bool, a: Seq<u8>) -> int {
    first_min_index(|t: int| table_score(input, mask, flipped, second, a, t), 8)
}

/// The total error of the candidate encoding with orientation `flipped` and
/// sub-block colours `a`.
pub open spec fn candidate_score(input: Seq<u8>, mask: u32, flipped: bool, a: Seq<u8>) -> int {
    table_score(input, mask, flipped, false, a, best_table(input, mask, flipped, false, a))
        + table_score(input, mask, flipped, true, a, best_table(input, mask, flipped, true, a))
}

/// The high word of the candidate encoding: orientation bit, base colours,
/// and the two modifier tables.
pub open spec fn candidate_high(input: Seq<u8>, mask: u32, flipped: bool, a: Seq<u8>) -> u32 {
    ((if flipped {
        1u32
    } else {
        0u32
    } | base_bits(a)) | ((best_table(input, mask, flipped, false, a) as u32) << 5u32)) | ((
    best_table(input, mask, flipped, true, a) as u32) << 2u32)
}

/// The modifier index the candidate encoding stores for pixel `p`: the best
/// entry of its sub-block's table for a valid pixel, 0 for an ignored one.
pub open spec fn candidate_mod_index(input: Seq<u8>, mask: u32, flipped: bool, a: Seq<u8>, p: int) -> int {
    let second = in_second(flipped, p % 4, p / 4);
    if mask_has(mask, p) {
        best_modifier(
            input,
            p,
            encoded_base(a, second, 0),
            encoded_base(a, second, 1),
            encoded_base(a, second, 2),
            best_table(input, mask, flipped, second, a),
        )
    } else {
        0
    }
}

proof fn lemma_subblock_score_bound(
    input: Seq<u8>,
    mask: u32,
    flipped: bool,
    second: bool,
    br: int,
    bg: int,
    bb: int,
    t: int,
    n: int,
)
    requires
        0 <= n <= 16,
        input.len() >= 48,
        0 <= br <= 255,
        0 <= bg <= 255,
        0 <= bb <= 255,
        0 <= t < 8,
    ensures
        0 <= subblock_score(input, mask, flipped, second, br, bg, bb, t, n) <= 650250 * n,
    decreases n,
{
    if n > 0 {
        lemma_subblock_score_bound(input, mask, flipped, second, br, bg, bb, t, n - 1);
        if counted(mask, flipped, second, n - 1) {
            lemma_best_error_bound(input, n - 1, br, bg, bb, t);
        }
    }
}

proof fn lemma_best_error_bound(input: Seq<u8>, p: int, br: int, bg: int, bb: int, t: int)
    requires
        0 <= p < 16,
        input.len() >= 48,
    ensures
        0 <= best_error(input, p, br, bg, bb, t) <= 650250,
{
    let i = best_modifier(input, p, br, bg, bb, t);
    let m = modifier_value(t, i);
    let dg = spec_clamp(bg + m) - block_px(input, p, 1);
    let dr = spec_clamp(br + m) - block_px(input, p, 0);
    let db = spec_clamp(bb + m) - block_px(input, p, 2);
    assert(0 <= sq(dg) <= 65025 && 0 <= sq(dr) <= 65025 && 0 <= sq(db) <= 65025) by (nonlinear_arith)
        requires
            -255 <= dg <= 255,
            -255 <= dr <= 255,
            -255 <= db <= 255,
    ;
}

proof fn lemma_zero_low()
    ensures
        forall|p: int| 0 <= p < 16 ==> #[trigger] mod_index_at(0u32, p) == 0,
{
    assert forall|p: int| 0 <= p < 16 implies #[trigger] mod_index_at(0u32, p) == 0 by {
        let k = (p % 4) * 4 + p / 4;
        assert(0 <= k < 16);
        let ku = k as u32;
        assert((0u32 >> ku) & 1 == 0 && (0u32 >> ((ku + 16) as u32)) & 1 == 0) by (bit_vector);
    }
}

/// Encodes a block for one orientation: quantises the sub-block colours
/// `p_colors`, then picks for each sub-block the modifier table with the
/// smallest error (the first on a tie).
#[verifier::spinoff_prover]
#[verifier::rlimit(60)]
fn etc_encode_block_helper(
    p_in: &[u8],
    in_mask: u32,
    p_colors: &[u8; 6],
    p_compressed: &mut EtcCompressed,
    flipped: bool,
)
    requires
        p_in@.len() >= 48,
    ensures
        final(p_compressed).high == candidate_high(p_in@, in_mask, flipped, p_colors@),
        final(p_compressed).score == candidate_score(p_in@, in_mask, flipped, p_colors@),
        forall|p: int|
            0 <= p < 16 ==> #[trigger] mod_index_at(final(p_compressed).low, p)
                == candidate_mod_index(p_in@, in_mask, flipped, p_colors@, p),
{
    let ghost a = p_colors@;
    let ghost input = p_in@;
    p_compressed.score = u32::MAX;
    p_compressed.high = if flipped {
        1
    } else {
        0
    };
    p_compressed.low = 0;
    let bases = etc_encode_base_colors(p_colors, p_compressed);
    let original_high = p_compressed.high;
    let (r1, g1, b1) = (bases[0] as i32, bases[1] as i32, bases[2] as i32);
    let (r2, g2, b2) = (bases[3] as i32, bases[4] as i32, bases[5] as i32);
    proof {
        assert(bases@[0] as int == encoded_base(a, false, 0));
        assert(bases@[1] as int == encoded_base(a, false, 1));
        assert(bases@[2] as int == encoded_base(a, false, 2));
        assert(bases@[3] as int == encoded_base(a, true, 0));
        assert(bases@[4] as int == encoded_base(a, true, 1));
        assert(bases@[5] as int == encoded_base(a, true, 2));
        lemma_zero_low();
    }
    let ghost f1 = |t: int| table_score(input, in_mask, flipped, false, a, t);
    let ghost f2 = |t: int| table_score(input, in_mask, flipped, true, a, t);
    let mut i: u32 = 0;
    while i < 8
        invariant
            0 <= i <= 8,
            p_in@ == input,
            input.len() >= 48,
            p_colors@ == a,
            0 <= r1 <= 255 && 0 <= g1 <= 255 && 0 <= b1 <= 255,
            r1 == encoded_base(a, false, 0) && g1 == encoded_base(a, false, 1) && b1
                == encoded_base(a, false, 2),
            f1 == (|t: int| table_score(input, in_mask, flipped, false, a, t)),
            original_high == (if flipped {
                1u32
            } else {
                0u32
            }) | base_bits(a),
            i == 0 ==> p_compressed.score == u32::MAX,
            i > 0 ==> p_compressed.score == f1(first_min_index(f1, i as int))
                && p_compressed.high == original_high | ((first_min_index(f1, i as int) as u32)
                << 5u32) && forall|p: int|
                0 <= p < 16 ==> #[trigger] mod_index_at(p_compressed.low, p) == if counted(
                    in_mask,
                    flipped,
                    false,
                    p,
                ) {
                    best_modifier(
                        input,
                        p,
                        r1 as int,
                        g1 as int,
                        b1 as int,
                        first_min_index(f1, i as int),
                    )
                } else {
                    0
                },
        decreases 8 - i,
    {
        let mut temp = EtcCompressed { score: 0, high: original_high | (i << 5), low: 0 };
        proof {
            lemma_zero_low();
            lemma_subblock_score_bound(
                input,
                in_mask,
                flipped,
                false,
                r1 as int,
                g1 as int,
                b1 as int,
                i as int,
                16,
            );
        }
        etc_encode_subblock_helper(
            p_in,
            in_mask,
            &mut temp,
            flipped,
            false,
            r1,
            g1,
            b1,
            i as usize,
        );
        assert(temp.score == f1(i as int));
        let ghost prev = *p_compressed;
        take_best(p_compressed, &temp);
        proof {
            let ii = i as int;
            assert(first_min_index(f1, ii + 1) == if ii == 0 {
                0
            } else if f1(ii) < f1(first_min_index(f1, ii)) {
                ii
            } else {
                first_min_index(f1, ii)
            });
            if ii == 0 || f1(ii) < f1(first_min_index(f1, ii)) {
                assert(*p_compressed == temp);
            } else {
                assert(*p_compressed == prev);
            }
        }
        i += 1;
    }
    let first_half = *p_compressed;
    let ghost t1 = first_min_index(f1, 8);
    proof {
        lemma_first_min_index_range(f1, 8);
        lemma_subblock_score_bound(
            input,
            in_mask,
            flipped,
            false,
            r1 as int,
            g1 as int,
            b1 as int,
            t1,
            16,
        );
    }
    let mut i: u32 = 0;
    while i < 8
        invariant
            0 <= i <= 8,
            p_in@ == input,
            input.len() >= 48,
            0 <= r2 <= 255 && 0 <= g2 <= 255 && 0 <= b2 <= 255,
            r2 == encoded_base(a, true, 0) && g2 == encoded_base(a, true, 1) && b2
                == encoded_base(a, true, 2),
            f2 == (|t: int| table_score(input, in_mask, flipped, true, a, t)),
            0 <= first_half.score <= 650250 * 16,
            forall|p: int|
                #![trigger mod_index_at(first_half.low, p)]
                counted(in_mask, flipped, true, p) ==> mod_index_at(first_half.low, p) == 0,
            i > 0 ==> p_compressed.score == first_half.score + f2(first_min_index(f2, i as int))
                && p_compressed.high == first_half.high | ((first_min_index(f2, i as int) as u32)
                << 2u32) && forall|p: int|
                0 <= p < 16 ==> #[trigger] mod_index_at(p_compressed.low, p) == if counted(
                    in_mask,
                    flipped,
                    true,
                    p,
                ) {
                    best_modifier(
                        input,
                        p,
                        r2 as int,
                        g2 as int,
                        b2 as int,
                        first_min_index(f2, i as int),
                    )
                } else {
                    mod_index_at(first_half.low, p)
                },
        decreases 8 - i,
    {
        let mut temp = EtcCompressed {
            score: first_half.score,
            high: first_half.high | (i << 2),
            low: first_half.low,
        };
        proof {
            lemma_subblock_score_bound(
                input,
                in_mask,
                flipped,
                true,
                r2 as int,
                g2 as int,
                b2 as int,
                i as int,
                16,
            );
        }
        etc_encode_subblock_helper(
            p_in,
            in_mask,
            &mut temp,
            flipped,
            true,
            r2,
            g2,
            b2,
            i as usize,
        );
        assert(temp.score == first_half.score + f2(i as int));
        let ghost prev = *p_compressed;
        if i == 0 {
            *p_compressed = temp;
        } else {
            take_best(p_compressed, &temp);
        }
        proof {
            let ii = i as int;
            assert(first_min_index(f2, ii + 1) == if ii == 0 {
                0
            } else if f2(ii) < f2(first_min_index(f2, ii)) {
                ii
            } else {
                first_min_index(f2, ii)
            });
            if ii == 0 || f2(ii) < f2(first_min_index(f2, ii)) {
                assert(*p_compressed == temp);
            } else {
                assert(*p_compressed == prev);
            }
        }
        i += 1;
    }
    proof {
        let t2 = first_min_index(f2, 8);
        assert forall|p: int| 0 <= p < 16 implies #[trigger] mod_index_at(p_compressed.low, p)
            == candidate_mod_index(input, in_mask, flipped, a, p) by {
            let second = in_second(flipped, p % 4, p / 4);
            if second {
                assert(counted(in_mask, flipped, true, p) == mask_has(in_mask, p));
            } else {
                assert(!counted(in_mask, flipped, true, p));
                assert(counted(in_mask, flipped, false, p) == mask_has(in_mask, p));
            }
        }
    }
}


/// Whether the encoder stores the block flipped (sub-blocks stacked): when
/// that orientation's error is strictly below the side-by-side one.
pub open spec fn encode_flips(input: Seq<u8>, mask: u32) -> bool {
    candidate_score(input, mask, false, average_colors(input, mask, false)) > candidate_score(
        input,
        mask,
        true,
        average_colors(input, mask, true),
    )
}

/// The high word the encoder produces for a block.
pub open spec fn encoded_high(input: Seq<u8>, mask: u32) -> u32 {
    let f = encode_flips(input, mask);
    candidate_high(input, mask, f, average_colors(input, mask, f))
}

/// The modifier index the encoder stores in the low word for pixel `p`.
pub open spec fn encoded_mod_index(input: Seq<u8>, mask: u32, p: int) -> int {
    let f = encode_flips(input, mask);
    candidate_mod_index(input, mask, f, average_colors(input, mask, f), p)
}

/// The total weighted error of the encoding the encoder picks.
pub open spec fn encoded_score(input: Seq<u8>, mask: u32) -> int {
    let f = encode_flips(input, mask);
    candidate_score(input, mask, f, average_colors(input, mask, f))
}

/// Writes `d` big-endian at `off`.
fn write_word_at(p_out: &mut [u8], off: usize, d: u32)
    requires
        off + 4 <= old(p_out)@.len(),
    ensures
        final(p_out)@.len() == old(p_out)@.len(),
        be_word(
            final(p_out)@[off as int],
            final(p_out)@[off + 1],
            final(p_out)@[off + 2],
            final(p_out)@[off + 3],
        ) == d,
        forall|q: int|
            0 <= q < old(p_out)@.len() && !(off <= q < off + 4) ==> #[trigger] final(p_out)@[q]
                == old(p_out)@[q],
{
    p_out[off] = (d >> 24) as u8;
    p_out[off + 1] = (d >> 16) as u8;
    p_out[off + 2] = (d >> 8) as u8;
    p_out[off + 3] = d as u8;
    let ghost (b0, b1, b2, b3) = (
        p_out@[off as int],
        p_out@[off + 1],
        p_out@[off + 2],
        p_out@[off + 3],
    );
    assert((b0 as int * 0x1000000 + b1 as int * 0x10000 + b2 as int * 0x100 + b3 as int) as u32
        == d) by (bit_vector)
        requires
            b0 == (d >> 24) as u8,
            b1 == (d >> 16) as u8,
            b2 == (d >> 8) as u8,
            b3 == d as u8,
    ;
}

/// Encodes a 4x4 block of RGB888 pixels (`p_in`, 48 bytes, pixel (x, y) at
/// `3 * (x + 4y)`) into 8 bytes at the start of `p_out`. Bit `x + 4y` of
/// `in_mask` tells whether pixel (x, y) is valid; invalid pixels are ignored.
/// Both orientations are tried and the one with the smaller weighted error
/// is kept (side by side on a tie).
pub fn encode_block(p_in: &[u8], in_mask: u32, p_out: &mut [u8])
    requires
        p_in@.len() >= 48,
        old(p_out)@.len() >= 8,
    ensures
        final(p_out)@.len() == old(p_out)@.len(),
        be_word(final(p_out)@[0], final(p_out)@[1], final(p_out)@[2], final(p_out)@[3])
            == encoded_high(p_in@, in_mask),
        forall|p: int|
            0 <= p < 16 ==> #[trigger] mod_index_at(
                be_word(final(p_out)@[4], final(p_out)@[5], final(p_out)@[6], final(p_out)@[7]),
                p,
            ) == encoded_mod_index(p_in@, in_mask, p),
        forall|q: int| 8 <= q < old(p_out)@.len() ==> #[trigger] final(p_out)@[q] == old(p_out)@[q],
{
    let (c0, c1, c2) = etc_average_colors_subblock(p_in, in_mask, false, false);
    let (c3, c4, c5) = etc_average_colors_subblock(p_in, in_mask, false, true);
    let (f0, f1, f2) = etc_average_colors_subblock(p_in, in_mask, true, false);
    let (f3, f4, f5) = etc_average_colors_subblock(p_in, in_mask, true, true);
    let colors: [u8; 6] = [c0, c1, c2, c3, c4, c5];
    let flipped_colors: [u8; 6] = [f0, f1, f2, f3, f4, f5];
    assert(colors@ =~= average_colors(p_in@, in_mask, false));
    assert(flipped_colors@ =~= average_colors(p_in@, in_mask, true));
    let mut a = EtcCompressed { high: 0, low: 0, score: 0 };
    let mut b = EtcCompressed { high: 0, low: 0, score: 0 };
    etc_encode_block_helper(p_in, in_mask, &colors, &mut a, false);
    etc_encode_block_helper(p_in, in_mask, &flipped_colors, &mut b, true);
    take_best(&mut a, &b);
    let ghost out0 = p_out@;
    write_word_at(p_out, 0, a.high);
    let ghost out1 = p_out@;
    write_word_at(p_out, 4, a.low);
    assert(p_out@[0] == out1[0] && p_out@[1] == out1[1] && p_out@[2] == out1[2] && p_out@[3]
        == out1[3]);
}


// ── The encoder ignores invalid pixels ────────────────────────────────────────

/// Whether two blocks agree on every valid pixel.
pub open spec fn agree_on_valid(in1: Seq<u8>, in2: Seq<u8>, mask: u32) -> bool {
    forall|p: int, c: int|
        0 <= p < 16 && 0 <= c < 3 && mask_has(mask, p) ==> #[trigger] block_px(in1, p, c)
            == block_px(in2, p, c)
}

proof fn lemma_channel_sum_ignores_invalid(
    in1: Seq<u8>,
    in2: Seq<u8>,
    mask: u32,
    flipped: bool,
    second: bool,
    c: int,
    n: int,
)
    requires
        agree_on_valid(in1, in2, mask),
        0 <= c < 3,
        n <= 16,
    ensures
        channel_sum(in1, mask, flipped, second, c, n) == channel_sum(in2, mask, flipped, second, c, n),
    decreases n,
{
    if n > 0 {
        lemma_channel_sum_ignores_invalid(in1, in2, mask, flipped, second, c, n - 1);
        if counted(mask, flipped, second, n - 1) {
            assert(block_px(in1, n - 1, c) == block_px(in2, n - 1, c));
        }
    }
}

proof fn lemma_best_modifier_ignores_invalid(
    in1: Seq<u8>,
    in2: Seq<u8>,
    mask: u32,
    p: int,
    br: int,
    bg: int,
    bb: int,
    t: int,
)
    requires
        agree_on_valid(in1, in2, mask),
        0 <= p < 16,
        mask_has(mask, p),
    ensures
        best_modifier(in1, p, br, bg, bb, t) == best_modifier(in2, p, br, bg, bb, t),
        best_error(in1, p, br, bg, bb, t) == best_error(in2, p, br, bg, bb, t),
{
    assert(block_px(in1, p, 0) == block_px(in2, p, 0));
    assert(block_px(in1, p, 1) == block_px(in2, p, 1));
    assert(block_px(in1, p, 2) == block_px(in2, p, 2));
    let f1 = |i: int| modifier_error(in1, p, br, bg, bb, t, i);
    let f2 = |i: int| modifier_error(in2, p, br, bg, bb, t, i);
    assert(f1 =~= f2);
}

proof fn lemma_subblock_score_ignores_invalid(
    in1: Seq<u8>,
    in2: Seq<u8>,
    mask: u32,
    flipped: bool,
    second: bool,
    br: int,
    bg: int,
    bb: int,
    t: int,
    n: int,
)
    requires
        agree_on_valid(in1, in2, mask),
        n <= 16,
    ensures
        subblock_score(in1, mask, flipped, second, br, bg, bb, t, n) == subblock_score(
            in2,
            mask,
            flipped,
            second,
            br,
            bg,
            bb,
            t,
            n,
        ),
    decreases n,
{
    if n > 0 {
        lemma_subblock_score_ignores_invalid(in1, in2, mask, flipped, second, br, bg, bb, t, n - 1);
        if counted(mask, flipped, second, n - 1) {
            lemma_best_modifier_ignores_invalid(in1, in2, mask, n - 1, br, bg, bb, t);
        }
    }
}

proof fn lemma_candidate_ignores_invalid(in1: Seq<u8>, in2: Seq<u8>, mask: u32, flipped: bool)
    requires
        agree_on_valid(in1, in2, mask),
    ensures
        average_colors(in1, mask, flipped) == average_colors(in2, mask, flipped),
        candidate_score(in1, mask, flipped, average_colors(in1, mask, flipped)) == candidate_score(
            in2,
            mask,
            flipped,
            average_colors(in2, mask, flipped),
        ),
        candidate_high(in1, mask, flipped, average_colors(in1, mask, flipped)) == candidate_high(
            in2,
            mask,
            flipped,
            average_colors(in2, mask, flipped),
        ),
        forall|p: int|
            0 <= p < 16 ==> #[trigger] candidate_mod_index(
                in1,
                mask,
                flipped,
                average_colors(in1, mask, flipped),
                p,
            ) == candidate_mod_index(in2, mask, flipped, average_colors(in2, mask, flipped), p),
{
    lemma_channel_sum_ignores_invalid(in1, in2, mask, flipped, false, 0, 16);
    lemma_channel_sum_ignores_invalid(in1, in2, mask, flipped, false, 1, 16);
    lemma_channel_sum_ignores_invalid(in1, in2, mask, flipped, false, 2, 16);
    lemma_channel_sum_ignores_invalid(in1, in2, mask, flipped, true, 0, 16);
    lemma_channel_sum_ignores_invalid(in1, in2, mask, flipped, true, 1, 16);
    lemma_channel_sum_ignores_invalid(in1, in2, mask, flipped, true, 2, 16);
    let a = average_colors(in1, mask, flipped);
    assert(a =~= average_colors(in2, mask, flipped));
    assert forall|second: bool, t: int| #[trigger]
        table_score(in1, mask, flipped, second, a, t) == table_score(
            in2,
            mask,
            flipped,
            second,
            a,
            t,
        ) by {
        lemma_subblock_score_ignores_invalid(
            in1,
            in2,
            mask,
            flipped,
            second,
            encoded_base(a, second, 0),
            encoded_base(a, second, 1),
            encoded_base(a, second, 2),
            t,
            16,
        );
    }
    let g1 = |t: int| table_score(in1, mask, flipped, false, a, t);
    let g2 = |t: int| table_score(in2, mask, flipped, false, a, t);
    assert(g1 =~= g2);
    let h1 = |t: int| table_score(in1, mask, flipped, true, a, t);
    let h2 = |t: int| table_score(in2, mask, flipped, true, a, t);
    assert(h1 =~= h2);
    assert(best_table(in1, mask, flipped, false, a) == best_table(in2, mask, flipped, false, a));
    assert(best_table(in1, mask, flipped, true, a) == best_table(in2, mask, flipped, true, a));
    assert forall|p: int| 0 <= p < 16 implies #[trigger] candidate_mod_index(in1, mask, flipped, a, p)
        == candidate_mod_index(in2, mask, flipped, a, p) by {
        if mask_has(mask, p) {
            let second = in_second(flipped, p % 4, p / 4);
            lemma_best_modifier_ignores_invalid(
                in1,
                in2,
                mask,
                p,
                encoded_base(a, second, 0),
                encoded_base(a, second, 1),
                encoded_base(a, second, 2),
                best_table(in1, mask, flipped, second, a),
            );
        }
    }
}

/// The encoder ignores invalid pixels: two blocks that agree on every pixel
/// the mask marks valid encode to the same words.
pub proof fn lemma_encode_ignores_invalid_pixels(in1: Seq<u8>, in2: Seq<u8>, mask: u32)
    requires
        agree_on_valid(in1, in2, mask),
    ensures
        encoded_high(in1, mask) == encoded_high(in2, mask),
        encoded_score(in1, mask) == encoded_score(in2, mask),
        forall|p: int|
            0 <= p < 16 ==> #[trigger] encoded_mod_index(in1, mask, p) == encoded_mod_index(
                in2,
                mask,
                p,
            ),
{
    lemma_candidate_ignores_invalid(in1, in2, mask, false);
    lemma_candidate_ignores_invalid(in1, in2, mask, true);
}


// ── Image encode / decode ─────────────────────────────────────────────────────

/// Number of 4-pixel tiles that cover `size` pixels.
pub open spec fn blocks_across(size: int) -> int {
    (size + 3) / 4
}

/// Number of pixels (at most 4) of the tile starting at `start` that lie
/// within `size` pixels.
pub open spec fn span_end(size: int, start: int) -> int {
    if size - start > 4 {
        4
    } else {
        size - start
    }
}

/// The mask of rows `0..y_end` of a block.
pub open spec fn row_mask(y_end: u32) -> u32 {
    if y_end == 0 {
        0
    } else if y_end == 1 {
        0xf
    } else if y_end == 2 {
        0xff
    } else if y_end == 3 {
        0xfff
    } else {
        0xffff
    }
}

/// The mask of columns `0..x_end` of a block.
pub open spec fn col_mask(x_end: u32) -> u32 {
    if x_end == 0 {
        0
    } else if x_end == 1 {
        0x1111
    } else if x_end == 2 {
        0x3333
    } else if x_end == 3 {
        0x7777
    } else {
        0xffff
    }
}

/// The validity mask of a block whose pixels (x, y) with x < `x_end` and
/// y < `y_end` lie in the image.
pub open spec fn edge_mask(x_end: u32, y_end: u32) -> u32 {
    row_mask(y_end) & col_mask(x_end)
}

fn k_y_mask(y_end: u32) -> (m: u32)
    requires
        y_end <= 4,
    ensures
        m == row_mask(y_end),
{
    match y_end {
        0 => 0x0,
        1 => 0xf,
        2 => 0xff,
        3 => 0xfff,
        _ => 0xffff,
    }
}

fn k_x_mask(x_end: u32) -> (m: u32)
    requires
        x_end <= 4,
    ensures
        m == col_mask(x_end),
{
    match x_end {
        0 => 0x0,
        1 => 0x1111,
        2 => 0x3333,
        3 => 0x7777,
        _ => 0xffff,
    }
}

/// A pixel is valid under an edge mask exactly when it is within the edge.
pub proof fn lemma_edge_mask(x_end: u32, y_end: u32, p: u32)
    requires
        x_end <= 4,
        y_end <= 4,
        p < 16,
    ensures
        mask_has(edge_mask(x_end, y_end), p as int) == ((p % 4) < x_end && (p / 4) < y_end),
{
    let m = edge_mask(x_end, y_end);
    assert(((m >> p) & 1 == 1) == ((p % 4) < x_end && (p / 4) < y_end)) by (bit_vector)
        requires
            x_end <= 4,
            y_end <= 4,
            p < 16,
            m == row_mask(y_end) & col_mask(x_end),
    ;
}

/// Channel `c` of image pixel (x, y): the byte itself for RGB888
/// (`pixel_size` 3), or the widened 5-6-5 field of the little-endian 16-bit
/// pixel for RGB565 (`pixel_size` 2). The pixel starts at `pixel_size * x + stride * y`.
pub open spec fn image_channel(input: Seq<u8>, pixel_size: int, stride: int, x: int, y: int, c: int) -> int {
    let o = pixel_size * x + stride * y;
    if pixel_size == 3 {
        input[o + c] as int
    } else {
        let pix = input[o + 1] as int * 256 + input[o] as int;
        if c == 0 {
            expand5(pix / 2048)
        } else if c == 1 {
            expand6((pix / 32) % 64)
        } else {
            expand5(pix % 32)
        }
    }
}

/// The 4x4 block of RGB888 pixels at tile (bx, by) of an image; pixels
/// outside the image are 0.
pub open spec fn image_block(
    input: Seq<u8>,
    width: int,
    height: int,
    pixel_size: int,
    stride: int,
    bx: int,
    by: int,
) -> Seq<u8> {
    Seq::new(
        48,
        |q: int|
            {
                let x = 4 * bx + (q / 3) % 4;
                let y = 4 * by + (q / 3) / 4;
                if x < width && y < height {
                    image_channel(input, pixel_size, stride, x, y, q % 3) as u8
                } else {
                    0u8
                }
            },
    )
}

/// The validity mask of tile (bx, by) of a `width` x `height` image.
pub open spec fn image_block_mask(width: int, height: int, bx: int, by: int) -> u32 {
    edge_mask(span_end(width, 4 * bx) as u32, span_end(height, 4 * by) as u32)
}

/// Whether the 8 bytes at `8n` of `out` hold the encoding of tile `n` (in
/// row-major order) of the image.
#[verifier::opaque]
pub open spec fn encoded_block_ok(
    out: Seq<u8>,
    input: Seq<u8>,
    width: int,
    height: int,
    pixel_size: int,
    stride: int,
    n: int,
) -> bool {
    let bw = blocks_across(width);
    let blk = image_block(input, width, height, pixel_size, stride, n % bw, n / bw);
    let m = image_block_mask(width, height, n % bw, n / bw);
    let off = 8 * n;
    &&& be_word(out[off], out[off + 1], out[off + 2], out[off + 3]) == encoded_high(blk, m)
    &&& forall|p: int|
        0 <= p < 16 ==> #[trigger] mod_index_at(
            be_word(out[off + 4], out[off + 5], out[off + 6], out[off + 7]),
            p,
        ) == encoded_mod_index(blk, m, p)
}

/// Whether an image with rows `stride` bytes apart fits in `len` bytes and its
/// offsets stay within `u32`.
pub open spec fn image_fits(len: int, width: int, height: int, pixel_size: int, stride: int) -> bool {
    width > 0 && height > 0 ==> {
        &&& pixel_size * (4 * ((width - 1) / 4)) + stride * (height - 1) <= u32::MAX
        &&& len >= pixel_size * width + stride * (height - 1)
    }
}

/// Whether a pixel size names a supported layout: 2 for RGB565, 3 for RGB888.
pub open spec fn valid_pixel_size(pixel_size: u32) -> bool {
    pixel_size == 2 || pixel_size == 3
}

/// Tells whether an image of `len` bytes with rows `stride` bytes apart
/// holds every pixel of a `width` x `height` image, with offsets that stay
/// within `u32`: what `encode_image` needs of its input and `decode_image`
/// of its output.
pub fn image_layout_fits(len: usize, width: u32, height: u32, pixel_size: u32, stride: u32) -> (r:
    bool)
    ensures
        r == image_fits(len as int, width as int, height as int, pixel_size as int, stride as int),
{
    if width == 0 || height == 0 {
        return true;
    }
    let last_x: u128 = 4 * ((width as u128 - 1) / 4);
    let h1: u128 = height as u128 - 1;
    assert(stride as int * h1 <= 0x1_0000_0000 * 0x1_0000_0000) by (nonlinear_arith)
        requires
            0 <= stride <= 0x1_0000_0000,
            0 <= h1 <= 0x1_0000_0000,
    ;
    assert(pixel_size as int * last_x <= 0x1_0000_0000 * 0x1_0000_0000) by (nonlinear_arith)
        requires
            0 <= pixel_size <= 0x1_0000_0000,
            0 <= last_x <= 0x1_0000_0000,
    ;
    assert(pixel_size as int * width as int <= 0x1_0000_0000 * 0x1_0000_0000) by (nonlinear_arith)
        requires
            0 <= pixel_size <= 0x1_0000_0000,
            0 <= width <= 0x1_0000_0000,
    ;
    let rows: u128 = stride as u128 * h1;
    pixel_size as u128 * last_x + rows <= u32::MAX as u128 && len as u128 >= pixel_size as u128
        * width as u128 + rows
}

/// Tells whether the encoded size of a `width` x `height` image can be
/// computed within `u32`: what `get_encoded_data_size` needs.
pub fn encoded_size_in_range(width: u32, height: u32) -> (r: bool)
    ensures
        r == encoded_size_fits(width, height),
{
    if width > u32::MAX - 3 || height > u32::MAX - 3 {
        return false;
    }
    let ew: u64 = (width as u64 + 3) / 4 * 4;
    let eh: u64 = (height as u64 + 3) / 4 * 4;
    assert(ew * eh <= u64::MAX) by (nonlinear_arith)
        requires
            ew <= u32::MAX,
            eh <= u32::MAX,
    ;
    ew * eh <= u32::MAX as u64
}

#[verifier::spinoff_prover]
proof fn lemma_row_offset_bounds(width: int, height: int, pixel_size: int, stride: int, x: int, y: int)
    requires
        width > 0,
        height > 0,
        pixel_size == 2 || pixel_size == 3,
        stride >= 0,
        0 <= x < width,
        x % 4 == 0,
        0 <= y < height,
    ensures
        pixel_size * x + stride * y <= pixel_size * (4 * ((width - 1) / 4)) + stride * (height - 1),
        pixel_size * x + stride * y + pixel_size * span_end(width, x) <= pixel_size * width + stride * (
        height - 1),
{
    assert(x <= 4 * ((width - 1) / 4));
    assert(stride * y <= stride * (height - 1)) by (nonlinear_arith)
        requires
            stride >= 0,
            y <= height - 1,
    ;
    assert(pixel_size * x <= pixel_size * (4 * ((width - 1) / 4))) by (nonlinear_arith)
        requires
            pixel_size >= 0,
            x <= 4 * ((width - 1) / 4),
    ;
    assert(pixel_size * x + pixel_size * span_end(width, x) <= pixel_size * width) by (nonlinear_arith)
        requires
            pixel_size >= 0,
            x + span_end(width, x) <= width,
    ;
}

/// Copies rows `0..y_end`, columns `0..x_end` of the tile at pixel (x, y) of
/// the image into `block` as RGB888, widening RGB565 pixels.
fn gather_block(
    input: &[u8],
    block: &mut Vec<u8>,
    x: u32,
    y: u32,
    x_end: u32,
    y_end: u32,
    width: u32,
    height: u32,
    pixel_size: u32,
    stride: u32,
)
    requires
        old(block)@.len() == 48,
        valid_pixel_size(pixel_size),
        image_fits(input@.len() as int, width as int, height as int, pixel_size as int, stride as int),
        x % 4 == 0,
        y % 4 == 0,
        x < width,
        y < height,
        x_end == span_end(width as int, x as int),
        y_end == span_end(height as int, y as int),
    ensures
        final(block)@.len() == 48,
        agree_on_valid(
            final(block)@,
            image_block(
                input@,
                width as int,
                height as int,
                pixel_size as int,
                stride as int,
                (x / 4) as int,
                (y / 4) as int,
            ),
            edge_mask(x_end, y_end),
        ),
{
    let ghost img = image_block(
        input@,
        width as int,
        height as int,
        pixel_size as int,
        stride as int,
        (x / 4) as int,
        (y / 4) as int,
    );
    let input_len = input.len();
    let mut cy: u32 = 0;
    while cy < y_end
        invariant
            0 <= cy <= y_end,
            block@.len() == 48,
            input_len == input@.len(),
            valid_pixel_size(pixel_size),
            image_fits(input@.len() as int, width as int, height as int, pixel_size as int, stride as int),
            x % 4 == 0,
            y % 4 == 0,
            x < width,
            y < height,
            x_end == span_end(width as int, x as int),
            y_end == span_end(height as int, y as int),
            forall|row: int, col: int, ch: int|
                0 <= row < cy && 0 <= col < x_end && 0 <= ch < 3 ==> #[trigger] block@[12 * row + 3
                    * col + ch] == image_channel(
                    input@,
                    pixel_size as int,
                    stride as int,
                    x + col,
                    y + row,
                    ch,
                ) as u8,
        decreases y_end - cy,
    {
        proof {
            lemma_row_offset_bounds(
                width as int,
                height as int,
                pixel_size as int,
                stride as int,
                x as int,
                (y + cy) as int,
            );
        }
        let q_start = (cy * 4) as usize * 3;
        let p_start = (pixel_size * x + stride * (y + cy)) as usize;
        let ghost before = block@;
        if pixel_size == 3 {
            let count = x_end as usize * 3;
            copy_bytes(input, p_start, block.as_mut_slice(), q_start, count);
            proof {
                assert forall|row: int, col: int, ch: int|
                    0 <= row < cy + 1 && 0 <= col < x_end && 0 <= ch < 3 implies #[trigger] block@[12
                    * row + 3 * col + ch] == image_channel(
                    input@,
                    pixel_size as int,
                    stride as int,
                    x + col,
                    y + row,
                    ch,
                ) as u8 by {
                    let j = 12 * row + 3 * col + ch;
                    if row == cy {
                        assert(q_start <= j < q_start + count);
                    } else {
                        assert(!(q_start <= j < q_start + count));
                        assert(block@[j] == before[j]);
                    }
                }
            }
        } else {
            let mut q = q_start;
            let mut p = p_start;
            let mut cx: u32 = 0;
            while cx < x_end
                invariant
                    0 <= cx <= x_end,
                    block@.len() == 48,
                    input_len == input@.len(),
                    pixel_size == 2,
                    cy < y_end,
                    x_end <= 4,
                    y_end <= 4,
                    before.len() == 48,
                    q == q_start + 3 * cx,
                    q_start == 12 * cy,
                    p == p_start + 2 * cx,
                    p_start == 2 * x + stride * (y + cy),
                    p_start + 2 * x_end <= input@.len(),
                    forall|row: int, col: int, ch: int|
                        0 <= row < 4 && 0 <= col < 4 && 0 <= ch < 3 && !(row == cy && col < cx)
                            ==> #[trigger] block@[12 * row + 3 * col + ch] == before[12 * row + 3 * col
                            + ch],
                    forall|col: int, ch: int|
                        0 <= col < cx && 0 <= ch < 3 ==> #[trigger] block@[12 * cy + 3 * col + ch]
                            == image_channel(
                            input@,
                            pixel_size as int,
                            stride as int,
                            x + col,
                            y + cy,
                            ch,
                        ) as u8,
                decreases x_end - cx,
            {
                let lo = input[p] as i32;
                let hi = input[p + 1] as i32;
                let pixel = (hi << 8) | lo;
                let ghost pix = hi as int * 256 + lo as int;
                assert(pixel == hi * 256 + lo && 0 <= pixel < 65536 && (pixel >> 11) & 0x1f == (hi * 256
                    + lo) / 2048 && (pixel >> 5) & 0x3f == ((hi * 256 + lo) / 32) % 64 && pixel & 0x1f
                    == (hi * 256 + lo) % 32) by (bit_vector)
                    requires
                        0 <= lo < 256,
                        0 <= hi < 256,
                        pixel == (hi << 8) | lo,
                ;
                let c0 = convert5_to8(pixel >> 11);
                let c1 = convert6_to8(pixel >> 5);
                let c2 = convert5_to8(pixel);
                block[q] = c0 as u8;
                block[q + 1] = c1 as u8;
                block[q + 2] = c2 as u8;
                q += 3;
                p += pixel_size as usize;
                cx += 1;
            }
            proof {
                assert forall|row: int, col: int, ch: int|
                    0 <= row < cy + 1 && 0 <= col < x_end && 0 <= ch < 3 implies #[trigger] block@[12
                    * row + 3 * col + ch] == image_channel(
                    input@,
                    pixel_size as int,
                    stride as int,
                    x + col,
                    y + row,
                    ch,
                ) as u8 by {
                    if row < cy {
                        assert(block@[12 * row + 3 * col + ch] == before[12 * row + 3 * col + ch]);
                    }
                }
            }
        }
        cy += 1;
    }
    proof {
        assert forall|p: int, c: int|
            0 <= p < 16 && 0 <= c < 3 && mask_has(edge_mask(x_end, y_end), p) implies #[trigger] block_px(
            block@,
            p,
            c,
        ) == block_px(img, p, c) by {
            lemma_edge_mask(x_end, y_end, p as u32);
            let row = p / 4;
            let col = p % 4;
            assert(3 * p + c == 12 * row + 3 * col + c);
            let q = 3 * p + c;
            assert(q / 3 == p);
            assert(q % 3 == c);
            assert(block@[12 * row + 3 * col + c] == image_channel(
                input@,
                pixel_size as int,
                stride as int,
                x + col,
                y + row,
                c,
            ) as u8);
        }
    }
}


proof fn lemma_tile_index(n: int, bw: int, bx: int, by: int)
    requires
        bw > 0,
        0 <= bx < bw,
        by >= 0,
        n == by * bw + bx,
    ensures
        n % bw == bx,
        n / bw == by,
{
    assert((by * bw + bx) / bw == by) by (nonlinear_arith)
        requires
            bw > 0,
            0 <= bx < bw,
            by >= 0,
    ;
    assert((by * bw + bx) % bw == bx) by (nonlinear_arith)
        requires
            bw > 0,
            0 <= bx < bw,
            by >= 0,
    ;
}

proof fn lemma_encoded_block_frame(
    out1: Seq<u8>,
    out2: Seq<u8>,
    input: Seq<u8>,
    width: int,
    height: int,
    pixel_size: int,
    stride: int,
    n: int,
)
    requires
        0 <= n,
        8 * n + 8 <= out1.len(),
        8 * n + 8 <= out2.len(),
        forall|j: int| 8 * n <= j < 8 * n + 8 ==> #[trigger] out1[j] == out2[j],
        encoded_block_ok(out1, input, width, height, pixel_size, stride, n),
    ensures
        encoded_block_ok(out2, input, width, height, pixel_size, stride, n),
{
    reveal(encoded_block_ok);
    let off = 8 * n;
    assert(out1[off] == out2[off]);
    assert(out1[off + 1] == out2[off + 1]);
    assert(out1[off + 2] == out2[off + 2]);
    assert(out1[off + 3] == out2[off + 3]);
    assert(out1[off + 4] == out2[off + 4]);
    assert(out1[off + 5] == out2[off + 5]);
    assert(out1[off + 6] == out2[off + 6]);
    assert(out1[off + 7] == out2[off + 7]);
}

/// Encodes tile (x / 4, y / 4), number `n` in row-major order, into the 8
/// bytes of `output` at `8n`.
#[verifier::spinoff_prover]
#[verifier::rlimit(30)]
fn encode_tile(
    input: &[u8],
    block: &mut Vec<u8>,
    encoded: &mut Vec<u8>,
    output: &mut [u8],
    x: u32,
    y: u32,
    width: u32,
    height: u32,
    pixel_size: u32,
    stride: u32,
    out_offset: usize,
    ymask: u32,
    y_end: u32,
    Ghost(n): Ghost<int>,
)
    requires
        old(block)@.len() == 48,
        old(encoded)@.len() == 8,
        valid_pixel_size(pixel_size),
        image_fits(input@.len() as int, width as int, height as int, pixel_size as int, stride as int),
        x % 4 == 0,
        y % 4 == 0,
        x < width,
        y < height,
        y_end == span_end(height as int, y as int),
        ymask == row_mask(y_end),
        n == (y / 4) * blocks_across(width as int) + x / 4,
        out_offset == 8 * n,
        out_offset + 8 <= old(output)@.len(),
    ensures
        final(block)@.len() == 48,
        final(encoded)@.len() == 8,
        final(output)@.len() == old(output)@.len(),
        encoded_block_ok(
            final(output)@,
            input@,
            width as int,
            height as int,
            pixel_size as int,
            stride as int,
            n,
        ),
        forall|j: int|
            0 <= j < old(output)@.len() && !(out_offset <= j < out_offset + 8)
                ==> #[trigger] final(output)@[j] == old(output)@[j],
{
    let mut x_end = width - x;
    if x_end > 4 {
        x_end = 4;
    }
    let mask = ymask & k_x_mask(x_end);
    gather_block(input, block, x, y, x_end, y_end, width, height, pixel_size, stride);
    let ghost bw = blocks_across(width as int);
    proof {
        assert(x / 4 < bw);
        lemma_tile_index(n, bw, (x / 4) as int, (y / 4) as int);
        assert(span_end(width as int, 4 * (x / 4)) == x_end);
        assert(span_end(height as int, 4 * (y / 4)) == y_end);
        lemma_encode_ignores_invalid_pixels(
            block@,
            image_block(
                input@,
                width as int,
                height as int,
                pixel_size as int,
                stride as int,
                (x / 4) as int,
                (y / 4) as int,
            ),
            mask,
        );
    }
    encode_block(block.as_slice(), mask, encoded.as_mut_slice());
    copy_bytes(encoded.as_slice(), 0, output, out_offset, ETC1_ENCODED_BLOCK_SIZE);
    proof {
        reveal(encoded_block_ok);
        let off = 8 * n;
        assert(output@[off] == encoded@[0]);
        assert(output@[off + 1] == encoded@[1]);
        assert(output@[off + 2] == encoded@[2]);
        assert(output@[off + 3] == encoded@[3]);
        assert(output@[off + 4] == encoded@[4]);
        assert(output@[off + 5] == encoded@[5]);
        assert(output@[off + 6] == encoded@[6]);
        assert(output@[off + 7] == encoded@[7]);
    }
}

/// Encodes an entire image. Pixel (x, y) of `input` starts at
/// `pixel_size * x + stride * y`; `pixel_size` is 2 for RGB565 and 3 for
/// RGB888. The image is cut into 4x4 tiles (edge tiles padded with invalid
/// pixels), and tile n in row-major order is encoded to the 8 bytes at `8n`
/// of `output`. Returns 0, or -1 without writing when `pixel_size` is neither
/// 2 nor 3.
pub fn encode_image(
    input: &[u8],
    width: u32,
    height: u32,
    pixel_size: u32,
    stride: u32,
    output: &mut [u8],
) -> (r: i32)
    requires
        valid_pixel_size(pixel_size) ==> {
            &&& width as int + 3 <= u32::MAX
            &&& height as int + 3 <= u32::MAX
            &&& old(output)@.len() >= spec_encoded_data_size(width as int, height as int)
            &&& image_fits(
                input@.len() as int,
                width as int,
                height as int,
                pixel_size as int,
                stride as int,
            )
        },
    ensures
        !valid_pixel_size(pixel_size) ==> r == -1 && final(output)@ == old(output)@,
        valid_pixel_size(pixel_size) ==> {
            &&& r == 0
            &&& final(output)@.len() == old(output)@.len()
            &&& forall|n: int|
                0 <= n < blocks_across(width as int) * blocks_across(height as int)
                    ==> #[trigger] encoded_block_ok(
                    final(output)@,
                    input@,
                    width as int,
                    height as int,
                    pixel_size as int,
                    stride as int,
                    n,
                )
            &&& forall|j: int|
                spec_encoded_data_size(width as int, height as int) <= j < old(output)@.len()
                    ==> #[trigger] final(output)@[j] == old(output)@[j]
        },
{
    if pixel_size < 2 || pixel_size > 3 {
        return -1;
    }
    let mut block: Vec<u8> = vec![0u8; ETC1_DECODED_BLOCK_SIZE];
    let mut encoded: Vec<u8> = vec![0u8; ETC1_ENCODED_BLOCK_SIZE];
    proof {
        lemma_round_up4_mask(width);
        lemma_round_up4_mask(height);
    }
    let encoded_width = (width + 3) & !3;
    let encoded_height = (height + 3) & !3;
    let ghost bw = blocks_across(width as int);
    let ghost bh = blocks_across(height as int);
    let ghost total = bw * bh;
    assert(spec_encoded_data_size(width as int, height as int) == 8 * total);
    let ghost in_seq = input@;
    let ghost mut by: int = 0;
    let out_len = output.len();
    let mut out_offset: usize = 0;
    let mut y: u32 = 0;
    while y < encoded_height
        invariant
            y == 4 * by,
            0 <= by <= bh,
            encoded_height == 4 * bh,
            encoded_width == 4 * bw,
            bw == blocks_across(width as int),
            bh == blocks_across(height as int),
            total == bw * bh,
            input@ == in_seq,
            valid_pixel_size(pixel_size),
            image_fits(input@.len() as int, width as int, height as int, pixel_size as int, stride as int),
            block@.len() == 48,
            encoded@.len() == 8,
            output@.len() == old(output)@.len(),
            out_len == output@.len(),
            old(output)@.len() >= 8 * total,
            out_offset == 8 * (by * bw),
            forall|n: int|
                0 <= n < by * bw ==> #[trigger] encoded_block_ok(
                    output@,
                    input@,
                    width as int,
                    height as int,
                    pixel_size as int,
                    stride as int,
                    n,
                ),
            forall|j: int|
                out_offset <= j < old(output)@.len() ==> #[trigger] output@[j] == old(output)@[j],
        decreases encoded_height - y,
    {
        let mut y_end = height - y;
        if y_end > 4 {
            y_end = 4;
        }
        let ymask = k_y_mask(y_end);
        let ghost mut bx: int = 0;
        assert(by < bh);
        assert((by + 1) * bw <= total) by (nonlinear_arith)
            requires
                by + 1 <= bh,
                total == bw * bh,
                bw >= 0,
        ;
        let mut x: u32 = 0;
        while x < encoded_width
            invariant
                x == 4 * bx,
                0 <= bx <= bw,
                y == 4 * by,
                0 <= by < bh,
                (by + 1) * bw <= total,
                encoded_height == 4 * bh,
                encoded_width == 4 * bw,
                bw == blocks_across(width as int),
                bh == blocks_across(height as int),
                input@ == in_seq,
                y_end == span_end(height as int, y as int),
                ymask == row_mask(y_end),
                valid_pixel_size(pixel_size),
                image_fits(
                    input@.len() as int,
                    width as int,
                    height as int,
                    pixel_size as int,
                    stride as int,
                ),
                block@.len() == 48,
                encoded@.len() == 8,
                output@.len() == old(output)@.len(),
                out_len == output@.len(),
                old(output)@.len() >= 8 * total,
                out_offset == 8 * (by * bw + bx),
                forall|n: int|
                    0 <= n < by * bw + bx ==> #[trigger] encoded_block_ok(
                        output@,
                        input@,
                        width as int,
                        height as int,
                        pixel_size as int,
                        stride as int,
                        n,
                    ),
                forall|j: int|
                    out_offset <= j < old(output)@.len() ==> #[trigger] output@[j] == old(output)@[j],
            decreases encoded_width - x,
        {
            let ghost n = by * bw + bx;
            assert(y / 4 == by && x / 4 == bx);
            assert(n + 1 <= (by + 1) * bw) by (nonlinear_arith)
                requires
                    n == by * bw + bx,
                    bx < bw,
            ;
            let ghost before = output@;
            encode_tile(
                input,
                &mut block,
                &mut encoded,
                output,
                x,
                y,
                width,
                height,
                pixel_size,
                stride,
                out_offset,
                ymask,
                y_end,
                Ghost(n),
            );
            proof {
                assert forall|k: int| 0 <= k < n + 1 implies #[trigger] encoded_block_ok(
                    output@,
                    input@,
                    width as int,
                    height as int,
                    pixel_size as int,
                    stride as int,
                    k,
                ) by {
                    if k < n {
                        lemma_encoded_block_frame(
                            before,
                            output@,
                            input@,
                            width as int,
                            height as int,
                            pixel_size as int,
                            stride as int,
                            k,
                        );
                    }
                }
                bx = bx + 1;
            }
            out_offset += ETC1_ENCODED_BLOCK_SIZE;
            x += 4;
        }
        proof {
            assert(by * bw + bw == (by + 1) * bw) by (nonlinear_arith);
            by = by + 1;
        }
        y += 4;
    }
    assert(by == bh);
    assert(by * bw == total) by (nonlinear_arith)
        requires
            by == bh,
            total == bw * bh,
    ;
    0
}


/// The high and low words of tile `n` of encoded data.
pub open spec fn tile_words(input: Seq<u8>, n: int) -> (u32, u32) {
    let o = 8 * n;
    (
        be_word(input[o], input[o + 1], input[o + 2], input[o + 3]),
        be_word(input[o + 4], input[o + 5], input[o + 6], input[o + 7]),
    )
}

/// The RGB565 pixel, as a 16-bit value, nearest below the RGB888 colour (r, g, b).
pub open spec fn pack565(r: int, g: int, b: int) -> int {
    (r / 8) * 2048 + (g / 4) * 32 + b / 8
}

/// Byte `k` of row `cy` of a decoded tile with words (high, low), as stored
/// in an image with `pixel_size` bytes per pixel: the RGB888 bytes, or the
/// little-endian bytes of the RGB565 packing.
pub open spec fn decoded_row_byte(high: u32, low: u32, pixel_size: int, cy: int, k: int) -> u8 {
    if pixel_size == 3 {
        decoded_byte(high, low, 12 * cy + k) as u8
    } else {
        let q = 12 * cy + 3 * (k / 2);
        let pix = pack565(
            decoded_byte(high, low, q),
            decoded_byte(high, low, q + 1),
            decoded_byte(high, low, q + 2),
        );
        if k % 2 == 0 {
            (pix % 256) as u8
        } else {
            (pix / 256) as u8
        }
    }
}

/// `out` after row `cy` of tile `n` (in row-major order) of the image has
/// been written.
pub open spec fn write_tile_row(
    out: Seq<u8>,
    input: Seq<u8>,
    width: int,
    height: int,
    pixel_size: int,
    stride: int,
    n: int,
    cy: int,
) -> Seq<u8> {
    let bw = blocks_across(width);
    let x = 4 * (n % bw);
    let y = 4 * (n / bw);
    let start = pixel_size * x + stride * (y + cy);
    let len = pixel_size * span_end(width, x);
    let (high, low) = tile_words(input, n);
    Seq::new(
        out.len(),
        |j: int|
            if start <= j < start + len {
                decoded_row_byte(high, low, pixel_size, cy, j - start)
            } else {
                out[j]
            },
    )
}

/// `out` after rows `0..rows` of tile `n` have been written, in order.
pub open spec fn write_tile_rows(
    out: Seq<u8>,
    input: Seq<u8>,
    width: int,
    height: int,
    pixel_size: int,
    stride: int,
    n: int,
    rows: int,
) -> Seq<u8>
    decreases rows,
{
    if rows <= 0 {
        out
    } else {
        write_tile_row(
            write_tile_rows(out, input, width, height, pixel_size, stride, n, rows - 1),
            input,
            width,
            height,
            pixel_size,
            stride,
            n,
            rows - 1,
        )
    }
}

/// `out` after tiles `0..count` (in row-major order) of the encoded data
/// `input` have been decoded into it, each tile writing its rows within the
/// image in order, later writes replacing earlier ones.
pub open spec fn decode_tiles(
    out: Seq<u8>,
    input: Seq<u8>,
    width: int,
    height: int,
    pixel_size: int,
    stride: int,
    count: int,
) -> Seq<u8>
    decreases count,
{
    if count <= 0 {
        out
    } else {
        let n = count - 1;
        write_tile_rows(
            decode_tiles(out, input, width, height, pixel_size, stride, n),
            input,
            width,
            height,
            pixel_size,
            stride,
            n,
            span_end(height, 4 * (n / blocks_across(width))),
        )
    }
}

/// Writes row `cy` of the decoded block `block` (RGB888, values of the
/// block with words (high, low)) into `output` at `p_start`: `x_end` pixels,
/// as RGB888 or packed to RGB565.
fn write_decoded_row(
    block: &Vec<u8>,
    output: &mut [u8],
    p_start: usize,
    cy: u32,
    x_end: u32,
    pixel_size: u32,
    Ghost(high): Ghost<u32>,
    Ghost(low): Ghost<u32>,
)
    requires
        block@.len() == 48,
        forall|q: int| 0 <= q < 48 ==> #[trigger] block@[q] == decoded_byte(high, low, q),
        valid_pixel_size(pixel_size),
        cy < 4,
        x_end <= 4,
        p_start + pixel_size * x_end <= old(output)@.len(),
    ensures
        final(output)@ == Seq::new(
            old(output)@.len(),
            |j: int|
                if p_start <= j < p_start + pixel_size * x_end {
                    decoded_row_byte(high, low, pixel_size as int, cy as int, j - p_start)
                } else {
                    old(output)@[j]
                },
        ),
{
    let ghost prev = output@;
    let ghost target = Seq::new(
        prev.len(),
        |j: int|
            if p_start <= j < p_start + pixel_size * x_end {
                decoded_row_byte(high, low, pixel_size as int, cy as int, j - p_start)
            } else {
                prev[j]
            },
    );
    let q_start = (cy * 4) as usize * 3;
    if pixel_size == 3 {
        let count = x_end as usize * 3;
        copy_bytes(block.as_slice(), q_start, output, p_start, count);
        assert(output@ =~= target);
    } else {
        let out_len = output.len();
        let mut q = q_start;
        let mut p = p_start;
        let mut cx: u32 = 0;
        while cx < x_end
            invariant
                0 <= cx <= x_end,
                x_end <= 4,
                cy < 4,
                pixel_size == 2,
                block@.len() == 48,
                forall|q: int| 0 <= q < 48 ==> #[trigger] block@[q] == decoded_byte(high, low, q),
                out_len == output@.len(),
                prev.len() == out_len,
                q == q_start + 3 * cx,
                q_start == 12 * cy,
                p == p_start + 2 * cx,
                p_start + 2 * x_end <= out_len,
                target.len() == out_len,
                forall|j: int|
                    0 <= j < out_len ==> #[trigger] target[j] == if p_start <= j < p_start + 2 * x_end {
                        decoded_row_byte(high, low, 2, cy as int, j - p_start)
                    } else {
                        prev[j]
                    },
                forall|j: int|
                    0 <= j < out_len ==> #[trigger] output@[j] == if p_start <= j < p_start + 2 * cx {
                        target[j]
                    } else {
                        prev[j]
                    },
            decreases x_end - cx,
        {
            let r = block[q] as u32;
            let g = block[q + 1] as u32;
            let b = block[q + 2] as u32;
            let pixel = ((r >> 3) << 11) | ((g >> 2) << 5) | (b >> 3);
            assert(pixel == (r / 8) * 2048 + (g / 4) * 32 + b / 8 && pixel < 65536 && (pixel as u8) == ((r
                / 8) * 2048 + (g / 4) * 32 + b / 8) % 256 && ((pixel >> 8) as u8) == ((r / 8) * 2048 + (g
                / 4) * 32 + b / 8) / 256) by (bit_vector)
                requires
                    r < 256,
                    g < 256,
                    b < 256,
                    pixel == ((r >> 3) << 11) | ((g >> 2) << 5) | (b >> 3),
            ;
            output[p] = pixel as u8;
            output[p + 1] = (pixel >> 8) as u8;
            proof {
                let k0 = (p - p_start) as int;
                assert(k0 == 2 * cx);
                assert(k0 / 2 == cx && k0 % 2 == 0);
                assert((k0 + 1) / 2 == cx && (k0 + 1) % 2 == 1);
                assert(target[p as int] == decoded_row_byte(high, low, 2, cy as int, k0));
                assert(target[p + 1] == decoded_row_byte(high, low, 2, cy as int, k0 + 1));
            }
            q += 3;
            p += 2;
            cx += 1;
        }
        assert(output@ =~= target);
    }
}

/// Decodes tile (x / 4, y / 4), number `n` in row-major order, from the 8
/// bytes of `input` at `8n` into the image in `output`.
fn decode_tile(
    input: &[u8],
    block: &mut Vec<u8>,
    output: &mut [u8],
    x: u32,
    y: u32,
    width: u32,
    height: u32,
    pixel_size: u32,
    stride: u32,
    in_offset: usize,
    Ghost(n): Ghost<int>,
)
    requires
        old(block)@.len() == 48,
        valid_pixel_size(pixel_size),
        image_fits(old(output)@.len() as int, width as int, height as int, pixel_size as int, stride as int),
        x % 4 == 0,
        y % 4 == 0,
        x < width,
        y < height,
        n == (y / 4) * blocks_across(width as int) + x / 4,
        in_offset == 8 * n,
        in_offset + 8 <= input@.len(),
    ensures
        final(block)@.len() == 48,
        final(output)@.len() == old(output)@.len(),
        final(output)@ == write_tile_rows(
            old(output)@,
            input@,
            width as int,
            height as int,
            pixel_size as int,
            stride as int,
            n,
            span_end(height as int, y as int),
        ),
{
    let ghost bw = blocks_across(width as int);
    proof {
        assert(x / 4 < bw);
        lemma_tile_index(n, bw, (x / 4) as int, (y / 4) as int);
    }
    let in_len = input.len();
    let tile = vstd::slice::slice_subrange(input, in_offset, in_offset + 8);
    decode_block(tile, block.as_mut_slice());
    let ghost (high, low) = tile_words(input@, n);
    assert(tile@[0] == input@[8 * n] && tile@[1] == input@[8 * n + 1] && tile@[2] == input@[8 * n
        + 2] && tile@[3] == input@[8 * n + 3] && tile@[4] == input@[8 * n + 4] && tile@[5]
        == input@[8 * n + 5] && tile@[6] == input@[8 * n + 6] && tile@[7] == input@[8 * n + 7]);
    let mut x_end = width - x;
    if x_end > 4 {
        x_end = 4;
    }
    let mut y_end = height - y;
    if y_end > 4 {
        y_end = 4;
    }
    let ghost out0 = output@;
    let out_len = output.len();
    let mut cy: u32 = 0;
    while cy < y_end
        invariant
            0 <= cy <= y_end,
            y_end == span_end(height as int, y as int),
            x_end == span_end(width as int, x as int),
            block@.len() == 48,
            forall|q: int| 0 <= q < 48 ==> #[trigger] block@[q] == decoded_byte(high, low, q),
            valid_pixel_size(pixel_size),
            image_fits(out_len as int, width as int, height as int, pixel_size as int, stride as int),
            out_len == output@.len(),
            x % 4 == 0,
            y % 4 == 0,
            x < width,
            y < height,
            n % bw == x / 4,
            n / bw == y / 4,
            bw == blocks_across(width as int),
            (high, low) == tile_words(input@, n),
            output@ == write_tile_rows(
                out0,
                input@,
                width as int,
                height as int,
                pixel_size as int,
                stride as int,
                n,
                cy as int,
            ),
        decreases y_end - cy,
    {
        proof {
            lemma_row_offset_bounds(
                width as int,
                height as int,
                pixel_size as int,
                stride as int,
                x as int,
                (y + cy) as int,
            );
        }
        let p_start = (pixel_size * x + stride * (y + cy)) as usize;
        let ghost prev = output@;
        write_decoded_row(block, output, p_start, cy, x_end, pixel_size, Ghost(high), Ghost(low));
        proof {
            let target = write_tile_row(
                prev,
                input@,
                width as int,
                height as int,
                pixel_size as int,
                stride as int,
                n,
                cy as int,
            );
            assert(4 * (n % bw) == x);
            assert(4 * (n / bw) == y);
            assert(output@ =~= target);
        }
        cy += 1;
    }
}


/// Decodes an entire image. Tile n (in row-major order) of the 4x4 tiles
/// that cover the image is read from the 8 bytes at `8n` of `input`; its
/// pixels that lie in the image are written to `output`, pixel (x, y) at
/// `pixel_size * x + stride * y`, as RGB888 (`pixel_size` 3) or RGB565
/// (`pixel_size` 2). Rows are written in order, tile by tile, so where rows
/// overlap the later write stands. Returns 0, or -1 without writing when
/// `pixel_size` is neither 2 nor 3.
pub fn decode_image(
    input: &[u8],
    output: &mut [u8],
    width: u32,
    height: u32,
    pixel_size: u32,
    stride: u32,
) -> (r: i32)
    requires
        valid_pixel_size(pixel_size) ==> {
            &&& width as int + 3 <= u32::MAX
            &&& height as int + 3 <= u32::MAX
            &&& input@.len() >= spec_encoded_data_size(width as int, height as int)
            &&& image_fits(
                old(output)@.len() as int,
                width as int,
                height as int,
                pixel_size as int,
                stride as int,
            )
        },
    ensures
        !valid_pixel_size(pixel_size) ==> r == -1 && final(output)@ == old(output)@,
        valid_pixel_size(pixel_size) ==> r == 0 && final(output)@ == decode_tiles(
            old(output)@,
            input@,
            width as int,
            height as int,
            pixel_size as int,
            stride as int,
            blocks_across(width as int) * blocks_across(height as int),
        ),
{
    if pixel_size < 2 || pixel_size > 3 {
        return -1;
    }
    let mut block: Vec<u8> = vec![0u8; ETC1_DECODED_BLOCK_SIZE];
    proof {
        lemma_round_up4_mask(width);
        lemma_round_up4_mask(height);
    }
    let encoded_width = (width + 3) & !3;
    let encoded_height = (height + 3) & !3;
    let ghost bw = blocks_across(width as int);
    let ghost bh = blocks_across(height as int);
    let ghost total = bw * bh;
    assert(spec_encoded_data_size(width as int, height as int) == 8 * total);
    let ghost out0 = output@;
    let ghost mut by: int = 0;
    let in_len = input.len();
    let mut in_offset: usize = 0;
    let mut y: u32 = 0;
    while y < encoded_height
        invariant
            y == 4 * by,
            0 <= by <= bh,
            encoded_height == 4 * bh,
            encoded_width == 4 * bw,
            bw == blocks_across(width as int),
            bh == blocks_across(height as int),
            total == bw * bh,
            valid_pixel_size(pixel_size),
            image_fits(output@.len() as int, width as int, height as int, pixel_size as int, stride as int),
            block@.len() == 48,
            output@.len() == out0.len(),
            in_len == input@.len(),
            input@.len() >= 8 * total,
            in_offset == 8 * (by * bw),
            output@ == decode_tiles(
                out0,
                input@,
                width as int,
                height as int,
                pixel_size as int,
                stride as int,
                by * bw,
            ),
        decreases encoded_height - y,
    {
        let ghost mut bx: int = 0;
        assert(by < bh);
        assert((by + 1) * bw <= total) by (nonlinear_arith)
            requires
                by + 1 <= bh,
                total == bw * bh,
                bw >= 0,
        ;
        let mut x: u32 = 0;
        while x < encoded_width
            invariant
                x == 4 * bx,
                0 <= bx <= bw,
                y == 4 * by,
                0 <= by < bh,
                (by + 1) * bw <= total,
                encoded_height == 4 * bh,
                encoded_width == 4 * bw,
                bw == blocks_across(width as int),
                bh == blocks_across(height as int),
                valid_pixel_size(pixel_size),
                image_fits(
                    output@.len() as int,
                    width as int,
                    height as int,
                    pixel_size as int,
                    stride as int,
                ),
                block@.len() == 48,
                output@.len() == out0.len(),
                in_len == input@.len(),
                input@.len() >= 8 * total,
                in_offset == 8 * (by * bw + bx),
                output@ == decode_tiles(
                    out0,
                    input@,
                    width as int,
                    height as int,
                    pixel_size as int,
                    stride as int,
                    by * bw + bx,
                ),
            decreases encoded_width - x,
        {
            let ghost n = by * bw + bx;
            assert(y / 4 == by && x / 4 == bx);
            assert(n + 1 <= (by + 1) * bw) by (nonlinear_arith)
                requires
                    n == by * bw + bx,
                    bx < bw,
            ;
            decode_tile(
                input,
                &mut block,
                output,
                x,
                y,
                width,
                height,
                pixel_size,
                stride,
                in_offset,
                Ghost(n),
            );
            proof {
                lemma_tile_index(n, bw, bx, by);
                assert(4 * (n / bw) == y);
                bx = bx + 1;
            }
            in_offset += ETC1_ENCODED_BLOCK_SIZE;
            x += 4;
        }
        proof {
            assert(by * bw + bw == (by + 1) * bw) by (nonlinear_arith);
            by = by + 1;
        }
        y += 4;
    }
    assert(by == bh);
    assert(by * bw == total) by (nonlinear_arith)
        requires
            by == bh,
            total == bw * bh,
    ;
    0
}


// ── Laws: what decoding an encoded block gives back ───────────────────────────

/// The weighted squared error (green 6, red 3, blue 1) between pixel `p` of
/// `input` and the pixel the block (high, low) decodes to.
pub open spec fn pixel_decode_error(high: u32, low: u32, input: Seq<u8>, p: int) -> int {
    6 * sq(decoded_byte(high, low, 3 * p + 1) - block_px(input, p, 1)) + 3 * sq(
        decoded_byte(high, low, 3 * p) - block_px(input, p, 0),
    ) + sq(decoded_byte(high, low, 3 * p + 2) - block_px(input, p, 2))
}

/// The error of the block (high, low) summed over the valid pixels among `0..n`.
pub open spec fn decode_error(high: u32, low: u32, input: Seq<u8>, mask: u32, n: int) -> int
    decreases n,
{
    if n <= 0 {
        0
    } else {
        decode_error(high, low, input, mask, n - 1) + if mask_has(mask, n - 1) {
            pixel_decode_error(high, low, input, n - 1)
        } else {
            0
        }
    }
}

/// The error of the block (high, low) summed over the valid pixels of one of
/// its sub-blocks among `0..n`.
pub open spec fn subblock_decode_error(
    high: u32,
    low: u32,
    input: Seq<u8>,
    mask: u32,
    second: bool,
    n: int,
) -> int
    decreases n,
{
    if n <= 0 {
        0
    } else {
        subblock_decode_error(high, low, input, mask, second, n - 1) + if counted(
            mask,
            high & 1 != 0,
            second,
            n - 1,
        ) {
            pixel_decode_error(high, low, input, n - 1)
        } else {
            0
        }
    }
}

/// The bits of a high word that fix the orientation and the base colours:
/// all but the two modifier-table indices.
pub open spec fn base_fields(high: u32) -> u32 {
    high & 0xffff_ff03
}

proof fn lemma_quantise_ranges(v: u8)
    ensures
        0 <= q5(v) <= 31,
        0 <= q4(v) <= 15,
{
    let d5 = v as int * 31;
    let d4 = v as int * 15;
    assert(d5 / 256 <= 30);
    assert(d4 / 256 <= 14);
}

proof fn lemma_fields_differential(
    f: u32,
    r1: u32,
    g1: u32,
    b1: u32,
    dr: u32,
    dg: u32,
    db: u32,
    t1: u32,
    t2: u32,
)
    requires
        f < 2,
        r1 < 32,
        g1 < 32,
        b1 < 32,
        dr < 8,
        dg < 8,
        db < 8,
        t1 < 8,
        t2 < 8,
    ensures
        ({
            let h = ((f | ((r1 << 27u32) | (dr << 24u32) | (g1 << 19u32) | (dg << 16u32) | (b1 << 11u32)
                | (db << 8u32) | 2u32)) | (t1 << 5u32)) | (t2 << 2u32);
            &&& h & 1 == f
            &&& h & 2 != 0
            &&& (h >> 27u32) & 0x1f == r1
            &&& (h >> 19u32) & 0x1f == g1
            &&& (h >> 11u32) & 0x1f == b1
            &&& (h >> 24u32) & 0x7 == dr
            &&& (h >> 16u32) & 0x7 == dg
            &&& (h >> 8u32) & 0x7 == db
            &&& (h >> 5u32) & 7 == t1
            &&& (h >> 2u32) & 7 == t2
        }),
{
    assert({
        let h = ((f | ((r1 << 27u32) | (dr << 24u32) | (g1 << 19u32) | (dg << 16u32) | (b1 << 11u32)
            | (db << 8u32) | 2u32)) | (t1 << 5u32)) | (t2 << 2u32);
        &&& h & 1 == f
        &&& h & 2 != 0
        &&& (h >> 27u32) & 0x1f == r1
        &&& (h >> 19u32) & 0x1f == g1
        &&& (h >> 11u32) & 0x1f == b1
        &&& (h >> 24u32) & 0x7 == dr
        &&& (h >> 16u32) & 0x7 == dg
        &&& (h >> 8u32) & 0x7 == db
        &&& (h >> 5u32) & 7 == t1
        &&& (h >> 2u32) & 7 == t2
    }) by (bit_vector)
        requires
            f < 2,
            r1 < 32,
            g1 < 32,
            b1 < 32,
            dr < 8,
            dg < 8,
            db < 8,
            t1 < 8,
            t2 < 8,
    ;
}

proof fn lemma_fields_individual(
    f: u32,
    r1: u32,
    r2: u32,
    g1: u32,
    g2: u32,
    b1: u32,
    b2: u32,
    t1: u32,
    t2: u32,
)
    requires
        f < 2,
        r1 < 16,
        r2 < 16,
        g1 < 16,
        g2 < 16,
        b1 < 16,
        b2 < 16,
        t1 < 8,
        t2 < 8,
    ensures
        ({
            let h = ((f | ((r1 << 28u32) | (r2 << 24u32) | (g1 << 20u32) | (g2 << 16u32) | (b1 << 12u32)
                | (b2 << 8u32))) | (t1 << 5u32)) | (t2 << 2u32);
            &&& h & 1 == f
            &&& h & 2 == 0
            &&& (h >> 28u32) & 0xf == r1
            &&& (h >> 24u32) & 0xf == r2
            &&& (h >> 20u32) & 0xf == g1
            &&& (h >> 16u32) & 0xf == g2
            &&& (h >> 12u32) & 0xf == b1
            &&& (h >> 8u32) & 0xf == b2
            &&& (h >> 5u32) & 7 == t1
            &&& (h >> 2u32) & 7 == t2
        }),
{
    assert({
        let h = ((f | ((r1 << 28u32) | (r2 << 24u32) | (g1 << 20u32) | (g2 << 16u32) | (b1 << 12u32)
            | (b2 << 8u32))) | (t1 << 5u32)) | (t2 << 2u32);
        &&& h & 1 == f
        &&& h & 2 == 0
        &&& (h >> 28u32) & 0xf == r1
        &&& (h >> 24u32) & 0xf == r2
        &&& (h >> 20u32) & 0xf == g1
        &&& (h >> 16u32) & 0xf == g2
        &&& (h >> 12u32) & 0xf == b1
        &&& (h >> 8u32) & 0xf == b2
        &&& (h >> 5u32) & 7 == t1
        &&& (h >> 2u32) & 7 == t2
    }) by (bit_vector)
        requires
            f < 2,
            r1 < 16,
            r2 < 16,
            g1 < 16,
            g2 < 16,
            b1 < 16,
            b2 < 16,
            t1 < 8,
            t2 < 8,
    ;
}

/// The differential base bits of six 5-bit channels: the first colour and
/// the 3-bit deltas to the second.
pub open spec fn differential_bits(v0: int, v1: int, v2: int, v3: int, v4: int, v5: int) -> u32 {
    ((v0 as u32) << 27u32) | ((((v3 - v0) % 8) as u32) << 24u32) | ((v1 as u32) << 19u32) | ((((v4
        - v1) % 8) as u32) << 16u32) | ((v2 as u32) << 11u32) | ((((v5 - v2) % 8) as u32) << 8u32)
        | 2u32
}

/// The channel values that a high word with differential base bits stores.
#[verifier::spinoff_prover]
proof fn lemma_differential_word(
    f: u32,
    t1: u32,
    t2: u32,
    v0: int,
    v1: int,
    v2: int,
    v3: int,
    v4: int,
    v5: int,
)
    requires
        f < 2,
        t1 < 8,
        t2 < 8,
        0 <= v0 < 32,
        0 <= v1 < 32,
        0 <= v2 < 32,
        0 <= v3 < 32,
        0 <= v4 < 32,
        0 <= v5 < 32,
        -4 <= v3 - v0 <= 3,
        -4 <= v4 - v1 <= 3,
        -4 <= v5 - v2 <= 3,
    ensures
        ({
            let h = ((f | differential_bits(v0, v1, v2, v3, v4, v5)) | (t1 << 5u32)) | (t2 << 2u32);
            &&& h & 1 == f
            &&& h & 2 != 0
            &&& (h >> 5u32) & 7 == t1
            &&& (h >> 2u32) & 7 == t2
            &&& ((h >> 27u32) & 0x1f) as int == v0
            &&& ((h >> 19u32) & 0x1f) as int == v1
            &&& ((h >> 11u32) & 0x1f) as int == v2
            &&& lookup3(((h >> 24u32) & 0x7) as int) == v3 - v0
            &&& lookup3(((h >> 16u32) & 0x7) as int) == v4 - v1
            &&& lookup3(((h >> 8u32) & 0x7) as int) == v5 - v2
            &&& base_color(h, false, 0) == expand5(v0)
            &&& base_color(h, false, 1) == expand5(v1)
            &&& base_color(h, false, 2) == expand5(v2)
            &&& base_color(h, true, 0) == expand5(v3)
            &&& base_color(h, true, 1) == expand5(v4)
            &&& base_color(h, true, 2) == expand5(v5)
        }),
{
    let xr = ((v3 - v0) % 8) as u32;
    let xg = ((v4 - v1) % 8) as u32;
    let xb = ((v5 - v2) % 8) as u32;
    lemma_fields_differential(f, v0 as u32, v1 as u32, v2 as u32, xr, xg, xb, t1, t2);
    assert(lookup3(xr as int) == v3 - v0);
    assert(lookup3(xg as int) == v4 - v1);
    assert(lookup3(xb as int) == v5 - v2);
    assert((v0 + (v3 - v0)) % 32 == v3);
    assert((v1 + (v4 - v1)) % 32 == v4);
    assert((v2 + (v5 - v2)) % 32 == v5);
}

/// A high word built from differential base bits decodes to the encoder's
/// base colours and to the tables stored beside them.
#[verifier::spinoff_prover]
proof fn lemma_base_bits_differential(a: Seq<u8>, f: u32, t1: u32, t2: u32)
    requires
        a.len() == 6,
        differential_ok(a),
        f < 2,
        t1 < 8,
        t2 < 8,
    ensures
        ({
            let h = ((f | base_bits(a)) | (t1 << 5u32)) | (t2 << 2u32);
            &&& h & 1 == f
            &&& table_of(h, false) == t1
            &&& table_of(h, true) == t2
            &&& forall|second: bool, c: int|
                0 <= c < 3 ==> #[trigger] base_color(h, second, c) == encoded_base(a, second, c)
        }),
{
    let h = ((f | base_bits(a)) | (t1 << 5u32)) | (t2 << 2u32);
    let v0 = q5(a[0]);
    let v1 = q5(a[1]);
    let v2 = q5(a[2]);
    let v3 = q5(a[3]);
    let v4 = q5(a[4]);
    let v5 = q5(a[5]);
    lemma_quantise_ranges(a[0]);
    lemma_quantise_ranges(a[1]);
    lemma_quantise_ranges(a[2]);
    lemma_quantise_ranges(a[3]);
    lemma_quantise_ranges(a[4]);
    lemma_quantise_ranges(a[5]);
    assert(base_bits(a) == differential_bits(v0, v1, v2, v3, v4, v5));
    lemma_differential_word(f, t1, t2, v0, v1, v2, v3, v4, v5);
}

/// A high word built from individual base bits decodes to the encoder's
/// base colours and to the tables stored beside them.
#[verifier::spinoff_prover]
#[verifier::rlimit(40)]
proof fn lemma_base_bits_individual(a: Seq<u8>, f: u32, t1: u32, t2: u32)
    requires
        a.len() == 6,
        !differential_ok(a),
        f < 2,
        t1 < 8,
        t2 < 8,
    ensures
        ({
            let h = ((f | base_bits(a)) | (t1 << 5u32)) | (t2 << 2u32);
            &&& h & 1 == f
            &&& table_of(h, false) == t1
            &&& table_of(h, true) == t2
            &&& forall|second: bool, c: int|
                0 <= c < 3 ==> #[trigger] base_color(h, second, c) == encoded_base(a, second, c)
        }),
{
    lemma_quantise_ranges(a[0]);
    lemma_quantise_ranges(a[1]);
    lemma_quantise_ranges(a[2]);
    lemma_quantise_ranges(a[3]);
    lemma_quantise_ranges(a[4]);
    lemma_quantise_ranges(a[5]);
    let r1 = q4(a[0]) as u32;
    let r2 = q4(a[3]) as u32;
    let g1 = q4(a[1]) as u32;
    let g2 = q4(a[4]) as u32;
    let b1 = q4(a[2]) as u32;
    let b2 = q4(a[5]) as u32;
    assert(base_bits(a) == (r1 << 28u32) | (r2 << 24u32) | (g1 << 20u32) | (g2 << 16u32) | (b1
        << 12u32) | (b2 << 8u32));
    lemma_fields_individual(f, r1, r2, g1, g2, b1, b2, t1, t2);
}

/// Decoding the high word of a candidate gives back its orientation, its
/// tables and the base colours the encoder used.
proof fn lemma_candidate_high_decodes(input: Seq<u8>, mask: u32, flipped: bool, a: Seq<u8>)
    requires
        a.len() == 6,
    ensures
        (candidate_high(input, mask, flipped, a) & 1 != 0) == flipped,
        table_of(candidate_high(input, mask, flipped, a), false) == best_table(
            input,
            mask,
            flipped,
            false,
            a,
        ),
        table_of(candidate_high(input, mask, flipped, a), true) == best_table(
            input,
            mask,
            flipped,
            true,
            a,
        ),
        forall|second: bool, c: int|
            0 <= c < 3 ==> #[trigger] base_color(candidate_high(input, mask, flipped, a), second, c)
                == encoded_base(a, second, c),
{
    let f: u32 = if flipped {
        1
    } else {
        0
    };
    let t1 = best_table(input, mask, flipped, false, a);
    let t2 = best_table(input, mask, flipped, true, a);
    lemma_first_min_index_range(|t: int| table_score(input, mask, flipped, false, a, t), 8);
    lemma_first_min_index_range(|t: int| table_score(input, mask, flipped, true, a, t), 8);
    assert(candidate_high(input, mask, flipped, a) == ((f | base_bits(a)) | ((t1 as u32) << 5u32))
        | ((t2 as u32) << 2u32));
    if differential_ok(a) {
        lemma_base_bits_differential(a, f, t1 as u32, t2 as u32);
    } else {
        lemma_base_bits_individual(a, f, t1 as u32, t2 as u32);
    }
}

proof fn lemma_base_fields_fix_decoding(h1: u32, h2: u32)
    requires
        base_fields(h1) == base_fields(h2),
    ensures
        (h1 & 1 != 0) == (h2 & 1 != 0),
        forall|second: bool, c: int| 0 <= c < 3 ==> #[trigger] base_color(h1, second, c) == base_color(
            h2,
            second,
            c,
        ),
        0 <= table_of(h2, false) < 8,
        0 <= table_of(h2, true) < 8,
{
    assert({
        &&& (h1 & 1 != 0) == (h2 & 1 != 0)
        &&& (h1 & 2 != 0) == (h2 & 2 != 0)
        &&& (h1 >> 27u32) & 0x1f == (h2 >> 27u32) & 0x1f
        &&& (h1 >> 19u32) & 0x1f == (h2 >> 19u32) & 0x1f
        &&& (h1 >> 11u32) & 0x1f == (h2 >> 11u32) & 0x1f
        &&& (h1 >> 28u32) & 0xf == (h2 >> 28u32) & 0xf
        &&& (h1 >> 24u32) & 0xf == (h2 >> 24u32) & 0xf
        &&& (h1 >> 20u32) & 0xf == (h2 >> 20u32) & 0xf
        &&& (h1 >> 16u32) & 0xf == (h2 >> 16u32) & 0xf
        &&& (h1 >> 12u32) & 0xf == (h2 >> 12u32) & 0xf
        &&& (h1 >> 8u32) & 0xf == (h2 >> 8u32) & 0xf
        &&& (h1 >> 24u32) & 0x7 == (h2 >> 24u32) & 0x7
        &&& (h1 >> 16u32) & 0x7 == (h2 >> 16u32) & 0x7
        &&& (h1 >> 8u32) & 0x7 == (h2 >> 8u32) & 0x7
        &&& (h2 >> 5u32) & 7 < 8
        &&& (h2 >> 2u32) & 7 < 8
    }) by (bit_vector)
        requires
            h1 & 0xffff_ff03 == h2 & 0xffff_ff03,
    ;
}

proof fn lemma_mod_index_range(low: u32, p: int)
    requires
        0 <= p < 16,
    ensures
        0 <= mod_index_at(low, p) < 4,
{
    let k = (p / 4 + 4 * (p % 4)) as u32;
    assert(k < 16);
    assert((low >> k) & 1 <= 1 && (low >> ((k + 16) as u32)) & 1 <= 1) by (bit_vector);
}

/// The error of pixel `p` of a block is the error the encoder assigns to its
/// modifier under the block's base colour and table.
proof fn lemma_pixel_decode_error(high: u32, low: u32, input: Seq<u8>, p: int)
    requires
        0 <= p < 16,
    ensures
        ({
            let s = in_second(high & 1 != 0, p % 4, p / 4);
            pixel_decode_error(high, low, input, p) == modifier_error(
                input,
                p,
                base_color(high, s, 0),
                base_color(high, s, 1),
                base_color(high, s, 2),
                table_of(high, s),
                mod_index_at(low, p),
            )
        }),
{
    lemma_pixel_of_byte(p % 4, p / 4, 0);
    lemma_pixel_of_byte(p % 4, p / 4, 1);
    lemma_pixel_of_byte(p % 4, p / 4, 2);
    assert(3 * (p % 4 + 4 * (p / 4)) == 3 * p);
}

proof fn lemma_decode_error_split(high: u32, low: u32, input: Seq<u8>, mask: u32, n: int)
    requires
        0 <= n <= 16,
    ensures
        decode_error(high, low, input, mask, n) == subblock_decode_error(
            high,
            low,
            input,
            mask,
            false,
            n,
        ) + subblock_decode_error(high, low, input, mask, true, n),
    decreases n,
{
    if n > 0 {
        lemma_decode_error_split(high, low, input, mask, n - 1);
    }
}

/// Over a sub-block, the error of a block whose base colours are those the
/// encoder derived from `a` is at least the encoder's score for the block's
/// table, and equals it when every valid pixel holds the encoder's modifier.
proof fn lemma_subblock_decode_error(
    high: u32,
    low: u32,
    input: Seq<u8>,
    mask: u32,
    a: Seq<u8>,
    second: bool,
    n: int,
)
    requires
        0 <= n <= 16,
        0 <= table_of(high, second) < 8,
        forall|c: int| 0 <= c < 3 ==> #[trigger] base_color(high, second, c) == encoded_base(a, second, c),
    ensures
        subblock_decode_error(high, low, input, mask, second, n) >= subblock_score(
            input,
            mask,
            high & 1 != 0,
            second,
            encoded_base(a, second, 0),
            encoded_base(a, second, 1),
            encoded_base(a, second, 2),
            table_of(high, second),
            n,
        ),
        (forall|p: int|
            0 <= p < n && counted(mask, high & 1 != 0, second, p) ==> #[trigger] mod_index_at(low, p)
                == best_modifier(
                input,
                p,
                encoded_base(a, second, 0),
                encoded_base(a, second, 1),
                encoded_base(a, second, 2),
                table_of(high, second),
            )) ==> subblock_decode_error(high, low, input, mask, second, n) == subblock_score(
            input,
            mask,
            high & 1 != 0,
            second,
            encoded_base(a, second, 0),
            encoded_base(a, second, 1),
            encoded_base(a, second, 2),
            table_of(high, second),
            n,
        ),
    decreases n,
{
    if n > 0 {
        lemma_subblock_decode_error(high, low, input, mask, a, second, n - 1);
        let p = n - 1;
        if counted(mask, high & 1 != 0, second, p) {
            let (br, bg, bb) = (
                encoded_base(a, second, 0),
                encoded_base(a, second, 1),
                encoded_base(a, second, 2),
            );
            let t = table_of(high, second);
            lemma_pixel_decode_error(high, low, input, p);
            lemma_mod_index_range(low, p);
            lemma_first_min_index_is_min(|i: int| modifier_error(input, p, br, bg, bb, t, i), 4);
            let i = mod_index_at(low, p);
            assert((|i: int| modifier_error(input, p, br, bg, bb, t, i))(i) == modifier_error(
                input,
                p,
                br,
                bg,
                bb,
                t,
                i,
            ));
        }
    }
}

proof fn lemma_table_score_min(input: Seq<u8>, mask: u32, flipped: bool, second: bool, a: Seq<u8>, t: int)
    requires
        0 <= t < 8,
    ensures
        table_score(input, mask, flipped, second, a, t) >= table_score(
            input,
            mask,
            flipped,
            second,
            a,
            best_table(input, mask, flipped, second, a),
        ),
{
    let f = |t: int| table_score(input, mask, flipped, second, a, t);
    lemma_first_min_index_is_min(f, 8);
    assert(f(t) == table_score(input, mask, flipped, second, a, t));
}

/// Decoding what the encoder produced: every valid pixel decodes to the base
/// colour of its sub-block shifted by the modifier the encoder picked, so the
/// weighted error of the decoded block over the valid pixels is exactly the
/// score the encoder minimised.
pub proof fn lemma_decode_of_encode(input: Seq<u8>, mask: u32, high: u32, low: u32)
    requires
        high == encoded_high(input, mask),
        forall|p: int| 0 <= p < 16 ==> #[trigger] mod_index_at(low, p) == encoded_mod_index(input, mask, p),
    ensures
        decode_error(high, low, input, mask, 16) == encoded_score(input, mask),
        forall|p: int, c: int|
            0 <= p < 16 && 0 <= c < 3 && mask_has(mask, p) ==> {
                let f = encode_flips(input, mask);
                let a = average_colors(input, mask, f);
                let s = in_second(f, p % 4, p / 4);
                #[trigger] decoded_byte(high, low, 3 * p + c) == spec_clamp(
                    encoded_base(a, s, c) + modifier_value(
                        best_table(input, mask, f, s, a),
                        best_modifier(
                            input,
                            p,
                            encoded_base(a, s, 0),
                            encoded_base(a, s, 1),
                            encoded_base(a, s, 2),
                            best_table(input, mask, f, s, a),
                        ),
                    ),
                )
            },
{
    let f = encode_flips(input, mask);
    let a = average_colors(input, mask, f);
    lemma_candidate_high_decodes(input, mask, f, a);
    lemma_first_min_index_range(|t: int| table_score(input, mask, f, false, a, t), 8);
    lemma_first_min_index_range(|t: int| table_score(input, mask, f, true, a, t), 8);
    assert forall|p: int|
        0 <= p < 16 && counted(mask, high & 1 != 0, false, p) implies #[trigger] mod_index_at(low, p)
        == best_modifier(
        input,
        p,
        encoded_base(a, false, 0),
        encoded_base(a, false, 1),
        encoded_base(a, false, 2),
        table_of(high, false),
    ) by {
        assert(mod_index_at(low, p) == encoded_mod_index(input, mask, p));
    }
    assert forall|p: int|
        0 <= p < 16 && counted(mask, high & 1 != 0, true, p) implies #[trigger] mod_index_at(low, p)
        == best_modifier(
        input,
        p,
        encoded_base(a, true, 0),
        encoded_base(a, true, 1),
        encoded_base(a, true, 2),
        table_of(high, true),
    ) by {
        assert(mod_index_at(low, p) == encoded_mod_index(input, mask, p));
    }
    lemma_subblock_decode_error(high, low, input, mask, a, false, 16);
    lemma_subblock_decode_error(high, low, input, mask, a, true, 16);
    lemma_decode_error_split(high, low, input, mask, 16);
    assert forall|p: int, c: int| 0 <= p < 16 && 0 <= c < 3 && mask_has(mask, p) implies {
        let s = in_second(f, p % 4, p / 4);
        #[trigger] decoded_byte(high, low, 3 * p + c) == spec_clamp(
            encoded_base(a, s, c) + modifier_value(
                best_table(input, mask, f, s, a),
                best_modifier(
                    input,
                    p,
                    encoded_base(a, s, 0),
                    encoded_base(a, s, 1),
                    encoded_base(a, s, 2),
                    best_table(input, mask, f, s, a),
                ),
            ),
        )
    } by {
        lemma_pixel_of_byte(p % 4, p / 4, c);
        assert(3 * (p % 4 + 4 * (p / 4)) + c == 3 * p + c);
        assert(mod_index_at(low, p) == encoded_mod_index(input, mask, p));
    }
}

/// No block does better than the encoder's among those that share the
/// orientation and base colours of either of the encoder's two candidates:
/// its weighted error over the valid pixels is at least the encoder's score.
pub proof fn lemma_encode_is_best_for_its_base_colors(
    input: Seq<u8>,
    mask: u32,
    flipped: bool,
    high: u32,
    low: u32,
)
    requires
        base_fields(high) == base_fields(
            candidate_high(input, mask, flipped, average_colors(input, mask, flipped)),
        ),
    ensures
        decode_error(high, low, input, mask, 16) >= encoded_score(input, mask),
{
    let a = average_colors(input, mask, flipped);
    let h0 = candidate_high(input, mask, flipped, a);
    lemma_candidate_high_decodes(input, mask, flipped, a);
    lemma_base_fields_fix_decoding(h0, high);
    assert forall|c: int| 0 <= c < 3 implies #[trigger] base_color(high, false, c) == encoded_base(
        a,
        false,
        c,
    ) by {
        assert(base_color(h0, false, c) == base_color(high, false, c));
    }
    assert forall|c: int| 0 <= c < 3 implies #[trigger] base_color(high, true, c) == encoded_base(
        a,
        true,
        c,
    ) by {
        assert(base_color(h0, true, c) == base_color(high, true, c));
    }
    assert((high & 1 != 0) == flipped);
    lemma_subblock_decode_error(high, low, input, mask, a, false, 16);
    lemma_subblock_decode_error(high, low, input, mask, a, true, 16);
    lemma_decode_error_split(high, low, input, mask, 16);
    lemma_table_score_min(input, mask, flipped, false, a, table_of(high, false));
    lemma_table_score_min(input, mask, flipped, true, a, table_of(high, true));
}

// ── Laws: where decoding an image puts each pixel ─────────────────────────────

/// Whether the rows of a `width` x `height` image, `stride` bytes apart, are
/// disjoint and all lie within `len` bytes.
pub open spec fn rows_disjoint(len: int, width: int, height: int, pixel_size: int, stride: int) -> bool {
    &&& width > 0
    &&& height > 0
    &&& stride >= pixel_size * width
    &&& len >= pixel_size * width + stride * (height - 1)
}

/// The tile (in row-major order) that pixel (x, y) of a `width`-wide image
/// lies in.
pub open spec fn tile_of(width: int, x: int, y: int) -> int {
    (y / 4) * blocks_across(width) + x / 4
}

/// Byte `k` of pixel (x, y) lies in the row `cy` of tile `n` that decoding
/// writes exactly when the pixel belongs to that tile and row.
proof fn lemma_row_range_owner(
    width: int,
    height: int,
    pixel_size: int,
    stride: int,
    x: int,
    y: int,
    k: int,
    n: int,
    cy: int,
)
    requires
        width > 0,
        height > 0,
        pixel_size == 2 || pixel_size == 3,
        stride >= pixel_size * width,
        0 <= x < width,
        0 <= y < height,
        0 <= k < pixel_size,
        0 <= n < blocks_across(width) * blocks_across(height),
        0 <= cy < span_end(height, 4 * (n / blocks_across(width))),
    ensures
        ({
            let bw = blocks_across(width);
            let xn = 4 * (n % bw);
            let start = pixel_size * xn + stride * (4 * (n / bw) + cy);
            let len = pixel_size * span_end(width, xn);
            let j = pixel_size * x + stride * y + k;
            (start <= j < start + len) <==> (n == tile_of(width, x, y) && cy == y % 4)
        }),
{
    let bw = blocks_across(width);
    let bh = blocks_across(height);
    let xn = 4 * (n % bw);
    let yy = 4 * (n / bw) + cy;
    let sp = span_end(width, xn);
    let start = pixel_size * xn + stride * yy;
    let len = pixel_size * sp;
    let j = pixel_size * x + stride * y + k;
    assert(0 <= n % bw < bw) by (nonlinear_arith)
        requires
            bw > 0,
    ;
    assert(n / bw < bh) by (nonlinear_arith)
        requires
            bw > 0,
            0 <= n < bw * bh,
    ;
    assert(0 <= n / bw) by (nonlinear_arith)
        requires
            bw > 0,
            0 <= n,
    ;
    assert(xn < width);
    assert(0 < sp <= 4 && xn + sp <= width);
    assert(pixel_size * (xn + sp) <= pixel_size * width) by (nonlinear_arith)
        requires
            xn + sp <= width,
            pixel_size > 0,
    ;
    assert(0 <= pixel_size * x + k < pixel_size * width) by (nonlinear_arith)
        requires
            0 <= x < width,
            0 <= k < pixel_size,
    ;
    if yy < y {
        assert(stride * yy + stride <= stride * y) by (nonlinear_arith)
            requires
                yy < y,
                stride >= 0,
        ;
        assert(!(n == tile_of(width, x, y) && cy == y % 4)) by {
            if n == tile_of(width, x, y) {
                lemma_tile_index(n, bw, x / 4, y / 4);
            }
        }
    } else if yy > y {
        assert(stride * y + stride <= stride * yy) by (nonlinear_arith)
            requires
                y < yy,
                stride >= 0,
        ;
        assert(!(n == tile_of(width, x, y) && cy == y % 4)) by {
            if n == tile_of(width, x, y) {
                lemma_tile_index(n, bw, x / 4, y / 4);
            }
        }
    } else {
        assert((start <= j) <==> (xn <= x)) by (nonlinear_arith)
            requires
                start == pixel_size * xn + stride * yy,
                j == pixel_size * x + stride * y + k,
                yy == y,
                0 <= k < pixel_size,
        ;
        assert((j < start + len) <==> (x < xn + sp)) by (nonlinear_arith)
            requires
                start == pixel_size * xn + stride * yy,
                len == pixel_size * sp,
                j == pixel_size * x + stride * y + k,
                yy == y,
                0 <= k < pixel_size,
        ;
        if xn <= x && x < xn + sp {
            assert(n % bw == x / 4);
            assert(n / bw == y / 4 && cy == y % 4);
            assert(n == (n / bw) * bw + n % bw) by (nonlinear_arith)
                requires
                    bw > 0,
            ;
        } else {
            assert(!(n == tile_of(width, x, y) && cy == y % 4)) by {
                if n == tile_of(width, x, y) {
                    lemma_tile_index(n, bw, x / 4, y / 4);
                }
            }
        }
    }
}

/// Writing rows `0..rows` of tile `n` sets byte `k` of pixel (x, y) only when
/// the pixel lies in one of those rows of that tile, and keeps the length.
proof fn lemma_write_tile_rows_at(
    out: Seq<u8>,
    input: Seq<u8>,
    width: int,
    height: int,
    pixel_size: int,
    stride: int,
    n: int,
    rows: int,
    x: int,
    y: int,
    k: int,
)
    requires
        rows_disjoint(out.len() as int, width, height, pixel_size, stride),
        pixel_size == 2 || pixel_size == 3,
        0 <= x < width,
        0 <= y < height,
        0 <= k < pixel_size,
        0 <= n < blocks_across(width) * blocks_across(height),
        0 <= rows <= span_end(height, 4 * (n / blocks_across(width))),
    ensures
        write_tile_rows(out, input, width, height, pixel_size, stride, n, rows).len() == out.len(),
        ({
            let j = pixel_size * x + stride * y + k;
            let (high, low) = tile_words(input, n);
            write_tile_rows(out, input, width, height, pixel_size, stride, n, rows)[j] == if n
                == tile_of(width, x, y) && y % 4 < rows {
                decoded_row_byte(high, low, pixel_size, y % 4, pixel_size * (x % 4) + k)
            } else {
                out[j]
            }
        }),
    decreases rows,
{
    let j = pixel_size * x + stride * y + k;
    assert(0 <= pixel_size * x + k < pixel_size * width) by (nonlinear_arith)
        requires
            0 <= x < width,
            0 <= k < pixel_size,
    ;
    assert(0 <= stride * y <= stride * (height - 1)) by (nonlinear_arith)
        requires
            0 <= y < height,
            stride >= 0,
    ;
    assert(0 <= j < out.len());
    if rows > 0 {
        lemma_write_tile_rows_at(out, input, width, height, pixel_size, stride, n, rows - 1, x, y, k);
        lemma_row_range_owner(width, height, pixel_size, stride, x, y, k, n, rows - 1);
        let bw = blocks_across(width);
        let xn = 4 * (n % bw);
        let start = pixel_size * xn + stride * (4 * (n / bw) + (rows - 1));
        if n == tile_of(width, x, y) && y % 4 == rows - 1 {
            lemma_tile_index(n, bw, x / 4, y / 4);
            assert(j - start == pixel_size * (x % 4) + k) by (nonlinear_arith)
                requires
                    start == pixel_size * xn + stride * (4 * (n / bw) + (rows - 1)),
                    j == pixel_size * x + stride * y + k,
                    xn == 4 * (x / 4),
                    4 * (n / bw) + (rows - 1) == y,
                    x == 4 * (x / 4) + x % 4,
            ;
        }
    }
}

/// Decoding tiles `0..count` sets byte `k` of pixel (x, y) to the decoded
/// value of the pixel's own tile once that tile is among them, and keeps the
/// length.
proof fn lemma_decode_tiles_at(
    out: Seq<u8>,
    input: Seq<u8>,
    width: int,
    height: int,
    pixel_size: int,
    stride: int,
    count: int,
    x: int,
    y: int,
    k: int,
)
    requires
        rows_disjoint(out.len() as int, width, height, pixel_size, stride),
        pixel_size == 2 || pixel_size == 3,
        0 <= x < width,
        0 <= y < height,
        0 <= k < pixel_size,
        0 <= count <= blocks_across(width) * blocks_across(height),
    ensures
        decode_tiles(out, input, width, height, pixel_size, stride, count).len() == out.len(),
        ({
            let j = pixel_size * x + stride * y + k;
            let n = tile_of(width, x, y);
            let (high, low) = tile_words(input, n);
            decode_tiles(out, input, width, height, pixel_size, stride, count)[j] == if n < count {
                decoded_row_byte(high, low, pixel_size, y % 4, pixel_size * (x % 4) + k)
            } else {
                out[j]
            }
        }),
    decreases count,
{
    if count > 0 {
        let n = count - 1;
        let bw = blocks_across(width);
        lemma_decode_tiles_at(out, input, width, height, pixel_size, stride, n, x, y, k);
        let prev = decode_tiles(out, input, width, height, pixel_size, stride, n);
        assert(0 <= n / bw) by (nonlinear_arith)
            requires
                bw > 0,
                0 <= n,
        ;
        let rows = span_end(height, 4 * (n / bw));
        assert(n / bw < blocks_across(height)) by (nonlinear_arith)
            requires
                bw > 0,
                0 <= n < bw * blocks_across(height),
        ;
        lemma_write_tile_rows_at(prev, input, width, height, pixel_size, stride, n, rows, x, y, k);
        if n == tile_of(width, x, y) {
            lemma_tile_index(n, bw, x / 4, y / 4);
        }
    }
}

/// Decoding an image whose rows do not overlap puts, at every byte of every
/// pixel, the value its own 4x4 tile decodes to there: the RGB888 bytes of
/// the pixel, or the little-endian bytes of their RGB565 packing.
pub proof fn lemma_decoded_image_pixel(
    out: Seq<u8>,
    input: Seq<u8>,
    width: int,
    height: int,
    pixel_size: int,
    stride: int,
    x: int,
    y: int,
    k: int,
)
    requires
        rows_disjoint(out.len() as int, width, height, pixel_size, stride),
        pixel_size == 2 || pixel_size == 3,
        0 <= x < width,
        0 <= y < height,
        0 <= k < pixel_size,
    ensures
        ({
            let (high, low) = tile_words(input, tile_of(width, x, y));
            decode_tiles(
                out,
                input,
                width,
                height,
                pixel_size,
                stride,
                blocks_across(width) * blocks_across(height),
            )[pixel_size * x + stride * y + k] == decoded_row_byte(
                high,
                low,
                pixel_size,
                y % 4,
                pixel_size * (x % 4) + k,
            )
        }),
{
    let bw = blocks_across(width);
    let bh = blocks_across(height);
    lemma_decode_tiles_at(out, input, width, height, pixel_size, stride, bw * bh, x, y, k);
    assert(tile_of(width, x, y) < bw * bh) by (nonlinear_arith)
        requires
            bw == (width + 3) / 4,
            bh == (height + 3) / 4,
            0 <= x < width,
            0 <= y < height,
            tile_of(width, x, y) == (y / 4) * bw + x / 4,
    ;
}

/// The value the encoder aims at for channel `c` of pixel `p` of a block
/// with validity mask `mask`: the base colour of the pixel's sub-block,
/// shifted by the best entry of the best table for that sub-block, clamped.
#[verifier::opaque]
pub open spec fn encoder_pixel_value(blk: Seq<u8>, mask: u32, p: int, c: int) -> int {
    let f = encode_flips(blk, mask);
    let a = average_colors(blk, mask, f);
    let s = in_second(f, p % 4, p / 4);
    let t = best_table(blk, mask, f, s, a);
    spec_clamp(
        encoded_base(a, s, c) + modifier_value(
            t,
            best_modifier(
                blk,
                p,
                encoded_base(a, s, 0),
                encoded_base(a, s, 1),
                encoded_base(a, s, 2),
                t,
            ),
        ),
    )
}

/// Every valid pixel of a block decodes from the encoder's words to the
/// value the encoder aimed at for it.
#[verifier::spinoff_prover]
proof fn lemma_block_pixel(blk: Seq<u8>, m: u32, high: u32, low: u32, p: int, c: int)
    requires
        high == encoded_high(blk, m),
        forall|q: int| 0 <= q < 16 ==> #[trigger] mod_index_at(low, q) == encoded_mod_index(blk, m, q),
        0 <= p < 16,
        0 <= c < 3,
        mask_has(m, p),
    ensures
        decoded_byte(high, low, 3 * p + c) == encoder_pixel_value(blk, m, p, c),
{
    reveal(encoder_pixel_value);
    lemma_decode_of_encode(blk, m, high, low);
}

/// Every valid pixel of tile `n` decodes, from the words `encode_image`
/// stored for the tile, to the value the encoder aimed at for it.
#[verifier::spinoff_prover]
proof fn lemma_tile_pixel(
    enc: Seq<u8>,
    input: Seq<u8>,
    width: int,
    height: int,
    pixel_size: int,
    stride: int,
    n: int,
    p: int,
    c: int,
)
    requires
        encoded_block_ok(enc, input, width, height, pixel_size, stride, n),
        0 <= p < 16,
        0 <= c < 3,
        mask_has(
            image_block_mask(width, height, n % blocks_across(width), n / blocks_across(width)),
            p,
        ),
    ensures
        decoded_byte(tile_words(enc, n).0, tile_words(enc, n).1, 3 * p + c) == encoder_pixel_value(
            image_block(
                input,
                width,
                height,
                pixel_size,
                stride,
                n % blocks_across(width),
                n / blocks_across(width),
            ),
            image_block_mask(width, height, n % blocks_across(width), n / blocks_across(width)),
            p,
            c,
        ),
{
    reveal(encoded_block_ok);
    let bw = blocks_across(width);
    let blk = image_block(input, width, height, pixel_size, stride, n % bw, n / bw);
    let m = image_block_mask(width, height, n % bw, n / bw);
    lemma_block_pixel(blk, m, tile_words(enc, n).0, tile_words(enc, n).1, p, c);
}

/// Every pixel of an image decodes, from the blocks `encode_image` wrote for
/// it, to the value the encoder aimed at for it within its own 4x4 tile.
#[verifier::spinoff_prover]
pub proof fn lemma_encoded_image_decodes(
    enc: Seq<u8>,
    input: Seq<u8>,
    width: int,
    height: int,
    pixel_size: int,
    stride: int,
    x: int,
    y: int,
    c: int,
)
    requires
        forall|n: int|
            0 <= n < blocks_across(width) * blocks_across(height) ==> #[trigger] encoded_block_ok(
                enc,
                input,
                width,
                height,
                pixel_size,
                stride,
                n,
            ),
        0 <= x < width,
        0 <= y < height,
        0 <= c < 3,
    ensures
        ({
            let (high, low) = tile_words(enc, tile_of(width, x, y));
            let blk = image_block(input, width, height, pixel_size, stride, x / 4, y / 4);
            let m = image_block_mask(width, height, x / 4, y / 4);
            decoded_byte(high, low, 3 * (x % 4 + 4 * (y % 4)) + c) == encoder_pixel_value(
                blk,
                m,
                x % 4 + 4 * (y % 4),
                c,
            )
        }),
{
    let bw = blocks_across(width);
    let bh = blocks_across(height);
    let n = tile_of(width, x, y);
    assert(0 <= n < bw * bh) by (nonlinear_arith)
        requires
            bw == (width + 3) / 4,
            bh == (height + 3) / 4,
            0 <= x < width,
            0 <= y < height,
            n == (y / 4) * bw + x / 4,
    ;
    lemma_tile_index(n, bw, x / 4, y / 4);
    let p = x % 4 + 4 * (y % 4);
    let xe = span_end(width, 4 * (x / 4));
    let ye = span_end(height, 4 * (y / 4));
    lemma_edge_mask(xe as u32, ye as u32, p as u32);
    assert(mask_has(image_block_mask(width, height, x / 4, y / 4), p));
    lemma_tile_pixel(enc, input, width, height, pixel_size, stride, n, p, c);
}

/// Byte `k` of a pixel with channel values (r, g, b) as an image with
/// `pixel_size` bytes per pixel stores it: the channel itself for RGB888, a
/// little-endian byte of the RGB565 packing otherwise.
pub open spec fn stored_pixel_byte(r: int, g: int, b: int, pixel_size: int, k: int) -> u8 {
    if pixel_size == 3 {
        (if k == 0 {
            r
        } else if k == 1 {
            g
        } else {
            b
        }) as u8
    } else if k == 0 {
        (pack565(r, g, b) % 256) as u8
    } else {
        (pack565(r, g, b) / 256) as u8
    }
}

/// Encoding an image and decoding the result into an image with the same
/// layout (rows that do not overlap) gives at every byte of every pixel the
/// value the encoder aimed at for that pixel within its own 4x4 tile, stored
/// as RGB888 or packed as RGB565.
pub proof fn lemma_image_round_trip(
    out: Seq<u8>,
    enc: Seq<u8>,
    input: Seq<u8>,
    width: int,
    height: int,
    pixel_size: int,
    stride: int,
    x: int,
    y: int,
    k: int,
)
    requires
        rows_disjoint(out.len() as int, width, height, pixel_size, stride),
        pixel_size == 2 || pixel_size == 3,
        forall|n: int|
            0 <= n < blocks_across(width) * blocks_across(height) ==> #[trigger] encoded_block_ok(
                enc,
                input,
                width,
                height,
                pixel_size,
                stride,
                n,
            ),
        0 <= x < width,
        0 <= y < height,
        0 <= k < pixel_size,
    ensures
        ({
            let blk = image_block(input, width, height, pixel_size, stride, x / 4, y / 4);
            let m = image_block_mask(width, height, x / 4, y / 4);
            let p = x % 4 + 4 * (y % 4);
            decode_tiles(
                out,
                enc,
                width,
                height,
                pixel_size,
                stride,
                blocks_across(width) * blocks_across(height),
            )[pixel_size * x + stride * y + k] == stored_pixel_byte(
                encoder_pixel_value(blk, m, p, 0),
                encoder_pixel_value(blk, m, p, 1),
                encoder_pixel_value(blk, m, p, 2),
                pixel_size,
                k,
            )
        }),
{
    let (high, low) = tile_words(enc, tile_of(width, x, y));
    let p = x % 4 + 4 * (y % 4);
    lemma_decoded_image_pixel(out, enc, width, height, pixel_size, stride, x, y, k);
    lemma_encoded_image_decodes(enc, input, width, height, pixel_size, stride, x, y, 0);
    lemma_encoded_image_decodes(enc, input, width, height, pixel_size, stride, x, y, 1);
    lemma_encoded_image_decodes(enc, input, width, height, pixel_size, stride, x, y, 2);
    if pixel_size == 3 {
        assert(12 * (y % 4) + (3 * (x % 4) + k) == 3 * p + k);
    } else {
        assert((2 * (x % 4) + k) / 2 == x % 4 && (2 * (x % 4) + k) % 2 == k);
        assert(12 * (y % 4) + 3 * (x % 4) == 3 * p);
    }
}

// ── Laws: what an encoding depends on, and how the layouts relate ─────────────

/// Byte `k` of pixel (x, y) of an image with `pixel_size` bytes per pixel and
/// rows `stride` bytes apart.
pub open spec fn image_byte(input: Seq<u8>, pixel_size: int, stride: int, x: int, y: int, k: int) -> u8 {
    input[pixel_size * x + stride * y + k]
}

/// A big-endian word fixes its four bytes.
proof fn lemma_be_word_bytes(a0: u8, a1: u8, a2: u8, a3: u8, b0: u8, b1: u8, b2: u8, b3: u8)
    requires
        be_word(a0, a1, a2, a3) == be_word(b0, b1, b2, b3),
    ensures
        a0 == b0 && a1 == b1 && a2 == b2 && a3 == b3,
{
    let va = a0 as int * 0x1000000 + a1 as int * 0x10000 + a2 as int * 0x100 + a3 as int;
    let vb = b0 as int * 0x1000000 + b1 as int * 0x10000 + b2 as int * 0x100 + b3 as int;
    assert(va <= u32::MAX && vb <= u32::MAX);
    assert(va == vb);
}

/// The modifier indices of all sixteen pixels fix the low word.
proof fn lemma_low_determined(l1: u32, l2: u32)
    requires
        forall|p: int| 0 <= p < 16 ==> #[trigger] mod_index_at(l1, p) == mod_index_at(l2, p),
    ensures
        l1 == l2,
{
    assert(mod_index_at(l1, 0) == mod_index_at(l2, 0));
    assert(mod_index_at(l1, 4) == mod_index_at(l2, 4));
    assert(mod_index_at(l1, 8) == mod_index_at(l2, 8));
    assert(mod_index_at(l1, 12) == mod_index_at(l2, 12));
    assert(mod_index_at(l1, 1) == mod_index_at(l2, 1));
    assert(mod_index_at(l1, 5) == mod_index_at(l2, 5));
    assert(mod_index_at(l1, 9) == mod_index_at(l2, 9));
    assert(mod_index_at(l1, 13) == mod_index_at(l2, 13));
    assert(mod_index_at(l1, 2) == mod_index_at(l2, 2));
    assert(mod_index_at(l1, 6) == mod_index_at(l2, 6));
    assert(mod_index_at(l1, 10) == mod_index_at(l2, 10));
    assert(mod_index_at(l1, 14) == mod_index_at(l2, 14));
    assert(mod_index_at(l1, 3) == mod_index_at(l2, 3));
    assert(mod_index_at(l1, 7) == mod_index_at(l2, 7));
    assert(mod_index_at(l1, 11) == mod_index_at(l2, 11));
    assert(mod_index_at(l1, 15) == mod_index_at(l2, 15));
    assert(l1 == l2) by (bit_vector)
        requires
            ((l1 >> 0u32) & 1) + 2 * ((l1 >> 16u32) & 1) == ((l2 >> 0u32) & 1) + 2 * ((l2 >> 16u32) & 1),
            ((l1 >> 1u32) & 1) + 2 * ((l1 >> 17u32) & 1) == ((l2 >> 1u32) & 1) + 2 * ((l2 >> 17u32) & 1),
            ((l1 >> 2u32) & 1) + 2 * ((l1 >> 18u32) & 1) == ((l2 >> 2u32) & 1) + 2 * ((l2 >> 18u32) & 1),
            ((l1 >> 3u32) & 1) + 2 * ((l1 >> 19u32) & 1) == ((l2 >> 3u32) & 1) + 2 * ((l2 >> 19u32) & 1),
            ((l1 >> 4u32) & 1) + 2 * ((l1 >> 20u32) & 1) == ((l2 >> 4u32) & 1) + 2 * ((l2 >> 20u32) & 1),
            ((l1 >> 5u32) & 1) + 2 * ((l1 >> 21u32) & 1) == ((l2 >> 5u32) & 1) + 2 * ((l2 >> 21u32) & 1),
            ((l1 >> 6u32) & 1) + 2 * ((l1 >> 22u32) & 1) == ((l2 >> 6u32) & 1) + 2 * ((l2 >> 22u32) & 1),
            ((l1 >> 7u32) & 1) + 2 * ((l1 >> 23u32) & 1) == ((l2 >> 7u32) & 1) + 2 * ((l2 >> 23u32) & 1),
            ((l1 >> 8u32) & 1) + 2 * ((l1 >> 24u32) & 1) == ((l2 >> 8u32) & 1) + 2 * ((l2 >> 24u32) & 1),
            ((l1 >> 9u32) & 1) + 2 * ((l1 >> 25u32) & 1) == ((l2 >> 9u32) & 1) + 2 * ((l2 >> 25u32) & 1),
            ((l1 >> 10u32) & 1) + 2 * ((l1 >> 26u32) & 1) == ((l2 >> 10u32) & 1) + 2 * ((l2 >> 26u32) & 1),
            ((l1 >> 11u32) & 1) + 2 * ((l1 >> 27u32) & 1) == ((l2 >> 11u32) & 1) + 2 * ((l2 >> 27u32) & 1),
            ((l1 >> 12u32) & 1) + 2 * ((l1 >> 28u32) & 1) == ((l2 >> 12u32) & 1) + 2 * ((l2 >> 28u32) & 1),
            ((l1 >> 13u32) & 1) + 2 * ((l1 >> 29u32) & 1) == ((l2 >> 13u32) & 1) + 2 * ((l2 >> 29u32) & 1),
            ((l1 >> 14u32) & 1) + 2 * ((l1 >> 30u32) & 1) == ((l2 >> 14u32) & 1) + 2 * ((l2 >> 30u32) & 1),
            ((l1 >> 15u32) & 1) + 2 * ((l1 >> 31u32) & 1) == ((l2 >> 15u32) & 1) + 2 * ((l2 >> 31u32) & 1),
    ;
}

/// The words `encode_image` stored for tile `n` are the encoder's words for
/// that tile's block and mask.
proof fn lemma_tile_words_encoded(
    enc: Seq<u8>,
    input: Seq<u8>,
    width: int,
    height: int,
    pixel_size: int,
    stride: int,
    n: int,
)
    requires
        encoded_block_ok(enc, input, width, height, pixel_size, stride, n),
    ensures
        ({
            let bw = blocks_across(width);
            let blk = image_block(input, width, height, pixel_size, stride, n % bw, n / bw);
            let m = image_block_mask(width, height, n % bw, n / bw);
            &&& tile_words(enc, n).0 == encoded_high(blk, m)
            &&& forall|q: int|
                0 <= q < 16 ==> #[trigger] mod_index_at(tile_words(enc, n).1, q)
                    == encoded_mod_index(blk, m, q)
        }),
{
    reveal(encoded_block_ok);
}

/// Two encodings of images whose 4x4 tiles hold the same pixels and the
/// same validity are the same bytes: the encoder sees nothing else.
pub proof fn lemma_same_tiles_same_encoding(
    out1: Seq<u8>,
    input1: Seq<u8>,
    pixel_size1: int,
    stride1: int,
    out2: Seq<u8>,
    input2: Seq<u8>,
    pixel_size2: int,
    stride2: int,
    width: int,
    height: int,
)
    requires
        0 <= width,
        0 <= height,
        out1.len() >= spec_encoded_data_size(width, height),
        out2.len() >= spec_encoded_data_size(width, height),
        forall|n: int|
            0 <= n < blocks_across(width) * blocks_across(height) ==> #[trigger] encoded_block_ok(
                out1,
                input1,
                width,
                height,
                pixel_size1,
                stride1,
                n,
            ),
        forall|n: int|
            0 <= n < blocks_across(width) * blocks_across(height) ==> #[trigger] encoded_block_ok(
                out2,
                input2,
                width,
                height,
                pixel_size2,
                stride2,
                n,
            ),
        forall|bx: int, by: int|
            0 <= bx < blocks_across(width) && 0 <= by < blocks_across(height) ==> #[trigger] image_block(
                input1,
                width,
                height,
                pixel_size1,
                stride1,
                bx,
                by,
            ) == image_block(input2, width, height, pixel_size2, stride2, bx, by),
    ensures
        out1.subrange(0, spec_encoded_data_size(width, height)) == out2.subrange(
            0,
            spec_encoded_data_size(width, height),
        ),
{
    let bw = blocks_across(width);
    let bh = blocks_across(height);
    let size = spec_encoded_data_size(width, height);
    assert forall|j: int| 0 <= j < size implies out1[j] == out2[j] by {
        let n = j / 8;
        assert(0 <= n < bw * bh);
        assert(bw > 0) by (nonlinear_arith)
            requires
                bw >= 0,
                bh >= 0,
                0 <= n < bw * bh,
        ;
        assert(0 <= n % bw < bw && 0 <= n / bw < bh) by (nonlinear_arith)
            requires
                bw > 0,
                0 <= n < bw * bh,
        ;
        assert(encoded_block_ok(out1, input1, width, height, pixel_size1, stride1, n));
        assert(encoded_block_ok(out2, input2, width, height, pixel_size2, stride2, n));
        lemma_tile_words_encoded(out1, input1, width, height, pixel_size1, stride1, n);
        lemma_tile_words_encoded(out2, input2, width, height, pixel_size2, stride2, n);
        assert(image_block(input1, width, height, pixel_size1, stride1, n % bw, n / bw)
            == image_block(input2, width, height, pixel_size2, stride2, n % bw, n / bw));
        let o = 8 * n;
        lemma_be_word_bytes(out1[o], out1[o + 1], out1[o + 2], out1[o + 3], out2[o], out2[o + 1], out2[o + 2], out2[o + 3]);
        lemma_low_determined(tile_words(out1, n).1, tile_words(out2, n).1);
        lemma_be_word_bytes(out1[o + 4], out1[o + 5], out1[o + 6], out1[o + 7], out2[o + 4], out2[o + 5], out2[o + 6], out2[o + 7]);
        assert(o <= j < o + 8);
    }
    assert(out1.subrange(0, size) =~= out2.subrange(0, size));
}

/// Images whose pixels read the same channel values have the same tiles.
proof fn lemma_same_channels_same_tiles(
    input1: Seq<u8>,
    pixel_size1: int,
    stride1: int,
    input2: Seq<u8>,
    pixel_size2: int,
    stride2: int,
    width: int,
    height: int,
)
    requires
        forall|x: int, y: int, c: int|
            0 <= x < width && 0 <= y < height && 0 <= c < 3 ==> #[trigger] image_channel(
                input1,
                pixel_size1,
                stride1,
                x,
                y,
                c,
            ) == image_channel(input2, pixel_size2, stride2, x, y, c),
    ensures
        forall|bx: int, by: int|
            #![trigger image_block(input1, width, height, pixel_size1, stride1, bx, by)]
            0 <= bx && 0 <= by ==> image_block(input1, width, height, pixel_size1, stride1, bx, by)
                == image_block(input2, width, height, pixel_size2, stride2, bx, by),
{
    assert forall|bx: int, by: int| 0 <= bx && 0 <= by implies image_block(
        input1,
        width,
        height,
        pixel_size1,
        stride1,
        bx,
        by,
    ) == image_block(input2, width, height, pixel_size2, stride2, bx, by) by {
        let b1 = image_block(input1, width, height, pixel_size1, stride1, bx, by);
        let b2 = image_block(input2, width, height, pixel_size2, stride2, bx, by);
        assert forall|q: int| 0 <= q < 48 implies b1[q] == b2[q] by {
            let x = 4 * bx + (q / 3) % 4;
            let y = 4 * by + (q / 3) / 4;
            if x < width && y < height {
                assert(image_channel(input1, pixel_size1, stride1, x, y, q % 3) == image_channel(
                    input2,
                    pixel_size2,
                    stride2,
                    x,
                    y,
                    q % 3,
                ));
            }
        }
        assert(b1 =~= b2);
    }
}

/// Encoding ignores the bytes outside the image (row padding beyond each
/// row's pixels, and whatever lies past the last row): two images that agree
/// on every byte of every pixel encode to the same bytes.
pub proof fn lemma_encoding_ignores_bytes_outside_image(
    out1: Seq<u8>,
    input1: Seq<u8>,
    out2: Seq<u8>,
    input2: Seq<u8>,
    width: int,
    height: int,
    pixel_size: int,
    stride: int,
)
    requires
        0 <= width,
        0 <= height,
        pixel_size == 2 || pixel_size == 3,
        out1.len() >= spec_encoded_data_size(width, height),
        out2.len() >= spec_encoded_data_size(width, height),
        forall|n: int|
            0 <= n < blocks_across(width) * blocks_across(height) ==> #[trigger] encoded_block_ok(
                out1,
                input1,
                width,
                height,
                pixel_size,
                stride,
                n,
            ),
        forall|n: int|
            0 <= n < blocks_across(width) * blocks_across(height) ==> #[trigger] encoded_block_ok(
                out2,
                input2,
                width,
                height,
                pixel_size,
                stride,
                n,
            ),
        forall|x: int, y: int, k: int|
            0 <= x < width && 0 <= y < height && 0 <= k < pixel_size ==> #[trigger] image_byte(
                input1,
                pixel_size,
                stride,
                x,
                y,
                k,
            ) == image_byte(input2, pixel_size, stride, x, y, k),
    ensures
        out1.subrange(0, spec_encoded_data_size(width, height)) == out2.subrange(
            0,
            spec_encoded_data_size(width, height),
        ),
{
    assert forall|x: int, y: int, c: int|
        0 <= x < width && 0 <= y < height && 0 <= c < 3 implies #[trigger] image_channel(
        input1,
        pixel_size,
        stride,
        x,
        y,
        c,
    ) == image_channel(input2, pixel_size, stride, x, y, c) by {
        assert(image_byte(input1, pixel_size, stride, x, y, 0) == image_byte(input2, pixel_size, stride, x, y, 0));
        assert(image_byte(input1, pixel_size, stride, x, y, 1) == image_byte(input2, pixel_size, stride, x, y, 1));
        if pixel_size == 3 {
            assert(image_byte(input1, pixel_size, stride, x, y, c) == image_byte(input2, pixel_size, stride, x, y, c));
        }
    }
    lemma_same_channels_same_tiles(input1, pixel_size, stride, input2, pixel_size, stride, width, height);
    lemma_same_tiles_same_encoding(out1, input1, pixel_size, stride, out2, input2, pixel_size, stride, width, height);
}

/// An RGB565 image encodes to the same bytes as its RGB888 expansion (each
/// 5- or 6-bit field widened to 8 bits, rows packed `3 * width` bytes apart).
pub proof fn lemma_rgb565_encodes_as_its_expansion(
    out565: Seq<u8>,
    input565: Seq<u8>,
    stride: int,
    out888: Seq<u8>,
    input888: Seq<u8>,
    width: int,
    height: int,
)
    requires
        0 <= width,
        0 <= height,
        out565.len() >= spec_encoded_data_size(width, height),
        out888.len() >= spec_encoded_data_size(width, height),
        forall|n: int|
            0 <= n < blocks_across(width) * blocks_across(height) ==> #[trigger] encoded_block_ok(
                out565,
                input565,
                width,
                height,
                2,
                stride,
                n,
            ),
        forall|n: int|
            0 <= n < blocks_across(width) * blocks_across(height) ==> #[trigger] encoded_block_ok(
                out888,
                input888,
                width,
                height,
                3,
                3 * width,
                n,
            ),
        forall|x: int, y: int, c: int|
            0 <= x < width && 0 <= y < height && 0 <= c < 3 ==> #[trigger] image_byte(
                input888,
                3,
                3 * width,
                x,
                y,
                c,
            ) == image_channel(input565, 2, stride, x, y, c),
    ensures
        out565.subrange(0, spec_encoded_data_size(width, height)) == out888.subrange(
            0,
            spec_encoded_data_size(width, height),
        ),
{
    assert forall|x: int, y: int, c: int|
        0 <= x < width && 0 <= y < height && 0 <= c < 3 implies #[trigger] image_channel(
        input565,
        2,
        stride,
        x,
        y,
        c,
    ) == image_channel(input888, 3, 3 * width, x, y, c) by {
        assert(image_byte(input888, 3, 3 * width, x, y, c) == image_channel(input565, 2, stride, x, y, c));
    }
    lemma_same_channels_same_tiles(input565, 2, stride, input888, 3, 3 * width, width, height);
    lemma_same_tiles_same_encoding(out565, input565, 2, stride, out888, input888, 3, 3 * width, width, height);
}

/// Decoding into an RGB565 image gives, at every pixel, the little-endian
/// RGB565 packing of what decoding the same data into an RGB888 image gives
/// there (rows not overlapping in either).
pub proof fn lemma_rgb565_decoding_packs_rgb888(
    enc: Seq<u8>,
    out565: Seq<u8>,
    stride: int,
    out888: Seq<u8>,
    stride888: int,
    width: int,
    height: int,
    x: int,
    y: int,
)
    requires
        rows_disjoint(out565.len() as int, width, height, 2, stride),
        rows_disjoint(out888.len() as int, width, height, 3, stride888),
        0 <= x < width,
        0 <= y < height,
    ensures
        ({
            let count = blocks_across(width) * blocks_across(height);
            let d565 = decode_tiles(out565, enc, width, height, 2, stride, count);
            let d888 = decode_tiles(out888, enc, width, height, 3, stride888, count);
            let pix = pack565(
                image_byte(d888, 3, stride888, x, y, 0) as int,
                image_byte(d888, 3, stride888, x, y, 1) as int,
                image_byte(d888, 3, stride888, x, y, 2) as int,
            );
            &&& image_byte(d565, 2, stride, x, y, 0) == (pix % 256) as u8
            &&& image_byte(d565, 2, stride, x, y, 1) == (pix / 256) as u8
        }),
{
    lemma_decoded_image_pixel(out565, enc, width, height, 2, stride, x, y, 0);
    lemma_decoded_image_pixel(out565, enc, width, height, 2, stride, x, y, 1);
    lemma_decoded_image_pixel(out888, enc, width, height, 3, stride888, x, y, 0);
    lemma_decoded_image_pixel(out888, enc, width, height, 3, stride888, x, y, 1);
    lemma_decoded_image_pixel(out888, enc, width, height, 3, stride888, x, y, 2);
    assert((2 * (x % 4)) / 2 == x % 4 && (2 * (x % 4) + 1) / 2 == x % 4);
    assert((2 * (x % 4)) % 2 == 0 && (2 * (x % 4) + 1) % 2 == 1);
}

// ── Laws: the ETC1 intensity modifiers ────────────────────────────────────────

/// The ETC1 intensity modifier tables, as the format defines them: row `t`
/// holds, for pixel index 0 to 3, +a, +b, -a, -b.
#[verifier::opaque]
pub open spec fn etc1_intensity_table() -> Seq<Seq<int>> {
    seq![
        seq![2int, 8, -2, -8],
        seq![5int, 17, -5, -17],
        seq![9int, 29, -9, -29],
        seq![13int, 42, -13, -42],
        seq![18int, 60, -18, -60],
        seq![24int, 80, -24, -80],
        seq![33int, 106, -33, -106],
        seq![47int, 183, -47, -183],
    ]
}

/// Every byte of a decoded block is the base colour of its pixel's sub-block
/// plus the entry of the ETC1 intensity table the pixel selects, clamped to
/// a byte. The pixel (x, y) selects its entry by its two bits in the low
/// word: bit `y + 4x` is the index's low bit, the bit sixteen above its high
/// bit; the sub-block's table number stands in the high word.
pub proof fn lemma_decode_uses_etc1_table(high: u32, low: u32, x: int, y: int, c: int)
    requires
        0 <= x < 4,
        0 <= y < 4,
        0 <= c < 3,
    ensures
        ({
            let s = in_second(high & 1 != 0, x, y);
            let k = (y + 4 * x) as u32;
            let idx = ((low >> k) & 1) as int + 2 * ((low >> ((k + 16) as u32)) & 1) as int;
            &&& 0 <= table_of(high, s) < 8
            &&& 0 <= idx < 4
            &&& decoded_byte(high, low, 3 * (x + 4 * y) + c) == spec_clamp(
                base_color(high, s, c) + etc1_intensity_table()[table_of(high, s)][idx],
            )
        }),
{
    let s = in_second(high & 1 != 0, x, y);
    lemma_base_fields_fix_decoding(high, high);
    lemma_mod_index_range(low, x + 4 * y);
    lemma_pixel_of_byte(x, y, c);
    let t = table_of(high, s);
    let k = (y + 4 * x) as u32;
    let idx = ((low >> k) & 1) as int + 2 * ((low >> ((k + 16) as u32)) & 1) as int;
    assert(idx == pixel_mod_index(low, x, y));
    reveal(etc1_intensity_table);
    assert(modifier_value(t, idx) == etc1_intensity_table()[t][idx]);
}

} // verus!
