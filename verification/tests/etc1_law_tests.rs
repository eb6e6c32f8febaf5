use sge_native_ops::etc1::{
    convert5_to8, convert6_to8, divide_by_255, decode_block, decode_image, encode_block, encode_image, get_encoded_data_size,
    ETC1_DECODED_BLOCK_SIZE, ETC1_ENCODED_BLOCK_SIZE,
};

/// Weighted squared error (red 3, green 6, blue 1) over the pixels the mask marks valid.
fn weighted_error(input: &[u8], decoded: &[u8], mask: u32) -> i64 {
    let mut total = 0i64;
    for p in 0..16 {
        if mask & (1 << p) != 0 {
            let d = |c: usize| decoded[3 * p + c] as i64 - input[3 * p + c] as i64;
            total += 3 * d(0) * d(0) + 6 * d(1) * d(1) + d(2) * d(2);
        }
    }
    total
}

fn sample_block() -> [u8; ETC1_DECODED_BLOCK_SIZE] {
    let mut input = [0u8; ETC1_DECODED_BLOCK_SIZE];
    for i in 0..16 {
        input[i * 3] = (i * 13 + 20) as u8;
        input[i * 3 + 1] = (200 - i * 9) as u8;
        input[i * 3 + 2] = ((i * 37) % 256) as u8;
    }
    input
}

#[test]
fn other_modifiers_with_the_same_base_colours_do_no_better() {
    let input = sample_block();
    let mask = 0xFFFF;
    let mut encoded = [0u8; ETC1_ENCODED_BLOCK_SIZE];
    encode_block(&input, mask, &mut encoded);
    let mut decoded = [0u8; ETC1_DECODED_BLOCK_SIZE];
    decode_block(&encoded, &mut decoded);
    let best = weighted_error(&input, &decoded, mask);

    // Any low word, and any pair of tables (bits 2..7 of the high word),
    // with the encoder's orientation and base colours.
    for &low in &[0u32, 0xFFFF_FFFF, 0x1234_5678, 0x0F0F_F0F0] {
        for tables in 0..64u8 {
            let mut other = encoded;
            other[3] = (encoded[3] & 0x03) | (tables << 2);
            other[4..8].copy_from_slice(&low.to_be_bytes());
            let mut out = [0u8; ETC1_DECODED_BLOCK_SIZE];
            decode_block(&other, &mut out);
            assert!(weighted_error(&input, &out, mask) >= best);
        }
    }
}

#[test]
fn encoder_ignores_pixels_outside_the_mask() {
    let a = sample_block();
    let mut b = a;
    // Mask keeps pixels 0..8; scribble over pixels 8..16.
    let mask = 0x00FF;
    for q in 24..48 {
        b[q] = b[q].wrapping_mul(7).wrapping_add(91);
    }
    let mut ea = [0u8; ETC1_ENCODED_BLOCK_SIZE];
    let mut eb = [0u8; ETC1_ENCODED_BLOCK_SIZE];
    encode_block(&a, mask, &mut ea);
    encode_block(&b, mask, &mut eb);
    assert_eq!(ea, eb);
}

#[test]
fn encode_block_leaves_bytes_after_the_block() {
    let input = sample_block();
    let mut out = [0xAAu8; 12];
    encode_block(&input, 0xFFFF, &mut out);
    assert_eq!(&out[8..], &[0xAA; 4]);
}

#[test]
fn decode_block_leaves_bytes_after_the_block() {
    let encoded = [0x12u8, 0x34, 0x56, 0x78, 0x9A, 0xBC, 0xDE, 0xF0];
    let mut out = [0x55u8; 50];
    decode_block(&encoded, &mut out);
    assert_eq!(&out[48..], &[0x55, 0x55]);
}

#[test]
fn decode_block_of_known_words() {
    // Individual mode, not flipped: first sub-block base 0x11 per channel
    // (4-bit 1), second 0x22; tables 0 and 0; all modifier indices 0 (+2).
    let encoded = [0x12u8, 0x12, 0x12, 0x00, 0, 0, 0, 0];
    let mut out = [0u8; ETC1_DECODED_BLOCK_SIZE];
    decode_block(&encoded, &mut out);
    for y in 0..4 {
        for x in 0..4 {
            let expected = if x < 2 { 0x11 + 2 } else { 0x22 + 2 };
            for c in 0..3 {
                assert_eq!(out[3 * (x + 4 * y) + c], expected);
            }
        }
    }
}

#[test]
fn encode_image_stores_each_tile_as_encode_block_does() {
    let (width, height, pixel_size) = (8u32, 4u32, 3u32);
    let stride = width * pixel_size;
    let mut input = vec![0u8; (stride * height) as usize];
    for (i, b) in input.iter_mut().enumerate() {
        *b = ((i * 29) % 251) as u8;
    }
    let mut encoded = vec![0u8; get_encoded_data_size(width, height) as usize];
    assert_eq!(encode_image(&input, width, height, pixel_size, stride, &mut encoded), 0);
    for bx in 0..2usize {
        let mut tile = [0u8; ETC1_DECODED_BLOCK_SIZE];
        for y in 0..4usize {
            for x in 0..4usize {
                for c in 0..3usize {
                    tile[3 * (x + 4 * y) + c] = input[y * stride as usize + (bx * 4 + x) * 3 + c];
                }
            }
        }
        let mut block = [0u8; ETC1_ENCODED_BLOCK_SIZE];
        encode_block(&tile, 0xFFFF, &mut block);
        assert_eq!(&encoded[bx * 8..bx * 8 + 8], &block);
    }
}

#[test]
fn decode_image_writes_only_inside_the_image() {
    // 2x2 image in rows of 10 bytes: bytes past each row's 6 pixel bytes stay.
    let (width, height, pixel_size, stride) = (2u32, 2u32, 3u32, 10u32);
    let encoded = [0x12u8, 0x12, 0x12, 0x00, 0, 0, 0, 0];
    let mut out = vec![0xEEu8; 20];
    assert_eq!(decode_image(&encoded, &mut out, width, height, pixel_size, stride), 0);
    for row in 0..2 {
        assert_eq!(&out[row * 10..row * 10 + 6], &[0x13; 6]);
        assert_eq!(&out[row * 10 + 6..row * 10 + 10], &[0xEE; 4]);
    }
}

#[test]
fn decode_image_rgb565_packs_little_endian() {
    let encoded = [0x12u8, 0x12, 0x12, 0x00, 0, 0, 0, 0];
    let mut out = vec![0u8; 2 * 4 * 4];
    assert_eq!(decode_image(&encoded, &mut out, 4, 4, 2, 8), 0);
    // Left half decodes to 0x13 per channel: r5 = 2, g6 = 4, b5 = 2.
    let p = ((0x13u16 >> 3) << 11) | ((0x13u16 >> 2) << 5) | (0x13u16 >> 3);
    assert_eq!(out[0], p as u8);
    assert_eq!(out[1], (p >> 8) as u8);
}

#[test]
fn decoded_image_pixels_come_from_their_own_tile() {
    // 6x5 image with padded rows: every pixel decodes as its tile's block does.
    let (width, height, pixel_size, stride) = (6u32, 5u32, 3u32, 20u32);
    let mut input = vec![0u8; (stride * height) as usize];
    for (i, b) in input.iter_mut().enumerate() {
        *b = ((i * 53 + 7) % 256) as u8;
    }
    let mut encoded = vec![0u8; get_encoded_data_size(width, height) as usize];
    assert_eq!(encode_image(&input, width, height, pixel_size, stride, &mut encoded), 0);
    let mut decoded = vec![0u8; (stride * height) as usize];
    assert_eq!(decode_image(&encoded, &mut decoded, width, height, pixel_size, stride), 0);
    let bw = ((width + 3) / 4) as usize;
    for y in 0..height as usize {
        for x in 0..width as usize {
            let n = (y / 4) * bw + x / 4;
            let mut block = [0u8; ETC1_DECODED_BLOCK_SIZE];
            decode_block(&encoded[8 * n..8 * n + 8], &mut block);
            for c in 0..3 {
                let q = 3 * (x % 4 + 4 * (y % 4)) + c;
                assert_eq!(decoded[3 * x + stride as usize * y + c], block[q]);
            }
        }
    }
}

#[test]
fn divide_by_255_rounds_to_nearest() {
    for d in 0..=33022i32 {
        assert_eq!(divide_by_255(d), (2 * d + 255) / 510, "d = {}", d);
    }
    // Beyond that the shift form drifts from exact rounding.
    assert_ne!(divide_by_255(33023), (2 * 33023 + 255) / 510);
}

#[test]
fn encoding_ignores_row_padding() {
    let (width, height, pixel_size, stride) = (5u32, 6u32, 3u32, 20u32);
    let mut a = vec![0u8; (stride * height) as usize];
    for (i, b) in a.iter_mut().enumerate() {
        *b = ((i * 31 + 3) % 256) as u8;
    }
    let mut b = a.clone();
    for y in 0..height as usize {
        for pad in 15..20 {
            b[y * stride as usize + pad] ^= 0x5A;
        }
    }
    let n = get_encoded_data_size(width, height) as usize;
    let mut ea = vec![0u8; n];
    let mut eb = vec![0u8; n];
    assert_eq!(encode_image(&a, width, height, pixel_size, stride, &mut ea), 0);
    assert_eq!(encode_image(&b, width, height, pixel_size, stride, &mut eb), 0);
    assert_eq!(ea, eb);
}

#[test]
fn rgb565_encodes_as_its_rgb888_expansion() {
    let (width, height, stride) = (6u32, 5u32, 14u32);
    let mut input = vec![0u8; (stride * height) as usize];
    for (i, b) in input.iter_mut().enumerate() {
        *b = ((i * 89 + 17) % 256) as u8;
    }
    let mut rgb = vec![0u8; (3 * width * height) as usize];
    for y in 0..height as usize {
        for x in 0..width as usize {
            let o = 2 * x + stride as usize * y;
            let p = input[o] as i32 | (input[o + 1] as i32) << 8;
            let q = 3 * (x + width as usize * y);
            rgb[q] = convert5_to8(p >> 11) as u8;
            rgb[q + 1] = convert6_to8(p >> 5) as u8;
            rgb[q + 2] = convert5_to8(p) as u8;
        }
    }
    let n = get_encoded_data_size(width, height) as usize;
    let mut e565 = vec![0u8; n];
    let mut e888 = vec![0u8; n];
    assert_eq!(encode_image(&input, width, height, 2, stride, &mut e565), 0);
    assert_eq!(encode_image(&rgb, width, height, 3, 3 * width, &mut e888), 0);
    assert_eq!(e565, e888);
}

#[test]
fn rgb565_decoding_packs_the_rgb888_decoding() {
    let (width, height) = (7u32, 5u32);
    let n = get_encoded_data_size(width, height) as usize;
    let encoded: Vec<u8> = (0..n).map(|i| ((i * 151 + 29) % 256) as u8).collect();
    let stride = 2 * width + 3;
    let mut out565 = vec![0u8; (stride * height) as usize];
    let mut out888 = vec![0u8; (3 * width * height) as usize];
    assert_eq!(decode_image(&encoded, &mut out565, width, height, 2, stride), 0);
    assert_eq!(decode_image(&encoded, &mut out888, width, height, 3, 3 * width), 0);
    for y in 0..height as usize {
        for x in 0..width as usize {
            let q = 3 * (x + width as usize * y);
            let (r, g, b) = (out888[q] as u32, out888[q + 1] as u32, out888[q + 2] as u32);
            let p = ((r >> 3) << 11) | ((g >> 2) << 5) | (b >> 3);
            let o = 2 * x + stride as usize * y;
            assert_eq!(out565[o], p as u8);
            assert_eq!(out565[o + 1], (p >> 8) as u8);
        }
    }
}
