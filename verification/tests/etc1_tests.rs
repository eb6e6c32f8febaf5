use sge_native_ops::etc1::{
    clamp, convert4_to8, convert5_to8, convert6_to8, convert8_to4, convert8_to5, decode_block,
    decode_image, divide_by_255, encode_block, encode_image, get_encoded_data_size,
    in_range_4bit_signed, pkm_format_header, pkm_get_height, pkm_get_width, pkm_is_valid,
    read_be_uint16, write_be_uint16, write_big_endian, ETC1_DECODED_BLOCK_SIZE,
    ETC1_ENCODED_BLOCK_SIZE, ETC1_PKM_ENCODED_HEIGHT_OFFSET, ETC1_PKM_ENCODED_WIDTH_OFFSET,
    ETC_PKM_HEADER_SIZE,
};

#[test]
fn test_clamp() {
    assert_eq!(clamp(-10), 0);
    assert_eq!(clamp(0), 0);
    assert_eq!(clamp(128), 128);
    assert_eq!(clamp(254), 254);
    assert_eq!(clamp(255), 255);
    assert_eq!(clamp(300), 255);
}

#[test]
fn test_convert4_to8() {
    assert_eq!(convert4_to8(0), 0);
    assert_eq!(convert4_to8(0xf), 0xff);
    assert_eq!(convert4_to8(0x8), 0x88);
    assert_eq!(convert4_to8(0x5), 0x55);
}

#[test]
fn test_convert5_to8() {
    assert_eq!(convert5_to8(0), 0);
    assert_eq!(convert5_to8(0x1f), 0xff);
    assert_eq!(convert5_to8(0x10), 0x84);
}

#[test]
fn test_convert6_to8() {
    assert_eq!(convert6_to8(0), 0);
    assert_eq!(convert6_to8(0x3f), 0xff);
}

#[test]
fn test_convert8_to4() {
    // Round-trip: 4-bit -> 8-bit -> 4-bit should be identity
    for v in 0..16 {
        let expanded = convert4_to8(v);
        let compressed = convert8_to4(expanded);
        assert_eq!(compressed, v, "convert8_to4(convert4_to8({})) != {}", v, v);
    }
}

#[test]
fn test_convert8_to5() {
    // Round-trip: 5-bit -> 8-bit -> 5-bit should be identity
    for v in 0..32 {
        let expanded = convert5_to8(v);
        let compressed = convert8_to5(expanded);
        assert_eq!(compressed, v, "convert8_to5(convert5_to8({})) != {}", v, v);
    }
}

#[test]
fn test_get_encoded_data_size() {
    // 4x4 -> one block = 8 bytes
    assert_eq!(get_encoded_data_size(4, 4), 8);
    // 8x8 -> four blocks = 32 bytes
    assert_eq!(get_encoded_data_size(8, 8), 32);
    // 1x1 -> rounds up to 4x4 -> one block = 8 bytes
    assert_eq!(get_encoded_data_size(1, 1), 8);
    // 5x5 -> rounds up to 8x8 -> 32 bytes
    assert_eq!(get_encoded_data_size(5, 5), 32);
    // 16x16 -> 16 blocks = 128 bytes
    assert_eq!(get_encoded_data_size(16, 16), 128);
    // 3x3 -> rounds up to 4x4 -> 8 bytes
    assert_eq!(get_encoded_data_size(3, 3), 8);
    // 256x256 -> 4096 blocks = 32768 bytes
    assert_eq!(get_encoded_data_size(256, 256), 32768);
    // Non-square: 8x4 -> 2 blocks wide, 1 block tall = 2 blocks = 16 bytes
    assert_eq!(get_encoded_data_size(8, 4), 16);
}

#[test]
fn test_encode_decode_block_roundtrip() {
    // Create a 4x4 block with a simple gradient pattern
    let mut input = [0u8; ETC1_DECODED_BLOCK_SIZE];
    for y in 0..4 {
        for x in 0..4 {
            let idx = 3 * (x + 4 * y);
            let v = ((x + y * 4) * 16) as u8;
            input[idx] = v; // R
            input[idx + 1] = v / 2; // G
            input[idx + 2] = v / 3; // B
        }
    }

    // Encode
    let mut encoded = [0u8; ETC1_ENCODED_BLOCK_SIZE];
    encode_block(&input, 0xFFFF, &mut encoded);

    // Decode
    let mut decoded = [0u8; ETC1_DECODED_BLOCK_SIZE];
    decode_block(&encoded, &mut decoded);

    // Check that decoded is reasonably close to input (ETC1 is lossy)
    // Typical ETC1 error is within ~10 per channel for smooth gradients
    for i in 0..ETC1_DECODED_BLOCK_SIZE {
        let diff = (input[i] as i32 - decoded[i] as i32).unsigned_abs();
        assert!(
            diff <= 40,
            "pixel byte {} differs by {} (input={}, decoded={})",
            i,
            diff,
            input[i],
            decoded[i]
        );
    }
}

#[test]
fn test_encode_decode_block_solid_color() {
    // Solid red block should compress well
    let mut input = [0u8; ETC1_DECODED_BLOCK_SIZE];
    for i in 0..16 {
        input[i * 3] = 200; // R
        input[i * 3 + 1] = 50; // G
        input[i * 3 + 2] = 100; // B
    }

    let mut encoded = [0u8; ETC1_ENCODED_BLOCK_SIZE];
    encode_block(&input, 0xFFFF, &mut encoded);

    let mut decoded = [0u8; ETC1_DECODED_BLOCK_SIZE];
    decode_block(&encoded, &mut decoded);

    // Solid color should decode with very small error
    for i in 0..16 {
        let dr = (input[i * 3] as i32 - decoded[i * 3] as i32).unsigned_abs();
        let dg = (input[i * 3 + 1] as i32 - decoded[i * 3 + 1] as i32).unsigned_abs();
        let db = (input[i * 3 + 2] as i32 - decoded[i * 3 + 2] as i32).unsigned_abs();
        assert!(
            dr <= 16 && dg <= 16 && db <= 16,
            "pixel {} differs too much: dr={} dg={} db={}",
            i,
            dr,
            dg,
            db
        );
    }
}

#[test]
fn test_encode_decode_image_roundtrip_rgb() {
    // 8x8 image, pixel_size=3
    let width: u32 = 8;
    let height: u32 = 8;
    let pixel_size: u32 = 3;
    let stride = width * pixel_size;
    let img_size = (stride * height) as usize;
    let encoded_size = get_encoded_data_size(width, height) as usize;

    // Create a simple test image
    let mut input = vec![0u8; img_size];
    for y in 0..height {
        for x in 0..width {
            let idx = (pixel_size * x + stride * y) as usize;
            input[idx] = (x * 32) as u8; // R
            input[idx + 1] = (y * 32) as u8; // G
            input[idx + 2] = ((x + y) * 16) as u8; // B
        }
    }

    // Encode
    let mut encoded = vec![0u8; encoded_size];
    let result = encode_image(&input, width, height, pixel_size, stride, &mut encoded);
    assert_eq!(result, 0);

    // Decode
    let mut decoded = vec![0u8; img_size];
    let result = decode_image(&encoded, &mut decoded, width, height, pixel_size, stride);
    assert_eq!(result, 0);

    // ETC1 is lossy — check that results are reasonably close
    for y in 0..height {
        for x in 0..width {
            let idx = (pixel_size * x + stride * y) as usize;
            for c in 0..3 {
                let diff = (input[idx + c] as i32 - decoded[idx + c] as i32).unsigned_abs();
                assert!(
                    diff <= 80,
                    "pixel ({},{}) channel {} differs by {} (input={}, decoded={})",
                    x,
                    y,
                    c,
                    diff,
                    input[idx + c],
                    decoded[idx + c]
                );
            }
        }
    }
}

#[test]
fn test_encode_decode_image_roundtrip_rgb565() {
    // 4x4 image, pixel_size=2 (RGB565)
    let width: u32 = 4;
    let height: u32 = 4;
    let pixel_size: u32 = 2;
    let stride = width * pixel_size;
    let img_size = (stride * height) as usize;
    let encoded_size = get_encoded_data_size(width, height) as usize;

    // Create a test image in RGB565 format (little-endian)
    let mut input = vec![0u8; img_size];
    for y in 0..height {
        for x in 0..width {
            let idx = (pixel_size * x + stride * y) as usize;
            // Pack a simple color: R=16, G=32, B=8 in RGB565
            let r5: u32 = 16;
            let g6: u32 = 32;
            let b5: u32 = 8;
            let pixel: u32 = (r5 << 11) | (g6 << 5) | b5;
            input[idx] = pixel as u8;
            input[idx + 1] = (pixel >> 8) as u8;
        }
    }

    let mut encoded = vec![0u8; encoded_size];
    let result = encode_image(&input, width, height, pixel_size, stride, &mut encoded);
    assert_eq!(result, 0);

    let mut decoded = vec![0u8; img_size];
    let result = decode_image(&encoded, &mut decoded, width, height, pixel_size, stride);
    assert_eq!(result, 0);

    // For a solid color image in RGB565, decoded should be close
    // (two levels of quantization: RGB565 -> RGB888 -> ETC1 -> RGB888 -> RGB565)
    for i in (0..img_size).step_by(2) {
        let orig_pixel = (input[i] as u16) | ((input[i + 1] as u16) << 8);
        let dec_pixel = (decoded[i] as u16) | ((decoded[i + 1] as u16) << 8);
        let or = (orig_pixel >> 11) & 0x1f;
        let og = (orig_pixel >> 5) & 0x3f;
        let ob = orig_pixel & 0x1f;
        let dr = (dec_pixel >> 11) & 0x1f;
        let dg = (dec_pixel >> 5) & 0x3f;
        let db = dec_pixel & 0x1f;
        let diff_r = (or as i32 - dr as i32).unsigned_abs();
        let diff_g = (og as i32 - dg as i32).unsigned_abs();
        let diff_b = (ob as i32 - db as i32).unsigned_abs();
        assert!(
            diff_r <= 4 && diff_g <= 8 && diff_b <= 4,
            "pixel at byte {} differs too much in RGB565: dr={} dg={} db={}",
            i,
            diff_r,
            diff_g,
            diff_b
        );
    }
}

#[test]
fn test_encode_image_invalid_pixel_size() {
    let input = [0u8; 48];
    let mut output = [0u8; 8];
    assert_eq!(encode_image(&input, 4, 4, 1, 4, &mut output), -1);
    assert_eq!(encode_image(&input, 4, 4, 4, 16, &mut output), -1);
}

#[test]
fn test_decode_image_invalid_pixel_size() {
    let input = [0u8; 8];
    let mut output = [0u8; 48];
    assert_eq!(decode_image(&input, &mut output, 4, 4, 1, 4), -1);
    assert_eq!(decode_image(&input, &mut output, 4, 4, 4, 16), -1);
}

#[test]
fn test_pkm_header_roundtrip() {
    let mut header = [0u8; ETC_PKM_HEADER_SIZE];
    let width: u32 = 256;
    let height: u32 = 128;

    pkm_format_header(&mut header, width, height);
    assert!(pkm_is_valid(&header));
    assert_eq!(pkm_get_width(&header), width);
    assert_eq!(pkm_get_height(&header), height);
}

#[test]
fn test_pkm_header_small_sizes() {
    for &(w, h) in &[(1u32, 1u32), (2, 3), (3, 1), (4, 4), (5, 7), (100, 100)] {
        let mut header = [0u8; ETC_PKM_HEADER_SIZE];
        pkm_format_header(&mut header, w, h);
        assert!(
            pkm_is_valid(&header),
            "header should be valid for {}x{}",
            w,
            h
        );
        assert_eq!(pkm_get_width(&header), w);
        assert_eq!(pkm_get_height(&header), h);
    }
}

#[test]
fn test_pkm_header_magic() {
    let mut header = [0u8; ETC_PKM_HEADER_SIZE];
    pkm_format_header(&mut header, 64, 64);

    // Check magic bytes
    assert_eq!(&header[..6], b"PKM 10");

    // Corrupt magic and verify it fails validation
    header[0] = b'X';
    assert!(!pkm_is_valid(&header));
}

#[test]
fn test_pkm_header_encoded_dimensions() {
    let mut header = [0u8; ETC_PKM_HEADER_SIZE];
    // 5x5 should encode as 8x8
    pkm_format_header(&mut header, 5, 5);
    let enc_w = read_be_uint16(&header[ETC1_PKM_ENCODED_WIDTH_OFFSET..]);
    let enc_h = read_be_uint16(&header[ETC1_PKM_ENCODED_HEIGHT_OFFSET..]);
    assert_eq!(enc_w, 8);
    assert_eq!(enc_h, 8);

    // 4x4 should encode as 4x4
    pkm_format_header(&mut header, 4, 4);
    let enc_w = read_be_uint16(&header[ETC1_PKM_ENCODED_WIDTH_OFFSET..]);
    let enc_h = read_be_uint16(&header[ETC1_PKM_ENCODED_HEIGHT_OFFSET..]);
    assert_eq!(enc_w, 4);
    assert_eq!(enc_h, 4);
}

#[test]
fn test_pkm_invalid_header_too_short() {
    let header = [0u8; 8]; // Too short
    assert!(!pkm_is_valid(&header));
}

#[test]
fn test_encode_decode_non_multiple_of_4() {
    // 5x5 image — tests padding behavior
    let width: u32 = 5;
    let height: u32 = 5;
    let pixel_size: u32 = 3;
    let stride = width * pixel_size;
    let img_size = (stride * height) as usize;
    let encoded_size = get_encoded_data_size(width, height) as usize;

    let mut input = vec![128u8; img_size];
    // Set some variation
    for y in 0..height {
        for x in 0..width {
            let idx = (pixel_size * x + stride * y) as usize;
            input[idx] = ((x * 50) % 256) as u8;
            input[idx + 1] = ((y * 50) % 256) as u8;
            input[idx + 2] = (((x + y) * 30) % 256) as u8;
        }
    }

    let mut encoded = vec![0u8; encoded_size];
    let result = encode_image(&input, width, height, pixel_size, stride, &mut encoded);
    assert_eq!(result, 0);

    let mut decoded = vec![0u8; img_size];
    let result = decode_image(&encoded, &mut decoded, width, height, pixel_size, stride);
    assert_eq!(result, 0);

    // ETC1 is lossy with high error on non-aligned dimensions; just verify
    // that the decoded output is not all zeros (sanity check).
    assert!(
        decoded.iter().any(|&b| b != 0),
        "decoded data should not be all zeros"
    );
}

#[test]
fn test_in_range_4bit_signed() {
    assert!(in_range_4bit_signed(-4));
    assert!(in_range_4bit_signed(-1));
    assert!(in_range_4bit_signed(0));
    assert!(in_range_4bit_signed(3));
    assert!(!in_range_4bit_signed(-5));
    assert!(!in_range_4bit_signed(4));
}

#[test]
fn test_divide_by_255() {
    // divide_by_255 is an approximation of x/255 for non-negative values
    assert_eq!(divide_by_255(0), 0);
    assert_eq!(divide_by_255(255), 1);
    assert_eq!(divide_by_255(510), 2);
    assert_eq!(divide_by_255(127), 0);
    assert_eq!(divide_by_255(128), 1);
}

#[test]
fn test_write_read_big_endian() {
    let mut buf = [0u8; 4];
    write_big_endian(&mut buf, 0xDEADBEEF);
    assert_eq!(buf, [0xDE, 0xAD, 0xBE, 0xEF]);
}

#[test]
fn test_write_read_be_uint16() {
    let mut buf = [0u8; 2];
    write_be_uint16(&mut buf, 0x1234);
    assert_eq!(buf, [0x12, 0x34]);
    assert_eq!(read_be_uint16(&buf), 0x1234);

    write_be_uint16(&mut buf, 0);
    assert_eq!(buf, [0, 0]);
    assert_eq!(read_be_uint16(&buf), 0);

    write_be_uint16(&mut buf, 0xFFFF);
    assert_eq!(buf, [0xFF, 0xFF]);
    assert_eq!(read_be_uint16(&buf), 0xFFFF);
}

// -- Additional encoded data size tests ---------------------------------

#[test]
fn test_get_encoded_data_size_non_power_of_2() {
    // 7x7 -> rounds up to 8x8 -> 4 blocks = 32 bytes
    assert_eq!(get_encoded_data_size(7, 7), 32);
    // 10x6 -> rounds up to 12x8 -> 12 blocks = 96/2 = 48 bytes
    assert_eq!(get_encoded_data_size(10, 6), 48);
    // 13x1 -> rounds up to 16x4 -> 4 blocks wide x 1 high = 32 bytes
    assert_eq!(get_encoded_data_size(13, 1), 32);
}

// -- Additional PKM header roundtrip tests ------------------------------

#[test]
fn test_pkm_header_roundtrip_various_sizes() {
    for &(w, h) in &[(16u32, 16u32), (17, 33), (64, 48), (512, 512), (1, 4)] {
        let mut header = [0u8; ETC_PKM_HEADER_SIZE];
        pkm_format_header(&mut header, w, h);
        assert!(
            pkm_is_valid(&header),
            "header should be valid for {}x{}",
            w,
            h
        );
        assert_eq!(pkm_get_width(&header), w, "width mismatch for {}x{}", w, h);
        assert_eq!(
            pkm_get_height(&header),
            h,
            "height mismatch for {}x{}",
            w,
            h
        );
    }
}

// -- Additional encode/decode roundtrip tests ---------------------------

#[test]
fn test_encode_decode_block_not_all_zeros() {
    // A colorful block should produce non-zero encoded data
    let mut input = [0u8; ETC1_DECODED_BLOCK_SIZE];
    for i in 0..16 {
        input[i * 3] = (i * 17) as u8; // R ramp
        input[i * 3 + 1] = (255 - i * 17) as u8; // G inverse ramp
        input[i * 3 + 2] = 128; // B constant
    }

    let mut encoded = [0u8; ETC1_ENCODED_BLOCK_SIZE];
    encode_block(&input, 0xFFFF, &mut encoded);

    // Encoded data should not be all zeros
    assert!(
        encoded.iter().any(|&b| b != 0),
        "encoded block should not be all zeros"
    );

    let mut decoded = [0u8; ETC1_DECODED_BLOCK_SIZE];
    decode_block(&encoded, &mut decoded);

    // Decoded data should not be all zeros either
    assert!(
        decoded.iter().any(|&b| b != 0),
        "decoded block should not be all zeros"
    );

    // Check lossy quality: ETC1 can have high per-pixel error on steep
    // gradients, so we check overall average error is reasonable
    let mut total_diff: u32 = 0;
    for i in 0..ETC1_DECODED_BLOCK_SIZE {
        total_diff += (input[i] as i32 - decoded[i] as i32).unsigned_abs();
    }
    let avg_diff = total_diff / ETC1_DECODED_BLOCK_SIZE as u32;
    assert!(
        avg_diff <= 40,
        "average per-byte error {} is too high",
        avg_diff
    );
}

#[test]
fn test_encode_decode_4x4_image_roundtrip() {
    // Minimal 4x4 image encode/decode via the image API
    let width: u32 = 4;
    let height: u32 = 4;
    let pixel_size: u32 = 3;
    let stride = width * pixel_size;
    let img_size = (stride * height) as usize;
    let encoded_size = get_encoded_data_size(width, height) as usize;

    // Solid mid-gray image
    let input = vec![128u8; img_size];
    let mut encoded = vec![0u8; encoded_size];
    let result = encode_image(&input, width, height, pixel_size, stride, &mut encoded);
    assert_eq!(result, 0);

    let mut decoded = vec![0u8; img_size];
    let result = decode_image(&encoded, &mut decoded, width, height, pixel_size, stride);
    assert_eq!(result, 0);

    // Solid gray should have very low error
    for i in 0..img_size {
        let diff = (input[i] as i32 - decoded[i] as i32).unsigned_abs();
        assert!(
            diff <= 16,
            "byte {} differs by {} (expected ~128, got {})",
            i,
            diff,
            decoded[i]
        );
    }
}
