use image::ImageEncoder;
use sge_native_ops::gdx2d::{
    decode_image, decode_image_reporting, image_result_from_decoded, image_result_from_parts,
    unreadable, ImageDecodeError, FORMAT_RGB888, FORMAT_RGBA8888,
};

#[test]
fn decode_invalid_data_returns_none() {
    let garbage = vec![0u8, 1, 2, 3, 4, 5];
    let result = decode_image(&garbage);
    assert!(result.is_none());
}

#[test]
fn decode_empty_returns_none() {
    let result = decode_image(&[]);
    assert!(result.is_none());
}

// Minimal valid 1x1 red PNG
fn tiny_red_png() -> Vec<u8> {
    // 1x1 RGBA PNG: red pixel (255, 0, 0, 255)
    let mut png_data = Vec::new();
    let encoder = image::codecs::png::PngEncoder::new(&mut png_data);
    encoder
        .write_image(
            &[255, 0, 0, 255], // RGBA red pixel
            1,
            1,
            image::ExtendedColorType::Rgba8,
        )
        .unwrap();
    png_data
}

fn tiny_rgb_png() -> Vec<u8> {
    // 2x1 RGB PNG: a green and a blue pixel
    let mut png_data = Vec::new();
    let encoder = image::codecs::png::PngEncoder::new(&mut png_data);
    encoder
        .write_image(&[0, 255, 0, 0, 0, 255], 2, 1, image::ExtendedColorType::Rgb8)
        .unwrap();
    png_data
}

#[test]
fn decode_tiny_png() {
    let data = tiny_red_png();
    let result = decode_image(&data).expect("should decode");
    assert_eq!(result.width, 1);
    assert_eq!(result.height, 1);
    assert_eq!(result.format, 4); // RGBA8888
    assert_eq!(result.pixel_size, 4);

    // Check pixel data
    let pixels = &result.pixels[..4];
    assert_eq!(pixels[0], 255); // R
    assert_eq!(pixels[1], 0); // G
    assert_eq!(pixels[2], 0); // B
    assert_eq!(pixels[3], 255); // A
}

#[test]
fn decode_png_without_alpha_gives_rgb888() {
    let data = tiny_rgb_png();
    let result = decode_image(&data).expect("should decode");
    assert_eq!(result.width, 2);
    assert_eq!(result.height, 1);
    assert_eq!(result.format, FORMAT_RGB888);
    assert_eq!(result.pixel_size, 6);
    assert_eq!(&result.pixels[..6], &[0, 255, 0, 0, 0, 255]);
}

#[test]
fn decode_reporting_describes_unreadable_bytes() {
    match decode_image_reporting(&[1, 2, 3]) {
        Err(ImageDecodeError::Unreadable(msg)) => {
            assert!(msg.starts_with("Image decode failed: "));
            assert!(msg.len() > "Image decode failed: ".len());
        }
        _ => panic!("garbage should be unreadable"),
    }
}

#[test]
fn decode_reporting_accepts_png() {
    let data = tiny_red_png();
    match decode_image_reporting(&data) {
        Ok(r) => {
            assert_eq!(r.format, FORMAT_RGBA8888);
            assert_eq!(r.pixels, vec![255, 0, 0, 255]);
        }
        Err(_) => panic!("the PNG should decode"),
    }
}

#[test]
fn result_from_parts_rgb() {
    let r = image_result_from_parts(2, 3, false, vec![7u8; 18]);
    match r {
        Ok(res) => {
            assert_eq!(res.width, 2);
            assert_eq!(res.height, 3);
            assert_eq!(res.format, 3);
            assert_eq!(res.pixel_size, 18);
            assert_eq!(res.pixels.len(), 18);
        }
        Err(_) => panic!("small image should fit"),
    }
}

#[test]
fn result_from_parts_rgba() {
    let r = image_result_from_parts(3, 1, true, vec![1u8; 12]);
    match r {
        Ok(res) => {
            assert_eq!(res.format, 4);
            assert_eq!(res.pixel_size, 12);
        }
        Err(_) => panic!("small image should fit"),
    }
}

#[test]
fn result_from_parts_too_large() {
    // 40000 x 20000 x 3 bytes does not fit in an i32.
    match image_result_from_parts(40000, 20000, false, Vec::new()) {
        Err(ImageDecodeError::TooLarge { width, height }) => {
            assert_eq!(width, 40000);
            assert_eq!(height, 20000);
        }
        _ => panic!("the byte count overflows an i32"),
    }
}

#[test]
fn result_from_parts_zero_width_huge_height_is_too_large() {
    match image_result_from_parts(0, 3_000_000_000, true, Vec::new()) {
        Err(ImageDecodeError::TooLarge { .. }) => {}
        _ => panic!("a height above i32::MAX does not fit"),
    }
}

#[test]
fn unreadable_prefixes_the_reason() {
    match unreadable("bad magic".to_string()) {
        ImageDecodeError::Unreadable(msg) => assert_eq!(msg, "Image decode failed: bad magic"),
        _ => panic!("unreadable gives Unreadable"),
    }
}

#[test]
fn failure_text_of_each_error() {
    let e = unreadable("truncated".to_string());
    assert_eq!(e.failure_text(), "Image decode failed: truncated");
    let e = ImageDecodeError::TooLarge { width: 70000, height: 70000 };
    assert_eq!(e.failure_text(), "Image decode failed: the decoded image is too large");
}

#[test]
fn empty_bytes_fail_with_the_message_prefix() {
    match decode_image_reporting(&[]) {
        Err(e) => assert!(e.failure_text().starts_with("Image decode failed: ")),
        Ok(_) => panic!("no bytes cannot decode"),
    }
}

#[test]
fn result_from_decoded_follows_the_alpha_answer() {
    let img = image::load_from_memory(&tiny_rgb_png()).unwrap();
    let rgb = image_result_from_decoded(img.clone(), false);
    match rgb {
        Ok(r) => {
            assert_eq!(r.format, FORMAT_RGB888);
            assert_eq!(r.pixel_size, 6);
            assert_eq!(&r.pixels[..6], &[0, 255, 0, 0, 0, 255]);
        }
        Err(_) => panic!("a 2x1 image fits"),
    }
    match image_result_from_decoded(img, true) {
        Ok(r) => {
            assert_eq!(r.format, FORMAT_RGBA8888);
            assert_eq!(r.pixels, vec![0, 255, 0, 255, 0, 0, 255, 255]);
        }
        Err(_) => panic!("a 2x1 image fits"),
    }
}
