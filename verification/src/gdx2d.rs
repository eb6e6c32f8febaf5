use vstd::prelude::*;

verus! {

// ── The image crate, as far as decoding uses it ───────────────────────────────

#[verifier::external_type_specification]
#[verifier::external_body]
pub struct ExDynamicImage(image::DynamicImage);

#[verifier::external_type_specification]
#[verifier::external_body]
pub struct ExImageError(image::ImageError);

/// Calls `image::load_from_memory`. Nothing is claimed of the outcome: which
/// bytes it accepts depends on the format-detection and decoding hooks that
/// any code in the process may register with the crate, not on the bytes
/// alone.
#[verifier::external_body]
fn load_image(data: &[u8]) -> Result<image::DynamicImage, image::ImageError> {
    image::load_from_memory(data)
}

/// Calls `DynamicImage::has_alpha`: whether the pixel type of the decoded
/// image can express transparency. Nothing is claimed of the answer.
#[verifier::external_body]
fn image_has_alpha(img: &image::DynamicImage) -> bool {
    img.has_alpha()
}

/// Calls `DynamicImage::into_rgba8` and takes the buffer apart into its
/// width, height and raw bytes. Claimed, as `ImageBuffer` keeps it: the raw
/// bytes hold at least four per pixel. Their values are not stated.
#[verifier::external_body]
fn image_into_rgba8(img: image::DynamicImage) -> (r: (u32, u32, Vec<u8>))
    ensures
        r.2.len() >= r.0 * r.1 * 4,
{
    let rgba = img.into_rgba8();
    let (width, height) = (rgba.width(), rgba.height());
    (width, height, rgba.into_raw())
}

/// Calls `DynamicImage::into_rgb8` and takes the buffer apart into its
/// width, height and raw bytes. Claimed, as `ImageBuffer` keeps it: the raw
/// bytes hold at least three per pixel. Their values are not stated.
#[verifier::external_body]
fn image_into_rgb8(img: image::DynamicImage) -> (r: (u32, u32, Vec<u8>))
    ensures
        r.2.len() >= r.0 * r.1 * 3,
{
    let rgb = img.into_rgb8();
    let (width, height) = (rgb.width(), rgb.height());
    (width, height, rgb.into_raw())
}

/// Calls `ImageError`'s `to_string`: the crate's description of the failure.
/// Its text is not stated.
#[verifier::external_body]
fn image_error_text(e: &image::ImageError) -> String {
    e.to_string()
}

// ── Decoded images ────────────────────────────────────────────────────────────

/// Pixel format code of three bytes per pixel (red, green, blue).
pub const FORMAT_RGB888: i32 = 3;

/// Pixel format code of four bytes per pixel (red, green, blue, alpha).
pub const FORMAT_RGBA8888: i32 = 4;

/// A decoded image: its size, its pixel format (3 for RGB888, 4 for
/// RGBA8888, which is also the number of bytes per pixel) and its pixels,
/// row by row from the top.
pub struct SgeImageResult {
    pub width: i32,
    pub height: i32,
    /// Pixel format: 3 = RGB888, 4 = RGBA8888
    pub format: i32,
    /// The raw pixel data, at least `pixel_size` bytes.
    pub pixels: Vec<u8>,
    /// Size of the pixel data in bytes (width * height * format)
    pub pixel_size: i32,
}

/// Why an image could not be decoded.
pub enum ImageDecodeError {
    /// The image crate refused the bytes: "Image decode failed: " followed
    /// by the crate's description of why.
    Unreadable(String),
    /// The decoded image is too large for its byte count to fit in an `i32`.
    TooLarge { width: u32, height: u32 },
}

/// Whether the size of an image, and its byte count at the given bytes per
/// pixel, fit in an `i32`.
pub open spec fn fits_i32(width: u32, height: u32, bytes_per_pixel: int) -> bool {
    &&& width <= i32::MAX
    &&& height <= i32::MAX
    &&& width as int * height as int * bytes_per_pixel <= i32::MAX
}

/// The well-formedness of a decoded image: a known format, and a byte count
/// that is the product of the size and the bytes per pixel and that the
/// pixel data covers.
pub open spec fn well_formed_result(r: SgeImageResult) -> bool {
    &&& r.format == FORMAT_RGB888 || r.format == FORMAT_RGBA8888
    &&& r.width >= 0
    &&& r.height >= 0
    &&& r.pixel_size == r.width * r.height * r.format
    &&& r.pixels.len() >= r.pixel_size
}

/// Assembles a decoded image from the parts the image crate handed out: its
/// size, whether it kept an alpha channel (RGBA8888, else RGB888), and its
/// raw pixels. Gives `TooLarge` when the size or the byte count does not fit
/// in an `i32`.
pub fn image_result_from_parts(width: u32, height: u32, has_alpha: bool, pixels: Vec<u8>) -> (r:
    Result<SgeImageResult, ImageDecodeError>)
    ensures
        ({
            let bpp: int = if has_alpha {
                4
            } else {
                3
            };
            match r {
                Ok(res) => {
                    &&& fits_i32(width, height, bpp)
                    &&& res.width == width
                    &&& res.height == height
                    &&& res.format == bpp
                    &&& res.pixel_size == width * height * bpp
                    &&& res.pixels@ == pixels@
                    &&& (pixels.len() >= width * height * bpp ==> well_formed_result(res))
                },
                Err(e) => {
                    &&& !fits_i32(width, height, bpp)
                    &&& e == (ImageDecodeError::TooLarge { width, height })
                },
            }
        }),
{
    let format: i32 = if has_alpha {
        FORMAT_RGBA8888
    } else {
        FORMAT_RGB888
    };
    assert(width as int * height as int <= u64::MAX) by (nonlinear_arith)
        requires
            width <= u32::MAX,
            height <= u32::MAX,
    ;
    let total: u64 = width as u64 * height as u64;
    if width > (i32::MAX as u32) || height > (i32::MAX as u32) || total > (i32::MAX as u64) / (
    format as u64) {
        proof {
            let bpp = format as int;
            if width <= i32::MAX && height <= i32::MAX {
                assert(total * bpp > i32::MAX) by (nonlinear_arith)
                    requires
                        total > i32::MAX as int / bpp,
                        bpp == 3 || bpp == 4,
                ;
            }
        }
        return Err(ImageDecodeError::TooLarge { width, height });
    }
    proof {
        let bpp = format as int;
        assert(total * bpp <= i32::MAX) by (nonlinear_arith)
            requires
                total <= i32::MAX as int / bpp,
                bpp == 3 || bpp == 4,
        ;
    }
    let w = width as i32;
    let h = height as i32;
    let pixel_size = (total as i32) * format;
    Ok(SgeImageResult { width: w, height: h, format, pixels, pixel_size })
}

/// The failure message recorded for a decode that failed for `reason`.
pub open spec fn failure_message(reason: Seq<char>) -> Seq<char> {
    "Image decode failed: "@ + reason
}

/// The reason given when the decoded image is too large.
pub open spec fn too_large_reason() -> Seq<char> {
    "the decoded image is too large"@
}

/// The error for bytes the image crate refused for `reason`: its failure
/// message.
pub fn unreadable(reason: String) -> (e: ImageDecodeError)
    ensures
        e matches ImageDecodeError::Unreadable(msg) && msg@ == failure_message(reason@),
{
    let mut msg = String::from_str("Image decode failed: ");
    msg.append(reason.as_str());
    ImageDecodeError::Unreadable(msg)
}

impl ImageDecodeError {
    /// The failure message to record for this error.
    pub fn failure_text(&self) -> (text: String)
        ensures
            self matches ImageDecodeError::Unreadable(msg) ==> text@ == msg@,
            self matches ImageDecodeError::TooLarge { .. } ==> text@ == failure_message(
                too_large_reason(),
            ),
    {
        match self {
            ImageDecodeError::Unreadable(msg) => msg.clone(),
            ImageDecodeError::TooLarge { .. } => {
                let mut text = String::from_str("Image decode failed: ");
                text.append("the decoded image is too large");
                text
            },
        }
    }
}

/// Whether `out` (width, height, raw bytes) is what converting `img` to
/// RGBA8888 (when `has_alpha`) or RGB888 hands out.
pub closed spec fn converted(img: image::DynamicImage, has_alpha: bool, out: (u32, u32, Vec<u8>)) -> bool {
    if has_alpha {
        call_ensures(image_into_rgba8, (img,), out)
    } else {
        call_ensures(image_into_rgb8, (img,), out)
    }
}

/// Turns a decoded image into raw pixels: RGBA8888 when `has_alpha` (what
/// the image crate answered for it), RGB888 otherwise. Gives `TooLarge` when
/// the size or the byte count does not fit in an `i32`.
pub fn image_result_from_decoded(img: image::DynamicImage, has_alpha: bool) -> (r: Result<
    SgeImageResult,
    ImageDecodeError,
>)
    ensures
        r matches Ok(res) ==> well_formed_result(res) && res.format == if has_alpha {
            FORMAT_RGBA8888
        } else {
            FORMAT_RGB888
        },
        r matches Err(e) ==> e matches ImageDecodeError::TooLarge { width, height } && !fits_i32(
            width,
            height,
            if has_alpha {
                4
            } else {
                3
            },
        ),
        r matches Ok(res) ==> exists|out: (u32, u32, Vec<u8>)|
            #[trigger] converted(img, has_alpha, out) && res.width == out.0 && res.height == out.1
                && res.pixels@ == out.2@,
{
    let ghost img0 = img;
    let out = if has_alpha {
        let convert = image_into_rgba8;
        convert(img)
    } else {
        let convert = image_into_rgb8;
        convert(img)
    };
    let ghost out0 = out;
    let (width, height, pixels) = out;
    let r = image_result_from_parts(width, height, has_alpha, pixels);
    assert(converted(img0, has_alpha, out0));
    r
}

/// Decodes encoded image bytes (PNG, JPEG or BMP) into raw pixels: RGBA8888
/// when the decoded image has an alpha channel, RGB888 otherwise. Fails with
/// `Unreadable` and a failure message when the image crate refuses the bytes.
pub fn decode_image_reporting(data: &[u8]) -> (r: Result<SgeImageResult, ImageDecodeError>)
    ensures
        r matches Ok(res) ==> well_formed_result(res),
        r matches Ok(res) ==> exists|img: image::DynamicImage, a: bool, out: (u32, u32, Vec<u8>)|
            #[trigger] converted(img, a, out) && res.width == out.0 && res.height == out.1
                && res.pixels@ == out.2@ && res.format == if a {
                FORMAT_RGBA8888
            } else {
                FORMAT_RGB888
            },
        r matches Err(ImageDecodeError::Unreadable(msg)) ==> exists|reason: Seq<char>|
            msg@ == #[trigger] failure_message(reason),
        r matches Err(ImageDecodeError::TooLarge { width, height }) ==> !fits_i32(width, height, 3)
            || !fits_i32(width, height, 4),
{
    match load_image(data) {
        Ok(img) => {
            let has_alpha = image_has_alpha(&img);
            let ghost img0 = img;
            let r = image_result_from_decoded(img, has_alpha);
            proof {
                if r is Ok {
                    let res = r->Ok_0;
                    let out = choose|out: (u32, u32, Vec<u8>)|
                        #[trigger] converted(img0, has_alpha, out) && res.width == out.0
                            && res.height == out.1 && res.pixels@ == out.2@;
                    assert(converted(img0, has_alpha, out));
                }
            }
            r
        },
        Err(e) => {
            let reason = image_error_text(&e);
            let err = unreadable(reason);
            assert(err matches ImageDecodeError::Unreadable(msg) && msg@ == failure_message(
                reason@,
            ));
            Err(err)
        },
    }
}

/// Decodes encoded image bytes (PNG, JPEG or BMP) into raw pixels, or gives
/// `None` when they cannot be decoded.
pub fn decode_image(data: &[u8]) -> (r: Option<Box<SgeImageResult>>)
    ensures
        r matches Some(res) ==> well_formed_result(*res),
        r matches Some(res) ==> exists|img: image::DynamicImage, a: bool, out: (u32, u32, Vec<u8>)|
            #[trigger] converted(img, a, out) && res.width == out.0 && res.height == out.1
                && res.pixels@ == out.2@ && res.format == if a {
                FORMAT_RGBA8888
            } else {
                FORMAT_RGB888
            },
{
    match decode_image_reporting(data) {
        Ok(res) => Some(Box::new(res)),
        Err(_) => None,
    }
}

} // verus!
