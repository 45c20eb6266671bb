use vstd::prelude::*;
use vstd::string::*;
use crate::services::bracket_generator::starts_with;

verus! {

/// The side of the square a logo is shrunk to fit.
pub const LOGO_SIZE: u32 = 128;

/// Resampling filters for shrinking an image.
#[derive(Debug, Clone, Copy, PartialEq, Eq, Structural)]
pub enum ShrinkFilter {
    Nearest,
    Triangle,
    CatmullRom,
    Gaussian,
    Lanczos3,
}

/// The bytes `raw` decode as an image, and that image, shrunk to fit
/// `width`×`height`, encodes as PNG.
pub uninterp spec fn shrinks_to_png(raw: Seq<u8>, width: u32, height: u32) -> bool;

/// The big-endian number in the four bytes of `v` from `i` on.
pub open spec fn be_u32_at(v: Seq<u8>, i: int) -> int {
    v[i] * 0x100_0000 + v[i + 1] * 0x1_0000 + v[i + 2] * 0x100 + v[i + 3]
}

/// The PNG signature followed by the start of an IHDR chunk.
pub open spec fn png_start() -> Seq<u8> {
    seq![137u8, 80, 78, 71, 13, 10, 26, 10, 0, 0, 0, 13, 73, 72, 68, 82]
}

/// `v` is a PNG file whose header declares an image of at least one pixel
/// and at most `width`×`height`.
pub open spec fn png_within(v: Seq<u8>, width: u32, height: u32) -> bool {
    &&& v.len() >= 24
    &&& v.subrange(0, 16) == png_start()
    &&& 1 <= be_u32_at(v, 16) <= width
    &&& 1 <= be_u32_at(v, 20) <= height
}

/// Shrinks an image to PNG: `image::load_from_memory`, then
/// `DynamicImage::resize` to fit `width`×`height` with the given filter,
/// then `DynamicImage::write_to` as PNG. Whether this succeeds is named
/// `shrinks_to_png` (decoding and encoding depend on the bytes and the size
/// alone; resizing never fails). The pixels come from floating-point
/// resampling whose precision the platform decides, so of the bytes only
/// what every outcome shares is stated: `png`'s encoder starts them with
/// the signature and the IHDR chunk, and `resize` keeps the size within the
/// bounds (at least one pixel a side). A failure carries the prefix of the
/// step that failed.
#[verifier::external_body]
fn shrink_to_png(raw: &[u8], width: u32, height: u32, filter: ShrinkFilter) -> (r: Result<Vec<u8>, String>)
    requires
        width >= 1,
        height >= 1,
    ensures
        r is Ok <==> shrinks_to_png(raw@, width, height),
        r matches Ok(v) ==> png_within(v@, width, height),
        r matches Err(e) ==> starts_with(e@, "Invalid image: "@) || starts_with(e@, "Failed to encode: "@),
{
    let filter = match filter {
        ShrinkFilter::Nearest => image::imageops::FilterType::Nearest,
        ShrinkFilter::Triangle => image::imageops::FilterType::Triangle,
        ShrinkFilter::CatmullRom => image::imageops::FilterType::CatmullRom,
        ShrinkFilter::Gaussian => image::imageops::FilterType::Gaussian,
        ShrinkFilter::Lanczos3 => image::imageops::FilterType::Lanczos3,
    };
    let img = image::load_from_memory(raw).map_err(|e| format!("Invalid image: {}", e))?;
    let mut buf = std::io::Cursor::new(Vec::new());
    img.resize(width, height, filter).write_to(&mut buf, image::ImageFormat::Png).map_err(|e| format!("Failed to encode: {}", e))?;
    Ok(buf.into_inner())
}

/// The image `raw_bytes` shrunk to a logo: to fit 128×128 with the Lanczos3
/// filter, stored as PNG.
pub fn process_logo(raw_bytes: &[u8]) -> (r: Result<Vec<u8>, String>)
    ensures
        r is Ok <==> shrinks_to_png(raw_bytes@, LOGO_SIZE, LOGO_SIZE),
        r matches Ok(v) ==> png_within(v@, LOGO_SIZE, LOGO_SIZE),
        r matches Err(e) ==> starts_with(e@, "Invalid image: "@) || starts_with(e@, "Failed to encode: "@),
{
    shrink_to_png(raw_bytes, LOGO_SIZE, LOGO_SIZE, ShrinkFilter::Lanczos3)
}

/// The bytes of `r`, or the text of its error.
pub open spec fn bytes_or_text(r: Result<Vec<u8>, String>) -> Result<Seq<u8>, Seq<char>> {
    match r {
        Ok(v) => Ok(v@),
        Err(e) => Err(e@),
    }
}

/// What the image picker keeps of a download: a failed download gives its
/// message; a downloaded image that shrinks to a logo gives a PNG within
/// 128×128; one that does not gives the message shown for it.
pub open spec fn downloaded_logo_ok(download: Result<Seq<u8>, Seq<char>>, r: Result<Seq<u8>, Seq<char>>) -> bool {
    match download {
        Err(e) => r == Err::<Seq<u8>, Seq<char>>("Download failed: "@ + e),
        Ok(d) => if shrinks_to_png(d, LOGO_SIZE, LOGO_SIZE) {
            r matches Ok(png) && png_within(png, LOGO_SIZE, LOGO_SIZE)
        } else {
            r == Err::<Seq<u8>, Seq<char>>("Failed to process downloaded image."@)
        },
    }
}

/// Turns the result of downloading an image into the logo to store: the
/// image shrunk by `process_logo`, or the message to show.
pub fn downloaded_logo(download: &Result<Vec<u8>, String>) -> (r: Result<Vec<u8>, String>)
    ensures
        downloaded_logo_ok(bytes_or_text(*download), bytes_or_text(r)),
{
    match download {
        Err(e) => Err(String::from_str("Download failed: ").concat(e.as_str())),
        Ok(data) => match process_logo(data.as_slice()) {
            Ok(png) => Ok(png),
            Err(_) => Err(String::from_str("Failed to process downloaded image.")),
        },
    }
}

} // verus!
