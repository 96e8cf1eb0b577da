//! Preview images for the image file picker: a picked file's bytes become
//! a PNG, shrunk to fit a square of `MAX_PREVIEW_DIMENSION` pixels when a
//! side is larger.
use vstd::prelude::*;

verus! {

/// The largest width or height a preview is shown at without shrinking.
pub const MAX_PREVIEW_DIMENSION: u32 = 480;

/// The width and height `image::load_from_memory` decodes from the bytes,
/// or none when they do not decode.
pub uninterp spec fn decoded_size(bytes: Seq<u8>) -> Option<(u32, u32)>;

/// The PNG file the `image` crate writes for the image decoded from the
/// bytes, or none when decoding or writing fails.
pub uninterp spec fn png_of(bytes: Seq<u8>) -> Option<Seq<u8>>;

/// The PNG file the `image` crate writes for the thumbnail, within a
/// `max` by `max` square, of the image decoded from the bytes, or none
/// when decoding or writing fails.
pub uninterp spec fn thumbnail_png_of(bytes: Seq<u8>, max: u32) -> Option<Seq<u8>>;

/// Decodes an image with `image::load_from_memory` and reads its width
/// and height. Claimed: the result is the named function of the bytes.
#[verifier::external_body]
fn image_size(bytes: &[u8]) -> (res: Option<(u32, u32)>)
    ensures
        res == decoded_size(bytes@),
{
    match image::load_from_memory(bytes) {
        Ok(img) => Some((img.width(), img.height())),
        Err(_) => None,
    }
}

/// Decodes an image with `image::load_from_memory` and writes it as PNG
/// with `DynamicImage::write_to`. Claimed: the outcome is the named
/// function of the bytes.
#[verifier::external_body]
fn reencode_png(bytes: &[u8]) -> (res: Option<Vec<u8>>)
    ensures
        match res {
            Some(v) => png_of(bytes@) == Some(v@),
            None => png_of(bytes@) is None,
        },
{
    let img = image::load_from_memory(bytes).ok()?;
    let mut out: Vec<u8> = Vec::new();
    img.write_to(&mut std::io::Cursor::new(&mut out), image::ImageFormat::Png).ok()?;
    Some(out)
}

/// Decodes an image with `image::load_from_memory`, shrinks it with
/// `DynamicImage::thumbnail(max, max)` and writes it as PNG with
/// `DynamicImage::write_to`. Claimed: the outcome is the named function of
/// the bytes and the bound.
#[verifier::external_body]
fn thumbnail_png(bytes: &[u8], max: u32) -> (res: Option<Vec<u8>>)
    ensures
        match res {
            Some(v) => thumbnail_png_of(bytes@, max) == Some(v@),
            None => thumbnail_png_of(bytes@, max) is None,
        },
{
    let img = image::load_from_memory(bytes).ok()?;
    let small = img.thumbnail(max, max);
    let mut out: Vec<u8> = Vec::new();
    small.write_to(&mut std::io::Cursor::new(&mut out), image::ImageFormat::Png).ok()?;
    Some(out)
}

/// The preview of an image file's bytes: none when they do not decode; a
/// thumbnail within `MAX_PREVIEW_DIMENSION` square when a side is larger;
/// otherwise the image itself, as PNG.
pub open spec fn preview_spec(bytes: Seq<u8>) -> Option<Seq<u8>> {
    match decoded_size(bytes) {
        None => None,
        Some((w, h)) => if w > MAX_PREVIEW_DIMENSION || h > MAX_PREVIEW_DIMENSION {
            thumbnail_png_of(bytes, MAX_PREVIEW_DIMENSION)
        } else {
            png_of(bytes)
        },
    }
}

/// The PNG preview of an image file's bytes (see `preview_spec`).
pub fn preview_png(bytes: &[u8]) -> (res: Option<Vec<u8>>)
    ensures
        match res {
            Some(v) => preview_spec(bytes@) == Some(v@),
            None => preview_spec(bytes@) is None,
        },
{
    match image_size(bytes) {
        None => None,
        Some((w, h)) => {
            if w > MAX_PREVIEW_DIMENSION || h > MAX_PREVIEW_DIMENSION {
                thumbnail_png(bytes, MAX_PREVIEW_DIMENSION)
            } else {
                reencode_png(bytes)
            }
        },
    }
}

} // verus!
