//! Encodings the benchmark sets beside PRISM: QOI and PNG of the same
//! pixels.

use vstd::prelude::*;
use image::codecs::png::PngEncoder;
use image::ImageEncoder;
use crate::pixel::{rgba_bytes, to_rgba_bytes, Rgba};

verus! {

/// The bytes `qoi::encode_to_vec` writes for raw pixel bytes of the given size.
pub uninterp spec fn qoi_encoding(raw: Seq<u8>, width: u32, height: u32) -> Seq<u8>;

/// The bytes the `image` crate's PNG encoder writes for RGBA8 pixel bytes of
/// the given size, or `None` where it reports an error.
pub uninterp spec fn png_encoding(raw: Seq<u8>, width: u32, height: u32) -> Option<Seq<u8>>;

/// The inputs QOI encodes: between one and 400 million pixels, three or
/// four bytes each.
pub open spec fn qoi_accepts(len: int, width: u32, height: u32) -> bool {
    1 <= width * height <= 400_000_000 && (len == 3 * (width * height) || len == 4 * (
    width * height))
}

/// `qoi::encode_to_vec` (qoi crate). It refuses an empty image, one of more
/// than 400 million pixels, and data that is not three or four bytes per
/// pixel; otherwise it returns the encoding, which holds at least the
/// 14-byte header and the 8-byte end marker.
#[verifier::external_body]
fn qoi_encode_raw(raw: &[u8], width: u32, height: u32) -> (r: Option<Vec<u8>>)
    ensures
        r is Some <==> qoi_accepts(raw@.len() as int, width, height),
        r matches Some(v) ==> v@ == qoi_encoding(raw@, width, height) && 22 <= v@.len(),
{
    qoi::encode_to_vec(raw, width, height).ok()
}

/// `ImageEncoder::write_image` of `PngEncoder` (image crate) into a fresh
/// vector, for RGBA8 data; the crate panics unless the data holds four
/// bytes per pixel. Nothing is promised of when it succeeds.
#[verifier::external_body]
fn png_encode_raw(raw: &[u8], width: u32, height: u32) -> (r: Option<Vec<u8>>)
    requires
        raw@.len() == 4 * (width * height),
    ensures
        match png_encoding(raw@, width, height) {
            Some(b) => r matches Some(v) && v@ == b,
            None => r is None,
        },
{
    let mut out = Vec::new();
    match PngEncoder::new(&mut out).write_image(raw, width, height, image::ExtendedColorType::Rgba8) {
        Ok(()) => Some(out),
        Err(_) => None,
    }
}

/// The QOI encoding of an image's pixels.
pub fn qoi_encode(pixels: &[Rgba], width: u32, height: u32) -> (r: Option<Vec<u8>>)
    requires
        4 * pixels@.len() <= usize::MAX,
    ensures
        r is Some <==> qoi_accepts(4 * pixels@.len() as int, width, height),
        r matches Some(v) ==> v@ == qoi_encoding(rgba_bytes(pixels@), width, height),
{
    let raw = to_rgba_bytes(pixels);
    qoi_encode_raw(raw.as_slice(), width, height)
}

/// The PNG encoding of an image's pixels.
pub fn png_encode(pixels: &[Rgba], width: u32, height: u32) -> (r: Option<Vec<u8>>)
    requires
        pixels@.len() == width * height,
        4 * pixels@.len() <= usize::MAX,
    ensures
        match png_encoding(rgba_bytes(pixels@), width, height) {
            Some(b) => r matches Some(v) && v@ == b,
            None => r is None,
        },
{
    let raw = to_rgba_bytes(pixels);
    png_encode_raw(raw.as_slice(), width, height)
}

} // verus!
