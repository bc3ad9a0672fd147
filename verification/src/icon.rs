//! The window icon: the bundled PNG decoded to RGBA pixels.

use vstd::prelude::*;

verus! {

/// The error type of the image decoder.
#[verifier::external_type_specification]
#[verifier::external_body]
pub struct ExImageError(image::ImageError);

/// The RGBA pixels, width and height that the image decoder makes of the
/// encoded image `bytes`; `None` when it cannot decode them.
pub uninterp spec fn decoded_rgba(bytes: Seq<u8>) -> Option<(Seq<u8>, u32, u32)>;

/// Calls `image::load_from_memory` (which guesses the format from the bytes
/// and decodes them) and converts the result to 8-bit RGBA. Trusted: the
/// pixels and size are those that `decoded_rgba` names for `bytes`, and an
/// error comes exactly when `decoded_rgba` is `None`.
#[verifier::external_body]
fn load_rgba(bytes: &[u8]) -> (r: Result<(Vec<u8>, u32, u32), image::ImageError>)
    ensures
        match r {
            Ok((px, w, h)) => decoded_rgba(bytes@) == Some((px@, w, h)),
            Err(_) => decoded_rgba(bytes@) is None,
        },
{
    match image::load_from_memory(bytes) {
        Ok(img) => {
            let rgba = img.to_rgba8();
            let (w, h) = rgba.dimensions();
            Ok((rgba.into_raw(), w, h))
        },
        Err(e) => Err(e),
    }
}

/// Decoded icon pixels, row by row, four bytes (R, G, B, A) per pixel.
pub struct IconImage {
    pub rgba: Vec<u8>,
    pub width: u32,
    pub height: u32,
}

/// Decode an icon; `None` when the bytes are not an image the decoder reads.
pub fn decode_icon(bytes: &[u8]) -> (r: Option<IconImage>)
    ensures
        r is Some <==> decoded_rgba(bytes@) is Some,
        r matches Some(i) ==> decoded_rgba(bytes@) == Some((i.rgba@, i.width, i.height)),
{
    match load_rgba(bytes) {
        Ok((rgba, width, height)) => Some(IconImage { rgba, width, height }),
        Err(_) => None,
    }
}

} // verus!
