//! Turning a finished pixel buffer into the bytes of a grayscale PNG file.

use image::codecs::png::PngEncoder;
use image::{ExtendedColorType, ImageEncoder, ImageError};
use vstd::prelude::*;
use crate::geometry::{buffer_len, buffer_len_of, GeometryError};

verus! {

/// The error type of the `image` crate, carried through unread.
#[verifier::external_type_specification]
#[verifier::external_body]
pub struct ExImageError(image::ImageError);

/// Why a buffer was not encoded.
#[derive(Clone, Copy, Debug, PartialEq, Eq, Structural)]
pub enum EncodeError {
    /// The bounds describe no image.
    Geometry(GeometryError),
    /// A side of the image does not fit the 32 bits a PNG header gives it.
    TooLarge,
    /// The buffer does not hold one byte for each pixel of the bounds.
    WrongLength,
    /// The encoder refused the image.
    Rejected,
}

/// The bytes that `image`'s PNG encoder, with its default settings, writes
/// for an 8-bit grayscale image of `width` by `height` pixels, or `None`
/// where it reports an error.
pub uninterp spec fn png_of(pixels: Seq<u8>, width: u32, height: u32) -> Option<Seq<u8>>;

/// What [`encode_image`] answers: the first failed check, in the order
/// bounds, side, length, or else what the encoder made of the image.
pub open spec fn encoding_of(pixels: Seq<u8>, bounds: (usize, usize)) -> Result<
    Seq<u8>,
    EncodeError,
> {
    match buffer_len_of(bounds) {
        Err(e) => Err(EncodeError::Geometry(e)),
        Ok(len) => if bounds.0 > u32::MAX || bounds.1 > u32::MAX {
            Err(EncodeError::TooLarge)
        } else if pixels.len() != len {
            Err(EncodeError::WrongLength)
        } else {
            match png_of(pixels, bounds.0 as u32, bounds.1 as u32) {
                Some(bytes) => Ok(bytes),
                None => Err(EncodeError::Rejected),
            }
        },
    }
}

/// Calls `PngEncoder::new(..).write_image(.., ExtendedColorType::L8)` of the
/// `image` crate on a fresh byte vector and hands back what was written.
///
/// Believed, not proved: the call is a function of its arguments, so both
/// whether it succeeds and the bytes it writes are those named by
/// [`png_of`]. The encoder panics on a buffer whose length is not
/// `width * height`; such a buffer is kept out.
#[verifier::external_body]
fn write_gray_png(pixels: &[u8], width: u32, height: u32) -> (written: Result<Vec<u8>, ImageError>)
    requires
        pixels@.len() == width * height,
    ensures
        match written {
            Ok(bytes) => png_of(pixels@, width, height) == Some(bytes@),
            Err(_) => png_of(pixels@, width, height) is None,
        },
{
    let mut bytes: Vec<u8> = Vec::new();
    match PngEncoder::new(&mut bytes).write_image(pixels, width, height, ExtendedColorType::L8) {
        Ok(()) => Ok(bytes),
        Err(e) => Err(e),
    }
}

/// Keeps the bytes of a successful encoding and files every error of the
/// encoder under [`EncodeError::Rejected`].
pub fn outcome_of(written: Result<Vec<u8>, ImageError>) -> (r: Result<Vec<u8>, EncodeError>)
    ensures
        match written {
            Ok(bytes) => r == Ok::<Vec<u8>, EncodeError>(bytes),
            Err(_) => r == Err::<Vec<u8>, EncodeError>(EncodeError::Rejected),
        },
{
    match written {
        Ok(bytes) => Ok(bytes),
        Err(_) => Err(EncodeError::Rejected),
    }
}

/// Encodes the pixel buffer of an image of size `bounds`, given as
/// (width, height), as an 8-bit grayscale PNG file held in memory.
pub fn encode_image(pixels: &[u8], bounds: (usize, usize)) -> (r: Result<Vec<u8>, EncodeError>)
    ensures
        match r {
            Ok(bytes) => encoding_of(pixels@, bounds) == Ok::<Seq<u8>, EncodeError>(bytes@),
            Err(e) => encoding_of(pixels@, bounds) == Err::<Seq<u8>, EncodeError>(e),
        },
{
    match buffer_len(bounds) {
        Err(e) => Err(EncodeError::Geometry(e)),
        Ok(len) => {
            if bounds.0 > u32::MAX as usize || bounds.1 > u32::MAX as usize {
                Err(EncodeError::TooLarge)
            } else if pixels.len() != len {
                Err(EncodeError::WrongLength)
            } else {
                outcome_of(write_gray_png(pixels, bounds.0 as u32, bounds.1 as u32))
            }
        },
    }
}

} // verus!
