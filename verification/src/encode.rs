use crate::grid::Bounds;
use vstd::prelude::*;

verus! {

/// `std::io::Error`, the error of the encoder: carried through, never
/// looked into.
#[verifier::external_type_specification]
#[verifier::external_body]
pub struct ExIoError(std::io::Error);

/// Why an image was not encoded.
#[derive(Debug)]
pub enum EncodeError {
    /// A side of the image is longer than the file format can record.
    TooLarge,
    /// The encoder reported a failure: the error is the one it reported.
    Encoder(std::io::Error),
}

/// The PNG file that the `image` crate's encoder writes for a grayscale
/// image of `width` by `height` pixels, eight bits each, given row by row
/// in `pixels`.
pub uninterp spec fn png_gray8(pixels: Seq<u8>, width: u32, height: u32) -> Seq<u8>;

/// The sides of the grid can be recorded in a PNG header, and a row of it
/// can be measured in bits.
pub open spec fn fits_png(bounds: Bounds) -> bool {
    &&& bounds.width <= u32::MAX
    &&& bounds.height <= u32::MAX
    &&& bounds.width * 8 <= usize::MAX
}

/// Calls `image::png::PNGEncoder::encode` with the color type `Gray(8)`, on
/// an encoder that writes into a vector. Trusted: the call succeeds, and the
/// vector then holds the file that the encoder writes for these pixels and
/// sides, which depends on nothing else. The encoder refuses of its own
/// accord only an empty image and data shorter than the image, which the
/// conditions here leave out: the image must not be empty, and `pixels` must
/// hold exactly one byte per pixel. Any other error it passes on from what
/// it writes to, and a vector takes whatever is written to it.
#[verifier::external_body]
fn encode_gray8(pixels: &[u8], width: u32, height: u32) -> (r: Result<Vec<u8>, std::io::Error>)
    requires
        width > 0,
        height > 0,
        pixels@.len() == width * height,
        width * 8 <= usize::MAX,
    ensures
        r is Ok,
        r matches Ok(file) ==> file@ == png_gray8(pixels@, width, height),
{
    let mut file: Vec<u8> = Vec::new();
    image::png::PNGEncoder::new(&mut file).encode(pixels, width, height, image::ColorType::Gray(8))?;
    Ok(file)
}

/// What the caller of the encoder gets for an outcome of the encoder: the
/// file, or the encoder's error as the cause of the failure.
pub fn encoding_of(outcome: Result<Vec<u8>, std::io::Error>) -> (r: Result<Vec<u8>, EncodeError>)
    ensures
        r == match outcome {
            Ok(file) => Ok::<Vec<u8>, EncodeError>(file),
            Err(cause) => Err(EncodeError::Encoder(cause)),
        },
{
    match outcome {
        Ok(file) => Ok(file),
        Err(cause) => Err(EncodeError::Encoder(cause)),
    }
}

/// The sides of the grid as a PNG header records them.
pub fn header_sides(bounds: &Bounds) -> (r: Result<(u32, u32), EncodeError>)
    ensures
        r == if fits_png(*bounds) {
            Ok::<(u32, u32), EncodeError>((bounds.width as u32, bounds.height as u32))
        } else {
            Err(EncodeError::TooLarge)
        },
{
    if bounds.width > u32::MAX as usize || bounds.height > u32::MAX as usize || bounds.width
        > usize::MAX / 8 {
        return Err(EncodeError::TooLarge);
    }
    Ok((bounds.width as u32, bounds.height as u32))
}

/// Encodes a rendered image as a grayscale PNG file, held in memory. An
/// image whose sides fit the header is always encoded.
pub fn encode_png(pixels: &[u8], bounds: &Bounds) -> (r: Result<Vec<u8>, EncodeError>)
    requires
        bounds.wf(),
        pixels@.len() == bounds.pixel_count(),
    ensures
        !fits_png(*bounds) ==> r == Err::<Vec<u8>, EncodeError>(EncodeError::TooLarge),
        fits_png(*bounds) ==> r is Ok,
        r matches Ok(file) ==> file@ == png_gray8(
            pixels@,
            bounds.width as u32,
            bounds.height as u32,
        ),
{
    match header_sides(bounds) {
        Ok((width, height)) => encoding_of(encode_gray8(pixels, width, height)),
        Err(e) => Err(e),
    }
}

} // verus!
