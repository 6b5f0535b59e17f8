use vstd::prelude::*;
use crate::buffer::{flip_rows, ColorBuffer};
use crate::error::MeshError;

verus! {

#[verifier::external_type_specification]
#[verifier::external_body]
pub struct ExImageError(image::ImageError);

/// Largest width or height that the image container can record.
pub const MAX_SIDE: usize = 65535;

/// The uncompressed true-colour TGA file of a `width` by `height` RGB pixel
/// sequence, rows stored top to bottom as given.
pub uninterp spec fn tga_bytes(pixels: Seq<u8>, width: u32, height: u32) -> Seq<u8>;

/// Relies on image's `TgaEncoder` (`new`, `disable_rle`, `encode` with
/// `ExtendedColorType::Rgb8`) writing into a `Vec`: it panics unless the
/// pixel count matches, refuses a side of 0 or over 65535, and otherwise
/// writes the 18-byte header and then every pixel, as writes to a `Vec`
/// cannot fail.
#[verifier::external_body]
fn encode_tga_rgb(pixels: &Vec<u8>, width: u32, height: u32) -> (r: Result<Vec<u8>, image::ImageError>)
    requires
        pixels@.len() == width * height * 3,
    ensures
        r is Ok <==> (1 <= width <= 65535 && 1 <= height <= 65535),
        r is Ok ==> r->Ok_0@ == tga_bytes(pixels@, width, height),
        r is Ok ==> r->Ok_0@.len() == 18 + pixels@.len(),
{
    let mut out: Vec<u8> = Vec::new();
    let res = image::codecs::tga::TgaEncoder::new(&mut out).disable_rle().encode(
        pixels,
        width,
        height,
        image::ExtendedColorType::Rgb8,
    );
    match res {
        Ok(()) => Ok(out),
        Err(e) => Err(e),
    }
}

/// The buffer as an uncompressed TGA file, its rows flipped so that row 0
/// of the buffer becomes the bottom row of the picture. A side of 0 or over
/// `MAX_SIDE` cannot be recorded and is refused.
pub fn encode_image(img: &ColorBuffer) -> (r: Result<Vec<u8>, MeshError>)
    requires
        img.wf(),
    ensures
        r is Ok <==> (1 <= img.spec_width() <= MAX_SIDE && 1 <= img.spec_height() <= MAX_SIDE),
        r is Ok ==> r->Ok_0@ == tga_bytes(
            flip_rows(img.bytes(), img.spec_width() * 3, img.spec_height()),
            img.spec_width() as u32,
            img.spec_height() as u32,
        ),
        r is Ok ==> r->Ok_0@.len() == 18 + img.bytes().len(),
        r is Err ==> r == Err::<Vec<u8>, MeshError>(MeshError::InvalidDimensions),
{
    let w: usize = img.width();
    let h: usize = img.height();
    if w == 0 || h == 0 || w > MAX_SIDE || h > MAX_SIDE {
        return Err(MeshError::InvalidDimensions);
    }
    let flipped = img.flipped();
    proof {
        img.lemma_len();
    }
    match encode_tga_rgb(&flipped, w as u32, h as u32) {
        Ok(bytes) => Ok(bytes),
        Err(_) => Err(MeshError::InvalidDimensions),
    }
}

} // verus!
