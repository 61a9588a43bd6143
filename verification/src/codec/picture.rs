//! Image files, with `image`.
use vstd::prelude::*;
use image::codecs::jpeg::JpegEncoder;
use image::{ExtendedColorType, GrayImage, ImageEncoder, ImageFormat};
use std::io::Cursor;

verus! {

/// The PNG file of a greyscale picture, or what the encoder says against it.
pub uninterp spec fn png_of_gray(luma: Seq<u8>, width: u32, height: u32) -> Result<
    Seq<u8>,
    Seq<char>,
>;

/// Calls `image::GrayImage::write_to` for the PNG format.
#[verifier::external_body]
pub(crate) fn encode_png(luma: Vec<u8>, width: u32, height: u32) -> (r: Result<Vec<u8>, String>)
    requires
        luma@.len() == width * height,
    ensures
        match r {
            Ok(file) => png_of_gray(luma@, width, height) == Ok::<Seq<u8>, Seq<char>>(file@),
            Err(why) => png_of_gray(luma@, width, height) == Err::<Seq<u8>, Seq<char>>(why@),
        },
{
    let picture = GrayImage::from_raw(width, height, luma).ok_or_else(String::new)?;
    let mut file = Vec::new();
    picture.write_to(&mut Cursor::new(&mut file), ImageFormat::Png).map_err(|e| e.to_string())?;
    Ok(file)
}

/// The JPEG file of a picture at a quality; none where the format has no such size.
pub uninterp spec fn jpeg_of_rgb(rgb: Seq<u8>, width: u32, height: u32, quality: u8) -> Option<
    Seq<u8>,
>;

/// Calls `image::codecs::jpeg::JpegEncoder::write_image` for pixels of three bytes, row-major.
#[verifier::external_body]
pub(crate) fn encode_jpeg(rgb: &[u8], width: u32, height: u32, quality: u8) -> (r: Option<Vec<u8>>)
    requires
        rgb@.len() == 3 * (width * height),
        1 <= quality <= 100,
    ensures
        r is Some <==> jpeg_of_rgb(rgb@, width, height, quality) is Some,
        r is Some ==> jpeg_of_rgb(rgb@, width, height, quality) == Some(r->0@),
{
    let mut file = Vec::new();
    JpegEncoder::new_with_quality(&mut file, quality)
        .write_image(rgb, width, height, ExtendedColorType::Rgb8)
        .ok()?;
    Some(file)
}

/// A picture as a decoder hands it out: three bytes to a pixel, row-major.
#[derive(Clone, Debug)]
pub struct Decoded {
    pub width: u32,
    pub height: u32,
    pub rgb: Vec<u8>,
}

/// What a decoder came to, as plain values: the width, the height and the bytes.
pub open spec fn shown_of(decoded: Option<Decoded>) -> Option<(u32, u32, Seq<u8>)> {
    match decoded {
        Some(d) => Some((d.width, d.height, d.rgb@)),
        None => None,
    }
}

/// Whether this is among the pictures that a decoder may make of a file.
pub uninterp spec fn may_show(file: Seq<u8>, picture: Option<(u32, u32, Seq<u8>)>) -> bool;

/// Whether a file is the JPEG file of some picture.
pub open spec fn is_jpeg(file: Seq<u8>) -> bool {
    exists|rgb: Seq<u8>, width: u32, height: u32, quality: u8| #[trigger]
        jpeg_of_rgb(rgb, width, height, quality) == Some(file)
}

/// Calls `image::load_from_memory_with_format` for the JPEG format, on a file that the encoder made.
///
/// The picture has three bytes for every pixel, and the size of the picture that the file was made
/// of. A file may be shown in more than one way: the inverse transform that the decoder applies depends
/// on the machine. Which pictures a file admits is a matter of the file alone.
#[verifier::external_body]
pub(crate) fn decode_jpeg(file: &[u8]) -> (r: Option<Decoded>)
    requires
        is_jpeg(file@),
    ensures
        may_show(file@, shown_of(r)),
        r is Some ==> r->0.rgb@.len() == 3 * (r->0.width * r->0.height),
        forall|rgb: Seq<u8>, width: u32, height: u32, quality: u8|
            r is Some && #[trigger] jpeg_of_rgb(rgb, width, height, quality) == Some(file@)
                ==> r->0.width == width && r->0.height == height,
{
    let picture = image::load_from_memory_with_format(file, ImageFormat::Jpeg).ok()?.to_rgb8();
    Some(Decoded { width: picture.width(), height: picture.height(), rgb: picture.into_raw() })
}

} // verus!
