//! Readers of `rxing` that find and read symbols in an image in one go.
//!
//! They are asked one by one. Not every reader of the crate is: those of RSS, Telepen, MaxiCode and DX film
//! edges index or count past the ends of what they have read, on images that nothing short of reading
//! them tells apart. Those of QR codes, DataMatrix and Aztec symbols read what a detector and a parser
//! of their own come to, each of which is called by itself.
use vstd::prelude::*;
use std::collections::HashSet;
use rxing::common::HybridBinarizer;
use rxing::oned::MultiFormatOneDReader;
use rxing::pdf417::PDF417Reader;
use rxing::qrcode::cpp_port::QrReader;
use rxing::{BarcodeFormat, BinaryBitmap, DecodeHints, Luma8LuminanceSource, Reader};
use crate::codec::formats::{is_scannable, reading_of, Scan};
use crate::codec::pdf417_fit::fits_reader;
use crate::Symbology;

verus! {

/// Whether an image has pixels, and as many as its sides say.
pub open spec fn is_image(luma: Seq<u8>, width: u32, height: u32) -> bool {
    width > 0 && height > 0 && luma.len() == width * height
}

/// The longest side of an image that [`read_patterns`] is for: it doubles the lengths of runs of pixels in
/// sixteen bits.
pub const LONGEST_PATTERN: u32 = 32_767;

/// What the reader of patterns makes of an image: the number of the symbology, the text and the name of
/// the format, as [`reading_of`] gives them.
pub uninterp spec fn patterns_reading(luma: Seq<u8>, width: u32, height: u32) -> Option<
    (nat, Seq<char>, Seq<char>),
>;

/// Calls `rxing::qrcode::cpp_port::QrReader::decode_with_hints` on the image as `HybridBinarizer` sees it,
/// trying hard.
///
/// It reads QR codes, Micro QR codes and rectangular ones, and parses their text by itself.
#[verifier::external_body]
pub(crate) fn read_patterns(luma: &[u8], width: u32, height: u32) -> (r: Option<Scan>)
    requires
        is_image(luma@, width, height),
        width <= LONGEST_PATTERN,
        height <= LONGEST_PATTERN,
    ensures
        reading_of(r) == patterns_reading(luma@, width, height),
{
    let source = Luma8LuminanceSource::new(luma.to_vec(), width, height).ok()?;
    let mut bitmap = BinaryBitmap::new(HybridBinarizer::new(source));
    let hints = DecodeHints { TryHarder: Some(true), ..DecodeHints::default() };
    let found = QrReader.decode_with_hints(&mut bitmap, &hints).ok()?;
    let symbology = match found.getBarcodeFormat() {
        BarcodeFormat::QR_CODE => Some(Symbology::QrCode),
        _ => None,
    };
    let format = format!("{:?}", found.getBarcodeFormat());
    Some(Scan { symbology, payload: found.getText().to_string(), format })
}

/// Whether this is among the texts that the reader of rows may make of an image.
pub uninterp spec fn rows_may_read(
    luma: Seq<u8>,
    width: u32,
    height: u32,
    text: Option<Seq<char>>,
) -> bool;

/// A text, where there is one, as the sequence of its characters.
pub open spec fn said(text: Option<String>) -> Option<Seq<char>> {
    match text {
        Some(text) => Some(text@),
        None => None,
    }
}

/// Calls `rxing::pdf417::PDF417Reader::decode_with_hints` on the image as `HybridBinarizer` sees it, and
/// takes the text.
///
/// An image may be read in more than one way: where a symbol is damaged, the reader weighs the readings of
/// a codeword in the order of a hash map. Which texts an image admits is a matter of the image alone. It
/// looks at the symbol that `pdf_417_detector` finds first, and has room for no more than 929 codewords.
#[verifier::external_body]
pub(crate) fn read_rows(luma: &[u8], width: u32, height: u32) -> (r: Option<String>)
    requires
        is_image(luma@, width, height),
        is_scannable(width, height),
        fits_reader(luma@, width, height),
    ensures
        rows_may_read(luma@, width, height, said(r)),
{
    let source = Luma8LuminanceSource::new(luma.to_vec(), width, height).ok()?;
    let mut bitmap = BinaryBitmap::new(HybridBinarizer::new(source));
    let hints = DecodeHints { TryHarder: Some(true), ..DecodeHints::default() };
    Some(PDF417Reader.decode_with_hints(&mut bitmap, &hints).ok()?.getText().to_string())
}

/// What the reader of bars makes of an image: four, the text and the name of the format, as [`reading_of`]
/// gives them.
pub uninterp spec fn bars_reading(luma: Seq<u8>, width: u32, height: u32) -> Option<
    (nat, Seq<char>, Seq<char>),
>;

/// Calls `rxing::oned::MultiFormatOneDReader::decode_with_hints` on the image as `HybridBinarizer` sees it,
/// trying hard, for EAN and UPC, Code 39, Code 93, Code 128, ITF and Codabar.
///
/// It looks at rows, and at columns after them. None of these formats is one of the four symbologies.
#[verifier::external_body]
pub(crate) fn read_bars(luma: &[u8], width: u32, height: u32) -> (r: Option<Scan>)
    requires
        is_image(luma@, width, height),
        is_scannable(width, height),
    ensures
        reading_of(r) == bars_reading(luma@, width, height),
        r is Some ==> r->0.symbology is None,
{
    let source = Luma8LuminanceSource::new(luma.to_vec(), width, height).ok()?;
    let mut bitmap = BinaryBitmap::new(HybridBinarizer::new(source));
    let formats = HashSet::from([
        BarcodeFormat::EAN_13, BarcodeFormat::UPC_A, BarcodeFormat::EAN_8, BarcodeFormat::UPC_E,
        BarcodeFormat::CODE_39, BarcodeFormat::CODE_93, BarcodeFormat::CODE_128, BarcodeFormat::ITF,
        BarcodeFormat::CODABAR,
    ]);
    let hints = DecodeHints { TryHarder: Some(true), PossibleFormats: Some(formats), ..DecodeHints::default() };
    let found = MultiFormatOneDReader::new(&hints).decode_with_hints(&mut bitmap, &hints).ok()?;
    let format = format!("{:?}", found.getBarcodeFormat());
    Some(Scan { symbology: None, payload: found.getText().to_string(), format })
}

} // verus!
