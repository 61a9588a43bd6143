//! What scans come to, and encoding symbols of any format with `rxing`.
use vstd::prelude::*;
use vstd::string::*;
use rxing::common::BitMatrix;
use rxing::{BarcodeFormat, EncodeHints, MultiFormatWriter, Writer};
use crate::codec::datamatrix_fit::{room_of, room_taken};
use crate::Symbology;

verus! {

/// What a scan reads: the symbology, unless it is none of the four, the text, and what the scanner
/// calls the format.
#[derive(Clone, Debug)]
pub struct Scan {
    pub symbology: Option<Symbology>,
    pub payload: String,
    pub format: String,
}

/// The number by which a symbology goes in [`encoded`] and in what a scan came to.
pub open spec fn format_number(symbology: Symbology) -> nat {
    match symbology {
        Symbology::QrCode => 0,
        Symbology::Aztec => 1,
        Symbology::Pdf417 => 2,
        Symbology::DataMatrix => 3,
    }
}

/// What a scan came to, as plain values: the number of the symbology, or four for any other, the text
/// and the name of the format.
pub open spec fn reading_of(scanned: Option<Scan>) -> Option<(nat, Seq<char>, Seq<char>)> {
    match scanned {
        Some(s) => Some(
            (
                match s.symbology {
                    Some(symbology) => format_number(symbology),
                    None => 4,
                },
                s.payload@,
                s.format@,
            ),
        ),
        None => None,
    }
}

/// The longest side of an image that is handed to a detector.
///
/// The pixels of four rows, three fifths of each, are sorted into shades, and the numbers of them
/// multiplied by the square of up to 31 in 32 bits.
pub const LONGEST_IMAGE_SIDE: u32 = 1_862_191;

/// Whether an image is not too large to be handed to a detector: the places of its pixels, and of the row
/// behind the last, are counted in 32 bits.
pub open spec fn is_scannable(width: u32, height: u32) -> bool {
    &&& width <= LONGEST_IMAGE_SIDE
    &&& height <= LONGEST_IMAGE_SIDE
    &&& width * height + width <= u32::MAX
}

pub(crate) fn can_scan(width: u32, height: u32) -> (r: bool)
    ensures
        r == is_scannable(width, height),
{
    proof {
        assert(0 <= width * height + width <= 0xffff_ffff * 0xffff_ffff + 0xffff_ffff)
            by (nonlinear_arith)
            requires
                0 <= width <= 0xffff_ffff,
                0 <= height <= 0xffff_ffff,
        ;
    }
    width <= LONGEST_IMAGE_SIDE && height <= LONGEST_IMAGE_SIDE && width as u64 * height as u64
        + width as u64 <= u32::MAX as u64
}

/// The symbol that the encoder of a format makes of a text: its width, its height and its modules.
pub uninterp spec fn encoded(text: Seq<char>, format: nat) -> Option<(nat, nat, Seq<bool>)>;

/// A symbol as an encoder hands it out.
#[derive(Clone, Debug)]
pub struct Encoded {
    pub width: usize,
    pub height: usize,
    pub modules: Vec<bool>,
}

/// More characters than a symbol of any symbology holds.
pub const LONGEST_TEXT: usize = 8192;

/// Whether a text is handed to the encoder of a symbology.
pub open spec fn is_encodable(text: Seq<char>, symbology: Symbology) -> bool {
    &&& 1 <= text.len() <= LONGEST_TEXT
    &&& symbology == Symbology::DataMatrix ==> room_taken(text) is Some
}

fn can_encode(text: &str, symbology: Symbology) -> (r: bool)
    ensures
        r == is_encodable(text@, symbology),
{
    let n: usize = text.unicode_len();
    if n < 1 || n > LONGEST_TEXT {
        return false;
    }
    symbology != Symbology::DataMatrix || room_of(text).is_some()
}

/// Calls `rxing::MultiFormatWriter::encode_with_hints`, without hints and for the smallest size.
///
/// The encoder either refuses the text or makes a symbol; no format has symbols of more than 4096
/// modules along a side. It is not for empty texts, nor, in the case of DataMatrix, for texts that do not
/// fit: that encoder does not say so, but looks up a symbol that is not there.
#[verifier::external_body]
pub(crate) fn encode_text(payload: &str, symbology: Symbology) -> (r: Option<Encoded>)
    requires
        is_encodable(payload@, symbology),
    ensures
        r is Some <==> encoded(payload@, format_number(symbology)) is Some,
        r is Some ==> encoded(payload@, format_number(symbology)) == Some(
            (r->0.width as nat, r->0.height as nat, r->0.modules@),
        ),
        r is Some ==> r->0.modules@.len() == r->0.width * r->0.height,
        r is Some ==> 1 <= r->0.width <= 4096 && 1 <= r->0.height <= 4096,
{
    let format = match symbology {
        Symbology::QrCode => BarcodeFormat::QR_CODE,
        Symbology::Aztec => BarcodeFormat::AZTEC,
        Symbology::Pdf417 => BarcodeFormat::PDF_417,
        Symbology::DataMatrix => BarcodeFormat::DATA_MATRIX,
    };
    let m: BitMatrix = MultiFormatWriter.encode_with_hints(payload, &format, 0, 0, &EncodeHints::default()).ok()?;
    Some(Encoded { width: m.getWidth() as usize, height: m.getHeight() as usize, modules: Vec::<bool>::from(&m) })
}

/// The symbol of a text: what the encoder makes of it, where it is handed to the encoder.
pub open spec fn symbol_of(text: Seq<char>, symbology: Symbology) -> Option<(nat, nat, Seq<bool>)> {
    if is_encodable(text, symbology) {
        encoded(text, format_number(symbology))
    } else {
        None
    }
}

/// Makes a symbol of a text.
pub(crate) fn make_symbol(payload: &str, symbology: Symbology) -> (r: Option<Encoded>)
    ensures
        r is Some <==> symbol_of(payload@, symbology) is Some,
        r is Some ==> symbol_of(payload@, symbology) == Some(
            (r->0.width as nat, r->0.height as nat, r->0.modules@),
        ),
        r is Some ==> r->0.modules@.len() == r->0.width * r->0.height,
        r is Some ==> 1 <= r->0.width <= 4096 && 1 <= r->0.height <= 4096,
{
    if !can_encode(payload, symbology) {
        return None;
    }
    encode_text(payload, symbology)
}

} // verus!
