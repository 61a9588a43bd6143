//! Finding and correcting Aztec symbols with `rxing`.
use vstd::prelude::*;
use rxing::aztec::decoder;
use rxing::aztec::detector::Detector;
use rxing::common::reedsolomon::{PredefinedGenericGF, ReedSolomonDecoder};
use rxing::common::{DetectorRXingResult, HybridBinarizer};
use rxing::{BinaryBitmap, Luma8LuminanceSource};
use crate::bits::word_limit;
use crate::codec::formats::{can_scan, is_scannable};

verus! {

/// Whether a symbol with as many layers exists: up to four around a compact bullseye, else up to 32.
pub open spec fn is_size(compact: bool, layers: int) -> bool {
    1 <= layers <= 32 && (compact ==> layers <= 4)
}

/// The width of a symbol in modules: the layers around the bullseye and, in the larger sort, the lines
/// of the reference grid.
pub open spec fn symbol_width(compact: bool, layers: int) -> int {
    if compact {
        4 * layers + 11
    } else {
        4 * layers + 2 * ((2 * layers + 6) / 15) + 15
    }
}

/// What the detector finds in an image: whether the symbol is compact, how many layers and data
/// codewords it has, and its modules.
pub uninterp spec fn az_detection(luma: Seq<u8>, width: u32, height: u32, mirrored: bool) -> Option<
    (bool, nat, nat, Seq<bool>),
>;

/// The text of a symbol of this size, with as many data codewords, and these modules.
pub uninterp spec fn az_text(compact: bool, layers: nat, data_words: nat, modules: Seq<bool>) -> Option<
    Seq<char>,
>;

/// What plain decoding makes of words of a size in bits.
pub uninterp spec fn az_corrected(words: Seq<u16>, size: nat, ecc: nat) -> Option<Seq<u16>>;

/// A symbol as the detector hands it out.
#[derive(Clone, Debug)]
pub struct AztecSample {
    pub compact: bool,
    pub layers: u32,
    pub data_words: u32,
    pub modules: Vec<bool>,
}

/// Calls `rxing::aztec::detector::Detector::detect` on the image as `HybridBinarizer` sees it.
///
/// What is found is a symbol of a size that exists, sampled in that size. An image whose length is not
/// the product of its sides holds nothing.
#[verifier::external_body]
pub(crate) fn detect(luma: &[u8], width: u32, height: u32, mirrored: bool) -> (r: Option<AztecSample>)
    requires
        is_scannable(width, height),
    ensures
        r is Some <==> az_detection(luma@, width, height, mirrored) is Some,
        r is Some ==> az_detection(luma@, width, height, mirrored) == Some(
            (r->0.compact, r->0.layers as nat, r->0.data_words as nat, r->0.modules@),
        ),
        r is Some ==> is_size(r->0.compact, r->0.layers as int),
        r is Some ==> r->0.modules@.len() == symbol_width(r->0.compact, r->0.layers as int)
            * symbol_width(r->0.compact, r->0.layers as int),
        luma@.len() != width * height ==> r is None,
{
    let source = Luma8LuminanceSource::new(luma.to_vec(), width, height).ok()?;
    let bitmap = BinaryBitmap::new(HybridBinarizer::new(source));
    let found = Detector::new(bitmap.get_black_matrix()).detect(mirrored).ok()?;
    Some(AztecSample {
        compact: found.isCompact(),
        layers: found.getNbLayers(),
        data_words: found.getNbDatablocks(),
        modules: Vec::<bool>::from(found.getBits()),
    })
}

/// Calls `rxing::aztec::decoder::decode` on what the detector finds, and takes the text.
///
/// The decoder takes nothing but a detection, and reads off it the size of the symbol, the number of its
/// data codewords and its modules.
#[verifier::external_body]
pub(crate) fn read_text(luma: &[u8], width: u32, height: u32, mirrored: bool) -> (r: Option<String>)
    requires
        is_scannable(width, height),
    ensures
        match az_detection(luma@, width, height, mirrored) {
            Some((compact, layers, data_words, modules)) => match az_text(
                compact,
                layers,
                data_words,
                modules,
            ) {
                Some(text) => r is Some && r->0@ == text,
                None => r is None,
            },
            None => r is None,
        },
{
    let source = Luma8LuminanceSource::new(luma.to_vec(), width, height).ok()?;
    let bitmap = BinaryBitmap::new(HybridBinarizer::new(source));
    let found = Detector::new(bitmap.get_black_matrix()).detect(mirrored).ok()?;
    Some(decoder::decode(&found).ok()?.getText().to_string())
}

/// Calls `rxing::common::reedsolomon::ReedSolomonDecoder::decode` in the field of Aztec words of a
/// size.
///
/// No word changes its length, and every one stays within the size.
#[verifier::external_body]
pub(crate) fn correct(words: &[u16], size: usize, ecc: usize) -> (r: Option<Vec<u16>>)
    requires
        size == 6 || size == 8 || size == 10 || size == 12,
        ecc <= words@.len() <= 4095,
        ecc < word_limit(size as nat),
        forall|k: int| 0 <= k < words@.len() ==> #[trigger] words@[k] < word_limit(size as nat),
    ensures
        r is Some <==> az_corrected(words@, size as nat, ecc as nat) is Some,
        r is Some ==> az_corrected(words@, size as nat, ecc as nat) == Some(r->0@),
        r is Some ==> r->0@.len() == words@.len(),
        r is Some ==> forall|k: int|
            0 <= k < r->0@.len() ==> #[trigger] r->0@[k] < word_limit(size as nat),
{
    let field = match size {
        6 => PredefinedGenericGF::AztecData6,
        8 => PredefinedGenericGF::AztecData8,
        10 => PredefinedGenericGF::AztecData10,
        _ => PredefinedGenericGF::AztecData12,
    };
    let mut corrected = words.to_vec();
    ReedSolomonDecoder::new(field.into()).decode(&mut corrected, ecc as i32).ok()?;
    Some(corrected)
}

/// What is found in an image: what the detector finds in it as it stands or else mirrored, and nothing
/// where the image is too large.
pub open spec fn az_found(luma: Seq<u8>, width: u32, height: u32) -> Option<
    (bool, nat, nat, Seq<bool>),
> {
    if !is_scannable(width, height) {
        None
    } else {
        match az_detection(luma, width, height, false) {
            Some(found) => Some(found),
            None => az_detection(luma, width, height, true),
        }
    }
}

/// Finds a symbol in an image, and reads its text.
pub(crate) fn find(luma: &[u8], width: u32, height: u32) -> (r: Option<
    (AztecSample, Option<String>),
>)
    ensures
        match az_found(luma@, width, height) {
            Some((compact, layers, data_words, modules)) => r matches Some((found, text)) && {
                &&& found.compact == compact
                &&& found.layers == layers
                &&& found.data_words == data_words
                &&& found.modules@ == modules
                &&& match az_text(compact, layers, data_words, modules) {
                    Some(said) => text is Some && text->0@ == said,
                    None => text is None,
                }
            },
            None => r is None,
        },
        r matches Some((found, text)) ==> is_size(found.compact, found.layers as int)
            && found.modules@.len() == symbol_width(found.compact, found.layers as int)
            * symbol_width(found.compact, found.layers as int),
        luma@.len() != width * height ==> r is None,
{
    if !can_scan(width, height) {
        return None;
    }
    let (found, mirrored) = match detect(luma, width, height, false) {
        Some(found) => (found, false),
        None => match detect(luma, width, height, true) {
            Some(found) => (found, true),
            None => {
                return None;
            },
        },
    };
    let text = read_text(luma, width, height, mirrored);
    Some((found, text))
}

} // verus!
