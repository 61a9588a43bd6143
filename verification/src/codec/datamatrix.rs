//! Reading DataMatrix symbols with `rxing`.
//!
//! A symbol is a rectangle of modules, row-major, `true` for dark. Its size alone says which version
//! it is.
use vstd::prelude::*;
use rxing::common::reedsolomon::{PredefinedGenericGF, ReedSolomonDecoder};
use rxing::common::{BitMatrix, DetectorRXingResult, HybridBinarizer};
use rxing::datamatrix::decoder::{decoded_bit_stream_parser, BitMatrixParser, DataBlock, Version};
use rxing::datamatrix::detector::{zxing_cpp_detector, Detector};
use rxing::{BinaryBitmap, Luma8LuminanceSource};
use crate::clean::field::DATA_MATRIX_POLYNOMIAL;
use crate::clean::reed_solomon::is_codeword;
use crate::codec::formats::{can_scan, is_scannable};
use crate::codec::datamatrix_text::is_parsable;
use crate::codec::blocks::{
    are_places, blocks_tile, deals, index_bytes, join_places, leads_with_data,
};

verus! {

/// The longest side that a symbol has, in modules.
pub const LONGEST_SIDE: usize = 144;

// ---- codewords and modules ----
/// A module as a number.
pub open spec fn module_value(dark: bool) -> int {
    if dark {
        1
    } else {
        0
    }
}

/// What the bit in a place counts, the first the most.
pub open spec fn weight(i: int) -> int {
    if i == 0 {
        128
    } else if i == 1 {
        64
    } else if i == 2 {
        32
    } else if i == 3 {
        16
    } else if i == 4 {
        8
    } else if i == 5 {
        4
    } else if i == 6 {
        2
    } else {
        1
    }
}

/// The bit in a place of a codeword.
pub open spec fn bit_at(codeword: u8, i: int) -> bool {
    (codeword as int / weight(i)) % 2 == 1
}

/// The codeword that eight modules spell.
pub open spec fn spelled(modules: Seq<bool>, cells: Seq<nat>) -> u8 {
    (128 * module_value(modules[cells[0] as int]) + 64 * module_value(modules[cells[1] as int]) + 32
        * module_value(modules[cells[2] as int]) + 16 * module_value(modules[cells[3] as int]) + 8
        * module_value(modules[cells[4] as int]) + 4 * module_value(modules[cells[5] as int]) + 2
        * module_value(modules[cells[6] as int]) + module_value(modules[cells[7] as int])) as u8
}

/// The codewords that a symbol's modules spell.
pub open spec fn picked(modules: Seq<bool>, places: Seq<Seq<nat>>) -> Seq<u8> {
    places.map_values(|cells: Seq<nat>| spelled(modules, cells))
}

/// Whether eight modules belong to each codeword, all inside a symbol of `n` modules, and none to two
/// bits.
pub open spec fn is_placement(places: Seq<Seq<nat>>, n: int) -> bool {
    &&& 8 * places.len() <= n
    &&& forall|k: int| 0 <= k < places.len() ==> (#[trigger] places[k]).len() == 8
    &&& forall|k: int, i: int|
        #![trigger places[k][i]]
        0 <= k < places.len() && 0 <= i < 8 ==> places[k][i] < n
    &&& forall|k: int, i: int, l: int, j: int|
        #![trigger places[k][i], places[l][j]]
        0 <= k < places.len() && 0 <= i < 8 && 0 <= l < places.len() && 0 <= j < 8 && places[k][i]
            == places[l][j] ==> k == l && i == j
}

/// Each bit of a codeword that modules spell is the module in its place.
pub proof fn lemma_spelled_bit(modules: Seq<bool>, cells: Seq<nat>, i: int)
    requires
        0 <= i < 8,
    ensures
        bit_at(spelled(modules, cells), i) == modules[cells[i] as int],
{
    let b0 = module_value(modules[cells[0] as int]);
    let b1 = module_value(modules[cells[1] as int]);
    let b2 = module_value(modules[cells[2] as int]);
    let b3 = module_value(modules[cells[3] as int]);
    let b4 = module_value(modules[cells[4] as int]);
    let b5 = module_value(modules[cells[5] as int]);
    let b6 = module_value(modules[cells[6] as int]);
    let b7 = module_value(modules[cells[7] as int]);
    let low6 = 2 * b6 + b7;
    let low5 = 4 * b5 + low6;
    let low4 = 8 * b4 + low5;
    let low3 = 16 * b3 + low4;
    let low2 = 32 * b2 + low3;
    let low1 = 64 * b1 + low2;
    let all = 128 * b0 + low1;
    assert(0 <= low6 < 4 && 0 <= low5 < 8 && 0 <= low4 < 16 && 0 <= low3 < 32 && 0 <= low2 < 64 && 0
        <= low1 < 128 && 0 <= all < 256);
    assert(spelled(modules, cells) == all);
    assert(all / 128 == b0);
    assert(all / 64 == 2 * b0 + b1);
    assert(all / 32 == 4 * b0 + 2 * b1 + b2);
    assert(all / 16 == 8 * b0 + 4 * b1 + 2 * b2 + b3);
    assert(all / 8 == 16 * b0 + 8 * b1 + 4 * b2 + 2 * b3 + b4);
    assert(all / 4 == 32 * b0 + 16 * b1 + 8 * b2 + 4 * b3 + 2 * b4 + b5);
    assert(all / 2 == 64 * b0 + 32 * b1 + 16 * b2 + 8 * b3 + 4 * b4 + 2 * b5 + b6);
}

/// Modules that hold the bits of a codeword spell it.
pub proof fn lemma_bits_spell(modules: Seq<bool>, cells: Seq<nat>, codeword: u8)
    requires
        forall|i: int| 0 <= i < 8 ==> modules[#[trigger] cells[i] as int] == bit_at(codeword, i),
    ensures
        spelled(modules, cells) == codeword,
{
    assert(codeword == 128 * ((codeword / 128) % 2) + 64 * ((codeword / 64) % 2) + 32 * ((codeword
        / 32) % 2) + 16 * ((codeword / 16) % 2) + 8 * ((codeword / 8) % 2) + 4 * ((codeword / 4)
        % 2) + 2 * ((codeword / 2) % 2) + codeword % 2) by (bit_vector);
    assert(module_value(modules[cells[0] as int]) == (codeword / 128) % 2);
    assert(module_value(modules[cells[1] as int]) == (codeword / 64) % 2);
    assert(module_value(modules[cells[2] as int]) == (codeword / 32) % 2);
    assert(module_value(modules[cells[3] as int]) == (codeword / 16) % 2);
    assert(module_value(modules[cells[4] as int]) == (codeword / 8) % 2);
    assert(module_value(modules[cells[5] as int]) == (codeword / 4) % 2);
    assert(module_value(modules[cells[6] as int]) == (codeword / 2) % 2);
    assert(module_value(modules[cells[7] as int]) == codeword % 2);
}

/// The bit in a place of a codeword.
pub fn codeword_bit(codeword: u8, i: usize) -> (r: bool)
    requires
        i < 8,
    ensures
        r == bit_at(codeword, i as int),
{
    let divisor: u8 = match i {
        0 => 128,
        1 => 64,
        2 => 32,
        3 => 16,
        4 => 8,
        5 => 4,
        6 => 2,
        _ => 1,
    };
    (codeword / divisor) % 2 == 1
}

// ---- what the crate does ----
/// What the contour-tracing detector finds in an image: width, height and modules of every symbol.
pub uninterp spec fn dm_traced(luma: Seq<u8>, width: u32, height: u32) -> Seq<
    (nat, nat, Seq<bool>),
>;

/// What the corner-finding detector finds in an image: width, height and modules.
pub uninterp spec fn dm_cornered(luma: Seq<u8>, width: u32, height: u32) -> Option<
    (nat, nat, Seq<bool>),
>;

/// The modules of each codeword of a symbol of this size, most significant bit first; none where no
/// version has it.
pub uninterp spec fn dm_places(width: nat, height: nat) -> Option<Seq<Seq<nat>>>;

/// The blocks of a symbol of this size: how many data codewords each has, and the places of its
/// codewords in the stream.
pub uninterp spec fn dm_blocks(width: nat, height: nat) -> Seq<(nat, Seq<nat>)>;

/// What plain decoding makes of a word.
pub uninterp spec fn dm_corrected(received: Seq<u8>, ecc: nat) -> Option<Seq<u8>>;

/// The text of data codewords.
pub uninterp spec fn dm_text(data: Seq<u8>) -> Option<Seq<char>>;

/// A rectangle of modules that was sampled from an image.
#[derive(Clone, Debug)]
pub struct Sampled {
    pub width: usize,
    pub height: usize,
    pub modules: Vec<bool>,
}

/// The width, the height and the modules of rectangles that were sampled.
pub open spec fn samples_of(found: Seq<Sampled>) -> Seq<(nat, nat, Seq<bool>)> {
    found.map_values(|s: Sampled| (s.width as nat, s.height as nat, s.modules@))
}

/// Calls `rxing::datamatrix::detector::zxing_cpp_detector::detect` on the image as `HybridBinarizer`
/// sees it, trying hard and at every rotation.
///
/// An image whose length is not the product of its sides holds nothing.
#[verifier::external_body]
pub(crate) fn trace(luma: &[u8], width: u32, height: u32) -> (r: Option<Vec<Sampled>>)
    requires
        is_scannable(width, height),
    ensures
        match r {
            Some(found) => samples_of(found@) == dm_traced(luma@, width, height),
            None => dm_traced(luma@, width, height).len() == 0,
        },
        r is Some ==> forall|k: int|
            0 <= k < r->0@.len() ==> (#[trigger] r->0@[k]).modules@.len() == r->0@[k].width
                * r->0@[k].height,
        luma@.len() != width * height ==> r is None,
{
    let source = Luma8LuminanceSource::new(luma.to_vec(), width, height).ok()?;
    let bitmap = BinaryBitmap::new(HybridBinarizer::new(source));
    let found = zxing_cpp_detector::detect(bitmap.get_black_matrix(), true, true).ok()?;
    Some(found.iter().map(|s| Sampled {
        width: s.getBits().getWidth() as usize,
        height: s.getBits().getHeight() as usize,
        modules: Vec::<bool>::from(s.getBits()),
    }).collect())
}

/// Calls `rxing::datamatrix::detector::Detector::detect` on the image as `HybridBinarizer` sees it.
///
/// An image whose length is not the product of its sides holds nothing.
#[verifier::external_body]
pub(crate) fn corner(luma: &[u8], width: u32, height: u32) -> (r: Option<Sampled>)
    requires
        is_scannable(width, height),
    ensures
        r is Some <==> dm_cornered(luma@, width, height) is Some,
        r is Some ==> dm_cornered(luma@, width, height) == Some(
            (r->0.width as nat, r->0.height as nat, r->0.modules@),
        ),
        r is Some ==> r->0.modules@.len() == r->0.width * r->0.height,
        luma@.len() != width * height ==> r is None,
{
    let source = Luma8LuminanceSource::new(luma.to_vec(), width, height).ok()?;
    let bitmap = BinaryBitmap::new(HybridBinarizer::new(source));
    let found = Detector::new(bitmap.get_black_matrix()).ok()?.detect().ok()?;
    let bits = found.getBits();
    Some(Sampled {
        width: bits.getWidth() as usize,
        height: bits.getHeight() as usize,
        modules: Vec::<bool>::from(bits),
    })
}

/// What is found in an image: the first symbol that tracing contours finds or else what looking for corners
/// does, and nothing where the image is too large.
pub open spec fn dm_found(luma: Seq<u8>, width: u32, height: u32) -> Option<
    (nat, nat, Seq<bool>),
> {
    if !is_scannable(width, height) {
        None
    } else if dm_traced(luma, width, height).len() > 0 {
        Some(dm_traced(luma, width, height)[0])
    } else {
        dm_cornered(luma, width, height)
    }
}

/// Finds a symbol in an image.
pub(crate) fn find(luma: &[u8], width: u32, height: u32) -> (r: Option<Sampled>)
    ensures
        r is Some <==> dm_found(luma@, width, height) is Some,
        r is Some ==> dm_found(luma@, width, height) == Some(
            (r->0.width as nat, r->0.height as nat, r->0.modules@),
        ),
        r is Some ==> r->0.modules@.len() == r->0.width * r->0.height,
        luma@.len() != width * height ==> r is None,
{
    if !can_scan(width, height) {
        return None;
    }
    if let Some(found) = trace(luma, width, height) {
        let mut found = found;
        if found.len() > 0 {
            let first = found.remove(0);
            assert(samples_of(found@.insert(0, first))[0] == (
                first.width as nat,
                first.height as nat,
                first.modules@,
            ));
            return Some(first);
        }
    }
    corner(luma, width, height)
}

/// Calls `rxing::datamatrix::decoder::BitMatrixParser::readCodewords`.
///
/// It succeeds exactly on the sizes that a version has. Which modules it reads for a codeword depends
/// on the size alone: eight for each, most significant bit first, and none twice.
#[verifier::external_body]
pub(crate) fn read_codewords(modules: &[bool], width: usize, height: usize) -> (r: Option<Vec<u8>>)
    requires
        1 <= width <= LONGEST_SIDE,
        1 <= height <= LONGEST_SIDE,
        modules@.len() == width * height,
    ensures
        r is Some <==> dm_places(width as nat, height as nat) is Some,
        r is Some ==> r->0@ == picked(modules@, dm_places(width as nat, height as nat)->0),
        r is Some ==> is_placement(dm_places(width as nat, height as nat)->0, width * height),
{
    let rows: Vec<Vec<bool>> = modules.chunks(width).map(|row| row.to_vec()).collect();
    BitMatrixParser::new(&BitMatrix::parse_bools(&rows)).ok()?.readCodewords().ok()
}

/// Calls `rxing::datamatrix::decoder::DataBlock::getDataBlocks`.
///
/// It takes a stream of as many codewords as the version of that size holds, and no other. The
/// codewords go to the blocks by their places alone, whatever they are; the data codewords of all
/// blocks together are the first of the stream.
#[verifier::external_body]
pub(crate) fn data_blocks(raw: &[u8], width: usize, height: usize) -> (r: Option<
    Vec<(usize, Vec<u8>)>,
>)
    requires
        1 <= width <= LONGEST_SIDE,
        1 <= height <= LONGEST_SIDE,
        dm_places(width as nat, height as nat) is Some,
        raw@.len() == dm_places(width as nat, height as nat)->0.len(),
    ensures
        r is Some,
        r is Some ==> blocks_tile(dm_blocks(width as nat, height as nat), raw@.len() as int),
        r is Some ==> deals(dm_blocks(width as nat, height as nat), raw@, r->0@),
        r is Some ==> leads_with_data(dm_blocks(width as nat, height as nat), raw@.len() as int),
{
    let version = Version::getVersionForDimensions(height as u32, width as u32).ok()?;
    let blocks = DataBlock::getDataBlocks(raw, version, false).ok()?;
    Some(blocks.iter().map(|b| (b.getNumDataCodewords() as usize, b.getCodewords().to_vec())).collect())
}

/// Calls `rxing::common::reedsolomon::ReedSolomonDecoder::decode` in the field of DataMatrix symbols,
/// whose generator starts at the first power.
///
/// A word that is a codeword is left as it is; no word changes its length. Of other words it is not
/// said what the decoder makes of them: it finds up to half as many errors as there are
/// error-correction codewords, and on words with more it gives up or not.
#[verifier::external_body]
pub(crate) fn correct(received: &[u8], ecc: usize) -> (r: Option<Vec<u8>>)
    requires
        ecc <= 255,
        received@.len() <= 255,
    ensures
        r is Some <==> dm_corrected(received@, ecc as nat) is Some,
        r is Some ==> dm_corrected(received@, ecc as nat) == Some(r->0@),
        r is Some ==> r->0@.len() == received@.len(),
        received@.len() > 0 && is_codeword(DATA_MATRIX_POLYNOMIAL, 1, ecc as nat, received@)
            ==> r is Some && r->0@ == received@,
{
    let mut word = received.to_vec();
    let decoder = ReedSolomonDecoder::new(PredefinedGenericGF::DataMatrixField256.into());
    decoder.decode(&mut word, ecc as i32).ok().map(|_| word)
}

/// Calls `rxing::datamatrix::decoder::decoded_bit_stream_parser::decode` and takes the text.
///
/// It is not for streams that hold zeros where no encoder puts them, such as an ECI designator of zero:
/// there the parser subtracts past zero.
#[verifier::external_body]
pub(crate) fn parse_text(data: &[u8]) -> (r: Option<String>)
    requires
        is_parsable(data@),
    ensures
        r is Some <==> dm_text(data@) is Some,
        r is Some ==> dm_text(data@) == Some(r->0@),
{
    Some(decoded_bit_stream_parser::decode(data, false).ok()?.getText().to_string())
}

// ---- places ----
/// Two to the power of `j`.
pub open spec fn power(j: nat) -> nat
    decreases j,
{
    if j == 0 {
        1
    } else {
        2 * power((j - 1) as nat)
    }
}

/// One more binary digit of a number.
proof fn lemma_next_digit(m: int, p: int)
    requires
        0 <= m,
        p > 0,
    ensures
        m % (2 * p) == m % p + p * ((m / p) % 2),
        0 <= m / p,
{
    vstd::arithmetic::div_mod::lemma_fundamental_div_mod(m, p);
    vstd::arithmetic::div_mod::lemma_div_pos_is_pos(m, p);
    vstd::arithmetic::div_mod::lemma_mod_bound(m, p);
    let q = m / p;
    let r = m % p;
    let h = q / 2;
    let d = q % 2;
    assert(q == 2 * h + d);
    assert(p * q == (2 * p) * h + p * d) by (nonlinear_arith)
        requires
            q == 2 * h + d,
    ;
    assert(0 <= p * d + r < 2 * p) by (nonlinear_arith)
        requires
            0 <= d <= 1,
            0 <= r < p,
    ;
    assert(m == (2 * p) * h + (p * d + r));
    assert((2 * p) * h == h * (2 * p)) by (nonlinear_arith);
    vstd::arithmetic::div_mod::lemma_fundamental_div_mod_converse(m, 2 * p, h, p * d + r);
}

/// Modules that hold one binary digit of their own places.
fn digit_plane(n: usize, p: usize) -> (r: Vec<bool>)
    requires
        p > 0,
    ensures
        r@ == Seq::new(n as nat, |m: int| (m / p as int) % 2 == 1),
{
    let mut out: Vec<bool> = Vec::with_capacity(n);
    for m in 0..n
        invariant
            p > 0,
            out@.len() == m,
            forall|k: int| 0 <= k < m ==> #[trigger] out@[k] == ((k / p as int) % 2 == 1),
    {
        out.push((m / p) % 2 == 1);
    }
    assert(out@ =~= Seq::new(n as nat, |m: int| (m / p as int) % 2 == 1));
    out
}

/// Whether `cells` holds the remainders of a placement.
pub open spec fn holds_digits(places: Seq<Seq<nat>>, cells: Seq<Vec<usize>>, p: int) -> bool {
    &&& cells.len() == places.len()
    &&& forall|k: int| 0 <= k < cells.len() ==> (#[trigger] cells[k])@.len() == 8
    &&& forall|k: int, i: int|
        #![trigger cells[k]@[i]]
        0 <= k < cells.len() && 0 <= i < 8 ==> cells[k]@[i] == places[k][i] as int % p
}

/// Adds one binary digit to the places of a codeword.
fn add_digit(cells: &Vec<usize>, codeword: u8, p: usize) -> (r: Vec<usize>)
    requires
        cells@.len() == 8,
        p <= 16384,
        forall|i: int| 0 <= i < 8 ==> #[trigger] cells@[i] < p,
    ensures
        r@.len() == 8,
        forall|i: int|
            0 <= i < 8 ==> #[trigger] r@[i] == cells@[i] + if bit_at(codeword, i) {
                p as int
            } else {
                0
            },
{
    let mut out: Vec<usize> = Vec::with_capacity(8);
    for i in 0..8
        invariant
            cells@.len() == 8,
            p <= 16384,
            forall|k: int| 0 <= k < 8 ==> #[trigger] cells@[k] < p,
            out@.len() == i,
            forall|k: int|
                0 <= k < i ==> #[trigger] out@[k] == cells@[k] + if bit_at(codeword, k) {
                    p as int
                } else {
                    0
                },
    {
        let was: usize = cells[i];
        out.push(
            if codeword_bit(codeword, i) {
                was + p
            } else {
                was
            },
        );
    }
    out
}

/// The digits of every codeword's places, with one more.
proof fn lemma_digits_grow(
    places: Seq<Seq<nat>>,
    n: int,
    plane: Seq<bool>,
    p: int,
    k: int,
    i: int,
)
    requires
        is_placement(places, n),
        p > 0,
        plane == Seq::new(n as nat, |m: int| (m / p) % 2 == 1),
        0 <= k < places.len(),
        0 <= i < 8,
    ensures
        places[k][i] as int % (2 * p) == places[k][i] as int % p + if bit_at(
            picked(plane, places)[k],
            i,
        ) {
            p
        } else {
            0
        },
{
    let m = places[k][i] as int;
    assert(places[k][i] < n);
    lemma_spelled_bit(plane, places[k], i);
    assert(picked(plane, places)[k] == spelled(plane, places[k]));
    lemma_next_digit(m, p);
    let d = (m / p) % 2;
    assert(p * d == if d == 1 {
        p
    } else {
        0
    }) by (nonlinear_arith)
        requires
            d == 0 || d == 1,
    ;
}

/// The modules of each codeword of a symbol.
///
/// The crate hands out codewords, not places. Reading symbols whose modules hold the binary digits of
/// their own places instead, one digit at a time, gives the places.
pub fn codeword_places(width: usize, height: usize) -> (r: Option<Vec<Vec<usize>>>)
    requires
        1 <= width <= LONGEST_SIDE,
        1 <= height <= LONGEST_SIDE,
    ensures
        r is Some <==> dm_places(width as nat, height as nat) is Some,
        r is Some ==> are_cells(dm_places(width as nat, height as nat)->0, r->0@),
        r is Some ==> is_placement(dm_places(width as nat, height as nat)->0, width * height),
{
    proof {
        assert(width * height <= 144 * 144 && 0 <= width * height) by (nonlinear_arith)
            requires
                1 <= width <= 144,
                1 <= height <= 144,
        ;
    }
    let n: usize = width * height;
    let ghost want = dm_places(width as nat, height as nat);
    let first = digit_plane(n, 1);
    let start = read_codewords(first.as_slice(), width, height)?;
    let ghost places = want->0;
    let mut cells: Vec<Vec<usize>> = Vec::with_capacity(start.len());
    for k in 0..start.len()
        invariant
            cells@.len() == k,
            forall|l: int| 0 <= l < k ==> (#[trigger] cells@[l])@.len() == 8,
            forall|l: int, i: int|
                #![trigger cells@[l]@[i]]
                0 <= l < k && 0 <= i < 8 ==> cells@[l]@[i] == 0,
    {
        let mut zeros: Vec<usize> = Vec::with_capacity(8);
        for i in 0..8
            invariant
                zeros@.len() == i,
                forall|j: int| 0 <= j < i ==> #[trigger] zeros@[j] == 0,
        {
            zeros.push(0);
        }
        cells.push(zeros);
    }
    let mut p: usize = 1;
    assert(holds_digits(places, cells@, 1)) by {
        assert forall|k: int, i: int|
            #![trigger cells@[k]@[i]]
            0 <= k < cells@.len() && 0 <= i < 8 implies cells@[k]@[i] == places[k][i] as int % 1 by {
            assert(places[k][i] as int % 1 == 0);
        }
    }
    let mut j: usize = 0;
    while j < 15
        invariant
            1 <= width <= LONGEST_SIDE,
            1 <= height <= LONGEST_SIDE,
            n == width * height,
            n <= 144 * 144,
            want == dm_places(width as nat, height as nat),
            want == Some(places),
            is_placement(places, n as int),
            j <= 15,
            p == power(j as nat),
            p <= 32768,
            j < 15 ==> p <= 16384,
            p > 0,
            holds_digits(places, cells@, p as int),
        decreases 15 - j,
    {
        let plane = digit_plane(n, p);
        let digits = read_codewords(plane.as_slice(), width, height)?;
        let mut next: Vec<Vec<usize>> = Vec::with_capacity(cells.len());
        for k in 0..cells.len()
            invariant
                n <= 144 * 144,
                is_placement(places, n as int),
                0 < p <= 16384,
                holds_digits(places, cells@, p as int),
                plane@ == Seq::new(n as nat, |m: int| (m / p as int) % 2 == 1),
                digits@ == picked(plane@, places),
                next@.len() == k,
                forall|l: int| 0 <= l < k ==> (#[trigger] next@[l])@.len() == 8,
                forall|l: int, i: int|
                    #![trigger next@[l]@[i]]
                    0 <= l < k && 0 <= i < 8 ==> next@[l]@[i] == places[l][i] as int % (2
                        * p as int),
        {
            proof {
                assert forall|i: int| 0 <= i < 8 implies #[trigger] cells@[k as int]@[i] < p by {
                    vstd::arithmetic::div_mod::lemma_mod_bound(
                        places[k as int][i] as int,
                        p as int,
                    );
                }
                assert(cells@[k as int]@.len() == 8);
            }
            let grown = add_digit(&cells[k], digits[k], p);
            proof {
                assert forall|i: int| 0 <= i < 8 implies #[trigger] grown@[i]
                    == places[k as int][i] as int % (2 * p as int) by {
                    lemma_digits_grow(places, n as int, plane@, p as int, k as int, i);
                    assert(cells@[k as int]@[i] == places[k as int][i] as int % p as int);
                }
            }
            next.push(grown);
        }
        proof {
            reveal_with_fuel(power, 16);
        }
        cells = next;
        p = 2 * p;
        j = j + 1;
    }
    proof {
        reveal_with_fuel(power, 16);
        assert(p == 32768);
        assert forall|k: int, i: int|
            #![trigger cells@[k]@[i]]
            0 <= k < cells@.len() && 0 <= i < 8 implies cells@[k]@[i] == places[k][i] by {
            assert(places[k][i] < n);
            vstd::arithmetic::div_mod::lemma_small_mod(places[k][i], 32768);
        }
    }
    Some(cells)
}

/// Whether `cells` holds a placement as machine numbers.
pub open spec fn are_cells(places: Seq<Seq<nat>>, cells: Seq<Vec<usize>>) -> bool {
    &&& cells.len() == places.len()
    &&& forall|k: int| 0 <= k < cells.len() ==> (#[trigger] cells[k])@.len() == 8
    &&& forall|k: int, i: int|
        #![trigger cells[k]@[i]]
        0 <= k < cells.len() && 0 <= i < 8 ==> cells[k]@[i] == places[k][i]
}

/// How many data codewords each block has, and the places of its codewords in the stream.
pub fn block_places(width: usize, height: usize, total: usize) -> (r: Option<
    Vec<(usize, Vec<usize>)>,
>)
    requires
        1 <= width <= LONGEST_SIDE,
        1 <= height <= LONGEST_SIDE,
        dm_places(width as nat, height as nat) is Some,
        total == dm_places(width as nat, height as nat)->0.len(),
        total <= 65536,
    ensures
        r is Some,
        blocks_tile(dm_blocks(width as nat, height as nat), total as int),
        are_places(dm_blocks(width as nat, height as nat), r->0@),
        leads_with_data(dm_blocks(width as nat, height as nat), total as int),
{
    let (low, high) = index_bytes(total);
    let lows = data_blocks(low.as_slice(), width, height)?;
    let highs = data_blocks(high.as_slice(), width, height)?;
    Some(
        join_places(
            lows.as_slice(),
            highs.as_slice(),
            total,
            Ghost(dm_blocks(width as nat, height as nat)),
            Ghost(low@),
            Ghost(high@),
        ),
    )
}

} // verus!
