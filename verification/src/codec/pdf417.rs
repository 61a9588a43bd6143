//! Locating PDF417 symbols, and the bar patterns of their codewords, with `rxing`.
use vstd::prelude::*;
use rxing::common::HybridBinarizer;
use rxing::pdf417::decoder::decoded_bit_stream_parser;
use rxing::pdf417::decoder::ec::error_correction;
use rxing::pdf417::detector::pdf_417_detector;
use rxing::pdf417::pdf_417_common::{CODEWORD_TABLE, SYMBOL_TABLE};
use rxing::{BinaryBitmap, DecodeHints, Luma8LuminanceSource};
use crate::codec::formats::{can_scan, is_scannable};

verus! {

/// How many codewords there are.
pub const CODEWORDS: usize = 929;

/// How many patterns there are: one for each codeword in each of three clusters.
pub const PATTERNS: usize = 2787;

/// The pattern in a place of the crate's table, as a number of seventeen bits.
pub uninterp spec fn pdf_symbol(place: nat) -> u32;

/// What the pattern in a place of the crate's table stands for: a codeword in a cluster, counted
/// through all clusters from one.
pub uninterp spec fn pdf_value(place: nat) -> u32;

/// Reads `rxing::pdf417::pdf_417_common::SYMBOL_TABLE`.
#[verifier::external_body]
pub(crate) fn symbol_at(place: usize) -> (r: u32)
    requires
        place < PATTERNS,
    ensures
        r == pdf_symbol(place as nat),
{
    SYMBOL_TABLE[place]
}

/// Reads `rxing::pdf417::pdf_417_common::CODEWORD_TABLE`.
///
/// Every pattern stands for a codeword in a cluster.
#[verifier::external_body]
pub(crate) fn value_at(place: usize) -> (r: u32)
    requires
        place < PATTERNS,
    ensures
        r == pdf_value(place as nat),
        1 <= r <= PATTERNS,
{
    CODEWORD_TABLE[place]
}

/// Whether a pattern stands for the codeword that a number counts, through all clusters from zero.
pub open spec fn stands_for(pattern: u32, number: int) -> bool {
    exists|place: nat|
        place < PATTERNS && #[trigger] pdf_value(place) == number + 1 && pdf_symbol(place)
            == pattern
}

/// Whether a pattern stands for a codeword in a cluster.
pub open spec fn is_pattern(cluster: int, codeword: int, pattern: u32) -> bool {
    stands_for(pattern, CODEWORDS * cluster + codeword)
}

/// Whether the patterns of the first places of the crate's table stand for different things.
pub open spec fn are_distinct(n: int) -> bool {
    &&& forall|q: nat| q < n ==> 1 <= #[trigger] pdf_value(q) <= PATTERNS
    &&& forall|q: nat, o: nat|
        #![trigger pdf_value(q), pdf_value(o)]
        q < n && o < n && pdf_value(q) == pdf_value(o) ==> q == o
}

/// Something stands for every codeword in every cluster: there are as many patterns.
proof fn lemma_every_codeword_has_a_pattern(number: int)
    requires
        are_distinct(PATTERNS as int),
        0 <= number < PATTERNS,
    ensures
        exists|place: nat| place < PATTERNS && #[trigger] pdf_value(place) == number + 1,
{
    let f = |i: int| pdf_value(i as nat) - 1;
    let all = vstd::set_lib::set_int_range(0, PATTERNS as int);
    vstd::set_lib::lemma_int_range(0, PATTERNS as int);
    assert forall|i: int, j: int| all.contains(i) && all.contains(j) && #[trigger] f(i)
        == #[trigger] f(j) implies i == j by {
        assert(pdf_value(i as nat) == pdf_value(j as nat));
    }
    vstd::set_lib::lemma_map_size(all, all.map(f), f);
    assert(all.map(f).subset_of(all)) by {
        assert forall|v: int| all.map(f).contains(v) implies all.contains(v) by {
            let i = choose|i: int| all.contains(i) && f(i) == v;
            assert(1 <= pdf_value(i as nat) <= PATTERNS);
        }
    }
    vstd::set_lib::lemma_subset_equality(all.map(f), all);
    assert(all.map(f).contains(number));
    let i = choose|i: int| all.contains(i) && f(i) == number;
    assert(pdf_value(i as nat) == number + 1);
}

/// Whether a table holds the pattern of every codeword in every cluster.
pub open spec fn is_table(table: Seq<u32>) -> bool {
    &&& table.len() == PATTERNS
    &&& forall|v: int| 0 <= v < PATTERNS ==> stands_for(#[trigger] table[v], v)
}

/// The patterns in the order of what they stand for; none, if the crate's table gave two patterns to one
/// codeword in one cluster.
pub fn pattern_table() -> (r: Option<Vec<u32>>)
    ensures
        r is Some <==> are_distinct(PATTERNS as int),
        r is Some ==> is_table(r->0@),
{
    let mut table: Vec<u32> = Vec::with_capacity(PATTERNS);
    let mut filled: Vec<bool> = Vec::with_capacity(PATTERNS);
    for v in 0..PATTERNS
        invariant
            table@.len() == v,
            filled@.len() == v,
            forall|k: int| 0 <= k < v ==> !#[trigger] filled@[k],
    {
        table.push(0);
        filled.push(false);
    }
    let mut place: usize = 0;
    while place < PATTERNS
        invariant
            place <= PATTERNS,
            table@.len() == PATTERNS,
            filled@.len() == PATTERNS,
            are_distinct(place as int),
            forall|q: nat|
                q < place ==> table@[#[trigger] pdf_value(q) - 1] == pdf_symbol(q),
            forall|q: nat| q < place ==> filled@[#[trigger] pdf_value(q) - 1],
            forall|v: int|
                0 <= v < PATTERNS && #[trigger] filled@[v] ==> exists|q: nat|
                    q < place && #[trigger] pdf_value(q) == v + 1,
        decreases PATTERNS - place,
    {
        let value: u32 = value_at(place);
        let symbol: u32 = symbol_at(place);
        let v: usize = value as usize - 1;
        if filled[v] {
            proof {
                let q = choose|q: nat| q < place && #[trigger] pdf_value(q) == v + 1;
                assert(pdf_value(q) == pdf_value(place as nat));
            }
            return None;
        }
        let ghost was = filled@;
        table.set(v, symbol);
        filled.set(v, true);
        proof {
            assert forall|u: int| 0 <= u < PATTERNS && #[trigger] filled@[u] implies exists|q: nat|
                q < place + 1 && #[trigger] pdf_value(q) == u + 1 by {
                if u == v {
                    assert(pdf_value(place as nat) == u + 1);
                } else {
                    assert(was[u]);
                }
            }
        }
        place = place + 1;
    }
    proof {
        assert forall|v: int| 0 <= v < PATTERNS implies stands_for(#[trigger] table@[v], v) by {
            lemma_every_codeword_has_a_pattern(v);
            let q = choose|q: nat| q < PATTERNS && #[trigger] pdf_value(q) == v + 1;
            assert(table@[pdf_value(q) - 1] == pdf_symbol(q));
        }
    }
    Some(table)
}

// ---- locating ----
/// What the detector finds first in an image: the black-and-white image, turned upright, by its width,
/// its height and its pixels, and the corners of the symbol in it.
pub uninterp spec fn pdf_located(luma: Seq<u8>, width: u32, height: u32) -> Option<
    (nat, nat, Seq<bool>, Seq<Option<(u32, u32)>>),
>;

/// A symbol in a black-and-white image, `true` for dark.
///
/// Four corners of the symbol, then four of the area of its codewords: at the top left, the bottom
/// left, the top right and the bottom right. One that was not found is missing.
#[derive(Clone, Debug)]
pub struct Located {
    pub width: usize,
    pub height: usize,
    pub pixels: Vec<bool>,
    pub corners: Vec<Option<(u32, u32)>>,
}

/// Whether this is the symbol that was found.
pub open spec fn is_located(
    found: (nat, nat, Seq<bool>, Seq<Option<(u32, u32)>>),
    symbol: Located,
) -> bool {
    &&& symbol.width == found.0
    &&& symbol.height == found.1
    &&& symbol.pixels@ == found.2
    &&& symbol.corners@ == found.3
}

/// Calls `rxing::pdf417::detector::pdf_417_detector::detect_with_hints` on the image as
/// `HybridBinarizer` sees it, for one symbol, and takes it.
///
/// The detector counts pixels, so that the coordinates it hands out are whole numbers. A symbol has
/// eight corners, found or not. An image whose length is not the product of its sides holds nothing.
#[verifier::external_body]
pub(crate) fn locate(luma: &[u8], width: u32, height: u32) -> (r: Option<Located>)
    requires
        is_scannable(width, height),
    ensures
        r is Some <==> pdf_located(luma@, width, height) is Some,
        r is Some ==> is_located(pdf_located(luma@, width, height)->0, r->0),
        r is Some ==> r->0.corners@.len() == 8,
        luma@.len() != width * height ==> r is None,
{
    let source = Luma8LuminanceSource::new(luma.to_vec(), width, height).ok()?;
    let mut bitmap = BinaryBitmap::new(HybridBinarizer::new(source));
    let found = pdf_417_detector::detect_with_hints(&mut bitmap, &DecodeHints::default(), false).ok()?;
    let corners = found.getPoints().first()?;
    Some(Located {
        width: found.getBits().getWidth() as usize,
        height: found.getBits().getHeight() as usize,
        pixels: Vec::<bool>::from(found.getBits()),
        corners: corners.iter().map(|p| p.map(|p| (p.x as u32, p.y as u32))).collect(),
    })
}

/// What is found in an image: what the detector finds, and nothing where the image is too large.
pub open spec fn pdf_found(luma: Seq<u8>, width: u32, height: u32) -> Option<
    (nat, nat, Seq<bool>, Seq<Option<(u32, u32)>>),
> {
    if is_scannable(width, height) {
        pdf_located(luma, width, height)
    } else {
        None
    }
}

/// Finds a symbol in an image.
pub(crate) fn find(luma: &[u8], width: u32, height: u32) -> (r: Option<Located>)
    ensures
        r is Some <==> pdf_found(luma@, width, height) is Some,
        r is Some ==> is_located(pdf_found(luma@, width, height)->0, r->0),
        r is Some ==> r->0.corners@.len() == 8,
        luma@.len() != width * height ==> r is None,
{
    if !can_scan(width, height) {
        return None;
    }
    locate(luma, width, height)
}

// ---- codewords ----
/// The most codewords that a symbol has.
pub const MOST_CODEWORDS: usize = 928;

/// What correcting codewords comes to, of which so many are for that, with these places erased.
pub uninterp spec fn pdf_corrected(received: Seq<u32>, ecc: nat, erasures: Seq<u32>) -> Option<
    Seq<u32>,
>;

/// The text of codewords.
pub uninterp spec fn pdf_text(codewords: Seq<u32>) -> Option<Seq<char>>;

/// Whether these are codewords.
pub open spec fn are_codewords(codewords: Seq<u32>) -> bool {
    forall|k: int| 0 <= k < codewords.len() ==> #[trigger] codewords[k] < CODEWORDS
}

/// Calls `rxing::pdf417::decoder::ec::error_correction::decode`.
///
/// The corrected codewords are as many. They are numbers of the field, in which every place of a symbol has
/// a power of its own.
#[verifier::external_body]
pub(crate) fn correct(received: &[u32], ecc: u32, erasures: &[u32]) -> (r: Option<Vec<u32>>)
    requires
        1 <= received@.len() <= MOST_CODEWORDS,
        are_codewords(received@),
        2 <= ecc <= 512,
        forall|k: int| 0 <= k < erasures@.len() ==> #[trigger] erasures@[k] < received@.len(),
    ensures
        r is Some <==> pdf_corrected(received@, ecc as nat, erasures@) is Some,
        r is Some ==> pdf_corrected(received@, ecc as nat, erasures@) == Some(r->0@),
        r is Some ==> r->0@.len() == received@.len() && are_codewords(r->0@),
{
    let (mut codewords, mut lost) = (received.to_vec(), erasures.to_vec());
    error_correction::decode(&mut codewords, ecc, &mut lost).ok()?;
    Some(codewords)
}

/// Calls `rxing::pdf417::decoder::decoded_bit_stream_parser::decode` and takes the text.
///
/// The error-correction level, which the parser is handed too, it only passes on.
#[verifier::external_body]
pub(crate) fn parse_text(codewords: &[u32], ec_level: u32) -> (r: Option<String>)
    requires
        are_codewords(codewords@),
    ensures
        r is Some <==> pdf_text(codewords@) is Some,
        r is Some ==> pdf_text(codewords@) == Some(r->0@),
{
    let read = decoded_bit_stream_parser::decode(codewords, &ec_level.to_string()).ok()?;
    Some(read.getText().to_string())
}

} // verus!
