//! Scanning an image for symbols of any format, as a stock reader does.
//!
//! The readers are asked in turn, and the first that reads something is believed. Where a reader comes in
//! parts, a detector, a corrector and a parser, the parts are put together here: the parser is not shown
//! streams that it is not for.
use vstd::prelude::*;
use vstd::string::*;
use crate::clean::blocks::{block_word, Code};
use crate::clean::qr::{transpose, transposed};
use crate::codec::aztec::{az_found, az_text};
use crate::codec::blocks::{
    are_places, blocks_tile, count_data, data_count, is_placed, leads_with_data,
};
use crate::codec::datamatrix::{
    corner, dm_blocks, dm_cornered, dm_places, dm_traced, picked, samples_of, trace, Sampled, LONGEST_SIDE,
};
use crate::codec::datamatrix_text::dm_message;
use crate::codec::formats::{can_scan, is_scannable, reading_of, Scan};
use crate::codec::pdf417_fit::{check_room, fits_reader};
use crate::codec::qr::{
    grid_rows, lemma_codeword_count, qr_blocks, qr_codewords, qr_format, qr_found, qr_version,
    read_format, read_version, to_rows,
};
use crate::codec::qr_text::qr_message;
use crate::codec::readers::{
    bars_reading, is_image, patterns_reading, read_bars, read_patterns, read_rows, rows_may_read, said,
    LONGEST_PATTERN,
};
use crate::codec::{aztec, datamatrix, datamatrix_text, pdf417, qr, qr_text};
use crate::Symbology;

verus! {

// ---- words ----
/// What plain decoding makes of a block of a stream.
pub open spec fn plain_word(code: Code, raw: Seq<u8>, block: (nat, Seq<nat>)) -> Option<Seq<u8>> {
    code.corrected(block_word(raw, block), (block.1.len() - block.0) as nat)
}

/// Whether plain decoding makes something of the first `n` blocks of a stream.
pub open spec fn decode_plainly(
    code: Code,
    raw: Seq<u8>,
    blocks: Seq<(nat, Seq<nat>)>,
    n: int,
) -> bool {
    forall|b: int| 0 <= b < n ==> #[trigger] plain_word(code, raw, blocks[b]) is Some
}

/// The received codewords of a block.
fn word_of(raw: &[u8], places: &[usize], Ghost(block): Ghost<(nat, Seq<nat>)>) -> (r: Vec<u8>)
    requires
        places@.len() == block.1.len(),
        forall|i: int| 0 <= i < places@.len() ==> #[trigger] places@[i] == block.1[i],
        forall|i: int| 0 <= i < block.1.len() ==> #[trigger] block.1[i] < raw@.len(),
    ensures
        r@ == block_word(raw@, block),
{
    let mut out: Vec<u8> = Vec::new();
    for i in 0..places.len()
        invariant
            places@.len() == block.1.len(),
            forall|i: int| 0 <= i < places@.len() ==> #[trigger] places@[i] == block.1[i],
            forall|i: int| 0 <= i < block.1.len() ==> #[trigger] block.1[i] < raw@.len(),
            out@.len() == i,
            forall|k: int| 0 <= k < i ==> #[trigger] out@[k] == raw@[block.1[k] as int],
    {
        assert(places@[i as int] == block.1[i as int]);
        out.push(raw[places[i]]);
    }
    assert(out@ =~= block_word(raw@, block));
    out
}

/// Decodes the blocks of a stream plainly.
fn decode_words(
    code: Code,
    raw: &[u8],
    places: &[(usize, Vec<usize>)],
    Ghost(blocks): Ghost<Seq<(nat, Seq<nat>)>>,
) -> (r: Option<Vec<Vec<u8>>>)
    requires
        blocks_tile(blocks, raw@.len() as int),
        are_places(blocks, places@),
    ensures
        r is Some <==> decode_plainly(code, raw@, blocks, blocks.len() as int),
        r is Some ==> r->0@.len() == blocks.len(),
        r is Some ==> forall|b: int|
            0 <= b < blocks.len() ==> plain_word(code, raw@, blocks[b]) == Some(
                (#[trigger] r->0@[b])@,
            ) && r->0@[b]@.len() == blocks[b].1.len(),
{
    let mut out: Vec<Vec<u8>> = Vec::new();
    for b in 0..places.len()
        invariant
            blocks_tile(blocks, raw@.len() as int),
            are_places(blocks, places@),
            out@.len() == b,
            forall|k: int|
                0 <= k < b ==> plain_word(code, raw@, blocks[k]) == Some((#[trigger] out@[k])@)
                    && out@[k]@.len() == blocks[k].1.len(),
    {
        let ghost block = blocks[b as int];
        let (data, own) = (places[b].0, &places[b].1);
        proof {
            assert(places@[b as int].0 == block.0);
            assert forall|i: int| 0 <= i < own@.len() implies #[trigger] own@[i] == block.1[i] by {
                assert(places@[b as int].1@[i] == blocks[b as int].1[i]);
            }
            assert forall|i: int| 0 <= i < block.1.len() implies #[trigger] block.1[i]
                < raw@.len() by {
                assert(blocks[b as int].1[i] < raw@.len());
            }
        }
        let word = word_of(raw, own.as_slice(), Ghost(block));
        let ecc: usize = word.len() - data;
        let corrected = match code {
            Code::Qr => qr::correct(word.as_slice(), ecc),
            Code::DataMatrix => datamatrix::correct(word.as_slice(), ecc),
        };
        match corrected {
            Some(corrected) => {
                out.push(corrected);
            },
            None => {
                assert(plain_word(code, raw@, blocks[b as int]) is None);
                return None;
            },
        }
    }
    proof {
        assert forall|b: int| 0 <= b < blocks.len() implies #[trigger] plain_word(
            code,
            raw@,
            blocks[b],
        ) is Some by {
            assert(plain_word(code, raw@, blocks[b]) == Some(out@[b]@));
        }
    }
    Some(out)
}

// ---- QR ----
/// The data codewords of the first `n` blocks, one block after the other.
pub open spec fn joined(code: Code, raw: Seq<u8>, blocks: Seq<(nat, Seq<nat>)>, n: int) -> Seq<u8>
    decreases n,
{
    if n <= 0 {
        Seq::empty()
    } else {
        joined(code, raw, blocks, n - 1) + plain_word(code, raw, blocks[n - 1])->0.take(
            blocks[n - 1].0 as int,
        )
    }
}

/// The text of the rows of a QR symbol, read plainly.
pub open spec fn qr_plain_text(rows: Seq<Seq<bool>>) -> Option<Seq<char>> {
    match (qr_version(rows), qr_format(rows), qr_codewords(rows)) {
        (Some(version), Some((ec, _)), Some(raw)) => {
            let blocks = qr_blocks(version, ec);
            if decode_plainly(Code::Qr, raw, blocks, blocks.len() as int) {
                qr_message(joined(Code::Qr, raw, blocks, blocks.len() as int), version, ec)
            } else {
                None
            }
        },
        _ => None,
    }
}

fn read_qr_once(modules: &[bool], dimension: usize) -> (r: Option<String>)
    requires
        modules@.len() == dimension * dimension,
        21 <= dimension <= 177,
        dimension % 4 == 1,
    ensures
        said(r) == qr_plain_text(grid_rows(modules@, dimension as nat)),
{
    let rows = to_rows(modules, dimension);
    let version: u32 = read_version(rows.as_slice())?;
    let (ec, _): (u8, u8) = read_format(rows.as_slice())?;
    let raw: Vec<u8> = qr::read_codewords(rows.as_slice())?;
    proof {
        lemma_codeword_count(version as int);
    }
    let ghost blocks = qr_blocks(version, ec);
    let places: Vec<(usize, Vec<usize>)> = qr::block_places(version, ec, raw.len())?;
    let words = decode_words(Code::Qr, raw.as_slice(), places.as_slice(), Ghost(blocks))?;
    let mut data: Vec<u8> = Vec::new();
    for b in 0..words.len()
        invariant
            blocks_tile(blocks, raw@.len() as int),
            are_places(blocks, places@),
            words@.len() == blocks.len(),
            forall|b: int|
                0 <= b < blocks.len() ==> plain_word(Code::Qr, raw@, blocks[b]) == Some(
                    (#[trigger] words@[b])@,
                ) && words@[b]@.len() == blocks[b].1.len(),
            data@ == joined(Code::Qr, raw@, blocks, b as int),
    {
        let ghost had = data@;
        let count: usize = places[b].0;
        let word = &words[b];
        proof {
            assert(places@[b as int].0 == blocks[b as int].0);
            assert(words@[b as int]@.len() == blocks[b as int].1.len());
        }
        for i in 0..count
            invariant
                count <= word@.len(),
                data@ == had + word@.take(i as int),
        {
            data.push(word[i]);
            assert(data@ =~= had + word@.take(i + 1));
        }
        proof {
            assert(plain_word(Code::Qr, raw@, blocks[b as int]) == Some(words@[b as int]@));
        }
    }
    qr_text::read_message(data.as_slice(), version, ec)
}

/// The text of the QR symbol in an image, read plainly, as it stands or else mirrored.
pub open spec fn qr_reading(luma: Seq<u8>, width: u32, height: u32) -> Option<Seq<char>> {
    match qr_found(luma, width, height) {
        Some((d, modules, _)) => match qr_plain_text(grid_rows(modules, d)) {
            Some(text) => Some(text),
            None => qr_plain_text(grid_rows(transposed(modules, d as int), d)),
        },
        None => None,
    }
}

fn read_qr(luma: &[u8], width: u32, height: u32) -> (r: Option<String>)
    ensures
        said(r) == qr_reading(luma@, width, height),
{
    let found = qr::find(luma, width, height)?;
    match read_qr_once(found.modules.as_slice(), found.dimension) {
        Some(text) => Some(text),
        None => {
            let mirrored = transpose(found.modules.as_slice(), found.dimension);
            read_qr_once(mirrored.as_slice(), found.dimension)
        },
    }
}

// ---- DataMatrix ----
/// The first `total` codewords of a stream, as plain decoding makes them.
pub open spec fn gathered(
    code: Code,
    raw: Seq<u8>,
    blocks: Seq<(nat, Seq<nat>)>,
    total: nat,
) -> Seq<u8> {
    Seq::new(
        total,
        |g: int|
            {
                let (b, i) = choose|b: int, i: int|
                    0 <= b < blocks.len() && 0 <= i < blocks[b].1.len() && #[trigger] blocks[b].1[i]
                        == g;
                plain_word(code, raw, blocks[b])->0[i]
            },
    )
}

/// The text of the modules of a DataMatrix symbol, read plainly.
pub open spec fn dm_plain_text(width: nat, height: nat, modules: Seq<bool>) -> Option<Seq<char>> {
    match dm_places(width, height) {
        Some(places) if 1 <= width <= LONGEST_SIDE && 1 <= height <= LONGEST_SIDE => {
            let raw = picked(modules, places);
            let blocks = dm_blocks(width, height);
            if decode_plainly(Code::DataMatrix, raw, blocks, blocks.len() as int) {
                dm_message(
                    gathered(Code::DataMatrix, raw, blocks, data_count(blocks, blocks.len())),
                )
            } else {
                None
            }
        },
        _ => None,
    }
}

/// The modules of a rectangle about its other diagonal.
pub open spec fn flipped(width: nat, height: nat, modules: Seq<bool>) -> Seq<bool> {
    Seq::new(
        height * width,
        |i: int|
            modules[(height - 1 - i % height as int) * width + (width - 1 - i / height as int)],
    )
}

/// The text of a sampled rectangle, read plainly, as it stands or else flipped.
pub open spec fn dm_sample_text(sample: (nat, nat, Seq<bool>)) -> Option<Seq<char>> {
    let (width, height, modules) = sample;
    if !(1 <= width <= LONGEST_SIDE && 1 <= height <= LONGEST_SIDE) {
        None
    } else {
        match dm_plain_text(width, height, modules) {
            Some(text) => Some(text),
            None => dm_plain_text(height, width, flipped(width, height, modules)),
        }
    }
}

/// The text of the first of some rectangles that has one.
pub open spec fn first_text(samples: Seq<(nat, nat, Seq<bool>)>) -> Option<Seq<char>>
    decreases samples.len(),
{
    if samples.len() == 0 {
        None
    } else {
        match dm_sample_text(samples[0]) {
            Some(text) => Some(text),
            None => first_text(samples.skip(1)),
        }
    }
}

/// The text of the DataMatrix symbol in an image, read plainly.
pub open spec fn dm_reading(luma: Seq<u8>, width: u32, height: u32) -> Option<Seq<char>> {
    if !is_scannable(width, height) {
        None
    } else {
        match first_text(dm_traced(luma, width, height)) {
            Some(text) => Some(text),
            None => match dm_cornered(luma, width, height) {
                Some(sample) => dm_sample_text(sample),
                None => None,
            },
        }
    }
}

/// A place that several blocks might hold is held by one codeword of one block.
proof fn lemma_gathered(
    code: Code,
    raw: Seq<u8>,
    blocks: Seq<(nat, Seq<nat>)>,
    total: nat,
    b: int,
    i: int,
)
    requires
        blocks_tile(blocks, raw.len() as int),
        0 <= b < blocks.len(),
        0 <= i < blocks[b].1.len(),
        blocks[b].1[i] < total,
    ensures
        gathered(code, raw, blocks, total)[blocks[b].1[i] as int] == plain_word(
            code,
            raw,
            blocks[b],
        )->0[i],
{
    let g = blocks[b].1[i] as int;
    let (c, j) = choose|c: int, j: int|
        0 <= c < blocks.len() && 0 <= j < blocks[c].1.len() && #[trigger] blocks[c].1[j] == g;
    assert(blocks[c].1[j] == g);
    assert(b == c && i == j);
}

fn gather(
    words: &[Vec<u8>],
    places: &[(usize, Vec<usize>)],
    total: usize,
    Ghost(raw): Ghost<Seq<u8>>,
    Ghost(blocks): Ghost<Seq<(nat, Seq<nat>)>>,
) -> (r: Vec<u8>)
    requires
        blocks_tile(blocks, raw.len() as int),
        are_places(blocks, places@),
        leads_with_data(blocks, raw.len() as int),
        total == data_count(blocks, blocks.len()),
        words@.len() == blocks.len(),
        forall|b: int|
            0 <= b < blocks.len() ==> plain_word(Code::DataMatrix, raw, blocks[b]) == Some(
                (#[trigger] words@[b])@,
            ) && words@[b]@.len() == blocks[b].1.len(),
    ensures
        r@ == gathered(Code::DataMatrix, raw, blocks, total as nat),
{
    let mut out: Vec<u8> = Vec::new();
    for g in 0..total
        invariant
            out@.len() == g,
    {
        out.push(0);
    }
    for b in 0..words.len()
        invariant
            blocks_tile(blocks, raw.len() as int),
            are_places(blocks, places@),
            leads_with_data(blocks, raw.len() as int),
            total == data_count(blocks, blocks.len()),
            words@.len() == blocks.len(),
            forall|b: int|
                0 <= b < blocks.len() ==> plain_word(Code::DataMatrix, raw, blocks[b]) == Some(
                    (#[trigger] words@[b])@,
                ) && words@[b]@.len() == blocks[b].1.len(),
            out@.len() == total,
            forall|c: int, i: int|
                #![trigger blocks[c].1[i]]
                0 <= c < b && 0 <= i < blocks[c].0 ==> out@[blocks[c].1[i] as int] == words@[c]@[i],
    {
        let count: usize = places[b].0;
        let own = &places[b].1;
        let word = &words[b];
        proof {
            assert(places@[b as int].0 == blocks[b as int].0);
            assert(blocks[b as int].0 <= blocks[b as int].1.len());
            assert(words@[b as int]@.len() == blocks[b as int].1.len());
        }
        for i in 0..count
            invariant
                0 <= b < words@.len(),
                blocks_tile(blocks, raw.len() as int),
                are_places(blocks, places@),
                leads_with_data(blocks, raw.len() as int),
                total == data_count(blocks, blocks.len()),
                words@.len() == blocks.len(),
                count == blocks[b as int].0,
                count <= blocks[b as int].1.len(),
                own == places@[b as int].1,
                word@ == words@[b as int]@,
                word@.len() == blocks[b as int].1.len(),
                out@.len() == total,
                forall|c: int, k: int|
                    #![trigger blocks[c].1[k]]
                    (0 <= c < b && 0 <= k < blocks[c].0 || c == b && 0 <= k < i)
                        ==> out@[blocks[c].1[k] as int] == words@[c]@[k],
        {
            let ghost had = out@;
            proof {
                assert(places@[b as int].1@.len() == blocks[b as int].1.len());
                assert(places@[b as int].1@[i as int] == blocks[b as int].1[i as int]);
                assert(blocks[b as int].1[i as int] < total);
            }
            out.set(own[i], word[i]);
            proof {
                let g = blocks[b as int].1[i as int] as int;
                assert forall|c: int, k: int|
                    #![trigger blocks[c].1[k]]
                    (0 <= c < b && 0 <= k < blocks[c].0 || c == b && 0 <= k < i + 1) implies out@[
                blocks[c].1[k] as int] == words@[c]@[k] by {
                    assert(blocks[c].0 <= blocks[c].1.len());
                    if blocks[c].1[k] == g {
                        assert(c == b && k == i);
                    } else {
                        assert(out@[blocks[c].1[k] as int] == had[blocks[c].1[k] as int]);
                    }
                }
            }
        }
    }
    proof {
        assert forall|g: int| 0 <= g < total implies out@[g] == gathered(
            Code::DataMatrix,
            raw,
            blocks,
            total as nat,
        )[g] by {
            assert(is_placed(blocks, g));
            let (b, i) = choose|b: int, i: int|
                #![trigger blocks[b].1[i]]
                0 <= b < blocks.len() && 0 <= i < blocks[b].1.len() && blocks[b].1[i] == g;
            assert(blocks[b].1[i] == g);
            lemma_gathered(Code::DataMatrix, raw, blocks, total as nat, b, i);
            assert(i < blocks[b].0);
            assert(plain_word(Code::DataMatrix, raw, blocks[b]) == Some(words@[b]@));
        }
        assert(out@ =~= gathered(Code::DataMatrix, raw, blocks, total as nat));
    }
    out
}

fn read_datamatrix_once(modules: &[bool], width: usize, height: usize) -> (r: Option<String>)
    requires
        1 <= width <= LONGEST_SIDE,
        1 <= height <= LONGEST_SIDE,
        modules@.len() == width * height,
    ensures
        said(r) == dm_plain_text(width as nat, height as nat, modules@),
{
    let raw: Vec<u8> = datamatrix::read_codewords(modules, width, height)?;
    proof {
        assert(width * height <= 144 * 144 && 0 <= width * height) by (nonlinear_arith)
            requires
                1 <= width <= 144,
                1 <= height <= 144,
        ;
    }
    let ghost blocks = dm_blocks(width as nat, height as nat);
    let places: Vec<(usize, Vec<usize>)> = datamatrix::block_places(width, height, raw.len())?;
    let words = decode_words(Code::DataMatrix, raw.as_slice(), places.as_slice(), Ghost(blocks))?;
    let total: usize = count_data(places.as_slice(), raw.len(), Ghost(blocks));
    let data = gather(words.as_slice(), places.as_slice(), total, Ghost(raw@), Ghost(blocks));
    datamatrix_text::read_message(data.as_slice())
}

fn flip(modules: &[bool], width: usize, height: usize) -> (r: Vec<bool>)
    requires
        1 <= width <= LONGEST_SIDE,
        1 <= height <= LONGEST_SIDE,
        modules@.len() == width * height,
    ensures
        r@ == flipped(width as nat, height as nat, modules@),
        r@.len() == height * width,
{
    let mut out: Vec<bool> = Vec::new();
    let mut y: usize = 0;
    proof {
        assert(height * 0 == 0);
    }
    while y < width
        invariant
            1 <= width <= LONGEST_SIDE,
            1 <= height <= LONGEST_SIDE,
            modules@.len() == width * height,
            y <= width,
            out@.len() == height * y,
            forall|i: int|
                0 <= i < out@.len() ==> #[trigger] out@[i] == modules@[(height - 1 - i
                    % height as int) * width + (width - 1 - i / height as int)],
        decreases width - y,
    {
        let mut x: usize = 0;
        while x < height
            invariant
                1 <= width <= LONGEST_SIDE,
                1 <= height <= LONGEST_SIDE,
                modules@.len() == width * height,
                y < width,
                x <= height,
                out@.len() == height * y + x,
                forall|i: int|
                    0 <= i < out@.len() ==> #[trigger] out@[i] == modules@[(height - 1 - i
                        % height as int) * width + (width - 1 - i / height as int)],
            decreases height - x,
        {
            proof {
                let row = height - 1 - x;
                let column = width - 1 - y;
                assert(0 <= row * width + column < width * height) by (nonlinear_arith)
                    requires
                        0 <= row < height,
                        0 <= column < width,
                ;
                assert(row * width <= 144 * 144) by (nonlinear_arith)
                    requires
                        0 <= row < 144,
                        0 <= width <= 144,
                ;
                vstd::arithmetic::div_mod::lemma_fundamental_div_mod_converse(
                    height * y + x,
                    height as int,
                    y as int,
                    x as int,
                );
            }
            out.push(modules[(height - 1 - x) * width + (width - 1 - y)]);
            x = x + 1;
        }
        y = y + 1;
        proof {
            assert(height * y == height * (y - 1) + height) by (nonlinear_arith);
        }
    }
    assert(out@ =~= flipped(width as nat, height as nat, modules@));
    out
}

fn read_sample(sample: &Sampled) -> (r: Option<String>)
    requires
        sample.modules@.len() == sample.width * sample.height,
    ensures
        said(r) == dm_sample_text(
            (sample.width as nat, sample.height as nat, sample.modules@),
        ),
{
    let (w, h): (usize, usize) = (sample.width, sample.height);
    if w < 1 || w > LONGEST_SIDE || h < 1 || h > LONGEST_SIDE {
        return None;
    }
    match read_datamatrix_once(sample.modules.as_slice(), w, h) {
        Some(text) => Some(text),
        None => {
            let other = flip(sample.modules.as_slice(), w, h);
            read_datamatrix_once(other.as_slice(), h, w)
        },
    }
}

fn read_datamatrix(luma: &[u8], width: u32, height: u32) -> (r: Option<String>)
    ensures
        said(r) == dm_reading(luma@, width, height),
{
    if !can_scan(width, height) {
        return None;
    }
    let ghost traced = dm_traced(luma@, width, height);
    if let Some(found) = trace(luma, width, height) {
        let mut k: usize = 0;
        assert(traced.skip(0) =~= traced);
        while k < found.len()
            invariant
                k <= found@.len(),
                samples_of(found@) == traced,
                forall|k: int|
                    0 <= k < found@.len() ==> (#[trigger] found@[k]).modules@.len()
                        == found@[k].width * found@[k].height,
                is_scannable(width, height),
                traced == dm_traced(luma@, width, height),
                first_text(traced) == first_text(traced.skip(k as int)),
            decreases found@.len() - k,
        {
            let text = read_sample(&found[k]);
            proof {
                let rest = traced.skip(k as int);
                assert(rest[0] == (
                    found@[k as int].width as nat,
                    found@[k as int].height as nat,
                    found@[k as int].modules@,
                ));
                assert(rest.skip(1) =~= traced.skip(k + 1));
            }
            if text.is_some() {
                return text;
            }
            k = k + 1;
        }
    }
    let sample = corner(luma, width, height)?;
    read_sample(&sample)
}

// ---- Aztec ----
/// The text of the Aztec symbol in an image.
pub open spec fn az_reading(luma: Seq<u8>, width: u32, height: u32) -> Option<Seq<char>> {
    match az_found(luma, width, height) {
        Some((compact, layers, data_words, modules)) => az_text(
            compact,
            layers,
            data_words,
            modules,
        ),
        None => None,
    }
}

// ---- any format ----
/// What a text in a symbology reads as.
pub open spec fn reads_as(
    symbology: nat,
    text: Seq<char>,
    format: Seq<char>,
) -> Option<(nat, Seq<char>, Seq<char>)> {
    Some((symbology, text, format))
}

/// What the reader of patterns makes of an image that is not too large for it.
pub open spec fn patterns_found(luma: Seq<u8>, width: u32, height: u32) -> Option<
    (nat, Seq<char>, Seq<char>),
> {
    if width <= LONGEST_PATTERN && height <= LONGEST_PATTERN {
        patterns_reading(luma, width, height)
    } else {
        None
    }
}

/// Whether this is among the texts that the rows of an image may be read as: those that the reader may make
/// of it, and none where a symbol claims to have more codewords than the reader has room for.
pub open spec fn rows_may_say(
    luma: Seq<u8>,
    width: u32,
    height: u32,
    text: Option<Seq<char>>,
) -> bool {
    if fits_reader(luma, width, height) {
        rows_may_read(luma, width, height, text)
    } else {
        text is None
    }
}

/// Reads the rows of an image.
fn read_claimed_rows(luma: &[u8], width: u32, height: u32) -> (r: Option<String>)
    requires
        is_image(luma@, width, height),
        is_scannable(width, height),
    ensures
        rows_may_say(luma@, width, height, said(r)),
{
    if let Some(symbol) = pdf417::find(luma, width, height) {
        if !check_room(&symbol) {
            return None;
        }
    }
    read_rows(luma, width, height)
}

/// Whether this is among the things that reading the rows of an image may come to, and its bars where the
/// rows say nothing.
pub open spec fn rest_may_be_read(
    luma: Seq<u8>,
    width: u32,
    height: u32,
    reading: Option<(nat, Seq<char>, Seq<char>)>,
) -> bool {
    if !is_scannable(width, height) {
        reading is None
    } else {
        exists|text: Option<Seq<char>>| #[trigger]
            rows_may_say(luma, width, height, text) && reading == match text {
                Some(text) => reads_as(2, text, "PDF_417"@),
                None => bars_reading(luma, width, height),
            }
    }
}

/// Whether this is among the things that reading an image may come to.
///
/// QR codes come first, then DataMatrix, Aztec, PDF417 and bars. An image without pixels, or with another
/// number of them than its sides say, holds nothing; nor does what is too large for every reader.
pub open spec fn may_be_read(
    luma: Seq<u8>,
    width: u32,
    height: u32,
    reading: Option<(nat, Seq<char>, Seq<char>)>,
) -> bool {
    if !is_image(luma, width, height) {
        reading is None
    } else if patterns_found(luma, width, height) is Some {
        reading == patterns_found(luma, width, height)
    } else if let Some(text) = qr_reading(luma, width, height) {
        reading == reads_as(0, text, "QR_CODE"@)
    } else if let Some(text) = dm_reading(luma, width, height) {
        reading == reads_as(3, text, "DATA_MATRIX"@)
    } else if let Some(text) = az_reading(luma, width, height) {
        reading == reads_as(1, text, "AZTEC"@)
    } else {
        rest_may_be_read(luma, width, height, reading)
    }
}

/// Reads an image.
pub(crate) fn read_image(luma: &[u8], width: u32, height: u32) -> (r: Option<Scan>)
    ensures
        may_be_read(luma@, width, height, reading_of(r)),
        width == 0 || height == 0 || luma@.len() != width * height ==> r is None,
{
    proof {
        assert(0 <= width * height <= 0xffff_ffff * 0xffff_ffff) by (nonlinear_arith)
            requires
                0 <= width <= 0xffff_ffff,
                0 <= height <= 0xffff_ffff,
        ;
    }
    if width == 0 || height == 0 || luma.len() as u64 != width as u64 * height as u64 {
        return None;
    }
    if width <= LONGEST_PATTERN && height <= LONGEST_PATTERN {
        let scanned = read_patterns(luma, width, height);
        if scanned.is_some() {
            return scanned;
        }
    }
    if let Some(payload) = read_qr(luma, width, height) {
        return Some(
            Scan { symbology: Some(Symbology::QrCode), payload, format: String::from_str("QR_CODE") },
        );
    }
    if let Some(payload) = read_datamatrix(luma, width, height) {
        return Some(
            Scan {
                symbology: Some(Symbology::DataMatrix),
                payload,
                format: String::from_str("DATA_MATRIX"),
            },
        );
    }
    if let Some((_, Some(payload))) = aztec::find(luma, width, height) {
        return Some(
            Scan { symbology: Some(Symbology::Aztec), payload, format: String::from_str("AZTEC") },
        );
    }
    if !can_scan(width, height) {
        return None;
    }
    let text = read_claimed_rows(luma, width, height);
    let ghost rows = said(text);
    assert(rows_may_say(luma@, width, height, rows));
    if let Some(payload) = text {
        return Some(
            Scan { symbology: Some(Symbology::Pdf417), payload, format: String::from_str("PDF_417") },
        );
    }
    read_bars(luma, width, height)
}

// ---- laws ----
/// Flipping swaps the columns and the rows of a rectangle, counted from its last: what stood in column
/// `x` of row `y` stands, as far from the opposite edges, in column `height - 1 - y` of row
/// `width - 1 - x`. Flipped again it is as it was.
pub proof fn law_flipping_undoes_itself(
    width: nat,
    height: nat,
    modules: Seq<bool>,
    x: int,
    y: int,
)
    requires
        modules.len() == width * height,
        0 <= x < width,
        0 <= y < height,
    ensures
        flipped(width, height, modules)[(width - 1 - x) * height + (height - 1 - y)] == modules[y
            * width + x],
        flipped(height, width, flipped(width, height, modules))[y * width + x] == modules[y * width
            + x],
        flipped(height, width, flipped(width, height, modules)).len() == modules.len(),
{
    lemma_flipped(width, height, modules, x, y);
    let once = flipped(width, height, modules);
    assert(height * width == width * height) by (nonlinear_arith);
    lemma_flipped(height, width, once, height - 1 - y, width - 1 - x);
}

proof fn lemma_flipped(width: nat, height: nat, modules: Seq<bool>, x: int, y: int)
    requires
        0 <= x < width,
        0 <= y < height,
    ensures
        flipped(width, height, modules)[(width - 1 - x) * height + (height - 1 - y)] == modules[y
            * width + x],
{
    let (w, h) = (width as int, height as int);
    crate::sample::geometry::lemma_cell(h - 1 - y, w - 1 - x, h, w);
    vstd::arithmetic::div_mod::lemma_fundamental_div_mod_converse(
        (w - 1 - x) * h + (h - 1 - y),
        h,
        w - 1 - x,
        h - 1 - y,
    );
    assert(w * h == h * w) by (nonlinear_arith);
}

/// Readers take their turns: a QR code is believed before a DataMatrix symbol, that before an Aztec
/// symbol, and that before the rows of PDF417; each is reported under the name of its format, and by
/// the number of its symbology.
pub proof fn law_readers_take_their_turns(
    luma: Seq<u8>,
    width: u32,
    height: u32,
    scanned: Option<Scan>,
)
    requires
        is_image(luma, width, height),
        patterns_found(luma, width, height) is None,
        may_be_read(luma, width, height, reading_of(scanned)),
    ensures
        qr_reading(luma, width, height) is Some ==> (scanned matches Some(s) && s.symbology == Some(
            Symbology::QrCode,
        ) && s.format@ == "QR_CODE"@ && s.payload@ == qr_reading(luma, width, height)->0),
        qr_reading(luma, width, height) is None && dm_reading(luma, width, height) is Some ==> (
        scanned matches Some(s) && s.symbology == Some(Symbology::DataMatrix) && s.format@
            == "DATA_MATRIX"@ && s.payload@ == dm_reading(luma, width, height)->0),
        qr_reading(luma, width, height) is None && dm_reading(luma, width, height) is None
            && az_reading(luma, width, height) is Some ==> (scanned matches Some(s) && s.symbology
            == Some(Symbology::Aztec) && s.format@ == "AZTEC"@ && s.payload@ == az_reading(
            luma,
            width,
            height,
        )->0),
{
}

/// The data of the blocks stand one block after the other: those of the first come first, and each
/// block adds as many as it has.
pub proof fn law_blocks_follow_one_another(
    code: Code,
    raw: Seq<u8>,
    blocks: Seq<(nat, Seq<nat>)>,
    n: int,
    b: int,
    i: int,
)
    requires
        0 <= b < n <= blocks.len(),
        decode_plainly(code, raw, blocks, n),
        forall|k: int|
            0 <= k < n ==> (#[trigger] blocks[k]).0 <= plain_word(code, raw, blocks[k])->0.len(),
        0 <= i < blocks[b].0,
    ensures
        joined(code, raw, blocks, n).len() == data_count(blocks, n as nat),
        data_count(blocks, b as nat) + i < joined(code, raw, blocks, n).len(),
        joined(code, raw, blocks, n)[data_count(blocks, b as nat) + i] == plain_word(
            code,
            raw,
            blocks[b],
        )->0[i],
    decreases n,
{
    lemma_joined_len(code, raw, blocks, n - 1);
    lemma_joined_len(code, raw, blocks, n);
    if b < n - 1 {
        law_blocks_follow_one_another(code, raw, blocks, n - 1, b, i);
    }
}

proof fn lemma_joined_len(code: Code, raw: Seq<u8>, blocks: Seq<(nat, Seq<nat>)>, n: int)
    requires
        0 <= n <= blocks.len(),
        forall|k: int|
            0 <= k < n ==> (#[trigger] blocks[k]).0 <= plain_word(code, raw, blocks[k])->0.len(),
    ensures
        joined(code, raw, blocks, n).len() == data_count(blocks, n as nat),
    decreases n,
{
    if n > 0 {
        lemma_joined_len(code, raw, blocks, n - 1);
        assert(blocks[n - 1].0 <= plain_word(code, raw, blocks[n - 1])->0.len());
    }
}

/// The rows of PDF417 are asked before bars, and bars only where the rows say nothing; what the rows say
/// is reported as PDF417.
pub proof fn law_rows_come_before_bars(
    luma: Seq<u8>,
    width: u32,
    height: u32,
    scanned: Option<Scan>,
)
    requires
        rest_may_be_read(luma, width, height, reading_of(scanned)),
    ensures
        !is_scannable(width, height) ==> scanned is None,
        is_scannable(width, height) && !rows_may_say(luma, width, height, None) ==> (
        scanned matches Some(s) && s.symbology == Some(Symbology::Pdf417) && s.format@ == "PDF_417"@
            && rows_may_say(luma, width, height, Some(s.payload@))),
        is_scannable(width, height) && (forall|text: Seq<char>|
            !rows_may_say(luma, width, height, Some(text))) ==> reading_of(scanned)
            == bars_reading(luma, width, height),
{
    if is_scannable(width, height) {
        let text = choose|text: Option<Seq<char>>| #[trigger]
            rows_may_say(luma, width, height, text) && reading_of(scanned) == match text {
                Some(text) => reads_as(2, text, "PDF_417"@),
                None => bars_reading(luma, width, height),
            };
        if let Some(said) = text {
            assert(rows_may_say(luma, width, height, Some(said)));
        }
    }
}

} // verus!
