//! Reading and building QR symbols with `rxing`.
//!
//! A symbol is a square of modules, row-major, `true` for dark. Error-correction levels are given by
//! the two bits that stand for them in a symbol: 1 for L, 0 for M, 3 for Q, 2 for H.
use vstd::prelude::*;
use rxing::common::cpp_essentials::ByteMatrix;
use rxing::common::reedsolomon::{PredefinedGenericGF, ReedSolomonDecoder};
use rxing::common::{BitArray, BitMatrix, DetectorRXingResult, HybridBinarizer};
use rxing::qrcode::common::{ErrorCorrectionLevel, Version};
use rxing::qrcode::decoder::{decoded_bit_stream_parser, BitMatrixParser, DataBlock};
use rxing::qrcode::detector::Detector;
use rxing::qrcode::encoder::{matrix_util, qrcode_encoder};
use rxing::{BinaryBitmap, DecodeHints, Luma8LuminanceSource};
use crate::codec::formats::{can_scan, is_scannable};
use crate::codec::qr_text::is_parsable;
use crate::codec::blocks::{are_places, blocks_tile, deals, index_bytes, join_places};
use crate::clean::field::QR_POLYNOMIAL;
use crate::clean::reed_solomon::is_codeword;
use vstd::string::*;

verus! {

/// The rows of a square of modules.
pub open spec fn grid_rows(modules: Seq<bool>, d: nat) -> Seq<Seq<bool>> {
    Seq::new(d, |y: int| modules.subrange(y * d, y * d + d))
}

/// The rows as sequences.
pub open spec fn row_views(rows: Seq<Vec<bool>>) -> Seq<Seq<bool>> {
    rows.map_values(|r: Vec<bool>| r@)
}

/// Whether the rows make a square that can be a QR symbol by its size.
pub open spec fn is_square(rows: Seq<Seq<bool>>) -> bool {
    &&& 21 <= rows.len() <= 177
    &&& rows.len() % 4 == 1
    &&& forall|y: int| 0 <= y < rows.len() ==> (#[trigger] rows[y]).len() == rows.len()
}

/// Splits a square of modules into rows.
pub fn to_rows(modules: &[bool], d: usize) -> (r: Vec<Vec<bool>>)
    requires
        modules@.len() == d * d,
    ensures
        row_views(r@) == grid_rows(modules@, d as nat),
        forall|y: int| 0 <= y < r@.len() ==> (#[trigger] r@[y])@.len() == d,
        r@.len() == d,
{
    let mut out: Vec<Vec<bool>> = Vec::new();
    let mut y: usize = 0;
    while y < d
        invariant
            modules@.len() == d * d,
            y <= d,
            out@.len() == y,
            forall|k: int|
                0 <= k < y ==> (#[trigger] out@[k])@ == modules@.subrange(k * d, k * d + d),
        decreases d - y,
    {
        proof {
            assert(0 <= y * d && y * d + d <= d * d) by (nonlinear_arith)
                requires
                    0 <= y < d,
            ;
            assert(modules@.len() == modules.len());
        }
        let mut row: Vec<bool> = Vec::new();
        row.extend_from_slice(vstd::slice::slice_subrange(modules, y * d, y * d + d));
        assert(row@ =~= modules@.subrange(y * d, y * d + d));
        out.push(row);
        y = y + 1;
    }
    proof {
        assert forall|k: int| 0 <= k < d implies (#[trigger] out@[k])@.len() == d by {
            assert(0 <= k * d && k * d + d <= d * d) by (nonlinear_arith)
                requires
                    0 <= k < d,
            ;
        }
        assert(row_views(out@) =~= grid_rows(modules@, d as nat));
    }
    out
}

// ---- the layout of a symbol ----
/// The right column of the `p`th pair of columns that are read, from the right, leaving out the
/// column of the vertical timing pattern.
pub open spec fn pair_column(d: int, p: int) -> int {
    if d - 1 - 2 * p > 6 {
        d - 1 - 2 * p
    } else {
        d - 2 - 2 * p
    }
}

/// The `m`th module in reading order: pairs of columns, alternately upwards and downwards, in each
/// row the right module first.
pub open spec fn scan_cell(d: int, m: int) -> int {
    let p = m / (2 * d);
    let count = (m % (2 * d)) / 2;
    let y = if p % 2 == 0 {
        d - 1 - count
    } else {
        count
    };
    y * d + (pair_column(d, p) - m % 2)
}

/// The first `n` modules in reading order that hold data: those outside the function patterns.
pub open spec fn data_cells_before(function: Seq<bool>, d: int, n: int) -> Seq<usize>
    decreases n,
{
    if n <= 0 {
        Seq::empty()
    } else {
        let rest = data_cells_before(function, d, n - 1);
        let cell = scan_cell(d, n - 1);
        if function[cell] {
            rest
        } else {
            rest.push(cell as usize)
        }
    }
}

/// All modules that hold data, in reading order.
pub open spec fn data_cells(function: Seq<bool>, d: int) -> Seq<usize> {
    data_cells_before(function, d, d * (d - 1))
}

/// Whether the data mask inverts the module in row `i` and column `j`.
pub open spec fn is_masked(mask: int, i: int, j: int) -> bool {
    if mask == 0 {
        (i + j) % 2 == 0
    } else if mask == 1 {
        i % 2 == 0
    } else if mask == 2 {
        j % 3 == 0
    } else if mask == 3 {
        (i + j) % 3 == 0
    } else if mask == 4 {
        (i / 2 + j / 3) % 2 == 0
    } else if mask == 5 {
        (i * j) % 6 == 0
    } else if mask == 6 {
        (i * j) % 6 < 3
    } else {
        (i + j + (i * j) % 3) % 2 == 0
    }
}

/// The bit that a module stands for once the mask is taken off.
pub open spec fn data_bit(rows: Seq<Seq<bool>>, mask: int, cell: usize) -> bool {
    let y = cell as int / rows.len() as int;
    let x = cell as int % rows.len() as int;
    rows[y][x] != is_masked(mask, y, x)
}

/// One when set, else zero.
pub open spec fn bit_value(b: bool) -> int {
    if b {
        1
    } else {
        0
    }
}

/// The number that the first `n` of some modules spell, the most significant bit first.
pub open spec fn bits_spelled(rows: Seq<Seq<bool>>, mask: int, cells: Seq<usize>, n: int) -> int
    decreases n,
{
    if n <= 0 {
        0
    } else {
        2 * bits_spelled(rows, mask, cells, n - 1) + bit_value(data_bit(rows, mask, cells[n - 1]))
    }
}

/// The modules of each codeword: eight data modules in a row, as far as there are eight.
pub open spec fn codeword_cells(cells: Seq<usize>) -> Seq<Seq<usize>> {
    Seq::new(cells.len() / 8, |c: int| cells.subrange(8 * c, 8 * c + 8))
}

/// The codewords that a symbol holds.
pub open spec fn codewords_held(rows: Seq<Seq<bool>>, mask: int, cells: Seq<usize>) -> Seq<u8> {
    codeword_cells(cells).map_values(|own: Seq<usize>| bits_spelled(rows, mask, own, 8) as u8)
}

/// The width of a version's symbol.
pub open spec fn dimension_of(version: int) -> int {
    17 + 4 * version
}

// ---- reading ----
/// What the detector finds in an image: the width of the symbol, its modules, and the centres of its
/// finder patterns as bit patterns of single-precision coordinates.
pub uninterp spec fn qr_detection(
    luma: Seq<u8>,
    width: u32,
    height: u32,
) -> Option<(nat, Seq<bool>, Seq<(u32, u32)>)>;

/// The version that a symbol's modules declare.
pub uninterp spec fn qr_version(rows: Seq<Seq<bool>>) -> Option<u32>;

/// The error-correction level and the data mask that a symbol's modules declare.
pub uninterp spec fn qr_format(rows: Seq<Seq<bool>>) -> Option<(u8, u8)>;

/// The modules of a version that hold no data: finder, timing and alignment patterns, version and
/// format information.
pub uninterp spec fn qr_function_modules(version: u32) -> Seq<bool>;

/// The blocks of a version and level: of each, how many of its codewords are data, and the places of
/// its codewords in the interleaved stream.
pub uninterp spec fn qr_blocks(version: u32, ec: u8) -> Seq<(nat, Seq<nat>)>;

/// The text that data codewords hold.
pub uninterp spec fn qr_text(data: Seq<u8>, version: u32, ec: u8) -> Option<Seq<char>>;

/// The symbol of a codeword stream.
pub uninterp spec fn qr_symbol(codewords: Seq<u8>, version: u32, ec: u8, mask: u8) -> Seq<bool>;

/// What plain Reed-Solomon decoding makes of a received word with `ecc` error-correction codewords.
pub uninterp spec fn qr_corrected(received: Seq<u8>, ecc: nat) -> Option<Seq<u8>>;

/// The data modules of a version, in reading order.
pub open spec fn qr_data_cells(version: int) -> Seq<usize> {
    data_cells(qr_function_modules(version as u32), dimension_of(version))
}

/// The codewords that can be read off a symbol: those it holds, when its version and its format
/// information can be read.
pub open spec fn qr_codewords(rows: Seq<Seq<bool>>) -> Option<Seq<u8>> {
    match (qr_version(rows), qr_format(rows)) {
        (Some(version), Some((_, mask))) => Some(
            codewords_held(rows, mask as int, qr_data_cells(version as int)),
        ),
        _ => None,
    }
}

/// Whether a number is a version.
pub open spec fn is_version(version: int) -> bool {
    1 <= version <= 40
}

/// What detection gives.
#[derive(Clone, Debug)]
pub struct Detection {
    pub dimension: usize,
    pub modules: Vec<bool>,
    /// The centres of the finder patterns, and of the alignment pattern if one was found, as bit
    /// patterns of single-precision coordinates.
    pub points: Vec<(u32, u32)>,
}

/// Calls `rxing::qrcode::detector::Detector::detect_with_hints` on the image as `HybridBinarizer`
/// sees it.
///
/// What is found depends on the image alone; it is a square whose width is that of a version. An
/// image whose length is not the product of its sides holds nothing.
#[verifier::external_body]
pub(crate) fn detect(luma: &[u8], width: u32, height: u32) -> (r: Option<Detection>)
    requires
        is_scannable(width, height),
    ensures
        r is Some <==> qr_detection(luma@, width, height) is Some,
        r is Some ==> qr_detection(luma@, width, height) == Some(
            (r->0.dimension as nat, r->0.modules@, r->0.points@),
        ),
        r is Some ==> r->0.modules@.len() == r->0.dimension * r->0.dimension,
        r is Some ==> 21 <= r->0.dimension <= 177 && r->0.dimension % 4 == 1,
        luma@.len() != width * height ==> r is None,
{
    let source = Luma8LuminanceSource::new(luma.to_vec(), width, height).ok()?;
    let bitmap = BinaryBitmap::new(HybridBinarizer::new(source));
    let found = Detector::new(bitmap.get_black_matrix()).detect_with_hints(&DecodeHints::default()).ok()?;
    Some(Detection {
        dimension: found.getBits().getHeight() as usize,
        modules: Vec::<bool>::from(found.getBits()),
        points: found.getPoints().iter().map(|p| (p.x.to_bits(), p.y.to_bits())).collect(),
    })
}

/// What is found in an image: what the detector finds, and nothing where the image is too large.
pub open spec fn qr_found(luma: Seq<u8>, width: u32, height: u32) -> Option<
    (nat, Seq<bool>, Seq<(u32, u32)>),
> {
    if is_scannable(width, height) {
        qr_detection(luma, width, height)
    } else {
        None
    }
}

/// Finds a symbol in an image.
pub(crate) fn find(luma: &[u8], width: u32, height: u32) -> (r: Option<Detection>)
    ensures
        r is Some <==> qr_found(luma@, width, height) is Some,
        r is Some ==> qr_found(luma@, width, height) == Some(
            (r->0.dimension as nat, r->0.modules@, r->0.points@),
        ),
        r is Some ==> r->0.modules@.len() == r->0.dimension * r->0.dimension,
        r is Some ==> 21 <= r->0.dimension <= 177 && r->0.dimension % 4 == 1,
        luma@.len() != width * height ==> r is None,
{
    if !can_scan(width, height) {
        return None;
    }
    detect(luma, width, height)
}

/// Calls `rxing::qrcode::decoder::BitMatrixParser::readVersion`.
///
/// A version that is read has the width of the symbol.
#[verifier::external_body]
pub(crate) fn read_version(rows: &[Vec<bool>]) -> (r: Option<u32>)
    requires
        is_square(row_views(rows@)),
    ensures
        r == qr_version(row_views(rows@)),
        r is Some ==> is_version(r->0 as int) && dimension_of(r->0 as int) == rows@.len(),
{
    let mut parser = BitMatrixParser::new(BitMatrix::parse_bools(rows)).ok()?;
    parser.readVersion().ok().map(|v| v.getVersionNumber())
}

/// Calls `rxing::qrcode::decoder::BitMatrixParser::readFormatInformation`.
///
/// The level comes as its two bits, the mask is one of eight.
#[verifier::external_body]
pub(crate) fn read_format(rows: &[Vec<bool>]) -> (r: Option<(u8, u8)>)
    requires
        is_square(row_views(rows@)),
    ensures
        r == qr_format(row_views(rows@)),
        r matches Some((ec, mask)) ==> ec < 4 && mask < 8,
{
    let mut parser = BitMatrixParser::new(BitMatrix::parse_bools(rows)).ok()?;
    let format = parser.readFormatInformation().ok()?;
    Some((format.getErrorCorrectionLevel().get_value(), format.getDataMask()))
}

/// Calls `rxing::qrcode::decoder::BitMatrixParser::readCodewords`.
///
/// It succeeds exactly when version and format information can be read. It then reads the data
/// modules in reading order, takes the mask off and packs eight to a codeword.
#[verifier::external_body]
pub(crate) fn read_codewords(rows: &[Vec<bool>]) -> (r: Option<Vec<u8>>)
    requires
        is_square(row_views(rows@)),
    ensures
        r is Some <==> qr_codewords(row_views(rows@)) is Some,
        r is Some ==> qr_codewords(row_views(rows@)) == Some(r->0@),
{
    BitMatrixParser::new(BitMatrix::parse_bools(rows)).ok()?.readCodewords().ok()
}

/// Calls `rxing::qrcode::common::Version::buildFunctionPattern`.
///
/// The pattern has the size of the version's symbol.
#[verifier::external_body]
pub(crate) fn function_modules(version: u32) -> (r: Option<Vec<bool>>)
    requires
        is_version(version as int),
    ensures
        r is Some,
        r->0@ == qr_function_modules(version),
        r->0@.len() == dimension_of(version as int) * dimension_of(version as int),
{
    let pattern = Version::getVersionForNumber(version).ok()?.buildFunctionPattern().ok()?;
    Some(Vec::<bool>::from(&pattern))
}

/// Calls `rxing::qrcode::decoder::DataBlock::getDataBlocks`.
///
/// It takes a stream of as many codewords as the version holds, and no other. The codewords go to the
/// blocks by their places alone, whatever they are.
#[verifier::external_body]
pub(crate) fn data_blocks(raw: &[u8], version: u32, ec: u8) -> (r: Option<Vec<(usize, Vec<u8>)>>)
    requires
        is_version(version as int),
        ec < 4,
    ensures
        r is Some <==> raw@.len() == qr_data_cells(version as int).len() / 8,
        r is Some ==> blocks_tile(qr_blocks(version, ec), raw@.len() as int),
        r is Some ==> deals(qr_blocks(version, ec), raw@, r->0@),
{
    let version = Version::getVersionForNumber(version).ok()?;
    let blocks = DataBlock::getDataBlocks(raw, version, ErrorCorrectionLevel::forBits(ec).ok()?).ok()?;
    Some(blocks.iter().map(|b| (b.getNumDataCodewords() as usize, b.getCodewords().to_vec())).collect())
}

/// Calls `rxing::common::reedsolomon::ReedSolomonDecoder::decode` in the field of QR codes.
///
/// A word that is a codeword is left as it is; no word changes its length. Of other words it is not
/// said what the decoder makes of them: it finds up to half as many errors as there are
/// error-correction codewords, and on words with more it gives up or not.
#[verifier::external_body]
pub(crate) fn correct(received: &[u8], ecc: usize) -> (r: Option<Vec<u8>>)
    requires
        ecc <= 255,
        received@.len() <= 255,
    ensures
        r is Some <==> qr_corrected(received@, ecc as nat) is Some,
        r is Some ==> qr_corrected(received@, ecc as nat) == Some(r->0@),
        r is Some ==> r->0@.len() == received@.len(),
        received@.len() > 0 && is_codeword(QR_POLYNOMIAL, 0, ecc as nat, received@) ==> r is Some
            && r->0@ == received@,
{
    let mut word = received.to_vec();
    let decoder = ReedSolomonDecoder::new(PredefinedGenericGF::QrCodeField256.into());
    decoder.decode(&mut word, ecc as i32).ok().map(|_| word)
}

/// Calls `rxing::qrcode::decoder::decoded_bit_stream_parser::decode` and takes the text.
///
/// It is not for streams that begin, under an FNC1 mode, with an alphanumeric segment that has a percent
/// sign in it: there the parser counts down from the length of a text that is still empty.
#[verifier::external_body]
pub(crate) fn parse_text(data: &[u8], version: u32, ec: u8) -> (r: Option<String>)
    requires
        is_version(version as int),
        ec < 4,
        is_parsable(data@, version as int),
    ensures
        r is Some <==> qr_text(data@, version, ec) is Some,
        r is Some ==> qr_text(data@, version, ec) == Some(r->0@),
{
    let version = Version::getVersionForNumber(version).ok()?;
    let ec = ErrorCorrectionLevel::forBits(ec).ok()?;
    let parsed = decoded_bit_stream_parser::decode(data, version, ec, &DecodeHints::default()).ok()?;
    Some(parsed.getText().to_string())
}

// ---- building ----
/// Whether reading a symbol gives this version, level, mask and these codewords.
pub open spec fn reads_back(
    modules: Seq<bool>,
    codewords: Seq<u8>,
    version: u32,
    ec: u8,
    mask: u8,
) -> bool {
    let grid = grid_rows(modules, dimension_of(version as int) as nat);
    &&& modules.len() == dimension_of(version as int) * dimension_of(version as int)
    &&& qr_version(grid) == Some(version)
    &&& qr_format(grid) == Some((ec, mask))
    &&& codewords_held(grid, mask as int, qr_data_cells(version as int)) == codewords
}

/// Calls `rxing::qrcode::common::Version::getTotalCodewords`.
///
/// A version holds one codeword for every eight data modules.
#[verifier::external_body]
pub(crate) fn total_codewords(version: u32) -> (r: Option<usize>)
    requires
        is_version(version as int),
    ensures
        r is Some,
        r->0 == qr_data_cells(version as int).len() / 8,
{
    Version::getVersionForNumber(version).ok().map(|v| v.getTotalCodewords() as usize)
}

/// Calls `rxing::qrcode::encoder::matrix_util::buildMatrix`.
///
/// The symbol of as many codewords as the version holds. Reading it gives back what it was built
/// from: the version, the level and the mask, and the codewords.
#[verifier::external_body]
pub(crate) fn build_symbol(codewords: &[u8], version: u32, ec: u8, mask: u8) -> (r: Option<Vec<bool>>)
    requires
        is_version(version as int),
        ec < 4,
        mask < 8,
        codewords@.len() == qr_data_cells(version as int).len() / 8,
    ensures
        r is Some,
        r->0@ == qr_symbol(codewords@, version, ec, mask),
        reads_back(r->0@, codewords@, version, ec, mask),
{
    let version = Version::getVersionForNumber(version).ok()?;
    let ec = ErrorCorrectionLevel::forBits(ec).ok()?;
    let mut bits = BitArray::new();
    for &cw in codewords {
        bits.appendBits(cw as usize, 8).ok()?;
    }
    let dimension = version.getDimensionForVersion();
    let mut matrix = ByteMatrix::new(dimension, dimension);
    matrix_util::buildMatrix(&bits, &ec, version, mask as i32, &mut matrix).ok()?;
    Some(Vec::<bool>::from(&BitMatrix::try_from(matrix).ok()?))
}

/// Whether a symbol is the one of these codewords, and reads as it was built.
pub open spec fn is_symbol_of(
    modules: Seq<bool>,
    codewords: Seq<u8>,
    version: u32,
    ec: u8,
    mask: u8,
) -> bool {
    &&& codewords.len() == qr_data_cells(version as int).len() / 8
    &&& modules == qr_symbol(codewords, version, ec, mask)
    &&& reads_back(modules, codewords, version, ec, mask)
}

/// The symbol that the encoder makes of a text at a level, with its version and mask, or what it says
/// against it.
pub uninterp spec fn qr_encoded(text: Seq<char>, ec: u8) -> Result<(u32, i32, Seq<bool>), Seq<char>>;

/// A QR symbol as the encoder hands it out.
#[derive(Clone, Debug)]
pub struct QrEncoding {
    pub version: u32,
    pub mask: i32,
    pub modules: Vec<bool>,
}

/// Calls `rxing::qrcode::encoder::qrcode_encoder::encode`.
///
/// The symbol is one of the version and mask that come with it, at the level asked for: the encoder
/// settles on codewords and hands them to the builder that [`build_symbol`] calls.
#[verifier::external_body]
pub(crate) fn encode_qr(payload: &str, ec: u8) -> (r: Result<QrEncoding, String>)
    requires
        ec < 4,
    ensures
        match r {
            Ok(code) => qr_encoded(payload@, ec) == Ok::<(u32, i32, Seq<bool>), Seq<char>>(
                (code.version, code.mask, code.modules@),
            ),
            Err(why) => qr_encoded(payload@, ec) == Err::<(u32, i32, Seq<bool>), Seq<char>>(why@),
        },
        r is Ok ==> is_version(r->Ok_0.version as int) && 0 <= r->Ok_0.mask < 8,
        r is Ok ==> exists|codewords: Seq<u8>| #[trigger]
            is_symbol_of(r->Ok_0.modules@, codewords, r->Ok_0.version, ec, r->Ok_0.mask as u8),
{
    let level = ErrorCorrectionLevel::forBits(ec).map_err(|e| e.to_string())?;
    let code = qrcode_encoder::encode(payload, level).map_err(|e| e.to_string())?;
    let version = code.getVersion().ok_or_else(String::new)?.getVersionNumber();
    let matrix = code.getMatrix().clone().ok_or_else(String::new)?;
    let modules = Vec::<bool>::from(&BitMatrix::try_from(matrix).map_err(|e| e.to_string())?);
    Ok(QrEncoding { version, mask: code.getMaskPattern(), modules })
}

// ---- levels ----
/// A QR error-correction level.
#[derive(Clone, Copy, Debug, PartialEq, Eq, Structural)]
pub enum EcLevel {
    L,
    M,
    Q,
    H,
}

impl EcLevel {
    /// The two bits that stand for the level.
    pub open spec fn spec_bits(self) -> u8 {
        match self {
            EcLevel::L => 1,
            EcLevel::M => 0,
            EcLevel::Q => 3,
            EcLevel::H => 2,
        }
    }

    /// The letter of the level.
    pub open spec fn spec_letter(self) -> Seq<char> {
        match self {
            EcLevel::L => "L"@,
            EcLevel::M => "M"@,
            EcLevel::Q => "Q"@,
            EcLevel::H => "H"@,
        }
    }

    pub fn bits(self) -> (r: u8)
        ensures
            r == self.spec_bits(),
    {
        match self {
            EcLevel::L => 1,
            EcLevel::M => 0,
            EcLevel::Q => 3,
            EcLevel::H => 2,
        }
    }

    /// The level that two bits stand for.
    pub fn from_bits(bits: u8) -> (r: Self)
        requires
            bits < 4,
        ensures
            r.spec_bits() == bits,
    {
        if bits == 0 {
            EcLevel::M
        } else if bits == 1 {
            EcLevel::L
        } else if bits == 2 {
            EcLevel::H
        } else {
            EcLevel::Q
        }
    }

    pub fn letter(self) -> (r: &'static str)
        ensures
            r@ == self.spec_letter(),
    {
        match self {
            EcLevel::L => "L",
            EcLevel::M => "M",
            EcLevel::Q => "Q",
            EcLevel::H => "H",
        }
    }

    /// The level of a letter.
    pub fn from_letter(letter: &str) -> (r: Option<Self>)
        ensures
            r is Some ==> r->0.spec_letter() == letter@,
            r is None ==> forall|level: EcLevel| letter@ != level.spec_letter(),
    {
        if letter.unicode_len() != 1 {
            proof {
                reveal_strlit("L");
                reveal_strlit("M");
                reveal_strlit("Q");
                reveal_strlit("H");
            }
            return None;
        }
        let c: char = letter.get_char(0);
        proof {
            reveal_strlit("L");
            reveal_strlit("M");
            reveal_strlit("Q");
            reveal_strlit("H");
            assert(letter@ =~= seq![c]);
        }
        if c == 'L' {
            assert(letter@ =~= "L"@);
            Some(EcLevel::L)
        } else if c == 'M' {
            assert(letter@ =~= "M"@);
            Some(EcLevel::M)
        } else if c == 'Q' {
            assert(letter@ =~= "Q"@);
            Some(EcLevel::Q)
        } else if c == 'H' {
            assert(letter@ =~= "H"@);
            Some(EcLevel::H)
        } else {
            assert forall|level: EcLevel| letter@ != level.spec_letter() by {
                if letter@ == level.spec_letter() {
                    assert(letter@[0] == c);
                }
            }
            None
        }
    }
}

/// Different levels have different letters.
pub proof fn lemma_letters_differ(a: EcLevel, b: EcLevel)
    requires
        a.spec_letter() == b.spec_letter(),
    ensures
        a == b,
{
    reveal_strlit("L");
    reveal_strlit("M");
    reveal_strlit("Q");
    reveal_strlit("H");
    assert("L"@[0] == 'L' && "M"@[0] == 'M' && "Q"@[0] == 'Q' && "H"@[0] == 'H');
    assert(a.spec_letter()[0] == b.spec_letter()[0]);
}

// ---- provenance ----
proof fn lemma_scan_cell(d: int, m: int)
    requires
        d >= 21,
        d % 4 == 1,
        0 <= m < d * (d - 1),
    ensures
        0 <= m / (2 * d) < (d - 1) / 2,
        0 <= m % (2 * d) < 2 * d,
        1 <= pair_column(d, m / (2 * d)) < d,
        0 <= scan_cell(d, m) < d * d,
{
    let p = m / (2 * d);
    let k = (d - 1) / 2;
    vstd::arithmetic::div_mod::lemma_fundamental_div_mod(m, 2 * d);
    vstd::arithmetic::div_mod::lemma_div_pos_is_pos(m, 2 * d);
    assert(d - 1 == 2 * k);
    if p >= k {
        assert((2 * d) * p >= (2 * d) * k) by (nonlinear_arith)
            requires
                p >= k,
                d >= 0,
        ;
        assert((2 * d) * k == d * (2 * k)) by (nonlinear_arith);
    }
    let count = (m % (2 * d)) / 2;
    let y = if p % 2 == 0 {
        d - 1 - count
    } else {
        count
    };
    let x = pair_column(d, p) - m % 2;
    crate::sample::geometry::lemma_cell(x, y, d, d);
}

/// A version has at most as many data modules as there are modules outside one column.
pub proof fn lemma_data_cells_len(function: Seq<bool>, d: int, n: int)
    requires
        n >= 0,
    ensures
        data_cells_before(function, d, n).len() <= n,
    decreases n,
{
    if n > 0 {
        lemma_data_cells_len(function, d, n - 1);
    }
}

/// No version holds more codewords than fit 16 bits.
pub proof fn lemma_codeword_count(version: int)
    requires
        is_version(version),
    ensures
        qr_data_cells(version).len() / 8 <= 65536,
{
    let d = dimension_of(version);
    assert(0 <= d * (d - 1) <= 177 * 177) by (nonlinear_arith)
        requires
            21 <= d <= 177,
    ;
    lemma_data_cells_len(qr_function_modules(version as u32), d, d * (d - 1));
}

/// The data modules in reading order.
fn list_data_cells(function: &[bool], d: usize) -> (r: Vec<usize>)
    requires
        21 <= d <= 177,
        d % 4 == 1,
        function@.len() == d * d,
    ensures
        r@ == data_cells(function@, d as int),
        forall|k: int| 0 <= k < r@.len() ==> #[trigger] r@[k] < d * d,
{
    let mut out: Vec<usize> = Vec::new();
    assert(0 <= d * (d - 1) <= 177 * 177) by (nonlinear_arith)
        requires
            21 <= d <= 177,
    ;
    let n: usize = d * (d - 1);
    let mut m: usize = 0;
    while m < n
        invariant
            21 <= d <= 177,
            d % 4 == 1,
            function@.len() == d * d,
            n == d * (d - 1),
            m <= n,
            out@ == data_cells_before(function@, d as int, m as int),
            forall|k: int| 0 <= k < out@.len() ==> #[trigger] out@[k] < d * d,
        decreases n - m,
    {
        proof {
            lemma_scan_cell(d as int, m as int);
        }
        let p: usize = m / (2 * d);
        let count: usize = (m % (2 * d)) / 2;
        let y: usize = if p % 2 == 0 { d - 1 - count } else { count };
        let column: usize = if d - 1 - 2 * p > 6 { d - 1 - 2 * p } else { d - 2 - 2 * p };
        assert(0 <= y * d <= 177 * 177) by (nonlinear_arith)
            requires
                0 <= y < 177,
                21 <= d <= 177,
        ;
        let cell: usize = y * d + (column - m % 2);
        assert(cell == scan_cell(d as int, m as int));
        if !function[cell] {
            out.push(cell);
        }
        m = m + 1;
    }
    out
}

/// The modules that produced each codeword of a symbol of this version.
pub fn provenance(version: u32) -> (r: Option<Vec<Vec<usize>>>)
    requires
        is_version(version as int),
    ensures
        r is Some,
        r->0@.len() == qr_data_cells(version as int).len() / 8,
        crate::clean::erasure::rows(r->0@) == codeword_cells(qr_data_cells(version as int)),
        forall|c: int, i: int|
            #![trigger r->0@[c]@[i]]
            0 <= c < r->0@.len() && 0 <= i < r->0@[c]@.len() ==> r->0@[c]@[i] < dimension_of(
                version as int,
            ) * dimension_of(version as int),
{
    let function = function_modules(version)?;
    let d: usize = 17 + 4 * (version as usize);
    let cells = list_data_cells(function.as_slice(), d);
    let n: usize = cells.len() / 8;
    let mut out: Vec<Vec<usize>> = Vec::new();
    let mut c: usize = 0;
    while c < n
        invariant
            n == cells@.len() / 8,
            c <= n,
            out@.len() == c,
            forall|k: int| 0 <= k < cells@.len() ==> #[trigger] cells@[k] < d * d,
            forall|k: int|
                0 <= k < c ==> (#[trigger] out@[k])@ == cells@.subrange(8 * k, 8 * k + 8),
        decreases n - c,
    {
        assert(cells@.len() == cells.len());
        let mut own: Vec<usize> = Vec::new();
        own.extend_from_slice(
            vstd::slice::slice_subrange(cells.as_slice(), 8 * c, 8 * c + 8),
        );
        assert(own@ =~= cells@.subrange(8 * c, 8 * c + 8));
        out.push(own);
        c = c + 1;
    }
    proof {
        assert(crate::clean::erasure::rows(out@) =~= codeword_cells(cells@));
        assert forall|k: int, i: int|
            #![trigger out@[k]@[i]]
            0 <= k < out@.len() && 0 <= i < out@[k]@.len() implies out@[k]@[i] < d * d by {
            assert(out@[k]@[i] == cells@[8 * k + i]);
        }
    }
    Some(out)
}

/// The blocks of a version and level, as places in the interleaved stream.
///
/// The crate hands out blocks of codewords, not of places. Handing it a stream of places instead of
/// codewords, once their low bytes and once their high bytes, gives the places of each block.
pub fn block_places(version: u32, ec: u8, total: usize) -> (r: Option<Vec<(usize, Vec<usize>)>>)
    requires
        is_version(version as int),
        ec < 4,
        total == qr_data_cells(version as int).len() / 8,
        total <= 65536,
    ensures
        r is Some,
        blocks_tile(qr_blocks(version, ec), total as int),
        are_places(qr_blocks(version, ec), r->0@),
{
    let (low, high) = index_bytes(total);
    let lows = data_blocks(low.as_slice(), version, ec)?;
    let highs = data_blocks(high.as_slice(), version, ec)?;
    Some(
        join_places(
            lows.as_slice(),
            highs.as_slice(),
            total,
            Ghost(qr_blocks(version, ec)),
            Ghost(low@),
            Ghost(high@),
        ),
    )
}

// ---- laws ----
/// Modules are read in a zigzag from the lower right corner: two side by side, the right one first, up
/// one pair of columns and down the next, one row at a time, and never in the column of the vertical
/// timing pattern.
pub proof fn law_modules_are_read_in_a_zigzag(d: int, m: int)
    requires
        d >= 21,
        d % 4 == 1,
        0 <= m < d * (d - 1),
    ensures
        ({
            let (cell, next) = (scan_cell(d, m), scan_cell(d, m + 1));
            let (x, y) = (cell % d, cell / d);
            let upwards = (m / (2 * d)) % 2 == 0;
            let last = m % (2 * d) == 2 * d - 1;
            &&& 0 <= cell < d * d
            &&& 0 <= x < d && 0 <= y < d
            &&& x != 6
            &&& m == 0 ==> x == d - 1 && y == d - 1
            &&& m % 2 == 0 ==> next == cell - 1 && x > 0
            &&& m % 2 == 1 && !last && upwards ==> next == cell - d + 1
            &&& m % 2 == 1 && !last && !upwards ==> next == cell + d + 1
            &&& last ==> y == (if upwards {
                0
            } else {
                d - 1
            })
            &&& last && m + 1 < d * (d - 1) ==> next / d == y && next % d == (if x == 7 {
                x - 2
            } else {
                x - 1
            })
        }),
{
    let cell = scan_cell(d, m);
    lemma_scan_cell(d, m);
    let p = m / (2 * d);
    let rest = m % (2 * d);
    vstd::arithmetic::div_mod::lemma_fundamental_div_mod(m, 2 * d);
    assert((2 * d) * p == 2 * (d * p)) by (nonlinear_arith);
    assert(m % 2 == rest % 2);
    let count = rest / 2;
    let y = if p % 2 == 0 {
        d - 1 - count
    } else {
        count
    };
    let x = pair_column(d, p) - m % 2;
    assert(0 <= x < d && 0 <= y < d);
    vstd::arithmetic::div_mod::lemma_fundamental_div_mod_converse(cell, d, y, x);
    if m == 0 {
        assert(p == 0 && rest == 0) by (nonlinear_arith)
            requires
                m == 0,
                m == (2 * d) * p + rest,
                0 <= rest,
                p >= 0,
                d > 0,
        ;
    }
    if rest < 2 * d - 1 {
        assert(p * (2 * d) == (2 * d) * p) by (nonlinear_arith);
        vstd::arithmetic::div_mod::lemma_fundamental_div_mod_converse(
            m + 1,
            2 * d,
            p,
            rest + 1,
        );
        if m % 2 == 1 {
            let after = if p % 2 == 0 {
                y - 1
            } else {
                y + 1
            };
            assert((rest + 1) / 2 == count + 1);
            assert(scan_cell(d, m + 1) == after * d + (x + 1));
            assert((y - 1) * d == y * d - d && (y + 1) * d == y * d + d) by (nonlinear_arith);
        } else {
            assert((rest + 1) / 2 == count);
        }
    } else {
        assert((p + 1) * (2 * d) == (2 * d) * p + 2 * d) by (nonlinear_arith);
        vstd::arithmetic::div_mod::lemma_fundamental_div_mod_converse(m + 1, 2 * d, p + 1, 0);
        if m + 1 < d * (d - 1) {
            lemma_scan_cell(d, m + 1);
            let after = pair_column(d, p + 1);
            assert(scan_cell(d, m + 1) == y * d + after);
            vstd::arithmetic::div_mod::lemma_fundamental_div_mod_converse(
                scan_cell(d, m + 1),
                d,
                y,
                after,
            );
        }
    }
}

/// No module is read twice.
pub proof fn law_modules_are_read_once(d: int, m: int, n: int)
    requires
        d >= 21,
        d % 4 == 1,
        0 <= m < d * (d - 1),
        0 <= n < d * (d - 1),
        scan_cell(d, m) == scan_cell(d, n),
    ensures
        m == n,
{
    lemma_scan_place(d, m);
    lemma_scan_place(d, n);
}

/// The place in the reading order of the module in column `x` of row `y`.
pub open spec fn scan_place(d: int, x: int, y: int) -> int {
    let right = if x > 6 {
        x
    } else {
        x + 1
    };
    let p = (d - 1 - right) / 2;
    let side = (d - 1 - right) % 2;
    let count = if p % 2 == 0 {
        d - 1 - y
    } else {
        y
    };
    (2 * d) * p + 2 * count + side
}

proof fn lemma_scan_place(d: int, m: int)
    requires
        d >= 21,
        d % 4 == 1,
        0 <= m < d * (d - 1),
    ensures
        scan_place(d, scan_cell(d, m) % d, scan_cell(d, m) / d) == m,
{
    let cell = scan_cell(d, m);
    lemma_scan_cell(d, m);
    let p = m / (2 * d);
    let rest = m % (2 * d);
    vstd::arithmetic::div_mod::lemma_fundamental_div_mod(m, 2 * d);
    assert((2 * d) * p == 2 * (d * p)) by (nonlinear_arith);
    assert(m % 2 == rest % 2);
    let count = rest / 2;
    let y = if p % 2 == 0 {
        d - 1 - count
    } else {
        count
    };
    let x = pair_column(d, p) - m % 2;
    vstd::arithmetic::div_mod::lemma_fundamental_div_mod_converse(cell, d, y, x);
    let right = if x > 6 {
        x
    } else {
        x + 1
    };
    assert(d - 1 - right == 2 * p + m % 2);
}

/// Codewords come from modules that hold data, in the order of reading: of two places in the list the
/// earlier was read first, none is part of a function pattern, and none that is read and is no part of
/// one is left out.
pub proof fn law_data_modules_are_listed_as_they_are_read(function: Seq<bool>, d: int, n: int)
    requires
        d >= 21,
        d % 4 == 1,
        function.len() == d * d,
        d * d <= usize::MAX,
        0 <= n <= d * (d - 1),
    ensures
        ({
            let cells = data_cells_before(function, d, n);
            &&& forall|k: int|
                0 <= k < cells.len() ==> #[trigger] cells[k] < d * d && !function[cells[k] as int]
                    && scan_place(d, cells[k] as int % d, cells[k] as int / d) < n
            &&& forall|k: int, l: int|
                0 <= k < l < cells.len() ==> scan_place(
                    d,
                    #[trigger] cells[k] as int % d,
                    cells[k] as int / d,
                ) < scan_place(d, #[trigger] cells[l] as int % d, cells[l] as int / d)
            &&& forall|m: int|
                0 <= m < n && !function[#[trigger] scan_cell(d, m)] ==> cells.contains(
                    scan_cell(d, m) as usize,
                )
        }),
    decreases n,
{
    let cells = data_cells_before(function, d, n);
    if n > 0 {
        law_data_modules_are_listed_as_they_are_read(function, d, n - 1);
        lemma_scan_cell(d, n - 1);
        lemma_scan_place(d, n - 1);
        let rest = data_cells_before(function, d, n - 1);
        let cell = scan_cell(d, n - 1);
        assert forall|m: int| 0 <= m < n && !function[#[trigger] scan_cell(d, m)] implies cells.contains(
            scan_cell(d, m) as usize,
        ) by {
            if m < n - 1 {
                let k = choose|k: int| 0 <= k < rest.len() && rest[k] == scan_cell(d, m) as usize;
                assert(cells[k] == rest[k]);
            } else {
                assert(cells[rest.len() as int] == cell as usize);
            }
        }
        assert forall|k: int| 0 <= k < cells.len() implies #[trigger] cells[k] < d * d
            && !function[cells[k] as int] && scan_place(d, cells[k] as int % d, cells[k] as int / d)
            < n by {
            if k < rest.len() {
                assert(cells[k] == rest[k]);
            }
        }
        assert forall|k: int, l: int| 0 <= k < l < cells.len() implies scan_place(
            d,
            #[trigger] cells[k] as int % d,
            cells[k] as int / d,
        ) < scan_place(d, #[trigger] cells[l] as int % d, cells[l] as int / d) by {
            assert(cells[k] == rest[k]);
            if l < rest.len() {
                assert(cells[l] == rest[l]);
            }
        }
    }
}

/// Levels go by their own letter and their own two bits.
pub proof fn law_levels_are_told_apart(a: EcLevel, b: EcLevel)
    ensures
        a.spec_bits() == b.spec_bits() ==> a == b,
        a.spec_letter() == b.spec_letter() ==> a == b,
        a.spec_bits() < 4,
        EcLevel::M.spec_bits() == 0 && EcLevel::M.spec_letter() == seq!['M'],
        EcLevel::L.spec_bits() == 1 && EcLevel::L.spec_letter() == seq!['L'],
        EcLevel::H.spec_bits() == 2 && EcLevel::H.spec_letter() == seq!['H'],
        EcLevel::Q.spec_bits() == 3 && EcLevel::Q.spec_letter() == seq!['Q'],
{
    reveal_strlit("L");
    reveal_strlit("M");
    reveal_strlit("Q");
    reveal_strlit("H");
    assert(EcLevel::M.spec_letter() =~= seq!['M']);
    assert(EcLevel::L.spec_letter() =~= seq!['L']);
    assert(EcLevel::H.spec_letter() =~= seq!['H']);
    assert(EcLevel::Q.spec_letter() =~= seq!['Q']);
    if a.spec_letter() == b.spec_letter() {
        lemma_letters_differ(a, b);
    }
}

/// Codewords take their modules eight at a time, in the order of reading.
pub proof fn law_codewords_take_eight_modules_each(cells: Seq<usize>, c: int, i: int)
    requires
        0 <= i < 8,
        0 <= 8 * c,
        8 * c + 8 <= cells.len(),
    ensures
        c < codeword_cells(cells).len(),
        8 * codeword_cells(cells).len() <= cells.len() < 8 * codeword_cells(cells).len() + 8,
        codeword_cells(cells)[c].len() == 8,
        codeword_cells(cells)[c][i] == cells[8 * c + i],
{
}

/// Rows hold the modules of a square as they stand.
pub proof fn law_rows_hold_the_modules(modules: Seq<bool>, d: nat, x: int, y: int)
    requires
        modules.len() == d * d,
        0 <= x < d,
        0 <= y < d,
    ensures
        grid_rows(modules, d).len() == d,
        grid_rows(modules, d)[y].len() == d,
        grid_rows(modules, d)[y][x] == modules[y * d + x],
{
    crate::sample::geometry::lemma_cell(x, y, d as int, d as int);
    assert((y + 1) * d == y * d + d) by (nonlinear_arith);
    assert(0 <= y * d && (y + 1) * d <= d * d) by (nonlinear_arith)
        requires
            0 <= y < d,
    ;
}

} // verus!
