//! The full QR cleaning path: modules in, payload out, damage map alongside.
use vstd::prelude::*;
use vstd::string::*;
use crate::clean::blocks::{
    block_answers, block_layouts, block_map, block_word, contents, is_block_answer, is_interleaved,
    is_recovered, is_recovery, is_restored_stream, is_sound, is_within_budget,
    law_recovered_streams_are_the_original, law_restored_blocks_restore_the_stream, recover, Code,
    Stream,
};
use crate::clean::bootstrap::{
    codewords_in, damage_in, decoded_blocks, globals_of, is_round, law_clean_symbols_take_one_round,
    law_no_evidence_ends_the_loop, proven, BootstrapOutcome, BootstrapParams, Round,
};
use crate::clean::erasure::rows;
use crate::clean::reed_solomon::differing;
use crate::codec::blocks::blocks_tile;
use crate::codec::qr::{
    block_places, codeword_cells, codewords_held, dimension_of, find, grid_rows, is_version,
    lemma_codeword_count, lemma_letters_differ, provenance, qr_blocks, qr_data_cells,
    qr_format, qr_found, qr_version, read_codewords, read_format, read_version,
    reads_back, to_rows, Detection, EcLevel,
};
use crate::codec::qr_text::{qr_message, read_message};
use crate::render::exact::{from_codewords, is_rebuilt, RebuildError, Reconstructed};
use crate::text::{decimal, write_decimal};

verus! {

/// What cleaning a symbol produced.
#[derive(Clone, Debug)]
pub struct Cleaned {
    pub payload: String,
    /// Symbol width in modules.
    pub dimension: usize,
    /// The centres of the finder patterns in the source image, as bit patterns of single-precision
    /// coordinates; none when the symbol did not come from a detection. The first three say how many
    /// pixels a module takes.
    pub points: Vec<(u32, u32)>,
    pub blocks_total: usize,
    /// Blocks that decoded before any bootstrapping: what a stock decoder would have managed.
    pub blocks_decoded_initially: usize,
    /// Refinement rounds the loop took.
    pub rounds: usize,
    /// Modules belonging to codewords proven damaged.
    pub damaged_modules: Vec<usize>,
    /// The corrected codeword stream, data and error correction both repaired. This, not the payload,
    /// is what a pristine re-render is built from.
    pub codewords: Vec<u8>,
    pub version: u32,
    pub ec_level: String,
    pub mask: i32,
    /// Whether the source was light-on-dark and had to be inverted to be read.
    pub source_inverted: bool,
    /// The symbol exactly as it was sampled, row-major, `true` = dark, in the orientation of the
    /// rebuild.
    pub sampled: Vec<bool>,
}

impl Cleaned {
    /// Whether there is a symbol of this stream: version, level and mask exist, and the stream has
    /// the version's length.
    pub open spec fn is_rebuildable(self) -> bool {
        &&& is_version(self.version as int)
        &&& self.codewords@.len() == qr_data_cells(self.version as int).len() / 8
        &&& 0 <= self.mask < 8
        &&& exists|level: EcLevel| self.ec_level@ == #[trigger] level.spec_letter()
    }

    /// Whether the modules were sampled in the size of the version, as the rebuild has it.
    pub open spec fn is_aligned(self) -> bool {
        self.dimension == dimension_of(self.version as int) && self.sampled@.len() == self.dimension
            * self.dimension
    }

    /// Blocks recovered purely by bootstrapping: what was added over a stock decode.
    pub fn blocks_rescued(&self) -> (r: usize)
        ensures
            r == if self.blocks_total >= self.blocks_decoded_initially {
                self.blocks_total - self.blocks_decoded_initially
            } else {
                0
            },
    {
        if self.blocks_total >= self.blocks_decoded_initially {
            self.blocks_total - self.blocks_decoded_initially
        } else {
            0
        }
    }

    /// Whether a stock decoder would have failed on this symbol.
    pub fn needed_barclean(&self) -> (r: bool)
        ensures
            r <==> self.blocks_decoded_initially < self.blocks_total,
    {
        self.blocks_decoded_initially < self.blocks_total
    }
}

/// Why a symbol was not cleaned.
#[derive(Clone, Copy, Debug, PartialEq, Eq, Structural)]
pub enum CleanError {
    /// No symbol found: a framing, focus or resolution problem rather than a damage problem.
    NotDetected,
    /// Located, but its structure could not be read.
    Unreadable,
    /// Read, but too damaged to recover even with bootstrapping. Carries how far it got.
    Unrecoverable { blocks_total: usize, blocks_decoded: usize },
}

impl CleanError {
    /// What is shown to people.
    pub open spec fn spec_message(self) -> Seq<char> {
        match self {
            CleanError::NotDetected => "no symbol found"@,
            CleanError::Unreadable => "symbol found but unreadable"@,
            CleanError::Unrecoverable { blocks_total, blocks_decoded } => "recovered "@ + decimal(
                blocks_decoded as nat,
            ) + "/"@ + decimal(blocks_total as nat) + " blocks"@,
        }
    }

    pub fn message(&self) -> (r: String)
        ensures
            r@ == self.spec_message(),
    {
        match self {
            CleanError::NotDetected => String::from_str("no symbol found"),
            CleanError::Unreadable => String::from_str("symbol found but unreadable"),
            CleanError::Unrecoverable { blocks_total, blocks_decoded } => {
                let mut out = String::from_str("recovered ");
                write_decimal(&mut out, *blocks_decoded as u64);
                out.append("/");
                write_decimal(&mut out, *blocks_total as u64);
                out.append(" blocks");
                out
            },
        }
    }

    /// How far a failed attempt got.
    pub open spec fn progress(self) -> int {
        match self {
            CleanError::NotDetected => -2,
            CleanError::Unreadable => -1,
            CleanError::Unrecoverable { blocks_decoded, .. } => blocks_decoded as int,
        }
    }
}

/// The more informative of two failures: the one that decoded more blocks, of equal ones the first.
pub fn further_of(first: CleanError, second: CleanError) -> (r: CleanError)
    ensures
        r == if first.progress() >= second.progress() {
            first
        } else {
            second
        },
{
    let keep = match (first, second) {
        (
            CleanError::Unrecoverable { blocks_decoded: a, .. },
            CleanError::Unrecoverable { blocks_decoded: b, .. },
        ) => a >= b,
        (CleanError::Unrecoverable { .. }, _) => true,
        (_, CleanError::Unrecoverable { .. }) => false,
        (CleanError::NotDetected, CleanError::Unreadable) => false,
        _ => true,
    };
    if keep {
        first
    } else {
        second
    }
}

/// The square seen across its diagonal.
pub open spec fn transposed(modules: Seq<bool>, d: int) -> Seq<bool> {
    Seq::new(modules.len(), |i: int| modules[(i % d) * d + i / d])
}

/// Reflects a square of modules across its diagonal.
pub fn transpose(modules: &[bool], dimension: usize) -> (r: Vec<bool>)
    requires
        modules@.len() == dimension * dimension,
    ensures
        r@ == transposed(modules@, dimension as int),
{
    let n: usize = modules.len();
    let mut out: Vec<bool> = Vec::with_capacity(n);
    let mut i: usize = 0;
    while i < n
        invariant
            n == modules@.len(),
            modules@.len() == dimension * dimension,
            i <= n,
            out@.len() == i,
            forall|k: int|
                0 <= k < i ==> out@[k] == #[trigger] transposed(modules@, dimension as int)[k],
        decreases n - i,
    {
        proof {
            crate::sample::geometry::lemma_coordinates(
                i as int,
                dimension as int,
                dimension as int,
            );
            crate::sample::geometry::lemma_cell(
                i as int / dimension as int,
                i as int % dimension as int,
                dimension as int,
                dimension as int,
            );
        }
        out.push(modules[(i % dimension) * dimension + i / dimension]);
        i = i + 1;
    }
    assert(out@ =~= transposed(modules@, dimension as int));
    out
}

/// What is read off a symbol before anything is corrected.
pub struct Reading {
    pub dimension: int,
    pub version: u32,
    pub ec: u8,
    pub mask: u8,
    pub raw: Seq<u8>,
}

/// The stream of a reading.
pub open spec fn stream_of(reading: Reading) -> Stream {
    Stream {
        code: Code::Qr,
        raw: reading.raw,
        blocks: qr_blocks(reading.version, reading.ec),
        cells: codeword_cells(qr_data_cells(reading.version as int)),
        dimension: reading.dimension,
    }
}

/// Whether `r` reports a recovery: the failure with how far it got, or what was recovered.
pub open spec fn reports(
    reading: Reading,
    modules: Seq<bool>,
    rounds: Seq<Round>,
    out: BootstrapOutcome,
    r: Result<Cleaned, CleanError>,
) -> bool {
    match out.data {
        None => r == Err::<Cleaned, CleanError>(
            CleanError::Unrecoverable {
                blocks_total: out.blocks_total,
                blocks_decoded: out.blocks_decoded_finally,
            },
        ),
        Some(data) => match qr_message(data@, reading.version, reading.ec) {
            None => r == Err::<Cleaned, CleanError>(CleanError::Unreadable),
            Some(text) => r matches Ok(c) && {
                &&& c.payload@ == text
                &&& c.dimension == reading.dimension
                &&& c.points@ == Seq::<(u32, u32)>::empty()
                &&& c.blocks_total == out.blocks_total
                &&& c.blocks_decoded_initially == out.blocks_decoded_initially
                &&& c.rounds == out.rounds
                &&& c.damaged_modules@ == out.damaged_codeword_modules@
                &&& c.codewords@.len() == reading.raw.len()
                &&& is_interleaved(
                    c.codewords@,
                    qr_blocks(reading.version, reading.ec),
                    rounds.last().results,
                )
                &&& c.version == reading.version
                &&& exists|level: EcLevel|
                    level.spec_bits() == reading.ec && c.ec_level@ == #[trigger] level.spec_letter()
                &&& c.mask == reading.mask
                &&& !c.source_inverted
                &&& c.sampled@ == modules
            },
        },
    }
}

/// Whether cleaning a reading can give `r`.
pub open spec fn is_cleaned_reading(
    reading: Reading,
    modules: Seq<bool>,
    r: Result<Cleaned, CleanError>,
) -> bool {
    exists|rounds: Seq<Round>, out: BootstrapOutcome, params: BootstrapParams| #[trigger]
        is_recovery(stream_of(reading), rounds, out, params) && reports(reading, modules, rounds, out, r)
}

/// Whether cleaning a square of modules, as it stands, can give `r`.
pub open spec fn is_cleaned(
    modules: Seq<bool>,
    d: int,
    r: Result<Cleaned, CleanError>,
) -> bool {
    let grid = grid_rows(modules, d as nat);
    if !(21 <= d <= 177 && d % 4 == 1) {
        r == Err::<Cleaned, CleanError>(CleanError::Unreadable)
    } else {
        match (qr_version(grid), qr_format(grid)) {
            (Some(version), Some((ec, mask))) => is_cleaned_reading(
                Reading {
                    dimension: d,
                    version,
                    ec,
                    mask,
                    raw: codewords_held(grid, mask as int, qr_data_cells(version as int)),
                },
                modules,
                r,
            ),
            _ => r == Err::<Cleaned, CleanError>(CleanError::Unreadable),
        }
    }
}

/// Cleans a square of modules as it stands.
fn clean_once(modules: &[bool], dimension: usize) -> (r: Result<Cleaned, CleanError>)
    requires
        modules@.len() == dimension * dimension,
    ensures
        is_cleaned(modules@, dimension as int, r),
        r is Ok ==> r->Ok_0.is_rebuildable() && r->Ok_0.is_aligned(),
{
    if dimension < 21 || dimension > 177 || dimension % 4 != 1 {
        return Err(CleanError::Unreadable);
    }
    let grid = to_rows(modules, dimension);
    let version: u32 = match read_version(grid.as_slice()) {
        Some(v) => v,
        None => {
            return Err(CleanError::Unreadable);
        },
    };
    let (ec, mask): (u8, u8) = match read_format(grid.as_slice()) {
        Some(f) => f,
        None => {
            return Err(CleanError::Unreadable);
        },
    };
    let raw: Vec<u8> = match read_codewords(grid.as_slice()) {
        Some(raw) => raw,
        None => {
            return Err(CleanError::Unreadable);
        },
    };
    let cells: Vec<Vec<usize>> = match provenance(version) {
        Some(cells) => cells,
        None => {
            return Err(CleanError::Unreadable);
        },
    };
    proof {
        lemma_codeword_count(version as int);
    }
    let places: Vec<(usize, Vec<usize>)> = match block_places(version, ec, raw.len()) {
        Some(places) => places,
        None => {
            return Err(CleanError::Unreadable);
        },
    };
    let ghost blocks = qr_blocks(version, ec);
    let ghost reading = Reading {
        dimension: dimension as int,
        version,
        ec,
        mask,
        raw: raw@,
    };
    proof {
        assert(rows(cells@) =~= codeword_cells(qr_data_cells(version as int)));
        assert forall|g: int, k: int|
            0 <= g < cells@.len() && 0 <= k < cells@[g]@.len() implies #[trigger] cells@[g]@[k]
            < dimension * dimension by {}
    }
    let (outcome, stream) = recover(
        Code::Qr,
        raw.as_slice(),
        places.as_slice(),
        cells.as_slice(),
        dimension,
        Ghost(blocks),
    );
    let ghost whole = stream_of(reading);
    let ghost ended = outcome;
    let ghost corrected = contents(stream);
    assert(is_recovered(whole, ended, corrected));
    let ghost (rounds, params) = choose|rounds: Seq<Round>, params: BootstrapParams| #[trigger]
        is_recovery(whole, rounds, ended, params) && is_restored_stream(
            whole,
            rounds,
            ended,
            corrected,
        );
    assert(is_recovery(whole, rounds, ended, params));
    let codewords: Vec<u8> = match stream {
        Some(stream) => stream,
        None => {
            return Err(
                CleanError::Unrecoverable {
                    blocks_total: outcome.blocks_total,
                    blocks_decoded: outcome.blocks_decoded_finally,
                },
            );
        },
    };
    let data: &Vec<u8> = match &outcome.data {
        Some(data) => data,
        None => {
            return Err(CleanError::Unreadable);
        },
    };
    let payload: String = match read_message(data.as_slice(), version, ec) {
        Some(text) => text,
        None => {
            return Err(CleanError::Unreadable);
        },
    };
    let level = EcLevel::from_bits(ec);
    let mut sampled: Vec<bool> = Vec::new();
    sampled.extend_from_slice(modules);
    assert(sampled@ =~= modules@);
    let points: Vec<(u32, u32)> = Vec::new();
    assert(points@ =~= Seq::<(u32, u32)>::empty());
    let r = Ok(
        Cleaned {
            payload,
            dimension,
            points,
            blocks_total: outcome.blocks_total,
            blocks_decoded_initially: outcome.blocks_decoded_initially,
            rounds: outcome.rounds,
            damaged_modules: outcome.damaged_codeword_modules,
            codewords,
            version,
            ec_level: String::from_str(level.letter()),
            mask: mask as i32,
            source_inverted: false,
            sampled,
        },
    );
    assert(reports(reading, modules@, rounds, ended, r));
    r
}

/// Whether cleaning a square of modules, read as it stands or else mirrored, can give `r`.
pub open spec fn is_cleaned_either_way(
    modules: Seq<bool>,
    d: int,
    r: Result<Cleaned, CleanError>,
) -> bool {
    exists|first: Result<Cleaned, CleanError>| #[trigger]
        is_cleaned(modules, d, first) && match first {
            Ok(_) => r == first,
            Err(e) => is_cleaned_mirrored(modules, d, e, r),
        }
}

/// Whether cleaning mirrored modules can give `r`, when reading them as they stood failed with `e`.
pub open spec fn is_cleaned_mirrored(
    modules: Seq<bool>,
    d: int,
    e: CleanError,
    r: Result<Cleaned, CleanError>,
) -> bool {
    exists|second: Result<Cleaned, CleanError>| #[trigger]
        is_cleaned(transposed(modules, d), d, second) && match second {
            Ok(_) => r == second,
            Err(f) => r == Err::<Cleaned, CleanError>(
                if e.progress() >= f.progress() {
                    e
                } else {
                    f
                },
            ),
        }
}

/// Cleans an already-detected, grid-sampled symbol: a square of modules, row-major, `true` = dark.
///
/// Tries a normal read, then a mirrored one. The detector resolves a symbol's orientation from its
/// three finder patterns, which are symmetric about the diagonal, so a perfectly good symbol is
/// routinely sampled transposed. Of two failures the one that got further is reported.
pub fn clean_bitmatrix(modules: &[bool], dimension: usize) -> (r: Result<Cleaned, CleanError>)
    requires
        modules@.len() == dimension * dimension,
    ensures
        is_cleaned_either_way(modules@, dimension as int, r),
        r is Ok ==> r->Ok_0.is_rebuildable() && r->Ok_0.is_aligned(),
{
    let first = clean_once(modules, dimension);
    match first {
        Ok(cleaned) => Ok(cleaned),
        Err(e) => {
            let mirrored = transpose(modules, dimension);
            let second = clean_once(mirrored.as_slice(), dimension);
            let ghost ended = second;
            assert(is_cleaned(transposed(modules@, dimension as int), dimension as int, ended));
            match second {
                Ok(cleaned) => {
                    let r = Ok(cleaned);
                    assert(is_cleaned_mirrored(modules@, dimension as int, e, r));
                    r
                },
                Err(f) => {
                    let r = Err(further_of(e, f));
                    assert(is_cleaned_mirrored(modules@, dimension as int, e, r));
                    r
                },
            }
        },
    }
}

/// Whether `r` is `plain` with the finder centres filled in.
pub open spec fn with_points(
    plain: Result<Cleaned, CleanError>,
    points: Seq<(u32, u32)>,
    r: Result<Cleaned, CleanError>,
) -> bool {
    match plain {
        Ok(c) => r matches Ok(found) && found.points@ == points && found == (Cleaned {
            points: found.points,
            ..c
        }),
        Err(_) => r == plain,
    }
}

/// Whether cleaning detected modules can give `r`.
pub open spec fn is_cleaned_detection(
    d: int,
    modules: Seq<bool>,
    points: Seq<(u32, u32)>,
    r: Result<Cleaned, CleanError>,
) -> bool {
    exists|plain: Result<Cleaned, CleanError>| #[trigger]
        is_cleaned_either_way(modules, d, plain) && with_points(plain, points, r)
}

/// Whether cleaning an image in the polarity given can give `r`.
pub open spec fn is_cleaned_image(
    luma: Seq<u8>,
    width: u32,
    height: u32,
    r: Result<Cleaned, CleanError>,
) -> bool {
    match qr_found(luma, width, height) {
        None => r == Err::<Cleaned, CleanError>(CleanError::NotDetected),
        Some((d, modules, points)) => is_cleaned_detection(d as int, modules, points, r),
    }
}

/// Cleans what a detector found.
pub fn clean_detection(found: Detection) -> (r: Result<Cleaned, CleanError>)
    requires
        found.modules@.len() == found.dimension * found.dimension,
    ensures
        is_cleaned_detection(found.dimension as int, found.modules@, found.points@, r),
        r is Ok ==> r->Ok_0.is_rebuildable() && r->Ok_0.is_aligned(),
{
    let plain = clean_bitmatrix(found.modules.as_slice(), found.dimension);
    let ghost ended = plain;
    let ghost centres = found.points@;
    assert(is_cleaned_either_way(found.modules@, found.dimension as int, ended));
    let r = match plain {
        Ok(c) => {
            let mut c = c;
            c.points = found.points;
            Ok(c)
        },
        Err(e) => Err(e),
    };
    assert(with_points(ended, centres, r));
    r
}

/// Detects and cleans a QR symbol in an image of the polarity given.
fn clean_oriented(luma: &[u8], width: u32, height: u32) -> (r: Result<Cleaned, CleanError>)
    ensures
        is_cleaned_image(luma@, width, height, r),
        r is Ok ==> r->Ok_0.is_rebuildable() && r->Ok_0.is_aligned(),
        luma@.len() != width * height ==> r == Err::<Cleaned, CleanError>(CleanError::NotDetected),
{
    match find(luma, width, height) {
        None => Err(CleanError::NotDetected),
        Some(found) => clean_detection(found),
    }
}

/// The photographic negative.
pub open spec fn negative(luma: Seq<u8>) -> Seq<u8> {
    luma.map_values(|v: u8| (255 - v) as u8)
}

/// Inverts every pixel.
pub fn invert(luma: &[u8]) -> (r: Vec<u8>)
    ensures
        r@ == negative(luma@),
{
    let mut out: Vec<u8> = Vec::with_capacity(luma.len());
    for i in 0..luma.len()
        invariant
            out@.len() == i,
            forall|k: int| 0 <= k < i ==> #[trigger] out@[k] == 255 - luma@[k],
    {
        out.push(255 - luma[i]);
    }
    assert(out@ =~= negative(luma@));
    out
}

/// Whether cleaning an image in either polarity can give `r`.
pub open spec fn is_cleaned_luma(
    luma: Seq<u8>,
    width: u32,
    height: u32,
    r: Result<Cleaned, CleanError>,
) -> bool {
    exists|first: Result<Cleaned, CleanError>| #[trigger]
        is_cleaned_image(luma, width, height, first) && match first {
            Ok(c) => r == Ok::<Cleaned, CleanError>(Cleaned { source_inverted: false, ..c }),
            Err(e) => is_cleaned_negative(luma, width, height, e, r),
        }
}

/// Whether cleaning the negative of an image can give `r`, when the image itself failed with `e`.
pub open spec fn is_cleaned_negative(
    luma: Seq<u8>,
    width: u32,
    height: u32,
    e: CleanError,
    r: Result<Cleaned, CleanError>,
) -> bool {
    exists|second: Result<Cleaned, CleanError>| #[trigger]
        is_cleaned_image(negative(luma), width, height, second) && match second {
            Ok(c) => r == Ok::<Cleaned, CleanError>(Cleaned { source_inverted: true, ..c }),
            Err(_) => r == Err::<Cleaned, CleanError>(e),
        }
}

/// Detects and cleans a QR symbol in a luminance image.
///
/// Tries the image as it is, then inverted: plenty of real codes are printed light-on-dark. When
/// neither works, the verdict on the image as it is is reported.
pub fn clean_luma(luma: &[u8], width: u32, height: u32) -> (r: Result<Cleaned, CleanError>)
    ensures
        is_cleaned_luma(luma@, width, height, r),
        r is Ok ==> r->Ok_0.is_rebuildable() && r->Ok_0.is_aligned(),
        luma@.len() != width * height ==> r == Err::<Cleaned, CleanError>(CleanError::NotDetected),
{
    let first = clean_oriented(luma, width, height);
    let ghost tried = first;
    assert(is_cleaned_image(luma@, width, height, tried));
    match first {
        Ok(c) => {
            let mut c = c;
            c.source_inverted = false;
            Ok(c)
        },
        Err(e) => {
            let flipped = invert(luma);
            let second = clean_oriented(flipped.as_slice(), width, height);
            let ghost ended = second;
            assert(is_cleaned_image(negative(luma@), width, height, ended));
            let r = match second {
                Ok(c) => {
                    let mut c = c;
                    c.source_inverted = true;
                    Ok(c)
                },
                Err(_) => Err(e),
            };
            assert(is_cleaned_negative(luma@, width, height, e, r));
            r
        },
    }
}

/// What rebuilding a cleaned symbol gives.
pub open spec fn is_reconstruction(c: Cleaned, r: Result<Reconstructed, RebuildError>) -> bool {
    if !is_version(c.version as int) {
        r matches Err(RebuildError::UnknownVersion { version }) && version == c.version
    } else if !(exists|level: EcLevel| c.ec_level@ == #[trigger] level.spec_letter()) {
        r matches Err(RebuildError::UnknownLevel { level }) && level@ == c.ec_level@
    } else {
        forall|level: EcLevel|
            c.ec_level@ == #[trigger] level.spec_letter() ==> is_rebuilt(
                c.codewords@,
                c.version,
                level,
                c.mask,
                r,
            )
    }
}

impl Cleaned {
    /// Rebuilds the pristine symbol that this scan came from.
    pub fn reconstruct(&self) -> (r: Result<Reconstructed, RebuildError>)
        ensures
            is_reconstruction(*self, r),
            self.is_rebuildable() ==> r is Ok,
    {
        if self.version < 1 || self.version > 40 {
            return Err(RebuildError::UnknownVersion { version: self.version });
        }
        match EcLevel::from_letter(self.ec_level.as_str()) {
            Some(level) => {
                proof {
                    assert forall|other: EcLevel| self.ec_level@
                        == #[trigger] other.spec_letter() implies other == level by {
                        lemma_letters_differ(level, other);
                    }
                }
                from_codewords(self.codewords.as_slice(), self.version, level, self.mask)
            },
            None => {
                proof {
                    assert forall|other: EcLevel| self.ec_level@ != #[trigger] other.spec_letter() by {}
                }
                Err(RebuildError::UnknownLevel { level: self.ec_level.clone() })
            },
        }
    }
}

/// A symbol that is not damaged is left as it is: every block decodes at once, nothing is marked
/// damaged, and the codewords are those that the symbol was built from.
pub proof fn law_clean_symbols_are_left_alone(
    modules: Seq<bool>,
    codewords: Seq<u8>,
    version: u32,
    ec: u8,
    mask: u8,
    r: Result<Cleaned, CleanError>,
)
    requires
        is_version(version as int),
        reads_back(modules, codewords, version, ec, mask),
        blocks_tile(qr_blocks(version, ec), codewords.len() as int),
        qr_blocks(version, ec).len() <= usize::MAX,
        forall|b: int|
            0 <= b < qr_blocks(version, ec).len() ==> is_sound(
                Code::Qr,
                block_word(codewords, #[trigger] qr_blocks(version, ec)[b]),
                block_layouts(qr_blocks(version, ec))[b].spec_ecc() as nat,
            ),
        is_cleaned(modules, dimension_of(version as int), r),
    ensures
        r matches Ok(c) ==> {
            &&& c.codewords@ == codewords
            &&& c.rounds == 1
            &&& c.blocks_decoded_initially == c.blocks_total
            &&& c.damaged_modules@ == Seq::<usize>::empty()
            &&& c.version == version
            &&& c.mask == mask
            &&& c.sampled@ == modules
        },
        r is Err ==> r == Err::<Cleaned, CleanError>(CleanError::Unreadable),
{
    let blocks = qr_blocks(version, ec);
    let layouts = block_layouts(blocks);
    let cells = codeword_cells(qr_data_cells(version as int));
    let d = dimension_of(version as int);
    let reading = Reading { dimension: d, version, ec, mask, raw: codewords };
    assert(is_cleaned_reading(reading, modules, r));
    let (rounds, out, params) = choose|
        rounds: Seq<Round>,
        out: BootstrapOutcome,
        params: BootstrapParams,
    | #[trigger]
        is_recovery(stream_of(reading), rounds, out, params) && reports(reading, modules, rounds, out, r);
    let answers = block_answers(Code::Qr, codewords, blocks);
    let map = block_map(blocks);
    assert(is_round(
        answers,
        map,
        layouts,
        cells,
        d,
        params.fit,
        rounds,
        0,
    ));
    let results = rounds[0].results;
    assert forall|b: int| 0 <= b < blocks.len() implies results[b] is Some && codewords_in(
        results[b],
    ) == block_word(codewords, blocks[b]) && damage_in(results[b])
        == Seq::<usize>::empty() by {
        let word = block_word(codewords, blocks[b]);
        let ecc = layouts[b].spec_ecc() as nat;
        assert(rounds[0].erasures[b] == Seq::<usize>::empty());
        assert(answers(b as usize, rounds[0].erasures[b], results[b]));
        assert(is_block_answer(Code::Qr, word, ecc, Seq::empty(), results[b]));
        assert(is_sound(Code::Qr, word, ecc));
        assert(differing(word, word) =~= Set::<int>::empty());
        let damage = damage_in(results[b]);
        crate::order::lemma_lists_len(damage, differing(word, word));
        assert(damage =~= Seq::<usize>::empty());
    }
    assert(decoded_blocks(results)
        =~= vstd::set_lib::set_int_range(0, blocks.len() as int));
    vstd::set_lib::lemma_int_range(0, blocks.len() as int);
    law_clean_symbols_take_one_round(
        answers,
        map,
        layouts,
        cells,
        d,
        params,
        rounds,
        out,
    );
    assert(rounds.len() == 1);
    assert(rounds.last() == rounds[0]);
    assert(proven(map, results) =~= Set::<int>::empty()) by {
        assert forall|g: int| !proven(map, results).contains(g) by {
            if proven(map, results).contains(g) {
                let (b, k) = choose|b: int, k: int|
                    #![trigger globals_of(map, b as usize, damage_in(results[b]))[k]]
                    0 <= b < results.len() && results[b] is Some && 0 <= k
                        < globals_of(
                        map,
                        b as usize,
                        damage_in(results[b]),
                    ).len() && globals_of(
                        map,
                        b as usize,
                        damage_in(results[b]),
                    )[k] == g;
                assert(damage_in(results[b]) == Seq::<usize>::empty());
            }
        }
    }
    law_no_evidence_ends_the_loop(
        answers,
        map,
        layouts,
        cells,
        d,
        params,
        rounds,
        out,
    );
    if let Ok(c) = r {
        law_restored_blocks_restore_the_stream(codewords, c.codewords@, blocks, results);
    }
}

/// A defaced symbol reconstructs to the pristine original: when every block of what was read was
/// within its budget when it decoded, the symbol rebuilt from the recovery is the one that the
/// original codewords make, module for module.
pub proof fn law_defaced_symbols_reconstruct_to_the_original(
    reading: Reading,
    level: EcLevel,
    modules: Seq<bool>,
    rounds: Seq<Round>,
    out: BootstrapOutcome,
    params: BootstrapParams,
    cleaned: Cleaned,
    built: Result<Reconstructed, RebuildError>,
    codewords: Seq<u8>,
    original: Reconstructed,
)
    requires
        is_version(reading.version as int),
        reading.ec == level.spec_bits(),
        blocks_tile(qr_blocks(reading.version, reading.ec), reading.raw.len() as int),
        qr_blocks(reading.version, reading.ec).len() <= usize::MAX,
        is_recovery(stream_of(reading), rounds, out, params),
        reports(reading, modules, rounds, out, Ok(cleaned)),
        is_reconstruction(cleaned, built),
        codewords.len() == reading.raw.len(),
        is_within_budget(stream_of(reading), codewords, rounds),
        is_rebuilt(codewords, reading.version, level, reading.mask as i32, Ok(original)),
    ensures
        cleaned.codewords@ == codewords,
        built matches Ok(symbol) && symbol@ == original@ && symbol.dimension == original.dimension
            && symbol.height == original.height,
{
    let s = stream_of(reading);
    assert(is_restored_stream(s, rounds, out, Some(cleaned.codewords@)));
    law_recovered_streams_are_the_original(s, codewords, rounds, out, params, cleaned.codewords@);
    let written = choose|other: EcLevel|
        other.spec_bits() == reading.ec && cleaned.ec_level@ == #[trigger] other.spec_letter();
    assert(written == level);
    assert(cleaned.ec_level@ == level.spec_letter());
    assert(is_rebuilt(cleaned.codewords@, cleaned.version, level, cleaned.mask, built));
}

/// Failures tell how far they got: nothing found is the least, something found that could not be read is
/// more, blocks that could not all be recovered more still, and the more the more were.
pub proof fn law_recovered_blocks_are_progress(
    total: usize,
    decoded: usize,
    other_total: usize,
    other_decoded: usize,
)
    ensures
        CleanError::NotDetected.progress() < CleanError::Unreadable.progress(),
        CleanError::Unreadable.progress() < (CleanError::Unrecoverable {
            blocks_total: total,
            blocks_decoded: decoded,
        }).progress(),
        decoded < other_decoded <==> (CleanError::Unrecoverable {
            blocks_total: total,
            blocks_decoded: decoded,
        }).progress() < (CleanError::Unrecoverable {
            blocks_total: other_total,
            blocks_decoded: other_decoded,
        }).progress(),
{
}

/// Mirroring a square swaps columns and rows, and mirroring it again gives it back.
pub proof fn law_mirroring_swaps_columns_and_rows(modules: Seq<bool>, d: int, x: int, y: int)
    requires
        modules.len() == d * d,
        0 <= x < d,
        0 <= y < d,
    ensures
        transposed(modules, d).len() == modules.len(),
        0 <= y * d + x < modules.len(),
        0 <= x * d + y < modules.len(),
        transposed(modules, d)[y * d + x] == modules[x * d + y],
        transposed(transposed(modules, d), d)[y * d + x] == modules[y * d + x],
{
    crate::sample::geometry::lemma_cell(x, y, d, d);
    crate::sample::geometry::lemma_cell(y, x, d, d);
}

/// A negative has light for dark: a pixel and its negative make 255, and the negative of a negative is the
/// image.
pub proof fn law_negatives_undo_themselves(luma: Seq<u8>, i: int)
    requires
        0 <= i < luma.len(),
    ensures
        negative(luma).len() == luma.len(),
        negative(luma)[i] + luma[i] == 255,
        negative(negative(luma)) == luma,
{
    assert(negative(negative(luma)) =~= luma);
}

/// A square is given up only when it could be read neither as it stands nor mirrored; what is told is the
/// failure of the two that got further.
pub proof fn law_squares_are_read_both_ways(modules: Seq<bool>, d: int, e: CleanError)
    requires
        is_cleaned_either_way(modules, d, Err(e)),
    ensures
        exists|first: CleanError, second: CleanError|
            #![trigger is_cleaned(modules, d, Err(first)), is_cleaned(transposed(modules, d), d, Err(second))]
            is_cleaned(modules, d, Err(first)) && is_cleaned(transposed(modules, d), d, Err(second))
                && (e == first || e == second) && e.progress() >= first.progress() && e.progress()
                >= second.progress(),
{
    let r = Err::<Cleaned, CleanError>(e);
    let tried = choose|tried: Result<Cleaned, CleanError>| #[trigger]
        is_cleaned(modules, d, tried) && match tried {
            Ok(_) => r == tried,
            Err(f) => is_cleaned_mirrored(modules, d, f, r),
        };
    let first = tried->Err_0;
    let again = choose|again: Result<Cleaned, CleanError>| #[trigger]
        is_cleaned(transposed(modules, d), d, again) && match again {
            Ok(_) => r == again,
            Err(f) => r == Err::<Cleaned, CleanError>(
                if first.progress() >= f.progress() {
                    first
                } else {
                    f
                },
            ),
        };
    let second = again->Err_0;
    assert(is_cleaned(modules, d, Err(first)));
    assert(is_cleaned(transposed(modules, d), d, Err(second)));
}

/// An image is given up only when neither it nor its negative could be cleaned, and what is told is the
/// failure of the image. What is cleaned says whether it came from the negative, and it does so only when the
/// image failed.
pub proof fn law_images_are_read_in_both_polarities(
    luma: Seq<u8>,
    width: u32,
    height: u32,
    r: Result<Cleaned, CleanError>,
)
    requires
        is_cleaned_luma(luma, width, height, r),
    ensures
        r matches Err(e) ==> is_cleaned_image(luma, width, height, Err(e)) && exists|f: CleanError|
            is_cleaned_image(luma.map_values(|v: u8| (255 - v) as u8), width, height, Err(f)),
        r matches Ok(c) ==> if c.source_inverted {
            (exists|e: CleanError| is_cleaned_image(luma, width, height, Err(e))) && exists|d: Cleaned|
                is_cleaned_image(luma.map_values(|v: u8| (255 - v) as u8), width, height, Ok(d))
                    && c.payload == d.payload && c.codewords == d.codewords && c.points == d.points
                    && c.sampled == d.sampled
        } else {
            exists|d: Cleaned|
                is_cleaned_image(luma, width, height, Ok(d)) && c.payload == d.payload && c.codewords
                    == d.codewords && c.points == d.points && c.sampled == d.sampled
        },
{
    let flipped = luma.map_values(|v: u8| (255 - v) as u8);
    assert(flipped =~= negative(luma));
    let first = choose|first: Result<Cleaned, CleanError>| #[trigger]
        is_cleaned_image(luma, width, height, first) && match first {
            Ok(c) => r == Ok::<Cleaned, CleanError>(Cleaned { source_inverted: false, ..c }),
            Err(e) => is_cleaned_negative(luma, width, height, e, r),
        };
    match first {
        Ok(d) => {
            assert(is_cleaned_image(luma, width, height, Ok(d)));
        },
        Err(e) => {
            assert(is_cleaned_image(luma, width, height, Err(e)));
            let second = choose|second: Result<Cleaned, CleanError>| #[trigger]
                is_cleaned_image(negative(luma), width, height, second) && match second {
                    Ok(c) => r == Ok::<Cleaned, CleanError>(Cleaned { source_inverted: true, ..c }),
                    Err(_) => r == Err::<Cleaned, CleanError>(e),
                };
            match second {
                Ok(d) => {
                    assert(is_cleaned_image(flipped, width, height, Ok(d)));
                },
                Err(f) => {
                    assert(is_cleaned_image(flipped, width, height, Err(f)));
                },
            }
        },
    }
}

/// What a cleaned symbol marks as damaged is what it corrected: a module is marked exactly when it belongs to
/// a codeword that was read otherwise than it now is. A symbol that could not be recovered tells how many of
/// its blocks decoded in the end, which are not all.
pub proof fn law_marked_modules_are_those_of_corrected_codewords(
    reading: Reading,
    modules: Seq<bool>,
    rounds: Seq<Round>,
    out: BootstrapOutcome,
    params: BootstrapParams,
    r: Result<Cleaned, CleanError>,
    m: usize,
)
    requires
        is_recovery(stream_of(reading), rounds, out, params),
        reports(reading, modules, rounds, out, r),
        blocks_tile(qr_blocks(reading.version, reading.ec), reading.raw.len() as int),
        qr_blocks(reading.version, reading.ec).len() <= usize::MAX,
        reading.raw.len() <= usize::MAX,
        reading.raw.len() == codeword_cells(qr_data_cells(reading.version as int)).len(),
    ensures
        r matches Ok(c) ==> {
            let cells = codeword_cells(qr_data_cells(reading.version as int));
            &&& c.damaged_modules@.contains(m) <==> exists|g: int|
                0 <= g < reading.raw.len() && reading.raw[g] != c.codewords@[g] && (
                #[trigger] cells[g]).contains(m)
            &&& c.sampled@ == modules
            &&& c.version == reading.version
            &&& c.mask == reading.mask
        },
        r matches Err(CleanError::Unrecoverable { blocks_total, blocks_decoded }) ==> blocks_total
            == qr_blocks(reading.version, reading.ec).len() && blocks_decoded == Set::new(
            |b: int| 0 <= b < rounds.last().results.len() && rounds.last().results[b] is Some,
        ).len() && blocks_decoded < blocks_total,
{
    let s = stream_of(reading);
    crate::clean::blocks::law_recoveries_use_all_their_evidence(s, rounds, out, params);
    assert(decoded_blocks(rounds.last().results) =~= Set::new(
        |b: int| 0 <= b < rounds.last().results.len() && rounds.last().results[b] is Some,
    ));
    if let Ok(c) = r {
        assert(is_restored_stream(s, rounds, out, Some(c.codewords@)));
        crate::clean::blocks::law_damaged_modules_are_those_of_corrected_codewords(
            s,
            rounds,
            out,
            params,
            c.codewords@,
            m,
        );
    }
}

/// The message of a failed attempt tells how far it got: the blocks that decoded, a stroke, and how many
/// there are.
pub proof fn law_messages_tell_how_far_it_got(blocks_total: usize, blocks_decoded: usize)
    ensures
        ({
            let said = CleanError::Unrecoverable { blocks_total, blocks_decoded }.spec_message();
            let decoded = decimal(blocks_decoded as nat).len() as int;
            let total = decimal(blocks_total as nat).len() as int;
            &&& said.len() == 10 + decoded + 1 + total + 7
            &&& said.subrange(0, 10) == "recovered "@
            &&& crate::text::spelled(said.subrange(10, 10 + decoded)) == blocks_decoded
            &&& said[10 + decoded] == '/'
            &&& crate::text::spelled(said.subrange(11 + decoded, 11 + decoded + total))
                == blocks_total
            &&& said.subrange(11 + decoded + total, said.len() as int) == " blocks"@
        }),
{
    reveal_strlit("recovered ");
    reveal_strlit("/");
    reveal_strlit(" blocks");
    let said = CleanError::Unrecoverable { blocks_total, blocks_decoded }.spec_message();
    let decoded = decimal(blocks_decoded as nat);
    let total = decimal(blocks_total as nat);
    let (m, n) = (decoded.len() as int, total.len() as int);
    crate::text::law_numerals_spell_their_number(blocks_decoded as nat);
    crate::text::law_numerals_spell_their_number(blocks_total as nat);
    assert(said.subrange(0, 10) =~= "recovered "@);
    assert(said.subrange(10, 10 + m) =~= decoded);
    assert(said.subrange(11 + m, 11 + m + n) =~= total);
    assert(said.subrange(11 + m + n, said.len() as int) =~= " blocks"@);
}

} // verus!
