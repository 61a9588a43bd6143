//! Exact DataMatrix restoration, with bootstrapping on interleaved symbols.
//!
//! Large DataMatrix symbols interleave their Reed-Solomon blocks the way QR does, so a contiguous
//! patch of damage is spread across every block and surviving blocks can localize it for the ones
//! that failed. Smaller symbols carry a single block: they decode or they do not.
//!
//! Restoration is exact either way. Codewords are read with the modules that produced them,
//! corrected, and written back into those same modules. Function patterns are not part of the stream
//! and keep their sampled values.
use vstd::prelude::*;
use crate::clean::blocks::{contents, is_recovered, recover, Code, Stream};
use crate::clean::bootstrap::BootstrapOutcome;
use crate::clean::erasure::rows;
use crate::clean::qr::CleanError;
use crate::codec::blocks::{count_data, data_count};
use crate::codec::datamatrix::{
    are_cells, bit_at, block_places, codeword_bit, codeword_places, dm_blocks, dm_found, dm_places, find,
    is_placement, lemma_bits_spell, lemma_spelled_bit, picked, read_codewords,
    spelled, Sampled, LONGEST_SIDE,
};
use crate::codec::datamatrix_text::{dm_message, read_message};
use crate::render::exact::Reconstructed;
use crate::sample::geometry::larger;

verus! {

/// An exactly restored DataMatrix symbol.
#[derive(Clone, Debug)]
pub struct CleanedDataMatrix {
    pub payload: String,
    pub width: usize,
    pub height: usize,
    /// The symbol as sampled, row-major, `true` = dark.
    pub sampled: Vec<bool>,
    pub rebuilt: Reconstructed,
    pub blocks_total: usize,
    /// Blocks that decoded before any bootstrapping.
    pub blocks_decoded_initially: usize,
}

impl CleanedDataMatrix {
    pub fn blocks_rescued(&self) -> (r: usize)
        ensures
            r == if self.blocks_total >= self.blocks_decoded_initially {
                self.blocks_total - self.blocks_decoded_initially
            } else {
                0
            },
    {
        self.blocks_total.saturating_sub(self.blocks_decoded_initially)
    }
}

/// Whether a module belongs to a codeword.
pub open spec fn is_covered(places: Seq<Seq<nat>>, m: int) -> bool {
    exists|k: int, i: int|
        #![trigger places[k][i]]
        0 <= k < places.len() && 0 <= i < 8 && places[k][i] == m
}

/// Whether `modules` are the sampled ones with a stream written into them: every codeword into its
/// own modules, and nothing elsewhere.
pub open spec fn is_written(
    sampled: Seq<bool>,
    places: Seq<Seq<nat>>,
    stream: Seq<u8>,
    modules: Seq<bool>,
) -> bool {
    &&& modules.len() == sampled.len()
    &&& forall|k: int, i: int|
        #![trigger places[k][i]]
        0 <= k < places.len() && 0 <= i < 8 ==> modules[places[k][i] as int] == bit_at(stream[k], i)
    &&& forall|m: int|
        0 <= m < sampled.len() && !#[trigger] is_covered(places, m) ==> modules[m] == sampled[m]
}

/// The modules of each codeword, as machine numbers.
pub open spec fn cells_of(places: Seq<Seq<nat>>) -> Seq<Seq<usize>> {
    places.map_values(|cells: Seq<nat>| cells.map_values(|m: nat| m as usize))
}

/// The stream that a symbol of this size holds.
pub open spec fn stream_of(w: int, h: int, modules: Seq<bool>, places: Seq<Seq<nat>>) -> Stream {
    Stream {
        code: Code::DataMatrix,
        raw: picked(modules, places),
        blocks: dm_blocks(w as nat, h as nat),
        cells: cells_of(places),
        dimension: if w >= h {
            w
        } else {
            h
        },
    }
}

/// The data codewords of a stream: those it begins with.
pub open spec fn data_of(w: int, h: int, stream: Seq<u8>) -> Seq<u8> {
    let blocks = dm_blocks(w as nat, h as nat);
    stream.subrange(0, data_count(blocks, blocks.len()) as int)
}

/// Whether `r` reports a recovery: the failure with how far it got, or what was restored.
pub open spec fn reports(
    w: int,
    h: int,
    modules: Seq<bool>,
    places: Seq<Seq<nat>>,
    out: BootstrapOutcome,
    stream: Option<Seq<u8>>,
    r: Result<CleanedDataMatrix, CleanError>,
) -> bool {
    match stream {
        None => r == Err::<CleanedDataMatrix, CleanError>(
            CleanError::Unrecoverable {
                blocks_total: out.blocks_total,
                blocks_decoded: out.blocks_decoded_finally,
            },
        ),
        Some(s) => match dm_message(data_of(w, h, s)) {
            None => r == Err::<CleanedDataMatrix, CleanError>(CleanError::Unreadable),
            Some(text) => r matches Ok(c) && {
                &&& c.payload@ == text
                &&& c.width == w
                &&& c.height == h
                &&& c.sampled@ == modules
                &&& c.rebuilt.wf()
                &&& c.rebuilt.dimension == w
                &&& c.rebuilt.height == h
                &&& is_written(modules, places, s, c.rebuilt@)
                &&& c.blocks_total == out.blocks_total
                &&& c.blocks_decoded_initially == out.blocks_decoded_initially
            },
        },
    }
}

/// Whether cleaning what was read off a symbol can give `r`.
pub open spec fn is_cleaned_reading(
    w: int,
    h: int,
    modules: Seq<bool>,
    places: Seq<Seq<nat>>,
    r: Result<CleanedDataMatrix, CleanError>,
) -> bool {
    exists|out: BootstrapOutcome, stream: Option<Seq<u8>>| #[trigger]
        is_recovered(stream_of(w, h, modules, places), out, stream) && reports(
            w,
            h,
            modules,
            places,
            out,
            stream,
            r,
        )
}

/// Whether cleaning sampled modules can give `r`.
pub open spec fn is_cleaned(
    w: int,
    h: int,
    modules: Seq<bool>,
    r: Result<CleanedDataMatrix, CleanError>,
) -> bool {
    if !(1 <= w <= LONGEST_SIDE && 1 <= h <= LONGEST_SIDE) {
        r == Err::<CleanedDataMatrix, CleanError>(CleanError::Unreadable)
    } else {
        match dm_places(w as nat, h as nat) {
            None => r == Err::<CleanedDataMatrix, CleanError>(CleanError::Unreadable),
            Some(places) => is_cleaned_reading(w, h, modules, places, r),
        }
    }
}

/// Writes a stream into the modules that its codewords were read from.
fn write_back(
    sampled: &[bool],
    cells: &[Vec<usize>],
    stream: &[u8],
    Ghost(places): Ghost<Seq<Seq<nat>>>,
) -> (r: Vec<bool>)
    requires
        is_placement(places, sampled@.len() as int),
        are_cells(places, cells@),
        stream@.len() == places.len(),
    ensures
        is_written(sampled@, places, stream@, r@),
{
    let mut out: Vec<bool> = Vec::new();
    out.extend_from_slice(sampled);
    assert(out@ =~= sampled@);
    let mut k: usize = 0;
    while k < cells.len()
        invariant
            is_placement(places, sampled@.len() as int),
            are_cells(places, cells@),
            stream@.len() == places.len(),
            k <= cells@.len(),
            out@.len() == sampled@.len(),
            forall|c: int, i: int|
                #![trigger places[c][i]]
                0 <= c < k && 0 <= i < 8 ==> out@[places[c][i] as int] == bit_at(stream@[c], i),
            forall|m: int|
                0 <= m < sampled@.len() && !#[trigger] is_covered(places, m) ==> out@[m]
                    == sampled@[m],
        decreases cells@.len() - k,
    {
        let own = &cells[k];
        assert(own@.len() == 8) by {
            assert(cells@[k as int]@.len() == 8);
        }
        let codeword: u8 = stream[k];
        let mut i: usize = 0;
        while i < 8
            invariant
                is_placement(places, sampled@.len() as int),
                are_cells(places, cells@),
                0 <= k < places.len(),
                own@ == cells@[k as int]@,
                own@.len() == 8,
                codeword == stream@[k as int],
                i <= 8,
                out@.len() == sampled@.len(),
                forall|c: int, j: int|
                    #![trigger places[c][j]]
                    0 <= c < k && 0 <= j < 8 ==> out@[places[c][j] as int] == bit_at(stream@[c], j),
                forall|j: int|
                    #![trigger places[k as int][j]]
                    0 <= j < i ==> out@[places[k as int][j] as int] == bit_at(codeword, j),
                forall|m: int|
                    0 <= m < sampled@.len() && !#[trigger] is_covered(places, m) ==> out@[m]
                        == sampled@[m],
            decreases 8 - i,
        {
            let ghost was = out@;
            let m: usize = own[i];
            proof {
                assert(cells@[k as int]@[i as int] == places[k as int][i as int]);
                assert(places[k as int][i as int] < sampled@.len());
                assert(is_covered(places, m as int));
            }
            out.set(m, codeword_bit(codeword, i));
            proof {
                assert forall|c: int, j: int|
                    #![trigger places[c][j]]
                    0 <= c < k && 0 <= j < 8 implies out@[places[c][j] as int] == bit_at(
                    stream@[c],
                    j,
                ) by {
                    assert(places[c][j] != places[k as int][i as int]);
                }
                assert forall|j: int|
                    #![trigger places[k as int][j]]
                    0 <= j < i + 1 implies out@[places[k as int][j] as int] == bit_at(codeword, j) by {
                    if j < i {
                        assert(places[k as int][j] != places[k as int][i as int]);
                    }
                }
            }
            i = i + 1;
        }
        k = k + 1;
    }
    out
}

/// Cleans an already-detected, grid-sampled DataMatrix symbol.
pub fn clean_matrix(found: Sampled) -> (r: Result<CleanedDataMatrix, CleanError>)
    requires
        found.modules@.len() == found.width * found.height,
    ensures
        is_cleaned(found.width as int, found.height as int, found.modules@, r),
{
    let w: usize = found.width;
    let h: usize = found.height;
    if w < 1 || w > LONGEST_SIDE || h < 1 || h > LONGEST_SIDE {
        return Err(CleanError::Unreadable);
    }
    let sampled = found.modules;
    let raw: Vec<u8> = match read_codewords(sampled.as_slice(), w, h) {
        Some(raw) => raw,
        None => {
            return Err(CleanError::Unreadable);
        },
    };
    let cells: Vec<Vec<usize>> = match codeword_places(w, h) {
        Some(cells) => cells,
        None => {
            return Err(CleanError::Unreadable);
        },
    };
    let ghost places = dm_places(w as nat, h as nat)->0;
    let ghost blocks = dm_blocks(w as nat, h as nat);
    proof {
        assert(w * h <= 144 * 144 && 0 <= w * h) by (nonlinear_arith)
            requires
                1 <= w <= 144,
                1 <= h <= 144,
        ;
    }
    let own: Vec<(usize, Vec<usize>)> = match block_places(w, h, raw.len()) {
        Some(own) => own,
        None => {
            return Err(CleanError::Unreadable);
        },
    };
    let dimension: usize = larger(w, h);
    proof {
        assert(rows(cells@) =~~= cells_of(places)) by {
            assert forall|k: int| 0 <= k < places.len() implies #[trigger] rows(cells@)[k]
                =~= cells_of(places)[k] by {
                assert(cells@[k]@.len() == 8);
                assert forall|i: int| 0 <= i < 8 implies cells@[k]@[i] == cells_of(places)[k][i] by {
                    assert(cells@[k]@[i] == places[k][i]);
                }
            }
        }
        assert(w * h <= dimension * dimension) by (nonlinear_arith)
            requires
                1 <= w <= dimension,
                1 <= h <= dimension,
        ;
        assert forall|g: int, k: int|
            0 <= g < cells@.len() && 0 <= k < cells@[g]@.len() implies #[trigger] cells@[g]@[k]
            < dimension * dimension by {
            assert(cells@[g]@.len() == 8);
            assert(places[g][k] < w * h);
        }
    }
    let (outcome, stream) = recover(
        Code::DataMatrix,
        raw.as_slice(),
        own.as_slice(),
        cells.as_slice(),
        dimension,
        Ghost(blocks),
    );
    let ghost ended = outcome;
    let ghost corrected = contents(stream);
    assert(is_recovered(stream_of(w as int, h as int, sampled@, places), ended, corrected));
    let stream: Vec<u8> = match stream {
        Some(stream) => stream,
        None => {
            return Err(
                CleanError::Unrecoverable {
                    blocks_total: outcome.blocks_total,
                    blocks_decoded: outcome.blocks_decoded_finally,
                },
            );
        },
    };
    let count: usize = count_data(own.as_slice(), raw.len(), Ghost(blocks));
    let data = vstd::slice::slice_subrange(stream.as_slice(), 0, count);
    assert(data@ =~= data_of(w as int, h as int, stream@));
    let payload: String = match read_message(data) {
        Some(text) => text,
        None => {
            return Err(CleanError::Unreadable);
        },
    };
    let modules = write_back(sampled.as_slice(), cells.as_slice(), stream.as_slice(), Ghost(places));
    let rebuilt = match Reconstructed::from_modules(w, h, modules) {
        Some(rebuilt) => rebuilt,
        None => {
            return Err(CleanError::Unreadable);
        },
    };
    let r = Ok(
        CleanedDataMatrix {
            payload,
            width: w,
            height: h,
            sampled,
            rebuilt,
            blocks_total: outcome.blocks_total,
            blocks_decoded_initially: outcome.blocks_decoded_initially,
        },
    );
    assert(reports(w as int, h as int, found.modules@, places, ended, corrected, r));
    r
}

/// Detects and exactly restores a DataMatrix symbol in a luminance image.
///
/// The contour-tracing detector goes first: it copes with real photography far better than the
/// corner-finding one, which stays as the fallback.
pub fn clean_luma(luma: &[u8], width: u32, height: u32) -> (r: Result<
    CleanedDataMatrix,
    CleanError,
>)
    ensures
        match dm_found(luma@, width, height) {
            None => r == Err::<CleanedDataMatrix, CleanError>(CleanError::NotDetected),
            Some((w, h, modules)) => is_cleaned(w as int, h as int, modules, r),
        },
        luma@.len() != width * height ==> r == Err::<CleanedDataMatrix, CleanError>(
            CleanError::NotDetected,
        ),
{
    match find(luma, width, height) {
        Some(found) => clean_matrix(found),
        None => Err(CleanError::NotDetected),
    }
}

// ---- laws ----
/// Reading undoes writing: the codewords read off a rebuilt symbol are the corrected ones.
pub proof fn law_rebuilt_symbols_read_as_corrected(
    sampled: Seq<bool>,
    places: Seq<Seq<nat>>,
    stream: Seq<u8>,
    rebuilt: Seq<bool>,
)
    requires
        is_placement(places, sampled.len() as int),
        stream.len() == places.len(),
        is_written(sampled, places, stream, rebuilt),
    ensures
        picked(rebuilt, places) == stream,
{
    assert forall|k: int| 0 <= k < places.len() implies picked(rebuilt, places)[k] == stream[k] by {
        assert forall|i: int| 0 <= i < 8 implies rebuilt[#[trigger] places[k][i] as int] == bit_at(
            stream[k],
            i,
        ) by {}
        lemma_bits_spell(rebuilt, places[k], stream[k]);
    }
    assert(picked(rebuilt, places) =~= stream);
}

/// Damage is repaired and the rest left alone: a module that the rebuild changes belongs to a codeword
/// that was corrected.
pub proof fn law_only_corrected_codewords_change(
    sampled: Seq<bool>,
    places: Seq<Seq<nat>>,
    stream: Seq<u8>,
    rebuilt: Seq<bool>,
    m: int,
)
    requires
        is_placement(places, sampled.len() as int),
        stream.len() == places.len(),
        is_written(sampled, places, stream, rebuilt),
        0 <= m < sampled.len(),
        rebuilt[m] != sampled[m],
    ensures
        exists|k: int, i: int|
            #![trigger places[k][i]]
            0 <= k < places.len() && 0 <= i < 8 && places[k][i] == m && stream[k] != picked(
                sampled,
                places,
            )[k],
{
    assert(is_covered(places, m));
    let (k, i) = choose|k: int, i: int|
        #![trigger places[k][i]]
        0 <= k < places.len() && 0 <= i < 8 && places[k][i] == m;
    lemma_spelled_bit(sampled, places[k], i);
    assert(picked(sampled, places)[k] == spelled(sampled, places[k]));
    assert(rebuilt[places[k][i] as int] == bit_at(stream[k], i));
}

/// An undamaged symbol rebuilds to itself.
pub proof fn law_undamaged_symbols_rebuild_to_themselves(
    sampled: Seq<bool>,
    places: Seq<Seq<nat>>,
    rebuilt: Seq<bool>,
)
    requires
        is_placement(places, sampled.len() as int),
        is_written(sampled, places, picked(sampled, places), rebuilt),
    ensures
        rebuilt == sampled,
{
    assert forall|m: int| 0 <= m < sampled.len() implies rebuilt[m] == sampled[m] by {
        if rebuilt[m] != sampled[m] {
            law_only_corrected_codewords_change(
                sampled,
                places,
                picked(sampled, places),
                rebuilt,
                m,
            );
        }
    }
    assert(rebuilt =~= sampled);
}

/// A cleaned symbol says what its rebuild says: its text is that of the data codewords with which the
/// stream read off the rebuilt modules begins, and it keeps the size and the modules it was sampled with.
pub proof fn law_cleaned_symbols_say_what_their_rebuild_says(
    w: int,
    h: int,
    modules: Seq<bool>,
    c: CleanedDataMatrix,
)
    requires
        is_cleaned(w, h, modules, Ok(c)),
        dm_places(w as nat, h as nat) is Some ==> is_placement(
            dm_places(w as nat, h as nat)->0,
            modules.len() as int,
        ),
    ensures
        ({
            let blocks = dm_blocks(w as nat, h as nat);
            let stream = picked(c.rebuilt@, dm_places(w as nat, h as nat)->0);
            dm_message(stream.subrange(0, data_count(blocks, blocks.len()) as int)) == Some(
                c.payload@,
            )
        }),
        c.width == w,
        c.height == h,
        c.sampled@ == modules,
        c.rebuilt.dimension == w,
        c.rebuilt.height == h,
{
    let places = dm_places(w as nat, h as nat)->0;
    let r = Ok::<CleanedDataMatrix, CleanError>(c);
    let (out, stream) = choose|out: BootstrapOutcome, stream: Option<Seq<u8>>| #[trigger]
        is_recovered(stream_of(w, h, modules, places), out, stream) && reports(
            w,
            h,
            modules,
            places,
            out,
            stream,
            r,
        );
    assert(stream->0.len() == places.len());
    law_rebuilt_symbols_read_as_corrected(modules, places, stream->0, c.rebuilt@);
}

} // verus!
