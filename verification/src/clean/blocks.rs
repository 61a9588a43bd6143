//! Cleaning a stream of codewords that is dealt out to Reed-Solomon blocks.
use vstd::prelude::*;
use crate::clean::bootstrap::{
    answers, answers_of, codewords_in, is_described, is_erasure_list, is_outcome, is_round, is_run,
    is_state, law_erasures_fit_the_block, lemma_all_decoded, lemma_run_weakens, run_bootstrap, Answer, Answers,
    BootstrapOutcome, BootstrapParams, IndexMap, Round,
};
use crate::clean::erasure::{rows, BlockLayout};
use crate::clean::field::{DATA_MATRIX_POLYNOMIAL, QR_POLYNOMIAL};
use crate::clean::reed_solomon::{
    corrects, decode_with_erasures, differing, differing_positions, is_codeword,
    law_corrections_are_unique, listed,
};
use crate::codec::blocks::{are_places, blocks_tile, is_placed};
use crate::codec::{datamatrix, qr};
use crate::order::{ascending, lists};
use crate::sample::occlusion::FitParams;

verus! {

/// The Reed-Solomon codes over bytes that the symbologies use.
#[derive(Clone, Copy, Debug, PartialEq, Eq, Structural)]
pub enum Code {
    Qr,
    DataMatrix,
}

impl Code {
    /// The polynomial of the field.
    pub open spec fn polynomial(self) -> u8 {
        match self {
            Code::Qr => QR_POLYNOMIAL,
            Code::DataMatrix => DATA_MATRIX_POLYNOMIAL,
        }
    }

    /// The power of the first root of the generator.
    pub open spec fn base(self) -> nat {
        match self {
            Code::Qr => 0,
            Code::DataMatrix => 1,
        }
    }

    /// What plain decoding makes of a word.
    pub open spec fn corrected(self, received: Seq<u8>, ecc: nat) -> Option<Seq<u8>> {
        match self {
            Code::Qr => qr::qr_corrected(received, ecc),
            Code::DataMatrix => datamatrix::dm_corrected(received, ecc),
        }
    }
}

/// Whether received codewords need no correction.
pub open spec fn is_sound(code: Code, received: Seq<u8>, ecc: nat) -> bool {
    received.len() > 0 && is_codeword(code.polynomial(), code.base(), ecc, received)
}

/// What decoding a block of received codewords may answer: plainly when nothing is erased, and then
/// what needs no correction is left as it is; else the one codeword within the budget.
pub open spec fn is_block_answer(
    code: Code,
    received: Seq<u8>,
    ecc: nat,
    erased: Seq<usize>,
    a: Answer,
) -> bool {
    match a {
        Some((codewords, damaged)) => {
            &&& lists(damaged@, differing(received, codewords@))
            &&& codewords@.len() == received.len()
            &&& erased.len() == 0 && is_sound(code, received, ecc) ==> codewords@ == received
            &&& if erased.len() == 0 {
                code.corrected(received, ecc) == Some(codewords@)
            } else {
                corrects(code.polynomial(), code.base(), ecc, listed(erased), received, codewords@)
            }
        },
        None => if erased.len() == 0 {
            !is_sound(code, received, ecc) && code.corrected(received, ecc) is None
        } else {
            forall|c: Seq<u8>| !corrects(code.polynomial(), code.base(), ecc, listed(erased), received, c)
        },
    }
}

/// Decodes one block, with the listed positions erased.
pub fn decode_block(code: Code, received: &[u8], ecc: usize, erasures: &[usize]) -> (r: Answer)
    requires
        received@.len() <= 255,
        ecc <= 255,
        ascending(erasures@),
        forall|k: int| 0 <= k < erasures@.len() ==> #[trigger] erasures@[k] < received@.len(),
    ensures
        is_block_answer(code, received@, ecc as nat, erasures@, r),
{
    if erasures.len() == 0 {
        let corrected = match code {
            Code::Qr => qr::correct(received, ecc),
            Code::DataMatrix => datamatrix::correct(received, ecc),
        };
        match corrected {
            Some(codewords) => {
                let damaged = differing_positions(received, codewords.as_slice());
                Some((codewords, damaged))
            },
            None => None,
        }
    } else {
        match code {
            Code::Qr => decode_with_erasures(QR_POLYNOMIAL, 0, received, ecc, erasures),
            Code::DataMatrix => decode_with_erasures(
                DATA_MATRIX_POLYNOMIAL,
                1,
                received,
                ecc,
                erasures,
            ),
        }
    }
}

/// The received codewords of a block.
pub open spec fn block_word(raw: Seq<u8>, block: (nat, Seq<nat>)) -> Seq<u8> {
    block.1.map_values(|g: nat| raw[g as int])
}

/// The layouts of the blocks.
pub open spec fn block_layouts(blocks: Seq<(nat, Seq<nat>)>) -> Seq<BlockLayout> {
    blocks.map_values(
        |block: (nat, Seq<nat>)|
            (BlockLayout { total: block.1.len() as usize, data: block.0 as usize }),
    )
}

/// The place of each block's codewords in the stream.
pub open spec fn block_map(blocks: Seq<(nat, Seq<nat>)>) -> IndexMap {
    |b: usize, p: usize|
        if b < blocks.len() && p < blocks[b as int].1.len() {
            Some(blocks[b as int].1[p as int] as usize)
        } else {
            None
        }
}

/// What decoding each block may answer.
pub open spec fn block_answers(code: Code, raw: Seq<u8>, blocks: Seq<(nat, Seq<nat>)>) -> Answers {
    |b: usize, erased: Seq<usize>, a: Answer|
        is_block_answer(
            code,
            block_word(raw, blocks[b as int]),
            block_layouts(blocks)[b as int].spec_ecc() as nat,
            erased,
            a,
        )
}

/// The loop's tuning here.
pub open spec fn is_default(params: BootstrapParams) -> bool {
    &&& params.max_rounds == 8
    &&& params.fit == (FitParams { close_radius: 3, min_area: 4, grow: 1 })
}

/// Whether `stream` is what the blocks' codewords make when each goes back to its place.
pub open spec fn is_interleaved(
    stream: Seq<u8>,
    blocks: Seq<(nat, Seq<nat>)>,
    results: Seq<Answer>,
) -> bool {
    forall|b: int, i: int|
        #![trigger blocks[b].1[i]]
        0 <= b < blocks.len() && 0 <= i < blocks[b].1.len() ==> stream[blocks[b].1[i] as int]
            == codewords_in(results[b])[i]
}

/// A stream of codewords as it was read, and how it is dealt out.
pub struct Stream {
    pub code: Code,
    pub raw: Seq<u8>,
    pub blocks: Seq<(nat, Seq<nat>)>,
    /// The modules of each codeword.
    pub cells: Seq<Seq<usize>>,
    /// The width of the square of modules.
    pub dimension: int,
}

/// Whether the loop can take these rounds on a stream, and end with this outcome.
pub open spec fn is_recovery(
    s: Stream,
    rounds: Seq<Round>,
    out: BootstrapOutcome,
    params: BootstrapParams,
) -> bool {
    &&& is_default(params)
    &&& is_run(
        block_answers(s.code, s.raw, s.blocks),
        block_map(s.blocks),
        block_layouts(s.blocks),
        s.cells,
        s.dimension,
        params,
        rounds,
    )
    &&& is_outcome(
        block_map(s.blocks),
        block_layouts(s.blocks),
        s.cells,
        s.dimension,
        params,
        rounds,
        out,
    )
}

/// Whether `stream` is the corrected stream of a recovery; there is one when every block decoded.
pub open spec fn is_restored_stream(
    s: Stream,
    rounds: Seq<Round>,
    out: BootstrapOutcome,
    stream: Option<Seq<u8>>,
) -> bool {
    &&& stream is Some <==> out.data is Some
    &&& stream is Some ==> stream->0.len() == s.raw.len() && is_interleaved(
        stream->0,
        s.blocks,
        rounds.last().results,
    )
}

/// Puts the blocks' codewords back to their places in the stream.
fn reassemble(
    raw: &[u8],
    places: &[(usize, Vec<usize>)],
    outcome: &BootstrapOutcome,
    Ghost(blocks): Ghost<Seq<(nat, Seq<nat>)>>,
    Ghost(results): Ghost<Seq<Answer>>,
) -> (r: Vec<u8>)
    requires
        blocks_tile(blocks, raw@.len() as int),
        are_places(blocks, places@),
        outcome.blocks@.len() == blocks.len(),
        results.len() == blocks.len(),
        forall|b: int|
            0 <= b < blocks.len() ==> (#[trigger] outcome.blocks@[b]).codewords is Some
                && outcome.blocks@[b].codewords->0@ == codewords_in(results[b])
                && codewords_in(results[b]).len() == blocks[b].1.len(),
    ensures
        r@.len() == raw@.len(),
        is_interleaved(r@, blocks, results),
{
    let mut out: Vec<u8> = Vec::new();
    out.extend_from_slice(raw);
    let mut b: usize = 0;
    while b < places.len()
        invariant
            blocks_tile(blocks, raw@.len() as int),
            are_places(blocks, places@),
            outcome.blocks@.len() == blocks.len(),
            results.len() == blocks.len(),
            forall|b: int|
                0 <= b < blocks.len() ==> (#[trigger] outcome.blocks@[b]).codewords is Some
                    && outcome.blocks@[b].codewords->0@ == codewords_in(results[b])
                    && codewords_in(results[b]).len() == blocks[b].1.len(),
            b <= places@.len(),
            out@.len() == raw@.len(),
            forall|c: int, i: int|
                #![trigger blocks[c].1[i]]
                0 <= c < b && 0 <= i < blocks[c].1.len() ==> out@[blocks[c].1[i] as int]
                    == codewords_in(results[c])[i],
        decreases places@.len() - b,
    {
        let own = &places[b].1;
        let state = &outcome.blocks[b];
        assert(outcome.blocks@[b as int].codewords is Some);
        if let Some(codewords) = &state.codewords {
            let mut i: usize = 0;
            while i < own.len()
                invariant
                    blocks_tile(blocks, raw@.len() as int),
                    0 <= b < blocks.len(),
                    own@.len() == blocks[b as int].1.len(),
                    forall|k: int|
                        0 <= k < own@.len() ==> #[trigger] own@[k] == blocks[b as int].1[k],
                    codewords@ == codewords_in(results[b as int]),
                    codewords@.len() == own@.len(),
                    i <= own@.len(),
                    out@.len() == raw@.len(),
                    forall|c: int, k: int|
                        #![trigger blocks[c].1[k]]
                        0 <= c < b && 0 <= k < blocks[c].1.len() ==> out@[blocks[c].1[k] as int]
                            == codewords_in(results[c])[k],
                    forall|k: int|
                        #![trigger blocks[b as int].1[k]]
                        0 <= k < i ==> out@[blocks[b as int].1[k] as int] == codewords_in(
                            results[b as int],
                        )[k],
                decreases own@.len() - i,
            {
                let ghost was = out@;
                let g: usize = own[i];
                assert(blocks[b as int].1[i as int] < raw@.len());
                out.set(g, codewords[i]);
                proof {
                    assert forall|c: int, k: int|
                        #![trigger blocks[c].1[k]]
                        0 <= c < b && 0 <= k < blocks[c].1.len() implies out@[blocks[c].1[k] as int]
                        == codewords_in(results[c])[k] by {
                        assert(blocks[c].1[k] != blocks[b as int].1[i as int]);
                        assert(blocks[c].1[k] < raw@.len());
                    }
                    assert forall|k: int|
                        #![trigger blocks[b as int].1[k]]
                        0 <= k < i + 1 implies out@[blocks[b as int].1[k] as int] == codewords_in(
                        results[b as int],
                    )[k] by {
                        assert(blocks[b as int].1[k] < raw@.len());
                        if k < i {
                            assert(blocks[b as int].1[k] != blocks[b as int].1[i as int]);
                        }
                    }
                }
                i = i + 1;
            }
        }
        b = b + 1;
    }
    out
}

/// The received codewords of each block, and its layout.
fn split_blocks(
    raw: &[u8],
    places: &[(usize, Vec<usize>)],
    Ghost(blocks): Ghost<Seq<(nat, Seq<nat>)>>,
) -> (r: (Vec<Vec<u8>>, Vec<BlockLayout>))
    requires
        blocks_tile(blocks, raw@.len() as int),
        are_places(blocks, places@),
    ensures
        r.0@.len() == blocks.len(),
        forall|b: int|
            0 <= b < blocks.len() ==> (#[trigger] r.0@[b])@ == block_word(raw@, blocks[b]),
        r.1@ == block_layouts(blocks),
{
    let mut words: Vec<Vec<u8>> = Vec::new();
    let mut layouts: Vec<BlockLayout> = Vec::new();
    let mut b: usize = 0;
    while b < places.len()
        invariant
            blocks_tile(blocks, raw@.len() as int),
            are_places(blocks, places@),
            b <= places@.len(),
            words@.len() == b,
            layouts@.len() == b,
            forall|k: int|
                0 <= k < b ==> (#[trigger] words@[k])@ == block_word(raw@, blocks[k]),
            forall|k: int| 0 <= k < b ==> #[trigger] layouts@[k] == block_layouts(blocks)[k],
        decreases places@.len() - b,
    {
        let own = &places[b].1;
        let ghost block = blocks[b as int];
        let mut word: Vec<u8> = Vec::new();
        let mut i: usize = 0;
        while i < own.len()
            invariant
                blocks_tile(blocks, raw@.len() as int),
                0 <= b < blocks.len(),
                block == blocks[b as int],
                own@.len() == block.1.len(),
                forall|k: int| 0 <= k < own@.len() ==> #[trigger] own@[k] == block.1[k],
                i <= own@.len(),
                word@.len() == i,
                forall|k: int| 0 <= k < i ==> #[trigger] word@[k] == raw@[block.1[k] as int],
            decreases own@.len() - i,
        {
            assert(blocks[b as int].1[i as int] < raw@.len());
            word.push(raw[own[i]]);
            i = i + 1;
        }
        assert(word@ =~= block_word(raw@, block));
        assert(places@[b as int].0 == block.0);
        layouts.push(BlockLayout { total: own.len(), data: places[b].0 });
        words.push(word);
        b = b + 1;
    }
    assert(layouts@ =~= block_layouts(blocks));
    (words, layouts)
}

/// Whether the loop can end with this outcome on a stream, and `stream` is then the corrected one.
pub open spec fn is_recovered(s: Stream, out: BootstrapOutcome, stream: Option<Seq<u8>>) -> bool {
    exists|rounds: Seq<Round>, params: BootstrapParams| #[trigger]
        is_recovery(s, rounds, out, params) && is_restored_stream(s, rounds, out, stream)
}

/// What an optional list holds.
pub open spec fn contents(list: Option<Vec<u8>>) -> Option<Seq<u8>> {
    match list {
        Some(v) => Some(v@),
        None => None,
    }
}

/// Runs the bootstrap loop on a stream, and puts the corrected blocks back together.
pub(crate) fn recover(
    code: Code,
    raw: &[u8],
    places: &[(usize, Vec<usize>)],
    cells: &[Vec<usize>],
    dimension: usize,
    Ghost(blocks): Ghost<Seq<(nat, Seq<nat>)>>,
) -> (r: (BootstrapOutcome, Option<Vec<u8>>))
    requires
        blocks_tile(blocks, raw@.len() as int),
        are_places(blocks, places@),
        cells@.len() == raw@.len(),
        1 <= dimension <= 177,
        forall|g: int, k: int|
            0 <= g < cells@.len() && 0 <= k < cells@[g]@.len() ==> #[trigger] cells@[g]@[k]
                < dimension * dimension,
    ensures
        is_recovered(
            (Stream {
                code,
                raw: raw@,
                blocks,
                cells: rows(cells@),
                dimension: dimension as int,
            }),
            r.0,
            contents(r.1),
        ),
{
    let ghost s = Stream {
        code,
        raw: raw@,
        blocks,
        cells: rows(cells@),
        dimension: dimension as int,
    };
    let (words, layouts) = split_blocks(raw, places, Ghost(blocks));
    let decode = |b: usize, erasures: &[usize]| -> (a: Answer)
        requires
            b < layouts@.len(),
            b < words@.len(),
            is_erasure_list(erasures@, layouts@[b as int]),
            words@[b as int]@.len() == layouts@[b as int].total,
            layouts@[b as int].total <= 255,
        ensures
            is_block_answer(
                code,
                words@[b as int]@,
                layouts@[b as int].spec_ecc() as nat,
                erasures@,
                a,
            ),
        {
            decode_block(code, words[b].as_slice(), layouts[b].ecc(), erasures)
        };
    let to_global = |b: usize, p: usize| -> (g: Option<usize>)
        ensures
            g == (if b < places@.len() && p < places@[b as int].1@.len() {
                Some(places@[b as int].1@[p as int])
            } else {
                None
            }),
        {
            if b < places.len() && p < places[b].1.len() {
                Some(places[b].1[p])
            } else {
                None
            }
        };
    let params = BootstrapParams::default();
    proof {
        assert(is_described(to_global, block_map(blocks))) by {
            assert forall|b: usize, p: usize, g: Option<usize>| #[trigger]
                call_ensures(to_global, (b, p), g) implies g == block_map(blocks)(b, p) by {
                if b < places@.len() && p < places@[b as int].1@.len() {
                    assert(places@[b as int].1@[p as int] == blocks[b as int].1[p as int]);
                }
            }
        }
        assert forall|b: usize, e: &[usize]|
            b < layouts@.len() && is_erasure_list(e@, layouts@[b as int]) implies
            #[trigger] call_requires(decode, (b, e)) by {
            assert(words@[b as int]@ == block_word(raw@, blocks[b as int]));
            assert(blocks[b as int].0 <= blocks[b as int].1.len() <= 255);
        }
        assert forall|b: usize, e: &[usize], a: Answer|
            b < layouts@.len() && #[trigger] call_ensures(decode, (b, e), a)
                && a is Some implies codewords_in(a).len() >= layouts@[b as int].data by {
            assert(words@[b as int]@ == block_word(raw@, blocks[b as int]));
            assert(blocks[b as int].0 <= blocks[b as int].1.len() <= 255);
        }
        assert(dimension * dimension <= 177 * 177) by (nonlinear_arith)
            requires
                1 <= dimension <= 177,
        ;
    }
    let outcome = run_bootstrap(
        layouts.as_slice(),
        &to_global,
        cells,
        dimension,
        &decode,
        &params,
        Ghost(block_map(blocks)),
    );
    let ghost rounds = choose|rounds: Seq<Round>|
        #![trigger rounds.last()]
        is_run(
            answers_of(decode),
            block_map(blocks),
            layouts@,
            rows(cells@),
            dimension as int,
            params,
            rounds,
        ) && is_outcome(
            block_map(blocks),
            layouts@,
            rows(cells@),
            dimension as int,
            params,
            rounds,
            outcome,
        );
    proof {
        assert forall|b: usize, e: Seq<usize>, a: Answer|
            b < layouts@.len() && is_erasure_list(e, layouts@[b as int]) && #[trigger] answers_of(
                decode,
            )(b, e, a) implies block_answers(code, raw@, blocks)(b, e, a) by {
            assert(answers(decode, b, e, a));
            let list = choose|list: &[usize]|
                list@ == e && #[trigger] call_ensures(decode, (b, list), a);
            assert(words@[b as int]@ == block_word(raw@, blocks[b as int]));
        }
        lemma_run_weakens(
            answers_of(decode),
            block_answers(code, raw@, blocks),
            block_map(blocks),
            layouts@,
            rows(cells@),
            dimension as int,
            params,
            rounds,
        );
        assert(is_recovery(s, rounds, outcome, params));
    }
    if outcome.data.is_none() {
        assert(is_restored_stream(s, rounds, outcome, None));
        assert(is_recovered(s, outcome, None));
        return (outcome, None);
    }
    proof {
        lemma_blocks_recovered(s, rounds, outcome, params);
    }
    let stream = reassemble(
        raw,
        places,
        &outcome,
        Ghost(blocks),
        Ghost(rounds.last().results),
    );
    assert(is_restored_stream(s, rounds, outcome, Some(stream@)));
    assert(is_recovered(s, outcome, Some(stream@)));
    (outcome, Some(stream))
}

/// When the loop ends with data, every block has its codewords.
pub proof fn lemma_blocks_recovered(
    s: Stream,
    rounds: Seq<Round>,
    out: BootstrapOutcome,
    params: BootstrapParams,
)
    requires
        is_recovery(s, rounds, out, params),
        out.data is Some,
        blocks_tile(s.blocks, s.raw.len() as int),
        s.blocks.len() <= usize::MAX,
    ensures
        rounds.last().results.len() == s.blocks.len(),
        forall|b: int|
            0 <= b < s.blocks.len() ==> (#[trigger] out.blocks@[b]).codewords is Some
                && out.blocks@[b].codewords->0@ == codewords_in(rounds.last().results[b])
                && codewords_in(rounds.last().results[b]).len() == s.blocks[b].1.len(),
{
    let layouts = block_layouts(s.blocks);
    let last = rounds.len() - 1;
    assert(is_round(
        block_answers(s.code, s.raw, s.blocks),
        block_map(s.blocks),
        layouts,
        s.cells,
        s.dimension,
        params.fit,
        rounds,
        last,
    ));
    lemma_all_decoded(rounds.last().results);
    assert forall|b: int| 0 <= b < s.blocks.len() implies (
    #[trigger] out.blocks@[b]).codewords is Some && out.blocks@[b].codewords->0@ == codewords_in(
        rounds.last().results[b],
    ) && codewords_in(rounds.last().results[b]).len() == s.blocks[b].1.len() by {
        assert(is_state(
            block_map(s.blocks),
            b,
            layouts[b],
            rounds.last().results[b],
            out.blocks@[b],
        ));
        lemma_answer_length(s, rounds, params, last, b);
    }
}

/// A block's corrected codewords are as many as were received.
proof fn lemma_answer_length(
    s: Stream,
    rounds: Seq<Round>,
    params: BootstrapParams,
    k: int,
    b: int,
)
    requires
        blocks_tile(s.blocks, s.raw.len() as int),
        s.blocks.len() <= usize::MAX,
        is_run(
            block_answers(s.code, s.raw, s.blocks),
            block_map(s.blocks),
            block_layouts(s.blocks),
            s.cells,
            s.dimension,
            params,
            rounds,
        ),
        0 <= k < rounds.len(),
        0 <= b < s.blocks.len(),
        rounds[k].results[b] is Some,
    ensures
        codewords_in(rounds[k].results[b]).len() == s.blocks[b].1.len(),
    decreases k,
{
    assert(is_round(
        block_answers(s.code, s.raw, s.blocks),
        block_map(s.blocks),
        block_layouts(s.blocks),
        s.cells,
        s.dimension,
        params.fit,
        rounds,
        k,
    ));
    if k > 0 && rounds[k - 1].results[b] is Some {
        lemma_answer_length(s, rounds, params, k - 1, b);
    } else {
        let a = rounds[k].results[b];
        assert(block_answers(s.code, s.raw, s.blocks)(b as usize, rounds[k].erasures[b], a));
    }
}

/// The stream that the blocks of a stream give back is that stream: when every block is restored to
/// what it was, so is the whole, and with it the symbol that is built from it.
pub proof fn law_restored_blocks_restore_the_stream(
    original: Seq<u8>,
    stream: Seq<u8>,
    blocks: Seq<(nat, Seq<nat>)>,
    results: Seq<Answer>,
)
    requires
        stream.len() == original.len(),
        blocks_tile(blocks, original.len() as int),
        is_interleaved(stream, blocks, results),
        forall|b: int|
            0 <= b < blocks.len() ==> codewords_in(#[trigger] results[b]) == block_word(
                original,
                blocks[b],
            ),
    ensures
        stream == original,
{
    assert forall|g: int| 0 <= g < original.len() implies stream[g] == original[g] by {
        assert(is_placed(blocks, g));
        let (b, i) = choose|b: int, i: int|
            #![trigger blocks[b].1[i]]
            0 <= b < blocks.len() && 0 <= i < blocks[b].1.len() && blocks[b].1[i] == g;
        assert(codewords_in(results[b]) == block_word(original, blocks[b]));
        assert(block_word(original, blocks[b])[i] == original[g]);
    }
    assert(stream =~= original);
}

/// Whether every block was within its budget when it decoded: with positions erased, the damage
/// outside them fits what they leave; with none, plain decoding found what was sent.
pub open spec fn is_within_budget(s: Stream, original: Seq<u8>, rounds: Seq<Round>) -> bool {
    forall|k: int, b: int|
        #![trigger rounds[k].results[b]]
        0 <= k < rounds.len() && 0 <= b < s.blocks.len() && rounds[k].results[b] is Some && (k == 0
            || rounds[k - 1].results[b] is None) ==> {
            let word = block_word(s.raw, s.blocks[b]);
            let sent = block_word(original, s.blocks[b]);
            let ecc = block_layouts(s.blocks)[b].spec_ecc() as nat;
            if rounds[k].erasures[b].len() == 0 {
                s.code.corrected(word, ecc) == Some(sent)
            } else {
                corrects(
                    s.code.polynomial(),
                    s.code.base(),
                    ecc,
                    listed(rounds[k].erasures[b]),
                    word,
                    sent,
                )
            }
        }
}

/// A block that decoded within its budget holds what was sent, in that round and ever after.
proof fn lemma_block_is_original(
    s: Stream,
    original: Seq<u8>,
    rounds: Seq<Round>,
    out: BootstrapOutcome,
    params: BootstrapParams,
    k: int,
    b: int,
)
    requires
        is_recovery(s, rounds, out, params),
        blocks_tile(s.blocks, s.raw.len() as int),
        s.blocks.len() <= usize::MAX,
        is_within_budget(s, original, rounds),
        0 <= k < rounds.len(),
        0 <= b < s.blocks.len(),
        rounds[k].results[b] is Some,
    ensures
        codewords_in(rounds[k].results[b]) == block_word(original, s.blocks[b]),
    decreases k,
{
    let layouts = block_layouts(s.blocks);
    assert(is_round(
        block_answers(s.code, s.raw, s.blocks),
        block_map(s.blocks),
        layouts,
        s.cells,
        s.dimension,
        params.fit,
        rounds,
        k,
    ));
    let a = rounds[k].results[b];
    if k > 0 && rounds[k - 1].results[b] is Some {
        lemma_block_is_original(s, original, rounds, out, params, k - 1, b);
    } else {
        let word = block_word(s.raw, s.blocks[b]);
        let sent = block_word(original, s.blocks[b]);
        let ecc = layouts[b].spec_ecc() as nat;
        let erased = rounds[k].erasures[b];
        assert(block_answers(s.code, s.raw, s.blocks)(b as usize, erased, a));
        assert(is_block_answer(s.code, word, ecc, erased, a));
        if erased.len() > 0 {
            law_erasures_fit_the_block(
                block_answers(s.code, s.raw, s.blocks),
                block_map(s.blocks),
                layouts,
                s.cells,
                s.dimension,
                params,
                rounds,
                k,
                b,
            );
            let all = vstd::set_lib::set_int_range(0, layouts[b].total as int);
            vstd::set_lib::lemma_int_range(0, layouts[b].total as int);
            assert(listed(erased).subset_of(all));
            vstd::set_lib::lemma_len_subset(listed(erased), all);
            law_corrections_are_unique(
                s.code.polynomial(),
                s.code.base(),
                ecc,
                listed(erased),
                word,
                codewords_in(a),
                sent,
            );
        }
    }
}

/// What is recovered is what was sent: when every block was within its budget when it decoded, the
/// corrected stream is the one that the undamaged symbol held.
pub proof fn law_recovered_streams_are_the_original(
    s: Stream,
    original: Seq<u8>,
    rounds: Seq<Round>,
    out: BootstrapOutcome,
    params: BootstrapParams,
    stream: Seq<u8>,
)
    requires
        is_recovery(s, rounds, out, params),
        is_restored_stream(s, rounds, out, Some(stream)),
        blocks_tile(s.blocks, s.raw.len() as int),
        s.blocks.len() <= usize::MAX,
        original.len() == s.raw.len(),
        is_within_budget(s, original, rounds),
    ensures
        stream == original,
{
    let last = rounds.len() - 1;
    lemma_blocks_recovered(s, rounds, out, params);
    lemma_all_decoded(rounds.last().results);
    assert forall|b: int| 0 <= b < s.blocks.len() implies codewords_in(
        #[trigger] rounds.last().results[b],
    ) == block_word(original, s.blocks[b]) by {
        lemma_block_is_original(s, original, rounds, out, params, last, b);
    }
    law_restored_blocks_restore_the_stream(original, stream, s.blocks, rounds.last().results);
}

/// What a block that decoded reports as damaged are the places in which its codewords were received
/// otherwise.
proof fn lemma_answer_damage(
    s: Stream,
    rounds: Seq<Round>,
    out: BootstrapOutcome,
    params: BootstrapParams,
    k: int,
    b: int,
)
    requires
        is_recovery(s, rounds, out, params),
        s.blocks.len() <= usize::MAX,
        0 <= k < rounds.len(),
        0 <= b < s.blocks.len(),
        rounds[k].results[b] is Some,
    ensures
        lists(
            crate::clean::bootstrap::damage_in(rounds[k].results[b]),
            differing(block_word(s.raw, s.blocks[b]), codewords_in(rounds[k].results[b])),
        ),
        codewords_in(rounds[k].results[b]).len() == s.blocks[b].1.len(),
    decreases k,
{
    assert(is_round(
        block_answers(s.code, s.raw, s.blocks),
        block_map(s.blocks),
        block_layouts(s.blocks),
        s.cells,
        s.dimension,
        params.fit,
        rounds,
        k,
    ));
    if k > 0 && rounds[k - 1].results[b] is Some {
        lemma_answer_damage(s, rounds, out, params, k - 1, b);
    } else {
        let a = rounds[k].results[b];
        assert(block_answers(s.code, s.raw, s.blocks)(b as usize, rounds[k].erasures[b], a));
    }
}

/// The evidence of a recovery is what it changed: when every block decoded, a codeword was proven damaged
/// exactly when it was received otherwise than it is in the corrected stream.
pub proof fn law_evidence_is_what_was_corrected(
    s: Stream,
    rounds: Seq<Round>,
    out: BootstrapOutcome,
    params: BootstrapParams,
    stream: Seq<u8>,
    g: usize,
)
    requires
        is_recovery(s, rounds, out, params),
        is_restored_stream(s, rounds, out, Some(stream)),
        blocks_tile(s.blocks, s.raw.len() as int),
        s.blocks.len() <= usize::MAX,
        s.raw.len() <= usize::MAX,
    ensures
        rounds.last().evidence.contains(g) <==> g < s.raw.len() && s.raw[g as int] != stream[g as int],
{
    let k = rounds.len() - 1;
    let results = rounds.last().results;
    let map = block_map(s.blocks);
    lemma_blocks_recovered(s, rounds, out, params);
    lemma_all_decoded(results);
    crate::clean::bootstrap::law_evidence_is_what_decoded_blocks_show(
        block_answers(s.code, s.raw, s.blocks),
        map,
        block_layouts(s.blocks),
        s.cells,
        s.dimension,
        params,
        rounds,
        k,
        g,
    );
    if crate::clean::bootstrap::shows_damaged(map, results, g) {
        let (b, p) = choose|b: int, p: usize|
            #![trigger results[b], map(b as usize, p)]
            0 <= b < results.len() && map(b as usize, p) == Some(g) && match results[b] {
                Some((_, local)) => local@.contains(p),
                None => false,
            };
        lemma_answer_damage(s, rounds, out, params, k, b);
        let damage = crate::clean::bootstrap::damage_in(results[b]);
        let i = choose|i: int| 0 <= i < damage.len() && damage[i] == p;
        let word = block_word(s.raw, s.blocks[b]);
        assert(differing(word, codewords_in(results[b])).contains(damage[i] as int));
        assert(s.blocks[b].1[p as int] == g);
        assert(word[p as int] == s.raw[g as int]);
        assert(stream[s.blocks[b].1[p as int] as int] == codewords_in(results[b])[p as int]);
    }
    if g < s.raw.len() && s.raw[g as int] != stream[g as int] {
        assert(is_placed(s.blocks, g as int));
        let (b, i) = choose|b: int, i: int|
            #![trigger s.blocks[b].1[i]]
            0 <= b < s.blocks.len() && 0 <= i < s.blocks[b].1.len() && s.blocks[b].1[i] == g as int;
        lemma_answer_damage(s, rounds, out, params, k, b);
        let word = block_word(s.raw, s.blocks[b]);
        let damage = crate::clean::bootstrap::damage_in(results[b]);
        assert(word[i] == s.raw[g as int]);
        assert(differing(word, codewords_in(results[b])).contains(i));
        let j = choose|j: int| 0 <= j < damage.len() && damage[j] == i;
        let p = damage[j];
        assert(damage.contains(p));
        assert(map(b as usize, p) == Some(g));
        let at = results[b];
    }
}

/// What is shown as damaged is what was repaired: the modules that a complete recovery reports are those of
/// the codewords that it corrected.
pub proof fn law_damaged_modules_are_those_of_corrected_codewords(
    s: Stream,
    rounds: Seq<Round>,
    out: BootstrapOutcome,
    params: BootstrapParams,
    stream: Seq<u8>,
    m: usize,
)
    requires
        is_recovery(s, rounds, out, params),
        is_restored_stream(s, rounds, out, Some(stream)),
        blocks_tile(s.blocks, s.raw.len() as int),
        s.blocks.len() <= usize::MAX,
        s.raw.len() <= usize::MAX,
        s.cells.len() == s.raw.len(),
    ensures
        out.damaged_codeword_modules@.contains(m) <==> exists|g: int|
            0 <= g < s.raw.len() && s.raw[g] != stream[g] && (#[trigger] s.cells[g]).contains(m),
{
    let evidence = rounds.last().evidence;
    crate::clean::bootstrap::lemma_modules_of_codewords(evidence, s.cells, m);
    if out.damaged_codeword_modules@.contains(m) {
        let g = choose|g: usize|
            evidence.contains(g) && g < s.cells.len() && s.cells[g as int].contains(m);
        law_evidence_is_what_was_corrected(s, rounds, out, params, stream, g);
        assert(s.cells[g as int].contains(m));
    }
    if exists|g: int|
        0 <= g < s.raw.len() && s.raw[g] != stream[g] && (#[trigger] s.cells[g]).contains(m) {
        let g = choose|g: int|
            0 <= g < s.raw.len() && s.raw[g] != stream[g] && (#[trigger] s.cells[g]).contains(m);
        law_evidence_is_what_was_corrected(s, rounds, out, params, stream, g as usize);
        assert(evidence.contains(g as usize));
    }
}

/// A recovery takes at most eight rounds, counts all blocks of the stream, and gives data exactly when every
/// block decoded; one that does not has fitted its region to all the damage that it reports.
pub proof fn law_recoveries_use_all_their_evidence(
    s: Stream,
    rounds: Seq<Round>,
    out: BootstrapOutcome,
    params: BootstrapParams,
)
    requires
        is_recovery(s, rounds, out, params),
        0 < s.blocks.len() <= usize::MAX,
    ensures
        1 <= out.rounds <= 8,
        out.blocks_total == s.blocks.len(),
        out.blocks_decoded_initially <= out.blocks_decoded_finally <= out.blocks_total,
        out.data is Some <==> out.blocks_decoded_finally == out.blocks_total,
        out.data is None && out.region is Some ==> out.region->0@
            == crate::sample::occlusion::fitted(
            out.damaged_codeword_modules@,
            s.dimension,
            s.dimension,
            FitParams { close_radius: 3, min_area: 4, grow: 1 },
        ),
        out.rounds < 8 && out.data is None && rounds.last().evidence.len() > 0 ==> out.rounds >= 2,
{
    let answers = block_answers(s.code, s.raw, s.blocks);
    let layouts = block_layouts(s.blocks);
    let map = block_map(s.blocks);
    crate::clean::bootstrap::law_never_below_plain_decoding(
        answers,
        map,
        layouts,
        s.cells,
        s.dimension,
        params,
        rounds,
    );
    let last = rounds.len() - 1;
    assert(is_round(answers, map, layouts, s.cells, s.dimension, params.fit, rounds, last));
    let all = vstd::set_lib::set_int_range(0, layouts.len() as int);
    vstd::set_lib::lemma_int_range(0, layouts.len() as int);
    vstd::set_lib::lemma_len_subset(
        crate::clean::bootstrap::decoded_blocks(rounds.last().results),
        all,
    );
    if out.data is None {
        crate::clean::bootstrap::law_unfinished_runs_fit_all_their_evidence(
            answers,
            map,
            layouts,
            s.cells,
            s.dimension,
            params,
            rounds,
            out,
        );
    }
}

/// The codes are those of the symbologies: over the field of `x^8 + x^4 + x^3 + x^2 + 1` with roots from
/// the zeroth power on for QR, over that of `x^8 + x^5 + x^3 + x^2 + 1` from the first on for DataMatrix.
pub proof fn law_codes_are_those_of_the_symbologies()
    ensures
        Code::Qr.polynomial() == 0x1D,
        Code::Qr.base() == 0,
        Code::DataMatrix.polynomial() == 0x2D,
        Code::DataMatrix.base() == 1,
{
}

/// A block that was answered with nothing erased and needed no correction is answered as it was read;
/// whatever is answered differs from what was read in the damaged positions, and nowhere else.
pub proof fn law_answers_tell_what_they_changed(
    code: Code,
    received: Seq<u8>,
    ecc: nat,
    erased: Seq<usize>,
    a: Answer,
    i: int,
)
    requires
        is_block_answer(code, received, ecc, erased, a),
        a is Some,
        0 <= i < received.len(),
    ensures
        ({
            let (codewords, damaged) = a->0;
            &&& codewords@.len() == received.len()
            &&& codewords@[i] != received[i] <==> exists|k: int|
                0 <= k < damaged@.len() && #[trigger] damaged@[k] == i
            &&& erased.len() > 0 ==> is_codeword(code.polynomial(), code.base(), ecc, codewords@)
        }),
{
    let (codewords, damaged) = a->0;
    assert(differing(received, codewords@).contains(i) <==> codewords@[i] != received[i]);
}

} // verus!
