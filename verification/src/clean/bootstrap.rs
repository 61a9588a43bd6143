//! Bootstrapping an occlusion map out of the symbol's own algebra.
//!
//! A Reed-Solomon block that decodes proves exactly which of its codewords were wrong. Interleaving
//! scatters a contiguous occlusion over all blocks, so the survivors' damaged codewords map back to
//! modules that outline where the blob is. The outline says which codewords of the failed blocks must
//! also be covered, and declaring those as erasures doubles the correction power applied to them.
//! Every block rescued adds its own exact damage to the evidence, which can rescue another.
//!
//! A round that adds no evidence ends the loop, so the floor is what plain decoding gives. The ceiling
//! is set by the first round: if no block decodes, there is nothing to bootstrap from.
use vstd::prelude::*;
use crate::clean::erasure::{BlockLayout, rows};
use crate::order::{
    ascending, first_ranked, insert_ascending, lists, pick_first, positions_set, set_positions,
};
use crate::sample::occlusion::{bridged, fit_region, fitted, FitParams, OcclusionMask};

verus! {

/// Tuning for the bootstrap loop.
#[derive(Clone, Copy, Debug, PartialEq, Eq, Structural)]
pub struct BootstrapParams {
    /// Cap on refinement rounds. Each round costs one decode attempt per still-failed block.
    pub max_rounds: usize,
    pub fit: FitParams,
}

impl Default for BootstrapParams {
    fn default() -> (r: Self)
        ensures
            r.max_rounds == 8,
            r.fit.close_radius == 3,
            r.fit.min_area == 4,
            r.fit.grow == 1,
    {
        Self { max_rounds: 8, fit: FitParams::default() }
    }
}

/// One block's decode state, as the loop sees it.
#[derive(Clone, Debug)]
pub struct BlockState {
    pub index: usize,
    pub layout: BlockLayout,
    /// Global codeword indices this block proved damaged, if it decoded.
    pub damaged: Vec<usize>,
    pub codewords: Option<Vec<u8>>,
}

impl BlockState {
    pub fn decoded(&self) -> (r: bool)
        ensures
            r <==> self.codewords is Some,
    {
        self.codewords.is_some()
    }
}

/// What the loop achieved.
#[derive(Clone, Debug)]
pub struct BootstrapOutcome {
    pub rounds: usize,
    pub blocks_total: usize,
    /// Blocks decoded on the first attempt, before any bootstrapping.
    pub blocks_decoded_initially: usize,
    pub blocks_decoded_finally: usize,
    /// Concatenated data codewords, present only when every block decoded.
    pub data: Option<Vec<u8>>,
    /// Modules belonging to codewords proven damaged: every module of every damaged codeword, since
    /// nothing can say which of them was the bad one.
    pub damaged_codeword_modules: Vec<usize>,
    /// The fitted occlusion, if there was ever enough evidence to fit one.
    pub region: Option<OcclusionMask>,
    /// Final per-block state, carrying each block's corrected codewords.
    pub blocks: Vec<BlockState>,
}

impl BootstrapOutcome {
    pub fn complete(&self) -> (r: bool)
        ensures
            r <==> self.data is Some,
    {
        self.data.is_some()
    }

    /// Blocks rescued purely by bootstrapping: the loop's contribution over plain decoding.
    pub fn blocks_rescued(&self) -> (r: usize)
        ensures
            r == if self.blocks_decoded_finally >= self.blocks_decoded_initially {
                self.blocks_decoded_finally - self.blocks_decoded_initially
            } else {
                0
            },
    {
        if self.blocks_decoded_finally >= self.blocks_decoded_initially {
            self.blocks_decoded_finally - self.blocks_decoded_initially
        } else {
            0
        }
    }
}

/// What a block decoder answers: the corrected codewords and the block-local positions that were
/// damaged, or nothing when the block exceeded its budget.
pub type Answer = Option<(Vec<u8>, Vec<usize>)>;

/// The corrected codewords of an answer, if there are any.
pub open spec fn codewords_in(a: Answer) -> Seq<u8> {
    match a {
        Some((codewords, _)) => codewords@,
        None => Seq::empty(),
    }
}

/// The damaged positions of an answer, if there are any.
pub open spec fn damage_in(a: Answer) -> Seq<usize> {
    match a {
        Some((_, local)) => local@,
        None => Seq::empty(),
    }
}

/// Whether `to_global` can be asked about every position, and always says the same.
pub open spec fn is_index_map<G: Fn(usize, usize) -> Option<usize>>(to_global: G) -> bool {
    &&& forall|b: usize, p: usize| #[trigger] call_requires(to_global, (b, p))
    &&& forall|b: usize, p: usize, g: Option<usize>, h: Option<usize>|
        #![trigger call_ensures(to_global, (b, p), g), call_ensures(to_global, (b, p), h)]
        call_ensures(to_global, (b, p), g) && call_ensures(to_global, (b, p), h) ==> g == h
}

/// The place of a block's codeword in the interleaved stream.
pub open spec fn global_of<G: Fn(usize, usize) -> Option<usize>>(
    to_global: G,
    b: usize,
    p: usize,
) -> Option<usize> {
    choose|g: Option<usize>| call_ensures(to_global, (b, p), g)
}

/// A map from a block and a position in it to the interleaved stream.
pub type IndexMap = spec_fn(usize, usize) -> Option<usize>;

/// What a decoder may answer for a block with positions erased.
pub type Answers = spec_fn(usize, Seq<usize>, Answer) -> bool;

/// The map that a function computes.
pub open spec fn map_of<G: Fn(usize, usize) -> Option<usize>>(to_global: G) -> IndexMap {
    |b: usize, p: usize| global_of(to_global, b, p)
}

/// Whether `to_global` can be asked about every position, and `map` says what it answers.
pub open spec fn is_described<G: Fn(usize, usize) -> Option<usize>>(
    to_global: G,
    map: IndexMap,
) -> bool {
    &&& forall|b: usize, p: usize| #[trigger] call_requires(to_global, (b, p))
    &&& forall|b: usize, p: usize, g: Option<usize>| #[trigger]
        call_ensures(to_global, (b, p), g) ==> g == map(b, p)
}

proof fn lemma_map_describes<G: Fn(usize, usize) -> Option<usize>>(to_global: G)
    requires
        is_index_map(to_global),
    ensures
        is_described(to_global, map_of(to_global)),
{
    assert forall|b: usize, p: usize, g: Option<usize>| #[trigger]
        call_ensures(to_global, (b, p), g) implies g == map_of(to_global)(b, p) by {
        assert(call_ensures(to_global, (b, p), global_of(to_global, b, p)));
    }
}

/// The places of a block's codewords, those that have one.
pub open spec fn globals_of(
    to_global: IndexMap,
    b: usize,
    local: Seq<usize>,
) -> Seq<usize>
    decreases local.len(),
{
    if local.len() == 0 {
        Seq::empty()
    } else {
        let rest = globals_of(to_global, b, local.drop_last());
        match to_global(b, local.last()) {
            Some(g) => rest.push(g),
            None => rest,
        }
    }
}

/// Whether the list names positions of the block, ascending.
pub open spec fn is_erasure_list(e: Seq<usize>, layout: BlockLayout) -> bool {
    &&& ascending(e)
    &&& forall|k: int| 0 <= k < e.len() ==> #[trigger] e[k] < layout.total
}

/// Whether `decode_block` can be asked to decode each block, whatever of it is erased, and answers
/// with at least the block's data codewords.
pub open spec fn is_block_decoder<F: Fn(usize, &[usize]) -> Answer>(
    decode_block: F,
    layouts: Seq<BlockLayout>,
) -> bool {
    &&& forall|b: usize, e: &[usize]|
        b < layouts.len() && is_erasure_list(e@, layouts[b as int])
            ==> #[trigger] call_requires(decode_block, (b, e))
    &&& forall|b: usize, e: &[usize], a: Answer|
        b < layouts.len() && #[trigger] call_ensures(decode_block, (b, e), a) && a is Some
            ==> codewords_in(a).len() >= layouts[b as int].data
}

/// Whether `a` is an answer of the decoder for block `b` with these positions erased.
pub open spec fn answers<F: Fn(usize, &[usize]) -> Answer>(
    decode_block: F,
    b: usize,
    erased: Seq<usize>,
    a: Answer,
) -> bool {
    exists|e: &[usize]| e@ == erased && #[trigger] call_ensures(decode_block, (b, e), a)
}

/// The answers that a function gives.
pub open spec fn answers_of<F: Fn(usize, &[usize]) -> Answer>(decode_block: F) -> Answers {
    |b: usize, erased: Seq<usize>, a: Answer| answers(decode_block, b, erased, a)
}

/// One round of the loop: what was erased in each block, what is known of each block after it, and
/// the codewords proven damaged so far.
pub struct Round {
    pub erasures: Seq<Seq<usize>>,
    pub results: Seq<Answer>,
    pub evidence: Seq<usize>,
}

/// The blocks that decoded.
pub open spec fn decoded_blocks(results: Seq<Answer>) -> Set<int> {
    Set::new(|b: int| 0 <= b < results.len() && results[b] is Some)
}

/// The codewords that the decoded blocks prove damaged.
pub open spec fn proven(
    to_global: IndexMap,
    results: Seq<Answer>,
) -> Set<int> {
    Set::new(
        |g: int|
            exists|b: int, k: int|
                #![trigger globals_of(to_global, b as usize, damage_in(results[b]))[k]]
                0 <= b < results.len() && results[b] is Some && 0 <= k < globals_of(
                    to_global,
                    b as usize,
                    damage_in(results[b]),
                ).len() && globals_of(to_global, b as usize, damage_in(results[b]))[k] == g,
    )
}

/// The modules of the listed codewords, as far as their provenance is known.
pub open spec fn modules_of_codewords(
    codewords: Seq<usize>,
    provenance: Seq<Seq<usize>>,
) -> Seq<usize>
    decreases codewords.len(),
{
    if codewords.len() == 0 {
        Seq::empty()
    } else {
        let rest = modules_of_codewords(codewords.drop_last(), provenance);
        let cw = codewords.last();
        if cw < provenance.len() {
            rest + provenance[cw as int]
        } else {
            rest
        }
    }
}

/// How many of the modules lie in the region.
pub open spec fn covered(modules: Seq<usize>, region: Seq<bool>) -> nat {
    set_positions(modules.map_values(|m: usize| region[m as int])).len()
}

/// The key by which a codeword ranks for erasure: the more of its modules the region covers the
/// earlier, and not at all when it covers none.
pub open spec fn burial_key(
    global: Option<usize>,
    provenance: Seq<Seq<usize>>,
    region: Seq<bool>,
) -> Option<i128> {
    match global {
        Some(g) => if g < provenance.len() && covered(provenance[g as int], region) > 0 {
            Some((-(covered(provenance[g as int], region) as int)) as i128)
        } else {
            None
        },
        None => None,
    }
}

/// The keys of a block's codewords.
pub open spec fn burial_keys(
    to_global: IndexMap,
    b: usize,
    total: nat,
    provenance: Seq<Seq<usize>>,
    region: Seq<bool>,
) -> Seq<Option<i128>> {
    Seq::new(
        total,
        |local: int| burial_key(to_global(b, local as usize), provenance, region),
    )
}

/// Whether `positions` is the erasure plan of a block: nothing when it decoded, else its most deeply
/// buried codewords, as many as its budget allows, ascending.
pub open spec fn is_block_plan(
    to_global: IndexMap,
    b: usize,
    layout: BlockLayout,
    decoded: bool,
    provenance: Seq<Seq<usize>>,
    region: Seq<bool>,
    positions: Seq<usize>,
) -> bool {
    if decoded {
        positions == Seq::<usize>::empty()
    } else {
        lists(
            positions,
            first_ranked(
                burial_keys(to_global, b, layout.total as nat, provenance, region),
                layout.spec_ecc(),
            ),
        )
    }
}

/// Whether the loop ends with round `k` for lack of work or of evidence.
pub open spec fn settled(rounds: Seq<Round>, k: int) -> bool {
    ||| decoded_blocks(rounds[k].results).len() == rounds[k].results.len()
    ||| rounds[k].evidence.len() == 0
    ||| k > 0 && rounds[k].evidence.len() == rounds[k - 1].evidence.len()
}

/// The region fitted to the evidence of a round.
pub open spec fn region_of_round(
    round: Round,
    provenance: Seq<Seq<usize>>,
    dimension: int,
    fit: FitParams,
) -> Seq<bool> {
    fitted(modules_of_codewords(round.evidence, provenance), dimension, dimension, fit)
}

/// Whether round `k` follows from the rounds before it: blocks that decoded stay as they are, each of
/// the others is decoded anew with the erasures planned for it, and the damage proven by then is the
/// evidence.
pub open spec fn is_round(
    decode_block: Answers,
    to_global: IndexMap,
    layouts: Seq<BlockLayout>,
    provenance: Seq<Seq<usize>>,
    dimension: int,
    fit: FitParams,
    rounds: Seq<Round>,
    k: int,
) -> bool {
    &&& rounds[k].erasures.len() == layouts.len()
    &&& rounds[k].results.len() == layouts.len()
    &&& lists(rounds[k].evidence, proven(to_global, rounds[k].results))
    &&& forall|b: int|
        #![trigger rounds[k].results[b]]
        0 <= b < layouts.len() ==> if k > 0 && rounds[k - 1].results[b] is Some {
            rounds[k].results[b] == rounds[k - 1].results[b]
        } else {
            decode_block(b as usize, rounds[k].erasures[b], rounds[k].results[b])
        }
    &&& forall|b: int|
        #![trigger rounds[k].erasures[b]]
        0 <= b < layouts.len() ==> if k == 0 {
            rounds[k].erasures[b] == Seq::<usize>::empty()
        } else {
            is_block_plan(
                to_global,
                b as usize,
                layouts[b],
                rounds[k - 1].results[b] is Some,
                provenance,
                region_of_round(rounds[k - 1], provenance, dimension, fit),
                rounds[k].erasures[b],
            )
        }
}

/// Whether `rounds` is a course that the loop can take up to some point: every round follows from
/// the ones before, and none but the last has settled the matter.
pub open spec fn is_course(
    decode_block: Answers,
    to_global: IndexMap,
    layouts: Seq<BlockLayout>,
    provenance: Seq<Seq<usize>>,
    dimension: int,
    fit: FitParams,
    rounds: Seq<Round>,
) -> bool {
    &&& forall|k: int|
        0 <= k < rounds.len() ==> #[trigger] is_round(
            decode_block,
            to_global,
            layouts,
            provenance,
            dimension,
            fit,
            rounds,
            k,
        )
    &&& forall|k: int| 0 <= k < rounds.len() - 1 ==> !#[trigger] settled(rounds, k)
}

/// The number of rounds that the loop may take.
pub open spec fn round_cap(params: BootstrapParams) -> int {
    if params.max_rounds >= 1 {
        params.max_rounds as int
    } else {
        1
    }
}

/// Whether the loop can end with these rounds.
pub open spec fn is_run(
    decode_block: Answers,
    to_global: IndexMap,
    layouts: Seq<BlockLayout>,
    provenance: Seq<Seq<usize>>,
    dimension: int,
    params: BootstrapParams,
    rounds: Seq<Round>,
) -> bool {
    &&& 1 <= rounds.len() <= round_cap(params)
    &&& is_course(decode_block, to_global, layouts, provenance, dimension, params.fit, rounds)
    &&& settled(rounds, rounds.len() - 1) || rounds.len() == round_cap(params)
}

/// The first `layout.data` codewords of every block, in block order.
pub open spec fn data_of(results: Seq<Answer>, layouts: Seq<BlockLayout>, n: int) -> Seq<u8>
    decreases n,
{
    if n <= 0 {
        Seq::empty()
    } else {
        data_of(results, layouts, n - 1) + codewords_in(results[n - 1]).take(layouts[n - 1].data as int)
    }
}

/// Whether a block's state is what its decoder's answer says.
pub open spec fn is_state(
    to_global: IndexMap,
    b: int,
    layout: BlockLayout,
    a: Answer,
    state: BlockState,
) -> bool {
    &&& state.index == b
    &&& state.layout == layout
    &&& match a {
        Some(found) => state.codewords == Some(found.0) && state.damaged@ == globals_of(
            to_global,
            b as usize,
            found.1@,
        ),
        None => state.codewords is None && state.damaged@ == Seq::<usize>::empty(),
    }
}

/// Whether `out` reports these rounds.
pub open spec fn is_outcome(
    to_global: IndexMap,
    layouts: Seq<BlockLayout>,
    provenance: Seq<Seq<usize>>,
    dimension: int,
    params: BootstrapParams,
    rounds: Seq<Round>,
    out: BootstrapOutcome,
) -> bool {
    let last = rounds.last();
    // The last round of which a region was fitted.
    let seen = if settled(rounds, rounds.len() - 1) {
        rounds.len() - 2
    } else {
        rounds.len() - 1
    };
    &&& out.rounds == rounds.len()
    &&& out.blocks_total == layouts.len()
    &&& out.blocks_decoded_initially == decoded_blocks(rounds[0].results).len()
    &&& out.blocks_decoded_finally == decoded_blocks(last.results).len()
    &&& out.data is Some <==> layouts.len() > 0 && decoded_blocks(last.results).len()
        == layouts.len()
    &&& out.data is Some ==> out.data->0@ == data_of(last.results, layouts, layouts.len() as int)
    &&& out.damaged_codeword_modules@ == modules_of_codewords(last.evidence, provenance)
    &&& out.region is Some <==> seen >= 0
    &&& out.region is Some ==> {
        &&& out.region->0.wf()
        &&& out.region->0.width == dimension
        &&& out.region->0.height == dimension
        &&& out.region->0@ == region_of_round(rounds[seen], provenance, dimension, params.fit)
        &&& out.region->0.counts(
            bridged(
                modules_of_codewords(rounds[seen].evidence, provenance),
                dimension,
                dimension,
                params.fit,
            ),
            params.fit.min_area as int,
        )
    }
    &&& out.blocks@.len() == layouts.len()
    &&& forall|b: int|
        0 <= b < layouts.len() ==> is_state(
            to_global,
            b,
            layouts[b],
            last.results[b],
            #[trigger] out.blocks@[b],
        )
}

/// Maps a block's positions to the interleaved stream, leaving out those without a place.
fn to_globals<G: Fn(usize, usize) -> Option<usize>>(
    to_global: &G,
    b: usize,
    local: &[usize],
    Ghost(map): Ghost<IndexMap>,
) -> (r: Vec<usize>)
    requires
        is_described(*to_global, map),
    ensures
        r@ == globals_of(map, b, local@),
{
    let mut out: Vec<usize> = Vec::new();
    let mut i: usize = 0;
    while i < local.len()
        invariant
            is_described(*to_global, map),
            i <= local@.len(),
            out@ == globals_of(map, b, local@.take(i as int)),
        decreases local@.len() - i,
    {
        let p: usize = local[i];
        let g: Option<usize> = to_global(b, p);
        proof {
            assert(local@.take(i + 1).drop_last() =~= local@.take(i as int));
            assert(local@.take(i + 1).last() == p);
        }
        if let Some(g) = g {
            out.push(g);
        }
        i = i + 1;
    }
    assert(local@.take(local@.len() as int) =~= local@);
    out
}

/// How many of the modules lie in the region.
fn count_covered(modules: &[usize], region: &OcclusionMask) -> (r: usize)
    requires
        forall|k: int| 0 <= k < modules@.len() ==> #[trigger] modules@[k] < region@.len(),
    ensures
        r == covered(modules@, region@),
{
    let mut flags: Vec<bool> = Vec::with_capacity(modules.len());
    for i in 0..modules.len()
        invariant
            forall|k: int| 0 <= k < modules@.len() ==> #[trigger] modules@[k] < region@.len(),
            flags@.len() == i,
            forall|k: int| 0 <= k < i ==> flags@[k] == region@[#[trigger] modules@[k] as int],
    {
        flags.push(region.at(modules[i]));
    }
    assert(flags@ =~= modules@.map_values(|m: usize| region@[m as int]));
    positions_set(flags.as_slice()).len()
}

/// Chooses erasure positions for every still-failed block.
fn plan_blocks<G: Fn(usize, usize) -> Option<usize>>(
    states: &[BlockState],
    to_global: &G,
    provenance: &[Vec<usize>],
    region: &OcclusionMask,
    Ghost(map): Ghost<IndexMap>,
) -> (r: Vec<Vec<usize>>)
    requires
        is_described(*to_global, map),
        forall|g: int, k: int|
            0 <= g < provenance@.len() && 0 <= k < provenance@[g]@.len()
                ==> #[trigger] provenance@[g]@[k] < region@.len(),
    ensures
        r@.len() == states@.len(),
        forall|i: int|
            0 <= i < r@.len() ==> is_block_plan(
                map,
                states@[i].index,
                states@[i].layout,
                states@[i].codewords is Some,
                rows(provenance@),
                region@,
                (#[trigger] r@[i])@,
            ),
        forall|i: int|
            0 <= i < r@.len() ==> (#[trigger] r@[i])@.len() <= states@[i].layout.spec_ecc()
                && is_erasure_list(r@[i]@, states@[i].layout),
{
    let mut out: Vec<Vec<usize>> = Vec::new();
    let mut i: usize = 0;
    while i < states.len()
        invariant
            is_described(*to_global, map),
            forall|g: int, k: int|
                0 <= g < provenance@.len() && 0 <= k < provenance@[g]@.len()
                    ==> #[trigger] provenance@[g]@[k] < region@.len(),
            i <= states@.len(),
            out@.len() == i,
            forall|k: int|
                0 <= k < i ==> is_block_plan(
                    map,
                    states@[k].index,
                    states@[k].layout,
                    states@[k].codewords is Some,
                    rows(provenance@),
                    region@,
                    (#[trigger] out@[k])@,
                ),
            forall|k: int|
                0 <= k < i ==> (#[trigger] out@[k])@.len() <= states@[k].layout.spec_ecc()
                    && is_erasure_list(out@[k]@, states@[k].layout),
        decreases states@.len() - i,
    {
        let state = &states[i];
        if state.decoded() {
            let none: Vec<usize> = Vec::new();
            assert(none@ =~= Seq::<usize>::empty());
            out.push(none);
        } else {
            let b: usize = state.index;
            let total: usize = state.layout.total;
            let mut keys: Vec<Option<i128>> = Vec::new();
            let ghost want = burial_keys(
                map,
                b,
                total as nat,
                rows(provenance@),
                region@,
            );
            let mut local: usize = 0;
            while local < total
                invariant
                    is_described(*to_global, map),
                    forall|g: int, k: int|
                        0 <= g < provenance@.len() && 0 <= k < provenance@[g]@.len()
                            ==> #[trigger] provenance@[g]@[k] < region@.len(),
                    local <= total,
                    want == burial_keys(
                        map,
                        b,
                        total as nat,
                        rows(provenance@),
                        region@,
                    ),
                    keys@.len() == local,
                    forall|k: int| 0 <= k < local ==> keys@[k] == #[trigger] want[k],
                decreases total - local,
            {
                let global: Option<usize> = to_global(b, local);
                let mut key: Option<i128> = None;
                if let Some(g) = global {
                    if g < provenance.len() {
                        assert(rows(provenance@)[g as int] == provenance@[g as int]@);
                        assert forall|k: int| 0 <= k < provenance@[g as int]@.len() implies
                            #[trigger] provenance@[g as int]@[k] < region@.len() by {}
                        let c: usize = count_covered(provenance[g].as_slice(), region);
                        if c > 0 {
                            key = Some(-(c as i128));
                        }
                    }
                }
                assert(key == want[local as int]);
                keys.push(key);
                local = local + 1;
            }
            assert(keys@ =~= want);
            let (positions, _) = pick_first(keys.as_slice(), state.layout.ecc());
            proof {
                let chosen = first_ranked(keys@, state.layout.spec_ecc());
                assert forall|k: int| 0 <= k < positions@.len() implies #[trigger] positions@[k]
                    < total by {
                    assert(chosen.contains(positions@[k] as int));
                }
            }
            out.push(positions);
        }
        i = i + 1;
    }
    out
}

/// The entries of a list.
spec fn members(s: Seq<usize>) -> Set<int> {
    Set::new(|g: int| exists|k: int| 0 <= k < s.len() && #[trigger] s[k] == g)
}

/// The damage proven by the first `n` blocks.
spec fn proven_by_first(
    to_global: IndexMap,
    results: Seq<Answer>,
    n: int,
) -> Set<int> {
    proven(to_global, results.take(n))
}

proof fn lemma_proven_step(
    to_global: IndexMap,
    results: Seq<Answer>,
    n: int,
)
    requires
        0 <= n < results.len(),
    ensures
        proven_by_first(to_global, results, n + 1) == if results[n] is Some {
            proven_by_first(to_global, results, n) + members(
                globals_of(to_global, n as usize, damage_in(results[n])),
            )
        } else {
            proven_by_first(to_global, results, n)
        },
{
    let fewer = results.take(n);
    let more = results.take(n + 1);
    let here = globals_of(to_global, n as usize, damage_in(results[n]));
    let was = proven(to_global, fewer);
    let added = members(here);
    assert forall|g: int| proven(to_global, more).contains(g) implies was.contains(g) || (
    results[n] is Some && added.contains(g)) by {
        let (b, k) = choose|b: int, k: int|
            #![trigger globals_of(to_global, b as usize, damage_in(more[b]))[k]]
            0 <= b < more.len() && more[b] is Some && 0 <= k < globals_of(
                to_global,
                b as usize,
                damage_in(more[b]),
            ).len() && globals_of(to_global, b as usize, damage_in(more[b]))[k] == g;
        if b < n {
            assert(fewer[b] == more[b]);
            assert(globals_of(to_global, b as usize, damage_in(fewer[b]))[k] == g);
        } else {
            assert(more[b] == results[n]);
            assert(here[k] == g);
        }
    }
    assert forall|g: int| was.contains(g) implies proven(to_global, more).contains(g) by {
        let (b, k) = choose|b: int, k: int|
            #![trigger globals_of(to_global, b as usize, damage_in(fewer[b]))[k]]
            0 <= b < fewer.len() && fewer[b] is Some && 0 <= k < globals_of(
                to_global,
                b as usize,
                damage_in(fewer[b]),
            ).len() && globals_of(to_global, b as usize, damage_in(fewer[b]))[k] == g;
        assert(more[b] == fewer[b]);
        assert(globals_of(to_global, b as usize, damage_in(more[b]))[k] == g);
    }
    if results[n] is Some {
        assert forall|g: int| added.contains(g) implies proven(to_global, more).contains(g) by {
            let k = choose|k: int| 0 <= k < here.len() && here[k] == g;
            assert(more[n] == results[n]);
            assert(globals_of(to_global, n as usize, damage_in(more[n]))[k] == g);
        }
        assert(proven(to_global, more) =~= was + added);
    } else {
        assert(proven(to_global, more) =~= was);
    }
}

/// The ascending list of the codewords that the decoded blocks prove damaged.
fn gather(
    states: &[BlockState],
    Ghost(map): Ghost<IndexMap>,
    Ghost(layouts): Ghost<Seq<BlockLayout>>,
    Ghost(results): Ghost<Seq<Answer>>,
) -> (r: Vec<usize>)
    requires
        states@.len() == results.len(),
        layouts.len() == results.len(),
        forall|b: int|
            0 <= b < results.len() ==> is_state(
                map,
                b,
                layouts[b],
                results[b],
                #[trigger] states@[b],
            ),
    ensures
        lists(r@, proven(map, results)),
{
    let mut out: Vec<usize> = Vec::new();
    let mut b: usize = 0;
    proof {
        assert(results.take(0) =~= Seq::empty());
        assert(proven_by_first(map, results, 0) =~= Set::empty());
        assert(lists(out@, Set::empty()));
    }
    while b < states.len()
        invariant
            states@.len() == results.len(),
            layouts.len() == results.len(),
            forall|b: int|
                0 <= b < results.len() ==> is_state(
                    map,
                    b,
                    layouts[b],
                    results[b],
                    #[trigger] states@[b],
                ),
            b <= states@.len(),
            lists(out@, proven_by_first(map, results, b as int)),
        decreases states@.len() - b,
    {
        let ghost base = proven_by_first(map, results, b as int);
        let state = &states[b];
        proof {
            assert(is_state(map, b as int, layouts[b as int], results[b as int], *state));
            lemma_proven_step(map, results, b as int);
        }
        if state.decoded() {
            let mut k: usize = 0;
            let ghost here = state.damaged@;
            proof {
                assert(base + members(here.take(0)) =~= base);
            }
            while k < state.damaged.len()
                invariant
                    here == state.damaged@,
                    k <= here.len(),
                    lists(out@, base + members(here.take(k as int))),
                decreases here.len() - k,
            {
                let ghost so_far = base + members(here.take(k as int));
                let g: usize = state.damaged[k];
                insert_ascending(&mut out, g);
                proof {
                    let next = base + members(here.take(k + 1));
                    assert forall|x: int| next.contains(x) == so_far.insert(g as int).contains(x) by {
                        if x == g {
                            assert(here.take(k + 1)[k as int] == x);
                        }
                        if members(here.take(k + 1)).contains(x) {
                            let j = choose|j: int|
                                0 <= j < k + 1 && #[trigger] here.take(k + 1)[j] == x;
                            if j < k {
                                assert(here.take(k as int)[j] == x);
                            }
                        }
                        if members(here.take(k as int)).contains(x) {
                            let j = choose|j: int|
                                0 <= j < k && #[trigger] here.take(k as int)[j] == x;
                            assert(here.take(k + 1)[j] == x);
                        }
                    }
                    assert(next =~= so_far.insert(g as int));
                    assert(lists(out@, so_far.insert(g as int)));
                }
                k = k + 1;
            }
            proof {
                assert(here.take(here.len() as int) =~= here);
                assert(here == globals_of(map, b as usize, damage_in(results[b as int])));
                assert(base + members(here) =~= proven_by_first(map, results, b + 1));
            }
        }
        b = b + 1;
    }
    assert(results.take(results.len() as int) =~= results);
    out
}

/// The modules of the listed codewords.
fn list_modules(codewords: &[usize], provenance: &[Vec<usize>]) -> (r: Vec<usize>)
    ensures
        r@ == modules_of_codewords(codewords@, rows(provenance@)),
{
    let mut out: Vec<usize> = Vec::new();
    let mut i: usize = 0;
    while i < codewords.len()
        invariant
            i <= codewords@.len(),
            out@ == modules_of_codewords(codewords@.take(i as int), rows(provenance@)),
        decreases codewords@.len() - i,
    {
        let cw: usize = codewords[i];
        let ghost was = out@;
        proof {
            assert(codewords@.take(i + 1).drop_last() =~= codewords@.take(i as int));
            assert(codewords@.take(i + 1).last() == cw);
        }
        if cw < provenance.len() {
            out.extend_from_slice(provenance[cw].as_slice());
            assert(rows(provenance@)[cw as int] == provenance@[cw as int]@);
            assert(out@ =~= was + provenance@[cw as int]@);
        }
        i = i + 1;
    }
    assert(codewords@.take(codewords@.len() as int) =~= codewords@);
    out
}

/// How many blocks decoded.
fn count_decoded(states: &[BlockState], Ghost(results): Ghost<Seq<Answer>>) -> (r: usize)
    requires
        states@.len() == results.len(),
        forall|b: int|
            0 <= b < results.len() ==> ((#[trigger] states@[b]).codewords is Some
                <==> results[b] is Some),
    ensures
        r == decoded_blocks(results).len(),
        r <= results.len(),
{
    let mut flags: Vec<bool> = Vec::with_capacity(states.len());
    for b in 0..states.len()
        invariant
            states@.len() == results.len(),
            flags@.len() == b,
            forall|b: int|
                0 <= b < results.len() ==> ((#[trigger] states@[b]).codewords is Some
                    <==> results[b] is Some),
            forall|k: int| 0 <= k < b ==> flags@[k] == (#[trigger] results[k] is Some),
    {
        flags.push(states[b].decoded());
    }
    assert(set_positions(flags@) =~= decoded_blocks(results));
    positions_set(flags.as_slice()).len()
}

/// Concatenates the data codewords of all blocks.
fn concat_data(
    states: &[BlockState],
    Ghost(layouts): Ghost<Seq<BlockLayout>>,
    Ghost(results): Ghost<Seq<Answer>>,
) -> (r: Vec<u8>)
    requires
        states@.len() == results.len(),
        layouts.len() == results.len(),
        forall|b: int|
            0 <= b < results.len() ==> (#[trigger] states@[b]).layout == layouts[b]
                && states@[b].codewords is Some && states@[b].codewords->0@ == codewords_in(
                results[b],
            ) && codewords_in(results[b]).len() >= layouts[b].data,
    ensures
        r@ == data_of(results, layouts, layouts.len() as int),
{
    let mut out: Vec<u8> = Vec::new();
    let mut b: usize = 0;
    while b < states.len()
        invariant
            states@.len() == results.len(),
            layouts.len() == results.len(),
            forall|b: int|
                0 <= b < results.len() ==> (#[trigger] states@[b]).layout == layouts[b]
                    && states@[b].codewords is Some && states@[b].codewords->0@ == codewords_in(
                    results[b],
                ) && codewords_in(results[b]).len() >= layouts[b].data,
            b <= states@.len(),
            out@ == data_of(results, layouts, b as int),
        decreases states@.len() - b,
    {
        let state = &states[b];
        let ghost was = out@;
        if let Some(codewords) = &state.codewords {
            out.extend_from_slice(
                vstd::slice::slice_subrange(codewords.as_slice(), 0, state.layout.data),
            );
            assert(out@ =~= was + codewords_in(results[b as int]).take(
                layouts[b as int].data as int,
            ));
        }
        b = b + 1;
    }
    out
}

/// Asks the decoder about one block.
fn attempt<F: Fn(usize, &[usize]) -> Answer, G: Fn(usize, usize) -> Option<usize>>(
    b: usize,
    layout: BlockLayout,
    erasures: &[usize],
    to_global: &G,
    decode_block: &F,
    Ghost(map): Ghost<IndexMap>,
) -> (r: (BlockState, Ghost<Answer>))
    requires
        is_described(*to_global, map),
        call_requires(*decode_block, (b, erasures)),
    ensures
        call_ensures(*decode_block, (b, erasures), r.1@),
        is_state(map, b as int, layout, r.1@, r.0),
{
    let answer: Answer = decode_block(b, erasures);
    let ghost said = answer;
    let state = match answer {
        Some((codewords, local)) => BlockState {
            index: b,
            layout,
            damaged: to_globals(to_global, b, local.as_slice(), Ghost(map)),
            codewords: Some(codewords),
        },
        None => BlockState { index: b, layout, damaged: Vec::new(), codewords: None },
    };
    assert(said is None ==> state.damaged@ =~= Seq::<usize>::empty());
    (state, Ghost(said))
}

/// Decodes every block that has not decoded yet, with the erasures planned for it.
fn retry<F: Fn(usize, &[usize]) -> Answer, G: Fn(usize, usize) -> Option<usize>>(
    states: &mut Vec<BlockState>,
    layouts: &[BlockLayout],
    erasures: &[Vec<usize>],
    to_global: &G,
    decode_block: &F,
    Ghost(before): Ghost<Seq<Answer>>,
    Ghost(map): Ghost<IndexMap>,
) -> (results: Ghost<Seq<Answer>>)
    requires
        is_described(*to_global, map),
        is_block_decoder(*decode_block, layouts@),
        old(states)@.len() == layouts@.len(),
        erasures@.len() == layouts@.len(),
        before.len() == layouts@.len(),
        forall|b: int|
            0 <= b < layouts@.len() ==> is_erasure_list((#[trigger] erasures@[b])@, layouts@[b]),
        forall|b: int|
            0 <= b < layouts@.len() ==> is_state(
                map,
                b,
                layouts@[b],
                before[b],
                #[trigger] old(states)@[b],
            ),
    ensures
        final(states)@.len() == layouts@.len(),
        results@.len() == layouts@.len(),
        forall|b: int|
            0 <= b < layouts@.len() ==> is_state(
                map,
                b,
                layouts@[b],
                results@[b],
                #[trigger] final(states)@[b],
            ),
        forall|b: int|
            0 <= b < layouts@.len() ==> if before[b] is Some {
                #[trigger] results@[b] == before[b]
            } else {
                answers_of(*decode_block)(b as usize, erasures@[b]@, results@[b])
            },
{
    let ghost mut results = before;
    let mut b: usize = 0;
    while b < layouts.len()
        invariant
            is_described(*to_global, map),
            is_block_decoder(*decode_block, layouts@),
            states@.len() == layouts@.len(),
            erasures@.len() == layouts@.len(),
            before.len() == layouts@.len(),
            results.len() == layouts@.len(),
            b <= layouts@.len(),
            forall|k: int|
                0 <= k < layouts@.len() ==> is_erasure_list((#[trigger] erasures@[k])@, layouts@[k]),
            forall|k: int|
                0 <= k < layouts@.len() ==> is_state(
                    map,
                    k,
                    layouts@[k],
                    results[k],
                    #[trigger] states@[k],
                ),
            forall|k: int| b <= k < layouts@.len() ==> #[trigger] results[k] == before[k],
            forall|k: int|
                0 <= k < b ==> if before[k] is Some {
                    #[trigger] results[k] == before[k]
                } else {
                    answers_of(*decode_block)(k as usize, erasures@[k]@, results[k])
                },
        decreases layouts@.len() - b,
    {
        assert(is_state(map, b as int, layouts@[b as int], results[b as int], states@[b as int]));
        if !states[b].decoded() {
            let e = erasures[b].as_slice();
            let (state, said) = attempt(b, layouts[b], e, to_global, decode_block, Ghost(map));
            states.set(b, state);
            proof {
                results = results.update(b as int, said@);
                assert(answers_of(*decode_block)(b, e@, said@));
            }
        }
        b = b + 1;
    }
    Ghost(results)
}

/// Runs the bootstrap loop, `map` being what `to_global` says.
pub(crate) fn run_bootstrap<F: Fn(usize, &[usize]) -> Answer, G: Fn(usize, usize) -> Option<usize>>(
    layouts: &[BlockLayout],
    to_global: &G,
    provenance: &[Vec<usize>],
    dimension: usize,
    decode_block: &F,
    params: &BootstrapParams,
    Ghost(map): Ghost<IndexMap>,
) -> (out: BootstrapOutcome)
    requires
        is_described(*to_global, map),
        is_block_decoder(*decode_block, layouts@),
        dimension * dimension <= usize::MAX,
        forall|g: int, k: int|
            0 <= g < provenance@.len() && 0 <= k < provenance@[g]@.len()
                ==> #[trigger] provenance@[g]@[k] < dimension * dimension,
    ensures
        exists|rounds: Seq<Round>|
            #![trigger rounds.last()]
            is_run(
                answers_of(*decode_block),
                map,
                layouts@,
                rows(provenance@),
                dimension as int,
                *params,
                rounds,
            ) && is_outcome(
                map,
                layouts@,
                rows(provenance@),
                dimension as int,
                *params,
                rounds,
                out,
            ),
        out.region is Some && out.blocks_decoded_finally < layouts@.len() ==> out.region->0@ == fitted(
            out.damaged_codeword_modules@,
            dimension as int,
            dimension as int,
            params.fit,
        ),
{
    let total: usize = layouts.len();
    let cap: usize = if params.max_rounds >= 1 { params.max_rounds } else { 1 };
    let ghost prov = rows(provenance@);
    let ghost dim = dimension as int;
    let mut states: Vec<BlockState> = Vec::new();
    let mut erasures: Vec<Vec<usize>> = Vec::new();
    let ghost mut results: Seq<Answer> = Seq::empty();
    let mut b: usize = 0;
    while b < total
        invariant
            total == layouts@.len(),
            b <= total,
            states@.len() == b,
            erasures@.len() == b,
            results.len() == b,
            forall|k: int|
                0 <= k < b ==> is_state(
                    map,
                    k,
                    layouts@[k],
                    results[k],
                    #[trigger] states@[k],
                ),
            forall|k: int| 0 <= k < b ==> (#[trigger] results[k]) is None,
            forall|k: int| 0 <= k < b ==> (#[trigger] erasures@[k])@ == Seq::<usize>::empty(),
        decreases total - b,
    {
        let damaged: Vec<usize> = Vec::new();
        let none: Vec<usize> = Vec::new();
        assert(damaged@ =~= Seq::<usize>::empty());
        assert(none@ =~= Seq::<usize>::empty());
        states.push(BlockState { index: b, layout: layouts[b], damaged, codewords: None });
        erasures.push(none);
        proof {
            results = results.push(None);
        }
        b = b + 1;
    }
    let mut evidence: Vec<usize> = Vec::new();
    let mut region: Option<OcclusionMask> = None;
    let mut initially: usize = 0;
    let mut finally: usize = 0;
    let mut round: usize = 0;
    let mut open_end: bool = true;
    let ghost mut rounds: Seq<Round> = Seq::empty();
    while open_end && round < cap
        invariant
            is_described(*to_global, map),
            is_block_decoder(*decode_block, layouts@),
            dimension * dimension <= usize::MAX,
            forall|g: int, k: int|
                0 <= g < provenance@.len() && 0 <= k < provenance@[g]@.len()
                    ==> #[trigger] provenance@[g]@[k] < dimension * dimension,
            total == layouts@.len(),
            prov == rows(provenance@),
            dim == dimension,
            cap == round_cap(*params),
            round <= cap,
            rounds.len() == round,
            round == 0 ==> open_end,
            states@.len() == total,
            erasures@.len() == total,
            results.len() == total,
            forall|b: int|
                0 <= b < total ==> is_state(
                    map,
                    b,
                    layouts@[b],
                    results[b],
                    #[trigger] states@[b],
                ),
            is_course(answers_of(*decode_block), map, layouts@, prov, dim, params.fit, rounds),
            round == 0 ==> region is None,
            forall|b: int|
                0 <= b < total ==> is_erasure_list((#[trigger] erasures@[b])@, layouts@[b]),
            round == 0 ==> forall|b: int| 0 <= b < total ==> (#[trigger] results[b]) is None,
            round == 0 ==> forall|b: int|
                0 <= b < total ==> (#[trigger] erasures@[b])@ == Seq::<usize>::empty(),
            round > 0 ==> {
                &&& rounds.last().results == results
                &&& rounds.last().evidence == evidence@
                &&& initially == decoded_blocks(rounds[0].results).len()
                &&& finally == decoded_blocks(results).len()
                &&& open_end <==> !settled(rounds, round - 1)
            },
            round > 0 && open_end ==> forall|b: int|
                0 <= b < total ==> is_block_plan(
                    map,
                    b as usize,
                    layouts@[b],
                    results[b] is Some,
                    prov,
                    region_of_round(rounds.last(), prov, dim, params.fit),
                    (#[trigger] erasures@[b])@,
                ),
            region is Some <==> (if open_end { round - 1 } else { round - 2 }) >= 0,
            region is Some ==> {
                &&& region->0.wf()
                &&& region->0.width == dimension
                &&& region->0.height == dimension
                &&& region->0@ == region_of_round(
                    rounds[if open_end { round - 1 } else { round - 2 }],
                    prov,
                    dim,
                    params.fit,
                )
                &&& region->0.counts(
                    bridged(
                        modules_of_codewords(
                            rounds[if open_end { round - 1 } else { round - 2 }].evidence,
                            prov,
                        ),
                        dim,
                        dim,
                        params.fit,
                    ),
                    params.fit.min_area as int,
                )
            },
        decreases cap - round,
    {
        let ghost before = results;
        let ghost planned = Seq::new(total as nat, |b: int| erasures@[b]@);
        let results_now = retry(
            &mut states,
            layouts,
            erasures.as_slice(),
            to_global,
            decode_block,
            Ghost(results),
            Ghost(map),
        );
        proof {
            results = results_now@;
        }
        finally = count_decoded(states.as_slice(), Ghost(results));
        if round == 0 {
            initially = finally;
        }
        let known: usize = evidence.len();
        evidence = gather(states.as_slice(), Ghost(map), Ghost(layouts@), Ghost(results));
        let ghost entry = Round { erasures: planned, results, evidence: evidence@ };
        let ghost rounds_was = rounds;
        proof {
            rounds = rounds.push(entry);
            let k = rounds_was.len() as int;
            assert(rounds[k] == entry);
            assert forall|b: int|
                #![trigger rounds[k].results[b]]
                0 <= b < total implies if k > 0 && rounds[k - 1].results[b] is Some {
                rounds[k].results[b] == rounds[k - 1].results[b]
            } else {
                answers_of(*decode_block)(b as usize, rounds[k].erasures[b], rounds[k].results[b])
            } by {
                assert(k > 0 ==> rounds[k - 1].results[b] == before[b]);
                assert(entry.erasures[b] == erasures@[b]@);
                assert(entry.results[b] == results[b]);
                assert(before[b] is Some ==> results[b] == before[b]);
            }
            assert forall|b: int|
                #![trigger rounds[k].erasures[b]]
                0 <= b < total implies if k == 0 {
                rounds[k].erasures[b] == Seq::<usize>::empty()
            } else {
                is_block_plan(
                    map,
                    b as usize,
                    layouts@[b],
                    rounds[k - 1].results[b] is Some,
                    prov,
                    region_of_round(rounds[k - 1], prov, dim, params.fit),
                    rounds[k].erasures[b],
                )
            } by {
                assert(entry.erasures[b] == erasures@[b]@);
            }
            lemma_course_grows(
                answers_of(*decode_block),
                map,
                layouts@,
                prov,
                dim,
                params.fit,
                rounds_was,
                entry,
            );
        }
        round = round + 1;
        if finally == total || evidence.len() == 0 || (round > 1 && evidence.len() == known) {
            open_end = false;
            assert(settled(rounds, round - 1));
        } else {
            assert(!settled(rounds, round - 1));
            let modules = list_modules(evidence.as_slice(), provenance);
            let mask = fit_region(modules.as_slice(), dimension, dimension, &params.fit);
            erasures = plan_blocks(states.as_slice(), to_global, provenance, &mask, Ghost(map));
            proof {
                assert forall|b: int| 0 <= b < total implies is_block_plan(
                    map,
                    b as usize,
                    layouts@[b],
                    results[b] is Some,
                    prov,
                    region_of_round(rounds.last(), prov, dim, params.fit),
                    (#[trigger] erasures@[b])@,
                ) by {
                    assert(is_state(map, b, layouts@[b], results[b], states@[b]));
                }
            }
            region = Some(mask);
        }
    }
    let data: Option<Vec<u8>> = if finally == total && total > 0 {
        proof {
            let last = rounds.len() - 1;
            assert(gives_data(answers_of(*decode_block), layouts@)) by {
                assert forall|b: usize, e: Seq<usize>, a: Answer|
                    b < total && #[trigger] answers_of(*decode_block)(b, e, a)
                        && a is Some implies codewords_in(a).len() >= layouts@[b as int].data by {
                    assert(answers(*decode_block, b, e, a));
                }
            }
            assert forall|b: int| 0 <= b < total implies results[b] is Some && codewords_in(
                results[b],
            ).len() >= layouts@[b].data by {
                lemma_all_decoded(results);
                lemma_results_are_answers(
                    answers_of(*decode_block),
                    map,
                    layouts@,
                    prov,
                    dim,
                    params.fit,
                    rounds,
                    last,
                    b,
                );
            }
            assert forall|b: int| 0 <= b < results.len() implies (#[trigger] states@[b]).layout
                == layouts@[b] && states@[b].codewords is Some && states@[b].codewords->0@
                == codewords_in(results[b]) by {
                assert(is_state(map, b, layouts@[b], results[b], states@[b]));
            }
        }
        Some(concat_data(states.as_slice(), Ghost(layouts@), Ghost(results)))
    } else {
        None
    };
    let damaged_codeword_modules = list_modules(evidence.as_slice(), provenance);
    let out = BootstrapOutcome {
        rounds: round,
        blocks_total: total,
        blocks_decoded_initially: initially,
        blocks_decoded_finally: finally,
        data,
        damaged_codeword_modules,
        region,
        blocks: states,
    };
    proof {
        assert(rounds.last() == rounds[rounds.len() - 1]);
        assert(is_run(answers_of(*decode_block), map, layouts@, prov, dim, *params, rounds));
        assert(is_outcome(map, layouts@, prov, dim, *params, rounds, out));
        if out.region is Some && out.blocks_decoded_finally < layouts@.len() {
            law_unfinished_runs_fit_all_their_evidence(
                answers_of(*decode_block),
                map,
                layouts@,
                prov,
                dim,
                *params,
                rounds,
                out,
            );
        }
    }
    out
}

/// Chooses erasure positions for every still-failed block from a fitted occlusion.
///
/// A codeword is a candidate when any of its modules falls inside the region, and ranks by how many
/// do: the budget is capped, and a codeword with all its modules under the logo is far more likely to
/// be damaged than one clipped at the rim. Blocks that already decoded get an empty list.
pub fn plan_from_region<G: Fn(usize, usize) -> Option<usize>>(
    states: &[BlockState],
    to_global: &G,
    provenance: &[Vec<usize>],
    region: &OcclusionMask,
) -> (r: Vec<Vec<usize>>)
    requires
        is_index_map(*to_global),
        forall|g: int, k: int|
            0 <= g < provenance@.len() && 0 <= k < provenance@[g]@.len()
                ==> #[trigger] provenance@[g]@[k] < region@.len(),
    ensures
        r@.len() == states@.len(),
        forall|i: int|
            0 <= i < r@.len() ==> is_block_plan(
                map_of(*to_global),
                states@[i].index,
                states@[i].layout,
                states@[i].codewords is Some,
                rows(provenance@),
                region@,
                (#[trigger] r@[i])@,
            ),
        forall|i: int|
            0 <= i < r@.len() ==> (#[trigger] r@[i])@.len() <= states@[i].layout.spec_ecc()
                && is_erasure_list(r@[i]@, states@[i].layout),
{
    proof {
        lemma_map_describes(*to_global);
    }
    plan_blocks(states, to_global, provenance, region, Ghost(map_of(*to_global)))
}

/// Runs the bootstrap loop.
///
/// - `layouts`: each block's `(n, k)`.
/// - `to_global`: maps a block and a position in it to an index in the interleaved stream.
/// - `provenance`: module indices for each global codeword.
/// - `dimension`: symbol width in modules (symbols here are square).
/// - `decode_block`: attempts one block, with erasures.
pub fn bootstrap<F: Fn(usize, &[usize]) -> Answer, G: Fn(usize, usize) -> Option<usize>>(
    layouts: &[BlockLayout],
    to_global: &G,
    provenance: &[Vec<usize>],
    dimension: usize,
    decode_block: &F,
    params: &BootstrapParams,
) -> (out: BootstrapOutcome)
    requires
        is_index_map(*to_global),
        is_block_decoder(*decode_block, layouts@),
        dimension * dimension <= usize::MAX,
        forall|g: int, k: int|
            0 <= g < provenance@.len() && 0 <= k < provenance@[g]@.len()
                ==> #[trigger] provenance@[g]@[k] < dimension * dimension,
    ensures
        exists|rounds: Seq<Round>|
            #![trigger rounds.last()]
            is_run(
                answers_of(*decode_block),
                map_of(*to_global),
                layouts@,
                rows(provenance@),
                dimension as int,
                *params,
                rounds,
            ) && is_outcome(
                map_of(*to_global),
                layouts@,
                rows(provenance@),
                dimension as int,
                *params,
                rounds,
                out,
            ),
        out.region is Some && out.blocks_decoded_finally < layouts@.len() ==> out.region->0@ == fitted(
            out.damaged_codeword_modules@,
            dimension as int,
            dimension as int,
            params.fit,
        ),
{
    proof {
        lemma_map_describes(*to_global);
    }
    run_bootstrap(
        layouts,
        to_global,
        provenance,
        dimension,
        decode_block,
        params,
        Ghost(map_of(*to_global)),
    )
}

/// When as many blocks decoded as there are, each decoded.
pub proof fn lemma_all_decoded(results: Seq<Answer>)
    requires
        decoded_blocks(results).len() == results.len(),
    ensures
        forall|b: int| 0 <= b < results.len() ==> (#[trigger] results[b]) is Some,
{
    let all = vstd::set_lib::set_int_range(0, results.len() as int);
    vstd::set_lib::lemma_int_range(0, results.len() as int);
    vstd::set_lib::lemma_len_subset(decoded_blocks(results), all);
    vstd::set_lib::lemma_subset_equality(decoded_blocks(results), all);
    assert forall|b: int| 0 <= b < results.len() implies (#[trigger] results[b]) is Some by {
        assert(all.contains(b));
    }
}

/// Adding a round that follows from the others, when the last of them had not settled the matter.
proof fn lemma_course_grows(
    decode_block: Answers,
    to_global: IndexMap,
    layouts: Seq<BlockLayout>,
    provenance: Seq<Seq<usize>>,
    dimension: int,
    fit: FitParams,
    rounds: Seq<Round>,
    entry: Round,
)
    requires
        is_course(decode_block, to_global, layouts, provenance, dimension, fit, rounds),
        rounds.len() > 0 ==> !settled(rounds, rounds.len() - 1),
        is_round(
            decode_block,
            to_global,
            layouts,
            provenance,
            dimension,
            fit,
            rounds.push(entry),
            rounds.len() as int,
        ),
    ensures
        is_course(decode_block, to_global, layouts, provenance, dimension, fit, rounds.push(entry)),
{
    let more = rounds.push(entry);
    assert forall|k: int| 0 <= k < more.len() implies #[trigger] is_round(
        decode_block,
        to_global,
        layouts,
        provenance,
        dimension,
        fit,
        more,
        k,
    ) by {
        if k < rounds.len() {
            assert(is_round(
                decode_block,
                to_global,
                layouts,
                provenance,
                dimension,
                fit,
                rounds,
                k,
            ));
            assert(more[k] == rounds[k]);
            if k > 0 {
                assert(more[k - 1] == rounds[k - 1]);
            }
            assert forall|b: int|
                #![trigger more[k].results[b]]
                0 <= b < layouts.len() implies if k > 0 && more[k - 1].results[b] is Some {
                more[k].results[b] == more[k - 1].results[b]
            } else {
                decode_block(b as usize, more[k].erasures[b], more[k].results[b])
            } by {
                let same = rounds[k].results[b];
            }
            assert forall|b: int|
                #![trigger more[k].erasures[b]]
                0 <= b < layouts.len() implies if k == 0 {
                more[k].erasures[b] == Seq::<usize>::empty()
            } else {
                is_block_plan(
                    to_global,
                    b as usize,
                    layouts[b],
                    more[k - 1].results[b] is Some,
                    provenance,
                    region_of_round(more[k - 1], provenance, dimension, fit),
                    more[k].erasures[b],
                )
            } by {
                let same = rounds[k].erasures[b];
            }
        }
    }
    assert forall|k: int| 0 <= k < more.len() - 1 implies !#[trigger] settled(more, k) by {
        assert(!settled(rounds, k));
        assert(more[k] == rounds[k]);
        if k > 0 {
            assert(more[k - 1] == rounds[k - 1]);
        }
    }
}

/// Whether every answer holds at least the block's data codewords.
pub open spec fn gives_data(decode_block: Answers, layouts: Seq<BlockLayout>) -> bool {
    forall|b: usize, e: Seq<usize>, a: Answer|
        b < layouts.len() && #[trigger] decode_block(b, e, a) && a is Some ==> codewords_in(a).len()
            >= layouts[b as int].data
}

/// What is known of a block at any round is an answer of its decoder.
proof fn lemma_results_are_answers(
    decode_block: Answers,
    to_global: IndexMap,
    layouts: Seq<BlockLayout>,
    provenance: Seq<Seq<usize>>,
    dimension: int,
    fit: FitParams,
    rounds: Seq<Round>,
    k: int,
    b: int,
)
    requires
        is_course(decode_block, to_global, layouts, provenance, dimension, fit, rounds),
        gives_data(decode_block, layouts),
        0 <= k < rounds.len(),
        0 <= b < layouts.len() <= usize::MAX,
        rounds[k].results[b] is Some,
    ensures
        codewords_in(rounds[k].results[b]).len() >= layouts[b].data,
    decreases k,
{
    assert(is_round(decode_block, to_global, layouts, provenance, dimension, fit, rounds, k));
    if k > 0 && rounds[k - 1].results[b] is Some {
        lemma_results_are_answers(
            decode_block,
            to_global,
            layouts,
            provenance,
            dimension,
            fit,
            rounds,
            k - 1,
            b,
        );
    } else {
        let a = rounds[k].results[b];
        assert(decode_block(b as usize, rounds[k].erasures[b], a));
    }
}

/// A block that decoded stays decoded, with the same codewords, in every later round.
pub proof fn law_decoded_blocks_stay_decoded(
    decode_block: Answers,
    to_global: IndexMap,
    layouts: Seq<BlockLayout>,
    provenance: Seq<Seq<usize>>,
    dimension: int,
    params: BootstrapParams,
    rounds: Seq<Round>,
    i: int,
    j: int,
    b: int,
)
    requires
        is_run(decode_block, to_global, layouts, provenance, dimension, params, rounds),
        0 <= i <= j < rounds.len(),
        0 <= b < layouts.len(),
        rounds[i].results[b] is Some,
    ensures
        rounds[j].results[b] == rounds[i].results[b],
    decreases j - i,
{
    if i < j {
        law_decoded_blocks_stay_decoded(
            decode_block,
            to_global,
            layouts,
            provenance,
            dimension,
            params,
            rounds,
            i,
            j - 1,
            b,
        );
        assert(is_round(
            decode_block,
            to_global,
            layouts,
            provenance,
            dimension,
            params.fit,
            rounds,
            j,
        ));
    }
}

/// Bootstrapping never loses ground: at least as many blocks are decoded in the end as plain decoding
/// gave at the start.
pub proof fn law_never_below_plain_decoding(
    decode_block: Answers,
    to_global: IndexMap,
    layouts: Seq<BlockLayout>,
    provenance: Seq<Seq<usize>>,
    dimension: int,
    params: BootstrapParams,
    rounds: Seq<Round>,
)
    requires
        is_run(decode_block, to_global, layouts, provenance, dimension, params, rounds),
    ensures
        decoded_blocks(rounds[0].results).len() <= decoded_blocks(rounds.last().results).len(),
{
    let first = decoded_blocks(rounds[0].results);
    let last = decoded_blocks(rounds.last().results);
    let k = rounds.len() - 1;
    assert(is_round(decode_block, to_global, layouts, provenance, dimension, params.fit, rounds, 0));
    assert(is_round(decode_block, to_global, layouts, provenance, dimension, params.fit, rounds, k));
    assert forall|b: int| first.contains(b) implies last.contains(b) by {
        law_decoded_blocks_stay_decoded(
            decode_block,
            to_global,
            layouts,
            provenance,
            dimension,
            params,
            rounds,
            0,
            k,
            b,
        );
    }
    let all = vstd::set_lib::set_int_range(0, layouts.len() as int);
    vstd::set_lib::lemma_int_range(0, layouts.len() as int);
    vstd::set_lib::lemma_len_subset(last, all);
    vstd::set_lib::lemma_len_subset(first, last);
}

/// A symbol whose blocks all decode at once is left alone: one round, nothing erased, no region.
pub proof fn law_clean_symbols_take_one_round(
    decode_block: Answers,
    to_global: IndexMap,
    layouts: Seq<BlockLayout>,
    provenance: Seq<Seq<usize>>,
    dimension: int,
    params: BootstrapParams,
    rounds: Seq<Round>,
    out: BootstrapOutcome,
)
    requires
        is_run(decode_block, to_global, layouts, provenance, dimension, params, rounds),
        is_outcome(to_global, layouts, provenance, dimension, params, rounds, out),
        decoded_blocks(rounds[0].results).len() == layouts.len(),
    ensures
        out.rounds == 1,
        out.region is None,
        out.blocks_decoded_finally == layouts.len(),
        layouts.len() > 0 ==> out.data is Some,
        forall|b: int| 0 <= b < layouts.len() ==> rounds[0].erasures[b] == Seq::<usize>::empty(),
{
    assert(is_round(decode_block, to_global, layouts, provenance, dimension, params.fit, rounds, 0));
    assert(settled(rounds, 0));
}

/// Without any proof of damage there is nothing to bootstrap from: the loop ends with its first
/// round.
pub proof fn law_no_evidence_ends_the_loop(
    decode_block: Answers,
    to_global: IndexMap,
    layouts: Seq<BlockLayout>,
    provenance: Seq<Seq<usize>>,
    dimension: int,
    params: BootstrapParams,
    rounds: Seq<Round>,
    out: BootstrapOutcome,
)
    requires
        is_run(decode_block, to_global, layouts, provenance, dimension, params, rounds),
        is_outcome(to_global, layouts, provenance, dimension, params, rounds, out),
        proven(to_global, rounds[0].results) == Set::<int>::empty(),
    ensures
        out.rounds == 1,
        out.region is None,
        out.damaged_codeword_modules@ == Seq::<usize>::empty(),
{
    assert(is_round(decode_block, to_global, layouts, provenance, dimension, params.fit, rounds, 0));
    crate::order::lemma_lists_len(rounds[0].evidence, Set::<int>::empty());
    assert(settled(rounds, 0));
}

// ---- what a run proves and uses ----
/// Whether a decoded block shows a codeword of the interleaved stream to be damaged: one of the
/// positions that its decoder found wrong has its place there.
pub open spec fn shows_damaged(to_global: IndexMap, results: Seq<Answer>, g: usize) -> bool {
    exists|b: int, p: usize|
        #![trigger results[b], to_global(b as usize, p)]
        0 <= b < results.len() && to_global(b as usize, p) == Some(g) && match results[b] {
            Some((_, local)) => local@.contains(p),
            None => false,
        }
}

/// The places of a list of positions are those of its members.
proof fn lemma_globals_of(to_global: IndexMap, b: usize, local: Seq<usize>, g: usize)
    ensures
        globals_of(to_global, b, local).contains(g) <==> exists|p: usize|
            local.contains(p) && #[trigger] to_global(b, p) == Some(g),
    decreases local.len(),
{
    let all = globals_of(to_global, b, local);
    if local.len() > 0 {
        let rest = local.drop_last();
        let before = globals_of(to_global, b, rest);
        lemma_globals_of(to_global, b, rest, g);
        assert(local =~= rest.push(local.last()));
        if all.contains(g) {
            let k = choose|k: int| 0 <= k < all.len() && all[k] == g;
            if k < before.len() {
                assert(before[k] == g);
                let p = choose|p: usize| rest.contains(p) && #[trigger] to_global(b, p) == Some(g);
                let i = choose|i: int| 0 <= i < rest.len() && rest[i] == p;
                assert(local[i] == p);
            } else {
                assert(local[local.len() - 1] == local.last());
                assert(to_global(b, local.last()) == Some(g));
            }
        }
        if exists|p: usize| local.contains(p) && #[trigger] to_global(b, p) == Some(g) {
            let p = choose|p: usize| local.contains(p) && #[trigger] to_global(b, p) == Some(g);
            let i = choose|i: int| 0 <= i < local.len() && local[i] == p;
            if i < rest.len() {
                assert(rest[i] == p);
                let k = choose|k: int| 0 <= k < before.len() && before[k] == g;
                assert(all[k] == g);
            } else {
                assert(all[all.len() - 1] == g);
            }
        }
    }
}

/// What the decoded blocks prove damaged is what they show.
proof fn lemma_proven_is_shown(to_global: IndexMap, results: Seq<Answer>, g: usize)
    requires
        results.len() <= usize::MAX,
    ensures
        proven(to_global, results).contains(g as int) <==> shows_damaged(to_global, results, g),
{
    if proven(to_global, results).contains(g as int) {
        let (b, k) = choose|b: int, k: int|
            #![trigger globals_of(to_global, b as usize, damage_in(results[b]))[k]]
            0 <= b < results.len() && results[b] is Some && 0 <= k < globals_of(
                to_global,
                b as usize,
                damage_in(results[b]),
            ).len() && globals_of(to_global, b as usize, damage_in(results[b]))[k] == g;
        let local = damage_in(results[b]);
        lemma_globals_of(to_global, b as usize, local, g);
        assert(globals_of(to_global, b as usize, local).contains(g));
        let p = choose|p: usize| local.contains(p) && #[trigger] to_global(b as usize, p) == Some(g);
        assert(to_global(b as usize, p) == Some(g));
    }
    if shows_damaged(to_global, results, g) {
        let (b, p) = choose|b: int, p: usize|
            #![trigger results[b], to_global(b as usize, p)]
            0 <= b < results.len() && to_global(b as usize, p) == Some(g) && match results[b] {
                Some((_, local)) => local@.contains(p),
                None => false,
            };
        let local = damage_in(results[b]);
        lemma_globals_of(to_global, b as usize, local, g);
        let all = globals_of(to_global, b as usize, local);
        let k = choose|k: int| 0 <= k < all.len() && all[k] == g;
        assert(globals_of(to_global, b as usize, damage_in(results[b]))[k] == g);
    }
}

/// The evidence of a round is all that the blocks decoded by then show, whichever round they decoded in.
pub proof fn law_evidence_is_what_decoded_blocks_show(
    decode_block: Answers,
    to_global: IndexMap,
    layouts: Seq<BlockLayout>,
    provenance: Seq<Seq<usize>>,
    dimension: int,
    params: BootstrapParams,
    rounds: Seq<Round>,
    k: int,
    g: usize,
)
    requires
        is_run(decode_block, to_global, layouts, provenance, dimension, params, rounds),
        layouts.len() <= usize::MAX,
        0 <= k < rounds.len(),
    ensures
        rounds[k].evidence.contains(g) <==> shows_damaged(to_global, rounds[k].results, g),
{
    assert(is_round(decode_block, to_global, layouts, provenance, dimension, params.fit, rounds, k));
    lemma_proven_is_shown(to_global, rounds[k].results, g);
    let s = rounds[k].evidence;
    let of = proven(to_global, rounds[k].results);
    if s.contains(g) {
        let i = choose|i: int| 0 <= i < s.len() && s[i] == g;
        assert(of.contains(s[i] as int));
    }
    if of.contains(g as int) {
        let i = choose|i: int| 0 <= i < s.len() && s[i] == g as int;
        assert(s[i] == g);
    }
}

/// What one round showed damaged, every later round shows.
proof fn lemma_evidence_never_shrinks(
    decode_block: Answers,
    to_global: IndexMap,
    layouts: Seq<BlockLayout>,
    provenance: Seq<Seq<usize>>,
    dimension: int,
    params: BootstrapParams,
    rounds: Seq<Round>,
    i: int,
    j: int,
)
    requires
        is_run(decode_block, to_global, layouts, provenance, dimension, params, rounds),
        0 <= i <= j < rounds.len(),
    ensures
        proven(to_global, rounds[i].results).subset_of(proven(to_global, rounds[j].results)),
{
    let (from, to) = (rounds[i].results, rounds[j].results);
    assert(is_round(decode_block, to_global, layouts, provenance, dimension, params.fit, rounds, i));
    assert(is_round(decode_block, to_global, layouts, provenance, dimension, params.fit, rounds, j));
    assert forall|g: int| proven(to_global, from).contains(g) implies proven(
        to_global,
        to,
    ).contains(g) by {
        let (b, k) = choose|b: int, k: int|
            #![trigger globals_of(to_global, b as usize, damage_in(from[b]))[k]]
            0 <= b < from.len() && from[b] is Some && 0 <= k < globals_of(
                to_global,
                b as usize,
                damage_in(from[b]),
            ).len() && globals_of(to_global, b as usize, damage_in(from[b]))[k] == g;
        law_decoded_blocks_stay_decoded(
            decode_block,
            to_global,
            layouts,
            provenance,
            dimension,
            params,
            rounds,
            i,
            j,
            b,
        );
        assert(globals_of(to_global, b as usize, damage_in(to[b]))[k] == g);
    }
}

/// A run takes at least one round, and no more than it may where it may take any.
pub proof fn law_runs_take_the_rounds_they_may(
    decode_block: Answers,
    to_global: IndexMap,
    layouts: Seq<BlockLayout>,
    provenance: Seq<Seq<usize>>,
    dimension: int,
    params: BootstrapParams,
    rounds: Seq<Round>,
)
    requires
        is_run(decode_block, to_global, layouts, provenance, dimension, params, rounds),
    ensures
        rounds.len() >= 1,
        params.max_rounds > 0 ==> rounds.len() <= params.max_rounds,
        params.max_rounds == 0 ==> rounds.len() == 1,
{
}

/// A run gives up only when a round has taught it nothing: where it ends with a block undecoded, with
/// damage shown and with rounds to spare, it took at least two, and the last shows nothing damaged that
/// the one before had not shown.
pub proof fn law_runs_go_on_while_evidence_grows(
    decode_block: Answers,
    to_global: IndexMap,
    layouts: Seq<BlockLayout>,
    provenance: Seq<Seq<usize>>,
    dimension: int,
    params: BootstrapParams,
    rounds: Seq<Round>,
    undecoded: int,
    shown: usize,
)
    requires
        is_run(decode_block, to_global, layouts, provenance, dimension, params, rounds),
        layouts.len() <= usize::MAX,
        0 <= undecoded < layouts.len(),
        rounds.last().results[undecoded] is None,
        shows_damaged(to_global, rounds.last().results, shown),
        rounds.len() < params.max_rounds,
    ensures
        rounds.len() >= 2,
        forall|g: usize| #[trigger]
            shows_damaged(to_global, rounds.last().results, g) ==> shows_damaged(
                to_global,
                rounds[rounds.len() - 2].results,
                g,
            ),
{
    let k = rounds.len() - 1;
    let results = rounds[k].results;
    assert(is_round(decode_block, to_global, layouts, provenance, dimension, params.fit, rounds, k));
    if decoded_blocks(results).len() == results.len() {
        lemma_all_decoded(results);
    }
    law_evidence_is_what_decoded_blocks_show(
        decode_block,
        to_global,
        layouts,
        provenance,
        dimension,
        params,
        rounds,
        k,
        shown,
    );
    assert(rounds[k].evidence.len() > 0);
    assert(settled(rounds, k));
    assert(is_round(
        decode_block,
        to_global,
        layouts,
        provenance,
        dimension,
        params.fit,
        rounds,
        k - 1,
    ));
    let (was, now) = (proven(to_global, rounds[k - 1].results), proven(to_global, results));
    lemma_evidence_never_shrinks(
        decode_block,
        to_global,
        layouts,
        provenance,
        dimension,
        params,
        rounds,
        k - 1,
        k,
    );
    crate::order::lemma_lists_len(rounds[k - 1].evidence, was);
    crate::order::lemma_lists_len(rounds[k].evidence, now);
    vstd::set_lib::lemma_subset_equality(was, now);
    assert forall|g: usize| #[trigger] shows_damaged(to_global, results, g) implies shows_damaged(
        to_global,
        rounds[k - 1].results,
        g,
    ) by {
        lemma_proven_is_shown(to_global, results, g);
        lemma_proven_is_shown(to_global, rounds[k - 1].results, g);
    }
}

/// No round is spent on what is known already: where another round follows, some block is undecoded and
/// something is shown damaged that the round before had not shown.
pub proof fn law_every_further_round_has_new_evidence(
    decode_block: Answers,
    to_global: IndexMap,
    layouts: Seq<BlockLayout>,
    provenance: Seq<Seq<usize>>,
    dimension: int,
    params: BootstrapParams,
    rounds: Seq<Round>,
    k: int,
)
    requires
        is_run(decode_block, to_global, layouts, provenance, dimension, params, rounds),
        layouts.len() <= usize::MAX,
        0 <= k < rounds.len() - 1,
    ensures
        exists|b: int| 0 <= b < layouts.len() && (#[trigger] rounds[k].results[b]) is None,
        exists|g: usize| #[trigger]
            shows_damaged(to_global, rounds[k].results, g) && (k > 0 ==> !shows_damaged(
                to_global,
                rounds[k - 1].results,
                g,
            )),
        rounds.len() <= params.max_rounds,
{
    let results = rounds[k].results;
    assert(!settled(rounds, k));
    assert(is_round(decode_block, to_global, layouts, provenance, dimension, params.fit, rounds, k));
    if forall|b: int| 0 <= b < layouts.len() ==> (#[trigger] rounds[k].results[b]) is Some {
        let all = vstd::set_lib::set_int_range(0, results.len() as int);
        vstd::set_lib::lemma_int_range(0, results.len() as int);
        assert(decoded_blocks(results) =~= all);
    }
    let now = rounds[k].evidence;
    assert(exists|g: usize|
        now.contains(g) && (k > 0 ==> !rounds[k - 1].evidence.contains(g))) by {
        if k == 0 {
            assert(now.contains(now[0]));
        } else if forall|g: usize| now.contains(g) ==> rounds[k - 1].evidence.contains(g) {
            let was = rounds[k - 1].evidence;
            assert(is_round(
                decode_block,
                to_global,
                layouts,
                provenance,
                dimension,
                params.fit,
                rounds,
                k - 1,
            ));
            let (old_set, new_set) = (
                proven(to_global, rounds[k - 1].results),
                proven(to_global, results),
            );
            lemma_evidence_never_shrinks(
                decode_block,
                to_global,
                layouts,
                provenance,
                dimension,
                params,
                rounds,
                k - 1,
                k,
            );
            assert forall|g: int| new_set.contains(g) implies old_set.contains(g) by {
                let i = choose|i: int| 0 <= i < now.len() && now[i] == g;
                assert(now.contains(now[i]));
                let j = choose|j: int| 0 <= j < was.len() && was[j] == now[i];
                assert(old_set.contains(was[j] as int));
            }
            assert(old_set =~= new_set);
            crate::order::lemma_lists_len(was, old_set);
            crate::order::lemma_lists_len(now, new_set);
        }
    }
    let g = choose|g: usize|
        now.contains(g) && (k > 0 ==> !rounds[k - 1].evidence.contains(g));
    law_evidence_is_what_decoded_blocks_show(
        decode_block,
        to_global,
        layouts,
        provenance,
        dimension,
        params,
        rounds,
        k,
        g,
    );
    if k > 0 {
        law_evidence_is_what_decoded_blocks_show(
            decode_block,
            to_global,
            layouts,
            provenance,
            dimension,
            params,
            rounds,
            k - 1,
            g,
        );
    }
}

/// In no round are more codewords of a block erased than it has error-correction codewords.
pub proof fn law_erasures_fit_the_block(
    decode_block: Answers,
    to_global: IndexMap,
    layouts: Seq<BlockLayout>,
    provenance: Seq<Seq<usize>>,
    dimension: int,
    params: BootstrapParams,
    rounds: Seq<Round>,
    k: int,
    b: int,
)
    requires
        is_run(decode_block, to_global, layouts, provenance, dimension, params, rounds),
        0 <= k < rounds.len(),
        0 <= b < layouts.len() <= usize::MAX,
    ensures
        rounds[k].erasures[b].len() <= layouts[b].spec_ecc(),
        ascending(rounds[k].erasures[b]),
        forall|i: int|
            0 <= i < rounds[k].erasures[b].len() ==> #[trigger] rounds[k].erasures[b][i]
                < layouts[b].total,
{
    assert(is_round(decode_block, to_global, layouts, provenance, dimension, params.fit, rounds, k));
    let positions = rounds[k].erasures[b];
    if k > 0 && rounds[k - 1].results[b] is None {
        let region = region_of_round(rounds[k - 1], provenance, dimension, params.fit);
        let keys = burial_keys(
            to_global,
            b as usize,
            layouts[b].total as nat,
            provenance,
            region,
        );
        crate::order::lemma_lists_len(positions, first_ranked(keys, layouts[b].spec_ecc()));
        crate::order::law_first_ranked_fit_the_cap(keys, layouts[b].spec_ecc());
    }
}

/// A run stays one when what the decoder may answer is described less closely.
pub proof fn lemma_run_weakens(
    closely: Answers,
    loosely: Answers,
    to_global: IndexMap,
    layouts: Seq<BlockLayout>,
    provenance: Seq<Seq<usize>>,
    dimension: int,
    params: BootstrapParams,
    rounds: Seq<Round>,
)
    requires
        is_run(closely, to_global, layouts, provenance, dimension, params, rounds),
        layouts.len() <= usize::MAX,
        forall|b: usize, e: Seq<usize>, a: Answer|
            b < layouts.len() && is_erasure_list(e, layouts[b as int]) && #[trigger] closely(b, e, a)
                ==> loosely(b, e, a),
    ensures
        is_run(loosely, to_global, layouts, provenance, dimension, params, rounds),
{
    assert forall|k: int| 0 <= k < rounds.len() implies #[trigger] is_round(
        loosely,
        to_global,
        layouts,
        provenance,
        dimension,
        params.fit,
        rounds,
        k,
    ) by {
        assert(is_round(
            closely,
            to_global,
            layouts,
            provenance,
            dimension,
            params.fit,
            rounds,
            k,
        ));
        assert forall|b: int|
            #![trigger rounds[k].results[b]]
            0 <= b < layouts.len() implies if k > 0 && rounds[k - 1].results[b] is Some {
            rounds[k].results[b] == rounds[k - 1].results[b]
        } else {
            loosely(b as usize, rounds[k].erasures[b], rounds[k].results[b])
        } by {
            law_erasures_fit_the_block(
                closely,
                to_global,
                layouts,
                provenance,
                dimension,
                params,
                rounds,
                k,
                b,
            );
        }
    }
}

/// A run that did not decode every block has used all the evidence that it reports: its region is the one
/// fitted to all modules of all codewords that were shown damaged, unless there were none.
pub proof fn law_unfinished_runs_fit_all_their_evidence(
    decode_block: Answers,
    to_global: IndexMap,
    layouts: Seq<BlockLayout>,
    provenance: Seq<Seq<usize>>,
    dimension: int,
    params: BootstrapParams,
    rounds: Seq<Round>,
    out: BootstrapOutcome,
)
    requires
        is_run(decode_block, to_global, layouts, provenance, dimension, params, rounds),
        is_outcome(to_global, layouts, provenance, dimension, params, rounds, out),
        layouts.len() <= usize::MAX,
        out.blocks_decoded_finally < layouts.len(),
    ensures
        out.region is None <==> rounds.last().evidence.len() == 0,
        out.region is Some ==> out.region->0@ == fitted(
            out.damaged_codeword_modules@,
            dimension,
            dimension,
            params.fit,
        ),
{
    let k = rounds.len() - 1;
    assert(is_round(decode_block, to_global, layouts, provenance, dimension, params.fit, rounds, k));
    assert(rounds.last() == rounds[k]);
    if k > 0 {
        assert(!settled(rounds, k - 1));
        assert(is_round(
            decode_block,
            to_global,
            layouts,
            provenance,
            dimension,
            params.fit,
            rounds,
            k - 1,
        ));
        lemma_evidence_never_shrinks(
            decode_block,
            to_global,
            layouts,
            provenance,
            dimension,
            params,
            rounds,
            k - 1,
            k,
        );
        let (was, now) = (
            proven(to_global, rounds[k - 1].results),
            proven(to_global, rounds[k].results),
        );
        crate::order::lemma_lists_len(rounds[k - 1].evidence, was);
        crate::order::lemma_lists_len(rounds[k].evidence, now);
        vstd::set_lib::lemma_len_subset(was, now);
        if settled(rounds, k) {
            vstd::set_lib::lemma_subset_equality(was, now);
            crate::order::law_ascending_list_is_unique(
                rounds[k - 1].evidence,
                rounds[k].evidence,
                now,
            );
        }
    }
}

/// The places of a codeword's list of modules that lie in a region.
pub open spec fn modules_inside(modules: Seq<usize>, region: Seq<bool>) -> Set<int> {
    Set::new(|k: int| 0 <= k < modules.len() && region[modules[k] as int])
}

/// How many modules of a block's codeword lie in a region, when its place is known.
pub open spec fn has_inside(
    to_global: IndexMap,
    b: usize,
    p: int,
    provenance: Seq<Seq<usize>>,
    region: Seq<bool>,
    n: nat,
) -> bool {
    match to_global(b, p as usize) {
        Some(g) => g < provenance.len() && n == modules_inside(provenance[g as int], region).len(),
        None => false,
    }
}

proof fn lemma_inside(
    to_global: IndexMap,
    b: usize,
    total: nat,
    provenance: Seq<Seq<usize>>,
    region: Seq<bool>,
    p: int,
)
    requires
        0 <= p < total,
        forall|g: int| 0 <= g < provenance.len() ==> (#[trigger] provenance[g]).len() <= usize::MAX,
    ensures
        burial_keys(to_global, b, total, provenance, region)[p] is Some <==> exists|n: nat|
            n > 0 && #[trigger] has_inside(to_global, b, p, provenance, region, n),
        forall|n: nat| #[trigger]
            has_inside(to_global, b, p, provenance, region, n) && n > 0 ==> burial_keys(
                to_global,
                b,
                total,
                provenance,
                region,
            )[p] == Some((-(n as int)) as i128) && n <= usize::MAX,
{
    match to_global(b, p as usize) {
        Some(g) => {
            if g < provenance.len() {
                let modules = provenance[g as int];
                let flags = modules.map_values(|m: usize| region[m as int]);
                assert(set_positions(flags) =~= modules_inside(modules, region));
                let n = modules_inside(modules, region).len();
                let all = vstd::set_lib::set_int_range(0, modules.len() as int);
                vstd::set_lib::lemma_int_range(0, modules.len() as int);
                vstd::set_lib::lemma_len_subset(modules_inside(modules, region), all);
                assert(has_inside(to_global, b, p, provenance, region, n));
                assert(covered(modules, region) == n);
            }
        },
        None => {},
    }
}

/// A block that failed is erased where the region buries it. Every erased codeword has modules in the
/// region; of those that have, one is spared only when the budget is spent, on codewords with at least as
/// many modules in it. A block that decoded is left alone.
pub proof fn law_erasures_are_the_deepest_buried(
    to_global: IndexMap,
    b: usize,
    layout: BlockLayout,
    decoded: bool,
    provenance: Seq<Seq<usize>>,
    region: Seq<bool>,
    positions: Seq<usize>,
    p: int,
    n: nat,
)
    requires
        is_block_plan(to_global, b, layout, decoded, provenance, region, positions),
        forall|g: int| 0 <= g < provenance.len() ==> (#[trigger] provenance[g]).len() <= usize::MAX,
        0 <= p < layout.total,
    ensures
        decoded ==> positions.len() == 0,
        !decoded && positions.contains(p as usize) ==> exists|m: nat|
            m > 0 && #[trigger] has_inside(to_global, b, p, provenance, region, m),
        !decoded && n > 0 && has_inside(to_global, b, p, provenance, region, n)
            && !positions.contains(p as usize) ==> {
            &&& positions.len() == if layout.data <= layout.total {
                layout.total - layout.data
            } else {
                0
            }
            &&& forall|q: int, m: nat|
                0 <= q < layout.total && positions.contains(q as usize) && #[trigger] has_inside(
                    to_global,
                    b,
                    q,
                    provenance,
                    region,
                    m,
                ) ==> m >= n
        },
        !decoded ==> positions.len() <= if layout.data <= layout.total {
            layout.total - layout.data
        } else {
            0
        },
{
    if !decoded {
        let keys = burial_keys(to_global, b, layout.total as nat, provenance, region);
        let cap = layout.spec_ecc();
        let chosen = first_ranked(keys, cap);
        crate::order::law_first_ranked_fit_the_cap(keys, cap);
        crate::order::lemma_lists_len(positions, chosen);
        assert forall|q: int| 0 <= q < layout.total implies chosen.contains(q)
            == #[trigger] positions.contains(q as usize) by {
            if chosen.contains(q) {
                let k = choose|k: int| 0 <= k < positions.len() && positions[k] == q;
                assert(positions[k] == q as usize);
            }
            if positions.contains(q as usize) {
                let k = choose|k: int| 0 <= k < positions.len() && positions[k] == q as usize;
                assert(chosen.contains(positions[k] as int));
            }
        }
        lemma_inside(to_global, b, layout.total as nat, provenance, region, p);
        assert(positions.contains(p as usize) == chosen.contains(p));
        if n > 0 && has_inside(to_global, b, p, provenance, region, n) && !positions.contains(
            p as usize,
        ) {
            assert(!chosen.contains(p));
            assert(crate::order::candidates(keys).contains(p));
            assert forall|q: int, m: nat|
                0 <= q < layout.total && positions.contains(q as usize) && #[trigger] has_inside(
                    to_global,
                    b,
                    q,
                    provenance,
                    region,
                    m,
                ) implies m >= n by {
                lemma_inside(to_global, b, layout.total as nat, provenance, region, q);
                assert(chosen.contains(q));
                crate::order::law_first_ranked_are_the_best(keys, cap, q, p);
            }
            if cap > chosen.len() {
                assert(crate::order::candidates(keys).len() <= cap);
                assert(chosen == crate::order::candidates(keys));
            }
        }
    }
}

/// Every round plans with all that was known before it: the blocks that failed are erased where the region
/// fitted to everything shown damaged by then buries them.
pub proof fn law_rounds_plan_with_all_the_evidence(
    decode_block: Answers,
    to_global: IndexMap,
    layouts: Seq<BlockLayout>,
    provenance: Seq<Seq<usize>>,
    dimension: int,
    params: BootstrapParams,
    rounds: Seq<Round>,
    k: int,
    b: int,
    modules: Seq<usize>,
)
    requires
        is_run(decode_block, to_global, layouts, provenance, dimension, params, rounds),
        layouts.len() <= usize::MAX,
        0 < k < rounds.len(),
        0 <= b < layouts.len(),
        modules == modules_of_codewords(rounds[k - 1].evidence, provenance),
    ensures
        is_block_plan(
            to_global,
            b as usize,
            layouts[b],
            rounds[k - 1].results[b] is Some,
            provenance,
            fitted(modules, dimension, dimension, params.fit),
            rounds[k].erasures[b],
        ),
        forall|m: usize| #[trigger]
            modules.contains(m) <==> exists|g: usize|
                g < provenance.len() && #[trigger] shows_damaged(
                    to_global,
                    rounds[k - 1].results,
                    g,
                ) && provenance[g as int].contains(m),
        k - 1 == 0 ==> rounds[0].erasures[b].len() == 0,
{
    assert(is_round(decode_block, to_global, layouts, provenance, dimension, params.fit, rounds, k));
    assert(is_round(
        decode_block,
        to_global,
        layouts,
        provenance,
        dimension,
        params.fit,
        rounds,
        k - 1,
    ));
    assert(is_round(decode_block, to_global, layouts, provenance, dimension, params.fit, rounds, 0));
    let evidence = rounds[k - 1].evidence;
    let planned = rounds[k].erasures[b];
    let first = rounds[0].erasures[b];
    assert forall|m: usize| #[trigger]
        modules.contains(m) <==> exists|g: usize|
            g < provenance.len() && #[trigger] shows_damaged(
                to_global,
                rounds[k - 1].results,
                g,
            ) && provenance[g as int].contains(m) by {
        lemma_modules_of_codewords(evidence, provenance, m);
        if modules.contains(m) {
            let g = choose|g: usize|
                evidence.contains(g) && g < provenance.len() && provenance[g as int].contains(m);
            law_evidence_is_what_decoded_blocks_show(
                decode_block,
                to_global,
                layouts,
                provenance,
                dimension,
                params,
                rounds,
                k - 1,
                g,
            );
        }
        if exists|g: usize|
            g < provenance.len() && #[trigger] shows_damaged(
                to_global,
                rounds[k - 1].results,
                g,
            ) && provenance[g as int].contains(m) {
            let g = choose|g: usize|
                g < provenance.len() && #[trigger] shows_damaged(
                    to_global,
                    rounds[k - 1].results,
                    g,
                ) && provenance[g as int].contains(m);
            law_evidence_is_what_decoded_blocks_show(
                decode_block,
                to_global,
                layouts,
                provenance,
                dimension,
                params,
                rounds,
                k - 1,
                g,
            );
        }
    }
}

/// A module is listed when it belongs to a listed codeword.
pub proof fn lemma_modules_of_codewords(codewords: Seq<usize>, provenance: Seq<Seq<usize>>, m: usize)
    ensures
        modules_of_codewords(codewords, provenance).contains(m) <==> exists|g: usize|
            codewords.contains(g) && g < provenance.len() && provenance[g as int].contains(m),
    decreases codewords.len(),
{
    let all = modules_of_codewords(codewords, provenance);
    if codewords.len() > 0 {
        let rest = codewords.drop_last();
        let cw = codewords.last();
        let before = modules_of_codewords(rest, provenance);
        lemma_modules_of_codewords(rest, provenance, m);
        assert(codewords[codewords.len() - 1] == cw);
        if all.contains(m) {
            let i = choose|i: int| 0 <= i < all.len() && all[i] == m;
            if i < before.len() {
                assert(before[i] == m);
                let g = choose|g: usize|
                    rest.contains(g) && g < provenance.len() && provenance[g as int].contains(m);
                let j = choose|j: int| 0 <= j < rest.len() && rest[j] == g;
                assert(codewords[j] == g);
                assert(codewords.contains(g));
            } else {
                assert(provenance[cw as int][i - before.len()] == m);
                assert(codewords.contains(cw) && provenance[cw as int].contains(m));
            }
        }
        if exists|g: usize|
            codewords.contains(g) && g < provenance.len() && provenance[g as int].contains(m) {
            let g = choose|g: usize|
                codewords.contains(g) && g < provenance.len() && provenance[g as int].contains(m);
            let j = choose|j: int| 0 <= j < codewords.len() && codewords[j] == g;
            if j < rest.len() {
                assert(rest[j] == g);
                assert(rest.contains(g));
                assert(before.contains(m));
                let i = choose|i: int| 0 <= i < before.len() && before[i] == m;
                assert(all[i] == m);
            } else {
                let share = provenance[cw as int];
                let i = choose|i: int| 0 <= i < share.len() && share[i] == m;
                assert(all[before.len() + i] == m);
            }
        }
    }
}

/// What is reported agrees with itself: as many blocks are counted as have codewords, there are data exactly
/// when every block has, and a module is reported exactly when it belongs to a codeword that some block
/// reports as damaged.
pub proof fn law_outcomes_report_their_blocks(
    decode_block: Answers,
    to_global: IndexMap,
    layouts: Seq<BlockLayout>,
    provenance: Seq<Seq<usize>>,
    dimension: int,
    params: BootstrapParams,
    rounds: Seq<Round>,
    out: BootstrapOutcome,
    m: usize,
)
    requires
        is_run(decode_block, to_global, layouts, provenance, dimension, params, rounds),
        is_outcome(to_global, layouts, provenance, dimension, params, rounds, out),
        layouts.len() <= usize::MAX,
    ensures
        out.blocks_decoded_finally == Set::new(
            |b: int| 0 <= b < out.blocks@.len() && out.blocks@[b].codewords is Some,
        ).len(),
        out.data is Some <==> out.blocks@.len() > 0 && forall|b: int|
            0 <= b < out.blocks@.len() ==> (#[trigger] out.blocks@[b]).codewords is Some,
        out.damaged_codeword_modules@.contains(m) <==> exists|b: int, g: usize|
            #![trigger out.blocks@[b].damaged@.contains(g)]
            0 <= b < out.blocks@.len() && out.blocks@[b].damaged@.contains(g) && g
                < provenance.len() && provenance[g as int].contains(m),
{
    let k = rounds.len() - 1;
    let last = rounds[k];
    assert(rounds.last() == last);
    assert(is_round(decode_block, to_global, layouts, provenance, dimension, params.fit, rounds, k));
    let kept = Set::new(|b: int| 0 <= b < out.blocks@.len() && out.blocks@[b].codewords is Some);
    assert forall|b: int| kept.contains(b) == decoded_blocks(last.results).contains(b) by {
        if 0 <= b < layouts.len() {
            assert(is_state(to_global, b, layouts[b], last.results[b], out.blocks@[b]));
        }
    }
    assert(kept =~= decoded_blocks(last.results));
    let all = vstd::set_lib::set_int_range(0, layouts.len() as int);
    vstd::set_lib::lemma_int_range(0, layouts.len() as int);
    if out.data is Some {
        lemma_all_decoded(last.results);
        assert forall|b: int| 0 <= b < out.blocks@.len() implies (
        #[trigger] out.blocks@[b]).codewords is Some by {
            assert(is_state(to_global, b, layouts[b], last.results[b], out.blocks@[b]));
        }
    }
    if forall|b: int|
        0 <= b < out.blocks@.len() ==> (#[trigger] out.blocks@[b]).codewords is Some {
        assert(kept =~= all);
    }
    lemma_modules_of_codewords(last.evidence, provenance, m);
    if out.damaged_codeword_modules@.contains(m) {
        let g = choose|g: usize|
            last.evidence.contains(g) && g < provenance.len() && provenance[g as int].contains(m);
        let i = choose|i: int| 0 <= i < last.evidence.len() && last.evidence[i] == g;
        let results = last.results;
        assert(proven(to_global, results).contains(last.evidence[i] as int));
        let (b, j) = choose|b: int, j: int|
            #![trigger globals_of(to_global, b as usize, damage_in(results[b]))[j]]
            0 <= b < results.len() && results[b] is Some && 0 <= j < globals_of(
                to_global,
                b as usize,
                damage_in(results[b]),
            ).len() && globals_of(to_global, b as usize, damage_in(results[b]))[j] == g as int;
        assert(is_state(to_global, b, layouts[b], results[b], out.blocks@[b]));
        assert(out.blocks@[b].damaged@[j] == g);
        assert(out.blocks@[b].damaged@.contains(g));
    }
    if exists|b: int, g: usize|
        #![trigger out.blocks@[b].damaged@.contains(g)]
        0 <= b < out.blocks@.len() && out.blocks@[b].damaged@.contains(g) && g < provenance.len()
            && provenance[g as int].contains(m) {
        let (b, g) = choose|b: int, g: usize|
            #![trigger out.blocks@[b].damaged@.contains(g)]
            0 <= b < out.blocks@.len() && out.blocks@[b].damaged@.contains(g) && g
                < provenance.len() && provenance[g as int].contains(m);
        let results = last.results;
        assert(is_state(to_global, b, layouts[b], results[b], out.blocks@[b]));
        let there = out.blocks@[b].damaged@;
        let j = choose|j: int| 0 <= j < there.len() && there[j] == g;
        assert(globals_of(to_global, b as usize, damage_in(results[b]))[j] == g);
        assert(proven(to_global, results).contains(g as int));
        let i = choose|i: int| 0 <= i < last.evidence.len() && last.evidence[i] == g as int;
        assert(last.evidence[i] == g);
        assert(last.evidence.contains(g));
    }
}

/// How many data codewords come before a block's.
pub open spec fn data_before(layouts: Seq<BlockLayout>, b: int) -> int
    decreases b,
{
    if b <= 0 {
        0
    } else {
        data_before(layouts, b - 1) + layouts[b - 1].data
    }
}

/// The data are the data codewords of all blocks, in block order: each block contributes the first of its
/// codewords, as many as its layout says.
pub proof fn law_data_are_the_blocks_data(
    results: Seq<Answer>,
    layouts: Seq<BlockLayout>,
    n: int,
    b: int,
    i: int,
)
    requires
        0 <= b < n <= layouts.len(),
        results.len() == layouts.len(),
        forall|c: int|
            0 <= c < n ==> codewords_in(#[trigger] results[c]).len() >= layouts[c].data,
        0 <= i < layouts[b].data,
    ensures
        data_of(results, layouts, n).len() == data_before(layouts, n),
        0 <= data_before(layouts, b) + i < data_of(results, layouts, n).len(),
        results[b] matches Some((codewords, _)) ==> data_of(results, layouts, n)[data_before(
            layouts,
            b,
        ) + i] == codewords@[i],
    decreases n,
{
    lemma_data_len(results, layouts, n);
    lemma_data_len(results, layouts, n - 1);
    lemma_data_len(results, layouts, b);
    assert(codewords_in(results[n - 1]).len() >= layouts[n - 1].data);
    if b < n - 1 {
        law_data_are_the_blocks_data(results, layouts, n - 1, b, i);
    }
}

proof fn lemma_data_len(results: Seq<Answer>, layouts: Seq<BlockLayout>, n: int)
    requires
        0 <= n <= layouts.len(),
        results.len() == layouts.len(),
        forall|c: int|
            0 <= c < n ==> codewords_in(#[trigger] results[c]).len() >= layouts[c].data,
    ensures
        data_of(results, layouts, n).len() == data_before(layouts, n),
        0 <= data_before(layouts, n),
    decreases n,
{
    if n > 0 {
        lemma_data_len(results, layouts, n - 1);
        assert(codewords_in(results[n - 1]).len() >= layouts[n - 1].data);
    }
}

} // verus!
