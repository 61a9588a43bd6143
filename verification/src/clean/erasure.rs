//! Mapping module confidence onto codeword erasure positions.
//!
//! A codeword's confidence is the minimum over its modules, not the mean: a codeword with one module
//! under a logo is a broken codeword. Erasures are then allocated per block, worst first, and capped,
//! because spending capacity on healthy codewords is a net loss.
//!
//! Confidences are single-precision numbers, held by their bit patterns and compared as numbers (see
//! [`crate::float`]).
use vstd::prelude::*;
use crate::float::{at_most, float_at_most, float_key, is_finite, is_nan, key_of, less};
use crate::order::{candidates, first_ranked, lists, pick_first};

verus! {

/// One error-correction block's geometry.
#[derive(Clone, Copy, Debug, PartialEq, Eq, Structural)]
pub struct BlockLayout {
    /// Total codewords in the block, `n`.
    pub total: usize,
    /// Data codewords, `k`. The remainder is error correction.
    pub data: usize,
}

impl BlockLayout {
    pub fn new(total: usize, data: usize) -> (r: Self)
        requires
            data <= total,
        ensures
            r.total == total,
            r.data == data,
    {
        Self { total, data }
    }

    /// Error-correction codewords, `n - k`, and none when `k` exceeds `n`.
    pub open spec fn spec_ecc(self) -> int {
        if self.data <= self.total {
            self.total - self.data
        } else {
            0
        }
    }

    /// Error-correction codewords, `n - k`. The full erasure budget.
    pub fn ecc(&self) -> (r: usize)
        ensures
            r == self.spec_ecc(),
    {
        if self.data <= self.total {
            self.total - self.data
        } else {
            0
        }
    }

    /// Errors correctable with no erasures marked: half the budget, rounded down.
    pub fn max_errors(&self) -> (r: usize)
        ensures
            r == self.spec_ecc() / 2,
    {
        self.ecc() / 2
    }
}

/// Which modules produced which codeword.
///
/// Stored as one row of modules with the place where each codeword's share starts, because codeword
/// width varies by symbology.
#[derive(Debug)]
pub struct CodewordProvenance {
    offsets: Vec<usize>,
    modules: Vec<usize>,
}

impl View for CodewordProvenance {
    type V = Seq<Seq<usize>>;

    closed spec fn view(&self) -> Seq<Seq<usize>> {
        Seq::new(
            if self.offsets@.len() == 0 {
                0
            } else {
                (self.offsets@.len() - 1) as nat
            },
            |i: int| self.modules@.subrange(self.offsets@[i] as int, self.offsets@[i + 1] as int),
        )
    }
}

impl Default for CodewordProvenance {
    fn default() -> (r: Self)
        ensures
            r@ == Seq::<Seq<usize>>::empty(),
    {
        let r = Self { offsets: Vec::new(), modules: Vec::new() };
        assert(r@ =~= Seq::<Seq<usize>>::empty());
        r
    }
}

/// The lists as sequences.
pub open spec fn rows(lists: Seq<Vec<usize>>) -> Seq<Seq<usize>> {
    lists.map_values(|l: Vec<usize>| l@)
}

impl CodewordProvenance {
    /// The offsets ascend from nothing to the whole row.
    #[verifier::type_invariant]
    spec fn inv(self) -> bool {
        &&& self.offsets@.len() > 0 ==> self.offsets@.last() == self.modules@.len()
        &&& forall|a: int, b: int|
            0 <= a <= b < self.offsets@.len() ==> self.offsets@[a] <= self.offsets@[b]
    }

    /// Builds from a per-codeword list of contributing module indices.
    pub fn from_lists(lists: &[Vec<usize>]) -> (r: Self)
        ensures
            r@ == rows(lists@),
    {
        let mut offsets: Vec<usize> = Vec::new();
        let mut modules: Vec<usize> = Vec::new();
        offsets.push(0);
        let mut i: usize = 0;
        while i < lists.len()
            invariant
                i <= lists@.len(),
                offsets@.len() == i + 1,
                offsets@[i as int] == modules@.len(),
                forall|a: int, b: int| 0 <= a <= b < offsets@.len() ==> offsets@[a] <= offsets@[b],
                forall|k: int|
                    0 <= k < i ==> #[trigger] lists@[k]@ == modules@.subrange(
                        offsets@[k] as int,
                        offsets@[k + 1] as int,
                    ),
            decreases lists@.len() - i,
        {
            let ghost was = modules@;
            let ghost starts = offsets@;
            modules.extend_from_slice(lists[i].as_slice());
            offsets.push(modules.len());
            proof {
                assert(modules@ =~= was + lists@[i as int]@);
                assert forall|k: int| 0 <= k < i + 1 implies #[trigger] lists@[k]@
                    == modules@.subrange(offsets@[k] as int, offsets@[k + 1] as int) by {
                    if k < i {
                        assert(offsets@[k] == starts[k] && offsets@[k + 1] == starts[k + 1]);
                        assert(starts[k + 1] <= starts[i as int]);
                        assert(lists@[k]@ =~= modules@.subrange(
                            offsets@[k] as int,
                            offsets@[k + 1] as int,
                        ));
                    } else {
                        assert(lists@[k]@ =~= modules@.subrange(
                            offsets@[k] as int,
                            offsets@[k + 1] as int,
                        ));
                    }
                }
            }
            i = i + 1;
        }
        let r = Self { offsets, modules };
        assert(r@ =~= rows(lists@));
        r
    }

    pub fn len(&self) -> (r: usize)
        ensures
            r == self@.len(),
    {
        if self.offsets.len() == 0 {
            0
        } else {
            self.offsets.len() - 1
        }
    }

    pub fn is_empty(&self) -> (r: bool)
        ensures
            r <==> self@.len() == 0,
    {
        self.len() == 0
    }

    /// Module indices contributing to codeword `i`, none when there is no such codeword.
    pub fn modules_of(&self, i: usize) -> (r: &[usize])
        ensures
            r@ == if i < self@.len() {
                self@[i as int]
            } else {
                Seq::empty()
            },
    {
        proof {
            use_type_invariant(self);
        }
        if i >= self.len() {
            let none: &[usize] = &[];
            assert(none@ =~= Seq::<usize>::empty());
            return none;
        }
        proof {
            assert(self.offsets@[i + 1] <= self.offsets@[self.offsets@.len() - 1]);
        }
        vstd::slice::slice_subrange(self.modules.as_slice(), self.offsets[i], self.offsets[i + 1])
    }
}

/// The bit pattern of infinity: no confidence lies above it.
pub const NO_CONFIDENCE: u32 = 0x7F80_0000;

/// The bit pattern of 1.0: full confidence.
pub const FULL_CONFIDENCE: u32 = 0x3F80_0000;

/// Whether module `m` was measured.
pub open spec fn measured(conf: Seq<u32>, m: usize) -> bool {
    m < conf.len() && !is_nan(conf[m as int])
}

/// Whether `c` is the least confidence that was measured of these modules.
pub open spec fn is_least(conf: Seq<u32>, modules: Seq<usize>, c: u32) -> bool {
    &&& exists|k: int|
        0 <= k < modules.len() && measured(conf, #[trigger] modules[k])
            && conf[modules[k] as int] == c
    &&& forall|k: int|
        0 <= k < modules.len() && measured(conf, #[trigger] modules[k]) ==> float_key(c)
            <= float_key(conf[modules[k] as int])
}

/// Whether `c` is the confidence of a codeword made of `modules`: the least measured one, or full
/// confidence when there is none, or only an infinite one.
pub open spec fn is_codeword_confidence(conf: Seq<u32>, modules: Seq<usize>, c: u32) -> bool {
    if exists|l: u32| #[trigger] is_least(conf, modules, l) && is_finite(l) {
        is_least(conf, modules, c)
    } else {
        c == FULL_CONFIDENCE
    }
}

/// Aggregates per-module confidence into per-codeword confidence: the minimum, not the mean.
pub fn codeword_confidence(module_conf: &[u32], provenance: &CodewordProvenance) -> (r: Vec<u32>)
    ensures
        r@.len() == provenance@.len(),
        forall|i: int|
            0 <= i < r@.len() ==> is_codeword_confidence(
                module_conf@,
                provenance@[i],
                #[trigger] r@[i],
            ),
{
    let mut out: Vec<u32> = Vec::new();
    let n: usize = provenance.len();
    let mut i: usize = 0;
    while i < n
        invariant
            n == provenance@.len(),
            i <= n,
            out@.len() == i,
            forall|k: int|
                0 <= k < i ==> is_codeword_confidence(
                    module_conf@,
                    provenance@[k],
                    #[trigger] out@[k],
                ),
        decreases n - i,
    {
        let modules = provenance.modules_of(i);
        let mut least: u32 = NO_CONFIDENCE;
        let mut k: usize = 0;
        while k < modules.len()
            invariant
                k <= modules@.len(),
                !is_nan(least),
                float_key(least) <= float_key(NO_CONFIDENCE),
                float_key(least) < float_key(NO_CONFIDENCE) ==> exists|j: int|
                    0 <= j < k && measured(module_conf@, #[trigger] modules@[j])
                        && module_conf@[modules@[j] as int] == least,
                forall|j: int|
                    0 <= j < k && measured(module_conf@, #[trigger] modules@[j]) ==> float_key(
                        least,
                    ) <= float_key(module_conf@[modules@[j] as int]),
            decreases modules@.len() - k,
        {
            let m: usize = modules[k];
            if m < module_conf.len() && less(module_conf[m], least) {
                least = module_conf[m];
                assert(measured(module_conf@, modules@[k as int]));
            }
            k = k + 1;
        }
        let finite: bool = least % 0x8000_0000 < 0x7F80_0000;
        proof {
            if finite {
                assert(is_least(module_conf@, modules@, least));
            } else {
                assert forall|l: u32| #[trigger] is_least(module_conf@, modules@, l) implies !is_finite(
                    l,
                ) by {
                    let j = choose|j: int|
                        0 <= j < modules@.len() && measured(module_conf@, #[trigger] modules@[j])
                            && module_conf@[modules@[j] as int] == l;
                    assert(measured(module_conf@, modules@[j]));
                }
            }
        }
        out.push(if finite { least } else { FULL_CONFIDENCE });
        i = i + 1;
    }
    out
}

/// Which codewords to declare erased, and what it cost.
#[derive(Clone, Debug, PartialEq)]
pub struct ErasurePlan {
    /// Codeword positions to erase, ascending. Indices are block-local.
    pub positions: Vec<usize>,
    /// Suspect codewords left unmarked because the budget ran out.
    pub unmarked_suspects: usize,
    /// Residual error capacity after these erasures.
    pub remaining_error_capacity: usize,
}

impl ErasurePlan {
    /// An empty plan: plain decoding, full error capacity.
    pub fn none(layout: BlockLayout) -> (r: Self)
        ensures
            r.positions@ == Seq::<usize>::empty(),
            r.unmarked_suspects == 0,
            r.remaining_error_capacity == layout.spec_ecc() / 2,
    {
        Self {
            positions: Vec::new(),
            unmarked_suspects: 0,
            remaining_error_capacity: layout.max_errors(),
        }
    }

    pub fn is_empty(&self) -> (r: bool)
        ensures
            r <==> self.positions@.len() == 0,
    {
        self.positions.len() == 0
    }
}

/// The confidences at or below the cut, as the keys by which the suspects rank.
pub open spec fn suspect_keys(confidences: Seq<u32>, cut: u32) -> Seq<Option<i128>> {
    confidences.map_values(
        |c: u32|
            if float_at_most(c, cut) {
                Some(float_key(c) as i128)
            } else {
                None
            },
    )
}

/// The erasures that a block can afford when `reserve` errors are held back.
pub open spec fn erasure_budget(layout: BlockLayout, reserve: int) -> int {
    if layout.spec_ecc() >= 2 * reserve {
        layout.spec_ecc() - 2 * reserve
    } else {
        0
    }
}

/// Allocates one block's erasure budget.
///
/// `confidences` is block-local, parallel to the block's codewords. `cut` is the confidence at or
/// below which a codeword is suspect. `reserve_errors` holds back capacity for damage that the
/// occlusion mask missed; each reserved error costs two units of budget. If the budget cannot cover
/// every suspect it goes to the least confident ones, of equal ones to the first.
pub fn plan_block(confidences: &[u32], layout: BlockLayout, cut: u32, reserve_errors: usize) -> (r:
    ErasurePlan)
    ensures
        lists(
            r.positions@,
            first_ranked(
                suspect_keys(confidences@, cut),
                erasure_budget(layout, reserve_errors as int),
            ),
        ),
        r.positions@.len() == if candidates(suspect_keys(confidences@, cut)).len()
            <= erasure_budget(layout, reserve_errors as int) {
            candidates(suspect_keys(confidences@, cut)).len() as int
        } else {
            erasure_budget(layout, reserve_errors as int)
        },
        r.unmarked_suspects == candidates(suspect_keys(confidences@, cut)).len()
            - r.positions@.len(),
        r.remaining_error_capacity == (layout.spec_ecc() - r.positions@.len()) / 2,
{
    let ecc: usize = layout.ecc();
    let budget: usize = if reserve_errors <= ecc / 2 { ecc - 2 * reserve_errors } else { 0 };
    let mut keys: Vec<Option<i128>> = Vec::new();
    let mut i: usize = 0;
    while i < confidences.len()
        invariant
            i <= confidences@.len(),
            keys@ == suspect_keys(confidences@.take(i as int), cut),
        decreases confidences@.len() - i,
    {
        keys.push(
            if at_most(confidences[i], cut) {
                Some(key_of(confidences[i]) as i128)
            } else {
                None
            },
        );
        i = i + 1;
        assert(keys@ =~= suspect_keys(confidences@.take(i as int), cut));
    }
    assert(confidences@.take(confidences@.len() as int) =~= confidences@);
    let (positions, suspects) = pick_first(keys.as_slice(), budget);
    let take: usize = positions.len();
    ErasurePlan {
        positions,
        unmarked_suspects: suspects - take,
        remaining_error_capacity: (ecc - take) / 2,
    }
}

/// A plan never spends more than the block has: its erasures, and two units for each error that it
/// leaves room for, fit the error-correction codewords.
pub proof fn law_plans_fit_the_budget(layout: BlockLayout, reserve: int, erased: int)
    requires
        0 <= reserve,
        0 <= erased <= erasure_budget(layout, reserve),
    ensures
        erased + 2 * ((layout.spec_ecc() - erased) / 2) <= layout.spec_ecc(),
        2 * reserve <= layout.spec_ecc() ==> (layout.spec_ecc() - erased) / 2 >= reserve,
{
}

/// The least confident suspects are marked first: no unmarked suspect is less confident than a marked
/// one.
pub proof fn law_worst_suspects_are_marked_first(
    confidences: Seq<u32>,
    cut: u32,
    budget: int,
    marked: int,
    unmarked: int,
)
    requires
        first_ranked(suspect_keys(confidences, cut), budget).contains(marked),
        candidates(suspect_keys(confidences, cut)).contains(unmarked),
        !first_ranked(suspect_keys(confidences, cut), budget).contains(unmarked),
    ensures
        float_key(confidences[marked]) <= float_key(confidences[unmarked]),
{
    let keys = suspect_keys(confidences, cut);
    if float_key(confidences[marked]) > float_key(confidences[unmarked]) {
        assert forall|j: int| crate::order::ahead_of(keys, unmarked).contains(j) implies
            #[trigger] crate::order::ahead_of(keys, marked).contains(j) by {}
        let all = vstd::set_lib::set_int_range(0, keys.len() as int);
        vstd::set_lib::lemma_int_range(0, keys.len() as int);
        vstd::set_lib::lemma_len_subset(crate::order::ahead_of(keys, marked), all);
        vstd::set_lib::lemma_len_subset(
            crate::order::ahead_of(keys, unmarked),
            crate::order::ahead_of(keys, marked),
        );
    }
}

/// A plan marks suspects only, as many as it can afford: whatever scores above the cut is left alone, every
/// suspect is marked while the budget lasts, and holding back one more error costs two erasures.
pub proof fn law_plans_mark_suspects(
    confidences: Seq<u32>,
    layout: BlockLayout,
    cut: u32,
    reserve: int,
    i: int,
)
    requires
        0 <= i < confidences.len(),
        0 <= reserve,
        layout.data <= layout.total,
    ensures
        ({
            let suspect = crate::float::float_at_most(confidences[i], cut);
            let marked = first_ranked(
                suspect_keys(confidences, cut),
                erasure_budget(layout, reserve),
            );
            let suspects = Set::new(
                |k: int| 0 <= k < confidences.len() && float_at_most(confidences[k], cut),
            );
            let budget = layout.total - layout.data - 2 * reserve;
            &&& marked.contains(i) ==> suspect
            &&& suspects.len() <= budget && suspect ==> marked.contains(i)
            &&& 0 <= budget < suspects.len() ==> marked.len() == budget
            &&& budget <= 0 ==> marked.len() == 0
            &&& candidates(suspect_keys(confidences, cut)) == suspects
        }),
{
    let keys = suspect_keys(confidences, cut);
    let suspects = Set::new(
        |k: int| 0 <= k < confidences.len() && float_at_most(confidences[k], cut),
    );
    assert(candidates(keys) =~= suspects);
    crate::order::law_first_ranked_fit_the_cap(keys, erasure_budget(layout, reserve));
}

/// The marked suspects are the least confident, as numbers: no suspect that is left unmarked has a smaller
/// confidence than one that is marked.
pub proof fn law_marked_suspects_are_the_least_confident(
    confidences: Seq<u32>,
    cut: u32,
    budget: int,
    marked: int,
    unmarked: int,
)
    requires
        budget >= 0,
        first_ranked(suspect_keys(confidences, cut), budget).contains(marked),
        0 <= unmarked < confidences.len(),
        float_at_most(confidences[unmarked], cut),
        !first_ranked(suspect_keys(confidences, cut), budget).contains(unmarked),
    ensures
        0 <= marked < confidences.len(),
        crate::float::number(confidences[marked]) <= crate::float::number(confidences[unmarked]),
{
    let keys = suspect_keys(confidences, cut);
    crate::order::law_first_ranked_are_the_best(keys, budget, marked, unmarked);
    crate::float::law_patterns_compare_as_numbers(confidences[unmarked], confidences[marked]);
}

/// A codeword is as weak as its weakest module: its confidence is at most that of every module of its that
/// was measured, as numbers, and is that of one of them, where none measures minus infinity.
pub proof fn law_codewords_are_as_weak_as_their_weakest_module(
    conf: Seq<u32>,
    modules: Seq<usize>,
    c: u32,
    k: int,
)
    requires
        is_codeword_confidence(conf, modules, c),
        0 <= k < modules.len(),
        modules[k] < conf.len(),
        is_finite(conf[modules[k] as int]),
        forall|j: int|
            0 <= j < modules.len() && #[trigger] modules[j] < conf.len() ==> conf[modules[j] as int]
                != 0xFF80_0000,
    ensures
        crate::float::number(c) <= crate::float::number(conf[modules[k] as int]),
        exists|j: int|
            0 <= j < modules.len() && #[trigger] modules[j] < conf.len() && conf[modules[j] as int]
                == c,
{
    assert(measured(conf, modules[k]));
    let least = lemma_least_exists(conf, modules, modules.len() as int, k);
    assert(modules.take(modules.len() as int) =~= modules);
    let at = choose|at: int|
        0 <= at < modules.len() && measured(conf, #[trigger] modules[at]) && conf[modules[at] as int]
            == least;
    assert(modules[at] < conf.len());
    assert(is_least(conf, modules, least) && is_finite(least));
    let j = choose|j: int|
        0 <= j < modules.len() && measured(conf, #[trigger] modules[j]) && conf[modules[j] as int]
            == c;
    assert(modules[j] < conf.len());
    crate::float::law_patterns_compare_as_numbers(conf[modules[k] as int], c);
}

/// Of several measured modules one is the least.
proof fn lemma_least_exists(conf: Seq<u32>, modules: Seq<usize>, n: int, k: int) -> (least: u32)
    requires
        0 <= k < n <= modules.len(),
        measured(conf, modules[k]),
    ensures
        is_least(conf, modules.take(n), least),
    decreases n,
{
    let some = modules.take(n);
    if exists|j: int| 0 <= j < n - 1 && measured(conf, #[trigger] modules[j]) {
        let j = choose|j: int| 0 <= j < n - 1 && measured(conf, #[trigger] modules[j]);
        let fewer = modules.take(n - 1);
        let before = lemma_least_exists(conf, modules, n - 1, j);
        let at = choose|at: int|
            0 <= at < fewer.len() && measured(conf, #[trigger] fewer[at])
                && conf[fewer[at] as int] == before;
        let here = modules[n - 1];
        let least = if measured(conf, here) && float_key(conf[here as int]) < float_key(before) {
            assert(some[n - 1] == here);
            conf[here as int]
        } else {
            assert(some[at] == fewer[at]);
            before
        };
        assert forall|i: int|
            0 <= i < some.len() && measured(conf, #[trigger] some[i]) implies float_key(least)
            <= float_key(conf[some[i] as int]) by {
            if i < n - 1 {
                assert(fewer[i] == some[i]);
            }
        }
        least
    } else {
        assert(k == n - 1);
        let least = conf[modules[k] as int];
        assert(some[k] == modules[k]);
        assert forall|i: int|
            0 <= i < some.len() && measured(conf, #[trigger] some[i]) implies float_key(least)
            <= float_key(conf[some[i] as int]) by {
            if i < n - 1 {
                assert(measured(conf, modules[i]));
            }
        }
        least
    }
}

} // verus!
