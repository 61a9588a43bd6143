//! Scoring modules, calibrated against the symbol's own function patterns.
//!
//! Function patterns have values fixed by the specification of the symbology, so they are known
//! before any decoding happens. The ones that read correctly are healthy modules photographed under
//! exactly the conditions in play, and they define what healthy means for this image. The ones that
//! read incorrectly are proof of damage at a known place: they are left out of the calibration and
//! score zero.
//!
//! References and scores are real numbers, held by their IEEE single-precision bit patterns. Comparing
//! scores, taking the larger of two and ranking them is integer work (see [`crate::float`]). Computing a
//! score from a measurement is not, and is left to the caller.
use vstd::prelude::*;
use crate::float::{at_most, float_at_most, float_key, float_less, is_nan, key_of, number};
use crate::order::{ahead_of, candidates, in_rank_order, rank_order};
use crate::sample::{KnownModule, ModuleStats, StatsGrid};

verus! {

/// The bit pattern of 8.0: no finer luma scale is calibrated.
pub const LUMA_SCALE_FLOOR: u32 = 0x4100_0000;

/// The bit pattern of 256.0: no smaller variance reference is calibrated.
pub const VAR_REF_FLOOR: u32 = 0x4380_0000;

/// The bit pattern of 24.0: no smaller chroma reference is calibrated.
pub const CHROMA_REF_FLOOR: u32 = 0x41C0_0000;

/// Minimum known-good modules for a calibration to mean anything. QR's three finder patterns alone
/// contribute 3 x 49.
pub const MIN_CALIBRATION_SAMPLE: usize = 24;

/// Whether a known module lies in the grid and reads otherwise than specified.
pub open spec fn contradicts(grid: StatsGrid, k: KnownModule) -> bool {
    k.index < grid@.len() && grid@[k.index as int].value != k.expected
}

/// Whether a known module lies in the grid and reads as specified.
pub open spec fn agrees(grid: StatsGrid, k: KnownModule) -> bool {
    k.index < grid@.len() && grid@[k.index as int].value == k.expected
}

/// The known modules that read as specified, in the order given.
pub open spec fn healthy(grid: StatsGrid, known: Seq<KnownModule>) -> Seq<KnownModule> {
    known.filter(|k: KnownModule| agrees(grid, k))
}

/// The known modules that read otherwise than specified, in the order given.
pub open spec fn damaged(grid: StatsGrid, known: Seq<KnownModule>) -> Seq<KnownModule> {
    known.filter(|k: KnownModule| contradicts(grid, k))
}

/// What the healthy function modules measured. Each row is sorted ascending.
#[derive(Clone, Debug)]
pub struct CalibrationSample {
    /// Distances from the threshold.
    pub margins: Vec<u16>,
    /// Variances within the cell.
    pub variances: Vec<u16>,
    /// Chroma magnitudes.
    pub chromas: Vec<u16>,
    /// Known modules that read wrong.
    pub known_mismatched: usize,
}

/// Never descending.
pub open spec fn sorted(s: Seq<u16>) -> bool {
    forall|a: int, b: int| 0 <= a <= b < s.len() ==> s[a] <= s[b]
}

/// Inserts `v` into a sorted row, behind the values that are not larger.
fn insert_sorted(row: &mut Vec<u16>, v: u16)
    requires
        sorted(old(row)@),
    ensures
        sorted(final(row)@),
        final(row)@.len() == old(row)@.len() + 1,
        final(row)@.to_multiset() == old(row)@.to_multiset().insert(v),
{
    let ghost was = row@;
    let mut at: usize = row.len();
    while at > 0 && row[at - 1] > v
        invariant
            at <= row@.len(),
            row@ == was,
            sorted(was),
            forall|a: int| at <= a < row@.len() ==> row@[a] > v,
        decreases at,
    {
        at = at - 1;
    }
    row.insert(at, v);
    proof {
        vstd::seq_lib::to_multiset_insert(was, at as int, v);
        assert forall|a: int, b: int| 0 <= a <= b < row@.len() implies row@[a] <= row@[b] by {
            let pa = if a < at { a } else { a - 1 };
            let pb = if b < at { b } else { b - 1 };
            if a != at {
                assert(row@[a] == was[pa]);
            }
            if b != at {
                assert(row@[b] == was[pb]);
            }
        }
    }
}

/// The measurements that calibration rests on: those of the known modules that read as specified.
///
/// A mismatched module is damaged, and calibrating against damage would define the damage as normal;
/// mismatches are counted instead.
pub fn calibration_sample(grid: &StatsGrid, known: &[KnownModule]) -> (r: CalibrationSample)
    ensures
        sorted(r.margins@),
        sorted(r.variances@),
        sorted(r.chromas@),
        r.margins@.to_multiset() == healthy(*grid, known@).map_values(
            |k: KnownModule| grid@[k.index as int].spec_margin() as u16,
        ).to_multiset(),
        r.variances@.to_multiset() == healthy(*grid, known@).map_values(
            |k: KnownModule| grid@[k.index as int].var_luma,
        ).to_multiset(),
        r.chromas@.to_multiset() == healthy(*grid, known@).map_values(
            |k: KnownModule| grid@[k.index as int].chroma as u16,
        ).to_multiset(),
        r.margins@.len() == healthy(*grid, known@).len(),
        r.variances@.len() == healthy(*grid, known@).len(),
        r.chromas@.len() == healthy(*grid, known@).len(),
        r.known_mismatched == damaged(*grid, known@).len(),
{
    let mut margins: Vec<u16> = Vec::new();
    let mut variances: Vec<u16> = Vec::new();
    let mut chromas: Vec<u16> = Vec::new();
    let mut mismatched: usize = 0;
    let ghost margin_of = |k: KnownModule| grid@[k.index as int].spec_margin() as u16;
    let ghost variance_of = |k: KnownModule| grid@[k.index as int].var_luma;
    let ghost chroma_of = |k: KnownModule| grid@[k.index as int].chroma as u16;
    let mut i: usize = 0;
    proof {
        assert(healthy(*grid, known@.take(0)) =~= Seq::empty()) by {
            reveal_with_fuel(Seq::filter, 1);
        }
        assert(damaged(*grid, known@.take(0)) =~= Seq::empty()) by {
            reveal_with_fuel(Seq::filter, 1);
        }
        assert(Seq::<KnownModule>::empty().map_values(margin_of) =~= margins@);
        assert(Seq::<KnownModule>::empty().map_values(variance_of) =~= variances@);
        assert(Seq::<KnownModule>::empty().map_values(chroma_of) =~= chromas@);
    }
    while i < known.len()
        invariant
            i <= known@.len(),
            sorted(margins@),
            sorted(variances@),
            sorted(chromas@),
            margin_of == (|k: KnownModule| grid@[k.index as int].spec_margin() as u16),
            variance_of == (|k: KnownModule| grid@[k.index as int].var_luma),
            chroma_of == (|k: KnownModule| grid@[k.index as int].chroma as u16),
            margins@.to_multiset() == healthy(*grid, known@.take(i as int)).map_values(
                margin_of,
            ).to_multiset(),
            variances@.to_multiset() == healthy(*grid, known@.take(i as int)).map_values(
                variance_of,
            ).to_multiset(),
            chromas@.to_multiset() == healthy(*grid, known@.take(i as int)).map_values(
                chroma_of,
            ).to_multiset(),
            margins@.len() == healthy(*grid, known@.take(i as int)).len(),
            variances@.len() == healthy(*grid, known@.take(i as int)).len(),
            chromas@.len() == healthy(*grid, known@.take(i as int)).len(),
            mismatched == damaged(*grid, known@.take(i as int)).len(),
            mismatched <= i,
        decreases known@.len() - i,
    {
        let k: KnownModule = known[i];
        let ghost rows = healthy(*grid, known@.take(i as int));
        proof {
            lemma_healthy_step(*grid, known@, i as int);
            vstd::seq_lib::to_multiset_build(rows.map_values(margin_of), margin_of(k));
            vstd::seq_lib::to_multiset_build(rows.map_values(variance_of), variance_of(k));
            vstd::seq_lib::to_multiset_build(rows.map_values(chroma_of), chroma_of(k));
            assert(rows.push(k).map_values(margin_of) =~= rows.map_values(margin_of).push(
                margin_of(k),
            ));
            assert(rows.push(k).map_values(variance_of) =~= rows.map_values(variance_of).push(
                variance_of(k),
            ));
            assert(rows.push(k).map_values(chroma_of) =~= rows.map_values(chroma_of).push(
                chroma_of(k),
            ));
        }
        if k.index < grid.len() {
            let cell: ModuleStats = grid.at(k.index);
            if cell.value != k.expected {
                mismatched = mismatched + 1;
            } else {
                insert_sorted(&mut margins, cell.margin() as u16);
                insert_sorted(&mut variances, cell.var_luma);
                insert_sorted(&mut chromas, cell.chroma as u16);
            }
        }
        i = i + 1;
    }
    proof {
        assert(known@.take(known@.len() as int) =~= known@);
    }
    CalibrationSample { margins, variances, chromas, known_mismatched: mismatched }
}

/// One more known module goes to the healthy ones, to the damaged ones, or to neither.
proof fn lemma_healthy_step(grid: StatsGrid, known: Seq<KnownModule>, i: int)
    requires
        0 <= i < known.len(),
    ensures
        healthy(grid, known.take(i + 1)) == if agrees(grid, known[i]) {
            healthy(grid, known.take(i)).push(known[i])
        } else {
            healthy(grid, known.take(i))
        },
        damaged(grid, known.take(i + 1)) == if contradicts(grid, known[i]) {
            damaged(grid, known.take(i)).push(known[i])
        } else {
            damaged(grid, known.take(i))
        },
{
    assert(known.take(i + 1).drop_last() =~= known.take(i));
    assert(known.take(i + 1).last() == known[i]);
    reveal_with_fuel(Seq::filter, 2);
}

/// What this symbol's own healthy modules say a healthy module looks like.
#[derive(Clone, Copy, Debug, PartialEq, Eq, Structural)]
pub struct Calibration {
    /// Luma distance from the threshold at which the margin saturates, as a bit pattern.
    pub luma_scale: u32,
    /// Variance within the cell at which flatness has halved, as a bit pattern.
    pub var_ref: u32,
    /// Chroma magnitude at which neutrality has halved, as a bit pattern.
    pub chroma_ref: u32,
    /// Known modules that read as specified: the calibration sample.
    pub known_ok: usize,
    /// Known modules that read wrong: certain damage.
    pub known_mismatched: usize,
}

impl Default for Calibration {
    /// The uncalibrated fallback: pure floors, no reference sample.
    fn default() -> (r: Self)
        ensures
            r == (Calibration {
                luma_scale: LUMA_SCALE_FLOOR,
                var_ref: VAR_REF_FLOOR,
                chroma_ref: CHROMA_REF_FLOOR,
                known_ok: 0,
                known_mismatched: 0,
            }),
    {
        Self {
            luma_scale: LUMA_SCALE_FLOOR,
            var_ref: VAR_REF_FLOOR,
            chroma_ref: CHROMA_REF_FLOOR,
            known_ok: 0,
            known_mismatched: 0,
        }
    }
}

impl Calibration {
    /// Whether enough healthy function modules survived to calibrate against.
    pub fn is_well_founded(&self) -> (r: bool)
        ensures
            r <==> self.known_ok >= MIN_CALIBRATION_SAMPLE,
    {
        self.known_ok >= MIN_CALIBRATION_SAMPLE
    }
}

/// The reference or its floor, whichever is larger; the floor, where the reference is no number.
pub open spec fn floored(reference: u32, floor: u32) -> u32 {
    if float_at_most(floor, reference) {
        reference
    } else {
        floor
    }
}

/// Whether `r` is the larger of a reference and its floor, as numbers: one of the two and below neither.
/// A reference that is no number is not used.
pub open spec fn is_larger_of(reference: u32, floor: u32, r: u32) -> bool {
    &&& r == reference || r == floor
    &&& number(floor) <= number(r)
    &&& !is_nan(reference) ==> number(reference) <= number(r)
    &&& is_nan(reference) ==> r == floor
}

/// Derives a calibration from the healthy sample.
///
/// `luma`, `variance` and `chroma` are what the sample proposes as references: the 25th percentile
/// of its margins, and four times the 90th percentile of its variances and of its chromas. A thin
/// sample is not trusted and falls back to the floors; the counts are kept so that the caller can see
/// how thin the evidence was.
pub fn calibrate(sample: &CalibrationSample, luma: u32, variance: u32, chroma: u32) -> (r:
    Calibration)
    ensures
        r.known_ok == sample.margins@.len(),
        r.known_mismatched == sample.known_mismatched,
        sample.margins@.len() < MIN_CALIBRATION_SAMPLE ==> r.luma_scale == LUMA_SCALE_FLOOR
            && r.var_ref == VAR_REF_FLOOR && r.chroma_ref == CHROMA_REF_FLOOR,
        sample.margins@.len() >= MIN_CALIBRATION_SAMPLE ==> r.luma_scale == floored(
            luma,
            LUMA_SCALE_FLOOR,
        ) && r.var_ref == floored(variance, VAR_REF_FLOOR) && r.chroma_ref == floored(
            chroma,
            CHROMA_REF_FLOOR,
        ),
        sample.margins@.len() < 24 ==> r.luma_scale == LUMA_SCALE_FLOOR && r.var_ref
            == VAR_REF_FLOOR && r.chroma_ref == CHROMA_REF_FLOOR,
        sample.margins@.len() >= 24 ==> is_larger_of(
            luma,
            LUMA_SCALE_FLOOR,
            r.luma_scale,
        ) && is_larger_of(variance, VAR_REF_FLOOR, r.var_ref) && is_larger_of(
            chroma,
            CHROMA_REF_FLOOR,
            r.chroma_ref,
        ),
{
    let known_ok: usize = sample.margins.len();
    if known_ok < MIN_CALIBRATION_SAMPLE {
        return Calibration {
            luma_scale: LUMA_SCALE_FLOOR,
            var_ref: VAR_REF_FLOOR,
            chroma_ref: CHROMA_REF_FLOOR,
            known_ok,
            known_mismatched: sample.known_mismatched,
        };
    }
    proof {
        law_references_are_the_larger(luma, LUMA_SCALE_FLOOR);
        law_references_are_the_larger(variance, VAR_REF_FLOOR);
        law_references_are_the_larger(chroma, CHROMA_REF_FLOOR);
    }
    Calibration {
        luma_scale: if at_most(LUMA_SCALE_FLOOR, luma) { luma } else { LUMA_SCALE_FLOOR },
        var_ref: if at_most(VAR_REF_FLOOR, variance) { variance } else { VAR_REF_FLOOR },
        chroma_ref: if at_most(CHROMA_REF_FLOOR, chroma) { chroma } else { CHROMA_REF_FLOOR },
        known_ok,
        known_mismatched: sample.known_mismatched,
    }
}

/// Per-module confidence, row-major, parallel to the [`StatsGrid`] it came from.
#[derive(Clone, Debug)]
pub struct ConfidenceGrid {
    pub width: usize,
    pub height: usize,
    pub calibration: Calibration,
    /// The scores, by bit pattern.
    pub scores: Vec<u32>,
}

impl View for ConfidenceGrid {
    type V = Seq<u32>;

    open spec fn view(&self) -> Seq<u32> {
        self.scores@
    }
}

/// A row of scores as the keys by which its positions rank.
pub open spec fn score_keys(scores: Seq<u32>) -> Seq<Option<i128>> {
    scores.map_values(|s: u32| Some(float_key(s) as i128))
}

impl ConfidenceGrid {
    /// One score for every module.
    pub open spec fn wf(self) -> bool {
        self@.len() == self.width * self.height
    }

    /// The score in column `x` of row `y`.
    pub fn get(&self, x: usize, y: usize) -> (r: u32)
        requires
            y * self.width + x < self@.len(),
        ensures
            r == self@[y * self.width + x],
    {
        proof {
            assert(0 <= y * self.width) by (nonlinear_arith);
            assert(self@.len() == self.scores.len());
        }
        self.scores[y * self.width + x]
    }

    pub fn at(&self, index: usize) -> (r: u32)
        requires
            index < self@.len(),
        ensures
            r == self@[index as int],
    {
        self.scores[index]
    }

    pub fn scores(&self) -> (r: &[u32])
        ensures
            r@ == self@,
    {
        self.scores.as_slice()
    }

    pub fn len(&self) -> (r: usize)
        ensures
            r == self@.len(),
    {
        self.scores.len()
    }

    pub fn is_empty(&self) -> (r: bool)
        ensures
            r <==> self@.len() == 0,
    {
        self.scores.len() == 0
    }

    /// The `n` least confident module indices, worst first; of equal scores the earlier module.
    pub fn weakest(&self, n: usize) -> (r: Vec<usize>)
        ensures
            r@.len() == if self@.len() <= n {
                self@.len()
            } else {
                n as nat
            },
            forall|k: int|
                0 <= k < r@.len() ==> #[trigger] r@[k] < self@.len() && ahead_of(
                    score_keys(self@),
                    r@[k] as int,
                ).len() == k,
            forall|a: int, b: int| 0 <= a < b < r@.len() ==> r@[a] != r@[b],
            forall|a: int, b: int|
                0 <= a < b < r@.len() ==> number(self@[#[trigger] r@[a] as int]) <= number(
                    self@[#[trigger] r@[b] as int],
                ),
            forall|a: int, i: int|
                0 <= a < r@.len() && 0 <= i < self@.len() && !r@.contains(i as usize) ==> number(
                    self@[#[trigger] r@[a] as int],
                ) <= number(#[trigger] self@[i]),
    {
        let mut keys: Vec<Option<i128>> = Vec::new();
        let mut i: usize = 0;
        while i < self.scores.len()
            invariant
                i <= self.scores@.len(),
                keys@ == score_keys(self@.take(i as int)),
            decreases self.scores@.len() - i,
        {
            keys.push(Some(key_of(self.scores[i]) as i128));
            i = i + 1;
            assert(keys@ =~= score_keys(self@.take(i as int)));
        }
        assert(self@.take(self@.len() as int) =~= self@);
        let mut order = rank_order(keys.as_slice());
        proof {
            assert(in_rank_order(keys@, order@));
            assert(candidates(keys@) =~= vstd::set_lib::set_int_range(0, self@.len() as int));
            vstd::set_lib::lemma_int_range(0, self@.len() as int);
        }
        let ghost all = order@;
        order.truncate(n);
        proof {
            let ks = score_keys(self@);
            assert(keys@ == ks);
            assert forall|a: int, b: int| 0 <= a < b < all.len() implies number(
                self@[#[trigger] all[a] as int],
            ) <= number(self@[#[trigger] all[b] as int]) by {
                assert(crate::order::before(ks, all[a] as int, all[b] as int));
                crate::float::law_patterns_compare_as_numbers(
                    self@[all[b] as int],
                    self@[all[a] as int],
                );
            }
            assert forall|a: int, i: int|
                0 <= a < order@.len() && 0 <= i < self@.len() && !order@.contains(
                    i as usize,
                ) implies number(self@[#[trigger] order@[a] as int]) <= number(
                #[trigger] self@[i],
            ) by {
                assert(candidates(ks).contains(i));
                let k = choose|k: int| 0 <= k < all.len() && all[k] == i;
                if k < order@.len() {
                    assert(order@[k] == i as usize);
                }
                assert(order@[a] == all[a]);
                assert(number(self@[all[a] as int]) <= number(self@[all[k] as int]));
            }
        }
        order
    }
}

/// The scores with every contradicted function module forced to zero.
pub open spec fn vetoed(grid: StatsGrid, known: Seq<KnownModule>, raw: Seq<u32>) -> Seq<u32> {
    Seq::new(
        raw.len(),
        |i: int|
            if exists|k: int|
                0 <= k < known.len() && (#[trigger] known[k]).index == i && contradicts(
                    grid,
                    known[k],
                ) {
                0u32
            } else {
                raw[i]
            },
    )
}

/// Assembles the confidence of a grid from the scores measured for its cells.
///
/// Function modules that read wrong are damaged as a matter of fact, not of inference. Whatever was
/// measured, their score is zero.
pub fn evaluate(
    grid: &StatsGrid,
    known: &[KnownModule],
    calibration: Calibration,
    raw: Vec<u32>,
) -> (r: ConfidenceGrid)
    requires
        raw@.len() == grid@.len(),
    ensures
        r.width == grid.width,
        r.height == grid.height,
        r.calibration == calibration,
        r@ == vetoed(*grid, known@, raw@),
        grid.wf() ==> r.wf(),
{
    let ghost measured = raw@;
    let mut scores = raw;
    let mut i: usize = 0;
    proof {
        assert(scores@ =~= vetoed(*grid, known@.take(0), measured));
    }
    while i < known.len()
        invariant
            i <= known@.len(),
            measured.len() == grid@.len(),
            scores@ == vetoed(*grid, known@.take(i as int), measured),
        decreases known@.len() - i,
    {
        let k: KnownModule = known[i];
        let ghost was = scores@;
        if k.index < scores.len() && grid.at(k.index).value != k.expected {
            scores.set(k.index, 0);
        }
        proof {
            let now = known@.take(i + 1);
            let old_known = known@.take(i as int);
            assert forall|j: int| 0 <= j < measured.len() implies scores@[j] == vetoed(
                *grid,
                now,
                measured,
            )[j] by {
                if was[j] != vetoed(*grid, now, measured)[j] || j == k.index {
                    if exists|m: int|
                        0 <= m < now.len() && (#[trigger] now[m]).index == j && contradicts(
                            *grid,
                            now[m],
                        ) {
                        let m = choose|m: int|
                            0 <= m < now.len() && (#[trigger] now[m]).index == j && contradicts(
                                *grid,
                                now[m],
                            );
                        if m < i {
                            assert(old_known[m] == now[m]);
                        }
                    }
                    if contradicts(*grid, k) && k.index == j {
                        assert(now[i as int] == k);
                    }
                }
                if exists|m: int|
                    0 <= m < old_known.len() && (#[trigger] old_known[m]).index == j && contradicts(
                        *grid,
                        old_known[m],
                    ) {
                    let m = choose|m: int|
                        0 <= m < old_known.len() && (#[trigger] old_known[m]).index == j
                            && contradicts(*grid, old_known[m]);
                    assert(now[m] == old_known[m]);
                }
            }
            assert(scores@ =~= vetoed(*grid, now, measured));
        }
        i = i + 1;
    }
    proof {
        assert(known@.take(known@.len() as int) =~= known@);
    }
    ConfidenceGrid { width: grid.width, height: grid.height, calibration, scores }
}

/// Indices of function-pattern modules that read incorrectly, in the order given.
pub fn certain_damage(grid: &StatsGrid, known: &[KnownModule]) -> (r: Vec<usize>)
    ensures
        r@ == damaged(*grid, known@).map_values(|k: KnownModule| k.index),
{
    let mut out: Vec<usize> = Vec::new();
    let mut i: usize = 0;
    proof {
        reveal_with_fuel(Seq::filter, 1);
        assert(out@ =~= damaged(*grid, known@.take(0)).map_values(|k: KnownModule| k.index));
    }
    while i < known.len()
        invariant
            i <= known@.len(),
            out@ == damaged(*grid, known@.take(i as int)).map_values(|k: KnownModule| k.index),
        decreases known@.len() - i,
    {
        proof {
            lemma_healthy_step(*grid, known@, i as int);
        }
        let k: KnownModule = known[i];
        if k.index < grid.len() && grid.at(k.index).value != k.expected {
            out.push(k.index);
        }
        i = i + 1;
        assert(out@ =~= damaged(*grid, known@.take(i as int)).map_values(|k: KnownModule| k.index));
    }
    assert(known@.take(known@.len() as int) =~= known@);
    out
}

/// A contradicted function module scores zero, whatever was measured of it, and no other module's
/// score is touched.
pub proof fn law_contradicted_modules_score_zero(
    grid: StatsGrid,
    known: Seq<KnownModule>,
    raw: Seq<u32>,
    i: int,
)
    requires
        raw.len() == grid@.len(),
        0 <= i < raw.len(),
    ensures
        damaged(grid, known).map_values(|k: KnownModule| k.index).contains(i as usize)
            ==> vetoed(grid, known, raw)[i] == 0,
        !damaged(grid, known).map_values(|k: KnownModule| k.index).contains(i as usize)
            ==> vetoed(grid, known, raw)[i] == raw[i],
{
    let bad = damaged(grid, known);
    let indices = bad.map_values(|k: KnownModule| k.index);
    let pred = |k: KnownModule| contradicts(grid, k);
    if indices.contains(i as usize) {
        let m = choose|m: int| 0 <= m < indices.len() && indices[m] == i as usize;
        known.lemma_filter_pred(pred, m);
        known.lemma_filter_contains_rev(pred, bad[m]);
        assert(known.contains(bad[m]));
        let k = choose|k: int| 0 <= k < known.len() && known[k] == bad[m];
        assert(contradicts(grid, known[k]));
        assert(known[k].index as int == i) by {
            assert(bad[m].index == i as usize);
            assert(bad[m].index < grid@.len());
            assert(grid@.len() == grid.cells.len());
        }
    } else {
        if vetoed(grid, known, raw)[i] != raw[i] {
            let k = choose|k: int|
                0 <= k < known.len() && (#[trigger] known[k]).index == i && contradicts(
                    grid,
                    known[k],
                );
            assert(pred(known[k]));
            known.lemma_filter_contains(pred, k);
            let hit = known[k];
            let m = choose|m: int| 0 <= m < bad.len() && bad[m] == hit;
            assert(indices[m] == i as usize);
        }
    }
}

/// A calibration does what the healthy modules say: the reference is the larger of what the sample proposes
/// and the floor, as numbers; so a proposal above the floor is the reference.
pub proof fn law_references_are_the_larger(reference: u32, floor: u32)
    requires
        !is_nan(floor),
    ensures
        is_larger_of(reference, floor, floored(reference, floor)),
        !is_nan(reference) && number(floor) < number(reference) ==> floored(reference, floor)
            == reference,
        float_less(floor, reference) ==> floored(reference, floor) == reference,
{
    crate::float::law_patterns_compare_as_numbers(floor, reference);
    crate::float::law_patterns_compare_as_numbers(reference, floor);
}

/// The floors are 8, 256 and 24, in units of two to the power of minus 149.
pub proof fn law_floors_are_eight_and_256_and_24()
    ensures
        number(LUMA_SCALE_FLOOR) == 8 * vstd::arithmetic::power2::pow2(149),
        number(VAR_REF_FLOOR) == 256 * vstd::arithmetic::power2::pow2(149),
        number(CHROMA_REF_FLOOR) == 24 * vstd::arithmetic::power2::pow2(149),
{
    crate::float::lemma_number_parts(LUMA_SCALE_FLOOR, 130, 0);
    crate::float::lemma_number_parts(VAR_REF_FLOOR, 135, 0);
    crate::float::lemma_number_parts(CHROMA_REF_FLOOR, 131, 0x40_0000);
    vstd::arithmetic::power2::lemma2_to64();
    vstd::arithmetic::power2::lemma_pow2_adds(129, 20);
    vstd::arithmetic::power2::lemma_pow2_adds(134, 15);
    vstd::arithmetic::power2::lemma_pow2_adds(130, 19);
    let (a, b, c) = (
        vstd::arithmetic::power2::pow2(129),
        vstd::arithmetic::power2::pow2(134),
        vstd::arithmetic::power2::pow2(130),
    );
    assert(0x80_0000 * a == 8 * (a * 0x10_0000)) by (nonlinear_arith);
    assert(0x80_0000 * b == 256 * (b * 0x8000)) by (nonlinear_arith);
    assert(0xC0_0000 * c == 24 * (c * 0x8_0000)) by (nonlinear_arith);
}

/// Damage does not calibrate: a known module that reads otherwise than specified is counted as damaged and
/// leaves the healthy sample as it was; one that reads as specified joins the sample; one outside the grid
/// does neither.
pub proof fn law_damage_does_not_calibrate(
    grid: StatsGrid,
    known: Seq<KnownModule>,
    k: KnownModule,
)
    ensures
        k.index < grid@.len() && grid@[k.index as int].value != k.expected ==> healthy(
            grid,
            known.push(k),
        ) == healthy(grid, known) && damaged(grid, known.push(k)) == damaged(grid, known).push(k),
        k.index < grid@.len() && grid@[k.index as int].value == k.expected ==> healthy(
            grid,
            known.push(k),
        ) == healthy(grid, known).push(k) && damaged(grid, known.push(k)) == damaged(grid, known),
        k.index >= grid@.len() ==> healthy(grid, known.push(k)) == healthy(grid, known) && damaged(
            grid,
            known.push(k),
        ) == damaged(grid, known),
        healthy(grid, Seq::empty()) == Seq::<KnownModule>::empty(),
        damaged(grid, Seq::empty()) == Seq::<KnownModule>::empty(),
{
    let more = known.push(k);
    lemma_healthy_step(grid, more, known.len() as int);
    assert(more.take(known.len() as int) =~= known);
    assert(more.take(known.len() as int + 1) =~= more);
    reveal_with_fuel(Seq::filter, 1);
}

/// A function module that reads wrong scores zero, whatever was measured of it; a module of which nothing
/// that is known is contradicted keeps the score that was measured.
pub proof fn law_wrong_function_modules_score_zero(
    grid: StatsGrid,
    known: Seq<KnownModule>,
    raw: Seq<u32>,
    i: int,
)
    requires
        raw.len() == grid@.len(),
        0 <= i < raw.len(),
    ensures
        (exists|k: int|
            0 <= k < known.len() && (#[trigger] known[k]).index == i && known[k].expected
                != grid@[i].value) ==> vetoed(grid, known, raw)[i] == 0,
        (forall|k: int|
            0 <= k < known.len() && (#[trigger] known[k]).index == i ==> known[k].expected
                == grid@[i].value) ==> vetoed(grid, known, raw)[i] == raw[i],
        vetoed(grid, known, raw).len() == raw.len(),
{
}

} // verus!
