//! Turning scattered low confidence into a localized occlusion mask.
//!
//! Logos are blobs. Noise is not. Opening removes the speckle, closing consolidates what remains,
//! and a minimum-area filter drops whatever survived both but is still too small to be a deliberate
//! occlusion. Opening comes first: closing first would grow nearby speckle together and manufacture
//! a blob that was never there.
//!
//! Certain damage is united with the mask after all of this. It is proven; no filter may erode away
//! a fact.
use vstd::prelude::*;
use crate::float::{at_most, float_at_most};
use crate::order::{lists, positions_set, set_positions};
use crate::sample::confidence::ConfidenceGrid;
use crate::sample::geometry::near;
use crate::sample::morphology::{close, closed_up, dilate, dilated, eroded, open, opened};
use crate::sample::regions::{filter_by_area, is_largest_area, kept, leaders, region};

verus! {

/// Tuning for occlusion localization.
#[derive(Clone, Copy, Debug, PartialEq, Eq, Structural)]
pub struct OcclusionParams {
    /// Confidence at or below which a module is suspect, by bit pattern.
    pub cut: u32,
    /// Opening radius, in modules. Removes features thinner than `2r + 1`.
    pub open_radius: usize,
    /// Closing radius, in modules. Fills holes narrower than `2r + 1`.
    pub close_radius: usize,
    /// Minimum area of a connected region, in modules, to count as an occlusion.
    pub min_area: usize,
}

impl Default for OcclusionParams {
    /// The cut is 0.25: less than a quarter as trustworthy as the symbol's own function patterns.
    fn default() -> (r: Self)
        ensures
            r.cut == 0x3E80_0000,
            r.open_radius == 1,
            r.close_radius == 2,
            r.min_area == 6,
    {
        Self { cut: 0x3E80_0000, open_radius: 1, close_radius: 2, min_area: 6 }
    }
}

/// Where the occlusion is.
#[derive(Clone, Debug)]
pub struct OcclusionMask {
    pub width: usize,
    pub height: usize,
    /// Number of distinct occluding regions that survived filtering.
    pub region_count: usize,
    /// Area of the largest region, in modules.
    pub largest_region: usize,
    /// Row-major, one flag for every module.
    pub occluded: Vec<bool>,
}

impl View for OcclusionMask {
    type V = Seq<bool>;

    open spec fn view(&self) -> Seq<bool> {
        self.occluded@
    }
}

impl OcclusionMask {
    /// One flag for every module.
    pub open spec fn wf(self) -> bool {
        self@.len() == self.width * self.height
    }

    /// Whether the counts are those of the regions of `mask` that have at least `min_area` cells.
    pub open spec fn counts(self, mask: Seq<bool>, min_area: int) -> bool {
        &&& self.region_count == leaders(mask, self.width as int, min_area).len()
        &&& is_largest_area(mask, self.width as int, min_area, self.largest_region as int)
    }

    /// Wraps a row-major mask: a region that a user drew, or one carried over from another frame.
    pub fn from_mask(width: usize, height: usize, occluded: Vec<bool>) -> (r: Self)
        requires
            occluded@.len() == width * height,
        ensures
            r.wf(),
            r.width == width,
            r.height == height,
            r@ == occluded@,
            r.counts(occluded@, 1),
    {
        let (_, region_count, largest_region) = filter_by_area(
            occluded.as_slice(),
            width,
            height,
            1,
        );
        Self { width, height, region_count, largest_region, occluded }
    }

    /// The flag in column `x` of row `y`.
    pub fn get(&self, x: usize, y: usize) -> (r: bool)
        requires
            y * self.width + x < self@.len(),
        ensures
            r == self@[y * self.width + x],
    {
        proof {
            assert(0 <= y * self.width) by (nonlinear_arith);
            assert(self@.len() == self.occluded.len());
        }
        self.occluded[y * self.width + x]
    }

    pub fn at(&self, index: usize) -> (r: bool)
        requires
            index < self@.len(),
        ensures
            r == self@[index as int],
    {
        self.occluded[index]
    }

    pub fn as_slice(&self) -> (r: &[bool])
        ensures
            r@ == self@,
    {
        self.occluded.as_slice()
    }

    /// Total occluded modules.
    pub fn count(&self) -> (r: usize)
        ensures
            r == set_positions(self@).len(),
    {
        positions_set(self.occluded.as_slice()).len()
    }

    /// Indices of every occluded module, ascending.
    pub fn indices(&self) -> (r: Vec<usize>)
        ensures
            lists(r@, set_positions(self@)),
    {
        positions_set(self.occluded.as_slice())
    }
}

/// The modules that score at or below the cut.
pub open spec fn suspects(scores: Seq<u32>, cut: u32) -> Seq<bool> {
    scores.map_values(|s: u32| float_at_most(s, cut))
}

/// What opening and closing leave of the suspects.
pub open spec fn consolidated(scores: Seq<u32>, w: int, params: OcclusionParams) -> Seq<bool> {
    closed_up(
        opened(suspects(scores, params.cut), w, params.open_radius as int),
        w,
        params.close_radius as int,
    )
}

/// `mask`, with the listed positions set as far as they lie in it.
pub open spec fn with_marked(mask: Seq<bool>, marks: Seq<usize>) -> Seq<bool> {
    Seq::new(mask.len(), |i: int| mask[i] || marks.contains(i as usize))
}

/// Sets the listed positions, as far as they lie in the mask.
fn mark(mask: &mut Vec<bool>, marks: &[usize])
    ensures
        final(mask)@ == with_marked(old(mask)@, marks@),
{
    let ghost was = mask@;
    let ghost fits = mask@.len() == mask.len();
    let mut k: usize = 0;
    while k < marks.len()
        invariant
            k <= marks@.len(),
            mask@.len() == was.len(),
            forall|i: int|
                0 <= i < was.len() ==> #[trigger] mask@[i] == (was[i] || exists|m: int|
                    0 <= m < k && marks@[m] == i),
        decreases marks@.len() - k,
    {
        let ghost before = mask@;
        let i: usize = marks[k];
        if i < mask.len() {
            mask.set(i, true);
        }
        assert forall|j: int| 0 <= j < was.len() implies #[trigger] mask@[j] == (was[j] || exists|
            m: int,
        |
            0 <= m < k + 1 && marks@[m] == j) by {
            assert(before[j] == (was[j] || exists|m: int| 0 <= m < k && marks@[m] == j));
            if j == i {
                assert(0 <= k < k + 1 && marks@[k as int] == j);
            }
        }
        k = k + 1;
    }
    proof {
        assert(mask@.len() == mask.len());
        assert forall|i: int| 0 <= i < was.len() implies mask@[i] == with_marked(was, marks@)[i] by {
            assert(i as usize as int == i);
            if marks@.contains(i as usize) {
                let m = choose|m: int| 0 <= m < marks@.len() && marks@[m] == i as usize;
                assert(0 <= m < marks@.len() && marks@[m] == i);
            }
        }
        assert(mask@ =~= with_marked(was, marks@));
    }
}

/// Whether a module lies by solid suspects: no further than both radii from the middle of a square of the
/// opening radius, clipped at the border, in which every module scores at or below the cut.
pub open spec fn is_by_solid_suspects(
    scores: Seq<u32>,
    w: int,
    params: OcclusionParams,
    i: int,
) -> bool {
    exists|c: int|
        0 <= c < scores.len() && #[trigger] near(
            i,
            c,
            w,
            params.open_radius + params.close_radius,
        ) && forall|j: int|
            0 <= j < scores.len() && near(c, j, w, params.open_radius as int) ==> float_at_most(
                #[trigger] scores[j],
                params.cut,
            )
}

/// Localizes the occlusion in a scored grid.
///
/// `certain` holds indices proven damaged by contradiction of the symbology's specification (see
/// [`crate::sample::confidence::certain_damage`]); they bypass every filter.
pub fn locate(conf: &ConfidenceGrid, certain: &[usize], params: &OcclusionParams) -> (r:
    OcclusionMask)
    requires
        conf.wf(),
    ensures
        r.wf(),
        r.width == conf.width,
        r.height == conf.height,
        r@ == with_marked(
            kept(
                consolidated(conf@, conf.width as int, *params),
                conf.width as int,
                params.min_area as int,
            ),
            certain@,
        ),
        r.counts(consolidated(conf@, conf.width as int, *params), params.min_area as int),
        forall|i: int|
            0 <= i < r@.len() && #[trigger] r@[i] ==> certain@.contains(i as usize)
                || is_by_solid_suspects(conf@, conf.width as int, *params, i),
{
    let w: usize = conf.width;
    let h: usize = conf.height;
    let mut raw: Vec<bool> = Vec::with_capacity(conf.scores.len());
    for i in 0..conf.scores.len()
        invariant
            raw@ == suspects(conf@.take(i as int), params.cut),
    {
        raw.push(at_most(conf.scores[i], params.cut));
        assert(raw@ =~= suspects(conf@.take(i + 1), params.cut));
    }
    assert(conf@.take(conf@.len() as int) =~= conf@);
    let thinned = open(raw.as_slice(), w, h, params.open_radius);
    let filled = close(thinned.as_slice(), w, h, params.close_radius);
    let (mut occluded, region_count, largest_region) = filter_by_area(
        filled.as_slice(),
        w,
        h,
        params.min_area,
    );
    mark(&mut occluded, certain);
    proof {
        assert forall|i: int| 0 <= i < occluded@.len() && #[trigger] occluded@[i] implies certain@.contains(
            i as usize,
        ) || is_by_solid_suspects(conf@, w as int, *params, i) by {
            if !certain@.contains(i as usize) {
                crate::sample::geometry::lemma_coordinates(i, w as int, h as int);
                law_masked_modules_lie_by_solid_suspects(conf@, w as int, *params, certain@, i);
            }
        }
    }
    OcclusionMask { width: w, height: h, region_count, largest_region, occluded }
}

/// Tuning for fitting a region to proven-damaged modules.
#[derive(Clone, Copy, Debug, PartialEq, Eq, Structural)]
pub struct FitParams {
    /// Closing radius. Must be large enough to bridge the gaps between proven points.
    pub close_radius: usize,
    /// Minimum region area in modules.
    pub min_area: usize,
    /// Final dilation, in modules: the proven points sample the occlusion's interior, and growing
    /// covers the rim that the sample cannot see.
    pub grow: usize,
}

impl Default for FitParams {
    fn default() -> (r: Self)
        ensures
            r.close_radius == 3,
            r.min_area == 4,
            r.grow == 1,
    {
        Self { close_radius: 3, min_area: 4, grow: 1 }
    }
}

/// A blank mask of `n` cells with the listed positions set.
pub open spec fn points(damaged: Seq<usize>, n: nat) -> Seq<bool> {
    with_marked(Seq::new(n, |i: int| false), damaged)
}

/// The proven points with the gaps between them closed.
pub open spec fn bridged(damaged: Seq<usize>, w: int, h: int, params: FitParams) -> Seq<bool> {
    closed_up(points(damaged, (w * h) as nat), w, params.close_radius as int)
}

/// The region that the proven points sample: closed, filtered, grown.
pub open spec fn fitted(damaged: Seq<usize>, w: int, h: int, params: FitParams) -> Seq<bool> {
    dilated(
        kept(bridged(damaged, w, h, params), w, params.min_area as int),
        w,
        params.grow as int,
    )
}

/// Whether a module lies by proven damage: no further from it than closing and growing reach.
pub open spec fn is_by_damage(damaged: Seq<usize>, w: int, params: FitParams, i: int) -> bool {
    exists|k: int|
        0 <= k < damaged.len() && near(
            i,
            #[trigger] damaged[k] as int,
            w,
            params.close_radius + params.grow,
        )
}

/// Fits an occlusion region to modules proven damaged.
///
/// The proof is a sparse, unbiased sample of a contiguous region: an opaque logo damages only the
/// modules that disagree with it, and only blocks that decoded contribute. Closing bridges the mesh,
/// growing reaches the rim.
pub fn fit_region(damaged: &[usize], width: usize, height: usize, params: &FitParams) -> (r:
    OcclusionMask)
    requires
        width * height <= usize::MAX,
    ensures
        r.wf(),
        r.width == width,
        r.height == height,
        r@ == fitted(damaged@, width as int, height as int, *params),
        r.counts(
            bridged(damaged@, width as int, height as int, *params),
            params.min_area as int,
        ),
        forall|i: int|
            0 <= i < r@.len() && #[trigger] r@[i] ==> is_by_damage(
                damaged@,
                width as int,
                *params,
                i,
            ),
{
    proof {
        assert(0 <= width * height) by (nonlinear_arith);
    }
    let mut mask: Vec<bool> = vec![false; width * height];
    assert(mask@ =~= Seq::new((width * height) as nat, |i: int| false));
    mark(&mut mask, damaged);
    let filled = close(mask.as_slice(), width, height, params.close_radius);
    let (filtered, region_count, largest_region) = filter_by_area(
        filled.as_slice(),
        width,
        height,
        params.min_area,
    );
    let occluded = dilate(filtered.as_slice(), width, height, params.grow);
    proof {
        assert forall|i: int| 0 <= i < occluded@.len() && #[trigger] occluded@[i] implies is_by_damage(
            damaged@,
            width as int,
            *params,
            i,
        ) by {
            crate::sample::geometry::lemma_coordinates(i, width as int, height as int);
            law_fitted_regions_lie_by_damage(damaged@, width as int, height as int, *params, i);
        }
    }
    OcclusionMask { width, height, region_count, largest_region, occluded }
}

/// Proven damage bypasses every filter: each certain index that lies in the grid is in the mask.
pub proof fn law_certain_damage_is_always_masked(
    scores: Seq<u32>,
    w: int,
    params: OcclusionParams,
    certain: Seq<usize>,
    k: int,
)
    requires
        0 <= k < certain.len(),
        certain[k] < scores.len(),
    ensures
        with_marked(
            kept(consolidated(scores, w, params), w, params.min_area as int),
            certain,
        )[certain[k] as int],
{
    assert(certain.contains(certain[k]));
}

/// Without suspects and without certain damage nothing is masked.
pub proof fn law_clean_symbols_have_no_mask(scores: Seq<u32>, w: int, params: OcclusionParams, i: int)
    requires
        w > 0,
        0 <= i < scores.len(),
        forall|k: int| 0 <= k < scores.len() ==> !float_at_most(#[trigger] scores[k], params.cut),
    ensures
        !with_marked(
            kept(consolidated(scores, w, params), w, params.min_area as int),
            Seq::<usize>::empty(),
        )[i],
{
    let raw = suspects(scores, params.cut);
    let thin = opened(raw, w, params.open_radius as int);
    assert forall|j: int| 0 <= j < scores.len() implies !thin[j] by {
        crate::sample::morphology::law_opening_shrinks_and_closing_fills(
            raw,
            w,
            params.open_radius as int,
            j,
        );
    }
    let r = params.close_radius as int;
    assert(crate::sample::geometry::near(i, i, w, r));
    assert(!dilated(thin, w, r)[i]);
}

/// Logos are blobs: what is masked without being certain lies by solid suspects. Speckle is opened away
/// before anything is closed, so scattered suspects are never grown together.
pub proof fn law_masked_modules_lie_by_solid_suspects(
    scores: Seq<u32>,
    w: int,
    params: OcclusionParams,
    certain: Seq<usize>,
    i: int,
)
    requires
        w > 0,
        0 <= i < scores.len(),
        with_marked(
            kept(consolidated(scores, w, params), w, params.min_area as int),
            certain,
        )[i],
        !certain.contains(i as usize),
    ensures
        is_by_solid_suspects(scores, w, params, i),
{
    let raw = suspects(scores, params.cut);
    let (open_r, close_r) = (params.open_radius as int, params.close_radius as int);
    let thin = opened(raw, w, open_r);
    crate::sample::morphology::law_closing_stays_near(thin, w, close_r, i);
    let j = choose|j: int| 0 <= j < thin.len() && #[trigger] near(i, j, w, close_r) && thin[j];
    let c = choose|c: int| 0 <= c < raw.len() && near(j, c, w, open_r) && eroded(raw, w, open_r)[c];
    assert(near(i, c, w, open_r + close_r));
    assert forall|k: int| 0 <= k < scores.len() && near(c, k, w, open_r) implies float_at_most(
        #[trigger] scores[k],
        params.cut,
    ) by {
        assert(raw[k]);
    }
}

/// Whether the square around a module, clipped at the border, holds a module that is no suspect.
pub open spec fn is_broken_up(scores: Seq<u32>, cut: u32, w: int, r: int, c: int) -> bool {
    exists|j: int|
        0 <= j < scores.len() && #[trigger] near(c, j, w, r) && !float_at_most(scores[j], cut)
}

/// Noise is not masked: where every square of the opening radius, clipped at the border, holds a module that
/// is no suspect, and nothing is certain, no module is masked.
pub proof fn law_speckle_is_not_masked(scores: Seq<u32>, w: int, params: OcclusionParams, i: int)
    requires
        w > 0,
        0 <= i < scores.len(),
        forall|c: int|
            0 <= c < scores.len() ==> #[trigger] is_broken_up(
                scores,
                params.cut,
                w,
                params.open_radius as int,
                c,
            ),
    ensures
        !with_marked(
            kept(consolidated(scores, w, params), w, params.min_area as int),
            Seq::<usize>::empty(),
        )[i],
{
    if with_marked(
        kept(consolidated(scores, w, params), w, params.min_area as int),
        Seq::<usize>::empty(),
    )[i] {
        law_masked_modules_lie_by_solid_suspects(scores, w, params, Seq::empty(), i);
        let c = choose|c: int|
            0 <= c < scores.len() && #[trigger] near(
                i,
                c,
                w,
                params.open_radius + params.close_radius,
            ) && forall|j: int|
                0 <= j < scores.len() && near(c, j, w, params.open_radius as int) ==> float_at_most(
                    #[trigger] scores[j],
                    params.cut,
                );
        assert(is_broken_up(scores, params.cut, w, params.open_radius as int, c));
        let j = choose|j: int|
            0 <= j < scores.len() && #[trigger] near(c, j, w, params.open_radius as int)
                && !float_at_most(scores[j], params.cut);
        assert(float_at_most(scores[j], params.cut));
    }
}

/// The modules that lie in a square of the radius, clipped at the border, of suspects only.
pub open spec fn solid_suspects(scores: Seq<u32>, cut: u32, w: int, r: int) -> Seq<bool> {
    Seq::new(
        scores.len(),
        |i: int|
            exists|c: int|
                0 <= c < scores.len() && #[trigger] near(i, c, w, r) && forall|j: int|
                    0 <= j < scores.len() && near(c, j, w, r) ==> float_at_most(
                        #[trigger] scores[j],
                        cut,
                    ),
    )
}

/// Logos are found: solid suspects that make a region of the minimum area are masked.
pub proof fn law_solid_suspects_are_masked(
    scores: Seq<u32>,
    w: int,
    params: OcclusionParams,
    certain: Seq<usize>,
    i: int,
)
    requires
        w > 0,
        0 <= i < scores.len(),
        solid_suspects(scores, params.cut, w, params.open_radius as int)[i],
        region(
            solid_suspects(scores, params.cut, w, params.open_radius as int),
            w,
            i,
        ).len() >= params.min_area,
    ensures
        with_marked(
            kept(consolidated(scores, w, params), w, params.min_area as int),
            certain,
        )[i],
{
    let raw = suspects(scores, params.cut);
    let r = params.open_radius as int;
    let solid = solid_suspects(scores, params.cut, w, r);
    let whole = consolidated(scores, w, params);
    assert forall|k: int| 0 <= k < solid.len() && solid[k] implies #[trigger] whole[k] by {
        let c = choose|c: int|
            0 <= c < scores.len() && #[trigger] near(k, c, w, r) && forall|j: int|
                0 <= j < scores.len() && near(c, j, w, r) ==> float_at_most(
                    #[trigger] scores[j],
                    params.cut,
                );
        assert(eroded(raw, w, r)[c]);
        assert(opened(raw, w, r)[k]);
        crate::sample::morphology::law_opening_shrinks_and_closing_fills(
            opened(raw, w, r),
            w,
            params.close_radius as int,
            k,
        );
    }
    crate::sample::regions::lemma_joined_reflexive(solid, w, i);
    crate::sample::regions::law_regions_grow_with_the_mask(solid, whole, w, i, i);
}

/// A fitted region stays by the evidence: no module further from all proven damage than closing and growing
/// reach is in it.
pub proof fn law_fitted_regions_lie_by_damage(
    damaged: Seq<usize>,
    w: int,
    h: int,
    params: FitParams,
    i: int,
)
    requires
        w > 0,
        0 <= i < w * h <= usize::MAX,
        fitted(damaged, w, h, params)[i],
    ensures
        is_by_damage(damaged, w, params, i),
{
    let n = (w * h) as nat;
    let spots = points(damaged, n);
    let (close_r, grow) = (params.close_radius as int, params.grow as int);
    let whole = kept(bridged(damaged, w, h, params), w, params.min_area as int);
    let j = choose|j: int| 0 <= j < whole.len() && near(i, j, w, grow) && whole[j];
    crate::sample::morphology::law_closing_stays_near(spots, w, close_r, j);
    let d = choose|d: int| 0 <= d < spots.len() && #[trigger] near(j, d, w, close_r) && spots[d];
    lemma_spot(damaged, n, d);
    let k = choose|k: int| 0 <= k < damaged.len() && #[trigger] damaged[k] == d;
    assert(near(i, damaged[k] as int, w, close_r + grow));
}

/// A spot that is set is one of the listed positions.
proof fn lemma_spot(damaged: Seq<usize>, n: nat, d: int)
    requires
        0 <= d < n,
        points(damaged, n)[d],
        n <= usize::MAX,
    ensures
        exists|k: int| 0 <= k < damaged.len() && #[trigger] damaged[k] == d,
{
    let k = choose|k: int| 0 <= k < damaged.len() && damaged[k] == d as usize;
    assert(damaged[k] == d);
}

/// A fitted region reaches what the evidence surrounds: where proven damage makes a region of the minimum
/// area by itself, every module within the growth of it is in the fitted region.
pub proof fn law_fitted_regions_cover_clusters(
    damaged: Seq<usize>,
    w: int,
    h: int,
    params: FitParams,
    d: int,
    i: int,
)
    requires
        w > 0,
        0 <= d < w * h <= usize::MAX,
        0 <= i < w * h,
        damaged.contains(d as usize),
        region(
            Seq::new((w * h) as nat, |k: int| damaged.contains(k as usize)),
            w,
            d,
        ).len() >= params.min_area,
        i % w - d % w <= params.grow,
        d % w - i % w <= params.grow,
        i / w - d / w <= params.grow,
        d / w - i / w <= params.grow,
    ensures
        fitted(damaged, w, h, params)[i],
{
    let n = (w * h) as nat;
    let spots = Seq::new(n, |k: int| damaged.contains(k as usize));
    assert(spots =~= points(damaged, n));
    let whole = bridged(damaged, w, h, params);
    assert forall|k: int| 0 <= k < spots.len() && spots[k] implies #[trigger] whole[k] by {
        crate::sample::morphology::law_opening_shrinks_and_closing_fills(
            spots,
            w,
            params.close_radius as int,
            k,
        );
    }
    crate::sample::regions::lemma_joined_reflexive(spots, w, d);
    crate::sample::regions::law_regions_grow_with_the_mask(spots, whole, w, d, d);
    assert(kept(whole, w, params.min_area as int)[d]);
    assert(near(i, d, w, params.grow as int));
}

/// Closing a row between two set cells makes a region of all that lies between.
proof fn lemma_bridge(mask: Seq<bool>, w: int, r: int, min_area: int, a: int, b: int, i: int)
    requires
        w > 0,
        0 <= r,
        0 <= a <= i <= b < mask.len(),
        a / w == b / w,
        b - a <= 2 * r + 1,
        b - a + 1 >= min_area,
        mask[a],
        mask[b],
    ensures
        kept(closed_up(mask, w, r), w, min_area)[i],
{
    let whole = closed_up(mask, w, r);
    assert forall|k: int| a <= k <= b implies #[trigger] whole[k] by {
        crate::sample::regions::lemma_same_row(w, a, b, k);
        crate::sample::regions::lemma_same_row(w, a, b, b);
        crate::sample::morphology::law_closing_bridges_gaps(mask, w, r, a, b, k);
    }
    crate::sample::regions::law_runs_are_regions(whole, w, a, b);
    crate::sample::regions::lemma_same_row(w, a, b, i);
    crate::sample::regions::law_runs_are_regions(whole, w, a, i);
    crate::sample::regions::law_regions_are_kept_whole(whole, w, min_area, a, i);
}

/// Proven points sample a contiguous region: everything between two of them in a row, with no more than
/// twice the closing radius of modules between, is in the fitted region when it is large enough.
pub proof fn law_fitted_regions_bridge_gaps(
    damaged: Seq<usize>,
    w: int,
    h: int,
    params: FitParams,
    a: int,
    b: int,
    i: int,
)
    requires
        w > 0,
        0 <= a <= i <= b < w * h <= usize::MAX,
        a / w == b / w,
        b - a <= 2 * params.close_radius + 1,
        b - a + 1 >= params.min_area,
        damaged.contains(a as usize),
        damaged.contains(b as usize),
    ensures
        fitted(damaged, w, h, params)[i],
{
    let n = (w * h) as nat;
    lemma_bridge(
        points(damaged, n),
        w,
        params.close_radius as int,
        params.min_area as int,
        a,
        b,
        i,
    );
    let whole = kept(bridged(damaged, w, h, params), w, params.min_area as int);
    assert(near(i, i, w, params.grow as int));
    assert(whole[i]);
}

/// Seams do not part a logo: everything between two solid suspects in a row, with no more than twice the
/// closing radius of modules between, is masked when it is large enough.
pub proof fn law_seams_are_masked(
    scores: Seq<u32>,
    w: int,
    params: OcclusionParams,
    certain: Seq<usize>,
    a: int,
    b: int,
    i: int,
)
    requires
        w > 0,
        0 <= a <= i <= b < scores.len(),
        a / w == b / w,
        b - a <= 2 * params.close_radius + 1,
        b - a + 1 >= params.min_area,
        solid_suspects(scores, params.cut, w, params.open_radius as int)[a],
        solid_suspects(scores, params.cut, w, params.open_radius as int)[b],
    ensures
        with_marked(
            kept(consolidated(scores, w, params), w, params.min_area as int),
            certain,
        )[i],
{
    let raw = suspects(scores, params.cut);
    let r = params.open_radius as int;
    let thin = opened(raw, w, r);
    assert forall|k: int|
        0 <= k < scores.len() && #[trigger] solid_suspects(scores, params.cut, w, r)[k] implies thin[k] by {
        let c = choose|c: int|
            0 <= c < scores.len() && #[trigger] near(k, c, w, r) && forall|j: int|
                0 <= j < scores.len() && near(c, j, w, r) ==> float_at_most(
                    #[trigger] scores[j],
                    params.cut,
                );
        assert(eroded(raw, w, r)[c]);
    }
    lemma_bridge(thin, w, params.close_radius as int, params.min_area as int, a, b, i);
}

} // verus!
