//! Connected regions of a mask, and the filter that drops the small ones.
//!
//! Two set cells belong to one region when a path of set cells leads from one to the other, each
//! step going to one of the eight cells around: a diagonal seam through a logo is still one logo.
use vstd::prelude::*;
use crate::sample::geometry::{larger, lemma_cell, lemma_coordinates, near};

verus! {

/// Whether `p` walks over set cells only, by steps to neighbouring cells.
pub open spec fn is_path(mask: Seq<bool>, w: int, p: Seq<int>) -> bool {
    &&& p.len() > 0
    &&& forall|k: int| 0 <= k < p.len() ==> 0 <= #[trigger] p[k] < mask.len() && mask[p[k]]
    &&& forall|k: int| 0 < k < p.len() ==> near(p[k - 1], #[trigger] p[k], w, 1)
}

/// Whether a path of set cells leads from `i` to `j`.
pub open spec fn joined(mask: Seq<bool>, w: int, i: int, j: int) -> bool {
    exists|p: Seq<int>| #[trigger] is_path(mask, w, p) && p[0] == i && p.last() == j
}

/// The cells joined to `i`.
pub open spec fn region(mask: Seq<bool>, w: int, i: int) -> Set<int> {
    Set::new(|j: int| joined(mask, w, i, j))
}

/// Whether `i` is the first cell of a region of at least `min_area` cells. Every such region has
/// exactly one first cell, so these cells stand for the regions.
pub open spec fn leads_region(mask: Seq<bool>, w: int, min_area: int, i: int) -> bool {
    &&& 0 <= i < mask.len()
    &&& mask[i]
    &&& forall|j: int| joined(mask, w, i, j) ==> i <= j
    &&& region(mask, w, i).len() >= min_area
}

/// The first cells of the regions of at least `min_area` cells.
pub open spec fn leaders(mask: Seq<bool>, w: int, min_area: int) -> Set<int> {
    Set::new(|i: int| leads_region(mask, w, min_area, i))
}

/// The cells that lie in a region of at least `min_area` cells.
pub open spec fn kept(mask: Seq<bool>, w: int, min_area: int) -> Seq<bool> {
    Seq::new(mask.len(), |i: int| mask[i] && region(mask, w, i).len() >= min_area)
}

/// Whether `a` is the size of the largest region of at least `min_area` cells, 0 when there is none.
pub open spec fn is_largest_area(mask: Seq<bool>, w: int, min_area: int, a: int) -> bool {
    &&& forall|i: int| #[trigger]
        leads_region(mask, w, min_area, i) ==> region(mask, w, i).len() <= a
    &&& a == 0 || exists|i: int| #[trigger]
        leads_region(mask, w, min_area, i) && region(mask, w, i).len() == a
}

proof fn lemma_joined_bounds(mask: Seq<bool>, w: int, i: int, j: int)
    requires
        joined(mask, w, i, j),
    ensures
        0 <= i < mask.len(),
        0 <= j < mask.len(),
        mask[i],
        mask[j],
{
    let p = choose|p: Seq<int>| #[trigger] is_path(mask, w, p) && p[0] == i && p.last() == j;
    assert(p[0] == i);
    assert(p[p.len() - 1] == j);
}

/// A set cell is joined to itself.
pub proof fn lemma_joined_reflexive(mask: Seq<bool>, w: int, i: int)
    requires
        0 <= i < mask.len(),
        mask[i],
    ensures
        joined(mask, w, i, i),
{
    assert(is_path(mask, w, seq![i]));
    assert(seq![i].last() == i);
}

/// A path can go one step further.
proof fn lemma_joined_step(mask: Seq<bool>, w: int, i: int, j: int, k: int)
    requires
        joined(mask, w, i, j),
        0 <= k < mask.len(),
        mask[k],
        near(j, k, w, 1),
    ensures
        joined(mask, w, i, k),
{
    let p = choose|p: Seq<int>| #[trigger] is_path(mask, w, p) && p[0] == i && p.last() == j;
    let q = p.push(k);
    assert forall|m: int| 0 < m < q.len() implies near(q[m - 1], #[trigger] q[m], w, 1) by {
        if m < p.len() {
            assert(q[m] == p[m]);
            assert(q[m - 1] == p[m - 1]);
        }
    }
    assert(is_path(mask, w, q));
    assert(q[0] == i && q.last() == k);
}

/// A path can be walked backwards.
pub proof fn lemma_joined_symmetric(mask: Seq<bool>, w: int, i: int, j: int)
    requires
        joined(mask, w, i, j),
    ensures
        joined(mask, w, j, i),
{
    let p = choose|p: Seq<int>| #[trigger] is_path(mask, w, p) && p[0] == i && p.last() == j;
    let q = p.reverse();
    assert forall|m: int| 0 < m < q.len() implies near(q[m - 1], #[trigger] q[m], w, 1) by {
        let back = p.len() - m;
        assert(q[m - 1] == p[back]);
        assert(q[m] == p[back - 1]);
        assert(near(p[back - 1], p[back], w, 1));
    }
    assert(is_path(mask, w, q));
    assert(q[0] == j && q.last() == i);
}

/// Two paths that meet make one.
pub proof fn lemma_joined_transitive(mask: Seq<bool>, w: int, i: int, j: int, k: int)
    requires
        joined(mask, w, i, j),
        joined(mask, w, j, k),
    ensures
        joined(mask, w, i, k),
{
    let p = choose|p: Seq<int>| #[trigger] is_path(mask, w, p) && p[0] == i && p.last() == j;
    let q = choose|q: Seq<int>| #[trigger] is_path(mask, w, q) && q[0] == j && q.last() == k;
    let r = p + q.subrange(1, q.len() as int);
    assert forall|m: int| 0 < m < r.len() implies near(r[m - 1], #[trigger] r[m], w, 1) by {
        if m < p.len() {
            assert(r[m] == p[m] && r[m - 1] == p[m - 1]);
        } else {
            let b = m - p.len() + 1;
            assert(r[m] == q[b]);
            if m == p.len() {
                assert(r[m - 1] == p.last());
                assert(q[b - 1] == j);
            } else {
                assert(r[m - 1] == q[b - 1]);
            }
            assert(near(q[b - 1], q[b], w, 1));
        }
    }
    assert(is_path(mask, w, r));
    assert(r[0] == i);
    assert(r.last() == k) by {
        if q.len() == 1 {
            assert(r =~= p);
        }
    }
}

/// A set of cells that a path cannot leave holds the end of every path that starts in it.
proof fn lemma_joined_stays(mask: Seq<bool>, w: int, s: Set<int>, p: Seq<int>, k: int)
    requires
        is_path(mask, w, p),
        s.contains(p[0]),
        0 <= k < p.len(),
        forall|a: int, b: int|
            #![trigger s.contains(a), near(a, b, w, 1)]
            s.contains(a) && near(a, b, w, 1) && 0 <= b < mask.len() && mask[b] ==> s.contains(b),
    ensures
        s.contains(p[k]),
    decreases k,
{
    if k > 0 {
        lemma_joined_stays(mask, w, s, p, k - 1);
        assert(near(p[k - 1], p[k], w, 1));
    }
}

/// The regions of joined cells are one and the same.
pub proof fn lemma_region_shared(mask: Seq<bool>, w: int, i: int, j: int)
    requires
        joined(mask, w, i, j),
    ensures
        region(mask, w, i) == region(mask, w, j),
{
    assert forall|k: int| joined(mask, w, i, k) == joined(mask, w, j, k) by {
        if joined(mask, w, i, k) {
            lemma_joined_symmetric(mask, w, i, j);
            lemma_joined_transitive(mask, w, j, i, k);
        }
        if joined(mask, w, j, k) {
            lemma_joined_transitive(mask, w, i, j, k);
        }
    }
    assert(region(mask, w, i) =~= region(mask, w, j));
}

/// A region is finite, and holds no more cells than the grid has.
pub proof fn lemma_region_finite(mask: Seq<bool>, w: int, i: int)
    ensures
        region(mask, w, i).finite(),
        region(mask, w, i).len() <= mask.len(),
        forall|j: int| #[trigger]
            region(mask, w, i).contains(j) ==> 0 <= j < mask.len() && mask[j],
{
    let all = vstd::set_lib::set_int_range(0, mask.len() as int);
    vstd::set_lib::lemma_int_range(0, mask.len() as int);
    assert forall|j: int| #[trigger] region(mask, w, i).contains(j) implies 0 <= j < mask.len()
        && mask[j] && all.contains(j) by {
        lemma_joined_bounds(mask, w, i, j);
    }
    vstd::set_lib::lemma_len_subset(region(mask, w, i), all);
}

/// No more than one leader in a region: two leaders that are joined are the same cell.
pub proof fn law_one_leader_per_region(mask: Seq<bool>, w: int, min_area: int, i: int, j: int)
    requires
        leads_region(mask, w, min_area, i),
        leads_region(mask, w, min_area, j),
        joined(mask, w, i, j),
    ensures
        i == j,
{
    lemma_joined_symmetric(mask, w, i, j);
}

/// More set cells join more: a region of a mask lies in one of every mask that sets as much.
pub proof fn law_regions_grow_with_the_mask(
    mask: Seq<bool>,
    more: Seq<bool>,
    w: int,
    i: int,
    j: int,
)
    requires
        mask.len() == more.len(),
        forall|k: int| 0 <= k < mask.len() && mask[k] ==> #[trigger] more[k],
        region(mask, w, i).contains(j),
    ensures
        region(more, w, i).contains(j),
        region(mask, w, i).len() <= region(more, w, i).len(),
{
    assert forall|k: int| region(mask, w, i).contains(k) implies region(more, w, i).contains(k) by {
        let p = choose|p: Seq<int>| #[trigger] is_path(mask, w, p) && p[0] == i && p.last() == k;
        assert(is_path(more, w, p));
    }
    lemma_region_finite(more, w, i);
    vstd::set_lib::lemma_len_subset(region(mask, w, i), region(more, w, i));
}

/// Neighbours belong to one region: two set cells that touch, at a side or at a corner, are joined.
pub proof fn law_touching_cells_are_joined(mask: Seq<bool>, w: int, i: int, j: int)
    requires
        0 <= i < mask.len(),
        0 <= j < mask.len(),
        mask[i],
        mask[j],
        i % w - j % w <= 1,
        j % w - i % w <= 1,
        i / w - j / w <= 1,
        j / w - i / w <= 1,
    ensures
        region(mask, w, i).contains(j),
        region(mask, w, i) == region(mask, w, j),
{
    lemma_joined_reflexive(mask, w, i);
    lemma_joined_step(mask, w, i, i, j);
    lemma_region_shared(mask, w, i, j);
}

/// Regions end where nothing set is left to step on: two cells are in different regions when some set of
/// cells holds the one, not the other, and touches no set cell outside it.
pub proof fn law_gaps_part_regions(mask: Seq<bool>, w: int, i: int, j: int, part: Set<int>)
    requires
        part.contains(i),
        !part.contains(j),
        forall|a: int, b: int|
            #![trigger part.contains(a), near(a, b, w, 1)]
            part.contains(a) && !part.contains(b) && 0 <= b < mask.len() && mask[b] ==> !near(
                a,
                b,
                w,
                1,
            ),
    ensures
        !region(mask, w, i).contains(j),
{
    if joined(mask, w, i, j) {
        let p = choose|p: Seq<int>| #[trigger] is_path(mask, w, p) && p[0] == i && p.last() == j;
        lemma_joined_stays(mask, w, part, p, p.len() - 1);
    }
}

/// Set cells side by side in a row make a region at least as large as they are many.
pub proof fn law_runs_are_regions(mask: Seq<bool>, w: int, a: int, b: int)
    requires
        w > 0,
        0 <= a <= b < mask.len(),
        a / w == b / w,
        forall|k: int| a <= k <= b ==> #[trigger] mask[k],
    ensures
        region(mask, w, a).contains(b),
        region(mask, w, a).len() >= b - a + 1,
{
    assert forall|k: int| a <= k <= b implies joined(mask, w, a, k) by {
        lemma_run_is_joined(mask, w, a, b, k);
    }
    lemma_region_finite(mask, w, a);
    let run = vstd::set_lib::set_int_range(a, b + 1);
    vstd::set_lib::lemma_int_range(a, b + 1);
    assert(run.subset_of(region(mask, w, a)));
    vstd::set_lib::lemma_len_subset(run, region(mask, w, a));
}

proof fn lemma_run_is_joined(mask: Seq<bool>, w: int, a: int, b: int, k: int)
    requires
        w > 0,
        0 <= a <= k <= b < mask.len(),
        a / w == b / w,
        forall|k: int| a <= k <= b ==> #[trigger] mask[k],
    ensures
        joined(mask, w, a, k),
    decreases k - a,
{
    if k == a {
        lemma_joined_reflexive(mask, w, a);
    } else {
        lemma_run_is_joined(mask, w, a, b, k - 1);
        lemma_same_row(w, a, b, k);
        lemma_same_row(w, a, b, k - 1);
        lemma_joined_step(mask, w, a, k - 1, k);
    }
}

/// What lies between two cells of a row lies in that row, in the column that its distance tells.
pub proof fn lemma_same_row(w: int, a: int, b: int, k: int)
    requires
        w > 0,
        0 <= a <= k <= b,
        a / w == b / w,
    ensures
        k / w == a / w,
        k % w == a % w + (k - a),
{
    vstd::arithmetic::div_mod::lemma_fundamental_div_mod(a, w);
    vstd::arithmetic::div_mod::lemma_fundamental_div_mod(b, w);
    let q = a / w;
    assert(k == q * w + (a % w + (k - a))) by {
        assert(w * q == q * w) by (nonlinear_arith);
    }
    vstd::arithmetic::div_mod::lemma_fundamental_div_mod_converse(k, w, q, a % w + (k - a));
}

/// A region is kept whole or dropped whole, and its size alone decides.
pub proof fn law_regions_are_kept_whole(mask: Seq<bool>, w: int, min_area: int, i: int, j: int)
    requires
        0 <= i < mask.len(),
        mask[i],
        region(mask, w, i).contains(j),
    ensures
        kept(mask, w, min_area)[i] == kept(mask, w, min_area)[j],
        kept(mask, w, min_area)[i] <==> region(mask, w, i).len() >= min_area,
{
    lemma_joined_bounds(mask, w, i, j);
    lemma_region_shared(mask, w, i, j);
}

/// Filtering sets nothing, and a filter for nothing or for single cells drops nothing.
pub proof fn law_filtering_only_drops(mask: Seq<bool>, w: int, min_area: int, i: int)
    requires
        0 <= i < mask.len(),
    ensures
        kept(mask, w, min_area).len() == mask.len(),
        kept(mask, w, min_area)[i] ==> mask[i],
        min_area <= 1 && mask[i] ==> kept(mask, w, min_area)[i],
{
    if mask[i] {
        lemma_joined_reflexive(mask, w, i);
        lemma_region_finite(mask, w, i);
        assert(region(mask, w, i).contains(i));
        vstd::set_lib::lemma_set_empty_equivalency_len(region(mask, w, i));
    }
}

/// A cell of every region comes first.
proof fn lemma_region_has_a_leader(mask: Seq<bool>, w: int, min_area: int, i: int) -> (first: int)
    requires
        0 <= i < mask.len(),
        mask[i],
        region(mask, w, i).len() >= min_area,
    ensures
        leads_region(mask, w, min_area, first),
        region(mask, w, first) == region(mask, w, i),
        first <= i,
    decreases i,
{
    lemma_joined_reflexive(mask, w, i);
    if forall|j: int| joined(mask, w, i, j) ==> i <= j {
        i
    } else {
        let j = choose|j: int| joined(mask, w, i, j) && !(i <= j);
        lemma_joined_bounds(mask, w, i, j);
        lemma_region_shared(mask, w, i, j);
        lemma_region_has_a_leader(mask, w, min_area, j)
    }
}

/// The counts tell what was kept: there are no regions, and the largest is nothing, exactly when no cell
/// is kept; and no kept cell lies in a region larger than the largest.
pub proof fn law_counts_tell_what_was_kept(
    mask: Seq<bool>,
    w: int,
    min_area: int,
    count: int,
    largest: int,
    i: int,
)
    requires
        count == leaders(mask, w, min_area).len(),
        is_largest_area(mask, w, min_area, largest),
        0 <= i < mask.len(),
    ensures
        kept(mask, w, min_area)[i] ==> count >= 1 && 1 <= region(mask, w, i).len() <= largest,
        count >= 1 ==> exists|j: int|
            0 <= j < mask.len() && #[trigger] kept(mask, w, min_area)[j] && region(
                mask,
                w,
                j,
            ).len() == largest,
{
    let all = vstd::set_lib::set_int_range(0, mask.len() as int);
    vstd::set_lib::lemma_int_range(0, mask.len() as int);
    let firsts = leaders(mask, w, min_area);
    vstd::set_lib::lemma_len_subset(firsts, all);
    vstd::set_lib::lemma_set_empty_equivalency_len(firsts);
    if kept(mask, w, min_area)[i] {
        let first = lemma_region_has_a_leader(mask, w, min_area, i);
        assert(firsts.contains(first));
        lemma_joined_reflexive(mask, w, i);
        lemma_region_finite(mask, w, i);
        assert(region(mask, w, i).contains(i));
        vstd::set_lib::lemma_set_empty_equivalency_len(region(mask, w, i));
    }
    if count >= 1 {
        let first = firsts.choose();
        assert(firsts.contains(first));
        lemma_joined_reflexive(mask, w, first);
        lemma_region_finite(mask, w, first);
        assert(region(mask, w, first).contains(first));
        vstd::set_lib::lemma_set_empty_equivalency_len(region(mask, w, first));
        assert(largest > 0);
        let j = choose|j: int| #[trigger]
            leads_region(mask, w, min_area, j) && region(mask, w, j).len() == largest;
        assert(kept(mask, w, min_area)[j]);
    }
}

/// Whether `seen` marks whole regions only.
spec fn whole_regions(mask: Seq<bool>, w: int, seen: Seq<bool>) -> bool {
    &&& seen.len() == mask.len()
    &&& forall|j: int, k: int|
        #![trigger seen[j], joined(mask, w, j, k)]
        0 <= j < mask.len() && seen[j] && joined(mask, w, j, k) ==> seen[k]
}

/// The cells marked in `now` and not in `before`.
spec fn newly(before: Seq<bool>, now: Seq<bool>) -> Set<int> {
    Set::new(|j: int| 0 <= j < now.len() && now[j] && !before[j])
}

/// Marks the region of `start` as visited and returns its cells.
fn flood(mask: &[bool], w: usize, h: usize, start: usize, visited: &mut Vec<bool>) -> (component: Vec<
    usize,
>)
    requires
        mask@.len() == w * h,
        start < mask@.len(),
        mask@[start as int],
        old(visited)@.len() == mask@.len(),
        !old(visited)@[start as int],
        whole_regions(mask@, w as int, old(visited)@),
    ensures
        final(visited)@ == Seq::new(
            mask@.len(),
            |j: int| old(visited)@[j] || region(mask@, w as int, start as int).contains(j),
        ),
        component@.len() == region(mask@, w as int, start as int).len(),
        forall|j: int|
            region(mask@, w as int, start as int).contains(j) ==> exists|k: int|
                0 <= k < component@.len() && component@[k] == j,
        forall|k: int|
            0 <= k < component@.len() ==> region(mask@, w as int, start as int).contains(
                #[trigger] component@[k] as int,
            ),
{
    let ghost before = visited@;
    let ghost wi = w as int;
    let ghost from = start as int;
    let mut component: Vec<usize> = Vec::new();
    let mut stack: Vec<usize> = Vec::new();
    stack.push(start);
    visited.set(start, true);
    proof {
        lemma_joined_reflexive(mask@, wi, from);
        assert(newly(before, visited@) =~= set![from]);
        assert(stack@[0] == start);
    }
    while stack.len() > 0
        invariant
            mask@.len() == w * h,
            wi == w,
            from == start,
            visited@.len() == mask@.len(),
            whole_regions(mask@, wi, before),
            newly(before, visited@).contains(from),
            newly(before, visited@).finite(),
            newly(before, visited@).len() == component@.len() + stack@.len(),
            forall|j: int| 0 <= j < mask@.len() && before[j] ==> visited@[j],
            forall|j: int| #[trigger]
                newly(before, visited@).contains(j) ==> joined(mask@, wi, from, j),
            forall|j: int|
                newly(before, visited@).contains(j) ==> (exists|k: int|
                    0 <= k < component@.len() && component@[k] == j) || (exists|k: int|
                    0 <= k < stack@.len() && stack@[k] == j),
            forall|k: int|
                0 <= k < component@.len() ==> newly(before, visited@).contains(
                    #[trigger] component@[k] as int,
                ),
            forall|k: int|
                0 <= k < stack@.len() ==> newly(before, visited@).contains(
                    #[trigger] stack@[k] as int,
                ),
            forall|k: int, b: int|
                #![trigger component@[k], near(component@[k] as int, b, wi, 1)]
                0 <= k < component@.len() && near(component@[k] as int, b, wi, 1) && 0 <= b
                    < mask@.len() && mask@[b] ==> visited@[b],
        decreases 2 * (mask@.len() - component@.len() - stack@.len()) + stack@.len(),
    {
        let ghost stack_was = stack@;
        let ghost component_was = component@;
        let i: usize = stack.pop().unwrap();
        proof {
            assert(stack_was[stack_was.len() - 1] == i);
            assert(newly(before, visited@).contains(i as int));
            lemma_joined_bounds(mask@, wi, from, i as int);
            lemma_coordinates(i as int, wi, h as int);
        }
        component.push(i);
        let x: usize = i % w;
        let y: usize = i / w;
        let x0: usize = if x >= 1 { x - 1 } else { 0 };
        let x1: usize = if x + 1 < w { x + 1 } else { x };
        let y0: usize = if y >= 1 { y - 1 } else { 0 };
        let y1: usize = if y + 1 < h { y + 1 } else { y };
        proof {
            assert forall|j: int| newly(before, visited@).contains(j) implies (exists|k: int|
                0 <= k < component@.len() && component@[k] == j) || (exists|k: int|
                0 <= k < stack@.len() && stack@[k] == j) by {
                if exists|k: int| 0 <= k < component_was.len() && component_was[k] == j {
                    let k = choose|k: int| 0 <= k < component_was.len() && component_was[k] == j;
                    assert(component@[k] == j);
                } else {
                    let k = choose|k: int| 0 <= k < stack_was.len() && stack_was[k] == j;
                    if k == stack_was.len() - 1 {
                        assert(component@[component@.len() - 1] == j);
                    } else {
                        assert(stack@[k] == j);
                    }
                }
            }
        }
        let ghost todo = stack@.len() + component@.len();
        proof {
            lemma_newly_bounded(before, visited@);
        }
        let mut ny: usize = y0;
        while ny <= y1
            invariant
                mask@.len() == w * h,
                wi == w,
                from == start,
                x == i as int % wi,
                y == i as int / wi,
                x < w,
                y < h,
                x0 == if x >= 1 { x - 1 } else { 0 },
                x1 == if x + 1 < w { x + 1 } else { x as int },
                y0 == if y >= 1 { y - 1 } else { 0 },
                y1 == if y + 1 < h { y + 1 } else { y as int },
                y0 <= ny <= y1 + 1,
                i < mask@.len(),
                joined(mask@, wi, from, i as int),
                visited@.len() == mask@.len(),
                whole_regions(mask@, wi, before),
                newly(before, visited@).contains(from),
                newly(before, visited@).finite(),
                newly(before, visited@).len() == component@.len() + stack@.len(),
                component@ == component_was.push(i),
                todo <= stack@.len() + component@.len() <= mask@.len(),
                forall|j: int| 0 <= j < mask@.len() && before[j] ==> visited@[j],
                forall|j: int| #[trigger]
                    newly(before, visited@).contains(j) ==> joined(mask@, wi, from, j),
                forall|j: int|
                    newly(before, visited@).contains(j) ==> (exists|k: int|
                        0 <= k < component@.len() && component@[k] == j) || (exists|k: int|
                        0 <= k < stack@.len() && stack@[k] == j),
                forall|k: int|
                    0 <= k < component@.len() ==> newly(before, visited@).contains(
                        #[trigger] component@[k] as int,
                    ),
                forall|k: int|
                    0 <= k < stack@.len() ==> newly(before, visited@).contains(
                        #[trigger] stack@[k] as int,
                    ),
                forall|k: int, b: int|
                    #![trigger component_was[k], near(component_was[k] as int, b, wi, 1)]
                    0 <= k < component_was.len() && near(component_was[k] as int, b, wi, 1) && 0
                        <= b < mask@.len() && mask@[b] ==> visited@[b],
                forall|b: int|
                    #![trigger near(i as int, b, wi, 1)]
                    near(i as int, b, wi, 1) && 0 <= b < mask@.len() && mask@[b] && b / wi < ny
                        ==> visited@[b],
            decreases y1 + 1 - ny,
        {
            let mut nx: usize = x0;
            while nx <= x1
                invariant
                    mask@.len() == w * h,
                    wi == w,
                    from == start,
                    x == i as int % wi,
                    y == i as int / wi,
                    x < w,
                    y < h,
                    x0 == if x >= 1 { x - 1 } else { 0 },
                    x1 == if x + 1 < w { x + 1 } else { x as int },
                    y0 == if y >= 1 { y - 1 } else { 0 },
                    y1 == if y + 1 < h { y + 1 } else { y as int },
                    y0 <= ny <= y1,
                    x0 <= nx <= x1 + 1,
                    i < mask@.len(),
                    joined(mask@, wi, from, i as int),
                    visited@.len() == mask@.len(),
                    whole_regions(mask@, wi, before),
                    newly(before, visited@).contains(from),
                    newly(before, visited@).finite(),
                    newly(before, visited@).len() == component@.len() + stack@.len(),
                    component@ == component_was.push(i),
                    todo <= stack@.len() + component@.len() <= mask@.len(),
                    forall|j: int| 0 <= j < mask@.len() && before[j] ==> visited@[j],
                    forall|j: int| #[trigger]
                        newly(before, visited@).contains(j) ==> joined(mask@, wi, from, j),
                    forall|j: int|
                        newly(before, visited@).contains(j) ==> (exists|k: int|
                            0 <= k < component@.len() && component@[k] == j) || (exists|k: int|
                            0 <= k < stack@.len() && stack@[k] == j),
                    forall|k: int|
                        0 <= k < component@.len() ==> newly(before, visited@).contains(
                            #[trigger] component@[k] as int,
                        ),
                    forall|k: int|
                        0 <= k < stack@.len() ==> newly(before, visited@).contains(
                            #[trigger] stack@[k] as int,
                        ),
                    forall|k: int, b: int|
                        #![trigger component_was[k], near(component_was[k] as int, b, wi, 1)]
                        0 <= k < component_was.len() && near(component_was[k] as int, b, wi, 1) && 0
                            <= b < mask@.len() && mask@[b] ==> visited@[b],
                    forall|b: int|
                        #![trigger near(i as int, b, wi, 1)]
                        near(i as int, b, wi, 1) && 0 <= b < mask@.len() && mask@[b] && (b / wi < ny
                            || (b / wi == ny && b % wi < nx)) ==> visited@[b],
                decreases x1 + 1 - nx,
            {
                proof {
                    lemma_cell(nx as int, ny as int, wi, h as int);
                    assert(mask@.len() == mask.len());
                }
                let n: usize = ny * w + nx;
                if mask[n] && !visited[n] {
                    let ghost seen = visited@;
                    let ghost stack_old = stack@;
                    visited.set(n, true);
                    stack.push(n);
                    proof {
                        assert(near(i as int, n as int, wi, 1));
                        lemma_joined_step(mask@, wi, from, i as int, n as int);
                        assert(newly(before, visited@) =~= newly(before, seen).insert(n as int));
                        assert forall|j: int| newly(before, visited@).contains(j) implies (exists|
                            k: int,
                        |
                            0 <= k < component@.len() && component@[k] == j) || (exists|k: int|
                            0 <= k < stack@.len() && stack@[k] == j) by {
                            if j == n {
                                assert(stack@[stack@.len() - 1] == j);
                            } else {
                                assert(newly(before, seen).contains(j));
                                if !(exists|k: int|
                                    0 <= k < component@.len() && component@[k] == j) {
                                    let k = choose|k: int|
                                        0 <= k < stack_old.len() && stack_old[k] == j;
                                    assert(stack@[k] == j);
                                }
                            }
                        }
                        lemma_newly_bounded(before, visited@);
                    }
                }
                assert forall|b: int|
                    #![trigger near(i as int, b, wi, 1)]
                    near(i as int, b, wi, 1) && 0 <= b < mask@.len() && mask@[b] && (b / wi < ny
                        || (b / wi == ny && b % wi < nx + 1)) implies visited@[b] by {
                    lemma_coordinates(b, wi, h as int);
                }
                nx = nx + 1;
            }
            assert forall|b: int|
                #![trigger near(i as int, b, wi, 1)]
                near(i as int, b, wi, 1) && 0 <= b < mask@.len() && mask@[b] && b / wi < ny
                    + 1 implies visited@[b] by {
                lemma_coordinates(b, wi, h as int);
            }
            ny = ny + 1;
        }
        assert forall|k: int, b: int|
            #![trigger component@[k], near(component@[k] as int, b, wi, 1)]
            0 <= k < component@.len() && near(component@[k] as int, b, wi, 1) && 0 <= b
                < mask@.len() && mask@[b] implies visited@[b] by {
            if k < component_was.len() {
                assert(component@[k] == component_was[k]);
                assert(near(component_was[k] as int, b, wi, 1));
            } else {
                lemma_coordinates(b, wi, h as int);
                assert(near(i as int, b, wi, 1));
            }
        }
    }
    proof {
        let fresh = newly(before, visited@);
        let whole = region(mask@, wi, from);
        assert forall|a: int, b: int|
            #![trigger fresh.contains(a), near(a, b, wi, 1)]
            fresh.contains(a) && near(a, b, wi, 1) && 0 <= b < mask@.len()
                && mask@[b] implies fresh.contains(b) by {
            let k = choose|k: int| 0 <= k < component@.len() && component@[k] == a;
            assert(near(component@[k] as int, b, wi, 1));
            assert(visited@[b]);
            if before[b] {
                lemma_joined_reflexive(mask@, wi, b);
                assert(near(b, a, wi, 1));
                lemma_joined_bounds(mask@, wi, from, a);
                lemma_joined_step(mask@, wi, b, b, a);
            }
        }
        assert forall|j: int| whole.contains(j) implies fresh.contains(j) by {
            let p = choose|p: Seq<int>| #[trigger]
                is_path(mask@, wi, p) && p[0] == from && p.last() == j;
            lemma_joined_stays(mask@, wi, fresh, p, p.len() - 1);
        }
        assert(fresh =~= whole);
        assert forall|j: int| 0 <= j < mask@.len() implies visited@[j] == (before[j]
            || whole.contains(j)) by {
            assert(fresh.contains(j) == (visited@[j] && !before[j]));
        }
        assert(visited@ =~= Seq::new(mask@.len(), |j: int| before[j] || whole.contains(j)));
    }
    component
}

/// No more cells are marked than there are.
proof fn lemma_newly_bounded(before: Seq<bool>, now: Seq<bool>)
    ensures
        newly(before, now).finite(),
        newly(before, now).len() <= now.len(),
{
    let all = vstd::set_lib::set_int_range(0, now.len() as int);
    vstd::set_lib::lemma_int_range(0, now.len() as int);
    vstd::set_lib::lemma_len_subset(newly(before, now), all);
}

/// The cells of the regions that reach a cell before `n`.
spec fn seen_before(mask: Seq<bool>, w: int, n: int) -> Seq<bool> {
    Seq::new(mask.len(), |j: int| exists|s: int| 0 <= s < n && joined(mask, w, s, j))
}

/// The leaders before `n`.
spec fn leaders_before(mask: Seq<bool>, w: int, min_area: int, n: int) -> Set<int> {
    Set::new(|i: int| i < n && leads_region(mask, w, min_area, i))
}

proof fn lemma_seen_whole(mask: Seq<bool>, w: int, n: int)
    ensures
        whole_regions(mask, w, seen_before(mask, w, n)),
{
    let seen = seen_before(mask, w, n);
    assert forall|j: int, k: int|
        #![trigger seen[j], joined(mask, w, j, k)]
        0 <= j < mask.len() && seen[j] && joined(mask, w, j, k) implies seen[k] by {
        let s = choose|s: int| 0 <= s < n && joined(mask, w, s, j);
        lemma_joined_transitive(mask, w, s, j, k);
        lemma_joined_bounds(mask, w, j, k);
    }
}

/// What looking at one more cell adds to the cells seen.
proof fn lemma_seen_step(mask: Seq<bool>, w: int, n: int)
    requires
        0 <= n < mask.len(),
    ensures
        !mask[n] || seen_before(mask, w, n)[n] ==> seen_before(mask, w, n + 1) == seen_before(
            mask,
            w,
            n,
        ),
        seen_before(mask, w, n + 1) == Seq::new(
            mask.len(),
            |j: int| seen_before(mask, w, n)[j] || region(mask, w, n).contains(j),
        ),
        seen_before(mask, w, n)[n] ==> exists|s: int| 0 <= s < n && joined(mask, w, n, s),
        !seen_before(mask, w, n)[n] ==> forall|j: int| joined(mask, w, n, j) ==> n <= j,
{
    let was = seen_before(mask, w, n);
    let now = seen_before(mask, w, n + 1);
    assert forall|j: int| 0 <= j < mask.len() implies now[j] == (was[j] || region(
        mask,
        w,
        n,
    ).contains(j)) by {
        if now[j] {
            let s = choose|s: int| 0 <= s < n + 1 && joined(mask, w, s, j);
            if s < n {
                assert(was[j]);
            }
        }
        if was[j] {
            let s = choose|s: int| 0 <= s < n && joined(mask, w, s, j);
            assert(0 <= s < n + 1 && joined(mask, w, s, j));
        }
        if region(mask, w, n).contains(j) {
            assert(0 <= n < n + 1 && joined(mask, w, n, j));
        }
    }
    assert(now =~= Seq::new(mask.len(), |j: int| was[j] || region(mask, w, n).contains(j)));
    if was[n] {
        let s = choose|s: int| 0 <= s < n && joined(mask, w, s, n);
        lemma_joined_symmetric(mask, w, s, n);
        assert forall|j: int| region(mask, w, n).contains(j) implies was[j] by {
            lemma_joined_transitive(mask, w, s, n, j);
            lemma_joined_bounds(mask, w, n, j);
        }
        assert(now =~= was);
    } else {
        assert forall|j: int| joined(mask, w, n, j) implies n <= j by {
            lemma_joined_bounds(mask, w, n, j);
            lemma_joined_symmetric(mask, w, n, j);
        }
    }
    if !mask[n] {
        assert forall|j: int| !region(mask, w, n).contains(j) by {
            if joined(mask, w, n, j) {
                lemma_joined_bounds(mask, w, n, j);
            }
        }
        assert(now =~= was);
    }
}

/// Drops the regions smaller than `min_area`.
///
/// Returns the mask that is left, the number of its regions, and the area of the largest.
pub fn filter_by_area(mask: &[bool], w: usize, h: usize, min_area: usize) -> (r: (
    Vec<bool>,
    usize,
    usize,
))
    requires
        mask@.len() == w * h,
    ensures
        r.0@ == kept(mask@, w as int, min_area as int),
        r.1 == leaders(mask@, w as int, min_area as int).len(),
        is_largest_area(mask@, w as int, min_area as int, r.2 as int),
{
    let ghost wi = w as int;
    let ghost area = min_area as int;
    let n: usize = mask.len();
    let mut out: Vec<bool> = vec![false; n];
    let mut visited: Vec<bool> = vec![false; n];
    let mut regions: usize = 0;
    let mut largest: usize = 0;
    let mut start: usize = 0;
    proof {
        assert(visited@ =~= seen_before(mask@, wi, 0));
        assert(leaders_before(mask@, wi, area, 0) =~= Set::empty());
    }
    while start < n
        invariant
            n == mask@.len(),
            mask@.len() == w * h,
            wi == w,
            area == min_area,
            start <= n,
            out@.len() == n,
            visited@ == seen_before(mask@, wi, start as int),
            forall|j: int|
                0 <= j < n ==> #[trigger] out@[j] == (visited@[j] && region(mask@, wi, j).len()
                    >= area),
            leaders_before(mask@, wi, area, start as int).finite(),
            regions == leaders_before(mask@, wi, area, start as int).len(),
            regions <= start,
            forall|i: int|
                i < start && #[trigger] leads_region(mask@, wi, area, i) ==> region(
                    mask@,
                    wi,
                    i,
                ).len() <= largest,
            largest == 0 || exists|i: int| #[trigger]
                leads_region(mask@, wi, area, i) && region(mask@, wi, i).len() == largest,
        decreases n - start,
    {
        let ghost s = start as int;
        let ghost before = leaders_before(mask@, wi, area, s);
        proof {
            lemma_seen_whole(mask@, wi, s);
            lemma_seen_step(mask@, wi, s);
        }
        if mask[start] && !visited[start] {
            let ghost out_was = out@;
            let ghost visited_was = visited@;
            let component = flood(mask, w, h, start, &mut visited);
            let ghost whole = region(mask@, wi, s);
            proof {
                assert forall|j: int| whole.contains(j) implies region(mask@, wi, j) == whole by {
                    lemma_region_shared(mask@, wi, s, j);
                }
                lemma_region_finite(mask@, wi, s);
            }
            if component.len() >= min_area {
                regions = regions + 1;
                largest = larger(largest, component.len());
                let mut k: usize = 0;
                while k < component.len()
                    invariant
                        k <= component@.len(),
                        out@.len() == n,
                        n == mask@.len(),
                        forall|m: int|
                            0 <= m < component@.len() ==> whole.contains(
                                #[trigger] component@[m] as int,
                            ),
                        forall|j: int| #[trigger] whole.contains(j) ==> 0 <= j < n,
                        forall|j: int|
                            0 <= j < n ==> #[trigger] out@[j] == (out_was[j] || exists|m: int|
                                0 <= m < k && component@[m] == j),
                    decreases component@.len() - k,
                {
                    let ghost out_before = out@;
                    assert(whole.contains(component@[k as int] as int));
                    out.set(component[k], true);
                    assert forall|j: int| 0 <= j < n implies #[trigger] out@[j] == (out_was[j]
                        || exists|m: int| 0 <= m < k + 1 && component@[m] == j) by {
                        assert(out_before[j] == (out_was[j] || exists|m: int|
                            0 <= m < k && component@[m] == j));
                        if j == component@[k as int] {
                            assert(component@[k as int] == j);
                        }
                    }
                    k = k + 1;
                }
                proof {
                    assert(leads_region(mask@, wi, area, s));
                    assert(leaders_before(mask@, wi, area, s + 1) =~= before.insert(s));
                    assert forall|j: int| 0 <= j < n implies #[trigger] out@[j] == (visited@[j]
                        && region(mask@, wi, j).len() >= area) by {
                        assert(out_was[j] == (visited_was[j] && region(mask@, wi, j).len()
                            >= area));
                        if whole.contains(j) {
                            assert(exists|m: int| 0 <= m < component@.len() && component@[m] == j);
                        }
                    }
                }
            } else {
                proof {
                    assert(leaders_before(mask@, wi, area, s + 1) =~= before);
                    assert forall|j: int| 0 <= j < n implies #[trigger] out@[j] == (visited@[j]
                        && region(mask@, wi, j).len() >= area) by {
                        assert(out_was[j] == (visited_was[j] && region(mask@, wi, j).len()
                            >= area));
                    }
                }
            }
            assert(visited@ =~= seen_before(mask@, wi, s + 1));
        } else {
            proof {
                assert(!leads_region(mask@, wi, area, s));
                assert(leaders_before(mask@, wi, area, s + 1) =~= before);
            }
        }
        start = start + 1;
    }
    proof {
        assert(leaders_before(mask@, wi, area, n as int) =~= leaders(mask@, wi, area));
        assert forall|j: int| 0 <= j < n implies out@[j] == kept(mask@, wi, area)[j] by {
            if mask@[j] {
                lemma_joined_reflexive(mask@, wi, j);
            } else {
                if visited@[j] {
                    let s = choose|s: int| 0 <= s < n && joined(mask@, wi, s, j);
                    lemma_joined_bounds(mask@, wi, s, j);
                }
            }
        }
        assert(out@ =~= kept(mask@, wi, area));
    }
    (out, regions, largest)
}

} // verus!
