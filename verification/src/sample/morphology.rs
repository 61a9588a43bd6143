//! Dilation, erosion, opening and closing of a row-major mask with a square of radius `r`.
//!
//! A neighbour outside the grid counts as the nearest cell inside it, so an occlusion that touches
//! the symbol's edge behaves the same as one in the interior: only cells of the grid matter.
use vstd::prelude::*;
use crate::sample::geometry::{lemma_cell, lemma_coordinates, near};

verus! {

/// Set where any cell within the square radius is set.
pub open spec fn dilated(mask: Seq<bool>, w: int, r: int) -> Seq<bool> {
    Seq::new(mask.len(), |i: int| exists|j: int| 0 <= j < mask.len() && near(i, j, w, r) && mask[j])
}

/// Set only where every cell within the square radius is set.
pub open spec fn eroded(mask: Seq<bool>, w: int, r: int) -> Seq<bool> {
    Seq::new(
        mask.len(),
        |i: int| forall|j: int| 0 <= j < mask.len() && near(i, j, w, r) ==> mask[j],
    )
}

/// Erosion, then dilation.
pub open spec fn opened(mask: Seq<bool>, w: int, r: int) -> Seq<bool> {
    dilated(eroded(mask, w, r), w, r)
}

/// Dilation, then erosion.
pub open spec fn closed_up(mask: Seq<bool>, w: int, r: int) -> Seq<bool> {
    eroded(dilated(mask, w, r), w, r)
}

/// Whether some cell within radius `r` of column `x` in row `y` holds `wanted`.
fn any_near(mask: &[bool], w: usize, h: usize, r: usize, x: usize, y: usize, wanted: bool) -> (found:
    bool)
    requires
        mask@.len() == w * h,
        x < w,
        y < h,
    ensures
        found <==> exists|j: int|
            0 <= j < mask@.len() && near(y * w + x, j, w as int, r as int) && mask@[j] == wanted,
{
    let x0: usize = if x >= r { x - r } else { 0 };
    let x1: usize = if r < w - 1 - x { x + r } else { w - 1 };
    let y0: usize = if y >= r { y - r } else { 0 };
    let y1: usize = if r < h - 1 - y { y + r } else { h - 1 };
    let ghost here: int = y * w + x;
    proof {
        lemma_cell(x as int, y as int, w as int, h as int);
    }
    let mut sy: usize = y0;
    while sy <= y1
        invariant
            mask@.len() == w * h,
            x < w,
            y < h,
            x0 == if x >= r { x - r } else { 0 },
            x1 == if r < w - 1 - x { x + r } else { w - 1 },
            y0 == if y >= r { y - r } else { 0 },
            y1 == if r < h - 1 - y { y + r } else { h - 1 },
            here == y * w + x,
            here % (w as int) == x,
            here / (w as int) == y,
            y0 <= sy <= y1 + 1,
            forall|j: int|
                0 <= j < mask@.len() && near(here, j, w as int, r as int) && j / (w as int) < sy
                    ==> mask@[j] != wanted,
        decreases y1 + 1 - sy,
    {
        let mut sx: usize = x0;
        while sx <= x1
            invariant
                mask@.len() == w * h,
                x < w,
                y < h,
                x0 == if x >= r { x - r } else { 0 },
                x1 == if r < w - 1 - x { x + r } else { w - 1 },
                y0 == if y >= r { y - r } else { 0 },
                y1 == if r < h - 1 - y { y + r } else { h - 1 },
                here == y * w + x,
                here % (w as int) == x,
                here / (w as int) == y,
                y0 <= sy <= y1,
                x0 <= sx <= x1 + 1,
                forall|j: int|
                    0 <= j < mask@.len() && near(here, j, w as int, r as int) && (j / (w as int) < sy
                        || (j / (w as int) == sy && j % (w as int) < sx)) ==> mask@[j] != wanted,
            decreases x1 + 1 - sx,
        {
            proof {
                lemma_cell(sx as int, sy as int, w as int, h as int);
                assert(mask@.len() == mask.len());
            }
            if mask[sy * w + sx] == wanted {
                assert(near(here, sy * w + sx, w as int, r as int));
                return true;
            }
            assert forall|j: int|
                0 <= j < mask@.len() && near(here, j, w as int, r as int) && (j / (w as int) < sy
                    || (j / (w as int) == sy && j % (w as int) < sx + 1)) implies mask@[j]
                != wanted by {
                lemma_coordinates(j, w as int, h as int);
            }
            sx = sx + 1;
        }
        assert forall|j: int|
            0 <= j < mask@.len() && near(here, j, w as int, r as int) && j / (w as int) < sy
                + 1 implies mask@[j] != wanted by {
            lemma_coordinates(j, w as int, h as int);
        }
        sy = sy + 1;
    }
    assert forall|j: int|
        0 <= j < mask@.len() && near(here, j, w as int, r as int) implies mask@[j] != wanted by {
        lemma_coordinates(j, w as int, h as int);
    }
    false
}

/// Set where any neighbour within the square radius is set.
pub fn dilate(mask: &[bool], w: usize, h: usize, r: usize) -> (out: Vec<bool>)
    requires
        mask@.len() == w * h,
    ensures
        out@ == dilated(mask@, w as int, r as int),
{
    let mut out: Vec<bool> = Vec::with_capacity(mask.len());
    let n: usize = mask.len();
    let mut i: usize = 0;
    while i < n
        invariant
            n == mask@.len(),
            mask@.len() == w * h,
            i <= n,
            out@.len() == i,
            forall|k: int| 0 <= k < i ==> out@[k] == #[trigger] dilated(mask@, w as int, r as int)[k],
        decreases n - i,
    {
        proof {
            lemma_coordinates(i as int, w as int, h as int);
        }
        let found = any_near(mask, w, h, r, i % w, i / w, true);
        out.push(found);
        i = i + 1;
    }
    assert(out@ =~= dilated(mask@, w as int, r as int));
    out
}

/// Set only where every neighbour within the square radius is set.
pub fn erode(mask: &[bool], w: usize, h: usize, r: usize) -> (out: Vec<bool>)
    requires
        mask@.len() == w * h,
    ensures
        out@ == eroded(mask@, w as int, r as int),
{
    let mut out: Vec<bool> = Vec::with_capacity(mask.len());
    let n: usize = mask.len();
    let mut i: usize = 0;
    while i < n
        invariant
            n == mask@.len(),
            mask@.len() == w * h,
            i <= n,
            out@.len() == i,
            forall|k: int| 0 <= k < i ==> out@[k] == #[trigger] eroded(mask@, w as int, r as int)[k],
        decreases n - i,
    {
        proof {
            lemma_coordinates(i as int, w as int, h as int);
        }
        let found = any_near(mask, w, h, r, i % w, i / w, false);
        out.push(!found);
        i = i + 1;
    }
    assert(out@ =~= eroded(mask@, w as int, r as int));
    out
}

/// Erode, then dilate: removes features thinner than `2r + 1`.
pub fn open(mask: &[bool], w: usize, h: usize, r: usize) -> (out: Vec<bool>)
    requires
        mask@.len() == w * h,
    ensures
        out@ == opened(mask@, w as int, r as int),
{
    let thin = erode(mask, w, h, r);
    dilate(thin.as_slice(), w, h, r)
}

/// Dilate, then erode: fills holes narrower than `2r + 1`.
pub fn close(mask: &[bool], w: usize, h: usize, r: usize) -> (out: Vec<bool>)
    requires
        mask@.len() == w * h,
    ensures
        out@ == closed_up(mask@, w as int, r as int),
{
    let thick = dilate(mask, w, h, r);
    erode(thick.as_slice(), w, h, r)
}

/// A wider radius dilates to at least as much, and every radius keeps what was set.
pub proof fn law_dilation_grows(mask: Seq<bool>, w: int, r: int, s: int, i: int)
    requires
        w > 0,
        0 <= r <= s,
        0 <= i < mask.len(),
    ensures
        mask[i] ==> dilated(mask, w, r)[i],
        dilated(mask, w, r)[i] ==> dilated(mask, w, s)[i],
{
    if mask[i] {
        assert(near(i, i, w, r));
    }
    if dilated(mask, w, r)[i] {
        let j = choose|j: int| 0 <= j < mask.len() && near(i, j, w, r) && mask[j];
        assert(near(i, j, w, s));
    }
}

/// Erosion of a mask is what is left by dilating its complement.
pub proof fn law_dilation_and_erosion_are_duals(mask: Seq<bool>, w: int, r: int)
    ensures
        eroded(mask, w, r) == dilated(mask.map_values(|b: bool| !b), w, r).map_values(|b: bool| !b),
{
    let flipped = mask.map_values(|b: bool| !b);
    assert forall|i: int| 0 <= i < mask.len() implies eroded(mask, w, r)[i] == !dilated(
        flipped,
        w,
        r,
    )[i] by {
        if eroded(mask, w, r)[i] {
            if dilated(flipped, w, r)[i] {
                let j = choose|j: int| 0 <= j < flipped.len() && near(i, j, w, r) && flipped[j];
                assert(mask[j]);
            }
        } else {
            let j = choose|j: int| 0 <= j < mask.len() && near(i, j, w, r) && !mask[j];
            assert(flipped[j]);
        }
    }
    assert(eroded(mask, w, r) =~= dilated(flipped, w, r).map_values(|b: bool| !b));
}

/// Opening never sets a cell, closing never clears one.
pub proof fn law_opening_shrinks_and_closing_fills(mask: Seq<bool>, w: int, r: int, i: int)
    requires
        w > 0,
        0 <= r,
        0 <= i < mask.len(),
    ensures
        opened(mask, w, r)[i] ==> mask[i],
        mask[i] ==> closed_up(mask, w, r)[i],
{
    if opened(mask, w, r)[i] {
        let j = choose|j: int|
            0 <= j < mask.len() && near(i, j, w, r) && eroded(mask, w, r)[j];
        assert(near(j, i, w, r));
    }
    if mask[i] {
        assert forall|j: int| 0 <= j < mask.len() && near(i, j, w, r) implies dilated(
            mask,
            w,
            r,
        )[j] by {
            assert(near(j, i, w, r));
        }
    }
}

/// Opening leaves nothing thin: a cell stays exactly when it lies in a square of the radius, clipped at the
/// border, that is set throughout.
pub proof fn law_opening_keeps_full_squares(mask: Seq<bool>, w: int, r: int, i: int)
    requires
        0 <= i < mask.len(),
    ensures
        opened(mask, w, r)[i] <==> exists|c: int|
            0 <= c < mask.len() && #[trigger] near(i, c, w, r) && forall|j: int|
                0 <= j < mask.len() && near(c, j, w, r) ==> mask[j],
{
    if opened(mask, w, r)[i] {
        let c = choose|c: int| 0 <= c < mask.len() && near(i, c, w, r) && eroded(mask, w, r)[c];
        assert(near(i, c, w, r));
    }
    if exists|c: int|
        0 <= c < mask.len() && #[trigger] near(i, c, w, r) && forall|j: int|
            0 <= j < mask.len() && near(c, j, w, r) ==> mask[j] {
        let c = choose|c: int|
            0 <= c < mask.len() && #[trigger] near(i, c, w, r) && forall|j: int|
                0 <= j < mask.len() && near(c, j, w, r) ==> mask[j];
        assert(eroded(mask, w, r)[c]);
    }
}

/// Closing reaches no further than its radius: a cell that it sets has a cell within the radius that was
/// set.
pub proof fn law_closing_stays_near(mask: Seq<bool>, w: int, r: int, i: int)
    requires
        w > 0,
        0 <= r,
        0 <= i < mask.len(),
        closed_up(mask, w, r)[i],
    ensures
        exists|j: int| 0 <= j < mask.len() && #[trigger] near(i, j, w, r) && mask[j],
{
    assert(near(i, i, w, r));
    assert(dilated(mask, w, r)[i]);
}

/// Closing bridges gaps of up to `2r` cells: between two set cells of one row that are at most `2r + 1`
/// columns apart everything is set, and likewise in a column.
pub proof fn law_closing_bridges_gaps(
    mask: Seq<bool>,
    w: int,
    r: int,
    a: int,
    b: int,
    i: int,
)
    requires
        w > 0,
        0 <= r,
        0 <= a < mask.len(),
        0 <= b < mask.len(),
        0 <= i < mask.len(),
        mask[a],
        mask[b],
        (a / w == i / w == b / w && a % w <= i % w <= b % w && b % w - a % w <= 2 * r + 1) || (a % w
            == i % w == b % w && a / w <= i / w <= b / w && b / w - a / w <= 2 * r + 1),
    ensures
        closed_up(mask, w, r)[i],
{
    assert forall|j: int| 0 <= j < mask.len() && near(i, j, w, r) implies dilated(mask, w, r)[j] by {
        assert(near(j, a, w, r) || near(j, b, w, r));
    }
}

/// Opening or closing again changes nothing.
pub proof fn law_opening_and_closing_settle(mask: Seq<bool>, w: int, r: int)
    requires
        w > 0,
        0 <= r,
    ensures
        opened(opened(mask, w, r), w, r) == opened(mask, w, r),
        closed_up(closed_up(mask, w, r), w, r) == closed_up(mask, w, r),
{
    let once = opened(mask, w, r);
    assert forall|i: int| 0 <= i < mask.len() implies opened(once, w, r)[i] == once[i] by {
        law_opening_shrinks_and_closing_fills(once, w, r, i);
        if once[i] {
            let c = choose|c: int| 0 <= c < mask.len() && near(i, c, w, r) && eroded(mask, w, r)[c];
            assert forall|j: int| 0 <= j < mask.len() && near(c, j, w, r) implies once[j] by {
                assert(near(j, c, w, r));
            }
            assert(eroded(once, w, r)[c]);
        }
    }
    assert(opened(once, w, r) =~= once);
    let full = closed_up(mask, w, r);
    assert forall|i: int| 0 <= i < mask.len() implies closed_up(full, w, r)[i] == full[i] by {
        law_opening_shrinks_and_closing_fills(full, w, r, i);
        if closed_up(full, w, r)[i] {
            assert forall|j: int| 0 <= j < mask.len() && near(i, j, w, r) implies dilated(
                mask,
                w,
                r,
            )[j] by {
                assert(dilated(full, w, r)[j]);
                let c = choose|c: int| 0 <= c < mask.len() && near(j, c, w, r) && full[c];
                assert(near(c, j, w, r));
            }
        }
    }
    assert(closed_up(full, w, r) =~= full);
}

} // verus!
