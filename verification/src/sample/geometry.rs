//! Row-major cell coordinates and the square neighbourhoods that the mask operations speak of.
use vstd::prelude::*;

verus! {

/// Whether the cells `i` and `j` of a grid `w` wide are at most `r` columns and `r` rows apart.
pub open spec fn near(i: int, j: int, w: int, r: int) -> bool {
    &&& -r <= i % w - j % w <= r
    &&& -r <= i / w - j / w <= r
}

/// The cell in column `x` of row `y` of a `w` by `h` grid, and the way back from it.
pub proof fn lemma_cell(x: int, y: int, w: int, h: int)
    requires
        0 <= x < w,
        0 <= y < h,
    ensures
        0 <= y * w,
        0 <= y * w + x < w * h,
        (y * w + x) % w == x,
        (y * w + x) / w == y,
{
    assert(0 <= y * w) by (nonlinear_arith)
        requires
            0 <= y,
            0 < w,
    ;
    assert(y * w + x < w * h) by (nonlinear_arith)
        requires
            0 <= x < w,
            0 <= y < h,
    ;
    assert(w * y == y * w) by (nonlinear_arith);
    vstd::arithmetic::div_mod::lemma_fundamental_div_mod_converse(y * w + x, w, y, x);
}

/// The column and row of a cell lie inside the grid and lead back to the cell.
pub proof fn lemma_coordinates(i: int, w: int, h: int)
    requires
        0 <= i < w * h,
        0 <= w,
        0 <= h,
    ensures
        0 < w,
        0 < h,
        0 <= i % w < w,
        0 <= i / w < h,
        (i / w) * w + i % w == i,
{
    assert(0 < w && 0 < h) by (nonlinear_arith)
        requires
            0 < w * h,
            0 <= w,
            0 <= h,
    ;
    vstd::arithmetic::div_mod::lemma_fundamental_div_mod(i, w);
    assert(i / w < h) by (nonlinear_arith)
        requires
            i < w * h,
            i == w * (i / w) + i % w,
            0 <= i % w,
            0 < w,
    ;
    assert(0 <= i / w) by (nonlinear_arith)
        requires
            0 <= i,
            0 < w,
    ;
    assert(w * (i / w) == (i / w) * w) by (nonlinear_arith);
}

/// Nearness is a matter of columns and rows: two cells are near each other when they are at most `r`
/// columns and at most `r` rows apart, wherever they lie in the row-major grid.
pub proof fn law_near_cells_are_few_columns_and_rows_apart(
    x: int,
    y: int,
    u: int,
    v: int,
    w: int,
    h: int,
    r: int,
)
    requires
        0 <= x < w,
        0 <= y < h,
        0 <= u < w,
        0 <= v < h,
    ensures
        near(y * w + x, v * w + u, w, r) <==> x - u <= r && u - x <= r && y - v <= r && v - y <= r,
{
    lemma_cell(x, y, w, h);
    lemma_cell(u, v, w, h);
}

/// The larger of two sizes.
pub fn larger(a: usize, b: usize) -> (r: usize)
    ensures
        r == if a >= b {
            a
        } else {
            b
        },
{
    if a >= b {
        a
    } else {
        b
    }
}

} // verus!
