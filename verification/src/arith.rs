//! Facts about positions in a row-major grid.

use vstd::prelude::*;

verus! {

/// A cell inside a grid has an offset below the grid's area.
pub proof fn lemma_offset_bound(x: int, y: int, w: int, h: int)
    requires
        0 <= x < w,
        0 <= y < h,
    ensures
        0 <= y * w + x < w * h,
        0 <= y * w,
{
    assert(0 <= y * w) by (nonlinear_arith)
        requires
            0 <= y,
            0 < w,
    ;
    assert((y + 1) * w <= h * w) by (nonlinear_arith)
        requires
            y + 1 <= h,
            0 < w,
    ;
    assert((y + 1) * w == y * w + w) by (nonlinear_arith);
    assert(h * w == w * h) by (nonlinear_arith);
}

/// An offset below the grid's area belongs to exactly one cell.
pub proof fn lemma_offset_split(i: int, w: int, h: int)
    requires
        0 <= i < w * h,
        0 <= w,
    ensures
        0 < w,
        0 <= i / w < h,
        0 <= i % w < w,
        i == (i / w) * w + i % w,
{
    assert(0 < w) by (nonlinear_arith)
        requires
            0 <= i < w * h,
            0 <= w,
    ;
    vstd::arithmetic::div_mod::lemma_fundamental_div_mod(i, w);
    vstd::arithmetic::div_mod::lemma_mod_bound(i, w);
    vstd::arithmetic::div_mod::lemma_div_pos_is_pos(i, w);
    assert(w * (i / w) == (i / w) * w) by (nonlinear_arith);
    assert(i / w < h) by (nonlinear_arith)
        requires
            0 <= i % w,
            i == (i / w) * w + i % w,
            i < w * h,
            0 < w,
    ;
}

/// The cell that an offset was made from is found again by division.
pub proof fn lemma_offset_join(x: int, y: int, w: int)
    requires
        0 <= x < w,
    ensures
        (y * w + x) / w == y,
        (y * w + x) % w == x,
{
    vstd::arithmetic::div_mod::lemma_fundamental_div_mod_converse(y * w + x, w, y, x);
}

/// A part of a grid has no larger area than the grid.
pub proof fn lemma_area_monotone(a: int, b: int, c: int, d: int)
    by (nonlinear_arith)
    requires
        0 <= a <= c,
        0 <= b <= d,
    ensures
        0 <= a * b <= c * d,
{
}

} // verus!
