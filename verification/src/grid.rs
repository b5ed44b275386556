//! Positions on a grid, row by row.

use vstd::arithmetic::div_mod::{lemma_fundamental_div_mod, lemma_fundamental_div_mod_converse};
use vstd::prelude::*;

verus! {

/// A position inside a grid has an index inside it, and the index gives the
/// position back.
pub proof fn lemma_grid_index(w: int, h: int, x: int, y: int)
    requires
        0 <= x < w <= u16::MAX,
        0 <= y < h <= u16::MAX,
    ensures
        0 <= y * w + x < w * h <= u16::MAX * u16::MAX,
        y * w + x <= u32::MAX,
        (y * w + x) % w == x,
        (y * w + x) / w == y,
{
    assert(0 <= y * w + x < w * h <= u16::MAX * u16::MAX) by (nonlinear_arith)
        requires
            0 <= x < w <= u16::MAX,
            0 <= y < h <= u16::MAX,
    ;
    lemma_fundamental_div_mod_converse(y * w + x, w, y, x);
}

/// A grid's cells can be counted in thirty-two bits.
pub proof fn lemma_grid_size(w: int, h: int)
    requires
        0 <= w <= u16::MAX,
        0 <= h <= u16::MAX,
    ensures
        0 <= w * h <= u16::MAX * u16::MAX,
        w * h <= u32::MAX,
{
    assert(0 <= w * h <= u16::MAX * u16::MAX) by (nonlinear_arith)
        requires
            0 <= w <= u16::MAX,
            0 <= h <= u16::MAX,
    ;
}

/// A cell's index lies on the screen it was counted on.
pub proof fn lemma_cell_on_screen(w: int, h: int, idx: int)
    requires
        0 <= w <= u16::MAX,
        0 <= h <= u16::MAX,
        0 <= idx < w * h,
    ensures
        0 < w,
        0 <= idx % w < w,
        0 <= idx / w < h,
        (idx / w) * w + idx % w == idx,
{
    assert(0 < w) by (nonlinear_arith)
        requires
            0 <= w,
            0 <= h,
            0 <= idx < w * h,
    ;
    lemma_fundamental_div_mod(idx, w);
    assert(0 <= idx / w < h) by (nonlinear_arith)
        requires
            0 < w,
            0 <= idx < w * h,
            idx == w * (idx / w) + idx % w,
            0 <= idx % w < w,
    ;
    assert(w * (idx / w) == (idx / w) * w) by (nonlinear_arith);
}

/// `n` copies of a value.
pub(crate) fn filled<T: Copy>(n: usize, v: T) -> (out: Vec<T>)
    ensures
        out@ == Seq::new(n as nat, |i: int| v),
{
    let mut out: Vec<T> = Vec::with_capacity(n);
    let mut i: usize = 0;
    while i < n
        invariant
            i <= n,
            out@ == Seq::new(i as nat, |k: int| v),
        decreases n - i,
    {
        out.push(v);
        i = i + 1;
        assert(out@ =~= Seq::new(i as nat, |k: int| v));
    }
    out
}

} // verus!
