//! Finite sums over the rows and columns of a plane.

use vstd::arithmetic::mul::*;
use vstd::prelude::*;

verus! {

/// Sum of `f(y, x)` for `x` in `x0..x1`.
pub open spec fn line_sum(f: spec_fn(int, int) -> int, y: int, x0: int, x1: int) -> int
    decreases x1 - x0,
{
    if x1 <= x0 {
        0
    } else {
        line_sum(f, y, x0, x1 - 1) + f(y, x1 - 1)
    }
}

/// Sum of `f(y, x)` for `y` in `y0..y1` and `x` in `x0..x1`.
pub open spec fn area_sum(
    f: spec_fn(int, int) -> int,
    y0: int,
    y1: int,
    x0: int,
    x1: int,
) -> int
    decreases y1 - y0,
{
    if y1 <= y0 {
        0
    } else {
        area_sum(f, y0, y1 - 1, x0, x1) + line_sum(f, y1 - 1, x0, x1)
    }
}

/// A sum along a line is bounded by the number of terms times a bound on them.
pub proof fn lemma_line_bound(
    f: spec_fn(int, int) -> int,
    y: int,
    x0: int,
    x1: int,
    low: int,
    high: int,
)
    requires
        x0 <= x1,
        forall|x: int| x0 <= x < x1 ==> low <= #[trigger] f(y, x) <= high,
    ensures
        low * (x1 - x0) <= line_sum(f, y, x0, x1) <= high * (x1 - x0),
    decreases x1 - x0,
{
    if x0 < x1 {
        lemma_line_bound(f, y, x0, x1 - 1, low, high);
        assert(low <= f(y, x1 - 1) <= high);
        lemma_mul_is_distributive_add(low, x1 - 1 - x0, 1);
        lemma_mul_is_distributive_add(high, x1 - 1 - x0, 1);
    } else {
        lemma_mul_basics(low);
        lemma_mul_basics(high);
    }
}

/// A sum over an area is bounded by the number of terms times a bound on them.
pub proof fn lemma_area_sum_bound(
    f: spec_fn(int, int) -> int,
    y0: int,
    y1: int,
    x0: int,
    x1: int,
    low: int,
    high: int,
)
    requires
        y0 <= y1,
        x0 <= x1,
        forall|y: int, x: int|
            y0 <= y < y1 && x0 <= x < x1 ==> low <= #[trigger] f(y, x) <= high,
    ensures
        low * ((x1 - x0) * (y1 - y0)) <= area_sum(f, y0, y1, x0, x1) <= high * ((x1 - x0) * (y1
            - y0)),
    decreases y1 - y0,
{
    let n = x1 - x0;
    if y0 < y1 {
        lemma_area_sum_bound(f, y0, y1 - 1, x0, x1, low, high);
        lemma_line_bound(f, y1 - 1, x0, x1, low, high);
        let m = y1 - 1 - y0;
        assert(n * (m + 1) == n * m + n) by {
            lemma_mul_is_distributive_add(n, m, 1);
        }
        lemma_mul_is_distributive_add(low, n * m, n);
        lemma_mul_is_distributive_add(high, n * m, n);
    } else {
        assert(n * 0 == 0);
        assert(low * 0 == 0);
        assert(high * 0 == 0);
    }
}

/// A partial sum over an area, ending inside a row, is bounded by the number of
/// terms of the whole area times a bound on them, where no term is negative.
pub proof fn lemma_partial_bound(
    f: spec_fn(int, int) -> int,
    y0: int,
    y: int,
    y1: int,
    x0: int,
    x: int,
    x1: int,
    high: int,
)
    requires
        y0 <= y < y1,
        x0 <= x <= x1,
        high >= 0,
        forall|j: int, i: int| y0 <= j < y1 && x0 <= i < x1 ==> 0 <= #[trigger] f(j, i) <= high,
    ensures
        0 <= area_sum(f, y0, y, x0, x1) + line_sum(f, y, x0, x) <= high * ((x1 - x0) * (y1 - y0)),
{
    lemma_area_sum_bound(f, y0, y, x0, x1, 0, high);
    lemma_line_bound(f, y, x0, x, 0, high);
    let n = x1 - x0;
    let m = y - y0;
    let k = y1 - y0;
    assert(0 * (n * m) == 0);
    assert(0 * (x - x0) == 0);
    assert(high * (x - x0) <= high * n) by (nonlinear_arith)
        requires
            high >= 0,
            x - x0 <= n,
    ;
    assert(high * (n * m) + high * n == high * (n * (m + 1))) by (nonlinear_arith);
    assert(high * (n * (m + 1)) <= high * (n * k)) by (nonlinear_arith)
        requires
            high >= 0,
            n >= 0,
            m + 1 <= k,
    ;
}

/// A partial sum over an area, ending inside a row, is bounded in both directions
/// by the number of terms of the whole area times a bound on their magnitude.
pub proof fn lemma_partial_signed_bound(
    f: spec_fn(int, int) -> int,
    y0: int,
    y: int,
    y1: int,
    x0: int,
    x: int,
    x1: int,
    high: int,
)
    requires
        y0 <= y < y1,
        x0 <= x <= x1,
        high >= 0,
        forall|j: int, i: int|
            y0 <= j < y1 && x0 <= i < x1 ==> -high <= #[trigger] f(j, i) <= high,
    ensures
        -(high * ((x1 - x0) * (y1 - y0))) <= area_sum(f, y0, y, x0, x1) + line_sum(f, y, x0, x)
            <= high * ((x1 - x0) * (y1 - y0)),
{
    lemma_area_sum_bound(f, y0, y, x0, x1, -high, high);
    lemma_line_bound(f, y, x0, x, -high, high);
    let n = x1 - x0;
    let m = y - y0;
    let k = y1 - y0;
    assert((-high) * (n * m) == -(high * (n * m))) by (nonlinear_arith);
    assert((-high) * (x - x0) == -(high * (x - x0))) by (nonlinear_arith);
    assert(high * (x - x0) <= high * n) by (nonlinear_arith)
        requires
            high >= 0,
            x - x0 <= n,
    ;
    assert(high * (n * m) + high * n == high * (n * (m + 1))) by (nonlinear_arith);
    assert(high * (n * (m + 1)) <= high * (n * k)) by (nonlinear_arith)
        requires
            high >= 0,
            n >= 0,
            m + 1 <= k,
    ;
}

/// A sum along a line of terms that are not negative grows with the line.
proof fn lemma_line_grows(f: spec_fn(int, int) -> int, y: int, x: int, w: int)
    requires
        0 <= x <= w,
        forall|i: int| 0 <= i < w ==> 0 <= #[trigger] f(y, i),
    ensures
        0 <= line_sum(f, y, 0, x) <= line_sum(f, y, 0, w),
    decreases w,
{
    if x < w {
        lemma_line_grows(f, y, x, w - 1);
    } else if w > 0 {
        lemma_line_grows(f, y, w - 1, w - 1);
    }
}

/// What is summed of an area so far, in terms that are not negative, does not exceed the
/// sum of the area.
pub proof fn lemma_partial_grows(
    f: spec_fn(int, int) -> int,
    y: int,
    h: int,
    x: int,
    w: int,
)
    requires
        0 <= y < h,
        0 <= x <= w,
        forall|j: int, i: int| 0 <= j < h && 0 <= i < w ==> 0 <= #[trigger] f(j, i),
    ensures
        area_sum(f, 0, y, 0, w) + line_sum(f, y, 0, x) <= area_sum(f, 0, h, 0, w),
    decreases h,
{
    if y == h - 1 {
        lemma_line_grows(f, y, x, w);
    } else {
        lemma_partial_grows(f, y, h - 1, x, w);
        lemma_line_grows(f, h - 1, 0, w);
    }
}

/// A sum counts every cell of its area once, and no other: where two signals agree but in one
/// cell, their sums differ by as much as the signals do in it if it lies in the area, and not
/// at all if it does not. The sum of nothing is zero.
pub proof fn a_sum_counts_each_cell_once(
    f: spec_fn(int, int) -> int,
    g: spec_fn(int, int) -> int,
    y0: int,
    y1: int,
    x0: int,
    x1: int,
    y: int,
    x: int,
)
    requires
        forall|j: int, i: int|
            y0 <= j < y1 && x0 <= i < x1 && (j != y || i != x) ==> #[trigger] f(j, i) == g(j, i),
        y0 <= y1,
        x0 <= x1,
    ensures
        area_sum(f, y0, y1, x0, x1) - area_sum(g, y0, y1, x0, x1) == if y0 <= y < y1 && x0 <= x
            < x1 {
            f(y, x) - g(y, x)
        } else {
            0
        },
        area_sum(f, y0, y0, x0, x1) == 0,
    decreases y1 - y0,
{
    if y0 < y1 {
        a_sum_counts_each_cell_once(f, g, y0, y1 - 1, x0, x1, y, x);
        lemma_line_counts(f, g, y1 - 1, x0, x1, y, x);
    }
}

/// A sum along a line counts every cell once.
proof fn lemma_line_counts(
    f: spec_fn(int, int) -> int,
    g: spec_fn(int, int) -> int,
    row: int,
    x0: int,
    x1: int,
    y: int,
    x: int,
)
    requires
        forall|i: int| x0 <= i < x1 && (row != y || i != x) ==> #[trigger] f(row, i) == g(row, i),
        x0 <= x1,
    ensures
        line_sum(f, row, x0, x1) - line_sum(g, row, x0, x1) == if row == y && x0 <= x < x1 {
            f(y, x) - g(y, x)
        } else {
            0
        },
    decreases x1 - x0,
{
    if x0 < x1 {
        lemma_line_counts(f, g, row, x0, x1 - 1, y, x);
    }
}

} // verus!
