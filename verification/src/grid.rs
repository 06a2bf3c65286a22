//! Index arithmetic on packed row-major planes.

use vstd::arithmetic::div_mod::*;
use vstd::arithmetic::mul::*;
use vstd::prelude::*;

verus! {

/// Index of the cell in row `y` and column `x` of a plane of width `w`.
pub open spec fn cell(y: int, x: int, w: int) -> int {
    y * w + x
}

/// A cell of a `w` by `h` plane lies inside its buffer, and its row and column
/// are recovered by division.
pub proof fn lemma_cell(y: int, x: int, w: int, h: int)
    requires
        0 <= y < h,
        0 <= x < w,
    ensures
        0 <= y * w,
        y * w + w <= w * h,
        y * w + x < w * h,
        (y * w + x) / w == y,
        (y * w + x) % w == x,
{
    lemma_mul_nonnegative(y, w);
    lemma_mul_inequality(y + 1, h, w);
    lemma_mul_is_distributive_add_other_way(w, y, 1);
    lemma_mul_is_commutative(w, h);
    lemma_fundamental_div_mod_converse(y * w + x, w, y, x);
}

/// A row of a `w` by `h` plane lies inside its buffer.
pub proof fn lemma_rows(y: int, w: int, h: int)
    requires
        0 <= y < h,
        0 <= w,
    ensures
        0 <= y * w,
        y * w + w <= w * h,
{
    lemma_mul_nonnegative(y, w);
    lemma_mul_inequality(y + 1, h, w);
    lemma_mul_is_distributive_add_other_way(w, y, 1);
    lemma_mul_is_commutative(w, h);
}

/// Every index of a packed plane is a cell of it.
pub proof fn lemma_index(i: int, w: int, h: int)
    requires
        0 <= i < w * h,
        0 <= w,
    ensures
        0 < w,
        0 <= i / w < h,
        0 <= i % w < w,
        i == (i / w) * w + i % w,
{
    if w <= 0 {
        lemma_mul_basics(h);
    }
    lemma_fundamental_div_mod(i, w);
    lemma_mul_is_commutative(w, i / w);
    lemma_div_pos_is_pos(i, w);
    lemma_mod_bound(i, w);
    if i / w >= h {
        lemma_mul_inequality(h, i / w, w);
        lemma_mul_is_commutative(w, h);
    }
}

/// Two cells with the same index are the same cell.
pub proof fn lemma_cell_injective(y1: int, x1: int, y2: int, x2: int, w: int)
    requires
        0 <= x1 < w,
        0 <= x2 < w,
        y1 * w + x1 == y2 * w + x2,
    ensures
        y1 == y2,
        x1 == x2,
{
    lemma_fundamental_div_mod_converse(y1 * w + x1, w, y1, x1);
    lemma_fundamental_div_mod_converse(y2 * w + x2, w, y2, x2);
}

/// The product of two frame dimensions fits in `u64`.
pub proof fn lemma_area_bound(w: u32, h: u32)
    ensures
        0 <= w * h <= u32::MAX * u32::MAX,
{
    lemma_mul_upper_bound(w as int, u32::MAX as int, h as int, u32::MAX as int);
    lemma_mul_nonnegative(w as int, h as int);
}

/// The packed plane `s` of width `w` holds `f(y, x)` in every cell of its first
/// `h` rows.
pub open spec fn plane_is<T>(s: Seq<T>, f: spec_fn(int, int) -> T, w: int, h: int) -> bool {
    forall|y: int, x: int| 0 <= y < h && 0 <= x < w ==> #[trigger] s[cell(y, x, w)] == f(y, x)
}

/// The packed plane `s` of width `w` holds `f` in every cell before row `y`,
/// column `x`.
pub open spec fn plane_upto<T>(
    s: Seq<T>,
    f: spec_fn(int, int) -> T,
    w: int,
    y: int,
    x: int,
) -> bool {
    forall|j: int, i: int|
        ((0 <= j < y && 0 <= i < w) || (j == y && 0 <= i < x && x <= w)) ==> #[trigger] s[cell(
            j,
            i,
            w,
        )] == f(j, i)
}

/// Writing the next cell extends the filled part of a plane by that cell.
pub proof fn lemma_plane_step<T>(
    before: Seq<T>,
    after: Seq<T>,
    f: spec_fn(int, int) -> T,
    w: int,
    y: int,
    x: int,
)
    requires
        plane_upto(before, f, w, y, x),
        0 <= y,
        0 <= x < w,
        y * w + x < before.len(),
        after == before.update(y * w + x, f(y, x)),
    ensures
        plane_upto(after, f, w, y, x + 1),
{
    assert forall|j: int, i: int|
        ((0 <= j < y && 0 <= i < w) || (j == y && 0 <= i < x + 1 && x + 1
            <= w)) implies #[trigger] after[cell(j, i, w)] == f(j, i) by {
        lemma_cell(j, i, w, y + 1);
        lemma_cell(y, x, w, y + 1);
        if cell(j, i, w) == y * w + x {
            lemma_cell_injective(j, i, y, x, w);
        } else {
            assert(cell(j, i, w) < y * w + x) by {
                if j < y {
                    lemma_rows(j, w, y);
                    lemma_mul_is_commutative(w, y);
                }
            }
            assert(before[cell(j, i, w)] == f(j, i));
        }
    }
}

/// A filled row is where the next one starts.
pub proof fn lemma_plane_row<T>(s: Seq<T>, f: spec_fn(int, int) -> T, w: int, y: int)
    requires
        plane_upto(s, f, w, y, w),
        0 <= y,
    ensures
        plane_upto(s, f, w, y + 1, 0),
{
    assert forall|j: int, i: int|
        ((0 <= j < y + 1 && 0 <= i < w) || (j == y + 1 && 0 <= i < 0 && 0
            <= w)) implies #[trigger] s[cell(j, i, w)] == f(j, i) by {
        assert((0 <= j < y && 0 <= i < w) || (j == y && 0 <= i < w && w <= w));
    }
}

/// The packed `w` by `h` plane that holds `f(y, x)` in every cell.
pub open spec fn plane_of<T>(f: spec_fn(int, int) -> T, w: int, h: int) -> Seq<T> {
    Seq::new((w * h) as nat, |i: int| f(i / w, i % w))
}

/// A plane that holds `f` in every cell is the plane of `f`.
pub proof fn lemma_plane_of<T>(s: Seq<T>, f: spec_fn(int, int) -> T, w: int, h: int)
    requires
        plane_is(s, f, w, h),
        s.len() == w * h,
        0 <= w,
        0 <= h,
    ensures
        s == plane_of(f, w, h),
{
    assert forall|i: int| 0 <= i < s.len() implies s[i] == plane_of(f, w, h)[i] by {
        lemma_index(i, w, h);
        assert(s[cell(i / w, i % w, w)] == f(i / w, i % w));
    }
    assert(s =~= plane_of(f, w, h));
}

} // verus!
