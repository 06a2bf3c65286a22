//! Edge maps of a plane: gradient, non-maximum suppression, hysteresis, dilation.

use vstd::prelude::*;

use crate::arch::{edge_direction, edge_magnitude, interior, lemma_gradient_bounds, sobel};
use crate::dilate::{dilate, dilated, dilation_is_square_maximum};
use crate::grid::{
    cell, lemma_cell, lemma_cell_injective, lemma_index, lemma_plane_of, lemma_plane_row,
    lemma_plane_step, lemma_rows, plane_of, plane_upto,
};

verus! {

/// Number of the first `n` samples of `s` that equal `v`.
pub open spec fn count_eq(s: Seq<u8>, n: int, v: int) -> int
    decreases n,
{
    if n <= 0 {
        0
    } else {
        count_eq(s, n - 1, v) + if s[n - 1] == v {
            1int
        } else {
            0
        }
    }
}

/// Number of the first `n` samples of `s` that do not exceed `v`.
pub open spec fn count_le(s: Seq<u8>, n: int, v: int) -> int
    decreases n,
{
    if n <= 0 {
        0
    } else {
        count_le(s, n - 1, v) + if s[n - 1] <= v {
            1int
        } else {
            0
        }
    }
}

/// The smallest value from `v` on that more than half of the samples do not
/// exceed; 255 where there is none.
pub open spec fn first_above_half(s: Seq<u8>, v: int) -> int
    decreases 255 - v,
{
    if v >= 255 {
        255
    } else if count_le(s, s.len() as int, v) > s.len() as int / 2 {
        v
    } else {
        first_above_half(s, v + 1)
    }
}

/// The median of the samples: the smallest value that more than half of them do
/// not exceed.
pub open spec fn median_of(s: Seq<u8>) -> int {
    first_above_half(s, 0)
}

/// Counting up to `v` is counting below `v` and counting `v`.
proof fn lemma_count_step(s: Seq<u8>, n: int, v: int)
    ensures
        count_le(s, n, v) == count_le(s, n, v - 1) + count_eq(s, n, v),
    decreases n,
{
    if n > 0 {
        lemma_count_step(s, n - 1, v);
    }
}

/// Counts lie between zero and the number of samples; no sample is negative, and
/// none exceeds 255.
proof fn lemma_count_bounds(s: Seq<u8>, n: int, v: int)
    requires
        0 <= n <= s.len(),
    ensures
        0 <= count_eq(s, n, v) <= n,
        0 <= count_le(s, n, v) <= n,
        v < 0 ==> count_le(s, n, v) == 0,
        v >= 255 ==> count_le(s, n, v) == n,
    decreases n,
{
    if n > 0 {
        lemma_count_bounds(s, n - 1, v);
    }
}

/// Of a plane that is not empty, more than half of the samples do not exceed the
/// median, and at most half of them lie below it.
pub proof fn median_splits_the_samples(s: Seq<u8>)
    requires
        s.len() > 0,
    ensures
        0 <= median_of(s) <= 255,
        count_le(s, s.len() as int, median_of(s)) > s.len() as int / 2,
        count_le(s, s.len() as int, median_of(s) - 1) <= s.len() as int / 2,
{
    lemma_count_bounds(s, s.len() as int, -1);
    lemma_first_above(s, 0);
}

/// The search for the median from `v` on stops at the first value that more than
/// half of the samples do not exceed.
proof fn lemma_first_above(s: Seq<u8>, v: int)
    requires
        s.len() > 0,
        0 <= v <= 255,
        count_le(s, s.len() as int, v - 1) <= s.len() as int / 2,
    ensures
        v <= first_above_half(s, v) <= 255,
        count_le(s, s.len() as int, first_above_half(s, v)) > s.len() as int / 2,
        count_le(s, s.len() as int, first_above_half(s, v) - 1) <= s.len() as int / 2,
    decreases 255 - v,
{
    lemma_count_bounds(s, s.len() as int, 255);
    if v < 255 && count_le(s, s.len() as int, v) <= s.len() as int / 2 {
        lemma_first_above(s, v + 1);
    }
}

/// The median of the samples, by counting; 255 for an empty slice.
pub fn median_u8(buf: &[u8]) -> (m: u8)
    requires
        buf@.len() <= u32::MAX,
    ensures
        m == median_of(buf@),
{
    let n: usize = buf.len();
    let mut hist: [u32; 256] = [0u32; 256];
    let mut i: usize = 0;
    while i < n
        invariant
            n == buf@.len(),
            n <= u32::MAX,
            i <= n,
            hist@.len() == 256,
            forall|v: int| 0 <= v < 256 ==> #[trigger] hist@[v] == count_eq(buf@, i as int, v),
        decreases n - i,
    {
        let v: usize = buf[i] as usize;
        proof {
            lemma_count_bounds(buf@, i as int, v as int);
        }
        let c: u32 = hist[v];
        hist[v] = c + 1;
        i = i + 1;
    }
    let half: u32 = (n as u32) / 2;
    let mut below: u32 = 0;
    let mut v: usize = 0;
    proof {
        lemma_count_bounds(buf@, n as int, -1);
    }
    while v < 256
        invariant
            n == buf@.len(),
            n <= u32::MAX,
            half == n / 2,
            v <= 256,
            hist@.len() == 256,
            forall|k: int| 0 <= k < 256 ==> #[trigger] hist@[k] == count_eq(buf@, n as int, k),
            below == count_le(buf@, n as int, v - 1),
            v < 256 ==> median_of(buf@) == first_above_half(buf@, v as int),
            v == 256 ==> median_of(buf@) == 255,
        decreases 256 - v,
    {
        proof {
            lemma_count_step(buf@, n as int, v as int);
            lemma_count_bounds(buf@, n as int, v as int);
        }
        let c: u32 = hist[v];
        below = below + c;
        if below > half {
            return v as u8;
        }
        v = v + 1;
    }
    255
}

/// Lower hysteresis threshold for a median: the largest integer below two thirds
/// of it, or zero for a median of zero.
pub open spec fn low_threshold(median: int) -> int {
    if median == 0 {
        0
    } else {
        (2 * median - 1) / 3
    }
}

/// Upper hysteresis threshold for a median: four thirds of it, rounded down and
/// held at 255.
pub open spec fn high_threshold(median: int) -> int {
    if 4 * median / 3 > 255 {
        255
    } else {
        4 * median / 3
    }
}

/// Hysteresis thresholds for a plane with the given median.
pub fn canny_thresholds(median: u8) -> (t: (u8, u8))
    ensures
        t.0 == low_threshold(median as int),
        t.1 == high_threshold(median as int),
        t.0 <= t.1,
{
    let m: u32 = median as u32;
    let low: u32 = if m == 0 {
        0
    } else {
        (2 * m - 1) / 3
    };
    let high: u32 = if 4 * m / 3 > 255 {
        255
    } else {
        4 * m / 3
    };
    (low as u8, high as u8)
}

/// Column step along a gradient direction.
pub open spec fn step_x(d: u8) -> int {
    if d == 2 {
        0
    } else {
        1
    }
}

/// Row step along a gradient direction.
pub open spec fn step_y(d: u8) -> int {
    if d == 0 {
        0
    } else if d == 1 || d == 2 {
        1
    } else {
        -1
    }
}

/// Magnitude of the cells that are a maximum along their gradient, held at 255;
/// zero for all others.
pub open spec fn ridge(mag: Seq<i32>, dir: Seq<u8>, w: int, h: int) -> spec_fn(int, int) -> u8 {
    |y: int, x: int|
        {
            let m = mag[cell(y, x, w)];
            let dx = step_x(dir[cell(y, x, w)]);
            let dy = step_y(dir[cell(y, x, w)]);
            if !interior(y, x, w, h) {
                0u8
            } else if m >= mag[cell(y + dy, x + dx, w)] && m >= mag[cell(y - dy, x - dx, w)] {
                if m > 255 {
                    255u8
                } else {
                    m as u8
                }
            } else {
                0u8
            }
        }
}

/// Non-maximum suppression: keeps the magnitude, held at 255, of the cells that no
/// neighbor along their gradient exceeds, and zeroes the others and the border.
pub fn non_max_suppress(mag: &[i32], dir: &[u8], w: usize, h: usize) -> (out: Vec<u8>)
    requires
        mag@.len() == w * h,
        dir@.len() == w * h,
        forall|i: int| 0 <= i < mag@.len() ==> #[trigger] mag@[i] >= 0,
    ensures
        out@ == plane_of(ridge(mag@, dir@, w as int, h as int), w as int, h as int),
{
    let n: usize = mag.len();
    let mut out: Vec<u8> = vec![0u8; n];
    let ghost f = ridge(mag@, dir@, w as int, h as int);
    let mut y: usize = 0;
    while y < h
        invariant
            mag@.len() == w * h,
            dir@.len() == w * h,
            n == w * h,
            out@.len() == n,
            forall|i: int| 0 <= i < mag@.len() ==> #[trigger] mag@[i] >= 0,
            y <= h,
            f == ridge(mag@, dir@, w as int, h as int),
            plane_upto(out@, f, w as int, y as int, 0),
        decreases h - y,
    {
        proof {
            lemma_rows(y as int, w as int, h as int);
        }
        let base: usize = y * w;
        let mut x: usize = 0;
        while x < w
            invariant
                mag@.len() == w * h,
                dir@.len() == w * h,
                n == w * h,
                out@.len() == n,
                forall|i: int| 0 <= i < mag@.len() ==> #[trigger] mag@[i] >= 0,
                y < h,
                x <= w,
                base == y * w,
                base + w <= n,
                f == ridge(mag@, dir@, w as int, h as int),
                plane_upto(out@, f, w as int, y as int, x as int),
            decreases w - x,
        {
            let mut v: u8 = 0;
            if 1 <= y && y < h - 1 && 1 <= x && x < w - 1 {
                let m: i32 = mag[base + x];
                let d: u8 = dir[base + x];
                let ghost dx = step_x(d);
                let ghost dy = step_y(d);
                proof {
                    lemma_cell(y - 1, x - 1, w as int, h as int);
                    lemma_cell(y + 1, x + 1, w as int, h as int);
                    assert((y - 1) * w == y * w - w) by (nonlinear_arith);
                    assert((y + 1) * w == y * w + w) by (nonlinear_arith);
                }
                let (ahead, behind): (usize, usize) = if d == 0 {
                    (base + x + 1, base + x - 1)
                } else if d == 1 {
                    (base + w + x + 1, base - w + x - 1)
                } else if d == 2 {
                    (base + w + x, base - w + x)
                } else {
                    (base - w + x + 1, base + w + x - 1)
                };
                assert(ahead == cell(y + dy, x + dx, w as int));
                assert(behind == cell(y - dy, x - dx, w as int));
                if m >= mag[ahead] && m >= mag[behind] {
                    v = if m > 255 {
                        255
                    } else {
                        m as u8
                    };
                }
            }
            let ghost before = out@;
            out[base + x] = v;
            proof {
                lemma_plane_step(before, out@, f, w as int, y as int, x as int);
            }
            x = x + 1;
        }
        proof {
            lemma_plane_row(out@, f, w as int, y as int);
        }
        y = y + 1;
    }
    proof {
        lemma_plane_of(out@, f, w as int, h as int);
    }
    out
}

/// Class of a cell before linking: 2 for a strong edge, 1 for a weak one, 0 for
/// none.
pub open spec fn edge_class(ridge: u8, mag: i32, low: int, high: int) -> u8 {
    if ridge == 0 {
        0
    } else if mag >= high {
        2
    } else if mag >= low {
        1
    } else {
        0
    }
}

/// Classes of all cells before linking.
pub open spec fn edge_classes(ridges: Seq<u8>, mag: Seq<i32>, low: int, high: int) -> Seq<u8> {
    Seq::new(ridges.len(), |i: int| edge_class(ridges[i], mag[i], low, high))
}

/// Whether a strong cell touches `(y, x)` from above or from the left.
pub open spec fn strong_before(c: Seq<u8>, w: int, y: int, x: int) -> bool {
    ||| c[cell(y - 1, x - 1, w)] == 2
    ||| c[cell(y - 1, x, w)] == 2
    ||| c[cell(y - 1, x + 1, w)] == 2
    ||| c[cell(y, x - 1, w)] == 2
}

/// Whether a strong cell touches `(y, x)` from below or from the right.
pub open spec fn strong_after(c: Seq<u8>, w: int, y: int, x: int) -> bool {
    ||| c[cell(y + 1, x + 1, w)] == 2
    ||| c[cell(y + 1, x, w)] == 2
    ||| c[cell(y + 1, x - 1, w)] == 2
    ||| c[cell(y, x + 1, w)] == 2
}

/// Makes the weak cell `(y, x)` strong where `touched` holds.
pub open spec fn promote(c: Seq<u8>, w: int, y: int, x: int, touched: bool) -> Seq<u8> {
    if c[cell(y, x, w)] == 1 && touched {
        c.update(cell(y, x, w), 2)
    } else {
        c
    }
}

/// Linking along row `y`, from column 1 up to but not including column `x`.
pub open spec fn forward_row(c: Seq<u8>, w: int, y: int, x: int) -> Seq<u8>
    decreases x,
{
    if x <= 1 {
        c
    } else {
        let prior = forward_row(c, w, y, x - 1);
        promote(prior, w, y, x - 1, strong_before(prior, w, y, x - 1))
    }
}

/// Linking in reading order over the rows from 1 up to but not including `y`.
pub open spec fn forward(c: Seq<u8>, w: int, y: int) -> Seq<u8>
    decreases y,
{
    if y <= 1 {
        c
    } else {
        forward_row(forward(c, w, y - 1), w, y - 1, w - 1)
    }
}

/// Linking along row `y`, from the last inner column down to column `x`.
pub open spec fn backward_row(c: Seq<u8>, w: int, y: int, x: int) -> Seq<u8>
    decreases w - x,
{
    if x >= w - 1 {
        c
    } else {
        let prior = backward_row(c, w, y, x + 1);
        promote(prior, w, y, x, strong_after(prior, w, y, x))
    }
}

/// Linking against reading order over the rows from the last inner one down to
/// `y`.
pub open spec fn backward(c: Seq<u8>, w: int, h: int, y: int) -> Seq<u8>
    decreases h - y,
{
    if y >= h - 1 {
        c
    } else {
        backward_row(backward(c, w, h, y + 1), w, y, 1)
    }
}

/// One sweep: in reading order, then against it.
pub open spec fn sweep(c: Seq<u8>, w: int, h: int) -> Seq<u8> {
    backward(forward(c, w, h - 1), w, h, 1)
}

/// Strong cells become 255, all others zero.
pub open spec fn strong_map(c: Seq<u8>) -> Seq<u8> {
    Seq::new(
        c.len(),
        |i: int|
            if c[i] == 2 {
                255u8
            } else {
                0u8
            },
    )
}

/// Edge map after hysteresis: two linking sweeps over the classes.
pub open spec fn linked_edges(
    ridges: Seq<u8>,
    mag: Seq<i32>,
    w: int,
    h: int,
    low: int,
    high: int,
) -> Seq<u8> {
    strong_map(sweep(sweep(edge_classes(ridges, mag, low, high), w, h), w, h))
}

/// The neighbors of an interior cell are cells of the plane.
proof fn lemma_neighbors(y: int, x: int, w: int, h: int)
    requires
        interior(y, x, w, h),
    ensures
        (y - 1) * w == y * w - w,
        (y + 1) * w == y * w + w,
        0 <= (y - 1) * w,
        (y + 1) * w + w <= w * h,
{
    lemma_rows(y - 1, w, h);
    lemma_rows(y + 1, w, h);
    assert((y - 1) * w == y * w - w) by (nonlinear_arith);
    assert((y + 1) * w == y * w + w) by (nonlinear_arith);
}

/// One linking sweep in reading order.
fn link_forward(buf: &mut Vec<u8>, w: usize, h: usize)
    requires
        old(buf)@.len() == w * h,
        w >= 3,
        h >= 3,
    ensures
        final(buf)@ == forward(old(buf)@, w as int, h - 1),
        final(buf)@.len() == old(buf)@.len(),
{
    let ghost start = buf@;
    let ghost n = w * h;
    let mut y: usize = 1;
    while y < h - 1
        invariant
            n == w * h,
            n == buf.len(),
            start.len() == n,
            w >= 3,
            h >= 3,
            1 <= y <= h - 1,
            buf@ == forward(start, w as int, y as int),
        decreases h - y,
    {
        let ghost row_start = buf@;
        proof {
            lemma_neighbors(y as int, 1, w as int, h as int);
        }
        let mut x: usize = 1;
        let base: usize = y * w;
        while x < w - 1
            invariant
                n == w * h,
                buf@.len() == n,
                n == buf.len(),
                w >= 3,
                h >= 3,
                1 <= y < h - 1,
                1 <= x <= w - 1,
                base == y * w,
                (y - 1) * w == y * w - w,
                0 <= (y - 1) * w,
                base + w + w <= n,
                buf@ == forward_row(row_start, w as int, y as int, x as int),
            decreases w - x,
        {
            let at: usize = base + x;
            if buf[at] == 1 && (buf[at - w - 1] == 2 || buf[at - w] == 2 || buf[at - w + 1] == 2
                || buf[at - 1] == 2) {
                buf[at] = 2;
            }
            x = x + 1;
        }
        y = y + 1;
    }
}

/// One linking sweep against reading order.
fn link_backward(buf: &mut Vec<u8>, w: usize, h: usize)
    requires
        old(buf)@.len() == w * h,
        w >= 3,
        h >= 3,
    ensures
        final(buf)@ == backward(old(buf)@, w as int, h as int, 1),
        final(buf)@.len() == old(buf)@.len(),
{
    let ghost start = buf@;
    let ghost n = w * h;
    let mut y: usize = h - 1;
    while y > 1
        invariant
            n == w * h,
            n == buf.len(),
            start.len() == n,
            w >= 3,
            h >= 3,
            1 <= y <= h - 1,
            buf@ == backward(start, w as int, h as int, y as int),
        decreases y,
    {
        y = y - 1;
        let ghost row_start = buf@;
        proof {
            lemma_neighbors(y as int, 1, w as int, h as int);
        }
        let base: usize = y * w;
        let mut x: usize = w - 1;
        while x > 1
            invariant
                n == w * h,
                buf@.len() == n,
                n == buf.len(),
                w >= 3,
                h >= 3,
                1 <= y < h - 1,
                1 <= x <= w - 1,
                base == y * w,
                (y + 1) * w == y * w + w,
                base + w + w <= n,
                buf@ == backward_row(row_start, w as int, y as int, x as int),
            decreases x,
        {
            x = x - 1;
            let at: usize = base + x;
            if buf[at] == 1 && (buf[at + w + 1] == 2 || buf[at + w] == 2 || buf[at + w - 1] == 2
                || buf[at + 1] == 2) {
                buf[at] = 2;
            }
        }
    }
}

/// Hysteresis thresholding of the ridges of a plane: ridges of magnitude at least
/// `high` are edges, and ridges of magnitude at least `low` become edges where two
/// linking sweeps connect them to one.
pub fn hysteresis(
    ridges: &[u8],
    mag: &[i32],
    w: usize,
    h: usize,
    low: u8,
    high: u8,
) -> (out: Vec<u8>)
    requires
        ridges@.len() == w * h,
        mag@.len() == w * h,
        w >= 3,
        h >= 3,
    ensures
        out@ == linked_edges(ridges@, mag@, w as int, h as int, low as int, high as int),
        out@.len() == ridges@.len(),
{
    let n: usize = ridges.len();
    let ghost classes = edge_classes(ridges@, mag@, low as int, high as int);
    let mut buf: Vec<u8> = vec![0u8; n];
    let mut i: usize = 0;
    while i < n
        invariant
            n == ridges@.len(),
            n == mag@.len(),
            buf@.len() == n,
            i <= n,
            classes == edge_classes(ridges@, mag@, low as int, high as int),
            forall|j: int| 0 <= j < i ==> buf@[j] == #[trigger] classes[j],
        decreases n - i,
    {
        buf[i] = if ridges[i] == 0 {
            0
        } else if mag[i] >= high as i32 {
            2
        } else if mag[i] >= low as i32 {
            1
        } else {
            0
        };
        i = i + 1;
    }
    assert(buf@ =~= classes);
    link_forward(&mut buf, w, h);
    link_backward(&mut buf, w, h);
    link_forward(&mut buf, w, h);
    link_backward(&mut buf, w, h);
    let ghost swept = buf@;
    let mut i: usize = 0;
    while i < n
        invariant
            n == swept.len(),
            buf@.len() == n,
            i <= n,
            forall|j: int| 0 <= j < i ==> buf@[j] == #[trigger] strong_map(swept)[j],
            forall|j: int| i <= j < n ==> buf@[j] == swept[j],
        decreases n - i,
    {
        buf[i] = if buf[i] == 2 {
            255
        } else {
            0
        };
        i = i + 1;
    }
    assert(buf@ =~= strong_map(swept));
    buf
}

/// `b` differs from `a` only in weak cells that became strong.
spec fn grows(a: Seq<u8>, b: Seq<u8>) -> bool {
    &&& a.len() == b.len()
    &&& forall|i: int| 0 <= i < a.len() ==> #[trigger] b[i] == a[i] || (a[i] == 1 && b[i] == 2)
}

/// Two different cells touch, side by side or at a corner.
pub open spec fn touch(y1: int, x1: int, y2: int, x2: int) -> bool {
    -1 <= y1 - y2 <= 1 && -1 <= x1 - x2 <= 1 && (y1 != y2 || x1 != x2)
}

/// A path over cells of the plane that leads over touching weak cells to a strong
/// one.
pub open spec fn chain(c: Seq<u8>, w: int, h: int, path: Seq<(int, int)>) -> bool {
    &&& path.len() >= 1
    &&& forall|k: int|
        0 <= k < path.len() ==> 0 <= (#[trigger] path[k]).0 < h && 0 <= path[k].1 < w
    &&& forall|k: int|
        0 <= k < path.len() - 1 ==> c[cell((#[trigger] path[k]).0, path[k].1, w)] == 1 && touch(
            path[k].0,
            path[k].1,
            path[k + 1].0,
            path[k + 1].1,
        )
    &&& c[cell(path.last().0, path.last().1, w)] == 2
}

/// Some chain leads from `(y, x)` to a strong cell.
pub open spec fn chained(c: Seq<u8>, w: int, h: int, y: int, x: int) -> bool {
    exists|path: Seq<(int, int)>| #[trigger] chain(c, w, h, path) && path[0] == (y, x)
}

/// Every strong cell of `b` is chained to a strong cell of `c`, and `b` grew from
/// `c`.
spec fn grown_by_chains(c: Seq<u8>, b: Seq<u8>, w: int, h: int) -> bool {
    &&& grows(c, b)
    &&& forall|y: int, x: int|
        0 <= y < h && 0 <= x < w && #[trigger] b[cell(y, x, w)] == 2 ==> chained(
            c,
            w,
            h,
            y,
            x,
        )
}

/// Promoting a touched cell keeps every strong cell chained.
proof fn lemma_promote(c: Seq<u8>, b: Seq<u8>, w: int, h: int, y: int, x: int, after: bool)
    requires
        grown_by_chains(c, b, w, h),
        c.len() == w * h,
        interior(y, x, w, h),
    ensures
        grown_by_chains(
            c,
            promote(
                b,
                w,
                y,
                x,
                if after {
                    strong_after(b, w, y, x)
                } else {
                    strong_before(b, w, y, x)
                },
            ),
            w,
            h,
        ),
{
    let touched = if after {
        strong_after(b, w, y, x)
    } else {
        strong_before(b, w, y, x)
    };
    let p = promote(b, w, y, x, touched);
    lemma_cell(y, x, w, h);
    if b[cell(y, x, w)] == 1 && touched {
        assert(chained(c, w, h, y, x)) by {
            let (j, i) = if after {
                if b[cell(y + 1, x + 1, w)] == 2 {
                    (y + 1, x + 1)
                } else if b[cell(y + 1, x, w)] == 2 {
                    (y + 1, x)
                } else if b[cell(y + 1, x - 1, w)] == 2 {
                    (y + 1, x - 1)
                } else {
                    (y, x + 1)
                }
            } else {
                if b[cell(y - 1, x - 1, w)] == 2 {
                    (y - 1, x - 1)
                } else if b[cell(y - 1, x, w)] == 2 {
                    (y - 1, x)
                } else if b[cell(y - 1, x + 1, w)] == 2 {
                    (y - 1, x + 1)
                } else {
                    (y, x - 1)
                }
            };
            assert(b[cell(j, i, w)] == 2);
            let tail = choose|path: Seq<(int, int)>| #[trigger]
                chain(c, w, h, path) && path[0] == (j, i);
            let path = seq![(y, x)] + tail;
            assert(b[cell(y, x, w)] == c[cell(y, x, w)]);
            assert forall|k: int| 0 <= k < path.len() - 1 implies c[cell(
                (#[trigger] path[k]).0,
                path[k].1,
                w,
            )] == 1 && touch(path[k].0, path[k].1, path[k + 1].0, path[k + 1].1) by {
                if k > 0 {
                    assert(path[k] == tail[k - 1]);
                    assert(path[k + 1] == tail[k]);
                }
            }
            assert(path.last() == tail.last());
            assert(chain(c, w, h, path));
        }
        assert forall|v: int, u: int|
            0 <= v < h && 0 <= u < w && #[trigger] p[cell(v, u, w)] == 2 implies chained(
            c,
            w,
            h,
            v,
            u,
        ) by {
            if cell(v, u, w) == cell(y, x, w) {
                lemma_cell_injective(v, u, y, x, w);
            } else {
                lemma_cell(v, u, w, h);
                assert(b[cell(v, u, w)] == 2);
            }
        }
    }
}

/// Linking in reading order keeps every strong cell chained.
proof fn lemma_forward(c: Seq<u8>, b: Seq<u8>, w: int, h: int, y: int)
    requires
        grown_by_chains(c, b, w, h),
        c.len() == w * h,
        w >= 3,
        y <= h - 1,
    ensures
        grown_by_chains(c, forward(b, w, y), w, h),
    decreases y,
{
    if y > 1 {
        lemma_forward(c, b, w, h, y - 1);
        lemma_forward_row(c, forward(b, w, y - 1), w, h, y - 1, w - 1);
    }
}

/// Linking along a row keeps every strong cell chained.
proof fn lemma_forward_row(c: Seq<u8>, b: Seq<u8>, w: int, h: int, y: int, x: int)
    requires
        grown_by_chains(c, b, w, h),
        c.len() == w * h,
        1 <= y < h - 1,
        x <= w - 1,
    ensures
        grown_by_chains(c, forward_row(b, w, y, x), w, h),
    decreases x,
{
    if x > 1 {
        lemma_forward_row(c, b, w, h, y, x - 1);
        lemma_promote(c, forward_row(b, w, y, x - 1), w, h, y, x - 1, false);
    }
}

/// Linking against reading order keeps every strong cell chained.
proof fn lemma_backward(c: Seq<u8>, b: Seq<u8>, w: int, h: int, y: int)
    requires
        grown_by_chains(c, b, w, h),
        c.len() == w * h,
        w >= 3,
        1 <= y,
    ensures
        grown_by_chains(c, backward(b, w, h, y), w, h),
    decreases h - y,
{
    if y < h - 1 {
        lemma_backward(c, b, w, h, y + 1);
        lemma_backward_row(c, backward(b, w, h, y + 1), w, h, y, 1);
    }
}

/// Linking back along a row keeps every strong cell chained.
proof fn lemma_backward_row(c: Seq<u8>, b: Seq<u8>, w: int, h: int, y: int, x: int)
    requires
        grown_by_chains(c, b, w, h),
        c.len() == w * h,
        1 <= y < h - 1,
        1 <= x,
    ensures
        grown_by_chains(c, backward_row(b, w, y, x), w, h),
    decreases w - x,
{
    if x < w - 1 {
        lemma_backward_row(c, b, w, h, y, x + 1);
        lemma_promote(c, backward_row(b, w, y, x + 1), w, h, y, x, true);
    }
}

/// Two sweeps keep every strong cell chained.
proof fn lemma_sweeps(c: Seq<u8>, w: int, h: int)
    requires
        c.len() == w * h,
        w >= 3,
        h >= 3,
    ensures
        grown_by_chains(c, sweep(c, w, h), w, h),
        grown_by_chains(c, sweep(sweep(c, w, h), w, h), w, h),
{
    assert(grown_by_chains(c, c, w, h)) by {
        assert forall|y: int, x: int|
            0 <= y < h && 0 <= x < w && #[trigger] c[cell(y, x, w)] == 2 implies chained(
            c,
            w,
            h,
            y,
            x,
        ) by {
            assert(chain(c, w, h, seq![(y, x)]));
        }
    }
    lemma_forward(c, c, w, h, h - 1);
    lemma_backward(c, forward(c, w, h - 1), w, h, 1);
    let once = sweep(c, w, h);
    lemma_forward(c, once, w, h, h - 1);
    lemma_backward(c, forward(once, w, h - 1), w, h, 1);
}

/// After hysteresis a cell is an edge only where a chain of touching weak cells
/// leads from it to a strong one. In particular no cell below the lower threshold,
/// and none off a ridge, is an edge.
pub proof fn edges_are_chained_to_strong_ridges(
    ridges: Seq<u8>,
    mag: Seq<i32>,
    w: int,
    h: int,
    low: int,
    high: int,
    y: int,
    x: int,
)
    requires
        ridges.len() == w * h,
        mag.len() == w * h,
        w >= 3,
        h >= 3,
        0 <= y < h,
        0 <= x < w,
        linked_edges(ridges, mag, w, h, low, high)[cell(y, x, w)] != 0,
    ensures
        chained(edge_classes(ridges, mag, low, high), w, h, y, x),
        edge_class(ridges[cell(y, x, w)], mag[cell(y, x, w)], low, high) != 0,
{
    let c = edge_classes(ridges, mag, low, high);
    lemma_cell(y, x, w, h);
    lemma_sweeps(c, w, h);
    let b = sweep(sweep(c, w, h), w, h);
    assert(b[cell(y, x, w)] == 2);
}

/// Every strong ridge is an edge after hysteresis.
pub proof fn strong_ridges_are_edges(
    ridges: Seq<u8>,
    mag: Seq<i32>,
    w: int,
    h: int,
    low: int,
    high: int,
    i: int,
)
    requires
        ridges.len() == w * h,
        mag.len() == w * h,
        w >= 3,
        h >= 3,
        0 <= i < w * h,
        ridges[i] != 0,
        mag[i] >= high,
    ensures
        linked_edges(ridges, mag, w, h, low, high)[i] == 255,
{
    let c = edge_classes(ridges, mag, low, high);
    lemma_sweeps(c, w, h);
    let b = sweep(sweep(c, w, h), w, h);
    assert(b[i] == c[i] || (c[i] == 1 && b[i] == 2));
}

/// Linking further along a row only makes weak cells strong.
proof fn lemma_forward_row_grows(b: Seq<u8>, w: int, h: int, y: int, x: int, x2: int)
    requires
        b.len() == w * h,
        1 <= y < h - 1,
        x <= x2 <= w - 1,
    ensures
        grows(forward_row(b, w, y, x), forward_row(b, w, y, x2)),
        forward_row(b, w, y, x2).len() == b.len(),
    decreases x2,
{
    if x2 > 1 {
        lemma_cell(y, x2 - 1, w, h);
        lemma_forward_row_grows(
            b,
            w,
            h,
            y,
            if x < x2 {
                x
            } else {
                x - 1
            },
            x2 - 1,
        );
    }
}

/// Linking further rows only makes weak cells strong.
proof fn lemma_forward_grows(b: Seq<u8>, w: int, h: int, y: int, y2: int)
    requires
        b.len() == w * h,
        w >= 3,
        y <= y2 <= h - 1,
    ensures
        grows(forward(b, w, y), forward(b, w, y2)),
        forward(b, w, y2).len() == b.len(),
    decreases y2,
{
    if y2 > 1 {
        lemma_forward_grows(
            b,
            w,
            h,
            if y < y2 {
                y
            } else {
                y - 1
            },
            y2 - 1,
        );
        let prior = forward(b, w, y2 - 1);
        lemma_forward_row_grows(prior, w, h, y2 - 1, 1, w - 1);
        assert(forward_row(prior, w, y2 - 1, 1) == prior);
    }
}

/// Linking further back along a row only makes weak cells strong.
proof fn lemma_backward_row_grows(b: Seq<u8>, w: int, h: int, y: int, x: int, x2: int)
    requires
        b.len() == w * h,
        1 <= y < h - 1,
        1 <= x2 <= x,
    ensures
        grows(backward_row(b, w, y, x), backward_row(b, w, y, x2)),
        backward_row(b, w, y, x2).len() == b.len(),
    decreases w - x2,
{
    if x2 < w - 1 {
        lemma_cell(y, x2, w, h);
        lemma_backward_row_grows(
            b,
            w,
            h,
            y,
            if x2 < x {
                x
            } else {
                x + 1
            },
            x2 + 1,
        );
    }
}

/// Linking further rows back only makes weak cells strong.
proof fn lemma_backward_grows(b: Seq<u8>, w: int, h: int, y: int, y2: int)
    requires
        b.len() == w * h,
        w >= 3,
        1 <= y2 <= y,
    ensures
        grows(backward(b, w, h, y), backward(b, w, h, y2)),
        backward(b, w, h, y2).len() == b.len(),
    decreases h - y2,
{
    if y2 < h - 1 {
        lemma_backward_grows(
            b,
            w,
            h,
            if y2 < y {
                y
            } else {
                y + 1
            },
            y2 + 1,
        );
        let prior = backward(b, w, h, y2 + 1);
        lemma_backward_row_grows(prior, w, h, y2, w - 1, 1);
        assert(backward_row(prior, w, y2, w - 1) == prior);
    }
}

/// A weak inner cell with a strong cell above or to the left is strong after
/// linking in reading order.
proof fn lemma_forward_links(b: Seq<u8>, w: int, h: int, y: int, x: int)
    requires
        b.len() == w * h,
        interior(y, x, w, h),
        b[cell(y, x, w)] == 1 || b[cell(y, x, w)] == 2,
        strong_before(b, w, y, x),
    ensures
        forward(b, w, h - 1)[cell(y, x, w)] == 2,
{
    lemma_cell(y, x, w, h);
    lemma_neighbors(y, x, w, h);
    lemma_forward_grows(b, w, h, 1, y);
    assert(forward(b, w, 1) == b);
    let start = forward(b, w, y);
    lemma_forward_row_grows(start, w, h, y, 1, x);
    assert(forward_row(start, w, y, 1) == start);
    let prior = forward_row(start, w, y, x);
    assert(strong_before(prior, w, y, x));
    assert(forward_row(start, w, y, x + 1)[cell(y, x, w)] == 2);
    lemma_forward_row_grows(start, w, h, y, x + 1, w - 1);
    assert(forward(b, w, y + 1)[cell(y, x, w)] == 2);
    lemma_forward_grows(b, w, h, y + 1, h - 1);
}

/// A weak inner cell with a strong cell below or to the right is strong after
/// linking against reading order.
proof fn lemma_backward_links(b: Seq<u8>, w: int, h: int, y: int, x: int)
    requires
        b.len() == w * h,
        interior(y, x, w, h),
        b[cell(y, x, w)] == 1 || b[cell(y, x, w)] == 2,
        strong_after(b, w, y, x),
    ensures
        backward(b, w, h, 1)[cell(y, x, w)] == 2,
{
    lemma_cell(y, x, w, h);
    lemma_neighbors(y, x, w, h);
    lemma_backward_grows(b, w, h, h - 1, y + 1);
    assert(backward(b, w, h, h - 1) == b);
    let start = backward(b, w, h, y + 1);
    lemma_backward_row_grows(start, w, h, y, w - 1, x + 1);
    assert(backward_row(start, w, y, w - 1) == start);
    let prior = backward_row(start, w, y, x + 1);
    assert(strong_after(prior, w, y, x));
    assert(backward_row(start, w, y, x)[cell(y, x, w)] == 2);
    lemma_backward_row_grows(start, w, h, y, x, 1);
    assert(backward(b, w, h, y)[cell(y, x, w)] == 2);
    lemma_backward_grows(b, w, h, y, 1);
}

/// A weak inner ridge that touches a strong ridge is an edge after hysteresis.
pub proof fn weak_ridges_at_strong_ones_are_edges(
    ridges: Seq<u8>,
    mag: Seq<i32>,
    w: int,
    h: int,
    low: int,
    high: int,
    y: int,
    x: int,
    j: int,
    i: int,
)
    requires
        ridges.len() == w * h,
        mag.len() == w * h,
        interior(y, x, w, h),
        edge_class(ridges[cell(y, x, w)], mag[cell(y, x, w)], low, high) == 1,
        touch(y, x, j, i),
        edge_class(ridges[cell(j, i, w)], mag[cell(j, i, w)], low, high) == 2,
    ensures
        linked_edges(ridges, mag, w, h, low, high)[cell(y, x, w)] == 255,
{
    let c = edge_classes(ridges, mag, low, high);
    lemma_cell(y, x, w, h);
    lemma_cell(j, i, w, h);
    let mid = forward(c, w, h - 1);
    lemma_forward_grows(c, w, h, 1, h - 1);
    assert(forward(c, w, 1) == c);
    if j < y || (j == y && i < x) {
        assert(strong_before(c, w, y, x));
        lemma_forward_links(c, w, h, y, x);
        lemma_backward_grows(mid, w, h, h - 1, 1);
        assert(backward(mid, w, h, h - 1) == mid);
    } else {
        assert(strong_after(mid, w, y, x));
        lemma_backward_links(mid, w, h, y, x);
    }
    let once = sweep(c, w, h);
    assert(once[cell(y, x, w)] == 2);
    lemma_backward_grows(mid, w, h, h - 1, 1);
    lemma_forward_grows(once, w, h, 1, h - 1);
    assert(forward(once, w, 1) == once);
    let mid2 = forward(once, w, h - 1);
    lemma_backward_grows(mid2, w, h, h - 1, 1);
    assert(backward(mid2, w, h, h - 1) == mid2);
}

/// The edge map of a plane: Sobel gradient, non-maximum suppression, hysteresis
/// with thresholds from the median, and dilation by a square of side `k`. A plane
/// without interior has no edges.
pub open spec fn edge_map(v: Seq<u8>, w: int, h: int, k: int) -> Seq<u8> {
    if w < 3 || h < 3 {
        Seq::new((w * h) as nat, |i: int| 0u8)
    } else {
        let mag = plane_of(edge_magnitude(v, w, h), w, h);
        let dir = plane_of(edge_direction(v, w, h), w, h);
        let ridges = plane_of(ridge(mag, dir, w, h), w, h);
        let m = median_of(v);
        dilated(
            linked_edges(ridges, mag, w, h, low_threshold(m), high_threshold(m)),
            w,
            h,
            k,
        )
    }
}

/// Computes the edge map of a packed `w` by `h` plane, dilated by a square of odd
/// side `k`.
pub fn compute_edges(v: &[u8], w: usize, h: usize, k: usize, use_simd: bool) -> (out: Vec<u8>)
    requires
        v@.len() == w * h,
        v@.len() <= u32::MAX,
        k % 2 == 1,
    ensures
        out@ == edge_map(v@, w as int, h as int, k as int),
{
    let n: usize = v.len();
    if w < 3 || h < 3 {
        let out: Vec<u8> = vec![0u8; n];
        assert(out@ =~= edge_map(v@, w as int, h as int, k as int));
        return out;
    }
    let (low, high) = canny_thresholds(median_u8(v));
    let mut mag: Vec<i32> = vec![0i32; n];
    let mut dir: Vec<u8> = vec![0u8; n];
    sobel(v, mag.as_mut_slice(), dir.as_mut_slice(), w, h, use_simd);
    proof {
        lemma_plane_of(mag@, edge_magnitude(v@, w as int, h as int), w as int, h as int);
        lemma_plane_of(dir@, edge_direction(v@, w as int, h as int), w as int, h as int);
        assert forall|i: int| 0 <= i < mag@.len() implies #[trigger] mag@[i] >= 0 by {
            lemma_index(i, w as int, h as int);
        }
    }
    let ridges: Vec<u8> = non_max_suppress(mag.as_slice(), dir.as_slice(), w, h);
    let linked: Vec<u8> = hysteresis(ridges.as_slice(), mag.as_slice(), w, h, low, high);
    dilate(linked.as_slice(), w, h, k)
}

/// The magnitudes, ridges and thresholds of a plane, as its edge map uses them.
pub open spec fn hysteresis_of(v: Seq<u8>, w: int, h: int) -> Seq<u8> {
    let mag = plane_of(edge_magnitude(v, w, h), w, h);
    let dir = plane_of(edge_direction(v, w, h), w, h);
    linked_edges(
        plane_of(ridge(mag, dir, w, h), w, h),
        mag,
        w,
        h,
        low_threshold(median_of(v)),
        high_threshold(median_of(v)),
    )
}

/// The hysteresis of a plane marks every cell with 255 or zero.
proof fn lemma_marks(v: Seq<u8>, w: int, h: int)
    requires
        v.len() == w * h,
        w >= 3,
        h >= 3,
    ensures
        hysteresis_of(v, w, h).len() == w * h,
        forall|i: int|
            0 <= i < w * h ==> #[trigger] hysteresis_of(v, w, h)[i] == 0 || hysteresis_of(
                v,
                w,
                h,
            )[i] == 255,
{
    let mag = plane_of(edge_magnitude(v, w, h), w, h);
    let dir = plane_of(edge_direction(v, w, h), w, h);
    let ridges = plane_of(ridge(mag, dir, w, h), w, h);
    assert(0 <= w * h) by (nonlinear_arith)
        requires
            w >= 3,
            h >= 3,
    ;
    let c = edge_classes(ridges, mag, low_threshold(median_of(v)), high_threshold(median_of(v)));
    lemma_sweeps(c, w, h);
}

/// The edge map spreads the edges by its kernel: a cell is set, to 255, just where an edge
/// of the hysteresis lies within half the side of the kernel of it, in rows and in columns.
/// All other cells are zero.
pub proof fn edges_are_spread_by_the_kernel(v: Seq<u8>, w: int, h: int, k: int, y: int, x: int)
    requires
        v.len() == w * h,
        w >= 3,
        h >= 3,
        k >= 1,
        k % 2 == 1,
        0 <= y < h,
        0 <= x < w,
    ensures
        edge_map(v, w, h, k).len() == w * h,
        edge_map(v, w, h, k)[cell(y, x, w)] == 255 || edge_map(v, w, h, k)[cell(y, x, w)] == 0,
        edge_map(v, w, h, k)[cell(y, x, w)] == 255 <==> exists|j: int, i: int|
            0 <= j < h && 0 <= i < w && -(k / 2) <= y - j <= k / 2 && -(k / 2) <= x - i <= k / 2
                && #[trigger] hysteresis_of(v, w, h)[cell(j, i, w)] == 255,
{
    lemma_marks(v, w, h);
    let linked = hysteresis_of(v, w, h);
    lemma_cell(y, x, w, h);
    dilation_is_square_maximum(linked, w, h, k, y, x);
    let at = edge_map(v, w, h, k)[cell(y, x, w)];
    assert forall|j: int, i: int|
        0 <= j < h && 0 <= i < w && -(k / 2) <= y - j <= k / 2 && -(k / 2) <= x - i <= k / 2
            && #[trigger] linked[cell(j, i, w)] == 255 implies at == 255 by {
        lemma_cell(j, i, w, h);
    }
    let (j, i) = choose|j: int, i: int|
        0 <= j < h && 0 <= i < w && -(k / 2) <= y - j <= k / 2 && -(k / 2) <= x - i <= k / 2
            && #[trigger] linked[cell(j, i, w)] == at;
    lemma_cell(j, i, w, h);
    assert(linked[cell(j, i, w)] == 0 || linked[cell(j, i, w)] == 255);
}

/// Every cell within half the side of the kernel of a strong ridge is set, where a ridge is
/// a cell that no neighbor exceeds in magnitude, and strong is a magnitude of at least four
/// thirds of the median, or of 255.
pub proof fn cells_at_strong_ridges_are_set(
    v: Seq<u8>,
    w: int,
    h: int,
    k: int,
    y: int,
    x: int,
    j: int,
    i: int,
)
    requires
        v.len() == w * h,
        k >= 1,
        k % 2 == 1,
        0 <= y < h,
        0 <= x < w,
        interior(j, i, w, h),
        -(k / 2) <= y - j <= k / 2,
        -(k / 2) <= x - i <= k / 2,
        edge_magnitude(v, w, h)(j, i) > 0,
        3 * edge_magnitude(v, w, h)(j, i) >= 4 * median_of(v) || edge_magnitude(v, w, h)(j, i)
            >= 255,
        forall|a: int, b: int|
            touch(a, b, j, i) ==> #[trigger] edge_magnitude(v, w, h)(a, b) <= edge_magnitude(
                v,
                w,
                h,
            )(j, i),
    ensures
        edge_map(v, w, h, k)[cell(y, x, w)] == 255,
{
    let f = edge_magnitude(v, w, h);
    let mag = plane_of(f, w, h);
    let dir = plane_of(edge_direction(v, w, h), w, h);
    let ridges = plane_of(ridge(mag, dir, w, h), w, h);
    a_local_maximum_is_a_ridge(v, w, h, j, i);
    lemma_cell(j, i, w, h);
    lemma_cell_of(f, w, h, j, i);
    assert(ridges.len() == w * h && mag.len() == w * h);
    strong_ridges_are_edges(
        ridges,
        mag,
        w,
        h,
        low_threshold(median_of(v)),
        high_threshold(median_of(v)),
        cell(j, i, w),
    );
    assert(hysteresis_of(v, w, h)[cell(j, i, w)] == 255);
    edges_are_spread_by_the_kernel(v, w, h, k, y, x);
}

/// A plane holds in each cell what it is made of.
proof fn lemma_cell_of<T>(f: spec_fn(int, int) -> T, w: int, h: int, y: int, x: int)
    requires
        0 <= y < h,
        0 <= x < w,
    ensures
        plane_of(f, w, h).len() == w * h,
        plane_of(f, w, h)[cell(y, x, w)] == f(y, x),
{
    lemma_cell(y, x, w, h);
}

/// Non-maximum suppression keeps a cell that no neighbor exceeds, whatever the direction of
/// its gradient, with its magnitude held at 255.
pub proof fn a_local_maximum_is_a_ridge(v: Seq<u8>, w: int, h: int, y: int, x: int)
    requires
        v.len() == w * h,
        interior(y, x, w, h),
        edge_magnitude(v, w, h)(y, x) > 0,
        forall|a: int, b: int|
            touch(a, b, y, x) ==> #[trigger] edge_magnitude(v, w, h)(a, b) <= edge_magnitude(
                v,
                w,
                h,
            )(y, x),
    ensures
        ({
            let mag = plane_of(edge_magnitude(v, w, h), w, h);
            let dir = plane_of(edge_direction(v, w, h), w, h);
            let r = plane_of(ridge(mag, dir, w, h), w, h)[cell(y, x, w)];
            let m = edge_magnitude(v, w, h)(y, x);
            r == if m > 255 {
                255
            } else {
                m as int
            }
        }),
{
    let f = edge_magnitude(v, w, h);
    let g = edge_direction(v, w, h);
    let mag = plane_of(f, w, h);
    let dir = plane_of(g, w, h);
    lemma_cell_of(f, w, h, y, x);
    lemma_cell_of(g, w, h, y, x);
    let dx = step_x(g(y, x));
    let dy = step_y(g(y, x));
    lemma_cell_of(f, w, h, y + dy, x + dx);
    lemma_cell_of(f, w, h, y - dy, x - dx);
    assert(touch(y + dy, x + dx, y, x));
    assert(touch(y - dy, x - dx, y, x));
    assert(f(y + dy, x + dx) <= f(y, x));
    assert(f(y - dy, x - dx) <= f(y, x));
    lemma_cell_of(ridge(mag, dir, w, h), w, h, y, x);
}

/// Non-maximum suppression keeps an inner cell, with its magnitude held at 255, just where
/// neither of the two neighbors along its gradient exceeds it: left and right for a
/// horizontal one, above and below for a vertical one, and the two corners on the diagonal
/// otherwise.
pub proof fn ridges_are_maxima_along_the_gradient(v: Seq<u8>, w: int, h: int, y: int, x: int)
    requires
        v.len() == w * h,
        0 <= y < h,
        0 <= x < w,
    ensures
        ({
            let f = edge_magnitude(v, w, h);
            let d = edge_direction(v, w, h)(y, x);
            let mag = plane_of(f, w, h);
            let dir = plane_of(edge_direction(v, w, h), w, h);
            let r = plane_of(ridge(mag, dir, w, h), w, h)[cell(y, x, w)];
            let m = f(y, x);
            let (a, b) = if d == 0 {
                (f(y, x - 1), f(y, x + 1))
            } else if d == 2 {
                (f(y - 1, x), f(y + 1, x))
            } else if d == 1 {
                (f(y - 1, x - 1), f(y + 1, x + 1))
            } else {
                (f(y - 1, x + 1), f(y + 1, x - 1))
            };
            r == if !interior(y, x, w, h) || a > m || b > m {
                0
            } else if m > 255 {
                255
            } else {
                m as int
            }
        }),
{
    let f = edge_magnitude(v, w, h);
    let g = edge_direction(v, w, h);
    let mag = plane_of(f, w, h);
    let dir = plane_of(g, w, h);
    lemma_cell_of(f, w, h, y, x);
    lemma_cell_of(g, w, h, y, x);
    lemma_cell_of(ridge(mag, dir, w, h), w, h, y, x);
    if interior(y, x, w, h) {
        let dx = step_x(g(y, x));
        let dy = step_y(g(y, x));
        lemma_cell_of(f, w, h, y + dy, x + dx);
        lemma_cell_of(f, w, h, y - dy, x - dx);
        lemma_gradient_bounds(v, y, x, w);
    }
}

/// The thresholds frame the median: the upper one is four thirds of it, rounded down and
/// held at 255, and the lower one the largest integer below two thirds of it. The lower one
/// never exceeds the upper one.
pub proof fn thresholds_frame_the_median(m: int)
    requires
        0 <= m <= 255,
    ensures
        high_threshold(m) == 255 || 3 * high_threshold(m) <= 4 * m < 3 * (high_threshold(m) + 1),
        high_threshold(m) == 255 ==> 4 * m >= 3 * 255,
        m > 0 ==> 3 * low_threshold(m) < 2 * m <= 3 * (low_threshold(m) + 1),
        m == 0 ==> low_threshold(m) == 0,
        low_threshold(m) <= high_threshold(m) <= 255,
{
}

/// Every cell that is set has an edge within half the side of the kernel, of a magnitude of at
/// least two thirds of the median, less one; and somewhere in the plane there is a strong one,
/// of at least four thirds of the median, less one, or of 255. So a plane without gradient has
/// no edges.
pub proof fn set_cells_lie_at_edges(v: Seq<u8>, w: int, h: int, k: int, y: int, x: int) -> (at: (
    (int, int),
    (int, int),
))
    requires
        v.len() == w * h,
        w >= 3,
        h >= 3,
        k >= 1,
        k % 2 == 1,
        0 <= y < h,
        0 <= x < w,
        edge_map(v, w, h, k)[cell(y, x, w)] != 0,
    ensures
        ({
            let ((j, i), (b, a)) = at;
            let near = edge_magnitude(v, w, h)(j, i);
            let strong = edge_magnitude(v, w, h)(b, a);
            &&& interior(j, i, w, h)
            &&& interior(b, a, w, h)
            &&& -(k / 2) <= y - j <= k / 2
            &&& -(k / 2) <= x - i <= k / 2
            &&& near > 0
            &&& 3 * (near + 1) >= 2 * median_of(v)
            &&& strong > 0
            &&& strong >= 255 || 3 * (strong + 1) > 4 * median_of(v)
        }),
{
    let f = edge_magnitude(v, w, h);
    let g = edge_direction(v, w, h);
    let mag = plane_of(f, w, h);
    let dir = plane_of(g, w, h);
    let ridges = plane_of(ridge(mag, dir, w, h), w, h);
    let m = median_of(v);
    let (low, high) = (low_threshold(m), high_threshold(m));
    lemma_cell(y, x, w, h);
    median_splits_the_samples(v);
    thresholds_frame_the_median(m);
    edges_are_spread_by_the_kernel(v, w, h, k, y, x);
    let (j, i) = choose|j: int, i: int|
        0 <= j < h && 0 <= i < w && -(k / 2) <= y - j <= k / 2 && -(k / 2) <= x - i <= k / 2
            && #[trigger] hysteresis_of(v, w, h)[cell(j, i, w)] == 255;
    lemma_cell_of(f, w, h, j, i);
    lemma_cell_of(ridge(mag, dir, w, h), w, h, j, i);
    lemma_cell_of(g, w, h, j, i);
    edges_are_chained_to_strong_ridges(ridges, mag, w, h, low, high, j, i);
    let c = edge_classes(ridges, mag, low, high);
    let path = choose|path: Seq<(int, int)>| #[trigger]
        chain(c, w, h, path) && path[0] == (j, i);
    let (b, a) = path.last();
    assert(path[path.len() - 1] == (b, a));
    lemma_cell(b, a, w, h);
    lemma_cell_of(f, w, h, b, a);
    lemma_cell_of(g, w, h, b, a);
    lemma_cell_of(ridge(mag, dir, w, h), w, h, b, a);
    lemma_ridge_is_positive(v, w, h, j, i);
    lemma_ridge_is_positive(v, w, h, b, a);
    ((j, i), (b, a))
}

/// A ridge lies inside the plane and has a gradient.
proof fn lemma_ridge_is_positive(v: Seq<u8>, w: int, h: int, y: int, x: int)
    requires
        v.len() == w * h,
        0 <= y < h,
        0 <= x < w,
        ({
            let mag = plane_of(edge_magnitude(v, w, h), w, h);
            let dir = plane_of(edge_direction(v, w, h), w, h);
            plane_of(ridge(mag, dir, w, h), w, h)[cell(y, x, w)] != 0
        }),
    ensures
        interior(y, x, w, h),
        edge_magnitude(v, w, h)(y, x) > 0,
{
    ridges_are_maxima_along_the_gradient(v, w, h, y, x);
    lemma_gradient_bounds(v, y, x, w);
}

/// Linking on along a row leaves the cells before.
proof fn lemma_forward_row_keeps(b: Seq<u8>, w: int, h: int, y: int, x: int, x2: int, c: int)
    requires
        b.len() == w * h,
        1 <= y < h - 1,
        1 <= x <= x2 <= w - 1,
        0 <= c < y * w + x,
    ensures
        forward_row(b, w, y, x2)[c] == forward_row(b, w, y, x)[c],
    decreases x2,
{
    if x < x2 {
        lemma_cell(y, x2 - 1, w, h);
        lemma_forward_row_keeps(b, w, h, y, x, x2 - 1, c);
        lemma_forward_row_grows(b, w, h, y, x, x2 - 1);
    }
}

/// Linking further rows leaves the rows before.
proof fn lemma_forward_keeps(b: Seq<u8>, w: int, h: int, y: int, y2: int, c: int)
    requires
        b.len() == w * h,
        w >= 3,
        1 <= y <= y2 <= h - 1,
        0 <= c < y * w,
    ensures
        forward(b, w, y2)[c] == forward(b, w, y)[c],
    decreases y2,
{
    if y < y2 {
        lemma_forward_keeps(b, w, h, y, y2 - 1, c);
        lemma_forward_grows(b, w, h, y, y2 - 1);
        let prior = forward(b, w, y2 - 1);
        assert(y * w <= (y2 - 1) * w) by (nonlinear_arith)
            requires
                y <= y2 - 1,
                w >= 3,
        ;
        lemma_forward_row_keeps(prior, w, h, y2 - 1, 1, w - 1, c);
        assert(forward_row(prior, w, y2 - 1, 1) == prior);
    }
}

/// Linking on back along a row leaves the cells behind.
proof fn lemma_backward_row_keeps(b: Seq<u8>, w: int, h: int, y: int, x: int, x2: int, c: int)
    requires
        b.len() == w * h,
        1 <= y < h - 1,
        1 <= x2 <= x <= w - 1,
        y * w + x <= c < b.len(),
    ensures
        backward_row(b, w, y, x2)[c] == backward_row(b, w, y, x)[c],
    decreases w - x2,
{
    if x2 < x {
        lemma_cell(y, x2, w, h);
        lemma_backward_row_keeps(b, w, h, y, x, x2 + 1, c);
        lemma_backward_row_grows(b, w, h, y, x, x2 + 1);
    }
}

/// Linking further rows back leaves the rows behind.
proof fn lemma_backward_keeps(b: Seq<u8>, w: int, h: int, y: int, y2: int, c: int)
    requires
        b.len() == w * h,
        w >= 3,
        1 <= y2 <= y <= h - 1,
        y * w <= c < b.len(),
    ensures
        backward(b, w, h, y2)[c] == backward(b, w, h, y)[c],
    decreases h - y2,
{
    if y2 < y {
        lemma_backward_keeps(b, w, h, y, y2 + 1, c);
        lemma_backward_grows(b, w, h, y, y2 + 1);
        let prior = backward(b, w, h, y2 + 1);
        assert(y2 * w + w <= y * w) by (nonlinear_arith)
            requires
                y2 + 1 <= y,
                w >= 3,
        ;
        lemma_backward_row_keeps(prior, w, h, y2, w - 1, 1, c);
        assert(backward_row(prior, w, y2, w - 1) == prior);
    }
}

/// A weak inner cell behind a cell that linking in reading order makes strong, and touching
/// it, becomes strong in the same sweep.
proof fn lemma_forward_follows(b: Seq<u8>, w: int, h: int, y: int, x: int, j: int, i: int)
    requires
        b.len() == w * h,
        interior(y, x, w, h),
        b[cell(y, x, w)] == 1 || b[cell(y, x, w)] == 2,
        0 <= j,
        0 <= i < w,
        touch(y, x, j, i),
        j < y || (j == y && i < x),
        forward(b, w, h - 1)[cell(j, i, w)] == 2,
    ensures
        forward(b, w, h - 1)[cell(y, x, w)] == 2,
{
    lemma_cell(y, x, w, h);
    lemma_cell(j, i, w, h);
    lemma_neighbors(y, x, w, h);
    let c = cell(j, i, w);
    let start = forward(b, w, y);
    lemma_forward_grows(b, w, h, 1, y);
    assert(forward(b, w, 1) == b);
    lemma_forward_row_grows(start, w, h, y, 1, x);
    assert(forward_row(start, w, y, 1) == start);
    let prior = forward_row(start, w, y, x);
    lemma_forward_keeps(b, w, h, y + 1, h - 1, c);
    assert(forward(b, w, y + 1) == forward_row(start, w, y, w - 1));
    lemma_forward_row_keeps(start, w, h, y, x, w - 1, c);
    assert(prior[c] == 2);
    assert(strong_before(prior, w, y, x));
    assert(forward_row(start, w, y, x + 1)[cell(y, x, w)] == 2);
    lemma_forward_row_grows(start, w, h, y, x + 1, w - 1);
    lemma_forward_grows(b, w, h, y + 1, h - 1);
}

/// A weak inner cell before a cell that linking against reading order makes strong, and
/// touching it, becomes strong in the same sweep.
proof fn lemma_backward_follows(b: Seq<u8>, w: int, h: int, y: int, x: int, j: int, i: int)
    requires
        b.len() == w * h,
        interior(y, x, w, h),
        b[cell(y, x, w)] == 1 || b[cell(y, x, w)] == 2,
        j < h,
        0 <= i < w,
        touch(y, x, j, i),
        j > y || (j == y && i > x),
        backward(b, w, h, 1)[cell(j, i, w)] == 2,
    ensures
        backward(b, w, h, 1)[cell(y, x, w)] == 2,
{
    lemma_cell(y, x, w, h);
    lemma_cell(j, i, w, h);
    lemma_neighbors(y, x, w, h);
    let c = cell(j, i, w);
    let start = backward(b, w, h, y + 1);
    lemma_backward_grows(b, w, h, h - 1, y + 1);
    assert(backward(b, w, h, h - 1) == b);
    lemma_backward_row_grows(start, w, h, y, w - 1, x + 1);
    assert(backward_row(start, w, y, w - 1) == start);
    let prior = backward_row(start, w, y, x + 1);
    lemma_backward_keeps(b, w, h, y, 1, c);
    assert(backward(b, w, h, y) == backward_row(start, w, y, 1));
    lemma_backward_row_keeps(start, w, h, y, x + 1, 1, c);
    assert(prior[c] == 2);
    assert(strong_after(prior, w, y, x));
    assert(backward_row(start, w, y, x)[cell(y, x, w)] == 2);
    lemma_backward_row_grows(start, w, h, y, x, 1);
    lemma_backward_grows(b, w, h, y, 1);
}

/// The step behind place `k` of a path leads to a touching weak inner cell, behind in reading
/// order or before.
pub open spec fn steps(
    c: Seq<u8>,
    w: int,
    h: int,
    path: Seq<(int, int)>,
    k: int,
    onward: bool,
) -> bool {
    let (j, i) = path[k];
    let (y, x) = path[k + 1];
    &&& interior(y, x, w, h)
    &&& c[cell(y, x, w)] == 1
    &&& touch(y, x, j, i)
    &&& onward == (j < y || (j == y && i < x))
}

/// From place `from` to place `to` a path leads over touching weak inner cells, each behind
/// the last in reading order, or each before it.
pub open spec fn leads(
    c: Seq<u8>,
    w: int,
    h: int,
    path: Seq<(int, int)>,
    from: int,
    to: int,
    onward: bool,
) -> bool {
    forall|k: int| from <= k < to ==> #[trigger] steps(c, w, h, path, k, onward)
}

/// Growing goes on.
proof fn lemma_grows_on(a: Seq<u8>, b: Seq<u8>, c: Seq<u8>)
    requires
        grows(a, b),
        grows(b, c),
    ensures
        grows(a, c),
{
    assert forall|i: int| 0 <= i < a.len() implies #[trigger] c[i] == a[i] || (a[i] == 1 && c[i]
        == 2) by {
        assert(b[i] == a[i] || (a[i] == 1 && b[i] == 2));
    }
}

/// One step of a path, against reading order.
proof fn lemma_backward_step(
    c: Seq<u8>,
    b: Seq<u8>,
    w: int,
    h: int,
    path: Seq<(int, int)>,
    from: int,
    to: int,
    k: int,
)
    requires
        c.len() == w * h,
        grows(c, b),
        from <= k < to,
        leads(c, w, h, path, from, to, false),
        0 <= path[k].0 < h,
        0 <= path[k].1 < w,
        backward(b, w, h, 1)[cell(path[k].0, path[k].1, w)] == 2,
    ensures
        0 <= path[k + 1].0 < h,
        0 <= path[k + 1].1 < w,
        backward(b, w, h, 1)[cell(path[k + 1].0, path[k + 1].1, w)] == 2,
{
    let (j, i) = path[k];
    let (y, x) = path[k + 1];
    assert(steps(c, w, h, path, k, false));
    lemma_cell(y, x, w, h);
    assert(b[cell(y, x, w)] == 1 || b[cell(y, x, w)] == 2);
    lemma_backward_follows(b, w, h, y, x, j, i);
}

/// One step of a path, in reading order.
proof fn lemma_forward_step(
    c: Seq<u8>,
    b: Seq<u8>,
    w: int,
    h: int,
    path: Seq<(int, int)>,
    from: int,
    to: int,
    k: int,
)
    requires
        c.len() == w * h,
        grows(c, b),
        from <= k < to,
        leads(c, w, h, path, from, to, true),
        0 <= path[k].0 < h,
        0 <= path[k].1 < w,
        forward(b, w, h - 1)[cell(path[k].0, path[k].1, w)] == 2,
    ensures
        0 <= path[k + 1].0 < h,
        0 <= path[k + 1].1 < w,
        forward(b, w, h - 1)[cell(path[k + 1].0, path[k + 1].1, w)] == 2,
{
    let (j, i) = path[k];
    let (y, x) = path[k + 1];
    assert(steps(c, w, h, path, k, true));
    lemma_cell(y, x, w, h);
    assert(b[cell(y, x, w)] == 1 || b[cell(y, x, w)] == 2);
    lemma_forward_follows(b, w, h, y, x, j, i);
}

/// A strong cell stays strong.
proof fn lemma_strong_stays(b: Seq<u8>, after: Seq<u8>, i: int)
    requires
        grows(b, after),
        0 <= i < b.len(),
        b[i] == 2,
    ensures
        after[i] == 2,
{
    assert(after[i] == b[i] || (b[i] == 1 && after[i] == 2));
}

/// A sweep in reading order links a path that leads on.
proof fn lemma_forward_path(
    c: Seq<u8>,
    b: Seq<u8>,
    w: int,
    h: int,
    path: Seq<(int, int)>,
    from: int,
    to: int,
)
    requires
        c.len() == w * h,
        grows(c, b),
        w >= 3,
        h >= 3,
        0 <= from <= to < path.len(),
        0 <= path[from].0 < h,
        0 <= path[from].1 < w,
        leads(c, w, h, path, from, to, true),
        b[cell(path[from].0, path[from].1, w)] == 2,
    ensures
        0 <= path[to].0 < h,
        0 <= path[to].1 < w,
        forward(b, w, h - 1)[cell(path[to].0, path[to].1, w)] == 2,
    decreases to - from,
{
    if from < to {
        lemma_forward_path(c, b, w, h, path, from, to - 1);
        lemma_forward_step(c, b, w, h, path, from, to, to - 1);
    } else {
        lemma_forward_grows(b, w, h, 1, h - 1);
        assert(forward(b, w, 1) == b);
        lemma_cell(path[from].0, path[from].1, w, h);
        lemma_strong_stays(b, forward(b, w, h - 1), cell(path[from].0, path[from].1, w));
    }
}

/// A sweep in reading order grows the strong cells.
proof fn lemma_forward_sweep_grows(c: Seq<u8>, b: Seq<u8>, w: int, h: int)
    requires
        c.len() == w * h,
        grows(c, b),
        w >= 3,
        h >= 3,
    ensures
        grows(c, forward(b, w, h - 1)),
{
    lemma_forward_grows(b, w, h, 1, h - 1);
    assert(forward(b, w, 1) == b);
    lemma_grows_on(c, b, forward(b, w, h - 1));
}

/// A sweep against reading order grows the strong cells.
proof fn lemma_backward_sweep_grows(c: Seq<u8>, b: Seq<u8>, w: int, h: int)
    requires
        c.len() == w * h,
        grows(c, b),
        w >= 3,
        h >= 3,
    ensures
        grows(c, backward(b, w, h, 1)),
{
    lemma_backward_grows(b, w, h, h - 1, 1);
    assert(backward(b, w, h, h - 1) == b);
    lemma_grows_on(c, b, backward(b, w, h, 1));
}

/// A sweep against reading order links a path that leads back.
proof fn lemma_backward_path(
    c: Seq<u8>,
    b: Seq<u8>,
    w: int,
    h: int,
    path: Seq<(int, int)>,
    from: int,
    to: int,
)
    requires
        c.len() == w * h,
        grows(c, b),
        w >= 3,
        h >= 3,
        0 <= from <= to < path.len(),
        0 <= path[from].0 < h,
        0 <= path[from].1 < w,
        leads(c, w, h, path, from, to, false),
        b[cell(path[from].0, path[from].1, w)] == 2,
    ensures
        0 <= path[to].0 < h,
        0 <= path[to].1 < w,
        backward(b, w, h, 1)[cell(path[to].0, path[to].1, w)] == 2,
    decreases to - from,
{
    if from < to {
        lemma_backward_path(c, b, w, h, path, from, to - 1);
        lemma_backward_step(c, b, w, h, path, from, to, to - 1);
    } else {
        lemma_backward_grows(b, w, h, h - 1, 1);
        assert(backward(b, w, h, h - 1) == b);
        lemma_cell(path[from].0, path[from].1, w, h);
        lemma_strong_stays(b, backward(b, w, h, 1), cell(path[from].0, path[from].1, w));
    }
}

/// Hysteresis follows weak ridges away from strong ones, however far they lead: every cell is
/// an edge that a path over touching weak inner ridges reaches from a strong one, where the
/// path leads on in reading order, then back, then on, and then back, each for as long as it
/// may.
pub proof fn weak_ridges_are_followed(
    ridges: Seq<u8>,
    mag: Seq<i32>,
    w: int,
    h: int,
    low: int,
    high: int,
    path: Seq<(int, int)>,
    first: int,
    second: int,
    third: int,
)
    requires
        ridges.len() == w * h,
        mag.len() == w * h,
        w >= 3,
        h >= 3,
        0 <= first <= second <= third < path.len(),
        0 <= path[0].0 < h,
        0 <= path[0].1 < w,
        ({
            let c = edge_classes(ridges, mag, low, high);
            &&& c[cell(path[0].0, path[0].1, w)] == 2
            &&& leads(c, w, h, path, 0, first, true)
            &&& leads(c, w, h, path, first, second, false)
            &&& leads(c, w, h, path, second, third, true)
            &&& leads(c, w, h, path, third, path.len() - 1, false)
        }),
    ensures
        linked_edges(ridges, mag, w, h, low, high)[cell(path.last().0, path.last().1, w)] == 255,
{
    let c = edge_classes(ridges, mag, low, high);
    lemma_forward_path(c, c, w, h, path, 0, first);
    lemma_forward_sweep_grows(c, c, w, h);
    let on = forward(c, w, h - 1);
    lemma_backward_path(c, on, w, h, path, first, second);
    lemma_backward_sweep_grows(c, on, w, h);
    let once = sweep(c, w, h);
    lemma_forward_path(c, once, w, h, path, second, third);
    lemma_forward_sweep_grows(c, once, w, h);
    let again = forward(once, w, h - 1);
    lemma_backward_path(c, again, w, h, path, third, path.len() - 1);
    lemma_backward_sweep_grows(c, again, w, h);
    lemma_cell(path.last().0, path.last().1, w, h);
}

/// A ridge of at least the lower threshold that touches one of at least the upper threshold is
/// an edge, and so is the latter. No ridge below the lower threshold is an edge.
pub proof fn ridges_are_edges_by_their_magnitude(
    ridges: Seq<u8>,
    mag: Seq<i32>,
    w: int,
    h: int,
    low: int,
    high: int,
    y: int,
    x: int,
    j: int,
    i: int,
)
    requires
        ridges.len() == w * h,
        mag.len() == w * h,
        low <= high,
        interior(y, x, w, h),
        ridges[cell(y, x, w)] != 0,
        touch(y, x, j, i),
        ridges[cell(j, i, w)] != 0,
        mag[cell(j, i, w)] >= high,
    ensures
        mag[cell(y, x, w)] >= low <==> linked_edges(ridges, mag, w, h, low, high)[cell(y, x, w)]
            == 255,
        linked_edges(ridges, mag, w, h, low, high)[cell(j, i, w)] == 255,
{
    lemma_cell(y, x, w, h);
    lemma_cell(j, i, w, h);
    strong_ridges_are_edges(ridges, mag, w, h, low, high, cell(j, i, w));
    if mag[cell(y, x, w)] >= high {
        strong_ridges_are_edges(ridges, mag, w, h, low, high, cell(y, x, w));
    } else if mag[cell(y, x, w)] >= low {
        weak_ridges_at_strong_ones_are_edges(ridges, mag, w, h, low, high, y, x, j, i);
    } else if linked_edges(ridges, mag, w, h, low, high)[cell(y, x, w)] == 255 {
        edges_are_chained_to_strong_ridges(ridges, mag, w, h, low, high, y, x);
    }
}

/// A plane without interior has no edges, whatever it shows; and every edge map has the size of
/// its plane.
pub proof fn planes_without_interior_have_no_edges(v: Seq<u8>, w: int, h: int, k: int, i: int)
    requires
        0 <= w,
        0 <= h,
        w < 3 || h < 3,
        0 <= i < w * h,
    ensures
        edge_map(v, w, h, k).len() == w * h,
        edge_map(v, w, h, k)[i] == 0,
{
}

} // verus!
