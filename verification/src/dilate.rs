//! Square morphological dilation of a packed plane.
//!
//! The dilation is separable: a horizontal pass over every row, then a vertical
//! pass over every column, each in linear time by the van Herk / Gil-Werman
//! block decomposition.

use vstd::arithmetic::div_mod::*;
use vstd::prelude::*;

use crate::grid::{cell, lemma_cell, lemma_cell_injective, lemma_index, lemma_rows};

verus! {

/// The larger of two samples.
pub open spec fn larger(a: u8, b: u8) -> u8 {
    if a >= b {
        a
    } else {
        b
    }
}

/// The largest sample of `s[lo..hi]`, or zero where that range is empty.
pub open spec fn window_max(s: Seq<u8>, lo: int, hi: int) -> u8
    decreases hi - lo,
{
    if hi <= lo {
        0
    } else {
        larger(window_max(s, lo, hi - 1), s[hi - 1])
    }
}

/// First position of the window of radius `half` around `p`.
pub open spec fn window_lo(p: int, half: int) -> int {
    if p < half {
        0
    } else {
        p - half
    }
}

/// One past the last position of the window of radius `half` around `p` in a
/// signal of length `n`.
pub open spec fn window_hi(p: int, half: int, n: int) -> int {
    if p + half + 1 > n {
        n
    } else {
        p + half + 1
    }
}

/// The samples of column `x` in a row-major plane of width `w` and height `h`.
pub open spec fn column(plane: Seq<u8>, x: int, w: int, h: int) -> Seq<u8> {
    Seq::new(h as nat, |i: int| plane[i * w + x])
}

/// A window maximum splits at any inner position.
proof fn lemma_window_max_split(s: Seq<u8>, lo: int, mid: int, hi: int)
    requires
        lo <= mid <= hi,
    ensures
        window_max(s, lo, hi) == larger(window_max(s, lo, mid), window_max(s, mid, hi)),
    decreases hi - mid,
{
    if mid < hi {
        lemma_window_max_split(s, lo, mid, hi - 1);
    }
}

/// A window maximum is at least every sample of the window, and is one of them
/// where the window is not empty.
pub proof fn window_max_is_maximum(s: Seq<u8>, lo: int, hi: int)
    ensures
        forall|i: int| lo <= i < hi ==> #[trigger] s[i] <= window_max(s, lo, hi),
        lo < hi ==> exists|i: int| lo <= i < hi && #[trigger] s[i] == window_max(s, lo, hi),
    decreases hi - lo,
{
    if lo < hi {
        window_max_is_maximum(s, lo, hi - 1);
        if window_max(s, lo, hi) == s[hi - 1] {
        } else {
            if lo == hi - 1 {
                assert(window_max(s, lo, hi - 1) == 0);
            }
        }
    }
}

/// Samples outside a window do not change its maximum.
proof fn lemma_window_max_agree(a: Seq<u8>, b: Seq<u8>, lo: int, hi: int)
    requires
        forall|i: int| lo <= i < hi ==> a[i] == b[i],
    ensures
        window_max(a, lo, hi) == window_max(b, lo, hi),
    decreases hi - lo,
{
    if lo < hi {
        lemma_window_max_agree(a, b, lo, hi - 1);
    }
}

/// Largest sample of column `x` of `src` over rows `lo..hi`; zero for an empty
/// range.
pub fn window_max_column(src: &[u8], lo: usize, hi: usize, x: usize, w: usize) -> (m: u8)
    requires
        lo <= hi,
        x < w,
        w * hi <= src.len(),
    ensures
        m == window_max(column(src@, x as int, w as int, hi as int), lo as int, hi as int),
{
    let mut m: u8 = 0;
    let mut i: usize = lo;
    let ghost col = column(src@, x as int, w as int, hi as int);
    while i < hi
        invariant
            lo <= i <= hi,
            x < w,
            w * hi <= src.len(),
            col == column(src@, x as int, w as int, hi as int),
            m == window_max(col, lo as int, i as int),
        decreases hi - i,
    {
        proof {
            lemma_cell(i as int, x as int, w as int, hi as int);
        }
        let v: u8 = src[i * w + x];
        assert(v == col[i as int]);
        if v > m {
            m = v;
        }
        i = i + 1;
    }
    m
}

/// Where `i` starts a block of length `k`, the offset of `j` inside that block is
/// its remainder modulo `k`.
proof fn lemma_block_offset(i: int, j: int, k: int)
    requires
        0 < k,
        0 <= i <= j < i + k,
        i % k == 0,
    ensures
        j % k == j - i,
{
    lemma_fundamental_div_mod(i, k);
    assert(i / k * k == k * (i / k)) by (nonlinear_arith);
    lemma_fundamental_div_mod_converse(j, k, i / k, j - i);
}

/// The window `[l, l + k)` is covered by the tail of the block that holds `l` and
/// the head of the block that holds `l + k - 1`.
proof fn lemma_window_from_blocks(s: Seq<u8>, l: int, k: int)
    requires
        0 < k,
        0 <= l,
    ensures
        ({
            let last = l + k - 1;
            window_max(s, l, l + k) == larger(
                window_max(s, l, l - l % k + k),
                window_max(s, last - last % k, last + 1),
            )
        }),
{
    let last = l + k - 1;
    lemma_mod_bound(l, k);
    let start = l - l % k;
    assert(start % k == 0) by {
        lemma_fundamental_div_mod(l, k);
        assert(start == (l / k) * k + 0) by {
            assert(l / k * k == k * (l / k)) by (nonlinear_arith);
        }
        lemma_div_pos_is_pos(l, k);
        lemma_fundamental_div_mod_converse(start, k, l / k, 0);
    }
    if l % k == 0 {
        lemma_block_offset(l, last, k);
    } else {
        assert((start + k) % k == 0) by {
            lemma_mod_add_multiples_vanish(start, k);
        }
        lemma_block_offset(start + k, last, k);
        lemma_window_max_split(s, l, start + k, l + k);
    }
}

/// Fills `r[j]` with the maximum of the samples from the start of the block that
/// holds `j` up to and including `j`, over column `x` of `src`.
fn block_prefix_max(src: &[u8], r: &mut [u8], x: usize, w: usize, n: usize, k: usize)
    requires
        x < w,
        w * n <= src.len(),
        n <= old(r)@.len(),
        0 < k,
    ensures
        final(r)@.len() == old(r)@.len(),
        forall|j: int|
            0 <= j < n ==> #[trigger] final(r)@[j] == window_max(
                column(src@, x as int, w as int, n as int),
                j - j % (k as int),
                j + 1,
            ),
{
    let ghost col = column(src@, x as int, w as int, n as int);
    let mut i: usize = 0;
    while i < n
        invariant
            x < w,
            w * n <= src.len(),
            n <= r@.len(),
            r@.len() == old(r)@.len(),
            0 < k,
            i <= n,
            i < n ==> i as int % k as int == 0,
            col == column(src@, x as int, w as int, n as int),
            forall|j: int|
                0 <= j < i ==> #[trigger] r@[j] == window_max(col, j - j % (k as int), j + 1),
        decreases n - i,
    {
        let end: usize = if k < n - i {
            i + k
        } else {
            n
        };
        proof {
            lemma_cell(i as int, x as int, w as int, n as int);
            reveal_with_fuel(window_max, 2);
            lemma_block_offset(i as int, i as int, k as int);
        }
        r[i] = src[i * w + x];
        assert(col[i as int] == src@[i * w + x]);
        let mut j: usize = i + 1;
        while j < end
            invariant
                x < w,
                w * n <= src.len(),
                n <= r@.len(),
                r@.len() == old(r)@.len(),
                0 < k,
                i < j <= end <= n,
                end <= i + k,
                i as int % k as int == 0,
                col == column(src@, x as int, w as int, n as int),
                forall|q: int|
                    0 <= q < j ==> #[trigger] r@[q] == window_max(col, q - q % (k as int), q + 1),
            decreases end - j,
        {
            proof {
                lemma_cell(j as int, x as int, w as int, n as int);
                lemma_block_offset(i as int, j as int, k as int);
                lemma_block_offset(i as int, j - 1, k as int);
            }
            let v: u8 = src[j * w + x];
            assert(v == col[j as int]);
            let before: u8 = r[j - 1];
            r[j] = if before >= v {
                before
            } else {
                v
            };
            j = j + 1;
        }
        proof {
            if end < n {
                lemma_mod_add_multiples_vanish(i as int, k as int);
            }
        }
        i = end;
    }
}

/// End of the block of length `k` that holds `j`, cut off at `n`.
spec fn block_end(j: int, k: int, n: int) -> int {
    if j - j % k + k < n {
        j - j % k + k
    } else {
        n
    }
}

/// In the interior of a signal of length `n`, the block that holds `l` reaches
/// its full length, so cutting it off at `n` changes nothing.
proof fn lemma_block_tail(s: Seq<u8>, l: int, k: int, n: int)
    requires
        0 < k,
        0 <= l,
        l + k <= n,
    ensures
        window_max(s, l, block_end(l, k, n)) == window_max(s, l, l - l % k + k),
{
    lemma_mod_bound(l, k);
}

/// Fills `s[j]` with the maximum of the samples from `j` to the end of the block
/// that holds `j`, over column `x` of `src`.
fn block_suffix_max(src: &[u8], s: &mut [u8], x: usize, w: usize, n: usize, k: usize)
    requires
        x < w,
        w * n <= src.len(),
        n <= old(s)@.len(),
        0 < k,
    ensures
        final(s)@.len() == old(s)@.len(),
        forall|j: int|
            0 <= j < n ==> #[trigger] final(s)@[j] == window_max(
                column(src@, x as int, w as int, n as int),
                j,
                block_end(j, k as int, n as int),
            ),
{
    let ghost col = column(src@, x as int, w as int, n as int);
    let mut i: usize = 0;
    while i < n
        invariant
            x < w,
            w * n <= src.len(),
            n <= s@.len(),
            s@.len() == old(s)@.len(),
            0 < k,
            i <= n,
            i < n ==> i as int % k as int == 0,
            col == column(src@, x as int, w as int, n as int),
            forall|j: int|
                0 <= j < i ==> #[trigger] s@[j] == window_max(
                    col,
                    j,
                    block_end(j, k as int, n as int),
                ),
        decreases n - i,
    {
        let end: usize = if k < n - i {
            i + k
        } else {
            n
        };
        proof {
            lemma_cell(end - 1, x as int, w as int, n as int);
            reveal_with_fuel(window_max, 2);
            lemma_block_offset(i as int, end - 1, k as int);
        }
        s[end - 1] = src[(end - 1) * w + x];
        assert(col[end - 1] == src@[(end - 1) * w + x]);
        let mut j: usize = end - 1;
        while j > i
            invariant
                x < w,
                w * n <= src.len(),
                n <= s@.len(),
                s@.len() == old(s)@.len(),
                0 < k,
                i <= j < end <= n,
                end <= i + k,
                end == n || end == i + k,
                i as int % k as int == 0,
                col == column(src@, x as int, w as int, n as int),
                forall|q: int|
                    0 <= q < i ==> #[trigger] s@[q] == window_max(
                        col,
                        q,
                        block_end(q, k as int, n as int),
                    ),
                forall|q: int|
                    j <= q < end ==> #[trigger] s@[q] == window_max(
                        col,
                        q,
                        block_end(q, k as int, n as int),
                    ),
            decreases j - i,
        {
            j = j - 1;
            proof {
                lemma_cell(j as int, x as int, w as int, n as int);
                lemma_block_offset(i as int, j as int, k as int);
                lemma_block_offset(i as int, j + 1, k as int);
                lemma_window_max_split(col, j as int, j + 1, end as int);
                reveal_with_fuel(window_max, 2);
            }
            let v: u8 = src[j * w + x];
            assert(v == col[j as int]);
            let after: u8 = s[j + 1];
            s[j] = if after >= v {
                after
            } else {
                v
            };
        }
        proof {
            if end < n {
                lemma_mod_add_multiples_vanish(i as int, k as int);
            }
        }
        i = end;
    }
}

/// Dilation by a window of odd length `k` of column `x` of a plane of width `w`
/// and height `h`: each sample of the column in `dst` is the maximum of the
/// samples of that column in `src` at most `k / 2` rows away. The other columns
/// of `dst` stay as they are. `r` and `s` are scratch space.
pub fn van_herk_1d_column(
    src: &[u8],
    dst: &mut [u8],
    r: &mut [u8],
    s: &mut [u8],
    x: usize,
    w: usize,
    h: usize,
    k: usize,
)
    requires
        x < w,
        w * h <= src.len(),
        w * h <= old(dst).len(),
        h <= old(r)@.len(),
        h <= old(s)@.len(),
        k % 2 == 1,
    ensures
        final(dst)@.len() == old(dst)@.len(),
        final(r)@.len() == old(r)@.len(),
        final(s)@.len() == old(s)@.len(),
        forall|p: int|
            0 <= p < h ==> #[trigger] final(dst)@[p * w + x] == window_max(
                column(src@, x as int, w as int, h as int),
                window_lo(p, k as int / 2),
                window_hi(p, k as int / 2, h as int),
            ),
        forall|i: int|
            0 <= i < final(dst)@.len() && (i % w as int != x || i >= w * h)
                ==> #[trigger] final(dst)@[i] == old(dst)@[i],
{
    let half: usize = k / 2;
    let ghost col = column(src@, x as int, w as int, h as int);
    let wide: bool = h > 2 * half;
    if wide {
        block_prefix_max(src, r, x, w, h, k);
        block_suffix_max(src, s, x, w, h, k);
    }
    let mut p: usize = 0;
    while p < h
        invariant
            x < w,
            w * h <= src.len(),
            w * h <= dst.len(),
            dst@.len() == old(dst)@.len(),
            r@.len() == old(r)@.len(),
            s@.len() == old(s)@.len(),
            h <= r@.len(),
            h <= s@.len(),
            k % 2 == 1,
            half == k / 2,
            p <= h,
            wide == (h > 2 * half),
            col == column(src@, x as int, w as int, h as int),
            wide ==> forall|j: int|
                0 <= j < h ==> #[trigger] r@[j] == window_max(col, j - j % (k as int), j + 1),
            wide ==> forall|j: int|
                0 <= j < h ==> #[trigger] s@[j] == window_max(
                    col,
                    j,
                    block_end(j, k as int, h as int),
                ),
            forall|q: int|
                0 <= q < p ==> #[trigger] dst@[q * w + x] == window_max(
                    col,
                    window_lo(q, k as int / 2),
                    window_hi(q, k as int / 2, h as int),
                ),
            forall|i: int|
                0 <= i < dst@.len() && (i % w as int != x || i >= w * h) ==> #[trigger] dst@[i]
                    == old(dst)@[i],
        decreases h - p,
    {
        proof {
            lemma_cell(p as int, x as int, w as int, h as int);
        }
        let m: u8 = if wide && p >= half && p < h - half {
            let tail: u8 = s[p - half];
            let head: u8 = r[p + half];
            proof {
                let l = p - half;
                lemma_window_from_blocks(col, l, k as int);
                lemma_mod_bound(l, k as int);
                lemma_block_tail(col, l, k as int, h as int);
            }
            if tail >= head {
                tail
            } else {
                head
            }
        } else {
            let lo: usize = if p < half {
                0
            } else {
                p - half
            };
            let hi: usize = if half >= h - p {
                h
            } else {
                p + half + 1
            };
            proof {
                assert(w * hi <= w * h) by (nonlinear_arith)
                    requires
                        0 <= hi <= h,
                        0 <= w,
                ;
                lemma_window_max_agree(
                    col,
                    column(src@, x as int, w as int, hi as int),
                    lo as int,
                    hi as int,
                );
            }
            window_max_column(src, lo, hi, x, w)
        };
        let ghost before = dst@;
        dst[p * w + x] = m;
        proof {
            assert forall|q: int| 0 <= q < p + 1 implies #[trigger] dst@[q * w + x] == window_max(
                col,
                window_lo(q, k as int / 2),
                window_hi(q, k as int / 2, h as int),
            ) by {
                lemma_cell(q, x as int, w as int, h as int);
                if q < p {
                    assert(q * w + x != p * w + x) by (nonlinear_arith)
                        requires
                            0 <= q < p,
                            0 < w,
                    ;
                    assert(dst@[q * w + x] == before[q * w + x]);
                }
            }
        }
        p = p + 1;
    }
}

/// Dilation by a window of odd length `k` of the first `n` samples of `src`: each
/// of the first `n` samples of `dst` becomes the maximum of the samples of `src`
/// at most `k / 2` positions away. `r` and `s` are scratch space.
pub fn van_herk_1d_contig(
    src: &[u8],
    dst: &mut [u8],
    r: &mut [u8],
    s: &mut [u8],
    n: usize,
    k: usize,
)
    requires
        n <= src@.len(),
        n <= old(dst)@.len(),
        n <= old(r)@.len(),
        n <= old(s)@.len(),
        k % 2 == 1,
    ensures
        final(dst)@.len() == old(dst)@.len(),
        final(r)@.len() == old(r)@.len(),
        final(s)@.len() == old(s)@.len(),
        forall|p: int|
            0 <= p < n ==> #[trigger] final(dst)@[p] == window_max(
                src@,
                window_lo(p, k as int / 2),
                window_hi(p, k as int / 2, n as int),
            ),
        forall|i: int| n <= i < final(dst)@.len() ==> #[trigger] final(dst)@[i] == old(dst)@[i],
{
    van_herk_1d_column(src, dst, r, s, 0, 1, n, k);
    proof {
        let col = column(src@, 0, 1, n as int);
        assert forall|p: int| 0 <= p < n implies #[trigger] dst@[p] == window_max(
            src@,
            window_lo(p, k as int / 2),
            window_hi(p, k as int / 2, n as int),
        ) by {
            assert(dst@[p * 1 + 0] == dst@[p]);
            assert forall|i: int|
                window_lo(p, k as int / 2) <= i < window_hi(p, k as int / 2, n as int) implies col[i]
                == src@[i] by {
                assert(src@[i * 1 + 0] == src@[i]);
            }
            lemma_window_max_agree(
                col,
                src@,
                window_lo(p, k as int / 2),
                window_hi(p, k as int / 2, n as int),
            );
        }
    }
}

/// The samples of row `y` of a plane of width `w`.
pub open spec fn row(plane: Seq<u8>, y: int, w: int) -> Seq<u8> {
    plane.subrange(y * w, y * w + w)
}

/// For each row of a plane, the maximum of that row over the window of radius
/// `half` around column `x`.
pub open spec fn row_maxima(plane: Seq<u8>, x: int, w: int, h: int, half: int) -> Seq<u8> {
    Seq::new(
        h as nat,
        |j: int| window_max(row(plane, j, w), window_lo(x, half), window_hi(x, half, w)),
    )
}

/// The maximum of a plane over the square of radius `half` around row `y` and
/// column `x`, cut off at the plane's borders.
pub open spec fn square_max(plane: Seq<u8>, y: int, x: int, w: int, h: int, half: int) -> u8 {
    window_max(row_maxima(plane, x, w, h, half), window_lo(y, half), window_hi(y, half, h))
}

/// The dilation of a `w` by `h` plane by a square of odd side `k`.
pub open spec fn dilated(plane: Seq<u8>, w: int, h: int, k: int) -> Seq<u8> {
    Seq::new((w * h) as nat, |i: int| square_max(plane, i / w, i % w, w, h, k / 2))
}

/// Dilates a packed `w` by `h` plane by a square of odd side `k`.
pub fn dilate(plane: &[u8], w: usize, h: usize, k: usize) -> (out: Vec<u8>)
    requires
        plane@.len() == w * h,
        k % 2 == 1,
    ensures
        out@ == dilated(plane@, w as int, h as int, k as int),
{
    let n: usize = plane.len();
    let side: usize = if w > h {
        w
    } else {
        h
    };
    let ghost half = k as int / 2;
    let mut r: Vec<u8> = vec![0u8; side];
    let mut s: Vec<u8> = vec![0u8; side];
    let mut tmp: Vec<u8> = vec![0u8; n];
    let mut out: Vec<u8> = vec![0u8; n];
    let mut line: Vec<u8> = vec![0u8; w];
    let mut y: usize = 0;
    while y < h
        invariant
            plane@.len() == w * h,
            plane@.len() == n,
            tmp@.len() == n,
            line@.len() == w,
            r@.len() == side,
            s@.len() == side,
            side >= w,
            k % 2 == 1,
                half == k as int / 2,
            y <= h,
            forall|j: int, x: int|
                0 <= j < y && 0 <= x < w ==> #[trigger] tmp@[cell(j, x, w as int)] == window_max(
                    row(plane@, j, w as int),
                    window_lo(x, half),
                    window_hi(x, half, w as int),
                ),
        decreases h - y,
    {
        proof {
            lemma_rows(y as int, w as int, h as int);
        }
        let base: usize = y * w;
        let src: &[u8] = vstd::slice::slice_subrange(plane, base, base + w);
        van_herk_1d_contig(
            src,
            line.as_mut_slice(),
            r.as_mut_slice(),
            s.as_mut_slice(),
            w,
            k,
        );
        let mut x: usize = 0;
        while x < w
            invariant
                plane@.len() == w * h,
                plane@.len() == n,
                tmp@.len() == n,
                line@.len() == w,
                y < h,
                x <= w,
                base == y * w,
                base + w <= n,
                half == k as int / 2,
                forall|p: int|
                    0 <= p < w ==> #[trigger] line@[p] == window_max(
                        row(plane@, y as int, w as int),
                        window_lo(p, half),
                        window_hi(p, half, w as int),
                    ),
                forall|j: int, q: int|
                    (0 <= j < y && 0 <= q < w) || (j == y && 0 <= q < x)
                        ==> #[trigger] tmp@[cell(j, q, w as int)] == window_max(
                        row(plane@, j, w as int),
                        window_lo(q, half),
                        window_hi(q, half, w as int),
                    ),
            decreases w - x,
        {
            let ghost before = tmp@;
            tmp[base + x] = line[x];
            proof {
                assert forall|j: int, q: int|
                    (0 <= j < y && 0 <= q < w) || (j == y && 0 <= q < x + 1) implies #[trigger] tmp@[cell(
                    j,
                    q,
                    w as int,
                )] == window_max(
                    row(plane@, j, w as int),
                    window_lo(q, half),
                    window_hi(q, half, w as int),
                ) by {
                    lemma_cell(j, q, w as int, h as int);
                    if cell(j, q, w as int) == base + x {
                        lemma_cell_injective(j, q, y as int, x as int, w as int);
                    } else {
                        assert(tmp@[cell(j, q, w as int)] == before[cell(j, q, w as int)]);
                    }
                }
            }
            x = x + 1;
        }
        y = y + 1;
    }
    let mut x: usize = 0;
    while x < w
        invariant
            plane@.len() == w * h,
            plane@.len() == n,
            tmp@.len() == n,
            out@.len() == n,
            r@.len() == side,
            s@.len() == side,
            side >= h,
            k % 2 == 1,
            half == k as int / 2,
            x <= w,
            forall|j: int, q: int|
                0 <= j < h && 0 <= q < w ==> #[trigger] tmp@[cell(j, q, w as int)] == window_max(
                    row(plane@, j, w as int),
                    window_lo(q, half),
                    window_hi(q, half, w as int),
                ),
            forall|j: int, q: int|
                0 <= j < h && 0 <= q < x ==> #[trigger] out@[cell(j, q, w as int)] == square_max(
                    plane@,
                    j,
                    q,
                    w as int,
                    h as int,
                    half,
                ),
        decreases w - x,
    {
        let ghost before = out@;
        van_herk_1d_column(
            tmp.as_slice(),
            out.as_mut_slice(),
            r.as_mut_slice(),
            s.as_mut_slice(),
            x,
            w,
            h,
            k,
        );
        proof {
            let col = column(tmp@, x as int, w as int, h as int);
            assert forall|i: int| 0 <= i < h implies col[i] == #[trigger] row_maxima(
                plane@,
                x as int,
                w as int,
                h as int,
                half,
            )[i] by {
                assert(col[i] == tmp@[cell(i, x as int, w as int)]);
            }
            assert(col =~= row_maxima(plane@, x as int, w as int, h as int, half));
            assert forall|j: int, q: int|
                0 <= j < h && 0 <= q < x + 1 implies #[trigger] out@[cell(j, q, w as int)]
                == square_max(plane@, j, q, w as int, h as int, half) by {
                lemma_cell(j, q, w as int, h as int);
                if q == x {
                    assert(out@[j * w + x] == window_max(
                        col,
                        window_lo(j, half),
                        window_hi(j, half, h as int),
                    ));
                } else {
                    assert(out@[cell(j, q, w as int)] == before[cell(j, q, w as int)]);
                }
            }
        }
        x = x + 1;
    }
    proof {
        assert forall|i: int| 0 <= i < n implies out@[i] == dilated(
            plane@,
            w as int,
            h as int,
            k as int,
        )[i] by {
            lemma_index(i, w as int, h as int);
            assert(out@[cell(i / (w as int), i % (w as int), w as int)] == out@[i]);
        }
        assert(out@ =~= dilated(plane@, w as int, h as int, k as int));
    }
    out
}

/// Every sample of a dilated plane is the maximum of the input over the square
/// around it: no input sample of the square exceeds it, and it is one of them.
pub proof fn dilation_is_square_maximum(plane: Seq<u8>, w: int, h: int, k: int, y: int, x: int)
    requires
        plane.len() == w * h,
        0 <= y < h,
        0 <= x < w,
        k >= 1,
        k % 2 == 1,
    ensures
        forall|j: int, q: int|
            0 <= j < h && 0 <= q < w && y - k / 2 <= j <= y + k / 2 && x - k / 2 <= q <= x + k / 2
                ==> #[trigger] plane[cell(j, q, w)] <= dilated(plane, w, h, k)[cell(y, x, w)],
        exists|j: int, q: int|
            0 <= j < h && 0 <= q < w && y - k / 2 <= j <= y + k / 2 && x - k / 2 <= q <= x + k / 2
                && #[trigger] plane[cell(j, q, w)] == dilated(plane, w, h, k)[cell(y, x, w)],
{
    let half = k / 2;
    lemma_cell(y, x, w, h);
    let maxima = row_maxima(plane, x, w, h, half);
    let lo_y = window_lo(y, half);
    let hi_y = window_hi(y, half, h);
    let lo_x = window_lo(x, half);
    let hi_x = window_hi(x, half, w);
    let top = dilated(plane, w, h, k)[cell(y, x, w)];
    assert(top == window_max(maxima, lo_y, hi_y));
    window_max_is_maximum(maxima, lo_y, hi_y);
    assert forall|j: int, q: int|
        0 <= j < h && 0 <= q < w && y - half <= j <= y + half && x - half <= q <= x
            + half implies #[trigger] plane[cell(j, q, w)] <= top by {
        lemma_cell(j, q, w, h);
        window_max_is_maximum(row(plane, j, w), lo_x, hi_x);
        assert(row(plane, j, w)[q] == plane[cell(j, q, w)]);
        assert(maxima[j] <= top);
    }
    let j = choose|j: int| lo_y <= j < hi_y && #[trigger] maxima[j] == top;
    assert(lo_y <= j < hi_y && maxima[j] == top);
    lemma_rows(j, w, h);
    window_max_is_maximum(row(plane, j, w), lo_x, hi_x);
    let q = choose|q: int| lo_x <= q < hi_x && #[trigger] row(plane, j, w)[q] == maxima[j];
    lemma_cell(j, q, w, h);
    assert(plane[cell(j, q, w)] == top);
}

/// Dilation never lowers a sample.
pub proof fn dilation_is_extensive(plane: Seq<u8>, w: int, h: int, k: int, y: int, x: int)
    requires
        plane.len() == w * h,
        0 <= y < h,
        0 <= x < w,
        k >= 1,
        k % 2 == 1,
    ensures
        plane[cell(y, x, w)] <= dilated(plane, w, h, k)[cell(y, x, w)],
{
    dilation_is_square_maximum(plane, w, h, k, y, x);
}

} // verus!
