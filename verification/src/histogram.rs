//! Cut detection by the correlation of luma histograms.
//!
//! Each frame is counted into brightness bins. The counts are exact, and so are
//! the moments that the correlation of two histograms is made of; a
//! caller-supplied function takes the quotient. A cut is proposed where the
//! correlation falls to the limit, and kept where the minimum scene duration has
//! passed.

use vstd::arithmetic::div_mod::*;
use vstd::arithmetic::mul::*;
use vstd::prelude::*;

use crate::arch::sample;
use crate::frame::LumaFrame;
use crate::grid::{lemma_cell, lemma_cell_injective};
use crate::number::Real;
use crate::sum::{
    a_sum_counts_each_cell_once, area_sum, lemma_area_sum_bound, lemma_partial_grows, line_sum,
};
use crate::text::{digits, one_number};
use crate::time::{
    elapsed_at_least, frames_to_duration, gate_seed, max_nanos, min_length_met, past_tick,
    seed_at, seed_lets_the_first_cut_pass, Duration, Timebase, Timestamp,
};

verus! {

/// The bit pattern of one half.
pub const HALF: u64 = 0x3fe0_0000_0000_0000;

/// Number of partial histograms that the scratch space of a detector is sized for.
pub const N_ACCUM: usize = 4;

/// Why a detector was refused.
#[derive(Debug, Clone, Copy, PartialEq, Eq, Structural)]
#[non_exhaustive]
pub enum Error {
    /// The partial histograms together have more bins than `usize` can count.
    BinCountTooLarge {
        /// The requested number of bins.
        bins: usize,
    },
}

impl Error {
    /// Whether the error is `BinCountTooLarge`.
    pub fn is_bin_count_too_large(&self) -> (r: bool)
        ensures
            r == (*self is BinCountTooLarge),
    {
        matches!(self, Error::BinCountTooLarge { .. })
    }

    /// The message text of the error.
    pub open spec fn text(self) -> Seq<char> {
        match self {
            Error::BinCountTooLarge { bins } => "histogram bin count ("@ + digits(bins as nat)
                + ") is too large (N_ACCUM * bins overflows usize)"@,
        }
    }

    /// The message text of the error.
    pub fn message(&self) -> (s: String)
        ensures
            s@ == self.text(),
    {
        match *self {
            Error::BinCountTooLarge { bins } => one_number(
                "histogram bin count (",
                bins as u64,
                ") is too large (N_ACCUM * bins overflows usize)",
            ),
        }
    }
}

/// Configuration of a detector.
#[derive(Debug, Clone, Copy)]
pub struct Options {
    /// Drop of the correlation from which on a frame is a cut.
    pub threshold: Real,
    /// Number of brightness bins, not zero.
    pub bins: usize,
    /// Minimum duration of a scene.
    pub min_duration: Duration,
    /// Whether the first drop may be a cut at once.
    pub allow_initial_cut: bool,
}

impl Options {
    /// The default configuration.
    pub open spec fn standard(self) -> bool {
        &&& self.threshold == (Real { bits: HALF })
        &&& self.bins == 256
        &&& self.min_duration.total() == 1_000_000_000
        &&& self.allow_initial_cut
    }

    /// The default configuration: threshold one half, 256 bins, scenes of at least
    /// one second, first cut allowed.
    pub fn new() -> (o: Options)
        ensures
            o.standard(),
    {
        Options {
            threshold: Real { bits: HALF },
            bins: 256,
            min_duration: Duration::from_secs(1),
            allow_initial_cut: true,
        }
    }

    /// The drop of the correlation from which on a frame is a cut.
    pub fn threshold(&self) -> (v: Real)
        ensures
            v == self.threshold,
    {
        self.threshold
    }

    /// The same with another value for the drop of the correlation from which on a frame is a cut.
    pub fn with_threshold(self, val: Real) -> (r: Options)
        ensures
            r == (Options { threshold: val, ..self }),
    {
        Options { threshold: val, ..self }
    }

    /// Sets the drop of the correlation from which on a frame is a cut.
    pub fn set_threshold(&mut self, val: Real) -> (r: &mut Options)
        ensures
            *r == (Options { threshold: val, ..*old(self) }),
            *final(self) == *final(r),
    {
        self.threshold = val;
        self
    }

    /// The number of brightness bins.
    pub fn bins(&self) -> (v: usize)
        ensures
            v == self.bins,
    {
        self.bins
    }

    /// The same with another value for the number of brightness bins.
    pub fn with_bins(self, val: usize) -> (r: Options)
        requires
            val != 0,
        ensures
            r == (Options { bins: val, ..self }),
    {
        Options { bins: val, ..self }
    }

    /// Sets the number of brightness bins.
    pub fn set_bins(&mut self, val: usize) -> (r: &mut Options)
        requires
            val != 0,
        ensures
            *r == (Options { bins: val, ..*old(self) }),
            *final(self) == *final(r),
    {
        self.bins = val;
        self
    }

    /// The minimum duration of a scene.
    pub fn min_duration(&self) -> (v: Duration)
        ensures
            v == self.min_duration,
    {
        self.min_duration
    }

    /// The same with another value for the minimum duration of a scene.
    pub fn with_min_duration(self, val: Duration) -> (r: Options)
        ensures
            r == (Options { min_duration: val, ..self }),
    {
        Options { min_duration: val, ..self }
    }

    /// Sets the minimum duration of a scene.
    pub fn set_min_duration(&mut self, val: Duration) -> (r: &mut Options)
        ensures
            *r == (Options { min_duration: val, ..*old(self) }),
            *final(self) == *final(r),
    {
        self.min_duration = val;
        self
    }

    /// Whether the first drop may be a cut at once.
    pub fn allow_initial_cut(&self) -> (v: bool)
        ensures
            v == self.allow_initial_cut,
    {
        self.allow_initial_cut
    }

    /// The same with another value for whether the first drop may be a cut at once.
    pub fn with_allow_initial_cut(self, val: bool) -> (r: Options)
        ensures
            r == (Options { allow_initial_cut: val, ..self }),
    {
        Options { allow_initial_cut: val, ..self }
    }

    /// Sets whether the first drop may be a cut at once.
    pub fn set_allow_initial_cut(&mut self, val: bool) -> (r: &mut Options)
        ensures
            *r == (Options { allow_initial_cut: val, ..*old(self) }),
            *final(self) == *final(r),
    {
        self.allow_initial_cut = val;
        self
    }

    /// The same with a minimum scene duration of `frames` frames at the rate `fps`.
    pub fn with_min_frames(self, frames: u32, fps: Timebase) -> (r: Options)
        requires
            fps.numerator() != 0,
        ensures
            r == (Options { min_duration: r.min_duration, ..self }),
            r.min_duration.total() == frames * fps.denominator() * 1_000_000_000
                / fps.numerator(),
    {
        Options { min_duration: frames_to_duration(fps, frames), ..self }
    }

    /// Sets the minimum scene duration to `frames` frames at the rate `fps`.
    pub fn set_min_frames(&mut self, frames: u32, fps: Timebase) -> (r: &mut Options)
        requires
            fps.numerator() != 0,
        ensures
            *r == (Options { min_duration: r.min_duration, ..*old(self) }),
            r.min_duration.total() == frames * fps.denominator() * 1_000_000_000
                / fps.numerator(),
            *final(self) == *final(r),
    {
        self.min_duration = frames_to_duration(fps, frames);
        self
    }
}

impl Default for Options {
    /// The default configuration.
    fn default() -> (o: Options)
        ensures
            o.standard(),
    {
        Options::new()
    }
}

/// Bin of a sample: `bins` equal parts of the range of a byte.
pub open spec fn bin_of(v: int, bins: int) -> int {
    v * bins / 256
}

/// Every sample has a bin below the number of bins.
proof fn lemma_bin_range(v: int, bins: int)
    requires
        0 <= v <= 255,
        0 < bins,
    ensures
        0 <= bin_of(v, bins) < bins,
{
    assert(0 <= v * bins <= 255 * bins) by (nonlinear_arith)
        requires
            0 <= v <= 255,
            0 < bins,
    ;
}

/// The bin of every sample value.
pub fn build_bin_lookup(bins: usize) -> (t: [u32; 256])
    requires
        0 < bins <= u32::MAX,
    ensures
        forall|v: int| 0 <= v < 256 ==> #[trigger] t@[v] == bin_of(v, bins as int),
{
    let mut t: [u32; 256] = [0u32; 256];
    let b: u64 = bins as u64;
    let mut v: usize = 0;
    while v < 256
        invariant
            0 < bins <= u32::MAX,
            b == bins,
            v <= 256,
            t@.len() == 256,
            forall|i: int| 0 <= i < v ==> #[trigger] t@[i] == bin_of(i, bins as int),
        decreases 256 - v,
    {
        proof {
            lemma_bin_range(v as int, bins as int);
            assert(0 <= v * b <= 255 * b) by (nonlinear_arith)
                requires
                    0 <= v <= 255,
                    0 <= b,
            ;
        }
        t[v] = (v as u64 * b / 256) as u32;
        v = v + 1;
    }
    t
}

/// One for the pixels of a plane that fall into bin `j`, zero for the others.
pub open spec fn in_bin(p: Seq<u8>, stride: int, bins: int, j: int) -> spec_fn(int, int) -> int {
    |y: int, x: int|
        if bin_of(sample(p, y, x, stride), bins) == j {
            1
        } else {
            0
        }
}

/// Number of pixels of a `w` by `h` plane that fall into bin `j`.
pub open spec fn bin_count(p: Seq<u8>, w: int, h: int, stride: int, bins: int, j: int) -> int {
    area_sum(in_bin(p, stride, bins, j), 0, h, 0, w)
}

/// The histogram of a `w` by `h` plane.
pub open spec fn histogram_of(p: Seq<u8>, w: int, h: int, stride: int, bins: int) -> Seq<u32> {
    Seq::new(bins as nat, |j: int| bin_count(p, w, h, stride, bins, j) as u32)
}

/// Every bin of a `w` by `h` plane can be counted in 32 bits.
pub open spec fn bins_fit(p: Seq<u8>, w: int, h: int, stride: int, bins: int) -> bool {
    forall|j: int| 0 <= j < bins ==> #[trigger] bin_count(p, w, h, stride, bins, j) <= u32::MAX
}

/// Every bin of this frame can be counted in 32 bits.
pub open spec fn frame_fits(frame: LumaFrame<'_>, bins: int) -> bool {
    bins_fit(
        frame.bytes(),
        frame.columns() as int,
        frame.rows() as int,
        frame.pitch() as int,
        bins,
    )
}

/// The bins of a plane with no more pixels than 32 bits can count all fit.
pub proof fn small_planes_fit(p: Seq<u8>, w: int, h: int, stride: int, bins: int)
    requires
        0 <= w,
        0 <= h,
        w * h <= u32::MAX,
    ensures
        bins_fit(p, w, h, stride, bins),
{
    assert forall|j: int| 0 <= j < bins implies #[trigger] bin_count(p, w, h, stride, bins, j)
        <= u32::MAX by {
        lemma_area_sum_bound(in_bin(p, stride, bins, j), 0, h, 0, w, 0, 1);
        assert(1 * (w * h) == w * h);
    }
}

/// Counts the pixels of a luma frame into brightness bins. Row padding is skipped.
pub fn compute_histogram(frame: &LumaFrame<'_>, bins: usize) -> (hist: Vec<u32>)
    requires
        0 < bins <= u32::MAX,
        frame_fits(*frame, bins as int),
    ensures
        hist@ == histogram_of(
            frame.bytes(),
            frame.columns() as int,
            frame.rows() as int,
            frame.pitch() as int,
            bins as int,
        ),
        forall|j: int|
            0 <= j < bins ==> #[trigger] hist@[j] == bin_count(
                frame.bytes(),
                frame.columns() as int,
                frame.rows() as int,
                frame.pitch() as int,
                bins as int,
                j,
            ),
{
    match checked_histogram(frame, bins) {
        Some(hist) => hist,
        None => Vec::new(),
    }
}

/// Counts the pixels of a luma frame into brightness bins; `None` where a bin cannot be
/// counted in 32 bits.
pub fn checked_histogram(frame: &LumaFrame<'_>, bins: usize) -> (r: Option<Vec<u32>>)
    requires
        0 < bins <= u32::MAX,
    ensures
        r is Some <==> frame_fits(*frame, bins as int),
        r matches Some(hist) ==> hist@ == histogram_of(
            frame.bytes(),
            frame.columns() as int,
            frame.rows() as int,
            frame.pitch() as int,
            bins as int,
        ),
        r matches Some(hist) ==> forall|j: int|
            0 <= j < bins ==> #[trigger] hist@[j] == bin_count(
                frame.bytes(),
                frame.columns() as int,
                frame.rows() as int,
                frame.pitch() as int,
                bins as int,
                j,
            ),
{
    let data: &[u8] = frame.data();
    let w: usize = frame.width() as usize;
    let h: usize = frame.height() as usize;
    let s: usize = frame.stride() as usize;
    let table: [u32; 256] = build_bin_lookup(bins);
    let mut hist: Vec<u32> = vec![0u32; bins];
    let ghost f = |j: int| in_bin(data@, s as int, bins as int, j);
    let mut y: usize = 0;
    while y < h
        invariant
            0 < bins <= u32::MAX,
            data@ == frame.bytes(),
            w == frame.columns(),
            h == frame.rows(),
            s == frame.pitch(),
            w <= s,
            s * h <= data.len(),
            y <= h,
            hist@.len() == bins,
            f == (|j: int| in_bin(data@, s as int, bins as int, j)),
            forall|v: int| 0 <= v < 256 ==> #[trigger] table@[v] == bin_of(v, bins as int),
            forall|j: int|
                0 <= j < bins ==> #[trigger] hist@[j] == area_sum(
                    f(j),
                    0,
                    y as int,
                    0,
                    w as int,
                ),
        decreases h - y,
    {
        let mut x: usize = 0;
        while x < w
            invariant
                0 < bins <= u32::MAX,
                data@ == frame.bytes(),
                w == frame.columns(),
                h == frame.rows(),
                s == frame.pitch(),
                w <= s,
                s * h <= data.len(),
                    y < h,
                x <= w,
                hist@.len() == bins,
                f == (|j: int| in_bin(data@, s as int, bins as int, j)),
                forall|v: int| 0 <= v < 256 ==> #[trigger] table@[v] == bin_of(v, bins as int),
                forall|j: int|
                    0 <= j < bins ==> #[trigger] hist@[j] == area_sum(
                        f(j),
                        0,
                        y as int,
                        0,
                        w as int,
                    ) + line_sum(f(j), y as int, 0, x as int),
            decreases w - x,
        {
            proof {
                lemma_cell(y as int, x as int, s as int, h as int);
            }
            let v: u8 = data[y * s + x];
            assert(v == sample(data@, y as int, x as int, s as int));
            let b: usize = table[v as usize] as usize;
            let ghost before = hist@;
            proof {
                lemma_bin_range(v as int, bins as int);
                assert(b == bin_of(v as int, bins as int));
                lemma_partial_grows(f(b as int), y as int, h as int, x + 1, w as int);
                assert(line_sum(f(b as int), y as int, 0, x + 1) == line_sum(
                    f(b as int),
                    y as int,
                    0,
                    x as int,
                ) + 1);
            }
            let c: u32 = hist[b];
            if c == u32::MAX {
                assert(bin_count(data@, w as int, h as int, s as int, bins as int, b as int)
                    > u32::MAX);
                return None;
            }
            hist[b] = c + 1;
            proof {
                assert forall|j: int| 0 <= j < bins implies #[trigger] hist@[j] == area_sum(
                    f(j),
                    0,
                    y as int,
                    0,
                    w as int,
                ) + line_sum(f(j), y as int, 0, x + 1) by {
                    assert(before[j] == area_sum(f(j), 0, y as int, 0, w as int) + line_sum(
                        f(j),
                        y as int,
                        0,
                        x as int,
                    ));
                    assert(line_sum(f(j), y as int, 0, x + 1) == line_sum(
                        f(j),
                        y as int,
                        0,
                        x as int,
                    ) + f(j)(y as int, x as int));
                }
            }
            x = x + 1;
        }
        y = y + 1;
    }
    proof {
        let want = histogram_of(data@, w as int, h as int, s as int, bins as int);
        assert forall|j: int| 0 <= j < bins implies #[trigger] hist@[j] == bin_count(
            data@,
            w as int,
            h as int,
            s as int,
            bins as int,
            j,
        ) by {
            assert(f(j) == in_bin(data@, s as int, bins as int, j));
        }
        assert(hist@ =~= want);
        assert(frame_fits(*frame, bins as int)) by {
            assert forall|j: int| 0 <= j < bins implies #[trigger] bin_count(
                data@,
                w as int,
                h as int,
                s as int,
                bins as int,
                j,
            ) <= u32::MAX by {
                assert(hist@[j] == bin_count(
                    data@,
                    w as int,
                    h as int,
                    s as int,
                    bins as int,
                    j,
                ));
            }
        }
    }
    Some(hist)
}

/// The counts of a histogram as integers.
pub open spec fn counts(a: Seq<u32>) -> Seq<int> {
    Seq::new(a.len(), |i: int| a[i] as int)
}

/// Sum of the first `n` terms.
pub open spec fn total(a: Seq<int>, n: int) -> int
    decreases n,
{
    if n <= 0 {
        0
    } else {
        total(a, n - 1) + a[n - 1]
    }
}

/// Sum of the products of the first `n` terms.
pub open spec fn dot(a: Seq<int>, b: Seq<int>, n: int) -> int
    decreases n,
{
    if n <= 0 {
        0
    } else {
        dot(a, b, n - 1) + a[n - 1] * b[n - 1]
    }
}

/// Covariance of two sequences, times the square of their length.
pub open spec fn covariance(a: Seq<int>, b: Seq<int>) -> int {
    a.len() * dot(a, b, a.len() as int) - total(a, a.len() as int) * total(b, a.len() as int)
}

/// How similar two histograms are: equal and flat, not comparable, or as their
/// moments say. The correlation is the covariance over the root of the product of
/// both variances; of two equal flat histograms it counts as one, and where one
/// histogram is flat and the other is not, or differs, as zero.
#[derive(Debug, Clone, Copy, PartialEq, Eq, Structural)]
pub enum Similarity {
    /// Both histograms are flat and equal.
    EqualFlat,
    /// A histogram is flat, and the other one differs from it.
    Unrelated,
    /// Neither histogram is flat.
    Moments {
        /// Covariance, times the square of the number of bins.
        covariance: i128,
        /// Variance of the first histogram, times the square of the number of bins.
        variance_a: u128,
        /// Variance of the second histogram, times the square of the number of bins.
        variance_b: u128,
    },
}

/// How similar two histograms are.
pub open spec fn similarity(a: Seq<u32>, b: Seq<u32>) -> Similarity {
    let va = covariance(counts(a), counts(a));
    let vb = covariance(counts(b), counts(b));
    if va == 0 && vb == 0 {
        if a == b {
            Similarity::EqualFlat
        } else {
            Similarity::Unrelated
        }
    } else if va == 0 || vb == 0 {
        Similarity::Unrelated
    } else {
        Similarity::Moments {
            covariance: covariance(counts(a), counts(b)) as i128,
            variance_a: va as u128,
            variance_b: vb as u128,
        }
    }
}

/// Sum of the squared distances of the first `n` terms from `x`.
spec fn spread(a: Seq<int>, n: int, x: int) -> int
    decreases n,
{
    if n <= 0 {
        0
    } else {
        spread(a, n - 1, x) + (a[n - 1] - x) * (a[n - 1] - x)
    }
}

/// A sum of squared distances is not negative, is zero only where all terms equal
/// `x`, and expands into moments.
proof fn lemma_spread(a: Seq<int>, n: int, x: int)
    requires
        0 <= n,
    ensures
        spread(a, n, x) >= 0,
        spread(a, n, x) == 0 ==> forall|i: int| 0 <= i < n ==> #[trigger] a[i] == x,
        spread(a, n, x) == dot(a, a, n) - 2 * x * total(a, n) + n * (x * x),
    decreases n,
{
    if n > 0 {
        lemma_spread(a, n - 1, x);
        let d = a[n - 1] - x;
        let y = a[n - 1];
        let t = total(a, n - 1);
        assert(d * d >= 0) by (nonlinear_arith);
        assert(d * d == 0 ==> d == 0) by (nonlinear_arith);
        assert((y - x) * (y - x) == y * y - 2 * x * y + x * x) by (nonlinear_arith);
        assert(2 * x * (t + y) == 2 * x * t + 2 * x * y) by (nonlinear_arith);
        assert(n * (x * x) == (n - 1) * (x * x) + x * x) by (nonlinear_arith);
    } else {
        assert(2 * x * 0 == 0);
        assert(0 * (x * x) == 0);
    }
}

/// The variance of the first `n` terms, times the square of `n`.
spec fn variance(a: Seq<int>, n: int) -> int {
    n * dot(a, a, n) - total(a, n) * total(a, n)
}

/// A variance is not negative, and zero only where all terms are equal.
proof fn lemma_variance(a: Seq<int>, n: int)
    requires
        0 <= n,
    ensures
        variance(a, n) >= 0,
        variance(a, n) == 0 ==> forall|i: int, j: int|
            0 <= i < n && 0 <= j < n ==> #[trigger] a[i] == #[trigger] a[j],
    decreases n,
{
    if n > 0 {
        lemma_variance(a, n - 1);
        let x = a[n - 1];
        let m = n - 1;
        let s = total(a, m);
        let q = dot(a, a, m);
        lemma_spread(a, m, x);
        assert((m + 1) * (q + x * x) - (s + x) * (s + x) == (m * q - s * s) + (q - 2 * x * s + m
            * (x * x))) by (nonlinear_arith);
        assert(variance(a, n) == variance(a, m) + spread(a, m, x));
        if variance(a, n) == 0 {
            assert forall|i: int, j: int| 0 <= i < n && 0 <= j < n implies #[trigger] a[i]
                == #[trigger] a[j] by {
                assert(i < m ==> a[i] == x);
                assert(j < m ==> a[j] == x);
            }
        }
    }
}

/// The variance of a constant sequence is zero.
proof fn lemma_flat(a: Seq<int>, n: int)
    requires
        0 <= n <= a.len(),
        forall|i: int, j: int| 0 <= i < n && 0 <= j < n ==> #[trigger] a[i] == #[trigger] a[j],
    ensures
        variance(a, n) == 0,
    decreases n,
{
    if n > 0 {
        lemma_flat(a, n - 1);
        let x = a[n - 1];
        let m = n - 1;
        let s = total(a, m);
        let q = dot(a, a, m);
        lemma_flat_spread(a, m, x);
        lemma_spread(a, m, x);
        assert((m + 1) * (q + x * x) - (s + x) * (s + x) == (m * q - s * s) + (q - 2 * x * s + m
            * (x * x))) by (nonlinear_arith);
    }
}

/// Terms that all equal `x` have no distance from it.
proof fn lemma_flat_spread(a: Seq<int>, n: int, x: int)
    requires
        forall|i: int| 0 <= i < n ==> #[trigger] a[i] == x,
    ensures
        spread(a, n, x) == 0,
    decreases n,
{
    if n > 0 {
        lemma_flat_spread(a, n - 1, x);
        let d = a[n - 1] - x;
        assert(d * d == 0) by (nonlinear_arith)
            requires
                d == 0,
        ;
    }
}

/// The moments of the first terms of histograms are bounded.
proof fn lemma_moment_bounds(a: Seq<u32>, b: Seq<u32>, n: int)
    requires
        0 <= n <= a.len(),
        n <= b.len(),
    ensures
        0 <= total(counts(a), n) <= n * u32::MAX,
        0 <= dot(counts(a), counts(b), n) <= total(counts(a), n) * u32::MAX,
    decreases n,
{
    if n > 0 {
        lemma_moment_bounds(a, b, n - 1);
        let s = total(counts(a), n - 1);
        let x = counts(a)[n - 1];
        let y = counts(b)[n - 1];
        assert(0 <= x * y <= x * u32::MAX) by (nonlinear_arith)
            requires
                0 <= x,
                0 <= y <= u32::MAX,
        ;
        assert((s + x) * u32::MAX == s * u32::MAX + x * u32::MAX) by (nonlinear_arith);
        assert(n * u32::MAX == (n - 1) * u32::MAX + u32::MAX) by (nonlinear_arith);
    }
}

/// With as many bins as 32 bits can count, the moments stay below 64 and 96 bits.
proof fn lemma_moments_fit(a: Seq<u32>, b: Seq<u32>, n: int)
    requires
        0 <= n <= a.len(),
        n <= b.len(),
        n <= u32::MAX,
    ensures
        0 <= total(counts(a), n) <= 0xffff_fffe_0000_0001,
        0 <= dot(counts(a), counts(b), n) <= 0xffff_fffd_0000_0002_ffff_ffff,
{
    lemma_moment_bounds(a, b, n);
    let s = total(counts(a), n);
    assert(n * u32::MAX <= 0xffff_fffe_0000_0001) by (nonlinear_arith)
        requires
            0 <= n <= 0xffff_ffff,
    ;
    assert(s * u32::MAX <= 0xffff_fffd_0000_0002_ffff_ffff) by (nonlinear_arith)
        requires
            0 <= s <= 0xffff_fffe_0000_0001,
    ;
}

/// The products that make up a covariance fit in 128 bits.
proof fn lemma_products_fit(n: int, q: int, s: int, t: int)
    requires
        0 <= n <= u32::MAX,
        0 <= q <= 0xffff_fffd_0000_0002_ffff_ffff,
        0 <= s <= 0xffff_fffe_0000_0001,
        0 <= t <= 0xffff_fffe_0000_0001,
    ensures
        0 <= n * q <= u128::MAX,
        0 <= s * t <= u128::MAX,
{
    assert(0 <= n * q <= 0xffff_ffff * 0xffff_fffd_0000_0002_ffff_ffff) by (nonlinear_arith)
        requires
            0 <= n <= 0xffff_ffff,
            0 <= q <= 0xffff_fffd_0000_0002_ffff_ffff,
    ;
    assert(0 <= s * t <= 0xffff_fffe_0000_0001 * 0xffff_fffe_0000_0001) by (nonlinear_arith)
        requires
            0 <= s <= 0xffff_fffe_0000_0001,
            0 <= t <= 0xffff_fffe_0000_0001,
    ;
}

/// A variance, times the square of the number of bins, stays below 127 bits.
proof fn lemma_variance_fits(a: Seq<u32>)
    requires
        a.len() <= u32::MAX,
    ensures
        0 <= covariance(counts(a), counts(a)) <= 0x4000_0000_0000_0000_0000_0000_0000_0000,
{
    let n = a.len() as int;
    let s = total(counts(a), n);
    let q = dot(counts(a), counts(a), n);
    let most = n * u32::MAX;
    lemma_variance(counts(a), n);
    lemma_moment_bounds(a, a, n);
    lemma_moments_fit(a, a, n);
    assert(n * q <= n * (s * u32::MAX)) by (nonlinear_arith)
        requires
            q <= s * u32::MAX,
            0 <= n,
    ;
    assert(n * (s * u32::MAX) == s * most) by (nonlinear_arith)
        requires
            most == n * u32::MAX,
    ;
    assert(4 * (s * most - s * s) <= most * most) by (nonlinear_arith);
    assert(most * most <= 0x1_0000_0000_0000_0000 * 0x1_0000_0000_0000_0000) by (nonlinear_arith)
        requires
            0 <= most <= 0x1_0000_0000_0000_0000,
    ;
}

/// A covariance, times the square of the number of bins, fits in 128 bits with its sign.
proof fn lemma_covariance_fits(a: Seq<u32>, b: Seq<u32>)
    requires
        a.len() == b.len(),
        a.len() <= u32::MAX,
    ensures
        -i128::MAX <= covariance(counts(a), counts(b)) <= i128::MAX,
{
    lemma_variance_fits(a);
    lemma_variance_fits(b);
    correlation_is_bounded(a, b);
    let c = covariance(counts(a), counts(b));
    let va = covariance(counts(a), counts(a));
    let vb = covariance(counts(b), counts(b));
    let top = 0x4000_0000_0000_0000_0000_0000_0000_0000int;
    assert(va * vb <= top * top) by (nonlinear_arith)
        requires
            0 <= va <= top,
            0 <= vb <= top,
    ;
    assert(-top <= c <= top) by (nonlinear_arith)
        requires
            c * c <= top * top,
            top > 0,
    ;
}

/// Sum of the counts of a histogram.
fn sum_counts(a: &[u32]) -> (s: u64)
    requires
        a@.len() <= u32::MAX,
    ensures
        s == total(counts(a@), a@.len() as int),
{
    let n: usize = a.len();
    let mut s: u64 = 0;
    let mut i: usize = 0;
    while i < n
        invariant
            n == a@.len(),
            n <= u32::MAX,
            i <= n,
            s == total(counts(a@), i as int),
        decreases n - i,
    {
        proof {
            lemma_moments_fit(a@, a@, i + 1);
            assert(counts(a@)[i as int] == a@[i as int]);
        }
        s = s + a[i] as u64;
        i = i + 1;
    }
    s
}

/// Sum of the products of the counts of two histograms.
fn dot_counts(a: &[u32], b: &[u32]) -> (s: u128)
    requires
        a@.len() == b@.len(),
        a@.len() <= u32::MAX,
    ensures
        s == dot(counts(a@), counts(b@), a@.len() as int),
{
    let n: usize = a.len();
    let mut s: u128 = 0;
    let mut i: usize = 0;
    while i < n
        invariant
            n == a@.len(),
            n == b@.len(),
            n <= u32::MAX,
            i <= n,
            s == dot(counts(a@), counts(b@), i as int),
        decreases n - i,
    {
        let x: u128 = a[i] as u128;
        let y: u128 = b[i] as u128;
        proof {
            lemma_moments_fit(a@, b@, i + 1);
            lemma_moments_fit(a@, b@, i as int);
            assert(counts(a@)[i as int] == x);
            assert(counts(b@)[i as int] == y);
            lemma_mul_upper_bound(x as int, u32::MAX as int, y as int, u32::MAX as int);
            lemma_mul_nonnegative(x as int, y as int);
        }
        s = s + x * y;
        i = i + 1;
    }
    s
}

/// Whether two histograms are equal.
fn same_counts(a: &[u32], b: &[u32]) -> (same: bool)
    requires
        a@.len() == b@.len(),
    ensures
        same == (a@ == b@),
{
    let n: usize = a.len();
    let mut i: usize = 0;
    while i < n
        invariant
            n == a@.len(),
            n == b@.len(),
            i <= n,
            forall|j: int| 0 <= j < i ==> a@[j] == b@[j],
        decreases n - i,
    {
        if a[i] != b[i] {
            return false;
        }
        i = i + 1;
    }
    assert(a@ =~= b@);
    true
}

/// Variance of a histogram, times the square of the number of bins.
fn variance_counts(a: &[u32]) -> (v: u128)
    requires
        a@.len() <= u32::MAX,
    ensures
        v == covariance(counts(a@), counts(a@)),
{
    let s: u64 = sum_counts(a);
    let q: u128 = dot_counts(a, a);
    let n: usize = a.len();
    proof {
        lemma_variance(counts(a@), n as int);
        lemma_moments_fit(a@, a@, n as int);
        lemma_products_fit(n as int, q as int, s as int, s as int);
    }
    n as u128 * q - s as u128 * s as u128
}

/// How similar two histograms with the same number of bins are.
pub fn correlation(a: &[u32], b: &[u32]) -> (r: Similarity)
    requires
        a@.len() == b@.len(),
        a@.len() <= u32::MAX,
    ensures
        r == similarity(a@, b@),
        r matches Similarity::Moments { covariance: c, variance_a: va, variance_b: vb } ==> {
            &&& c == covariance(counts(a@), counts(b@))
            &&& va == covariance(counts(a@), counts(a@))
            &&& vb == covariance(counts(b@), counts(b@))
            &&& va > 0 && vb > 0
            &&& c * c <= va * vb
        },
{
    let variance_a: u128 = variance_counts(a);
    let variance_b: u128 = variance_counts(b);
    if variance_a == 0 && variance_b == 0 {
        return if same_counts(a, b) {
            Similarity::EqualFlat
        } else {
            Similarity::Unrelated
        };
    }
    if variance_a == 0 || variance_b == 0 {
        return Similarity::Unrelated;
    }
    let n: usize = a.len();
    let sa: u64 = sum_counts(a);
    let sb: u64 = sum_counts(b);
    let q: u128 = dot_counts(a, b);
    proof {
        lemma_moments_fit(a@, b@, n as int);
        lemma_moments_fit(b@, a@, n as int);
        lemma_products_fit(n as int, q as int, sa as int, sb as int);
        lemma_covariance_fits(a@, b@);
        lemma_variance(counts(a@), n as int);
        lemma_variance(counts(b@), n as int);
        correlation_is_bounded(a@, b@);
    }
    let up: u128 = n as u128 * q;
    let down: u128 = sa as u128 * sb as u128;
    let covariance: i128 = if up >= down {
        (up - down) as i128
    } else {
        -((down - up) as i128)
    };
    Similarity::Moments { covariance, variance_a, variance_b }
}

/// The correlation of two histograms and the limit it is held against.
#[derive(Debug, Clone, Copy)]
pub struct Correlated {
    /// The correlation.
    pub diff: Real,
    /// Correlation at or below which a frame is a cut.
    pub limit: Real,
}

/// The state of a detector, as a value.
pub struct Model {
    /// The configuration.
    pub options: Options,
    /// The histogram of the frame before, if there is one.
    pub previous: Option<Seq<u32>>,
    /// The cut from which the minimum duration is counted.
    pub last_cut: Option<Timestamp>,
    /// The correlation of the last frame that had a predecessor.
    pub last_diff: Option<Real>,
}

impl Model {
    /// The state at the start of a stream.
    pub open spec fn fresh(o: Options) -> Model {
        Model { options: o, previous: None, last_cut: None, last_diff: None }
    }

    /// The state with a point to count the minimum duration from.
    pub open spec fn seeded(self, ts: Timestamp) -> Model {
        match self.last_cut {
            Some(_) => self,
            None => Model {
                last_cut: Some(
                    seed_at(ts, self.options.allow_initial_cut, self.options.min_duration),
                ),
                ..self
            },
        }
    }

    /// The state after a frame with the histogram `hist` and the correlation `c` to
    /// the frame before, and the cut it gives.
    pub open spec fn compared(self, hist: Seq<u32>, ts: Timestamp, c: Correlated) -> (
        Model,
        Option<Timestamp>,
    ) {
        let next = Model { previous: Some(hist), last_diff: Some(c.diff), ..self };
        if c.limit.ge(c.diff) && min_length_met(
            ts,
            self.last_cut->0,
            self.options.min_duration,
        ) {
            (Model { last_cut: Some(ts), ..next }, Some(ts))
        } else {
            (next, None)
        }
    }

    /// The state and the cut after a frame with the histogram `hist`, where
    /// `correlate` turns the moments and the threshold into a correlation and its
    /// limit.
    pub open spec fn processed<C: Fn(Similarity, Real) -> Correlated>(
        self,
        hist: Seq<u32>,
        ts: Timestamp,
        correlate: C,
        after: Model,
        cut: Option<Timestamp>,
    ) -> bool {
        let m = self.seeded(ts);
        match m.previous {
            None => after == (Model { previous: Some(hist), ..m }) && cut is None,
            Some(p) => exists|c: Correlated| #[trigger]
                correlate.ensures((similarity(p, hist), self.options.threshold), c) && (after, cut)
                    == m.compared(
                    hist,
                    ts,
                    c,
                ),
        }
    }
}

/// Why these options are refused, if they are.
pub open spec fn options_fault(o: Options) -> Option<Error> {
    if 4 * o.bins > usize::MAX {
        Some(Error::BinCountTooLarge { bins: o.bins })
    } else {
        None
    }
}

/// A streaming detector.
#[derive(Debug, Clone)]
pub struct Detector {
    options: Options,
    previous: Option<Vec<u32>>,
    last_cut: Option<Timestamp>,
    last_diff: Option<Real>,
}

impl View for Detector {
    type V = Model;

    closed spec fn view(&self) -> Model {
        Model {
            options: self.options,
            previous: match self.previous {
                Some(p) => Some(p@),
                None => None,
            },
            last_cut: self.last_cut,
            last_diff: self.last_diff,
        }
    }
}

impl Detector {
    /// What holds of every detector between calls.
    pub closed spec fn wf(&self) -> bool {
        &&& options_fault(self.options) is None
        &&& 0 < self.options.bins <= u32::MAX
        &&& self.previous matches Some(p) ==> {
            &&& p@.len() == self.options.bins
            &&& self.last_cut is Some
        }
    }

    /// A detector with valid options.
    pub fn new(options: Options) -> (d: Detector)
        requires
            options_fault(options) is None,
            0 < options.bins <= u32::MAX,
        ensures
            d@ == Model::fresh(options),
            d.wf(),
    {
        Detector { options, previous: None, last_cut: None, last_diff: None }
    }

    /// A detector, or the reason why there is none. A number of bins that does not
    /// fit in 32 bits, and is not refused, has no bin table.
    pub fn try_new(options: Options) -> (r: Result<Detector, Error>)
        requires
            options.bins > 0,
            options.bins <= u32::MAX || options_fault(options) is Some,
        ensures
            match r {
                Ok(d) => options_fault(options) is None && d@ == Model::fresh(options) && d.wf(),
                Err(e) => options_fault(options) == Some(e),
            },
    {
        match N_ACCUM.checked_mul(options.bins) {
            Some(_) => Ok(Detector::new(options)),
            None => Err(Error::BinCountTooLarge { bins: options.bins }),
        }
    }

    /// The configuration.
    pub fn options(&self) -> (o: &Options)
        ensures
            *o == self@.options,
    {
        &self.options
    }

    /// The correlation of the last frame that had a predecessor.
    pub fn last_hist_diff(&self) -> (d: Option<Real>)
        ensures
            d == self@.last_diff,
    {
        self.last_diff
    }

    /// Forgets the stream; the state is that of a new detector.
    pub fn clear(&mut self)
        requires
            old(self).wf(),
        ensures
            final(self)@ == Model::fresh(old(self)@.options),
            final(self).wf(),
    {
        self.previous = None;
        self.last_cut = None;
        self.last_diff = None;
    }

    /// Takes in a luma frame and returns the cut it gives, if any.
    pub fn process<C: Fn(Similarity, Real) -> Correlated>(
        &mut self,
        frame: LumaFrame<'_>,
        correlate: C,
    ) -> (cut: Option<Timestamp>)
        requires
            old(self).wf(),
            frame_fits(frame, old(self)@.options.bins as int),
            forall|s: Similarity, t: Real| #[trigger] correlate.requires((s, t)),
        ensures
            final(self).wf(),
            old(self)@.processed(
                histogram_of(
                    frame.bytes(),
                    frame.columns() as int,
                    frame.rows() as int,
                    frame.pitch() as int,
                    old(self)@.options.bins as int,
                ),
                frame.time(),
                correlate,
                final(self)@,
                cut,
            ),
    {
        let ts: Timestamp = frame.timestamp();
        let last: Timestamp = match self.last_cut {
            Some(t) => t,
            None => gate_seed(ts, self.options.allow_initial_cut, self.options.min_duration),
        };
        self.last_cut = Some(last);
        let hist: Vec<u32> = compute_histogram(&frame, self.options.bins);
        let ghost model = old(self)@.seeded(ts);
        let mut cut: Option<Timestamp> = None;
        match &self.previous {
            Some(prev) => {
                let c: Correlated = correlate(
                    correlation(prev.as_slice(), hist.as_slice()),
                    self.options.threshold,
                );
                self.last_diff = Some(c.diff);
                let met: bool = elapsed_at_least(ts, last, self.options.min_duration);
                if c.limit.at_least(&c.diff) && met {
                    cut = Some(ts);
                    self.last_cut = Some(ts);
                }
            },
            None => {},
        }
        self.previous = Some(hist);
        cut
    }
}

/// Sum of `f(j)` for `j` below `n`.
pub open spec fn sum_below(f: spec_fn(int) -> int, n: int) -> int
    decreases n,
{
    if n <= 0 {
        0
    } else {
        sum_below(f, n - 1) + f(n - 1)
    }
}

/// One at `b`, zero elsewhere, sums to one.
proof fn lemma_one_bin(f: spec_fn(int) -> int, b: int, n: int)
    requires
        0 <= b,
        forall|j: int|
            0 <= j < n ==> #[trigger] f(j) == if j == b {
                1int
            } else {
                0int
            },
    ensures
        sum_below(f, n) == if b < n {
            1int
        } else {
            0int
        },
    decreases n,
{
    if n > 0 {
        lemma_one_bin(f, b, n - 1);
    }
}

/// The sum of two sequences is the sum of their sums.
proof fn lemma_sum_split(
    f: spec_fn(int) -> int,
    g: spec_fn(int) -> int,
    h: spec_fn(int) -> int,
    n: int,
)
    requires
        forall|j: int| 0 <= j < n ==> #[trigger] f(j) == g(j) + h(j),
    ensures
        sum_below(f, n) == sum_below(g, n) + sum_below(h, n),
    decreases n,
{
    if n > 0 {
        lemma_sum_split(f, g, h, n - 1);
    }
}

/// Along a row, every pixel falls into one bin.
proof fn lemma_line_bins(p: Seq<u8>, y: int, x: int, stride: int, bins: int)
    requires
        0 <= x,
        0 < bins,
    ensures
        sum_below(|j: int| line_sum(in_bin(p, stride, bins, j), y, 0, x), bins) == x,
    decreases x,
{
    let f = |j: int| line_sum(in_bin(p, stride, bins, j), y, 0, x);
    if x == 0 {
        lemma_sum_zero(f, bins);
    } else {
        lemma_line_bins(p, y, x - 1, stride, bins);
        let g = |j: int| line_sum(in_bin(p, stride, bins, j), y, 0, x - 1);
        let h = |j: int| in_bin(p, stride, bins, j)(y, x - 1);
        lemma_bin_range(sample(p, y, x - 1, stride), bins);
        lemma_one_bin(h, bin_of(sample(p, y, x - 1, stride), bins), bins);
        lemma_sum_split(f, g, h, bins);
    }
}

/// A sum of zeros is zero.
proof fn lemma_sum_zero(f: spec_fn(int) -> int, n: int)
    requires
        forall|j: int| 0 <= j < n ==> #[trigger] f(j) == 0,
    ensures
        sum_below(f, n) == 0,
    decreases n,
{
    if n > 0 {
        lemma_sum_zero(f, n - 1);
    }
}

/// Over an area, every pixel falls into one bin.
proof fn lemma_area_bins(p: Seq<u8>, w: int, h: int, stride: int, bins: int)
    requires
        0 <= w,
        0 <= h,
        0 < bins,
    ensures
        sum_below(|j: int| area_sum(in_bin(p, stride, bins, j), 0, h, 0, w), bins) == w * h,
    decreases h,
{
    let f = |j: int| area_sum(in_bin(p, stride, bins, j), 0, h, 0, w);
    if h == 0 {
        lemma_sum_zero(f, bins);
    } else {
        lemma_area_bins(p, w, h - 1, stride, bins);
        lemma_line_bins(p, h - 1, w, stride, bins);
        let g = |j: int| area_sum(in_bin(p, stride, bins, j), 0, h - 1, 0, w);
        let l = |j: int| line_sum(in_bin(p, stride, bins, j), h - 1, 0, w);
        lemma_sum_split(f, g, l, bins);
        assert(w * h == w * (h - 1) + w) by (nonlinear_arith);
    }
}

/// The total of a sequence is the sum of its terms.
proof fn lemma_total_is_sum(a: Seq<int>, f: spec_fn(int) -> int, n: int)
    requires
        forall|j: int| 0 <= j < n ==> a[j] == #[trigger] f(j),
    ensures
        total(a, n) == sum_below(f, n),
    decreases n,
{
    if n > 0 {
        lemma_total_is_sum(a, f, n - 1);
        assert(a[n - 1] == f(n - 1));
    }
}

/// The counts of a histogram add up to the number of pixels.
pub proof fn every_pixel_is_counted_once(p: Seq<u8>, w: int, h: int, stride: int, bins: int)
    requires
        0 <= w,
        0 <= h,
        0 < bins,
        bins_fit(p, w, h, stride, bins),
    ensures
        total(counts(histogram_of(p, w, h, stride, bins)), bins) == w * h,
{
    let f = |j: int| area_sum(in_bin(p, stride, bins, j), 0, h, 0, w);
    let hist = counts(histogram_of(p, w, h, stride, bins));
    assert forall|j: int| 0 <= j < bins implies hist[j] == #[trigger] f(j) by {
        lemma_area_sum_bound(in_bin(p, stride, bins, j), 0, h, 0, w, 0, 1);
        assert(1 * (w * h) == w * h);
        assert(0 * (w * h) == 0);
    }
    lemma_total_is_sum(hist, f, bins);
    lemma_area_bins(p, w, h, stride, bins);
}

/// Sums over equal terms are equal.
proof fn lemma_area_agrees(
    f: spec_fn(int, int) -> int,
    g: spec_fn(int, int) -> int,
    w: int,
    h: int,
)
    requires
        forall|y: int, x: int| 0 <= y < h && 0 <= x < w ==> #[trigger] f(y, x) == g(y, x),
    ensures
        area_sum(f, 0, h, 0, w) == area_sum(g, 0, h, 0, w),
    decreases h,
{
    if h > 0 {
        lemma_area_agrees(f, g, w, h - 1);
        lemma_line_agrees(f, g, h - 1, w);
    }
}

/// Sums along a line over equal terms are equal.
proof fn lemma_line_agrees(
    f: spec_fn(int, int) -> int,
    g: spec_fn(int, int) -> int,
    y: int,
    w: int,
)
    requires
        forall|x: int| 0 <= x < w ==> #[trigger] f(y, x) == g(y, x),
    ensures
        line_sum(f, y, 0, w) == line_sum(g, y, 0, w),
    decreases w,
{
    if w > 0 {
        lemma_line_agrees(f, g, y, w - 1);
        assert(f(y, w - 1) == g(y, w - 1));
    }
}

/// Row padding does not count: two planes that agree on their pixels, whatever
/// their strides, have the same histogram.
pub proof fn padding_does_not_count(
    p: Seq<u8>,
    q: Seq<u8>,
    w: int,
    h: int,
    p_stride: int,
    q_stride: int,
    bins: int,
)
    requires
        0 <= bins,
        forall|y: int, x: int|
            0 <= y < h && 0 <= x < w ==> #[trigger] sample(p, y, x, p_stride) == sample(
                q,
                y,
                x,
                q_stride,
            ),
    ensures
        histogram_of(p, w, h, p_stride, bins) == histogram_of(q, w, h, q_stride, bins),
{
    assert forall|j: int| 0 <= j < bins implies bin_count(p, w, h, p_stride, bins, j) == bin_count(
        q,
        w,
        h,
        q_stride,
        bins,
        j,
    ) by {
        let f = in_bin(p, p_stride, bins, j);
        let g = in_bin(q, q_stride, bins, j);
        assert forall|y: int, x: int| 0 <= y < h && 0 <= x < w implies #[trigger] f(y, x) == g(
            y,
            x,
        ) by {
            assert(sample(p, y, x, p_stride) == sample(q, y, x, q_stride));
        }
        lemma_area_agrees(f, g, w, h);
    }
    assert(histogram_of(p, w, h, p_stride, bins) =~= histogram_of(q, w, h, q_stride, bins));
}

/// A histogram has variance zero just where it is flat.
pub proof fn zero_variance_means_flat(a: Seq<u32>)
    ensures
        covariance(counts(a), counts(a)) == 0 <==> forall|i: int, j: int|
            0 <= i < a.len() && 0 <= j < a.len() ==> #[trigger] a[i] == #[trigger] a[j],
        covariance(counts(a), counts(a)) >= 0,
{
    let c = counts(a);
    let n = a.len() as int;
    lemma_variance(c, n);
    if covariance(c, c) == 0 {
        assert forall|i: int, j: int| 0 <= i < n && 0 <= j < n implies #[trigger] a[i]
            == #[trigger] a[j] by {
            assert(c[i] == c[j]);
        }
    }
    if forall|i: int, j: int|
        0 <= i < a.len() && 0 <= j < a.len() ==> #[trigger] a[i] == #[trigger] a[j] {
        assert forall|i: int, j: int| 0 <= i < n && 0 <= j < n implies #[trigger] c[i]
            == #[trigger] c[j] by {
            assert(a[i] == a[j]);
        }
        lemma_flat(c, n);
    }
}

/// Moments of `s * a - t * b`, term by term.
proof fn lemma_mixed_moments(a: Seq<int>, b: Seq<int>, c: Seq<int>, s: int, t: int, n: int)
    requires
        forall|i: int| 0 <= i < n ==> #[trigger] c[i] == s * a[i] - t * b[i],
    ensures
        total(c, n) == s * total(a, n) - t * total(b, n),
        dot(c, c, n) == s * s * dot(a, a, n) - 2 * s * t * dot(a, b, n) + t * t * dot(b, b, n),
    decreases n,
{
    if n > 0 {
        lemma_mixed_moments(a, b, c, s, t, n - 1);
        let x = a[n - 1];
        let y = b[n - 1];
        let z = c[n - 1];
        let ta = total(a, n - 1);
        let tb = total(b, n - 1);
        let aa = dot(a, a, n - 1);
        let ab = dot(a, b, n - 1);
        let bb = dot(b, b, n - 1);
        assert(s * (ta + x) == s * ta + s * x) by (nonlinear_arith);
        assert(t * (tb + y) == t * tb + t * y) by (nonlinear_arith);
        lemma_square_of_difference(s, x, t, y);
        assert(s * s * (aa + x * x) == s * s * aa + s * s * (x * x)) by (nonlinear_arith);
        assert(2 * s * t * (ab + x * y) == 2 * s * t * ab + 2 * s * t * (x * y))
            by (nonlinear_arith);
        assert(t * t * (bb + y * y) == t * t * bb + t * t * (y * y)) by (nonlinear_arith);
    } else {
        assert(s * 0 == 0);
        assert(t * 0 == 0);
        assert(s * s * 0 == 0);
        assert(2 * s * t * 0 == 0);
        assert(t * t * 0 == 0);
    }
}

/// A quadratic form in the moments is not negative.
proof fn lemma_quadratic(a: Seq<int>, b: Seq<int>, s: int, t: int)
    requires
        a.len() == b.len(),
    ensures
        s * s * covariance(a, a) - 2 * s * t * covariance(a, b) + t * t * covariance(b, b) >= 0,
{
    let n = a.len() as int;
    let c = Seq::new(a.len(), |i: int| s * a[i] - t * b[i]);
    lemma_mixed_moments(a, b, c, s, t, n);
    lemma_variance(c, n);
    let ta = total(a, n);
    let tb = total(b, n);
    let aa = dot(a, a, n);
    let ab = dot(a, b, n);
    let bb = dot(b, b, n);
    lemma_square_of_difference(s, ta, t, tb);
    assert(n * (s * s * aa - 2 * s * t * ab + t * t * bb) == n * (s * s * aa) - n * (2 * s * t
        * ab) + n * (t * t * bb)) by (nonlinear_arith);
    lemma_weighted(s * s, n, aa, ta * ta);
    lemma_weighted(2 * s * t, n, ab, ta * tb);
    lemma_weighted(t * t, n, bb, tb * tb);
}

/// A factor moves through a difference.
proof fn lemma_weighted(k: int, n: int, d: int, p: int)
    ensures
        n * (k * d) - k * p == k * (n * d - p),
{
    assert(n * (k * d) - k * p == k * (n * d - p)) by (nonlinear_arith);
}

/// The square of a difference of two products.
proof fn lemma_square_of_difference(s: int, x: int, t: int, y: int)
    ensures
        (s * x - t * y) * (s * x - t * y) == s * s * (x * x) - 2 * s * t * (x * y) + t * t * (y
            * y),
{
    let u = s * x;
    let v = t * y;
    assert((u - v) * (u - v) == u * u - 2 * (u * v) + v * v) by (nonlinear_arith);
    assert(u * u == s * s * (x * x)) by (nonlinear_arith)
        requires
            u == s * x,
    ;
    assert(v * v == t * t * (y * y)) by (nonlinear_arith)
        requires
            v == t * y,
    ;
    assert(2 * (u * v) == 2 * s * t * (x * y)) by (nonlinear_arith)
        requires
            u == s * x,
            v == t * y,
    ;
}

/// The correlation lies between minus one and one: the square of the covariance
/// does not exceed the product of the variances.
pub proof fn correlation_is_bounded(a: Seq<u32>, b: Seq<u32>)
    requires
        a.len() == b.len(),
    ensures
        ({
            let c = covariance(counts(a), counts(b));
            c * c <= covariance(counts(a), counts(a)) * covariance(counts(b), counts(b))
        }),
{
    let x = counts(a);
    let y = counts(b);
    let c = covariance(x, y);
    let va = covariance(x, x);
    let vb = covariance(y, y);
    lemma_variance(x, x.len() as int);
    lemma_variance(y, y.len() as int);
    if vb > 0 {
        lemma_quadratic(x, y, vb, c);
        assert(c * c <= va * vb) by (nonlinear_arith)
            requires
                vb * vb * va - 2 * vb * c * c + c * c * vb >= 0,
                vb > 0,
        ;
    } else {
        let t = c * (va + 1);
        lemma_quadratic(x, y, 1, t);
        assert(c == 0) by (nonlinear_arith)
            requires
                1 * 1 * va - 2 * 1 * t * c + t * t * vb >= 0,
                vb == 0,
                t == c * (va + 1),
                va >= 0,
        ;
        assert(va * vb == 0) by (nonlinear_arith)
            requires
                vb == 0,
        ;
    }
}

/// The moments that tell how similar two histograms are, are exact: they equal covariance
/// and variances, whose square and product they are bounded by.
pub proof fn moments_are_exact(a: Seq<u32>, b: Seq<u32>)
    requires
        a.len() == b.len(),
        a.len() <= u32::MAX,
    ensures
        similarity(a, b) matches Similarity::Moments {
            covariance: c,
            variance_a: va,
            variance_b: vb,
        } ==> {
            &&& c == covariance(counts(a), counts(b))
            &&& va == covariance(counts(a), counts(a))
            &&& vb == covariance(counts(b), counts(b))
            &&& va > 0 && vb > 0
            &&& c * c <= va * vb
        },
{
    lemma_variance_fits(a);
    lemma_variance_fits(b);
    lemma_covariance_fits(a, b);
    correlation_is_bounded(a, b);
}

/// Two equal histograms have correlation one: they are flat and equal, or their
/// covariance equals both variances.
pub proof fn equal_histograms_correlate_fully(a: Seq<u32>)
    requires
        a.len() <= u32::MAX,
    ensures
        match similarity(a, a) {
            Similarity::EqualFlat => true,
            Similarity::Unrelated => false,
            Similarity::Moments { covariance, variance_a, variance_b } => covariance == variance_a
                && covariance == variance_b && variance_a > 0,
        },
{
    lemma_variance_fits(a);
}

/// A sum of products does not depend on the order of the factors.
proof fn lemma_dot_commutes(a: Seq<int>, b: Seq<int>, n: int)
    ensures
        dot(a, b, n) == dot(b, a, n),
    decreases n,
{
    if n > 0 {
        lemma_dot_commutes(a, b, n - 1);
        assert(a[n - 1] * b[n - 1] == b[n - 1] * a[n - 1]) by (nonlinear_arith);
    }
}

/// How similar two histograms are does not depend on which came first: only the two
/// variances change places.
pub proof fn similarity_is_symmetric(a: Seq<u32>, b: Seq<u32>)
    requires
        a.len() == b.len(),
    ensures
        similarity(b, a) == match similarity(a, b) {
            Similarity::Moments { covariance, variance_a, variance_b } => Similarity::Moments {
                covariance,
                variance_a: variance_b,
                variance_b: variance_a,
            },
            s => s,
        },
{
    let x = counts(a);
    let y = counts(b);
    let n = a.len() as int;
    lemma_dot_commutes(x, y, n);
    let s = total(x, n);
    let t = total(y, n);
    assert(s * t == t * s) by (nonlinear_arith);
}

/// The first frame of a stream is never a cut.
pub proof fn no_cut_without_predecessor<C: Fn(Similarity, Real) -> Correlated>(
    m: Model,
    hist: Seq<u32>,
    ts: Timestamp,
    correlate: C,
    after: Model,
    cut: Option<Timestamp>,
)
    requires
        m.previous is None,
        m.processed(hist, ts, correlate, after, cut),
    ensures
        cut is None,
        after.previous == Some(hist),
        after.last_diff == m.last_diff,
{
}

/// A cut comes only where the correlation has fallen to the limit and at least the
/// minimum duration has passed since the cut before, and is counted from next.
pub proof fn cuts_keep_their_distance(m: Model, hist: Seq<u32>, ts: Timestamp, c: Correlated)
    requires
        m.last_cut is Some,
    ensures
        m.compared(hist, ts, c).1 is Some <==> c.limit.ge(c.diff) && min_length_met(
            ts,
            m.last_cut->0,
            m.options.min_duration,
        ),
        m.compared(hist, ts, c).1 is Some ==> m.compared(hist, ts, c).1 == Some(ts)
            && m.compared(hist, ts, c).0.last_cut == Some(ts),
        m.compared(hist, ts, c).1 is None ==> m.compared(hist, ts, c).0.last_cut == m.last_cut,
{
}

/// Where the first cut may come at once, it does: the first fall of the correlation
/// to the limit behind the frame at `first` is a cut. Left out are streams that start
/// so close to the smallest tick that it holds the seed.
pub proof fn the_first_fall_is_a_cut<C: Fn(Similarity, Real) -> Correlated>(
    o: Options,
    before: Seq<u32>,
    first: Timestamp,
    correlate: C,
    m: Model,
    cut: Option<Timestamp>,
    hist: Seq<u32>,
    ts: Timestamp,
    c: Correlated,
)
    requires
        o.allow_initial_cut,
        Model::fresh(o).processed(before, first, correlate, m, cut),
        c.limit.ge(c.diff),
        first.valid(),
        ts.valid(),
        ts.base() == first.base(),
        first.ticks() <= ts.ticks(),
        first.base().numerator() > 0,
        past_tick(first, o.min_duration) > i64::MIN,
        0 <= o.min_duration.total() <= max_nanos(),
        o.min_duration.total() * first.base().denominator() / (first.base().numerator()
            * 1_000_000_000) <= i64::MAX,
    ensures
        m.compared(hist, ts, c).1 == Some(ts),
{
    seed_lets_the_first_cut_pass(first, ts, o.min_duration);
}

/// Where the first cut may not come at once, none comes before the minimum duration
/// has passed since the first frame.
pub proof fn early_falls_are_held_back<C: Fn(Similarity, Real) -> Correlated>(
    o: Options,
    before: Seq<u32>,
    first: Timestamp,
    correlate: C,
    m: Model,
    cut: Option<Timestamp>,
    hist: Seq<u32>,
    ts: Timestamp,
    c: Correlated,
)
    requires
        !o.allow_initial_cut,
        Model::fresh(o).processed(before, first, correlate, m, cut),
        !min_length_met(ts, first, o.min_duration),
    ensures
        m.compared(hist, ts, c).1 is None,
{
}

/// A detector takes in one frame after the other: `states` holds the state before each
/// and after the last, `hists` the histograms of the frames, and `results` what each gives.
pub open spec fn processed_run<C: Fn(Similarity, Real) -> Correlated>(
    states: Seq<Model>,
    hists: Seq<Seq<u32>>,
    times: Seq<Timestamp>,
    correlate: C,
    results: Seq<Option<Timestamp>>,
) -> bool {
    &&& states.len() == times.len() + 1
    &&& hists.len() == times.len()
    &&& results.len() == times.len()
    &&& forall|i: int|
        0 <= i < times.len() ==> states[i].processed(
            hists[i],
            #[trigger] times[i],
            correlate,
            states[i + 1],
            results[i],
        )
}

/// Every frame is compared with the one before it, whatever came of that one: the
/// correlation told for a frame is that of its histogram and of the frame before.
pub proof fn each_frame_is_compared_with_the_one_before<
    C: Fn(Similarity, Real) -> Correlated,
>(
    o: Options,
    states: Seq<Model>,
    hists: Seq<Seq<u32>>,
    times: Seq<Timestamp>,
    correlate: C,
    results: Seq<Option<Timestamp>>,
    k: int,
)
    requires
        processed_run(states, hists, times, correlate, results),
        states[0] == Model::fresh(o),
        0 <= k < times.len(),
    ensures
        states[k + 1].options == o,
        states[k + 1].previous == Some(hists[k]),
        k == 0 ==> results[k] is None && states[k + 1].last_diff is None,
        k > 0 ==> exists|c: Correlated| #[trigger]
            correlate.ensures((similarity(hists[k - 1], hists[k]), o.threshold), c)
                && states[k + 1].last_diff == Some(c.diff) && (results[k] is Some ==> c.limit.ge(
                c.diff,
            )),
    decreases k,
{
    assert(states[k].processed(hists[k], times[k], correlate, states[k + 1], results[k]));
    if k > 0 {
        each_frame_is_compared_with_the_one_before(
            o,
            states,
            hists,
            times,
            correlate,
            results,
            k - 1,
        );
    }
}

/// The instant of the last cut among the first `k` results; where there is none, the point
/// from which the minimum duration is counted at the start of the stream.
pub open spec fn counted_from(
    o: Options,
    times: Seq<Timestamp>,
    results: Seq<Option<Timestamp>>,
    k: int,
) -> Timestamp
    decreases k,
{
    if k <= 0 {
        seed_at(times[0], o.allow_initial_cut, o.min_duration)
    } else {
        match results[k - 1] {
            Some(t) => t,
            None => counted_from(o, times, results, k - 1),
        }
    }
}

/// A frame behind the first is a cut, at its own time, just where its correlation with the
/// frame before has fallen to the limit and the minimum duration has passed since the last
/// cut of the stream.
pub proof fn a_frame_is_a_cut_just_where_it_falls<C: Fn(Similarity, Real) -> Correlated>(
    o: Options,
    states: Seq<Model>,
    hists: Seq<Seq<u32>>,
    times: Seq<Timestamp>,
    correlate: C,
    results: Seq<Option<Timestamp>>,
    k: int,
)
    requires
        processed_run(states, hists, times, correlate, results),
        states[0] == Model::fresh(o),
        0 <= k < times.len(),
    ensures
        states[k + 1].last_cut == Some(counted_from(o, times, results, k + 1)),
        k > 0 ==> exists|c: Correlated| #[trigger]
            correlate.ensures((similarity(hists[k - 1], hists[k]), o.threshold), c)
                && states[k + 1].last_diff == Some(c.diff) && results[k] == if c.limit.ge(c.diff)
                && min_length_met(
                times[k],
                counted_from(o, times, results, k),
                o.min_duration,
            ) {
                Some(times[k])
            } else {
                None::<Timestamp>
            },
    decreases k,
{
    reveal_with_fuel(counted_from, 2);
    assert(states[k].processed(hists[k], times[k], correlate, states[k + 1], results[k]));
    if k > 0 {
        a_frame_is_a_cut_just_where_it_falls(
            o,
            states,
            hists,
            times,
            correlate,
            results,
            k - 1,
        );
        each_frame_is_compared_with_the_one_before(
            o,
            states,
            hists,
            times,
            correlate,
            results,
            k - 1,
        );
    }
}

/// A darker sample never falls into a higher bin, the bins start at zero, the brightest
/// sample falls into the last bin that a sample reaches, and with one bin per value each
/// value has its own.
pub proof fn bins_follow_brightness(a: int, b: int, bins: int)
    requires
        0 <= a <= b <= 255,
        0 < bins,
    ensures
        0 <= bin_of(a, bins) <= bin_of(b, bins) < bins,
        bin_of(0, bins) == 0,
        bin_of(a, 256) == a,
        bin_of(a, bins) * 256 <= a * bins < (bin_of(a, bins) + 1) * 256,
{
    lemma_bin_range(a, bins);
    lemma_bin_range(b, bins);
    assert(a * bins <= b * bins) by (nonlinear_arith)
        requires
            a <= b,
            bins > 0,
    ;
    lemma_div_is_ordered(a * bins, b * bins, 256);
    lemma_fundamental_div_mod(a * bins, 256);
    lemma_mod_bound(a * bins, 256);
    assert(0 * bins == 0);
}

/// All counts of a histogram are equal.
pub open spec fn flat(a: Seq<u32>) -> bool {
    forall|i: int, j: int|
        0 <= i < a.len() && 0 <= j < a.len() ==> #[trigger] a[i] == #[trigger] a[j]
}

/// Histograms are compared by their moments just where neither is flat. Two flat ones are
/// equal or unrelated, and a flat one is unrelated to any that is not.
pub proof fn flat_histograms_have_no_moments(a: Seq<u32>, b: Seq<u32>)
    ensures
        similarity(a, b) is Moments <==> !flat(a) && !flat(b),
        similarity(a, b) is EqualFlat <==> flat(a) && a == b,
        similarity(a, b) is Unrelated <==> (flat(a) || flat(b)) && a != b,
{
    zero_variance_means_flat(a);
    zero_variance_means_flat(b);
}

/// Sum of the products of the distances of term `k` from the first `n` terms, in both
/// sequences.
pub open spec fn distances(a: Seq<int>, b: Seq<int>, n: int, k: int) -> int
    decreases n,
{
    if n <= 0 {
        0
    } else {
        distances(a, b, n - 1, k) + (a[n - 1] - a[k]) * (b[n - 1] - b[k])
    }
}

/// Sum of the products of the distances of all pairs among the first `n` terms, in both
/// sequences.
pub open spec fn pair_distances(a: Seq<int>, b: Seq<int>, n: int) -> int
    decreases n,
{
    if n <= 1 {
        0
    } else {
        pair_distances(a, b, n - 1) + distances(a, b, n - 1, n - 1)
    }
}

/// Covariance compares all pairs of bins: it is the sum, over all pairs, of the product of
/// the distance of their counts in one histogram and that in the other.
pub proof fn covariance_compares_all_pairs(a: Seq<int>, b: Seq<int>)
    requires
        a.len() == b.len(),
    ensures
        covariance(a, b) == pair_distances(a, b, a.len() as int),
{
    lemma_pairs(a, b, a.len() as int);
}

/// The distances of one term from others, by their moments.
proof fn lemma_distances(a: Seq<int>, b: Seq<int>, n: int, k: int)
    requires
        0 <= n,
    ensures
        distances(a, b, n, k) == dot(a, b, n) - b[k] * total(a, n) - a[k] * total(b, n) + n * (a[k]
            * b[k]),
    decreases n,
{
    let (x, y) = (a[k], b[k]);
    if n > 0 {
        lemma_distances(a, b, n - 1, k);
        let (u, v) = (a[n - 1], b[n - 1]);
        let (s, t) = (total(a, n - 1), total(b, n - 1));
        assert((u - x) * (v - y) == u * v - y * u - x * v + x * y) by (nonlinear_arith);
        assert(y * (s + u) == y * s + y * u) by (nonlinear_arith);
        assert(x * (t + v) == x * t + x * v) by (nonlinear_arith);
        assert(n * (x * y) == (n - 1) * (x * y) + x * y) by (nonlinear_arith);
    } else {
        assert(y * 0 == 0);
        assert(x * 0 == 0);
        assert(0 * (x * y) == 0);
    }
}

/// The distances of all pairs among the first terms, by their moments.
proof fn lemma_pairs(a: Seq<int>, b: Seq<int>, n: int)
    requires
        0 <= n,
    ensures
        pair_distances(a, b, n) == n * dot(a, b, n) - total(a, n) * total(b, n),
    decreases n,
{
    if n > 0 {
        let m = n - 1;
        lemma_pairs(a, b, m);
        lemma_distances(a, b, m, m);
        let (x, y) = (a[m], b[m]);
        let (s, t, d) = (total(a, m), total(b, m), dot(a, b, m));
        assert(n * (d + x * y) == m * d + d + m * (x * y) + x * y) by (nonlinear_arith)
            requires
                n == m + 1,
        ;
        assert((s + x) * (t + y) == s * t + y * s + x * t + x * y) by (nonlinear_arith);
        if n == 1 {
            assert(0 * d == 0);
            assert(s * t == 0) by (nonlinear_arith)
                requires
                    s == 0,
            ;
            assert(y * s == 0) by (nonlinear_arith)
                requires
                    s == 0,
            ;
            assert(x * t == 0) by (nonlinear_arith)
                requires
                    t == 0,
            ;
            assert(m * (x * y) == 0) by (nonlinear_arith)
                requires
                    m == 0,
            ;
        }
    } else {
        assert(0 * dot(a, b, 0) == 0);
        assert(total(a, 0) * total(b, 0) == 0);
    }
}

/// A pixel moves one count: where two planes agree but in one pixel, the bin of its value
/// in the one loses a pixel against the other, and that of its value in the other gains one.
/// All other bins hold the same number.
pub proof fn a_pixel_moves_one_count(
    p: Seq<u8>,
    q: Seq<u8>,
    w: int,
    h: int,
    stride: int,
    bins: int,
    y: int,
    x: int,
    j: int,
)
    requires
        0 <= w <= stride,
        0 <= y < h,
        0 <= x < w,
        stride * h <= p.len(),
        p.len() == q.len(),
        forall|i: int| 0 <= i < p.len() && i != y * stride + x ==> #[trigger] p[i] == q[i],
    ensures
        ({
            let left = p[y * stride + x] as int * bins / 256;
            let entered = q[y * stride + x] as int * bins / 256;
            bin_count(q, w, h, stride, bins, j) - bin_count(p, w, h, stride, bins, j) == (if j
                == entered {
                1int
            } else {
                0
            }) - (if j == left {
                1int
            } else {
                0
            })
        }),
{
    let f = in_bin(p, stride, bins, j);
    let g = in_bin(q, stride, bins, j);
    assert forall|b: int, a: int|
        0 <= b < h && 0 <= a < w && (b != y || a != x) implies #[trigger] g(b, a) == f(b, a) by {
        lemma_cell(b, a, stride, h);
        lemma_cell(y, x, stride, h);
        if b * stride + a == y * stride + x {
            lemma_cell_injective(b, a, y, x, stride);
        }
    }
    a_sum_counts_each_cell_once(g, f, 0, h, 0, w, y, x);
}

/// Options are refused just where the partial histograms together have more bins than can be
/// counted.
pub proof fn options_are_refused_for_cause(o: Options)
    ensures
        options_fault(o) is None <==> o.bins + o.bins + o.bins + o.bins <= usize::MAX,
        options_fault(o) matches Some(Error::BinCountTooLarge { bins }) ==> bins == o.bins,
{
}

} // verus!
