//! Cut detection by the mean change of hue, saturation, luma and edges.
//!
//! Each frame is turned into packed planes and compared with the frame before it.
//! The sums of absolute differences are exact; a caller-supplied function turns
//! them into means and a weighted score. The score is held against the threshold,
//! and a filter keeps cuts at least the minimum scene duration apart.

use vstd::prelude::*;

use crate::arch::{
    abs_diff_sum, bgr_to_hsv_planes, hue_at, hue_of, lemma_hsv_range, max3, mean_abs_diff,
    same_tail, saturation_at, saturation_of, value_at, Mean,
};
use crate::edges::{compute_edges, edge_map};
use crate::frame::{ChannelOrder, HsvFrame, LumaFrame, RgbFrame};
use crate::grid::{
    lemma_area_bound, lemma_cell, lemma_plane_of, lemma_plane_row, lemma_plane_step, lemma_rows,
    plane_is, plane_of, plane_upto,
};
use crate::number::Real;
use crate::text::{digits, one_number};
use crate::time::{
    a_span_has_its_nanoseconds, elapsed_at_least, frames_to_duration, gate_seed,
    longer_since_earlier, max_nanos, min_length_met, moving, not_after_is_transitive, past_tick,
    relation_compares_instants, relation_is_antisymmetric, seed_at, seed_lets_the_first_cut_pass,
    Duration, Relation, Timebase, Timestamp,
};

verus! {

/// The bit pattern of one.
pub const ONE: u64 = 0x3ff0_0000_0000_0000;

/// The bit pattern of 27.
pub const TWENTY_SEVEN: u64 = 0x403b_0000_0000_0000;

/// One number for each of the four compared components: weights, or mean changes.
#[derive(Debug, Clone, Copy, PartialEq)]
pub struct Components {
    /// Hue.
    pub delta_hue: Real,
    /// Saturation.
    pub delta_sat: Real,
    /// Luma.
    pub delta_lum: Real,
    /// Edges.
    pub delta_edges: Real,
}

/// How cuts in quick succession are treated.
#[derive(Debug, Clone, Copy, PartialEq, Eq, Hash, Structural)]
#[non_exhaustive]
pub enum FilterMode {
    /// A cut is emitted only where the minimum duration has passed since the last
    /// one; others are dropped.
    Suppress,
    /// Changes in quick succession are merged into one cut.
    Merge,
}

impl Default for FilterMode {
    /// Merging.
    fn default() -> (m: FilterMode)
        ensures
            m == FilterMode::Merge,
    {
        FilterMode::Merge
    }
}

impl FilterMode {
    /// Whether the mode is `Suppress`.
    pub fn is_suppress(&self) -> (r: bool)
        ensures
            r == (*self is Suppress),
    {
        matches!(self, FilterMode::Suppress { .. })
    }

    /// Whether the mode is `Merge`.
    pub fn is_merge(&self) -> (r: bool)
        ensures
            r == (*self is Merge),
    {
        matches!(self, FilterMode::Merge { .. })
    }

    /// The name of the mode.
    pub open spec fn text(self) -> Seq<char> {
        match self {
            FilterMode::Suppress => "suppress"@,
            FilterMode::Merge => "merge"@,
        }
    }

    /// The name of the mode.
    pub fn as_str(&self) -> (s: &'static str)
        ensures
            s@ == self.text(),
    {
        match self {
            FilterMode::Suppress => "suppress",
            FilterMode::Merge => "merge",
        }
    }
}

/// Why a detector was refused.
#[derive(Debug, Clone, Copy, PartialEq, Eq, Structural)]
#[non_exhaustive]
pub enum Error {
    /// All component weights are zero.
    ZeroWeights,
    /// The kernel size is below three or even.
    InvalidKernelSize(u32),
}

impl Error {
    /// Whether the error is `ZeroWeights`.
    pub fn is_zero_weights(&self) -> (r: bool)
        ensures
            r == (*self is ZeroWeights),
    {
        matches!(self, Error::ZeroWeights { .. })
    }

    /// Whether the error is `InvalidKernelSize`.
    pub fn is_invalid_kernel_size(&self) -> (r: bool)
        ensures
            r == (*self is InvalidKernelSize),
    {
        matches!(self, Error::InvalidKernelSize { .. })
    }

    /// The message text of the error.
    pub open spec fn text(self) -> Seq<char> {
        match self {
            Error::ZeroWeights => "all component weights are zero"@,
            Error::InvalidKernelSize(k) => "kernel_size ("@ + digits(k as nat)
                + ") must be an odd integer >= 3"@,
        }
    }

    /// The message text of the error.
    pub fn message(&self) -> (s: String)
        ensures
            s@ == self.text(),
    {
        match *self {
            Error::ZeroWeights => "all component weights are zero".to_owned(),
            Error::InvalidKernelSize(k) => one_number(
                "kernel_size (",
                k as u64,
                ") must be an odd integer >= 3",
            ),
        }
    }
}

/// Configuration of a detector.
#[derive(Debug, Clone, Copy)]
pub struct Options {
    /// Score from which on a frame counts as a change.
    pub threshold: Real,
    /// Minimum duration of a scene.
    pub min_duration: Duration,
    /// Weights of the components.
    pub weights: Components,
    /// How changes in quick succession are treated.
    pub filter_mode: FilterMode,
    /// Side of the dilation square for edges; by frame size where absent.
    pub kernel_size: Option<u32>,
    /// Whether the first change may be a cut at once.
    pub initial_cut: bool,
    /// Whether vector units may be used.
    pub simd: bool,
}

/// State of the filter that keeps cuts apart.
#[derive(Debug, Clone, Copy)]
pub struct Gate {
    /// The change from which the minimum duration is counted.
    pub last_above: Option<Timestamp>,
    /// Whether a cut was emitted, so that further changes can be merged.
    pub merge_enabled: bool,
    /// Whether changes are being merged.
    pub merge_triggered: bool,
    /// Where the current merge started.
    pub merge_start: Option<Timestamp>,
}

/// The instant from which the minimum duration is counted at the start of a
/// stream: far enough back for the first change to be a cut, or `ts` itself.
pub open spec fn seed_of(ts: Timestamp, o: Options) -> Timestamp {
    seed_at(ts, o.initial_cut, o.min_duration)
}

/// The instant from which the minimum duration is counted at the start of a
/// stream.
pub fn virtual_seed(ts: Timestamp, options: &Options) -> (seed: Timestamp)
    ensures
        seed == seed_of(ts, *options),
{
    gate_seed(ts, options.initial_cut, options.min_duration)
}

impl Gate {
    /// A merge in progress has a start and a last change.
    pub open spec fn wf(self) -> bool {
        self.merge_triggered ==> self.merge_start is Some && self.last_above is Some
    }

    /// The state at the start of a stream.
    pub open spec fn fresh() -> Gate {
        Gate {
            last_above: None,
            merge_enabled: false,
            merge_triggered: false,
            merge_start: None,
        }
    }

    /// The state with a point to count the minimum duration from.
    pub open spec fn seeded(self, o: Options, ts: Timestamp) -> Gate {
        if self.last_above is None {
            Gate { last_above: Some(seed_of(ts, o)), ..self }
        } else {
            self
        }
    }

    /// The state after a frame, and the cut it gives, where changes are merged.
    pub open spec fn merge_step(
        self,
        o: Options,
        ts: Timestamp,
        above: bool,
        met: bool,
    ) -> (Gate, Option<Timestamp>) {
        let g = if above {
            Gate { last_above: Some(ts), ..self }
        } else {
            self
        };
        if g.merge_triggered {
            let span = match g.last_above->0.nanos_since(g.merge_start->0) {
                Some(n) => n,
                None => 0,
            };
            if met && !above && span >= o.min_duration.total() {
                (Gate { merge_triggered: false, ..g }, g.last_above)
            } else {
                (g, None)
            }
        } else if !above {
            (g, None)
        } else if met {
            (Gate { merge_enabled: true, ..g }, Some(ts))
        } else if g.merge_enabled {
            (Gate { merge_triggered: true, merge_start: Some(ts), ..g }, None)
        } else {
            (g, None)
        }
    }

    /// The state after a frame at `ts`, and the cut it gives. `above` tells whether
    /// the frame is a change.
    pub open spec fn step(self, o: Options, ts: Timestamp, above: bool) -> (
        Gate,
        Option<Timestamp>,
    ) {
        let g = self.seeded(o, ts);
        let met = min_length_met(ts, g.last_above->0, o.min_duration);
        match o.filter_mode {
            FilterMode::Suppress => if above && met {
                (Gate { last_above: Some(ts), ..g }, Some(ts))
            } else {
                (g, None)
            },
            FilterMode::Merge => g.merge_step(o, ts, above, met),
        }
    }

    /// The state at the start of a stream.
    pub fn new() -> (g: Gate)
        ensures
            g == Gate::fresh(),
            g.wf(),
    {
        Gate { last_above: None, merge_enabled: false, merge_triggered: false, merge_start: None }
    }

    /// Takes in a frame at `ts` and returns the cut it gives, if any.
    pub fn flash_filter(&mut self, options: &Options, ts: Timestamp, above: bool) -> (cut: Option<
        Timestamp,
    >)
        requires
            old(self).wf(),
        ensures
            (*final(self), cut) == old(self).step(*options, ts, above),
            final(self).wf(),
    {
        let last: Timestamp = match self.last_above {
            Some(t) => t,
            None => {
                let seed: Timestamp = virtual_seed(ts, options);
                self.last_above = Some(seed);
                seed
            },
        };
        let met: bool = elapsed_at_least(ts, last, options.min_duration);
        match options.filter_mode {
            FilterMode::Suppress => {
                if above && met {
                    self.last_above = Some(ts);
                    Some(ts)
                } else {
                    None
                }
            },
            FilterMode::Merge => self.filter_merge(options, ts, above, met),
        }
    }

    /// Takes in a frame where changes are merged.
    fn filter_merge(
        &mut self,
        options: &Options,
        ts: Timestamp,
        above: bool,
        min_length_met: bool,
    ) -> (cut: Option<Timestamp>)
        requires
            old(self).wf(),
            old(self).last_above is Some,
        ensures
            (*final(self), cut) == old(self).merge_step(*options, ts, above, min_length_met),
            final(self).wf(),
    {
        if above {
            self.last_above = Some(ts);
        }
        if self.merge_triggered {
            let merged: bool = match (self.last_above, self.merge_start) {
                (Some(last), Some(start)) => {
                    match last.duration_since(&start) {
                        Some(d) => d.at_least(&options.min_duration),
                        None => options.min_duration.is_zero(),
                    }
                },
                _ => false,
            };
            if min_length_met && !above && merged {
                self.merge_triggered = false;
                return self.last_above;
            }
            return None;
        }
        if !above {
            return None;
        }
        if min_length_met {
            self.merge_enabled = true;
            return Some(ts);
        }
        if self.merge_enabled {
            self.merge_triggered = true;
            self.merge_start = Some(ts);
        }
        None
    }
}

impl Components {
    /// The four numbers together.
    pub fn new(delta_hue: Real, delta_sat: Real, delta_lum: Real, delta_edges: Real) -> (c:
        Components)
        ensures
            c == (Components { delta_hue, delta_sat, delta_lum, delta_edges }),
    {
        Components { delta_hue, delta_sat, delta_lum, delta_edges }
    }

    /// Hue, saturation and luma weigh one, edges nothing.
    pub open spec fn standard() -> Components {
        Components {
            delta_hue: Real { bits: ONE },
            delta_sat: Real { bits: ONE },
            delta_lum: Real { bits: ONE },
            delta_edges: Real { bits: 0 },
        }
    }

    /// Only luma weighs.
    pub open spec fn luma_only() -> Components {
        Components {
            delta_hue: Real { bits: 0 },
            delta_sat: Real { bits: 0 },
            delta_lum: Real { bits: ONE },
            delta_edges: Real { bits: 0 },
        }
    }

    /// All four numbers are zero.
    pub open spec fn all_zero(self) -> bool {
        self.delta_hue.zero() && self.delta_sat.zero() && self.delta_lum.zero()
            && self.delta_edges.zero()
    }

    /// Whether all four numbers are zero, and with them the sum of their magnitudes.
    pub fn is_zero(&self) -> (z: bool)
        ensures
            z == self.all_zero(),
    {
        self.delta_hue.is_zero() && self.delta_sat.is_zero() && self.delta_lum.is_zero()
            && self.delta_edges.is_zero()
    }

    /// The number for hue.
    pub fn delta_hue(&self) -> (v: Real)
        ensures
            v == self.delta_hue,
    {
        self.delta_hue
    }

    /// The same with another value for the number for hue.
    pub fn with_delta_hue(self, val: Real) -> (r: Components)
        ensures
            r == (Components { delta_hue: val, ..self }),
    {
        Components { delta_hue: val, ..self }
    }

    /// Sets the number for hue.
    pub fn set_delta_hue(&mut self, val: Real) -> (r: &mut Components)
        ensures
            *r == (Components { delta_hue: val, ..*old(self) }),
            *final(self) == *final(r),
    {
        self.delta_hue = val;
        self
    }

    /// The number for saturation.
    pub fn delta_sat(&self) -> (v: Real)
        ensures
            v == self.delta_sat,
    {
        self.delta_sat
    }

    /// The same with another value for the number for saturation.
    pub fn with_delta_sat(self, val: Real) -> (r: Components)
        ensures
            r == (Components { delta_sat: val, ..self }),
    {
        Components { delta_sat: val, ..self }
    }

    /// Sets the number for saturation.
    pub fn set_delta_sat(&mut self, val: Real) -> (r: &mut Components)
        ensures
            *r == (Components { delta_sat: val, ..*old(self) }),
            *final(self) == *final(r),
    {
        self.delta_sat = val;
        self
    }

    /// The number for luma.
    pub fn delta_lum(&self) -> (v: Real)
        ensures
            v == self.delta_lum,
    {
        self.delta_lum
    }

    /// The same with another value for the number for luma.
    pub fn with_delta_lum(self, val: Real) -> (r: Components)
        ensures
            r == (Components { delta_lum: val, ..self }),
    {
        Components { delta_lum: val, ..self }
    }

    /// Sets the number for luma.
    pub fn set_delta_lum(&mut self, val: Real) -> (r: &mut Components)
        ensures
            *r == (Components { delta_lum: val, ..*old(self) }),
            *final(self) == *final(r),
    {
        self.delta_lum = val;
        self
    }

    /// The number for edges.
    pub fn delta_edges(&self) -> (v: Real)
        ensures
            v == self.delta_edges,
    {
        self.delta_edges
    }

    /// The same with another value for the number for edges.
    pub fn with_delta_edges(self, val: Real) -> (r: Components)
        ensures
            r == (Components { delta_edges: val, ..self }),
    {
        Components { delta_edges: val, ..self }
    }

    /// Sets the number for edges.
    pub fn set_delta_edges(&mut self, val: Real) -> (r: &mut Components)
        ensures
            *r == (Components { delta_edges: val, ..*old(self) }),
            *final(self) == *final(r),
    {
        self.delta_edges = val;
        self
    }
}

/// The standard weights: hue, saturation and luma weigh one, edges nothing.
pub fn default_weights() -> (c: Components)
    ensures
        c == Components::standard(),
{
    Components {
        delta_hue: Real { bits: ONE },
        delta_sat: Real { bits: ONE },
        delta_lum: Real { bits: ONE },
        delta_edges: Real { bits: 0 },
    }
}

/// Weights under which only luma counts.
pub fn luma_only_weights() -> (c: Components)
    ensures
        c == Components::luma_only(),
{
    Components {
        delta_hue: Real { bits: 0 },
        delta_sat: Real { bits: 0 },
        delta_lum: Real { bits: ONE },
        delta_edges: Real { bits: 0 },
    }
}

impl Default for Components {
    /// The standard weights.
    fn default() -> (c: Components)
        ensures
            c == Components::standard(),
    {
        default_weights()
    }
}

impl Options {
    /// The default configuration.
    pub open spec fn standard(self) -> bool {
        &&& self.threshold == (Real { bits: TWENTY_SEVEN })
        &&& self.min_duration.total() == 1_000_000_000
        &&& self.weights == Components::standard()
        &&& self.filter_mode == FilterMode::Merge
        &&& self.kernel_size is None
        &&& self.initial_cut
        &&& self.simd
    }

    /// The default configuration: threshold 27, scenes of at least one second, the
    /// standard weights, merging, kernel size by frame size, first cut allowed.
    pub fn new() -> (o: Options)
        ensures
            o.standard(),
    {
        Options {
            threshold: Real { bits: TWENTY_SEVEN },
            min_duration: Duration::from_secs(1),
            weights: default_weights(),
            filter_mode: FilterMode::Merge,
            kernel_size: None,
            initial_cut: true,
            simd: true,
        }
    }

    /// The score from which on a frame counts as a change.
    pub fn threshold(&self) -> (v: Real)
        ensures
            v == self.threshold,
    {
        self.threshold
    }

    /// The same with another value for the score from which on a frame counts as a change.
    pub fn with_threshold(self, val: Real) -> (r: Options)
        ensures
            r == (Options { threshold: val, ..self }),
    {
        Options { threshold: val, ..self }
    }

    /// Sets the score from which on a frame counts as a change.
    pub fn set_threshold(&mut self, val: Real) -> (r: &mut Options)
        ensures
            *r == (Options { threshold: val, ..*old(self) }),
            *final(self) == *final(r),
    {
        self.threshold = val;
        self
    }

    /// The minimum duration of a scene.
    pub fn min_duration(&self) -> (v: Duration)
        ensures
            v == self.min_duration,
    {
        self.min_duration
    }

    /// The same with another value for the minimum duration of a scene.
    pub fn with_min_duration(self, val: Duration) -> (r: Options)
        ensures
            r == (Options { min_duration: val, ..self }),
    {
        Options { min_duration: val, ..self }
    }

    /// Sets the minimum duration of a scene.
    pub fn set_min_duration(&mut self, val: Duration) -> (r: &mut Options)
        ensures
            *r == (Options { min_duration: val, ..*old(self) }),
            *final(self) == *final(r),
    {
        self.min_duration = val;
        self
    }

    /// The weights of the components.
    pub fn weights(&self) -> (v: Components)
        ensures
            v == self.weights,
    {
        self.weights
    }

    /// The same with another value for the weights of the components.
    pub fn with_weights(self, val: Components) -> (r: Options)
        ensures
            r == (Options { weights: val, ..self }),
    {
        Options { weights: val, ..self }
    }

    /// Sets the weights of the components.
    pub fn set_weights(&mut self, val: Components) -> (r: &mut Options)
        ensures
            *r == (Options { weights: val, ..*old(self) }),
            *final(self) == *final(r),
    {
        self.weights = val;
        self
    }

    /// How changes in quick succession are treated.
    pub fn filter_mode(&self) -> (v: FilterMode)
        ensures
            v == self.filter_mode,
    {
        self.filter_mode
    }

    /// The same with another value for how changes in quick succession are treated.
    pub fn with_filter_mode(self, val: FilterMode) -> (r: Options)
        ensures
            r == (Options { filter_mode: val, ..self }),
    {
        Options { filter_mode: val, ..self }
    }

    /// Sets how changes in quick succession are treated.
    pub fn set_filter_mode(&mut self, val: FilterMode) -> (r: &mut Options)
        ensures
            *r == (Options { filter_mode: val, ..*old(self) }),
            *final(self) == *final(r),
    {
        self.filter_mode = val;
        self
    }

    /// The side of the dilation square for edges.
    pub fn kernel_size(&self) -> (v: Option<u32>)
        ensures
            v == self.kernel_size,
    {
        self.kernel_size
    }

    /// The same with another value for the side of the dilation square for edges.
    pub fn with_kernel_size(self, val: Option<u32>) -> (r: Options)
        ensures
            r == (Options { kernel_size: val, ..self }),
    {
        Options { kernel_size: val, ..self }
    }

    /// Sets the side of the dilation square for edges.
    pub fn set_kernel_size(&mut self, val: Option<u32>) -> (r: &mut Options)
        ensures
            *r == (Options { kernel_size: val, ..*old(self) }),
            *final(self) == *final(r),
    {
        self.kernel_size = val;
        self
    }

    /// Whether the first change may be a cut at once.
    pub fn initial_cut(&self) -> (v: bool)
        ensures
            v == self.initial_cut,
    {
        self.initial_cut
    }

    /// The same with another value for whether the first change may be a cut at once.
    pub fn with_initial_cut(self, val: bool) -> (r: Options)
        ensures
            r == (Options { initial_cut: val, ..self }),
    {
        Options { initial_cut: val, ..self }
    }

    /// Sets whether the first change may be a cut at once.
    pub fn set_initial_cut(&mut self, val: bool) -> (r: &mut Options)
        ensures
            *r == (Options { initial_cut: val, ..*old(self) }),
            *final(self) == *final(r),
    {
        self.initial_cut = val;
        self
    }

    /// Whether vector units may be used.
    pub fn simd(&self) -> (v: bool)
        ensures
            v == self.simd,
    {
        self.simd
    }

    /// The same with another value for whether vector units may be used.
    pub fn with_simd(self, val: bool) -> (r: Options)
        ensures
            r == (Options { simd: val, ..self }),
    {
        Options { simd: val, ..self }
    }

    /// Sets whether vector units may be used.
    pub fn set_simd(&mut self, val: bool) -> (r: &mut Options)
        ensures
            *r == (Options { simd: val, ..*old(self) }),
            *final(self) == *final(r),
    {
        self.simd = val;
        self
    }

    /// The same with a minimum scene duration of `frames` frames at the rate `fps`.
    pub fn with_min_frames(self, frames: u32, fps: Timebase) -> (r: Options)
        requires
            fps.numerator() != 0,
        ensures
            r == (Options { min_duration: r.min_duration, ..self }),
            r.min_duration.total() == frames * fps.denominator() * 1_000_000_000
                / fps.numerator(),
    {
        Options { min_duration: frames_to_duration(fps, frames), ..self }
    }

    /// Sets the minimum scene duration to `frames` frames at the rate `fps`.
    pub fn set_min_frames(&mut self, frames: u32, fps: Timebase) -> (r: &mut Options)
        requires
            fps.numerator() != 0,
        ensures
            *r == (Options { min_duration: r.min_duration, ..*old(self) }),
            r.min_duration.total() == frames * fps.denominator() * 1_000_000_000
                / fps.numerator(),
            *final(self) == *final(r),
    {
        self.min_duration = frames_to_duration(fps, frames);
        self
    }
}

impl Default for Options {
    /// The default configuration.
    fn default() -> (o: Options)
        ensures
            o.standard(),
    {
        Options::new()
    }
}

/// `d` is the square root of `n`, divided by 192 and rounded to the nearest
/// integer, halves up.
pub open spec fn is_rounded_root(n: int, d: int) -> bool {
    &&& 0 <= d
    &&& d == 0 || (96 * (2 * d - 1)) * (96 * (2 * d - 1)) <= n
    &&& n < (96 * (2 * d + 1)) * (96 * (2 * d + 1))
}

/// The square root of `n`, divided by 192 and rounded to the nearest integer.
pub open spec fn rounded_root(n: int) -> int {
    choose|d: int| is_rounded_root(n, d)
}

/// Side of the dilation square for a frame of `w` by `h` pixels: four more than the
/// rounded root of its area, made odd.
pub open spec fn auto_kernel(w: int, h: int) -> int {
    let d = rounded_root(w * h);
    if d % 2 == 0 {
        5 + d
    } else {
        4 + d
    }
}

/// A rounded root is unique.
pub proof fn lemma_rounded_root_unique(n: int, a: int, b: int)
    requires
        is_rounded_root(n, a),
        is_rounded_root(n, b),
    ensures
        a == b,
{
    if a < b {
        assert((96 * (2 * a + 1)) * (96 * (2 * a + 1)) <= (96 * (2 * b - 1)) * (96 * (2 * b - 1)))
            by (nonlinear_arith)
            requires
                0 <= a < b,
        ;
    } else if b < a {
        assert((96 * (2 * b + 1)) * (96 * (2 * b + 1)) <= (96 * (2 * a - 1)) * (96 * (2 * a - 1)))
            by (nonlinear_arith)
            requires
                0 <= b < a,
        ;
    }
}

/// Side of the dilation square for a frame of `width` by `height` pixels.
pub fn auto_kernel_size(width: u32, height: u32) -> (k: u32)
    ensures
        k == auto_kernel(width as int, height as int),
        k % 2 == 1,
        k >= 5,
{
    proof {
        lemma_area_bound(width, height);
    }
    let n: u64 = width as u64 * height as u64;
    let mut d: u32 = 0;
    loop
        invariant
            n == width * height,
            d <= 0x0200_0000,
            d == 0 || (96 * (2 * d - 1)) * (96 * (2 * d - 1)) <= n,
        ensures
            is_rounded_root(n as int, d as int),
            d <= 0x0200_0000,
        decreases 0x0200_0000 - d,
    {
        let side: u64 = 96 * (2 * d as u64 + 1);
        proof {
            assert(side * side <= u128::MAX) by (nonlinear_arith)
                requires
                    0 <= side <= u64::MAX,
            ;
        }
        let square: u128 = side as u128 * side as u128;
        if square > n as u128 {
            break;
        }
        proof {
            assert(d < 0x0200_0000) by (nonlinear_arith)
                requires
                    side == 96 * (2 * d + 1),
                    side * side <= n,
                    n <= u64::MAX,
                    0 <= d <= 0x0200_0000,
            ;
            let e = d + 1;
            assert((96 * (2 * e - 1)) == side);
        }
        d = d + 1;
    }
    proof {
        lemma_rounded_root_unique(width * height, rounded_root(width * height), d as int);
    }
    let k: u32 = 4 + d;
    if k % 2 == 0 {
        k + 1
    } else {
        k
    }
}

/// Samples of a plane with row stride `stride`.
pub open spec fn strided(src: Seq<u8>, stride: int) -> spec_fn(int, int) -> u8 {
    |y: int, x: int| src[y * stride + x]
}

/// Copies the pixels of a strided plane into a packed one.
pub fn copy_plane(dst: &mut [u8], src: &[u8], width: u32, height: u32, stride: u32)
    requires
        width <= stride,
        stride * height <= src.len(),
        width * height <= old(dst).len(),
    ensures
        plane_is(final(dst)@, strided(src@, stride as int), width as int, height as int),
        same_tail(old(dst)@, final(dst)@, width * height),
{
    let w: usize = width as usize;
    let h: usize = height as usize;
    let s: usize = stride as usize;
    let ghost n = w * h;
    let ghost f = strided(src@, stride as int);
    let mut y: usize = 0;
    while y < h
        invariant
            n == w * h,
            w <= s,
            s * h <= src.len(),
            n <= dst.len(),
            y <= h,
            f == strided(src@, s as int),
            plane_upto(dst@, f, w as int, y as int, 0),
            same_tail(old(dst)@, dst@, n),
        decreases h - y,
    {
        proof {
            lemma_rows(y as int, w as int, h as int);
        }
        let mut x: usize = 0;
        while x < w
            invariant
                n == w * h,
                w <= s,
                s * h <= src.len(),
                n <= dst.len(),
                y < h,
                x <= w,
                0 <= y * w,
                y * w + w <= n,
                f == strided(src@, s as int),
                plane_upto(dst@, f, w as int, y as int, x as int),
                same_tail(old(dst)@, dst@, n),
            decreases w - x,
        {
            proof {
                lemma_cell(y as int, x as int, s as int, h as int);
            }
            let ghost before = dst@;
            dst[y * w + x] = src[y * s + x];
            proof {
                lemma_plane_step(before, dst@, f, w as int, y as int, x as int);
            }
            x = x + 1;
        }
        proof {
            lemma_plane_row(dst@, f, w as int, y as int);
        }
        y = y + 1;
    }
}

/// The packed planes of a frame, as a value.
pub struct Planes {
    /// Hue.
    pub h: Seq<u8>,
    /// Saturation.
    pub s: Seq<u8>,
    /// Value, or luma.
    pub v: Seq<u8>,
    /// Edge map; empty where edges carry no weight.
    pub edges: Seq<u8>,
    /// Whether the frame has hue and saturation. A luma frame has none; its hue and
    /// saturation planes are blank.
    pub colored: bool,
}

/// The packed planes of a frame.
#[derive(Debug, Clone)]
struct PlaneSet {
    h: Vec<u8>,
    s: Vec<u8>,
    v: Vec<u8>,
    edges: Vec<u8>,
    colored: bool,
}

impl View for PlaneSet {
    type V = Planes;

    closed spec fn view(&self) -> Planes {
        Planes {
            h: self.h@,
            s: self.s@,
            v: self.v@,
            edges: self.edges@,
            colored: self.colored,
        }
    }
}

/// Change of each component from one frame to the next, exact. Edges are compared
/// only where they carry weight.
#[derive(Debug, Clone, Copy, PartialEq, Eq, Structural)]
pub struct FrameDelta {
    /// Hue.
    pub hue: Mean,
    /// Saturation.
    pub sat: Mean,
    /// Luma.
    pub lum: Mean,
    /// Edges.
    pub edges: Option<Mean>,
}

/// Mean change of each component and the weighted score.
#[derive(Debug, Clone, Copy)]
pub struct Measured {
    /// Mean change of each component.
    pub components: Components,
    /// The weighted score.
    pub score: Real,
}

/// Mean absolute difference of the first `n` samples of two planes.
pub open spec fn plane_change(cur: Seq<u8>, prev: Seq<u8>, n: int) -> Mean {
    Mean { sum: abs_diff_sum(cur, prev, n) as u64, count: n as u64 }
}

/// No change over `n` samples.
pub open spec fn no_change(n: int) -> Mean {
    Mean { sum: 0, count: n as u64 }
}

/// Change from `prev` to `cur` over frames of `n` pixels. A luma frame shows no
/// change of hue or saturation, whatever the frame before held.
pub open spec fn frame_change(cur: Planes, prev: Planes, n: int, edges: bool) -> FrameDelta {
    FrameDelta {
        hue: if cur.colored {
            plane_change(cur.h, prev.h, n)
        } else {
            no_change(n)
        },
        sat: if cur.colored {
            plane_change(cur.s, prev.s, n)
        } else {
            no_change(n)
        },
        lum: plane_change(cur.v, prev.v, n),
        edges: if edges {
            Some(plane_change(cur.edges, prev.edges, n))
        } else {
            None
        },
    }
}

/// Side of the dilation square under the options for a frame of this size.
pub open spec fn kernel_for(o: Options, w: u32, h: u32) -> int {
    match o.kernel_size {
        Some(k) => k as int,
        None => auto_kernel(w as int, h as int),
    }
}

/// A plane without content.
pub open spec fn blank(n: int) -> Seq<u8> {
    Seq::new(n as nat, |i: int| 0u8)
}

/// The state of a detector, as a value.
pub struct Model {
    /// The configuration.
    pub options: Options,
    /// Width of the frames of the stream.
    pub width: u32,
    /// Height of the frames of the stream.
    pub height: u32,
    /// The planes of the frame before, if there is one.
    pub previous: Option<Planes>,
    /// The measured change of the last frame that had a predecessor.
    pub last: Option<Measured>,
    /// The filter that keeps cuts apart.
    pub gate: Gate,
}

impl Model {
    /// Whether edges carry weight.
    pub open spec fn edges_enabled(self) -> bool {
        !self.options.weights.delta_edges.zero()
    }

    /// The state at the start of a stream.
    pub open spec fn fresh(o: Options) -> Model {
        Model { options: o, width: 0, height: 0, previous: None, last: None, gate: Gate::fresh() }
    }

    /// The state before a frame of this size: that of a new stream where the size
    /// changes.
    pub open spec fn resized(self, width: u32, height: u32) -> Model {
        if self.width == width && self.height == height {
            self
        } else {
            Model { width, height, ..Model::fresh(self.options) }
        }
    }

    /// The planes together with the edge map of their value plane.
    pub open spec fn planes(self, h: Seq<u8>, s: Seq<u8>, v: Seq<u8>, colored: bool) -> Planes {
        Planes {
            h,
            s,
            v,
            colored,
            edges: if self.edges_enabled() {
                edge_map(
                    v,
                    self.width as int,
                    self.height as int,
                    kernel_for(self.options, self.width, self.height),
                )
            } else {
                Seq::empty()
            },
        }
    }

    /// The planes of a luma frame: hue and saturation are blank.
    pub open spec fn luma_planes(self, frame: LumaFrame<'_>) -> Planes {
        let w = frame.columns() as int;
        let h = frame.rows() as int;
        self.planes(
            blank(w * h),
            blank(w * h),
            plane_of(strided(frame.bytes(), frame.pitch() as int), w, h),
            false,
        )
    }

    /// The planes of a packed frame with blue first.
    pub open spec fn bgr_planes(self, frame: RgbFrame<'_>) -> Planes {
        let w = frame.columns() as int;
        let h = frame.rows() as int;
        let stride = frame.pitch() as int;
        self.planes(
            plane_of(hue_at(frame.bytes(), stride, ChannelOrder::Bgr), w, h),
            plane_of(saturation_at(frame.bytes(), stride, ChannelOrder::Bgr), w, h),
            plane_of(value_at(frame.bytes(), stride, ChannelOrder::Bgr), w, h),
            true,
        )
    }

    /// The planes of a frame in hue, saturation and value.
    pub open spec fn hsv_planes(self, frame: HsvFrame<'_>) -> Planes {
        let w = frame.columns() as int;
        let h = frame.rows() as int;
        let stride = frame.pitch() as int;
        self.planes(
            plane_of(strided(frame.hue_bytes(), stride), w, h),
            plane_of(strided(frame.saturation_bytes(), stride), w, h),
            plane_of(strided(frame.value_bytes(), stride), w, h),
            true,
        )
    }

    /// The change from the frame before to `cur`.
    pub open spec fn change(self, cur: Planes) -> FrameDelta {
        frame_change(cur, self.previous->0, self.width * self.height, self.edges_enabled())
    }

    /// The state after a frame without predecessor.
    pub open spec fn primed(self, cur: Planes) -> Model {
        Model { previous: Some(cur), ..self }
    }

    /// The state after a frame with the measured change `m`, and the cut it gives.
    pub open spec fn scored(self, cur: Planes, ts: Timestamp, m: Measured) -> (
        Model,
        Option<Timestamp>,
    ) {
        let (gate, cut) = self.gate.step(self.options, ts, m.score.ge(self.options.threshold));
        (Model { previous: Some(cur), last: Some(m), gate, ..self }, cut)
    }

    /// The state and the cut after a frame with these planes, where `weigh` turns
    /// the exact change and the weights into means and a score.
    pub open spec fn processed<W: Fn(FrameDelta, Components) -> Measured>(
        self,
        cur: Planes,
        ts: Timestamp,
        weigh: W,
        after: Model,
        cut: Option<Timestamp>,
    ) -> bool {
        match self.previous {
            None => after == self.primed(cur) && cut is None,
            Some(_) => exists|m: Measured| #[trigger]
                weigh.ensures((self.change(cur), self.options.weights), m) && (after, cut)
                    == self.scored(cur, ts, m),
        }
    }

    /// A frame of this size can be counted: the sums of differences fit in 64 bits
    /// and, for edges, the pixels in 32.
    pub open spec fn countable(self, width: u32, height: u32) -> bool {
        &&& 255 * (width * height) <= u64::MAX
        &&& self.edges_enabled() ==> width * height <= u32::MAX
    }
}

/// Why these options are refused, if they are.
pub open spec fn options_fault(o: Options) -> Option<Error> {
    if o.weights.all_zero() {
        Some(Error::ZeroWeights)
    } else if o.kernel_size matches Some(k) && (k < 3 || k % 2 == 0) {
        Some(Error::InvalidKernelSize(o.kernel_size->0))
    } else {
        None
    }
}

/// A streaming detector.
#[derive(Debug, Clone)]
pub struct Detector {
    options: Options,
    edges_enabled: bool,
    width: u32,
    height: u32,
    previous: Option<PlaneSet>,
    last: Option<Measured>,
    gate: Gate,
}

impl View for Detector {
    type V = Model;

    closed spec fn view(&self) -> Model {
        Model {
            options: self.options,
            width: self.width,
            height: self.height,
            previous: match self.previous {
                Some(p) => Some(p@),
                None => None,
            },
            last: self.last,
            gate: self.gate,
        }
    }
}

impl Detector {
    /// What holds of every detector between calls.
    pub closed spec fn wf(&self) -> bool {
        let n = self.width * self.height;
        &&& options_fault(self.options) is None
        &&& self.edges_enabled == self@.edges_enabled()
        &&& self.gate.wf()
        &&& self.previous matches Some(p) ==> {
            &&& p.h@.len() == n
            &&& p.s@.len() == n
            &&& p.v@.len() == n
            &&& p.edges@.len() == if self.edges_enabled {
                n
            } else {
                0
            }
        }
    }

    /// A detector with valid options.
    pub fn new(options: Options) -> (d: Detector)
        requires
            options_fault(options) is None,
        ensures
            d@ == Model::fresh(options),
            d.wf(),
    {
        Detector {
            options,
            edges_enabled: !options.weights.delta_edges.is_zero(),
            width: 0,
            height: 0,
            previous: None,
            last: None,
            gate: Gate::new(),
        }
    }

    /// A detector, or the reason why there is none.
    pub fn try_new(options: Options) -> (r: Result<Detector, Error>)
        ensures
            match r {
                Ok(d) => options_fault(options) is None && d@ == Model::fresh(options) && d.wf(),
                Err(e) => options_fault(options) == Some(e),
            },
    {
        if options.weights.is_zero() {
            return Err(Error::ZeroWeights);
        }
        if let Some(k) = options.kernel_size {
            if k < 3 || k % 2 == 0 {
                return Err(Error::InvalidKernelSize(k));
            }
        }
        Ok(Detector::new(options))
    }

    /// The configuration.
    pub fn options(&self) -> (o: &Options)
        ensures
            *o == self@.options,
    {
        &self.options
    }

    /// The score of the last frame that had a predecessor.
    pub fn last_score(&self) -> (s: Option<Real>)
        ensures
            s == match self@.last {
                Some(m) => Some(m.score),
                None => None,
            },
    {
        match self.last {
            Some(m) => Some(m.score),
            None => None,
        }
    }

    /// The mean changes of the last frame that had a predecessor.
    pub fn last_components(&self) -> (c: Option<Components>)
        ensures
            c == match self@.last {
                Some(m) => Some(m.components),
                None => None,
            },
    {
        match self.last {
            Some(m) => Some(m.components),
            None => None,
        }
    }

    /// Forgets the stream; the next frame starts a new one.
    pub fn clear(&mut self)
        requires
            old(self).wf(),
        ensures
            final(self)@ == cleared(old(self)@),
            final(self).wf(),
    {
        self.previous = None;
        self.last = None;
        self.gate = Gate::new();
    }

    /// Prepares for a frame of this size: a new size starts a new stream.
    fn ensure_buffers(&mut self, width: u32, height: u32)
        requires
            old(self).wf(),
        ensures
            final(self)@ == old(self)@.resized(width, height),
            final(self).wf(),
    {
        if self.width == width && self.height == height {
            return;
        }
        self.width = width;
        self.height = height;
        self.previous = None;
        self.last = None;
        self.gate = Gate::new();
    }

    /// Takes in a luma frame. It shows no change of hue or saturation, whatever the
    /// frame before held.
    pub fn process_luma<W: Fn(FrameDelta, Components) -> Measured>(
        &mut self,
        frame: LumaFrame<'_>,
        weigh: W,
    ) -> (cut: Option<Timestamp>)
        requires
            old(self).wf(),
            old(self)@.countable(frame.columns(), frame.rows()),
            forall|d: FrameDelta, c: Components| #[trigger] weigh.requires((d, c)),
        ensures
            final(self).wf(),
            ({
                let m = old(self)@.resized(frame.columns(), frame.rows());
                m.processed(m.luma_planes(frame), frame.time(), weigh, final(self)@, cut)
            }),
    {
        let data: &[u8] = frame.data();
        let width: u32 = frame.width();
        let height: u32 = frame.height();
        self.ensure_buffers(width, height);
        proof {
            lemma_packed_fits(width as int, height as int, frame.pitch() as int);
            assert(data@.len() == data.len());
        }
        let n: usize = width as usize * height as usize;
        let h: Vec<u8> = vec![0u8; n];
        let s: Vec<u8> = vec![0u8; n];
        let mut v: Vec<u8> = vec![0u8; n];
        copy_plane(v.as_mut_slice(), data, width, height, frame.stride());
        proof {
            assert(h@ =~= blank(width * height));
            assert(s@ =~= blank(width * height));
            lemma_plane_of(
                v@,
                strided(data@, frame.pitch() as int),
                width as int,
                height as int,
            );
        }
        self.process_inner(frame.timestamp(), h, s, v, false, weigh)
    }

    /// Takes in a packed frame with blue first.
    pub fn process_bgr<W: Fn(FrameDelta, Components) -> Measured>(
        &mut self,
        frame: RgbFrame<'_>,
        weigh: W,
    ) -> (cut: Option<Timestamp>)
        requires
            old(self).wf(),
            old(self)@.countable(frame.columns(), frame.rows()),
            forall|d: FrameDelta, c: Components| #[trigger] weigh.requires((d, c)),
        ensures
            final(self).wf(),
            ({
                let m = old(self)@.resized(frame.columns(), frame.rows());
                m.processed(m.bgr_planes(frame), frame.time(), weigh, final(self)@, cut)
            }),
    {
        let data: &[u8] = frame.data();
        let width: u32 = frame.width();
        let height: u32 = frame.height();
        self.ensure_buffers(width, height);
        proof {
            lemma_packed_fits(width as int, height as int, frame.pitch() as int);
            assert(data@.len() == data.len());
        }
        let n: usize = width as usize * height as usize;
        let mut h: Vec<u8> = vec![0u8; n];
        let mut s: Vec<u8> = vec![0u8; n];
        let mut v: Vec<u8> = vec![0u8; n];
        bgr_to_hsv_planes(
            h.as_mut_slice(),
            s.as_mut_slice(),
            v.as_mut_slice(),
            data,
            width,
            height,
            frame.stride(),
            ChannelOrder::Bgr,
            self.options.simd,
        );
        proof {
            let stride = frame.pitch() as int;
            lemma_plane_of(
                h@,
                hue_at(data@, stride, ChannelOrder::Bgr),
                width as int,
                height as int,
            );
            lemma_plane_of(
                s@,
                saturation_at(data@, stride, ChannelOrder::Bgr),
                width as int,
                height as int,
            );
            lemma_plane_of(
                v@,
                value_at(data@, stride, ChannelOrder::Bgr),
                width as int,
                height as int,
            );
        }
        self.process_inner(frame.timestamp(), h, s, v, true, weigh)
    }

    /// Takes in a frame in hue, saturation and value.
    pub fn process_hsv<W: Fn(FrameDelta, Components) -> Measured>(
        &mut self,
        frame: HsvFrame<'_>,
        weigh: W,
    ) -> (cut: Option<Timestamp>)
        requires
            old(self).wf(),
            old(self)@.countable(frame.columns(), frame.rows()),
            forall|d: FrameDelta, c: Components| #[trigger] weigh.requires((d, c)),
        ensures
            final(self).wf(),
            ({
                let m = old(self)@.resized(frame.columns(), frame.rows());
                m.processed(m.hsv_planes(frame), frame.time(), weigh, final(self)@, cut)
            }),
    {
        let width: u32 = frame.width();
        let height: u32 = frame.height();
        let stride: u32 = frame.stride();
        let hue: &[u8] = frame.hue();
        let saturation: &[u8] = frame.saturation();
        let value: &[u8] = frame.value();
        self.ensure_buffers(width, height);
        proof {
            lemma_packed_fits(width as int, height as int, stride as int);
            assert(hue@.len() == hue.len());
        }
        let n: usize = width as usize * height as usize;
        let mut h: Vec<u8> = vec![0u8; n];
        let mut s: Vec<u8> = vec![0u8; n];
        let mut v: Vec<u8> = vec![0u8; n];
        copy_plane(h.as_mut_slice(), hue, width, height, stride);
        copy_plane(s.as_mut_slice(), saturation, width, height, stride);
        copy_plane(v.as_mut_slice(), value, width, height, stride);
        proof {
            lemma_plane_of(h@, strided(hue@, stride as int), width as int, height as int);
            lemma_plane_of(s@, strided(saturation@, stride as int), width as int, height as int);
            lemma_plane_of(v@, strided(value@, stride as int), width as int, height as int);
        }
        self.process_inner(frame.timestamp(), h, s, v, true, weigh)
    }

    /// Takes in the packed planes of a frame. `colored` tells whether it has hue and
    /// saturation.
    fn process_inner<W: Fn(FrameDelta, Components) -> Measured>(
        &mut self,
        ts: Timestamp,
        h: Vec<u8>,
        s: Vec<u8>,
        v: Vec<u8>,
        colored: bool,
        weigh: W,
    ) -> (cut: Option<Timestamp>)
        requires
            old(self).wf(),
            old(self)@.countable(old(self)@.width, old(self)@.height),
            h@.len() == old(self)@.width * old(self)@.height,
            s@.len() == old(self)@.width * old(self)@.height,
            v@.len() == old(self)@.width * old(self)@.height,
            forall|d: FrameDelta, c: Components| #[trigger] weigh.requires((d, c)),
        ensures
            final(self).wf(),
            old(self)@.processed(
                old(self)@.planes(h@, s@, v@, colored),
                ts,
                weigh,
                final(self)@,
                cut,
            ),
    {
        let n: usize = v.len();
        let edges: Vec<u8> = if self.edges_enabled {
            let kernel: u32 = match self.options.kernel_size {
                Some(k) => k,
                None => auto_kernel_size(self.width, self.height),
            };
            compute_edges(
                v.as_slice(),
                self.width as usize,
                self.height as usize,
                kernel as usize,
                self.options.simd,
            )
        } else {
            Vec::new()
        };
        let cur: PlaneSet = PlaneSet { h, s, v, edges, colored };
        let ghost model = old(self)@;
        let ghost planes = model.planes(h@, s@, v@, colored);
        assert(cur@.edges =~= planes.edges);
        let mut cut: Option<Timestamp> = None;
        match &self.previous {
            Some(prev) => {
                let simd: bool = self.options.simd;
                let change: FrameDelta = FrameDelta {
                    hue: if colored {
                        mean_abs_diff(cur.h.as_slice(), prev.h.as_slice(), n, simd)
                    } else {
                        Mean { sum: 0, count: n as u64 }
                    },
                    sat: if colored {
                        mean_abs_diff(cur.s.as_slice(), prev.s.as_slice(), n, simd)
                    } else {
                        Mean { sum: 0, count: n as u64 }
                    },
                    lum: mean_abs_diff(cur.v.as_slice(), prev.v.as_slice(), n, simd),
                    edges: if self.edges_enabled {
                        Some(mean_abs_diff(cur.edges.as_slice(), prev.edges.as_slice(), n, simd))
                    } else {
                        None
                    },
                };
                assert(change == model.change(planes));
                let measured: Measured = weigh(change, self.options.weights);
                let above: bool = measured.score.at_least(&self.options.threshold);
                self.last = Some(measured);
                cut = self.gate.flash_filter(&self.options, ts, above);
            },
            None => {},
        }
        self.previous = Some(cur);
        cut
    }
}

/// A packed plane is no larger than the strided one it is taken from.
proof fn lemma_packed_fits(w: int, h: int, stride: int)
    requires
        0 <= w <= stride,
        0 <= h,
    ensures
        0 <= w * h <= stride * h,
{
    assert(0 <= w * h <= stride * h) by (nonlinear_arith)
        requires
            0 <= w <= stride,
            0 <= h,
    ;
}

/// A plane compared with itself has not changed.
proof fn lemma_no_change(a: Seq<u8>, n: int)
    ensures
        abs_diff_sum(a, a, n) == 0,
    decreases n,
{
    if n > 0 {
        lemma_no_change(a, n - 1);
    }
}

/// The sum of absolute differences does not depend on which plane came first, and
/// no pixel adds more than 255 to it.
proof fn lemma_change_bounds(a: Seq<u8>, b: Seq<u8>, n: int)
    requires
        0 <= n,
    ensures
        abs_diff_sum(a, b, n) == abs_diff_sum(b, a, n),
        0 <= abs_diff_sum(a, b, n) <= 255 * n,
    decreases n,
{
    if n > 0 {
        lemma_change_bounds(a, b, n - 1);
    }
}

/// Two identical frames show no change in any component.
pub proof fn identical_frames_show_no_change(p: Planes, n: int, edges: bool)
    ensures
        frame_change(p, p, n, edges).hue.sum == 0,
        frame_change(p, p, n, edges).sat.sum == 0,
        frame_change(p, p, n, edges).lum.sum == 0,
        edges ==> frame_change(p, p, n, edges).edges->0.sum == 0,
{
    lemma_no_change(p.h, n);
    lemma_no_change(p.s, n);
    lemma_no_change(p.v, n);
    lemma_no_change(p.edges, n);
}

/// The change from one frame to another is the change back, where both have color or
/// neither has, and the mean change of a component never exceeds 255. The sums are exact.
pub proof fn change_is_symmetric_and_bounded(a: Planes, b: Planes, n: int, edges: bool)
    requires
        0 <= n,
        255 * n <= u64::MAX,
    ensures
        a.colored == b.colored ==> frame_change(a, b, n, edges) == frame_change(b, a, n, edges),
        frame_change(a, b, n, edges).hue.sum <= 255 * n,
        frame_change(a, b, n, edges).sat.sum <= 255 * n,
        frame_change(a, b, n, edges).lum.sum <= 255 * n,
        edges ==> frame_change(a, b, n, edges).edges->0.sum <= 255 * n,
        a.colored ==> frame_change(a, b, n, edges).hue.sum == abs_diff_sum(a.h, b.h, n),
        a.colored ==> frame_change(a, b, n, edges).sat.sum == abs_diff_sum(a.s, b.s, n),
        frame_change(a, b, n, edges).lum.sum == abs_diff_sum(a.v, b.v, n),
        edges ==> frame_change(a, b, n, edges).edges->0.sum == abs_diff_sum(a.edges, b.edges, n),
{
    lemma_change_bounds(a.h, b.h, n);
    lemma_change_bounds(a.s, b.s, n);
    lemma_change_bounds(a.v, b.v, n);
    lemma_change_bounds(a.edges, b.edges, n);
}

/// A luma frame shows no change of hue or saturation, whatever the frame before held;
/// only luma and edges contribute.
pub proof fn luma_frames_show_no_change_of_color(m: Model, frame: LumaFrame<'_>)
    requires
        m.width == frame.columns(),
        m.height == frame.rows(),
        m.countable(m.width, m.height),
    ensures
        m.change(m.luma_planes(frame)).hue.sum == 0,
        m.change(m.luma_planes(frame)).sat.sum == 0,
        m.change(m.luma_planes(frame)).hue.count == m.width * m.height,
        m.change(m.luma_planes(frame)).sat.count == m.width * m.height,
{
    lemma_packed_fits(m.width as int, m.height as int, m.width as int);
}

/// A frame without predecessor is never a cut: the first frame of a stream, the
/// first one after a reset and the first one of a new size.
pub proof fn no_cut_without_predecessor<W: Fn(FrameDelta, Components) -> Measured>(
    m: Model,
    cur: Planes,
    ts: Timestamp,
    weigh: W,
    after: Model,
    cut: Option<Timestamp>,
)
    requires
        m.previous is None,
        m.processed(cur, ts, weigh, after, cut),
    ensures
        cut is None,
        after.previous == Some(cur),
        after.last == m.last,
        after.gate == m.gate,
{
}

/// A frame of the same size leaves the stream as it is. A new size forgets the score of the
/// old one and the point from which the minimum duration is counted, and the frame in
/// progress is no cut. The configuration stands either way.
pub proof fn resize_starts_a_new_stream<W: Fn(FrameDelta, Components) -> Measured>(
    m: Model,
    width: u32,
    height: u32,
    cur: Planes,
    ts: Timestamp,
    weigh: W,
    after: Model,
    cut: Option<Timestamp>,
)
    requires
        m.resized(width, height).processed(cur, ts, weigh, after, cut),
    ensures
        m.resized(width, height).options == m.options,
        after.options == m.options,
        m.width == width && m.height == height ==> m.resized(width, height) == m,
        m.width != width || m.height != height ==> {
            &&& cut is None
            &&& after.last is None
            &&& after.gate == Gate::fresh()
        },
{
}

/// The state of a detector that was cleared: that of a new one, but for the frame size.
pub open spec fn cleared(m: Model) -> Model {
    Model { width: m.width, height: m.height, ..Model::fresh(m.options) }
}

/// A cleared detector acts as a new one: it has no score, and it takes in the next frame,
/// of whatever size, from the same state. So what the next frame gives, the state after it
/// and all that follows are those of a new detector.
pub proof fn a_cleared_detector_is_as_new<W: Fn(FrameDelta, Components) -> Measured>(
    m: Model,
    width: u32,
    height: u32,
    cur: Planes,
    ts: Timestamp,
    weigh: W,
    after: Model,
    cut: Option<Timestamp>,
)
    ensures
        cleared(m).last is None,
        cleared(m).resized(width, height) == Model::fresh(m.options).resized(width, height),
        cleared(m).resized(width, height).processed(cur, ts, weigh, after, cut) == Model::fresh(
            m.options,
        ).resized(width, height).processed(cur, ts, weigh, after, cut),
        cleared(m).resized(width, height).processed(cur, ts, weigh, after, cut) ==> cut is None,
{
}

/// Every cut lies at the current frame or, where a merge ends, at the last change.
pub proof fn cuts_lie_at_changes(g: Gate, o: Options, ts: Timestamp, above: bool)
    requires
        g.wf(),
    ensures
        g.step(o, ts, above).1 matches Some(t) ==> {
            ||| above && t == ts
            ||| !above && g.merge_triggered && o.filter_mode == FilterMode::Merge && Some(t)
                == g.last_above
        },
{
}

/// Where cuts are suppressed, one needs a change and the minimum duration since
/// the one before, and only a cut moves the point to count from.
pub proof fn suppressed_cuts_keep_their_distance(
    g: Gate,
    o: Options,
    ts: Timestamp,
    above: bool,
)
    requires
        o.filter_mode == FilterMode::Suppress,
        g.last_above is Some,
    ensures
        g.step(o, ts, above).1 is Some <==> above && min_length_met(
            ts,
            g.last_above->0,
            o.min_duration,
        ),
        g.step(o, ts, above).1 is Some ==> g.step(o, ts, above).0.last_above == Some(ts),
        g.step(o, ts, above).1 is None ==> g.step(o, ts, above).0 == g,
{
}

/// Runs the filter over frames given by their time and whether they are a change,
/// and collects the cuts.
pub open spec fn run_gate(g: Gate, o: Options, frames: Seq<(Timestamp, bool)>) -> (
    Gate,
    Seq<Timestamp>,
)
    decreases frames.len(),
{
    if frames.len() == 0 {
        (g, Seq::empty())
    } else {
        let (prior, cuts) = run_gate(g, o, frames.drop_last());
        let (next, cut) = prior.step(o, frames.last().0, frames.last().1);
        match cut {
            Some(t) => (next, cuts.push(t)),
            None => (next, cuts),
        }
    }
}

/// Where cuts are suppressed, each cut of a stream comes at least the minimum
/// duration after the one before it.
pub proof fn suppressed_streams_space_their_cuts(o: Options, frames: Seq<(Timestamp, bool)>)
    requires
        o.filter_mode == FilterMode::Suppress,
    ensures
        ({
            let (g, cuts) = run_gate(Gate::fresh(), o, frames);
            &&& forall|i: int|
                0 < i < cuts.len() ==> min_length_met(
                    #[trigger] cuts[i],
                    cuts[i - 1],
                    o.min_duration,
                )
            &&& cuts.len() > 0 ==> g.last_above == Some(cuts.last())
        }),
    decreases frames.len(),
{
    if frames.len() > 0 {
        suppressed_streams_space_their_cuts(o, frames.drop_last());
    }
}

/// The timebases of the frames move, and each frame comes no later than those behind it.
pub open spec fn frames_in_order(frames: Seq<(Timestamp, bool)>) -> bool {
    &&& forall|i: int| 0 <= i < frames.len() ==> moving((#[trigger] frames[i]).0)
    &&& forall|i: int, j: int|
        0 <= i < j < frames.len() ==> (#[trigger] frames[i]).0.relation((#[trigger] frames[j]).0)
            != Relation::After
}

/// `a` lies no later than `b`, and its timebase moves.
pub open spec fn no_later(a: Timestamp, b: Timestamp) -> bool {
    moving(a) && a.relation(b) != Relation::After
}

/// What is kept of a stream once it has had a cut: the last change comes no later than
/// the frame, and the last cut no later than the last change, nor than the start of a
/// merge.
spec fn kept_apart(g: Gate, o: Options, cuts: Seq<Timestamp>, now: Timestamp) -> bool {
    &&& g.merge_enabled ==> cuts.len() > 0
    &&& g.merge_triggered ==> cuts.len() > 0 && o.filter_mode == FilterMode::Merge
    &&& cuts.len() > 0 ==> {
        &&& g.last_above matches Some(l) && no_later(l, now) && no_later(cuts.last(), l)
        &&& g.merge_triggered ==> (g.merge_start matches Some(m) && moving(m) && no_later(
            cuts.last(),
            m,
        ))
    }
}

/// A frame keeps the cuts apart, and what is kept of the stream.
proof fn lemma_step_spaces(
    g: Gate,
    o: Options,
    cuts: Seq<Timestamp>,
    now: Timestamp,
    ts: Timestamp,
    above: bool,
)
    requires
        cuts.len() > 0 ==> moving(now) && no_later(now, ts),
        cuts.len() == 0 ==> !g.merge_enabled && !g.merge_triggered,
        moving(ts),
        0 <= o.min_duration.total() <= max_nanos(),
        kept_apart(g, o, cuts, now),
    ensures
        ({
            let (next, cut) = g.step(o, ts, above);
            let all = match cut {
                Some(t) => cuts.push(t),
                None => cuts,
            };
            &&& kept_apart(next, o, all, ts)
            &&& cut matches Some(t) ==> no_later(t, ts) && (cuts.len() > 0 ==> min_length_met(
                t,
                cuts.last(),
                o.min_duration,
            ))
        }),
{
    relation_is_antisymmetric(ts, ts);
    let (next, cut) = g.step(o, ts, above);
    if cuts.len() > 0 {
        let l = g.last_above->0;
        let c = cuts.last();
        not_after_is_transitive(l, now, ts);
        not_after_is_transitive(c, l, ts);
        if min_length_met(ts, l, o.min_duration) {
            longer_since_earlier(ts, l, c, o.min_duration);
        }
        if g.merge_triggered {
            let m = g.merge_start->0;
            if l.nanos_since(m) is Some && l.nanos_since(m)->0 >= o.min_duration.total() {
                longer_since_earlier(l, m, c, o.min_duration);
            }
            if o.min_duration.total() == 0 {
                lemma_not_before_is_met(l, c, o.min_duration);
            }
        }
    }
}

/// Where nothing is asked for, it has passed since an instant that is no later.
proof fn lemma_not_before_is_met(ts: Timestamp, before: Timestamp, min: Duration)
    requires
        moving(ts),
        no_later(before, ts),
        min.total() == 0,
    ensures
        min_length_met(ts, before, min),
{
    relation_compares_instants(before, ts);
    a_span_has_its_nanoseconds(ts, before);
}

/// In either mode each cut of a stream in order comes at least the minimum duration after
/// the one before it, and no later than the frame that gives it.
pub proof fn streams_space_their_cuts(o: Options, frames: Seq<(Timestamp, bool)>)
    requires
        frames_in_order(frames),
        0 <= o.min_duration.total() <= max_nanos(),
    ensures
        ({
            let (g, cuts) = run_gate(Gate::fresh(), o, frames);
            &&& forall|i: int|
                0 < i < cuts.len() ==> min_length_met(
                    #[trigger] cuts[i],
                    cuts[i - 1],
                    o.min_duration,
                )
            &&& cuts.len() > 0 ==> no_later(cuts.last(), frames.last().0)
        }),
    decreases frames.len(),
{
    lemma_gate_kept_apart(o, frames);
}

/// What is kept of a stream.
proof fn lemma_gate_kept_apart(o: Options, frames: Seq<(Timestamp, bool)>)
    requires
        frames_in_order(frames),
        0 <= o.min_duration.total() <= max_nanos(),
    ensures
        ({
            let (g, cuts) = run_gate(Gate::fresh(), o, frames);
            &&& frames.len() == 0 ==> g == Gate::fresh() && cuts.len() == 0
            &&& frames.len() > 0 ==> kept_apart(g, o, cuts, frames.last().0)
            &&& forall|i: int|
                0 < i < cuts.len() ==> min_length_met(
                    #[trigger] cuts[i],
                    cuts[i - 1],
                    o.min_duration,
                )
            &&& cuts.len() > 0 ==> no_later(cuts.last(), frames.last().0)
        }),
    decreases frames.len(),
{
    if frames.len() > 0 {
        let init = frames.drop_last();
        let n = frames.len() - 1;
        let (ts, above) = frames.last();
        assert forall|i: int| 0 <= i < init.len() implies moving((#[trigger] init[i]).0) by {
            assert(moving(frames[i].0));
        }
        assert forall|i: int, j: int| 0 <= i < j < init.len() implies (
        #[trigger] init[i]).0.relation((#[trigger] init[j]).0) != Relation::After by {
            assert(frames[i].0.relation(frames[j].0) != Relation::After);
        }
        lemma_gate_kept_apart(o, init);
        assert(moving(frames[n].0));
        let (g, cuts) = run_gate(Gate::fresh(), o, init);
        let now = if init.len() > 0 {
            init.last().0
        } else {
            ts
        };
        if init.len() > 0 {
            assert(init.last() == frames[n - 1]);
            assert(frames[n - 1].0.relation(frames[n].0) != Relation::After);
            assert(moving(frames[n - 1].0));
        }
        lemma_step_spaces(g, o, cuts, now, ts, above);
        if cuts.len() > 0 {
            not_after_is_transitive(cuts.last(), now, ts);
        }
    }
}

/// The cuts among the results of a stream.
pub open spec fn collected(results: Seq<Option<Timestamp>>) -> Seq<Timestamp>
    decreases results.len(),
{
    if results.len() == 0 {
        Seq::empty()
    } else {
        match results.last() {
            Some(t) => collected(results.drop_last()).push(t),
            None => collected(results.drop_last()),
        }
    }
}

/// A detector takes in frames of one size, one after the other: `states` holds the state
/// before each and after the last, and `results` what each gives.
pub open spec fn processed_run<W: Fn(FrameDelta, Components) -> Measured>(
    states: Seq<Model>,
    planes: Seq<Planes>,
    times: Seq<Timestamp>,
    weigh: W,
    results: Seq<Option<Timestamp>>,
) -> bool {
    &&& states.len() == times.len() + 1
    &&& planes.len() == times.len()
    &&& results.len() == times.len()
    &&& forall|i: int|
        0 <= i < times.len() ==> states[i].processed(
            planes[i],
            #[trigger] times[i],
            weigh,
            states[i + 1],
            results[i],
        )
}

/// The filter sees every frame but the first.
proof fn lemma_filter_sees<W: Fn(FrameDelta, Components) -> Measured>(
    o: Options,
    states: Seq<Model>,
    planes: Seq<Planes>,
    times: Seq<Timestamp>,
    weigh: W,
    results: Seq<Option<Timestamp>>,
    k: int,
) -> (frames: Seq<(Timestamp, bool)>)
    requires
        processed_run(states, planes, times, weigh, results),
        states[0].options == o,
        states[0].previous is None,
        states[0].gate == Gate::fresh(),
        0 <= k <= times.len(),
    ensures
        states[k].options == o,
        k > 0 ==> states[k].previous is Some,
        frames.len() == if k == 0 {
            0
        } else {
            k - 1
        },
        forall|i: int| 0 <= i < frames.len() ==> (#[trigger] frames[i]).0 == times[i + 1],
        run_gate(Gate::fresh(), o, frames) == (states[k].gate, collected(results.take(k))),
        k > 0 ==> results[0] is None,
    decreases k,
{
    if k == 0 {
        assert(results.take(0) =~= Seq::empty());
        Seq::empty()
    } else {
        let prior = lemma_filter_sees(o, states, planes, times, weigh, results, k - 1);
        let m = states[k - 1];
        assert(m.processed(planes[k - 1], times[k - 1], weigh, states[k - 1 + 1], results[k - 1]));
        assert(results.take(k).drop_last() =~= results.take(k - 1));
        assert(results.take(k).last() == results[k - 1]);
        if k == 1 {
            prior
        } else {
            let s = choose|s: Measured| #[trigger]
                weigh.ensures((m.change(planes[k - 1]), m.options.weights), s) && (
                states[k],
                results[k - 1],
                ) == m.scored(planes[k - 1], times[k - 1], s);
            let above = s.score.ge(o.threshold);
            let frames = prior.push((times[k - 1], above));
            assert(frames.drop_last() =~= prior);
            frames
        }
    }
}

/// In either mode each cut that a detector gives on frames of one size, in order, comes at
/// least the minimum duration after the one before it, and no later than the frame that
/// gives it; the first frame gives none.
pub proof fn a_detector_spaces_its_cuts<W: Fn(FrameDelta, Components) -> Measured>(
    o: Options,
    states: Seq<Model>,
    planes: Seq<Planes>,
    times: Seq<Timestamp>,
    weigh: W,
    results: Seq<Option<Timestamp>>,
)
    requires
        processed_run(states, planes, times, weigh, results),
        states[0].options == o,
        states[0].previous is None,
        states[0].gate == Gate::fresh(),
        0 <= o.min_duration.total() <= max_nanos(),
        forall|i: int| 0 <= i < times.len() ==> moving(#[trigger] times[i]),
        forall|i: int, j: int|
            0 <= i < j < times.len() ==> (#[trigger] times[i]).relation(#[trigger] times[j])
                != Relation::After,
    ensures
        times.len() > 0 ==> results[0] is None,
        forall|i: int|
            0 < i < collected(results).len() ==> min_length_met(
                #[trigger] collected(results)[i],
                collected(results)[i - 1],
                o.min_duration,
            ),
        times.len() > 0 && collected(results).len() > 0 ==> no_later(
            collected(results).last(),
            times.last(),
        ),
{
    let n = times.len() as int;
    let frames = lemma_filter_sees(o, states, planes, times, weigh, results, n);
    assert(results.take(n) =~= results);
    assert forall|i: int| 0 <= i < frames.len() implies moving((#[trigger] frames[i]).0) by {
        assert(moving(times[i + 1]));
    }
    assert forall|i: int, j: int| 0 <= i < j < frames.len() implies (
    #[trigger] frames[i]).0.relation((#[trigger] frames[j]).0) != Relation::After by {
        assert(times[i + 1].relation(times[j + 1]) != Relation::After);
    }
    streams_space_their_cuts(o, frames);
    if frames.len() > 0 {
        assert(frames.last().0 == times[n - 1]);
    }
}

/// While changes are being merged, a further change is not a cut and keeps the
/// merge going.
pub proof fn merging_holds_back_changes(g: Gate, o: Options, ts: Timestamp)
    requires
        o.filter_mode == FilterMode::Merge,
        g.wf(),
        g.merge_triggered,
    ensures
        g.step(o, ts, true).1 is None,
        g.step(o, ts, true).0 == (Gate { last_above: Some(ts), ..g }),
{
}

/// A merge that ends gives one cut, at its last change, and only once the changes
/// have gone on for the minimum duration and been over for it.
pub proof fn a_merge_ends_in_one_cut(g: Gate, o: Options, ts: Timestamp, above: bool)
    requires
        o.filter_mode == FilterMode::Merge,
        g.wf(),
        g.merge_triggered,
        g.step(o, ts, above).1 is Some,
        o.min_duration.total() > 0,
    ensures
        !above,
        g.step(o, ts, above).1 == g.last_above,
        !g.step(o, ts, above).0.merge_triggered,
        min_length_met(ts, g.last_above->0, o.min_duration),
        min_length_met(g.last_above->0, g.merge_start->0, o.min_duration),
{
}

/// Outside a merge a frame that is no change gives no cut, and leaves the filter
/// as it is.
pub proof fn quiet_frames_leave_the_filter(g: Gate, o: Options, ts: Timestamp)
    requires
        !g.merge_triggered,
        g.last_above is Some,
    ensures
        g.step(o, ts, false) == (g, None::<Timestamp>),
{
}

/// Where the first change may be a cut at once, it is: from a fresh filter that
/// has seen its first frame at `first`, a change at `first` or later is a cut. Left
/// out are streams that start so close to the smallest tick that it holds the seed.
pub proof fn first_change_is_a_cut(o: Options, first: Timestamp, ts: Timestamp)
    requires
        o.initial_cut,
        first.valid(),
        ts.valid(),
        ts.base() == first.base(),
        first.ticks() <= ts.ticks(),
        first.base().numerator() > 0,
        past_tick(first, o.min_duration) > i64::MIN,
        0 <= o.min_duration.total() <= max_nanos(),
        o.min_duration.total() * first.base().denominator() / (first.base().numerator()
            * 1_000_000_000) <= i64::MAX,
    ensures
        Gate::fresh().step(o, first, false).1 is None,
        Gate::fresh().step(o, first, false).0.step(o, ts, true).1 == Some(ts),
        Gate::fresh().step(o, first, true).1 == Some(first),
{
    seed_lets_the_first_cut_pass(first, first, o.min_duration);
    seed_lets_the_first_cut_pass(first, ts, o.min_duration);
}

/// Where the first change may not be a cut at once, no change is a cut before the
/// minimum duration has passed since the first frame with a predecessor.
pub proof fn early_changes_are_held_back(o: Options, first: Timestamp, ts: Timestamp, above: bool)
    requires
        !o.initial_cut,
        !min_length_met(ts, first, o.min_duration),
    ensures
        Gate::fresh().step(o, first, false).1 is None,
        Gate::fresh().step(o, first, false).0.step(o, ts, above).1 is None,
{
}

/// Where changes are merged and no merge is in progress, a change is a cut, at its own time,
/// just where the minimum duration has passed since the last change, whatever came before.
/// Where it has not passed, the change starts a merge if the stream has had a cut. Either
/// way the minimum duration is counted from this change on.
pub proof fn outside_a_merge_a_change_is_a_cut_when_it_is_due(
    g: Gate,
    o: Options,
    last: Timestamp,
    ts: Timestamp,
)
    requires
        o.filter_mode == FilterMode::Merge,
        !g.merge_triggered,
        g.last_above == Some(last),
    ensures
        ({
            let (next, cut) = g.step(o, ts, true);
            let due = min_length_met(ts, last, o.min_duration);
            &&& cut == if due {
                Some(ts)
            } else {
                None::<Timestamp>
            }
            &&& next.merge_triggered <==> !due && g.merge_enabled
            &&& next.merge_triggered ==> next.merge_start == Some(ts)
            &&& next.merge_enabled <==> due || g.merge_enabled
            &&& next.last_above == Some(ts)
        }),
{
}

/// A merge goes on until a frame that is no change comes the minimum duration after the last
/// change, with that change the minimum duration after the first one merged. It then ends
/// in a cut at its last change; until then there is none.
pub proof fn a_merge_ends_when_it_is_due(
    g: Gate,
    o: Options,
    first: Timestamp,
    last: Timestamp,
    ts: Timestamp,
    above: bool,
)
    requires
        o.filter_mode == FilterMode::Merge,
        g.merge_triggered,
        g.merge_start == Some(first),
        g.last_above == Some(last),
        o.min_duration.total() > 0,
    ensures
        ({
            let (next, cut) = g.step(o, ts, above);
            let over = !above && min_length_met(ts, last, o.min_duration) && min_length_met(
                last,
                first,
                o.min_duration,
            );
            &&& cut == if over {
                Some(last)
            } else {
                None::<Timestamp>
            }
            &&& next.merge_triggered == !over
            &&& next.merge_enabled == g.merge_enabled
            &&& next.merge_start == g.merge_start
            &&& next.last_above == if above {
                Some(ts)
            } else {
                Some(last)
            }
        }),
{
}

/// The first frame that the filter sees counts from the seed: it is a cut just where it is a
/// change and the minimum duration has passed since the seed, in either mode. A frame that
/// is no change leaves the seed to count from.
pub proof fn the_filter_starts_at_the_seed(o: Options, ts: Timestamp, above: bool)
    ensures
        ({
            let seed = seed_at(ts, o.initial_cut, o.min_duration);
            let (next, cut) = Gate::fresh().step(o, ts, above);
            &&& cut == if above && min_length_met(ts, seed, o.min_duration) {
                Some(ts)
            } else {
                None::<Timestamp>
            }
            &&& !next.merge_triggered
            &&& next.merge_enabled ==> cut is Some
            &&& !above ==> next.last_above == Some(seed)
            &&& cut is Some ==> next.last_above == Some(ts)
        }),
{
}

/// The times of the frames that are a change.
pub open spec fn changes(frames: Seq<(Timestamp, bool)>) -> Seq<Timestamp>
    decreases frames.len(),
{
    if frames.len() == 0 {
        Seq::empty()
    } else if frames.last().1 {
        changes(frames.drop_last()).push(frames.last().0)
    } else {
        changes(frames.drop_last())
    }
}

/// Changes that keep their distance are all cuts, in either mode: where each comes the
/// minimum duration after the one before, and the first one after the seed, the cuts of the
/// stream are its changes.
pub proof fn changes_far_apart_are_all_cuts(o: Options, frames: Seq<(Timestamp, bool)>)
    requires
        forall|i: int|
            0 < i < changes(frames).len() ==> min_length_met(
                #[trigger] changes(frames)[i],
                changes(frames)[i - 1],
                o.min_duration,
            ),
        changes(frames).len() > 0 ==> min_length_met(
            changes(frames)[0],
            seed_at(frames[0].0, o.initial_cut, o.min_duration),
            o.min_duration,
        ),
    ensures
        run_gate(Gate::fresh(), o, frames).1 == changes(frames),
{
    lemma_far_apart(o, frames);
}

/// While all changes are cuts, no merge is in progress.
proof fn lemma_far_apart(o: Options, frames: Seq<(Timestamp, bool)>)
    requires
        forall|i: int|
            0 < i < changes(frames).len() ==> min_length_met(
                #[trigger] changes(frames)[i],
                changes(frames)[i - 1],
                o.min_duration,
            ),
        changes(frames).len() > 0 ==> min_length_met(
            changes(frames)[0],
            seed_at(frames[0].0, o.initial_cut, o.min_duration),
            o.min_duration,
        ),
    ensures
        ({
            let (g, cuts) = run_gate(Gate::fresh(), o, frames);
            &&& cuts == changes(frames)
            &&& !g.merge_triggered
            &&& g.last_above == if frames.len() == 0 {
                None
            } else if changes(frames).len() == 0 {
                Some(seed_at(frames[0].0, o.initial_cut, o.min_duration))
            } else {
                Some(changes(frames).last())
            }
        }),
    decreases frames.len(),
{
    if frames.len() > 0 {
        let init = frames.drop_last();
        let c = changes(frames);
        let d = changes(init);
        assert forall|i: int| 0 < i < d.len() implies min_length_met(
            #[trigger] d[i],
            d[i - 1],
            o.min_duration,
        ) by {
            assert(c[i] == d[i] && c[i - 1] == d[i - 1]);
        }
        if d.len() > 0 {
            assert(c[0] == d[0]);
            assert(init.len() > 0);
            assert(init[0] == frames[0]);
        }
        lemma_far_apart(o, init);
        if init.len() > 0 {
            assert(init[0] == frames[0]);
        }
        if frames.last().1 {
            let n = c.len() - 1;
            assert(c[n] == frames.last().0);
            if n > 0 {
                assert(c[n - 1] == d.last());
                assert(min_length_met(c[n], c[n - 1], o.min_duration));
            }
        }
    }
}

/// Every frame of a run is compared with the one before it, whatever came of that one, with
/// the weights of the configuration; and whether it is a change is told by its score and
/// the threshold of the configuration alone.
pub proof fn each_frame_is_compared_with_the_one_before<
    W: Fn(FrameDelta, Components) -> Measured,
>(
    o: Options,
    states: Seq<Model>,
    planes: Seq<Planes>,
    times: Seq<Timestamp>,
    weigh: W,
    results: Seq<Option<Timestamp>>,
    edges: bool,
    k: int,
)
    requires
        edges == !o.weights.delta_edges.zero(),
        processed_run(states, planes, times, weigh, results),
        states[0].options == o,
        states[0].previous is None,
        states[0].gate == Gate::fresh(),
        0 <= k < times.len(),
    ensures
        states[k + 1].options == o,
        states[k + 1].width == states[0].width,
        states[k + 1].height == states[0].height,
        states[k + 1].previous == Some(planes[k]),
        k == 0 ==> results[k] is None && states[k + 1].last == states[0].last
            && states[k + 1].gate == Gate::fresh(),
        k > 0 ==> ({
            let n = states[0].width * states[0].height;
            let change = frame_change(planes[k], planes[k - 1], n, edges);
            exists|m: Measured| #[trigger]
                weigh.ensures((change, o.weights), m) && states[k + 1].last == Some(m) && (
                states[k + 1].gate,
                results[k],
                ) == states[k].gate.step(o, times[k], m.score.ge(o.threshold))
        }),
    decreases k,
{
    assert(states[k].processed(planes[k], times[k], weigh, states[k + 1], results[k]));
    if k > 0 {
        each_frame_is_compared_with_the_one_before(
            o,
            states,
            planes,
            times,
            weigh,
            results,
            edges,
            k - 1,
        );
    }
}

/// The planes of a luma frame hold its pixels, row by row without the padding, and a blank
/// hue and saturation.
pub proof fn luma_planes_hold_the_pixels(m: Model, frame: LumaFrame<'_>, y: int, x: int)
    requires
        0 <= y < frame.rows(),
        0 <= x < frame.columns(),
    ensures
        ({
            let p = m.luma_planes(frame);
            let at = y * frame.columns() + x;
            &&& p.v.len() == frame.columns() * frame.rows()
            &&& p.v[at] == frame.bytes()[y * frame.pitch() + x]
            &&& p.h[at] == 0
            &&& p.s[at] == 0
            &&& !p.colored
        }),
{
    lemma_cell(y, x, frame.columns() as int, frame.rows() as int);
}

/// The planes of a frame in hue, saturation and value hold its pixels, each plane its own.
pub proof fn hsv_planes_hold_the_pixels(m: Model, frame: HsvFrame<'_>, y: int, x: int)
    requires
        0 <= y < frame.rows(),
        0 <= x < frame.columns(),
    ensures
        ({
            let p = m.hsv_planes(frame);
            let at = y * frame.columns() + x;
            let from = y * frame.pitch() + x;
            &&& p.h.len() == frame.columns() * frame.rows()
            &&& p.h[at] == frame.hue_bytes()[from]
            &&& p.s[at] == frame.saturation_bytes()[from]
            &&& p.v[at] == frame.value_bytes()[from]
            &&& p.colored
        }),
{
    lemma_cell(y, x, frame.columns() as int, frame.rows() as int);
}

/// The planes of a packed frame hold hue, saturation and value of its pixels, three bytes
/// each, blue first.
pub proof fn bgr_planes_hold_the_pixels(m: Model, frame: RgbFrame<'_>, y: int, x: int)
    requires
        0 <= y < frame.rows(),
        0 <= x < frame.columns(),
    ensures
        ({
            let p = m.bgr_planes(frame);
            let at = y * frame.columns() + x;
            let from = y * frame.pitch() + 3 * x;
            let (b, g, r) = (frame.bytes()[from], frame.bytes()[from + 1], frame.bytes()[from + 2]);
            &&& p.v.len() == frame.columns() * frame.rows()
            &&& p.h[at] == hue_of(b, g, r)
            &&& p.s[at] == saturation_of(b, g, r)
            &&& p.v[at] == max3(b, g, r)
            &&& p.colored
        }),
{
    lemma_cell(y, x, frame.columns() as int, frame.rows() as int);
    let from = y * frame.pitch() + 3 * x;
    lemma_hsv_range(frame.bytes()[from], frame.bytes()[from + 1], frame.bytes()[from + 2]);
}

/// Edges are those of the value plane, with the kernel of the configuration or the one for
/// the size of the frame, and are left out where they carry no weight.
pub proof fn edges_are_those_of_the_value_plane(
    m: Model,
    h: Seq<u8>,
    s: Seq<u8>,
    v: Seq<u8>,
    colored: bool,
)
    ensures
        ({
            let p = m.planes(h, s, v, colored);
            let (w, n) = (m.width as int, m.height as int);
            &&& p.h == h && p.s == s && p.v == v && p.colored == colored
            &&& m.options.weights.delta_edges.zero() ==> p.edges.len() == 0
            &&& !m.options.weights.delta_edges.zero() ==> {
                &&& m.options.kernel_size matches Some(k) ==> p.edges == edge_map(v, w, n, k as int)
                &&& m.options.kernel_size is None ==> p.edges == edge_map(
                    v,
                    w,
                    n,
                    auto_kernel(w, n),
                )
            }
        }),
{
}

/// A number has a rounded root, looked for from `d` on.
proof fn lemma_rounded_root_from(n: int, d: int)
    requires
        0 <= n,
        0 <= d,
        d == 0 || (96 * (2 * d - 1)) * (96 * (2 * d - 1)) <= n,
    ensures
        exists|e: int| is_rounded_root(n, e),
    decreases n - d,
{
    let side = 96 * (2 * d + 1);
    if side * side > n {
        assert(is_rounded_root(n, d));
    } else {
        assert(d < n) by (nonlinear_arith)
            requires
                side == 96 * (2 * d + 1),
                side * side <= n,
                0 <= d,
        ;
        assert(96 * (2 * (d + 1) - 1) == side);
        lemma_rounded_root_from(n, d + 1);
    }
}

/// The kernel for a frame size is odd and never below five, and grows with the root of the
/// area: it is four more than the rounded quotient of that root and 192, or five more where
/// that would be even.
pub proof fn the_kernel_follows_the_frame_size(w: int, h: int)
    requires
        0 <= w,
        0 <= h,
    ensures
        auto_kernel(w, h) % 2 == 1,
        auto_kernel(w, h) >= 5,
        is_rounded_root(w * h, auto_kernel(w, h) - 4) || is_rounded_root(
            w * h,
            auto_kernel(w, h) - 5,
        ),
{
    assert(0 <= w * h) by (nonlinear_arith)
        requires
            0 <= w,
            0 <= h,
    ;
    lemma_rounded_root_from(w * h, 0);
    let d = rounded_root(w * h);
    assert(is_rounded_root(w * h, d));
}

/// Options are refused just where no component carries weight or the kernel is below three
/// or even; the missing weights are told first.
pub proof fn options_are_refused_for_cause(o: Options)
    ensures
        ({
            let weighs = !o.weights.delta_hue.zero() || !o.weights.delta_sat.zero()
                || !o.weights.delta_lum.zero() || !o.weights.delta_edges.zero();
            let odd = o.kernel_size matches Some(k) ==> k >= 3 && k % 2 == 1;
            &&& options_fault(o) is None <==> weighs && odd
            &&& options_fault(o) == Some(Error::ZeroWeights) <==> !weighs
            &&& options_fault(o) matches Some(Error::InvalidKernelSize(k)) ==> o.kernel_size == Some(
                k,
            )
        }),
{
}

/// Every component is compared over all pixels of the frame.
pub proof fn changes_are_counted_over_all_pixels(a: Planes, b: Planes, n: int, edges: bool)
    requires
        0 <= n <= u64::MAX,
    ensures
        frame_change(a, b, n, edges).hue.count == n,
        frame_change(a, b, n, edges).sat.count == n,
        frame_change(a, b, n, edges).lum.count == n,
        frame_change(a, b, n, edges).edges is Some <==> edges,
        edges ==> frame_change(a, b, n, edges).edges->0.count == n,
        !a.colored ==> frame_change(a, b, n, edges).hue.sum == 0 && frame_change(
            a,
            b,
            n,
            edges,
        ).sat.sum == 0,
{
}

} // verus!
