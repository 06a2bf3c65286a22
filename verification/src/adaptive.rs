//! Cut detection against a rolling average of content scores.
//!
//! Frames are scored as the content detector scores them. The scores around a
//! target frame form a window; the target is a cut where its score stands out
//! against the average of the others. A caller-supplied function keeps the rolling
//! sum and computes the ratio of the target to that average. Cuts are reported one
//! half window late.

use std::collections::VecDeque;

use vstd::prelude::*;
use vstd::std_specs::vecdeque::*;

use crate::content;
use crate::content::{default_weights, Components, FrameDelta, Measured};
use crate::frame::{HsvFrame, LumaFrame, RgbFrame};
use crate::number::Real;
use crate::time::{
    elapsed_at_least, frames_to_duration, gate_seed, max_nanos, min_length_met, past_tick,
    seed_at, seed_lets_the_first_cut_pass, Duration, Timebase, Timestamp,
};

verus! {

/// The bit pattern of three.
pub const THREE: u64 = 0x4008_0000_0000_0000;

/// The bit pattern of 15.
pub const FIFTEEN: u64 = 0x402e_0000_0000_0000;

/// The bit pattern of positive infinity.
pub const INFINITY: u64 = 0x7ff0_0000_0000_0000;

/// Why a detector was refused.
#[derive(Debug, Clone, Copy, PartialEq, Eq, Structural)]
#[non_exhaustive]
pub enum Error {
    /// The window width is zero.
    ZeroWindowWidth,
    /// The content options are invalid.
    Content(content::Error),
}

impl Error {
    /// Whether the error is `ZeroWindowWidth`.
    pub fn is_zero_window_width(&self) -> (r: bool)
        ensures
            r == (*self is ZeroWindowWidth),
    {
        matches!(self, Error::ZeroWindowWidth { .. })
    }

    /// Whether the error is `Content`.
    pub fn is_content(&self) -> (r: bool)
        ensures
            r == (*self is Content),
    {
        matches!(self, Error::Content { .. })
    }

    /// The message text of the error.
    pub open spec fn text(self) -> Seq<char> {
        match self {
            Error::ZeroWindowWidth => "window_width must be >= 1"@,
            Error::Content(e) => e.text(),
        }
    }

    /// The message text of the error.
    pub fn message(&self) -> (s: String)
        ensures
            s@ == self.text(),
    {
        match *self {
            Error::ZeroWindowWidth => "window_width must be >= 1".to_owned(),
            Error::Content(e) => e.message(),
        }
    }
}

/// Configuration of a detector.
#[derive(Debug, Clone, Copy)]
pub struct Options {
    /// Ratio to the average from which on a target is a cut.
    pub adaptive_threshold: Real,
    /// Minimum duration of a scene.
    pub min_duration: Duration,
    /// Number of scores on each side of the target.
    pub window_width: u32,
    /// Score below which a target is no cut.
    pub min_content_val: Real,
    /// Weights of the components.
    pub weights: Components,
    /// Side of the dilation square for edges; by frame size where absent.
    pub kernel_size: Option<u32>,
    /// Whether vector units may be used.
    pub simd: bool,
    /// Whether the first outlier may be a cut at once.
    pub initial_cut: bool,
}

impl Options {
    /// The default configuration.
    pub open spec fn standard(self) -> bool {
        &&& self.adaptive_threshold == (Real { bits: THREE })
        &&& self.min_duration.total() == 1_000_000_000
        &&& self.window_width == 2
        &&& self.min_content_val == (Real { bits: FIFTEEN })
        &&& self.weights == Components::standard()
        &&& self.kernel_size is None
        &&& self.simd
        &&& self.initial_cut
    }

    /// The default configuration: threshold 3, scenes of at least one second, two
    /// scores on each side, minimum score 15, the standard weights.
    pub fn new() -> (o: Options)
        ensures
            o.standard(),
    {
        Options {
            adaptive_threshold: Real { bits: THREE },
            min_duration: Duration::from_secs(1),
            window_width: 2,
            min_content_val: Real { bits: FIFTEEN },
            weights: default_weights(),
            kernel_size: None,
            simd: true,
            initial_cut: true,
        }
    }

    /// The ratio from which on a target is a cut.
    pub fn adaptive_threshold(&self) -> (v: Real)
        ensures
            v == self.adaptive_threshold,
    {
        self.adaptive_threshold
    }

    /// The same with another value for the ratio from which on a target is a cut.
    pub fn with_adaptive_threshold(self, val: Real) -> (r: Options)
        ensures
            r == (Options { adaptive_threshold: val, ..self }),
    {
        Options { adaptive_threshold: val, ..self }
    }

    /// Sets the ratio from which on a target is a cut.
    pub fn set_adaptive_threshold(&mut self, val: Real) -> (r: &mut Options)
        ensures
            *r == (Options { adaptive_threshold: val, ..*old(self) }),
            *final(self) == *final(r),
    {
        self.adaptive_threshold = val;
        self
    }

    /// The minimum duration of a scene.
    pub fn min_duration(&self) -> (v: Duration)
        ensures
            v == self.min_duration,
    {
        self.min_duration
    }

    /// The same with another value for the minimum duration of a scene.
    pub fn with_min_duration(self, val: Duration) -> (r: Options)
        ensures
            r == (Options { min_duration: val, ..self }),
    {
        Options { min_duration: val, ..self }
    }

    /// Sets the minimum duration of a scene.
    pub fn set_min_duration(&mut self, val: Duration) -> (r: &mut Options)
        ensures
            *r == (Options { min_duration: val, ..*old(self) }),
            *final(self) == *final(r),
    {
        self.min_duration = val;
        self
    }

    /// The number of scores on each side of the target.
    pub fn window_width(&self) -> (v: u32)
        ensures
            v == self.window_width,
    {
        self.window_width
    }

    /// The same with another value for the number of scores on each side of the target.
    pub fn with_window_width(self, val: u32) -> (r: Options)
        ensures
            r == (Options { window_width: val, ..self }),
    {
        Options { window_width: val, ..self }
    }

    /// Sets the number of scores on each side of the target.
    pub fn set_window_width(&mut self, val: u32) -> (r: &mut Options)
        ensures
            *r == (Options { window_width: val, ..*old(self) }),
            *final(self) == *final(r),
    {
        self.window_width = val;
        self
    }

    /// The score below which a target is no cut.
    pub fn min_content_val(&self) -> (v: Real)
        ensures
            v == self.min_content_val,
    {
        self.min_content_val
    }

    /// The same with another value for the score below which a target is no cut.
    pub fn with_min_content_val(self, val: Real) -> (r: Options)
        ensures
            r == (Options { min_content_val: val, ..self }),
    {
        Options { min_content_val: val, ..self }
    }

    /// Sets the score below which a target is no cut.
    pub fn set_min_content_val(&mut self, val: Real) -> (r: &mut Options)
        ensures
            *r == (Options { min_content_val: val, ..*old(self) }),
            *final(self) == *final(r),
    {
        self.min_content_val = val;
        self
    }

    /// The weights of the components.
    pub fn weights(&self) -> (v: &Components)
        ensures
            *v == self.weights,
    {
        &self.weights
    }

    /// The same with another value for the weights of the components.
    pub fn with_weights(self, val: Components) -> (r: Options)
        ensures
            r == (Options { weights: val, ..self }),
    {
        Options { weights: val, ..self }
    }

    /// Sets the weights of the components.
    pub fn set_weights(&mut self, val: Components) -> (r: &mut Options)
        ensures
            *r == (Options { weights: val, ..*old(self) }),
            *final(self) == *final(r),
    {
        self.weights = val;
        self
    }

    /// The side of the dilation square for edges.
    pub fn kernel_size(&self) -> (v: Option<u32>)
        ensures
            v == self.kernel_size,
    {
        self.kernel_size
    }

    /// The same with another value for the side of the dilation square for edges.
    pub fn with_kernel_size(self, val: Option<u32>) -> (r: Options)
        ensures
            r == (Options { kernel_size: val, ..self }),
    {
        Options { kernel_size: val, ..self }
    }

    /// Sets the side of the dilation square for edges.
    pub fn set_kernel_size(&mut self, val: Option<u32>) -> (r: &mut Options)
        ensures
            *r == (Options { kernel_size: val, ..*old(self) }),
            *final(self) == *final(r),
    {
        self.kernel_size = val;
        self
    }

    /// Whether vector units may be used.
    pub fn simd(&self) -> (v: bool)
        ensures
            v == self.simd,
    {
        self.simd
    }

    /// The same with another value for whether vector units may be used.
    pub fn with_simd(self, val: bool) -> (r: Options)
        ensures
            r == (Options { simd: val, ..self }),
    {
        Options { simd: val, ..self }
    }

    /// Sets whether vector units may be used.
    pub fn set_simd(&mut self, val: bool) -> (r: &mut Options)
        ensures
            *r == (Options { simd: val, ..*old(self) }),
            *final(self) == *final(r),
    {
        self.simd = val;
        self
    }

    /// Whether the first outlier may be a cut at once.
    pub fn initial_cut(&self) -> (v: bool)
        ensures
            v == self.initial_cut,
    {
        self.initial_cut
    }

    /// The same with another value for whether the first outlier may be a cut at once.
    pub fn with_initial_cut(self, val: bool) -> (r: Options)
        ensures
            r == (Options { initial_cut: val, ..self }),
    {
        Options { initial_cut: val, ..self }
    }

    /// Sets whether the first outlier may be a cut at once.
    pub fn set_initial_cut(&mut self, val: bool) -> (r: &mut Options)
        ensures
            *r == (Options { initial_cut: val, ..*old(self) }),
            *final(self) == *final(r),
    {
        self.initial_cut = val;
        self
    }

    /// The same with a minimum scene duration of `frames` frames at the rate `fps`.
    pub fn with_min_frames(self, frames: u32, fps: Timebase) -> (r: Options)
        requires
            fps.numerator() != 0,
        ensures
            r == (Options { min_duration: r.min_duration, ..self }),
            r.min_duration.total() == frames * fps.denominator() * 1_000_000_000
                / fps.numerator(),
    {
        Options { min_duration: frames_to_duration(fps, frames), ..self }
    }

    /// Sets the minimum scene duration to `frames` frames at the rate `fps`.
    pub fn set_min_frames(&mut self, frames: u32, fps: Timebase) -> (r: &mut Options)
        requires
            fps.numerator() != 0,
        ensures
            *r == (Options { min_duration: r.min_duration, ..*old(self) }),
            r.min_duration.total() == frames * fps.denominator() * 1_000_000_000
                / fps.numerator(),
            *final(self) == *final(r),
    {
        self.min_duration = frames_to_duration(fps, frames);
        self
    }
}

impl Default for Options {
    /// The default configuration.
    fn default() -> (o: Options)
        ensures
            o.standard(),
    {
        Options::new()
    }
}

/// What the rolling sum and the ratio are computed from.
#[derive(Debug, Clone, Copy)]
pub struct Window {
    /// Sum of the scores in the window before this frame.
    pub sum: Real,
    /// Score that enters the window.
    pub pushed: Real,
    /// Score that leaves the window.
    pub popped: Option<Real>,
    /// Score of the target, once the window is full.
    pub target: Option<Real>,
    /// Number of scores on each side of the target.
    pub window_width: u32,
    /// Score below which a target is no cut.
    pub min_content_val: Real,
}

/// The rolling sum after a frame and the ratio of the target to the average of the
/// other scores.
#[derive(Debug, Clone, Copy)]
pub struct Ratio {
    /// Sum of the scores in the window.
    pub sum: Real,
    /// Ratio of the target; without meaning while the window is not full.
    pub ratio: Real,
}

/// The content options under which frames are scored: no score short of infinity
/// is a change.
pub open spec fn scoring_options(o: Options) -> content::Options {
    content::Options {
        threshold: Real { bits: INFINITY },
        min_duration: Duration::of_nanos(0),
        weights: o.weights,
        filter_mode: content::FilterMode::Suppress,
        kernel_size: o.kernel_size,
        initial_cut: true,
        simd: o.simd,
    }
}

/// Why these options are refused, if they are.
pub open spec fn options_fault(o: Options) -> Option<Error> {
    if o.window_width == 0 {
        Some(Error::ZeroWindowWidth)
    } else if o.weights.all_zero() {
        Some(Error::Content(content::Error::ZeroWeights))
    } else if o.kernel_size matches Some(k) && (k < 3 || k % 2 == 0) {
        Some(Error::Content(content::Error::InvalidKernelSize(o.kernel_size->0)))
    } else {
        None
    }
}

/// The state of a detector, as a value.
pub struct Model {
    /// The configuration.
    pub options: Options,
    /// The content detector that scores the frames.
    pub inner: content::Model,
    /// The last scores with their times, oldest first.
    pub window: Seq<(Timestamp, Real)>,
    /// Sum of the scores in the window.
    pub sum: Real,
    /// The cut from which the minimum duration is counted.
    pub last_cut: Option<Timestamp>,
    /// The ratio of the last target.
    pub last_ratio: Option<Real>,
}

impl Model {
    /// Number of scores in a full window.
    pub open spec fn required(self) -> int {
        1 + 2 * self.options.window_width
    }

    /// The state at the start of a stream.
    pub open spec fn fresh(o: Options, inner: content::Model) -> Model {
        Model {
            options: o,
            inner,
            window: Seq::empty(),
            sum: Real { bits: 0 },
            last_cut: None,
            last_ratio: None,
        }
    }

    /// The window after a score enters, the oldest one leaving a full window.
    pub open spec fn slid(self, ts: Timestamp, score: Real) -> Seq<(Timestamp, Real)> {
        let w = self.window.push((ts, score));
        if w.len() > self.required() {
            w.drop_first()
        } else {
            w
        }
    }

    /// What the ratio of the next target is computed from.
    pub open spec fn window_input(self, ts: Timestamp, score: Real) -> Window {
        let w = self.slid(ts, score);
        Window {
            sum: self.sum,
            pushed: score,
            popped: if self.window.len() + 1 > self.required() {
                Some(self.window[0].1)
            } else {
                None
            },
            target: if w.len() < self.required() {
                None
            } else {
                Some(w[self.options.window_width as int].1)
            },
            window_width: self.options.window_width,
            min_content_val: self.options.min_content_val,
        }
    }

    /// The state after a score enters the window, and the cut it gives: the target,
    /// where the window is full, its ratio reaches the threshold, its score the
    /// minimum, and the minimum duration has passed since the cut before.
    pub open spec fn advanced(self, ts: Timestamp, score: Real, r: Ratio) -> (
        Model,
        Option<Timestamp>,
    ) {
        let window = self.slid(ts, score);
        if window.len() < self.required() {
            (Model { window, sum: r.sum, ..self }, None)
        } else {
            let (at, value) = window[self.options.window_width as int];
            let last = match self.last_cut {
                Some(t) => t,
                None => seed_at(at, self.options.initial_cut, self.options.min_duration),
            };
            let cut = r.ratio.ge(self.options.adaptive_threshold) && value.ge(
                self.options.min_content_val,
            ) && min_length_met(at, last, self.options.min_duration);
            let next = Model { window, sum: r.sum, last_ratio: Some(r.ratio), ..self };
            if cut {
                (Model { last_cut: Some(at), ..next }, Some(at))
            } else {
                (Model { last_cut: Some(last), ..next }, None)
            }
        }
    }

    /// The score with which the last frame enters the window: zero for a frame
    /// without predecessor.
    pub open spec fn entering(self) -> Real {
        match self.inner.last {
            Some(m) => m.score,
            None => Real { bits: 0 },
        }
    }

    /// The content detector has just started anew, in mid-stream: the frame has no score
    /// and is not the first.
    pub open spec fn restarts(self) -> bool {
        self.inner.last is None && self.window.len() > 0
    }

    /// The state and the cut after a frame at `ts` that the content detector has
    /// taken in, where `average` computes the ratio. Every frame enters the window, but
    /// for one of a new size in mid-stream: there is no score across sizes, so it gives no
    /// cut and leaves the window as it is.
    pub open spec fn checked<A: Fn(Window) -> Ratio>(
        self,
        ts: Timestamp,
        average: A,
        after: Model,
        cut: Option<Timestamp>,
    ) -> bool {
        if self.restarts() {
            after == self && cut is None
        } else {
            exists|r: Ratio| #[trigger]
                average.ensures((self.window_input(ts, self.entering()),), r) && (after, cut)
                    == self.advanced(ts, self.entering(), r)
        }
    }

    /// The state and the cut after a frame with the planes `cur`, where `weigh`
    /// scores it and `average` computes the ratio.
    pub open spec fn processed<W: Fn(FrameDelta, Components) -> Measured, A: Fn(Window) -> Ratio>(
        self,
        resized: content::Model,
        cur: content::Planes,
        ts: Timestamp,
        weigh: W,
        average: A,
        after: Model,
        cut: Option<Timestamp>,
    ) -> bool {
        &&& exists|c: Option<Timestamp>| #[trigger]
            resized.processed(cur, ts, weigh, after.inner, c)
        &&& Model { inner: after.inner, ..self }.checked(ts, average, after, cut)
    }
}

/// A streaming detector.
#[derive(Debug, Clone)]
pub struct Detector {
    options: Options,
    inner: content::Detector,
    buffer: VecDeque<(Timestamp, Real)>,
    sum: Real,
    last_cut: Option<Timestamp>,
    last_ratio: Option<Real>,
}

impl View for Detector {
    type V = Model;

    closed spec fn view(&self) -> Model {
        Model {
            options: self.options,
            inner: self.inner@,
            window: self.buffer@,
            sum: self.sum,
            last_cut: self.last_cut,
            last_ratio: self.last_ratio,
        }
    }
}

impl Detector {
    /// What holds of every detector between calls.
    pub closed spec fn wf(&self) -> bool {
        &&& options_fault(self.options) is None
        &&& self.inner.wf()
        &&& self.inner@.options == scoring_options(self.options)
        &&& self.buffer@.len() <= 1 + 2 * self.options.window_width
    }

    /// A detector with valid options.
    pub fn new(options: Options) -> (d: Detector)
        requires
            options_fault(options) is None,
        ensures
            d@ == Model::fresh(options, content::Model::fresh(scoring_options(options))),
            d.wf(),
    {
        let scoring: content::Options = build_content_options(&options);
        Detector {
            options,
            inner: content::Detector::new(scoring),
            buffer: VecDeque::new(),
            sum: Real { bits: 0 },
            last_cut: None,
            last_ratio: None,
        }
    }

    /// A detector, or the reason why there is none.
    pub fn try_new(options: Options) -> (r: Result<Detector, Error>)
        ensures
            match r {
                Ok(d) => {
                    &&& options_fault(options) is None
                    &&& d@ == Model::fresh(
                        options,
                        content::Model::fresh(scoring_options(options)),
                    )
                    &&& d.wf()
                },
                Err(e) => options_fault(options) == Some(e),
            },
    {
        if options.window_width == 0 {
            return Err(Error::ZeroWindowWidth);
        }
        let scoring: content::Options = build_content_options(&options);
        match content::Detector::try_new(scoring) {
            Ok(inner) => Ok(
                Detector {
                    options,
                    inner,
                    buffer: VecDeque::new(),
                    sum: Real { bits: 0 },
                    last_cut: None,
                    last_ratio: None,
                },
            ),
            Err(e) => Err(Error::Content(e)),
        }
    }

    /// The configuration.
    pub fn options(&self) -> (o: &Options)
        ensures
            *o == self@.options,
    {
        &self.options
    }

    /// The ratio of the last target; `None` while fewer frames have been taken in than
    /// the window holds.
    pub fn last_adaptive_ratio(&self) -> (r: Option<Real>)
        ensures
            r == self@.last_ratio,
    {
        self.last_ratio
    }

    /// The score of the last frame that had a predecessor.
    pub fn last_score(&self) -> (s: Option<Real>)
        ensures
            s == match self@.inner.last {
                Some(m) => Some(m.score),
                None => None,
            },
    {
        self.inner.last_score()
    }

    /// The score of the current target; `None` while the window is not full.
    pub fn last_target_score(&self) -> (s: Option<Real>)
        ensures
            s == if self@.window.len() == self@.required() {
                Some(self@.window[self@.options.window_width as int].1)
            } else {
                None
            },
    {
        if self.buffer.len() as u64 == 1 + 2 * self.options.window_width as u64 {
            Some(self.buffer[self.options.window_width as usize].1)
        } else {
            None
        }
    }

    /// Forgets the stream; the next frame starts a new one.
    pub fn clear(&mut self)
        requires
            old(self).wf(),
        ensures
            final(self)@ == cleared(old(self)@),
            final(self).wf(),
    {
        self.inner.clear();
        self.buffer.clear();
        self.sum = Real { bits: 0 };
        self.last_cut = None;
        self.last_ratio = None;
        assert(self.buffer@ =~= Seq::empty());
    }

    /// Takes in a luma frame.
    pub fn process_luma<W: Fn(FrameDelta, Components) -> Measured, A: Fn(Window) -> Ratio>(
        &mut self,
        frame: LumaFrame<'_>,
        weigh: W,
        average: A,
    ) -> (cut: Option<Timestamp>)
        requires
            old(self).wf(),
            old(self)@.inner.countable(frame.columns(), frame.rows()),
            forall|d: FrameDelta, c: Components| #[trigger] weigh.requires((d, c)),
            forall|w: Window| #[trigger] average.requires((w,)),
        ensures
            final(self).wf(),
            ({
                let m = old(self)@.inner.resized(frame.columns(), frame.rows());
                old(self)@.processed(
                    m,
                    m.luma_planes(frame),
                    frame.time(),
                    weigh,
                    average,
                    final(self)@,
                    cut,
                )
            }),
    {
        let ts: Timestamp = frame.timestamp();
        self.inner.process_luma(frame, weigh);
        self.push_and_check(ts, average)
    }

    /// Takes in a packed frame with blue first.
    pub fn process_bgr<W: Fn(FrameDelta, Components) -> Measured, A: Fn(Window) -> Ratio>(
        &mut self,
        frame: RgbFrame<'_>,
        weigh: W,
        average: A,
    ) -> (cut: Option<Timestamp>)
        requires
            old(self).wf(),
            old(self)@.inner.countable(frame.columns(), frame.rows()),
            forall|d: FrameDelta, c: Components| #[trigger] weigh.requires((d, c)),
            forall|w: Window| #[trigger] average.requires((w,)),
        ensures
            final(self).wf(),
            ({
                let m = old(self)@.inner.resized(frame.columns(), frame.rows());
                old(self)@.processed(
                    m,
                    m.bgr_planes(frame),
                    frame.time(),
                    weigh,
                    average,
                    final(self)@,
                    cut,
                )
            }),
    {
        let ts: Timestamp = frame.timestamp();
        self.inner.process_bgr(frame, weigh);
        self.push_and_check(ts, average)
    }

    /// Takes in a frame in hue, saturation and value.
    pub fn process_hsv<W: Fn(FrameDelta, Components) -> Measured, A: Fn(Window) -> Ratio>(
        &mut self,
        frame: HsvFrame<'_>,
        weigh: W,
        average: A,
    ) -> (cut: Option<Timestamp>)
        requires
            old(self).wf(),
            old(self)@.inner.countable(frame.columns(), frame.rows()),
            forall|d: FrameDelta, c: Components| #[trigger] weigh.requires((d, c)),
            forall|w: Window| #[trigger] average.requires((w,)),
        ensures
            final(self).wf(),
            ({
                let m = old(self)@.inner.resized(frame.columns(), frame.rows());
                old(self)@.processed(
                    m,
                    m.hsv_planes(frame),
                    frame.time(),
                    weigh,
                    average,
                    final(self)@,
                    cut,
                )
            }),
    {
        let ts: Timestamp = frame.timestamp();
        self.inner.process_hsv(frame, weigh);
        self.push_and_check(ts, average)
    }

    /// Takes in the score that the content detector gave the frame at `ts`; zero for the
    /// first frame, and nothing for one of a new size in mid-stream.
    fn push_and_check<A: Fn(Window) -> Ratio>(&mut self, ts: Timestamp, average: A) -> (cut: Option<
        Timestamp,
    >)
        requires
            old(self).wf(),
            forall|w: Window| #[trigger] average.requires((w,)),
        ensures
            final(self).wf(),
            final(self)@.inner == old(self)@.inner,
            old(self)@.checked(ts, average, final(self)@, cut),
    {
        let score: Real = match self.inner.last_score() {
            Some(s) => s,
            None => {
                if self.buffer.len() > 0 {
                    return None;
                }
                Real { bits: 0 }
            },
        };
        let width: usize = self.options.window_width as usize;
        let required: u64 = 1 + 2 * self.options.window_width as u64;
        let ghost model = old(self)@;
        let mut popped: Option<Real> = None;
        self.buffer.push_back((ts, score));
        if self.buffer.len() as u64 > required {
            let oldest = self.buffer.pop_front();
            if let Some((_, s)) = oldest {
                popped = Some(s);
            }
        }
        proof {
            assert(self.buffer@ =~= model.slid(ts, score));
        }
        let full: bool = self.buffer.len() as u64 >= required;
        let target: Option<(Timestamp, Real)> = if full {
            Some(self.buffer[width])
        } else {
            None
        };
        let input: Window = Window {
            sum: self.sum,
            pushed: score,
            popped,
            target: match target {
                Some((_, s)) => Some(s),
                None => None,
            },
            window_width: self.options.window_width,
            min_content_val: self.options.min_content_val,
        };
        assert(input == model.window_input(ts, score));
        let r: Ratio = average(input);
        self.sum = r.sum;
        let (at, value) = match target {
            Some(t) => t,
            None => {
                assert((self@, None::<Timestamp>) == model.advanced(ts, score, r));
                return None;
            },
        };
        self.last_ratio = Some(r.ratio);
        let last: Timestamp = match self.last_cut {
            Some(t) => t,
            None => gate_seed(at, self.options.initial_cut, self.options.min_duration),
        };
        self.last_cut = Some(last);
        let outlier: bool = r.ratio.at_least(&self.options.adaptive_threshold) && value.at_least(
            &self.options.min_content_val,
        );
        let met: bool = elapsed_at_least(at, last, self.options.min_duration);
        let cut: Option<Timestamp> = if outlier && met {
            self.last_cut = Some(at);
            Some(at)
        } else {
            None
        };
        assert((self@, cut) == model.advanced(ts, score, r));
        cut
    }
}

/// The content options under which frames are scored.
fn build_content_options(options: &Options) -> (c: content::Options)
    ensures
        c == scoring_options(*options),
        options_fault(*options) is None ==> content::options_fault(c) is None,
        options.window_width > 0 ==> match content::options_fault(c) {
            Some(e) => options_fault(*options) == Some(Error::Content(e)),
            None => options_fault(*options) is None,
        },
{
    content::Options::new().with_weights(options.weights).with_kernel_size(
        options.kernel_size,
    ).with_simd(options.simd).with_threshold(Real { bits: INFINITY }).with_min_duration(
        Duration::from_secs(0),
    ).with_filter_mode(content::FilterMode::Suppress)
}

/// No cut is reported before the window is full.
pub proof fn no_cut_before_the_window_is_full(m: Model, ts: Timestamp, score: Real, r: Ratio)
    requires
        m.slid(ts, score).len() < m.required(),
    ensures
        m.advanced(ts, score, r).1 is None,
        m.advanced(ts, score, r).0.last_ratio == m.last_ratio,
        m.advanced(ts, score, r).0.last_cut == m.last_cut,
{
}

/// A cut is the middle of a full window, one half window behind the newest frame,
/// with a ratio and a score that reach the thresholds, at least the minimum
/// duration after the cut before.
pub proof fn a_cut_is_an_outlier_in_the_middle(m: Model, ts: Timestamp, score: Real, r: Ratio)
    requires
        m.advanced(ts, score, r).1 is Some,
    ensures
        ({
            let (after, cut) = m.advanced(ts, score, r);
            let w = m.options.window_width as int;
            &&& after.window.len() >= m.required()
            &&& cut == Some(after.window[w].0)
            &&& r.ratio.ge(m.options.adaptive_threshold)
            &&& after.window[w].1.ge(m.options.min_content_val)
            &&& m.last_cut matches Some(t) ==> min_length_met(cut->0, t, m.options.min_duration)
            &&& after.last_cut == cut
        }),
{
}

/// The window never holds more scores than it needs, and holds the newest ones in
/// the order of arrival.
pub proof fn the_window_slides(m: Model, ts: Timestamp, score: Real)
    requires
        m.window.len() <= m.required(),
    ensures
        m.slid(ts, score).len() <= m.required(),
        m.slid(ts, score).last() == (ts, score),
        m.window.len() < m.required() ==> m.slid(ts, score) == m.window.push((ts, score)),
        m.window.len() == m.required() ==> m.slid(ts, score) == m.window.drop_first().push(
            (ts, score),
        ),
{
    if m.window.len() == m.required() {
        assert(m.slid(ts, score) =~= m.window.drop_first().push((ts, score)));
    }
}

/// A detector takes in one frame after the other: `states` holds the state before each
/// and after the last, `times` and `cuts` their timestamps and what each gives.
pub open spec fn checked_run<A: Fn(Window) -> Ratio>(
    states: Seq<Model>,
    times: Seq<Timestamp>,
    average: A,
    cuts: Seq<Option<Timestamp>>,
) -> bool {
    &&& states.len() == times.len() + 1
    &&& cuts.len() == times.len()
    &&& forall|i: int|
        0 <= i < times.len() ==> Model { inner: states[i + 1].inner, ..states[i] }.checked(
            #[trigger] times[i],
            average,
            states[i + 1],
            cuts[i],
        )
}

/// On frames of one size the ratio is there as soon as as many have been taken in as the
/// window holds, and not before: every frame enters the window, the first one too.
pub proof fn the_ratio_comes_with_a_full_window<A: Fn(Window) -> Ratio>(
    o: Options,
    states: Seq<Model>,
    times: Seq<Timestamp>,
    average: A,
    cuts: Seq<Option<Timestamp>>,
    k: int,
)
    requires
        checked_run(states, times, average, cuts),
        states[0] == Model::fresh(o, states[0].inner),
        forall|i: int| 1 <= i < times.len() ==> (#[trigger] states[i + 1]).inner.last is Some,
        0 <= k <= times.len(),
    ensures
        states[k].options == o,
        states[k].window.len() == if k < 1 + 2 * o.window_width {
            k
        } else {
            1 + 2 * o.window_width
        },
        states[k].last_ratio is Some <==> k >= 1 + 2 * o.window_width,
        k > 0 && k < 1 + 2 * o.window_width ==> cuts[k - 1] is None,
    decreases k,
{
    if k > 0 {
        the_ratio_comes_with_a_full_window(o, states, times, average, cuts, k - 1);
        let m = Model { inner: states[k - 1 + 1].inner, ..states[k - 1] };
        assert(m.checked(times[k - 1], average, states[k - 1 + 1], cuts[k - 1]));
        assert(k > 1 ==> states[k - 1 + 1].inner.last is Some);
        the_window_slides(m, times[k - 1], m.entering());
    }
}

/// A frame of a new size in mid-stream is never a cut, and leaves window, ratio and last cut
/// as they are.
pub proof fn a_new_size_gives_no_cut<
    W: Fn(FrameDelta, Components) -> Measured,
    A: Fn(Window) -> Ratio,
>(
    m: Model,
    width: u32,
    height: u32,
    cur: content::Planes,
    ts: Timestamp,
    weigh: W,
    average: A,
    after: Model,
    cut: Option<Timestamp>,
)
    requires
        m.window.len() > 0,
        m.inner.width != width || m.inner.height != height,
        m.processed(
            m.inner.resized(width, height),
            cur,
            ts,
            weigh,
            average,
            after,
            cut,
        ),
    ensures
        cut is None,
        after == (Model { inner: after.inner, ..m }),
{
}

/// Where the first cut may come at once, it does: the first outlier in the middle of
/// a full window is a cut. Left out are targets so close to the smallest tick that it
/// holds the seed.
pub proof fn the_first_outlier_is_a_cut(m: Model, ts: Timestamp, score: Real, r: Ratio)
    requires
        m.options.initial_cut,
        m.last_cut is None,
        m.slid(ts, score).len() >= m.required(),
        r.ratio.ge(m.options.adaptive_threshold),
        ({
            let (at, value) = m.slid(ts, score)[m.options.window_width as int];
            let min = m.options.min_duration;
            &&& value.ge(m.options.min_content_val)
            &&& at.valid()
            &&& at.base().numerator() > 0
            &&& past_tick(at, min) > i64::MIN
            &&& 0 <= min.total() <= max_nanos()
            &&& min.total() * at.base().denominator() / (at.base().numerator() * 1_000_000_000)
                <= i64::MAX
        }),
    ensures
        m.advanced(ts, score, r).1 == Some(
            m.slid(ts, score)[m.options.window_width as int].0,
        ),
{
    let at = m.slid(ts, score)[m.options.window_width as int].0;
    seed_lets_the_first_cut_pass(at, at, m.options.min_duration);
}

/// Where the first cut may not come at once, the minimum duration is counted from the
/// target of the first full window.
pub proof fn early_outliers_are_held_back(m: Model, ts: Timestamp, score: Real, r: Ratio)
    requires
        !m.options.initial_cut,
        m.last_cut is None,
        m.slid(ts, score).len() >= m.required(),
        m.slid(ts, score)[m.options.window_width as int].0.valid(),
        m.options.min_duration.total() > 0,
    ensures
        m.advanced(ts, score, r).1 is None,
        m.advanced(ts, score, r).0.last_cut == Some(
            m.slid(ts, score)[m.options.window_width as int].0,
        ),
{
    let at = m.slid(ts, score)[m.options.window_width as int].0;
    let d = at.base().denominator();
    assert(d * d > 0 && 0int / (d * d) == 0) by (nonlinear_arith)
        requires
            d > 0,
    ;
}

/// The state of a detector that was cleared: that of a new one, but for the frame size.
pub open spec fn cleared(m: Model) -> Model {
    Model::fresh(m.options, content::cleared(m.inner))
}

/// A cleared detector acts as a new one: it has no score and no ratio, and what it does with
/// the next frame, of whatever size, a new one does too, with the same state after it. So
/// all that follows is that of a new detector.
pub proof fn a_cleared_detector_is_as_new<
    W: Fn(FrameDelta, Components) -> Measured,
    A: Fn(Window) -> Ratio,
>(
    m: Model,
    width: u32,
    height: u32,
    cur: content::Planes,
    ts: Timestamp,
    weigh: W,
    average: A,
    after: Model,
    cut: Option<Timestamp>,
)
    requires
        m.inner.options == scoring_options(m.options),
    ensures
        ({
            let was = cleared(m);
            let fresh = Model::fresh(m.options, content::Model::fresh(scoring_options(m.options)));
            let r = fresh.inner.resized(width, height);
            &&& was.last_ratio is None
            &&& was.inner.last is None
            &&& was.inner.resized(width, height) == r
            &&& was.processed(r, cur, ts, weigh, average, after, cut) == fresh.processed(
                r,
                cur,
                ts,
                weigh,
                average,
                after,
                cut,
            )
        }),
{
    let was = cleared(m);
    let fresh = Model::fresh(m.options, content::Model::fresh(scoring_options(m.options)));
    assert((Model { inner: after.inner, ..was }) == (Model { inner: after.inner, ..fresh }));
}

/// Sum of a measure of the scores in a window.
pub open spec fn measure_of(window: Seq<(Timestamp, Real)>, val: spec_fn(Real) -> int) -> int
    decreases window.len(),
{
    if window.len() == 0 {
        0
    } else {
        measure_of(window.drop_last(), val) + val(window.last().1)
    }
}

/// The measure of a window without its oldest score.
proof fn lemma_measure_without_first(
    window: Seq<(Timestamp, Real)>,
    val: spec_fn(Real) -> int,
)
    requires
        window.len() > 0,
    ensures
        measure_of(window.drop_first(), val) == measure_of(window, val) - val(window[0].1),
    decreases window.len(),
{
    if window.len() > 1 {
        let init = window.drop_last();
        lemma_measure_without_first(init, val);
        assert(window.drop_first().drop_last() =~= init.drop_first());
        assert(window.drop_first().last() == window.last());
    } else {
        assert(window.drop_first() =~= Seq::empty());
        assert(window.drop_last() =~= Seq::empty());
    }
}

/// What a step hands over keeps the books: whatever the scores are worth, what enters and
/// what leaves make up the change of the window. The target is the score in the middle of
/// the window, once that is full.
pub proof fn what_is_handed_over_keeps_the_books(
    m: Model,
    ts: Timestamp,
    score: Real,
    r: Ratio,
    val: spec_fn(Real) -> int,
)
    requires
        m.window.len() <= 1 + 2 * m.options.window_width,
    ensures
        ({
            let input = m.window_input(ts, score);
            let (after, _) = m.advanced(ts, score, r);
            let n = 1 + 2 * m.options.window_width;
            let leaves = match input.popped {
                Some(p) => val(p),
                None => 0,
            };
            &&& input.pushed == score
            &&& measure_of(after.window, val) == measure_of(m.window, val) + val(score) - leaves
            &&& input.sum == m.sum
            &&& after.sum == r.sum
            &&& input.window_width == m.options.window_width
            &&& input.min_content_val == m.options.min_content_val
            &&& input.popped is Some <==> m.window.len() == n
            &&& after.window.len() <= n
            &&& after.window.last() == (ts, score)
            &&& after.window.len() < n ==> input.target is None
            &&& after.window.len() == n ==> input.target == Some(
                after.window[m.options.window_width as int].1,
            )
        }),
{
    let all = m.window.push((ts, score));
    assert(all.drop_last() =~= m.window);
    assert(measure_of(all, val) == measure_of(m.window, val) + val(score));
    if all.len() > 1 + 2 * m.options.window_width {
        lemma_measure_without_first(all, val);
        assert(all[0] == m.window[0]);
    }
}

/// `average` adds exactly, in this measure: the new sum is the old one with what enters and
/// without what leaves.
pub open spec fn adds_exactly<A: Fn(Window) -> Ratio>(
    average: A,
    val: spec_fn(Real) -> int,
) -> bool {
    forall|w: Window, r: Ratio| #[trigger]
        average.ensures((w,), r) ==> val(r.sum) == val(w.sum) + val(w.pushed) - match w.popped {
            Some(p) => val(p),
            None => 0,
        }
}

/// Where `average` adds exactly, the sum kept over a run is that of the scores in the
/// window, at every frame.
pub proof fn the_sum_is_that_of_the_window<A: Fn(Window) -> Ratio>(
    o: Options,
    states: Seq<Model>,
    times: Seq<Timestamp>,
    average: A,
    cuts: Seq<Option<Timestamp>>,
    val: spec_fn(Real) -> int,
    k: int,
)
    requires
        checked_run(states, times, average, cuts),
        states[0] == Model::fresh(o, states[0].inner),
        val(Real { bits: 0 }) == 0,
        adds_exactly(average, val),
        0 <= k <= times.len(),
    ensures
        states[k].options == o,
        states[k].window.len() <= 1 + 2 * o.window_width,
        val(states[k].sum) == measure_of(states[k].window, val),
    decreases k,
{
    if k > 0 {
        the_sum_is_that_of_the_window(o, states, times, average, cuts, val, k - 1);
        let m = Model { inner: states[k - 1 + 1].inner, ..states[k - 1] };
        assert(m.checked(times[k - 1], average, states[k - 1 + 1], cuts[k - 1]));
        if !(m.inner.last is None && m.window.len() > 0) {
            let score = match m.inner.last {
                Some(s) => s.score,
                None => Real { bits: 0 },
            };
            let r = choose|r: Ratio| #[trigger]
                average.ensures((m.window_input(times[k - 1], score),), r) && (
                states[k],
                cuts[k - 1],
                ) == m.advanced(times[k - 1], score, r);
            assert(average.ensures((m.window_input(times[k - 1], score),), r));
            what_is_handed_over_keeps_the_books(m, times[k - 1], score, r, val);
        }
    }
}

/// A cut is decided as documented: once the window is full, its middle is a cut, at the
/// middle's own time, just where the ratio reaches the threshold, the middle's score reaches
/// the minimum, and the minimum duration has passed since the last cut, or since the point
/// it is counted from at the start.
pub proof fn the_middle_is_a_cut_just_where_it_stands_out(
    m: Model,
    ts: Timestamp,
    score: Real,
    r: Ratio,
)
    requires
        m.window.len() <= 1 + 2 * m.options.window_width,
    ensures
        ({
            let w = m.options.window_width as int;
            let (after, cut) = m.advanced(ts, score, r);
            let (at, value) = after.window[w];
            let last = match m.last_cut {
                Some(t) => t,
                None => seed_at(at, m.options.initial_cut, m.options.min_duration),
            };
            let stands_out = r.ratio.ge(m.options.adaptive_threshold) && value.ge(
                m.options.min_content_val,
            ) && min_length_met(at, last, m.options.min_duration);
            if after.window.len() < 1 + 2 * w {
                cut is None && after.last_cut == m.last_cut && after.last_ratio == m.last_ratio
            } else {
                &&& cut == if stands_out {
                    Some(at)
                } else {
                    None::<Timestamp>
                }
                &&& after.last_cut == if stands_out {
                    Some(at)
                } else {
                    Some(last)
                }
                &&& after.last_ratio == Some(r.ratio)
            }
        }),
{
}

/// The window of a run on frames of one size holds the last frames, in the order they came,
/// each with the score that the content detector gave it; the first one counts zero.
pub proof fn the_window_holds_the_last_frames<A: Fn(Window) -> Ratio>(
    o: Options,
    states: Seq<Model>,
    times: Seq<Timestamp>,
    average: A,
    cuts: Seq<Option<Timestamp>>,
    k: int,
    i: int,
)
    requires
        checked_run(states, times, average, cuts),
        states[0] == Model::fresh(o, states[0].inner),
        forall|j: int| 1 <= j < times.len() ==> (#[trigger] states[j + 1]).inner.last is Some,
        0 <= k <= times.len(),
        0 <= i < k,
        k - i <= 1 + 2 * o.window_width,
    ensures
        ({
            let n = states[k].window.len() as int;
            &&& n == if k < 1 + 2 * o.window_width {
                k
            } else {
                1 + 2 * o.window_width
            }
            &&& states[k].window[n - (k - i)] == (
                times[i],
                match states[i + 1].inner.last {
                    Some(s) => s.score,
                    None => Real { bits: 0 },
                },
            )
        }),
    decreases k,
{
    the_ratio_comes_with_a_full_window(o, states, times, average, cuts, k);
    the_ratio_comes_with_a_full_window(o, states, times, average, cuts, k - 1);
    let m = Model { inner: states[k - 1 + 1].inner, ..states[k - 1] };
    assert(m.checked(times[k - 1], average, states[k - 1 + 1], cuts[k - 1]));
    assert(k > 1 ==> states[k - 1 + 1].inner.last is Some);
    the_window_slides(m, times[k - 1], m.entering());
    if i < k - 1 {
        the_window_holds_the_last_frames(o, states, times, average, cuts, k - 1, i);
    }
}

/// Frames are scored with the weights and the kernel of the configuration, and no score
/// short of infinity is a change for the content detector that scores them.
pub proof fn frames_are_scored_as_configured(o: Options)
    ensures
        scoring_options(o).weights == o.weights,
        scoring_options(o).kernel_size == o.kernel_size,
        scoring_options(o).simd == o.simd,
        scoring_options(o).threshold.bits == 0x7ff0_0000_0000_0000,
{
}

/// The measure of two stretches of a window, one behind the other.
proof fn lemma_measure_concat(
    a: Seq<(Timestamp, Real)>,
    b: Seq<(Timestamp, Real)>,
    val: spec_fn(Real) -> int,
)
    ensures
        measure_of(a + b, val) == measure_of(a, val) + measure_of(b, val),
    decreases b.len(),
{
    if b.len() == 0 {
        assert(a + b =~= a);
    } else {
        lemma_measure_concat(a, b.drop_last(), val);
        assert((a + b).drop_last() =~= a + b.drop_last());
    }
}

/// The target is held against its neighbors: in a full window as many scores lie before the
/// target as behind it, and where `average` adds exactly, what is left of the sum without
/// the target is the sum of these neighbors.
pub proof fn the_target_is_held_against_its_neighbors<A: Fn(Window) -> Ratio>(
    o: Options,
    states: Seq<Model>,
    times: Seq<Timestamp>,
    average: A,
    cuts: Seq<Option<Timestamp>>,
    val: spec_fn(Real) -> int,
    k: int,
)
    requires
        checked_run(states, times, average, cuts),
        states[0] == Model::fresh(o, states[0].inner),
        val(Real { bits: 0 }) == 0,
        adds_exactly(average, val),
        0 <= k <= times.len(),
        states[k].window.len() == 1 + 2 * o.window_width,
    ensures
        ({
            let w = o.window_width as int;
            let window = states[k].window;
            let before = window.subrange(0, w);
            let behind = window.subrange(w + 1, 1 + 2 * w);
            &&& before.len() == w
            &&& behind.len() == w
            &&& val(states[k].sum) - val(window[w].1) == measure_of(before, val) + measure_of(
                behind,
                val,
            )
        }),
{
    the_sum_is_that_of_the_window(o, states, times, average, cuts, val, k);
    let w = o.window_width as int;
    let window = states[k].window;
    let before = window.subrange(0, w);
    let behind = window.subrange(w + 1, 1 + 2 * w);
    let upto = before.push(window[w]);
    assert(upto.drop_last() =~= before);
    assert(window =~= upto + behind);
    lemma_measure_concat(upto, behind, val);
}

} // verus!
