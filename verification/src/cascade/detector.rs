//! The cascade detector.

use vstd::prelude::*;

use crate::adaptive;
use crate::adaptive::{Ratio, Window};
use crate::cascade::event::{
    AdaptiveScore, ContentScore, Event, HistogramPlane, HistogramScore, PhashScore, Provenance,
    ThresholdScore,
};
use crate::cascade::frames::{plane_as_luma, Frames};
use crate::cascade::metrics::{frame_metrics, measured, CheapMetrics, StagedMetrics};
use crate::cascade::options::{
    bins_positive, lag_of, options_fault, signal_lane, validate, Options, OptionsError,
    PushError,
};
use crate::cascade::restart::{configured, lemma_ran_alike};
use crate::cascade::timeline::{Boundary, LaneCuts, Selected, Timeline, Track};
use crate::content;
use crate::content::{Components, FrameDelta, Measured};
use crate::frame::{HsvFrame, LumaFrame};
use crate::histogram;
use crate::histogram::{histogram_of, small_planes_fit, Correlated, Similarity};
use crate::number::Real;
use crate::time::{Duration, TimeRange, Timestamp};

verus! {

/// What a lane outside this library reports: the instant of the cut, and the mean
/// luma or the distance that fired it.
#[derive(Debug, Clone, Copy)]
pub struct Fired {
    /// Where the shot ends.
    pub at: Timestamp,
    /// The measured value.
    pub value: Real,
}

/// What the lanes outside this library report on one frame.
#[derive(Debug, Clone, Copy)]
pub struct Outside {
    /// The fade lane.
    pub fade: Option<Fired>,
    /// The perceptual-hash lane.
    pub phash: Option<Fired>,
}

/// What the keyframe selection answers when it is handed a frame.
#[derive(Debug, Clone, Copy)]
pub struct Intake {
    /// Whether it took the frame at once.
    pub taken: bool,
    /// Whether it took the frame when it was handed over again, behind the window that
    /// was closed to make room; none where it took it at once.
    pub again: Option<bool>,
}

/// What the cascade leaves to its caller: arithmetic on real numbers, the lanes
/// outside this library, and the selection of keyframes.
///
/// `correlate` turns histogram moments and a threshold into a correlation and its
/// limit, `weigh` turns an exact change and weights into means and a score, and
/// `average` keeps a rolling sum and computes a ratio. `outside` runs the fade and
/// perceptual-hash lanes on a frame, after clearing them where told to, which is with
/// the first frame of a stream and with the first of a new size; like all lanes they
/// keep no minimum duration of their own. `gate` judges the cheap metrics of a frame,
/// and where it holds the frame back, no expensive one runs. `observe` hands a frame to
/// the keyframe selection, with its metrics, and tells whether it was taken. `select`
/// picks the keyframes of a window.
pub struct Kit<C, W, A, X, G, B, S> {
    /// Correlation of two histograms.
    pub correlate: C,
    /// Weighted score of a change.
    pub weigh: W,
    /// Rolling average of scores.
    pub average: A,
    /// The lanes outside this library.
    pub outside: X,
    /// Judgement on the cheap metrics.
    pub gate: G,
    /// Intake of the keyframe selection.
    pub observe: B,
    /// Picks of the keyframe selection.
    pub select: S,
}

/// The state of the lanes, as a value. A lane that does not run is absent.
#[verifier::ext_equal]
pub struct Lanes {
    /// The luma-plane histogram lane.
    pub luma: Option<histogram::Model>,
    /// The hue-plane histogram lane.
    pub hue: Option<histogram::Model>,
    /// The saturation-plane histogram lane.
    pub saturation: Option<histogram::Model>,
    /// The content lane.
    pub content: Option<content::Model>,
    /// The adaptive lane.
    pub adaptive: Option<adaptive::Model>,
}

/// A number, or zero where there is none.
pub open spec fn or_zero(r: Option<Real>) -> Real {
    match r {
        Some(v) => v,
        None => Real { bits: 0 },
    }
}

/// The boundary that a histogram lane proposes.
pub open spec fn histogram_boundary(
    plane: HistogramPlane,
    cut: Option<Timestamp>,
    diff: Option<Real>,
) -> Option<Boundary> {
    match cut {
        Some(at) => Some(
            Boundary {
                at,
                provenance: Provenance::Histogram(
                    HistogramScore { plane, correlation: or_zero(diff) },
                ),
            },
        ),
        None => None,
    }
}

/// What a histogram lane does with a plane of `w` by `h` samples: it compares the
/// histogram, and proposes a boundary where it sees a cut.
pub open spec fn histogram_ran<C: Fn(Similarity, Real) -> Correlated>(
    before: Option<histogram::Model>,
    after: Option<histogram::Model>,
    bytes: Seq<u8>,
    w: int,
    h: int,
    stride: int,
    ts: Timestamp,
    correlate: C,
    plane: HistogramPlane,
    report: Option<Boundary>,
) -> bool {
    match (before, after) {
        (Some(m), Some(n)) => exists|cut: Option<Timestamp>| #[trigger]
            m.processed(
                histogram_of(bytes, w, h, stride, m.options.bins as int),
                ts,
                correlate,
                n,
                cut,
            ) && report == histogram_boundary(plane, cut, n.last_diff),
        (None, None) => report is None,
        _ => false,
    }
}

/// What the content lane does with a frame.
pub open spec fn content_ran<W: Fn(FrameDelta, Components) -> Measured>(
    before: Option<content::Model>,
    after: Option<content::Model>,
    frame: HsvFrame<'_>,
    weigh: W,
    threshold: Real,
    report: Option<Boundary>,
) -> bool {
    match (before, after) {
        (Some(b), Some(n)) => {
            let m = b.resized(frame.columns(), frame.rows());
            exists|cut: Option<Timestamp>| #[trigger]
                m.processed(m.hsv_planes(frame), frame.time(), weigh, n, cut) && report
                    == match cut {
                    Some(at) => Some(
                        Boundary {
                            at,
                            provenance: Provenance::Content(content_score(n.last, threshold)),
                        },
                    ),
                    None => None,
                }
        },
        (None, None) => report is None,
        _ => false,
    }
}

/// The score of the content lane at a cut.
pub open spec fn content_score(last: Option<Measured>, threshold: Real) -> ContentScore {
    let zero = Real { bits: 0 };
    match last {
        Some(m) => ContentScore { score: m.score, threshold, components: m.components },
        None => ContentScore {
            score: zero,
            threshold,
            components: Components {
                delta_hue: zero,
                delta_sat: zero,
                delta_lum: zero,
                delta_edges: zero,
            },
        },
    }
}

/// The score of the target of an adaptive window, once the window is full.
pub open spec fn target_score(m: adaptive::Model) -> Option<Real> {
    if m.window.len() == m.required() {
        Some(m.window[m.options.window_width as int].1)
    } else {
        None
    }
}

/// What the adaptive lane does with a frame.
pub open spec fn adaptive_ran<
    W: Fn(FrameDelta, Components) -> Measured,
    A: Fn(Window) -> Ratio,
>(
    before: Option<adaptive::Model>,
    after: Option<adaptive::Model>,
    frame: HsvFrame<'_>,
    weigh: W,
    average: A,
    report: Option<Boundary>,
) -> bool {
    match (before, after) {
        (Some(b), Some(n)) => {
            let m = b.inner.resized(frame.columns(), frame.rows());
            exists|cut: Option<Timestamp>| #[trigger]
                b.processed(m, m.hsv_planes(frame), frame.time(), weigh, average, n, cut) && report
                    == match cut {
                    Some(at) => Some(
                        Boundary {
                            at,
                            provenance: Provenance::Adaptive(
                                AdaptiveScore {
                                    ratio: or_zero(n.last_ratio),
                                    score: or_zero(target_score(n)),
                                },
                            ),
                        },
                    ),
                    None => None,
                }
        },
        (None, None) => report is None,
        _ => false,
    }
}

/// The boundary that the fade lane proposes.
pub open spec fn fade_boundary(o: Options, fired: Option<Fired>) -> Option<Boundary> {
    match fired {
        Some(f) => if o.detectors.threshold {
            Some(
                Boundary {
                    at: f.at,
                    provenance: Provenance::Threshold(
                        ThresholdScore { mean: f.value, floor: o.threshold.threshold },
                    ),
                },
            )
        } else {
            None
        },
        None => None,
    }
}

/// The boundary that the perceptual-hash lane proposes.
pub open spec fn phash_boundary(o: Options, fired: Option<Fired>) -> Option<Boundary> {
    match fired {
        Some(f) => if o.detectors.phash {
            Some(
                Boundary {
                    at: f.at,
                    provenance: Provenance::Phash(PhashScore { distance: f.value }),
                },
            )
        } else {
            None
        },
        None => None,
    }
}

impl Lanes {
    /// The lanes before the first frame of a visual stream, with the frame size of
    /// the one before.
    pub open spec fn cleared(self) -> Lanes {
        Lanes {
            luma: match self.luma {
                Some(m) => Some(histogram::Model::fresh(m.options)),
                None => None,
            },
            hue: match self.hue {
                Some(m) => Some(histogram::Model::fresh(m.options)),
                None => None,
            },
            saturation: match self.saturation {
                Some(m) => Some(histogram::Model::fresh(m.options)),
                None => None,
            },
            content: match self.content {
                Some(m) => Some(
                    content::Model {
                        width: m.width,
                        height: m.height,
                        ..content::Model::fresh(m.options)
                    },
                ),
                None => None,
            },
            adaptive: match self.adaptive {
                Some(m) => Some(
                    adaptive::Model::fresh(
                        m.options,
                        content::Model {
                            width: m.inner.width,
                            height: m.inner.height,
                            ..content::Model::fresh(m.inner.options)
                        },
                    ),
                ),
                None => None,
            },
        }
    }

    /// What the lanes do with a frame: every lane that runs takes it in, and
    /// proposes a boundary where it sees a cut.
    #[verifier::opaque]
    pub open spec fn ran<
        C: Fn(Similarity, Real) -> Correlated,
        W: Fn(FrameDelta, Components) -> Measured,
        A: Fn(Window) -> Ratio,
    >(
        self,
        o: Options,
        frames: Frames<'_>,
        correlate: C,
        weigh: W,
        average: A,
        outside: Outside,
        after: Lanes,
        cuts: LaneCuts,
    ) -> bool {
        let luma = frames.luma_view();
        let hsv = frames.hsv_view();
        &&& cuts.fade == fade_boundary(o, outside.fade)
        &&& cuts.phash == phash_boundary(o, outside.phash)
        &&& histogram_ran(
            self.luma,
            after.luma,
            luma.bytes(),
            luma.columns() as int,
            luma.rows() as int,
            luma.pitch() as int,
            luma.time(),
            correlate,
            HistogramPlane::Luma,
            cuts.luma,
        )
        &&& histogram_ran(
            self.hue,
            after.hue,
            hsv.hue_bytes(),
            hsv.columns() as int,
            hsv.rows() as int,
            hsv.pitch() as int,
            frames.time(),
            correlate,
            HistogramPlane::Hue,
            cuts.hue,
        )
        &&& histogram_ran(
            self.saturation,
            after.saturation,
            hsv.saturation_bytes(),
            hsv.columns() as int,
            hsv.rows() as int,
            hsv.pitch() as int,
            frames.time(),
            correlate,
            HistogramPlane::Saturation,
            cuts.saturation,
        )
        &&& content_ran(self.content, after.content, hsv, weigh, o.content.threshold, cuts.content)
        &&& adaptive_ran(self.adaptive, after.adaptive, hsv, weigh, average, cuts.adaptive)
    }
}

/// The state of a cascade, as a value.
#[verifier::ext_equal]
pub struct Model {
    /// The configuration.
    pub options: Options,
    /// The lanes.
    pub lanes: Lanes,
    /// The timeline.
    pub track: Track,
}

/// A histogram lane of the cascade keeps no minimum duration of its own.
pub open spec fn unspaced(o: histogram::Options) -> histogram::Options {
    histogram::Options { min_duration: Duration::of_nanos(0), ..o }
}

/// The state of a histogram lane before the first frame.
pub open spec fn fresh_histogram(on: bool, o: histogram::Options) -> Option<histogram::Model> {
    if on {
        Some(histogram::Model::fresh(unspaced(o)))
    } else {
        None
    }
}

/// The content options of the content lane.
pub open spec fn content_lane(o: Options) -> content::Options {
    content::Options { min_duration: Duration::of_nanos(0), ..o.content }
}

/// The adaptive options of the adaptive lane.
pub open spec fn adaptive_lane(o: Options) -> adaptive::Options {
    adaptive::Options { min_duration: Duration::of_nanos(0), ..o.adaptive }
}

impl Model {
    /// The state before the first frame.
    pub open spec fn fresh(o: Options) -> Model {
        Model {
            options: o,
            lanes: Lanes {
                luma: fresh_histogram(o.detectors.luma_histogram, o.luma_histogram),
                hue: fresh_histogram(o.detectors.hue_histogram, o.hue_histogram),
                saturation: fresh_histogram(o.detectors.saturation_histogram, o.sat_histogram),
                content: if o.detectors.content {
                    Some(content::Model::fresh(content_lane(o)))
                } else {
                    None
                },
                adaptive: if o.detectors.adaptive {
                    Some(
                        adaptive::Model::fresh(
                            adaptive_lane(o),
                            content::Model::fresh(adaptive::scoring_options(adaptive_lane(o))),
                        ),
                    )
                } else {
                    None
                },
            },
            track: Track::fresh(),
        }
    }

    /// Width and height of a frame.
    pub open spec fn size_of(frames: Frames<'_>) -> (u32, u32) {
        (frames.luma_view().columns(), frames.luma_view().rows())
    }

    /// The views in the timebase of the stream.
    pub open spec fn canonical(self, frames: Frames<'_>, f: Frames<'_>) -> bool {
        match self.track.stream_timebase {
            Some(_) => f.restamps(frames, self.track.canonical(frames.time())),
            None => f == frames,
        }
    }

    /// The timeline after the keyframe selection was handed a frame. Where it did
    /// not take it, the window up to the safe horizon is closed to make room, and the
    /// frame is handed over again.
    pub open spec fn observed<
        B: Fn(Timestamp, StagedMetrics) -> bool,
        S: Fn(TimeRange) -> Vec<Selected>,
    >(
        t: Track,
        at: Timestamp,
        lag: int,
        metrics: StagedMetrics,
        intake: Intake,
        observe: B,
        select: S,
        after: Track,
    ) -> bool {
        &&& observe.ensures((at, metrics), intake.taken)
        &&& if intake.taken {
            intake.again is None && after == t
        } else {
            &&& t.drained(
                match t.safe_horizon(at, lag) {
                    Some(safe) => safe,
                    None => at,
                },
                select,
                after,
            )
            &&& intake.again matches Some(again) && observe.ensures((at, metrics), again)
        }
    }

    /// The state after a frame is let in, and the output that is due. `f` is the
    /// frame in the timebase of the stream, `metrics` what it measures, `intake`
    /// what the keyframe selection answers, `seen` what the outside lanes report,
    /// `cuts` what all lanes report, and `open` and `settled` the timeline before and
    /// after the boundary.
    pub open spec fn pushed_by<
        'a,
        C: Fn(Similarity, Real) -> Correlated,
        W: Fn(FrameDelta, Components) -> Measured,
        A: Fn(Window) -> Ratio,
        X: Fn(Frames<'a>, bool) -> Outside,
        G: Fn(CheapMetrics) -> bool,
        B: Fn(Timestamp, StagedMetrics) -> bool,
        S: Fn(TimeRange) -> Vec<Selected>,
    >(
        self,
        frames: Frames<'a>,
        kit: Kit<C, W, A, X, G, B, S>,
        f: Frames<'a>,
        metrics: StagedMetrics,
        intake: Intake,
        seen: Outside,
        cuts: LaneCuts,
        open: Track,
        settled: Track,
        after: Model,
        event: Option<Event>,
    ) -> bool {
        let o = self.options;
        let lag = lag_of(o);
        let at = self.track.canonical(frames.time());
        let size = Model::size_of(frames);
        let reset = self.track.resets(size);
        let lanes = if reset {
            self.lanes.cleared()
        } else {
            self.lanes
        };
        let (contended, boundary) = open.contended(o, cuts, at);
        &&& self.canonical(frames, f)
        &&& measured(f, o.extractors, o.channel_order, kit.gate, metrics)
        &&& Model::observed(
            self.track.admitted(at, size, lag),
            at,
            lag,
            metrics,
            intake,
            kit.observe,
            kit.select,
            open,
        )
        &&& kit.outside.ensures((f, reset), seen)
        &&& lanes.ran(
            o,
            f,
            kit.correlate,
            kit.weigh,
            kit.average,
            seen,
            after.lanes,
            cuts,
        )
        &&& contended.settled(o, boundary, at, lag, kit.select, settled)
        &&& after.options == o
        &&& (after.track, event) == settled.popped()
    }

    /// The state after a frame is let in, and the output that is due.
    pub open spec fn pushed<
        'a,
        C: Fn(Similarity, Real) -> Correlated,
        W: Fn(FrameDelta, Components) -> Measured,
        A: Fn(Window) -> Ratio,
        X: Fn(Frames<'a>, bool) -> Outside,
        G: Fn(CheapMetrics) -> bool,
        B: Fn(Timestamp, StagedMetrics) -> bool,
        S: Fn(TimeRange) -> Vec<Selected>,
    >(
        self,
        frames: Frames<'a>,
        kit: Kit<C, W, A, X, G, B, S>,
        after: Model,
        event: Option<Event>,
    ) -> bool {
        exists|
            f: Frames<'a>,
            metrics: StagedMetrics,
            intake: Intake,
            seen: Outside,
            cuts: LaneCuts,
            open: Track,
            settled: Track,
        | #[trigger]
            self.pushed_by(
                frames,
                kit,
                f,
                metrics,
                intake,
                seen,
                cuts,
                open,
                settled,
                after,
                event,
            )
    }

    /// The state at the start of the next stream. The lanes keep the frame size.
    pub open spec fn restarted(self) -> Model {
        Model { options: self.options, lanes: self.lanes.cleared(), track: Track::fresh() }
    }
}

/// The cascade.
#[derive(Debug)]
pub struct Detector {
    options: Options,
    luma_hist: Option<histogram::Detector>,
    hue_hist: Option<histogram::Detector>,
    sat_hist: Option<histogram::Detector>,
    content: Option<content::Detector>,
    adaptive: Option<adaptive::Detector>,
    lag: usize,
    timeline: Timeline,
}

/// The state of a histogram lane.
spec fn histogram_state(l: Option<histogram::Detector>) -> Option<histogram::Model> {
    match l {
        Some(d) => Some(d@),
        None => None,
    }
}

/// The state of a content lane.
spec fn content_state(l: Option<content::Detector>) -> Option<content::Model> {
    match l {
        Some(d) => Some(d@),
        None => None,
    }
}

/// The state of an adaptive lane.
spec fn adaptive_state(l: Option<adaptive::Detector>) -> Option<adaptive::Model> {
    match l {
        Some(d) => Some(d@),
        None => None,
    }
}

impl View for Detector {
    type V = Model;

    closed spec fn view(&self) -> Model {
        Model {
            options: self.options,
            lanes: Lanes {
                luma: histogram_state(self.luma_hist),
                hue: histogram_state(self.hue_hist),
                saturation: histogram_state(self.sat_hist),
                content: content_state(self.content),
                adaptive: adaptive_state(self.adaptive),
            },
            track: self.timeline@,
        }
    }
}

/// Builds a histogram lane.
fn make_histogram(on: bool, o: histogram::Options) -> (l: Option<histogram::Detector>)
    requires
        on ==> 0 < o.bins <= 0x1_0000,
    ensures
        histogram_state(l) == fresh_histogram(on, o),
        l matches Some(d) ==> d.wf(),
{
    if on {
        Some(histogram::Detector::new(signal_lane(o)))
    } else {
        None
    }
}

/// Runs a histogram lane on a plane.
fn run_histogram<C: Fn(Similarity, Real) -> Correlated>(
    lane: &mut Option<histogram::Detector>,
    frame: LumaFrame<'_>,
    correlate: C,
    plane: HistogramPlane,
) -> (report: Option<Boundary>)
    requires
        *old(lane) matches Some(d) ==> d.wf(),
        frame.columns() * frame.rows() <= u32::MAX,
        forall|s: Similarity, t: Real| #[trigger] correlate.requires((s, t)),
    ensures
        *final(lane) matches Some(d) ==> d.wf(),
        *final(lane) is Some <==> *old(lane) is Some,
        histogram_ran(
            histogram_state(*old(lane)),
            histogram_state(*final(lane)),
            frame.bytes(),
            frame.columns() as int,
            frame.rows() as int,
            frame.pitch() as int,
            frame.time(),
            correlate,
            plane,
            report,
        ),
{
    match lane {
        Some(d) => {
            proof {
                small_planes_fit(
                    frame.bytes(),
                    frame.columns() as int,
                    frame.rows() as int,
                    frame.pitch() as int,
                    d@.options.bins as int,
                );
            }
            let cut: Option<Timestamp> = d.process(frame, correlate);
            match cut {
                Some(at) => {
                    let correlation: Real = match d.last_hist_diff() {
                        Some(v) => v,
                        None => Real { bits: 0 },
                    };
                    Some(
                        Boundary {
                            at,
                            provenance: Provenance::Histogram(
                                HistogramScore { plane, correlation },
                            ),
                        },
                    )
                },
                None => None,
            }
        },
        None => None,
    }
}

/// Runs the content lane on a frame.
fn run_content<W: Fn(FrameDelta, Components) -> Measured>(
    lane: &mut Option<content::Detector>,
    frame: HsvFrame<'_>,
    weigh: W,
    threshold: Real,
) -> (report: Option<Boundary>)
    requires
        *old(lane) matches Some(d) ==> d.wf(),
        frame.columns() * frame.rows() <= 0x10_0000,
        forall|d: FrameDelta, c: Components| #[trigger] weigh.requires((d, c)),
    ensures
        *final(lane) matches Some(d) ==> d.wf(),
        *final(lane) is Some <==> *old(lane) is Some,
        content_ran(
            content_state(*old(lane)),
            content_state(*final(lane)),
            frame,
            weigh,
            threshold,
            report,
        ),
{
    match lane {
        Some(d) => {
            let cut: Option<Timestamp> = d.process_hsv(frame, weigh);
            match cut {
                Some(at) => {
                    let zero: Real = Real { bits: 0 };
                    let score: Real = match d.last_score() {
                        Some(v) => v,
                        None => zero,
                    };
                    let components: Components = match d.last_components() {
                        Some(v) => v,
                        None => Components::new(zero, zero, zero, zero),
                    };
                    Some(
                        Boundary {
                            at,
                            provenance: Provenance::Content(
                                ContentScore { score, threshold, components },
                            ),
                        },
                    )
                },
                None => None,
            }
        },
        None => None,
    }
}

/// Runs the adaptive lane on a frame.
fn run_adaptive<W: Fn(FrameDelta, Components) -> Measured, A: Fn(Window) -> Ratio>(
    lane: &mut Option<adaptive::Detector>,
    frame: HsvFrame<'_>,
    weigh: W,
    average: A,
) -> (report: Option<Boundary>)
    requires
        *old(lane) matches Some(d) ==> d.wf(),
        frame.columns() * frame.rows() <= 0x10_0000,
        forall|d: FrameDelta, c: Components| #[trigger] weigh.requires((d, c)),
        forall|w: Window| #[trigger] average.requires((w,)),
    ensures
        *final(lane) matches Some(d) ==> d.wf(),
        *final(lane) is Some <==> *old(lane) is Some,
        adaptive_ran(
            adaptive_state(*old(lane)),
            adaptive_state(*final(lane)),
            frame,
            weigh,
            average,
            report,
        ),
{
    match lane {
        Some(d) => {
            let cut: Option<Timestamp> = d.process_hsv(frame, weigh, average);
            match cut {
                Some(at) => {
                    let ratio: Real = match d.last_adaptive_ratio() {
                        Some(v) => v,
                        None => Real { bits: 0 },
                    };
                    let score: Real = match d.last_target_score() {
                        Some(v) => v,
                        None => Real { bits: 0 },
                    };
                    Some(
                        Boundary {
                            at,
                            provenance: Provenance::Adaptive(AdaptiveScore { ratio, score }),
                        },
                    )
                },
                None => None,
            }
        },
        None => None,
    }
}

/// The boundary that the fade lane proposes.
fn fade_report(o: &Options, fired: Option<Fired>) -> (b: Option<Boundary>)
    ensures
        b == fade_boundary(*o, fired),
{
    match fired {
        Some(f) => if o.detectors.threshold {
            Some(
                Boundary {
                    at: f.at,
                    provenance: Provenance::Threshold(
                        ThresholdScore { mean: f.value, floor: o.threshold.threshold },
                    ),
                },
            )
        } else {
            None
        },
        None => None,
    }
}

/// The boundary that the perceptual-hash lane proposes.
fn phash_report(o: &Options, fired: Option<Fired>) -> (b: Option<Boundary>)
    ensures
        b == phash_boundary(*o, fired),
{
    match fired {
        Some(f) => if o.detectors.phash {
            Some(
                Boundary {
                    at: f.at,
                    provenance: Provenance::Phash(PhashScore { distance: f.value }),
                },
            )
        } else {
            None
        },
        None => None,
    }
}

impl Detector {
    /// What holds of every cascade between calls.
    pub closed spec fn wf(&self) -> bool {
        &&& options_fault(self.options) is None
        &&& bins_positive(self.options)
        &&& self.lag == lag_of(self.options)
        &&& self.timeline@.wf(self.lag as int)
        &&& self.lanes_wf()
        &&& configured(self@)
    }

    /// The lanes of a cascade are those that its configuration names.
    pub proof fn wf_means_configured(&self)
        requires
            self.wf(),
        ensures
            configured(self@),
    {
    }

    /// Every lane is in order.
    spec fn lanes_wf(&self) -> bool {
        &&& self.luma_hist matches Some(d) ==> d.wf()
        &&& self.hue_hist matches Some(d) ==> d.wf()
        &&& self.sat_hist matches Some(d) ==> d.wf()
        &&& self.content matches Some(d) ==> d.wf()
        &&& self.adaptive matches Some(d) ==> d.wf()
    }

    /// A cascade, or the reason why there is none.
    pub fn try_new(options: Options) -> (r: Result<Detector, OptionsError>)
        requires
            bins_positive(options),
        ensures
            match r {
                Ok(d) => options_fault(options) is None && d@ == Model::fresh(options) && d.wf(),
                Err(e) => options_fault(options) == Some(e),
            },
    {
        if let Err(e) = validate(&options) {
            return Err(e);
        }
        let lanes = options.detectors;
        let lag: usize = if lanes.adaptive {
            (2 * options.adaptive.window_width + 3) as usize
        } else {
            0
        };
        let content: Option<content::Detector> = if lanes.content {
            Some(
                content::Detector::new(
                    options.content.with_min_duration(Duration::from_secs(0)),
                ),
            )
        } else {
            None
        };
        let adaptive: Option<adaptive::Detector> = if lanes.adaptive {
            Some(
                adaptive::Detector::new(
                    options.adaptive.with_min_duration(Duration::from_secs(0)),
                ),
            )
        } else {
            None
        };
        let d: Detector = Detector {
            options,
            luma_hist: make_histogram(lanes.luma_histogram, options.luma_histogram),
            hue_hist: make_histogram(lanes.hue_histogram, options.hue_histogram),
            sat_hist: make_histogram(lanes.saturation_histogram, options.sat_histogram),
            content,
            adaptive,
            lag,
            timeline: Timeline::new(),
        };
        assert(d@ =~= Model::fresh(options));
        Ok(d)
    }

    /// The configuration.
    pub fn options(&self) -> (o: &Options)
        ensures
            *o == self@.options,
    {
        &self.options
    }

    /// Number of outputs that wait.
    pub fn backlog(&self) -> (n: usize)
        ensures
            n == self@.track.pending.len(),
    {
        self.timeline.backlog()
    }

    /// The last frame of the stream, in its timebase.
    pub fn last_timestamp(&self) -> (ts: Option<Timestamp>)
        ensures
            ts == self@.track.last_ts,
    {
        self.timeline.last_ts()
    }

    /// Forgets the visual stream. The timeline stands.
    fn reset_visual(&mut self)
        requires
            old(self).lanes_wf(),
        ensures
            final(self)@ == (Model { lanes: old(self)@.lanes.cleared(), ..old(self)@ }),
            final(self).lanes_wf(),
            final(self).lag == old(self).lag,
    {
        if let Some(d) = &mut self.luma_hist {
            d.clear();
        }
        if let Some(d) = &mut self.hue_hist {
            d.clear();
        }
        if let Some(d) = &mut self.sat_hist {
            d.clear();
        }
        if let Some(d) = &mut self.content {
            d.clear();
        }
        if let Some(d) = &mut self.adaptive {
            d.clear();
        }
        assert(self@.lanes =~= old(self)@.lanes.cleared());
    }

    /// Forgets everything, outputs that wait included; the next frame starts a new
    /// stream, and tells the outside lanes to clear. The keyframe selection is the
    /// caller's to clear.
    pub fn clear(&mut self)
        requires
            old(self).wf(),
        ensures
            final(self)@ == old(self)@.restarted(),
            final(self).wf(),
    {
        self.reset_visual();
        self.timeline.reset();
        assert(self@ =~= old(self)@.restarted());
    }

    /// Ends the stream: closes what is owed and the last shot, hands out every
    /// output that waits, and starts anew, as `clear` does: the keyframe selection is the
    /// caller's to clear. `fade` is what the fade lane reports at the end.
    pub fn finalize<S: Fn(TimeRange) -> Vec<Selected> + Copy>(
        &mut self,
        fade: Option<Fired>,
        select: S,
    ) -> (out: Vec<Event>)
        requires
            old(self).wf(),
            forall|r: TimeRange| #[trigger] select.requires((r,)),
        ensures
            exists|t: Track| #[trigger]
                old(self)@.track.finished(
                    old(self)@.options,
                    fade_boundary(old(self)@.options, fade),
                    select,
                    t,
                ) && out@ == t.pending,
            final(self)@ == old(self)@.restarted(),
            final(self).wf(),
    {
        let b: Option<Boundary> = fade_report(&self.options, fade);
        let out: Vec<Event> = self.timeline.finish(&self.options, b, self.lag, select);
        self.reset_visual();
        assert(self@ =~= old(self)@.restarted());
        out
    }
}

/// Every function of the kit can be called.
pub open spec fn kit_ready<
    'a,
    C: Fn(Similarity, Real) -> Correlated,
    W: Fn(FrameDelta, Components) -> Measured,
    A: Fn(Window) -> Ratio,
    X: Fn(Frames<'a>, bool) -> Outside,
    G: Fn(CheapMetrics) -> bool,
    B: Fn(Timestamp, StagedMetrics) -> bool,
    S: Fn(TimeRange) -> Vec<Selected>,
>(kit: Kit<C, W, A, X, G, B, S>) -> bool {
    &&& forall|s: Similarity, t: Real| #[trigger] kit.correlate.requires((s, t))
    &&& forall|d: FrameDelta, c: Components| #[trigger] kit.weigh.requires((d, c))
    &&& forall|w: Window| #[trigger] kit.average.requires((w,))
    &&& forall|f: Frames<'a>, r: bool| #[trigger] kit.outside.requires((f, r))
    &&& forall|c: CheapMetrics| #[trigger] kit.gate.requires((c,))
    &&& forall|t: Timestamp, m: StagedMetrics| #[trigger] kit.observe.requires((t, m))
    &&& forall|r: TimeRange| #[trigger] kit.select.requires((r,))
}

impl Detector {
    /// Runs every lane on a frame and collects what they report.
    fn run_lanes<
        C: Fn(Similarity, Real) -> Correlated + Copy,
        W: Fn(FrameDelta, Components) -> Measured + Copy,
        A: Fn(Window) -> Ratio,
    >(
        &mut self,
        frames: Frames<'_>,
        correlate: C,
        weigh: W,
        average: A,
        seen: Outside,
    ) -> (cuts: LaneCuts)
        requires
            old(self).lanes_wf(),
            frames.valid(),
            forall|s: Similarity, t: Real| #[trigger] correlate.requires((s, t)),
            forall|d: FrameDelta, c: Components| #[trigger] weigh.requires((d, c)),
            forall|w: Window| #[trigger] average.requires((w,)),
        ensures
            final(self).lanes_wf(),
            final(self)@.options == old(self)@.options,
            final(self)@.track == old(self)@.track,
            final(self).lag == old(self).lag,
            old(self)@.lanes.ran(
                old(self)@.options,
                frames,
                correlate,
                weigh,
                average,
                seen,
                final(self)@.lanes,
                cuts,
            ),
    {
        let ts: Timestamp = frames.timestamp();
        let luma: LumaFrame<'_> = frames.luma();
        let hsv: HsvFrame<'_> = frames.hsv();
        let fade: Option<Boundary> = fade_report(&self.options, seen.fade);
        let phash: Option<Boundary> = phash_report(&self.options, seen.phash);
        let luma_cut: Option<Boundary> = run_histogram(
            &mut self.luma_hist,
            luma,
            correlate,
            HistogramPlane::Luma,
        );
        let hue: &[u8] = hsv.hue();
        let hue_cut: Option<Boundary> = run_histogram(
            &mut self.hue_hist,
            plane_as_luma(hue, hsv, ts),
            correlate,
            HistogramPlane::Hue,
        );
        let saturation: &[u8] = hsv.saturation();
        let sat_cut: Option<Boundary> = run_histogram(
            &mut self.sat_hist,
            plane_as_luma(saturation, hsv, ts),
            correlate,
            HistogramPlane::Saturation,
        );
        let content_cut: Option<Boundary> = run_content(
            &mut self.content,
            hsv,
            weigh,
            self.options.content.threshold,
        );
        let adaptive_cut: Option<Boundary> = run_adaptive(&mut self.adaptive, hsv, weigh, average);
        proof {
            reveal(Lanes::ran);
        }
        LaneCuts {
            fade,
            luma: luma_cut,
            hue: hue_cut,
            saturation: sat_cut,
            phash,
            content: content_cut,
            adaptive: adaptive_cut,
        }
    }

    /// Runs every lane on a frame at `ts` and lets what they report contend. Returns
    /// the boundary that closes the open shot, if any.
    fn detect_boundary<
        C: Fn(Similarity, Real) -> Correlated + Copy,
        W: Fn(FrameDelta, Components) -> Measured + Copy,
        A: Fn(Window) -> Ratio,
    >(
        &mut self,
        frames: Frames<'_>,
        ts: Timestamp,
        correlate: C,
        weigh: W,
        average: A,
        seen: Outside,
    ) -> (r: (Option<Boundary>, Ghost<LaneCuts>))
        requires
            old(self).wf(),
            frames.valid(),
            forall|s: Similarity, t: Real| #[trigger] correlate.requires((s, t)),
            forall|d: FrameDelta, c: Components| #[trigger] weigh.requires((d, c)),
            forall|w: Window| #[trigger] average.requires((w,)),
        ensures
            final(self).wf(),
            final(self)@.options == old(self)@.options,
            final(self).lag == old(self).lag,
            old(self)@.lanes.ran(
                old(self)@.options,
                frames,
                correlate,
                weigh,
                average,
                seen,
                final(self)@.lanes,
                r.1@,
            ),
            (final(self)@.track, r.0) == old(self)@.track.contended(
                old(self)@.options,
                r.1@,
                ts,
            ),
    {
        let ghost before = self@;
        let cuts: LaneCuts = self.run_lanes(frames, correlate, weigh, average, seen);
        proof {
            lemma_ran_alike(
                before.lanes,
                before.options,
                frames,
                correlate,
                weigh,
                average,
                seen,
                self@.lanes,
                cuts,
            );
        }
        let boundary: Option<Boundary> = self.timeline.contend(&self.options, cuts, ts);
        (boundary, Ghost(cuts))
    }

    /// Lets a frame at `ts` in. A new frame size starts a new visual stream.
    fn open(&mut self, frames: &Frames<'_>, ts: Timestamp) -> (reset: bool)
        requires
            old(self).wf(),
            ts.base().numerator() > 0,
            ts.ticks() < i64::MAX,
        ensures
            final(self).wf(),
            reset == old(self)@.track.resets(Model::size_of(*frames)),
            final(self)@ == (Model {
                options: old(self)@.options,
                lanes: if reset {
                    old(self)@.lanes.cleared()
                } else {
                    old(self)@.lanes
                },
                track: old(self)@.track.admitted(
                    ts,
                    Model::size_of(*frames),
                    lag_of(old(self)@.options),
                ),
            }),
    {
        let lag: usize = self.lag;
        let luma: LumaFrame<'_> = frames.luma();
        let size: (u32, u32) = (luma.width(), luma.height());
        let reset: bool = self.timeline.let_in(ts, size, lag);
        if reset {
            self.reset_visual();
        }
        reset
    }

    /// Hands a frame at `ts` to the keyframe selection. Where it does not take it, the
    /// window up to the safe horizon is closed to make room, and the frame is handed
    /// over again.
    fn feed<
        B: Fn(Timestamp, StagedMetrics) -> bool,
        S: Fn(TimeRange) -> Vec<Selected>,
    >(&mut self, ts: Timestamp, metrics: StagedMetrics, observe: B, select: S) -> (intake: Intake)
        requires
            old(self).wf(),
            forall|t: Timestamp, m: StagedMetrics| #[trigger] observe.requires((t, m)),
            forall|r: TimeRange| #[trigger] select.requires((r,)),
        ensures
            final(self).wf(),
            final(self)@ == (Model { track: final(self)@.track, ..old(self)@ }),
            Model::observed(
                old(self)@.track,
                ts,
                lag_of(old(self)@.options),
                metrics,
                intake,
                observe,
                select,
                final(self)@.track,
            ),
    {
        let taken: bool = observe(ts, metrics);
        if !taken {
            let safe: Timestamp = match self.timeline.safe_horizon(ts, self.lag) {
                Some(t) => t,
                None => ts,
            };
            self.timeline.finalize_window(safe, select);
            let again: bool = observe(ts, metrics);
            return Intake { taken, again: Some(again) };
        }
        Intake { taken, again: None }
    }

    /// Takes in one frame and returns at most one output. A frame that lies before
    /// the last one, or at the limit of what timestamps can express, is refused and
    /// changes nothing.
    pub fn push<
        'a,
        C: Fn(Similarity, Real) -> Correlated + Copy,
        W: Fn(FrameDelta, Components) -> Measured + Copy,
        A: Fn(Window) -> Ratio + Copy,
        X: Fn(Frames<'a>, bool) -> Outside + Copy,
        G: Fn(CheapMetrics) -> bool + Copy,
        B: Fn(Timestamp, StagedMetrics) -> bool + Copy,
        S: Fn(TimeRange) -> Vec<Selected> + Copy,
    >(&mut self, frames: Frames<'a>, kit: &Kit<C, W, A, X, G, B, S>) -> (r: Result<
        Option<Event>,
        PushError,
    >)
        requires
            old(self).wf(),
            kit_ready(*kit),
        ensures
            final(self).wf(),
            match r {
                Ok(event) => {
                    &&& old(self)@.track.fault(frames.time()) is None
                    &&& old(self)@.pushed(frames, *kit, final(self)@, event)
                },
                Err(e) => old(self)@.track.fault(frames.time()) == Some(e) && final(self)@
                    == old(self)@,
            },
    {
        let ghost model = self@;
        let ts: Timestamp = match self.timeline.check(frames.timestamp()) {
            Ok(t) => t,
            Err(e) => return Err(e),
        };
        let f: Frames<'a> = if self.timeline.started() {
            frames.with_canonical_timestamp(ts)
        } else {
            frames
        };
        let reset: bool = self.open(&frames, ts);
        let select: S = kit.select;
        let outside: X = kit.outside;
        let metrics: StagedMetrics = frame_metrics(
            &f,
            self.options.extractors,
            self.options.channel_order,
            true,
            kit.gate,
        );
        let intake: Intake = self.feed(ts, metrics, kit.observe, select);
        let ghost open = self@.track;
        let seen: Outside = outside(f, reset);
        let (boundary, cuts) = self.detect_boundary(
            f,
            ts,
            kit.correlate,
            kit.weigh,
            kit.average,
            seen,
        );
        self.timeline.settle(&self.options, boundary, ts, self.lag, select);
        let ghost settled = self@.track;
        let event: Option<Event> = self.timeline.pop();
        proof {
            assert(model.pushed_by(
                frames,
                *kit,
                f,
                metrics,
                intake,
                seen,
                cuts@,
                open,
                settled,
                self@,
                event,
            ));
        }
        Ok(event)
    }
}

} // verus!
