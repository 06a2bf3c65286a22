//! What each lane of the cascade is handed, and what it reports.

use vstd::prelude::*;

use crate::adaptive;
use crate::adaptive::{Ratio, Window};
use crate::cascade::detector::{
    adaptive_ran, content_ran, histogram_ran, Intake, Kit, Lanes, Model, Outside,
};
use crate::cascade::event::{
    AdaptiveScore, ContentScore, Event, HistogramPlane, HistogramScore, PhashScore, Provenance,
    ThresholdScore,
};
use crate::cascade::flags::{Detectors, Lane};
use crate::cascade::frames::Frames;
use crate::cascade::laws::no_shot_outlives_its_cap;
use crate::cascade::metrics::{cheap_metrics, staged_metrics, CheapMetrics, StagedMetrics};
use crate::cascade::options::{
    lag_of, options_fault, Options, OptionsError, MAX_EDGE_KERNEL, MAX_HISTOGRAM_BINS,
    MAX_PHASH_IMSIZE, MAX_RING, RING_SLACK,
};
use crate::cascade::stream::{
    a_shot_ends_in_order, lanes_report_what_they_saw, lemma_canonical_past, lemma_cleared_all,
    lemma_past_stays, on_track, past, reports_past, sound_frame, until,
};
use crate::cascade::timeline::{Boundary, LaneCuts, Selected, Track};
use crate::content;
use crate::content::{Components, FrameDelta, Measured};
use crate::frame::HsvFrame;
use crate::histogram;
use crate::histogram::{histogram_of, Correlated, Similarity};
use crate::number::Real;
use crate::time::{
    min_length_met, relation_is_antisymmetric, spans_have_their_nanoseconds, Duration, TimeRange,
    Timestamp,
};

verus! {

/// A histogram lane before its first frame: it is there just where it is enabled, with its
/// own options but no minimum duration, and has nothing to compare with.
pub open spec fn histogram_lane_starts(
    lane: Option<histogram::Model>,
    on: bool,
    o: histogram::Options,
) -> bool {
    &&& lane is Some <==> on
    &&& lane matches Some(m) ==> {
        &&& m.options == (histogram::Options { min_duration: m.options.min_duration, ..o })
        &&& m.options.min_duration.total() == 0
        &&& m.previous is None
        &&& m.last_cut is None
        &&& m.last_diff is None
    }
}

/// The lanes of a new cascade run as configured: each is there just where it is enabled, with
/// the options given for it, but for the minimum duration, which the timeline keeps for all.
pub proof fn lanes_run_as_configured(o: Options)
    ensures
        ({
            let l = Model::fresh(o).lanes;
            &&& histogram_lane_starts(l.luma, o.detectors.luma_histogram, o.luma_histogram)
            &&& histogram_lane_starts(l.hue, o.detectors.hue_histogram, o.hue_histogram)
            &&& histogram_lane_starts(
                l.saturation,
                o.detectors.saturation_histogram,
                o.sat_histogram,
            )
            &&& l.content is Some <==> o.detectors.content
            &&& l.content matches Some(m) ==> {
                &&& m.options == (content::Options {
                    min_duration: m.options.min_duration,
                    ..o.content
                })
                &&& m.options.min_duration.total() == 0
                &&& m.previous is None
                &&& m.last is None
            }
            &&& l.adaptive is Some <==> o.detectors.adaptive
            &&& l.adaptive matches Some(m) ==> {
                &&& m.options == (adaptive::Options {
                    min_duration: m.options.min_duration,
                    ..o.adaptive
                })
                &&& m.options.min_duration.total() == 0
                &&& m.window.len() == 0
                &&& m.inner.options.weights == o.adaptive.weights
                &&& m.inner.options.kernel_size == o.adaptive.kernel_size
                &&& m.inner.previous is None
            }
        }),
{
    spans_have_their_nanoseconds(0);
}

/// What a histogram lane does with a plane: it holds the histogram of the plane for the next
/// frame, whatever came of this one, and reports at the time of the frame, with the
/// correlation that it found.
proof fn lemma_histogram_lane<C: Fn(Similarity, Real) -> Correlated>(
    before: Option<histogram::Model>,
    after: Option<histogram::Model>,
    bytes: Seq<u8>,
    w: int,
    h: int,
    stride: int,
    ts: Timestamp,
    correlate: C,
    plane: HistogramPlane,
    report: Option<Boundary>,
)
    requires
        histogram_ran(before, after, bytes, w, h, stride, ts, correlate, plane, report),
    ensures
        after is Some <==> before is Some,
        before is None ==> report is None,
        before matches Some(m) ==> ({
            let n = after->0;
            &&& n.options == m.options
            &&& n.previous == Some(histogram_of(bytes, w, h, stride, m.options.bins as int))
            &&& report matches Some(b) ==> b == (Boundary {
                at: ts,
                provenance: Provenance::Histogram(
                    HistogramScore { plane, correlation: n.last_diff->0 },
                ),
            }) && n.last_diff is Some && n.last_cut == Some(ts)
            &&& m.previous is None ==> report is None
        }),
{
}

/// Every histogram lane sees its own plane of every frame: it holds the histogram of that
/// plane for the next frame, whatever came of this one, and reports at the time of the frame,
/// under the name of its plane and with the correlation that it found. Without a frame before
/// it reports nothing.
pub proof fn histogram_lanes_see_their_planes<
    C: Fn(Similarity, Real) -> Correlated,
    W: Fn(FrameDelta, Components) -> Measured,
    A: Fn(Window) -> Ratio,
>(
    l: Lanes,
    o: Options,
    f: Frames<'_>,
    correlate: C,
    weigh: W,
    average: A,
    seen: Outside,
    after: Lanes,
    cuts: LaneCuts,
)
    requires
        l.ran(o, f, correlate, weigh, average, seen, after, cuts),
    ensures
        ({
            let luma = f.luma_view();
            let hsv = f.hsv_view();
            let (w, h, s) = (hsv.columns() as int, hsv.rows() as int, hsv.pitch() as int);
            &&& l.luma matches Some(m) ==> (after.luma matches Some(n) && n.options == m.options
                && n.previous == Some(
                histogram_of(
                    luma.bytes(),
                    luma.columns() as int,
                    luma.rows() as int,
                    luma.pitch() as int,
                    m.options.bins as int,
                ),
            ))
            &&& l.hue matches Some(m) ==> (after.hue matches Some(n) && n.options == m.options
                && n.previous == Some(histogram_of(hsv.hue_bytes(), w, h, s, m.options.bins as int)))
            &&& l.saturation matches Some(m) ==> (after.saturation matches Some(n) && n.options
                == m.options && n.previous == Some(
                histogram_of(hsv.saturation_bytes(), w, h, s, m.options.bins as int),
            ))
            &&& cuts.luma matches Some(b) ==> b == (Boundary {
                at: luma.time(),
                provenance: Provenance::Histogram(
                    HistogramScore {
                        plane: HistogramPlane::Luma,
                        correlation: after.luma->0.last_diff->0,
                    },
                ),
            }) && l.luma is Some && l.luma->0.previous is Some
            &&& cuts.hue matches Some(b) ==> b == (Boundary {
                at: f.time(),
                provenance: Provenance::Histogram(
                    HistogramScore {
                        plane: HistogramPlane::Hue,
                        correlation: after.hue->0.last_diff->0,
                    },
                ),
            }) && l.hue is Some && l.hue->0.previous is Some
            &&& cuts.saturation matches Some(b) ==> b == (Boundary {
                at: f.time(),
                provenance: Provenance::Histogram(
                    HistogramScore {
                        plane: HistogramPlane::Saturation,
                        correlation: after.saturation->0.last_diff->0,
                    },
                ),
            }) && l.saturation is Some && l.saturation->0.previous is Some
        }),
{
    reveal(Lanes::ran);
    let luma = f.luma_view();
    let hsv = f.hsv_view();
    let (w, h, s) = (hsv.columns() as int, hsv.rows() as int, hsv.pitch() as int);
    lemma_histogram_lane(
        l.luma,
        after.luma,
        luma.bytes(),
        luma.columns() as int,
        luma.rows() as int,
        luma.pitch() as int,
        luma.time(),
        correlate,
        HistogramPlane::Luma,
        cuts.luma,
    );
    lemma_histogram_lane(
        l.hue,
        after.hue,
        hsv.hue_bytes(),
        w,
        h,
        s,
        f.time(),
        correlate,
        HistogramPlane::Hue,
        cuts.hue,
    );
    lemma_histogram_lane(
        l.saturation,
        after.saturation,
        hsv.saturation_bytes(),
        w,
        h,
        s,
        f.time(),
        correlate,
        HistogramPlane::Saturation,
        cuts.saturation,
    );
}

/// What the content lane does with a frame.
proof fn lemma_content_lane<W: Fn(FrameDelta, Components) -> Measured>(
    before: Option<content::Model>,
    after: Option<content::Model>,
    frame: HsvFrame<'_>,
    weigh: W,
    threshold: Real,
    report: Option<Boundary>,
)
    requires
        content_ran(before, after, frame, weigh, threshold, report),
    ensures
        before is None ==> report is None && after is None,
        before matches Some(m) ==> (after matches Some(n) && {
            &&& n.options == m.options
            &&& n.previous == Some(m.resized(frame.columns(), frame.rows()).hsv_planes(frame))
            &&& report matches Some(b) ==> (n.last matches Some(x) && b.provenance
                == Provenance::Content(
                ContentScore { score: x.score, threshold, components: x.components },
            )) && m.previous is Some && m.width == frame.columns() && m.height == frame.rows()
        }),
{
}

/// What the adaptive lane does with a frame.
proof fn lemma_adaptive_lane<
    W: Fn(FrameDelta, Components) -> Measured,
    A: Fn(Window) -> Ratio,
>(
    before: Option<adaptive::Model>,
    after: Option<adaptive::Model>,
    frame: HsvFrame<'_>,
    weigh: W,
    average: A,
    report: Option<Boundary>,
)
    requires
        adaptive_ran(before, after, frame, weigh, average, report),
    ensures
        before is None ==> report is None && after is None,
        before matches Some(m) ==> (after matches Some(n) && {
            let w = m.options.window_width as int;
            &&& n.options == m.options
            &&& n.inner.options == m.inner.options
            &&& n.inner.previous == Some(
                m.inner.resized(frame.columns(), frame.rows()).hsv_planes(frame),
            )
            &&& m.window.len() <= 1 + 2 * w ==> n.window.len() <= 1 + 2 * w
            &&& report matches Some(b) ==> {
                &&& m.window.len() >= 2 * w
                &&& m.window.len() <= 1 + 2 * w ==> {
                    &&& n.window.len() == 1 + 2 * w
                    &&& n.last_ratio matches Some(ratio) && b == (Boundary {
                        at: n.window[w].0,
                        provenance: Provenance::Adaptive(
                            AdaptiveScore { ratio, score: n.window[w].1 },
                        ),
                    })
                }
            }
        }),
{
}

/// The content and the adaptive lane see the hue, saturation and value planes of every frame,
/// and hold them for the next, whatever came of this one. A report of the content lane carries
/// the score, the components and the threshold of the frame; one of the adaptive lane lies at
/// the middle of its window, with the ratio and the score of that frame.
pub proof fn scoring_lanes_see_every_frame<
    C: Fn(Similarity, Real) -> Correlated,
    W: Fn(FrameDelta, Components) -> Measured,
    A: Fn(Window) -> Ratio,
>(
    l: Lanes,
    o: Options,
    f: Frames<'_>,
    correlate: C,
    weigh: W,
    average: A,
    seen: Outside,
    after: Lanes,
    cuts: LaneCuts,
)
    requires
        l.ran(o, f, correlate, weigh, average, seen, after, cuts),
    ensures
        ({
            let hsv = f.hsv_view();
            &&& l.content matches Some(m) ==> (after.content matches Some(n) && n.options
                == m.options && n.previous == Some(
                m.resized(hsv.columns(), hsv.rows()).hsv_planes(hsv),
            ))
            &&& cuts.content matches Some(b) ==> (after.content matches Some(n) && n.last matches Some(
                x,
            ) && b.provenance == Provenance::Content(
                ContentScore {
                    score: x.score,
                    threshold: o.content.threshold,
                    components: x.components,
                },
            ))
            &&& l.adaptive matches Some(m) ==> (after.adaptive matches Some(n) && n.options
                == m.options && n.inner.previous == Some(
                m.inner.resized(hsv.columns(), hsv.rows()).hsv_planes(hsv),
            ))
            &&& l.adaptive matches Some(m) ==> (m.window.len() <= 1 + 2 * m.options.window_width
                && cuts.adaptive is Some ==> ({
                let n = after.adaptive->0;
                let (at, score) = n.window[m.options.window_width as int];
                &&& n.last_ratio is Some
                &&& cuts.adaptive == Some(
                    Boundary {
                        at,
                        provenance: Provenance::Adaptive(
                            AdaptiveScore { ratio: n.last_ratio->0, score },
                        ),
                    },
                )
            }))
        }),
{
    reveal(Lanes::ran);
    let hsv = f.hsv_view();
    lemma_content_lane(
        l.content,
        after.content,
        hsv,
        weigh,
        o.content.threshold,
        cuts.content,
    );
    lemma_adaptive_lane(l.adaptive, after.adaptive, hsv, weigh, average, cuts.adaptive);
}

/// The lanes outside this library are heard just where they are enabled: what they report is
/// passed on, under the name of the lane and with the value that fired it.
pub proof fn outside_lanes_are_heard_where_enabled<
    C: Fn(Similarity, Real) -> Correlated,
    W: Fn(FrameDelta, Components) -> Measured,
    A: Fn(Window) -> Ratio,
>(
    l: Lanes,
    o: Options,
    f: Frames<'_>,
    correlate: C,
    weigh: W,
    average: A,
    seen: Outside,
    after: Lanes,
    cuts: LaneCuts,
)
    requires
        l.ran(o, f, correlate, weigh, average, seen, after, cuts),
    ensures
        cuts.fade is Some <==> seen.fade is Some && o.detectors.threshold,
        cuts.fade matches Some(b) ==> b == (Boundary {
            at: seen.fade->0.at,
            provenance: Provenance::Threshold(
                ThresholdScore { mean: seen.fade->0.value, floor: o.threshold.threshold },
            ),
        }),
        cuts.phash is Some <==> seen.phash is Some && o.detectors.phash,
        cuts.phash matches Some(b) ==> b == (Boundary {
            at: seen.phash->0.at,
            provenance: Provenance::Phash(PhashScore { distance: seen.phash->0.value }),
        }),
{
    reveal(Lanes::ran);
}

/// The first frame of a visual stream is no cut for any lane of this library, whatever came
/// before: the lanes that are cleared have nothing to compare with.
pub proof fn a_visual_stream_starts_without_a_cut<
    C: Fn(Similarity, Real) -> Correlated,
    W: Fn(FrameDelta, Components) -> Measured,
    A: Fn(Window) -> Ratio,
>(
    l: Lanes,
    o: Options,
    f: Frames<'_>,
    correlate: C,
    weigh: W,
    average: A,
    seen: Outside,
    after: Lanes,
    cuts: LaneCuts,
)
    requires
        l.cleared().ran(o, f, correlate, weigh, average, seen, after, cuts),
        l.adaptive matches Some(m) ==> m.options.window_width > 0,
    ensures
        cuts.luma is None,
        cuts.hue is None,
        cuts.saturation is None,
        cuts.content is None,
        cuts.adaptive is None,
{
    let c = l.cleared();
    histogram_lanes_see_their_planes(c, o, f, correlate, weigh, average, seen, after, cuts);
    reveal(Lanes::ran);
    let hsv = f.hsv_view();
    lemma_content_lane(
        c.content,
        after.content,
        hsv,
        weigh,
        o.content.threshold,
        cuts.content,
    );
    lemma_adaptive_lane(c.adaptive, after.adaptive, hsv, weigh, average, cuts.adaptive);
}

/// A visual stream starts with the first frame, and with every frame of another size than the
/// one before; the size of each frame is kept for the next.
pub proof fn a_visual_stream_keeps_its_size(t: Track, ts: Timestamp, dims: (u32, u32), lag: int)
    ensures
        t.dims is None ==> t.resets(dims),
        t.dims matches Some(d) ==> (t.resets(dims) <==> d.0 != dims.0 || d.1 != dims.1),
        t.admitted(ts, dims, lag).dims == Some(dims),
        !t.admitted(ts, dims, lag).resets(dims),
        t.gate_anchor is Some && !t.resets(dims) ==> t.admitted(ts, dims, lag).gate_anchor
            == t.gate_anchor,
        t.resets(dims) ==> t.admitted(ts, dims, lag).gate_anchor == Some(ts),
{
}

/// The options of a cascade are sound just where a lane is enabled and every enabled lane has
/// options within bounds: kernels and bins within their caps, a perceptual hash of no more
/// than the largest picture, scoring lanes with weights and odd kernels, and an adaptive
/// window, not empty, whose lag the timeline can keep.
pub proof fn options_are_refused_for_cause(o: Options)
    ensures
        ({
            let d = o.detectors;
            options_fault(o) is None <==> {
                &&& d.threshold || d.luma_histogram || d.hue_histogram || d.saturation_histogram
                    || d.phash || d.content || d.adaptive
                &&& d.luma_histogram ==> o.luma_histogram.bins <= MAX_HISTOGRAM_BINS
                &&& d.hue_histogram ==> o.hue_histogram.bins <= MAX_HISTOGRAM_BINS
                &&& d.saturation_histogram ==> o.sat_histogram.bins <= MAX_HISTOGRAM_BINS
                &&& d.phash ==> o.phash.size * o.phash.lowpass <= MAX_PHASH_IMSIZE
                &&& d.content ==> scores(o.content.weights, o.content.kernel_size)
                &&& d.adaptive ==> scores(o.adaptive.weights, o.adaptive.kernel_size)
                    && o.adaptive.window_width > 0 && 2 * o.adaptive.window_width + 1 + RING_SLACK
                    <= MAX_RING
            }
        }),
        options_fault(o) == Some(OptionsError::NoCutLane) <==> !(o.detectors.threshold
            || o.detectors.luma_histogram || o.detectors.hue_histogram
            || o.detectors.saturation_histogram || o.detectors.phash || o.detectors.content
            || o.detectors.adaptive),
{
    let d = o.detectors;
    lemma_lanes(d);
}

/// A lane can score frames: some component carries weight, and a kernel that is given is odd,
/// at least three, and within the cap where edges carry weight.
pub open spec fn scores(w: Components, kernel: Option<u32>) -> bool {
    &&& !w.delta_hue.zero() || !w.delta_sat.zero() || !w.delta_lum.zero() || !w.delta_edges.zero()
    &&& kernel matches Some(k) ==> k >= 3 && k % 2 == 1 && (w.delta_edges.zero() || k
        <= MAX_EDGE_KERNEL)
}

/// A set of lanes is empty where it has none of them.
proof fn lemma_lanes(d: Detectors)
    ensures
        (forall|i: Lane| !#[trigger] d.has(i)) <==> !(d.threshold
            || d.luma_histogram || d.hue_histogram || d.saturation_histogram || d.phash
            || d.content || d.adaptive),
{
    assert(d.has(Lane::Threshold) == d.threshold);
    assert(d.has(Lane::LumaHistogram) == d.luma_histogram);
    assert(d.has(Lane::HueHistogram) == d.hue_histogram);
    assert(d.has(Lane::SaturationHistogram) == d.saturation_histogram);
    assert(d.has(Lane::Phash) == d.phash);
    assert(d.has(Lane::Content) == d.content);
    assert(d.has(Lane::Adaptive) == d.adaptive);
}

/// A cut lags only where the adaptive lane runs, and then by less than the whole window, with
/// some slack: by as many frames as the window holds and the slack adds.
pub proof fn cuts_lag_with_the_adaptive_window(o: Options)
    ensures
        !o.detectors.adaptive ==> lag_of(o) == 0,
        o.detectors.adaptive ==> lag_of(o) == (1 + 2 * o.adaptive.window_width) + RING_SLACK,
{
}

/// A histogram lane that has compared nothing yet.
proof fn lemma_histogram_fresh<C: Fn(Similarity, Real) -> Correlated>(
    before: Option<histogram::Model>,
    after: Option<histogram::Model>,
    bytes: Seq<u8>,
    w: int,
    h: int,
    stride: int,
    ts: Timestamp,
    correlate: C,
    plane: HistogramPlane,
    report: Option<Boundary>,
)
    requires
        histogram_ran(before, after, bytes, w, h, stride, ts, correlate, plane, report),
    ensures
        before matches Some(m) ==> (m.previous is None ==> after->0.last_diff == m.last_diff),
        before matches Some(m) ==> (m.previous is Some ==> after->0.last_diff is Some),
{
}

/// The first frame of a stream, and every frame of another size than the one before, starts all
/// lanes anew: none of this library has compared anything after it, and those outside are told
/// to clear.
pub proof fn a_new_size_starts_the_lanes_anew<
    'a,
    C: Fn(Similarity, Real) -> Correlated,
    W: Fn(FrameDelta, Components) -> Measured,
    A: Fn(Window) -> Ratio,
    X: Fn(Frames<'a>, bool) -> Outside,
    G: Fn(CheapMetrics) -> bool,
    B: Fn(Timestamp, StagedMetrics) -> bool,
    S: Fn(TimeRange) -> Vec<Selected>,
>(
    m: Model,
    frames: Frames<'a>,
    kit: Kit<C, W, A, X, G, B, S>,
    after: Model,
    event: Option<Event>,
)
    requires
        m.pushed(frames, kit, after, event),
        m.track.dims != Some(Model::size_of(frames)),
    ensures
        after.lanes.luma matches Some(n) ==> n.last_diff is None,
        after.lanes.hue matches Some(n) ==> n.last_diff is None,
        after.lanes.saturation matches Some(n) ==> n.last_diff is None,
        after.lanes.content matches Some(n) ==> n.last is None && n.gate == content::Gate::fresh(),
        after.lanes.adaptive matches Some(n) ==> n.window.len() == 1 && n.inner.last is None && (
        n.options.window_width > 0 ==> n.last_ratio is None && n.last_cut is None),
        exists|f: Frames<'a>, seen: Outside| #[trigger] kit.outside.ensures((f, true), seen),
{
    let (f, metrics, intake, seen, cuts, open, settled) = choose|
        f: Frames<'a>,
        metrics: StagedMetrics,
        intake: Intake,
        seen: Outside,
        cuts: LaneCuts,
        open: Track,
        settled: Track,
    | #[trigger]
        m.pushed_by(frames, kit, f, metrics, intake, seen, cuts, open, settled, after, event);
    assert(m.pushed_by(frames, kit, f, metrics, intake, seen, cuts, open, settled, after, event));
    reveal(Lanes::ran);
    assert(kit.outside.ensures((f, true), seen));
    lemma_lanes_compare(
        m.lanes.cleared(),
        m.options,
        f,
        kit.correlate,
        kit.weigh,
        kit.average,
        seen,
        after.lanes,
        cuts,
    );
}

/// What the histogram lanes have compared after a frame.
proof fn lemma_lanes_compare<
    C: Fn(Similarity, Real) -> Correlated,
    W: Fn(FrameDelta, Components) -> Measured,
    A: Fn(Window) -> Ratio,
>(
    l: Lanes,
    o: Options,
    f: Frames<'_>,
    correlate: C,
    weigh: W,
    average: A,
    seen: Outside,
    after: Lanes,
    cuts: LaneCuts,
)
    requires
        l.ran(o, f, correlate, weigh, average, seen, after, cuts),
    ensures
        l.luma matches Some(m) ==> (if m.previous is None {
            after.luma->0.last_diff == m.last_diff
        } else {
            after.luma->0.last_diff is Some
        }),
        l.hue matches Some(m) ==> (if m.previous is None {
            after.hue->0.last_diff == m.last_diff
        } else {
            after.hue->0.last_diff is Some
        }),
        l.saturation matches Some(m) ==> (if m.previous is None {
            after.saturation->0.last_diff == m.last_diff
        } else {
            after.saturation->0.last_diff is Some
        }),
        after.luma is Some <==> l.luma is Some,
        after.hue is Some <==> l.hue is Some,
        after.saturation is Some <==> l.saturation is Some,
        after.content is Some <==> l.content is Some,
        after.adaptive is Some <==> l.adaptive is Some,
{
    reveal(Lanes::ran);
    let luma = f.luma_view();
    let hsv = f.hsv_view();
    let (w, h, s) = (hsv.columns() as int, hsv.rows() as int, hsv.pitch() as int);
    lemma_histogram_fresh(
        l.luma,
        after.luma,
        luma.bytes(),
        luma.columns() as int,
        luma.rows() as int,
        luma.pitch() as int,
        luma.time(),
        correlate,
        HistogramPlane::Luma,
        cuts.luma,
    );
    lemma_histogram_fresh(
        l.hue,
        after.hue,
        hsv.hue_bytes(),
        w,
        h,
        s,
        f.time(),
        correlate,
        HistogramPlane::Hue,
        cuts.hue,
    );
    lemma_histogram_fresh(
        l.saturation,
        after.saturation,
        hsv.saturation_bytes(),
        w,
        h,
        s,
        f.time(),
        correlate,
        HistogramPlane::Saturation,
        cuts.saturation,
    );
}

/// A frame of the same size as the one before goes on: every lane that holds that one compares
/// it, and the lanes outside are not told to clear.
pub proof fn a_frame_of_the_same_size_is_compared<
    'a,
    C: Fn(Similarity, Real) -> Correlated,
    W: Fn(FrameDelta, Components) -> Measured,
    A: Fn(Window) -> Ratio,
    X: Fn(Frames<'a>, bool) -> Outside,
    G: Fn(CheapMetrics) -> bool,
    B: Fn(Timestamp, StagedMetrics) -> bool,
    S: Fn(TimeRange) -> Vec<Selected>,
>(
    m: Model,
    frames: Frames<'a>,
    kit: Kit<C, W, A, X, G, B, S>,
    after: Model,
    event: Option<Event>,
)
    requires
        m.pushed(frames, kit, after, event),
        m.track.dims == Some(Model::size_of(frames)),
    ensures
        m.lanes.luma matches Some(p) ==> (p.previous is Some ==> after.lanes.luma->0.last_diff is Some),
        m.lanes.hue matches Some(p) ==> (p.previous is Some ==> after.lanes.hue->0.last_diff is Some),
        m.lanes.saturation matches Some(p) ==> (p.previous is Some
            ==> after.lanes.saturation->0.last_diff is Some),
        m.lanes.content matches Some(p) ==> (p.previous is Some && p.width
            == frames.hsv_view().columns() && p.height == frames.hsv_view().rows()
            ==> after.lanes.content->0.last is Some),
        m.lanes.adaptive matches Some(p) ==> (p.inner.previous is Some && p.inner.width
            == frames.hsv_view().columns() && p.inner.height == frames.hsv_view().rows()
            ==> after.lanes.adaptive->0.inner.last is Some),
        exists|f: Frames<'a>, seen: Outside| #[trigger] kit.outside.ensures((f, false), seen),
{
    let (f, metrics, intake, seen, cuts, open, settled) = choose|
        f: Frames<'a>,
        metrics: StagedMetrics,
        intake: Intake,
        seen: Outside,
        cuts: LaneCuts,
        open: Track,
        settled: Track,
    | #[trigger]
        m.pushed_by(frames, kit, f, metrics, intake, seen, cuts, open, settled, after, event);
    assert(m.pushed_by(frames, kit, f, metrics, intake, seen, cuts, open, settled, after, event));
    reveal(Lanes::ran);
    assert(kit.outside.ensures((f, false), seen));
    lemma_lanes_compare(
        m.lanes,
        m.options,
        f,
        kit.correlate,
        kit.weigh,
        kit.average,
        seen,
        after.lanes,
        cuts,
    );
}

/// The views show the picture of a frame.
pub open spec fn shows(f: Frames<'_>, of: Frames<'_>) -> bool {
    &&& f.rgb_view().bytes() == of.rgb_view().bytes()
    &&& f.rgb_view().columns() == of.rgb_view().columns()
    &&& f.rgb_view().rows() == of.rgb_view().rows()
    &&& f.rgb_view().pitch() == of.rgb_view().pitch()
    &&& f.luma_view().bytes() == of.luma_view().bytes()
    &&& f.luma_view().columns() == of.luma_view().columns()
    &&& f.luma_view().rows() == of.luma_view().rows()
    &&& f.luma_view().pitch() == of.luma_view().pitch()
    &&& f.hsv_view().hue_bytes() == of.hsv_view().hue_bytes()
    &&& f.hsv_view().saturation_bytes() == of.hsv_view().saturation_bytes()
    &&& f.hsv_view().value_bytes() == of.hsv_view().value_bytes()
    &&& f.hsv_view().columns() == of.hsv_view().columns()
    &&& f.hsv_view().rows() == of.hsv_view().rows()
    &&& f.hsv_view().pitch() == of.hsv_view().pitch()
}

/// Every frame that is let in is measured, with the metrics of the configuration unless the
/// cheap ones hold it back, and offered to the keyframe selection at its time in the timebase
/// of the stream.
pub proof fn every_frame_is_measured_and_offered<
    'a,
    C: Fn(Similarity, Real) -> Correlated,
    W: Fn(FrameDelta, Components) -> Measured,
    A: Fn(Window) -> Ratio,
    X: Fn(Frames<'a>, bool) -> Outside,
    G: Fn(CheapMetrics) -> bool,
    B: Fn(Timestamp, StagedMetrics) -> bool,
    S: Fn(TimeRange) -> Vec<Selected>,
>(
    m: Model,
    frames: Frames<'a>,
    kit: Kit<C, W, A, X, G, B, S>,
    after: Model,
    event: Option<Event>,
)
    requires
        m.pushed(frames, kit, after, event),
    ensures
        exists|f: Frames<'a>, gated: bool, taken: bool|
            #![trigger kit.observe.ensures(
                (
                    m.track.canonical(frames.time()),
                    staged_metrics(f, m.options.extractors, m.options.channel_order, gated),
                ),
                taken,
            )]
            shows(f, frames) && kit.gate.ensures((cheap_metrics(f),), gated) && kit.observe.ensures(
                (
                    m.track.canonical(frames.time()),
                    staged_metrics(f, m.options.extractors, m.options.channel_order, gated),
                ),
                taken,
            ),
{
    let (f, metrics, intake, seen, cuts, open, settled) = choose|
        f: Frames<'a>,
        metrics: StagedMetrics,
        intake: Intake,
        seen: Outside,
        cuts: LaneCuts,
        open: Track,
        settled: Track,
    | #[trigger]
        m.pushed_by(frames, kit, f, metrics, intake, seen, cuts, open, settled, after, event);
    assert(m.pushed_by(frames, kit, f, metrics, intake, seen, cuts, open, settled, after, event));
    let o = m.options;
    let gated = choose|gated: bool| #[trigger]
        kit.gate.ensures((cheap_metrics(f),), gated) && metrics == staged_metrics(
            f,
            o.extractors,
            o.channel_order,
            gated,
        );
    let at = m.track.canonical(frames.time());
    assert(shows(f, frames));
    assert(kit.observe.ensures(
        (at, staged_metrics(f, o.extractors, o.channel_order, gated)),
        intake.taken,
    ));
}

/// What the lanes report on a frame is settled with it: the boundary that wins among all that
/// contends closes the open shot, and the next one starts there; where there is none, the open
/// shot goes on. What is deferred waits for the next frame. The timeline that it is held
/// against is that of the frame before, but for a shot that starts with this frame and a visual
/// stream that starts with it; `anew` tells whether one does.
pub proof fn a_frame_settles_what_its_lanes_report<
    'a,
    C: Fn(Similarity, Real) -> Correlated,
    W: Fn(FrameDelta, Components) -> Measured,
    A: Fn(Window) -> Ratio,
    X: Fn(Frames<'a>, bool) -> Outside,
    G: Fn(CheapMetrics) -> bool,
    B: Fn(Timestamp, StagedMetrics) -> bool,
    S: Fn(TimeRange) -> Vec<Selected>,
>(
    m: Model,
    frames: Frames<'a>,
    kit: Kit<C, W, A, X, G, B, S>,
    after: Model,
    event: Option<Event>,
    anew: bool,
) -> (told: (LaneCuts, Track))
    requires
        m.pushed(frames, kit, after, event),
        anew == (m.track.dims != Some(Model::size_of(frames))),
    ensures
        ({
            let (cuts, open) = told;
            let at = m.track.canonical(frames.time());
            let (contended, winner) = open.contended(m.options, cuts, at);
            &&& exists|f: Frames<'a>, seen: Outside|
                #![trigger kit.outside.ensures((f, anew), seen)]
                kit.outside.ensures((f, anew), seen) && shows(f, frames) && (if anew {
                    m.lanes.cleared()
                } else {
                    m.lanes
                }).ran(
                    m.options,
                    f,
                    kit.correlate,
                    kit.weigh,
                    kit.average,
                    seen,
                    after.lanes,
                    cuts,
                )
            &&& open.deferred == m.track.deferred
            &&& open.last_confirmed == m.track.last_confirmed
            &&& open.shot_start == if m.track.shot_start is Some {
                m.track.shot_start
            } else {
                Some(at)
            }
            &&& open.gate_anchor == if anew || m.track.gate_anchor is None {
                Some(at)
            } else {
                m.track.gate_anchor
            }
            &&& after.options == m.options
            &&& after.track.last_ts == Some(at)
            &&& after.track.deferred == contended.deferred
            &&& winner matches Some(b) ==> after.track.shot_start == Some(b.at)
                && after.track.last_confirmed == Some(b.at)
            &&& winner is None ==> after.track.shot_start == open.shot_start
                && after.track.last_confirmed == open.last_confirmed
        }),
{
    let (f, metrics, intake, seen, cuts, open, settled) = choose|
        f: Frames<'a>,
        metrics: StagedMetrics,
        intake: Intake,
        seen: Outside,
        cuts: LaneCuts,
        open: Track,
        settled: Track,
    | #[trigger]
        m.pushed_by(frames, kit, f, metrics, intake, seen, cuts, open, settled, after, event);
    assert(m.pushed_by(frames, kit, f, metrics, intake, seen, cuts, open, settled, after, event));
    let at = m.track.canonical(frames.time());
    let lag = lag_of(m.options);
    let size = Model::size_of(frames);
    assert(kit.outside.ensures((f, anew), seen));
    assert(shows(f, frames));
    let start = m.track.admitted(at, size, lag);
    let (contended, winner) = open.contended(m.options, cuts, at);
    if let Some(b) = winner {
        let w = choose|w: Track| #[trigger]
            contended.drained(b.at, kit.select, w) && settled == w.closed(b);
        assert(w.shot_start == contended.shot_start);
    }
    (cuts, open)
}

/// No shot of a stream outlives its cap: every frame at which the open shot has run for as long
/// as a scene may closes it, at an instant no later than the frame, where the next one starts.
pub proof fn every_frame_past_the_cap_closes_the_shot<
    'a,
    C: Fn(Similarity, Real) -> Correlated,
    W: Fn(FrameDelta, Components) -> Measured,
    A: Fn(Window) -> Ratio,
    X: Fn(Frames<'a>, bool) -> Outside,
    G: Fn(CheapMetrics) -> bool,
    B: Fn(Timestamp, StagedMetrics) -> bool,
    S: Fn(TimeRange) -> Vec<Selected>,
>(
    m: Model,
    frames: Frames<'a>,
    kit: Kit<C, W, A, X, G, B, S>,
    after: Model,
    event: Option<Event>,
    told: Seq<Event>,
    first: int,
    start: Timestamp,
    cap: Duration,
)
    requires
        on_track(m, told, first),
        sound_frame(frames),
        reports_past(kit.outside),
        m.track.fault(frames.time()) is None,
        m.pushed(frames, kit, after, event),
        m.track.shot_start == Some(start),
        m.options.max_scene_duration == Some(cap),
        min_length_met(m.track.canonical(frames.time()), start, cap),
    ensures
        after.track.last_confirmed matches Some(l) && after.track.shot_start == Some(l) && past(
            l,
            m.track.canonical(frames.time()),
        ),
{
    let (f, metrics, intake, seen, cuts, open, settled) = choose|
        f: Frames<'a>,
        metrics: StagedMetrics,
        intake: Intake,
        seen: Outside,
        cuts: LaneCuts,
        open: Track,
        settled: Track,
    | #[trigger]
        m.pushed_by(frames, kit, f, metrics, intake, seen, cuts, open, settled, after, event);
    assert(m.pushed_by(frames, kit, f, metrics, intake, seen, cuts, open, settled, after, event));
    let o = m.options;
    let lag = lag_of(o);
    let at = m.track.canonical(frames.time());
    let size = Model::size_of(frames);
    let lanes = if m.track.resets(size) {
        m.lanes.cleared()
    } else {
        m.lanes
    };
    lemma_canonical_past(m, frames, f);
    lemma_cleared_all(m.lanes, until(at));
    if let Some(l) = m.track.last_ts {
        relation_is_antisymmetric(l, at);
        lemma_past_stays(m.lanes, m.track.deferred, l, at);
    }
    lanes_report_what_they_saw(
        lanes,
        o,
        f,
        kit.correlate,
        kit.weigh,
        kit.average,
        seen,
        after.lanes,
        cuts,
        until(at),
    );
    a_shot_ends_in_order(open, o, cuts, at);
    no_shot_outlives_its_cap(open, o, cuts, at);
    let (contended, winner) = open.contended(o, cuts, at);
    let b = winner->0;
    let w = choose|w: Track| #[trigger]
        contended.drained(b.at, kit.select, w) && settled == w.closed(b);
    assert(w.shot_start == contended.shot_start);
}

} // verus!
