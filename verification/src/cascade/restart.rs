//! A cascade that was cleared, or has ended a stream, is as good as new.

use vstd::prelude::*;

use crate::adaptive;
use crate::adaptive::{Ratio, Window};
use crate::cascade::detector::{adaptive_ran, content_ran, Intake, Kit, Lanes, Model, Outside};
use crate::cascade::event::Event;
use crate::cascade::frames::Frames;
use crate::cascade::metrics::{CheapMetrics, StagedMetrics};
use crate::cascade::options::Options;
use crate::cascade::stream::{reports_past, run, run_from, sound_frame};
use crate::cascade::timeline::{Boundary, LaneCuts, Selected, Track};
use crate::content;
use crate::content::{Components, FrameDelta, Measured};
use crate::frame::HsvFrame;
use crate::histogram;
use crate::histogram::{Correlated, Similarity};
use crate::number::Real;
use crate::time::{TimeRange, Timestamp};

verus! {

/// Two histogram lanes run with the same options, or neither runs.
pub open spec fn alike_histogram(
    a: Option<histogram::Model>,
    b: Option<histogram::Model>,
) -> bool {
    match (a, b) {
        (Some(m), Some(n)) => m.options == n.options,
        (None, None) => true,
        _ => false,
    }
}

/// Two content lanes run with the same options, or neither runs.
pub open spec fn alike_content(a: Option<content::Model>, b: Option<content::Model>) -> bool {
    match (a, b) {
        (Some(m), Some(n)) => m.options == n.options,
        (None, None) => true,
        _ => false,
    }
}

/// Two adaptive lanes run with the same options, or neither runs.
pub open spec fn alike_adaptive(a: Option<adaptive::Model>, b: Option<adaptive::Model>) -> bool {
    match (a, b) {
        (Some(m), Some(n)) => m.options == n.options && m.inner.options == n.inner.options,
        (None, None) => true,
        _ => false,
    }
}

/// The same lanes run, with the same options.
pub open spec fn alike(a: Lanes, b: Lanes) -> bool {
    &&& alike_histogram(a.luma, b.luma)
    &&& alike_histogram(a.hue, b.hue)
    &&& alike_histogram(a.saturation, b.saturation)
    &&& alike_content(a.content, b.content)
    &&& alike_adaptive(a.adaptive, b.adaptive)
}

/// The lanes that the configuration names run, with their options.
pub open spec fn configured(m: Model) -> bool {
    alike(m.lanes, Model::fresh(m.options).lanes)
}

/// A frame leaves the options of the lanes.
pub proof fn lemma_ran_alike<
    C: Fn(Similarity, Real) -> Correlated,
    W: Fn(FrameDelta, Components) -> Measured,
    A: Fn(Window) -> Ratio,
>(
    l: Lanes,
    o: Options,
    f: Frames<'_>,
    correlate: C,
    weigh: W,
    average: A,
    seen: Outside,
    after: Lanes,
    cuts: LaneCuts,
)
    requires
        l.ran(o, f, correlate, weigh, average, seen, after, cuts),
    ensures
        alike(after, l),
{
    reveal(Lanes::ran);
}

/// A cascade is configured from the start, and every frame, refused or not, and
/// every restart leaves it so.
pub proof fn a_cascade_stays_configured<
    'a,
    C: Fn(Similarity, Real) -> Correlated,
    W: Fn(FrameDelta, Components) -> Measured,
    A: Fn(Window) -> Ratio,
    X: Fn(Frames<'a>, bool) -> Outside,
    G: Fn(CheapMetrics) -> bool,
    B: Fn(Timestamp, StagedMetrics) -> bool,
    S: Fn(TimeRange) -> Vec<Selected>,
>(
    m: Model,
    frames: Frames<'a>,
    kit: Kit<C, W, A, X, G, B, S>,
    after: Model,
    event: Option<Event>,
)
    ensures
        configured(Model::fresh(m.options)),
        configured(m) ==> configured(m.restarted()),
        configured(m) && m.pushed(frames, kit, after, event) ==> configured(after),
{
    if configured(m) && m.pushed(frames, kit, after, event) {
        let (f, metrics, intake, seen, cuts, open, settled) = choose|
            f: Frames<'a>,
            metrics: StagedMetrics,
            intake: Intake,
            seen: Outside,
            cuts: LaneCuts,
            open: Track,
            settled: Track,
        | #[trigger]
            m.pushed_by(frames, kit, f, metrics, intake, seen, cuts, open, settled, after, event);
        assert(m.pushed_by(
            frames,
            kit,
            f,
            metrics,
            intake,
            seen,
            cuts,
            open,
            settled,
            after,
            event,
        ));
        let lanes = if m.track.resets(Model::size_of(frames)) {
            m.lanes.cleared()
        } else {
            m.lanes
        };
        lemma_ran_alike(
            lanes,
            m.options,
            f,
            kit.correlate,
            kit.weigh,
            kit.average,
            seen,
            after.lanes,
            cuts,
        );
    }
}

/// A cleared content lane takes in a frame as a new one does.
proof fn lemma_content_as_new<W: Fn(FrameDelta, Components) -> Measured>(
    a: content::Model,
    b: content::Model,
    after: Option<content::Model>,
    frame: HsvFrame<'_>,
    weigh: W,
    threshold: Real,
    report: Option<Boundary>,
)
    requires
        a == (content::Model { width: a.width, height: a.height, ..b }),
        b == content::Model::fresh(b.options),
    ensures
        content_ran(Some(a), after, frame, weigh, threshold, report) == content_ran(
            Some(b),
            after,
            frame,
            weigh,
            threshold,
            report,
        ),
{
    assert(a.resized(frame.columns(), frame.rows()) == b.resized(frame.columns(), frame.rows()));
}

/// A cleared adaptive lane takes in a frame as a new one does.
proof fn lemma_adaptive_as_new<
    W: Fn(FrameDelta, Components) -> Measured,
    A: Fn(Window) -> Ratio,
>(
    a: adaptive::Model,
    b: adaptive::Model,
    after: Option<adaptive::Model>,
    frame: HsvFrame<'_>,
    weigh: W,
    average: A,
    report: Option<Boundary>,
)
    requires
        a == (adaptive::Model { inner: a.inner, ..b }),
        a.inner == (content::Model {
            width: a.inner.width,
            height: a.inner.height,
            ..content::Model::fresh(b.inner.options)
        }),
        b.inner == content::Model::fresh(b.inner.options),
    ensures
        adaptive_ran(Some(a), after, frame, weigh, average, report) == adaptive_ran(
            Some(b),
            after,
            frame,
            weigh,
            average,
            report,
        ),
{
    let w = frame.columns();
    let h = frame.rows();
    let m = a.inner.resized(w, h);
    assert(m == b.inner.resized(w, h));
    if adaptive_ran(Some(a), after, frame, weigh, average, report) {
        lemma_adaptive_carries(a, b, after->0, frame, weigh, average, report);
    }
    if adaptive_ran(Some(b), after, frame, weigh, average, report) {
        lemma_adaptive_carries(b, a, after->0, frame, weigh, average, report);
    }
}

/// What one adaptive lane does with a frame, another does that differs only in what
/// a frame of this size makes it forget.
proof fn lemma_adaptive_carries<
    W: Fn(FrameDelta, Components) -> Measured,
    A: Fn(Window) -> Ratio,
>(
    a: adaptive::Model,
    b: adaptive::Model,
    after: adaptive::Model,
    frame: HsvFrame<'_>,
    weigh: W,
    average: A,
    report: Option<Boundary>,
)
    requires
        a == (adaptive::Model { inner: a.inner, ..b }),
        a.inner.resized(frame.columns(), frame.rows()) == b.inner.resized(
            frame.columns(),
            frame.rows(),
        ),
        adaptive_ran(Some(a), Some(after), frame, weigh, average, report),
    ensures
        adaptive_ran(Some(b), Some(after), frame, weigh, average, report),
{
    let m = a.inner.resized(frame.columns(), frame.rows());
    let cut = match report {
        Some(r) => Some(r.at),
        None => None,
    };
    assert((adaptive::Model { inner: after.inner, ..a }) == (adaptive::Model {
        inner: after.inner,
        ..b
    }));
    assert(a.processed(m, m.hsv_planes(frame), frame.time(), weigh, average, after, cut));
    assert(b.processed(m, m.hsv_planes(frame), frame.time(), weigh, average, after, cut));
}

/// The lanes of a cascade that was cleared, or has ended a stream, do with a frame what
/// those of a new one do.
proof fn lemma_lanes_as_new<
    C: Fn(Similarity, Real) -> Correlated,
    W: Fn(FrameDelta, Components) -> Measured,
    A: Fn(Window) -> Ratio,
>(
    m: Model,
    f: Frames<'_>,
    correlate: C,
    weigh: W,
    average: A,
    seen: Outside,
    after: Lanes,
    cuts: LaneCuts,
)
    requires
        configured(m),
    ensures
        m.restarted().options == Model::fresh(m.options).options,
        m.restarted().track == Model::fresh(m.options).track,
        m.restarted().lanes.ran(m.options, f, correlate, weigh, average, seen, after, cuts)
            == Model::fresh(m.options).lanes.ran(
            m.options,
            f,
            correlate,
            weigh,
            average,
            seen,
            after,
            cuts,
        ),
{
    reveal(Lanes::ran);
    let a = m.restarted().lanes;
    let b = Model::fresh(m.options).lanes;
    let hsv = f.hsv_view();
    assert(a.luma == b.luma);
    assert(a.hue == b.hue);
    assert(a.saturation == b.saturation);
    if let (Some(x), Some(y)) = (a.content, b.content) {
        lemma_content_as_new(
            x,
            y,
            after.content,
            hsv,
            weigh,
            m.options.content.threshold,
            cuts.content,
        );
    }
    if let (Some(x), Some(y)) = (a.adaptive, b.adaptive) {
        lemma_adaptive_as_new(x, y, after.adaptive, hsv, weigh, average, cuts.adaptive);
    }
}

/// Clearing lanes again changes nothing, and new lanes are clear.
proof fn lemma_cleared_once(l: Lanes, o: Options)
    ensures
        l.cleared().cleared() == l.cleared(),
        Model::fresh(o).lanes.cleared() == Model::fresh(o).lanes,
{
    assert(l.cleared().cleared() =~= l.cleared());
    assert(Model::fresh(o).lanes.cleared() =~= Model::fresh(o).lanes);
}

/// What one cascade does with a frame, another does that starts with the same timeline
/// and with lanes that do the same.
proof fn lemma_push_carries<
    'a,
    C: Fn(Similarity, Real) -> Correlated,
    W: Fn(FrameDelta, Components) -> Measured,
    A: Fn(Window) -> Ratio,
    X: Fn(Frames<'a>, bool) -> Outside,
    G: Fn(CheapMetrics) -> bool,
    B: Fn(Timestamp, StagedMetrics) -> bool,
    S: Fn(TimeRange) -> Vec<Selected>,
>(
    m: Model,
    frames: Frames<'a>,
    kit: Kit<C, W, A, X, G, B, S>,
    after: Model,
    event: Option<Event>,
    forth: bool,
)
    requires
        configured(m),
        if forth {
            m.restarted().pushed(frames, kit, after, event)
        } else {
            Model::fresh(m.options).pushed(frames, kit, after, event)
        },
    ensures
        m.restarted().pushed(frames, kit, after, event),
        Model::fresh(m.options).pushed(frames, kit, after, event),
{
    let a = m.restarted();
    let b = Model::fresh(m.options);
    let from = if forth {
        a
    } else {
        b
    };
    let (f, metrics, intake, seen, cuts, open, settled) = choose|
        f: Frames<'a>,
        metrics: StagedMetrics,
        intake: Intake,
        seen: Outside,
        cuts: LaneCuts,
        open: Track,
        settled: Track,
    | #[trigger]
        from.pushed_by(frames, kit, f, metrics, intake, seen, cuts, open, settled, after, event);
    assert(from.pushed_by(
        frames,
        kit,
        f,
        metrics,
        intake,
        seen,
        cuts,
        open,
        settled,
        after,
        event,
    ));
    lemma_cleared_once(m.lanes, m.options);
    lemma_lanes_as_new(
        m,
        f,
        kit.correlate,
        kit.weigh,
        kit.average,
        seen,
        after.lanes,
        cuts,
    );
    assert(a.pushed_by(
        frames,
        kit,
        f,
        metrics,
        intake,
        seen,
        cuts,
        open,
        settled,
        after,
        event,
    ));
    assert(b.pushed_by(
        frames,
        kit,
        f,
        metrics,
        intake,
        seen,
        cuts,
        open,
        settled,
        after,
        event,
    ));
}

/// A cascade that was cleared, or has ended a stream, does with the next frame what a new
/// one does: it gives the same output, comes to the same state and refuses the same frames.
/// So all that follows is that of a new cascade.
pub proof fn a_restarted_cascade_is_as_new<
    'a,
    C: Fn(Similarity, Real) -> Correlated,
    W: Fn(FrameDelta, Components) -> Measured,
    A: Fn(Window) -> Ratio,
    X: Fn(Frames<'a>, bool) -> Outside,
    G: Fn(CheapMetrics) -> bool,
    B: Fn(Timestamp, StagedMetrics) -> bool,
    S: Fn(TimeRange) -> Vec<Selected>,
>(
    m: Model,
    frames: Frames<'a>,
    kit: Kit<C, W, A, X, G, B, S>,
    after: Model,
    event: Option<Event>,
)
    requires
        configured(m),
    ensures
        m.restarted().pushed(frames, kit, after, event) == Model::fresh(m.options).pushed(
            frames,
            kit,
            after,
            event,
        ),
        m.restarted().track == Model::fresh(m.options).track,
        m.restarted().options == m.options,
        m.restarted().track.fault(frames.time()) == Model::fresh(m.options).track.fault(
            frames.time(),
        ),
{
    if m.restarted().pushed(frames, kit, after, event) {
        lemma_push_carries(m, frames, kit, after, event, true);
    }
    if Model::fresh(m.options).pushed(frames, kit, after, event) {
        lemma_push_carries(m, frames, kit, after, event, false);
    }
}

/// A stream without a frame ends in nothing: a cascade that was cleared, or has ended a
/// stream, gives nothing at its end.
pub proof fn a_stream_without_frames_gives_nothing<S: Fn(TimeRange) -> Vec<Selected>>(
    m: Model,
    fade: Option<Boundary>,
    select: S,
    end: Track,
)
    requires
        m.restarted().track.finished(m.options, fade, select, end),
    ensures
        end.pending.len() == 0,
{
}

/// What a cascade does that was cleared, or has ended a stream, a new one does: every run
/// of the one is a run of the other, with the same outputs and the same states from the
/// first frame on. So what holds of the streams of a new cascade holds of the next ones.
pub proof fn a_restarted_run_is_that_of_a_new_cascade<
    'a,
    C: Fn(Similarity, Real) -> Correlated,
    W: Fn(FrameDelta, Components) -> Measured,
    A: Fn(Window) -> Ratio,
    X: Fn(Frames<'a>, bool) -> Outside,
    G: Fn(CheapMetrics) -> bool,
    B: Fn(Timestamp, StagedMetrics) -> bool,
    S: Fn(TimeRange) -> Vec<Selected>,
>(
    m: Model,
    frames: Seq<Frames<'a>>,
    kits: Seq<Kit<C, W, A, X, G, B, S>>,
    states: Seq<Model>,
    events: Seq<Option<Event>>,
)
    requires
        configured(m),
        run_from(m.restarted(), frames, kits, states, events),
    ensures
        run(m.options, frames, kits, states.update(0, Model::fresh(m.options)), events),
{
    let same = states.update(0, Model::fresh(m.options));
    assert forall|i: int| 0 <= i < frames.len() implies {
        &&& sound_frame(#[trigger] frames[i])
        &&& reports_past(kits[i].outside)
        &&& same[i].track.fault(frames[i].time()) is None
        &&& same[i].pushed(frames[i], kits[i], same[i + 1], events[i])
    } by {
        assert(same[i + 1] == states[i + 1]);
        if i == 0 {
            a_restarted_cascade_is_as_new(m, frames[0], kits[0], states[1], events[0]);
        }
    }
}

} // verus!
