//! What holds of a whole stream: its scenes tile it.

use vstd::prelude::*;

use crate::adaptive;
use crate::adaptive::{Ratio, Window};
use crate::cascade::detector::{
    adaptive_ran, content_ran, fade_boundary, histogram_ran, Fired, Intake, Kit, Lanes, Model,
    Outside,
};
use crate::cascade::event::{Event, HistogramPlane, Provenance, SceneEvent};
use crate::cascade::frames::Frames;
use crate::cascade::laws::{
    all_moving, cuts_keep_their_distance, named, picks_keep_scenes, scenes,
    scenes_are_never_shed, sorting_orders_by_time, the_earliest_wins_and_later_ones_wait,
};
use crate::cascade::metrics::{CheapMetrics, StagedMetrics};
use crate::cascade::options::{lag_of, Options};
use crate::cascade::rescale::{
    held_ticks, range_of, rescale_into_own_timebase_is_exact, rescale_is_monotone,
};
use crate::cascade::timeline::{gap_of, in_order, queued_all, Boundary, LaneCuts, Selected, Track};
use crate::content;
use crate::content::{Components, FrameDelta, Measured};
use crate::frame::HsvFrame;
use crate::histogram;
use crate::histogram::{Correlated, Similarity};
use crate::number::Real;
use crate::time::{
    min_length_met, moving, not_after_is_transitive, range_has_its_ends,
    relation_compares_instants, relation_is_antisymmetric, Duration, Relation, TimeRange,
    Timebase, Timestamp,
};

verus! {

/// `ts` lies no later than `now`, and its timebase moves.
pub open spec fn past(ts: Timestamp, now: Timestamp) -> bool {
    moving(ts) && ts.relation(now) != Relation::After
}

/// Time goes on.
proof fn lemma_past_goes_on(ts: Timestamp, now: Timestamp, later: Timestamp)
    requires
        past(ts, now),
        moving(now),
        past(now, later),
        moving(later),
    ensures
        past(ts, later),
{
    not_after_is_transitive(ts, now, later);
}

/// The instant of a proposed boundary, if there is one, has a property.
pub open spec fn proposed(b: Option<Boundary>, p: spec_fn(Timestamp) -> bool) -> bool {
    b matches Some(b) ==> p(b.at)
}

/// The instants that the lanes report have a property.
pub open spec fn cuts_all(c: LaneCuts, p: spec_fn(Timestamp) -> bool) -> bool {
    &&& proposed(c.fade, p)
    &&& proposed(c.luma, p)
    &&& proposed(c.hue, p)
    &&& proposed(c.saturation, p)
    &&& proposed(c.phash, p)
    &&& proposed(c.content, p)
    &&& proposed(c.adaptive, p)
}

/// The instant of an outside report, if there is one, has a property.
pub open spec fn fired(f: Option<Fired>, p: spec_fn(Timestamp) -> bool) -> bool {
    f matches Some(f) ==> p(f.at)
}

/// The instants of the scores in an adaptive window have a property.
pub open spec fn window_all(w: Seq<(Timestamp, Real)>, p: spec_fn(Timestamp) -> bool) -> bool {
    forall|i: int| 0 <= i < w.len() ==> p((#[trigger] w[i]).0)
}

/// The change that a merge would report has a property.
pub open spec fn merge_all(g: content::Gate, p: spec_fn(Timestamp) -> bool) -> bool {
    g.merge_triggered ==> (g.last_above matches Some(t) && p(t))
}

/// The instants that the lanes remember, and may yet report, have a property.
pub open spec fn lanes_all(l: Lanes, p: spec_fn(Timestamp) -> bool) -> bool {
    &&& l.content matches Some(m) ==> merge_all(m.gate, p)
    &&& l.adaptive matches Some(m) ==> window_all(m.window, p)
}

/// The instants of these boundaries have a property.
pub open spec fn all_at(s: Seq<Boundary>, p: spec_fn(Timestamp) -> bool) -> bool {
    forall|i: int| 0 <= i < s.len() ==> p((#[trigger] s[i]).at)
}

/// The instants no later than `now` on timebases that move.
pub open spec fn until(now: Timestamp) -> spec_fn(Timestamp) -> bool {
    |ts: Timestamp| past(ts, now)
}

/// What is remembered stays in the past.
pub proof fn lemma_past_stays(l: Lanes, s: Seq<Boundary>, now: Timestamp, later: Timestamp)
    requires
        lanes_all(l, until(now)),
        all_at(s, until(now)),
        moving(now),
        past(now, later),
        moving(later),
    ensures
        lanes_all(l, until(later)),
        all_at(s, until(later)),
{
    if let Some(m) = l.content {
        if m.gate.merge_triggered {
            lemma_past_goes_on(m.gate.last_above->0, now, later);
        }
    }
    if let Some(m) = l.adaptive {
        assert forall|i: int| 0 <= i < m.window.len() implies until(later)(
            (#[trigger] m.window[i]).0,
        ) by {
            assert(until(now)(m.window[i].0));
            lemma_past_goes_on(m.window[i].0, now, later);
        }
    }
    assert forall|i: int| 0 <= i < s.len() implies until(later)((#[trigger] s[i]).at) by {
        assert(until(now)(s[i].at));
        lemma_past_goes_on(s[i].at, now, later);
    }
}

/// A histogram lane cuts at the frame it is handed.
proof fn lemma_histogram_ran<C: Fn(Similarity, Real) -> Correlated>(
    before: Option<histogram::Model>,
    after: Option<histogram::Model>,
    bytes: Seq<u8>,
    w: int,
    h: int,
    stride: int,
    ts: Timestamp,
    correlate: C,
    plane: HistogramPlane,
    report: Option<Boundary>,
)
    requires
        histogram_ran(before, after, bytes, w, h, stride, ts, correlate, plane, report),
    ensures
        report matches Some(b) ==> b.at == ts && (b.provenance matches Provenance::Histogram(s)
            && s.plane == plane),
{
}

/// The content lane cuts at the frame it is handed, or at one before.
proof fn lemma_content_ran<W: Fn(FrameDelta, Components) -> Measured>(
    before: Option<content::Model>,
    after: Option<content::Model>,
    frame: HsvFrame<'_>,
    weigh: W,
    threshold: Real,
    report: Option<Boundary>,
    p: spec_fn(Timestamp) -> bool,
)
    requires
        content_ran(before, after, frame, weigh, threshold, report),
        before matches Some(m) ==> merge_all(m.gate, p),
        p(frame.time()),
    ensures
        after matches Some(m) ==> merge_all(m.gate, p),
        report matches Some(b) ==> p(b.at) && b.provenance is Content,
{
}

/// The adaptive lane cuts at a frame of its window.
proof fn lemma_adaptive_ran<
    W: Fn(FrameDelta, Components) -> Measured,
    A: Fn(Window) -> Ratio,
>(
    before: Option<adaptive::Model>,
    after: Option<adaptive::Model>,
    frame: HsvFrame<'_>,
    weigh: W,
    average: A,
    report: Option<Boundary>,
    p: spec_fn(Timestamp) -> bool,
)
    requires
        adaptive_ran(before, after, frame, weigh, average, report),
        before matches Some(m) ==> window_all(m.window, p),
        p(frame.time()),
    ensures
        after matches Some(m) ==> window_all(m.window, p),
        report matches Some(b) ==> p(b.at) && b.provenance is Adaptive,
{
    if let (Some(m), Some(n)) = (before, after) {
        let base = adaptive::Model { inner: n.inner, ..m };
        if !base.restarts() {
            let slid = base.slid(frame.time(), base.entering());
            let full = base.window.push((frame.time(), base.entering()));
            assert forall|i: int| 0 <= i < slid.len() implies p((#[trigger] slid[i]).0) by {
                let k = if full.len() > base.required() {
                    i + 1
                } else {
                    i
                };
                assert(slid[i] == full[k]);
                if k < m.window.len() {
                    assert(p(m.window[k].0));
                }
            }
        }
    }
}

/// Every report carries the name of its lane. Lanes report the instants of frames
/// they were handed: what holds of those holds of the reports, and of what the lanes
/// may yet report.
pub proof fn lanes_report_what_they_saw<
    C: Fn(Similarity, Real) -> Correlated,
    W: Fn(FrameDelta, Components) -> Measured,
    A: Fn(Window) -> Ratio,
>(
    l: Lanes,
    o: Options,
    f: Frames<'_>,
    correlate: C,
    weigh: W,
    average: A,
    seen: Outside,
    after: Lanes,
    cuts: LaneCuts,
    p: spec_fn(Timestamp) -> bool,
)
    requires
        l.ran(o, f, correlate, weigh, average, seen, after, cuts),
        lanes_all(l, p),
        p(f.time()),
        p(f.luma_view().time()),
        p(f.hsv_view().time()),
        fired(seen.fade, p),
        fired(seen.phash, p),
    ensures
        named(cuts),
        cuts_all(cuts, p),
        lanes_all(after, p),
{
    reveal(Lanes::ran);
    let luma = f.luma_view();
    let hsv = f.hsv_view();
    lemma_histogram_ran(
        l.luma,
        after.luma,
        luma.bytes(),
        luma.columns() as int,
        luma.rows() as int,
        luma.pitch() as int,
        luma.time(),
        correlate,
        HistogramPlane::Luma,
        cuts.luma,
    );
    lemma_histogram_ran(
        l.hue,
        after.hue,
        hsv.hue_bytes(),
        hsv.columns() as int,
        hsv.rows() as int,
        hsv.pitch() as int,
        f.time(),
        correlate,
        HistogramPlane::Hue,
        cuts.hue,
    );
    lemma_histogram_ran(
        l.saturation,
        after.saturation,
        hsv.saturation_bytes(),
        hsv.columns() as int,
        hsv.rows() as int,
        hsv.pitch() as int,
        f.time(),
        correlate,
        HistogramPlane::Saturation,
        cuts.saturation,
    );
    lemma_content_ran(
        l.content,
        after.content,
        hsv,
        weigh,
        o.content.threshold,
        cuts.content,
        p,
    );
    lemma_adaptive_ran(l.adaptive, after.adaptive, hsv, weigh, average, cuts.adaptive, p);
}

/// What holds of two sequences holds of both together.
proof fn lemma_all_concat(a: Seq<Boundary>, b: Seq<Boundary>, p: spec_fn(Timestamp) -> bool)
    requires
        all_at(a, p),
        all_at(b, p),
    ensures
        all_at(a + b, p),
{
    let s = a + b;
    assert forall|i: int| 0 <= i < s.len() implies p((#[trigger] s[i]).at) by {
        if i < a.len() {
            assert(s[i] == a[i]);
        } else {
            assert(s[i] == b[i - a.len()]);
        }
    }
}

/// What holds of all reports holds of those that contend.
proof fn lemma_reports_all(t: Track, o: Options, c: LaneCuts, p: spec_fn(Timestamp) -> bool)
    requires
        cuts_all(c, p),
    ensures
        all_at(t.reports(o, c), p),
{
    let fade = t.gated(c.fade, o.threshold.min_duration, o.threshold.initial_cut);
    let luma = t.gated(
        c.luma,
        o.luma_histogram.min_duration,
        o.luma_histogram.allow_initial_cut,
    );
    let hue = t.gated(c.hue, o.hue_histogram.min_duration, o.hue_histogram.allow_initial_cut);
    let sat = t.gated(c.saturation, o.sat_histogram.min_duration, o.sat_histogram.allow_initial_cut);
    let phash = t.gated(c.phash, o.phash.min_duration, o.phash.initial_cut);
    let content = t.gated(c.content, o.content.min_duration, o.content.initial_cut);
    let adaptive = t.gated(c.adaptive, o.adaptive.min_duration, o.adaptive.initial_cut);
    lemma_all_concat(fade, luma, p);
    lemma_all_concat(fade + luma, hue, p);
    lemma_all_concat(fade + luma + hue, sat, p);
    lemma_all_concat(fade + luma + hue + sat, phash, p);
    lemma_all_concat(fade + luma + hue + sat + phash, content, p);
    lemma_all_concat(fade + luma + hue + sat + phash + content, adaptive, p);
}

/// What holds of all deferred boundaries holds of those that contend.
proof fn lemma_survivors_all(
    t: Track,
    o: Options,
    s: Seq<Boundary>,
    p: spec_fn(Timestamp) -> bool,
)
    requires
        all_at(s, p),
    ensures
        all_at(t.survivors(o, s), p),
    decreases s.len(),
{
    if s.len() > 0 {
        let init = s.drop_last();
        assert forall|i: int| 0 <= i < init.len() implies p((#[trigger] init[i]).at) by {
            assert(p(s[i].at));
        }
        lemma_survivors_all(t, o, init, p);
        assert(p(s[s.len() - 1].at));
        let kept = t.survivors(o, init);
        let all = t.survivors(o, s);
        assert forall|i: int| 0 <= i < all.len() implies p((#[trigger] all[i]).at) by {
            if i < kept.len() {
                assert(all[i] == kept[i]);
            }
        }
    }
}

/// What holds of the reports, of the deferred boundaries and of the frame holds of
/// all that contends.
pub proof fn lemma_contenders_all(
    t: Track,
    o: Options,
    c: LaneCuts,
    ts: Timestamp,
    p: spec_fn(Timestamp) -> bool,
)
    requires
        cuts_all(c, p),
        all_at(t.deferred, p),
        p(ts),
    ensures
        all_at(t.contenders(o, c, ts), p),
{
    let all = t.contenders(o, c, ts);
    let r = t.reports(o, c);
    let d = t.survivors(o, t.deferred);
    lemma_reports_all(t, o, c, p);
    lemma_survivors_all(t, o, t.deferred, p);
    lemma_all_concat(r, d, p);
    assert forall|i: int| 0 <= i < all.len() implies p((#[trigger] all[i]).at) by {
        if i < r.len() + d.len() {
            assert(all[i] == (r + d)[i]);
        } else {
            assert(Some(all[i]) == t.split(o, ts));
        }
    }
}

/// What holds of all that contends holds of the boundary that wins, and of what is
/// deferred.
pub proof fn lemma_contended_all(
    t: Track,
    o: Options,
    c: LaneCuts,
    ts: Timestamp,
    p: spec_fn(Timestamp) -> bool,
)
    requires
        all_at(t.contenders(o, c, ts), p),
        all_moving(t.contenders(o, c, ts)),
    ensures
        all_at(t.contended(o, c, ts).0.deferred, p),
        proposed(t.contended(o, c, ts).1, p),
{
    let all = t.contenders(o, c, ts);
    the_earliest_wins_and_later_ones_wait(t, o, c, ts);
    let (after, winner) = t.contended(o, c, ts);
    assert forall|i: int| 0 <= i < after.deferred.len() implies p(
        (#[trigger] after.deferred[i]).at,
    ) by {
        let e = after.deferred[i];
        assert(after.deferred.contains(e));
        assert(all.contains(e));
        let k = choose|k: int| 0 <= k < all.len() && all[k] == e;
        assert(p(all[k].at));
    }
    if let Some(b) = winner {
        assert(all.contains(b));
        let k = choose|k: int| 0 <= k < all.len() && all[k] == b;
        assert(p(all[k].at));
    }
}

/// A shot is closed no earlier than it started and no later than the frame, and
/// what is deferred lies in the past.
pub proof fn a_shot_ends_in_order(t: Track, o: Options, c: LaneCuts, ts: Timestamp)
    requires
        named(c),
        cuts_all(c, until(ts)),
        all_at(t.deferred, until(ts)),
        moving(ts),
        t.shot_start matches Some(s) ==> moving(s),
    ensures
        all_moving(t.contenders(o, c, ts)),
        ({
            let (after, winner) = t.contended(o, c, ts);
            &&& all_at(after.deferred, until(ts))
            &&& winner matches Some(b) ==> {
                &&& past(b.at, ts)
                &&& t.shot_start matches Some(s) ==> past(s, b.at)
            }
        }),
{
    let all = t.contenders(o, c, ts);
    assert(until(ts)(ts));
    lemma_contenders_all(t, o, c, ts, until(ts));
    assert(all_moving(all)) by {
        assert forall|i: int| 0 <= i < all.len() implies moving((#[trigger] all[i]).at) by {
            assert(until(ts)(all[i].at));
        }
    }
    lemma_contended_all(t, o, c, ts, until(ts));
    if let Some(b) = t.contended(o, c, ts).1 {
        cuts_keep_their_distance(t, o, c, ts);
        if let Some(s) = t.shot_start {
            relation_is_antisymmetric(s, b.at);
            if b.provenance is MaxSpan {
                lemma_met_means_not_before(b.at, s, o.max_scene_duration->0);
            }
        }
    }
}

/// Where time has passed, the later instant is not before the earlier one.
proof fn lemma_met_means_not_before(ts: Timestamp, start: Timestamp, min: Duration)
    requires
        moving(ts),
        moving(start),
        min_length_met(ts, start, min),
    ensures
        start.relation(ts) != Relation::After,
{
    relation_compares_instants(start, ts);
}

/// The scenes follow each other without gap or overlap, from tick `from` to tick
/// `to` of the timebase of the stream, and each holds a tick.
pub open spec fn tiles(s: Seq<Event>, from: int, to: int, tb: Timebase) -> bool
    decreases s.len(),
{
    if s.len() == 0 {
        from == to
    } else {
        match s.last() {
            Event::Scene(e) => {
                &&& e.range.base() == tb
                &&& e.range.first() < e.range.past()
                &&& e.range.past() == to
                &&& tiles(s.drop_last(), from, e.range.first(), tb)
            },
            Event::Keyframe(_) => false,
        }
    }
}

/// The scenes of two queues, one behind the other.
proof fn lemma_scenes_concat(a: Seq<Event>, b: Seq<Event>)
    ensures
        scenes(a + b) == scenes(a) + scenes(b),
    decreases a.len(),
{
    if a.len() == 0 {
        assert(a + b =~= b);
        assert(scenes(a) + scenes(b) =~= scenes(b));
    } else {
        lemma_scenes_concat(a.drop_first(), b);
        assert((a + b).drop_first() =~= a.drop_first() + b);
        assert(scenes(a + b) =~= scenes(a) + scenes(b));
    }
}

/// The scenes told of, and those that wait, tile the stream from its first tick to
/// the start of the open shot, which lies no later than `now`.
pub open spec fn shots_tile(
    t: Track,
    told: Seq<Event>,
    first: int,
    tb: Timebase,
    now: Timestamp,
) -> bool {
    &&& t.stream_timebase == Some(tb)
    &&& t.shot_start matches Some(s) && past(s, now) && tiles(
        scenes(told + t.pending),
        first,
        held_ticks(s, tb),
        tb,
    )
}

/// Closing a keyframe window leaves the shots.
proof fn lemma_drained_tile<S: Fn(TimeRange) -> Vec<Selected>>(
    t: Track,
    point: Timestamp,
    select: S,
    after: Track,
    told: Seq<Event>,
    first: int,
    tb: Timebase,
    now: Timestamp,
)
    requires
        shots_tile(t, told, first, tb, now),
        t.drained(point, select, after),
    ensures
        shots_tile(after, told, first, tb, now),
        after.shot_start == t.shot_start,
        after.deferred == t.deferred,
        after.last_ts == t.last_ts,
{
    lemma_scenes_concat(told, t.pending);
    lemma_scenes_concat(told, after.pending);
    if let Some(r) = t.window_to(point) {
        let v = choose|v: Vec<Selected>| #[trigger]
            select.ensures((r,), v) && after == (Track {
                pending: queued_all(t.pending, v@),
                ..t
            }).reanchored(point);
        picks_keep_scenes(t.pending, v@);
    }
}

/// Closing a shot, no earlier than it started, lays the next tile.
proof fn lemma_closed_tile(
    t: Track,
    b: Boundary,
    told: Seq<Event>,
    first: int,
    tb: Timebase,
    now: Timestamp,
    end: Timestamp,
)
    requires
        shots_tile(t, told, first, tb, now),
        tb.valid(),
        tb.numerator() > 0,
        moving(b.at),
        t.shot_start matches Some(s) ==> past(s, b.at),
        past(b.at, end),
    ensures
        shots_tile(t.closed(b), told, first, tb, end),
        t.closed(b).deferred == t.deferred,
        t.closed(b).last_ts == t.last_ts,
        t.closed(b).shot_start == Some(b.at),
{
    let start = t.shot_start->0;
    rescale_is_monotone(start, b.at, tb);
    lemma_scenes_concat(told, t.pending);
    lemma_scenes_concat(told, t.closed(b).pending);
    if let Some(range) = range_of(start, b.at, tb) {
        let e = Event::Scene(SceneEvent { range, provenance: b.provenance });
        scenes_are_never_shed(t.pending, e);
        range_has_its_ends(held_ticks(start, tb), held_ticks(b.at, tb), tb);
        let s = scenes(told + t.pending);
        assert(scenes(told) + scenes(t.pending).push(e) =~= s.push(e));
        assert(s.push(e).drop_last() =~= s);
    }
}

/// Taking the oldest output from the queue moves it to what is told.
pub open spec fn told_after(told: Seq<Event>, event: Option<Event>) -> Seq<Event> {
    match event {
        Some(e) => told.push(e),
        None => told,
    }
}

/// What holds of a cascade between two frames, where `told` are the outputs it has
/// given: nothing has begun, or the scenes tile the stream so far.
pub open spec fn on_track(m: Model, told: Seq<Event>, first: int) -> bool {
    match m.track.stream_timebase {
        None => {
            &&& told.len() == 0
            &&& m.track.pending.len() == 0
            &&& m.track.deferred.len() == 0
            &&& m.track.shot_start is None
            &&& m.track.last_ts is None
            &&& m.track.last_finalize is None
            &&& m.track.recent.len() == 0
            &&& forall|p: spec_fn(Timestamp) -> bool| #[trigger] lanes_all(m.lanes, p)
        },
        Some(tb) => {
            &&& tb.valid()
            &&& tb.numerator() > 0
            &&& m.track.last_ts matches Some(l) && {
                &&& l.base() == tb
                &&& l.ticks() < i64::MAX
                &&& all_at(m.track.deferred, until(l))
                &&& lanes_all(m.lanes, until(l))
                &&& shots_tile(m.track, told, first, tb, l)
            }
        },
    }
}

/// The views of a frame agree, and their timebases move.
pub open spec fn sound_frame(f: Frames<'_>) -> bool {
    &&& f.valid()
    &&& moving(f.time())
    &&& moving(f.luma_view().time())
    &&& moving(f.hsv_view().time())
}

/// The outside lanes report nothing later than the frame.
pub open spec fn reports_past<'a, X: Fn(Frames<'a>, bool) -> Outside>(outside: X) -> bool {
    forall|f: Frames<'a>, r: bool, o: Outside| #[trigger]
        outside.ensures((f, r), o) ==> fired(o.fade, until(f.time())) && fired(
            o.phash,
            until(f.time()),
        )
}

/// A cascade that has seen no frame is on track.
pub proof fn a_new_cascade_is_on_track(o: Options, first: int)
    ensures
        on_track(Model::fresh(o), Seq::empty(), first),
{
}

/// Letting a frame in leaves the shots, or opens the first one.
proof fn lemma_admitted_tile(
    t: Track,
    at: Timestamp,
    dims: (u32, u32),
    lag: int,
    told: Seq<Event>,
    first: int,
)
    requires
        moving(at),
        match t.stream_timebase {
            None => {
                &&& told.len() == 0
                &&& t.pending.len() == 0
                &&& t.shot_start is None
                &&& first == at.ticks()
            },
            Some(tb) => {
                &&& t.last_ts matches Some(l) && moving(l) && past(l, at) && shots_tile(
                    t,
                    told,
                    first,
                    tb,
                    l,
                )
                &&& at.base() == tb
            },
        },
    ensures
        shots_tile(t.admitted(at, dims, lag), told, first, at.base(), at),
        t.admitted(at, dims, lag).deferred == t.deferred,
        t.admitted(at, dims, lag).last_ts == Some(at),
{
    let after = t.admitted(at, dims, lag);
    match t.stream_timebase {
        None => {
            rescale_into_own_timebase_is_exact(at, at.base());
            assert(told + after.pending =~= Seq::empty());
        },
        Some(tb) => {
            lemma_past_goes_on(t.shot_start->0, t.last_ts->0, at);
        },
    }
}

/// Handing a frame to the keyframe selection leaves the shots.
proof fn lemma_observed_tile<
    B: Fn(Timestamp, StagedMetrics) -> bool,
    S: Fn(TimeRange) -> Vec<Selected>,
>(
    t: Track,
    at: Timestamp,
    lag: int,
    metrics: StagedMetrics,
    intake: Intake,
    observe: B,
    select: S,
    after: Track,
    told: Seq<Event>,
    first: int,
)
    requires
        shots_tile(t, told, first, at.base(), at),
        Model::observed(t, at, lag, metrics, intake, observe, select, after),
    ensures
        shots_tile(after, told, first, at.base(), at),
        after.deferred == t.deferred,
        after.last_ts == t.last_ts,
        after.shot_start == t.shot_start,
{
    if !intake.taken {
        let point = match t.safe_horizon(at, lag) {
            Some(safe) => safe,
            None => at,
        };
        lemma_drained_tile(t, point, select, after, told, first, at.base(), at);
    }
}

/// Settling a boundary lays the next tile.
proof fn lemma_settled_tile<S: Fn(TimeRange) -> Vec<Selected>>(
    t: Track,
    o: Options,
    b: Option<Boundary>,
    at: Timestamp,
    lag: int,
    select: S,
    after: Track,
    told: Seq<Event>,
    first: int,
)
    requires
        moving(at),
        shots_tile(t, told, first, at.base(), at),
        t.settled(o, b, at, lag, select, after),
        b matches Some(b) ==> past(b.at, at) && (t.shot_start matches Some(s) ==> past(s, b.at)),
    ensures
        shots_tile(after, told, first, at.base(), at),
        after.deferred == t.deferred,
        after.last_ts == t.last_ts,
{
    let tb = at.base();
    match b {
        Some(b) => {
            let w = choose|w: Track| #[trigger]
                t.drained(b.at, select, w) && after == w.closed(b);
            lemma_drained_tile(t, b.at, select, w, told, first, tb, at);
            lemma_closed_tile(w, b, told, first, tb, at, at);
        },
        None => {
            if let Some(p) = t.window_end(o, at, lag) {
                lemma_drained_tile(t, p, select, after, told, first, tb, at);
            }
        },
    }
}

/// The views of a frame in the timebase of the stream lie at one instant.
pub proof fn lemma_canonical_past(m: Model, frames: Frames<'_>, f: Frames<'_>)
    requires
        sound_frame(frames),
        m.canonical(frames, f),
        m.track.stream_timebase matches Some(tb) ==> tb.valid() && tb.numerator() > 0,
    ensures
        ({
            let at = m.track.canonical(frames.time());
            &&& moving(at)
            &&& f.time() == at
            &&& past(f.time(), at)
            &&& past(f.luma_view().time(), at)
            &&& past(f.hsv_view().time(), at)
        }),
{
    relation_is_antisymmetric(frames.time(), frames.luma_view().time());
    relation_is_antisymmetric(frames.time(), frames.hsv_view().time());
}

/// A new frame size leaves lanes with nothing to report.
pub proof fn lemma_cleared_all(l: Lanes, p: spec_fn(Timestamp) -> bool)
    ensures
        lanes_all(l.cleared(), p),
{
}

/// A frame keeps the cascade on track: with every output, the scenes tile the
/// stream from its first frame to the start of the open shot, and that lies no
/// later than the last frame.
pub proof fn a_frame_keeps_the_track<
    'a,
    C: Fn(Similarity, Real) -> Correlated,
    W: Fn(FrameDelta, Components) -> Measured,
    A: Fn(Window) -> Ratio,
    X: Fn(Frames<'a>, bool) -> Outside,
    G: Fn(CheapMetrics) -> bool,
    B: Fn(Timestamp, StagedMetrics) -> bool,
    S: Fn(TimeRange) -> Vec<Selected>,
>(
    m: Model,
    frames: Frames<'a>,
    kit: Kit<C, W, A, X, G, B, S>,
    after: Model,
    event: Option<Event>,
    told: Seq<Event>,
    first: int,
)
    requires
        on_track(m, told, first),
        sound_frame(frames),
        reports_past(kit.outside),
        m.track.fault(frames.time()) is None,
        m.pushed(frames, kit, after, event),
        m.track.stream_timebase is None ==> first == frames.time().ticks(),
    ensures
        on_track(after, told_after(told, event), first),
        after.track.stream_timebase == Some(m.track.canonical(frames.time()).base()),
        after.track.last_ts == Some(m.track.canonical(frames.time())),
{
    let (f, metrics, intake, seen, cuts, open, settled) = choose|
        f: Frames<'a>,
        metrics: StagedMetrics,
        intake: Intake,
        seen: Outside,
        cuts: LaneCuts,
        open: Track,
        settled: Track,
    | #[trigger]
        m.pushed_by(frames, kit, f, metrics, intake, seen, cuts, open, settled, after, event);
    assert(m.pushed_by(frames, kit, f, metrics, intake, seen, cuts, open, settled, after, event));
    let o = m.options;
    let lag = lag_of(o);
    let at = m.track.canonical(frames.time());
    let tb = at.base();
    let size = Model::size_of(frames);
    let start = m.track.admitted(at, size, lag);
    let lanes = if m.track.resets(size) {
        m.lanes.cleared()
    } else {
        m.lanes
    };
    lemma_canonical_past(m, frames, f);
    lemma_cleared_all(m.lanes, until(at));
    if let Some(l) = m.track.last_ts {
        relation_is_antisymmetric(l, at);
        lemma_past_stays(m.lanes, m.track.deferred, l, at);
    }
    lemma_admitted_tile(m.track, at, size, lag, told, first);
    lemma_observed_tile(
        start,
        at,
        lag,
        metrics,
        intake,
        kit.observe,
        kit.select,
        open,
        told,
        first,
    );
    lanes_report_what_they_saw(
        lanes,
        o,
        f,
        kit.correlate,
        kit.weigh,
        kit.average,
        seen,
        after.lanes,
        cuts,
        until(at),
    );
    a_shot_ends_in_order(open, o, cuts, at);
    let (contended, boundary) = open.contended(o, cuts, at);
    lemma_settled_tile(contended, o, boundary, at, lag, kit.select, settled, told, first);
    if settled.pending.len() > 0 {
        assert(told.push(settled.pending[0]) + settled.pending.drop_first() =~= told
            + settled.pending);
    }
}

/// A boundary that is owed at the end lays a tile, or is passed over.
proof fn lemma_owed_step_tile<S: Fn(TimeRange) -> Vec<Selected>>(
    t: Track,
    o: Options,
    b: Boundary,
    select: S,
    after: Track,
    told: Seq<Event>,
    first: int,
    tb: Timebase,
    now: Timestamp,
)
    requires
        tb.valid(),
        tb.numerator() > 0,
        shots_tile(t, told, first, tb, now),
        t.owed_step(o, b, select, after),
        past(b.at, now),
    ensures
        shots_tile(after, told, first, tb, now),
        after.last_ts == t.last_ts,
{
    if let Some(b) = t.revalidated(o, b) {
        if t.admissible(b.at, gap_of(o, b.provenance), false) {
            let w = choose|w: Track| #[trigger]
                t.drained(b.at, select, w) && after == w.closed(b);
            lemma_drained_tile(t, b.at, select, w, told, first, tb, now);
            relation_is_antisymmetric(t.shot_start->0, b.at);
            lemma_closed_tile(w, b, told, first, tb, now, now);
        }
    }
}

/// The boundaries that are owed at the end lay their tiles one after the other.
proof fn lemma_owed_trace_tile<S: Fn(TimeRange) -> Vec<Selected>>(
    t: Track,
    o: Options,
    s: Seq<Boundary>,
    select: S,
    states: Seq<Track>,
    k: int,
    told: Seq<Event>,
    first: int,
    tb: Timebase,
    now: Timestamp,
)
    requires
        tb.valid(),
        tb.numerator() > 0,
        shots_tile(t, told, first, tb, now),
        t.owed_trace(o, s, select, states),
        all_at(s, until(now)),
        0 <= k <= s.len(),
    ensures
        shots_tile(states[k], told, first, tb, now),
        states[k].last_ts == t.last_ts,
    decreases k,
{
    if k > 0 {
        lemma_owed_trace_tile(t, o, s, select, states, k - 1, told, first, tb, now);
        assert(states[k - 1].owed_step(o, s[k - 1], select, states[k - 1 + 1]));
        assert(until(now)(s[k - 1].at));
        lemma_owed_step_tile(
            states[k - 1],
            o,
            s[k - 1],
            select,
            states[k],
            told,
            first,
            tb,
            now,
        );
    }
}

/// What holds of the deferred boundaries and of the fade at the end holds of all
/// that is owed.
pub proof fn lemma_owed_all(
    t: Track,
    o: Options,
    fade: Option<Boundary>,
    p: spec_fn(Timestamp) -> bool,
    now: Timestamp,
)
    requires
        all_at(t.deferred, p),
        proposed(fade, p),
        all_at(t.deferred, until(now)),
        proposed(fade, until(now)),
    ensures
        all_at(t.owed(o, fade), p),
{
    let s = match fade {
        Some(f) => if t.fade_stands(o, f.at) {
            t.deferred.push(f)
        } else {
            t.deferred
        },
        None => t.deferred,
    };
    assert(t.owed(o, fade) == in_order(s));
    assert forall|i: int| 0 <= i < s.len() implies p((#[trigger] s[i]).at) && until(now)(
        s[i].at,
    ) by {
        if i < t.deferred.len() {
            assert(s[i] == t.deferred[i]);
        }
    }
    assert(all_moving(s)) by {
        assert forall|i: int| 0 <= i < s.len() implies moving((#[trigger] s[i]).at) by {
            assert(until(now)(s[i].at));
        }
    }
    sorting_orders_by_time(s);
    let sorted = in_order(s);
    assert forall|i: int| 0 <= i < sorted.len() implies p((#[trigger] sorted[i]).at) by {
        assert(sorted.contains(sorted[i]));
        assert(s.contains(sorted[i]));
        let k = choose|k: int| 0 <= k < s.len() && s[k] == sorted[i];
        assert(p(s[k].at));
    }
}

/// The end of a stream lays the last tile: it ends one tick past the last frame.
pub proof fn the_end_completes_the_tiling<S: Fn(TimeRange) -> Vec<Selected>>(
    m: Model,
    fade: Option<Fired>,
    select: S,
    end: Track,
    told: Seq<Event>,
    first: int,
)
    requires
        on_track(m, told, first),
        m.track.stream_timebase is Some,
        fired(fade, until(m.track.last_ts->0)),
        m.track.finished(m.options, fade_boundary(m.options, fade), select, end),
    ensures
        tiles(
            scenes(told + end.pending),
            first,
            m.track.last_ts->0.ticks() + 1,
            m.track.stream_timebase->0,
        ),
{
    let o = m.options;
    let t = m.track;
    let tb = t.stream_timebase->0;
    let last = t.last_ts->0;
    let b = fade_boundary(o, fade);
    let closing = t.last_boundary()->0;
    let base = Track { deferred: Seq::empty(), ..t };
    let (mid, w) = choose|mid: Track, w: Track|
        #![trigger mid.drained(closing.at, select, w)]
        base.owed_steps(o, t.owed(o, b), select, mid) && mid.drained(closing.at, select, w) && end
            == w.closed(closing);
    let states = choose|states: Seq<Track>| #[trigger]
        base.owed_trace(o, t.owed(o, b), select, states) && states.last() == mid;
    lemma_owed_all(t, o, b, until(last), last);
    lemma_owed_trace_tile(
        base,
        o,
        t.owed(o, b),
        select,
        states,
        t.owed(o, b).len() as int,
        told,
        first,
        tb,
        last,
    );
    lemma_drained_tile(mid, closing.at, select, w, told, first, tb, last);
    lemma_past_goes_on(w.shot_start->0, last, closing.at);
    lemma_closed_tile(w, closing, told, first, tb, last, closing.at);
    rescale_into_own_timebase_is_exact(closing.at, tb);
}

/// The outputs of a run, in order.
pub open spec fn outputs(events: Seq<Option<Event>>) -> Seq<Event>
    decreases events.len(),
{
    if events.len() == 0 {
        Seq::empty()
    } else {
        told_after(outputs(events.drop_last()), events.last())
    }
}

/// A cascade in the state `start` takes in one frame after the other: `states` holds the state before
/// each and after the last, `events` what each gives.
pub open spec fn run_from<
    'a,
    C: Fn(Similarity, Real) -> Correlated,
    W: Fn(FrameDelta, Components) -> Measured,
    A: Fn(Window) -> Ratio,
    X: Fn(Frames<'a>, bool) -> Outside,
    G: Fn(CheapMetrics) -> bool,
    B: Fn(Timestamp, StagedMetrics) -> bool,
    S: Fn(TimeRange) -> Vec<Selected>,
>(
    start: Model,
    frames: Seq<Frames<'a>>,
    kits: Seq<Kit<C, W, A, X, G, B, S>>,
    states: Seq<Model>,
    events: Seq<Option<Event>>,
) -> bool {
    &&& kits.len() == frames.len()
    &&& events.len() == frames.len()
    &&& states.len() == frames.len() + 1
    &&& states[0] == start
    &&& forall|i: int|
        0 <= i < frames.len() ==> {
            &&& sound_frame(#[trigger] frames[i])
            &&& reports_past(kits[i].outside)
            &&& states[i].track.fault(frames[i].time()) is None
            &&& states[i].pushed(frames[i], kits[i], states[i + 1], events[i])
        }
}

/// A new cascade takes in one frame after the other.
pub open spec fn run<
    'a,
    C: Fn(Similarity, Real) -> Correlated,
    W: Fn(FrameDelta, Components) -> Measured,
    A: Fn(Window) -> Ratio,
    X: Fn(Frames<'a>, bool) -> Outside,
    G: Fn(CheapMetrics) -> bool,
    B: Fn(Timestamp, StagedMetrics) -> bool,
    S: Fn(TimeRange) -> Vec<Selected>,
>(
    o: Options,
    frames: Seq<Frames<'a>>,
    kits: Seq<Kit<C, W, A, X, G, B, S>>,
    states: Seq<Model>,
    events: Seq<Option<Event>>,
) -> bool {
    run_from(Model::fresh(o), frames, kits, states, events)
}

/// A run stays on track.
pub proof fn a_run_stays_on_track<
    'a,
    C: Fn(Similarity, Real) -> Correlated,
    W: Fn(FrameDelta, Components) -> Measured,
    A: Fn(Window) -> Ratio,
    X: Fn(Frames<'a>, bool) -> Outside,
    G: Fn(CheapMetrics) -> bool,
    B: Fn(Timestamp, StagedMetrics) -> bool,
    S: Fn(TimeRange) -> Vec<Selected>,
>(
    o: Options,
    frames: Seq<Frames<'a>>,
    kits: Seq<Kit<C, W, A, X, G, B, S>>,
    states: Seq<Model>,
    events: Seq<Option<Event>>,
    k: int,
)
    requires
        run(o, frames, kits, states, events),
        0 <= k <= frames.len(),
    ensures
        on_track(states[k], outputs(events.take(k)), frames[0].time().ticks()),
        states[k].options == o,
        k > 0 ==> states[k].track.stream_timebase == Some(frames[0].time().base()),
    decreases k,
{
    let first = frames[0].time().ticks();
    if k == 0 {
        a_new_cascade_is_on_track(o, first);
        assert(events.take(0) =~= Seq::empty());
    } else {
        a_run_stays_on_track(o, frames, kits, states, events, k - 1);
        assert(sound_frame(frames[k - 1]));
        a_frame_keeps_the_track(
            states[k - 1],
            frames[k - 1],
            kits[k - 1],
            states[k],
            events[k - 1],
            outputs(events.take(k - 1)),
            first,
        );
        assert(events.take(k).drop_last() =~= events.take(k - 1));
        assert(events.take(k).last() == events[k - 1]);
    }
}

/// The scenes of a stream tile it: with the outputs of every frame and of the end
/// taken together, in order, the scenes follow each other without gap or overlap,
/// from the first frame to one tick past the last, in the timebase of the first.
pub proof fn the_scenes_tile_the_stream<
    'a,
    C: Fn(Similarity, Real) -> Correlated,
    W: Fn(FrameDelta, Components) -> Measured,
    A: Fn(Window) -> Ratio,
    X: Fn(Frames<'a>, bool) -> Outside,
    G: Fn(CheapMetrics) -> bool,
    B: Fn(Timestamp, StagedMetrics) -> bool,
    S: Fn(TimeRange) -> Vec<Selected>,
    E: Fn(TimeRange) -> Vec<Selected>,
>(
    o: Options,
    frames: Seq<Frames<'a>>,
    kits: Seq<Kit<C, W, A, X, G, B, S>>,
    states: Seq<Model>,
    events: Seq<Option<Event>>,
    fade: Option<Fired>,
    select: E,
    end: Track,
)
    requires
        frames.len() > 0,
        run(o, frames, kits, states, events),
        fired(fade, until(states.last().track.last_ts->0)),
        states.last().track.finished(o, fade_boundary(o, fade), select, end),
    ensures
        tiles(
            scenes(outputs(events) + end.pending),
            frames[0].time().ticks(),
            states.last().track.last_ts->0.ticks() + 1,
            frames[0].time().base(),
        ),
{
    let n = frames.len() as int;
    a_run_stays_on_track(o, frames, kits, states, events, n);
    assert(events.take(n) =~= events);
    the_end_completes_the_tiling(
        states.last(),
        fade,
        select,
        end,
        outputs(events),
        frames[0].time().ticks(),
    );
}

/// Whether a tick lies in a scene.
pub open spec fn scene_holds(e: Event, tick: int) -> bool {
    e matches Event::Scene(s) && s.range.first() <= tick < s.range.past()
}

/// Where scenes tile a stretch, every tick of it lies in one scene and in no other:
/// an instant finds its scene by its timestamp alone.
pub proof fn every_tick_has_one_scene(
    s: Seq<Event>,
    from: int,
    to: int,
    tb: Timebase,
    tick: int,
) -> (i: int)
    requires
        tiles(s, from, to, tb),
        from <= tick < to,
    ensures
        0 <= i < s.len(),
        scene_holds(s[i], tick),
        forall|j: int| 0 <= j < s.len() && #[trigger] scene_holds(s[j], tick) ==> j == i,
    decreases s.len(),
{
    let n = s.len() as int;
    let e = s.last()->Scene_0;
    let init = s.drop_last();
    lemma_tiles_stay_within(init, from, e.range.first(), tb);
    if e.range.first() <= tick {
        assert forall|j: int| 0 <= j < n && #[trigger] scene_holds(s[j], tick) implies j == n
            - 1 by {
            if j < n - 1 {
                assert(init[j] == s[j]);
            }
        }
        n - 1
    } else {
        let i = every_tick_has_one_scene(init, from, e.range.first(), tb, tick);
        assert forall|j: int| 0 <= j < n && #[trigger] scene_holds(s[j], tick) implies j == i by {
            if j < n - 1 {
                assert(init[j] == s[j]);
            }
        }
        i
    }
}

/// Tiles stay within their stretch.
proof fn lemma_tiles_stay_within(s: Seq<Event>, from: int, to: int, tb: Timebase)
    requires
        tiles(s, from, to, tb),
    ensures
        from <= to,
        forall|j: int| 0 <= j < s.len() ==> ((#[trigger] s[j]) matches Event::Scene(e) && from
            <= e.range.first() && e.range.past() <= to),
    decreases s.len(),
{
    if s.len() > 0 {
        let e = s.last()->Scene_0;
        let init = s.drop_last();
        lemma_tiles_stay_within(init, from, e.range.first(), tb);
        assert forall|j: int| 0 <= j < s.len() implies ((#[trigger] s[j]) matches Event::Scene(e)
            && from <= e.range.first() && e.range.past() <= to) by {
            if j < s.len() - 1 {
                assert(init[j] == s[j]);
            }
        }
    }
}

/// The frames of a run lie in order, in the timebase of the first.
proof fn lemma_frames_rise<
    'a,
    C: Fn(Similarity, Real) -> Correlated,
    W: Fn(FrameDelta, Components) -> Measured,
    A: Fn(Window) -> Ratio,
    X: Fn(Frames<'a>, bool) -> Outside,
    G: Fn(CheapMetrics) -> bool,
    B: Fn(Timestamp, StagedMetrics) -> bool,
    S: Fn(TimeRange) -> Vec<Selected>,
>(
    o: Options,
    frames: Seq<Frames<'a>>,
    kits: Seq<Kit<C, W, A, X, G, B, S>>,
    states: Seq<Model>,
    events: Seq<Option<Event>>,
    j: int,
    k: int,
)
    requires
        run(o, frames, kits, states, events),
        1 <= j <= k <= frames.len(),
    ensures
        states[j].track.last_ts is Some,
        states[k].track.last_ts is Some,
        frames[0].time().ticks() <= states[j].track.last_ts->0.ticks(),
        states[j].track.last_ts->0.ticks() <= states[k].track.last_ts->0.ticks(),
        states[k].track.last_ts == Some(states[k - 1].track.canonical(frames[k - 1].time())),
    decreases k,
{
    a_run_stays_on_track(o, frames, kits, states, events, k - 1);
    a_run_stays_on_track(o, frames, kits, states, events, j - 1);
    a_run_stays_on_track(o, frames, kits, states, events, j);
    assert(sound_frame(frames[k - 1]));
    assert(sound_frame(frames[j - 1]));
    a_frame_keeps_the_track(
        states[k - 1],
        frames[k - 1],
        kits[k - 1],
        states[k],
        events[k - 1],
        outputs(events.take(k - 1)),
        frames[0].time().ticks(),
    );
    if k > j {
        lemma_frames_rise(o, frames, kits, states, events, j, k - 1);
    } else if k > 1 {
        lemma_frames_rise(o, frames, kits, states, events, k - 1, k - 1);
    }
}

/// Every frame of a stream lies in one scene and in no other.
pub proof fn every_frame_has_one_scene<
    'a,
    C: Fn(Similarity, Real) -> Correlated,
    W: Fn(FrameDelta, Components) -> Measured,
    A: Fn(Window) -> Ratio,
    X: Fn(Frames<'a>, bool) -> Outside,
    G: Fn(CheapMetrics) -> bool,
    B: Fn(Timestamp, StagedMetrics) -> bool,
    S: Fn(TimeRange) -> Vec<Selected>,
    E: Fn(TimeRange) -> Vec<Selected>,
>(
    o: Options,
    frames: Seq<Frames<'a>>,
    kits: Seq<Kit<C, W, A, X, G, B, S>>,
    states: Seq<Model>,
    events: Seq<Option<Event>>,
    fade: Option<Fired>,
    select: E,
    end: Track,
    k: int,
) -> (i: int)
    requires
        0 <= k < frames.len(),
        run(o, frames, kits, states, events),
        fired(fade, until(states.last().track.last_ts->0)),
        states.last().track.finished(o, fade_boundary(o, fade), select, end),
    ensures
        ({
            let s = scenes(outputs(events) + end.pending);
            let tick = states[k].track.canonical(frames[k].time()).ticks();
            &&& 0 <= i < s.len()
            &&& scene_holds(s[i], tick)
            &&& forall|j: int| 0 <= j < s.len() && #[trigger] scene_holds(s[j], tick) ==> j == i
        }),
{
    let n = frames.len() as int;
    the_scenes_tile_the_stream(o, frames, kits, states, events, fade, select, end);
    lemma_frames_rise(o, frames, kits, states, events, k + 1, n);
    lemma_frames_rise(o, frames, kits, states, events, k + 1, k + 1);
    every_tick_has_one_scene(
        scenes(outputs(events) + end.pending),
        frames[0].time().ticks(),
        states.last().track.last_ts->0.ticks() + 1,
        frames[0].time().base(),
        states[k].track.canonical(frames[k].time()).ticks(),
    )
}

} // verus!
