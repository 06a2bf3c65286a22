//! In which order, and of what, a stream tells.

use vstd::prelude::*;

use crate::adaptive::{Ratio, Window};
use crate::cascade::detector::{fade_boundary, Fired, Intake, Kit, Lanes, Model, Outside};
use crate::cascade::event::{Event, HistogramPlane, Provenance, SceneEvent};
use crate::cascade::frames::Frames;
use crate::cascade::laws::{
    all_moving, cuts_keep_their_distance, named, scenes, sorting_orders_by_time, spaced,
    the_earliest_wins_and_later_ones_wait,
};
use crate::cascade::metrics::{CheapMetrics, StagedMetrics};
use crate::cascade::options::{lag_of, Options};
use crate::cascade::rescale::{range_of, rescale_into_own_timebase_is_exact, rescale_is_monotone};
use crate::cascade::stream::{
    a_frame_keeps_the_track, a_run_stays_on_track, a_shot_ends_in_order, all_at, cuts_all,
    every_tick_has_one_scene, fired, lanes_all, lanes_report_what_they_saw,
    lemma_canonical_past, lemma_cleared_all, lemma_contended_all, lemma_contenders_all,
    lemma_owed_all, lemma_past_stays, on_track, outputs, past, reports_past, run, scene_holds,
    sound_frame, the_scenes_tile_the_stream, told_after, until,
};
use crate::cascade::timeline::{
    gap_of, in_order, keyframe_of, queued, queued_all, shed, tick_after, Boundary, LaneCuts,
    Selected, Track,
};
use crate::content::{Components, FrameDelta, Measured};
use crate::histogram::{Correlated, Similarity};
use crate::number::Real;
use crate::time::{
    a_span_has_its_nanoseconds, longer_since_earlier, min_length_met, moving,
    not_after_is_transitive, range_has_its_ends, relation_compares_instants,
    relation_is_antisymmetric, ticks_in, Duration, Relation, TimeRange, Timebase, Timestamp,
};

verus! {

/// Every output has a property.
pub open spec fn each(q: Seq<Event>, p: spec_fn(Event) -> bool) -> bool {
    forall|i: int| 0 <= i < q.len() ==> p(#[trigger] q[i])
}

/// Every output and every one behind it stand in a relation.
pub open spec fn paired(q: Seq<Event>, r: spec_fn(Event, Event) -> bool) -> bool {
    forall|i: int, j: int| 0 <= i < j < q.len() ==> r(#[trigger] q[i], #[trigger] q[j])
}

/// Shedding takes one output at most, and keeps the order of the others.
proof fn lemma_shed_removes(q: Seq<Event>) -> (k: int)
    ensures
        0 <= k <= q.len(),
        shed(q) == if k < q.len() {
            q.remove(k)
        } else {
            q
        },
    decreases q.len(),
{
    if q.len() == 0 {
        0
    } else if q[0] is Keyframe {
        assert(q.drop_first() =~= q.remove(0));
        0
    } else {
        let rest = q.drop_first();
        let k = lemma_shed_removes(rest);
        if k < rest.len() {
            assert(seq![q[0]] + rest.remove(k) =~= q.remove(k + 1));
        } else {
            assert(seq![q[0]] + rest =~= q);
        }
        k + 1
    }
}

/// One more output, and perhaps one less, keeps what holds of each.
proof fn lemma_queued_each(told: Seq<Event>, q: Seq<Event>, e: Event, p: spec_fn(Event) -> bool)
    requires
        each(told + q, p),
        p(e),
    ensures
        each(told + queued(q, e), p),
{
    let all = told + q;
    let more = told + q.push(e);
    assert(more =~= all.push(e));
    assert forall|i: int| 0 <= i < more.len() implies p(#[trigger] more[i]) by {
        if i < all.len() {
            assert(more[i] == all[i]);
        }
    }
    let k = lemma_shed_removes(q.push(e));
    if k < q.push(e).len() {
        let less = told + q.push(e).remove(k);
        let n = told.len() + k;
        assert(less =~= more.remove(n));
        assert forall|i: int| 0 <= i < less.len() implies p(#[trigger] less[i]) by {
            assert(less[i] == more[if i < n {
                i
            } else {
                i + 1
            }]);
        }
    }
}

/// One more output that stands in the relation to all before it, and perhaps one less,
/// keeps the relation.
proof fn lemma_queued_paired(
    told: Seq<Event>,
    q: Seq<Event>,
    e: Event,
    r: spec_fn(Event, Event) -> bool,
)
    requires
        paired(told + q, r),
        each(told + q, |a: Event| r(a, e)),
    ensures
        paired(told + queued(q, e), r),
{
    let all = told + q;
    let more = told + q.push(e);
    let to_e = |a: Event| r(a, e);
    assert(more =~= all.push(e));
    assert forall|i: int, j: int| 0 <= i < j < more.len() implies r(
        #[trigger] more[i],
        #[trigger] more[j],
    ) by {
        assert(more[i] == all[i]);
        if j < all.len() {
            assert(more[j] == all[j]);
        } else {
            assert(to_e(all[i]));
        }
    }
    let k = lemma_shed_removes(q.push(e));
    if k < q.push(e).len() {
        let less = told + q.push(e).remove(k);
        let n = told.len() + k;
        assert(less =~= more.remove(n));
        assert forall|i: int, j: int| 0 <= i < j < less.len() implies r(
            #[trigger] less[i],
            #[trigger] less[j],
        ) by {
            assert(less[i] == more[if i < n {
                i
            } else {
                i + 1
            }]);
            assert(less[j] == more[if j < n {
                j
            } else {
                j + 1
            }]);
        }
    }
}

/// Picked keyframes keep what holds of each.
proof fn lemma_picks_each(
    told: Seq<Event>,
    q: Seq<Event>,
    picks: Seq<Selected>,
    p: spec_fn(Event) -> bool,
)
    requires
        each(told + q, p),
        forall|i: int| 0 <= i < picks.len() ==> p(keyframe_of(#[trigger] picks[i])),
    ensures
        each(told + queued_all(q, picks), p),
    decreases picks.len(),
{
    if picks.len() > 0 {
        let init = picks.drop_last();
        assert forall|i: int| 0 <= i < init.len() implies p(keyframe_of(#[trigger] init[i])) by {
            assert(init[i] == picks[i]);
        }
        lemma_picks_each(told, q, init, p);
        assert(picks.last() == picks[picks.len() - 1]);
        lemma_queued_each(told, queued_all(q, init), keyframe_of(picks.last()), p);
    }
}

/// Picked keyframes that stand in the relation to all before them keep the relation.
proof fn lemma_picks_paired(
    told: Seq<Event>,
    q: Seq<Event>,
    picks: Seq<Selected>,
    r: spec_fn(Event, Event) -> bool,
)
    requires
        paired(told + q, r),
        forall|a: int, i: int|
            0 <= a < (told + q).len() && 0 <= i < picks.len() ==> r(
                #[trigger] (told + q)[a],
                keyframe_of(#[trigger] picks[i]),
            ),
        forall|i: int, j: int|
            0 <= i < j < picks.len() ==> r(
                keyframe_of(#[trigger] picks[i]),
                keyframe_of(#[trigger] picks[j]),
            ),
    ensures
        paired(told + queued_all(q, picks), r),
    decreases picks.len(),
{
    if picks.len() > 0 {
        let init = picks.drop_last();
        let last = picks.last();
        let n = picks.len() - 1;
        let e = keyframe_of(last);
        let to_e = |a: Event| r(a, e);
        assert(last == picks[n]);
        assert forall|a: int, i: int|
            0 <= a < (told + q).len() && 0 <= i < init.len() implies r(
            #[trigger] (told + q)[a],
            keyframe_of(#[trigger] init[i]),
        ) by {
            assert(init[i] == picks[i]);
        }
        assert forall|i: int, j: int| 0 <= i < j < init.len() implies r(
            keyframe_of(#[trigger] init[i]),
            keyframe_of(#[trigger] init[j]),
        ) by {
            assert(init[i] == picks[i] && init[j] == picks[j]);
        }
        lemma_picks_paired(told, q, init, r);
        assert(each(told + q, to_e)) by {
            assert forall|a: int| 0 <= a < (told + q).len() implies to_e(
                #[trigger] (told + q)[a],
            ) by {
                assert(r((told + q)[a], keyframe_of(picks[n])));
            }
        }
        assert forall|i: int| 0 <= i < init.len() implies to_e(keyframe_of(#[trigger] init[i])) by {
            assert(init[i] == picks[i]);
            assert(r(keyframe_of(picks[i]), keyframe_of(picks[n])));
        }
        lemma_picks_each(told, q, init, to_e);
        lemma_queued_paired(told, queued_all(q, init), e, r);
    }
}

/// A forced split tells how long the scene is that it closes, and that is at least as
/// long as a scene may be.
pub open spec fn spanned(o: Options, s: SceneEvent) -> bool {
    s.provenance matches Provenance::MaxSpan(span) ==> {
        &&& o.max_scene_duration == Some(span.cap)
        &&& s.range.ends().since(s.range.starts()) == Some(span.span)
        &&& span.span.total() >= span.cap.total()
    }
}

/// The minimum duration configured for the lane that proposes a boundary, and whether the
/// lane may cut from the first frame on; none for a forced split and for the end of the
/// stream.
pub open spec fn lane_rule(o: Options, p: Provenance) -> Option<(Duration, bool)> {
    match p {
        Provenance::Threshold(_) => Some((o.threshold.min_duration, o.threshold.initial_cut)),
        Provenance::Histogram(s) => Some(
            match s.plane {
                HistogramPlane::Luma => (
                    o.luma_histogram.min_duration,
                    o.luma_histogram.allow_initial_cut,
                ),
                HistogramPlane::Hue => (
                    o.hue_histogram.min_duration,
                    o.hue_histogram.allow_initial_cut,
                ),
                HistogramPlane::Saturation => (
                    o.sat_histogram.min_duration,
                    o.sat_histogram.allow_initial_cut,
                ),
            },
        ),
        Provenance::Phash(_) => Some((o.phash.min_duration, o.phash.initial_cut)),
        Provenance::Content(_) => Some((o.content.min_duration, o.content.initial_cut)),
        Provenance::Adaptive(_) => Some((o.adaptive.min_duration, o.adaptive.initial_cut)),
        _ => None,
    }
}

/// A scene that a lane closes lasts at least the minimum duration configured for that lane,
/// unless it starts with the stream. A lane that may not cut from the first frame on closes
/// no scene before its minimum duration has passed since that frame.
pub open spec fn long_enough(o: Options, first: Timestamp, s: SceneEvent) -> bool {
    lane_rule(o, s.provenance) matches Some(rule) ==> {
        &&& s.range.first() == first.ticks() || min_length_met(
            s.range.ends(),
            s.range.starts(),
            rule.0,
        )
        &&& !rule.1 ==> min_length_met(s.range.ends(), first, rule.0)
    }
}

/// A boundary of a lane that may not cut from the first frame on lies at least the minimum
/// duration of the lane after that frame.
pub open spec fn warm(o: Options, first: Timestamp) -> spec_fn(Boundary) -> bool {
    |b: Boundary|
        lane_rule(o, b.provenance) matches Some(rule) ==> (!rule.1 ==> min_length_met(
            b.at,
            first,
            rule.0,
        ))
}

/// Every boundary has a property.
pub open spec fn each_boundary(s: Seq<Boundary>, p: spec_fn(Boundary) -> bool) -> bool {
    forall|i: int| 0 <= i < s.len() ==> p(#[trigger] s[i])
}

/// Outputs between two ticks: a keyframe lies at or after the first and before the
/// second, a scene ends no later than the second.
pub open spec fn inside(o: Options, first: Timestamp, to: int) -> spec_fn(Event) -> bool {
    |e: Event|
        match e {
            Event::Keyframe(k) => k.ts.base() == first.base() && first.ticks() <= k.ts.ticks() < to,
            Event::Scene(s) => s.range.past() <= to && spanned(o, s) && long_enough(o, first, s),
        }
}

/// A scene comes before a keyframe only where it ends no later than the keyframe lies.
pub open spec fn in_turn() -> spec_fn(Event, Event) -> bool {
    |a: Event, b: Event|
        match (a, b) {
            (Event::Scene(s), Event::Keyframe(k)) => s.range.past() <= k.ts.ticks(),
            _ => true,
        }
}

/// A keyframe lies strictly before every keyframe behind it.
pub open spec fn rises() -> spec_fn(Event, Event) -> bool {
    |a: Event, b: Event|
        match (a, b) {
            (Event::Keyframe(k), Event::Keyframe(l)) => k.ts.ticks() < l.ts.ticks(),
            _ => true,
        }
}

/// A scene ends no later than tick `t`.
pub open spec fn ends_by(t: int) -> spec_fn(Event) -> bool {
    |e: Event| e matches Event::Scene(s) ==> s.range.past() <= t
}

/// A keyframe lies no later than tick `floor`, or before tick `t`.
pub open spec fn under(floor: int, t: int) -> spec_fn(Event) -> bool {
    |e: Event| e matches Event::Keyframe(k) ==> k.ts.ticks() <= floor || k.ts.ticks() < t
}

/// The tick of the latest keyframe; less than any tick where there is none.
pub open spec fn latest(q: Seq<Event>) -> int
    decreases q.len(),
{
    if q.len() == 0 {
        i64::MIN - 1
    } else {
        let before = latest(q.drop_last());
        match q.last() {
            Event::Keyframe(k) => if k.ts.ticks() > before {
                k.ts.ticks()
            } else {
                before
            },
            Event::Scene(_) => before,
        }
    }
}

/// No keyframe lies later than the latest.
proof fn lemma_latest(q: Seq<Event>)
    ensures
        each(q, under(latest(q), latest(q))),
    decreases q.len(),
{
    if q.len() > 0 {
        let init = q.drop_last();
        lemma_latest(init);
        assert forall|i: int| 0 <= i < q.len() implies under(latest(q), latest(q))(
            #[trigger] q[i],
        ) by {
            if i < init.len() {
                assert(init[i] == q[i]);
                assert(under(latest(init), latest(init))(init[i]));
            }
        }
    }
}

/// The keyframes that are picked of a window lie in it.
pub open spec fn picks_within<S: Fn(TimeRange) -> Vec<Selected>>(select: S) -> bool {
    forall|r: TimeRange, v: Vec<Selected>, i: int|
        #![trigger select.ensures((r,), v), v@[i]]
        select.ensures((r,), v) && 0 <= i < v@.len() ==> v@[i].ts.base() == r.base() && r.first()
            <= v@[i].ts.ticks() < r.past()
}

/// The keyframes that are picked of a window rise, and lie later than tick `floor`.
pub open spec fn picks_rise<S: Fn(TimeRange) -> Vec<Selected>>(select: S, floor: int) -> bool {
    &&& forall|r: TimeRange, v: Vec<Selected>, i: int|
        #![trigger select.ensures((r,), v), v@[i]]
        select.ensures((r,), v) && 0 <= i < v@.len() ==> v@[i].ts.ticks() > floor
    &&& forall|r: TimeRange, v: Vec<Selected>, i: int, j: int|
        #![trigger select.ensures((r,), v), v@[i], v@[j]]
        select.ensures((r,), v) && 0 <= i < j < v@.len() ==> v@[i].ts.ticks() < v@[j].ts.ticks()
}

/// An instant of the timebase of `first`, from `first` to `now`.
pub open spec fn between(ts: Timestamp, first: Timestamp, now: Timestamp) -> bool {
    ts.base() == first.base() && first.ticks() <= ts.ticks() <= now.ticks()
}

/// The instants from which a stream goes on lie between its first frame and `now`.
pub open spec fn anchored(t: Track, first: Timestamp, now: Timestamp) -> bool {
    &&& t.stream_timebase == Some(first.base())
    &&& t.shot_start matches Some(s) && between(s, first, now)
    &&& t.last_finalize matches Some(w) && between(w, first, now)
    &&& t.gate_anchor matches Some(a) && between(a, first, now)
    &&& t.last_confirmed is Some ==> t.last_confirmed == t.shot_start
    &&& t.last_confirmed is None ==> t.shot_start == Some(first)
    &&& forall|i: int| 0 <= i < t.recent.len() ==> between(#[trigger] t.recent[i], first, now)
}

/// All outputs, told or waiting, tell of what lies between the first frame and `now`.
pub open spec fn told_within(
    o: Options,
    t: Track,
    told: Seq<Event>,
    first: Timestamp,
    now: Timestamp,
) -> bool {
    anchored(t, first, now) && each(told + t.pending, inside(o, first, now.ticks()))
}

/// The keyframes that are picked lie no earlier than tick `from`.
pub open spec fn picks_from<S: Fn(TimeRange) -> Vec<Selected>>(select: S, from: int) -> bool {
    forall|r: TimeRange, v: Vec<Selected>, i: int|
        #![trigger select.ensures((r,), v), v@[i]]
        select.ensures((r,), v) && 0 <= i < v@.len() ==> from <= v@[i].ts.ticks()
}

/// No keyframe has followed its scene, and every scene ends by the start of the open shot.
/// Where there is room for every frame, the open keyframe window starts no earlier.
pub open spec fn told_in_turn(t: Track, told: Seq<Event>, room: bool) -> bool {
    &&& paired(told + t.pending, in_turn())
    &&& t.shot_start matches Some(s) && t.last_finalize matches Some(w) && (room ==> s.ticks()
        <= w.ticks()) && each(told + t.pending, ends_by(s.ticks()))
}

/// The next keyframes lie no earlier than the open shot starts: its keyframe window does
/// not, or the selection picks none before.
spec fn keeps_up<S: Fn(TimeRange) -> Vec<Selected>>(t: Track, select: S) -> bool {
    t.shot_start->0.ticks() <= t.last_finalize->0.ticks() || picks_from(
        select,
        t.shot_start->0.ticks(),
    )
}

/// Closing a keyframe window tells of what lies in it.
proof fn lemma_drained_within<S: Fn(TimeRange) -> Vec<Selected>>(
    o: Options,
    t: Track,
    point: Timestamp,
    select: S,
    after: Track,
    told: Seq<Event>,
    first: Timestamp,
    now: Timestamp,
)
    requires
        told_within(o, t, told, first, now),
        t.drained(point, select, after),
        picks_within(select),
        between(point, first, now),
    ensures
        told_within(o, after, told, first, now),
        after.shot_start == t.shot_start,
        after.deferred == t.deferred,
        after.recent == t.recent,
        after.last_ts == t.last_ts,
        after.last_finalize == Some(point),
        after.last_confirmed == t.last_confirmed,
        t.window_to(point) is None ==> after.pending == t.pending,
{
    let start = t.last_finalize->0;
    if let Some(r) = t.window_to(point) {
        let v = choose|v: Vec<Selected>| #[trigger]
            select.ensures((r,), v) && after == (Track {
                pending: queued_all(t.pending, v@),
                ..t
            }).reanchored(point);
        range_has_its_ends(start.ticks(), point.ticks(), point.base());
        let p = inside(o, first, now.ticks());
        assert forall|i: int| 0 <= i < v@.len() implies p(keyframe_of(#[trigger] v@[i])) by {
            assert(select.ensures((r,), v));
        }
        lemma_picks_each(told, t.pending, v@, p);
    }
}

/// Closing a keyframe window keeps keyframes before their scenes.
proof fn lemma_drained_in_turn<S: Fn(TimeRange) -> Vec<Selected>>(
    t: Track,
    point: Timestamp,
    select: S,
    after: Track,
    told: Seq<Event>,
    room: bool,
)
    requires
        told_in_turn(t, told, room),
        keeps_up(t, select),
        t.drained(point, select, after),
        picks_within(select),
    ensures
        paired(told + after.pending, in_turn()),
        each(told + after.pending, ends_by(t.shot_start->0.ticks())),
{
    let start = t.last_finalize->0;
    let s = t.shot_start->0.ticks();
    if let Some(r) = t.window_to(point) {
        let v = choose|v: Vec<Selected>| #[trigger]
            select.ensures((r,), v) && after == (Track {
                pending: queued_all(t.pending, v@),
                ..t
            }).reanchored(point);
        range_has_its_ends(start.ticks(), point.ticks(), point.base());
        let all = told + t.pending;
        assert forall|i: int| 0 <= i < v@.len() implies ends_by(s)(
            keyframe_of(#[trigger] v@[i]),
        ) by {}
        lemma_picks_each(told, t.pending, v@, ends_by(s));
        assert forall|a: int, i: int| 0 <= a < all.len() && 0 <= i < v@.len() implies in_turn()(
            #[trigger] all[a],
            keyframe_of(#[trigger] v@[i]),
        ) by {
            assert(select.ensures((r,), v));
            assert(ends_by(s)(all[a]));
        }
        lemma_picks_paired(told, t.pending, v@, in_turn());
    }
}

/// Closing a keyframe window keeps keyframes rising, where the selection goes on from
/// what it picked before.
proof fn lemma_drained_rises<S: Fn(TimeRange) -> Vec<Selected>>(
    t: Track,
    point: Timestamp,
    select: S,
    after: Track,
    told: Seq<Event>,
    floor: int,
)
    requires
        t.drained(point, select, after),
        t.last_finalize is Some,
        paired(told + t.pending, rises()),
        each(told + t.pending, under(floor, t.last_finalize->0.ticks())),
        picks_within(select),
        picks_rise(select, floor),
    ensures
        paired(told + after.pending, rises()),
        t.window_to(point) is Some ==> each(told + after.pending, under(floor, point.ticks())),
{
    let start = t.last_finalize->0;
    if let Some(r) = t.window_to(point) {
        let v = choose|v: Vec<Selected>| #[trigger]
            select.ensures((r,), v) && after == (Track {
                pending: queued_all(t.pending, v@),
                ..t
            }).reanchored(point);
        range_has_its_ends(start.ticks(), point.ticks(), point.base());
        let all = told + t.pending;
        let p = under(floor, point.ticks());
        assert forall|i: int| 0 <= i < all.len() implies p(#[trigger] all[i]) by {
            assert(under(floor, start.ticks())(all[i]));
        }
        assert forall|i: int| 0 <= i < v@.len() implies p(keyframe_of(#[trigger] v@[i])) by {
            assert(select.ensures((r,), v));
        }
        lemma_picks_each(told, t.pending, v@, p);
        assert forall|a: int, i: int| 0 <= a < all.len() && 0 <= i < v@.len() implies rises()(
            #[trigger] all[a],
            keyframe_of(#[trigger] v@[i]),
        ) by {
            assert(select.ensures((r,), v));
            assert(under(floor, start.ticks())(all[a]));
        }
        assert forall|i: int, j: int| 0 <= i < j < v@.len() implies rises()(
            keyframe_of(#[trigger] v@[i]),
            keyframe_of(#[trigger] v@[j]),
        ) by {
            assert(select.ensures((r,), v));
        }
        lemma_picks_paired(told, t.pending, v@, rises());
    }
}

/// A boundary of a lane lies at least the minimum duration of that lane after the last
/// boundary that closed a shot, and where the lane may not cut from the first frame on, after
/// that frame.
spec fn far_enough(o: Options, t: Track, b: Boundary, first: Timestamp) -> bool {
    &&& lane_rule(o, b.provenance) matches Some(rule) ==> (t.last_confirmed matches Some(l)
        ==> min_length_met(b.at, l, rule.0))
    &&& warm(o, first)(b)
}

/// What is admissible is far enough.
proof fn lemma_far_enough(o: Options, t: Track, b: Boundary, first: Timestamp)
    requires
        spaced(t, o, b),
        warm(o, first)(b),
    ensures
        far_enough(o, t, b, first),
{
}

/// Where a lane has warmed up, its minimum duration has passed since the first frame.
proof fn lemma_warmed_up(
    o: Options,
    t: Track,
    b: Boundary,
    first: Timestamp,
    now: Timestamp,
    rule: (Duration, bool),
)
    requires
        anchored(t, first, now),
        moving(first),
        moving(b.at),
        lane_rule(o, b.provenance) == Some(rule),
        rule.1 || (t.gate_anchor matches Some(a) ==> min_length_met(b.at, a, rule.0)),
    ensures
        warm(o, first)(b),
{
    let a = t.gate_anchor->0;
    if !rule.1 {
        a_span_has_its_nanoseconds(b.at, a);
        relation_compares_instants(first, a);
        longer_since_earlier(b.at, a, first, rule.0);
    }
}

/// What holds of two sequences of boundaries holds of both together.
proof fn lemma_each_concat(a: Seq<Boundary>, b: Seq<Boundary>, p: spec_fn(Boundary) -> bool)
    requires
        each_boundary(a, p),
        each_boundary(b, p),
    ensures
        each_boundary(a + b, p),
{
    let s = a + b;
    assert forall|i: int| 0 <= i < s.len() implies p(#[trigger] s[i]) by {
        if i < a.len() {
            assert(s[i] == a[i]);
        } else {
            assert(s[i] == b[i - a.len()]);
        }
    }
}

/// The report of a lane that contends has warmed up.
proof fn lemma_gated_warm(
    o: Options,
    t: Track,
    report: Option<Boundary>,
    first: Timestamp,
    now: Timestamp,
    rule: (Duration, bool),
)
    requires
        anchored(t, first, now),
        moving(first),
        report matches Some(b) ==> moving(b.at) && lane_rule(o, b.provenance) == Some(rule),
    ensures
        each_boundary(t.gated(report, rule.0, rule.1), warm(o, first)),
{
    if let Some(b) = report {
        if t.admissible(b.at, rule.0, !rule.1) {
            lemma_warmed_up(o, t, b, first, now, rule);
        }
    }
}

/// The reports that contend have warmed up.
proof fn lemma_reports_warm(
    o: Options,
    t: Track,
    c: LaneCuts,
    first: Timestamp,
    now: Timestamp,
)
    requires
        anchored(t, first, now),
        moving(first),
        named(c),
        cuts_all(c, until(now)),
    ensures
        each_boundary(t.reports(o, c), warm(o, first)),
{
    let p = warm(o, first);
    let fade = t.gated(c.fade, o.threshold.min_duration, o.threshold.initial_cut);
    let luma = t.gated(
        c.luma,
        o.luma_histogram.min_duration,
        o.luma_histogram.allow_initial_cut,
    );
    let hue = t.gated(c.hue, o.hue_histogram.min_duration, o.hue_histogram.allow_initial_cut);
    let sat = t.gated(c.saturation, o.sat_histogram.min_duration, o.sat_histogram.allow_initial_cut);
    let phash = t.gated(c.phash, o.phash.min_duration, o.phash.initial_cut);
    let content = t.gated(c.content, o.content.min_duration, o.content.initial_cut);
    let adaptive = t.gated(c.adaptive, o.adaptive.min_duration, o.adaptive.initial_cut);
    lemma_gated_warm(
        o,
        t,
        c.fade,
        first,
        now,
        (o.threshold.min_duration, o.threshold.initial_cut),
    );
    lemma_gated_warm(
        o,
        t,
        c.luma,
        first,
        now,
        (o.luma_histogram.min_duration, o.luma_histogram.allow_initial_cut),
    );
    lemma_gated_warm(
        o,
        t,
        c.hue,
        first,
        now,
        (o.hue_histogram.min_duration, o.hue_histogram.allow_initial_cut),
    );
    lemma_gated_warm(
        o,
        t,
        c.saturation,
        first,
        now,
        (o.sat_histogram.min_duration, o.sat_histogram.allow_initial_cut),
    );
    lemma_gated_warm(o, t, c.phash, first, now, (o.phash.min_duration, o.phash.initial_cut));
    lemma_gated_warm(o, t, c.content, first, now, (o.content.min_duration, o.content.initial_cut));
    lemma_gated_warm(
        o,
        t,
        c.adaptive,
        first,
        now,
        (o.adaptive.min_duration, o.adaptive.initial_cut),
    );
    lemma_each_concat(fade, luma, p);
    lemma_each_concat(fade + luma, hue, p);
    lemma_each_concat(fade + luma + hue, sat, p);
    lemma_each_concat(fade + luma + hue + sat, phash, p);
    lemma_each_concat(fade + luma + hue + sat + phash, content, p);
    lemma_each_concat(fade + luma + hue + sat + phash + content, adaptive, p);
}

/// The deferred boundaries that contend have warmed up, where all deferred ones have.
proof fn lemma_survivors_warm(o: Options, t: Track, s: Seq<Boundary>, first: Timestamp)
    requires
        each_boundary(s, warm(o, first)),
    ensures
        each_boundary(t.survivors(o, s), warm(o, first)),
    decreases s.len(),
{
    let p = warm(o, first);
    if s.len() > 0 {
        let init = s.drop_last();
        assert forall|i: int| 0 <= i < init.len() implies p(#[trigger] init[i]) by {
            assert(p(s[i]));
        }
        lemma_survivors_warm(o, t, init, first);
        assert(p(s[s.len() - 1]));
        let kept = t.survivors(o, init);
        let all = t.survivors(o, s);
        assert forall|i: int| 0 <= i < all.len() implies p(#[trigger] all[i]) by {
            if i < kept.len() {
                assert(all[i] == kept[i]);
            }
        }
    }
}

/// What closes the shot has warmed up, and so has what is deferred.
proof fn lemma_contended_warm(
    o: Options,
    t: Track,
    c: LaneCuts,
    at: Timestamp,
    first: Timestamp,
)
    requires
        anchored(t, first, at),
        moving(first),
        named(c),
        cuts_all(c, until(at)),
        each_boundary(t.deferred, warm(o, first)),
        all_moving(t.contenders(o, c, at)),
    ensures
        each_boundary(t.contended(o, c, at).0.deferred, warm(o, first)),
        t.contended(o, c, at).1 matches Some(b) ==> warm(o, first)(b),
{
    let p = warm(o, first);
    let all = t.contenders(o, c, at);
    let r = t.reports(o, c);
    let d = t.survivors(o, t.deferred);
    lemma_reports_warm(o, t, c, first, at);
    lemma_survivors_warm(o, t, t.deferred, first);
    lemma_each_concat(r, d, p);
    assert forall|i: int| 0 <= i < all.len() implies p(#[trigger] all[i]) by {
        if i < r.len() + d.len() {
            assert(all[i] == (r + d)[i]);
        } else {
            assert(Some(all[i]) == t.split(o, at));
        }
    }
    the_earliest_wins_and_later_ones_wait(t, o, c, at);
    let (after, winner) = t.contended(o, c, at);
    assert forall|i: int| 0 <= i < after.deferred.len() implies p(
        #[trigger] after.deferred[i],
    ) by {
        assert(after.deferred.contains(after.deferred[i]));
        assert(all.contains(after.deferred[i]));
        let k = choose|k: int| 0 <= k < all.len() && all[k] == after.deferred[i];
        assert(p(all[k]));
    }
    if let Some(b) = winner {
        assert(all.contains(b));
        let k = choose|k: int| 0 <= k < all.len() && all[k] == b;
        assert(p(all[k]));
    }
}

/// What is owed at the end has warmed up.
proof fn lemma_owed_warm(
    o: Options,
    t: Track,
    fade: Option<Boundary>,
    first: Timestamp,
    now: Timestamp,
)
    requires
        anchored(t, first, now),
        moving(first),
        all_at(t.deferred, until(now)),
        each_boundary(t.deferred, warm(o, first)),
        fade matches Some(b) ==> past(b.at, now) && b.provenance is Threshold,
    ensures
        each_boundary(t.owed(o, fade), warm(o, first)),
{
    let p = warm(o, first);
    let s = match fade {
        Some(f) => if t.fade_stands(o, f.at) {
            t.deferred.push(f)
        } else {
            t.deferred
        },
        None => t.deferred,
    };
    assert(t.owed(o, fade) == in_order(s));
    if let Some(f) = fade {
        if t.fade_stands(o, f.at) {
            lemma_warmed_up(
                o,
                t,
                f,
                first,
                now,
                (o.threshold.min_duration, o.threshold.initial_cut),
            );
        }
    }
    assert forall|i: int| 0 <= i < s.len() implies p(#[trigger] s[i]) && moving(s[i].at) by {
        if i < t.deferred.len() {
            assert(s[i] == t.deferred[i]);
            assert(until(now)(t.deferred[i].at));
            assert(p(t.deferred[i]));
        }
    }
    sorting_orders_by_time(s);
    let sorted = in_order(s);
    assert forall|i: int| 0 <= i < sorted.len() implies p(#[trigger] sorted[i]) by {
        assert(sorted.contains(sorted[i]));
        assert(s.contains(sorted[i]));
        let k = choose|k: int| 0 <= k < s.len() && s[k] == sorted[i];
        assert(p(s[k]));
    }
}

/// Closing a shot tells of what lies before the boundary.
proof fn lemma_closed_within(
    o: Options,
    t: Track,
    b: Boundary,
    told: Seq<Event>,
    first: Timestamp,
    now: Timestamp,
)
    requires
        moving(first),
        told_within(o, t, told, first, now),
        between(b.at, first, now),
        t.shot_start matches Some(s) ==> s.ticks() <= b.at.ticks(),
        b.provenance is MaxSpan ==> t.split(o, b.at) == Some(b),
        far_enough(o, t, b, first),
    ensures
        told_within(o, t.closed(b), told, first, now),
        t.closed(b).deferred == t.deferred,
        t.closed(b).last_ts == t.last_ts,
        t.closed(b).shot_start == Some(b.at),
        t.closed(b).last_finalize == Some(b.at),
{
    let tb = first.base();
    let start = t.shot_start->0;
    rescale_into_own_timebase_is_exact(start, tb);
    rescale_into_own_timebase_is_exact(b.at, tb);
    if let Some(range) = range_of(start, b.at, tb) {
        range_has_its_ends(start.ticks(), b.at.ticks(), tb);
        let s = SceneEvent { range, provenance: b.provenance };
        assert(range.ends() == b.at);
        assert(range.starts() == start);
        if b.provenance is MaxSpan {
            a_span_has_its_nanoseconds(b.at, start);
            assert(spanned(o, s));
        }
        assert(long_enough(o, first, s));
        lemma_queued_each(told, t.pending, Event::Scene(s), inside(o, first, now.ticks()));
    }
}

/// Closing a shot keeps keyframes before their scenes.
proof fn lemma_closed_in_turn(t: Track, b: Boundary, told: Seq<Event>, tb: Timebase)
    requires
        tb.valid(),
        tb.numerator() > 0,
        t.stream_timebase == Some(tb),
        paired(told + t.pending, in_turn()),
        t.shot_start matches Some(s) && s.base() == tb && s.ticks() <= b.at.ticks() && each(
            told + t.pending,
            ends_by(s.ticks()),
        ),
        b.at.base() == tb,
    ensures
        told_in_turn(t.closed(b), told, true),
{
    let start = t.shot_start->0;
    let all = told + t.pending;
    let p = ends_by(b.at.ticks());
    assert forall|i: int| 0 <= i < all.len() implies p(#[trigger] all[i]) by {
        assert(ends_by(start.ticks())(all[i]));
    }
    rescale_into_own_timebase_is_exact(start, tb);
    rescale_into_own_timebase_is_exact(b.at, tb);
    if let Some(range) = range_of(start, b.at, tb) {
        range_has_its_ends(start.ticks(), b.at.ticks(), tb);
        let e = Event::Scene(SceneEvent { range, provenance: b.provenance });
        lemma_queued_each(told, t.pending, e, p);
        assert(each(all, |a: Event| in_turn()(a, e)));
        lemma_queued_paired(told, t.pending, e, in_turn());
    }
}

/// Closing a shot leaves the keyframes, but for one that may be shed.
proof fn lemma_closed_rises(t: Track, b: Boundary, told: Seq<Event>, floor: int, tick: int)
    requires
        paired(told + t.pending, rises()),
        each(told + t.pending, under(floor, tick)),
    ensures
        paired(told + t.closed(b).pending, rises()),
        each(told + t.closed(b).pending, under(floor, tick)),
{
    if let Some(start) = t.shot_start {
        let tb = match t.stream_timebase {
            Some(tb) => tb,
            None => b.at.base(),
        };
        if let Some(range) = range_of(start, b.at, tb) {
            let e = Event::Scene(SceneEvent { range, provenance: b.provenance });
            lemma_queued_each(told, t.pending, e, under(floor, tick));
            assert(each(told + t.pending, |a: Event| rises()(a, e)));
            lemma_queued_paired(told, t.pending, e, rises());
        }
    }
}

/// The safe horizon lies between the first frame and the current one.
proof fn lemma_safe_between(t: Track, at: Timestamp, lag: int, first: Timestamp)
    requires
        anchored(t, first, at),
        at.base() == first.base(),
        first.ticks() <= at.ticks(),
        lag >= 0,
    ensures
        t.safe_horizon(at, lag) matches Some(safe) ==> between(safe, first, at),
{
}

/// The end of the last whole keyframe window lies between its start and the current
/// frame.
proof fn lemma_window_end_between(
    t: Track,
    o: Options,
    at: Timestamp,
    lag: int,
    first: Timestamp,
)
    requires
        anchored(t, first, at),
        at.base() == first.base(),
        first.ticks() <= at.ticks(),
        lag >= 0,
        t.window_end(o, at, lag) is Some,
    ensures
        between(t.window_end(o, at, lag)->0, first, at),
        t.last_finalize->0.ticks() <= t.window_end(o, at, lag)->0.ticks(),
{
    lemma_safe_between(t, at, lag, first);
    let start = t.last_finalize->0;
    let safe = t.safe_horizon(at, lag)->0;
    let w = ticks_in(start.base(), o.select.target_interval);
    let width = if w < 1 {
        1
    } else {
        w
    };
    let d = safe.ticks() - start.ticks();
    let elapsed = if d > i64::MAX {
        i64::MAX as int
    } else {
        d
    };
    assert(0 <= elapsed / width * width <= elapsed) by (nonlinear_arith)
        requires
            width >= 1,
            elapsed >= width,
    ;
}

/// Settling a boundary, with what holds of the queue. `turn` and `rise` tell whether
/// keyframes are to come before their scenes, and to rise.
proof fn lemma_settled<S: Fn(TimeRange) -> Vec<Selected>>(
    o: Options,
    t: Track,
    b: Option<Boundary>,
    at: Timestamp,
    lag: int,
    select: S,
    after: Track,
    told: Seq<Event>,
    first: Timestamp,
    turn: bool,
    room: bool,
    rise: bool,
    floor: int,
)
    requires
        moving(first),
        at.base() == first.base(),
        first.ticks() <= at.ticks(),
        lag >= 0,
        told_within(o, t, told, first, at),
        t.settled(o, b, at, lag, select, after),
        picks_within(select),
        b matches Some(b) ==> between(b.at, first, at) && t.shot_start->0.ticks() <= b.at.ticks()
            && (b.provenance is MaxSpan ==> t.split(o, b.at) == Some(b)) && far_enough(
            o,
            t,
            b,
            first,
        ),
        turn ==> told_in_turn(t, told, room) && keeps_up(t, select),
        rise ==> paired(told + t.pending, rises()) && each(
            told + t.pending,
            under(floor, t.last_finalize->0.ticks()),
        ) && picks_rise(select, floor),
    ensures
        told_within(o, after, told, first, at),
        after.deferred == t.deferred,
        after.last_ts == t.last_ts,
        turn ==> told_in_turn(after, told, room),
        rise ==> paired(told + after.pending, rises()),
{
    match b {
        Some(b) => {
            let w = choose|w: Track| #[trigger]
                t.drained(b.at, select, w) && after == w.closed(b);
            lemma_drained_within(o, t, b.at, select, w, told, first, at);
            lemma_closed_within(o, w, b, told, first, at);
            if turn {
                lemma_drained_in_turn(t, b.at, select, w, told, room);
                lemma_closed_in_turn(w, b, told, first.base());
            }
            if rise {
                lemma_drained_rises(t, b.at, select, w, told, floor);
                let tick = if t.window_to(b.at) is Some {
                    b.at.ticks()
                } else {
                    t.last_finalize->0.ticks()
                };
                lemma_closed_rises(w, b, told, floor, tick);
            }
        },
        None => {
            if let Some(p) = t.window_end(o, at, lag) {
                lemma_window_end_between(t, o, at, lag, first);
                lemma_drained_within(o, t, p, select, after, told, first, at);
                if turn {
                    lemma_drained_in_turn(t, p, select, after, told, room);
                }
                if rise {
                    lemma_drained_rises(t, p, select, after, told, floor);
                }
            }
        },
    }
}

/// Handing a frame to the keyframe selection, with what holds of the queue.
proof fn lemma_observed<
    B: Fn(Timestamp, StagedMetrics) -> bool,
    S: Fn(TimeRange) -> Vec<Selected>,
>(
    o: Options,
    t: Track,
    at: Timestamp,
    lag: int,
    metrics: StagedMetrics,
    intake: Intake,
    observe: B,
    select: S,
    after: Track,
    told: Seq<Event>,
    first: Timestamp,
    turn: bool,
    room: bool,
    rise: bool,
    floor: int,
)
    requires
        at.base() == first.base(),
        first.ticks() <= at.ticks(),
        lag >= 0,
        told_within(o, t, told, first, at),
        Model::observed(t, at, lag, metrics, intake, observe, select, after),
        picks_within(select),
        turn ==> told_in_turn(t, told, room) && goes_with(t, observe, select, room, first, at),
        rise ==> paired(told + t.pending, rises()) && each(told + t.pending, under(floor, floor))
            && picks_rise(select, floor),
    ensures
        told_within(o, after, told, first, at),
        after.deferred == t.deferred,
        after.last_ts == t.last_ts,
        after.shot_start == t.shot_start,
        turn ==> told_in_turn(after, told, room) && keeps_up(after, select),
        rise ==> paired(told + after.pending, rises()) && each(
            told + after.pending,
            under(floor, after.last_finalize->0.ticks()),
        ),
{
    let all = told + t.pending;
    if rise {
        assert forall|i: int, x: int| 0 <= i < all.len() implies #[trigger] under(floor, x)(
            all[i],
        ) by {
            assert(under(floor, floor)(all[i]));
        }
    }
    if !intake.taken {
        lemma_safe_between(t, at, lag, first);
        let point = match t.safe_horizon(at, lag) {
            Some(safe) => safe,
            None => at,
        };
        lemma_drained_within(o, t, point, select, after, told, first, at);
        if turn {
            lemma_drained_in_turn(t, point, select, after, told, room);
        }
        if rise {
            lemma_drained_rises(t, point, select, after, told, floor);
        }
    }
}

/// The keyframe selection takes every frame or, where there is no room for all, picks
/// nothing before the start of the open shot; with the first frame nothing can be picked.
spec fn goes_with<
    B: Fn(Timestamp, StagedMetrics) -> bool,
    S: Fn(TimeRange) -> Vec<Selected>,
>(t: Track, observe: B, select: S, room: bool, first: Timestamp, at: Timestamp) -> bool {
    if room {
        takes_all(observe)
    } else {
        at.ticks() == first.ticks() || picks_from(select, t.shot_start->0.ticks())
    }
}

/// The keyframe selection takes every frame.
pub open spec fn takes_all<B: Fn(Timestamp, StagedMetrics) -> bool>(observe: B) -> bool {
    forall|t: Timestamp, m: StagedMetrics, taken: bool| #[trigger]
        observe.ensures((t, m), taken) ==> taken
}

/// The instants in the timebase of `first`, and those no later than `first`.
pub open spec fn counted_from(first: Timestamp) -> spec_fn(Timestamp) -> bool {
    |ts: Timestamp| ts.base() == first.base() || ts.relation(first) != Relation::After
}

/// The instants in a timebase.
pub open spec fn counted_in(tb: Timebase) -> spec_fn(Timestamp) -> bool {
    |ts: Timestamp| ts.base() == tb
}

/// The outside lanes report in the timebase of the frame.
pub open spec fn reports_counted<'a, X: Fn(Frames<'a>, bool) -> Outside>(outside: X) -> bool {
    forall|f: Frames<'a>, r: bool, o: Outside| #[trigger]
        outside.ensures((f, r), o) ==> fired(o.fade, counted_in(f.time().base())) && fired(
            o.phash,
            counted_in(f.time().base()),
        )
}

/// What lies after an instant that is no earlier than `first` is in its timebase.
proof fn lemma_counted(ts: Timestamp, s: Timestamp, first: Timestamp)
    requires
        moving(ts),
        moving(first),
        counted_from(first)(ts),
        s.base() == first.base(),
        first.ticks() <= s.ticks(),
        ts.relation(s) == Relation::After,
    ensures
        ts.base() == first.base(),
        s.ticks() < ts.ticks(),
{
    if ts.base() != first.base() {
        not_after_is_transitive(ts, first, s);
    }
}

/// What holds of a cascade between two frames: all instants from which it may go on are
/// in the timebase of the stream, and its outputs lie between the first frame and the
/// last.
pub open spec fn telling(m: Model, told: Seq<Event>, first: Timestamp) -> bool {
    &&& m.track.stream_timebase is None ==> m.track.last_confirmed is None
        && m.track.gate_anchor is None
    &&& m.track.stream_timebase is Some ==> {
        &&& m.track.last_ts matches Some(l) && told_within(m.options, m.track, told, first, l)
        &&& all_at(m.track.deferred, counted_from(first))
        &&& each_boundary(m.track.deferred, warm(m.options, first))
        &&& lanes_all(m.lanes, counted_from(first))
    }
}

/// No keyframe of a cascade has followed its scene.
pub open spec fn telling_in_turn(m: Model, told: Seq<Event>, room: bool) -> bool {
    m.track.stream_timebase is Some ==> told_in_turn(m.track, told, room)
}

/// The keyframes of a cascade have risen.
pub open spec fn telling_rises(m: Model, told: Seq<Event>) -> bool {
    paired(told + m.track.pending, rises())
}

/// Letting a frame in tells of nothing.
proof fn lemma_admitted(
    m: Model,
    at: Timestamp,
    dims: (u32, u32),
    told: Seq<Event>,
    first: Timestamp,
    turn: bool,
    room: bool,
)
    requires
        on_track(m, told, first.ticks()),
        telling(m, told, first),
        turn ==> telling_in_turn(m, told, room),
        at.base() == first.base(),
        match m.track.stream_timebase {
            Some(tb) => m.track.last_ts->0.ticks() <= at.ticks(),
            None => at == first,
        },
    ensures
        ({
            let after = m.track.admitted(at, dims, lag_of(m.options));
            &&& told_within(m.options, after, told, first, at)
            &&& turn ==> told_in_turn(after, told, room)
            &&& after.deferred == m.track.deferred
            &&& after.pending == m.track.pending
            &&& first.ticks() <= at.ticks()
        }),
{
    let lag = lag_of(m.options);
    let after = m.track.admitted(at, dims, lag);
    let all = told + after.pending;
    if m.track.stream_timebase is None {
        assert(all =~= Seq::empty());
    } else {
        let l = m.track.last_ts->0;
        assert forall|i: int| 0 <= i < all.len() implies inside(m.options, first, at.ticks())(
            #[trigger] all[i],
        ) by {
            assert(inside(m.options, first, l.ticks())(all[i]));
        }
    }
    let seen = m.track.recent.push(at);
    assert forall|i: int| 0 <= i < after.recent.len() implies between(
        #[trigger] after.recent[i],
        first,
        at,
    ) by {
        if lag != 0 {
            let k = if seen.len() > lag {
                i + 1
            } else {
                i
            };
            assert(after.recent[i] == seen[k]);
            if k < m.track.recent.len() {
                assert(seen[k] == m.track.recent[k]);
            }
        }
    }
}

/// The boundary that closes a shot lies in the timebase of the stream, between the
/// first frame and the current one, and no earlier than the shot starts.
proof fn lemma_winner_between(
    t: Track,
    o: Options,
    c: LaneCuts,
    at: Timestamp,
    first: Timestamp,
)
    requires
        named(c),
        moving(at),
        moving(first),
        at.base() == first.base(),
        anchored(t, first, at),
        cuts_all(c, until(at)),
        cuts_all(c, counted_from(first)),
        all_at(t.deferred, until(at)),
        all_at(t.deferred, counted_from(first)),
        each_boundary(t.deferred, warm(o, first)),
    ensures
        ({
            let (after, winner) = t.contended(o, c, at);
            &&& all_at(after.deferred, counted_from(first))
            &&& each_boundary(after.deferred, warm(o, first))
            &&& winner matches Some(b) ==> {
                &&& far_enough(o, t, b, first)
                &&& between(b.at, first, at)
                &&& t.shot_start->0.ticks() <= b.at.ticks()
                &&& b.provenance is MaxSpan ==> t.split(o, b.at) == Some(b)
            }
        }),
{
    assert(counted_from(first)(at));
    a_shot_ends_in_order(t, o, c, at);
    lemma_contenders_all(t, o, c, at, counted_from(first));
    lemma_contended_all(t, o, c, at, counted_from(first));
    lemma_contended_warm(o, t, c, at, first);
    if let Some(b) = t.contended(o, c, at).1 {
        let s = t.shot_start->0;
        cuts_keep_their_distance(t, o, c, at);
        if !(b.provenance is MaxSpan) {
            lemma_far_enough(o, t, b, first);
        }
        if b.at != at {
            assert(spaced(t, o, b));
            lemma_counted(b.at, s, first);
        }
    }
}

/// What the lanes report on a frame of the stream.
proof fn lemma_frame_reports<
    'a,
    C: Fn(Similarity, Real) -> Correlated,
    W: Fn(FrameDelta, Components) -> Measured,
    A: Fn(Window) -> Ratio,
    X: Fn(Frames<'a>, bool) -> Outside,
    G: Fn(CheapMetrics) -> bool,
    B: Fn(Timestamp, StagedMetrics) -> bool,
    S: Fn(TimeRange) -> Vec<Selected>,
>(
    m: Model,
    frames: Frames<'a>,
    kit: Kit<C, W, A, X, G, B, S>,
    f: Frames<'a>,
    seen: Outside,
    after: Lanes,
    cuts: LaneCuts,
    told: Seq<Event>,
    first: Timestamp,
)
    requires
        on_track(m, told, first.ticks()),
        telling(m, told, first),
        moving(first),
        sound_frame(frames),
        reports_past(kit.outside),
        reports_counted(kit.outside),
        m.track.fault(frames.time()) is None,
        m.track.stream_timebase matches Some(tb) ==> tb == first.base(),
        m.track.stream_timebase is None ==> first == frames.time(),
        m.canonical(frames, f),
        kit.outside.ensures((f, m.track.resets(Model::size_of(frames))), seen),
        (if m.track.resets(Model::size_of(frames)) {
            m.lanes.cleared()
        } else {
            m.lanes
        }).ran(m.options, f, kit.correlate, kit.weigh, kit.average, seen, after, cuts),
    ensures
        ({
            let at = m.track.canonical(frames.time());
            &&& moving(at)
            &&& at.base() == first.base()
            &&& m.track.stream_timebase is Some ==> m.track.last_ts->0.ticks() <= at.ticks()
            &&& named(cuts)
            &&& cuts_all(cuts, until(at))
            &&& cuts_all(cuts, counted_from(first))
            &&& lanes_all(after, counted_from(first))
            &&& all_at(m.track.deferred, until(at))
            &&& all_at(m.track.deferred, counted_from(first))
            &&& each_boundary(m.track.deferred, warm(m.options, first))
        }),
{
    let at = m.track.canonical(frames.time());
    let lanes = if m.track.resets(Model::size_of(frames)) {
        m.lanes.cleared()
    } else {
        m.lanes
    };
    lemma_canonical_past(m, frames, f);
    lemma_cleared_all(m.lanes, until(at));
    lemma_cleared_all(m.lanes, counted_from(first));
    relation_is_antisymmetric(frames.time(), frames.luma_view().time());
    relation_is_antisymmetric(frames.time(), frames.hsv_view().time());
    if let Some(l) = m.track.last_ts {
        relation_is_antisymmetric(l, at);
        lemma_past_stays(m.lanes, m.track.deferred, l, at);
    }
    lanes_report_what_they_saw(
        lanes,
        m.options,
        f,
        kit.correlate,
        kit.weigh,
        kit.average,
        seen,
        after,
        cuts,
        until(at),
    );
    lanes_report_what_they_saw(
        lanes,
        m.options,
        f,
        kit.correlate,
        kit.weigh,
        kit.average,
        seen,
        after,
        cuts,
        counted_from(first),
    );
}

/// From letting a frame in to settling its boundary, what holds of the outputs holds on.
proof fn lemma_track_tells<
    B: Fn(Timestamp, StagedMetrics) -> bool,
    S: Fn(TimeRange) -> Vec<Selected>,
>(
    o: Options,
    start: Track,
    at: Timestamp,
    metrics: StagedMetrics,
    intake: Intake,
    observe: B,
    select: S,
    cuts: LaneCuts,
    open: Track,
    settled: Track,
    told: Seq<Event>,
    first: Timestamp,
    turn: bool,
    room: bool,
    rise: bool,
    floor: int,
)
    requires
        moving(first),
        moving(at),
        at.base() == first.base(),
        first.ticks() <= at.ticks(),
        told_within(o, start, told, first, at),
        Model::observed(start, at, lag_of(o), metrics, intake, observe, select, open),
        open.contended(o, cuts, at).0.settled(
            o,
            open.contended(o, cuts, at).1,
            at,
            lag_of(o),
            select,
            settled,
        ),
        picks_within(select),
        named(cuts),
        cuts_all(cuts, until(at)),
        cuts_all(cuts, counted_from(first)),
        all_at(start.deferred, until(at)),
        all_at(start.deferred, counted_from(first)),
        each_boundary(start.deferred, warm(o, first)),
        turn ==> told_in_turn(start, told, room) && goes_with(
            start,
            observe,
            select,
            room,
            first,
            at,
        ),
        rise ==> paired(told + start.pending, rises()) && each(
            told + start.pending,
            under(floor, floor),
        ) && picks_rise(select, floor),
    ensures
        told_within(o, settled, told, first, at),
        settled.last_ts == start.last_ts,
        all_at(settled.deferred, counted_from(first)),
        each_boundary(settled.deferred, warm(o, first)),
        turn ==> told_in_turn(settled, told, room),
        rise ==> paired(told + settled.pending, rises()),
{
    let lag = lag_of(o);
    lemma_observed(
        o,
        start,
        at,
        lag,
        metrics,
        intake,
        observe,
        select,
        open,
        told,
        first,
        turn,
        room,
        rise,
        floor,
    );
    lemma_winner_between(open, o, cuts, at, first);
    let (contended, boundary) = open.contended(o, cuts, at);
    lemma_settled(
        o,
        contended,
        boundary,
        at,
        lag,
        select,
        settled,
        told,
        first,
        turn,
        room,
        rise,
        floor,
    );
}

/// A frame keeps what holds of the outputs. `turn` and `rise` tell whether keyframes are
/// to come before their scenes, and to rise.
#[verifier::spinoff_prover]
#[verifier::rlimit(60)]
proof fn lemma_frame_tells<
    'a,
    C: Fn(Similarity, Real) -> Correlated,
    W: Fn(FrameDelta, Components) -> Measured,
    A: Fn(Window) -> Ratio,
    X: Fn(Frames<'a>, bool) -> Outside,
    G: Fn(CheapMetrics) -> bool,
    B: Fn(Timestamp, StagedMetrics) -> bool,
    S: Fn(TimeRange) -> Vec<Selected>,
>(
    m: Model,
    frames: Frames<'a>,
    kit: Kit<C, W, A, X, G, B, S>,
    after: Model,
    event: Option<Event>,
    told: Seq<Event>,
    first: Timestamp,
    turn: bool,
    room: bool,
    rise: bool,
)
    requires
        on_track(m, told, first.ticks()),
        telling(m, told, first),
        moving(first),
        sound_frame(frames),
        reports_past(kit.outside),
        reports_counted(kit.outside),
        picks_within(kit.select),
        m.track.fault(frames.time()) is None,
        m.track.stream_timebase matches Some(tb) ==> tb == first.base(),
        m.track.stream_timebase is None ==> first == frames.time(),
        m.pushed(frames, kit, after, event),
        turn ==> telling_in_turn(m, told, room) && if room {
            takes_all(kit.observe)
        } else {
            m.track.shot_start matches Some(s) ==> picks_from(kit.select, s.ticks())
        },
        rise ==> telling_rises(m, told) && picks_rise(
            kit.select,
            latest(told + m.track.pending),
        ),
    ensures
        telling(after, told_after(told, event), first),
        turn ==> telling_in_turn(after, told_after(told, event), room),
        rise ==> telling_rises(after, told_after(told, event)),
{
    let (f, metrics, intake, seen, cuts, open, settled) = choose|
        f: Frames<'a>,
        metrics: StagedMetrics,
        intake: Intake,
        seen: Outside,
        cuts: LaneCuts,
        open: Track,
        settled: Track,
    | #[trigger]
        m.pushed_by(frames, kit, f, metrics, intake, seen, cuts, open, settled, after, event);
    assert(m.pushed_by(frames, kit, f, metrics, intake, seen, cuts, open, settled, after, event));
    let o = m.options;
    let lag = lag_of(o);
    let at = m.track.canonical(frames.time());
    let size = Model::size_of(frames);
    let start = m.track.admitted(at, size, lag);
    let floor = latest(told + m.track.pending);
    lemma_frame_reports(m, frames, kit, f, seen, after.lanes, cuts, told, first);
    lemma_admitted(m, at, size, told, first, turn, room);
    lemma_latest(told + m.track.pending);
    lemma_track_tells(
        o,
        start,
        at,
        metrics,
        intake,
        kit.observe,
        kit.select,
        cuts,
        open,
        settled,
        told,
        first,
        turn,
        room,
        rise,
        floor,
    );
    if settled.pending.len() > 0 {
        assert(told.push(settled.pending[0]) + settled.pending.drop_first() =~= told
            + settled.pending);
    }
}

/// What the keyframes have risen to at the end of a stream: to nothing new yet, or to
/// the start of the open shot, where the next window starts too.
spec fn risen(t: Track, told: Seq<Event>, floor: int) -> bool {
    let q = told + t.pending;
    &&& paired(q, rises())
    &&& t.last_finalize is Some
    &&& each(q, under(floor, floor)) || (t.last_finalize == t.shot_start && each(
        q,
        under(floor, t.last_finalize->0.ticks()),
    ))
}

/// A boundary that is owed at the end keeps what holds of the outputs.
proof fn lemma_owed_step_tells<S: Fn(TimeRange) -> Vec<Selected>>(
    o: Options,
    t: Track,
    b: Boundary,
    select: S,
    after: Track,
    told: Seq<Event>,
    first: Timestamp,
    now: Timestamp,
    turn: bool,
    room: bool,
    rise: bool,
    floor: int,
)
    requires
        moving(first),
        now.base() == first.base(),
        told_within(o, t, told, first, now),
        t.owed_step(o, b, select, after),
        picks_within(select),
        past(b.at, now),
        counted_from(first)(b.at),
        warm(o, first)(b),
        turn ==> told_in_turn(t, told, room) && keeps_up(t, select),
        rise ==> risen(t, told, floor) && picks_rise(select, floor),
    ensures
        told_within(o, after, told, first, now),
        turn ==> told_in_turn(after, told, room) && keeps_up(after, select),
        rise ==> risen(after, told, floor),
{
    if let Some(b) = t.revalidated(o, b) {
        if t.admissible(b.at, gap_of(o, b.provenance), false) {
            let w = choose|w: Track| #[trigger]
                t.drained(b.at, select, w) && after == w.closed(b);
            let s = t.shot_start->0;
            lemma_counted(b.at, s, first);
            lemma_far_enough(o, t, b, first);
            lemma_drained_within(o, t, b.at, select, w, told, first, now);
            lemma_closed_within(o, w, b, told, first, now);
            if turn {
                lemma_drained_in_turn(t, b.at, select, w, told, room);
                lemma_closed_in_turn(w, b, told, first.base());
            }
            if rise {
                let lf = t.last_finalize->0.ticks();
                let all = told + t.pending;
                if each(all, under(floor, floor)) {
                    assert forall|i: int| 0 <= i < all.len() implies under(floor, lf)(
                        #[trigger] all[i],
                    ) by {
                        assert(under(floor, floor)(all[i]));
                    }
                }
                lemma_drained_rises(t, b.at, select, w, told, floor);
                if t.window_to(b.at) is Some {
                    lemma_closed_rises(w, b, told, floor, b.at.ticks());
                } else {
                    lemma_closed_rises(w, b, told, floor, floor);
                }
            }
        }
    }
}

/// The boundaries that are owed at the end keep what holds of the outputs.
proof fn lemma_owed_trace_tells<S: Fn(TimeRange) -> Vec<Selected>>(
    o: Options,
    t: Track,
    s: Seq<Boundary>,
    select: S,
    states: Seq<Track>,
    k: int,
    told: Seq<Event>,
    first: Timestamp,
    now: Timestamp,
    turn: bool,
    room: bool,
    rise: bool,
    floor: int,
)
    requires
        moving(first),
        now.base() == first.base(),
        told_within(o, t, told, first, now),
        t.owed_trace(o, s, select, states),
        picks_within(select),
        all_at(s, until(now)),
        all_at(s, counted_from(first)),
        each_boundary(s, warm(o, first)),
        0 <= k <= s.len(),
        turn ==> told_in_turn(t, told, room) && keeps_up(t, select),
        rise ==> risen(t, told, floor) && picks_rise(select, floor),
    ensures
        told_within(o, states[k], told, first, now),
        turn ==> told_in_turn(states[k], told, room) && keeps_up(states[k], select),
        rise ==> risen(states[k], told, floor),
    decreases k,
{
    if k > 0 {
        lemma_owed_trace_tells(
            o,
            t,
            s,
            select,
            states,
            k - 1,
            told,
            first,
            now,
            turn,
            room,
            rise,
            floor,
        );
        assert(states[k - 1].owed_step(o, s[k - 1], select, states[k - 1 + 1]));
        assert(until(now)(s[k - 1].at));
        assert(counted_from(first)(s[k - 1].at));
        assert(warm(o, first)(s[k - 1]));
        lemma_owed_step_tells(
            o,
            states[k - 1],
            s[k - 1],
            select,
            states[k],
            told,
            first,
            now,
            turn,
            room,
            rise,
            floor,
        );
    }
}

/// The last shot is closed one tick past the last frame, and that keeps what holds of
/// the outputs.
proof fn lemma_last_tells<S: Fn(TimeRange) -> Vec<Selected>>(
    o: Options,
    t: Track,
    end: Boundary,
    select: S,
    w: Track,
    told: Seq<Event>,
    first: Timestamp,
    last: Timestamp,
    turn: bool,
    room: bool,
    rise: bool,
    floor: int,
)
    requires
        moving(first),
        last.base() == first.base(),
        last.ticks() < i64::MAX,
        told_within(o, t, told, first, last),
        end.at == tick_after(last),
        end.provenance is Finalized,
        t.drained(end.at, select, w),
        picks_within(select),
        turn ==> told_in_turn(t, told, room) && keeps_up(t, select),
        rise ==> risen(t, told, floor) && picks_rise(select, floor),
    ensures
        each(told + w.closed(end).pending, inside(o, first, last.ticks() + 1)),
        turn ==> paired(told + w.closed(end).pending, in_turn()),
        rise ==> paired(told + w.closed(end).pending, rises()),
{
    let all = told + t.pending;
    assert forall|i: int| 0 <= i < all.len() implies inside(o, first, end.at.ticks())(
        #[trigger] all[i],
    ) by {
        assert(inside(o, first, last.ticks())(all[i]));
    }
    assert(anchored(t, first, end.at)) by {
        assert forall|i: int| 0 <= i < t.recent.len() implies between(
            #[trigger] t.recent[i],
            first,
            end.at,
        ) by {
            assert(between(t.recent[i], first, last));
        }
    }
    lemma_drained_within(o, t, end.at, select, w, told, first, end.at);
    lemma_closed_within(o, w, end, told, first, end.at);
    if turn {
        lemma_drained_in_turn(t, end.at, select, w, told, room);
        lemma_closed_in_turn(w, end, told, first.base());
    }
    if rise {
        let lf = t.last_finalize->0.ticks();
        if each(all, under(floor, floor)) {
            assert forall|i: int| 0 <= i < all.len() implies under(floor, lf)(
                #[trigger] all[i],
            ) by {
                assert(under(floor, floor)(all[i]));
            }
        }
        lemma_drained_rises(t, end.at, select, w, told, floor);
        let tick = if t.window_to(end.at) is Some {
            end.at.ticks()
        } else {
            lf
        };
        lemma_closed_rises(w, end, told, floor, tick);
    }
}

/// The end of a stream keeps what holds of the outputs.
proof fn lemma_end_tells<S: Fn(TimeRange) -> Vec<Selected>>(
    m: Model,
    fade: Option<Fired>,
    select: S,
    end: Track,
    told: Seq<Event>,
    first: Timestamp,
    turn: bool,
    room: bool,
    rise: bool,
)
    requires
        on_track(m, told, first.ticks()),
        telling(m, told, first),
        moving(first),
        m.track.stream_timebase == Some(first.base()),
        picks_within(select),
        fired(fade, until(m.track.last_ts->0)),
        fired(fade, counted_in(first.base())),
        m.track.finished(m.options, fade_boundary(m.options, fade), select, end),
        turn ==> telling_in_turn(m, told, room) && keeps_up(m.track, select),
        rise ==> telling_rises(m, told) && picks_rise(select, latest(told + m.track.pending)),
    ensures
        each(told + end.pending, inside(m.options, first, m.track.last_ts->0.ticks() + 1)),
        turn ==> paired(told + end.pending, in_turn()),
        rise ==> paired(told + end.pending, rises()),
{
    let o = m.options;
    let t = m.track;
    let last = t.last_ts->0;
    let b = fade_boundary(o, fade);
    let closing = t.last_boundary()->0;
    let base = Track { deferred: Seq::empty(), ..t };
    let owed = t.owed(o, b);
    let floor = latest(told + t.pending);
    let (mid, w) = choose|mid: Track, w: Track|
        #![trigger mid.drained(closing.at, select, w)]
        base.owed_steps(o, owed, select, mid) && mid.drained(closing.at, select, w) && end
            == w.closed(closing);
    let states = choose|states: Seq<Track>| #[trigger]
        base.owed_trace(o, owed, select, states) && states.last() == mid;
    lemma_owed_all(t, o, b, counted_from(first), last);
    lemma_owed_all(t, o, b, until(last), last);
    lemma_owed_warm(o, t, b, first, last);
    lemma_latest(told + t.pending);
    lemma_owed_trace_tells(
        o,
        base,
        owed,
        select,
        states,
        owed.len() as int,
        told,
        first,
        last,
        turn,
        room,
        rise,
        floor,
    );
    lemma_last_tells(o, mid, closing, select, w, told, first, last, turn, room, rise, floor);
}

/// What a run rests on where its outputs are to lie between its frames: the outside
/// lanes report in the timebase of the frame, and the keyframes of a window are picked
/// out of it.
pub open spec fn orderly<
    'a,
    C: Fn(Similarity, Real) -> Correlated,
    W: Fn(FrameDelta, Components) -> Measured,
    A: Fn(Window) -> Ratio,
    X: Fn(Frames<'a>, bool) -> Outside,
    G: Fn(CheapMetrics) -> bool,
    B: Fn(Timestamp, StagedMetrics) -> bool,
    S: Fn(TimeRange) -> Vec<Selected>,
>(kits: Seq<Kit<C, W, A, X, G, B, S>>) -> bool {
    forall|i: int|
        0 <= i < kits.len() ==> {
            &&& reports_counted((#[trigger] kits[i]).outside)
            &&& picks_within(kits[i].select)
        }
}

/// The keyframe selection takes every frame of a run.
pub open spec fn roomy<
    'a,
    C: Fn(Similarity, Real) -> Correlated,
    W: Fn(FrameDelta, Components) -> Measured,
    A: Fn(Window) -> Ratio,
    X: Fn(Frames<'a>, bool) -> Outside,
    G: Fn(CheapMetrics) -> bool,
    B: Fn(Timestamp, StagedMetrics) -> bool,
    S: Fn(TimeRange) -> Vec<Selected>,
>(kits: Seq<Kit<C, W, A, X, G, B, S>>) -> bool {
    forall|i: int| 0 <= i < kits.len() ==> takes_all((#[trigger] kits[i]).observe)
}

/// The keyframe selection picks nothing from before the open shot: whatever lies before the
/// end of a window that was closed is passed, and each boundary closes the window up to it.
pub open spec fn passes<
    'a,
    C: Fn(Similarity, Real) -> Correlated,
    W: Fn(FrameDelta, Components) -> Measured,
    A: Fn(Window) -> Ratio,
    X: Fn(Frames<'a>, bool) -> Outside,
    G: Fn(CheapMetrics) -> bool,
    B: Fn(Timestamp, StagedMetrics) -> bool,
    S: Fn(TimeRange) -> Vec<Selected>,
>(kits: Seq<Kit<C, W, A, X, G, B, S>>, states: Seq<Model>) -> bool {
    forall|i: int|
        0 <= i < kits.len() ==> (states[i].track.shot_start matches Some(s) ==> picks_from(
            (#[trigger] kits[i]).select,
            s.ticks(),
        ))
}

/// The keyframe selection goes on from what it picked before: with every frame, the
/// keyframes that it picks of a window rise, and lie later than those picked so far.
pub open spec fn goes_on<
    'a,
    C: Fn(Similarity, Real) -> Correlated,
    W: Fn(FrameDelta, Components) -> Measured,
    A: Fn(Window) -> Ratio,
    X: Fn(Frames<'a>, bool) -> Outside,
    G: Fn(CheapMetrics) -> bool,
    B: Fn(Timestamp, StagedMetrics) -> bool,
    S: Fn(TimeRange) -> Vec<Selected>,
>(
    kits: Seq<Kit<C, W, A, X, G, B, S>>,
    states: Seq<Model>,
    events: Seq<Option<Event>>,
) -> bool {
    forall|i: int|
        0 <= i < kits.len() ==> picks_rise(
            (#[trigger] kits[i]).select,
            latest(outputs(events.take(i)) + states[i].track.pending),
        )
}

/// A run keeps what holds of the outputs.
proof fn lemma_run_tells<
    'a,
    C: Fn(Similarity, Real) -> Correlated,
    W: Fn(FrameDelta, Components) -> Measured,
    A: Fn(Window) -> Ratio,
    X: Fn(Frames<'a>, bool) -> Outside,
    G: Fn(CheapMetrics) -> bool,
    B: Fn(Timestamp, StagedMetrics) -> bool,
    S: Fn(TimeRange) -> Vec<Selected>,
>(
    o: Options,
    frames: Seq<Frames<'a>>,
    kits: Seq<Kit<C, W, A, X, G, B, S>>,
    states: Seq<Model>,
    events: Seq<Option<Event>>,
    k: int,
    turn: bool,
    room: bool,
    rise: bool,
)
    requires
        frames.len() > 0,
        run(o, frames, kits, states, events),
        orderly(kits),
        turn ==> if room {
            roomy(kits)
        } else {
            passes(kits, states)
        },
        rise ==> goes_on(kits, states, events),
        0 <= k <= frames.len(),
    ensures
        telling(states[k], outputs(events.take(k)), frames[0].time()),
        turn ==> telling_in_turn(states[k], outputs(events.take(k)), room),
        rise ==> telling_rises(states[k], outputs(events.take(k))),
    decreases k,
{
    let first = frames[0].time();
    assert(sound_frame(frames[0]));
    if k == 0 {
        assert(outputs(events.take(0)) + states[0].track.pending =~= Seq::empty());
    } else {
        lemma_run_tells(o, frames, kits, states, events, k - 1, turn, room, rise);
        a_run_stays_on_track(o, frames, kits, states, events, k - 1);
        assert(sound_frame(frames[k - 1]));
        assert(reports_counted(kits[k - 1].outside));
        lemma_frame_tells(
            states[k - 1],
            frames[k - 1],
            kits[k - 1],
            states[k],
            events[k - 1],
            outputs(events.take(k - 1)),
            first,
            turn,
            room,
            rise,
        );
        assert(events.take(k).drop_last() =~= events.take(k - 1));
        assert(events.take(k).last() == events[k - 1]);
    }
}

/// Outputs never tell of the future: a keyframe lies before the frame that delivers it,
/// and a scene ends no later. They tell of nothing before the first frame either. A scene
/// that a lane closes lasts as long as the configuration of the lane asks for, and a forced
/// split tells how long its scene is.
pub proof fn outputs_tell_of_the_past<
    'a,
    C: Fn(Similarity, Real) -> Correlated,
    W: Fn(FrameDelta, Components) -> Measured,
    A: Fn(Window) -> Ratio,
    X: Fn(Frames<'a>, bool) -> Outside,
    G: Fn(CheapMetrics) -> bool,
    B: Fn(Timestamp, StagedMetrics) -> bool,
    S: Fn(TimeRange) -> Vec<Selected>,
>(
    o: Options,
    frames: Seq<Frames<'a>>,
    kits: Seq<Kit<C, W, A, X, G, B, S>>,
    states: Seq<Model>,
    events: Seq<Option<Event>>,
    k: int,
)
    requires
        run(o, frames, kits, states, events),
        orderly(kits),
        0 <= k < frames.len(),
    ensures
        ({
            let now = states[k].track.canonical(frames[k].time());
            events[k] matches Some(e) ==> match e {
                Event::Keyframe(f) => f.ts.base() == now.base() && frames[0].time().ticks()
                    <= f.ts.ticks() < now.ticks(),
                Event::Scene(s) => s.range.past() <= now.ticks() && spanned(o, s) && long_enough(
                    o,
                    frames[0].time(),
                    s,
                ),
            }
        }),
{
    lemma_run_tells(o, frames, kits, states, events, k + 1, false, false, false);
    a_run_stays_on_track(o, frames, kits, states, events, k);
    a_run_stays_on_track(o, frames, kits, states, events, k + 1);
    assert(sound_frame(frames[k]));
    a_frame_keeps_the_track(
        states[k],
        frames[k],
        kits[k],
        states[k + 1],
        events[k],
        outputs(events.take(k)),
        frames[0].time().ticks(),
    );
    if let Some(e) = events[k] {
        let told = outputs(events.take(k + 1));
        assert(events.take(k + 1).drop_last() =~= events.take(k));
        assert(events.take(k + 1).last() == events[k]);
        let q = told + states[k + 1].track.pending;
        assert(q[told.len() - 1] == e);
        assert(inside(o, frames[0].time(), states[k + 1].track.last_ts->0.ticks())(
            q[told.len() - 1],
        ));
    }
}

/// The first frame of a stream gives nothing.
pub proof fn a_first_frame_gives_nothing<
    'a,
    C: Fn(Similarity, Real) -> Correlated,
    W: Fn(FrameDelta, Components) -> Measured,
    A: Fn(Window) -> Ratio,
    X: Fn(Frames<'a>, bool) -> Outside,
    G: Fn(CheapMetrics) -> bool,
    B: Fn(Timestamp, StagedMetrics) -> bool,
    S: Fn(TimeRange) -> Vec<Selected>,
>(
    m: Model,
    frames: Frames<'a>,
    kit: Kit<C, W, A, X, G, B, S>,
    after: Model,
    event: Option<Event>,
    first: int,
)
    requires
        on_track(m, Seq::empty(), first),
        m.track.stream_timebase is None,
        sound_frame(frames),
        reports_past(kit.outside),
        m.pushed(frames, kit, after, event),
    ensures
        event is None,
        after.track.pending.len() == 0,
{
    let (f, metrics, intake, seen, cuts, open, settled) = choose|
        f: Frames<'a>,
        metrics: StagedMetrics,
        intake: Intake,
        seen: Outside,
        cuts: LaneCuts,
        open: Track,
        settled: Track,
    | #[trigger]
        m.pushed_by(frames, kit, f, metrics, intake, seen, cuts, open, settled, after, event);
    assert(m.pushed_by(frames, kit, f, metrics, intake, seen, cuts, open, settled, after, event));
    let o = m.options;
    let lag = lag_of(o);
    let at = frames.time();
    let tb = at.base();
    let lanes = if m.track.resets(Model::size_of(frames)) {
        m.lanes.cleared()
    } else {
        m.lanes
    };
    lemma_canonical_past(m, frames, f);
    lemma_cleared_all(m.lanes, until(at));
    lanes_report_what_they_saw(
        lanes,
        o,
        f,
        kit.correlate,
        kit.weigh,
        kit.average,
        seen,
        after.lanes,
        cuts,
        until(at),
    );
    a_shot_ends_in_order(open, o, cuts, at);
    let (contended, boundary) = open.contended(o, cuts, at);
    if let Some(b) = boundary {
        let w = choose|w: Track| #[trigger]
            contended.drained(b.at, kit.select, w) && settled == w.closed(b);
        rescale_is_monotone(at, b.at, tb);
        rescale_is_monotone(b.at, at, tb);
    }
}

/// The keyframe selection stays with the open shot: it takes every frame of the run, or it
/// picks nothing from before the open shot, at the end neither.
pub open spec fn stays_with_the_shot<
    'a,
    C: Fn(Similarity, Real) -> Correlated,
    W: Fn(FrameDelta, Components) -> Measured,
    A: Fn(Window) -> Ratio,
    X: Fn(Frames<'a>, bool) -> Outside,
    G: Fn(CheapMetrics) -> bool,
    B: Fn(Timestamp, StagedMetrics) -> bool,
    S: Fn(TimeRange) -> Vec<Selected>,
    E: Fn(TimeRange) -> Vec<Selected>,
>(kits: Seq<Kit<C, W, A, X, G, B, S>>, states: Seq<Model>, select: E) -> bool {
    roomy(kits) || (passes(kits, states) && picks_from(
        select,
        states.last().track.shot_start->0.ticks(),
    ))
}

/// No keyframe follows its scene: of all outputs of a stream, in order, every scene
/// before a keyframe ends no later than the keyframe lies. So the scene that holds a
/// keyframe comes behind it.
///
/// This rests on a keyframe selection that picks the keyframes of a window out of that
/// window and stays with the open shot, and on outside lanes that report in the timebase
/// of the frame and no later.
pub proof fn no_keyframe_follows_its_scene<
    'a,
    C: Fn(Similarity, Real) -> Correlated,
    W: Fn(FrameDelta, Components) -> Measured,
    A: Fn(Window) -> Ratio,
    X: Fn(Frames<'a>, bool) -> Outside,
    G: Fn(CheapMetrics) -> bool,
    B: Fn(Timestamp, StagedMetrics) -> bool,
    S: Fn(TimeRange) -> Vec<Selected>,
    E: Fn(TimeRange) -> Vec<Selected>,
>(
    o: Options,
    frames: Seq<Frames<'a>>,
    kits: Seq<Kit<C, W, A, X, G, B, S>>,
    states: Seq<Model>,
    events: Seq<Option<Event>>,
    fade: Option<Fired>,
    select: E,
    end: Track,
)
    requires
        frames.len() > 0,
        run(o, frames, kits, states, events),
        orderly(kits),
        picks_within(select),
        fired(fade, until(states.last().track.last_ts->0)),
        fired(fade, counted_in(frames[0].time().base())),
        states.last().track.finished(o, fade_boundary(o, fade), select, end),
        stays_with_the_shot(kits, states, select),
    ensures
        paired(outputs(events) + end.pending, in_turn()),
{
    let n = frames.len() as int;
    let room = roomy(kits);
    assert(sound_frame(frames[0]));
    lemma_run_tells(o, frames, kits, states, events, n, true, room, false);
    a_run_stays_on_track(o, frames, kits, states, events, n);
    assert(events.take(n) =~= events);
    lemma_end_tells(
        states.last(),
        fade,
        select,
        end,
        outputs(events),
        frames[0].time(),
        true,
        room,
        false,
    );
}

/// The keyframes of a stream rise: each lies strictly before every one behind it, within
/// a scene and across scenes.
///
/// This rests on a keyframe selection that goes on from what it picked before.
pub proof fn keyframes_rise<
    'a,
    C: Fn(Similarity, Real) -> Correlated,
    W: Fn(FrameDelta, Components) -> Measured,
    A: Fn(Window) -> Ratio,
    X: Fn(Frames<'a>, bool) -> Outside,
    G: Fn(CheapMetrics) -> bool,
    B: Fn(Timestamp, StagedMetrics) -> bool,
    S: Fn(TimeRange) -> Vec<Selected>,
    E: Fn(TimeRange) -> Vec<Selected>,
>(
    o: Options,
    frames: Seq<Frames<'a>>,
    kits: Seq<Kit<C, W, A, X, G, B, S>>,
    states: Seq<Model>,
    events: Seq<Option<Event>>,
    fade: Option<Fired>,
    select: E,
    end: Track,
)
    requires
        frames.len() > 0,
        run(o, frames, kits, states, events),
        orderly(kits),
        goes_on(kits, states, events),
        picks_within(select),
        picks_rise(select, latest(outputs(events) + states.last().track.pending)),
        fired(fade, until(states.last().track.last_ts->0)),
        fired(fade, counted_in(frames[0].time().base())),
        states.last().track.finished(o, fade_boundary(o, fade), select, end),
    ensures
        paired(outputs(events) + end.pending, rises()),
{
    let n = frames.len() as int;
    assert(sound_frame(frames[0]));
    lemma_run_tells(o, frames, kits, states, events, n, false, false, true);
    a_run_stays_on_track(o, frames, kits, states, events, n);
    assert(events.take(n) =~= events);
    lemma_end_tells(
        states.last(),
        fade,
        select,
        end,
        outputs(events),
        frames[0].time(),
        false,
        false,
        true,
    );
}

/// Where the scenes of a queue stand in it.
proof fn lemma_scene_stands(q: Seq<Event>, i: int) -> (j: int)
    requires
        0 <= i < scenes(q).len(),
    ensures
        0 <= j < q.len(),
        q[j] == scenes(q)[i],
    decreases q.len(),
{
    let rest = q.drop_first();
    if q[0] is Scene {
        if i == 0 {
            0
        } else {
            let j = lemma_scene_stands(rest, i - 1);
            assert(rest[j] == q[j + 1]);
            j + 1
        }
    } else {
        let j = lemma_scene_stands(rest, i);
        assert(rest[j] == q[j + 1]);
        j + 1
    }
}

/// Every output of a stream, with those of its end, tells of what lies between its first
/// frame and the tick past its last. A scene that a lane closes lasts as long as the
/// configuration of the lane asks for; a forced split tells how long its scene is, deferred
/// or not.
pub proof fn a_stream_tells_of_its_frames<
    'a,
    C: Fn(Similarity, Real) -> Correlated,
    W: Fn(FrameDelta, Components) -> Measured,
    A: Fn(Window) -> Ratio,
    X: Fn(Frames<'a>, bool) -> Outside,
    G: Fn(CheapMetrics) -> bool,
    B: Fn(Timestamp, StagedMetrics) -> bool,
    S: Fn(TimeRange) -> Vec<Selected>,
    E: Fn(TimeRange) -> Vec<Selected>,
>(
    o: Options,
    frames: Seq<Frames<'a>>,
    kits: Seq<Kit<C, W, A, X, G, B, S>>,
    states: Seq<Model>,
    events: Seq<Option<Event>>,
    fade: Option<Fired>,
    select: E,
    end: Track,
)
    requires
        frames.len() > 0,
        run(o, frames, kits, states, events),
        orderly(kits),
        picks_within(select),
        fired(fade, until(states.last().track.last_ts->0)),
        fired(fade, counted_in(frames[0].time().base())),
        states.last().track.finished(o, fade_boundary(o, fade), select, end),
    ensures
        each(
            outputs(events) + end.pending,
            inside(o, frames[0].time(), states.last().track.last_ts->0.ticks() + 1),
        ),
{
    let n = frames.len() as int;
    assert(sound_frame(frames[0]));
    lemma_run_tells(o, frames, kits, states, events, n, false, false, false);
    a_run_stays_on_track(o, frames, kits, states, events, n);
    assert(events.take(n) =~= events);
    lemma_end_tells(
        states.last(),
        fade,
        select,
        end,
        outputs(events),
        frames[0].time(),
        false,
        false,
        false,
    );
}

/// Every keyframe of a stream lies in one scene and in no other. `k` is the place of the
/// keyframe among all outputs, and the result that of its scene among the scenes.
///
/// This rests on a keyframe selection that picks the keyframes of a window out of that
/// window, and on outside lanes that report in the timebase of the frame and no later.
pub proof fn every_keyframe_has_one_scene<
    'a,
    C: Fn(Similarity, Real) -> Correlated,
    W: Fn(FrameDelta, Components) -> Measured,
    A: Fn(Window) -> Ratio,
    X: Fn(Frames<'a>, bool) -> Outside,
    G: Fn(CheapMetrics) -> bool,
    B: Fn(Timestamp, StagedMetrics) -> bool,
    S: Fn(TimeRange) -> Vec<Selected>,
    E: Fn(TimeRange) -> Vec<Selected>,
>(
    o: Options,
    frames: Seq<Frames<'a>>,
    kits: Seq<Kit<C, W, A, X, G, B, S>>,
    states: Seq<Model>,
    events: Seq<Option<Event>>,
    fade: Option<Fired>,
    select: E,
    end: Track,
    k: int,
) -> (i: int)
    requires
        frames.len() > 0,
        run(o, frames, kits, states, events),
        orderly(kits),
        picks_within(select),
        fired(fade, until(states.last().track.last_ts->0)),
        fired(fade, counted_in(frames[0].time().base())),
        states.last().track.finished(o, fade_boundary(o, fade), select, end),
        0 <= k < (outputs(events) + end.pending).len(),
        (outputs(events) + end.pending)[k] is Keyframe,
    ensures
        ({
            let q = outputs(events) + end.pending;
            let s = scenes(q);
            let key = q[k]->Keyframe_0;
            &&& key.ts.base() == frames[0].time().base()
            &&& 0 <= i < s.len()
            &&& scene_holds(s[i], key.ts.ticks())
            &&& forall|j: int|
                0 <= j < s.len() && #[trigger] scene_holds(s[j], key.ts.ticks()) ==> j == i
        }),
{
    let first = frames[0].time();
    let last = states.last().track.last_ts->0;
    let q = outputs(events) + end.pending;
    let key = q[k]->Keyframe_0;
    a_stream_tells_of_its_frames(o, frames, kits, states, events, fade, select, end);
    the_scenes_tile_the_stream(o, frames, kits, states, events, fade, select, end);
    assert(inside(o, first, last.ticks() + 1)(q[k]));
    every_tick_has_one_scene(
        scenes(q),
        first.ticks(),
        last.ticks() + 1,
        first.base(),
        key.ts.ticks(),
    )
}

/// The scene that holds a keyframe is told of behind it. `k` is the place of the keyframe
/// among all outputs, and the result that of its scene.
///
/// This rests on what `no_keyframe_follows_its_scene` rests on.
pub proof fn the_scene_of_a_keyframe_comes_behind_it<
    'a,
    C: Fn(Similarity, Real) -> Correlated,
    W: Fn(FrameDelta, Components) -> Measured,
    A: Fn(Window) -> Ratio,
    X: Fn(Frames<'a>, bool) -> Outside,
    G: Fn(CheapMetrics) -> bool,
    B: Fn(Timestamp, StagedMetrics) -> bool,
    S: Fn(TimeRange) -> Vec<Selected>,
    E: Fn(TimeRange) -> Vec<Selected>,
>(
    o: Options,
    frames: Seq<Frames<'a>>,
    kits: Seq<Kit<C, W, A, X, G, B, S>>,
    states: Seq<Model>,
    events: Seq<Option<Event>>,
    fade: Option<Fired>,
    select: E,
    end: Track,
    k: int,
) -> (j: int)
    requires
        frames.len() > 0,
        run(o, frames, kits, states, events),
        orderly(kits),
        picks_within(select),
        fired(fade, until(states.last().track.last_ts->0)),
        fired(fade, counted_in(frames[0].time().base())),
        states.last().track.finished(o, fade_boundary(o, fade), select, end),
        stays_with_the_shot(kits, states, select),
        0 <= k < (outputs(events) + end.pending).len(),
        (outputs(events) + end.pending)[k] is Keyframe,
    ensures
        ({
            let q = outputs(events) + end.pending;
            let tick = (q[k]->Keyframe_0).ts.ticks();
            &&& k < j < q.len()
            &&& scene_holds(q[j], tick)
            &&& forall|l: int| 0 <= l < q.len() && #[trigger] scene_holds(q[l], tick) ==> k < l
        }),
{
    let q = outputs(events) + end.pending;
    let tick = (q[k]->Keyframe_0).ts.ticks();
    let i = every_keyframe_has_one_scene(
        o,
        frames,
        kits,
        states,
        events,
        fade,
        select,
        end,
        k,
    );
    no_keyframe_follows_its_scene(o, frames, kits, states, events, fade, select, end);
    assert forall|l: int| 0 <= l < q.len() && #[trigger] scene_holds(q[l], tick) implies k
        < l by {
        if l < k {
            assert(in_turn()(q[l], q[k]));
        }
    }
    let j = lemma_scene_stands(q, i);
    assert(scene_holds(q[j], tick));
    j
}

} // verus!
