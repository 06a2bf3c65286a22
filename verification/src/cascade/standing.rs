//! Which boundaries stand, and in which order they count.

use vstd::arithmetic::div_mod::lemma_mod_multiples_basic;
use vstd::prelude::*;

use crate::cascade::detector::{Intake, Model};
use crate::cascade::event::{Event, HistogramPlane, Provenance, SceneEvent, SpanScore};
use crate::cascade::laws::{
    all_moving, cuts_keep_their_distance, first_of_earliest, named, ordered, picks_keep_scenes,
    precedence_decides_ties, scenes, scenes_are_never_shed, sorting_orders_by_time,
};
use crate::cascade::metrics::StagedMetrics;
use crate::cascade::options::{Options, PushError};
use crate::cascade::order::lane_rule;
use crate::cascade::rescale::{
    ceil_ticks, held_ticks, range_of, rescale_into_own_timebase_is_exact,
};
use crate::cascade::timeline::{
    gap_of, in_order, keyframe_of, queued, queued_all, shed, tick_after, Boundary, LaneCuts,
    Selected, Track, MAX_PENDING_OUTPUTS,
};
use crate::time::{
    min_length_met, moving, ticks_in, Duration, Relation, TimeRange, Timebase, Timestamp,
};

verus! {

/// An instant lies after the start of the open shot and after the last boundary that closed
/// a shot, with at least `min` passed since the latter.
pub open spec fn clear_of(t: Track, at: Timestamp, min: Duration) -> bool {
    &&& t.shot_start matches Some(s) ==> at.relation(s) == Relation::After
    &&& t.last_confirmed matches Some(l) ==> at.relation(l) == Relation::After && min_length_met(
        at,
        l,
        min,
    )
}

/// The lanes have warmed up for a cut: at least `min` has passed since the frame from which
/// they warm up.
pub open spec fn warmed_up(t: Track, at: Timestamp, min: Duration) -> bool {
    t.gate_anchor matches Some(a) ==> min_length_met(at, a, min)
}

/// A report stands: it is clear of the timeline by the minimum duration of its lane, and
/// where the lane may not cut at once, the lane has warmed up.
pub open spec fn report_stands(t: Track, o: Options, b: Boundary) -> bool {
    lane_rule(o, b.provenance) matches Some(rule) && clear_of(t, b.at, rule.0) && (rule.1
        || warmed_up(t, b.at, rule.0))
}

/// A boundary is among the reports on a frame.
pub open spec fn reported(c: LaneCuts, b: Boundary) -> bool {
    ||| c.fade == Some(b)
    ||| c.luma == Some(b)
    ||| c.hue == Some(b)
    ||| c.saturation == Some(b)
    ||| c.phash == Some(b)
    ||| c.content == Some(b)
    ||| c.adaptive == Some(b)
}

/// The place of a lane in the order of precedence: the fade first, then the histograms of
/// luma, hue and saturation, the perceptual hash, content and adaptive.
pub open spec fn rank(p: Provenance) -> int {
    match p {
        Provenance::Threshold(_) => 0,
        Provenance::Histogram(s) => match s.plane {
            HistogramPlane::Luma => 1,
            HistogramPlane::Hue => 2,
            HistogramPlane::Saturation => 3,
        },
        Provenance::Phash(_) => 4,
        Provenance::Content(_) => 5,
        Provenance::Adaptive(_) => 6,
        _ => 7,
    }
}

/// The boundaries of a sequence rise in precedence, and lie in a stretch of it.
spec fn ranked(s: Seq<Boundary>, from: int, to: int) -> bool {
    &&& forall|i: int| 0 <= i < s.len() ==> from <= rank((#[trigger] s[i]).provenance) < to
    &&& forall|i: int, j: int|
        0 <= i < j < s.len() ==> rank((#[trigger] s[i]).provenance) < rank(
            (#[trigger] s[j]).provenance,
        )
}

/// Two stretches of precedence, one behind the other, are one.
proof fn lemma_ranked(a: Seq<Boundary>, b: Seq<Boundary>, from: int, mid: int, to: int)
    requires
        ranked(a, from, mid),
        ranked(b, mid, to),
        from <= mid <= to,
    ensures
        ranked(a + b, from, to),
{
    let s = a + b;
    assert forall|i: int| 0 <= i < s.len() implies from <= rank((#[trigger] s[i]).provenance)
        < to by {
        if i < a.len() {
            assert(s[i] == a[i]);
        } else {
            assert(s[i] == b[i - a.len()]);
        }
    }
    assert forall|i: int, j: int| 0 <= i < j < s.len() implies rank((#[trigger] s[i]).provenance)
        < rank((#[trigger] s[j]).provenance) by {
        if j < a.len() {
            assert(s[i] == a[i] && s[j] == a[j]);
        } else if i < a.len() {
            assert(s[i] == a[i] && s[j] == b[j - a.len()]);
        } else {
            assert(s[i] == b[i - a.len()] && s[j] == b[j - a.len()]);
        }
    }
}

/// What a sequence made of two holds.
proof fn lemma_contains(a: Seq<Boundary>, b: Seq<Boundary>, e: Boundary)
    ensures
        (a + b).contains(e) <==> a.contains(e) || b.contains(e),
{
    let s = a + b;
    if a.contains(e) {
        let i = choose|i: int| 0 <= i < a.len() && a[i] == e;
        assert(s[i] == e);
    }
    if b.contains(e) {
        let i = choose|i: int| 0 <= i < b.len() && b[i] == e;
        assert(s[a.len() + i] == e);
    }
    if s.contains(e) {
        let i = choose|i: int| 0 <= i < s.len() && s[i] == e;
        if i < a.len() {
            assert(a[i] == e);
        } else {
            assert(b[i - a.len()] == e);
        }
    }
}

/// What a lane adds to the reports that contend: its report, where that stands.
proof fn lemma_lane_adds(
    t: Track,
    o: Options,
    report: Option<Boundary>,
    rule: (Duration, bool),
    place: int,
    e: Boundary,
)
    requires
        report matches Some(b) ==> lane_rule(o, b.provenance) == Some(rule) && rank(b.provenance)
            == place,
    ensures
        t.gated(report, rule.0, rule.1).contains(e) <==> report == Some(e) && report_stands(
            t,
            o,
            e,
        ),
        ranked(t.gated(report, rule.0, rule.1), place, place + 1),
{
    let s = t.gated(report, rule.0, rule.1);
    if let Some(b) = report {
        if t.admissible(b.at, rule.0, !rule.1) {
            assert(s[0] == b);
        }
        if s.contains(e) {
            let i = choose|i: int| 0 <= i < s.len() && s[i] == e;
            assert(i == 0);
        }
    }
}

/// The reports that contend are those that stand, in the order of precedence.
proof fn lemma_reports(t: Track, o: Options, c: LaneCuts, e: Boundary)
    requires
        named(c),
    ensures
        t.reports(o, c).contains(e) <==> reported(c, e) && report_stands(t, o, e),
        ranked(t.reports(o, c), 0, 7),
{
    let fade = t.gated(c.fade, o.threshold.min_duration, o.threshold.initial_cut);
    let luma = t.gated(
        c.luma,
        o.luma_histogram.min_duration,
        o.luma_histogram.allow_initial_cut,
    );
    let hue = t.gated(c.hue, o.hue_histogram.min_duration, o.hue_histogram.allow_initial_cut);
    let sat = t.gated(c.saturation, o.sat_histogram.min_duration, o.sat_histogram.allow_initial_cut);
    let phash = t.gated(c.phash, o.phash.min_duration, o.phash.initial_cut);
    let content = t.gated(c.content, o.content.min_duration, o.content.initial_cut);
    let adaptive = t.gated(c.adaptive, o.adaptive.min_duration, o.adaptive.initial_cut);
    lemma_lane_adds(t, o, c.fade, (o.threshold.min_duration, o.threshold.initial_cut), 0, e);
    lemma_lane_adds(
        t,
        o,
        c.luma,
        (o.luma_histogram.min_duration, o.luma_histogram.allow_initial_cut),
        1,
        e,
    );
    lemma_lane_adds(
        t,
        o,
        c.hue,
        (o.hue_histogram.min_duration, o.hue_histogram.allow_initial_cut),
        2,
        e,
    );
    lemma_lane_adds(
        t,
        o,
        c.saturation,
        (o.sat_histogram.min_duration, o.sat_histogram.allow_initial_cut),
        3,
        e,
    );
    lemma_lane_adds(t, o, c.phash, (o.phash.min_duration, o.phash.initial_cut), 4, e);
    lemma_lane_adds(t, o, c.content, (o.content.min_duration, o.content.initial_cut), 5, e);
    lemma_lane_adds(t, o, c.adaptive, (o.adaptive.min_duration, o.adaptive.initial_cut), 6, e);
    lemma_contains(fade, luma, e);
    lemma_ranked(fade, luma, 0, 1, 2);
    lemma_contains(fade + luma, hue, e);
    lemma_ranked(fade + luma, hue, 0, 2, 3);
    lemma_contains(fade + luma + hue, sat, e);
    lemma_ranked(fade + luma + hue, sat, 0, 3, 4);
    lemma_contains(fade + luma + hue + sat, phash, e);
    lemma_ranked(fade + luma + hue + sat, phash, 0, 4, 5);
    lemma_contains(fade + luma + hue + sat + phash, content, e);
    lemma_ranked(fade + luma + hue + sat + phash, content, 0, 5, 6);
    lemma_contains(fade + luma + hue + sat + phash + content, adaptive, e);
    lemma_ranked(fade + luma + hue + sat + phash + content, adaptive, 0, 6, 7);
}

/// A boundary is a forced split that is due: the open shot has run at it for as long as the
/// configuration lets a scene run, and it tells for how long.
pub open spec fn split_due(t: Track, o: Options, b: Boundary) -> bool {
    o.max_scene_duration matches Some(cap) && t.shot_start matches Some(start) && min_length_met(
        b.at,
        start,
        cap,
    ) && b.provenance == Provenance::MaxSpan(SpanScore { span: b.at.since(start)->0, cap })
}

/// A boundary comes from one that was deferred and still stands: a forced split that is due
/// anew at the same instant, or else the boundary itself; in either case clear of the
/// timeline, by the minimum duration of its lane.
pub open spec fn comes_again(t: Track, o: Options, d: Boundary, b: Boundary) -> bool {
    if d.provenance is MaxSpan {
        b.at == d.at && split_due(t, o, b) && clear_of(t, b.at, Duration::of_nanos(0))
    } else {
        b == d && clear_of(
            t,
            b.at,
            match lane_rule(o, b.provenance) {
                Some(rule) => rule.0,
                None => Duration::of_nanos(0),
            },
        )
    }
}

/// The deferred boundaries that contend are those that come again.
proof fn lemma_survivors(t: Track, o: Options, s: Seq<Boundary>, e: Boundary)
    ensures
        t.survivors(o, s).contains(e) <==> exists|i: int|
            0 <= i < s.len() && comes_again(t, o, #[trigger] s[i], e),
    decreases s.len(),
{
    let all = t.survivors(o, s);
    if s.len() == 0 {
        assert(!all.contains(e));
    } else {
        let init = s.drop_last();
        let kept = t.survivors(o, init);
        let n = s.len() - 1;
        lemma_survivors(t, o, init, e);
        let adds = comes_again(t, o, s[n], e);
        assert(adds <==> (t.revalidated(o, s[n]) == Some(e) && t.admissible(
            e.at,
            gap_of(o, e.provenance),
            false,
        )));
        if adds {
            assert(all[kept.len() as int] == e);
        }
        if kept.contains(e) {
            let k = choose|k: int| 0 <= k < kept.len() && kept[k] == e;
            assert(all[k] == e);
            let i = choose|i: int| 0 <= i < init.len() && comes_again(t, o, #[trigger] init[i], e);
            assert(comes_again(t, o, s[i], e));
        }
        if all.contains(e) && !adds {
            let k = choose|k: int| 0 <= k < all.len() && all[k] == e;
            assert(k < kept.len());
            assert(kept[k] == e);
        }
        if exists|i: int| 0 <= i < s.len() && comes_again(t, o, #[trigger] s[i], e) {
            let i = choose|i: int| 0 <= i < s.len() && comes_again(t, o, #[trigger] s[i], e);
            if i < n {
                assert(comes_again(t, o, init[i], e));
                assert(kept.contains(e));
            }
        }
    }
}

/// What contends for a shot on a frame at `ts`: the reports that stand, the deferred
/// boundaries that come again, and the forced split at the frame where it is due; nothing
/// else.
pub proof fn what_contends(t: Track, o: Options, c: LaneCuts, ts: Timestamp, e: Boundary)
    requires
        named(c),
    ensures
        t.contenders(o, c, ts).contains(e) <==> {
            ||| reported(c, e) && report_stands(t, o, e)
            ||| exists|i: int| 0 <= i < t.deferred.len() && comes_again(
                t,
                o,
                #[trigger] t.deferred[i],
                e,
            )
            ||| e.at == ts && split_due(t, o, e)
        },
{
    let r = t.reports(o, c);
    let d = t.survivors(o, t.deferred);
    let all = t.contenders(o, c, ts);
    lemma_reports(t, o, c, e);
    lemma_survivors(t, o, t.deferred, e);
    lemma_contains(r, d, e);
    match t.split(o, ts) {
        Some(b) => {
            assert(all == (r + d).push(b));
            assert(all[(r + d).len() as int] == b);
            if (r + d).contains(e) {
                let i = choose|i: int| 0 <= i < (r + d).len() && (r + d)[i] == e;
                assert(all[i] == e);
            }
            if all.contains(e) {
                let i = choose|i: int| 0 <= i < all.len() && all[i] == e;
                if i < (r + d).len() {
                    assert((r + d)[i] == e);
                }
            }
        },
        None => {
            assert(all == r + d);
        },
    }
}

/// A lane that closes a shot keeps the minimum duration configured for it: the cut lies
/// after the start of the shot, and at least that long after the cut before, if there was
/// one.
pub proof fn a_lane_keeps_its_minimum_duration(t: Track, o: Options, c: LaneCuts, ts: Timestamp)
    requires
        named(c),
        all_moving(t.contenders(o, c, ts)),
        t.contended(o, c, ts).1 is Some,
    ensures
        ({
            let b = t.contended(o, c, ts).1->0;
            lane_rule(o, b.provenance) matches Some(rule) ==> {
                &&& t.shot_start matches Some(s) ==> b.at.relation(s) == Relation::After
                &&& t.last_confirmed matches Some(l) ==> b.at.relation(l) == Relation::After
                    && min_length_met(b.at, l, rule.0)
            }
        }),
{
    cuts_keep_their_distance(t, o, c, ts);
}

/// Of the reports on a frame that stand at one instant, the lane first in precedence closes
/// the shot; and any report that stands comes before a deferred boundary and before the
/// forced split of the same instant.
pub proof fn precedence_follows_the_lanes(
    t: Track,
    o: Options,
    c: LaneCuts,
    ts: Timestamp,
    e: Boundary,
)
    requires
        named(c),
        all_moving(t.contenders(o, c, ts)),
        t.contended(o, c, ts).1 is Some,
        reported(c, e),
        report_stands(t, o, e),
        e.at.relation(t.contended(o, c, ts).1->0.at) == Relation::Same,
    ensures
        ({
            let b = t.contended(o, c, ts).1->0;
            &&& reported(c, b)
            &&& report_stands(t, o, b)
            &&& rank(b.provenance) <= rank(e.provenance)
        }),
{
    let all = t.contenders(o, c, ts);
    let b = t.contended(o, c, ts).1->0;
    let r = t.reports(o, c);
    lemma_reports(t, o, c, e);
    lemma_reports(t, o, c, b);
    assert(all.len() > 0) by {
        sorting_orders_by_time(all);
    }
    precedence_decides_ties(t, o, c, ts);
    let k = choose|k: int| #[trigger] first_of_earliest(all, k, b);
    let i = choose|i: int| 0 <= i < r.len() && r[i] == e;
    assert(all[i] == e);
    assert(k <= i);
    assert(all[k] == r[k]);
    assert(r.contains(b));
}

/// A boundary that is owed at the end of the stream closes the open shot just where it comes
/// again; otherwise it is passed over.
pub proof fn an_owed_boundary_closes_where_it_stands<S: Fn(TimeRange) -> Vec<Selected>>(
    t: Track,
    o: Options,
    d: Boundary,
    select: S,
    after: Track,
)
    requires
        t.owed_step(o, d, select, after),
    ensures
        (exists|b: Boundary| comes_again(t, o, d, b)) ==> exists|b: Boundary, w: Track|
            #![trigger comes_again(t, o, d, b), t.drained(b.at, select, w)]
            comes_again(t, o, d, b) && t.drained(b.at, select, w) && after == w.closed(b),
        !(exists|b: Boundary| comes_again(t, o, d, b)) ==> after == t,
{
    if let Some(b) = t.revalidated(o, d) {
        let stands = t.admissible(b.at, gap_of(o, b.provenance), false);
        assert(stands <==> comes_again(t, o, d, b));
        if stands {
            let w = choose|w: Track| #[trigger]
                t.drained(b.at, select, w) && after == w.closed(b);
            assert(comes_again(t, o, d, b) && t.drained(b.at, select, w));
        } else {
            assert forall|e: Boundary| !comes_again(t, o, d, e) by {
                if comes_again(t, o, d, e) {
                    assert(e == b);
                }
            }
        }
    }
}

/// What is owed at the end of the stream: every deferred boundary, and the last fade where
/// the fade lane may cut at once or has warmed up; in the order of time.
pub proof fn what_is_owed(t: Track, o: Options, fade: Option<Boundary>, e: Boundary)
    requires
        all_moving(t.deferred),
        fade matches Some(f) ==> moving(f.at),
    ensures
        t.owed(o, fade).contains(e) <==> {
            ||| t.deferred.contains(e)
            ||| fade == Some(e) && (o.threshold.initial_cut || warmed_up(
                t,
                e.at,
                o.threshold.min_duration,
            ))
        },
        ordered(t.owed(o, fade)),
{
    let s = match fade {
        Some(f) => if t.fade_stands(o, f.at) {
            t.deferred.push(f)
        } else {
            t.deferred
        },
        None => t.deferred,
    };
    assert(t.owed(o, fade) == in_order(s));
    assert forall|i: int| 0 <= i < s.len() implies moving((#[trigger] s[i]).at) by {
        if i < t.deferred.len() {
            assert(s[i] == t.deferred[i]);
        }
    }
    sorting_orders_by_time(s);
    assert(in_order(s).contains(e) <==> s.contains(e));
    if t.deferred.contains(e) {
        let i = choose|i: int| 0 <= i < t.deferred.len() && t.deferred[i] == e;
        assert(s[i] == e);
    }
    if let Some(f) = fade {
        if t.fade_stands(o, f.at) {
            assert(s[t.deferred.len() as int] == f);
        }
    }
    if s.contains(e) {
        let i = choose|i: int| 0 <= i < s.len() && s[i] == e;
        if i < t.deferred.len() {
            assert(t.deferred[i] == e);
        }
    }
}

/// Keyframe windows follow each other: the one that ends at `point` starts where the last
/// one ended, holds time, and the next one starts at `point`. Only the queue changes besides.
pub proof fn windows_follow_each_other<S: Fn(TimeRange) -> Vec<Selected>>(
    t: Track,
    point: Timestamp,
    select: S,
    after: Track,
)
    requires
        t.drained(point, select, after),
        t.last_finalize is Some,
    ensures
        ({
            let start = t.last_finalize->0;
            let holds = point.relation(start) == Relation::After && start.ticks()
                <= point.ticks();
            &&& after.last_finalize == Some(point)
            &&& after == (Track { pending: after.pending, last_finalize: Some(point), ..t })
            &&& !holds ==> after.pending == t.pending
            &&& holds ==> exists|v: Vec<Selected>| #[trigger]
                select.ensures(
                    (TimeRange::spanning(start.ticks(), point.ticks(), point.base()),),
                    v,
                ) && after.pending == queued_all(t.pending, v@)
        }),
{
    let start = t.last_finalize->0;
    if point.relation(start) == Relation::After && start.ticks() <= point.ticks() {
        let r = TimeRange::spanning(start.ticks(), point.ticks(), point.base());
        assert(t.window_to(point) == Some(r));
        let v = choose|v: Vec<Selected>| #[trigger]
            select.ensures((r,), v) && after == (Track {
                pending: queued_all(t.pending, v@),
                ..t
            }).reanchored(point);
        assert(select.ensures((r,), v));
    }
}

/// A keyframe window that is over ends on a whole number of intervals after its start, the
/// last such instant that is no later than the safe horizon; where not even one has passed,
/// none is over.
pub proof fn windows_end_on_whole_intervals(t: Track, o: Options, ts: Timestamp, lag: int)
    requires
        t.safe_horizon(ts, lag) is Some,
        t.last_finalize is Some,
        0 <= t.safe_horizon(ts, lag)->0.ticks() - t.last_finalize->0.ticks() <= i64::MAX,
        i64::MIN <= t.last_finalize->0.ticks(),
        t.safe_horizon(ts, lag)->0.ticks() <= i64::MAX,
    ensures
        ({
            let start = t.last_finalize->0;
            let safe = t.safe_horizon(ts, lag)->0;
            let ticks = ticks_in(start.base(), o.select.target_interval);
            let interval = if ticks < 1 {
                1
            } else {
                ticks
            };
            match t.window_end(o, ts, lag) {
                Some(p) => {
                    &&& p.base() == start.base()
                    &&& start.ticks() < p.ticks() <= safe.ticks() < p.ticks() + interval
                    &&& (p.ticks() - start.ticks()) % interval == 0
                },
                None => safe.ticks() < start.ticks() + interval,
            }
        }),
{
    let start = t.last_finalize->0;
    let safe = t.safe_horizon(ts, lag)->0;
    let ticks = ticks_in(start.base(), o.select.target_interval);
    let interval = if ticks < 1 {
        1
    } else {
        ticks
    };
    let d = safe.ticks() - start.ticks();
    if d >= interval {
        let k = d / interval;
        assert(k >= 1 && 0 <= k * interval <= d && d - k * interval < interval && k * interval
            >= interval) by (nonlinear_arith)
            requires
                interval >= 1,
                d >= interval,
                k == d / interval,
        ;
        assert(t.window_end(o, ts, lag)->0.ticks() - start.ticks() == k * interval);
        lemma_mod_multiples_basic(k, interval);
    }
}

/// The safe horizon is the frame itself where no cut lags, and otherwise the oldest of the
/// last `lag` frames, once there are as many.
pub proof fn the_safe_horizon_lags_behind(t: Track, ts: Timestamp, dims: (u32, u32), lag: int)
    requires
        0 <= lag,
        t.recent.len() <= lag,
    ensures
        ({
            let after = t.admitted(ts, dims, lag);
            &&& lag == 0 ==> after.safe_horizon(ts, lag) == Some(ts)
            &&& lag > 0 ==> {
                &&& after.recent.last() == ts
                &&& after.recent.len() == if t.recent.len() < lag {
                    t.recent.len() + 1
                } else {
                    t.recent.len()
                }
                &&& forall|i: int|
                    0 <= i < after.recent.len() - 1 ==> #[trigger] after.recent[i]
                        == t.recent[t.recent.len() - (after.recent.len() - 1) + i]
                &&& after.recent.len() < lag ==> after.safe_horizon(ts, lag) is None
                &&& after.recent.len() == lag ==> after.safe_horizon(ts, lag) == Some(
                    after.recent[0],
                )
            }
        }),
{
}

/// Where there is a keyframe in a queue, shedding takes the oldest one, and leaves all else
/// in its order; where there is none, it takes nothing.
pub proof fn the_oldest_keyframe_is_shed(q: Seq<Event>, i: int)
    requires
        0 <= i <= q.len(),
        forall|j: int| 0 <= j < i ==> (#[trigger] q[j]) is Scene,
        i < q.len() ==> q[i] is Keyframe,
    ensures
        shed(q) == if i < q.len() {
            q.remove(i)
        } else {
            q
        },
    decreases q.len(),
{
    if q.len() > 0 {
        if q[0] is Keyframe {
            assert(i == 0);
            assert(q.remove(0) =~= q.drop_first());
        } else {
            let rest = q.drop_first();
            assert forall|j: int| 0 <= j < i - 1 implies (#[trigger] rest[j]) is Scene by {
                assert(rest[j] == q[j + 1]);
            }
            the_oldest_keyframe_is_shed(rest, i - 1);
            if i < q.len() {
                assert(seq![q[0]] + rest.remove(i - 1) =~= q.remove(i));
            } else {
                assert(seq![q[0]] + rest =~= q);
            }
        }
    }
}

/// Outputs leave the queue in the order in which they entered it.
pub proof fn the_queue_is_first_in_first_out(t: Track)
    ensures
        ({
            let (after, event) = t.popped();
            &&& event is None <==> t.pending.len() == 0
            &&& event matches Some(e) ==> t.pending == seq![e] + after.pending
            &&& event is None ==> after == t
            &&& after == (Track { pending: after.pending, ..t })
        }),
{
    if t.pending.len() > 0 {
        assert(t.pending =~= seq![t.pending[0]] + t.pending.drop_first());
    }
}

/// A frame is let in just where it lies no earlier than the last one, in whole ticks of the
/// timebase of the stream, and a scene can still end one tick behind it, in its own timebase
/// and in that of the stream. One that lies earlier is refused as out of order, unless it lies
/// at the limit.
pub proof fn frames_are_refused_for_cause(t: Track, ts: Timestamp)
    ensures
        ({
            let room = ts.ticks() != i64::MAX && (t.stream_timebase matches Some(tb) ==> i64::MIN
                <= ceil_ticks(tick_after(ts), tb) <= i64::MAX) && t.canonical(ts).ticks()
                != i64::MAX;
            let early = t.last_ts matches Some(l) && t.canonical(ts).relation(l)
                == Relation::Before;
            &&& t.fault(ts) is None <==> room && !early
            &&& t.fault(ts) == Some(PushError::OutOfOrder) <==> room && early
            &&& t.fault(ts) == Some(PushError::TimestampAtLimit) <==> !room
        }),
{
}

/// A frame of the timebase of the stream is let in just where it lies no earlier than the last
/// one and before the largest tick.
pub proof fn frames_of_the_stream_are_let_in_by_their_ticks(
    t: Track,
    tb: Timebase,
    last: Timestamp,
    ts: Timestamp,
)
    requires
        t.stream_timebase == Some(tb),
        t.last_ts == Some(last),
        moving(ts),
        moving(last),
        ts.base() == tb,
        last.base() == tb,
    ensures
        t.fault(ts) is None <==> last.ticks() <= ts.ticks() < i64::MAX,
        ts.ticks() < i64::MAX ==> t.canonical(ts).ticks() == ts.ticks(),
{
    if ts.ticks() < i64::MAX {
        rescale_into_own_timebase_is_exact(ts, tb);
        rescale_into_own_timebase_is_exact(tick_after(ts), tb);
    }
}

/// A picked frame is told of at its own time, with its metrics: as one of quality where it
/// passed every gate, and as a fallback where it did not.
pub proof fn picks_tell_whether_they_passed(s: Selected)
    ensures
        keyframe_of(s) matches Event::Keyframe(k) && k.ts == s.ts && (s.strict ==> k.provenance
            == Provenance::Quality(s.metrics)) && (!s.strict ==> k.provenance
            == Provenance::Fallback(s.metrics)),
{
}

/// A boundary first closes the keyframe window up to it, so that the keyframes of the shot are
/// told of, and then ends the scene, which is told of behind them: from the start of the shot
/// to the boundary, with what proposed it. The next shot and the next window start there, and
/// the next cut is held against it.
pub proof fn a_boundary_closes_its_window_and_its_shot<S: Fn(TimeRange) -> Vec<Selected>>(
    t: Track,
    o: Options,
    b: Boundary,
    ts: Timestamp,
    lag: int,
    select: S,
    after: Track,
    start: Timestamp,
    tb: Timebase,
)
    requires
        t.settled(o, Some(b), ts, lag, select, after),
        t.shot_start == Some(start),
        t.stream_timebase == Some(tb),
        t.last_finalize is Some,
    ensures
        after.shot_start == Some(b.at),
        after.last_confirmed == Some(b.at),
        after.last_finalize == Some(b.at),
        after.deferred == t.deferred,
        after.gate_anchor == t.gate_anchor,
        exists|w: Track|
            #![trigger t.drained(b.at, select, w)]
            t.drained(b.at, select, w) && after.pending == if held_ticks(start, tb) < held_ticks(
                b.at,
                tb,
            ) {
                queued(
                    w.pending,
                    Event::Scene(
                        SceneEvent {
                            range: TimeRange::spanning(
                                held_ticks(start, tb),
                                held_ticks(b.at, tb),
                                tb,
                            ),
                            provenance: b.provenance,
                        },
                    ),
                )
            } else {
                w.pending
            },
{
    let w = choose|w: Track| #[trigger] t.drained(b.at, select, w) && after == w.closed(b);
    assert(t.drained(b.at, select, w));
    windows_follow_each_other(t, b.at, select, w);
}

/// Without a boundary, the keyframe windows that are over are closed, and nothing else
/// changes.
pub proof fn windows_close_without_a_boundary<S: Fn(TimeRange) -> Vec<Selected>>(
    t: Track,
    o: Options,
    ts: Timestamp,
    lag: int,
    select: S,
    after: Track,
)
    requires
        t.settled(o, None, ts, lag, select, after),
    ensures
        t.window_end(o, ts, lag) is None ==> after == t,
        t.window_end(o, ts, lag) matches Some(p) ==> t.drained(p, select, after),
        after.shot_start == t.shot_start,
        after.last_confirmed == t.last_confirmed,
        scenes(after.pending) == scenes(t.pending),
{
    if let Some(p) = t.window_end(o, ts, lag) {
        lemma_drained_scenes(t, p, select, after);
    }
}

/// Closing a keyframe window leaves the scenes.
proof fn lemma_drained_scenes<S: Fn(TimeRange) -> Vec<Selected>>(
    t: Track,
    point: Timestamp,
    select: S,
    after: Track,
)
    requires
        t.drained(point, select, after),
    ensures
        scenes(after.pending) == scenes(t.pending),
        after.shot_start == t.shot_start,
        after.stream_timebase == t.stream_timebase,
        after.last_confirmed == t.last_confirmed,
{
    if let Some(r) = t.window_to(point) {
        let v = choose|v: Vec<Selected>| #[trigger]
            select.ensures((r,), v) && after == (Track {
                pending: queued_all(t.pending, v@),
                ..t
            }).reanchored(point);
        picks_keep_scenes(t.pending, v@);
    }
}

/// A queue of scenes goes on from another.
pub open spec fn goes_on(a: Seq<Event>, b: Seq<Event>) -> bool {
    a.len() <= b.len() && b.take(a.len() as int) == a
}

/// Closing a shot adds a scene to those that are queued, or none.
proof fn lemma_closed_goes_on(t: Track, b: Boundary)
    ensures
        goes_on(scenes(t.pending), scenes(t.closed(b).pending)),
{
    let q = scenes(t.pending);
    assert(q.take(q.len() as int) =~= q);
    if let Some(start) = t.shot_start {
        let tb = match t.stream_timebase {
            Some(tb) => tb,
            None => b.at.base(),
        };
        if let Some(range) = range_of(start, b.at, tb) {
            let e = Event::Scene(SceneEvent { range, provenance: b.provenance });
            scenes_are_never_shed(t.pending, e);
            assert(q.push(e).take(q.len() as int) =~= q);
        }
    }
}

/// The boundaries that are owed only add scenes.
proof fn lemma_owed_goes_on<S: Fn(TimeRange) -> Vec<Selected>>(
    t: Track,
    o: Options,
    s: Seq<Boundary>,
    select: S,
    states: Seq<Track>,
    j: int,
    k: int,
)
    requires
        t.owed_trace(o, s, select, states),
        0 <= j <= k <= s.len(),
    ensures
        goes_on(scenes(states[j].pending), scenes(states[k].pending)),
    decreases k - j,
{
    let a = scenes(states[j].pending);
    if j == k {
        assert(a.take(a.len() as int) =~= a);
    } else {
        lemma_owed_goes_on(t, o, s, select, states, j, k - 1);
        assert(states[k - 1].owed_step(o, s[k - 1], select, states[k - 1 + 1]));
        let b = scenes(states[k - 1].pending);
        let c = scenes(states[k].pending);
        lemma_owed_step_goes_on(states[k - 1], o, s[k - 1], select, states[k]);
        assert(c.take(a.len() as int) =~= b.take(a.len() as int)) by {
            assert forall|i: int| 0 <= i < a.len() implies c[i] == b[i] by {
                assert(c.take(b.len() as int)[i] == c[i]);
            }
        }
    }
}

/// A boundary that is owed only adds a scene.
proof fn lemma_owed_step_goes_on<S: Fn(TimeRange) -> Vec<Selected>>(
    t: Track,
    o: Options,
    d: Boundary,
    select: S,
    after: Track,
)
    requires
        t.owed_step(o, d, select, after),
    ensures
        goes_on(scenes(t.pending), scenes(after.pending)),
{
    let q = scenes(t.pending);
    assert(q.take(q.len() as int) =~= q);
    if let Some(b) = t.revalidated(o, d) {
        if t.admissible(b.at, gap_of(o, b.provenance), false) {
            let w = choose|w: Track| #[trigger]
                t.drained(b.at, select, w) && after == w.closed(b);
            lemma_drained_scenes(t, b.at, select, w);
            lemma_closed_goes_on(w, b);
        }
    }
}

/// What is owed at the end of the stream is not lost: every boundary that is owed, in the order
/// of time, ends a scene where it comes again behind the ones before it, and all these scenes
/// are told of, with the last one, from the last of them to one tick past the last frame.
pub proof fn the_end_closes_what_is_owed<S: Fn(TimeRange) -> Vec<Selected>>(
    t: Track,
    o: Options,
    fade: Option<Boundary>,
    select: S,
    after: Track,
    last: Timestamp,
    tb: Timebase,
) -> (states: Seq<Track>)
    requires
        t.finished(o, fade, select, after),
        t.shot_start is Some,
        t.last_ts == Some(last),
        t.stream_timebase == Some(tb),
    ensures
        states.len() == t.owed(o, fade).len() + 1,
        states[0] == (Track { deferred: Seq::empty(), ..t }),
        forall|i: int|
            0 <= i < t.owed(o, fade).len() ==> states[i].owed_step(
                o,
                #[trigger] t.owed(o, fade)[i],
                select,
                states[i + 1],
            ),
        forall|i: int|
            0 <= i < states.len() ==> goes_on(
                scenes((#[trigger] states[i]).pending),
                scenes(after.pending),
            ),
        after.last_confirmed == Some(tick_after(last)),
        after.shot_start == Some(tick_after(last)),
{
    let closing = Boundary { at: tick_after(last), provenance: Provenance::Finalized };
    assert(t.last_boundary() == Some(closing));
    let base = Track { deferred: Seq::empty(), ..t };
    let owed = t.owed(o, fade);
    let (mid, w) = choose|mid: Track, w: Track|
        #![trigger mid.drained(closing.at, select, w)]
        base.owed_steps(o, owed, select, mid) && mid.drained(closing.at, select, w) && after
            == w.closed(closing);
    let states = choose|states: Seq<Track>| #[trigger]
        base.owed_trace(o, owed, select, states) && states.last() == mid;
    let n = owed.len() as int;
    lemma_drained_scenes(mid, closing.at, select, w);
    lemma_closed_goes_on(w, closing);
    assert forall|i: int| 0 <= i < states.len() implies goes_on(
        scenes((#[trigger] states[i]).pending),
        scenes(after.pending),
    ) by {
        lemma_owed_goes_on(base, o, owed, select, states, i, n);
        let (a, b, c) = (
            scenes(states[i].pending),
            scenes(states[n].pending),
            scenes(after.pending),
        );
        assert(states[n] == mid);
        assert(c.take(a.len() as int) =~= b.take(a.len() as int)) by {
            assert forall|k: int| 0 <= k < a.len() implies c[k] == b[k] by {
                assert(c.take(b.len() as int)[k] == c[k]);
            }
        }
    }
    lemma_mid_shot(base, o, owed, select, states, n);
    states
}

/// While owed boundaries close shots, there is an open shot, and the timebase stays.
proof fn lemma_mid_shot<S: Fn(TimeRange) -> Vec<Selected>>(
    t: Track,
    o: Options,
    s: Seq<Boundary>,
    select: S,
    states: Seq<Track>,
    k: int,
)
    requires
        t.owed_trace(o, s, select, states),
        t.shot_start is Some,
        0 <= k <= s.len(),
    ensures
        states[k].shot_start is Some,
    decreases k,
{
    if k > 0 {
        lemma_mid_shot(t, o, s, select, states, k - 1);
        assert(states[k - 1].owed_step(o, s[k - 1], select, states[k - 1 + 1]));
        let a = states[k - 1];
        if let Some(b) = a.revalidated(o, s[k - 1]) {
            if a.admissible(b.at, gap_of(o, b.provenance), false) {
                let w = choose|w: Track| #[trigger]
                    a.drained(b.at, select, w) && states[k] == w.closed(b);
                lemma_drained_scenes(a, b.at, select, w);
            }
        }
    }
}

/// Every frame is offered to the keyframe selection, with its metrics. Where that takes it,
/// nothing else happens; where it does not, the keyframe window up to the safe horizon, or up
/// to the frame where there is none, is closed to make room, and the frame is offered again.
pub proof fn frames_are_offered_to_the_selection<
    B: Fn(Timestamp, StagedMetrics) -> bool,
    S: Fn(TimeRange) -> Vec<Selected>,
>(
    t: Track,
    at: Timestamp,
    lag: int,
    metrics: StagedMetrics,
    intake: Intake,
    observe: B,
    select: S,
    after: Track,
)
    requires
        Model::observed(t, at, lag, metrics, intake, observe, select, after),
    ensures
        observe.ensures((at, metrics), intake.taken),
        intake.taken ==> after == t && intake.again is None,
        !intake.taken ==> (intake.again matches Some(taken) && observe.ensures(
            (at, metrics),
            taken,
        )),
        !intake.taken && t.safe_horizon(at, lag) is Some ==> t.drained(
            t.safe_horizon(at, lag)->0,
            select,
            after,
        ),
        !intake.taken && t.safe_horizon(at, lag) is None ==> t.drained(at, select, after),
{
}

/// Nothing is shed while the queue is within its cap: an output enters behind those that wait,
/// and so do the picks of a window, each in its turn.
pub proof fn nothing_is_shed_within_the_cap(q: Seq<Event>, e: Event, picks: Seq<Selected>)
    ensures
        q.len() < MAX_PENDING_OUTPUTS ==> queued(q, e) == q.push(e),
        q.len() >= MAX_PENDING_OUTPUTS ==> queued(q, e) == shed(q.push(e)),
        q.len() + picks.len() <= MAX_PENDING_OUTPUTS ==> {
            &&& queued_all(q, picks).len() == q.len() + picks.len()
            &&& forall|i: int| 0 <= i < q.len() ==> #[trigger] queued_all(q, picks)[i] == q[i]
            &&& forall|i: int|
                0 <= i < picks.len() ==> queued_all(q, picks)[q.len() + i] == keyframe_of(
                    #[trigger] picks[i],
                )
        },
    decreases picks.len(),
{
    if q.len() + picks.len() <= MAX_PENDING_OUTPUTS && picks.len() > 0 {
        let init = picks.drop_last();
        nothing_is_shed_within_the_cap(q, e, init);
        assert forall|i: int| 0 <= i < picks.len() implies queued_all(q, picks)[q.len() + i]
            == keyframe_of(#[trigger] picks[i]) by {
            if i < init.len() {
                assert(init[i] == picks[i]);
            }
        }
    }
}

} // verus!
