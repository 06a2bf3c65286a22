//! What holds of the timeline as a whole.

use vstd::prelude::*;

use crate::adaptive::{Ratio, Window};
use crate::cascade::detector::{Intake, Kit, Model, Outside};
use crate::cascade::event::{Event, Provenance, SceneEvent};
use crate::cascade::frames::Frames;
use crate::cascade::metrics::{CheapMetrics, StagedMetrics};
use crate::cascade::options::Options;
use crate::cascade::rescale::{
    held_ticks, range_of, rescale_into_own_timebase_is_exact, rescale_is_monotone,
};
use crate::cascade::timeline::{
    gap_of, in_order, keyframe_of, later_than, put_in, queued, queued_all, shed, tick_after,
    Boundary, LaneCuts, Selected, Track, MAX_PENDING_OUTPUTS,
};
use crate::content::{Components, FrameDelta, Measured};
use crate::histogram::{Correlated, Similarity};
use crate::number::Real;
use crate::time::{
    min_length_met, moving, not_after_is_transitive, relation_compares_instants,
    relation_is_antisymmetric, ticks_in, Relation, TimeRange, Timebase, Timestamp,
};

verus! {

/// Every boundary lies at a timestamp whose timebase moves.
pub open spec fn all_moving(s: Seq<Boundary>) -> bool {
    forall|i: int| 0 <= i < s.len() ==> moving((#[trigger] s[i]).at)
}

/// Each boundary of a sequence comes no later than the ones behind it.
pub open spec fn ordered(s: Seq<Boundary>) -> bool {
    forall|i: int, j: int|
        0 <= i < j < s.len() ==> (#[trigger] s[i]).at.relation((#[trigger] s[j]).at)
            != Relation::After
}

/// Where a boundary is put in: behind the last one that is no later.
proof fn lemma_position(s: Seq<Boundary>, b: Boundary) -> (i: int)
    ensures
        0 <= i <= s.len(),
        put_in(s, b) == s.insert(i, b),
        i > 0 ==> s[i - 1].at.relation(b.at) != Relation::After,
        forall|j: int| i <= j < s.len() ==> (#[trigger] s[j]).at.relation(b.at) == Relation::After,
    decreases s.len(),
{
    if s.len() == 0 || s.last().at.relation(b.at) != Relation::After {
        assert(s.insert(s.len() as int, b) =~= s.push(b));
        s.len() as int
    } else {
        let init = s.drop_last();
        let i = lemma_position(init, b);
        assert(init.insert(i, b).push(s.last()) =~= s.insert(i, b));
        assert forall|j: int| i <= j < s.len() implies (#[trigger] s[j]).at.relation(b.at)
            == Relation::After by {
            if j < init.len() {
                assert(init[j].at.relation(b.at) == Relation::After);
            }
        }
        if i > 0 {
            assert(init[i - 1] == s[i - 1]);
        }
        i
    }
}

/// Putting a boundary in keeps every element.
proof fn lemma_put_in_members(s: Seq<Boundary>, b: Boundary)
    ensures
        put_in(s, b).len() == s.len() + 1,
        put_in(s, b).contains(b),
        forall|e: Boundary| #[trigger]
            put_in(s, b).contains(e) <==> s.contains(e) || e == b,
{
    let i = lemma_position(s, b);
    let r = s.insert(i, b);
    assert(r[i] == b);
    assert forall|e: Boundary| #[trigger] r.contains(e) <==> s.contains(e) || e == b by {
        if s.contains(e) {
            let k = choose|k: int| 0 <= k < s.len() && s[k] == e;
            if k < i {
                assert(r[k] == e);
            } else {
                assert(r[k + 1] == e);
            }
        }
        if r.contains(e) && e != b {
            let k = choose|k: int| 0 <= k < r.len() && r[k] == e;
            if k < i {
                assert(s[k] == e);
            } else {
                assert(s[k - 1] == e);
            }
        }
    }
}

/// Putting a boundary in keeps the order.
proof fn lemma_put_in_ordered(s: Seq<Boundary>, b: Boundary)
    requires
        all_moving(s),
        moving(b.at),
        ordered(s),
    ensures
        ordered(put_in(s, b)),
        all_moving(put_in(s, b)),
{
    let i = lemma_position(s, b);
    let r = s.insert(i, b);
    assert forall|k: int| 0 <= k < r.len() implies moving((#[trigger] r[k]).at) by {
        if k < i {
            assert(moving(s[k].at));
        } else if k > i {
            assert(moving(s[k - 1].at));
        }
    }
    assert forall|k: int, l: int| 0 <= k < l < r.len() implies (#[trigger] r[k]).at.relation(
        (#[trigger] r[l]).at,
    ) != Relation::After by {
        if l < i {
            assert(s[k].at.relation(s[l].at) != Relation::After);
        } else if l == i {
            if k < i - 1 {
                assert(s[k].at.relation(s[i - 1].at) != Relation::After);
                not_after_is_transitive(s[k].at, s[i - 1].at, b.at);
            }
        } else if k < i {
            assert(s[k].at.relation(s[l - 1].at) != Relation::After);
        } else if k == i {
            assert(s[l - 1].at.relation(b.at) == Relation::After);
            relation_is_antisymmetric(s[l - 1].at, b.at);
        } else {
            assert(s[k - 1].at.relation(s[l - 1].at) != Relation::After);
        }
    }
}

/// Sorting orders the boundaries by time and keeps every one of them.
pub proof fn sorting_orders_by_time(s: Seq<Boundary>)
    requires
        all_moving(s),
    ensures
        ordered(in_order(s)),
        all_moving(in_order(s)),
        in_order(s).len() == s.len(),
        forall|e: Boundary| #[trigger] in_order(s).contains(e) <==> s.contains(e),
    decreases s.len(),
{
    if s.len() > 0 {
        let init = s.drop_last();
        assert(s.last() == s[s.len() - 1]);
        assert forall|i: int| 0 <= i < init.len() implies moving((#[trigger] init[i]).at) by {
            assert(moving(s[i].at));
        }
        sorting_orders_by_time(init);
        lemma_put_in_ordered(in_order(init), s.last());
        lemma_put_in_members(in_order(init), s.last());
        assert forall|e: Boundary| #[trigger] in_order(s).contains(e) <==> s.contains(e) by {
            if s.contains(e) {
                let i = choose|i: int| 0 <= i < s.len() && s[i] == e;
                if i < init.len() {
                    assert(init[i] == e);
                    assert(init.contains(e));
                }
            }
            if in_order(s).contains(e) && e != s.last() {
                assert(in_order(init).contains(e));
                assert(init.contains(e));
                let k = choose|k: int| 0 <= k < init.len() && init[k] == e;
                assert(s[k] == e);
            }
        }
    }
}

/// What is later than `at` is kept, and nothing else.
proof fn lemma_later(s: Seq<Boundary>, at: Timestamp)
    ensures
        forall|e: Boundary| #[trigger]
            later_than(s, at).contains(e) <==> s.contains(e) && e.at.relation(at)
                == Relation::After,
    decreases s.len(),
{
    if s.len() > 0 {
        let init = s.drop_last();
        lemma_later(init, at);
        let kept = later_than(init, at);
        let all = later_than(s, at);
        assert(s[s.len() - 1] == s.last());
        assert forall|e: Boundary| #[trigger] all.contains(e) <==> s.contains(e) && e.at.relation(at)
            == Relation::After by {
            if all.contains(e) {
                let i = choose|i: int| 0 <= i < all.len() && all[i] == e;
                if i < kept.len() {
                    assert(kept[i] == e);
                    assert(kept.contains(e));
                    let k = choose|k: int| 0 <= k < init.len() && init[k] == e;
                    assert(s[k] == e);
                }
            }
            if s.contains(e) && e.at.relation(at) == Relation::After {
                let i = choose|i: int| 0 <= i < s.len() && s[i] == e;
                if i < init.len() {
                    assert(init[i] == e);
                    assert(kept.contains(e));
                    let k = choose|k: int| 0 <= k < kept.len() && kept[k] == e;
                    assert(all[k] == e);
                } else {
                    assert(all[kept.len() as int] == e);
                }
            }
        }
    }
}

/// Of all that contends, the earliest closes the shot. What lies strictly later is
/// deferred, and nothing else is: a boundary at the same instant is the same one
/// seen by another lane.
pub proof fn the_earliest_wins_and_later_ones_wait(
    t: Track,
    o: Options,
    c: LaneCuts,
    ts: Timestamp,
)
    requires
        all_moving(t.contenders(o, c, ts)),
    ensures
        ({
            let all = t.contenders(o, c, ts);
            let (after, winner) = t.contended(o, c, ts);
            &&& winner is Some <==> all.len() > 0
            &&& winner matches Some(b) ==> {
                &&& all.contains(b)
                &&& forall|e: Boundary| #[trigger]
                    all.contains(e) ==> e.at.relation(b.at) != Relation::Before
                &&& forall|e: Boundary| #[trigger]
                    after.deferred.contains(e) <==> all.contains(e) && e.at.relation(b.at)
                        == Relation::After
            }
            &&& winner is None ==> after.deferred.len() == 0
        }),
{
    let all = t.contenders(o, c, ts);
    let s = in_order(all);
    sorting_orders_by_time(all);
    if s.len() > 0 {
        let b = s[0];
        let rest = s.drop_first();
        assert(s.contains(b));
        lemma_later(rest, b.at);
        assert forall|e: Boundary| #[trigger] all.contains(e) implies e.at.relation(b.at)
            != Relation::Before by {
            assert(s.contains(e));
            let i = choose|i: int| 0 <= i < s.len() && s[i] == e;
            if i > 0 {
                assert(s[0].at.relation(s[i].at) != Relation::After);
                relation_is_antisymmetric(b.at, e.at);
            } else {
                relation_compares_instants(b.at, b.at);
            }
        }
        assert forall|e: Boundary| #[trigger]
            later_than(rest, b.at).contains(e) <==> all.contains(e) && e.at.relation(b.at)
                == Relation::After by {
            if rest.contains(e) {
                let i = choose|i: int| 0 <= i < rest.len() && rest[i] == e;
                assert(s[i + 1] == e);
                assert(s.contains(e));
            }
            if all.contains(e) && e.at.relation(b.at) == Relation::After {
                assert(s.contains(e));
                let i = choose|i: int| 0 <= i < s.len() && s[i] == e;
                if i == 0 {
                    relation_compares_instants(b.at, b.at);
                } else {
                    assert(rest[i - 1] == e);
                }
            }
        }
    }
}

/// The head of a sorted sequence is the first of its earliest elements.
proof fn lemma_head(s: Seq<Boundary>) -> (k: int)
    requires
        all_moving(s),
        s.len() > 0,
    ensures
        0 <= k < s.len(),
        in_order(s).len() > 0,
        in_order(s)[0] == s[k],
        forall|i: int|
            0 <= i < k ==> (#[trigger] s[i]).at.relation(in_order(s)[0].at) == Relation::After,
    decreases s.len(),
{
    let n = s.len() as int;
    let init = s.drop_last();
    let b = s.last();
    assert forall|i: int| 0 <= i < init.len() implies moving((#[trigger] init[i]).at) by {
        assert(moving(s[i].at));
    }
    let sorted = in_order(init);
    let at = lemma_position(sorted, b);
    sorting_orders_by_time(init);
    if at == 0 {
        assert(in_order(s)[0] == b);
        assert forall|i: int| 0 <= i < n - 1 implies (#[trigger] s[i]).at.relation(
            in_order(s)[0].at,
        ) == Relation::After by {
            assert(init[i] == s[i]);
            assert(init.contains(s[i]));
            assert(sorted.contains(s[i]));
            let j = choose|j: int| 0 <= j < sorted.len() && sorted[j] == s[i];
            assert(sorted[j].at.relation(b.at) == Relation::After);
        }
        n - 1
    } else {
        let k = lemma_head(init);
        assert(in_order(s)[0] == sorted[0]);
        assert forall|i: int| 0 <= i < k implies (#[trigger] s[i]).at.relation(in_order(s)[0].at)
            == Relation::After by {
            assert(init[i] == s[i]);
        }
        k
    }
}

/// Among contenders of the same instant the first in the order of precedence wins:
/// the fade, then the lanes, then deferred boundaries, and the forced split last.
pub proof fn precedence_decides_ties(t: Track, o: Options, c: LaneCuts, ts: Timestamp)
    requires
        all_moving(t.contenders(o, c, ts)),
        t.contenders(o, c, ts).len() > 0,
    ensures
        exists|k: int| #[trigger]
            first_of_earliest(t.contenders(o, c, ts), k, t.contended(o, c, ts).1->0),
{
    let all = t.contenders(o, c, ts);
    let k = lemma_head(all);
    assert(first_of_earliest(all, k, t.contended(o, c, ts).1->0));
}

/// `b` is the element at `k`, and all before it are later.
pub open spec fn first_of_earliest(s: Seq<Boundary>, k: int, b: Boundary) -> bool {
    &&& 0 <= k < s.len()
    &&& s[k] == b
    &&& forall|i: int| 0 <= i < k ==> (#[trigger] s[i]).at.relation(b.at) == Relation::After
}

/// Each report carries the name of its lane.
pub open spec fn named(c: LaneCuts) -> bool {
    &&& c.fade matches Some(b) ==> b.provenance is Threshold
    &&& c.luma matches Some(b) ==> (b.provenance matches Provenance::Histogram(s)
        && s.plane == crate::cascade::event::HistogramPlane::Luma)
    &&& c.hue matches Some(b) ==> (b.provenance matches Provenance::Histogram(s)
        && s.plane == crate::cascade::event::HistogramPlane::Hue)
    &&& c.saturation matches Some(b) ==> (b.provenance matches Provenance::Histogram(s)
        && s.plane == crate::cascade::event::HistogramPlane::Saturation)
    &&& c.phash matches Some(b) ==> b.provenance is Phash
    &&& c.content matches Some(b) ==> b.provenance is Content
    &&& c.adaptive matches Some(b) ==> b.provenance is Adaptive
}

/// A boundary keeps its distance from the timeline: it is admissible with the
/// minimum duration of its lane.
pub open spec fn spaced(t: Track, o: Options, b: Boundary) -> bool {
    t.admissible(b.at, gap_of(o, b.provenance), false)
}

/// Every boundary keeps its distance, and none is a forced split.
spec fn all_spaced(t: Track, o: Options, s: Seq<Boundary>) -> bool {
    forall|i: int|
        0 <= i < s.len() ==> spaced(t, o, #[trigger] s[i]) && !(s[i].provenance is MaxSpan)
}

/// What holds of two sequences holds of both together.
proof fn lemma_spaced_concat(t: Track, o: Options, a: Seq<Boundary>, b: Seq<Boundary>)
    requires
        all_spaced(t, o, a),
        all_spaced(t, o, b),
    ensures
        all_spaced(t, o, a + b),
{
    let s = a + b;
    assert forall|i: int| 0 <= i < s.len() implies spaced(t, o, #[trigger] s[i]) && !(
    s[i].provenance is MaxSpan) by {
        if i < a.len() {
            assert(s[i] == a[i]);
        } else {
            assert(s[i] == b[i - a.len()]);
        }
    }
}

/// Every report that contends keeps its distance.
proof fn lemma_reports_spaced(t: Track, o: Options, c: LaneCuts)
    requires
        named(c),
    ensures
        all_spaced(t, o, t.reports(o, c)),
{
    let fade = t.gated(c.fade, o.threshold.min_duration, o.threshold.initial_cut);
    let luma = t.gated(
        c.luma,
        o.luma_histogram.min_duration,
        o.luma_histogram.allow_initial_cut,
    );
    let hue = t.gated(c.hue, o.hue_histogram.min_duration, o.hue_histogram.allow_initial_cut);
    let sat = t.gated(c.saturation, o.sat_histogram.min_duration, o.sat_histogram.allow_initial_cut);
    let phash = t.gated(c.phash, o.phash.min_duration, o.phash.initial_cut);
    let content = t.gated(c.content, o.content.min_duration, o.content.initial_cut);
    let adaptive = t.gated(c.adaptive, o.adaptive.min_duration, o.adaptive.initial_cut);
    lemma_spaced_concat(t, o, fade, luma);
    lemma_spaced_concat(t, o, fade + luma, hue);
    lemma_spaced_concat(t, o, fade + luma + hue, sat);
    lemma_spaced_concat(t, o, fade + luma + hue + sat, phash);
    lemma_spaced_concat(t, o, fade + luma + hue + sat + phash, content);
    lemma_spaced_concat(t, o, fade + luma + hue + sat + phash + content, adaptive);
}

/// Every deferred boundary that still contends keeps its distance, and a forced
/// split among them holds against the open shot.
proof fn lemma_survivors_spaced(t: Track, o: Options, s: Seq<Boundary>)
    ensures
        forall|i: int|
            0 <= i < t.survivors(o, s).len() ==> spaced(t, o, #[trigger] t.survivors(o, s)[i]) && (
            t.survivors(o, s)[i].provenance is MaxSpan ==> t.split(o, t.survivors(o, s)[i].at)
                == Some(t.survivors(o, s)[i])),
    decreases s.len(),
{
    if s.len() > 0 {
        lemma_survivors_spaced(t, o, s.drop_last());
        let init = t.survivors(o, s.drop_last());
        let all = t.survivors(o, s);
        assert forall|i: int| 0 <= i < all.len() implies spaced(t, o, #[trigger] all[i]) && (
        all[i].provenance is MaxSpan ==> t.split(o, all[i].at) == Some(all[i])) by {
            if i < init.len() {
                assert(all[i] == init[i]);
            }
        }
    }
}

/// A lane closes a shot only after its start and after the last cut, at least the
/// minimum duration of that lane after the latter. A forced split closes a shot
/// only once it has run for as long as it may, at the frame itself or, deferred, like a
/// lane.
pub proof fn cuts_keep_their_distance(t: Track, o: Options, c: LaneCuts, ts: Timestamp)
    requires
        named(c),
        all_moving(t.contenders(o, c, ts)),
        t.contended(o, c, ts).1 is Some,
    ensures
        ({
            let b = t.contended(o, c, ts).1->0;
            if b.provenance is MaxSpan {
                t.split(o, b.at) == Some(b) && (b.at == ts || spaced(t, o, b))
            } else {
                spaced(t, o, b)
            }
        }),
{
    let all = t.contenders(o, c, ts);
    let b = t.contended(o, c, ts).1->0;
    the_earliest_wins_and_later_ones_wait(t, o, c, ts);
    lemma_reports_spaced(t, o, c);
    lemma_survivors_spaced(t, o, t.deferred);
    let k = choose|k: int| 0 <= k < all.len() && all[k] == b;
    let r = t.reports(o, c);
    let d = t.survivors(o, t.deferred);
    if k < r.len() {
        assert(all[k] == r[k]);
    } else if k < r.len() + d.len() {
        assert(all[k] == d[k - r.len()]);
    } else {
        assert(Some(b) == t.split(o, ts));
    }
}

/// No shot outlives its cap: at the first frame at which the open shot has run for
/// as long as it may, some boundary closes it.
pub proof fn no_shot_outlives_its_cap(t: Track, o: Options, c: LaneCuts, ts: Timestamp)
    requires
        all_moving(t.contenders(o, c, ts)),
        o.max_scene_duration is Some,
        t.shot_start is Some,
        min_length_met(ts, t.shot_start->0, o.max_scene_duration->0),
    ensures
        t.contended(o, c, ts).1 is Some,
        t.contended(o, c, ts).1->0.at.relation(ts) != Relation::After,
{
    let all = t.contenders(o, c, ts);
    let split = t.split(o, ts)->0;
    assert(all[all.len() - 1] == split);
    assert(all.contains(split));
    the_earliest_wins_and_later_ones_wait(t, o, c, ts);
    relation_is_antisymmetric(split.at, t.contended(o, c, ts).1->0.at);
}

/// The scenes of a queue, in order.
pub open spec fn scenes(q: Seq<Event>) -> Seq<Event>
    decreases q.len(),
{
    if q.len() == 0 {
        q
    } else if q[0] is Scene {
        seq![q[0]] + scenes(q.drop_first())
    } else {
        scenes(q.drop_first())
    }
}

/// Shedding keeps every scene, and takes one keyframe where there is one.
proof fn lemma_shed_keeps_scenes(q: Seq<Event>)
    ensures
        scenes(shed(q)) == scenes(q),
        (exists|i: int| 0 <= i < q.len() && #[trigger] q[i] is Keyframe) ==> shed(q).len() == q.len()
            - 1,
        shed(q).len() <= q.len(),
    decreases q.len(),
{
    if q.len() > 0 && !(q[0] is Keyframe) {
        let rest = q.drop_first();
        lemma_shed_keeps_scenes(rest);
        let s = seq![q[0]] + shed(rest);
        assert(s.drop_first() =~= shed(rest));
        if exists|i: int| 0 <= i < q.len() && #[trigger] q[i] is Keyframe {
            let i = choose|i: int| 0 <= i < q.len() && #[trigger] q[i] is Keyframe;
            assert(rest[i - 1] is Keyframe);
        }
    }
}

/// The scenes of a longer queue.
proof fn lemma_scenes_push(q: Seq<Event>, e: Event)
    ensures
        scenes(q.push(e)) == if e is Scene {
            scenes(q).push(e)
        } else {
            scenes(q)
        },
    decreases q.len(),
{
    if q.len() == 0 {
        assert(q.push(e).drop_first() =~= q);
        assert(scenes(q) == q);
        assert(scenes(q.push(e)) =~= if e is Scene {
            scenes(q).push(e)
        } else {
            scenes(q)
        });
    } else {
        lemma_scenes_push(q.drop_first(), e);
        assert(q.push(e).drop_first() =~= q.drop_first().push(e));
        assert(scenes(q.push(e)) =~= if e is Scene {
            scenes(q).push(e)
        } else {
            scenes(q)
        });
    }
}

/// No scene is ever shed: queueing keeps every scene that waits, and adds the new
/// one behind them.
pub proof fn scenes_are_never_shed(q: Seq<Event>, e: Event)
    ensures
        scenes(queued(q, e)) == if e is Scene {
            scenes(q).push(e)
        } else {
            scenes(q)
        },
{
    lemma_scenes_push(q, e);
    lemma_shed_keeps_scenes(q.push(e));
}

/// Keyframes never take the queue past its cap, and a scene takes it past by one at
/// most.
pub proof fn the_queue_is_capped(q: Seq<Event>, e: Event)
    requires
        q.len() <= MAX_PENDING_OUTPUTS,
    ensures
        queued(q, e).len() <= MAX_PENDING_OUTPUTS + 1,
        e is Keyframe ==> queued(q, e).len() <= MAX_PENDING_OUTPUTS,
{
    let all = q.push(e);
    lemma_shed_keeps_scenes(all);
    if e is Keyframe {
        assert(all[all.len() - 1] is Keyframe);
    }
}

/// Keyframes leave the scenes of a queue as they are.
pub proof fn picks_keep_scenes(q: Seq<Event>, picks: Seq<Selected>)
    ensures
        scenes(queued_all(q, picks)) == scenes(q),
    decreases picks.len(),
{
    if picks.len() > 0 {
        picks_keep_scenes(q, picks.drop_last());
        scenes_are_never_shed(queued_all(q, picks.drop_last()), keyframe_of(picks.last()));
    }
}

/// Keyframes never take the queue past its cap, however many are picked.
proof fn lemma_picks_capped(q: Seq<Event>, picks: Seq<Selected>)
    requires
        q.len() <= MAX_PENDING_OUTPUTS,
    ensures
        queued_all(q, picks).len() <= MAX_PENDING_OUTPUTS,
    decreases picks.len(),
{
    if picks.len() > 0 {
        lemma_picks_capped(q, picks.drop_last());
        the_queue_is_capped(queued_all(q, picks.drop_last()), keyframe_of(picks.last()));
    }
}

/// Closing a keyframe window keeps the queue within its cap.
proof fn lemma_drained_capped<S: Fn(TimeRange) -> Vec<Selected>>(
    t: Track,
    point: Timestamp,
    select: S,
    after: Track,
)
    requires
        t.pending.len() <= MAX_PENDING_OUTPUTS,
        t.drained(point, select, after),
    ensures
        after.pending.len() <= MAX_PENDING_OUTPUTS,
{
    if let Some(r) = t.window_to(point) {
        let v = choose|v: Vec<Selected>| #[trigger]
            select.ensures((r,), v) && after == (Track {
                pending: queued_all(t.pending, v@),
                ..t
            }).reanchored(point);
        lemma_picks_capped(t.pending, v@);
    }
}

/// The backlog stays bounded: no push leaves more outputs waiting than the cap.
pub proof fn the_backlog_stays_bounded<
    'a,
    C: Fn(Similarity, Real) -> Correlated,
    W: Fn(FrameDelta, Components) -> Measured,
    A: Fn(Window) -> Ratio,
    X: Fn(Frames<'a>, bool) -> Outside,
    G: Fn(CheapMetrics) -> bool,
    B: Fn(Timestamp, StagedMetrics) -> bool,
    S: Fn(TimeRange) -> Vec<Selected>,
>(
    m: Model,
    frames: Frames<'a>,
    kit: Kit<C, W, A, X, G, B, S>,
    after: Model,
    event: Option<Event>,
)
    requires
        m.track.pending.len() <= MAX_PENDING_OUTPUTS,
        m.pushed(frames, kit, after, event),
    ensures
        after.track.pending.len() <= MAX_PENDING_OUTPUTS,
{
    let (f, metrics, intake, seen, cuts, open, settled) = choose|
        f: Frames<'a>,
        metrics: StagedMetrics,
        intake: Intake,
        seen: Outside,
        cuts: LaneCuts,
        open: Track,
        settled: Track,
    | #[trigger]
        m.pushed_by(frames, kit, f, metrics, intake, seen, cuts, open, settled, after, event);
    assert(m.pushed_by(frames, kit, f, metrics, intake, seen, cuts, open, settled, after, event));
    let o = m.options;
    let lag = crate::cascade::options::lag_of(o);
    let at = m.track.canonical(frames.time());
    let start = m.track.admitted(at, Model::size_of(frames), lag);
    if !intake.taken {
        let point = match start.safe_horizon(at, lag) {
            Some(safe) => safe,
            None => at,
        };
        lemma_drained_capped(start, point, kit.select, open);
    }
    let (contended, boundary) = open.contended(o, cuts, at);
    match boundary {
        Some(b) => {
            let w = choose|w: Track| #[trigger]
                contended.drained(b.at, kit.select, w) && settled == w.closed(b);
            lemma_drained_capped(contended, b.at, kit.select, w);
            lemma_closed_queue(w, b);
        },
        None => {
            if let Some(p) = contended.window_end(o, at, lag) {
                lemma_drained_capped(contended, p, kit.select, settled);
            }
        },
    }
}

/// Closing a shot queues at most one scene.
proof fn lemma_closed_queue(t: Track, b: Boundary)
    requires
        t.pending.len() <= MAX_PENDING_OUTPUTS,
    ensures
        t.closed(b).pending.len() <= MAX_PENDING_OUTPUTS + 1,
{
    if let Some(start) = t.shot_start {
        let tb = match t.stream_timebase {
            Some(tb) => tb,
            None => b.at.base(),
        };
        if let Some(range) = range_of(start, b.at, tb) {
            the_queue_is_capped(
                t.pending,
                Event::Scene(SceneEvent { range, provenance: b.provenance }),
            );
        }
    }
}

/// A closed shot hands over to the next: the next one starts at the boundary, so
/// the ranges of two shots that follow each other meet at the tick of the boundary
/// between them.
pub proof fn scenes_follow_each_other(t: Track, b: Boundary, next: Boundary, tb: Timebase)
    requires
        t.shot_start is Some,
        t.stream_timebase == Some(tb),
    ensures
        t.closed(b).shot_start == Some(b.at),
        t.closed(b).stream_timebase == Some(tb),
        range_of(t.shot_start->0, b.at, tb) matches Some(r) ==> r == TimeRange::spanning(
            held_ticks(t.shot_start->0, tb),
            held_ticks(b.at, tb),
            tb,
        ),
        range_of(b.at, next.at, tb) matches Some(r) ==> r == TimeRange::spanning(
            held_ticks(b.at, tb),
            held_ticks(next.at, tb),
            tb,
        ),
        scenes(t.closed(b).pending) == match range_of(t.shot_start->0, b.at, tb) {
            Some(range) => scenes(t.pending).push(
                Event::Scene(SceneEvent { range, provenance: b.provenance }),
            ),
            None => scenes(t.pending),
        },
{
    if let Some(range) = range_of(t.shot_start->0, b.at, tb) {
        scenes_are_never_shed(
            t.pending,
            Event::Scene(SceneEvent { range, provenance: b.provenance }),
        );
    }
}

/// The keyframes of a window enter the queue before the scene that its boundary
/// closes.
pub proof fn keyframes_precede_their_scene<S: Fn(TimeRange) -> Vec<Selected>>(
    t: Track,
    b: Boundary,
    select: S,
    w: Track,
    r: TimeRange,
)
    requires
        t.window_to(b.at) == Some(r),
        t.drained(b.at, select, w),
        t.shot_start is Some,
        t.stream_timebase is Some,
    ensures
        exists|v: Vec<Selected>|
            {
                &&& #[trigger] select.ensures((r,), v)
                &&& w.closed(b).pending == match range_of(
                    t.shot_start->0,
                    b.at,
                    t.stream_timebase->0,
                ) {
                    Some(range) => queued(
                        queued_all(t.pending, v@),
                        Event::Scene(SceneEvent { range, provenance: b.provenance }),
                    ),
                    None => queued_all(t.pending, v@),
                }
            },
{
    let v = choose|v: Vec<Selected>| #[trigger]
        select.ensures((r,), v) && w == (Track {
            pending: queued_all(t.pending, v@),
            ..t
        }).reanchored(b.at);
    assert(select.ensures((r,), v));
}

/// The last scene holds the last frame: it ends one tick past it, and is never
/// empty.
pub proof fn the_last_scene_holds_the_last_frame(t: Track, tb: Timebase)
    requires
        t.shot_start is Some,
        t.last_ts is Some,
        t.stream_timebase == Some(tb),
        tb.valid(),
        tb.numerator() > 0,
        t.shot_start->0.valid(),
        t.last_ts->0.valid(),
        t.shot_start->0.base() == tb,
        t.last_ts->0.base() == tb,
        t.shot_start->0.ticks() <= t.last_ts->0.ticks() < i64::MAX,
    ensures
        t.last_boundary() == Some(
            Boundary { at: tick_after(t.last_ts->0), provenance: Provenance::Finalized },
        ),
        range_of(t.shot_start->0, tick_after(t.last_ts->0), tb) == Some(
            TimeRange::spanning(t.shot_start->0.ticks(), t.last_ts->0.ticks() + 1, tb),
        ),
{
    rescale_into_own_timebase_is_exact(t.shot_start->0, tb);
    rescale_into_own_timebase_is_exact(tick_after(t.last_ts->0), tb);
}

/// A new frame size starts a new visual stream and leaves the timeline: the open
/// shot, the last cut, deferred boundaries and what waits stand; lanes warm up from
/// the frame.
pub proof fn a_new_size_leaves_the_timeline(t: Track, ts: Timestamp, dims: (u32, u32), lag: int)
    requires
        t.resets(dims),
        t.shot_start is Some,
        t.stream_timebase is Some,
    ensures
        ({
            let after = t.admitted(ts, dims, lag);
            &&& after.gate_anchor == Some(ts)
            &&& after.shot_start == t.shot_start
            &&& after.last_confirmed == t.last_confirmed
            &&& after.deferred == t.deferred
            &&& after.pending == t.pending
            &&& after.stream_timebase == t.stream_timebase
            &&& after.last_finalize == t.last_finalize
        }),
{
}

/// Frames in order are let in: a frame no earlier than the last one is never refused
/// as out of order, whatever its timebase. Distinct times may fall on one tick.
pub proof fn frames_in_order_are_let_in(t: Track, a: Timestamp, b: Timestamp)
    requires
        moving(a),
        moving(b),
        a.relation(b) != Relation::After,
        t.stream_timebase matches Some(tb) ==> tb.valid() && tb.numerator() > 0,
        t.last_ts == Some(t.canonical(a)),
    ensures
        t.fault(b) != Some(crate::cascade::options::PushError::OutOfOrder),
{
    match t.stream_timebase {
        Some(tb) => {
            rescale_is_monotone(a, b, tb);
        },
        None => {
            relation_is_antisymmetric(a, b);
        },
    }
}

/// The open keyframe window stays short: after a frame without a boundary, less than one
/// interval of it lies before the safe horizon. So a caller that pairs keyframes with
/// pictures keeps those of one interval, and of the frames by which a cut may lag.
pub proof fn the_open_window_stays_short<S: Fn(TimeRange) -> Vec<Selected>>(
    t: Track,
    o: Options,
    ts: Timestamp,
    lag: int,
    select: S,
    after: Track,
)
    requires
        t.settled(o, None, ts, lag, select, after),
        t.safe_horizon(ts, lag) is Some,
        t.last_finalize is Some,
        t.safe_horizon(ts, lag)->0.ticks() - t.last_finalize->0.ticks() <= i64::MAX,
    ensures
        ({
            let interval = ticks_in(t.last_finalize->0.base(), o.select.target_interval);
            let safe = t.safe_horizon(ts, lag)->0;
            &&& after.last_finalize is Some
            &&& safe.ticks() - after.last_finalize->0.ticks() < if interval < 1 {
                1
            } else {
                interval
            }
        }),
{
    let start = t.last_finalize->0;
    let safe = t.safe_horizon(ts, lag)->0;
    let interval = ticks_in(start.base(), o.select.target_interval);
    let width = if interval < 1 {
        1
    } else {
        interval
    };
    let d = safe.ticks() - start.ticks();
    if d >= width {
        assert(0 <= d / width * width <= d && d - d / width * width < width) by (nonlinear_arith)
            requires
                width >= 1,
                d >= width,
        ;
    }
}

} // verus!
