//! The timeline of the cascade: which cuts stand, and what is reported.
//!
//! The lanes only observe. The timeline admits frames into one timebase, lets the
//! reports of the lanes contend, keeps cuts apart, closes shots and queues what is
//! to be reported.

use std::collections::VecDeque;

use vstd::prelude::*;
use vstd::std_specs::vecdeque::*;

use crate::cascade::event::{
    Event, FrameMetrics, HistogramPlane, KeyframeEvent, Provenance, SceneEvent, SpanScore,
};
use crate::cascade::options::{Options, PushError};
use crate::cascade::rescale::{
    ceil_ticks, fits, held_ticks, range_of, rescale_ceil, rescale_ceil_checked, shot_range,
};
use crate::time::{
    duration_to_pts, elapsed_at_least, min_length_met, ticks_in, Duration, Relation, TimeRange,
    Timebase, Timestamp,
};

verus! {

/// The most outputs that wait to be reported.
pub const MAX_PENDING_OUTPUTS: usize = 256;

/// A proposed end of a shot.
#[derive(Debug, Clone, Copy, PartialEq)]
pub struct Boundary {
    /// Where the shot ends.
    pub at: Timestamp,
    /// What proposes it.
    pub provenance: Provenance,
}

/// What the lanes report on one frame.
#[derive(Debug, Clone, Copy)]
pub struct LaneCuts {
    /// The fade lane.
    pub fade: Option<Boundary>,
    /// The luma-plane histogram lane.
    pub luma: Option<Boundary>,
    /// The hue-plane histogram lane.
    pub hue: Option<Boundary>,
    /// The saturation-plane histogram lane.
    pub saturation: Option<Boundary>,
    /// The perceptual-hash lane.
    pub phash: Option<Boundary>,
    /// The content lane.
    pub content: Option<Boundary>,
    /// The adaptive lane.
    pub adaptive: Option<Boundary>,
}

/// A frame that the keyframe selection picked.
#[derive(Debug, Clone, Copy)]
pub struct Selected {
    /// Time of the frame.
    pub ts: Timestamp,
    /// Whether it passed every gate.
    pub strict: bool,
    /// Its metrics.
    pub metrics: FrameMetrics,
}

/// The state of the timeline, as a value.
#[verifier::ext_equal]
pub struct Track {
    /// Boundaries that lost to an earlier one and contend again.
    pub deferred: Seq<Boundary>,
    /// The last boundary that closed a shot.
    pub last_confirmed: Option<Timestamp>,
    /// Width and height of the frames.
    pub dims: Option<(u32, u32)>,
    /// Start of the open shot.
    pub shot_start: Option<Timestamp>,
    /// The timebase of the stream, that of its first frame.
    pub stream_timebase: Option<Timebase>,
    /// The frame from which lanes warm up.
    pub gate_anchor: Option<Timestamp>,
    /// The last frame.
    pub last_ts: Option<Timestamp>,
    /// Start of the open keyframe window.
    pub last_finalize: Option<Timestamp>,
    /// The last frames, as many as a cut may lag.
    pub recent: Seq<Timestamp>,
    /// What waits to be reported, oldest first.
    pub pending: Seq<Event>,
}

/// The tick after `ts`.
pub open spec fn tick_after(ts: Timestamp) -> Timestamp {
    Timestamp { pts: (ts.pts + 1) as i64, timebase: ts.timebase }
}

/// The minimum duration that the lane behind a boundary keeps.
pub open spec fn gap_of(o: Options, p: Provenance) -> Duration {
    match p {
        Provenance::Threshold(_) => o.threshold.min_duration,
        Provenance::Histogram(s) => match s.plane {
            HistogramPlane::Luma => o.luma_histogram.min_duration,
            HistogramPlane::Hue => o.hue_histogram.min_duration,
            HistogramPlane::Saturation => o.sat_histogram.min_duration,
        },
        Provenance::Phash(_) => o.phash.min_duration,
        Provenance::Content(_) => o.content.min_duration,
        Provenance::Adaptive(_) => o.adaptive.min_duration,
        _ => Duration::of_nanos(0),
    }
}

/// A sequence of boundaries in order of time with `b` put in, behind those that
/// are no later.
pub open spec fn put_in(s: Seq<Boundary>, b: Boundary) -> Seq<Boundary>
    decreases s.len(),
{
    if s.len() == 0 || s.last().at.relation(b.at) != Relation::After {
        s.push(b)
    } else {
        put_in(s.drop_last(), b).push(s.last())
    }
}

/// The boundaries in order of time; those of the same instant keep their order.
pub open spec fn in_order(s: Seq<Boundary>) -> Seq<Boundary>
    decreases s.len(),
{
    if s.len() == 0 {
        s
    } else {
        put_in(in_order(s.drop_last()), s.last())
    }
}

/// The boundaries later than `at`.
pub open spec fn later_than(s: Seq<Boundary>, at: Timestamp) -> Seq<Boundary>
    decreases s.len(),
{
    if s.len() == 0 {
        s
    } else {
        let init = later_than(s.drop_last(), at);
        if s.last().at.relation(at) == Relation::After {
            init.push(s.last())
        } else {
            init
        }
    }
}

/// A queue without its oldest keyframe.
pub open spec fn shed(q: Seq<Event>) -> Seq<Event>
    decreases q.len(),
{
    if q.len() == 0 {
        q
    } else if q[0] is Keyframe {
        q.drop_first()
    } else {
        seq![q[0]] + shed(q.drop_first())
    }
}

/// A queue with one more output. Past the cap, the oldest keyframe is shed.
pub open spec fn queued(q: Seq<Event>, e: Event) -> Seq<Event> {
    if q.len() + 1 > MAX_PENDING_OUTPUTS {
        shed(q.push(e))
    } else {
        q.push(e)
    }
}

/// The output for a picked frame.
pub open spec fn keyframe_of(s: Selected) -> Event {
    Event::Keyframe(
        KeyframeEvent {
            ts: s.ts,
            provenance: if s.strict {
                Provenance::Quality(s.metrics)
            } else {
                Provenance::Fallback(s.metrics)
            },
        },
    )
}

/// A queue with the outputs for the picked frames.
pub open spec fn queued_all(q: Seq<Event>, picks: Seq<Selected>) -> Seq<Event>
    decreases picks.len(),
{
    if picks.len() == 0 {
        q
    } else {
        queued(queued_all(q, picks.drop_last()), keyframe_of(picks.last()))
    }
}

impl Track {
    /// The state before the first frame.
    pub open spec fn fresh() -> Track {
        Track {
            deferred: Seq::empty(),
            last_confirmed: None,
            dims: None,
            shot_start: None,
            stream_timebase: None,
            gate_anchor: None,
            last_ts: None,
            last_finalize: None,
            recent: Seq::empty(),
            pending: Seq::empty(),
        }
    }

    /// The timestamp in the timebase of the stream, rounded up.
    pub open spec fn canonical(self, ts: Timestamp) -> Timestamp {
        match self.stream_timebase {
            Some(tb) => Timestamp { pts: held_ticks(ts, tb) as i64, timebase: tb },
            None => ts,
        }
    }

    /// Why a frame at `ts` is refused, if it is: a scene could not end after it, or
    /// it lies before the last frame.
    pub open spec fn fault(self, ts: Timestamp) -> Option<PushError> {
        if ts.ticks() == i64::MAX {
            Some(PushError::TimestampAtLimit)
        } else if self.stream_timebase matches Some(tb) && !fits(ceil_ticks(tick_after(ts), tb)) {
            Some(PushError::TimestampAtLimit)
        } else if self.canonical(ts).ticks() == i64::MAX {
            Some(PushError::TimestampAtLimit)
        } else if self.last_ts matches Some(l) && self.canonical(ts).relation(l)
            == Relation::Before {
            Some(PushError::OutOfOrder)
        } else {
            None
        }
    }

    /// A frame of this size starts a new visual stream: it is the first, or the first of
    /// its size.
    pub open spec fn resets(self, dims: (u32, u32)) -> bool {
        self.dims != Some(dims)
    }

    /// The state after a frame at `ts`, in the timebase of the stream, is let in.
    pub open spec fn admitted(self, ts: Timestamp, dims: (u32, u32), lag: int) -> Track {
        let seen = self.recent.push(ts);
        Track {
            dims: Some(dims),
            last_ts: Some(ts),
            gate_anchor: if self.resets(dims) || self.gate_anchor is None {
                Some(ts)
            } else {
                self.gate_anchor
            },
            stream_timebase: match self.stream_timebase {
                Some(tb) => Some(tb),
                None => Some(ts.base()),
            },
            shot_start: match self.shot_start {
                Some(s) => Some(s),
                None => Some(ts),
            },
            last_finalize: if self.shot_start is None && self.last_finalize is None {
                Some(ts)
            } else {
                self.last_finalize
            },
            recent: if lag == 0 {
                self.recent
            } else if seen.len() > lag {
                seen.drop_first()
            } else {
                seen
            },
            ..self
        }
    }

    /// A boundary at `cut` can close the open shot: it lies after its start and
    /// after the last boundary, at least `min_gap` after the latter, and for a lane
    /// that warms up at least `min_gap` after the frame it warms up from.
    pub open spec fn admissible(self, cut: Timestamp, min_gap: Duration, warm_up: bool) -> bool {
        &&& self.shot_start matches Some(s) ==> cut.relation(s) == Relation::After
        &&& self.last_confirmed matches Some(l) ==> cut.relation(l) == Relation::After
            && min_length_met(cut, l, min_gap)
        &&& warm_up ==> (self.gate_anchor matches Some(a) ==> min_length_met(cut, a, min_gap))
    }

    /// The report of a lane, where it is admissible.
    pub open spec fn gated(
        self,
        report: Option<Boundary>,
        min_gap: Duration,
        initial_cut: bool,
    ) -> Seq<Boundary> {
        match report {
            Some(b) => if self.admissible(b.at, min_gap, !initial_cut) {
                seq![b]
            } else {
                Seq::empty()
            },
            None => Seq::empty(),
        }
    }

    /// The admissible reports on a frame, in the order of precedence.
    pub open spec fn reports(self, o: Options, c: LaneCuts) -> Seq<Boundary> {
        self.gated(c.fade, o.threshold.min_duration, o.threshold.initial_cut) + self.gated(
            c.luma,
            o.luma_histogram.min_duration,
            o.luma_histogram.allow_initial_cut,
        ) + self.gated(c.hue, o.hue_histogram.min_duration, o.hue_histogram.allow_initial_cut)
            + self.gated(
            c.saturation,
            o.sat_histogram.min_duration,
            o.sat_histogram.allow_initial_cut,
        ) + self.gated(c.phash, o.phash.min_duration, o.phash.initial_cut) + self.gated(
            c.content,
            o.content.min_duration,
            o.content.initial_cut,
        ) + self.gated(c.adaptive, o.adaptive.min_duration, o.adaptive.initial_cut)
    }

    /// The forced split: the open shot has run at `ts` for as long as it may.
    pub open spec fn split(self, o: Options, ts: Timestamp) -> Option<Boundary> {
        match (o.max_scene_duration, self.shot_start) {
            (Some(cap), Some(start)) => if min_length_met(ts, start, cap) {
                Some(
                    Boundary {
                        at: ts,
                        provenance: Provenance::MaxSpan(SpanScore { span: ts.since(start)->0, cap }),
                    },
                )
            } else {
                None
            },
            _ => None,
        }
    }

    /// A deferred boundary as it stands now: a forced split is measured anew from
    /// the open shot, or falls; what a lane saw stands.
    pub open spec fn revalidated(self, o: Options, b: Boundary) -> Option<Boundary> {
        match b.provenance {
            Provenance::MaxSpan(_) => self.split(o, b.at),
            _ => Some(b),
        }
    }

    /// The deferred boundaries that still stand and are admissible.
    pub open spec fn survivors(self, o: Options, s: Seq<Boundary>) -> Seq<Boundary>
        decreases s.len(),
    {
        if s.len() == 0 {
            s
        } else {
            let init = self.survivors(o, s.drop_last());
            match self.revalidated(o, s.last()) {
                Some(b) => if self.admissible(b.at, gap_of(o, b.provenance), false) {
                    init.push(b)
                } else {
                    init
                },
                None => init,
            }
        }
    }

    /// All that contends for the next boundary: the reports on this frame, the
    /// deferred boundaries, and the forced split.
    pub open spec fn contenders(self, o: Options, c: LaneCuts, ts: Timestamp) -> Seq<Boundary> {
        let s = self.reports(o, c) + self.survivors(o, self.deferred);
        match self.split(o, ts) {
            Some(b) => s.push(b),
            None => s,
        }
    }

    /// The boundary that closes the shot, the earliest contender, and the state in
    /// which the strictly later ones are deferred.
    pub open spec fn contended(self, o: Options, c: LaneCuts, ts: Timestamp) -> (
        Track,
        Option<Boundary>,
    ) {
        let s = in_order(self.contenders(o, c, ts));
        if s.len() == 0 {
            (Track { deferred: Seq::empty(), ..self }, None)
        } else {
            (
                Track { deferred: later_than(s.drop_first(), s[0].at), ..self },
                Some(s[0]),
            )
        }
    }

    /// The keyframe window that ends at `point`, if it holds time.
    pub open spec fn window_to(self, point: Timestamp) -> Option<TimeRange> {
        match self.last_finalize {
            Some(start) => if point.relation(start) == Relation::After && start.ticks()
                <= point.ticks() {
                Some(TimeRange::spanning(start.ticks(), point.ticks(), point.base()))
            } else {
                None
            },
            None => None,
        }
    }

    /// The state in which the next keyframe window starts at `point`.
    pub open spec fn reanchored(self, point: Timestamp) -> Track {
        match self.last_finalize {
            Some(_) => Track { last_finalize: Some(point), ..self },
            None => self,
        }
    }

    /// The state after the keyframe window up to `point` is closed, where `select`
    /// picks its keyframes.
    pub open spec fn drained<S: Fn(TimeRange) -> Vec<Selected>>(
        self,
        point: Timestamp,
        select: S,
        after: Track,
    ) -> bool {
        match self.window_to(point) {
            Some(r) => exists|v: Vec<Selected>| #[trigger]
                select.ensures((r,), v) && after == (Track {
                    pending: queued_all(self.pending, v@),
                    ..self
                }).reanchored(point),
            None => after == self.reanchored(point),
        }
    }

    /// The state after the open shot is closed at a boundary.
    pub open spec fn closed(self, b: Boundary) -> Track {
        match self.shot_start {
            None => self,
            Some(start) => {
                let tb = match self.stream_timebase {
                    Some(tb) => tb,
                    None => b.at.base(),
                };
                Track {
                    pending: match range_of(start, b.at, tb) {
                        Some(range) => queued(
                            self.pending,
                            Event::Scene(SceneEvent { range, provenance: b.provenance }),
                        ),
                        None => self.pending,
                    },
                    shot_start: Some(b.at),
                    last_confirmed: Some(b.at),
                    last_finalize: Some(b.at),
                    ..self
                }
            },
        }
    }

    /// The latest instant before which no cut can still come.
    pub open spec fn safe_horizon(self, ts: Timestamp, lag: int) -> Option<Timestamp> {
        if lag == 0 {
            Some(ts)
        } else if self.recent.len() >= lag {
            Some(self.recent[0])
        } else {
            None
        }
    }

    /// The end of the last whole keyframe window before the safe horizon.
    pub open spec fn window_end(self, o: Options, ts: Timestamp, lag: int) -> Option<Timestamp> {
        match (self.safe_horizon(ts, lag), self.last_finalize) {
            (Some(safe), Some(start)) => {
                let t = ticks_in(start.base(), o.select.target_interval);
                let width = if t < 1 {
                    1
                } else {
                    t
                };
                let d = safe.ticks() - start.ticks();
                let elapsed = if d > i64::MAX {
                    i64::MAX as int
                } else {
                    d
                };
                if elapsed >= width {
                    Some(
                        Timestamp {
                            pts: (start.ticks() + elapsed / width * width) as i64,
                            timebase: start.timebase,
                        },
                    )
                } else {
                    None
                }
            },
            _ => None,
        }
    }

    /// The state after the boundary of a frame at `ts` is settled: the keyframes up
    /// to it, then its scene; or, without one, the keyframes of the windows that
    /// are over.
    pub open spec fn settled<S: Fn(TimeRange) -> Vec<Selected>>(
        self,
        o: Options,
        b: Option<Boundary>,
        ts: Timestamp,
        lag: int,
        select: S,
        after: Track,
    ) -> bool {
        match b {
            Some(b) => exists|w: Track| #[trigger]
                self.drained(b.at, select, w) && after == w.closed(b),
            None => match self.window_end(o, ts, lag) {
                Some(p) => self.drained(p, select, after),
                None => after == self,
            },
        }
    }

    /// The state after the oldest output is taken from the queue, and that output.
    pub open spec fn popped(self) -> (Track, Option<Event>) {
        if self.pending.len() == 0 {
            (self, None)
        } else {
            (Track { pending: self.pending.drop_first(), ..self }, Some(self.pending[0]))
        }
    }

    /// A fade at the end of the stream stands: the lane has warmed up.
    pub open spec fn fade_stands(self, o: Options, cut: Timestamp) -> bool {
        o.threshold.initial_cut || (self.gate_anchor matches Some(a) ==> min_length_met(
            cut,
            a,
            o.threshold.min_duration,
        ))
    }

    /// The boundaries still owed at the end of the stream, in order.
    pub open spec fn owed(self, o: Options, fade: Option<Boundary>) -> Seq<Boundary> {
        match fade {
            Some(f) => if self.fade_stands(o, f.at) {
                in_order(self.deferred.push(f))
            } else {
                in_order(self.deferred)
            },
            None => in_order(self.deferred),
        }
    }

    /// The boundary closes the shot, or is passed over.
    pub open spec fn owed_step<S: Fn(TimeRange) -> Vec<Selected>>(
        self,
        o: Options,
        b: Boundary,
        select: S,
        after: Track,
    ) -> bool {
        match self.revalidated(o, b) {
            Some(b) => if self.admissible(b.at, gap_of(o, b.provenance), false) {
                exists|w: Track| #[trigger]
                    self.drained(b.at, select, w) && after == w.closed(b)
            } else {
                after == self
            },
            None => after == self,
        }
    }

    /// The boundaries close shots one after the other; `states` holds the state
    /// before each and after the last.
    pub open spec fn owed_trace<S: Fn(TimeRange) -> Vec<Selected>>(
        self,
        o: Options,
        s: Seq<Boundary>,
        select: S,
        states: Seq<Track>,
    ) -> bool {
        &&& states.len() == s.len() + 1
        &&& states[0] == self
        &&& forall|i: int|
            0 <= i < s.len() ==> states[i].owed_step(o, #[trigger] s[i], select, states[i + 1])
    }

    /// The boundaries close shots one after the other.
    pub open spec fn owed_steps<S: Fn(TimeRange) -> Vec<Selected>>(
        self,
        o: Options,
        s: Seq<Boundary>,
        select: S,
        after: Track,
    ) -> bool {
        exists|states: Seq<Track>| #[trigger]
            self.owed_trace(o, s, select, states) && states.last() == after
    }

    /// The end of the last shot: one tick past the last frame.
    pub open spec fn last_boundary(self) -> Option<Boundary> {
        match (self.shot_start, self.last_ts) {
            (Some(_), Some(last)) => Some(
                Boundary { at: tick_after(last), provenance: Provenance::Finalized },
            ),
            _ => None,
        }
    }

    /// The state at the end of the stream, with everything queued.
    pub open spec fn finished<S: Fn(TimeRange) -> Vec<Selected>>(
        self,
        o: Options,
        fade: Option<Boundary>,
        select: S,
        after: Track,
    ) -> bool {
        match self.last_boundary() {
            Some(end) => exists|mid: Track, w: Track|
                #![trigger mid.drained(end.at, select, w)]
                (Track { deferred: Seq::empty(), ..self }).owed_steps(
                    o,
                    self.owed(o, fade),
                    select,
                    mid,
                ) && mid.drained(end.at, select, w) && after == w.closed(end),
            None => after == self,
        }
    }
}

/// The timeline of a stream.
#[derive(Debug)]
pub struct Timeline {
    deferred: Vec<Boundary>,
    last_confirmed: Option<Timestamp>,
    dims: Option<(u32, u32)>,
    shot_start: Option<Timestamp>,
    stream_timebase: Option<Timebase>,
    gate_anchor: Option<Timestamp>,
    last_ts: Option<Timestamp>,
    last_finalize: Option<Timestamp>,
    recent: VecDeque<Timestamp>,
    pending: VecDeque<Event>,
}

impl View for Timeline {
    type V = Track;

    closed spec fn view(&self) -> Track {
        Track {
            deferred: self.deferred@,
            last_confirmed: self.last_confirmed,
            dims: self.dims,
            shot_start: self.shot_start,
            stream_timebase: self.stream_timebase,
            gate_anchor: self.gate_anchor,
            last_ts: self.last_ts,
            last_finalize: self.last_finalize,
            recent: self.recent@,
            pending: self.pending@,
        }
    }
}

impl Track {
    /// The timebase of the stream moves, and there is an open shot once there is a
    /// frame.
    pub open spec fn sound(self) -> bool {
        &&& self.stream_timebase matches Some(tb) ==> tb.numerator() > 0
        &&& self.shot_start is Some <==> self.stream_timebase is Some
        &&& self.last_ts is Some <==> self.stream_timebase is Some
        &&& self.last_ts matches Some(t) ==> t.ticks() < i64::MAX && t.base().numerator() > 0
    }

    /// What holds of every timeline between calls, where a cut may lag by `lag`
    /// frames.
    pub open spec fn wf(self, lag: int) -> bool {
        self.sound() && self.recent.len() <= lag
    }
}

/// Where the sorting position of `b` is known, putting it in is inserting it.
proof fn lemma_put_in(s: Seq<Boundary>, b: Boundary, i: int)
    requires
        0 <= i <= s.len(),
        i == 0 || s[i - 1].at.relation(b.at) != Relation::After,
        forall|j: int| i <= j < s.len() ==> (#[trigger] s[j]).at.relation(b.at) == Relation::After,
    ensures
        put_in(s, b) == s.insert(i, b),
    decreases s.len(),
{
    if s.len() == i {
        assert(s.insert(i, b) =~= s.push(b));
    } else {
        assert(s.last() == s[s.len() - 1]);
        lemma_put_in(s.drop_last(), b, i);
        assert(s.drop_last().insert(i, b).push(s.last()) =~= s.insert(i, b));
    }
}

/// Sorts boundaries by time, keeping the order of those of the same instant.
fn sort_by_time(v: Vec<Boundary>) -> (out: Vec<Boundary>)
    ensures
        out@ == in_order(v@),
{
    let mut out: Vec<Boundary> = Vec::new();
    let n: usize = v.len();
    let mut k: usize = 0;
    assert(v@.take(0) =~= Seq::empty());
    while k < n
        invariant
            n == v@.len(),
            k <= n,
            out@ == in_order(v@.take(k as int)),
        decreases n - k,
    {
        let b: Boundary = v[k];
        let mut i: usize = out.len();
        let mut found: bool = false;
        while i > 0 && !found
            invariant
                i <= out@.len(),
                found ==> i > 0 && out@[i - 1].at.relation(b.at) != Relation::After,
                forall|j: int|
                    i <= j < out@.len() ==> (#[trigger] out@[j]).at.relation(b.at)
                        == Relation::After,
            decreases i + if found {
                0int
            } else {
                1int
            },
        {
            match out[i - 1].at.relate(&b.at) {
                Relation::After => {
                    i = i - 1;
                },
                _ => {
                    found = true;
                },
            }
        }
        proof {
            lemma_put_in(out@, b, i as int);
            assert(v@.take(k + 1).drop_last() =~= v@.take(k as int));
            assert(v@.take(k + 1).last() == b);
        }
        out.insert(i, b);
        k = k + 1;
    }
    assert(v@.take(n as int) =~= v@);
    out
}

/// The boundaries behind the first that are later than `at`.
fn strictly_later(sorted: &Vec<Boundary>, at: Timestamp) -> (later: Vec<Boundary>)
    requires
        sorted@.len() > 0,
    ensures
        later@ == later_than(sorted@.drop_first(), at),
{
    let mut later: Vec<Boundary> = Vec::new();
    let ghost rest = sorted@.drop_first();
    let m: usize = sorted.len();
    let mut k: usize = 1;
    assert(later_than(rest.take(0), at) =~= Seq::empty());
    while k < m
        invariant
            m == sorted@.len(),
            1 <= k <= m,
            rest == sorted@.drop_first(),
            later@ == later_than(rest.take(k - 1), at),
        decreases m - k,
    {
        let b: Boundary = sorted[k];
        proof {
            assert(rest.take(k as int).drop_last() =~= rest.take(k - 1));
            assert(rest.take(k as int).last() == b);
        }
        if let Relation::After = b.at.relate(&at) {
            later.push(b);
        }
        k = k + 1;
    }
    assert(rest.take(m - 1) =~= rest);
    later
}

/// Removing the oldest keyframe is removing the first one.
proof fn lemma_shed(q: Seq<Event>, i: int)
    requires
        0 <= i <= q.len(),
        forall|j: int| 0 <= j < i ==> !(#[trigger] q[j] is Keyframe),
        i < q.len() ==> q[i] is Keyframe,
    ensures
        shed(q) == if i < q.len() {
            q.remove(i)
        } else {
            q
        },
    decreases q.len(),
{
    if q.len() > 0 {
        if q[0] is Keyframe {
            assert(i == 0);
            assert(q.remove(0) =~= q.drop_first());
        } else {
            let rest = q.drop_first();
            assert forall|j: int| 0 <= j < i - 1 implies !(#[trigger] rest[j] is Keyframe) by {
                assert(rest[j] == q[j + 1]);
            }
            lemma_shed(rest, i - 1);
            if i < q.len() {
                assert(seq![q[0]] + rest.remove(i - 1) =~= q.remove(i));
            } else {
                assert(seq![q[0]] + rest =~= q);
            }
        }
    }
}

/// The minimum duration that the lane behind a boundary keeps.
pub fn lane_gate(o: &Options, p: &Provenance) -> (d: Duration)
    ensures
        d == gap_of(*o, *p),
{
    match p {
        Provenance::Threshold(_) => o.threshold.min_duration,
        Provenance::Histogram(s) => match s.plane {
            HistogramPlane::Luma => o.luma_histogram.min_duration,
            HistogramPlane::Hue => o.hue_histogram.min_duration,
            HistogramPlane::Saturation => o.sat_histogram.min_duration,
        },
        Provenance::Phash(_) => o.phash.min_duration,
        Provenance::Content(_) => o.content.min_duration,
        Provenance::Adaptive(_) => o.adaptive.min_duration,
        _ => Duration::from_secs(0),
    }
}

impl Timeline {
    /// A timeline before its first frame.
    pub fn new() -> (t: Timeline)
        ensures
            t@ == Track::fresh(),
            forall|lag: int| 0 <= lag ==> #[trigger] t@.wf(lag),
    {
        let t = Timeline {
            deferred: Vec::new(),
            last_confirmed: None,
            dims: None,
            shot_start: None,
            stream_timebase: None,
            gate_anchor: None,
            last_ts: None,
            last_finalize: None,
            recent: VecDeque::new(),
            pending: VecDeque::new(),
        };
        assert(t@ =~= Track::fresh());
        t
    }

    /// The last frame.
    pub fn last_ts(&self) -> (t: Option<Timestamp>)
        ensures
            t == self@.last_ts,
    {
        self.last_ts
    }

    /// Number of outputs that wait.
    pub fn backlog(&self) -> (n: usize)
        ensures
            n == self@.pending.len(),
    {
        self.pending.len()
    }

    /// Whether the stream has a timebase.
    pub fn started(&self) -> (r: bool)
        ensures
            r == (self@.stream_timebase is Some),
    {
        self.stream_timebase.is_some()
    }

    /// The frame's time in the timebase of the stream, or the reason why the frame
    /// is refused.
    pub fn check(&self, ts: Timestamp) -> (r: Result<Timestamp, PushError>)
        requires
            self@.stream_timebase matches Some(tb) ==> tb.numerator() > 0,
        ensures
            match r {
                Ok(t) => self@.fault(ts) is None && t == self@.canonical(ts),
                Err(e) => self@.fault(ts) == Some(e),
            },
    {
        if ts.pts == i64::MAX {
            return Err(PushError::TimestampAtLimit);
        }
        let at: Timestamp = match self.stream_timebase {
            Some(tb) => {
                let one_past: Timestamp = Timestamp::new(ts.pts + 1, ts.timebase);
                if rescale_ceil_checked(one_past, tb).is_none() {
                    return Err(PushError::TimestampAtLimit);
                }
                Timestamp::new(rescale_ceil(ts, tb), tb)
            },
            None => ts,
        };
        if at.pts == i64::MAX {
            return Err(PushError::TimestampAtLimit);
        }
        if let Some(last) = self.last_ts {
            if let Relation::Before = at.relate(&last) {
                return Err(PushError::OutOfOrder);
            }
        }
        Ok(at)
    }

    /// Lets a frame in, at a time that was checked. Tells whether it starts a new
    /// visual stream.
    pub fn let_in(&mut self, ts: Timestamp, dims: (u32, u32), lag: usize) -> (reset: bool)
        requires
            old(self)@.wf(lag as int),
            ts.base().numerator() > 0,
            ts.ticks() < i64::MAX,
        ensures
            final(self)@ == old(self)@.admitted(ts, dims, lag as int),
            reset == old(self)@.resets(dims),
            final(self)@.wf(lag as int),
    {
        let reset: bool = match self.dims {
            Some(d) => d.0 != dims.0 || d.1 != dims.1,
            None => true,
        };
        if reset || self.gate_anchor.is_none() {
            self.gate_anchor = Some(ts);
        }
        self.dims = Some(dims);
        self.last_ts = Some(ts);
        if self.stream_timebase.is_none() {
            self.stream_timebase = Some(ts.timebase);
        }
        if self.shot_start.is_none() {
            self.shot_start = Some(ts);
            if self.last_finalize.is_none() {
                self.last_finalize = Some(ts);
            }
        }
        if lag > 0 {
            self.recent.push_back(ts);
            if self.recent.len() > lag {
                self.recent.pop_front();
            }
        }
        assert(self@ =~= old(self)@.admitted(ts, dims, lag as int));
        reset
    }

    /// Whether a boundary at `cut` can close the open shot.
    pub fn admissible(&self, cut: Timestamp, min_gap: Duration, warm_up: bool) -> (r: bool)
        ensures
            r == self@.admissible(cut, min_gap, warm_up),
    {
        if let Some(start) = self.shot_start {
            match cut.relate(&start) {
                Relation::After => {},
                _ => return false,
            }
        }
        if let Some(last) = self.last_confirmed {
            match cut.relate(&last) {
                Relation::After => {},
                _ => return false,
            }
            if !elapsed_at_least(cut, last, min_gap) {
                return false;
            }
        }
        if warm_up {
            if let Some(anchor) = self.gate_anchor {
                if !elapsed_at_least(cut, anchor, min_gap) {
                    return false;
                }
            }
        }
        true
    }

    /// Adds the report of a lane where it is admissible.
    fn report(
        &self,
        out: &mut Vec<Boundary>,
        report: Option<Boundary>,
        min_gap: Duration,
        initial_cut: bool,
    )
        ensures
            final(out)@ == old(out)@ + self@.gated(report, min_gap, initial_cut),
    {
        if let Some(b) = report {
            if self.admissible(b.at, min_gap, !initial_cut) {
                out.push(b);
                assert(out@ =~= old(out)@ + seq![b]);
                return;
            }
        }
        assert(out@ =~= old(out)@ + Seq::<Boundary>::empty());
    }

    /// The forced split, where the open shot has run at `ts` for as long as it may.
    pub fn forced_split(&self, o: &Options, ts: Timestamp) -> (r: Option<Boundary>)
        ensures
            r == self@.split(*o, ts),
    {
        match (o.max_scene_duration, self.shot_start) {
            (Some(cap), Some(start)) => match ts.duration_since(&start) {
                Some(span) => if span.at_least(&cap) {
                    Some(
                        Boundary {
                            at: ts,
                            provenance: Provenance::MaxSpan(SpanScore { span, cap }),
                        },
                    )
                } else {
                    None
                },
                None => None,
            },
            _ => None,
        }
    }

    /// A deferred boundary as it stands now.
    pub fn revalidate_deferred(&self, o: &Options, b: Boundary) -> (r: Option<Boundary>)
        ensures
            r == self@.revalidated(*o, b),
            r matches Some(c) ==> c.at == b.at,
    {
        match b.provenance {
            Provenance::MaxSpan(_) => self.forced_split(o, b.at),
            _ => Some(b),
        }
    }

    /// The admissible reports on a frame, in the order of precedence.
    fn fresh_reports(&self, o: &Options, c: LaneCuts) -> (out: Vec<Boundary>)
        ensures
            out@ == self@.reports(*o, c),
    {
        let mut out: Vec<Boundary> = Vec::new();
        self.report(&mut out, c.fade, o.threshold.min_duration, o.threshold.initial_cut);
        assert(out@ =~= self@.gated(c.fade, o.threshold.min_duration, o.threshold.initial_cut));
        self.report(
            &mut out,
            c.luma,
            o.luma_histogram.min_duration,
            o.luma_histogram.allow_initial_cut,
        );
        self.report(
            &mut out,
            c.hue,
            o.hue_histogram.min_duration,
            o.hue_histogram.allow_initial_cut,
        );
        self.report(
            &mut out,
            c.saturation,
            o.sat_histogram.min_duration,
            o.sat_histogram.allow_initial_cut,
        );
        self.report(&mut out, c.phash, o.phash.min_duration, o.phash.initial_cut);
        self.report(&mut out, c.content, o.content.min_duration, o.content.initial_cut);
        self.report(&mut out, c.adaptive, o.adaptive.min_duration, o.adaptive.initial_cut);
        out
    }

    /// Adds the deferred boundaries that still stand and are admissible.
    fn add_survivors(&self, o: &Options, out: &mut Vec<Boundary>)
        ensures
            final(out)@ == old(out)@ + self@.survivors(*o, self@.deferred),
    {
        let ghost fresh = out@;
        let n: usize = self.deferred.len();
        let mut i: usize = 0;
        assert(fresh + self@.survivors(*o, self@.deferred.take(0)) =~= fresh);
        while i < n
            invariant
                n == self.deferred@.len(),
                i <= n,
                out@ == fresh + self@.survivors(*o, self@.deferred.take(i as int)),
            decreases n - i,
        {
            let b: Boundary = self.deferred[i];
            proof {
                assert(self@.deferred.take(i + 1).drop_last() =~= self@.deferred.take(i as int));
                assert(self@.deferred.take(i + 1).last() == b);
            }
            let ghost init = self@.survivors(*o, self@.deferred.take(i as int));
            if let Some(r) = self.revalidate_deferred(o, b) {
                if self.admissible(r.at, lane_gate(o, &r.provenance), false) {
                    out.push(r);
                    assert(out@ =~= fresh + init.push(r));
                }
            }
            i = i + 1;
        }
        assert(self@.deferred.take(n as int) =~= self@.deferred);
    }

    /// Lets the reports on a frame, the deferred boundaries and the forced split
    /// contend. Returns the earliest; the strictly later ones are deferred.
    pub fn contend(&mut self, o: &Options, c: LaneCuts, ts: Timestamp) -> (winner: Option<
        Boundary,
    >)
        ensures
            (final(self)@, winner) == old(self)@.contended(*o, c, ts),
    {
        let mut reports: Vec<Boundary> = self.fresh_reports(o, c);
        self.add_survivors(o, &mut reports);
        if let Some(split) = self.forced_split(o, ts) {
            reports.push(split);
        }
        let ghost all = reports@;
        assert(all == self@.contenders(*o, c, ts));
        let sorted: Vec<Boundary> = sort_by_time(reports);
        if sorted.len() == 0 {
            self.deferred = Vec::new();
            assert(self@.deferred =~= Seq::empty());
            return None;
        }
        let winner: Boundary = sorted[0];
        self.deferred = strictly_later(&sorted, winner.at);
        Some(winner)
    }

    /// Queues an output. Past the cap the oldest keyframe is shed.
    fn enqueue(&mut self, e: Event)
        ensures
            final(self)@ == (Track { pending: queued(old(self)@.pending, e), ..old(self)@ }),
    {
        let ghost before = self.pending@;
        self.pending.push_back(e);
        let n: usize = self.pending.len();
        if n > MAX_PENDING_OUTPUTS {
            let ghost q = self.pending@;
            let mut i: usize = 0;
            while i < n && !self.pending[i].is_keyframe()
                invariant
                    self.pending@ == q,
                    self.deferred@ == old(self).deferred@,
                    self.last_confirmed == old(self).last_confirmed,
                    self.dims == old(self).dims,
                    self.shot_start == old(self).shot_start,
                    self.stream_timebase == old(self).stream_timebase,
                    self.gate_anchor == old(self).gate_anchor,
                    self.last_ts == old(self).last_ts,
                    self.last_finalize == old(self).last_finalize,
                    self.recent@ == old(self).recent@,
                    n == q.len(),
                    i <= n,
                    forall|j: int| 0 <= j < i ==> !(#[trigger] q[j] is Keyframe),
                decreases n - i,
            {
                i = i + 1;
            }
            proof {
                lemma_shed(q, i as int);
            }
            if i < n {
                self.pending.remove(i);
            }
        }
        assert(self@ =~= (Track { pending: queued(before, e), ..old(self)@ }));
    }

    /// Closes the keyframe window up to `point`, where `select` picks its
    /// keyframes.
    pub fn finalize_window<S: Fn(TimeRange) -> Vec<Selected>>(
        &mut self,
        point: Timestamp,
        select: S,
    )
        requires
            forall|r: TimeRange| #[trigger] select.requires((r,)),
        ensures
            old(self)@.drained(point, select, final(self)@),
    {
        let start: Timestamp = match self.last_finalize {
            Some(t) => t,
            None => return,
        };
        if let Relation::After = point.relate(&start) {
            if let Some(range) = TimeRange::try_new(start.pts, point.pts, point.timebase) {
                let picks: Vec<Selected> = select(range);
                let ghost before = self@;
                let n: usize = picks.len();
                let mut i: usize = 0;
                assert(queued_all(before.pending, picks@.take(0)) == before.pending);
                assert(self@ =~= (Track { pending: before.pending, ..before }));
                while i < n
                    invariant
                        n == picks@.len(),
                        i <= n,
                        self@ == (Track {
                            pending: queued_all(before.pending, picks@.take(i as int)),
                            ..before
                        }),
                    decreases n - i,
                {
                    let s: Selected = picks[i];
                    proof {
                        assert(picks@.take(i + 1).drop_last() =~= picks@.take(i as int));
                        assert(picks@.take(i + 1).last() == s);
                    }
                    let provenance: Provenance = if s.strict {
                        Provenance::Quality(s.metrics)
                    } else {
                        Provenance::Fallback(s.metrics)
                    };
                    self.enqueue(Event::Keyframe(KeyframeEvent { ts: s.ts, provenance }));
                    i = i + 1;
                }
                assert(picks@.take(n as int) =~= picks@);
                self.last_finalize = Some(point);
                assert(self@ =~= (Track {
                    pending: queued_all(before.pending, picks@),
                    ..before
                }).reanchored(point));
                return;
            }
        }
        self.last_finalize = Some(point);
        assert(self@ =~= old(self)@.reanchored(point));
    }

    /// Closes the open shot at a boundary, and opens the next one there.
    pub fn close_shot_at(&mut self, b: Boundary)
        requires
            old(self)@.sound(),
        ensures
            final(self)@ == old(self)@.closed(b),
    {
        let start: Timestamp = match self.shot_start {
            Some(t) => t,
            None => return,
        };
        if let Some(tb) = self.stream_timebase {
            if let Some(range) = shot_range(start, b.at, tb) {
                self.enqueue(Event::Scene(SceneEvent { range, provenance: b.provenance }));
            }
        }
        self.shot_start = Some(b.at);
        self.last_confirmed = Some(b.at);
        self.last_finalize = Some(b.at);
        assert(self@ =~= old(self)@.closed(b));
    }

    /// The latest instant before which no cut can still come.
    pub fn safe_horizon(&self, ts: Timestamp, lag: usize) -> (r: Option<Timestamp>)
        ensures
            r == self@.safe_horizon(ts, lag as int),
    {
        if lag == 0 {
            Some(ts)
        } else if self.recent.len() >= lag {
            Some(self.recent[0])
        } else {
            None
        }
    }

    /// The end of the last whole keyframe window before the safe horizon.
    pub fn window_end(&self, o: &Options, ts: Timestamp, lag: usize) -> (r: Option<Timestamp>)
        ensures
            r == self@.window_end(*o, ts, lag as int),
    {
        match (self.safe_horizon(ts, lag), self.last_finalize) {
            (Some(safe), Some(start)) => {
                let ticks: i64 = duration_to_pts(start.timebase, o.select.target_interval);
                let width: i64 = if ticks < 1 {
                    1
                } else {
                    ticks
                };
                let distance: i128 = safe.pts as i128 - start.pts as i128;
                let elapsed: i128 = if distance > i64::MAX as i128 {
                    i64::MAX as i128
                } else {
                    distance
                };
                if elapsed >= width as i128 {
                    let e: u64 = elapsed as u64;
                    let w: u64 = width as u64;
                    proof {
                        vstd::arithmetic::div_mod::lemma_fundamental_div_mod(e as int, w as int);
                        vstd::arithmetic::div_mod::lemma_mod_bound(e as int, w as int);
                        assert(e as int / w as int * w as int == w as int * (e as int / w as int))
                            by (nonlinear_arith);
                    }
                    let whole: u64 = e / w * w;
                    Some(
                        Timestamp {
                            pts: (start.pts as i128 + whole as i128) as i64,
                            timebase: start.timebase,
                        },
                    )
                } else {
                    None
                }
            },
            _ => None,
        }
    }

    /// Settles the boundary of a frame at `ts`: keyframes first, then the scene; or,
    /// without one, the keyframes of the windows that are over.
    pub fn settle<S: Fn(TimeRange) -> Vec<Selected>>(
        &mut self,
        o: &Options,
        b: Option<Boundary>,
        ts: Timestamp,
        lag: usize,
        select: S,
    )
        requires
            old(self)@.wf(lag as int),
            forall|r: TimeRange| #[trigger] select.requires((r,)),
        ensures
            old(self)@.settled(*o, b, ts, lag as int, select, final(self)@),
            final(self)@.wf(lag as int),
    {
        match b {
            Some(c) => {
                self.finalize_window(c.at, select);
                let ghost w = self@;
                assert(w.wf(lag as int));
                self.close_shot_at(c);
                assert(old(self)@.drained(c.at, select, w));
            },
            None => {
                if let Some(p) = self.window_end(o, ts, lag) {
                    self.finalize_window(p, select);
                }
            },
        }
    }

    /// Takes the oldest output from the queue.
    pub fn pop(&mut self) -> (e: Option<Event>)
        ensures
            (final(self)@, e) == old(self)@.popped(),
    {
        let e: Option<Event> = self.pending.pop_front();
        proof {
            if old(self)@.pending.len() > 0 {
                assert(self.pending@ =~= old(self)@.pending.drop_first());
            }
            assert(self@ =~= old(self)@.popped().0);
        }
        e
    }

    /// The boundaries still owed at the end of the stream, in order. None is
    /// deferred any more.
    fn take_owed(&mut self, o: &Options, fade: Option<Boundary>) -> (owed: Vec<Boundary>)
        ensures
            owed@ == old(self)@.owed(*o, fade),
            final(self)@ == (Track { deferred: Seq::empty(), ..old(self)@ }),
    {
        let mut owed: Vec<Boundary> = Vec::new();
        owed.append(&mut self.deferred);
        assert(owed@ =~= old(self)@.deferred);
        if let Some(f) = fade {
            let stands: bool = o.threshold.initial_cut || match self.gate_anchor {
                Some(anchor) => elapsed_at_least(f.at, anchor, o.threshold.min_duration),
                None => true,
            };
            if stands {
                owed.push(f);
            }
        }
        assert(self@ =~= (Track { deferred: Seq::empty(), ..old(self)@ }));
        sort_by_time(owed)
    }

    /// Lets a boundary owed at the end of the stream close the shot, where it still
    /// stands and is admissible.
    fn close_owed<S: Fn(TimeRange) -> Vec<Selected>>(
        &mut self,
        o: &Options,
        b: Boundary,
        lag: usize,
        select: S,
    )
        requires
            old(self)@.wf(lag as int),
            forall|r: TimeRange| #[trigger] select.requires((r,)),
        ensures
            old(self)@.owed_step(*o, b, select, final(self)@),
            final(self)@.wf(lag as int),
            final(self)@.last_ts == old(self)@.last_ts,
            final(self)@.deferred == old(self)@.deferred,
    {
        if let Some(r) = self.revalidate_deferred(o, b) {
            if self.admissible(r.at, lane_gate(o, &r.provenance), false) {
                self.finalize_window(r.at, select);
                let ghost w = self@;
                assert(old(self)@.drained(r.at, select, w));
                assert(w.wf(lag as int));
                self.close_shot_at(r);
            }
        }
    }

    /// Lets the boundaries owed at the end of the stream close shots, one after the
    /// other.
    fn close_all_owed<S: Fn(TimeRange) -> Vec<Selected> + Copy>(
        &mut self,
        o: &Options,
        owed: &Vec<Boundary>,
        lag: usize,
        select: S,
    )
        requires
            old(self)@.wf(lag as int),
            forall|r: TimeRange| #[trigger] select.requires((r,)),
        ensures
            old(self)@.owed_steps(*o, owed@, select, final(self)@),
            final(self)@.wf(lag as int),
            final(self)@.last_ts == old(self)@.last_ts,
    {
        let ghost start = self@;
        let n: usize = owed.len();
        let mut i: usize = 0;
        let ghost mut states = seq![start];
        while i < n
            invariant
                n == owed@.len(),
                i <= n,
                forall|r: TimeRange| #[trigger] select.requires((r,)),
                self@.wf(lag as int),
                self@.last_ts == start.last_ts,
                start.owed_trace(*o, owed@.take(i as int), select, states),
                states.last() == self@,
            decreases n - i,
        {
            self.close_owed(o, owed[i], lag, select);
            proof {
                let before = states;
                states = states.push(self@);
                let part = owed@.take(i + 1);
                assert forall|j: int| 0 <= j < part.len() implies states[j].owed_step(
                    *o,
                    #[trigger] part[j],
                    select,
                    states[j + 1],
                ) by {
                    if j < i {
                        assert(before[j].owed_step(
                            *o,
                            owed@.take(i as int)[j],
                            select,
                            before[j + 1],
                        ));
                    }
                }
            }
            i = i + 1;
        }
        assert(owed@.take(n as int) =~= owed@);
        assert(start.owed_trace(*o, owed@, select, states));
    }

    /// Closes the last shot at `end`.
    fn close_last<S: Fn(TimeRange) -> Vec<Selected>>(
        &mut self,
        end: Boundary,
        lag: usize,
        select: S,
    )
        requires
            old(self)@.wf(lag as int),
            forall|r: TimeRange| #[trigger] select.requires((r,)),
        ensures
            exists|w: Track| #[trigger]
                old(self)@.drained(end.at, select, w) && final(self)@ == w.closed(end),
    {
        self.finalize_window(end.at, select);
        let ghost w = self@;
        assert(old(self)@.drained(end.at, select, w));
        assert(w.wf(lag as int));
        self.close_shot_at(end);
    }

    /// Hands out everything that waits.
    fn drain(&mut self) -> (out: Vec<Event>)
        ensures
            out@ == old(self)@.pending,
    {
        let ghost all = self@.pending;
        let mut out: Vec<Event> = Vec::new();
        let mut more: bool = true;
        while more
            invariant
                out@ + self@.pending == all,
                !more ==> self@.pending.len() == 0,
            decreases self@.pending.len() + if more {
                1int
            } else {
                0int
            },
        {
            let ghost before = self@.pending;
            match self.pop() {
                Some(e) => {
                    proof {
                        assert(out@.push(e) + before.drop_first() =~= out@ + before);
                    }
                    out.push(e);
                },
                None => {
                    more = false;
                },
            }
        }
        assert(out@ =~= all);
        out
    }

    /// Ends the stream: closes what is still owed and the last shot, hands out
    /// everything that waits, and starts anew. `fade` is what the fade lane reports
    /// at the end.
    pub fn finish<S: Fn(TimeRange) -> Vec<Selected> + Copy>(
        &mut self,
        o: &Options,
        fade: Option<Boundary>,
        lag: usize,
        select: S,
    ) -> (out: Vec<Event>)
        requires
            old(self)@.wf(lag as int),
            forall|r: TimeRange| #[trigger] select.requires((r,)),
        ensures
            exists|t: Track| #[trigger]
                old(self)@.finished(*o, fade, select, t) && out@ == t.pending,
            final(self)@ == Track::fresh(),
    {
        if let Some(last) = self.last_ts {
            let owed: Vec<Boundary> = self.take_owed(o, fade);
            self.close_all_owed(o, &owed, lag, select);
            let ghost mid = self@;
            let end: Boundary = Boundary {
                at: Timestamp::new(last.pts + 1, last.timebase),
                provenance: Provenance::Finalized,
            };
            self.close_last(end, lag, select);
            proof {
                assert(old(self)@.last_boundary() == Some(end));
                let w = choose|w: Track| #[trigger]
                    mid.drained(end.at, select, w) && self@ == w.closed(end);
                assert(mid.drained(end.at, select, w));
            }
        }
        assert(old(self)@.finished(*o, fade, select, self@));
        let out: Vec<Event> = self.drain();
        self.reset();
        out
    }

    /// Starts anew.
    pub fn reset(&mut self)
        ensures
            final(self)@ == Track::fresh(),
    {
        *self = Timeline::new();
    }
}

} // verus!
