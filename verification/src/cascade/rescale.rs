//! Ceiling rescale of timestamps into the timebase of a stream.

use vstd::arithmetic::div_mod::*;
use vstd::prelude::*;

use crate::time::{moving, relation_compares_instants, Relation, TimeRange, Timebase, Timestamp};

verus! {

/// The quotient of `a` by a positive `b`, rounded up.
pub open spec fn ceil_div(a: int, b: int) -> int {
    (a + b - 1) / b
}

/// The instant in ticks of `tb`, rounded up to a whole tick.
pub open spec fn ceil_ticks(ts: Timestamp, tb: Timebase) -> int {
    ceil_div(
        ts.ticks() * ts.base().numerator() * tb.denominator(),
        ts.base().denominator() * tb.numerator(),
    )
}

/// The tick fits in 64 bits.
pub open spec fn fits(tick: int) -> bool {
    i64::MIN <= tick <= i64::MAX
}

/// The instant in ticks of `tb`, rounded up, and held at the limits of 64 bits on
/// the side of zero that it lies on.
pub open spec fn held_ticks(ts: Timestamp, tb: Timebase) -> int {
    if fits(ceil_ticks(ts, tb)) {
        ceil_ticks(ts, tb)
    } else if ts.ticks() < 0 {
        i64::MIN as int
    } else {
        i64::MAX as int
    }
}

/// A rounded-up quotient is the least integer that is not below the exact one.
pub proof fn lemma_ceil_div(a: int, b: int)
    requires
        b > 0,
    ensures
        (ceil_div(a, b) - 1) * b < a <= ceil_div(a, b) * b,
{
    let q = ceil_div(a, b);
    lemma_fundamental_div_mod(a + b - 1, b);
    lemma_mod_bound(a + b - 1, b);
    let r = (a + b - 1) % b;
    assert(q * b == b * q) by (nonlinear_arith);
    assert((q - 1) * b == q * b - b) by (nonlinear_arith);
}

/// The integer between `a / b` and one above it is the rounded-up quotient.
pub proof fn lemma_ceil_unique(a: int, b: int, q: int)
    requires
        b > 0,
        (q - 1) * b < a <= q * b,
    ensures
        q == ceil_div(a, b),
{
    lemma_ceil_div(a, b);
    let p = ceil_div(a, b);
    if p < q {
        assert(p * b <= (q - 1) * b) by (nonlinear_arith)
            requires
                p <= q - 1,
                b > 0,
        ;
    } else if q < p {
        assert(q * b <= (p - 1) * b) by (nonlinear_arith)
            requires
                q <= p - 1,
                b > 0,
        ;
    }
}

/// A scaled instant stays below 127 bits, with room for one denominator.
proof fn lemma_scaled_fits(p: i64, n: u32, d: u32)
    ensures
        -0x7fff_ffff_0000_0000_8000_0000_0000_0000 <= p * n * d
            <= 0x7fff_ffff_0000_0000_8000_0000_0000_0000,
        -0x8000_0000_0000_0000_0000_0000 <= p * n <= 0x8000_0000_0000_0000_0000_0000,
{
    let m = p * n;
    assert(-0x8000_0000_0000_0000 * 0xffff_ffff <= m <= 0x8000_0000_0000_0000 * 0xffff_ffff)
        by (nonlinear_arith)
        requires
            m == p * n,
            -0x8000_0000_0000_0000 <= p <= 0x8000_0000_0000_0000,
            0 <= n <= 0xffff_ffff,
    ;
    let top = 0x8000_0000_0000_0000 * 0xffff_ffff;
    assert(-top * 0xffff_ffff <= m * d <= top * 0xffff_ffff) by (nonlinear_arith)
        requires
            -top <= m <= top,
            0 <= d <= 0xffff_ffff,
            top >= 0,
    ;
}

/// The instant in ticks of `tb`, rounded up; `None` where it does not fit.
pub fn rescale_ceil_checked(ts: Timestamp, tb: Timebase) -> (r: Option<i64>)
    requires
        tb.numerator() > 0,
    ensures
        match r {
            Some(t) => t == ceil_ticks(ts, tb),
            None => !fits(ceil_ticks(ts, tb)),
        },
{
    let pts: i64 = ts.pts();
    let from_num: u32 = ts.timebase().num();
    let from_den: u32 = ts.timebase().den();
    let to_num: u32 = tb.num();
    let to_den: u32 = tb.den();
    proof {
        lemma_scaled_fits(pts, from_num, to_den);
        assert(0 < from_den * to_num <= 0xffff_ffff * 0xffff_ffff) by (nonlinear_arith)
            requires
                0 < from_den <= 0xffff_ffff,
                0 < to_num <= 0xffff_ffff,
        ;
    }
    let num: i128 = pts as i128 * from_num as i128 * to_den as i128;
    let den: u128 = from_den as u128 * to_num as u128;
    let ceil: i128 = if num >= 0 {
        let up: u128 = num as u128 + (den - 1);
        let q: u128 = up / den;
        proof {
            lemma_div_nonincreasing(up as int, den as int);
        }
        q as i128
    } else {
        let size: u128 = (-num) as u128;
        let q: u128 = size / den;
        proof {
            lemma_fundamental_div_mod(size as int, den as int);
            lemma_mod_bound(size as int, den as int);
            lemma_div_nonincreasing(size as int, den as int);
            let r = size as int % den as int;
            assert((-q - 1) * den < num <= (-q) * den) by (nonlinear_arith)
                requires
                    size == den * q + r,
                    0 <= r < den,
                    num == -size,
            ;
            lemma_ceil_unique(num as int, den as int, -(q as int));
        }
        -(q as i128)
    };
    if i64::MIN as i128 <= ceil && ceil <= i64::MAX as i128 {
        Some(ceil as i64)
    } else {
        None
    }
}

/// The instant in ticks of `tb`, rounded up and held at the limits.
pub fn rescale_ceil(ts: Timestamp, tb: Timebase) -> (t: i64)
    requires
        tb.numerator() > 0,
    ensures
        t == held_ticks(ts, tb),
{
    match rescale_ceil_checked(ts, tb) {
        Some(t) => t,
        None => if ts.pts() < 0 {
            i64::MIN
        } else {
            i64::MAX
        },
    }
}

/// The range of a shot in the timebase of the stream, if it holds a tick.
pub open spec fn range_of(start: Timestamp, end: Timestamp, tb: Timebase) -> Option<TimeRange> {
    if held_ticks(start, tb) < held_ticks(end, tb) {
        Some(TimeRange::spanning(held_ticks(start, tb), held_ticks(end, tb), tb))
    } else {
        None
    }
}

/// The half-open range of a shot in the timebase of the stream; `None` where it is
/// reversed or holds no tick. Both ends are rounded up.
pub fn shot_range(start: Timestamp, end: Timestamp, tb: Timebase) -> (r: Option<TimeRange>)
    requires
        tb.numerator() > 0,
    ensures
        r == range_of(start, end, tb),
        r matches Some(t) ==> t.first() == held_ticks(start, tb) && t.past() == held_ticks(end, tb)
            && t.base() == tb,
{
    let start_pts: i64 = rescale_ceil(start, tb);
    let end_pts: i64 = rescale_ceil(end, tb);
    match TimeRange::try_new(start_pts, end_pts, tb) {
        Some(range) => if range.is_instant() {
            None
        } else {
            Some(range)
        },
        None => None,
    }
}

/// A timestamp already in the timebase keeps its tick.
pub proof fn rescale_into_own_timebase_is_exact(ts: Timestamp, tb: Timebase)
    requires
        ts.valid(),
        tb.valid(),
        tb.same_parts(ts.base()),
        tb.numerator() > 0,
    ensures
        ceil_ticks(ts, tb) == ts.ticks(),
        held_ticks(ts, tb) == ts.ticks(),
{
    let n = tb.numerator();
    let d = tb.denominator();
    let p = ts.ticks();
    assert(d * n > 0) by (nonlinear_arith)
        requires
            d > 0,
            n > 0,
    ;
    assert(p * n * d == p * (d * n)) by (nonlinear_arith);
    assert((p - 1) * (d * n) < p * (d * n)) by (nonlinear_arith)
        requires
            d * n > 0,
    ;
    lemma_ceil_unique(p * n * d, d * n, p);
}

/// The rescale rounds up to the least tick that is not before the instant.
pub proof fn rescale_rounds_up(ts: Timestamp, tb: Timebase)
    requires
        ts.valid(),
        tb.valid(),
        tb.numerator() > 0,
    ensures
        ({
            let exact = ts.ticks() * ts.base().numerator() * tb.denominator();
            let unit = ts.base().denominator() * tb.numerator();
            (ceil_ticks(ts, tb) - 1) * unit < exact <= ceil_ticks(ts, tb) * unit
        }),
{
    let d = ts.base().denominator();
    let n = tb.numerator();
    assert(d * n > 0) by (nonlinear_arith)
        requires
            d > 0,
            n > 0,
    ;
    lemma_ceil_div(ts.ticks() * ts.base().numerator() * tb.denominator(), d * n);
}

/// An instant on either side of zero stays there.
proof fn lemma_ceil_sign(ts: Timestamp, tb: Timebase)
    requires
        moving(ts),
        tb.valid(),
        tb.numerator() > 0,
    ensures
        ts.ticks() < 0 ==> ceil_ticks(ts, tb) <= 0,
        ts.ticks() >= 0 ==> ceil_ticks(ts, tb) >= 0,
{
    rescale_rounds_up(ts, tb);
    let p = ts.ticks();
    let n = ts.base().numerator();
    let e = tb.denominator();
    let unit = ts.base().denominator() * tb.numerator();
    let q = ceil_ticks(ts, tb);
    let exact = p * n * e;
    assert(unit > 0) by (nonlinear_arith)
        requires
            unit == ts.base().denominator() * tb.numerator(),
            ts.base().denominator() > 0,
            tb.numerator() > 0,
    ;
    if p < 0 {
        assert(exact <= 0) by (nonlinear_arith)
            requires
                exact == p * n * e,
                p < 0,
                n > 0,
                e > 0,
        ;
        assert(q - 1 < 0) by (nonlinear_arith)
            requires
                (q - 1) * unit < exact,
                exact <= 0,
                unit > 0,
        ;
    } else {
        assert(exact >= 0) by (nonlinear_arith)
            requires
                exact == p * n * e,
                p >= 0,
                n > 0,
                e > 0,
        ;
        assert(q >= 0) by (nonlinear_arith)
            requires
                exact <= q * unit,
                exact >= 0,
                unit > 0,
        ;
    }
}

/// The rescale keeps the order of instants, also where it is held at the limits.
pub proof fn rescale_is_monotone(a: Timestamp, b: Timestamp, tb: Timebase)
    requires
        moving(a),
        moving(b),
        tb.valid(),
        tb.numerator() > 0,
        a.relation(b) != Relation::After,
    ensures
        ceil_ticks(a, tb) <= ceil_ticks(b, tb),
        held_ticks(a, tb) <= held_ticks(b, tb),
{
    relation_compares_instants(a, b);
    rescale_rounds_up(a, tb);
    rescale_rounds_up(b, tb);
    lemma_ceil_sign(a, tb);
    lemma_ceil_sign(b, tb);
    let x = a.ticks() * a.base().numerator();
    let y = b.ticks() * b.base().numerator();
    let da = a.base().denominator();
    let db = b.base().denominator();
    let e = tb.denominator();
    let n = tb.numerator();
    let p = ceil_ticks(a, tb);
    let q = ceil_ticks(b, tb);
    if q < p {
        assert(x * e * db <= y * e * da) by (nonlinear_arith)
            requires
                x * db <= y * da,
                e > 0,
        ;
        assert(y * e * da <= q * (db * n) * da) by (nonlinear_arith)
            requires
                y * e <= q * (db * n),
                da > 0,
        ;
        assert(x * e * db > (p - 1) * (da * n) * db) by (nonlinear_arith)
            requires
                x * e > (p - 1) * (da * n),
                db > 0,
        ;
        assert(q * (db * n) * da <= (p - 1) * (da * n) * db) by (nonlinear_arith)
            requires
                q <= p - 1,
                da > 0,
                db > 0,
                n > 0,
        ;
    }
}

/// Shots that follow each other have adjacent ranges: where both hold a tick, the
/// second starts at the tick that the first ends at.
pub proof fn consecutive_ranges_are_adjacent(
    start: Timestamp,
    cut: Timestamp,
    end: Timestamp,
    tb: Timebase,
)
    requires
        range_of(start, cut, tb) is Some,
        range_of(cut, end, tb) is Some,
    ensures
        range_of(start, cut, tb)->0 == TimeRange::spanning(
            held_ticks(start, tb),
            held_ticks(cut, tb),
            tb,
        ),
        range_of(cut, end, tb)->0 == TimeRange::spanning(
            held_ticks(cut, tb),
            held_ticks(end, tb),
            tb,
        ),
{
}

/// Whether a tick of the stream lies in the range of a shot.
pub open spec fn shot_covers(start: Timestamp, end: Timestamp, tb: Timebase, tick: int) -> bool {
    range_of(start, end, tb) is Some && held_ticks(start, tb) <= tick < held_ticks(end, tb)
}

/// The ranges of consecutive shots tile the stream: with the boundaries in order,
/// each tick from the first boundary to the last lies in the range of one shot.
pub proof fn ranges_tile_the_stream(cuts: Seq<Timestamp>, tb: Timebase, tick: int)
    requires
        cuts.len() >= 2,
        held_ticks(cuts[0], tb) <= tick < held_ticks(cuts.last(), tb),
        forall|i: int, j: int|
            0 <= i <= j < cuts.len() ==> held_ticks(#[trigger] cuts[i], tb) <= held_ticks(
                #[trigger] cuts[j],
                tb,
            ),
    ensures
        exists|i: int|
            0 <= i < cuts.len() - 1 && #[trigger] shot_covers(cuts[i], cuts[i + 1], tb, tick),
        forall|i: int, j: int|
            0 <= i < cuts.len() - 1 && 0 <= j < cuts.len() - 1 && #[trigger] shot_covers(
                cuts[i],
                cuts[i + 1],
                tb,
                tick,
            ) && #[trigger] shot_covers(cuts[j], cuts[j + 1], tb, tick) ==> i == j,
{
    assert(exists|i: int|
        0 <= i < cuts.len() - 1 && #[trigger] shot_covers(cuts[i], cuts[i + 1], tb, tick)) by {
        lemma_tile_exists(cuts, tb, tick);
    }
    assert forall|i: int, j: int|
        0 <= i < cuts.len() - 1 && 0 <= j < cuts.len() - 1 && #[trigger] shot_covers(
            cuts[i],
            cuts[i + 1],
            tb,
            tick,
        ) && #[trigger] shot_covers(cuts[j], cuts[j + 1], tb, tick) implies i == j by {
        if i < j {
            assert(held_ticks(cuts[i + 1], tb) <= held_ticks(cuts[j], tb));
        } else if j < i {
            assert(held_ticks(cuts[j + 1], tb) <= held_ticks(cuts[i], tb));
        }
    }
}

/// Some shot covers the tick.
proof fn lemma_tile_exists(cuts: Seq<Timestamp>, tb: Timebase, tick: int)
    requires
        cuts.len() >= 2,
        held_ticks(cuts[0], tb) <= tick < held_ticks(cuts.last(), tb),
    ensures
        exists|i: int|
            0 <= i < cuts.len() - 1 && #[trigger] shot_covers(cuts[i], cuts[i + 1], tb, tick),
    decreases cuts.len(),
{
    let n = cuts.len() as int;
    if held_ticks(cuts[n - 2], tb) <= tick {
        assert(shot_covers(cuts[n - 2], cuts[n - 2 + 1], tb, tick));
    } else {
        let init = cuts.drop_last();
        lemma_tile_exists(init, tb, tick);
        let i = choose|i: int|
            0 <= i < init.len() - 1 && #[trigger] shot_covers(init[i], init[i + 1], tb, tick);
        assert(shot_covers(cuts[i], cuts[i + 1], tb, tick));
    }
}

} // verus!
