//! Timestamps, time ranges and durations.
//!
//! The types hold plain integers. Arithmetic across timebases is done by the
//! `mediatime` crate, behind five private functions of this file.

use vstd::arithmetic::div_mod::*;
use vstd::arithmetic::mul::*;
use vstd::prelude::*;

verus! {

/// A span of time: whole seconds and nanoseconds below one second.
#[derive(Debug, Clone, Copy, PartialEq, Eq, Structural)]
pub struct Duration {
    secs: u64,
    nanos: u32,
}

/// The number of nanoseconds in the longest representable duration.
pub open spec fn max_nanos() -> int {
    u64::MAX * 1_000_000_000 + 999_999_999
}

impl Duration {
    /// The nanoseconds part stays below one second.
    #[verifier::type_invariant]
    pub closed spec fn normal(self) -> bool {
        self.nanos < 1_000_000_000
    }

    /// The whole span in nanoseconds.
    pub closed spec fn total(self) -> int {
        self.secs * 1_000_000_000 + self.nanos
    }

    /// The span of `n` nanoseconds.
    pub closed spec fn of_nanos(n: int) -> Duration {
        Duration { secs: (n / 1_000_000_000) as u64, nanos: (n % 1_000_000_000) as u32 }
    }

    /// The span of `secs` seconds and `nanos` nanoseconds.
    pub fn new(secs: u64, nanos: u32) -> (d: Duration)
        requires
            nanos < 1_000_000_000,
        ensures
            d.total() == secs * 1_000_000_000 + nanos,
    {
        Duration { secs, nanos }
    }

    /// The span of `secs` seconds.
    pub fn from_secs(secs: u64) -> (d: Duration)
        ensures
            d.total() == secs * 1_000_000_000,
            d == Duration::of_nanos(secs * 1_000_000_000),
    {
        Duration { secs, nanos: 0 }
    }

    /// The span of `millis` milliseconds.
    pub fn from_millis(millis: u64) -> (d: Duration)
        ensures
            d.total() == millis * 1_000_000,
    {
        let rest: u64 = millis % 1000;
        Duration { secs: millis / 1000, nanos: (rest * 1_000_000) as u32 }
    }

    /// The span of `nanos` nanoseconds.
    pub fn from_nanos(nanos: u64) -> (d: Duration)
        ensures
            d.total() == nanos,
    {
        Duration { secs: nanos / 1_000_000_000, nanos: (nanos % 1_000_000_000) as u32 }
    }

    /// Whole seconds of the span.
    pub fn as_secs(&self) -> (s: u64)
        ensures
            s == self.total() / 1_000_000_000,
    {
        proof {
            use_type_invariant(*self);
        }
        self.secs
    }

    /// Nanoseconds of the span past its whole seconds.
    pub fn subsec_nanos(&self) -> (n: u32)
        ensures
            n == self.total() % 1_000_000_000,
    {
        proof {
            use_type_invariant(*self);
        }
        self.nanos
    }

    /// Whether the span is empty.
    pub fn is_zero(&self) -> (z: bool)
        ensures
            z == (self.total() == 0),
            0 <= self.total() <= max_nanos(),
    {
        proof {
            use_type_invariant(*self);
        }
        self.secs == 0 && self.nanos == 0
    }

    /// Whether the span is at least as long as `other`.
    pub fn at_least(&self, other: &Duration) -> (r: bool)
        ensures
            r == (self.total() >= other.total()),
            0 <= self.total() <= max_nanos(),
            0 <= other.total() <= max_nanos(),
    {
        proof {
            use_type_invariant(*self);
            use_type_invariant(*other);
        }
        self.secs > other.secs || (self.secs == other.secs && self.nanos >= other.nanos)
    }
}

/// The rational number of seconds that one tick of a timestamp stands for, or a
/// frame rate in frames per second.
#[derive(Debug, Clone, Copy)]
pub struct Timebase {
    num: u32,
    den: u32,
}

impl Timebase {
    /// The denominator is not zero.
    #[verifier::type_invariant]
    pub closed spec fn normal(self) -> bool {
        self.den != 0
    }

    /// The numerator.
    pub closed spec fn numerator(self) -> int {
        self.num as int
    }

    /// The denominator.
    pub closed spec fn denominator(self) -> int {
        self.den as int
    }

    /// What holds of every timebase.
    pub open spec fn valid(self) -> bool {
        &&& 0 <= self.numerator() <= u32::MAX
        &&& 0 < self.denominator() <= u32::MAX
    }

    /// Both parts of two timebases are equal.
    pub open spec fn same_parts(self, other: Timebase) -> bool {
        self.numerator() == other.numerator() && self.denominator() == other.denominator()
    }

    /// The timebase `num / den`.
    pub fn new(num: u32, den: u32) -> (tb: Timebase)
        requires
            den != 0,
        ensures
            tb.numerator() == num,
            tb.denominator() == den,
            tb.valid(),
    {
        Timebase { num, den }
    }

    /// The numerator.
    pub fn num(&self) -> (n: u32)
        ensures
            n == self.numerator(),
            self.valid(),
    {
        proof {
            use_type_invariant(*self);
        }
        self.num
    }

    /// The denominator, never zero.
    pub fn den(&self) -> (n: u32)
        ensures
            n == self.denominator(),
            n != 0,
            self.valid(),
    {
        proof {
            use_type_invariant(*self);
        }
        self.den
    }
}

/// A numerator fits in 32 bits.
pub proof fn lemma_numerator_range(tb: Timebase)
    ensures
        0 <= tb.numerator() <= u32::MAX,
{
}

/// Two timebases are equal where they stand for the same rational number.
impl PartialEq for Timebase {
    fn eq(&self, other: &Timebase) -> (r: bool) {
        proof {
            lemma_product_fits(self.num, other.den);
            lemma_product_fits(other.num, self.den);
        }
        self.num as u64 * other.den as u64 == other.num as u64 * self.den as u64
    }
}

impl Eq for Timebase {

}

impl vstd::std_specs::cmp::PartialEqSpecImpl for Timebase {
    open spec fn obeys_eq_spec() -> bool {
        true
    }

    open spec fn eq_spec(&self, other: &Timebase) -> bool {
        self.numerator() * other.denominator() == other.numerator() * self.denominator()
    }
}

/// The product of two parts of a timebase fits in 64 bits.
proof fn lemma_product_fits(a: u32, b: u32)
    ensures
        0 <= a * b <= u64::MAX,
{
    assert(0 <= a * b <= u64::MAX) by (nonlinear_arith)
        requires
            0 <= a <= u32::MAX,
            0 <= b <= u32::MAX,
    ;
}

/// A point in time: a number of ticks of a timebase.
#[derive(Debug, Clone, Copy)]
pub struct Timestamp {
    /// The number of ticks.
    pub pts: i64,
    /// The timebase of the ticks.
    pub timebase: Timebase,
}

/// How two points in time lie to each other.
#[derive(Debug, Clone, Copy, PartialEq, Eq, Structural)]
pub enum Relation {
    /// The first is earlier.
    Before,
    /// Both are the same instant.
    Same,
    /// The first is later.
    After,
}

/// Greatest common divisor.
pub open spec fn gcd(a: nat, b: nat) -> nat
    decreases b,
{
    if b == 0 {
        a
    } else {
        gcd(b, a % b)
    }
}

impl Timestamp {
    /// The number of ticks.
    pub open spec fn ticks(self) -> int {
        self.pts as int
    }

    /// The timebase of the ticks.
    pub open spec fn base(self) -> Timebase {
        self.timebase
    }

    /// What holds of every timestamp.
    pub open spec fn valid(self) -> bool {
        &&& i64::MIN <= self.ticks() <= i64::MAX
        &&& self.base().valid()
    }

    /// The instant in seconds, as a numerator over the product of the
    /// denominators of this timestamp and `other`.
    pub open spec fn scaled(self, other: Timestamp) -> int {
        self.ticks() * self.base().numerator() * other.base().denominator()
    }

    /// How this instant lies to `other`: by ticks where both have the same
    /// timebase, else by the exact instants.
    pub open spec fn relation(self, other: Timestamp) -> Relation {
        let (a, b) = if self.base().same_parts(other.base()) {
            (self.ticks(), other.ticks())
        } else {
            (self.scaled(other), other.scaled(self))
        };
        if a < b {
            Relation::Before
        } else if a > b {
            Relation::After
        } else {
            Relation::Same
        }
    }

    /// The exact time from `earlier` to this instant, as a numerator over the
    /// product of both denominators.
    pub open spec fn elapsed(self, earlier: Timestamp) -> int {
        self.scaled(earlier) - earlier.scaled(self)
    }

    /// The time between the two instants, over the least common denominator, fits
    /// in 128 bits. Any two timestamps on the same side of zero are measurable, and
    /// so are any two of one timebase, or with numerators below 31 bits.
    pub open spec fn measurable(self, earlier: Timestamp) -> bool {
        let g = gcd(self.base().denominator() as nat, earlier.base().denominator() as nat);
        i128::MIN * g <= self.elapsed(earlier) <= i128::MAX * g
    }

    /// Nanoseconds from `earlier` to this instant, rounded down and held at the
    /// longest duration; `None` where `earlier` is later.
    pub open spec fn nanos_since(self, earlier: Timestamp) -> Option<int> {
        let n = self.elapsed(earlier);
        let d = self.base().denominator() * earlier.base().denominator();
        if n < 0 {
            None
        } else if n * 1_000_000_000 / d > max_nanos() {
            Some(max_nanos())
        } else {
            Some(n * 1_000_000_000 / d)
        }
    }

    /// The time from `earlier` to this instant; `None` where `earlier` is later.
    pub open spec fn since(self, earlier: Timestamp) -> Option<Duration> {
        match self.nanos_since(earlier) {
            Some(n) => Some(Duration::of_nanos(n)),
            None => None,
        }
    }

    /// The timestamp of `pts` ticks of `timebase`.
    pub fn new(pts: i64, timebase: Timebase) -> (ts: Timestamp)
        ensures
            ts.ticks() == pts,
            ts.base() == timebase,
            ts.valid(),
    {
        proof {
            use_type_invariant(timebase);
        }
        Timestamp { pts, timebase }
    }

    /// The number of ticks.
    pub fn pts(&self) -> (pts: i64)
        ensures
            pts == self.ticks(),
            self.valid(),
    {
        proof {
            use_type_invariant(self.timebase);
        }
        self.pts
    }

    /// The timebase of the ticks.
    pub fn timebase(&self) -> (tb: Timebase)
        ensures
            tb == self.base(),
            self.valid(),
    {
        proof {
            use_type_invariant(self.timebase);
        }
        self.timebase
    }

    /// How this instant lies to `other`.
    pub fn relate(&self, other: &Timestamp) -> (r: Relation)
        ensures
            r == self.relation(*other),
    {
        semantic_order(*self, *other)
    }

    /// The time from `earlier` to this instant; `None` where `earlier` is later.
    pub fn duration_since(&self, earlier: &Timestamp) -> (d: Option<Duration>)
        ensures
            d is Some <==> self.elapsed(*earlier) >= 0,
            d matches Some(t) ==> Some(t.total()) == self.nanos_since(*earlier),
            d == self.since(*earlier),
    {
        proof {
            use_type_invariant(self.timebase);
            use_type_invariant(earlier.timebase);
        }
        let same_side: bool = (self.pts < 0) == (earlier.pts < 0);
        let small: bool = self.timebase.num <= 0x7fff_ffff && earlier.timebase.num <= 0x7fff_ffff;
        let d: Option<Duration> = if same_side || small {
            proof {
                lemma_difference_fits(*self, *earlier);
            }
            elapsed_between(*self, *earlier)
        } else {
            across_zero(*self, *earlier)
        };
        match d {
            Some(t) => {
                proof {
                    use_type_invariant(t);
                }
                Some(t)
            },
            None => None,
        }
    }

    /// This instant moved back by `d`.
    pub fn saturating_sub_duration(&self, d: Duration) -> (ts: Timestamp)
        ensures
            ts.base() == self.base(),
            ts.ticks() == moved_back(self.ticks(), ticks_in(self.base(), d)),
            ts.valid(),
    {
        proof {
            use_type_invariant(self.timebase);
        }
        shifted_back(*self, d)
    }
}

/// Whole ticks of a timebase in a duration, rounded down and held at `i64::MAX`;
/// none in a timebase with numerator zero.
pub open spec fn ticks_in(tb: Timebase, d: Duration) -> int {
    if tb.numerator() == 0 {
        0
    } else {
        let t = d.total() * tb.denominator() / (tb.numerator() * 1_000_000_000);
        if t > i64::MAX {
            i64::MAX as int
        } else {
            t
        }
    }
}

/// `ticks` less `by`, held at `i64::MIN`.
pub open spec fn moved_back(ticks: int, by: int) -> int {
    if ticks - by < i64::MIN {
        i64::MIN as int
    } else {
        ticks - by
    }
}

/// Two timestamps are equal where they stand for the same instant.
impl PartialEq for Timestamp {
    fn eq(&self, other: &Timestamp) -> (r: bool) {
        match self.relate(other) {
            Relation::Same => true,
            _ => false,
        }
    }
}

impl Eq for Timestamp {

}

impl vstd::std_specs::cmp::PartialEqSpecImpl for Timestamp {
    open spec fn obeys_eq_spec() -> bool {
        true
    }

    open spec fn eq_spec(&self, other: &Timestamp) -> bool {
        self.relation(*other) == Relation::Same
    }
}

/// Two timestamps of one timebase are measurable, and their distance is that of
/// their ticks.
pub proof fn lemma_same_base(a: Timestamp, b: Timestamp)
    requires
        a.valid(),
        b.valid(),
        a.base().same_parts(b.base()),
    ensures
        a.measurable(b),
        a.elapsed(b) == (a.ticks() - b.ticks()) * a.base().numerator() * a.base().denominator(),
        a.base().numerator() > 0 ==> (a.elapsed(b) >= 0 <==> a.ticks() >= b.ticks()),
{
    let n = a.base().numerator();
    let d = a.base().denominator();
    let p = a.ticks();
    let q = b.ticks();
    reveal_with_fuel(gcd, 2);
    lemma_mod_self_0(d);
    assert(gcd(d as nat, d as nat) == d as nat);
    assert(p * n * d - q * n * d == (p - q) * n * d) by (nonlinear_arith);
    assert(-0x1_0000_0000_0000_0000 * 0x1_0000_0000 <= (p - q) * n <= 0x1_0000_0000_0000_0000
        * 0x1_0000_0000) by (nonlinear_arith)
        requires
            -0x1_0000_0000_0000_0000 <= p - q <= 0x1_0000_0000_0000_0000,
            0 <= n <= 0x1_0000_0000,
    ;
    lemma_mul_inequality((p - q) * n, i128::MAX as int, d);
    lemma_mul_inequality(i128::MIN as int, (p - q) * n, d);
    if n > 0 {
        assert((p - q) * n * d >= 0 <==> p >= q) by (nonlinear_arith)
            requires
                n > 0,
                d > 0,
        ;
    }
}

/// Timestamps on the same side of zero, or with numerators below 31 bits, are
/// measurable against each other.
proof fn lemma_difference_fits(a: Timestamp, b: Timestamp)
    requires
        a.valid(),
        b.valid(),
        (a.ticks() < 0) == (b.ticks() < 0) || (a.base().numerator() <= i32::MAX
            && b.base().numerator() <= i32::MAX),
    ensures
        a.measurable(b),
{
    let da = a.base().denominator();
    let db = b.base().denominator();
    lemma_gcd_positive(da as nat, db as nat);
    let g = gcd(da as nat, db as nat) as int;
    lemma_scaled_bound(a, b);
    lemma_scaled_bound(b, a);
    lemma_mul_inequality(1, g, i128::MAX as int);
    assert(i128::MIN * g <= i128::MIN) by (nonlinear_arith)
        requires
            g >= 1,
    ;
}

/// A scaled instant stays below 127 bits on its side of zero, and below 126 where the
/// numerator stays below 31.
proof fn lemma_scaled_bound(a: Timestamp, b: Timestamp)
    requires
        a.valid(),
        b.valid(),
    ensures
        -i128::MAX <= a.scaled(b) <= i128::MAX,
        a.ticks() < 0 ==> a.scaled(b) <= 0,
        a.ticks() >= 0 ==> a.scaled(b) >= 0,
        a.base().numerator() <= i32::MAX ==> -0x4000_0000_0000_0000_0000_0000_0000_0000 < a.scaled(
            b,
        ) < 0x4000_0000_0000_0000_0000_0000_0000_0000,
{
    let p = a.ticks();
    let n = a.base().numerator();
    let d = b.base().denominator();
    let m = p * n;
    lemma_product_bound(p, n, d, 0xffff_ffff);
    if n <= i32::MAX {
        lemma_product_bound(p, n, d, 0x7fff_ffff);
    }
}

/// Bounds and sign of a product of ticks, a numerator and a denominator.
proof fn lemma_product_bound(p: int, n: int, d: int, most: int)
    requires
        i64::MIN <= p <= i64::MAX,
        0 <= n <= most,
        0 < d <= u32::MAX,
    ensures
        -0x8000_0000_0000_0000 * most * 0xffff_ffff <= p * n * d <= 0x8000_0000_0000_0000 * most
            * 0xffff_ffff,
        p < 0 ==> p * n * d <= 0,
        p >= 0 ==> p * n * d >= 0,
{
    let m = p * n;
    let top = 0x8000_0000_0000_0000 * most;
    assert(-top <= m <= top) by (nonlinear_arith)
        requires
            m == p * n,
            top == 0x8000_0000_0000_0000 * most,
            -0x8000_0000_0000_0000 <= p <= 0x8000_0000_0000_0000,
            0 <= n <= most,
    ;
    assert(-top * 0xffff_ffff <= m * d <= top * 0xffff_ffff) by (nonlinear_arith)
        requires
            -top <= m <= top,
            0 <= d <= 0xffff_ffff,
            top >= 0,
    ;
    if p < 0 {
        assert(m * d <= 0) by (nonlinear_arith)
            requires
                m == p * n,
                p < 0,
                n >= 0,
                d > 0,
        ;
    } else {
        assert(m * d >= 0) by (nonlinear_arith)
            requires
                m == p * n,
                p >= 0,
                n >= 0,
                d > 0,
        ;
    }
}

/// The distance of an instant from zero, over the product of its denominator and
/// `den`.
fn distance_from_zero(ts: Timestamp, den: u32) -> (n: u128)
    requires
        ts.valid(),
        den != 0,
    ensures
        n <= i128::MAX,
        ts.ticks() < 0 ==> n == -(ts.ticks() * ts.base().numerator() * den),
        ts.ticks() >= 0 ==> n == ts.ticks() * ts.base().numerator() * den,
{
    proof {
        lemma_product_bound(ts.pts as int, ts.timebase.num as int, 1, 0xffff_ffff);
        lemma_product_bound(ts.pts as int, ts.timebase.num as int, den as int, 0xffff_ffff);
    }
    let scaled: i128 = ts.pts as i128 * ts.timebase.num as i128 * den as i128;
    if scaled < 0 {
        (-scaled) as u128
    } else {
        scaled as u128
    }
}

/// Whole units in a sum of whole and broken units.
proof fn lemma_split_quotient(n: int, d: int)
    requires
        n >= 0,
        d > 0,
    ensures
        n * 1_000_000_000 / d == (n / d) * 1_000_000_000 + (n % d) * 1_000_000_000 / d,
        0 <= (n % d) * 1_000_000_000 / d < 1_000_000_000,
{
    let q = n / d;
    let r = n % d;
    lemma_fundamental_div_mod(n, d);
    lemma_mod_bound(n, d);
    let k = r * 1_000_000_000 / d;
    lemma_fundamental_div_mod(r * 1_000_000_000, d);
    lemma_mod_bound(r * 1_000_000_000, d);
    let rest = (r * 1_000_000_000) % d;
    assert(n * 1_000_000_000 == (q * 1_000_000_000 + k) * d + rest) by (nonlinear_arith)
        requires
            n == d * q + r,
            r * 1_000_000_000 == d * k + rest,
    ;
    lemma_fundamental_div_mod_converse(n * 1_000_000_000, d, q * 1_000_000_000 + k, rest);
    assert(0 <= k < 1_000_000_000) by (nonlinear_arith)
        requires
            r * 1_000_000_000 == d * k + rest,
            0 <= rest < d,
            0 <= r < d,
    ;
}

/// The time between two instants on either side of zero. Their distance may take
/// all of 128 bits, one more than a signed difference has.
fn across_zero(later: Timestamp, earlier: Timestamp) -> (d: Option<Duration>)
    requires
        later.valid(),
        earlier.valid(),
        (later.ticks() < 0) != (earlier.ticks() < 0),
    ensures
        d is Some <==> later.elapsed(earlier) >= 0,
        d matches Some(t) ==> Some(t.total()) == later.nanos_since(earlier),
{
    let after: u128 = distance_from_zero(later, earlier.timebase.den);
    let before: u128 = distance_from_zero(earlier, later.timebase.den);
    let n: u128 = after + before;
    proof {
        lemma_scaled_bound(later, earlier);
        lemma_scaled_bound(earlier, later);
        lemma_product_fits(later.timebase.den, earlier.timebase.den);
        assert(later.timebase.den * earlier.timebase.den > 0) by (nonlinear_arith)
            requires
                later.timebase.den > 0,
                earlier.timebase.den > 0,
        ;
    }
    let den: u128 = later.timebase.den as u128 * earlier.timebase.den as u128;
    if later.pts < 0 && n > 0 {
        return None;
    }
    let secs: u128 = n / den;
    let rest: u128 = n % den;
    proof {
        lemma_split_quotient(n as int, den as int);
        lemma_mod_bound(n as int, den as int);
    }
    if secs > u64::MAX as u128 {
        return Some(Duration { secs: u64::MAX, nanos: 999_999_999 });
    }
    let nanos: u128 = rest * 1_000_000_000 / den;
    Some(Duration { secs: secs as u64, nanos: nanos as u32 })
}

/// The greatest common divisor of a positive number is positive.
proof fn lemma_gcd_positive(a: nat, b: nat)
    requires
        a > 0 || b > 0,
    ensures
        gcd(a, b) > 0,
    decreases b,
{
    if b > 0 {
        lemma_gcd_positive(b, a % b);
    }
}

/// A half-open range of time `[start, end)` in one timebase.
#[derive(Debug, Clone, Copy)]
pub struct TimeRange {
    start: i64,
    end: i64,
    timebase: Timebase,
}

/// Two ranges are equal where their ticks are and their timebases stand for the
/// same rational number.
impl PartialEq for TimeRange {
    fn eq(&self, other: &TimeRange) -> (r: bool) {
        self.start == other.start && self.end == other.end && self.timebase == other.timebase
    }
}

impl Eq for TimeRange {

}

impl vstd::std_specs::cmp::PartialEqSpecImpl for TimeRange {
    open spec fn obeys_eq_spec() -> bool {
        true
    }

    open spec fn eq_spec(&self, other: &TimeRange) -> bool {
        self.first() == other.first() && self.past() == other.past() && self.base().numerator()
            * other.base().denominator() == other.base().numerator() * self.base().denominator()
    }
}

impl TimeRange {
    /// A range does not end before it starts.
    #[verifier::type_invariant]
    pub closed spec fn normal(self) -> bool {
        self.start <= self.end
    }

    /// First tick of the range.
    pub closed spec fn first(self) -> int {
        self.start as int
    }

    /// One past the last tick of the range.
    pub closed spec fn past(self) -> int {
        self.end as int
    }

    /// The timebase of both ends.
    pub closed spec fn base(self) -> Timebase {
        self.timebase
    }

    /// The instant at which the range starts.
    pub open spec fn starts(self) -> Timestamp {
        Timestamp { pts: self.first() as i64, timebase: self.base() }
    }

    /// The instant at which the range ends.
    pub open spec fn ends(self) -> Timestamp {
        Timestamp { pts: self.past() as i64, timebase: self.base() }
    }

    /// The range from tick `start` to tick `end`.
    pub closed spec fn spanning(start: int, end: int, timebase: Timebase) -> TimeRange {
        TimeRange { start: start as i64, end: end as i64, timebase }
    }

    /// The range `[start, end)`; `None` where `end` comes before `start`.
    pub fn try_new(start: i64, end: i64, timebase: Timebase) -> (r: Option<TimeRange>)
        ensures
            r is Some <==> start <= end,
            r matches Some(t) ==> t == TimeRange::spanning(start as int, end as int, timebase),
            r matches Some(t) ==> t.first() == start && t.past() == end && t.base() == timebase,
    {
        if start <= end {
            Some(TimeRange { start, end, timebase })
        } else {
            None
        }
    }

    /// First tick of the range.
    pub fn start_pts(&self) -> (p: i64)
        ensures
            p == self.first(),
            self.first() <= self.past(),
    {
        proof {
            use_type_invariant(*self);
        }
        self.start
    }

    /// One past the last tick of the range.
    pub fn end_pts(&self) -> (p: i64)
        ensures
            p == self.past(),
            self.first() <= self.past(),
    {
        proof {
            use_type_invariant(*self);
        }
        self.end
    }

    /// The timebase of both ends.
    pub fn timebase(&self) -> (tb: Timebase)
        ensures
            tb == self.base(),
    {
        self.timebase
    }

    /// The start of the range.
    pub fn start(&self) -> (ts: Timestamp)
        ensures
            ts.ticks() == self.first(),
            ts.base() == self.base(),
            ts == self.starts(),
    {
        Timestamp::new(self.start, self.timebase)
    }

    /// The end of the range.
    pub fn end(&self) -> (ts: Timestamp)
        ensures
            ts.ticks() == self.past(),
            ts.base() == self.base(),
            ts == self.ends(),
    {
        Timestamp::new(self.end, self.timebase)
    }

    /// Whether the range is empty.
    pub fn is_instant(&self) -> (r: bool)
        ensures
            r == (self.first() == self.past()),
    {
        self.start == self.end
    }
}

/// The tick at which at least `d` has passed until `ts`: the whole ticks of `d`
/// back, and one more where they fall short of `d`.
pub open spec fn past_tick(ts: Timestamp, d: Duration) -> int {
    let tick = moved_back(ts.ticks(), ticks_in(ts.base(), d));
    let whole = (ts.ticks() - tick) * ts.base().numerator() * 1_000_000_000 >= d.total()
        * ts.base().denominator();
    if whole || ts.base().numerator() == 0 || tick == i64::MIN {
        tick
    } else {
        tick - 1
    }
}

/// The latest instant in the timebase of `ts` from which at least `d` passes until
/// `ts`, held at the smallest tick.
pub fn virtual_past(ts: Timestamp, d: Duration) -> (past: Timestamp)
    ensures
        past.base() == ts.base(),
        past.ticks() == past_tick(ts, d),
        past.valid(),
{
    proof {
        use_type_invariant(ts.timebase);
        use_type_invariant(d);
    }
    let back: Timestamp = ts.saturating_sub_duration(d);
    proof {
        lemma_ticks_nonnegative(ts.base(), d);
        lemma_same_base(ts, back);
    }
    let covered: bool = match ts.duration_since(&back) {
        Some(t) => t.at_least(&d),
        None => false,
    };
    proof {
        if ts.base().numerator() > 0 {
            lemma_covered(ts, back, d);
        }
    }
    if covered || ts.timebase.num == 0 || back.pts == i64::MIN {
        back
    } else {
        Timestamp::new(back.pts - 1, ts.timebase)
    }
}

/// Whether the nanoseconds between two ticks of one timebase reach `d` can be read
/// off the ticks.
pub proof fn lemma_covered(later: Timestamp, earlier: Timestamp, d: Duration)
    requires
        later.valid(),
        earlier.valid(),
        later.base().same_parts(earlier.base()),
        later.base().numerator() > 0,
        later.ticks() >= earlier.ticks(),
        0 <= d.total() <= max_nanos(),
    ensures
        later.nanos_since(earlier) is Some,
        later.nanos_since(earlier)->0 >= d.total() <==> (later.ticks() - earlier.ticks())
            * later.base().numerator() * 1_000_000_000 >= d.total() * later.base().denominator(),
{
    lemma_same_base(later, earlier);
    let t = later.ticks() - earlier.ticks();
    let n = later.base().numerator();
    let den = later.base().denominator();
    let e = later.elapsed(earlier);
    let total = d.total();
    assert(e == t * n * den);
    assert(e >= 0) by (nonlinear_arith)
        requires
            e == t * n * den,
            t >= 0,
            n >= 0,
            den >= 0,
    ;
    let top = e * 1_000_000_000;
    let bottom = den * den;
    assert(bottom > 0) by (nonlinear_arith)
        requires
            den > 0,
            bottom == den * den,
    ;
    let q = top / bottom;
    lemma_fundamental_div_mod(top, bottom);
    lemma_mod_bound(top, bottom);
    let r = top % bottom;
    let lhs = t * n * 1_000_000_000;
    assert(top == lhs * den) by (nonlinear_arith)
        requires
            top == t * n * den * 1_000_000_000,
            lhs == t * n * 1_000_000_000,
    ;
    if lhs >= total * den {
        assert(q >= total) by (nonlinear_arith)
            requires
                top == bottom * q + r,
                0 <= r < bottom,
                top == lhs * den,
                bottom == den * den,
                lhs >= total * den,
                den > 0,
        ;
    } else {
        assert(q < total) by (nonlinear_arith)
            requires
                top == bottom * q + r,
                0 <= r < bottom,
                top == lhs * den,
                bottom == den * den,
                lhs < total * den,
                den > 0,
        ;
    }
}

/// The virtual past is a tick no later than `ts`.
pub proof fn lemma_past_tick_range(ts: Timestamp, d: Duration)
    requires
        ts.valid(),
    ensures
        i64::MIN <= past_tick(ts, d) <= ts.ticks(),
{
    lemma_ticks_nonnegative(ts.base(), d);
}

/// From the virtual past at least `d` passes until `ts`, unless the smallest tick
/// holds it or the timebase does not move.
pub proof fn virtual_past_covers(ts: Timestamp, past: Timestamp, d: Duration)
    requires
        ts.valid(),
        past.valid(),
        past.base().same_parts(ts.base()),
        past.ticks() == past_tick(ts, d),
        past.ticks() > i64::MIN,
        ts.base().numerator() > 0,
        0 <= d.total() <= max_nanos(),
        d.total() * ts.base().denominator() / (ts.base().numerator() * 1_000_000_000) <= i64::MAX,
    ensures
        ts.nanos_since(past) is Some,
        ts.nanos_since(past)->0 >= d.total(),
{
    lemma_ticks_nonnegative(ts.base(), d);
    let n = ts.base().numerator();
    let den = ts.base().denominator();
    let t = ticks_in(ts.base(), d);
    let total = d.total();
    let unit = n * 1_000_000_000;
    lemma_fundamental_div_mod(total * den, unit);
    lemma_mod_bound(total * den, unit);
    let r = (total * den) % unit;
    assert((t + 1) * n * 1_000_000_000 >= total * den) by (nonlinear_arith)
        requires
            total * den == unit * t + r,
            r < unit,
            unit == n * 1_000_000_000,
    ;
    lemma_covered(ts, past, d);
}

/// At least `min` has passed from `last` to `ts`.
pub open spec fn min_length_met(ts: Timestamp, last: Timestamp, min: Duration) -> bool {
    match ts.nanos_since(last) {
        Some(n) => n >= min.total(),
        None => false,
    }
}

/// Whether at least `min` has passed from `last` to `ts`.
pub fn elapsed_at_least(ts: Timestamp, last: Timestamp, min: Duration) -> (met: bool)
    ensures
        met == min_length_met(ts, last, min),
{
    match ts.duration_since(&last) {
        Some(d) => d.at_least(&min),
        None => false,
    }
}

/// The instant from which a minimum duration `min` is counted at the start of a
/// stream: far enough back for it to have passed at `ts` where that is allowed, or
/// `ts` itself.
pub open spec fn seed_at(ts: Timestamp, allowed: bool, min: Duration) -> Timestamp {
    if allowed {
        Timestamp { pts: past_tick(ts, min) as i64, timebase: ts.timebase }
    } else {
        ts
    }
}

/// Where the first cut is allowed at once, the minimum duration has passed at the
/// first frame and at every later one of its timebase. Left out are streams that
/// start so close to the smallest tick that it holds the seed.
pub proof fn seed_lets_the_first_cut_pass(first: Timestamp, ts: Timestamp, min: Duration)
    requires
        first.valid(),
        ts.valid(),
        ts.base() == first.base(),
        first.ticks() <= ts.ticks(),
        first.base().numerator() > 0,
        past_tick(first, min) > i64::MIN,
        0 <= min.total() <= max_nanos(),
        min.total() * first.base().denominator() / (first.base().numerator() * 1_000_000_000)
            <= i64::MAX,
    ensures
        min_length_met(ts, seed_at(first, true, min), min),
{
    let seed = seed_at(first, true, min);
    lemma_past_tick_range(first, min);
    virtual_past_covers(first, seed, min);
    lemma_covered(first, seed, min);
    lemma_covered(ts, seed, min);
    let n = first.base().numerator();
    assert((ts.ticks() - seed.ticks()) * n * 1_000_000_000 >= (first.ticks() - seed.ticks()) * n
        * 1_000_000_000) by (nonlinear_arith)
        requires
            ts.ticks() >= first.ticks(),
            n >= 0,
    ;
}

/// The instant from which a minimum duration is counted at the start of a stream.
pub fn gate_seed(ts: Timestamp, allowed: bool, min: Duration) -> (seed: Timestamp)
    ensures
        seed == seed_at(ts, allowed, min),
{
    if allowed {
        virtual_past(ts, min)
    } else {
        ts
    }
}

/// Whole ticks of `timebase` in `d`.
pub fn duration_to_pts(timebase: Timebase, d: Duration) -> (t: i64)
    ensures
        t == ticks_in(timebase, d),
        0 <= t,
{
    proof {
        use_type_invariant(timebase);
        use_type_invariant(d);
        lemma_ticks_nonnegative(timebase, d);
    }
    ticks_of(timebase, d)
}

/// A duration holds no negative number of ticks.
pub proof fn lemma_ticks_nonnegative(tb: Timebase, d: Duration)
    requires
        tb.valid(),
    ensures
        0 <= ticks_in(tb, d) <= i64::MAX,
        0 <= d.total(),
{
    if tb.numerator() != 0 {
        lemma_mul_nonnegative(d.total(), tb.denominator());
        lemma_div_pos_is_pos(d.total() * tb.denominator(), tb.numerator() * 1_000_000_000);
    }
}

/// The time that `frames` frames take at the frame rate `fps`, rounded down to a
/// nanosecond.
pub fn frames_to_duration(fps: Timebase, frames: u32) -> (d: Duration)
    requires
        fps.numerator() != 0,
    ensures
        d.total() == frames * fps.denominator() * 1_000_000_000 / fps.numerator(),
{
    frame_time(fps, frames)
}

/// `mediatime::Timestamp::cmp_semantic`: the order of two instants, by ticks
/// where numerator and denominator of both timebases are the same, else by exact
/// cross multiplication.
#[verifier::external_body]
fn semantic_order(a: Timestamp, b: Timestamp) -> (r: Relation)
    ensures
        r == a.relation(b),
{
    let a_base = mediatime::Timebase::new(
        a.timebase.num,
        core::num::NonZeroU32::new(a.timebase.den).unwrap(),
    );
    let b_base = mediatime::Timebase::new(
        b.timebase.num,
        core::num::NonZeroU32::new(b.timebase.den).unwrap(),
    );
    let other = mediatime::Timestamp::new(b.pts, b_base);
    match mediatime::Timestamp::new(a.pts, a_base).cmp_semantic(&other) {
        core::cmp::Ordering::Less => Relation::Before,
        core::cmp::Ordering::Equal => Relation::Same,
        core::cmp::Ordering::Greater => Relation::After,
    }
}

/// `mediatime::Timestamp::duration_since`: the time from `earlier` to `later`,
/// computed exactly and rounded down once to a nanosecond; `None` where `earlier`
/// is the later one, and the longest duration where the seconds do not fit.
#[verifier::external_body]
fn elapsed_between(later: Timestamp, earlier: Timestamp) -> (d: Option<Duration>)
    requires
        later.measurable(earlier),
    ensures
        d is Some <==> later.elapsed(earlier) >= 0,
        d matches Some(t) ==> Some(t.total()) == later.nanos_since(earlier),
{
    let later_base = mediatime::Timebase::new(
        later.timebase.num,
        core::num::NonZeroU32::new(later.timebase.den).unwrap(),
    );
    let earlier_base = mediatime::Timebase::new(
        earlier.timebase.num,
        core::num::NonZeroU32::new(earlier.timebase.den).unwrap(),
    );
    let from = mediatime::Timestamp::new(earlier.pts, earlier_base);
    mediatime::Timestamp::new(later.pts, later_base).duration_since(&from).map(
        |t| Duration { secs: t.as_secs(), nanos: t.subsec_nanos() },
    )
}

/// `mediatime::Timestamp::saturating_sub_duration`: the instant moved back by the
/// whole ticks of its timebase in `d`, held at the smallest tick.
#[verifier::external_body]
fn shifted_back(ts: Timestamp, d: Duration) -> (r: Timestamp)
    ensures
        r.base() == ts.base(),
        r.ticks() == moved_back(ts.ticks(), ticks_in(ts.base(), d)),
        r.valid(),
{
    let base = mediatime::Timebase::new(
        ts.timebase.num,
        core::num::NonZeroU32::new(ts.timebase.den).unwrap(),
    );
    let moved = mediatime::Timestamp::new(ts.pts, base).saturating_sub_duration(
        core::time::Duration::new(d.secs, d.nanos),
    );
    Timestamp { pts: moved.pts(), timebase: ts.timebase }
}

/// `mediatime::Timebase::duration_to_pts`: the whole ticks of `timebase` in `d`,
/// held at the largest tick; none where the numerator is zero.
#[verifier::external_body]
fn ticks_of(timebase: Timebase, d: Duration) -> (t: i64)
    ensures
        t == ticks_in(timebase, d),
{
    mediatime::Timebase::new(
        timebase.num,
        core::num::NonZeroU32::new(timebase.den).unwrap(),
    ).duration_to_pts(core::time::Duration::new(d.secs, d.nanos))
}

/// `mediatime::Timebase::frames_to_duration`: the time that `frames` frames take
/// at the frame rate `fps`, rounded down to a nanosecond.
#[verifier::external_body]
fn frame_time(fps: Timebase, frames: u32) -> (d: Duration)
    requires
        fps.numerator() != 0,
    ensures
        d.total() == frames * fps.denominator() * 1_000_000_000 / fps.numerator(),
{
    let t = mediatime::Timebase::new(
        fps.num,
        core::num::NonZeroU32::new(fps.den).unwrap(),
    ).frames_to_duration(frames);
    Duration { secs: t.as_secs(), nanos: t.subsec_nanos() }
}

/// A timestamp whose timebase moves.
pub open spec fn moving(ts: Timestamp) -> bool {
    ts.valid() && ts.base().numerator() > 0
}

/// Among timestamps whose timebases move, the relation is that of the exact
/// instants.
pub proof fn relation_compares_instants(a: Timestamp, b: Timestamp)
    requires
        moving(a),
        moving(b),
    ensures
        a.relation(b) == Relation::Before <==> a.scaled(b) < b.scaled(a),
        a.relation(b) == Relation::Same <==> a.scaled(b) == b.scaled(a),
        a.relation(b) == Relation::After <==> a.scaled(b) > b.scaled(a),
{
    if a.base().same_parts(b.base()) {
        let p = a.ticks();
        let q = b.ticks();
        let n = a.base().numerator();
        let d = a.base().denominator();
        if p < q {
            assert(p * n * d < q * n * d) by (nonlinear_arith)
                requires
                    p < q,
                    n > 0,
                    d > 0,
            ;
        } else if p > q {
            assert(p * n * d > q * n * d) by (nonlinear_arith)
                requires
                    p > q,
                    n > 0,
                    d > 0,
            ;
        }
    }
}

/// What is not after something that is not after a third is not after the third.
pub proof fn not_after_is_transitive(a: Timestamp, b: Timestamp, c: Timestamp)
    requires
        moving(a),
        moving(b),
        moving(c),
        a.relation(b) != Relation::After,
        b.relation(c) != Relation::After,
    ensures
        a.relation(c) != Relation::After,
{
    relation_compares_instants(a, b);
    relation_compares_instants(b, c);
    relation_compares_instants(a, c);
    let x = a.ticks() * a.base().numerator();
    let y = b.ticks() * b.base().numerator();
    let z = c.ticks() * c.base().numerator();
    let da = a.base().denominator();
    let db = b.base().denominator();
    let dc = c.base().denominator();
    assert(x * dc <= z * da) by (nonlinear_arith)
        requires
            x * db <= y * da,
            y * dc <= z * db,
            da > 0,
            db > 0,
            dc > 0,
    ;
}

/// The relation seen from the other side.
pub proof fn relation_is_antisymmetric(a: Timestamp, b: Timestamp)
    ensures
        a.relation(b) == Relation::After <==> b.relation(a) == Relation::Before,
        a.relation(b) == Relation::Same <==> b.relation(a) == Relation::Same,
{
}

/// The ends and the timebase of a range are those it was made of.
pub proof fn range_has_its_ends(start: int, end: int, timebase: Timebase)
    requires
        i64::MIN <= start <= i64::MAX,
        i64::MIN <= end <= i64::MAX,
    ensures
        TimeRange::spanning(start, end, timebase).first() == start,
        TimeRange::spanning(start, end, timebase).past() == end,
        TimeRange::spanning(start, end, timebase).base() == timebase,
{
}

/// The span of some nanoseconds has that many, and an elapsed time is no longer than
/// the longest span.
pub proof fn a_span_has_its_nanoseconds(later: Timestamp, earlier: Timestamp)
    requires
        later.valid(),
        earlier.valid(),
        later.nanos_since(earlier) is Some,
    ensures
        later.since(earlier) is Some,
        later.since(earlier)->0.total() == later.nanos_since(earlier)->0,
        0 <= later.nanos_since(earlier)->0 <= max_nanos(),
{
    let n = later.nanos_since(earlier)->0;
    let e = later.elapsed(earlier);
    let a = later.base().denominator();
    let b = earlier.base().denominator();
    assert(a * b > 0) by (nonlinear_arith)
        requires
            a > 0,
            b > 0,
    ;
    assert(0 <= n) by {
        lemma_div_pos_is_pos(e * 1_000_000_000, a * b);
    }
    lemma_fundamental_div_mod(n, 1_000_000_000);
}

/// A larger fraction has a larger whole part.
proof fn lemma_whole_parts(a: int, b: int, c: int, d: int)
    requires
        b > 0,
        d > 0,
        a * d <= c * b,
    ensures
        a / b <= c / d,
{
    let q = a / b;
    lemma_fundamental_div_mod(a, b);
    lemma_mod_bound(a, b);
    assert(q * d <= c) by (nonlinear_arith)
        requires
            a == b * q + a % b,
            a % b >= 0,
            a * d <= c * b,
            b > 0,
            d > 0,
    ;
    lemma_div_is_ordered(q * d, c, d);
    lemma_div_multiples_vanish(q, d);
    assert(d * q == q * d) by (nonlinear_arith);
}

/// At least as long has passed since an instant that is no later.
pub proof fn longer_since_earlier(
    ts: Timestamp,
    last: Timestamp,
    before: Timestamp,
    min: Duration,
)
    requires
        moving(ts),
        moving(last),
        moving(before),
        before.relation(last) != Relation::After,
        min_length_met(ts, last, min),
        min.total() <= max_nanos(),
    ensures
        min_length_met(ts, before, min),
{
    relation_compares_instants(before, last);
    let t = ts.ticks() * ts.base().numerator();
    let x = last.ticks() * last.base().numerator();
    let c = before.ticks() * before.base().numerator();
    let dt = ts.base().denominator();
    let dx = last.base().denominator();
    let dc = before.base().denominator();
    let e = t * dx - x * dt;
    let f = t * dc - c * dt;
    assert(e * dc <= f * dx) by (nonlinear_arith)
        requires
            e == t * dx - x * dt,
            f == t * dc - c * dt,
            c * dx <= x * dc,
            dt > 0,
    ;
    assert(f >= 0) by (nonlinear_arith)
        requires
            e * dc <= f * dx,
            e >= 0,
            dc > 0,
            dx > 0,
    ;
    assert(dt * dx > 0 && dt * dc > 0) by (nonlinear_arith)
        requires
            dt > 0,
            dx > 0,
            dc > 0,
    ;
    assert((e * 1_000_000_000) * (dt * dc) <= (f * 1_000_000_000) * (dt * dx)) by (nonlinear_arith)
        requires
            e * dc <= f * dx,
            dt > 0,
    ;
    lemma_whole_parts(e * 1_000_000_000, dt * dx, f * 1_000_000_000, dt * dc);
}

/// The span of no time has no nanoseconds, and spans are told apart by theirs.
pub proof fn spans_have_their_nanoseconds(n: int)
    requires
        0 <= n <= max_nanos(),
    ensures
        Duration::of_nanos(n).total() == n,
{
    lemma_fundamental_div_mod(n, 1_000_000_000);
}

/// A minimum duration has passed just where the exact time between the two instants reaches
/// it: both are counted in seconds over the product of the two denominators, with no rounding.
pub proof fn the_minimum_is_met_by_the_exact_time(ts: Timestamp, last: Timestamp, min: Duration)
    requires
        ts.valid(),
        last.valid(),
        0 <= min.total() <= max_nanos(),
    ensures
        ({
            let later = ts.ticks() * ts.base().numerator() * last.base().denominator();
            let earlier = last.ticks() * last.base().numerator() * ts.base().denominator();
            let unit = ts.base().denominator() * last.base().denominator();
            min_length_met(ts, last, min) <==> later >= earlier && (later - earlier)
                * 1_000_000_000 >= min.total() * unit
        }),
{
    let later = ts.ticks() * ts.base().numerator() * last.base().denominator();
    let earlier = last.ticks() * last.base().numerator() * ts.base().denominator();
    let unit = ts.base().denominator() * last.base().denominator();
    let m = min.total();
    assert(unit > 0) by (nonlinear_arith)
        requires
            unit == ts.base().denominator() * last.base().denominator(),
            ts.base().denominator() > 0,
            last.base().denominator() > 0,
    ;
    if later >= earlier {
        let a = (later - earlier) * 1_000_000_000;
        let q = a / unit;
        let r = a % unit;
        lemma_fundamental_div_mod(a, unit);
        lemma_mod_bound(a, unit);
        if a >= m * unit {
            assert(q >= m) by (nonlinear_arith)
                requires
                    a == unit * q + r,
                    0 <= r < unit,
                    a >= m * unit,
            ;
        } else {
            assert(q < m) by (nonlinear_arith)
                requires
                    a == unit * q + r,
                    0 <= r < unit,
                    a < m * unit,
            ;
        }
    }
}

/// The whole ticks of a duration are as many as fit into it, and one more does not, unless
/// there are more than a timestamp can count.
pub proof fn whole_ticks_fit_into_a_duration(tb: Timebase, d: Duration)
    requires
        tb.numerator() > 0,
    ensures
        ({
            let t = ticks_in(tb, d);
            let second = tb.numerator() * 1_000_000_000;
            &&& t * second <= d.total() * tb.denominator()
            &&& t < i64::MAX ==> d.total() * tb.denominator() < (t + 1) * second
        }),
{
    let second = tb.numerator() * 1_000_000_000;
    let a = d.total() * tb.denominator();
    let q = a / second;
    lemma_fundamental_div_mod(a, second);
    lemma_mod_bound(a, second);
    let t = ticks_in(tb, d);
    assert(t * second <= a) by (nonlinear_arith)
        requires
            a == second * q + a % second,
            a % second >= 0,
            t <= q,
            second > 0,
    ;
    if t < i64::MAX {
        assert(a < (t + 1) * second) by (nonlinear_arith)
            requires
                a == second * q + a % second,
                a % second < second,
                t == q,
        ;
    }
}

/// The seed of a stream that may cut at once is the latest that lets its first frame pass:
/// from the next tick on, the minimum duration has not passed. Left out are streams so close
/// to the smallest tick that it holds the seed, and minimum durations of more ticks than a
/// timestamp can count.
pub proof fn the_seed_is_the_latest(ts: Timestamp, min: Duration, next: Timestamp)
    requires
        ts.valid(),
        ts.base().numerator() > 0,
        past_tick(ts, min) > i64::MIN,
        0 < min.total() <= max_nanos(),
        ticks_in(ts.base(), min) < i64::MAX,
        next.timebase == ts.timebase,
        next.ticks() == past_tick(ts, min) + 1,
        next.ticks() <= ts.ticks(),
    ensures
        !min_length_met(ts, next, min),
{
    whole_ticks_fit_into_a_duration(ts.base(), min);
    lemma_ticks_nonnegative(ts.base(), min);
    lemma_covered(ts, next, min);
    let n = ts.base().numerator();
    let den = ts.base().denominator();
    let t = ticks_in(ts.base(), min);
    let gone = ts.ticks() - next.ticks();
    let second = n * 1_000_000_000;
    assert(gone * n * 1_000_000_000 == gone * second) by (nonlinear_arith)
        requires
            second == n * 1_000_000_000,
    ;
    let total = min.total() * den;
    if gone < t {
        assert(gone * second < t * second) by (nonlinear_arith)
            requires
                gone < t,
                second > 0,
        ;
    }
}

} // verus!
