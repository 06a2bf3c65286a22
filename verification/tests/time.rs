//! Timestamps, durations and numbers.

use scenesdetect::content;
use scenesdetect::number::Real;
use scenesdetect::time::{
    duration_to_pts, elapsed_at_least, frames_to_duration, gate_seed, virtual_past, Duration,
    Relation, TimeRange, Timebase, Timestamp,
};

fn at(pts: i64, num: u32, den: u32) -> Timestamp {
    Timestamp::new(pts, Timebase::new(num, den))
}

#[test]
fn instants_compare_across_timebases() {
    assert_eq!(at(1000, 1, 1000).relate(&at(90_000, 1, 90_000)), Relation::Same);
    assert_eq!(at(999, 1, 1000).relate(&at(90_000, 1, 90_000)), Relation::Before);
    assert_eq!(at(1001, 1, 1000).relate(&at(90_000, 1, 90_000)), Relation::After);
    assert!(at(1, 1, 2) == at(2, 1, 4));
    assert!(at(1, 1, 2) != at(3, 1, 4));
    assert!(Timebase::new(1, 2) == Timebase::new(2, 4));
    assert!(Timebase::new(1, 2) != Timebase::new(1, 3));
    assert_eq!(at(i64::MIN, u32::MAX, 1).relate(&at(i64::MAX, u32::MAX, 2)), Relation::Before);
}

#[test]
fn elapsed_time_is_rounded_down_once() {
    assert_eq!(
        at(1, 1, 3).duration_since(&at(0, 1, 1)),
        Some(Duration::from_nanos(333_333_333))
    );
    assert_eq!(at(1, 1, 2).duration_since(&at(1, 1, 3)), Some(Duration::from_nanos(166_666_666)));
    assert_eq!(at(0, 1, 1).duration_since(&at(1, 1, 3)), None);
    assert_eq!(at(5, 1, 1).duration_since(&at(5, 1, 1)), Some(Duration::from_secs(0)));
}

#[test]
fn elapsed_time_across_zero_is_exact_for_every_timebase() {
    let big = u32::MAX;
    let late = at(i64::MAX, big, big - 1);
    let early = at(i64::MIN, big, big - 4);
    let longest = late.duration_since(&early).expect("later");
    assert_eq!(longest, Duration::new(u64::MAX, 999_999_999));
    assert_eq!(early.duration_since(&late), None);
    let huge = at(i64::MAX, big, 1).duration_since(&at(i64::MIN, big, 1));
    assert_eq!(huge, Some(Duration::new(u64::MAX, 999_999_999)));
    let near = at(1, big, 3).duration_since(&at(-1, big, 7));
    assert_eq!(near, Some(Duration::new(2045222521, 428571428)));
    assert_eq!(at(0, big, 3).duration_since(&at(-1, 0, 7)), Some(Duration::from_secs(0)));
    assert_eq!(at(-1, 0, 3).duration_since(&at(0, big, 7)), Some(Duration::from_secs(0)));
    assert_eq!(at(-1, big, 3).duration_since(&at(0, big, 7)), None);
}

#[test]
fn a_duration_moves_an_instant_back() {
    let back = at(5000, 1, 1000).saturating_sub_duration(Duration::from_millis(1500));
    assert_eq!(back.pts(), 3500);
    let back = at(i64::MIN + 3, 1, 1).saturating_sub_duration(Duration::from_secs(10));
    assert_eq!(back.pts(), i64::MIN);
    let back = at(7, 0, 1).saturating_sub_duration(Duration::from_secs(10));
    assert_eq!(back.pts(), 7);
}

#[test]
fn the_virtual_past_covers_the_duration() {
    let second = Duration::from_secs(1);
    let ntsc = at(100, 1001, 30_000);
    let past = virtual_past(ntsc, second);
    assert_eq!(past.pts(), 70);
    assert!(elapsed_at_least(ntsc, past, second));
    assert!(!elapsed_at_least(ntsc, at(71, 1001, 30_000), second));
    assert_eq!(virtual_past(at(100, 1, 30), second).pts(), 70);
    assert_eq!(virtual_past(at(4, 0, 1), second).pts(), 4);
    assert_eq!(virtual_past(at(i64::MIN + 1, 1, 1), Duration::from_secs(5)).pts(), i64::MIN);
    assert_eq!(gate_seed(ntsc, false, second).pts(), 100);
    let options = content::Options::new();
    assert_eq!(content::virtual_seed(ntsc, &options).pts(), 70);
    assert_eq!(content::virtual_seed(ntsc, &options.with_initial_cut(false)).pts(), 100);
}

#[test]
fn durations_count_ticks_and_frames() {
    assert_eq!(duration_to_pts(Timebase::new(1, 1000), Duration::from_millis(1500)), 1500);
    assert_eq!(duration_to_pts(Timebase::new(1001, 30_000), Duration::from_secs(1)), 29);
    assert_eq!(duration_to_pts(Timebase::new(0, 7), Duration::from_secs(1)), 0);
    assert_eq!(
        duration_to_pts(Timebase::new(1, u32::MAX), Duration::from_secs(u64::MAX)),
        i64::MAX
    );
    assert_eq!(frames_to_duration(Timebase::new(30, 1), 15), Duration::from_millis(500));
    assert_eq!(
        frames_to_duration(Timebase::new(30_000, 1001), 30_000),
        Duration::from_secs(1001)
    );
}

#[test]
fn durations_keep_their_parts() {
    let d = Duration::from_millis(1234);
    assert_eq!((d.as_secs(), d.subsec_nanos()), (1, 234_000_000));
    assert_eq!(Duration::new(1, 234_000_000), d);
    assert_eq!(Duration::from_nanos(1_234_000_000), d);
    assert!(d.at_least(&Duration::from_secs(1)));
    assert!(!Duration::from_secs(1).at_least(&d));
    assert!(Duration::from_secs(0).is_zero() && !d.is_zero());
}

#[test]
fn ranges_do_not_run_backwards() {
    let tb = Timebase::new(1, 1000);
    assert!(TimeRange::try_new(5, 4, tb).is_none());
    let r = TimeRange::try_new(4, 9, tb).expect("forward");
    assert_eq!((r.start_pts(), r.end_pts()), (4, 9));
    assert_eq!((r.start().pts(), r.end().pts()), (4, 9));
    assert!(r.timebase() == tb);
    assert!(!r.is_instant());
    assert!(TimeRange::try_new(4, 4, tb).expect("empty").is_instant());
    assert_eq!(r, TimeRange::try_new(4, 9, Timebase::new(2, 2000)).expect("same"));
}

#[test]
fn numbers_compare_as_doubles_do() {
    let values = [
        0.0,
        -0.0,
        1.0,
        -1.0,
        27.0,
        f64::MIN_POSITIVE,
        -f64::MIN_POSITIVE,
        5e-324,
        f64::MAX,
        f64::MIN,
        f64::INFINITY,
        f64::NEG_INFINITY,
        f64::NAN,
        -f64::NAN,
    ];
    for a in values {
        for b in values {
            let (x, y) = (Real::from_bits(a.to_bits()), Real::from_bits(b.to_bits()));
            assert_eq!(x.at_least(&y), a >= b, "{a} {b}");
            assert_eq!(x == y, a == b, "{a} {b}");
        }
        assert_eq!(Real::from_bits(a.to_bits()).is_zero(), a == 0.0);
    }
    assert_eq!(f64::from_bits(content::ONE), 1.0);
    assert_eq!(f64::from_bits(content::TWENTY_SEVEN), 27.0);
    assert_eq!(f64::from_bits(scenesdetect::adaptive::THREE), 3.0);
    assert_eq!(f64::from_bits(scenesdetect::adaptive::FIFTEEN), 15.0);
    assert_eq!(f64::from_bits(scenesdetect::adaptive::INFINITY), f64::INFINITY);
    assert_eq!(f64::from_bits(scenesdetect::histogram::HALF), 0.5);
}
