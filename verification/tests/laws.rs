//! What holds of the library as a whole, on concrete values.

use scenesdetect::adaptive;
use scenesdetect::adaptive::{Ratio, Window};
use scenesdetect::arch::noise as noise_response;
use scenesdetect::arch::{
    bgr_to_hsv_pixel, bgr_to_luma, colorfulness, plane_mean_variance, tenengrad, Mean,
};
use scenesdetect::content;
use scenesdetect::content::{Components, FilterMode, FrameDelta, Gate, Measured};
use scenesdetect::dilate::dilate;
use scenesdetect::edges::{hysteresis, median_u8};
use scenesdetect::frame::{ChannelOrder, HsvFrame, LumaFrame, Timebase, Timestamp};
use scenesdetect::histogram;
use scenesdetect::histogram::{
    checked_histogram, compute_histogram, correlation, Correlated, Similarity,
};
use scenesdetect::number::Real;
use scenesdetect::time::Duration;

fn r(v: f64) -> Real {
    Real::from_bits(v.to_bits())
}

fn f(v: Real) -> f64 {
    f64::from_bits(v.to_bits())
}

fn ms(pts: i64) -> Timestamp {
    Timestamp::new(pts, Timebase::new(1, 1000))
}

fn noise(n: usize, seed: u32) -> Vec<u8> {
    let mut x = seed;
    (0..n)
        .map(|_| {
            x = x.wrapping_mul(1_664_525).wrapping_add(1_013_904_223);
            (x >> 24) as u8
        })
        .collect()
}

fn mean(m: Mean) -> f64 {
    m.sum as f64 / m.count as f64
}

fn weigh(d: FrameDelta, _: Components) -> Measured {
    let zero = r(0.0);
    let lum = r(mean(d.lum));
    Measured { components: Components::new(zero, zero, lum, zero), score: lum }
}

#[test]
fn dilation_takes_the_largest_of_a_square() {
    let (w, h, k) = (13usize, 9usize, 5usize);
    let p = noise(w * h, 1);
    let d = dilate(&p, w, h, k);
    for y in 0..h {
        for x in 0..w {
            let mut best = 0u8;
            for v in y.saturating_sub(2)..(y + 3).min(h) {
                for u in x.saturating_sub(2)..(x + 3).min(w) {
                    best = best.max(p[v * w + u]);
                }
            }
            assert_eq!(d[y * w + x], best);
            assert!(d[y * w + x] >= p[y * w + x]);
        }
    }
}

#[test]
fn luma_lies_between_the_channels() {
    for seed in 0..200u32 {
        let p = noise(3, seed);
        let mut out = [0u8];
        bgr_to_luma(&mut out, &p, 1, 1, 3, ChannelOrder::Bgr, false);
        assert!(out[0] >= *p.iter().min().unwrap() && out[0] <= *p.iter().max().unwrap());
        let exact = 0.114 * f64::from(p[0]) + 0.587 * f64::from(p[1]) + 0.299 * f64::from(p[2]);
        assert!((f64::from(out[0]) - exact).abs() <= 1.5, "{} {exact}", out[0]);
        let swapped = [p[2], p[1], p[0]];
        let mut again = [0u8];
        bgr_to_luma(&mut again, &swapped, 1, 1, 3, ChannelOrder::Rgb, false);
        assert_eq!(out, again);
    }
}

#[test]
fn hue_stays_in_its_range_and_gray_has_none() {
    for b in (0..=255u8).step_by(15) {
        for g in (0..=255u8).step_by(15) {
            for red in (0..=255u8).step_by(15) {
                let (h, _, v) = bgr_to_hsv_pixel(b, g, red);
                assert!(h < 180);
                assert_eq!(v, b.max(g).max(red));
            }
        }
        assert_eq!(bgr_to_hsv_pixel(b, b, b), (0, 0, b));
    }
}

#[test]
fn the_median_splits_the_samples() {
    let p = noise(1001, 7);
    let m = median_u8(&p);
    assert!(p.iter().filter(|&&v| v < m).count() <= 500);
    assert!(p.iter().filter(|&&v| v <= m).count() >= 500);
}

#[test]
fn strong_ridges_stand_and_lone_weak_ones_fall() {
    let (w, h) = (9usize, 5usize);
    let mut ridges = vec![0u8; w * h];
    let mut mag = vec![0i32; w * h];
    for (x, m) in [(1usize, 200), (2, 60), (6, 60)] {
        ridges[2 * w + x] = 255;
        mag[2 * w + x] = m;
    }
    let e = hysteresis(&ridges, &mag, w, h, 50, 100);
    assert_eq!(e[2 * w + 1], 255);
    assert_eq!(e[2 * w + 2], 255);
    assert_eq!(e[2 * w + 6], 0);
}

#[test]
fn changes_are_symmetric_and_none_between_equal_frames() {
    let (a, b) = (noise(64, 3), noise(64, 4));
    let score = |x: &[u8], y: &[u8]| {
        let mut d = content::Detector::new(content::Options::new());
        let _ = d.process_luma(LumaFrame::new(x, 8, 8, 8, ms(0)), weigh);
        let _ = d.process_luma(LumaFrame::new(y, 8, 8, 8, ms(40)), weigh);
        f(d.last_score().expect("two frames"))
    };
    assert_eq!(score(&a, &b), score(&b, &a));
    assert!(score(&a, &b) > 0.0 && score(&a, &b) <= 255.0);
    assert_eq!(score(&a, &a), 0.0);
}

#[test]
fn a_resize_starts_a_new_stream() {
    let (a, b) = (vec![0u8; 64], vec![255u8; 16]);
    let mut d = content::Detector::new(content::Options::new());
    assert!(d.process_luma(LumaFrame::new(&a, 8, 8, 8, ms(0)), weigh).is_none());
    assert!(d.process_luma(LumaFrame::new(&b, 4, 4, 4, ms(40)), weigh).is_none());
    assert!(d.last_score().is_none());
}

#[test]
fn quiet_frames_change_no_filter() {
    let o = content::Options::new().with_filter_mode(FilterMode::Suppress);
    let mut g = Gate::new();
    assert_eq!(g.flash_filter(&o, ms(0), false).map(|t| t.pts()), None);
    assert_eq!(g.flash_filter(&o, ms(10), true).map(|t| t.pts()), Some(10));
    for t in 1..50 {
        assert!(g.flash_filter(&o, ms(10 + 40 * t), false).is_none());
    }
    assert_eq!(g.last_above.map(|t| t.pts()), Some(10));
    assert_eq!(g.flash_filter(&o, ms(5000), true).map(|t| t.pts()), Some(5000));
}

#[test]
fn early_changes_wait_where_the_first_cut_does() {
    let o = content::Options::new()
        .with_filter_mode(FilterMode::Suppress)
        .with_initial_cut(false);
    let mut g = Gate::new();
    assert!(g.flash_filter(&o, ms(0), false).is_none());
    assert!(g.flash_filter(&o, ms(999), true).is_none());
    assert_eq!(g.flash_filter(&o, ms(1000), true).map(|t| t.pts()), Some(1000));
}

#[test]
fn changes_of_a_merge_end_in_one_cut() {
    let o = content::Options::new();
    let mut g = Gate::new();
    let cuts: Vec<i64> = (0..100)
        .filter_map(|i| {
            let above = i == 10 || (15..=50).contains(&i);
            g.flash_filter(&o, ms(40 * i), above).map(|t| t.pts())
        })
        .collect();
    assert_eq!(cuts, vec![400, 2000]);
}

fn average(w: Window) -> Ratio {
    let sum = f(w.sum) + f(w.pushed) - w.popped.map_or(0.0, f);
    let ratio = w.target.map_or(0.0, |t| {
        let others = (sum - f(t)) / f64::from(2 * w.window_width);
        if others.abs() < 1e-5 { 255.0 } else { (f(t) / others).min(255.0) }
    });
    Ratio { sum: r(sum), ratio: r(ratio) }
}

#[test]
fn an_outlier_is_cut_in_the_middle_of_its_window() {
    for (initial_cut, expected) in [(true, Some(400)), (false, None)] {
        let o = adaptive::Options::new().with_initial_cut(initial_cut);
        let mut d = adaptive::Detector::new(o);
        let (dark, light) = (vec![10u8; 64], vec![250u8; 64]);
        let mut cuts = vec![];
        for i in 0..20i64 {
            let p = if i < 10 { &dark } else { &light };
            let cut = d.process_luma(LumaFrame::new(p, 8, 8, 8, ms(40 * i)), weigh, average);
            assert_eq!(d.last_adaptive_ratio().is_some(), i >= 4);
            cuts.extend(cut.map(|t| (i, t.pts())));
        }
        assert_eq!(cuts, expected.map(|t| (12, t)).into_iter().collect::<Vec<_>>());
    }
}

#[test]
fn every_pixel_is_counted_once_and_padding_is_not() {
    let p = noise(20 * 11, 9);
    let at = ms(0);
    let h = compute_histogram(&LumaFrame::new(&p, 17, 11, 20, at), 32);
    assert_eq!(h.iter().map(|&n| u64::from(n)).sum::<u64>(), 17 * 11);
    let mut q = p.clone();
    for y in 0..11 {
        for x in 17..20 {
            q[y * 20 + x] ^= 0xff;
        }
    }
    assert_eq!(h, compute_histogram(&LumaFrame::new(&q, 17, 11, 20, at), 32));
}

#[test]
fn correlations_stay_between_minus_one_and_one() {
    for seed in 0..50u32 {
        let a: Vec<u32> = noise(64, seed).into_iter().map(u32::from).collect();
        let b: Vec<u32> = noise(64, seed + 1000).into_iter().map(u32::from).collect();
        match correlation(&a, &b) {
            Similarity::Moments { covariance, variance_a, variance_b } => {
                let square = covariance.unsigned_abs().pow(2);
                assert!(square <= variance_a * variance_b);
            }
            s => panic!("{s:?}"),
        }
        match correlation(&a, &a) {
            Similarity::Moments { covariance, variance_a, variance_b } => {
                assert!(covariance as u128 == variance_a && variance_a == variance_b);
            }
            s => panic!("{s:?}"),
        }
    }
    let flat = vec![3u32; 8];
    assert_eq!(correlation(&flat, &flat), Similarity::EqualFlat);
    assert_eq!(correlation(&flat, &[1, 2, 3, 4, 5, 6, 7, 8]), Similarity::Unrelated);
}

fn correlate(s: Similarity, _: Real) -> Correlated {
    let equal = match s {
        Similarity::Moments { covariance, variance_a, .. } => covariance as u128 == variance_a,
        Similarity::EqualFlat => true,
        Similarity::Unrelated => false,
    };
    Correlated { diff: r(if equal { 1.0 } else { 0.0 }), limit: r(0.5) }
}

#[test]
fn falls_of_the_correlation_keep_their_distance() {
    let (dark, light) = (vec![10u8; 64], vec![250u8; 64]);
    for (allow, expected) in [(true, vec![40, 1040, 2040]), (false, vec![1000, 2000])] {
        let o = histogram::Options::new().with_allow_initial_cut(allow);
        let mut d = histogram::Detector::new(o);
        let cuts: Vec<i64> = (0..56i64)
            .filter_map(|i| {
                let p = if i % 2 == 0 { &dark } else { &light };
                d.process(LumaFrame::new(p, 8, 8, 8, ms(40 * i)), correlate).map(|t| t.pts())
            })
            .collect();
        assert_eq!(cuts, expected);
    }
    assert_eq!(histogram::Options::new().min_duration(), Duration::from_secs(1));
}

#[test]
fn a_luma_frame_after_a_colored_one_shows_no_change_of_color() {
    let (h, s, v) = (vec![30u8; 16], vec![40u8; 16], vec![50u8; 16]);
    let seen = std::cell::RefCell::new(vec![]);
    let note = |d: FrameDelta, w: Components| {
        seen.borrow_mut().push(d);
        weigh(d, w)
    };
    let mut d = content::Detector::new(content::Options::new());
    assert!(d.process_hsv(HsvFrame::new(&h, &s, &v, 4, 4, 4, ms(0)), note).is_none());
    assert!(d.process_luma(LumaFrame::new(&v, 4, 4, 4, ms(33)), note).is_none());
    let zero = Mean { sum: 0, count: 16 };
    assert_eq!(seen.borrow().len(), 1);
    assert_eq!(seen.borrow()[0], FrameDelta { hue: zero, sat: zero, lum: zero, edges: None });
    assert_eq!(d.last_score().map(f), Some(0.0));
    let bright = vec![60u8; 16];
    let _ = d.process_luma(LumaFrame::new(&bright, 4, 4, 4, ms(66)), note);
    let lum = Mean { sum: 160, count: 16 };
    assert_eq!(seen.borrow()[1], FrameDelta { hue: zero, sat: zero, lum, edges: None });
    let _ = d.process_hsv(HsvFrame::new(&h, &s, &bright, 4, 4, 4, ms(99)), note);
    assert_eq!(seen.borrow()[2].hue, Mean { sum: 480, count: 16 });
}

#[test]
fn the_ratio_is_there_after_as_many_frames_as_the_window_holds() {
    for width in [1u32, 2, 5] {
        let mut d = adaptive::Detector::new(adaptive::Options::new().with_window_width(width));
        let p = vec![80u8; 32 * 32];
        for i in 0..3 * i64::from(width) + 4 {
            let frame = LumaFrame::new(&p, 32, 32, 32, ms(33 * i));
            assert!(d.process_luma(frame, weigh, average).is_none());
            assert_eq!(d.last_adaptive_ratio().is_some(), i + 1 >= 1 + 2 * i64::from(width));
        }
        assert!(f(d.last_adaptive_ratio().expect("full")) <= 255.0);
    }
}

#[test]
fn merged_cuts_keep_the_minimum_duration() {
    let o = content::Options::new();
    for seed in 0..200u32 {
        let mut g = Gate::new();
        let mut last: Option<Timestamp> = None;
        for (i, v) in noise(400, seed).into_iter().enumerate() {
            let at = if i % 3 == 0 {
                Timestamp::new(i as i64 * 4800, Timebase::new(1, 120_000))
            } else {
                ms(40 * i as i64)
            };
            if let Some(t) = g.flash_filter(&o, at, v < 16) {
                assert!(t.duration_since(&ms(40 * i as i64)).is_none_or(|d| d.is_zero()));
                if let Some(l) = last {
                    let d = t.duration_since(&l).expect("in order");
                    assert!(d.at_least(&Duration::from_secs(1)), "{seed} {d:?}");
                }
                last = Some(t);
            }
        }
        assert!(last.is_some());
    }
}

#[test]
fn similarity_does_not_depend_on_the_order() {
    for seed in 0..20u32 {
        let a: Vec<u32> = noise(64, seed).into_iter().map(|v| u32::from(v) << 24).collect();
        let b: Vec<u32> = noise(64, seed + 500).into_iter().map(|v| u32::from(v) << 24).collect();
        match (correlation(&a, &b), correlation(&b, &a)) {
            (
                Similarity::Moments { covariance, variance_a, variance_b },
                Similarity::Moments { covariance: c, variance_a: x, variance_b: y },
            ) => assert_eq!((covariance, variance_a, variance_b), (c, y, x)),
            s => panic!("{s:?}"),
        }
    }
    let a = [u32::MAX, 0, u32::MAX, 0];
    let b = [0, u32::MAX, 0, u32::MAX];
    let m = 2 * 2 * i128::from(u32::MAX) * i128::from(u32::MAX);
    assert_eq!(
        correlation(&a, &b),
        Similarity::Moments { covariance: -m, variance_a: m as u128, variance_b: m as u128 }
    );
}

#[test]
fn checked_histograms_agree() {
    let p = noise(100, 3);
    let frame = LumaFrame::new(&p, 10, 10, 10, ms(0));
    assert_eq!(checked_histogram(&frame, 16), Some(compute_histogram(&frame, 16)));
}

#[test]
fn cleared_and_cloned_detectors_repeat_themselves() {
    let (a, b) = (noise(64, 3), noise(64, 4));
    let mut fresh = content::Detector::new(content::Options::new());
    let mut used = fresh.clone();
    let _ = used.process_luma(LumaFrame::new(&a, 8, 8, 8, ms(0)), weigh);
    let _ = used.process_luma(LumaFrame::new(&b, 8, 8, 8, ms(40)), weigh);
    used.clear();
    assert!(used.last_score().is_none() && used.last_components().is_none());
    for i in 0..6i64 {
        let frame = LumaFrame::new(if i % 3 == 0 { &a } else { &b }, 8, 8, 8, ms(40 * i));
        assert_eq!(fresh.process_luma(frame, weigh), used.process_luma(frame, weigh));
        assert_eq!(format!("{fresh:?}"), format!("{used:?}"));
    }
    let mut fresh = adaptive::Detector::new(adaptive::Options::new());
    let mut used = fresh.clone();
    for i in 0..9i64 {
        let _ = used.process_luma(LumaFrame::new(&a, 8, 8, 8, ms(40 * i)), weigh, average);
    }
    used.clear();
    assert!(used.last_score().is_none() && used.last_adaptive_ratio().is_none());
    for i in 0..12i64 {
        let frame = LumaFrame::new(if i < 6 { &a } else { &b }, 8, 8, 8, ms(40 * i));
        assert_eq!(
            fresh.process_luma(frame, weigh, average),
            used.process_luma(frame, weigh, average)
        );
    }
    let mut fresh = histogram::Detector::new(histogram::Options::new());
    let mut used = fresh.clone();
    let _ = used.process(LumaFrame::new(&a, 8, 8, 8, ms(0)), correlate);
    let _ = used.process(LumaFrame::new(&b, 8, 8, 8, ms(40)), correlate);
    used.clear();
    assert!(used.last_hist_diff().is_none());
    for i in 0..6i64 {
        let frame = LumaFrame::new(if i % 3 == 0 { &a } else { &b }, 8, 8, 8, ms(40 * i));
        assert_eq!(fresh.process(frame, correlate), used.process(frame, correlate));
        assert_eq!(format!("{fresh:?}"), format!("{used:?}"));
    }
}

#[test]
fn kernels_without_anything_to_sum_take_any_slice() {
    let nothing = Mean { sum: 0, count: 0 };
    assert_eq!(tenengrad(&[], 2, 900, 0, true), nothing);
    assert_eq!(noise_response(&[1], 900, 2, 1, false), nothing);
    assert_eq!(plane_mean_variance(&[], 0, 7, 0, true).count, 0);
    assert_eq!(colorfulness(&[], 7, 0, 0, ChannelOrder::Bgr, true).count, 0);
}

#[test]
fn a_new_size_gives_the_adaptive_detector_no_cut() {
    let o = adaptive::Options::new()
        .with_window_width(1)
        .with_min_content_val(r(0.0))
        .with_adaptive_threshold(r(0.0))
        .with_min_duration(Duration::from_secs(0));
    let mut d = adaptive::Detector::new(o);
    let (big, small) = (vec![80u8; 32 * 32], vec![90u8; 16 * 16]);
    let large = |t: i64| LumaFrame::new(&big, 32, 32, 32, ms(t));
    let little = |t: i64| LumaFrame::new(&small, 16, 16, 16, ms(t));
    assert!(d.process_luma(large(0), weigh, average).is_none());
    assert!(d.process_luma(large(33), weigh, average).is_none());
    assert!(d.process_luma(little(66), weigh, average).is_none());
    assert!(d.last_adaptive_ratio().is_none());
    assert!(d.last_score().is_none());
    let cut = d.process_luma(little(99), weigh, average);
    assert_eq!(cut.map(|t| t.pts()), Some(33));
    assert!(d.process_luma(large(132), weigh, average).is_none());
}

#[test]
fn moments_of_similar_histograms_are_exact() {
    match correlation(&[1, 2, 3], &[3, 5, 4]) {
        Similarity::Moments { covariance, variance_a, variance_b } => {
            assert_eq!((covariance, variance_a, variance_b), (3, 6, 6));
        }
        s => panic!("{s:?}"),
    }
}
