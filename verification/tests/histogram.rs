//! The histogram detector.

use scenesdetect::frame::{LumaFrame, Timebase, Timestamp};
use scenesdetect::histogram::{
    build_bin_lookup, compute_histogram, correlation, Correlated, Detector, Error, Options,
    Similarity,
};
use scenesdetect::number::Real;
use scenesdetect::time::Duration;

fn r(v: f64) -> Real {
    Real::from_bits(v.to_bits())
}

fn f(v: Real) -> f64 {
    f64::from_bits(v.to_bits())
}

fn quotient(s: Similarity) -> f64 {
    match s {
        Similarity::EqualFlat => 1.0,
        Similarity::Unrelated => 0.0,
        Similarity::Moments { covariance, variance_a, variance_b } => {
            covariance as f64 / (variance_a as f64 * variance_b as f64).sqrt()
        }
    }
}

fn pearson(a: &[u32], b: &[u32]) -> f64 {
    quotient(correlation(a, b))
}

fn correlate(s: Similarity, threshold: Real) -> Correlated {
    Correlated { diff: r(quotient(s)), limit: r((1.0 - f(threshold)).clamp(0.0, 1.0)) }
}

struct Det(Detector);

impl Det {
    fn new(options: Options) -> Det {
        Det(Detector::try_new(options).expect("valid options"))
    }

    fn options(&self) -> &Options {
        self.0.options()
    }

    fn process(&mut self, frame: LumaFrame<'_>) -> Option<Timestamp> {
        self.0.process(frame, correlate)
    }

    fn last_hist_diff(&self) -> Option<f64> {
        self.0.last_hist_diff().map(f)
    }

    fn clear(&mut self) {
        self.0.clear();
    }
}

fn make_frame<'a>(data: &'a [u8], w: u32, h: u32, pts: i64) -> LumaFrame<'a> {
  let tb = Timebase::new(1, 1000);
  LumaFrame::new(data, w, h, w, Timestamp::new(pts, tb))
}

#[test]
fn identical_frames_produce_no_cut() {
  let mut det = Det::new(Options::default());
  let buf = [128u8; 64 * 48];
  assert!(det.process(make_frame(&buf, 64, 48, 0)).is_none());
  assert!(det.process(make_frame(&buf, 64, 48, 2000)).is_none());
  assert!(det.process(make_frame(&buf, 64, 48, 4000)).is_none());
  assert_eq!(det.last_hist_diff(), Some(1.0));
}

#[test]
fn very_different_frames_produce_cut() {
  let opts = Options::default().with_min_duration(Duration::from_millis(0));
  let mut det = Det::new(opts);

  let black = [0u8; 64 * 48];
  let white = [255u8; 64 * 48];
  assert!(det.process(make_frame(&black, 64, 48, 0)).is_none());
  let cut = det.process(make_frame(&white, 64, 48, 33));
  assert!(
    cut.is_some(),
    "expected a cut at the black→white transition"
  );
  assert_eq!(cut.unwrap().pts(), 33);
}

#[test]
fn min_duration_suppresses_rapid_cuts() {
  let opts = Options::default()
    .with_min_duration(Duration::from_secs(1))
    .with_allow_initial_cut(false);
  let mut det = Det::new(opts);

  let black = [0u8; 64 * 48];
  let white = [255u8; 64 * 48];

  let mut cuts = 0u32;
  for i in 0..30i64 {
    let frame_data = if i % 2 == 0 { &black } else { &white };
    let ts = i * 33;
    if det.process(make_frame(frame_data, 64, 48, ts)).is_some() {
      cuts += 1;
    }
  }
  assert_eq!(cuts, 0, "min_duration should suppress all cuts within 1s");
}

#[test]
fn cut_reported_after_min_duration_elapsed() {
  let opts = Options::default()
    .with_min_duration(Duration::from_millis(500))
    .with_allow_initial_cut(false);
  let mut det = Det::new(opts);

  let black = [0u8; 64 * 48];
  let white = [255u8; 64 * 48];
  assert!(det.process(make_frame(&black, 64, 48, 0)).is_none());
  assert!(det.process(make_frame(&white, 64, 48, 100)).is_none());
  let cut = det.process(make_frame(&black, 64, 48, 600));
  assert!(cut.is_some(), "expected cut after min_duration elapsed");
}

#[test]
fn clear_resets_stream_state() {
  let opts = Options::default().with_min_duration(Duration::from_millis(0));
  let mut det = Det::new(opts);

  let black = [0u8; 64 * 48];
  let white = [255u8; 64 * 48];
  assert!(det.process(make_frame(&black, 64, 48, 0)).is_none());
  let cut = det.process(make_frame(&white, 64, 48, 33));
  assert!(cut.is_some());
  assert!(det.last_hist_diff().is_some());

  det.clear();
  assert!(det.process(make_frame(&black, 64, 48, 1_000_000)).is_none());
  assert!(
    det.last_hist_diff().is_none(),
    "last_hist_diff should be cleared"
  );
  let cut2 = det.process(make_frame(&white, 64, 48, 1_000_033));
  assert!(cut2.is_some(), "cut should still be detected on video 2");
}

#[test]
fn compute_histogram_respects_stride() {
  let mut buf = [0xFFu8; 8 * 2];
  buf[0..4].copy_from_slice(&[10, 20, 30, 40]);
  buf[8..12].copy_from_slice(&[50, 60, 70, 80]);

  let tb = Timebase::new(1, 1000);
  let frame = LumaFrame::new(&buf, 4, 2, 8, Timestamp::new(0, tb));
  let current = compute_histogram(&frame, Options::default().bins());

  for v in [10, 20, 30, 40, 50, 60, 70, 80] {
    assert_eq!(current[v as usize], 1);
  }
  assert_eq!(current[0xFF], 0, "padding must not be counted");
  assert_eq!(current.iter().sum::<u32>(), 8);
}

#[test]
fn compute_histogram_remainder_path() {
  let mut buf = [0u8; 7 * 3];
  for (i, b) in buf.iter_mut().enumerate() {
    *b = i as u8;
  }

  let tb = Timebase::new(1, 1000);
  let frame = LumaFrame::new(&buf, 7, 3, 7, Timestamp::new(0, tb));
  let current = compute_histogram(&frame, Options::default().bins());

  for v in 0u8..21 {
    assert_eq!(
      current[v as usize], 1,
      "pixel value {v} should have count 1"
    );
  }
  assert_eq!(current.iter().sum::<u32>(), 21);
}

#[test]
fn build_bin_lookup_matches_formula() {
  let t = build_bin_lookup(256);
  for v in 0..=255u32 {
    assert_eq!(t[v as usize], v);
  }
  let t = build_bin_lookup(128);
  for v in 0..=255u32 {
    assert_eq!(t[v as usize], v / 2);
  }
  let t = build_bin_lookup(1);
  for v in 0..=255u32 {
    assert_eq!(t[v as usize], 0);
  }
}

#[test]
fn correlation_of_identical_is_one() {
  let a: Vec<u32> = vec![1, 2, 3, 4, 5];
  assert!((pearson(&a, &a) - 1.0).abs() < 1e-12);
}

#[test]
fn with_min_frames_matches_python_default() {
  let fps = Timebase::new(30, 1);
  let opts = Options::default().with_min_frames(15, fps);
  assert_eq!(opts.min_duration(), Duration::from_millis(500));
}

#[test]
fn with_min_frames_ntsc() {
  let fps = Timebase::new(30_000, 1001);
  let opts = Options::default().with_min_frames(15, fps);
  assert_eq!(opts.min_duration(), Duration::from_nanos(500_500_000));
}

#[test]
fn correlation_of_flat_frames() {
  let a = vec![4u32; 256];
  let b = vec![4u32; 256];
  assert_eq!(pearson(&a, &b), 1.0);
  let c = vec![7u32; 256];
  assert_eq!(pearson(&a, &c), 0.0);
}

#[test]
fn try_new_rejects_overflowing_bin_count() {
  let opts = Options::default().with_bins(usize::MAX);
  let err = Detector::try_new(opts).expect_err("should fail");
  assert_eq!(err, Error::BinCountTooLarge { bins: usize::MAX });
}

#[test]
fn histogram_options_accessors_builders_setters_roundtrip() {
  let fps30 = Timebase::new(30, 1);
  let opts = Options::default()
    .with_threshold(r(0.42))
    .with_bins(128)
    .with_min_duration(Duration::from_millis(500))
    .with_allow_initial_cut(false);
  assert_eq!(opts.threshold(), r(0.42));
  assert_eq!(opts.bins(), 128);
  assert_eq!(opts.min_duration(), Duration::from_millis(500));
  assert!(!opts.allow_initial_cut());
  let opts_frames = Options::default().with_min_frames(15, fps30);
  assert_eq!(
    opts_frames.min_duration(),
    Duration::from_millis(500)
  );
  let mut opts = Options::default();
  opts
    .set_threshold(r(0.1))
    .set_bins(64)
    .set_min_duration(Duration::from_secs(1))
    .set_allow_initial_cut(true);
  assert_eq!(opts.threshold(), r(0.1));
  assert_eq!(opts.bins(), 64);
  assert!(opts.allow_initial_cut());

  opts.set_min_frames(30, fps30);
  assert_eq!(opts.min_duration(), Duration::from_secs(1));
}

#[test]
fn detector_options_and_last_hist_diff_accessors() {
  let opts = Options::default().with_min_duration(Duration::from_millis(0));
  let mut det = Det::new(opts.clone());
  assert_eq!(det.options().threshold(), opts.threshold());
  assert!(det.last_hist_diff().is_none());

  let buf = vec![64u8; 32 * 32];
  det.process(make_frame(&buf, 32, 32, 0));
  det.process(make_frame(&buf, 32, 32, 33));
  assert!(det.last_hist_diff().is_some());
}

#[test]
fn histogram_tail_three_hits_acc3_arm() {
  let buf = vec![100u8; 35];
  let mut det =
    Det::new(Options::default().with_min_duration(Duration::from_millis(0)));
  det.process(make_frame(&buf, 7, 5, 0));
  det.process(make_frame(&buf, 7, 5, 33));
  assert_eq!(det.last_hist_diff(), Some(1.0));
}

#[test]
fn opposite_histograms_correlate_negatively() {
    assert!((pearson(&[1, 2, 3], &[3, 2, 1]) + 1.0).abs() < 1e-12);
    assert_eq!(
        correlation(&[1, 2, 3], &[3, 2, 1]),
        Similarity::Moments { covariance: -6, variance_a: 6, variance_b: 6 }
    );
    assert_eq!(correlation(&[1, 2, 3], &[2, 2, 2]), Similarity::Unrelated);
    assert_eq!(correlation(&[2, 2], &[2, 2]), Similarity::EqualFlat);
    assert_eq!(correlation(&[], &[]), Similarity::EqualFlat);
}

#[test]
fn correlations_match_the_two_pass_formula() {
    let mut rng = 0x1234_5678u32;
    for _ in 0..200 {
        let mut a = vec![0u32; 16];
        let mut b = vec![0u32; 16];
        for v in a.iter_mut().chain(b.iter_mut()) {
            rng = rng.wrapping_mul(1664525).wrapping_add(1013904223);
            *v = rng >> 20;
        }
        let n = 16.0;
        let ma = a.iter().map(|&x| x as f64).sum::<f64>() / n;
        let mb = b.iter().map(|&x| x as f64).sum::<f64>() / n;
        let (mut num, mut va, mut vb) = (0.0, 0.0, 0.0);
        for (&x, &y) in a.iter().zip(b.iter()) {
            let (da, db) = (x as f64 - ma, y as f64 - mb);
            num += da * db;
            va += da * da;
            vb += db * db;
        }
        let want = num / (va * vb).sqrt();
        assert!((pearson(&a, &b) - want).abs() < 1e-12);
        assert!((-1.0..=1.0).contains(&want));
    }
}

#[test]
fn counts_add_up_to_the_pixels() {
    let mut buf = vec![0u8; 40 * 9];
    for (i, b) in buf.iter_mut().enumerate() {
        *b = (i * 37 % 256) as u8;
    }
    for bins in [1usize, 3, 16, 256, 1000] {
        let frame = LumaFrame::new(&buf, 33, 9, 40, Timestamp::new(0, Timebase::new(1, 1000)));
        let hist = compute_histogram(&frame, bins);
        assert_eq!(hist.len(), bins);
        assert_eq!(hist.iter().sum::<u32>(), 33 * 9);
    }
}

#[test]
fn first_drop_is_a_cut_where_a_second_is_no_whole_number_of_ticks() {
    let ntsc = Timebase::new(1001, 30_000);
    let mut det = Det::new(Options::default());
    let black = [0u8; 16];
    let white = [255u8; 16];
    det.process(LumaFrame::new(&black, 4, 4, 4, Timestamp::new(10, ntsc)));
    let cut = det.process(LumaFrame::new(&white, 4, 4, 4, Timestamp::new(10, ntsc)));
    assert_eq!(cut.map(|c| c.pts()), Some(10));
}

#[test]
fn a_cut_is_measured_across_timebases() {
    let mut det = Det::new(
        Options::default().with_min_duration(Duration::from_millis(500)).with_allow_initial_cut(false),
    );
    let black = [0u8; 16];
    let white = [255u8; 16];
    let at = |pts: i64, den: u32| Timestamp::new(pts, Timebase::new(1, den));
    assert!(det.process(LumaFrame::new(&black, 4, 4, 4, at(0, 1000))).is_none());
    assert!(det.process(LumaFrame::new(&white, 4, 4, 4, at(44_999, 90_000))).is_none());
    assert!(det.process(LumaFrame::new(&black, 4, 4, 4, at(45_000, 90_000))).is_some());
}

#[test]
fn errors_name_the_bin_count() {
    assert_eq!(
        Error::BinCountTooLarge { bins: 12 }.message(),
        "histogram bin count (12) is too large (N_ACCUM * bins overflows usize)"
    );
}
