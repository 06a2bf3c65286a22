//! The adaptive detector.

use scenesdetect::adaptive::{Detector, Error, Options, Ratio, Window};
use scenesdetect::arch::Mean;
use scenesdetect::content;
use scenesdetect::content::{Components, FrameDelta, Measured};
use scenesdetect::frame::{HsvFrame, LumaFrame, RgbFrame, Timebase, Timestamp};
use scenesdetect::number::Real;
use scenesdetect::time::Duration;

fn r(v: f64) -> Real {
    Real::from_bits(v.to_bits())
}

fn f(v: Real) -> f64 {
    f64::from_bits(v.to_bits())
}

fn comps(hue: f64, sat: f64, lum: f64, edges: f64) -> Components {
    Components::new(r(hue), r(sat), r(lum), r(edges))
}

fn mean(m: Mean) -> f64 {
    if m.count == 0 {
        0.0
    } else {
        m.sum as f64 / m.count as f64
    }
}

fn weigh(d: FrameDelta, w: Components) -> Measured {
    let c = [mean(d.hue), mean(d.sat), mean(d.lum), d.edges.map_or(0.0, mean)];
    let w = [f(w.delta_hue()), f(w.delta_sat()), f(w.delta_lum()), f(w.delta_edges())];
    let sum: f64 = w.iter().map(|v| v.abs()).sum();
    let score = (c[0] * w[0] + c[1] * w[1] + c[2] * w[2] + c[3] * w[3]) / sum;
    Measured { components: comps(c[0], c[1], c[2], c[3]), score: r(score) }
}

fn average(w: Window) -> Ratio {
    let sum = f(w.sum) + f(w.pushed) - w.popped.map_or(0.0, f);
    let ratio = match w.target {
        None => 0.0,
        Some(t) => {
            let avg = (sum - f(t)) / (2 * w.window_width) as f64;
            if avg.abs() < 1e-5 {
                if f(t) >= f(w.min_content_val) { 255.0 } else { 0.0 }
            } else {
                (f(t) / avg).min(255.0)
            }
        }
    };
    Ratio { sum: r(sum), ratio: r(ratio) }
}

struct Det(Detector);

impl Det {
    fn new(options: Options) -> Det {
        Det(Detector::try_new(options).expect("valid options"))
    }

    fn options(&self) -> &Options {
        self.0.options()
    }

    fn process_luma(&mut self, frame: LumaFrame<'_>) -> Option<Timestamp> {
        self.0.process_luma(frame, weigh, average)
    }

    fn process_bgr(&mut self, frame: RgbFrame<'_>) -> Option<Timestamp> {
        self.0.process_bgr(frame, weigh, average)
    }

    fn process_hsv(&mut self, frame: HsvFrame<'_>) -> Option<Timestamp> {
        self.0.process_hsv(frame, weigh, average)
    }

    fn last_score(&self) -> Option<f64> {
        self.0.last_score().map(f)
    }

    fn last_adaptive_ratio(&self) -> Option<f64> {
        self.0.last_adaptive_ratio().map(f)
    }

    fn clear(&mut self) {
        self.0.clear();
    }
}

fn tb() -> Timebase {
    Timebase::new(1, 1000)
}

fn luma_frame<'a>(data: &'a [u8], w: u32, h: u32, pts: i64) -> LumaFrame<'a> {
  LumaFrame::new(data, w, h, w, Timestamp::new(pts, tb()))
}

#[test]
fn try_new_rejects_zero_window_width() {
  let opts = Options::default().with_window_width(0);
  let err = Detector::try_new(opts).expect_err("should fail");
  assert_eq!(err, Error::ZeroWindowWidth);
}

#[test]
fn try_new_propagates_content_zero_weights() {
  let opts = Options::default().with_weights(comps(0.0, 0.0, 0.0, 0.0));
  let err = Detector::try_new(opts).expect_err("should fail");
  assert_eq!(err, Error::Content(content::Error::ZeroWeights));
}

#[test]
fn try_new_propagates_content_invalid_kernel() {
  let opts = Options::default().with_kernel_size(Some(4));
  let err = Detector::try_new(opts).expect_err("should fail");
  assert_eq!(err, Error::Content(content::Error::InvalidKernelSize(4)));
}

#[test]
fn buffer_fills_before_emitting() {
  let opts = Options::default()
    .with_min_duration(Duration::from_millis(0))
    .with_weights(content::luma_only_weights());
  let mut det = Det::new(opts);

  let buf = vec![128u8; 64 * 48];
  for i in 0..5i64 {
    let cut = det.process_luma(luma_frame(&buf, 64, 48, i * 33));
    if i < 4 {
      assert!(cut.is_none(), "frame {i} should not emit");
    }
  }
}

#[test]
fn flat_content_produces_no_cut() {
  let opts = Options::default()
    .with_min_duration(Duration::from_millis(0))
    .with_weights(content::luma_only_weights());
  let mut det = Det::new(opts);

  let buf = vec![128u8; 64 * 48];
  let mut emitted = 0;
  for i in 0..30i64 {
    if det.process_luma(luma_frame(&buf, 64, 48, i * 33)).is_some() {
      emitted += 1;
    }
  }
  assert_eq!(emitted, 0, "flat content has zero score → no cut");
}

#[test]
fn isolated_spike_emits_cut() {
  let opts = Options::default()
    .with_min_duration(Duration::from_millis(0))
    .with_weights(content::luma_only_weights());
  let mut det = Det::new(opts);

  let dim = vec![50u8; 64 * 48];
  let bright = vec![250u8; 64 * 48];
  let frames = [&dim, &dim, &dim, &bright, &dim, &dim, &dim, &dim, &dim];
  let mut cuts = Vec::new();
  for (i, f) in frames.iter().enumerate() {
    let ts = (i as i64) * 33;
    if let Some(c) = det.process_luma(luma_frame(f, 64, 48, ts)) {
      cuts.push(c.pts());
    }
  }
  assert!(!cuts.is_empty(), "expected at least one cut on spike");
}

#[test]
fn adaptive_clear_resets_state() {
  let opts = Options::default()
    .with_min_duration(Duration::from_millis(0))
    .with_weights(content::luma_only_weights());
  let mut det = Det::new(opts);

  let buf = vec![128u8; 64 * 48];
  for i in 0..10i64 {
    det.process_luma(luma_frame(&buf, 64, 48, i * 33));
  }
  assert!(det.last_adaptive_ratio().is_some());

  det.clear();
  assert!(det.last_adaptive_ratio().is_none());
  assert!(det.last_score().is_none());
}

#[test]
fn adaptive_options_accessors_builders_setters_roundtrip() {
  let fps30 = Timebase::new(30, 1);
  let weights = comps(0.25, 0.5, 0.75, 1.0);
  let opts = Options::default()
    .with_adaptive_threshold(r(4.0))
    .with_min_duration(Duration::from_millis(250))
    .with_window_width(8)
    .with_min_content_val(r(20.0))
    .with_weights(weights)
    .with_kernel_size(Some(5))
    .with_simd(false)
    .with_initial_cut(false);

  assert_eq!(opts.adaptive_threshold(), r(4.0));
  assert_eq!(opts.min_duration(), Duration::from_millis(250));
  assert_eq!(opts.window_width(), 8);
  assert_eq!(opts.min_content_val(), r(20.0));
  assert_eq!(*opts.weights(), weights);
  assert_eq!(opts.kernel_size(), Some(5));
  assert!(!opts.simd());
  assert!(!opts.initial_cut());
  let opts_frames = Options::default().with_min_frames(30, fps30);
  assert_eq!(opts_frames.min_duration(), Duration::from_secs(1));
  let mut opts = Options::default();
  opts
    .set_adaptive_threshold(r(5.0))
    .set_min_duration(Duration::from_secs(2))
    .set_window_width(16)
    .set_min_content_val(r(30.0))
    .set_weights(comps(1.0, 0.0, 0.0, 0.0))
    .set_kernel_size(None)
    .set_simd(true)
    .set_initial_cut(true);
  assert_eq!(opts.adaptive_threshold(), r(5.0));
  assert_eq!(opts.min_duration(), Duration::from_secs(2));
  assert_eq!(opts.window_width(), 16);
  assert_eq!(opts.min_content_val(), r(30.0));
  assert_eq!(opts.kernel_size(), None);
  assert!(opts.simd());
  assert!(opts.initial_cut());

  opts.set_min_frames(60, fps30);
  assert_eq!(opts.min_duration(), Duration::from_secs(2));
}

#[test]
fn detector_plumbing_accessors() {
  let opts = Options::default()
    .with_weights(content::luma_only_weights())
    .with_min_duration(Duration::from_millis(0));
  let mut det = Det::new(opts.clone());
  assert_eq!(det.options().window_width(), opts.window_width());
  assert!(det.last_score().is_none());
  assert!(det.last_adaptive_ratio().is_none());
  let buf = vec![128u8; 64 * 48];
  for i in 0..3i64 {
    det.process_luma(luma_frame(&buf, 64, 48, i * 33));
  }
  assert!(det.last_score().is_some());
}
#[test]
fn process_bgr_and_process_hsv_entry_points() {
  let opts = Options::default().with_min_duration(Duration::from_millis(0));
  let mut det = Det::new(opts);

  let bgr = vec![80u8; 32 * 32 * 3];
  det.process_bgr(RgbFrame::new(&bgr, 32, 32, 32 * 3, Timestamp::new(0, tb())));
  det.process_bgr(RgbFrame::new(
    &bgr,
    32,
    32,
    32 * 3,
    Timestamp::new(33, tb()),
  ));

  det.clear();

  let h = vec![60u8; 32 * 32];
  let s = vec![40u8; 32 * 32];
  let v = vec![200u8; 32 * 32];
  det.process_hsv(HsvFrame::new(
    &h,
    &s,
    &v,
    32,
    32,
    32,
    Timestamp::new(0, tb()),
  ));
  det.process_hsv(HsvFrame::new(
    &h,
    &s,
    &v,
    32,
    32,
    32,
    Timestamp::new(33, tb()),
  ));
  assert!(det.last_score().is_some());
}
#[test]
fn adaptive_ratio_saturates_when_neighbors_are_flat() {
  let opts = Options::default()
    .with_weights(content::luma_only_weights())
    .with_window_width(1)
    .with_min_content_val(r(5.0))
    .with_min_duration(Duration::from_millis(0));
  let mut det = Det::new(opts);
  let dim = vec![10u8; 32 * 32];
  let bright = vec![250u8; 32 * 32];
  let frames = [&dim, &dim, &dim, &bright, &dim];
  for (i, f) in frames.iter().enumerate() {
    det.process_luma(luma_frame(f, 32, 32, (i as i64) * 33));
  }
  assert!(det.last_adaptive_ratio().is_some());
}
#[test]
fn initial_cut_false_seeds_last_cut_at_target_ts() {
  let opts = Options::default()
    .with_weights(content::luma_only_weights())
    .with_window_width(1)
    .with_min_duration(Duration::from_millis(0))
    .with_initial_cut(false);
  let mut det = Det::new(opts);

  let buf = vec![128u8; 32 * 32];
  for i in 0..5i64 {
    det.process_luma(luma_frame(&buf, 32, 32, i * 33));
  }
  assert!(det.last_adaptive_ratio().is_some());
}

#[test]
fn a_spike_is_reported_half_a_window_late() {
    let mut det = Det::new(
        Options::default()
            .with_min_duration(Duration::from_millis(0))
            .with_weights(content::luma_only_weights()),
    );
    let dim = vec![50u8; 16];
    let bright = vec![250u8; 16];
    let mut cuts = vec![];
    for i in 0..12i64 {
        let data = if i < 6 { &dim } else { &bright };
        if let Some(c) = det.process_luma(luma_frame(data, 4, 4, i * 33)) {
            cuts.push((i, c.pts()));
        }
    }
    assert_eq!(cuts, vec![(8, 6 * 33)]);
}

#[test]
fn ratio_is_capped_where_the_neighbors_are_flat() {
    let mut det = Det::new(
        Options::default()
            .with_min_duration(Duration::from_millis(0))
            .with_window_width(1)
            .with_weights(content::luma_only_weights()),
    );
    for (i, v) in [10u8, 10, 200, 200].iter().enumerate() {
        det.process_luma(luma_frame(&[*v; 16], 4, 4, i as i64 * 33));
    }
    assert_eq!(det.last_adaptive_ratio(), Some(255.0));
    assert_eq!(det.0.last_target_score().map(f), Some(190.0));
    assert_eq!(det.last_score(), Some(0.0));
}

#[test]
fn cuts_of_the_window_keep_the_minimum_duration() {
    let mut det = Det::new(
        Options::default()
            .with_min_duration(Duration::from_millis(400))
            .with_window_width(1)
            .with_weights(content::luma_only_weights()),
    );
    let mut cuts = vec![];
    for i in 0..40i64 {
        let v = if (i / 4) % 2 == 0 { 10u8 } else { 200 };
        if let Some(c) = det.process_luma(luma_frame(&[v; 16], 4, 4, i * 50)) {
            cuts.push(c.pts());
        }
    }
    assert_eq!(cuts, vec![200, 600, 1000, 1400, 1800]);
}

#[test]
fn errors_carry_their_messages() {
    assert_eq!(Error::ZeroWindowWidth.message(), "window_width must be >= 1");
    assert_eq!(
        Error::Content(content::Error::ZeroWeights).message(),
        "all component weights are zero"
    );
}
