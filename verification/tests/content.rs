//! The content detector.

use scenesdetect::arch::{bgr_to_hsv_pixel, bgr_to_hsv_planes, Mean};
use scenesdetect::content::{
    auto_kernel_size, default_weights, luma_only_weights, Components, Detector, Error, FilterMode,
    FrameDelta, Measured, Options,
};
use scenesdetect::dilate::{dilate, van_herk_1d_column, van_herk_1d_contig};
use scenesdetect::edges::{
    canny_thresholds, compute_edges, hysteresis, median_u8, non_max_suppress,
};
use scenesdetect::frame::{ChannelOrder, HsvFrame, LumaFrame, RgbFrame, Timebase, Timestamp};
use scenesdetect::number::Real;
use scenesdetect::time::Duration;

fn r(v: f64) -> Real {
    Real::from_bits(v.to_bits())
}

fn f(v: Real) -> f64 {
    f64::from_bits(v.to_bits())
}

fn comps(hue: f64, sat: f64, lum: f64, edges: f64) -> Components {
    Components::new(r(hue), r(sat), r(lum), r(edges))
}

fn sum_abs(c: &Components) -> f64 {
    f(c.delta_hue()).abs() + f(c.delta_sat()).abs() + f(c.delta_lum()).abs()
        + f(c.delta_edges()).abs()
}

fn mean(m: Mean) -> f64 {
    if m.count == 0 {
        0.0
    } else {
        m.sum as f64 / m.count as f64
    }
}

fn weigh(d: FrameDelta, w: Components) -> Measured {
    let c = [mean(d.hue), mean(d.sat), mean(d.lum), d.edges.map_or(0.0, mean)];
    let score = (c[0] * f(w.delta_hue()) + c[1] * f(w.delta_sat()) + c[2] * f(w.delta_lum())
        + c[3] * f(w.delta_edges())) / sum_abs(&w);
    Measured { components: comps(c[0], c[1], c[2], c[3]), score: r(score) }
}

fn pixel(b: f32, g: f32, r: f32) -> (u8, u8, u8) {
    bgr_to_hsv_pixel(b as u8, g as u8, r as u8)
}

struct Changes {
    edges: f64,
}

impl Changes {
    fn delta_edges(&self) -> f64 {
        self.edges
    }
}

struct Det(Detector);

impl Det {
    fn new(options: Options) -> Det {
        Det(Detector::try_new(options).expect("valid options"))
    }

    fn options(&self) -> &Options {
        self.0.options()
    }

    fn process_luma(&mut self, frame: LumaFrame<'_>) -> Option<Timestamp> {
        self.0.process_luma(frame, weigh)
    }

    fn process_bgr(&mut self, frame: RgbFrame<'_>) -> Option<Timestamp> {
        self.0.process_bgr(frame, weigh)
    }

    fn process_hsv(&mut self, frame: HsvFrame<'_>) -> Option<Timestamp> {
        self.0.process_hsv(frame, weigh)
    }

    fn last_score(&self) -> Option<f64> {
        self.0.last_score().map(f)
    }

    fn last_components(&self) -> Option<Changes> {
        self.0.last_components().map(|c| Changes { edges: f(c.delta_edges()) })
    }

    fn clear(&mut self) {
        self.0.clear();
    }
}

fn tb() -> Timebase {
    Timebase::new(1, 1000)
}

fn luma_frame<'a>(data: &'a [u8], w: u32, h: u32, pts: i64) -> LumaFrame<'a> {
  LumaFrame::new(data, w, h, w, Timestamp::new(pts, tb()))
}

#[test]
fn components_sum_abs() {
  let c = comps(1.0, -2.0, 0.5, 0.0);
  assert_eq!(sum_abs(&c), 3.5);
}

#[test]
fn components_builders_round_trip() {
  let c = comps(0.0, 0.0, 0.0, 0.0)
    .with_delta_hue(r(1.0))
    .with_delta_sat(r(2.0))
    .with_delta_lum(r(3.0))
    .with_delta_edges(r(4.0));
  assert_eq!(c.delta_hue(), r(1.0));
  assert_eq!(c.delta_sat(), r(2.0));
  assert_eq!(c.delta_lum(), r(3.0));
  assert_eq!(c.delta_edges(), r(4.0));

  let mut c = Components::default();
  c.set_delta_hue(r(5.0)).set_delta_edges(r(6.0));
  assert_eq!(c.delta_hue(), r(5.0));
  assert_eq!(c.delta_edges(), r(6.0));
}

#[test]
fn try_new_rejects_zero_weights() {
  let opts = Options::default().with_weights(comps(0.0, 0.0, 0.0, 0.0));
  let err = Detector::try_new(opts).expect_err("should fail");
  assert_eq!(err, Error::ZeroWeights);
}

#[test]
fn try_new_rejects_even_kernel() {
  let opts = Options::default().with_kernel_size(Some(4));
  let err = Detector::try_new(opts).expect_err("should fail");
  assert_eq!(err, Error::InvalidKernelSize(4));
}

#[test]
fn bgr_to_hsv_pure_red() {
  let (h, s, v) = pixel(0.0, 0.0, 255.0);
  assert_eq!(h, 0);
  assert_eq!(s, 255);
  assert_eq!(v, 255);
}

#[test]
fn bgr_to_hsv_pure_green() {
  let (h, s, v) = pixel(0.0, 255.0, 0.0);
  assert_eq!(h, 60);
  assert_eq!(s, 255);
  assert_eq!(v, 255);
}

#[test]
fn bgr_to_hsv_pure_blue() {
  let (h, s, v) = pixel(255.0, 0.0, 0.0);
  assert_eq!(h, 120);
  assert_eq!(s, 255);
  assert_eq!(v, 255);
}

#[test]
fn bgr_to_hsv_grayscale() {
  let (h, s, v) = pixel(128.0, 128.0, 128.0);
  assert_eq!(h, 0);
  assert_eq!(s, 0);
  assert_eq!(v, 128);
}

#[test]
fn bgr_to_hsv_simd_matches_scalar() {
  let w = 64u32;
  let h = 16u32;
  let mut src = vec![0u8; (w * h * 3) as usize];
  let mut rng = 0x9E3779B9u32;
  for v in src.iter_mut() {
    rng = rng.wrapping_mul(1664525).wrapping_add(1013904223);
    *v = (rng >> 24) as u8;
  }
  let corners: &[(u8, u8, u8)] = &[
    (0, 0, 255),
    (0, 255, 0),
    (255, 0, 0),
    (0, 0, 0),
    (255, 255, 255),
    (128, 128, 128),
    (0, 255, 255),
    (255, 0, 255),
  ];
  for (i, &(b, g, r)) in corners.iter().enumerate() {
    src[i * 3] = b;
    src[i * 3 + 1] = g;
    src[i * 3 + 2] = r;
  }

  let n = (w * h) as usize;
  let mut h_simd = vec![0u8; n];
  let mut s_simd = vec![0u8; n];
  let mut v_simd = vec![0u8; n];
  bgr_to_hsv_planes(
    &mut h_simd,
    &mut s_simd,
    &mut v_simd,
    &src,
    w,
    h,
    w * 3,
    ChannelOrder::Bgr,
    true,
  );
  let mut h_ref = vec![0u8; n];
  let mut s_ref = vec![0u8; n];
  let mut v_ref = vec![0u8; n];
  for yy in 0..(h as usize) {
    for xx in 0..(w as usize) {
      let b = src[yy * (w as usize) * 3 + xx * 3] as f32;
      let g = src[yy * (w as usize) * 3 + xx * 3 + 1] as f32;
      let r = src[yy * (w as usize) * 3 + xx * 3 + 2] as f32;
      let (hh, ss, vv) = pixel(b, g, r);
      h_ref[yy * (w as usize) + xx] = hh;
      s_ref[yy * (w as usize) + xx] = ss;
      v_ref[yy * (w as usize) + xx] = vv;
    }
  }
  assert_eq!(v_simd, v_ref, "V plane diverges");
  for (i, (&a, &b)) in s_simd.iter().zip(s_ref.iter()).enumerate() {
    let diff = (a as i16 - b as i16).abs();
    assert!(diff <= 1, "S diverges at index {i}: simd={a} scalar={b}");
  }
  for (i, (&a, &b)) in h_simd.iter().zip(h_ref.iter()).enumerate() {
    let diff = (a as i16 - b as i16).abs();
    assert!(diff <= 1, "H diverges at index {i}: simd={a} scalar={b}");
  }
}

#[test]
fn median_u8_basic() {
  let v = vec![1u8, 2, 3, 4, 5];
  assert_eq!(median_u8(&v), 3);
  let v = vec![10u8; 100];
  assert_eq!(median_u8(&v), 10);
}
fn naive_dilate(input: &[u8], w: usize, h: usize, k: usize) -> Vec<u8> {
  let half = k / 2;
  let mut out = vec![0u8; w * h];
  for y in 0..h {
    for x in 0..w {
      let mut m = 0u8;
      let yl = y.saturating_sub(half);
      let yh = (y + half + 1).min(h);
      let xl = x.saturating_sub(half);
      let xh = (x + half + 1).min(w);
      for yy in yl..yh {
        for xx in xl..xh {
          let v = input[yy * w + xx];
          if v > m {
            m = v;
          }
        }
      }
      out[y * w + x] = m;
    }
  }
  out
}

#[test]
fn van_herk_dilate_matches_naive_square_input() {
  let w = 16usize;
  let h = 16usize;
  let mut input = vec![0u8; w * h];
  for (y, x) in [(0, 0), (0, 15), (15, 0), (15, 15), (7, 7), (3, 11)] {
    input[y * w + x] = 255;
  }
  for &k in &[3usize, 5, 7, 11, 13] {
    let mut out = vec![0u8; w * h];
    let mut tmp = vec![0u8; w * h];
    let mut vh_r = vec![0u8; w.max(h)];
    let mut vh_s = vec![0u8; w.max(h)];
    test_dilate(&input, &mut out, &mut tmp, &mut vh_r, &mut vh_s, w, h, k);
    let expected = naive_dilate(&input, w, h, k);
    assert_eq!(out, expected, "van-Herk vs naive mismatch at k={k}");
  }
}

#[test]
fn van_herk_dilate_non_square_and_non_multiple_dims() {
  let w = 17usize;
  let h = 11usize;
  let mut input = vec![0u8; w * h];
  let mut rng = 0x9E3779B9u32;
  for v in input.iter_mut() {
    rng = rng.wrapping_mul(1664525).wrapping_add(1013904223);
    *v = if rng > 0xC000_0000 { 255 } else { 0 };
  }
  for &k in &[3usize, 5, 9] {
    let mut out = vec![0u8; w * h];
    let mut tmp = vec![0u8; w * h];
    let mut vh_r = vec![0u8; w.max(h)];
    let mut vh_s = vec![0u8; w.max(h)];
    test_dilate(&input, &mut out, &mut tmp, &mut vh_r, &mut vh_s, w, h, k);
    let expected = naive_dilate(&input, w, h, k);
    assert_eq!(
      out, expected,
      "van-Herk vs naive mismatch at k={k}, dims {w}x{h}"
    );
  }
}
#[allow(clippy::too_many_arguments)]
fn test_dilate(
  input: &[u8],
  out: &mut [u8],
  tmp: &mut [u8],
  vh_r: &mut [u8],
  vh_s: &mut [u8],
  w: usize,
  h: usize,
  k: usize,
) {
  for y in 0..h {
    let row_in = &input[y * w..y * w + w];
    let row_out = &mut tmp[y * w..y * w + w];
    van_herk_1d_contig(row_in, row_out, vh_r, vh_s, w, k);
  }
  for x in 0..w {
    van_herk_1d_column(tmp, out, vh_r, vh_s, x, w, h, k);
  }
}

#[test]
fn auto_kernel_size_reasonable() {
  assert_eq!(auto_kernel_size(1920, 1080), 13);
  assert_eq!(auto_kernel_size(1280, 720), 9);
  assert_eq!(auto_kernel_size(640, 360), 7);
}

#[test]
fn identical_luma_frames_zero_score() {
  let opts = Options::default()
    .with_weights(luma_only_weights())
    .with_min_duration(Duration::from_millis(0));
  let mut det = Det::new(opts);
  let buf = vec![128u8; 32 * 32];
  assert!(det.process_luma(luma_frame(&buf, 32, 32, 0)).is_none());
  assert!(det.process_luma(luma_frame(&buf, 32, 32, 33)).is_none());
  assert_eq!(det.last_score(), Some(0.0));
}

#[test]
fn very_different_luma_frames_exceed_threshold() {
  let opts = Options::default()
    .with_weights(luma_only_weights())
    .with_min_duration(Duration::from_millis(0))
    .with_threshold(r(10.0));
  let mut det = Det::new(opts);
  let a = vec![0u8; 32 * 32];
  let b = vec![255u8; 32 * 32];
  det.process_luma(luma_frame(&a, 32, 32, 0));
  let cut = det.process_luma(luma_frame(&b, 32, 32, 33));
  assert!(
    cut.is_some(),
    "black→white at 32×32 should exceed threshold=10"
  );
}

#[test]
fn initial_cut_true_emits_first_detected_cut() {
  let opts = Options::default()
    .with_weights(luma_only_weights())
    .with_threshold(r(10.0))
    .with_initial_cut(true);
  let mut det = Det::new(opts);
  let a = vec![0u8; 32 * 32];
  let b = vec![255u8; 32 * 32];
  det.process_luma(luma_frame(&a, 32, 32, 0));
  let cut = det.process_luma(luma_frame(&b, 32, 32, 33));
  assert!(cut.is_some(), "first cut should fire with initial_cut=true");
}

#[test]
fn initial_cut_false_suppresses_first_detected_cut() {
  let opts = Options::default()
    .with_weights(luma_only_weights())
    .with_threshold(r(10.0))
    .with_filter_mode(FilterMode::Suppress)
    .with_initial_cut(false);
  let mut det = Det::new(opts);
  let a = vec![0u8; 32 * 32];
  let b = vec![255u8; 32 * 32];
  det.process_luma(luma_frame(&a, 32, 32, 0));
  let cut = det.process_luma(luma_frame(&b, 32, 32, 33));
  assert!(
    cut.is_none(),
    "first cut should be suppressed with initial_cut=false"
  );
}

#[test]
fn content_clear_resets_state() {
  let opts = Options::default()
    .with_weights(luma_only_weights())
    .with_threshold(r(10.0))
    .with_min_duration(Duration::from_millis(0));
  let mut det = Det::new(opts);
  let a = vec![0u8; 32 * 32];
  let b = vec![255u8; 32 * 32];
  det.process_luma(luma_frame(&a, 32, 32, 0));
  det.process_luma(luma_frame(&b, 32, 32, 33));
  assert!(det.last_score().is_some());

  det.clear();
  assert!(det.last_score().is_none());
  assert!(
    det
      .process_luma(luma_frame(&a, 32, 32, 1_000_000))
      .is_none()
  );
}

#[test]
fn resize_clears_last_score_and_components() {
  let opts = Options::default()
    .with_weights(luma_only_weights())
    .with_min_duration(Duration::from_millis(0));
  let mut det = Det::new(opts);

  let a = vec![0u8; 32 * 32];
  let b = vec![255u8; 32 * 32];
  det.process_luma(luma_frame(&a, 32, 32, 0));
  det.process_luma(luma_frame(&b, 32, 32, 33));
  assert!(det.last_score().is_some_and(|s| s > 0.0));
  assert!(det.last_components().is_some());
  let c = vec![128u8; 16 * 16];
  det.process_luma(luma_frame(&c, 16, 16, 66));
  assert!(
    det.last_score().is_none(),
    "resize must clear last_score — previous value was for old resolution"
  );
  assert!(det.last_components().is_none());
}

#[test]
fn zero_sized_frame_with_edges_does_not_panic() {
  let opts = Options::default().with_weights(comps(1.0, 1.0, 1.0, 1.0));
  let mut det = Det::new(opts);
  let empty: Vec<u8> = vec![];
  det.process_luma(luma_frame(&empty, 0, 0, 0));
  det.process_luma(luma_frame(&empty, 0, 0, 33));
  let one = vec![128u8];
  det.process_luma(luma_frame(&one, 1, 1, 66));
  det.process_luma(luma_frame(&one, 1, 1, 99));
}

#[test]
fn components_builders_setters_and_sum_abs() {
  let c = comps(1.0, -2.0, 3.5, -0.5);
  assert_eq!(c.delta_hue(), r(1.0));
  assert_eq!(c.delta_sat(), r(-2.0));
  assert_eq!(c.delta_lum(), r(3.5));
  assert_eq!(c.delta_edges(), r(-0.5));
  assert_eq!(sum_abs(&c), 1.0 + 2.0 + 3.5 + 0.5);
  assert_eq!(Components::default(), default_weights());
  let built = Components::default()
    .with_delta_hue(r(0.1))
    .with_delta_sat(r(0.2))
    .with_delta_lum(r(0.3))
    .with_delta_edges(r(0.4));
  assert_eq!(built.delta_hue(), r(0.1));
  assert_eq!(built.delta_sat(), r(0.2));
  assert_eq!(built.delta_lum(), r(0.3));
  assert_eq!(built.delta_edges(), r(0.4));
  let mut c = Components::default();
  c.set_delta_hue(r(9.0))
    .set_delta_sat(r(8.0))
    .set_delta_lum(r(7.0))
    .set_delta_edges(r(6.0));
  assert_eq!(c, comps(9.0, 8.0, 7.0, 6.0));
}

#[test]
fn filter_mode_as_str_all_variants() {
  assert_eq!(FilterMode::Suppress.as_str(), "suppress");
  assert_eq!(FilterMode::Merge.as_str(), "merge");
  assert_eq!(FilterMode::default(), FilterMode::Merge);
  assert_eq!(FilterMode::Suppress.as_str(), "suppress");
  assert_eq!(FilterMode::Merge.as_str(), "merge");
}

#[test]
fn content_options_accessors_builders_setters_roundtrip() {
  let fps30 = Timebase::new(30, 1);
  let weights = comps(0.1, 0.2, 0.3, 0.4);
  let opts = Options::default()
    .with_threshold(r(42.0))
    .with_min_duration(Duration::from_millis(333))
    .with_weights(weights)
    .with_filter_mode(FilterMode::Suppress)
    .with_kernel_size(Some(7))
    .with_initial_cut(false)
    .with_simd(false);
  assert_eq!(opts.threshold(), r(42.0));
  assert_eq!(opts.min_duration(), Duration::from_millis(333));
  assert_eq!(opts.weights(), weights);
  assert_eq!(opts.filter_mode(), FilterMode::Suppress);
  assert_eq!(opts.kernel_size(), Some(7));
  assert!(!opts.initial_cut());
  assert!(!opts.simd());
  let opts_frames = Options::default().with_min_frames(30, fps30);
  assert_eq!(opts_frames.min_duration(), Duration::from_secs(1));
  let mut opts = Options::default();
  opts
    .set_threshold(r(15.0))
    .set_min_duration(Duration::from_secs(2))
    .set_weights(luma_only_weights())
    .set_filter_mode(FilterMode::Merge)
    .set_kernel_size(None)
    .set_initial_cut(true)
    .set_simd(true);
  assert_eq!(opts.threshold(), r(15.0));
  assert_eq!(opts.weights(), luma_only_weights());
  assert_eq!(opts.filter_mode(), FilterMode::Merge);
  assert_eq!(opts.kernel_size(), None);
  assert!(opts.initial_cut());
  assert!(opts.simd());

  opts.set_min_frames(60, fps30);
  assert_eq!(opts.min_duration(), Duration::from_secs(2));
}

#[test]
fn detector_options_and_component_accessors() {
  let opts = Options::default()
    .with_weights(luma_only_weights())
    .with_min_duration(Duration::from_millis(0));
  let mut det = Det::new(opts.clone());
  assert_eq!(det.options().threshold(), opts.threshold());
  assert!(det.last_score().is_none());
  assert!(det.last_components().is_none());

  let a = vec![0u8; 32 * 32];
  let b = vec![255u8; 32 * 32];
  det.process_luma(luma_frame(&a, 32, 32, 0));
  det.process_luma(luma_frame(&b, 32, 32, 33));
  assert!(det.last_score().is_some());
  assert!(det.last_components().is_some());
}
#[test]
fn process_bgr_and_process_hsv_accept_frames() {
  let tb = Timebase::new(1, 1000);
  let opts = Options::default().with_min_duration(Duration::from_millis(0));
  let mut det = Det::new(opts);
  let bgr = vec![64u8; 32 * 32 * 3];
  det.process_bgr(RgbFrame::new(&bgr, 32, 32, 32 * 3, Timestamp::new(0, tb)));
  det.process_bgr(RgbFrame::new(&bgr, 32, 32, 32 * 3, Timestamp::new(33, tb)));
  assert!(det.last_score().is_some());

  det.clear();
  let h = vec![30u8; 32 * 32];
  let s = vec![40u8; 32 * 32];
  let v = vec![50u8; 32 * 32];
  det.process_hsv(HsvFrame::new(&h, &s, &v, 32, 32, 32, Timestamp::new(0, tb)));
  det.process_hsv(HsvFrame::new(
    &h,
    &s,
    &v,
    32,
    32,
    32,
    Timestamp::new(33, tb),
  ));
  assert!(det.last_score().is_some());
}
#[test]
fn edges_enabled_runs_full_pipeline() {
  let opts = Options::default()
    .with_weights(comps(1.0, 1.0, 1.0, 1.0))
    .with_min_duration(Duration::from_millis(0))
    .with_kernel_size(Some(3));
  let mut det = Det::new(opts);
  let mut a = vec![0u8; 32 * 32];
  let mut b = vec![0u8; 32 * 32];
  for (i, slot) in a.iter_mut().enumerate() {
    *slot = if (i % 2) == 0 { 255 } else { 0 };
  }
  for (i, slot) in b.iter_mut().enumerate() {
    *slot = if (i % 2) == 0 { 0 } else { 255 };
  }
  det.process_luma(luma_frame(&a, 32, 32, 0));
  det.process_luma(luma_frame(&b, 32, 32, 33));
  let comps = det.last_components().expect("components after two frames");
  assert!(comps.delta_edges() > 0.0 || comps.delta_edges() == 0.0);
}
#[test]
fn filter_mode_suppress_emits_above_threshold_after_min_duration() {
  let opts = Options::default()
    .with_weights(luma_only_weights())
    .with_threshold(r(10.0))
    .with_filter_mode(FilterMode::Suppress)
    .with_min_duration(Duration::from_millis(0));
  let mut det = Det::new(opts);
  let a = vec![0u8; 32 * 32];
  let b = vec![255u8; 32 * 32];
  det.process_luma(luma_frame(&a, 32, 32, 0));
  let cut = det.process_luma(luma_frame(&b, 32, 32, 33));
  assert!(
    cut.is_some(),
    "Suppress mode should emit above-threshold cut when gate met"
  );
}
#[test]
fn error_display_messages() {
  let e = Error::ZeroWeights;
  assert!(e.message().contains("zero"));
  let e = Error::InvalidKernelSize(4);
  assert!(e.message().contains("4"));
}
#[test]
fn nms_exercises_diagonal_direction_arms() {
  let mut a = vec![0u8; 8 * 8];
  let mut b = vec![0u8; 8 * 8];
  for y in 0..8 {
    for x in 0..8 {
      a[y * 8 + x] = ((x + y) * 16).min(255) as u8;
      b[y * 8 + x] = ((7 - x + y) * 16).min(255) as u8;
    }
  }
  let opts = Options::default()
    .with_weights(comps(1.0, 1.0, 1.0, 1.0))
    .with_min_duration(Duration::from_millis(0))
    .with_kernel_size(Some(3));
  let mut det = Det::new(opts);
  det.process_luma(luma_frame(&a, 8, 8, 0));
  det.process_luma(luma_frame(&b, 8, 8, 33));
  assert!(det.last_components().is_some());
}
#[test]
fn hysteresis_propagates_weak_pixels_through_both_passes() {
  let mut a = vec![0u8; 16 * 16];
  for y in 0..16 {
    for x in 0..16 {
      a[y * 16 + x] = (x * 16) as u8;
    }
  }
  let mut b = vec![0u8; 16 * 16];
  for y in 0..16 {
    for x in 0..16 {
      b[y * 16 + x] = (y * 16) as u8;
    }
  }
  let opts = Options::default()
    .with_weights(comps(1.0, 1.0, 1.0, 1.0))
    .with_min_duration(Duration::from_millis(0))
    .with_kernel_size(Some(3));
  let mut det = Det::new(opts);
  det.process_luma(luma_frame(&a, 16, 16, 0));
  det.process_luma(luma_frame(&b, 16, 16, 33));
  let comps = det.last_components().expect("two frames → components set");
  assert!(comps.delta_edges() >= 0.0);
}
#[test]
fn van_herk_short_path_triggered_by_small_frame_large_kernel() {
  let a = vec![0u8; 9];
  let b = vec![255u8; 9];
  let opts = Options::default()
    .with_weights(comps(1.0, 1.0, 1.0, 1.0))
    .with_min_duration(Duration::from_millis(0))
    .with_kernel_size(Some(5));
  let mut det = Det::new(opts);
  det.process_luma(luma_frame(&a, 3, 3, 0));
  det.process_luma(luma_frame(&b, 3, 3, 33));
  assert!(det.last_score().is_some());
}
#[test]
fn merge_filter_holds_then_releases_cut_on_quiet_frame() {
  let opts = Options::default()
    .with_weights(luma_only_weights())
    .with_threshold(r(10.0))
    .with_filter_mode(FilterMode::Merge)
    .with_min_duration(Duration::from_millis(100));
  let mut det = Det::new(opts);
  let dim = vec![0u8; 32 * 32];
  let bright = vec![255u8; 32 * 32];
  det.process_luma(luma_frame(&dim, 32, 32, 0));
  det.process_luma(luma_frame(&bright, 32, 32, 33));
  det.process_luma(luma_frame(&bright, 32, 32, 66));
  let _ = det.process_luma(luma_frame(&dim, 32, 32, 166));
  assert!(det.last_score().is_some());
}

#[test]
fn scalar_dispatch_bgr_no_edges() {
  let opts = Options::default()
    .with_min_duration(Duration::from_millis(0))
    .with_simd(false);
  let mut det = Det::new(opts);
  let a = vec![64u8; 32 * 32 * 3];
  let b = vec![200u8; 32 * 32 * 3];
  let tb = Timebase::new(1, 1000);
  det.process_bgr(RgbFrame::new(&a, 32, 32, 96, Timestamp::new(0, tb)));
  det.process_bgr(RgbFrame::new(&b, 32, 32, 96, Timestamp::new(33, tb)));
  assert!(det.last_score().is_some());
}

#[test]
fn scalar_dispatch_bgr_with_edges() {
  let opts = Options::default()
    .with_weights(comps(1.0, 1.0, 1.0, 1.0))
    .with_min_duration(Duration::from_millis(0))
    .with_kernel_size(Some(3))
    .with_simd(false);
  let mut det = Det::new(opts);
  let mut a = vec![0u8; 16 * 16 * 3];
  let mut b = vec![0u8; 16 * 16 * 3];
  for (i, v) in a.iter_mut().enumerate() {
    *v = ((i * 7) % 256) as u8;
  }
  for (i, v) in b.iter_mut().enumerate() {
    *v = ((i * 13 + 100) % 256) as u8;
  }
  let tb = Timebase::new(1, 1000);
  det.process_bgr(RgbFrame::new(&a, 16, 16, 48, Timestamp::new(0, tb)));
  det.process_bgr(RgbFrame::new(&b, 16, 16, 48, Timestamp::new(33, tb)));
  assert!(det.last_score().is_some());
  assert!(det.last_components().expect("components").delta_edges() >= 0.0);
}

#[test]
fn scalar_dispatch_luma_only() {
  let opts = Options::default()
    .with_weights(luma_only_weights())
    .with_min_duration(Duration::from_millis(0))
    .with_simd(false);
  let mut det = Det::new(opts);
  let a = vec![0u8; 32 * 32];
  let b = vec![255u8; 32 * 32];
  det.process_luma(luma_frame(&a, 32, 32, 0));
  det.process_luma(luma_frame(&b, 32, 32, 33));
  assert!(det.last_score().is_some());
}

#[test]
fn hsv_pixels_match_the_floating_point_formula() {
    for b in 0..=255u32 {
        for g in 0..=255u32 {
            for red in 0..=255u32 {
                let (bf, gf, rf) = (b as f32, g as f32, red as f32);
                let v = bf.max(gf).max(rf);
                let delta = v - bf.min(gf).min(rf);
                let s = if v == 0.0 { 0.0 } else { 255.0 * delta / v };
                let hue = if delta == 0.0 {
                    0.0
                } else if v == rf {
                    let h = 60.0 * (gf - bf) / delta;
                    if h < 0.0 { h + 360.0 } else { h }
                } else if v == gf {
                    60.0 * (bf - rf) / delta + 120.0
                } else {
                    60.0 * (rf - gf) / delta + 240.0
                };
                let want = (
                    (hue * 0.5).round().clamp(0.0, 179.0) as u8,
                    s.round().clamp(0.0, 255.0) as u8,
                    v as u8,
                );
                assert_eq!(bgr_to_hsv_pixel(b as u8, g as u8, red as u8), want);
            }
        }
    }
}

#[test]
fn thresholds_match_the_single_precision_formula() {
    for m in 0..=255u8 {
        let sigma = 1.0_f32 / 3.0;
        let low = ((1.0 - sigma) * m as f32).max(0.0) as u8;
        let high = ((1.0 + sigma) * m as f32).min(255.0) as u8;
        assert_eq!(canny_thresholds(m), (low, high), "median {m}");
    }
}

#[test]
fn kernel_sizes_match_the_floating_point_formula() {
    for w in (1..4000u32).step_by(37) {
        for h in (1..3000u32).step_by(41) {
            let d = ((w as f64 * h as f64).sqrt() / 192.0).round() as u32;
            let k = 4 + d + if d % 2 == 0 { 1 } else { 0 };
            assert_eq!(auto_kernel_size(w, h), k, "{w}x{h}");
        }
    }
    assert_eq!(auto_kernel_size(96, 96), 5);
    assert_eq!(auto_kernel_size(0, 0), 5);
    assert_eq!(auto_kernel_size(u32::MAX, u32::MAX), 22_369_625);
}

#[test]
fn median_of_nothing_is_the_largest_value() {
    assert_eq!(median_u8(&[]), 255);
    assert_eq!(median_u8(&[7, 9]), 9);
    assert_eq!(median_u8(&[3, 1, 2, 2]), 2);
}

#[test]
fn dilation_grows_a_point_into_a_square() {
    let mut plane = vec![0u8; 7 * 5];
    plane[2 * 7 + 3] = 9;
    let out = dilate(&plane, 7, 5, 3);
    for y in 0..5usize {
        for x in 0..7usize {
            let near = (1..=3).contains(&y) && (2..=4).contains(&x);
            assert_eq!(out[y * 7 + x], if near { 9 } else { 0 });
        }
    }
    assert_eq!(dilate(&plane, 7, 5, 99), vec![9u8; 35]);
    assert_eq!(dilate(&[], 0, 0, 3), Vec::<u8>::new());
}

#[test]
fn suppression_keeps_ridges_across_their_gradient() {
    let mut mag = vec![0i32; 25];
    mag[11] = 5;
    mag[12] = 300;
    mag[13] = 7;
    let dir = vec![0u8; 25];
    let out = non_max_suppress(&mag, &dir, 5, 5);
    assert_eq!(out[12], 255);
    assert_eq!(out[11], 0);
    assert_eq!(out[13], 0);
    let dir = vec![2u8; 25];
    let out = non_max_suppress(&mag, &dir, 5, 5);
    assert_eq!((out[11], out[12], out[13]), (5, 255, 7));
}

#[test]
fn hysteresis_links_weak_ridges_to_strong_ones() {
    let w = 6;
    let mut ridges = vec![0u8; 36];
    let mut mag = vec![0i32; 36];
    for (i, m) in [(7usize, 100), (14, 40), (21, 40), (28, 40), (10, 40), (25, 10)] {
        ridges[i] = 1;
        mag[i] = m;
    }
    let out = hysteresis(&ridges, &mag, w, 6, 30, 90);
    assert_eq!((out[7], out[14], out[21], out[28]), (255, 255, 255, 255));
    assert_eq!((out[10], out[25], out[0]), (0, 0, 0));
}

#[test]
fn edges_of_a_step_are_a_dilated_line() {
    let mut v = vec![10u8; 9 * 9];
    for y in 0..9 {
        for x in 5..9 {
            v[y * 9 + x] = 200;
        }
    }
    let out = compute_edges(&v, 9, 9, 3, true);
    assert!(out.iter().all(|&e| e == 0 || e == 255));
    assert_eq!(out[4 * 9 + 4], 255);
    assert_eq!(out[4 * 9], 0);
    assert_eq!(compute_edges(&[1, 2, 3, 4], 2, 2, 3, true), vec![0u8; 4]);
}

#[test]
fn suppressed_cuts_keep_the_minimum_duration() {
    let mut det = Det::new(
        Options::default()
            .with_weights(luma_only_weights())
            .with_threshold(r(10.0))
            .with_filter_mode(FilterMode::Suppress)
            .with_min_duration(Duration::from_millis(100)),
    );
    let dim = vec![0u8; 16];
    let bright = vec![255u8; 16];
    let mut cuts = vec![];
    for i in 0..10i64 {
        let data = if i % 2 == 0 { &dim } else { &bright };
        if let Some(c) = det.process_luma(luma_frame(data, 4, 4, i * 40)) {
            cuts.push(c.pts());
        }
    }
    assert_eq!(cuts, vec![40, 160, 280]);
}

#[test]
fn a_merge_ends_at_its_last_change() {
    let mut det = Det::new(
        Options::default()
            .with_weights(luma_only_weights())
            .with_threshold(r(10.0))
            .with_min_duration(Duration::from_millis(100)),
    );
    let dim = vec![0u8; 16];
    let bright = vec![255u8; 16];
    let mut cuts = vec![];
    for (pts, up) in [
        (0i64, false),
        (50, true),
        (100, false),
        (150, true),
        (200, false),
        (250, false),
        (300, false),
        (350, false),
    ] {
        let data = if up { &bright } else { &dim };
        if let Some(c) = det.process_luma(luma_frame(data, 4, 4, pts)) {
            cuts.push((pts, c.pts()));
        }
    }
    assert_eq!(cuts, vec![(50, 50), (300, 200)]);
}

#[test]
fn first_cut_fires_where_a_second_is_no_whole_number_of_ticks() {
    let ntsc = Timebase::new(1001, 30_000);
    let mut det = Det::new(
        Options::default().with_weights(luma_only_weights()).with_threshold(r(10.0)),
    );
    let dim = vec![0u8; 16];
    let bright = vec![255u8; 16];
    det.process_luma(LumaFrame::new(&dim, 4, 4, 4, Timestamp::new(0, ntsc)));
    let cut = det.process_luma(LumaFrame::new(&bright, 4, 4, 4, Timestamp::new(1, ntsc)));
    assert_eq!(cut.map(|c| c.pts()), Some(1));
}

#[test]
fn scores_weigh_the_components() {
    let mut det = Det::new(Options::default());
    let h = [0u8; 4];
    let s = [0u8; 4];
    let v = [0u8; 4];
    det.process_hsv(HsvFrame::new(&h, &s, &v, 2, 2, 2, Timestamp::new(0, tb())));
    let h = [30u8, 30, 30, 30];
    let s = [0u8, 0, 0, 12];
    let v = [100u8, 0, 0, 0];
    det.process_hsv(HsvFrame::new(&h, &s, &v, 2, 2, 2, Timestamp::new(33, tb())));
    let c = det.0.last_components().expect("two frames");
    assert_eq!((f(c.delta_hue()), f(c.delta_sat()), f(c.delta_lum())), (30.0, 3.0, 25.0));
    assert_eq!(det.last_score(), Some(58.0 / 3.0));
}

#[test]
fn padding_of_frames_is_skipped() {
    let mut det = Det::new(Options::default().with_weights(luma_only_weights()));
    let a = [1u8, 2, 99, 3, 4, 99];
    let b = [1u8, 2, 7, 3, 4, 7];
    det.process_luma(LumaFrame::new(&a, 2, 2, 3, Timestamp::new(0, tb())));
    det.process_luma(LumaFrame::new(&b, 2, 2, 3, Timestamp::new(1, tb())));
    assert_eq!(det.last_score(), Some(0.0));
}

#[test]
fn invalid_kernels_are_refused() {
    for k in [0u32, 1, 2, 6] {
        let opts = Options::default().with_kernel_size(Some(k));
        assert_eq!(Detector::try_new(opts).expect_err("bad kernel"), Error::InvalidKernelSize(k));
    }
    assert_eq!(
        Error::InvalidKernelSize(4).message(),
        "kernel_size (4) must be an odd integer >= 3"
    );
    let zeros = comps(0.0, -0.0, 0.0, 0.0);
    let opts = Options::default().with_weights(zeros);
    assert_eq!(Detector::try_new(opts).expect_err("no weight"), Error::ZeroWeights);
}
