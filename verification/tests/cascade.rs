//! The cascade.

use std::cell::RefCell;
use std::cmp::Ordering;

use scenesdetect::adaptive;
use scenesdetect::adaptive::{Ratio, Window};
use scenesdetect::arch::{Mean, PlaneMoments};
use scenesdetect::cascade::detector::{Detector, Fired, Kit, Outside};
use scenesdetect::cascade::event::{
    Event, FrameMetrics, HistogramPlane, KeyframeEvent, Provenance, SceneEvent,
};
use scenesdetect::cascade::flags::{Detectors, Extractor, Extractors, Lane};
use scenesdetect::cascade::frames::{Frames, FramesError};
use scenesdetect::cascade::metrics::{frame_metrics, CheapMetrics, StagedMetrics};
use scenesdetect::cascade::options::{
    FadeOptions, Options, OptionsError, PhashOptions, PushError, SelectOptions,
};
use scenesdetect::cascade::rescale::{rescale_ceil, rescale_ceil_checked, shot_range};
use scenesdetect::cascade::timeline::Selected;
use scenesdetect::content;
use scenesdetect::content::{Components, FrameDelta, Measured};
use scenesdetect::frame::{
    ChannelOrder, HsvFrame, LumaFrame, RgbFrame, TimeRange, Timebase, Timestamp,
};
use scenesdetect::histogram;
use scenesdetect::histogram::{Correlated, Similarity};
use scenesdetect::number::Real;
use scenesdetect::time::{Duration, Relation};

fn r(v: f64) -> Real {
    Real::from_bits(v.to_bits())
}

fn f(v: Real) -> f64 {
    f64::from_bits(v.to_bits())
}

fn comps(hue: f64, sat: f64, lum: f64, edges: f64) -> Components {
    Components::new(r(hue), r(sat), r(lum), r(edges))
}

fn mean(m: Mean) -> f64 {
    if m.count == 0 {
        0.0
    } else {
        m.sum as f64 / m.count as f64
    }
}

fn weigh(d: FrameDelta, w: Components) -> Measured {
    let c = [mean(d.hue), mean(d.sat), mean(d.lum), d.edges.map_or(0.0, mean)];
    let w = [f(w.delta_hue()), f(w.delta_sat()), f(w.delta_lum()), f(w.delta_edges())];
    let sum: f64 = w.iter().map(|v| v.abs()).sum();
    let score = (c[0] * w[0] + c[1] * w[1] + c[2] * w[2] + c[3] * w[3]) / sum;
    Measured { components: comps(c[0], c[1], c[2], c[3]), score: r(score) }
}

fn average(w: Window) -> Ratio {
    let sum = f(w.sum) + f(w.pushed) - w.popped.map_or(0.0, f);
    let ratio = match w.target {
        None => 0.0,
        Some(t) => {
            let avg = (sum - f(t)) / (2 * w.window_width) as f64;
            if avg.abs() < 1e-5 {
                if f(t) >= f(w.min_content_val) { 255.0 } else { 0.0 }
            } else {
                (f(t) / avg).min(255.0)
            }
        }
    };
    Ratio { sum: r(sum), ratio: r(ratio) }
}

fn correlate(s: Similarity, threshold: Real) -> Correlated {
    let diff = match s {
        Similarity::EqualFlat => 1.0,
        Similarity::Unrelated => 0.0,
        Similarity::Moments { covariance, variance_a, variance_b } => {
            covariance as f64 / (variance_a as f64 * variance_b as f64).sqrt()
        }
    };
    Correlated { diff: r(diff), limit: r((1.0 - f(threshold)).clamp(0.0, 1.0)) }
}

fn order(a: &Timestamp, b: &Timestamp) -> Ordering {
    match a.relate(b) {
        Relation::Before => Ordering::Less,
        Relation::Same => Ordering::Equal,
        Relation::After => Ordering::Greater,
    }
}

fn is_eq(a: &Timestamp, b: &Timestamp) -> bool {
    order(a, b).is_eq()
}

fn is_lt(a: &Timestamp, b: &Timestamp) -> bool {
    order(a, b).is_lt()
}

fn is_ge(a: &Timestamp, b: &Timestamp) -> bool {
    order(a, b).is_ge()
}

fn longer(a: Duration, b: Duration) -> bool {
    a.at_least(&b) && !b.at_least(&a)
}

fn fade_options() -> FadeOptions {
    FadeOptions { threshold: 12, min_duration: Duration::from_secs(1), initial_cut: true }
}

fn every(target_interval: Duration) -> SelectOptions {
    SelectOptions { target_interval, min_sharpness: r(5.0), margin_ratio: r(0.1) }
}

fn phash_options() -> PhashOptions {
    PhashOptions { size: 16, lowpass: 2, min_duration: Duration::from_secs(1), initial_cut: true }
}

fn base() -> Options {
    Options::new(
        fade_options(),
        phash_options(),
        every(Duration::from_secs(1)),
    )
}

fn only(lanes: &[Lane]) -> Detectors {
    lanes.iter().fold(Detectors::empty(), |s, &l| s.with(l))
}

fn build(options: Options) -> Result<Detector, OptionsError> {
    Detector::try_new(options)
}

fn variance(m: PlaneMoments) -> f64 {
    let n = m.count as f64;
    let mean = m.sum as f64 / n;
    (m.sum_sq as f64 / n - mean * mean).max(0.0)
}

fn numbers(m: StagedMetrics) -> FrameMetrics {
    FrameMetrics {
        brightness: r(m.cheap.luma.sum as f64 / m.cheap.luma.count as f64),
        luma_variance: r(variance(m.cheap.luma)),
        saturation_variance: r(variance(m.cheap.saturation)),
        clipping: r(mean(m.cheap.clipping)),
        sharpness: r(m.sharpness.map_or(0.0, mean)),
        noise: r(m.noise.map_or(0.0, mean)),
        motion_blur: r(m.motion_blur.flatten().map_or(0.0, |d| d.heaviest as f64 / d.total as f64)),
        colorfulness: r(m.colorfulness.map_or(0.0, |c| c.sum_rg_sq as f64)),
    }
}

/// A frame without variance is held back.
fn flat(c: CheapMetrics) -> bool {
    variance(c.luma) < 1.0 && variance(c.saturation) < 1.0
}

/// A lane that sees fades below a mean luma of 12.
#[derive(Default)]
struct Fade {
    on: bool,
    dark: Option<Timestamp>,
}

impl Fade {
    fn see(&mut self, f: Frames<'_>) -> Option<Fired> {
        let luma = f.luma();
        let mean = luma.data().iter().map(|&v| f64::from(v)).sum::<f64>() / N as f64;
        if !self.on {
            return None;
        }
        match (self.dark, mean < 12.0) {
            (None, true) => {
                self.dark = Some(f.timestamp());
                None
            }
            (Some(t), false) => {
                self.dark = None;
                let middle = t.pts() + (f.timestamp().pts() - t.pts()) / 2;
                Some(Fired { at: Timestamp::new(middle, t.timebase()), value: r(mean) })
            }
            _ => None,
        }
    }
}

type Buffer = RefCell<Vec<(Timestamp, StagedMetrics)>>;

/// Picks the first buffered frame of every interval of the range, and drops what
/// lies before its end.
fn pick(buffer: &Buffer, policy: SelectOptions, range: TimeRange) -> Vec<Selected> {
    let tb = range.timebase();
    let interval = policy.target_interval;
    let nanos = interval.as_secs() as i128 * 1_000_000_000 + interval.subsec_nanos() as i128;
    let width = (nanos * tb.den() as i128 / (tb.num() as i128 * 1_000_000_000)).max(1);
    let mut picked = vec![];
    let mut last = -1;
    for (t, m) in buffer.borrow().iter() {
        let at = t.pts() as i128 - range.start_pts() as i128;
        if at >= 0 && t.pts() < range.end_pts() && at / width > last {
            last = at / width;
            let metrics = numbers(*m);
            let strict = !flat(m.cheap) && metrics.sharpness.at_least(&policy.min_sharpness);
            picked.push(Selected { ts: *t, strict, metrics });
        }
    }
    buffer.borrow_mut().retain(|(t, _)| t.pts() >= range.end_pts());
    picked
}

struct Det {
    inner: Detector,
    buffer: Buffer,
    policy: SelectOptions,
    lane: RefCell<Fade>,
    seen: Outside,
    room: usize,
    fade: Option<Fired>,
}

impl Det {
    fn push(&mut self, frames: Frames<'_>) -> Result<Option<Event>, PushError> {
        let buffer = &self.buffer;
        let policy = self.policy;
        let lane = &self.lane;
        let seen = self.seen;
        let room = self.room;
        let kit = Kit {
            correlate,
            weigh,
            average,
            outside: |f: Frames<'_>, _: bool| Outside {
                fade: lane.borrow_mut().see(f).or(seen.fade),
                phash: seen.phash,
            },
            gate: flat,
            observe: |t: Timestamp, m: StagedMetrics| {
                let free = buffer.borrow().len() < room;
                if free {
                    buffer.borrow_mut().push((t, m));
                }
                free
            },
            select: |range: TimeRange| pick(buffer, policy, range),
        };
        self.inner.push(frames, &kit)
    }

    fn finalize(&mut self) -> Vec<Event> {
        let buffer = &self.buffer;
        let policy = self.policy;
        let dark = self.lane.borrow().dark.map(|at| Fired { at, value: r(4.0) });
        let fade = dark.or(self.fade);
        let out = self.inner.finalize(fade, |range: TimeRange| pick(buffer, policy, range));
        self.buffer.borrow_mut().clear();
        out
    }

    fn clear(&mut self) {
        self.inner.clear();
        self.buffer.borrow_mut().clear();
    }

    fn backlog(&self) -> usize {
        self.inner.backlog()
    }
}

fn detector(options: Options) -> Det {
    Det {
        inner: build(options).expect("valid options"),
        buffer: RefCell::new(vec![]),
        policy: options.selection(),
        lane: RefCell::new(Fade::default()),
        seen: Outside { fade: None, phash: None },
        room: 1000,
        fade: None,
    }
}

fn tb() -> Timebase {
    Timebase::new(1, 1_000)
}

fn ts(ms: i64) -> Timestamp {
    Timestamp::new(ms, tb())
}

struct Fixture {
    rgb: Vec<u8>,
    luma: Vec<u8>,
    hue: Vec<u8>,
    sat: Vec<u8>,
    val: Vec<u8>,
}

const W: u32 = 64;
const H: u32 = 48;
const N: usize = (W * H) as usize;

impl Fixture {
    fn solid(luma: u8, hue: u8, sat: u8) -> Self {
        Self {
            rgb: vec![luma; N * 3],
            luma: vec![luma; N],
            hue: vec![hue; N],
            sat: vec![sat; N],
            val: vec![luma; N],
        }
    }

    fn striped(dark: u8, light: u8, hue: u8, sat: u8) -> Self {
        let mut luma = vec![0u8; N];
        let mut rgb = vec![0u8; N * 3];
        for row in 0..H as usize {
            for col in 0..W as usize {
                let v = if (col / 4) % 2 == 0 { dark } else { light };
                luma[row * W as usize + col] = v;
                let p = (row * W as usize + col) * 3;
                rgb[p] = v;
                rgb[p + 1] = v;
                rgb[p + 2] = v;
            }
        }
        Self { val: luma.clone(), luma, rgb, hue: vec![hue; N], sat: vec![sat; N] }
    }

    fn frames(&self, at: Timestamp) -> Frames<'_> {
        Frames::try_new(
            RgbFrame::new(&self.rgb, W, H, W * 3, at),
            LumaFrame::new(&self.luma, W, H, W, at),
            HsvFrame::new(&self.hue, &self.sat, &self.val, W, H, W, at),
        )
        .expect("consistent fixture views")
    }
}

fn push_run(det: &mut Det, fix: &Fixture, from_ms: i64, count: i64, step: i64) -> Vec<Event> {
    let mut out = Vec::new();
    for i in 0..count {
        if let Some(o) = det.push(fix.frames(ts(from_ms + i * step))).expect("ordered stream") {
            out.push(o);
        }
    }
    out
}

fn scenes(outputs: &[Event]) -> Vec<SceneEvent> {
    outputs
        .iter()
        .filter_map(|o| match o {
            Event::Scene(s) => Some(s.clone()),
            _ => None,
        })
        .collect()
}

fn keyframes(outputs: &[Event]) -> Vec<KeyframeEvent> {
    outputs
        .iter()
        .filter_map(|o| match o {
            Event::Keyframe(k) => Some(k.clone()),
            _ => None,
        })
        .collect()
}

fn fixture_options() -> Options {
    base()
        .with_detectors(Detectors::default().without(Lane::Threshold).without(Lane::Adaptive))
        .with_select(every(Duration::from_millis(100)))
}

#[test]
fn frames_try_new_rejects_mismatches() {
  let a = Fixture::solid(100, 10, 10);
  let rgb = RgbFrame::new(&a.rgb, W, H, W * 3, ts(0));
  let luma = LumaFrame::new(&a.luma, W, H, W, ts(0));
  let hsv_bad_ts = HsvFrame::new(&a.hue, &a.sat, &a.val, W, H, W, ts(1));
  assert_eq!(
    Frames::try_new(rgb, luma, hsv_bad_ts).expect_err("ts mismatch"),
    FramesError::TimestampMismatch
  );
  let half = (W / 2 * H) as usize;
  let small = LumaFrame::new(&a.luma[..half], W / 2, H, W / 2, ts(0));
  let hsv = HsvFrame::new(&a.hue, &a.sat, &a.val, W, H, W, ts(0));
  assert_eq!(
    Frames::try_new(rgb, small, hsv).expect_err("dim mismatch"),
    FramesError::DimensionMismatch
  );

  let empty: [u8; 0] = [];
  let zero = Frames::try_new(
    RgbFrame::new(&empty, 0, H, 0, ts(0)),
    LumaFrame::new(&empty, 0, H, 0, ts(0)),
    HsvFrame::new(&empty, &empty, &empty, 0, H, 0, ts(0)),
  );
  assert_eq!(
    zero.expect_err("zero width"),
    FramesError::ZeroDimensions,
    "zero-sized views have nothing to analyze"
  );
}

#[test]
fn options_validation() {
  let Err(e) = build(base().with_detectors(Detectors::empty())) else {
    panic!("no enabled lane must be rejected");
  };
  assert_eq!(e, OptionsError::NoCutLane);
  assert!(build(base().with_detectors(only(&[Lane::Threshold]))).is_ok());
  assert!(build(base()).is_ok());
  let zero_weights = base().with_content(
    content::Options::new().with_weights(comps(0.0, 0.0, 0.0, 0.0)),
  );
  let Err(e) = build(zero_weights) else {
    panic!("zero content weights must be rejected");
  };
  assert!(e.is_content(), "got {e:?}");
  let wide = base().with_adaptive(adaptive::Options::new().with_window_width(100_000));
  let Err(e) = build(wide) else {
    panic!("absurd adaptive window must be rejected");
  };
  assert_eq!(e, OptionsError::WindowTooWide(100_000));
  let lanes = only(&[Lane::Content, Lane::Adaptive]);
  assert!(build(base().with_detectors(lanes)).is_ok());
}

#[test]
fn consecutive_cuts_are_found() {
  let options = base()
    .with_detectors(Detectors::all())
    .with_select(every(Duration::from_millis(100)));
  let mut det = detector(options);
  let red = Fixture::solid(60, 10, 200);
  let blue = Fixture::solid(180, 120, 200);

  let mut outputs = push_run(&mut det, &red, 0, 30, 40);
  outputs.extend(push_run(&mut det, &blue, 30 * 40, 30, 40));
  outputs.extend(push_run(&mut det, &red, 60 * 40, 30, 40));
  outputs.extend(det.finalize());

  let scenes = scenes(&outputs);
  assert_eq!(scenes.len(), 3, "both cuts plus the trailing shot");
  assert_eq!(scenes[0].range().end().pts(), 30 * 40);
  assert_eq!(scenes[1].range().end().pts(), 60 * 40);
}

#[test]
fn adaptive_first_boundary_honors_initial_cut_false() {
  let early_cut = |initial_cut: bool| {
    let options = base()
      .with_detectors(only(&[Lane::Adaptive]))
      .with_adaptive(adaptive::Options::new().with_initial_cut(initial_cut))
      .with_select(every(Duration::from_millis(100)));
    let mut det = detector(options);
    let red = Fixture::solid(60, 10, 200);
    let blue = Fixture::solid(180, 120, 200);
    let mut outputs = push_run(&mut det, &red, 0, 10, 40);
    outputs.extend(push_run(&mut det, &blue, 10 * 40, 20, 40));
    outputs.extend(det.finalize());
    scenes(&outputs).len()
  };

  assert_eq!(
    early_cut(false),
    1,
    "initial_cut(false): the early first cut is suppressed"
  );
  assert_eq!(
    early_cut(true),
    2,
    "initial_cut(true): the early first cut is allowed"
  );
}

#[test]
fn content_first_boundary_honors_initial_cut_false() {
  let early_cut = |initial_cut: bool| {
    let options = base()
      .with_detectors(only(&[Lane::Content]))
      .with_content(content::Options::new().with_initial_cut(initial_cut))
      .with_select(every(Duration::from_millis(100)));
    let mut det = detector(options);
    let red = Fixture::solid(60, 10, 200);
    let blue = Fixture::solid(180, 120, 200);

    let mut outputs = push_run(&mut det, &red, 0, 10, 40);
    outputs.extend(push_run(&mut det, &blue, 10 * 40, 20, 40));
    outputs.extend(det.finalize());
    scenes(&outputs).len()
  };

  assert_eq!(
    early_cut(false),
    1,
    "initial_cut(false): the early first content cut is suppressed"
  );
  assert_eq!(
    early_cut(true),
    2,
    "initial_cut(true): the early first content cut is allowed"
  );
}

#[test]
fn dimension_reset_re_anchors_first_cut_gating() {
  fn shrink(f: &Fixture, at: Timestamp) -> Frames<'_> {
    let n = (W / 2 * H) as usize;
    Frames::try_new(
      RgbFrame::new(&f.rgb[..n * 3], W / 2, H, W / 2 * 3, at),
      LumaFrame::new(&f.luma[..n], W / 2, H, W / 2, at),
      HsvFrame::new(&f.hue[..n], &f.sat[..n], &f.val[..n], W / 2, H, W / 2, at),
    )
    .expect("consistent half views")
  }
  let run = |initial_cut: bool| {
    let options = base()
      .with_detectors(only(&[Lane::Adaptive]))
      .with_adaptive(adaptive::Options::new().with_initial_cut(initial_cut))
      .with_select(every(Duration::from_millis(100)));
    let mut det = detector(options);
    let red = Fixture::solid(60, 10, 200);
    let blue = Fixture::solid(180, 120, 200);

    let mut outputs = push_run(&mut det, &red, 0, 50, 40);
    for i in 0..10 {
      if let Some(o) = det
        .push(shrink(&red, ts(2000 + i * 40)))
        .expect("ordered stream")
      {
        outputs.push(o);
      }
    }
    for i in 0..20 {
      if let Some(o) = det
        .push(shrink(&blue, ts(2400 + i * 40)))
        .expect("ordered stream")
      {
        outputs.push(o);
      }
    }
    outputs.extend(det.finalize());
    scenes(&outputs).len()
  };

  assert_eq!(
    run(false),
    1,
    "initial_cut(false): the early post-reset cut is suppressed"
  );
  assert_eq!(
    run(true),
    2,
    "initial_cut(true): the post-reset cut is allowed"
  );
}

#[test]
fn frames_reject_oversized_views() {
  let w: u32 = 2048;
  let h: u32 = 1024;
  let n = (w * h) as usize;
  let rgb = vec![0u8; n * 3];
  let plane = vec![0u8; n];
  let frames = Frames::try_new(
    RgbFrame::new(&rgb, w, h, w * 3, ts(0)),
    LumaFrame::new(&plane, w, h, w, ts(0)),
    HsvFrame::new(&plane, &plane, &plane, w, h, w, ts(0)),
  );
  assert_eq!(
    frames.expect_err("past the pixel cap"),
    FramesError::FrameTooLarge {
      pixels: u64::from(w) * u64::from(h)
    }
  );
}

#[test]
fn frames_reject_zero_numerator_timebases() {
  let fix = Fixture::solid(100, 10, 50);
  let degenerate = Timestamp::new(0, Timebase::new(0, 1_000));
  let frames = Frames::try_new(
    RgbFrame::new(&fix.rgb, W, H, W * 3, degenerate),
    LumaFrame::new(&fix.luma, W, H, W, degenerate),
    HsvFrame::new(&fix.hue, &fix.sat, &fix.val, W, H, W, degenerate),
  );
  assert_eq!(
    frames.expect_err("degenerate timebase"),
    FramesError::ZeroTimebase
  );
  let healthy = Timestamp::new(0, Timebase::new(1, 1_000));
  let mixed = Frames::try_new(
    RgbFrame::new(&fix.rgb, W, H, W * 3, healthy),
    LumaFrame::new(&fix.luma, W, H, W, degenerate),
    HsvFrame::new(&fix.hue, &fix.sat, &fix.val, W, H, W, healthy),
  );
  assert_eq!(
    mixed.expect_err("degenerate side-view timebase"),
    FramesError::ZeroTimebase
  );
  let mixed_hsv = Frames::try_new(
    RgbFrame::new(&fix.rgb, W, H, W * 3, healthy),
    LumaFrame::new(&fix.luma, W, H, W, healthy),
    HsvFrame::new(&fix.hue, &fix.sat, &fix.val, W, H, W, degenerate),
  );
  assert_eq!(
    mixed_hsv.expect_err("degenerate hsv timebase"),
    FramesError::ZeroTimebase
  );
}

#[test]
fn pathological_boundary_rate_keeps_the_backlog_bounded() {
  let options = base()
    .with_detectors(only(&[Lane::Adaptive]))
    .with_adaptive(
      adaptive::Options::new()
        .with_adaptive_threshold(r(0.0))
        .with_min_content_val(r(0.0))
        .with_min_duration(Duration::from_secs(0)),
    )
    .with_select(every(Duration::from_millis(100)));
  let mut det = detector(options);
  let a = Fixture::solid(60, 10, 200);
  let b = Fixture::solid(180, 120, 200);

  let mut delivered = 0usize;
  let mut backlog_max = 0usize;
  for i in 0..600_i64 {
    let fix = if i % 2 == 0 { &a } else { &b };
    if det
      .push(fix.frames(ts(i * 40)))
      .expect("ordered stream")
      .is_some()
    {
      delivered += 1;
    }
    backlog_max = backlog_max.max(det.backlog());
  }
  let tail = det.finalize();

  assert!(
    backlog_max <= 257,
    "the backlog stays at the cap, got {backlog_max}"
  );
  assert!(delivered > 0, "outputs keep flowing");
  let scene_count = tail.iter().filter(|o| o.is_scene()).count();
  assert!(
    scene_count > 0 || delivered > 0,
    "scenes survive the shedding"
  );
}

#[test]
fn mixed_timebases_keep_scene_ranges_partitioned() {
  let options = base()
    .with_detectors(only(&[Lane::Threshold]))
    .with_max_scene_duration(Some(Duration::from_millis(200)))
    .with_select(every(Duration::from_millis(100)));
  let mut det = detector(options);
  let fix = Fixture::striped(40, 220, 20, 180);

  let ms = tb();
  let coarse = Timebase::new(1, 1);
  let mut outputs = Vec::new();
  for i in 0..20_i64 {
    if let Some(o) = det
      .push(fix.frames(Timestamp::new(i * 40, ms)))
      .expect("ordered stream")
    {
      outputs.push(o);
    }
  }
  for sec in 1..=4_i64 {
    if let Some(o) = det
      .push(fix.frames(Timestamp::new(sec, coarse)))
      .expect("ordered stream")
    {
      outputs.push(o);
    }
  }
  outputs.extend(det.finalize());

  let scenes = scenes(&outputs);
  assert!(scenes.len() >= 3, "forced splits across both segments");
  for s in &scenes {
    assert_eq!(
      s.range().timebase().den(),
      ms.den(),
      "every range is emitted in the canonical (first) timebase"
    );
  }
  for pair in scenes.windows(2) {
    assert!(
      is_eq(&pair[0]
        .range()
        .end(), &pair[1].range().start()),
      "ranges stay exactly adjacent across the timebase switch: {:?} then {:?}",
      pair[0].range(),
      pair[1].range()
    );
  }
}

#[test]
fn coarse_canonical_timebase_keeps_association_total() {
  let options = base()
    .with_detectors(only(&[Lane::LumaHistogram, Lane::Content]))
    .with_select(every(Duration::from_millis(100)));
  let mut det = detector(options);
  let fix = Fixture::striped(40, 220, 20, 180);

  let coarse = Timebase::new(1, 1);
  let mut outputs = Vec::new();
  if let Some(o) = det
    .push(fix.frames(Timestamp::new(0, coarse)))
    .expect("ordered stream")
  {
    outputs.push(o);
  }
  for i in 1..20_i64 {
    if let Some(o) = det.push(fix.frames(ts(i * 40))).expect("ordered stream") {
      outputs.push(o);
    }
  }
  outputs.extend(det.finalize());

  let scenes = scenes(&outputs);
  assert_eq!(
    scenes.len(),
    1,
    "the sub-tick stream still emits one ceiling-rounded scene"
  );
  let range = scenes[0].range();
  assert_eq!(range.timebase().den(), coarse.den(), "canonical timebase");
  for k in keyframes(&outputs) {
    assert!(
      is_ge(&k.timestamp(), &range.start())
        && is_lt(&k.timestamp(), &range.end()),
      "every keyframe falls inside the emitted range: {:?} vs {range:?}",
      k.timestamp()
    );
  }
  assert!(!keyframes(&outputs).is_empty(), "keyframes were delivered");
}

#[test]
fn dimension_switch_respects_lane_min_duration() {
  fn shrink(f: &Fixture, at: Timestamp) -> Frames<'_> {
    let n = (W / 2 * H) as usize;
    Frames::try_new(
      RgbFrame::new(&f.rgb[..n * 3], W / 2, H, W / 2 * 3, at),
      LumaFrame::new(&f.luma[..n], W / 2, H, W / 2, at),
      HsvFrame::new(&f.hue[..n], &f.sat[..n], &f.val[..n], W / 2, H, W / 2, at),
    )
    .expect("consistent half views")
  }
  let options = base()
    .with_detectors(only(&[Lane::Content]))
    .with_select(every(Duration::from_millis(100)));
  let mut det = detector(options);
  let red = Fixture::solid(60, 10, 200);
  let blue = Fixture::solid(180, 120, 200);

  let mut outputs = push_run(&mut det, &red, 0, 30, 40);
  outputs.extend(push_run(&mut det, &blue, 30 * 40, 2, 40));
  for i in 0..3_i64 {
    if let Some(o) = det
      .push(shrink(&blue, ts(1280 + i * 40)))
      .expect("ordered stream")
    {
      outputs.push(o);
    }
  }
  for i in 0..20_i64 {
    if let Some(o) = det
      .push(shrink(&red, ts(1400 + i * 40)))
      .expect("ordered stream")
    {
      outputs.push(o);
    }
  }
  outputs.extend(det.finalize());

  let scenes = scenes(&outputs);
  assert_eq!(
    scenes.len(),
    2,
    "the post-switch re-cut inside min_duration is suppressed: {:?}",
    scenes.iter().map(|s| s.range()).collect::<Vec<_>>()
  );
  assert_eq!(scenes[0].range().end().pts(), 30 * 40);
}

#[test]
fn rejected_direct_cut_does_not_shadow_a_later_valid_one() {
  fn shrink(f: &Fixture, at: Timestamp) -> Frames<'_> {
    let n = (W / 2 * H) as usize;
    Frames::try_new(
      RgbFrame::new(&f.rgb[..n * 3], W / 2, H, W / 2 * 3, at),
      LumaFrame::new(&f.luma[..n], W / 2, H, W / 2, at),
      HsvFrame::new(&f.hue[..n], &f.sat[..n], &f.val[..n], W / 2, H, W / 2, at),
    )
    .expect("consistent half views")
  }
  let options = base()
    .with_detectors(only(&[Lane::Content]))
    .with_select(every(Duration::from_millis(100)));
  let mut det = detector(options);
  let red = Fixture::solid(60, 10, 200);
  let blue = Fixture::solid(180, 120, 200);
  let mut outputs = push_run(&mut det, &red, 0, 30, 40);
  outputs.extend(push_run(&mut det, &blue, 30 * 40, 2, 40));
  for i in 0..3_i64 {
    if let Some(o) = det
      .push(shrink(&blue, ts(1280 + i * 40)))
      .expect("ordered stream")
    {
      outputs.push(o);
    }
  }
  for i in 0..22_i64 {
    if let Some(o) = det
      .push(shrink(&red, ts(1400 + i * 40)))
      .expect("ordered stream")
    {
      outputs.push(o);
    }
  }
  for i in 0..20_i64 {
    if let Some(o) = det
      .push(shrink(&blue, ts(2280 + i * 40)))
      .expect("ordered stream")
    {
      outputs.push(o);
    }
  }
  outputs.extend(det.finalize());

  let scenes = scenes(&outputs);
  assert_eq!(
    scenes.len(),
    3,
    "the rejected cut neither fires nor shadows the later one: {:?}",
    scenes.iter().map(|s| s.range()).collect::<Vec<_>>()
  );
  assert_eq!(scenes[0].range().end().pts(), 30 * 40);
  assert_eq!(scenes[1].range().end().pts(), 2280);
}

#[test]
fn lagged_boundary_keeps_the_trigger_frame_in_the_new_shot() {
  let options = base()
    .with_detectors(only(&[Lane::Adaptive]))
    .with_select(every(Duration::from_millis(100)));
  let mut det = detector(options);
  let red = Fixture::solid(60, 10, 200);
  let blue = Fixture::solid(180, 120, 200);

  let mut outputs = push_run(&mut det, &red, 0, 30, 40);
  outputs.extend(push_run(&mut det, &blue, 30 * 40, 30, 40));
  outputs.extend(det.finalize());

  let scenes = scenes(&outputs);
  assert_eq!(scenes.len(), 2, "the lagged adaptive cut still splits");
  assert!(
    scenes[0].provenance_ref().is_adaptive(),
    "attributed to the adaptive lane: {:?}",
    scenes[0].provenance_ref()
  );
  let cut = scenes[0].range().end();
  assert_eq!(cut.pts(), 30 * 40, "the refined cut sits at the flip frame");
  let in_second = keyframes(&outputs)
    .iter()
    .filter(|k| is_ge(&k.timestamp(), &cut))
    .count();
  assert!(in_second > 0, "carried + trigger frames cover the new shot");
}

#[test]
fn every_window_with_frames_yields_keyframes() {
  let mut det = detector(fixture_options());
  let fix = Fixture::striped(40, 220, 20, 180);
  let mut outputs = push_run(&mut det, &fix, 0, 30, 33);
  outputs.extend(det.finalize());

  let kfs = keyframes(&outputs);
  assert_eq!(
    kfs.len(),
    10,
    "one keyframe per 100 ms window over ~990 ms, got {}",
    kfs.len()
  );
  for pair in kfs.windows(2) {
    assert!(
      is_lt(&pair[0]
        .timestamp(), &pair[1].timestamp()),
      "keyframe timestamps strictly increase"
    );
  }
  let scenes = scenes(&outputs);
  assert_eq!(scenes.len(), 1, "no cut: one finalized scene");
  for k in &kfs {
    assert!(
      is_ge(&k.timestamp(), &scenes[0].range().start())
        && is_lt(&k.timestamp(), &scenes[0].range().end()),
      "keyframes fall inside the scene range"
    );
  }
}

#[test]
fn max_scene_duration_force_splits_cutless_content() {
  let options = fixture_options().with_max_scene_duration(Some(Duration::from_millis(200)));
  let mut det = detector(options);
  let fix = Fixture::striped(40, 220, 20, 180);
  let mut outputs = push_run(&mut det, &fix, 0, 30, 33);
  outputs.extend(det.finalize());

  let scenes = scenes(&outputs);
  assert!(
    scenes.len() >= 3,
    "a 200 ms cap over ~1 s of cut-less content forces splits, got {}",
    scenes.len()
  );
  assert!(scenes[0].provenance_ref().is_max_span());
  if let Provenance::MaxSpan(s) = scenes[0].provenance_ref() {
    assert!(longer(s.span(), s.cap()));
  }
  for pair in scenes.windows(2) {
    assert!(
      is_eq(&pair[0]
        .range()
        .end(), &pair[1].range().start()),
      "scenes partition the timeline"
    );
  }
}

#[test]
fn keyframes_precede_their_scene_and_belong_to_its_range() {
  let options = fixture_options().with_max_scene_duration(Some(Duration::from_millis(200)));
  let mut det = detector(options);
  let fix = Fixture::striped(40, 220, 20, 180);
  let mut outputs = push_run(&mut det, &fix, 0, 30, 33);
  outputs.extend(det.finalize());
  let mut pending: Vec<Timestamp> = Vec::new();
  for o in &outputs {
    match o {
      Event::Keyframe(k) => pending.push(k.timestamp()),
      Event::Scene(s) => {
        let range = s.range();
        pending.retain(|ts| {
          let mine =
            is_ge(&ts, &range.start()) && is_lt(&ts, &range.end());
          !mine
        });
        for stray in &pending {
          assert!(
            is_ge(&stray, &range.end()),
            "no keyframe of an already-closed scene may still be pending"
          );
        }
      }
      _ => unreachable!(),
    }
  }
  assert!(pending.is_empty(), "every keyframe's scene arrived");
  let scenes = scenes(&outputs);
  for k in keyframes(&outputs) {
    let owners = scenes
      .iter()
      .filter(|sc| {
        is_ge(&k.timestamp(), &sc.range().start())
          && is_lt(&k.timestamp(), &sc.range().end())
      })
      .count();
    assert_eq!(
      owners,
      1,
      "keyframe {:?} owned by exactly one scene",
      k.timestamp()
    );
  }
}

#[test]
fn finalize_refreshes_for_the_next_stream() {
  let mut det = detector(fixture_options());
  let fix = Fixture::striped(40, 220, 20, 180);
  let first = {
    let mut outputs = push_run(&mut det, &fix, 0, 6, 33);
    outputs.extend(det.finalize());
    outputs
  };
  assert!(!scenes(&first).is_empty(), "first stream closed");
  let second = {
    let mut outputs = push_run(&mut det, &fix, 0, 6, 33);
    outputs.extend(det.finalize());
    outputs
  };
  let s = scenes(&second);
  assert_eq!(s.len(), 1, "reused detector behaves like a fresh one");
  assert!(is_eq(&s[0].range().start(), &ts(0)));
  assert!(s[0].provenance_ref().is_finalized());
}

#[test]
fn clear_discards_without_emitting() {
  let mut det = detector(fixture_options());
  let fix = Fixture::striped(40, 220, 20, 180);
  let _ = push_run(&mut det, &fix, 0, 8, 33);
  det.clear();
  assert!(det.finalize().is_empty(), "nothing survives clear");
}

#[test]
fn dimension_change_resets_visual_state_only() {
  let mut det = detector(fixture_options());
  let fix = Fixture::striped(40, 220, 20, 180);
  let mut outputs = push_run(&mut det, &fix, 0, 6, 33);
  fn small(at: Timestamp, f: &Fixture) -> Frames<'_> {
    let n = (W / 2 * H) as usize;
    Frames::try_new(
      RgbFrame::new(&f.rgb[..n * 3], W / 2, H, W / 2 * 3, at),
      LumaFrame::new(&f.luma[..n], W / 2, H, W / 2, at),
      HsvFrame::new(&f.hue[..n], &f.sat[..n], &f.val[..n], W / 2, H, W / 2, at),
    )
    .expect("consistent half views")
  }
  let half = Fixture::striped(40, 220, 20, 180);
  for i in 6..12 {
    if let Some(o) = det.push(small(ts(i * 33), &half)).expect("ordered stream") {
      outputs.push(o);
    }
  }
  outputs.extend(det.finalize());
  let s = scenes(&outputs);
  assert_eq!(s.len(), 1, "no cut across the dimension change");
  assert!(
    is_eq(&s[0].range().start(), &ts(0)),
    "the shot survived the dimension change"
  );
}

#[test]
fn flat_stream_emits_no_cuts_but_still_samples_keyframes() {
  let mut det = detector(fixture_options());
  let fix = Fixture::solid(120, 10, 10);
  let mut outputs = push_run(&mut det, &fix, 0, 40, 33);
  outputs.extend(det.finalize());
  let s = scenes(&outputs);
  assert_eq!(s.len(), 1, "static content is one finalized shot");
  assert!(s[0].provenance_ref().is_finalized());
  let kfs = keyframes(&outputs);
  assert!(
    !kfs.is_empty(),
    "a flat stream still emits per-window samples"
  );
  for k in &kfs {
    assert!(
      is_ge(&k.timestamp(), &s[0].range().start())
        && is_lt(&k.timestamp(), &s[0].range().end()),
      "every keyframe falls inside the single scene's range"
    );
  }
}

#[test]
fn every_enabled_lane_cuts_directly() {
  let options = base()
    .with_detectors(Detectors::all())
    .with_select(every(Duration::from_millis(100)));
  let mut det = detector(options);
  let red = Fixture::solid(60, 10, 200);
  let blue = Fixture::solid(180, 120, 200);

  let mut outputs = push_run(&mut det, &red, 0, 30, 40);
  outputs.extend(push_run(&mut det, &blue, 30 * 40, 30, 40));
  outputs.extend(det.finalize());

  let scenes = scenes(&outputs);
  assert_eq!(scenes.len(), 2, "the full lane set finds the cut");
  if let Provenance::Histogram(score) = scenes[0].provenance_ref() {
    assert!(
      score.plane().is_luma(),
      "earliest equal report wins by lane order"
    );
    assert!(
      f(score.correlation()) < 0.5,
      "the firing correlation sits below the configured threshold"
    );
  } else {
    panic!(
      "expected a direct histogram cut: {:?}",
      scenes[0].provenance_ref()
    );
  }
}

#[test]
fn a_single_lane_is_a_valid_composition() {
  let lanes = only(&[Lane::LumaHistogram]);
  assert!(build(base().with_detectors(lanes)).is_ok());
}

#[test]
fn chroma_only_cut_is_caught_by_the_saturation_lane() {
  let mut det = detector(fixture_options());
  let gray = Fixture::solid(120, 10, 0);
  let vivid = Fixture::solid(120, 10, 240);

  let mut outputs = push_run(&mut det, &gray, 0, 30, 40);
  outputs.extend(push_run(&mut det, &vivid, 30 * 40, 30, 40));
  outputs.extend(det.finalize());

  let scenes = scenes(&outputs);
  assert_eq!(scenes.len(), 2, "the chroma-only transition is caught");
  assert!(
    matches!(
      scenes[0].provenance_ref(),
      Provenance::Histogram(s) if s.plane().is_saturation()
    ),
    "the saturation lane cut directly: {:?}",
    scenes[0].provenance_ref()
  );
  assert_eq!(
    scenes[0].range().end().pts(),
    30 * 40,
    "cut at the first frame of the new look"
  );
}

#[test]
fn same_push_reports_defer_rather_than_vanish() {
  let options = base()
    .with_detectors(only(&[Lane::LumaHistogram, Lane::Adaptive]))
    .with_luma_histogram(histogram::Options::new().with_min_duration(Duration::from_secs(0)))
    .with_adaptive(
      adaptive::Options::new()
        .with_window_width(2)
        .with_min_duration(Duration::from_secs(0)),
    )
    .with_select(every(Duration::from_millis(100)));
  let mut det = detector(options);
  let a = Fixture::solid(120, 10, 200);
  let b = Fixture::solid(120, 138, 200);
  let c = Fixture::solid(180, 138, 200);
  let mut outputs = push_run(&mut det, &a, 0, 20, 40);
  outputs.extend(push_run(&mut det, &b, 800, 2, 40));
  outputs.extend(push_run(&mut det, &c, 880, 16, 40));
  outputs.extend(det.finalize());

  let scenes = scenes(&outputs);
  assert_eq!(
    scenes.len(),
    3,
    "both same-push boundaries survive: {:?}",
    scenes.iter().map(|s| s.range()).collect::<Vec<_>>()
  );
  assert_eq!(scenes[0].range().end().pts(), 800);
  assert_eq!(scenes[1].range().end().pts(), 880);
  assert!(scenes[0].provenance_ref().is_adaptive());
  assert!(scenes[1].provenance_ref().is_histogram());
}

#[test]
fn lagged_adaptive_provenance_carries_the_boundary_score() {
  let options = base()
    .with_detectors(only(&[Lane::Adaptive]))
    .with_adaptive(
      adaptive::Options::new()
        .with_window_width(1)
        .with_min_duration(Duration::from_secs(0)),
    )
    .with_select(every(Duration::from_millis(100)));
  let mut det = detector(options);
  let a = Fixture::solid(160, 10, 10);
  let b = Fixture::solid(60, 10, 10);

  let mut outputs = push_run(&mut det, &a, 0, 30, 40);
  outputs.extend(push_run(&mut det, &b, 1200, 8, 40));
  outputs.extend(det.finalize());

  let scenes = scenes(&outputs);
  assert_eq!(scenes.len(), 2, "the lagged cut closed");
  assert_eq!(scenes[0].range().end().pts(), 1200);
  if let Provenance::Adaptive(score) = scenes[0].provenance_ref() {
    assert!(
      f(score.score()) > 20.0,
      "the boundary score, not the quiet trailing frame's: {}",
      f(score.score())
    );
  } else {
    panic!(
      "expected an adaptive boundary: {:?}",
      scenes[0].provenance_ref()
    );
  }
}

#[test]
fn oversized_histogram_bins_are_rejected_at_construction() {
  let options = base().with_luma_histogram(
    histogram::Options::new().with_bins(usize::MAX),
  );
  let Err(err) = build(options) else {
    panic!("oversized bins must be rejected");
  };
  assert!(
    matches!(err, OptionsError::HistogramBinsTooLarge(_)),
    "{err:?}"
  );
}

#[test]
fn same_push_deferral_survives_finalize() {
  let options = base()
    .with_detectors(only(&[Lane::LumaHistogram, Lane::Adaptive]))
    .with_luma_histogram(histogram::Options::new().with_min_duration(Duration::from_secs(0)))
    .with_adaptive(
      adaptive::Options::new()
        .with_window_width(2)
        .with_min_duration(Duration::from_secs(0)),
    )
    .with_select(every(Duration::from_millis(100)));
  let mut det = detector(options);
  let a = Fixture::solid(120, 10, 200);
  let b = Fixture::solid(120, 138, 200);
  let c = Fixture::solid(180, 138, 200);

  let mut outputs = push_run(&mut det, &a, 0, 20, 40);
  outputs.extend(push_run(&mut det, &b, 800, 2, 40));
  outputs.extend(push_run(&mut det, &c, 880, 1, 40));
  outputs.extend(det.finalize());

  let scenes = scenes(&outputs);
  assert_eq!(
    scenes.len(),
    3,
    "the end-of-stream deferred boundary still closes: {:?}",
    scenes.iter().map(|s| s.range()).collect::<Vec<_>>()
  );
  assert_eq!(scenes[0].range().end().pts(), 800);
  assert_eq!(scenes[1].range().end().pts(), 880);
  assert!(scenes[1].provenance_ref().is_histogram());
  assert_eq!(scenes[2].range().end().pts(), 881);
}

#[test]
fn cutless_stream_honors_max_scene_duration() {
  let options = base()
    .with_detectors(Detectors::all())
    .with_max_scene_duration(Some(Duration::from_millis(200)))
    .with_select(every(Duration::from_millis(100)));
  let mut det = detector(options);
  let fix = Fixture::striped(40, 220, 20, 180);
  let mut outputs = push_run(&mut det, &fix, 0, 30, 33);
  outputs.extend(det.finalize());

  let scenes = scenes(&outputs);
  assert!(
    scenes.len() >= 3,
    "a 200 ms cap over ~1 s of cut-less content forces splits, got {}",
    scenes.len()
  );
  assert!(scenes[0].provenance_ref().is_max_span());
}

#[test]
fn max_scene_duration_is_honored_at_exact_cap_boundaries() {
  let options = base()
    .with_detectors(only(&[Lane::Threshold]))
    .with_select(every(Duration::from_secs(1)));
  let mut det = detector(options);
  let fix = Fixture::solid(120, 10, 10);
  let coarse = Timebase::new(1, 1);

  let mut outputs = Vec::new();
  for s in 0..=15_i64 {
    if let Some(o) = det
      .push(fix.frames(Timestamp::new(s, coarse)))
      .expect("ordered stream")
    {
      outputs.push(o);
    }
  }
  outputs.extend(det.finalize());

  let scenes = scenes(&outputs);
  assert_eq!(
    scenes.len(),
    2,
    "exact-cap split plus the one-tick residue: {:?}",
    scenes.iter().map(|s| s.range()).collect::<Vec<_>>()
  );
  assert!(scenes[0].provenance_ref().is_max_span());
  assert_eq!(scenes[0].range().end().pts(), 15);
  assert_eq!(scenes[1].range().end().pts(), 16);
}

#[test]
fn out_of_order_frames_are_rejected_without_state_damage() {
  let mut det = detector(fixture_options());
  let fix = Fixture::solid(120, 10, 10);
  let mut outputs = Vec::new();
  for ms in [0_i64, 500, 1000] {
    if let Some(o) = det.push(fix.frames(ts(ms))).expect("ordered stream") {
      outputs.push(o);
    }
  }
  assert_eq!(
    det.push(fix.frames(ts(700))).expect_err("regressing frame"),
    PushError::OutOfOrder
  );
  let _ = det.push(fix.frames(ts(1000))).expect("equal timestamp");
  outputs.extend(det.finalize());
  let scenes = scenes(&outputs);
  assert_eq!(scenes.len(), 1);
  assert_eq!(
    scenes[0].range().end().pts(),
    1001,
    "finalization still covers the latest frame: {:?}",
    scenes.iter().map(|s| s.range()).collect::<Vec<_>>()
  );
}

#[test]
fn oversized_phash_working_size_is_rejected_at_construction() {
  let options = base().with_phash(PhashOptions { size: 65_536, lowpass: 1, ..phash_options() });
  let Err(err) = build(options) else {
    panic!("oversized phash working size must be rejected");
  };
  assert!(matches!(err, OptionsError::PhashSizeTooLarge(_)), "{err:?}");
}

#[test]
fn max_pts_frame_is_rejected() {
  let mut det = detector(fixture_options());
  let fix = Fixture::solid(120, 10, 10);
  let _ = det.push(fix.frames(ts(0))).expect("ordered stream");
  assert_eq!(
    det.push(fix.frames(ts(i64::MAX))).expect_err("limit frame"),
    PushError::TimestampAtLimit
  );
  let _ = det.push(fix.frames(ts(40))).expect("stream continues");
}

#[test]
fn canonical_unrepresentable_close_is_rejected() {
  let options = base()
    .with_detectors(only(&[Lane::LumaHistogram, Lane::Content]))
    .with_select(every(Duration::from_millis(100)));
  let mut det = detector(options);
  let fix = Fixture::solid(120, 10, 10);
  let micros = Timebase::new(1, 1_000_000);
  let coarse = Timebase::new(1, 1);
  let _ = det
    .push(fix.frames(Timestamp::new(0, micros)))
    .expect("first frame sets the canonical timebase");
  assert_eq!(
    det
      .push(fix.frames(Timestamp::new(9_300_000_000_000, coarse)))
      .expect_err("unrepresentable close"),
    PushError::TimestampAtLimit
  );
  let _ = det
    .push(fix.frames(Timestamp::new(40_000, micros)))
    .expect("stream continues");
}

#[test]
fn oversized_edge_kernel_is_rejected_at_construction() {
  let hostile = content::Options::new()
    .with_weights(comps(1.0, 1.0, 1.0, 1.0))
    .with_kernel_size(Some(u32::MAX));
  let Err(err) = build(base().with_content(hostile)) else {
    panic!("oversized content kernel must be rejected");
  };
  assert!(matches!(err, OptionsError::KernelTooLarge(_)), "{err:?}");
}

#[test]
fn sparse_one_frame_windows_still_emit() {
  let options = base()
    .with_detectors(only(&[Lane::Content]))
    .with_select(every(Duration::from_secs(1)));
  let mut det = detector(options);
  let fix = Fixture::striped(40, 220, 20, 180);
  let mut outputs = Vec::new();
  for s in 0..6_i64 {
    if let Some(o) = det.push(fix.frames(ts(s * 1000))).expect("ordered") {
      outputs.push(o);
    }
  }
  outputs.extend(det.finalize());
  let kfs = keyframes(&outputs);
  assert!(
    kfs.len() >= 5,
    "each sparse one-frame window emits its frame, got {}",
    kfs.len()
  );
}

#[test]
fn lag_holdback_keeps_post_cut_frames_for_the_new_scene() {
  let options = base()
    .with_detectors(only(&[Lane::Adaptive]))
    .with_adaptive(adaptive::Options::new().with_window_width(8))
    .with_select(every(Duration::from_millis(200)));
  let mut det = detector(options);
  let red = Fixture::solid(60, 10, 200);
  let blue = Fixture::solid(180, 120, 200);
  let mut outputs = push_run(&mut det, &red, 0, 33, 40);
  outputs.extend(push_run(&mut det, &blue, 1320, 40, 40));
  outputs.extend(det.finalize());

  let scenes = scenes(&outputs);
  assert_eq!(
    scenes.len(),
    2,
    "the lagged cut splits: {:?}",
    scenes.iter().map(|s| s.range()).collect::<Vec<_>>()
  );
  let cut = scenes[0].range().end();
  let first_new = keyframes(&outputs)
    .iter()
    .map(|k| k.timestamp())
    .filter(|t| is_ge(&t, &cut))
    .min_by(order);
  assert!(
    first_new.is_some_and(|t| is_eq(&t, &cut)),
    "the new scene's leading frame is retained and sampled: cut={:?} first_new={:?}",
    cut,
    first_new
  );
}

#[test]
fn keyframes_partition_a_multi_scene_stream() {
  let mut det = detector(fixture_options());
  let a = Fixture::solid(60, 10, 200);
  let b = Fixture::solid(180, 120, 200);
  let c = Fixture::solid(110, 60, 80);
  let mut outputs = push_run(&mut det, &a, 0, 30, 40);
  outputs.extend(push_run(&mut det, &b, 1200, 30, 40));
  outputs.extend(push_run(&mut det, &c, 2400, 30, 40));
  outputs.extend(det.finalize());

  let scenes = scenes(&outputs);
  assert!(
    scenes.len() >= 3,
    "multi-scene stream: {:?}",
    scenes.iter().map(|s| s.range()).collect::<Vec<_>>()
  );
  for pair in scenes.windows(2) {
    assert!(
      is_eq(&pair[0]
        .range()
        .end(), &pair[1].range().start()),
      "scene ranges tile (adjacent): {:?} then {:?}",
      pair[0].range(),
      pair[1].range()
    );
  }
  for k in keyframes(&outputs) {
    let owners = scenes
      .iter()
      .filter(|sc| {
        is_ge(&k.timestamp(), &sc.range().start())
          && is_lt(&k.timestamp(), &sc.range().end())
      })
      .count();
    assert_eq!(
      owners,
      1,
      "keyframe {:?} owned by exactly one scene, got {}",
      k.timestamp(),
      owners
    );
  }
}

#[test]
fn adaptive_at_cut_tail_drains_per_window() {
  let options = base()
    .with_detectors(only(&[Lane::Adaptive]))
    .with_adaptive(adaptive::Options::new().with_window_width(8))
    .with_select(every(Duration::from_millis(200)));
  let mut det = detector(options);
  let red = Fixture::solid(60, 10, 200);
  let blue = Fixture::solid(180, 120, 200);
  let mut outputs = push_run(&mut det, &red, 0, 40, 40);
  outputs.extend(push_run(&mut det, &blue, 1600, 40, 40));
  outputs.extend(det.finalize());

  let scenes = scenes(&outputs);
  assert_eq!(scenes.len(), 2, "the lagged cut splits");
  let cut = scenes[0].range().end();
  let first_scene_kfs = keyframes(&outputs)
    .iter()
    .filter(|k| is_lt(&k.timestamp(), &cut))
    .count();
  assert!(
    first_scene_kfs >= 6,
    "the held-back tail drains per window (≈8), not collapsed: got {first_scene_kfs}"
  );
}

#[test]
fn sparse_timestamp_jump_keeps_push_bounded() {
  let ns = Timebase::new(1, 1_000_000_000);
  let options = base()
    .with_detectors(only(&[Lane::Content]))
    .with_max_scene_duration(None)
    .with_select(every(Duration::from_nanos(1000)));
  let mut det = detector(options);
  let fix = Fixture::striped(40, 220, 20, 180);
  let _ = det
    .push(fix.frames(Timestamp::new(0, ns)))
    .expect("ordered");
  let _ = det
    .push(fix.frames(Timestamp::new(14_000_000_000, ns)))
    .expect("ordered");
  let mut outputs = Vec::new();
  outputs.extend(det.finalize());
  let kfs = keyframes(&outputs);
  assert!(
    kfs.len() <= 64,
    "catch-up is bounded, not one finalize per empty window: {}",
    kfs.len()
  );
}

#[test]
fn finalize_surfaces_the_terminal_fade_out_cut() {
    let options = base()
        .with_detectors(only(&[Lane::Threshold]))
        .with_select(every(Duration::from_millis(100)));
    let mut det = detector(options);
    det.lane.borrow_mut().on = true;
    let bright = Fixture::solid(200, 10, 50);
    let black = Fixture::solid(3, 10, 0);

    let mut outputs = push_run(&mut det, &bright, 0, 15, 40);
    outputs.extend(push_run(&mut det, &black, 15 * 40, 10, 40));
    outputs.extend(det.finalize());

    let scenes = scenes(&outputs);
    assert_eq!(
        scenes.len(),
        2,
        "the fade-out closes one scene, the stream end the other: {scenes:?}"
    );
    assert!(
        scenes[0].provenance_ref().is_threshold(),
        "the first boundary is the terminal fade cut: {:?}",
        scenes[0].provenance_ref()
    );
    assert!(scenes[1].provenance_ref().is_finalized());
}

#[test]
fn eos_fade_inside_warm_up_is_suppressed() {
    let options = base()
        .with_detectors(only(&[Lane::Threshold]))
        .with_threshold(FadeOptions { initial_cut: false, ..fade_options() })
        .with_select(every(Duration::from_millis(100)));
    let mut det = detector(options);
    det.lane.borrow_mut().on = true;
    let bright = Fixture::solid(160, 10, 10);
    let dim = Fixture::solid(40, 10, 10);
    let black = Fixture::solid(4, 10, 10);

    let mut outputs = push_run(&mut det, &bright, 0, 10, 40);
    outputs.extend(push_run(&mut det, &dim, 400, 1, 40));
    outputs.extend(push_run(&mut det, &black, 440, 2, 40));
    outputs.extend(det.finalize());

    let scenes = scenes(&outputs);
    assert_eq!(
        scenes.len(),
        1,
        "the warm-up suppresses the EOS fade: {:?}",
        scenes.iter().map(|s| s.range()).collect::<Vec<_>>()
    );
    assert!(scenes[0].provenance_ref().is_finalized());
}

#[test]
fn lane_rescale_cannot_saturate_under_mixed_timebases() {
    let options = base()
        .with_detectors(only(&[Lane::Threshold]))
        .with_threshold(FadeOptions { min_duration: Duration::from_secs(0), ..fade_options() })
        .with_max_scene_duration(None)
        .with_select(every(Duration::from_secs(1)));
    let mut det = detector(options);
    det.lane.borrow_mut().on = true;
    let bright = Fixture::solid(160, 10, 10);
    let black = Fixture::solid(4, 10, 10);
    let coarse = Timebase::new(1, 1);
    let nanos = Timebase::new(1, 1_000_000_000);

    let mut outputs = Vec::new();
    for (fix, t) in [
        (&bright, Timestamp::new(0, coarse)),
        (&bright, Timestamp::new(1, coarse)),
        (&black, Timestamp::new(3_000_000_000, nanos)),
        (&black, Timestamp::new(4_000_000_000, nanos)),
        (&bright, Timestamp::new(9_300_000_000, coarse)),
        (&bright, Timestamp::new(9_300_000_001, coarse)),
    ] {
        if let Some(o) = det.push(fix.frames(t)).expect("ordered, representable") {
            outputs.push(o);
        }
    }
    outputs.extend(det.finalize());

    let scenes = scenes(&outputs);
    assert!(
        scenes.len() >= 2,
        "the fade closed: {:?}",
        scenes.iter().map(|s| s.range()).collect::<Vec<_>>()
    );
    let cut = scenes[0].range().end().pts();
    assert!(
        cut > 4 && cut < 9_300_000_000,
        "a finite interpolated cut, not a saturated one: {cut}"
    );
}

#[test]
fn extractor_flags_prune_expensive_metrics() {
    let options =
        fixture_options().with_extractors(Extractors::empty().with(Extractor::Colorfulness));
    let mut det = detector(options);
    let fix = Fixture::striped(40, 220, 20, 180);
    let mut outputs = push_run(&mut det, &fix, 0, 12, 33);
    outputs.extend(det.finalize());

    let kfs = keyframes(&outputs);
    assert!(!kfs.is_empty());
    let strict: Vec<_> = kfs.iter().filter(|k| k.provenance_ref().is_quality()).collect();
    assert!(!strict.is_empty(), "strictness survives without sharpness");
    for k in strict {
        if let Provenance::Quality(m) = k.provenance_ref() {
            assert_eq!(f(m.sharpness), 0.0, "disabled extractor stays zero");
        }
    }
}

#[test]
fn gate_failing_intervals_surface_fallback_keyframes() {
    let mut det = detector(fixture_options());
    let flat = Fixture::solid(120, 10, 10);
    let mut outputs = push_run(&mut det, &flat, 0, 12, 33);
    outputs.extend(det.finalize());

    let kfs = keyframes(&outputs);
    assert!(!kfs.is_empty(), "flat content still yields coverage");
    for k in &kfs {
        assert!(
            k.provenance_ref().is_fallback(),
            "flat frames can only be fallback picks: {:?}",
            k.provenance_ref()
        );
        if let Provenance::Fallback(m) = k.provenance_ref() {
            assert_eq!(f(m.sharpness), 0.0, "expensive metrics were skipped");
            assert!(f(m.brightness) > 0.0, "cheap metrics were computed");
        }
    }
}

#[test]
fn strict_keyframes_carry_full_metrics() {
    let mut det = detector(fixture_options());
    let fix = Fixture::striped(40, 220, 20, 180);
    let mut outputs = push_run(&mut det, &fix, 0, 12, 33);
    outputs.extend(det.finalize());

    let kfs = keyframes(&outputs);
    assert!(!kfs.is_empty());
    let strict: Vec<_> = kfs.iter().filter(|k| k.provenance_ref().is_quality()).collect();
    assert!(
        !strict.is_empty(),
        "textured frames pass the gates: {:?}",
        kfs[0].provenance_ref()
    );
    for k in strict {
        if let Provenance::Quality(m) = k.provenance_ref() {
            assert!(f(m.sharpness) > 0.0, "stage 4 ran for strict picks");
        }
    }
}

#[test]
fn quality_and_fallback_keyframes_can_both_occur() {
    let options = base()
        .with_detectors(only(&[Lane::Threshold]))
        .with_select(every(Duration::from_millis(200)));
    let mut det = detector(options);
    det.lane.borrow_mut().on = true;
    let sharp = Fixture::striped(150, 230, 20, 180);
    let flat = Fixture::solid(190, 10, 10);
    let mut outputs = Vec::new();
    for i in 0..40_i64 {
        let fix = if (i / 5) % 2 == 0 { &sharp } else { &flat };
        if let Some(o) = det.push(fix.frames(ts(i * 40))).expect("ordered") {
            outputs.push(o);
        }
    }
    outputs.extend(det.finalize());
    let kfs = keyframes(&outputs);
    let quality = kfs.iter().filter(|k| k.provenance_ref().is_quality()).count();
    let fallback = kfs.iter().filter(|k| k.provenance_ref().is_fallback()).count();
    assert!(
        quality >= 1 && fallback >= 1,
        "both selection paths occur: quality={quality} fallback={fallback}"
    );
}

#[test]
fn a_fade_wins_the_tie_against_other_lanes() {
    let mut det = detector(
        base()
            .with_detectors(only(&[Lane::Threshold, Lane::LumaHistogram]))
            .with_select(every(Duration::from_millis(100))),
    );
    let red = Fixture::solid(60, 10, 200);
    let blue = Fixture::solid(180, 120, 200);
    let mut outputs = push_run(&mut det, &red, 0, 30, 40);
    det.seen = Outside { fade: Some(Fired { at: ts(1200), value: r(7.5) }), phash: None };
    outputs.extend(push_run(&mut det, &blue, 1200, 1, 40));
    det.seen = Outside { fade: None, phash: None };
    outputs.extend(push_run(&mut det, &blue, 1240, 5, 40));
    outputs.extend(det.finalize());
    let s = scenes(&outputs);
    assert_eq!(s.len(), 2);
    match s[0].provenance_ref() {
        Provenance::Threshold(t) => {
            assert_eq!(f(t.mean()), 7.5);
            assert_eq!(t.floor(), 12);
        }
        p => panic!("{p:?}"),
    }
    assert_eq!(s[0].range().end_pts(), 1200);
}

#[test]
fn a_report_of_a_disabled_lane_is_ignored() {
    let mut det = detector(base().with_detectors(only(&[Lane::Content])));
    let fix = Fixture::solid(60, 10, 200);
    let fired = Fired { at: ts(80), value: r(1.0) };
    push_run(&mut det, &fix, 0, 2, 40);
    det.seen = Outside { fade: Some(fired), phash: Some(fired) };
    push_run(&mut det, &fix, 80, 1, 40);
    det.fade = Some(fired);
    assert_eq!(scenes(&det.finalize()).len(), 1);
}

#[test]
fn a_distance_report_cuts_and_an_earlier_one_defers_it() {
    let mut det = detector(
        base()
            .with_detectors(only(&[Lane::Threshold, Lane::Phash]))
            .with_threshold(FadeOptions { min_duration: Duration::from_secs(0), ..fade_options() })
            .with_phash(PhashOptions { min_duration: Duration::from_secs(0), ..phash_options() }),
    );
    let fix = Fixture::solid(60, 10, 200);
    let mut outputs = push_run(&mut det, &fix, 0, 3, 40);
    det.seen = Outside {
        fade: Some(Fired { at: ts(90), value: r(3.0) }),
        phash: Some(Fired { at: ts(120), value: r(0.5) }),
    };
    outputs.extend(push_run(&mut det, &fix, 120, 1, 40));
    det.seen = Outside { fade: None, phash: None };
    outputs.extend(push_run(&mut det, &fix, 160, 3, 40));
    outputs.extend(det.finalize());
    let s = scenes(&outputs);
    let ends: Vec<i64> = s.iter().map(|s| s.range().end_pts()).collect();
    assert_eq!(ends, vec![90, 120, 241]);
    assert!(s[0].provenance_ref().is_threshold());
    match s[1].provenance_ref() {
        Provenance::Phash(p) => assert_eq!(f(p.distance()), 0.5),
        p => panic!("{p:?}"),
    }
    assert!(s[2].provenance_ref().is_finalized());
}

#[test]
fn a_fade_at_the_end_closes_its_scene() {
    let run = |initial_cut: bool, at: i64| {
        let mut det = detector(
            base()
                .with_detectors(only(&[Lane::Threshold]))
                .with_threshold(FadeOptions { initial_cut, ..fade_options() }),
        );
        let fix = Fixture::solid(200, 10, 50);
        let mut outputs = push_run(&mut det, &fix, 0, 50, 40);
        det.fade = Some(Fired { at: ts(at), value: r(3.0) });
        outputs.extend(det.finalize());
        scenes(&outputs).iter().map(|s| s.range().end_pts()).collect::<Vec<_>>()
    };
    assert_eq!(run(true, 600), vec![600, 1961]);
    assert_eq!(run(false, 600), vec![1961]);
    assert_eq!(run(false, 1500), vec![1500, 1961]);
}

#[test]
fn a_deferred_split_is_measured_anew() {
    let mut det = detector(
        base()
            .with_detectors(only(&[Lane::Threshold]))
            .with_threshold(FadeOptions { min_duration: Duration::from_secs(0), ..fade_options() })
            .with_max_scene_duration(Some(Duration::from_millis(200))),
    );
    let fix = Fixture::solid(60, 10, 200);
    let mut outputs = push_run(&mut det, &fix, 0, 5, 40);
    det.seen = Outside { fade: Some(Fired { at: ts(190), value: r(3.0) }), phash: None };
    outputs.extend(push_run(&mut det, &fix, 200, 1, 40));
    det.seen = Outside { fade: None, phash: None };
    outputs.extend(push_run(&mut det, &fix, 240, 4, 40));
    outputs.extend(det.finalize());
    let ends: Vec<i64> = scenes(&outputs).iter().map(|s| s.range().end_pts()).collect();
    assert_eq!(ends, vec![190, 361]);
}

#[test]
fn a_full_selection_is_drained_to_the_safe_horizon() {
    let mut det = detector(
        base()
            .with_detectors(only(&[Lane::Content]))
            .with_max_scene_duration(None)
            .with_select(every(Duration::from_secs(36_000))),
    );
    det.room = 8;
    let fix = Fixture::striped(40, 220, 20, 180);
    let mut outputs = push_run(&mut det, &fix, 0, 40, 40);
    outputs.extend(det.finalize());
    let k = keyframes(&outputs);
    assert!(k.len() >= 4, "{}", k.len());
    assert_eq!(scenes(&outputs).len(), 1);
    for pair in k.windows(2) {
        assert!(is_lt(&pair[0].timestamp(), &pair[1].timestamp()));
    }
}

#[test]
fn rescaling_rounds_up() {
    let ms = Timebase::new(1, 1000);
    let s = Timebase::new(1, 1);
    assert_eq!(rescale_ceil(Timestamp::new(1, ms), s), 1);
    assert_eq!(rescale_ceil(Timestamp::new(1000, ms), s), 1);
    assert_eq!(rescale_ceil(Timestamp::new(1001, ms), s), 2);
    assert_eq!(rescale_ceil(Timestamp::new(-1, ms), s), 0);
    assert_eq!(rescale_ceil(Timestamp::new(-1001, ms), s), -1);
    assert_eq!(rescale_ceil(Timestamp::new(3, s), ms), 3000);
    assert_eq!(rescale_ceil_checked(Timestamp::new(i64::MAX, s), ms), None);
    assert_eq!(rescale_ceil(Timestamp::new(i64::MAX, s), ms), i64::MAX);
    assert_eq!(rescale_ceil(Timestamp::new(i64::MIN, s), ms), i64::MIN);
    let wide = Timebase::new(u32::MAX, 1);
    let fine = Timebase::new(1, u32::MAX);
    assert_eq!(rescale_ceil_checked(Timestamp::new(i64::MIN, wide), fine), None);
    assert_eq!(rescale_ceil_checked(Timestamp::new(i64::MAX, fine), wide), Some(1));
}

#[test]
fn consecutive_ranges_meet_and_empty_ones_are_skipped() {
    let s = Timebase::new(1, 1);
    let a = shot_range(ts(0), ts(1500), s).expect("two seconds");
    let b = shot_range(ts(1500), ts(2600), s).expect("one second");
    assert_eq!((a.start_pts(), a.end_pts()), (0, 2));
    assert_eq!((b.start_pts(), b.end_pts()), (2, 3));
    assert!(shot_range(ts(1100), ts(1900), s).is_none());
    assert!(shot_range(ts(2000), ts(1000), s).is_none());
}

#[test]
fn metrics_run_in_stages() {
    let fix = Fixture::striped(40, 220, 20, 180);
    let frames = fix.frames(ts(0));
    let all = frame_metrics(&frames, Extractors::all(), ChannelOrder::Bgr, true, |_| false);
    assert_eq!(all.cheap.luma.count, N as u64);
    assert_eq!(all.cheap.luma.sum, (40 + 220) * N as u64 / 2);
    assert_eq!(all.cheap.saturation.sum, 180 * N as u64);
    assert_eq!(all.cheap.saturation.sum_sq, 180 * 180 * N as u64);
    assert_eq!(all.cheap.clipping, Mean { sum: 0, count: N as u64 });
    let sharp = all.sharpness.expect("ran");
    assert_eq!(sharp.count, 62 * 46);
    assert_eq!(sharp.sum, 30 * 46 * 720 * 720);
    assert_eq!(all.noise.expect("ran").sum, 0);
    let blur = all.motion_blur.expect("ran").expect("edges");
    assert_eq!(blur.heaviest, blur.total);
    assert_eq!(blur.total, 30 * 46 * 720);
    assert_eq!(all.colorfulness.expect("ran").sum_rg_sq, 0);
    let held = frame_metrics(
        &frames,
        Extractors::all(),
        ChannelOrder::Bgr,
        true,
        |c: CheapMetrics| c.luma.count > 0,
    );
    assert_eq!(held.cheap, all.cheap);
    assert!(held.sharpness.is_none() && held.noise.is_none());
    assert!(held.motion_blur.is_none() && held.colorfulness.is_none());
    let one = Extractors::empty().with(Extractor::Colorfulness);
    let some = frame_metrics(&frames, one, ChannelOrder::Rgb, false, |_| false);
    assert!(some.sharpness.is_none() && some.noise.is_none() && some.motion_blur.is_none());
    assert_eq!(some.colorfulness, all.colorfulness);
}

#[test]
fn lane_sets_behave_as_sets() {
    let d = Detectors::default();
    assert!(!d.contains(Lane::HueHistogram));
    assert_eq!(d.with(Lane::HueHistogram), Detectors::all());
    assert_eq!(Detectors::all().difference(d), only(&[Lane::HueHistogram]));
    assert_eq!(d.union(only(&[Lane::HueHistogram])), Detectors::all());
    assert!(Detectors::empty().is_empty() && !d.is_empty());
    assert!(Extractors::default().contains(Extractor::Noise));
    assert_eq!(Extractors::all().without(Extractor::Noise).with(Extractor::Noise), Extractors::all());
    assert!(Extractors::empty().is_empty());
}

#[test]
fn options_keep_what_they_are_given() {
    let o = base();
    assert_eq!(o.max_scene_duration(), Some(Duration::from_secs(15)));
    assert_eq!(o.channel_order(), ChannelOrder::Bgr);
    assert_eq!(o.select_ref().target_interval, Duration::from_secs(1));
    assert_eq!(o.threshold_ref().threshold, 12);
    assert_eq!(o.phash_ref().size, 16);
    assert_eq!(o.luma_histogram_ref().bins(), 256);
    let o = o
        .with_channel_order(ChannelOrder::Rgb)
        .with_extractors(Extractors::empty())
        .with_hue_histogram(histogram::Options::new().with_bins(8))
        .with_sat_histogram(histogram::Options::new().with_bins(9))
        .with_max_scene_duration(None);
    assert_eq!(o.channel_order(), ChannelOrder::Rgb);
    assert!(o.extractors().is_empty());
    assert_eq!(o.hue_histogram_ref().bins(), 8);
    assert_eq!(o.sat_histogram_ref().bins(), 9);
    assert_eq!(o.max_scene_duration(), None);
    assert_eq!(o.content_ref().kernel_size(), None);
    assert_eq!(o.adaptive_ref().window_width(), 2);
    assert_eq!(o.detectors(), Detectors::default());
}

#[test]
fn the_selection_runs_without_margins() {
    let o = base().with_select(every(Duration::from_millis(250)));
    let s = o.selection();
    assert_eq!(s.target_interval, Duration::from_millis(250));
    assert_eq!((f(s.min_sharpness), f(s.margin_ratio)), (5.0, 0.0));
    let o = o.with_extractors(Extractors::all().without(Extractor::Sharpness));
    let s = o.selection();
    assert_eq!((f(s.min_sharpness), f(s.margin_ratio)), (-1.0, 0.0));
}

#[test]
fn options_errors_come_in_order() {
    let hue = base()
        .with_detectors(Detectors::all())
        .with_hue_histogram(histogram::Options::new().with_bins(0x1_0001));
    assert_eq!(build(hue).expect_err("bins"), OptionsError::HistogramBinsTooLarge(0x1_0001));
    assert!(build(hue.with_detectors(Detectors::default())).is_ok());
    let edges = adaptive::Options::new()
        .with_weights(comps(1.0, 1.0, 1.0, 1.0))
        .with_kernel_size(Some(257));
    assert_eq!(
        build(base().with_adaptive(edges)).expect_err("kernel"),
        OptionsError::KernelTooLarge(257)
    );
    let narrow = adaptive::Options::new().with_window_width(0);
    assert_eq!(
        build(base().with_adaptive(narrow)).expect_err("window"),
        OptionsError::Adaptive(adaptive::Error::ZeroWindowWidth)
    );
    for (w, ok) in [(30u32, true), (31, false)] {
        let o = base().with_adaptive(adaptive::Options::new().with_window_width(w));
        assert_eq!(build(o).is_ok(), ok);
    }
    let phash = base().with_phash(PhashOptions { size: 1025, lowpass: 1, ..phash_options() });
    assert_eq!(build(phash).expect_err("size"), OptionsError::PhashSizeTooLarge(1025));
}

#[test]
fn cascade_errors_carry_their_messages() {
    assert_eq!(OptionsError::NoCutLane.message(), "no lane enabled");
    assert_eq!(
        OptionsError::Content(content::Error::ZeroWeights).message(),
        "content lane rejected: all component weights are zero"
    );
    assert_eq!(
        OptionsError::Adaptive(adaptive::Error::ZeroWindowWidth).message(),
        "adaptive lane rejected: window_width must be >= 1"
    );
    assert_eq!(
        OptionsError::WindowTooWide(40).message(),
        "adaptive window_width (40) puts the lag horizon past the cap"
    );
    assert_eq!(
        OptionsError::HistogramBinsTooLarge(70_000).message(),
        "histogram bins (70000) exceeds the cap"
    );
    assert_eq!(
        OptionsError::PhashSizeTooLarge(2048).message(),
        "phash working size (2048) exceeds the cap"
    );
    assert_eq!(OptionsError::KernelTooLarge(999).message(), "edge kernel (999) exceeds the cap");
    assert_eq!(
        OptionsError::Histogram(histogram::Error::BinCountTooLarge { bins: 1 }).message(),
        "histogram lane rejected: histogram bin count (1) is too large (N_ACCUM * bins overflows usize)"
    );
    assert_eq!(
        PushError::OutOfOrder.message(),
        "frame timestamp regressed behind the stream position"
    );
    assert_eq!(
        PushError::TimestampAtLimit.message(),
        "frame timestamp not representable for scene association"
    );
    assert_eq!(
        FramesError::FrameTooLarge { pixels: 2_097_152 }.message(),
        "the views carry 2097152 pixels, past the cap"
    );
    assert_eq!(
        FramesError::DimensionMismatch.message(),
        "the rgb / luma / hsv views disagree on dimensions"
    );
    assert_eq!(
        FramesError::TimestampMismatch.message(),
        "the rgb / luma / hsv views disagree on timestamp"
    );
    assert_eq!(FramesError::ZeroDimensions.message(), "the views have zero width or height");
    assert_eq!(
        FramesError::ZeroTimebase.message(),
        "the timestamp timebase numerator is zero"
    );
    assert_eq!(HistogramPlane::Luma.as_str(), "luma");
    assert_eq!(HistogramPlane::Hue.as_str(), "hue");
    assert_eq!(HistogramPlane::Saturation.as_str(), "saturation");
}

/// A stream with cuts, two timebases and a change of size.
fn lively(det: &mut Det) -> (Vec<Event>, Vec<i64>) {
    let dark = Fixture::striped(10, 60, 20, 180);
    let light = Fixture::striped(150, 230, 120, 40);
    let mut out = vec![];
    let mut ticks = vec![];
    for i in 0..150i64 {
        let fix = if (i / 37) % 2 == 0 { &dark } else { &light };
        let at = if i % 5 == 4 {
            Timestamp::new(i * 40 * 90 + 1, Timebase::new(1, 90_000))
        } else {
            ts(i * 40)
        };
        ticks.push(rescale_ceil(at, tb()));
        out.extend(det.push(fix.frames(at)).expect("ordered"));
    }
    out.extend(det.finalize());
    (out, ticks)
}

#[test]
fn scenes_tile_a_stream() {
    let mut det = detector(
        base()
            .with_select(every(Duration::from_millis(200)))
            .with_max_scene_duration(Some(Duration::from_millis(1100))),
    );
    let (out, ticks) = lively(&mut det);
    let s = scenes(&out);
    assert!(s.len() > 4);
    assert_eq!(s[0].range().start_pts(), 0);
    assert_eq!(s[s.len() - 1].range().end_pts(), ticks[ticks.len() - 1] + 1);
    for pair in s.windows(2) {
        assert_eq!(pair[0].range().end_pts(), pair[1].range().start_pts());
    }
    for t in ticks {
        let holding = s
            .iter()
            .filter(|s| s.range().start_pts() <= t && t < s.range().end_pts())
            .count();
        assert_eq!(holding, 1);
    }
}

#[test]
fn keyframes_come_before_the_scene_that_holds_them() {
    let mut det = detector(base().with_select(every(Duration::from_millis(200))));
    let (out, _) = lively(&mut det);
    let mut told = i64::MIN;
    let mut n = 0;
    for e in out {
        match e {
            Event::Scene(s) => told = s.range().end_pts(),
            Event::Keyframe(k) => {
                assert!(k.timestamp().pts() >= told);
                n += 1;
            }
            _ => unreachable!(),
        }
    }
    assert!(n > 10);
}

#[test]
fn a_restarted_cascade_repeats_itself() {
    let mut det = detector(base().with_select(every(Duration::from_millis(200))));
    let (first, _) = lively(&mut det);
    let (again, _) = lively(&mut det);
    assert_eq!(format!("{first:?}"), format!("{again:?}"));
    push_run(&mut det, &Fixture::solid(5, 5, 5), 0, 30, 40);
    det.clear();
    let (again, _) = lively(&mut det);
    assert_eq!(format!("{first:?}"), format!("{again:?}"));
}

#[test]
fn refused_frames_change_nothing() {
    let mut det = detector(base());
    let fix = Fixture::solid(60, 10, 200);
    push_run(&mut det, &fix, 0, 10, 40);
    let before = format!("{:?}", det.inner);
    assert_eq!(det.push(fix.frames(ts(100))).expect_err("early"), PushError::OutOfOrder);
    assert_eq!(
        det.push(fix.frames(ts(i64::MAX))).expect_err("limit"),
        PushError::TimestampAtLimit
    );
    assert_eq!(before, format!("{:?}", det.inner));
    assert_eq!(det.inner.last_timestamp().map(|t| t.pts()), Some(360));
}

#[test]
fn a_refused_frame_is_handed_over_again() {
    let mut det = detector(
        base()
            .with_detectors(only(&[Lane::Content]))
            .with_max_scene_duration(None)
            .with_select(every(Duration::from_secs(36_000))),
    );
    det.room = 8;
    let fix = Fixture::striped(40, 220, 20, 180);
    push_run(&mut det, &fix, 0, 8, 40);
    assert_eq!(det.buffer.borrow().len(), 8);
    push_run(&mut det, &fix, 320, 1, 40);
    let kept: Vec<i64> = det.buffer.borrow().iter().map(|(t, _)| t.pts()).collect();
    assert_eq!(kept, vec![320]);
}

#[test]
fn outputs_never_tell_of_the_future() {
    let mut det = detector(
        base()
            .with_select(every(Duration::from_millis(200)))
            .with_max_scene_duration(Some(Duration::from_millis(1100))),
    );
    let dark = Fixture::striped(10, 60, 20, 180);
    let light = Fixture::striped(150, 230, 120, 40);
    for i in 0..150i64 {
        let fix = if (i / 37) % 2 == 0 { &dark } else { &light };
        match det.push(fix.frames(ts(i * 40))).expect("ordered") {
            Some(Event::Keyframe(k)) => assert!(k.timestamp().pts() < i * 40),
            Some(Event::Scene(s)) => assert!(s.range().end_pts() <= i * 40),
            None => {}
            _ => unreachable!(),
        }
    }
    det.clear();
    assert!(det.push(dark.frames(ts(7))).expect("first").is_none());
}

#[test]
fn keyframes_rise_and_each_lies_in_one_scene_behind_it() {
    let mut det = detector(base().with_select(every(Duration::from_millis(200))));
    let (out, _) = lively(&mut det);
    let times: Vec<i64> = keyframes(&out).iter().map(|k| k.timestamp().pts()).collect();
    assert!(times.len() > 10);
    assert!(times.windows(2).all(|w| w[0] < w[1]));
    for (i, e) in out.iter().enumerate() {
        if let Event::Keyframe(k) = e {
            let t = k.timestamp().pts();
            let holding: Vec<usize> = out
                .iter()
                .enumerate()
                .filter_map(|(j, e)| match e {
                    Event::Scene(s) if s.range().start_pts() <= t && t < s.range().end_pts() => {
                        Some(j)
                    }
                    _ => None,
                })
                .collect();
            assert_eq!(holding.len(), 1);
            assert!(holding[0] > i);
        }
    }
}

#[test]
fn a_forced_split_tells_how_long_its_scene_is() {
    let cap = Duration::from_millis(1100);
    let mut det = detector(base().with_max_scene_duration(Some(cap)));
    let (out, _) = lively(&mut det);
    let mut n = 0;
    for s in scenes(&out) {
        if let Provenance::MaxSpan(span) = s.provenance_ref() {
            n += 1;
            assert_eq!(span.cap(), cap);
            assert!(span.span().at_least(&cap));
            assert_eq!(s.range().end().duration_since(&s.range().start()), Some(span.span()));
        }
    }
    assert!(n > 0);
}

#[test]
fn outside_lanes_are_told_to_clear_with_every_stream_and_size() {
    let told = RefCell::new(vec![]);
    let mut det = build(base()).expect("valid options");
    let kit = Kit {
        correlate,
        weigh,
        average,
        outside: |_: Frames<'_>, reset: bool| {
            told.borrow_mut().push(reset);
            Outside { fade: None, phash: None }
        },
        gate: flat,
        observe: |_: Timestamp, _: StagedMetrics| true,
        select: |_: TimeRange| vec![],
    };
    let fix = Fixture::solid(60, 10, 200);
    let small = |at: Timestamp| {
        Frames::try_new(
            RgbFrame::new(&fix.rgb, 32, 24, 96, at),
            LumaFrame::new(&fix.luma, 32, 24, 32, at),
            HsvFrame::new(&fix.hue, &fix.sat, &fix.val, 32, 24, 32, at),
        )
        .expect("consistent views")
    };
    for t in 0..2 {
        det.push(fix.frames(ts(40 * t)), &kit).expect("ordered");
    }
    det.push(small(ts(80)), &kit).expect("ordered");
    det.push(small(ts(120)), &kit).expect("ordered");
    assert_eq!(det.finalize(None, kit.select).len(), 1);
    assert!(det.finalize(None, kit.select).is_empty());
    det.push(small(ts(0)), &kit).expect("a new stream");
    det.clear();
    assert!(det.finalize(None, kit.select).is_empty());
    det.push(small(ts(0)), &kit).expect("a new stream");
    det.push(small(ts(40)), &kit).expect("ordered");
    let expected = vec![true, false, true, false, true, true, false];
    assert_eq!(*told.borrow(), expected);
}

#[test]
fn a_full_selection_keeps_keyframes_before_their_scenes() {
    let mut det = detector(base().with_select(every(Duration::from_secs(36_000))));
    det.room = 8;
    let (out, _) = lively(&mut det);
    let mut told = i64::MIN;
    let mut last = i64::MIN;
    for e in out {
        match e {
            Event::Scene(s) => told = s.range().end_pts(),
            Event::Keyframe(k) => {
                let t = k.timestamp().pts();
                assert!(t >= told && t > last);
                last = t;
            }
            _ => unreachable!(),
        }
    }
    assert!(last > i64::MIN);
}
