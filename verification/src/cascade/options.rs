//! Configuration of the cascade.

use vstd::prelude::*;
use vstd::string::*;

use crate::adaptive;
use crate::cascade::flags::{Detectors, Extractors, Lane};
use crate::content;
use crate::frame::ChannelOrder;
use crate::histogram;
use crate::number::Real;
use crate::text::{digits, one_number};
use crate::time::Duration;

verus! {

/// How many frames past its window an adaptive verdict may come.
pub const RING_SLACK: u64 = 2;

/// The most frames that a cut may lag behind the current one.
pub const MAX_RING: u64 = 64;

/// The most bins that a histogram lane may have.
pub const MAX_HISTOGRAM_BINS: usize = 0x1_0000;

/// The largest working size of the perceptual-hash lane.
pub const MAX_PHASH_IMSIZE: u64 = 0x400;

/// The largest explicit dilation kernel of a lane that looks at edges.
pub const MAX_EDGE_KERNEL: u32 = 0x100;

/// Seconds that a shot may run by default.
pub const DEFAULT_MAX_SCENE_SECS: u64 = 15;

/// Configuration of the fade lane, as far as the timeline needs it.
#[derive(Debug, Clone, Copy)]
pub struct FadeOptions {
    /// Mean luma that a fade crosses.
    pub threshold: u8,
    /// Minimum duration of a scene.
    pub min_duration: Duration,
    /// Whether the first fade may be a cut at once.
    pub initial_cut: bool,
}

/// Configuration of the perceptual-hash lane, as far as the timeline needs it.
#[derive(Debug, Clone, Copy)]
pub struct PhashOptions {
    /// Side of the hash.
    pub size: u32,
    /// Factor of the low-pass filter.
    pub lowpass: u32,
    /// Minimum duration of a scene.
    pub min_duration: Duration,
    /// Whether the first distance may be a cut at once.
    pub initial_cut: bool,
}

/// The keyframe policy, as far as the timeline needs it.
#[derive(Debug, Clone, Copy)]
pub struct SelectOptions {
    /// Length of the window that each yields a keyframe.
    pub target_interval: Duration,
    /// The least sharpness of a keyframe that passes every gate.
    pub min_sharpness: Real,
    /// The share of a shot at either end that yields no keyframe.
    pub margin_ratio: Real,
}

/// The bits of the number minus one.
pub const MINUS_ONE: u64 = 0xbff0_0000_0000_0000;

/// Configuration of the cascade.
#[derive(Debug, Clone, Copy)]
pub struct Options {
    /// The lanes that run.
    pub detectors: Detectors,
    /// The expensive keyframe metrics that run.
    pub extractors: Extractors,
    /// The fade lane.
    pub threshold: FadeOptions,
    /// The luma-plane histogram lane.
    pub luma_histogram: histogram::Options,
    /// The hue-plane histogram lane.
    pub hue_histogram: histogram::Options,
    /// The saturation-plane histogram lane.
    pub sat_histogram: histogram::Options,
    /// The perceptual-hash lane.
    pub phash: PhashOptions,
    /// The content lane.
    pub content: content::Options,
    /// The adaptive lane.
    pub adaptive: adaptive::Options,
    /// The keyframe policy.
    pub select: SelectOptions,
    /// The longest that a shot may run.
    pub max_scene_duration: Option<Duration>,
    /// The byte order of the packed view.
    pub channel_order: ChannelOrder,
}

impl Options {
    /// The default configuration around these lanes and this keyframe policy.
    pub open spec fn standard(
        self,
        threshold: FadeOptions,
        phash: PhashOptions,
        select: SelectOptions,
    ) -> bool {
        &&& forall|i: Lane| #[trigger] self.detectors.has(i) == (i != Lane::HueHistogram)
        &&& self.extractors == (Extractors {
            sharpness: true,
            noise: true,
            motion_blur: true,
            colorfulness: true,
        })
        &&& self.threshold == threshold
        &&& self.luma_histogram.standard()
        &&& self.hue_histogram.standard()
        &&& self.sat_histogram.standard()
        &&& self.phash == phash
        &&& self.content.standard()
        &&& self.adaptive.standard()
        &&& self.select.target_interval.total() == 1_000_000_000
        &&& self.select.min_sharpness == select.min_sharpness
        &&& self.select.margin_ratio == select.margin_ratio
        &&& self.max_scene_duration matches Some(d) && d.total() == 15_000_000_000
        &&& self.channel_order == ChannelOrder::Bgr
    }

    /// The default configuration around these lanes and this keyframe policy:
    /// every lane but the hue histogram at its defaults, every metric, a window of
    /// one second, and shots of at most 15 seconds.
    pub fn new(threshold: FadeOptions, phash: PhashOptions, select: SelectOptions) -> (o: Options)
        ensures
            o.standard(threshold, phash, select),
    {
        Options {
            detectors: Detectors::default(),
            extractors: Extractors {
                sharpness: true,
                noise: true,
                motion_blur: true,
                colorfulness: true,
            },
            threshold,
            luma_histogram: histogram::Options::new(),
            hue_histogram: histogram::Options::new(),
            sat_histogram: histogram::Options::new(),
            phash,
            content: content::Options::new(),
            adaptive: adaptive::Options::new(),
            select: SelectOptions { target_interval: Duration::from_secs(1), ..select },
            max_scene_duration: Some(Duration::from_secs(DEFAULT_MAX_SCENE_SECS)),
            channel_order: ChannelOrder::Bgr,
        }
    }

    /// The lanes that run.
    pub fn detectors(&self) -> (v: Detectors)
        ensures
            v == self.detectors,
    {
        self.detectors
    }

    /// The same with another value for the lanes that run.
    #[must_use]
    pub fn with_detectors(self, v: Detectors) -> (r: Options)
        ensures
            r == (Options { detectors: v, ..self }),
    {
        Options { detectors: v, ..self }
    }

    /// The expensive keyframe metrics that run.
    pub fn extractors(&self) -> (v: Extractors)
        ensures
            v == self.extractors,
    {
        self.extractors
    }

    /// The same with another value for the expensive keyframe metrics that run.
    #[must_use]
    pub fn with_extractors(self, v: Extractors) -> (r: Options)
        ensures
            r == (Options { extractors: v, ..self }),
    {
        Options { extractors: v, ..self }
    }

    /// The fade lane.
    pub fn threshold_ref(&self) -> (v: &FadeOptions)
        ensures
            *v == self.threshold,
    {
        &self.threshold
    }

    /// The same with another value for the fade lane.
    #[must_use]
    pub fn with_threshold(self, v: FadeOptions) -> (r: Options)
        ensures
            r == (Options { threshold: v, ..self }),
    {
        Options { threshold: v, ..self }
    }

    /// The luma-plane histogram lane.
    pub fn luma_histogram_ref(&self) -> (v: &histogram::Options)
        ensures
            *v == self.luma_histogram,
    {
        &self.luma_histogram
    }

    /// The same with another value for the luma-plane histogram lane.
    #[must_use]
    pub fn with_luma_histogram(self, v: histogram::Options) -> (r: Options)
        ensures
            r == (Options { luma_histogram: v, ..self }),
    {
        Options { luma_histogram: v, ..self }
    }

    /// The hue-plane histogram lane.
    pub fn hue_histogram_ref(&self) -> (v: &histogram::Options)
        ensures
            *v == self.hue_histogram,
    {
        &self.hue_histogram
    }

    /// The same with another value for the hue-plane histogram lane.
    #[must_use]
    pub fn with_hue_histogram(self, v: histogram::Options) -> (r: Options)
        ensures
            r == (Options { hue_histogram: v, ..self }),
    {
        Options { hue_histogram: v, ..self }
    }

    /// The saturation-plane histogram lane.
    pub fn sat_histogram_ref(&self) -> (v: &histogram::Options)
        ensures
            *v == self.sat_histogram,
    {
        &self.sat_histogram
    }

    /// The same with another value for the saturation-plane histogram lane.
    #[must_use]
    pub fn with_sat_histogram(self, v: histogram::Options) -> (r: Options)
        ensures
            r == (Options { sat_histogram: v, ..self }),
    {
        Options { sat_histogram: v, ..self }
    }

    /// The perceptual-hash lane.
    pub fn phash_ref(&self) -> (v: &PhashOptions)
        ensures
            *v == self.phash,
    {
        &self.phash
    }

    /// The same with another value for the perceptual-hash lane.
    #[must_use]
    pub fn with_phash(self, v: PhashOptions) -> (r: Options)
        ensures
            r == (Options { phash: v, ..self }),
    {
        Options { phash: v, ..self }
    }

    /// The content lane.
    pub fn content_ref(&self) -> (v: &content::Options)
        ensures
            *v == self.content,
    {
        &self.content
    }

    /// The same with another value for the content lane.
    #[must_use]
    pub fn with_content(self, v: content::Options) -> (r: Options)
        ensures
            r == (Options { content: v, ..self }),
    {
        Options { content: v, ..self }
    }

    /// The adaptive lane.
    pub fn adaptive_ref(&self) -> (v: &adaptive::Options)
        ensures
            *v == self.adaptive,
    {
        &self.adaptive
    }

    /// The same with another value for the adaptive lane.
    #[must_use]
    pub fn with_adaptive(self, v: adaptive::Options) -> (r: Options)
        ensures
            r == (Options { adaptive: v, ..self }),
    {
        Options { adaptive: v, ..self }
    }

    /// The keyframe policy.
    pub fn select_ref(&self) -> (v: &SelectOptions)
        ensures
            *v == self.select,
    {
        &self.select
    }

    /// The same with another value for the keyframe policy.
    #[must_use]
    pub fn with_select(self, v: SelectOptions) -> (r: Options)
        ensures
            r == (Options { select: v, ..self }),
    {
        Options { select: v, ..self }
    }

    /// The policy that the keyframe selection runs with. A window is no shot, so it
    /// has no margins; and where sharpness is not measured, no sharpness is asked
    /// for.
    pub open spec fn selection_policy(self) -> SelectOptions {
        SelectOptions {
            target_interval: self.select.target_interval,
            min_sharpness: if self.extractors.sharpness {
                self.select.min_sharpness
            } else {
                Real { bits: MINUS_ONE }
            },
            margin_ratio: Real { bits: 0 },
        }
    }

    /// The policy that the keyframe selection runs with.
    pub fn selection(&self) -> (v: SelectOptions)
        ensures
            v == self.selection_policy(),
    {
        let min_sharpness: Real = if self.extractors.sharpness {
            self.select.min_sharpness
        } else {
            Real::from_bits(MINUS_ONE)
        };
        SelectOptions { min_sharpness, margin_ratio: Real::from_bits(0), ..self.select }
    }

    /// The longest that a shot may run.
    pub fn max_scene_duration(&self) -> (v: Option<Duration>)
        ensures
            v == self.max_scene_duration,
    {
        self.max_scene_duration
    }

    /// The same with another value for the longest that a shot may run.
    #[must_use]
    pub fn with_max_scene_duration(self, v: Option<Duration>) -> (r: Options)
        ensures
            r == (Options { max_scene_duration: v, ..self }),
    {
        Options { max_scene_duration: v, ..self }
    }

    /// The byte order of the packed view.
    pub fn channel_order(&self) -> (v: ChannelOrder)
        ensures
            v == self.channel_order,
    {
        self.channel_order
    }

    /// The same with another value for the byte order of the packed view.
    #[must_use]
    pub fn with_channel_order(self, v: ChannelOrder) -> (r: Options)
        ensures
            r == (Options { channel_order: v, ..self }),
    {
        Options { channel_order: v, ..self }
    }
}

/// A histogram lane without a minimum duration of its own: the timeline keeps cuts
/// apart.
pub fn signal_lane(options: histogram::Options) -> (r: histogram::Options)
    ensures
        r == (histogram::Options { min_duration: Duration::of_nanos(0), ..options }),
        r.min_duration.total() == 0,
{
    options.with_min_duration(Duration::from_secs(0))
}

/// Why a cascade was refused.
#[derive(Debug, Clone, Copy, PartialEq, Eq, Structural)]
#[non_exhaustive]
pub enum OptionsError {
    /// No lane runs.
    NoCutLane,
    /// The options of the adaptive lane are invalid.
    Adaptive(adaptive::Error),
    /// The options of the content lane are invalid.
    Content(content::Error),
    /// The options of a histogram lane are invalid.
    Histogram(histogram::Error),
    /// The adaptive window puts the lag past the cap.
    WindowTooWide(u32),
    /// A histogram lane has too many bins.
    HistogramBinsTooLarge(usize),
    /// The working size of the perceptual-hash lane is too large.
    PhashSizeTooLarge(u64),
    /// The dilation kernel of a lane that looks at edges is too large.
    KernelTooLarge(u32),
}

impl OptionsError {
    /// Whether the error is `NoCutLane`.
    pub fn is_no_cut_lane(&self) -> (r: bool)
        ensures
            r == (*self is NoCutLane),
    {
        matches!(self, OptionsError::NoCutLane { .. })
    }

    /// Whether the error is `Adaptive`.
    pub fn is_adaptive(&self) -> (r: bool)
        ensures
            r == (*self is Adaptive),
    {
        matches!(self, OptionsError::Adaptive { .. })
    }

    /// Whether the error is `Content`.
    pub fn is_content(&self) -> (r: bool)
        ensures
            r == (*self is Content),
    {
        matches!(self, OptionsError::Content { .. })
    }

    /// Whether the error is `Histogram`.
    pub fn is_histogram(&self) -> (r: bool)
        ensures
            r == (*self is Histogram),
    {
        matches!(self, OptionsError::Histogram { .. })
    }

    /// Whether the error is `WindowTooWide`.
    pub fn is_window_too_wide(&self) -> (r: bool)
        ensures
            r == (*self is WindowTooWide),
    {
        matches!(self, OptionsError::WindowTooWide { .. })
    }

    /// Whether the error is `HistogramBinsTooLarge`.
    pub fn is_histogram_bins_too_large(&self) -> (r: bool)
        ensures
            r == (*self is HistogramBinsTooLarge),
    {
        matches!(self, OptionsError::HistogramBinsTooLarge { .. })
    }

    /// Whether the error is `PhashSizeTooLarge`.
    pub fn is_phash_size_too_large(&self) -> (r: bool)
        ensures
            r == (*self is PhashSizeTooLarge),
    {
        matches!(self, OptionsError::PhashSizeTooLarge { .. })
    }

    /// Whether the error is `KernelTooLarge`.
    pub fn is_kernel_too_large(&self) -> (r: bool)
        ensures
            r == (*self is KernelTooLarge),
    {
        matches!(self, OptionsError::KernelTooLarge { .. })
    }

    /// The message text of the error.
    pub open spec fn text(self) -> Seq<char> {
        match self {
            OptionsError::NoCutLane => "no lane enabled"@,
            OptionsError::Adaptive(e) => "adaptive lane rejected: "@ + e.text(),
            OptionsError::Content(e) => "content lane rejected: "@ + e.text(),
            OptionsError::Histogram(e) => "histogram lane rejected: "@ + e.text(),
            OptionsError::WindowTooWide(w) => "adaptive window_width ("@ + digits(w as nat)
                + ") puts the lag horizon past the cap"@,
            OptionsError::HistogramBinsTooLarge(n) => "histogram bins ("@ + digits(n as nat)
                + ") exceeds the cap"@,
            OptionsError::PhashSizeTooLarge(n) => "phash working size ("@ + digits(n as nat)
                + ") exceeds the cap"@,
            OptionsError::KernelTooLarge(k) => "edge kernel ("@ + digits(k as nat)
                + ") exceeds the cap"@,
        }
    }

    /// The message text of the error.
    pub fn message(&self) -> (s: String)
        ensures
            s@ == self.text(),
    {
        match *self {
            OptionsError::NoCutLane => "no lane enabled".to_owned(),
            OptionsError::Adaptive(e) => {
                let mut s = String::from_str("adaptive lane rejected: ");
                s.append(e.message().as_str());
                s
            },
            OptionsError::Content(e) => {
                let mut s = String::from_str("content lane rejected: ");
                s.append(e.message().as_str());
                s
            },
            OptionsError::Histogram(e) => {
                let mut s = String::from_str("histogram lane rejected: ");
                s.append(e.message().as_str());
                s
            },
            OptionsError::WindowTooWide(w) => one_number(
                "adaptive window_width (",
                w as u64,
                ") puts the lag horizon past the cap",
            ),
            OptionsError::HistogramBinsTooLarge(n) => one_number(
                "histogram bins (",
                n as u64,
                ") exceeds the cap",
            ),
            OptionsError::PhashSizeTooLarge(n) => one_number(
                "phash working size (",
                n,
                ") exceeds the cap",
            ),
            OptionsError::KernelTooLarge(k) => one_number(
                "edge kernel (",
                k as u64,
                ") exceeds the cap",
            ),
        }
    }
}

/// A lane looks at edges with an explicit kernel above the cap.
pub open spec fn kernel_too_large(weights: content::Components, kernel: Option<u32>) -> bool {
    !weights.delta_edges.zero() && (kernel matches Some(k) && k > MAX_EDGE_KERNEL)
}

/// Frames that a cut may lag behind the current one: the adaptive window and some
/// slack, or none without the adaptive lane.
pub open spec fn lag_of(o: Options) -> int {
    if o.detectors.adaptive {
        2 * o.adaptive.window_width + 1 + RING_SLACK
    } else {
        0
    }
}

/// Why these options are refused, if they are.
pub open spec fn options_fault(o: Options) -> Option<OptionsError> {
    let lanes = o.detectors;
    if forall|i: Lane| !#[trigger] lanes.has(i) {
        Some(OptionsError::NoCutLane)
    } else if lanes.content && kernel_too_large(o.content.weights, o.content.kernel_size) {
        Some(OptionsError::KernelTooLarge(o.content.kernel_size->0))
    } else if lanes.adaptive && kernel_too_large(o.adaptive.weights, o.adaptive.kernel_size) {
        Some(OptionsError::KernelTooLarge(o.adaptive.kernel_size->0))
    } else if lanes.phash && o.phash.size * o.phash.lowpass > MAX_PHASH_IMSIZE {
        Some(OptionsError::PhashSizeTooLarge((o.phash.size * o.phash.lowpass) as u64))
    } else if lanes.luma_histogram && o.luma_histogram.bins > MAX_HISTOGRAM_BINS {
        Some(OptionsError::HistogramBinsTooLarge(o.luma_histogram.bins))
    } else if lanes.hue_histogram && o.hue_histogram.bins > MAX_HISTOGRAM_BINS {
        Some(OptionsError::HistogramBinsTooLarge(o.hue_histogram.bins))
    } else if lanes.saturation_histogram && o.sat_histogram.bins > MAX_HISTOGRAM_BINS {
        Some(OptionsError::HistogramBinsTooLarge(o.sat_histogram.bins))
    } else if lanes.adaptive && adaptive::options_fault(o.adaptive) is Some {
        Some(OptionsError::Adaptive(adaptive::options_fault(o.adaptive)->0))
    } else if lanes.content && content::options_fault(o.content) is Some {
        Some(OptionsError::Content(content::options_fault(o.content)->0))
    } else if lag_of(o) > MAX_RING {
        Some(OptionsError::WindowTooWide(o.adaptive.window_width))
    } else {
        None
    }
}

/// The number of bins of every histogram lane is not zero.
pub open spec fn bins_positive(o: Options) -> bool {
    o.luma_histogram.bins > 0 && o.hue_histogram.bins > 0 && o.sat_histogram.bins > 0
}

/// Checks the options as a whole, and those of the lanes that run.
pub fn validate(o: &Options) -> (r: Result<(), OptionsError>)
    ensures
        match r {
            Ok(_) => options_fault(*o) is None,
            Err(e) => options_fault(*o) == Some(e),
        },
{
    let lanes: Detectors = o.detectors;
    if lanes.is_empty() {
        return Err(OptionsError::NoCutLane);
    }
    if lanes.content && !o.content.weights.delta_edges.is_zero() {
        if let Some(k) = o.content.kernel_size {
            if k > MAX_EDGE_KERNEL {
                return Err(OptionsError::KernelTooLarge(k));
            }
        }
    }
    if lanes.adaptive && !o.adaptive.weights.delta_edges.is_zero() {
        if let Some(k) = o.adaptive.kernel_size {
            if k > MAX_EDGE_KERNEL {
                return Err(OptionsError::KernelTooLarge(k));
            }
        }
    }
    if lanes.phash {
        proof {
            crate::grid::lemma_area_bound(o.phash.size, o.phash.lowpass);
        }
        let imsize: u64 = o.phash.size as u64 * o.phash.lowpass as u64;
        if imsize > MAX_PHASH_IMSIZE {
            return Err(OptionsError::PhashSizeTooLarge(imsize));
        }
    }
    if lanes.luma_histogram && o.luma_histogram.bins > MAX_HISTOGRAM_BINS {
        return Err(OptionsError::HistogramBinsTooLarge(o.luma_histogram.bins));
    }
    if lanes.hue_histogram && o.hue_histogram.bins > MAX_HISTOGRAM_BINS {
        return Err(OptionsError::HistogramBinsTooLarge(o.hue_histogram.bins));
    }
    if lanes.saturation_histogram && o.sat_histogram.bins > MAX_HISTOGRAM_BINS {
        return Err(OptionsError::HistogramBinsTooLarge(o.sat_histogram.bins));
    }
    if lanes.adaptive {
        if let Err(e) = adaptive::Detector::try_new(o.adaptive) {
            return Err(OptionsError::Adaptive(e));
        }
    }
    if lanes.content {
        if let Err(e) = content::Detector::try_new(o.content) {
            return Err(OptionsError::Content(e));
        }
    }
    if lanes.adaptive && 2 * o.adaptive.window_width as u64 + 1 + RING_SLACK > MAX_RING {
        return Err(OptionsError::WindowTooWide(o.adaptive.window_width));
    }
    Ok(())
}

/// Why a frame was refused.
#[derive(Debug, Clone, Copy, PartialEq, Eq, Structural)]
#[non_exhaustive]
pub enum PushError {
    /// The frame lies before the position of the stream.
    OutOfOrder,
    /// The frame lies at the limit of what timestamps can express, so that no scene
    /// could end after it.
    TimestampAtLimit,
}

impl PushError {
    /// Whether the error is `OutOfOrder`.
    pub fn is_out_of_order(&self) -> (r: bool)
        ensures
            r == (*self is OutOfOrder),
    {
        matches!(self, PushError::OutOfOrder { .. })
    }

    /// Whether the error is `TimestampAtLimit`.
    pub fn is_timestamp_at_limit(&self) -> (r: bool)
        ensures
            r == (*self is TimestampAtLimit),
    {
        matches!(self, PushError::TimestampAtLimit { .. })
    }

    /// The message text of the error.
    pub open spec fn text(self) -> Seq<char> {
        match self {
            PushError::OutOfOrder => "frame timestamp regressed behind the stream position"@,
            PushError::TimestampAtLimit =>
            "frame timestamp not representable for scene association"@,
        }
    }

    /// The message text of the error.
    pub fn message(&self) -> (s: String)
        ensures
            s@ == self.text(),
    {
        match *self {
            PushError::OutOfOrder =>
            "frame timestamp regressed behind the stream position".to_owned(),
            PushError::TimestampAtLimit =>
            "frame timestamp not representable for scene association".to_owned(),
        }
    }
}

/// The keyframe selection runs with the interval of the configuration, without margins; and
/// with its least sharpness, or with one that every frame reaches where none is measured.
pub proof fn selection_asks_for_what_is_measured(o: Options)
    ensures
        ({
            let p = o.selection_policy();
            &&& p.target_interval == o.select.target_interval
            &&& p.margin_ratio.zero()
            &&& o.extractors.sharpness ==> p.min_sharpness == o.select.min_sharpness
            &&& !o.extractors.sharpness ==> forall|r: Real|
                !r.is_nan() && r.bits < 0x8000_0000_0000_0000 ==> #[trigger] r.ge(p.min_sharpness)
        }),
{
}

} // verus!
