//! What the cascade reports: scenes and keyframes, and what they rest on.

use vstd::prelude::*;

use crate::content::Components;
use crate::number::Real;
use crate::time::{Duration, TimeRange, Timestamp};

verus! {

/// Which plane a histogram lane watches.
#[derive(Debug, Clone, Copy, PartialEq, Eq, Hash, Structural)]
#[non_exhaustive]
pub enum HistogramPlane {
    /// The luma plane.
    Luma,
    /// The hue plane.
    Hue,
    /// The saturation plane.
    Saturation,
}

impl HistogramPlane {
    /// Whether the plane is `Luma`.
    pub fn is_luma(&self) -> (r: bool)
        ensures
            r == (*self is Luma),
    {
        matches!(self, HistogramPlane::Luma { .. })
    }

    /// Whether the plane is `Hue`.
    pub fn is_hue(&self) -> (r: bool)
        ensures
            r == (*self is Hue),
    {
        matches!(self, HistogramPlane::Hue { .. })
    }

    /// Whether the plane is `Saturation`.
    pub fn is_saturation(&self) -> (r: bool)
        ensures
            r == (*self is Saturation),
    {
        matches!(self, HistogramPlane::Saturation { .. })
    }

    /// The name of the plane.
    pub open spec fn text(self) -> Seq<char> {
        match self {
            HistogramPlane::Luma => "luma"@,
            HistogramPlane::Hue => "hue"@,
            HistogramPlane::Saturation => "saturation"@,
        }
    }

    /// The name of the plane.
    pub fn as_str(&self) -> (s: &'static str)
        ensures
            s@ == self.text(),
    {
        match self {
            HistogramPlane::Luma => "luma",
            HistogramPlane::Hue => "hue",
            HistogramPlane::Saturation => "saturation",
        }
    }
}

/// What a cut of a histogram lane rests on.
#[derive(Debug, Clone, Copy, PartialEq)]
pub struct HistogramScore {
    /// Which plane shifted.
    pub plane: HistogramPlane,
    /// The correlation of the two histograms.
    pub correlation: Real,
}

impl HistogramScore {
    /// Which plane shifted.
    pub fn plane(&self) -> (v: HistogramPlane)
        ensures
            v == self.plane,
    {
        self.plane
    }

    /// The correlation of the two histograms.
    pub fn correlation(&self) -> (v: Real)
        ensures
            v == self.correlation,
    {
        self.correlation
    }
}

/// What a cut of the perceptual-hash lane rests on.
#[derive(Debug, Clone, Copy, PartialEq)]
pub struct PhashScore {
    /// The normalized Hamming distance.
    pub distance: Real,
}

impl PhashScore {
    /// The normalized Hamming distance.
    pub fn distance(&self) -> (v: Real)
        ensures
            v == self.distance,
    {
        self.distance
    }
}

/// What a cut of the fade lane rests on.
#[derive(Debug, Clone, Copy, PartialEq)]
pub struct ThresholdScore {
    /// Mean luma of the frame that fired the lane.
    pub mean: Real,
    /// The fade threshold it crossed.
    pub floor: u8,
}

impl ThresholdScore {
    /// Mean luma of the frame that fired the lane.
    pub fn mean(&self) -> (v: Real)
        ensures
            v == self.mean,
    {
        self.mean
    }

    /// The fade threshold it crossed.
    pub fn floor(&self) -> (v: u8)
        ensures
            v == self.floor,
    {
        self.floor
    }
}

/// What a cut of the content lane rests on.
#[derive(Debug, Clone, Copy, PartialEq)]
pub struct ContentScore {
    /// The weighted score.
    pub score: Real,
    /// The threshold it reached.
    pub threshold: Real,
    /// The mean change of each component.
    pub components: Components,
}

impl ContentScore {
    /// The weighted score.
    pub fn score(&self) -> (v: Real)
        ensures
            v == self.score,
    {
        self.score
    }

    /// The threshold it reached.
    pub fn threshold(&self) -> (v: Real)
        ensures
            v == self.threshold,
    {
        self.threshold
    }

    /// The mean change of each component.
    pub fn components(&self) -> (v: Components)
        ensures
            v == self.components,
    {
        self.components
    }
}

/// What a cut of the adaptive lane rests on.
#[derive(Debug, Clone, Copy, PartialEq)]
pub struct AdaptiveScore {
    /// The ratio of the score to the local average.
    pub ratio: Real,
    /// The score of the frame at the cut.
    pub score: Real,
}

impl AdaptiveScore {
    /// The ratio of the score to the local average.
    pub fn ratio(&self) -> (v: Real)
        ensures
            v == self.ratio,
    {
        self.ratio
    }

    /// The score of the frame at the cut.
    pub fn score(&self) -> (v: Real)
        ensures
            v == self.score,
    {
        self.score
    }
}

/// What a forced split rests on.
#[derive(Debug, Clone, Copy, PartialEq, Eq, Structural)]
pub struct SpanScore {
    /// How long the shot had run.
    pub span: Duration,
    /// The longest that a shot may run.
    pub cap: Duration,
}

impl SpanScore {
    /// How long the shot had run.
    pub fn span(&self) -> (v: Duration)
        ensures
            v == self.span,
    {
        self.span
    }

    /// The longest that a shot may run.
    pub fn cap(&self) -> (v: Duration)
        ensures
            v == self.cap,
    {
        self.cap
    }
}

/// The quality metrics of a frame. One that was not computed is zero.
#[derive(Debug, Clone, Copy, PartialEq)]
pub struct FrameMetrics {
    /// Mean luma.
    pub brightness: Real,
    /// Variance of luma.
    pub luma_variance: Real,
    /// Variance of saturation.
    pub saturation_variance: Real,
    /// Share of crushed and blown-out pixels.
    pub clipping: Real,
    /// Sharpness.
    pub sharpness: Real,
    /// Noise.
    pub noise: Real,
    /// Motion blur.
    pub motion_blur: Real,
    /// Colorfulness.
    pub colorfulness: Real,
}

/// What produced an output, with the numbers that it rests on.
#[derive(Debug, Clone, Copy, PartialEq)]
#[non_exhaustive]
pub enum Provenance {
    /// The fade lane cut.
    Threshold(ThresholdScore),
    /// A histogram lane cut.
    Histogram(HistogramScore),
    /// The perceptual-hash lane cut.
    Phash(PhashScore),
    /// The content lane cut.
    Content(ContentScore),
    /// The adaptive lane cut.
    Adaptive(AdaptiveScore),
    /// No lane cut for as long as a shot may run.
    MaxSpan(SpanScore),
    /// The stream ended.
    Finalized,
    /// A keyframe that passed every quality gate.
    Quality(FrameMetrics),
    /// A keyframe of a window in which no frame passed the gates.
    Fallback(FrameMetrics),
}

impl Provenance {
    /// Whether the provenance is `Threshold`.
    pub fn is_threshold(&self) -> (r: bool)
        ensures
            r == (*self is Threshold),
    {
        matches!(self, Provenance::Threshold { .. })
    }

    /// Whether the provenance is `Histogram`.
    pub fn is_histogram(&self) -> (r: bool)
        ensures
            r == (*self is Histogram),
    {
        matches!(self, Provenance::Histogram { .. })
    }

    /// Whether the provenance is `Phash`.
    pub fn is_phash(&self) -> (r: bool)
        ensures
            r == (*self is Phash),
    {
        matches!(self, Provenance::Phash { .. })
    }

    /// Whether the provenance is `Content`.
    pub fn is_content(&self) -> (r: bool)
        ensures
            r == (*self is Content),
    {
        matches!(self, Provenance::Content { .. })
    }

    /// Whether the provenance is `Adaptive`.
    pub fn is_adaptive(&self) -> (r: bool)
        ensures
            r == (*self is Adaptive),
    {
        matches!(self, Provenance::Adaptive { .. })
    }

    /// Whether the provenance is `MaxSpan`.
    pub fn is_max_span(&self) -> (r: bool)
        ensures
            r == (*self is MaxSpan),
    {
        matches!(self, Provenance::MaxSpan { .. })
    }

    /// Whether the provenance is `Finalized`.
    pub fn is_finalized(&self) -> (r: bool)
        ensures
            r == (*self is Finalized),
    {
        matches!(self, Provenance::Finalized { .. })
    }

    /// Whether the provenance is `Quality`.
    pub fn is_quality(&self) -> (r: bool)
        ensures
            r == (*self is Quality),
    {
        matches!(self, Provenance::Quality { .. })
    }

    /// Whether the provenance is `Fallback`.
    pub fn is_fallback(&self) -> (r: bool)
        ensures
            r == (*self is Fallback),
    {
        matches!(self, Provenance::Fallback { .. })
    }
}

/// A selected keyframe.
#[derive(Debug, Clone, Copy, PartialEq)]
pub struct KeyframeEvent {
    /// Time of the selected frame.
    pub ts: Timestamp,
    /// How it was selected.
    pub provenance: Provenance,
}

impl KeyframeEvent {
    /// Time of the selected frame.
    pub fn timestamp(&self) -> (ts: Timestamp)
        ensures
            ts == self.ts,
    {
        self.ts
    }

    /// How the frame was selected.
    pub fn provenance_ref(&self) -> (p: &Provenance)
        ensures
            *p == self.provenance,
    {
        &self.provenance
    }

    /// Time and way of the selection.
    pub fn into_parts(self) -> (r: (Timestamp, Provenance))
        ensures
            r == (self.ts, self.provenance),
    {
        (self.ts, self.provenance)
    }
}

/// A closed shot.
#[derive(Debug, Clone, Copy, PartialEq)]
pub struct SceneEvent {
    /// The half-open range of the shot.
    pub range: TimeRange,
    /// What closed it.
    pub provenance: Provenance,
}

impl SceneEvent {
    /// The half-open range of the shot.
    pub fn range(&self) -> (r: TimeRange)
        ensures
            r == self.range,
    {
        self.range
    }

    /// What closed the shot.
    pub fn provenance_ref(&self) -> (p: &Provenance)
        ensures
            *p == self.provenance,
    {
        &self.provenance
    }

    /// Range and end of the shot.
    pub fn into_parts(self) -> (r: (TimeRange, Provenance))
        ensures
            r == (self.range, self.provenance),
    {
        (self.range, self.provenance)
    }
}

/// One output of the cascade.
#[derive(Debug, Clone, Copy, PartialEq)]
#[non_exhaustive]
pub enum Event {
    /// A selected keyframe.
    Keyframe(KeyframeEvent),
    /// A closed shot.
    Scene(SceneEvent),
}

impl Event {
    /// Whether the output is a keyframe.
    pub fn is_keyframe(&self) -> (r: bool)
        ensures
            r == (*self is Keyframe),
    {
        match self {
            Event::Keyframe(_) => true,
            Event::Scene(_) => false,
        }
    }

    /// Whether the output is a scene.
    pub fn is_scene(&self) -> (r: bool)
        ensures
            r == (*self is Scene),
    {
        match self {
            Event::Keyframe(_) => false,
            Event::Scene(_) => true,
        }
    }
}

} // verus!
