//! Which cut lanes and which keyframe metrics run.

use vstd::prelude::*;

verus! {

/// A cut lane.
#[derive(Debug, Clone, Copy, PartialEq, Eq, Hash, Structural)]
pub enum Lane {
    /// The mean-luma fade lane.
    Threshold,
    /// The luma-plane histogram lane.
    LumaHistogram,
    /// The hue-plane histogram lane.
    HueHistogram,
    /// The saturation-plane histogram lane.
    SaturationHistogram,
    /// The perceptual-hash lane.
    Phash,
    /// The content lane.
    Content,
    /// The adaptive lane; its verdicts lag by the window width.
    Adaptive,
}

/// A set of cut lanes. Every lane in it runs on every frame and cuts directly.
#[derive(Debug, Clone, Copy, PartialEq, Eq, Hash, Structural)]
pub struct Detectors {
    /// The mean-luma fade lane.
    pub threshold: bool,
    /// The luma-plane histogram lane.
    pub luma_histogram: bool,
    /// The hue-plane histogram lane.
    pub hue_histogram: bool,
    /// The saturation-plane histogram lane.
    pub saturation_histogram: bool,
    /// The perceptual-hash lane.
    pub phash: bool,
    /// The content lane.
    pub content: bool,
    /// The adaptive lane; its verdicts lag by the window width.
    pub adaptive: bool,
}

impl Detectors {
    /// Whether the lane is in the set.
    pub open spec fn has(self, item: Lane) -> bool {
        match item {
            Lane::Threshold => self.threshold,
            Lane::LumaHistogram => self.luma_histogram,
            Lane::HueHistogram => self.hue_histogram,
            Lane::SaturationHistogram => self.saturation_histogram,
            Lane::Phash => self.phash,
            Lane::Content => self.content,
            Lane::Adaptive => self.adaptive,
        }
    }

    /// The empty set.
    pub fn empty() -> (s: Detectors)
        ensures
            forall|i: Lane| !#[trigger] s.has(i),
    {
        Detectors {
            threshold: false,
            luma_histogram: false,
            hue_histogram: false,
            saturation_histogram: false,
            phash: false,
            content: false,
            adaptive: false,
        }
    }

    /// The set of everything.
    pub fn all() -> (s: Detectors)
        ensures
            forall|i: Lane| #[trigger] s.has(i),
    {
        Detectors {
            threshold: true,
            luma_histogram: true,
            hue_histogram: true,
            saturation_histogram: true,
            phash: true,
            content: true,
            adaptive: true,
        }
    }

    /// Whether the lane is in the set.
    pub fn contains(&self, item: Lane) -> (r: bool)
        ensures
            r == self.has(item),
    {
        match item {
            Lane::Threshold => self.threshold,
            Lane::LumaHistogram => self.luma_histogram,
            Lane::HueHistogram => self.hue_histogram,
            Lane::SaturationHistogram => self.saturation_histogram,
            Lane::Phash => self.phash,
            Lane::Content => self.content,
            Lane::Adaptive => self.adaptive,
        }
    }

    /// Whether nothing is in the set.
    pub fn is_empty(&self) -> (r: bool)
        ensures
            r == (forall|i: Lane| !#[trigger] self.has(i)),
    {
        let histogram: bool = self.luma_histogram || self.hue_histogram || self.saturation_histogram;
        let any: bool = self.threshold || histogram || self.phash || self.content || self.adaptive;
        proof {
            assert(self.has(Lane::Threshold) == self.threshold);
            assert(self.has(Lane::LumaHistogram) == self.luma_histogram);
            assert(self.has(Lane::HueHistogram) == self.hue_histogram);
            assert(self.has(Lane::SaturationHistogram) == self.saturation_histogram);
            assert(self.has(Lane::Phash) == self.phash);
            assert(self.has(Lane::Content) == self.content);
            assert(self.has(Lane::Adaptive) == self.adaptive);
            if !any {
                assert forall|i: Lane| !#[trigger] self.has(i) by {}
            }
        }
        !any
    }

    /// The set with the lane in it.
    pub fn with(self, item: Lane) -> (s: Detectors)
        ensures
            forall|i: Lane| #[trigger] s.has(i) == (self.has(i) || i == item),
    {
        match item {
            Lane::Threshold => Detectors { threshold: true, ..self },
            Lane::LumaHistogram => Detectors { luma_histogram: true, ..self },
            Lane::HueHistogram => Detectors { hue_histogram: true, ..self },
            Lane::SaturationHistogram => Detectors { saturation_histogram: true, ..self },
            Lane::Phash => Detectors { phash: true, ..self },
            Lane::Content => Detectors { content: true, ..self },
            Lane::Adaptive => Detectors { adaptive: true, ..self },
        }
    }

    /// The set without the lane.
    pub fn without(self, item: Lane) -> (s: Detectors)
        ensures
            forall|i: Lane| #[trigger] s.has(i) == (self.has(i) && i != item),
    {
        match item {
            Lane::Threshold => Detectors { threshold: false, ..self },
            Lane::LumaHistogram => Detectors { luma_histogram: false, ..self },
            Lane::HueHistogram => Detectors { hue_histogram: false, ..self },
            Lane::SaturationHistogram => Detectors { saturation_histogram: false, ..self },
            Lane::Phash => Detectors { phash: false, ..self },
            Lane::Content => Detectors { content: false, ..self },
            Lane::Adaptive => Detectors { adaptive: false, ..self },
        }
    }

    /// The set of what is in either set.
    pub fn union(self, other: Detectors) -> (s: Detectors)
        ensures
            forall|i: Lane| #[trigger] s.has(i) == (self.has(i) || other.has(i)),
    {
        Detectors {
            threshold: self.threshold || other.threshold,
            luma_histogram: self.luma_histogram || other.luma_histogram,
            hue_histogram: self.hue_histogram || other.hue_histogram,
            saturation_histogram: self.saturation_histogram || other.saturation_histogram,
            phash: self.phash || other.phash,
            content: self.content || other.content,
            adaptive: self.adaptive || other.adaptive,
        }
    }

    /// The set of what is in this set and not in the other.
    pub fn difference(self, other: Detectors) -> (s: Detectors)
        ensures
            forall|i: Lane| #[trigger] s.has(i) == (self.has(i) && !other.has(i)),
    {
        Detectors {
            threshold: self.threshold && !other.threshold,
            luma_histogram: self.luma_histogram && !other.luma_histogram,
            hue_histogram: self.hue_histogram && !other.hue_histogram,
            saturation_histogram: self.saturation_histogram && !other.saturation_histogram,
            phash: self.phash && !other.phash,
            content: self.content && !other.content,
            adaptive: self.adaptive && !other.adaptive,
        }
    }
}

impl Default for Detectors {
    /// Every lane except the hue-plane histogram.
    fn default() -> (s: Detectors)
        ensures
            forall|i: Lane| #[trigger] s.has(i) == (i != Lane::HueHistogram),
    {
        Detectors::all().without(Lane::HueHistogram)
    }
}

/// An expensive keyframe metric.
#[derive(Debug, Clone, Copy, PartialEq, Eq, Hash, Structural)]
pub enum Extractor {
    /// Tenengrad sharpness.
    Sharpness,
    /// Noise estimate.
    Noise,
    /// Directional-gradient motion blur.
    MotionBlur,
    /// Colorfulness.
    Colorfulness,
}

/// A set of expensive keyframe metrics. They run for the frames that pass the
/// cheap gates.
#[derive(Debug, Clone, Copy, PartialEq, Eq, Hash, Structural)]
pub struct Extractors {
    /// Tenengrad sharpness.
    pub sharpness: bool,
    /// Noise estimate.
    pub noise: bool,
    /// Directional-gradient motion blur.
    pub motion_blur: bool,
    /// Colorfulness.
    pub colorfulness: bool,
}

impl Extractors {
    /// Whether the metric is in the set.
    pub open spec fn has(self, item: Extractor) -> bool {
        match item {
            Extractor::Sharpness => self.sharpness,
            Extractor::Noise => self.noise,
            Extractor::MotionBlur => self.motion_blur,
            Extractor::Colorfulness => self.colorfulness,
        }
    }

    /// The empty set.
    pub fn empty() -> (s: Extractors)
        ensures
            forall|i: Extractor| !#[trigger] s.has(i),
    {
        Extractors {
            sharpness: false,
            noise: false,
            motion_blur: false,
            colorfulness: false,
        }
    }

    /// The set of everything.
    pub fn all() -> (s: Extractors)
        ensures
            forall|i: Extractor| #[trigger] s.has(i),
    {
        Extractors {
            sharpness: true,
            noise: true,
            motion_blur: true,
            colorfulness: true,
        }
    }

    /// Whether the metric is in the set.
    pub fn contains(&self, item: Extractor) -> (r: bool)
        ensures
            r == self.has(item),
    {
        match item {
            Extractor::Sharpness => self.sharpness,
            Extractor::Noise => self.noise,
            Extractor::MotionBlur => self.motion_blur,
            Extractor::Colorfulness => self.colorfulness,
        }
    }

    /// Whether nothing is in the set.
    pub fn is_empty(&self) -> (r: bool)
        ensures
            r == (forall|i: Extractor| !#[trigger] self.has(i)),
    {
        let any: bool = self.sharpness || self.noise || self.motion_blur || self.colorfulness;
        proof {
            assert(self.has(Extractor::Sharpness) == self.sharpness);
            assert(self.has(Extractor::Noise) == self.noise);
            assert(self.has(Extractor::MotionBlur) == self.motion_blur);
            assert(self.has(Extractor::Colorfulness) == self.colorfulness);
            if !any {
                assert forall|i: Extractor| !#[trigger] self.has(i) by {}
            }
        }
        !any
    }

    /// The set with the metric in it.
    pub fn with(self, item: Extractor) -> (s: Extractors)
        ensures
            forall|i: Extractor| #[trigger] s.has(i) == (self.has(i) || i == item),
    {
        match item {
            Extractor::Sharpness => Extractors { sharpness: true, ..self },
            Extractor::Noise => Extractors { noise: true, ..self },
            Extractor::MotionBlur => Extractors { motion_blur: true, ..self },
            Extractor::Colorfulness => Extractors { colorfulness: true, ..self },
        }
    }

    /// The set without the metric.
    pub fn without(self, item: Extractor) -> (s: Extractors)
        ensures
            forall|i: Extractor| #[trigger] s.has(i) == (self.has(i) && i != item),
    {
        match item {
            Extractor::Sharpness => Extractors { sharpness: false, ..self },
            Extractor::Noise => Extractors { noise: false, ..self },
            Extractor::MotionBlur => Extractors { motion_blur: false, ..self },
            Extractor::Colorfulness => Extractors { colorfulness: false, ..self },
        }
    }

    /// The set of what is in either set.
    pub fn union(self, other: Extractors) -> (s: Extractors)
        ensures
            forall|i: Extractor| #[trigger] s.has(i) == (self.has(i) || other.has(i)),
    {
        Extractors {
            sharpness: self.sharpness || other.sharpness,
            noise: self.noise || other.noise,
            motion_blur: self.motion_blur || other.motion_blur,
            colorfulness: self.colorfulness || other.colorfulness,
        }
    }

    /// The set of what is in this set and not in the other.
    pub fn difference(self, other: Extractors) -> (s: Extractors)
        ensures
            forall|i: Extractor| #[trigger] s.has(i) == (self.has(i) && !other.has(i)),
    {
        Extractors {
            sharpness: self.sharpness && !other.sharpness,
            noise: self.noise && !other.noise,
            motion_blur: self.motion_blur && !other.motion_blur,
            colorfulness: self.colorfulness && !other.colorfulness,
        }
    }
}

impl Default for Extractors {
    /// Every metric.
    fn default() -> (s: Extractors)
        ensures
            forall|i: Extractor| #[trigger] s.has(i),
    {
        Extractors::all()
    }
}

/// A set of lanes has just the lanes whose switch is on, each by its own.
pub proof fn every_lane_has_its_switch(s: Detectors)
    ensures
        s.has(Lane::Threshold) == s.threshold,
        s.has(Lane::LumaHistogram) == s.luma_histogram,
        s.has(Lane::HueHistogram) == s.hue_histogram,
        s.has(Lane::SaturationHistogram) == s.saturation_histogram,
        s.has(Lane::Phash) == s.phash,
        s.has(Lane::Content) == s.content,
        s.has(Lane::Adaptive) == s.adaptive,
{
}

/// A set of metrics has just the metrics whose switch is on, each by its own.
pub proof fn every_metric_has_its_switch(s: Extractors)
    ensures
        s.has(Extractor::Sharpness) == s.sharpness,
        s.has(Extractor::Noise) == s.noise,
        s.has(Extractor::MotionBlur) == s.motion_blur,
        s.has(Extractor::Colorfulness) == s.colorfulness,
{
}

} // verus!
