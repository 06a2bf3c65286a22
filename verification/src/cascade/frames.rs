//! The views of one analysis frame.

use vstd::prelude::*;

use crate::frame::{HsvFrame, LumaFrame, RgbFrame};
use crate::grid::lemma_area_bound;
use crate::text::{digits, one_number};
use crate::time::{lemma_numerator_range, Relation, Timestamp};

verus! {

/// The most pixels that an analysis frame may have.
pub const MAX_FRAME_PIXELS: u64 = 0x10_0000;

/// Why views were refused as one frame.
#[derive(Debug, Clone, Copy, PartialEq, Eq, Hash, Structural)]
#[non_exhaustive]
pub enum FramesError {
    /// The views disagree on width or height.
    DimensionMismatch,
    /// The views disagree on the presentation time.
    TimestampMismatch,
    /// The views have no pixels.
    ZeroDimensions,
    /// The views have too many pixels.
    FrameTooLarge {
        /// Width times height.
        pixels: u64,
    },
    /// A timebase has numerator zero.
    ZeroTimebase,
}

impl FramesError {
    /// Whether the error is `DimensionMismatch`.
    pub fn is_dimension_mismatch(&self) -> (r: bool)
        ensures
            r == (*self is DimensionMismatch),
    {
        matches!(self, FramesError::DimensionMismatch { .. })
    }

    /// Whether the error is `TimestampMismatch`.
    pub fn is_timestamp_mismatch(&self) -> (r: bool)
        ensures
            r == (*self is TimestampMismatch),
    {
        matches!(self, FramesError::TimestampMismatch { .. })
    }

    /// Whether the error is `ZeroDimensions`.
    pub fn is_zero_dimensions(&self) -> (r: bool)
        ensures
            r == (*self is ZeroDimensions),
    {
        matches!(self, FramesError::ZeroDimensions { .. })
    }

    /// Whether the error is `FrameTooLarge`.
    pub fn is_frame_too_large(&self) -> (r: bool)
        ensures
            r == (*self is FrameTooLarge),
    {
        matches!(self, FramesError::FrameTooLarge { .. })
    }

    /// Whether the error is `ZeroTimebase`.
    pub fn is_zero_timebase(&self) -> (r: bool)
        ensures
            r == (*self is ZeroTimebase),
    {
        matches!(self, FramesError::ZeroTimebase { .. })
    }

    /// The message text of the error.
    pub open spec fn text(self) -> Seq<char> {
        match self {
            FramesError::DimensionMismatch => "the rgb / luma / hsv views disagree on dimensions"@,
            FramesError::TimestampMismatch => "the rgb / luma / hsv views disagree on timestamp"@,
            FramesError::ZeroDimensions => "the views have zero width or height"@,
            FramesError::FrameTooLarge { pixels } => "the views carry "@ + digits(pixels as nat)
                + " pixels, past the cap"@,
            FramesError::ZeroTimebase => "the timestamp timebase numerator is zero"@,
        }
    }

    /// The message text of the error.
    pub fn message(&self) -> (s: String)
        ensures
            s@ == self.text(),
    {
        match *self {
            FramesError::DimensionMismatch =>
            "the rgb / luma / hsv views disagree on dimensions".to_owned(),
            FramesError::TimestampMismatch =>
            "the rgb / luma / hsv views disagree on timestamp".to_owned(),
            FramesError::ZeroDimensions => "the views have zero width or height".to_owned(),
            FramesError::FrameTooLarge { pixels } => one_number(
                "the views carry ",
                pixels,
                " pixels, past the cap",
            ),
            FramesError::ZeroTimebase => "the timestamp timebase numerator is zero".to_owned(),
        }
    }
}

/// Why these views are refused as one frame, if they are.
pub open spec fn frames_fault(
    rgb: RgbFrame<'_>,
    luma: LumaFrame<'_>,
    hsv: HsvFrame<'_>,
) -> Option<FramesError> {
    let w = rgb.columns();
    let h = rgb.rows();
    if w == 0 || h == 0 {
        Some(FramesError::ZeroDimensions)
    } else if w * h > MAX_FRAME_PIXELS {
        Some(FramesError::FrameTooLarge { pixels: (w * h) as u64 })
    } else if rgb.time().base().numerator() == 0 || luma.time().base().numerator() == 0
        || hsv.time().base().numerator() == 0 {
        Some(FramesError::ZeroTimebase)
    } else if luma.columns() != w || luma.rows() != h || hsv.columns() != w || hsv.rows() != h {
        Some(FramesError::DimensionMismatch)
    } else if rgb.time().relation(luma.time()) != Relation::Same || rgb.time().relation(hsv.time())
        != Relation::Same {
        Some(FramesError::TimestampMismatch)
    } else {
        None
    }
}

/// The packed, luma and hue-saturation-value views of one analysis frame. They
/// share dimensions and presentation time.
#[derive(Debug, Clone, Copy)]
pub struct Frames<'a> {
    rgb: RgbFrame<'a>,
    luma: LumaFrame<'a>,
    hsv: HsvFrame<'a>,
}

impl<'a> Frames<'a> {
    /// The views fit together.
    #[verifier::type_invariant]
    pub closed spec fn normal(self) -> bool {
        frames_fault(self.rgb, self.luma, self.hsv) is None
    }

    /// The packed view.
    pub closed spec fn rgb_view(self) -> RgbFrame<'a> {
        self.rgb
    }

    /// The luma view.
    pub closed spec fn luma_view(self) -> LumaFrame<'a> {
        self.luma
    }

    /// The hue-saturation-value view.
    pub closed spec fn hsv_view(self) -> HsvFrame<'a> {
        self.hsv
    }

    /// The presentation time.
    pub open spec fn time(self) -> Timestamp {
        self.rgb_view().time()
    }

    /// What holds of every frame.
    pub open spec fn valid(self) -> bool {
        &&& frames_fault(self.rgb_view(), self.luma_view(), self.hsv_view()) is None
        &&& self.luma_view().columns() == self.rgb_view().columns()
        &&& self.luma_view().rows() == self.rgb_view().rows()
        &&& self.hsv_view().columns() == self.rgb_view().columns()
        &&& self.hsv_view().rows() == self.rgb_view().rows()
        &&& 0 < self.rgb_view().columns() * self.rgb_view().rows() <= MAX_FRAME_PIXELS
        &&& self.time().base().numerator() > 0
    }

    /// The views as one frame, or the reason why they are none.
    pub fn try_new(rgb: RgbFrame<'a>, luma: LumaFrame<'a>, hsv: HsvFrame<'a>) -> (r: Result<
        Frames<'a>,
        FramesError,
    >)
        ensures
            match r {
                Ok(f) => {
                    &&& frames_fault(rgb, luma, hsv) is None
                    &&& f.rgb_view() == rgb
                    &&& f.luma_view() == luma
                    &&& f.hsv_view() == hsv
                    &&& f.valid()
                },
                Err(e) => frames_fault(rgb, luma, hsv) == Some(e),
            },
    {
        let w: u32 = rgb.width();
        let h: u32 = rgb.height();
        if w == 0 || h == 0 {
            return Err(FramesError::ZeroDimensions);
        }
        proof {
            lemma_area_bound(w, h);
            lemma_area_positive(w, h);
        }
        let pixels: u64 = w as u64 * h as u64;
        if pixels > MAX_FRAME_PIXELS {
            return Err(FramesError::FrameTooLarge { pixels });
        }
        let at: Timestamp = rgb.timestamp();
        let luma_at: Timestamp = luma.timestamp();
        let hsv_at: Timestamp = hsv.timestamp();
        if at.timebase().num() == 0 || luma_at.timebase().num() == 0 || hsv_at.timebase().num()
            == 0 {
            return Err(FramesError::ZeroTimebase);
        }
        if luma.width() != w || luma.height() != h || hsv.width() != w || hsv.height() != h {
            return Err(FramesError::DimensionMismatch);
        }
        if at.relate(&luma_at) != Relation::Same || at.relate(&hsv_at) != Relation::Same {
            return Err(FramesError::TimestampMismatch);
        }
        Ok(Frames { rgb, luma, hsv })
    }

    /// The packed view.
    pub fn rgb(&self) -> (f: RgbFrame<'a>)
        ensures
            f == self.rgb_view(),
            self.valid(),
    {
        proof {
            use_type_invariant(*self);
            lemma_area_positive(self.rgb.columns(), self.rgb.rows());
            lemma_numerator_range(self.rgb.time().base());
        }
        self.rgb
    }

    /// The luma view.
    pub fn luma(&self) -> (f: LumaFrame<'a>)
        ensures
            f == self.luma_view(),
            self.valid(),
    {
        proof {
            use_type_invariant(*self);
            lemma_area_positive(self.rgb.columns(), self.rgb.rows());
            lemma_numerator_range(self.rgb.time().base());
        }
        self.luma
    }

    /// The hue-saturation-value view.
    pub fn hsv(&self) -> (f: HsvFrame<'a>)
        ensures
            f == self.hsv_view(),
            self.valid(),
    {
        proof {
            use_type_invariant(*self);
            lemma_area_positive(self.rgb.columns(), self.rgb.rows());
            lemma_numerator_range(self.rgb.time().base());
        }
        self.hsv
    }

    /// The presentation time.
    pub fn timestamp(&self) -> (ts: Timestamp)
        ensures
            ts == self.time(),
            self.valid(),
    {
        proof {
            use_type_invariant(*self);
            lemma_area_positive(self.rgb.columns(), self.rgb.rows());
            lemma_numerator_range(self.rgb.time().base());
        }
        self.rgb.timestamp()
    }

    /// The same views at another presentation time.
    pub fn with_canonical_timestamp(&self, ts: Timestamp) -> (f: Frames<'a>)
        requires
            ts.base().numerator() > 0,
        ensures
            f.valid(),
            f.restamps(*self, ts),
    {
        proof {
            use_type_invariant(*self);
            lemma_area_positive(self.rgb.columns(), self.rgb.rows());
        }
        Frames {
            rgb: self.rgb.restamped(ts),
            luma: self.luma.restamped(ts),
            hsv: self.hsv.restamped(ts),
        }
    }

    /// These are the views of `other`, all at the time `ts`.
    pub open spec fn restamps(self, other: Frames<'_>, ts: Timestamp) -> bool {
        &&& self.rgb_view().time() == ts
        &&& self.luma_view().time() == ts
        &&& self.hsv_view().time() == ts
        &&& self.rgb_view().bytes() == other.rgb_view().bytes()
        &&& self.rgb_view().columns() == other.rgb_view().columns()
        &&& self.rgb_view().rows() == other.rgb_view().rows()
        &&& self.rgb_view().pitch() == other.rgb_view().pitch()
        &&& self.luma_view().bytes() == other.luma_view().bytes()
        &&& self.luma_view().columns() == other.luma_view().columns()
        &&& self.luma_view().rows() == other.luma_view().rows()
        &&& self.luma_view().pitch() == other.luma_view().pitch()
        &&& self.hsv_view().hue_bytes() == other.hsv_view().hue_bytes()
        &&& self.hsv_view().saturation_bytes() == other.hsv_view().saturation_bytes()
        &&& self.hsv_view().value_bytes() == other.hsv_view().value_bytes()
        &&& self.hsv_view().columns() == other.hsv_view().columns()
        &&& self.hsv_view().rows() == other.hsv_view().rows()
        &&& self.hsv_view().pitch() == other.hsv_view().pitch()
    }
}

/// A frame with a width and a height has pixels.
proof fn lemma_area_positive(w: u32, h: u32)
    requires
        w > 0,
        h > 0,
    ensures
        w * h > 0,
{
    assert(w * h > 0) by (nonlinear_arith)
        requires
            w > 0,
            h > 0,
    ;
}

/// A plane of the hue-saturation-value view as a luma frame.
pub fn plane_as_luma<'a>(plane: &'a [u8], hsv: HsvFrame<'a>, ts: Timestamp) -> (f: LumaFrame<'a>)
    requires
        hsv.valid(),
        hsv.pitch() * hsv.rows() <= plane.len(),
    ensures
        f.bytes() == plane@,
        f.columns() == hsv.columns(),
        f.rows() == hsv.rows(),
        f.pitch() == hsv.pitch(),
        f.time() == ts,
{
    LumaFrame::new(plane, hsv.width(), hsv.height(), hsv.stride(), ts)
}

/// The views of a frame are accepted just where they show the same picture at the same time:
/// all of one size, with at least one pixel and no more than the cap, at one instant, on
/// timebases that move.
pub proof fn views_are_refused_for_cause(rgb: RgbFrame<'_>, luma: LumaFrame<'_>, hsv: HsvFrame<'_>)
    ensures
        frames_fault(rgb, luma, hsv) is None <==> {
            &&& rgb.columns() > 0 && rgb.rows() > 0
            &&& rgb.columns() * rgb.rows() <= MAX_FRAME_PIXELS
            &&& luma.columns() == rgb.columns() && luma.rows() == rgb.rows()
            &&& hsv.columns() == rgb.columns() && hsv.rows() == rgb.rows()
            &&& rgb.time().base().numerator() != 0
            &&& luma.time().base().numerator() != 0
            &&& hsv.time().base().numerator() != 0
            &&& rgb.time().relation(luma.time()) == Relation::Same
            &&& rgb.time().relation(hsv.time()) == Relation::Same
        },
        frames_fault(rgb, luma, hsv) == Some(FramesError::ZeroDimensions) <==> rgb.columns() == 0
            || rgb.rows() == 0,
        frames_fault(rgb, luma, hsv) == Some(FramesError::TimestampMismatch) ==> rgb.time().relation(
            luma.time(),
        ) != Relation::Same || rgb.time().relation(hsv.time()) != Relation::Same,
        frames_fault(rgb, luma, hsv) == Some(FramesError::DimensionMismatch) ==> luma.columns()
            != rgb.columns() || luma.rows() != rgb.rows() || hsv.columns() != rgb.columns()
            || hsv.rows() != rgb.rows(),
{
}

/// A frame that is given another time keeps its pixels and its size, in every view.
pub proof fn a_new_time_keeps_the_picture(f: Frames<'_>, of: Frames<'_>, ts: Timestamp)
    requires
        f.restamps(of, ts),
    ensures
        f.time() == ts,
        f.rgb_view().bytes() == of.rgb_view().bytes(),
        f.rgb_view().pitch() == of.rgb_view().pitch(),
        f.luma_view().time() == ts,
        f.luma_view().bytes() == of.luma_view().bytes(),
        f.luma_view().columns() == of.luma_view().columns(),
        f.luma_view().rows() == of.luma_view().rows(),
        f.luma_view().pitch() == of.luma_view().pitch(),
        f.hsv_view().time() == ts,
        f.hsv_view().hue_bytes() == of.hsv_view().hue_bytes(),
        f.hsv_view().saturation_bytes() == of.hsv_view().saturation_bytes(),
        f.hsv_view().value_bytes() == of.hsv_view().value_bytes(),
        f.hsv_view().columns() == of.hsv_view().columns(),
        f.hsv_view().rows() == of.hsv_view().rows(),
        f.hsv_view().pitch() == of.hsv_view().pitch(),
{
}

} // verus!
