//! Frame types handed to the detectors.
//!
//! A frame borrows its samples and is valid by construction: its rows and its
//! buffer are large enough for its dimensions.

use vstd::prelude::*;
use vstd::string::*;

pub use crate::time::{TimeRange, Timebase, Timestamp};

use crate::text::{digits, one_number, push_decimal, two_numbers};

pub mod convert;

verus! {

/// The byte order of a packed three-byte-per-pixel color frame.
#[derive(Debug, Clone, Copy, PartialEq, Eq, Structural)]
pub enum ChannelOrder {
    /// First byte blue, second green, third red.
    Bgr,
    /// First byte red, second green, third blue.
    Rgb,
}

impl Default for ChannelOrder {
    /// Blue first.
    fn default() -> (r: ChannelOrder)
        ensures
            r == ChannelOrder::Bgr,
    {
        ChannelOrder::Bgr
    }
}

/// The message on a buffer of `stride` times `height` bytes that no `usize` can
/// count.
pub open spec fn overflow_text(stride: u32, height: u32) -> Seq<char> {
    "frame dimensions overflow usize: stride ("@ + digits(stride as nat) + ") * height ("@ + digits(
        height as nat,
    ) + ")"@
}

/// The message on a stride below the width.
pub open spec fn stride_text(stride: u32, width: u32) -> Seq<char> {
    "stride ("@ + digits(stride as nat) + ") is smaller than width ("@ + digits(width as nat)
        + ")"@
}

/// The message on a buffer of `actual` bytes where `expected` are needed.
pub open spec fn short_text(actual: usize, expected: usize) -> Seq<char> {
    "data length "@ + digits(actual as nat) + " is less than required "@ + digits(expected as nat)
        + " bytes"@
}

/// Why a luma frame was refused.
#[derive(Debug, Clone, Copy, PartialEq, Eq, Hash, Structural)]
#[non_exhaustive]
pub enum LumaFrameError {
    /// A row of pixels does not fit in the stride.
    StrideTooSmall {
        /// The frame width in pixels.
        width: u32,
        /// The provided stride in bytes.
        stride: u32,
    },
    /// The buffer is shorter than `stride * height`.
    DataTooShort {
        /// Minimum required byte length.
        expected: usize,
        /// Actual byte length.
        actual: usize,
    },
    /// `stride * height` does not fit in `usize`.
    DimensionsOverflow {
        /// The stride in bytes.
        stride: u32,
        /// The frame height in pixels.
        height: u32,
    },
}

impl LumaFrameError {
    /// Whether the error is `StrideTooSmall`.
    pub fn is_stride_too_small(&self) -> (r: bool)
        ensures
            r == (*self is StrideTooSmall),
    {
        matches!(self, LumaFrameError::StrideTooSmall { .. })
    }

    /// Whether the error is `DataTooShort`.
    pub fn is_data_too_short(&self) -> (r: bool)
        ensures
            r == (*self is DataTooShort),
    {
        matches!(self, LumaFrameError::DataTooShort { .. })
    }

    /// Whether the error is `DimensionsOverflow`.
    pub fn is_dimensions_overflow(&self) -> (r: bool)
        ensures
            r == (*self is DimensionsOverflow),
    {
        matches!(self, LumaFrameError::DimensionsOverflow { .. })
    }

    /// The message text of the error.
    pub open spec fn text(self) -> Seq<char> {
        match self {
            LumaFrameError::StrideTooSmall { width, stride } => stride_text(stride, width),
            LumaFrameError::DataTooShort { expected, actual } => short_text(actual, expected),
            LumaFrameError::DimensionsOverflow { stride, height } => overflow_text(stride, height),
        }
    }

    /// The message text of the error.
    pub fn message(&self) -> (s: String)
        ensures
            s@ == self.text(),
    {
        match *self {
            LumaFrameError::StrideTooSmall { width, stride } => stride_message(stride, width),
            LumaFrameError::DataTooShort { expected, actual } => short_message(actual, expected),
            LumaFrameError::DimensionsOverflow { stride, height } => overflow_message(
                stride,
                height,
            ),
        }
    }
}

/// Renders the message on a stride below the width.
fn stride_message(stride: u32, width: u32) -> (s: String)
    ensures
        s@ == stride_text(stride, width),
{
    two_numbers("stride (", stride as u64, ") is smaller than width (", width as u64, ")")
}

/// Renders the message on a short buffer.
fn short_message(actual: usize, expected: usize) -> (s: String)
    ensures
        s@ == short_text(actual, expected),
{
    two_numbers("data length ", actual as u64, " is less than required ", expected as u64, " bytes")
}

/// Renders the message on dimensions that overflow.
fn overflow_message(stride: u32, height: u32) -> (s: String)
    ensures
        s@ == overflow_text(stride, height),
{
    two_numbers(
        "frame dimensions overflow usize: stride (",
        stride as u64,
        ") * height (",
        height as u64,
        ")",
    )
}

/// Why a luma frame of these dimensions over `len` bytes is refused, if it is.
pub open spec fn luma_frame_fault(len: nat, width: u32, height: u32, stride: u32) -> Option<
    LumaFrameError,
> {
    if stride < width {
        Some(LumaFrameError::StrideTooSmall { width, stride })
    } else if stride * height > usize::MAX {
        Some(LumaFrameError::DimensionsOverflow { stride, height })
    } else if len < stride * height {
        Some(
            LumaFrameError::DataTooShort {
                expected: (stride * height) as usize,
                actual: len as usize,
            },
        )
    } else {
        None
    }
}

/// A frame of luma samples. Row `y` starts at byte `y * stride`; the first
/// `width` bytes of a row carry pixels.
#[derive(Debug, Clone, Copy)]
pub struct LumaFrame<'a> {
    data: &'a [u8],
    width: u32,
    height: u32,
    stride: u32,
    timestamp: Timestamp,
}

impl<'a> LumaFrame<'a> {
    /// Rows and buffer are large enough.
    #[verifier::type_invariant]
    pub closed spec fn normal(self) -> bool {
        self.width <= self.stride && self.stride * self.height <= self.data@.len()
    }

    /// What holds of every luma frame.
    pub open spec fn valid(self) -> bool {
        self.columns() <= self.pitch() && self.pitch() * self.rows() <= self.bytes().len()
    }

    /// The samples.
    pub closed spec fn bytes(self) -> Seq<u8> {
        self.data@
    }

    /// The width in pixels.
    pub closed spec fn columns(self) -> u32 {
        self.width
    }

    /// The height in pixels.
    pub closed spec fn rows(self) -> u32 {
        self.height
    }

    /// The stride in bytes.
    pub closed spec fn pitch(self) -> u32 {
        self.stride
    }

    /// The presentation time.
    pub closed spec fn time(self) -> Timestamp {
        self.timestamp
    }

    /// A luma frame over `data`.
    pub fn new(
        data: &'a [u8],
        width: u32,
        height: u32,
        stride: u32,
        timestamp: Timestamp,
    ) -> (f: LumaFrame<'a>)
        requires
            luma_frame_fault(data@.len(), width, height, stride) is None,
        ensures
            f.bytes() == data@,
            f.columns() == width,
            f.rows() == height,
            f.pitch() == stride,
            f.time() == timestamp,
            f.valid(),
    {
        LumaFrame { data, width, height, stride, timestamp }
    }

    /// A luma frame over `data`, or the reason why there is none.
    pub fn try_new(
        data: &'a [u8],
        width: u32,
        height: u32,
        stride: u32,
        timestamp: Timestamp,
    ) -> (r: Result<LumaFrame<'a>, LumaFrameError>)
        ensures
            match r {
                Ok(f) => {
                    &&& luma_frame_fault(data@.len(), width, height, stride) is None
                    &&& f.bytes() == data@
                    &&& f.columns() == width
                    &&& f.rows() == height
                    &&& f.pitch() == stride
                    &&& f.time() == timestamp
                    &&& f.valid()
                },
                Err(e) => luma_frame_fault(data@.len(), width, height, stride) == Some(e),
            },
    {
        if stride < width {
            return Err(LumaFrameError::StrideTooSmall { width, stride });
        }
        let expected: usize = match (stride as usize).checked_mul(height as usize) {
            Some(v) => v,
            None => return Err(LumaFrameError::DimensionsOverflow { stride, height }),
        };
        if data.len() < expected {
            return Err(LumaFrameError::DataTooShort { expected, actual: data.len() });
        }
        Ok(LumaFrame { data, width, height, stride, timestamp })
    }

    /// The samples.
    pub fn data(&self) -> (d: &'a [u8])
        ensures
            d@ == self.bytes(),
            self.valid(),
    {
        proof {
            use_type_invariant(*self);
        }
        self.data
    }

    /// The width in pixels.
    pub fn width(&self) -> (w: u32)
        ensures
            w == self.columns(),
    {
        self.width
    }

    /// The height in pixels.
    pub fn height(&self) -> (h: u32)
        ensures
            h == self.rows(),
    {
        self.height
    }

    /// The stride in bytes.
    pub fn stride(&self) -> (s: u32)
        ensures
            s == self.pitch(),
    {
        self.stride
    }

    /// The same frame at another presentation time.
    pub fn restamped(&self, timestamp: Timestamp) -> (f: LumaFrame<'a>)
        ensures
            f.bytes() == self.bytes(),
            f.columns() == self.columns(),
            f.rows() == self.rows(),
            f.pitch() == self.pitch(),
            f.time() == timestamp,
            f.valid(),
    {
        proof {
            use_type_invariant(*self);
        }
        LumaFrame { timestamp, ..*self }
    }

    /// The presentation time.
    pub fn timestamp(&self) -> (ts: Timestamp)
        ensures
            ts == self.time(),
    {
        self.timestamp
    }
}

/// Why a packed color frame was refused.
#[derive(Debug, Clone, Copy, PartialEq, Eq, Hash, Structural)]
#[non_exhaustive]
pub enum RgbFrameError {
    /// A row of pixels does not fit in the stride.
    StrideTooSmall {
        /// The frame width in pixels.
        width: u32,
        /// The provided stride in bytes.
        stride: u32,
        /// The smallest stride that the width allows.
        min_stride: u32,
    },
    /// The buffer is shorter than `stride * height`.
    DataTooShort {
        /// Minimum required byte length.
        expected: usize,
        /// Actual byte length.
        actual: usize,
    },
    /// Three bytes for each pixel of a row do not fit in `u32`.
    WidthOverflow {
        /// The frame width in pixels.
        width: u32,
    },
    /// `stride * height` does not fit in `usize`.
    DimensionsOverflow {
        /// The stride in bytes.
        stride: u32,
        /// The frame height in pixels.
        height: u32,
    },
}

impl RgbFrameError {
    /// Whether the error is `StrideTooSmall`.
    pub fn is_stride_too_small(&self) -> (r: bool)
        ensures
            r == (*self is StrideTooSmall),
    {
        matches!(self, RgbFrameError::StrideTooSmall { .. })
    }

    /// Whether the error is `DataTooShort`.
    pub fn is_data_too_short(&self) -> (r: bool)
        ensures
            r == (*self is DataTooShort),
    {
        matches!(self, RgbFrameError::DataTooShort { .. })
    }

    /// Whether the error is `WidthOverflow`.
    pub fn is_width_overflow(&self) -> (r: bool)
        ensures
            r == (*self is WidthOverflow),
    {
        matches!(self, RgbFrameError::WidthOverflow { .. })
    }

    /// Whether the error is `DimensionsOverflow`.
    pub fn is_dimensions_overflow(&self) -> (r: bool)
        ensures
            r == (*self is DimensionsOverflow),
    {
        matches!(self, RgbFrameError::DimensionsOverflow { .. })
    }

    /// The message text of the error.
    pub open spec fn text(self) -> Seq<char> {
        match self {
            RgbFrameError::StrideTooSmall { width, stride, min_stride } => "stride ("@ + digits(
                stride as nat,
            ) + ") is smaller than width*3 ("@ + digits(min_stride as nat) + ")"@,
            RgbFrameError::DataTooShort { expected, actual } => short_text(actual, expected),
            RgbFrameError::WidthOverflow { width } => "width ("@ + digits(width as nat)
                + ") * 3 overflows u32"@,
            RgbFrameError::DimensionsOverflow { stride, height } => overflow_text(stride, height),
        }
    }

    /// The message text of the error.
    pub fn message(&self) -> (s: String)
        ensures
            s@ == self.text(),
    {
        match *self {
            RgbFrameError::StrideTooSmall { width: _, stride, min_stride } => two_numbers(
                "stride (",
                stride as u64,
                ") is smaller than width*3 (",
                min_stride as u64,
                ")",
            ),
            RgbFrameError::DataTooShort { expected, actual } => short_message(actual, expected),
            RgbFrameError::WidthOverflow { width } => one_number(
                "width (",
                width as u64,
                ") * 3 overflows u32",
            ),
            RgbFrameError::DimensionsOverflow { stride, height } => overflow_message(
                stride,
                height,
            ),
        }
    }
}

/// Why a packed color frame of these dimensions over `len` bytes is refused, if it is.
pub open spec fn rgb_frame_fault(len: nat, width: u32, height: u32, stride: u32) -> Option<
    RgbFrameError,
> {
    if width * 3 > u32::MAX {
        Some(RgbFrameError::WidthOverflow { width })
    } else if stride < width * 3 {
        Some(
            RgbFrameError::StrideTooSmall { width, stride, min_stride: (width * 3) as u32 },
        )
    } else if stride * height > usize::MAX {
        Some(RgbFrameError::DimensionsOverflow { stride, height })
    } else if len < stride * height {
        Some(
            RgbFrameError::DataTooShort {
                expected: (stride * height) as usize,
                actual: len as usize,
            },
        )
    } else {
        None
    }
}

/// A packed frame of three bytes per pixel. Row `y` starts at byte `y * stride`;
/// pixel `x` of a row takes its bytes `3 * x` to `3 * x + 2`.
#[derive(Debug, Clone, Copy)]
pub struct RgbFrame<'a> {
    data: &'a [u8],
    width: u32,
    height: u32,
    stride: u32,
    timestamp: Timestamp,
}

impl<'a> RgbFrame<'a> {
    /// Bytes per pixel.
    pub const BYTES_PER_PIXEL: u32 = 3;

    /// Rows and buffer are large enough.
    #[verifier::type_invariant]
    pub closed spec fn normal(self) -> bool {
        self.width * 3 <= self.stride && self.stride * self.height <= self.data@.len()
    }

    /// What holds of every packed color frame.
    pub open spec fn valid(self) -> bool {
        self.columns() * 3 <= self.pitch() && self.pitch() * self.rows() <= self.bytes().len()
    }

    /// The samples.
    pub closed spec fn bytes(self) -> Seq<u8> {
        self.data@
    }

    /// The width in pixels.
    pub closed spec fn columns(self) -> u32 {
        self.width
    }

    /// The height in pixels.
    pub closed spec fn rows(self) -> u32 {
        self.height
    }

    /// The stride in bytes.
    pub closed spec fn pitch(self) -> u32 {
        self.stride
    }

    /// The presentation time.
    pub closed spec fn time(self) -> Timestamp {
        self.timestamp
    }

    /// A packed color frame over `data`.
    pub fn new(
        data: &'a [u8],
        width: u32,
        height: u32,
        stride: u32,
        timestamp: Timestamp,
    ) -> (f: RgbFrame<'a>)
        requires
            rgb_frame_fault(data@.len(), width, height, stride) is None,
        ensures
            f.bytes() == data@,
            f.columns() == width,
            f.rows() == height,
            f.pitch() == stride,
            f.time() == timestamp,
            f.valid(),
    {
        RgbFrame { data, width, height, stride, timestamp }
    }

    /// A packed color frame over `data`, or the reason why there is none.
    pub fn try_new(
        data: &'a [u8],
        width: u32,
        height: u32,
        stride: u32,
        timestamp: Timestamp,
    ) -> (r: Result<RgbFrame<'a>, RgbFrameError>)
        ensures
            match r {
                Ok(f) => {
                    &&& rgb_frame_fault(data@.len(), width, height, stride) is None
                    &&& f.bytes() == data@
                    &&& f.columns() == width
                    &&& f.rows() == height
                    &&& f.pitch() == stride
                    &&& f.time() == timestamp
                    &&& f.valid()
                },
                Err(e) => rgb_frame_fault(data@.len(), width, height, stride) == Some(e),
            },
    {
        let min_stride: u32 = match width.checked_mul(Self::BYTES_PER_PIXEL) {
            Some(v) => v,
            None => return Err(RgbFrameError::WidthOverflow { width }),
        };
        if stride < min_stride {
            return Err(RgbFrameError::StrideTooSmall { width, stride, min_stride });
        }
        let expected: usize = match (stride as usize).checked_mul(height as usize) {
            Some(v) => v,
            None => return Err(RgbFrameError::DimensionsOverflow { stride, height }),
        };
        if data.len() < expected {
            return Err(RgbFrameError::DataTooShort { expected, actual: data.len() });
        }
        Ok(RgbFrame { data, width, height, stride, timestamp })
    }

    /// The samples.
    pub fn data(&self) -> (d: &'a [u8])
        ensures
            d@ == self.bytes(),
            self.valid(),
    {
        proof {
            use_type_invariant(*self);
        }
        self.data
    }

    /// The width in pixels.
    pub fn width(&self) -> (w: u32)
        ensures
            w == self.columns(),
    {
        self.width
    }

    /// The height in pixels.
    pub fn height(&self) -> (h: u32)
        ensures
            h == self.rows(),
    {
        self.height
    }

    /// The stride in bytes.
    pub fn stride(&self) -> (s: u32)
        ensures
            s == self.pitch(),
    {
        self.stride
    }

    /// The same frame at another presentation time.
    pub fn restamped(&self, timestamp: Timestamp) -> (f: RgbFrame<'a>)
        ensures
            f.bytes() == self.bytes(),
            f.columns() == self.columns(),
            f.rows() == self.rows(),
            f.pitch() == self.pitch(),
            f.time() == timestamp,
            f.valid(),
    {
        proof {
            use_type_invariant(*self);
        }
        RgbFrame { timestamp, ..*self }
    }

    /// The presentation time.
    pub fn timestamp(&self) -> (ts: Timestamp)
        ensures
            ts == self.time(),
    {
        self.timestamp
    }
}

/// A plane of a frame in hue, saturation and value.
#[derive(Debug, Clone, Copy, PartialEq, Eq, Hash, Structural)]
pub enum HsvPlane {
    /// Hue.
    Hue,
    /// Saturation.
    Saturation,
    /// Value, the brightness.
    Value,
}

impl HsvPlane {
    /// Whether the plane is `Hue`.
    pub fn is_hue(&self) -> (r: bool)
        ensures
            r == (*self is Hue),
    {
        matches!(self, HsvPlane::Hue { .. })
    }

    /// Whether the plane is `Saturation`.
    pub fn is_saturation(&self) -> (r: bool)
        ensures
            r == (*self is Saturation),
    {
        matches!(self, HsvPlane::Saturation { .. })
    }

    /// Whether the plane is `Value`.
    pub fn is_value(&self) -> (r: bool)
        ensures
            r == (*self is Value),
    {
        matches!(self, HsvPlane::Value { .. })
    }

    /// The name of the plane.
    pub open spec fn text(self) -> Seq<char> {
        match self {
            HsvPlane::Hue => "hue"@,
            HsvPlane::Saturation => "saturation"@,
            HsvPlane::Value => "value"@,
        }
    }

    /// The name of the plane.
    pub fn as_str(&self) -> (s: &'static str)
        ensures
            s@ == self.text(),
    {
        match self {
            HsvPlane::Hue => "hue",
            HsvPlane::Saturation => "saturation",
            HsvPlane::Value => "value",
        }
    }
}

/// Why a frame in hue, saturation and value was refused.
#[derive(Debug, Clone, Copy, PartialEq, Eq, Hash, Structural)]
#[non_exhaustive]
pub enum HsvFrameError {
    /// A row of pixels does not fit in the stride.
    StrideTooSmall {
        /// The frame width in pixels.
        width: u32,
        /// The provided stride in bytes.
        stride: u32,
    },
    /// A plane is shorter than `stride * height`.
    PlaneTooShort {
        /// Which plane is too short.
        plane: HsvPlane,
        /// Minimum required byte length of each plane.
        expected: usize,
        /// Actual byte length.
        actual: usize,
    },
    /// `stride * height` does not fit in `usize`.
    DimensionsOverflow {
        /// The stride in bytes.
        stride: u32,
        /// The frame height in pixels.
        height: u32,
    },
}

impl HsvFrameError {
    /// Whether the error is `StrideTooSmall`.
    pub fn is_stride_too_small(&self) -> (r: bool)
        ensures
            r == (*self is StrideTooSmall),
    {
        matches!(self, HsvFrameError::StrideTooSmall { .. })
    }

    /// Whether the error is `PlaneTooShort`.
    pub fn is_plane_too_short(&self) -> (r: bool)
        ensures
            r == (*self is PlaneTooShort),
    {
        matches!(self, HsvFrameError::PlaneTooShort { .. })
    }

    /// Whether the error is `DimensionsOverflow`.
    pub fn is_dimensions_overflow(&self) -> (r: bool)
        ensures
            r == (*self is DimensionsOverflow),
    {
        matches!(self, HsvFrameError::DimensionsOverflow { .. })
    }

    /// The message text of the error.
    pub open spec fn text(self) -> Seq<char> {
        match self {
            HsvFrameError::StrideTooSmall { width, stride } => stride_text(stride, width),
            HsvFrameError::PlaneTooShort { plane, expected, actual } => plane.text()
                + " plane has length "@ + digits(actual as nat) + " but at least "@ + digits(
                expected as nat,
            ) + " are required"@,
            HsvFrameError::DimensionsOverflow { stride, height } => overflow_text(stride, height),
        }
    }

    /// The message text of the error.
    pub fn message(&self) -> (s: String)
        ensures
            s@ == self.text(),
    {
        match *self {
            HsvFrameError::StrideTooSmall { width, stride } => stride_message(stride, width),
            HsvFrameError::PlaneTooShort { plane, expected, actual } => {
                let mut s = String::from_str(plane.as_str());
                s.append(" plane has length ");
                push_decimal(&mut s, actual as u64);
                s.append(" but at least ");
                push_decimal(&mut s, expected as u64);
                s.append(" are required");
                s
            },
            HsvFrameError::DimensionsOverflow { stride, height } => overflow_message(
                stride,
                height,
            ),
        }
    }
}

/// Why a frame of these dimensions over planes of these lengths is refused, if it
/// is.
pub open spec fn hsv_frame_fault(
    hue: nat,
    saturation: nat,
    value: nat,
    width: u32,
    height: u32,
    stride: u32,
) -> Option<HsvFrameError> {
    let expected = stride * height;
    if stride < width {
        Some(HsvFrameError::StrideTooSmall { width, stride })
    } else if expected > usize::MAX {
        Some(HsvFrameError::DimensionsOverflow { stride, height })
    } else if hue < expected {
        Some(
            HsvFrameError::PlaneTooShort {
                plane: HsvPlane::Hue,
                expected: expected as usize,
                actual: hue as usize,
            },
        )
    } else if saturation < expected {
        Some(
            HsvFrameError::PlaneTooShort {
                plane: HsvPlane::Saturation,
                expected: expected as usize,
                actual: saturation as usize,
            },
        )
    } else if value < expected {
        Some(
            HsvFrameError::PlaneTooShort {
                plane: HsvPlane::Value,
                expected: expected as usize,
                actual: value as usize,
            },
        )
    } else {
        None
    }
}

/// A frame of three planes in hue, saturation and value, all of one stride. Hue
/// runs from 0 to 179.
#[derive(Debug, Clone, Copy)]
pub struct HsvFrame<'a> {
    h: &'a [u8],
    s: &'a [u8],
    v: &'a [u8],
    width: u32,
    height: u32,
    stride: u32,
    timestamp: Timestamp,
}

impl<'a> HsvFrame<'a> {
    /// Rows and buffers are large enough.
    #[verifier::type_invariant]
    pub closed spec fn normal(self) -> bool {
        &&& self.width <= self.stride
        &&& self.stride * self.height <= self.h@.len()
        &&& self.stride * self.height <= self.s@.len()
        &&& self.stride * self.height <= self.v@.len()
    }

    /// What holds of every frame.
    pub open spec fn valid(self) -> bool {
        &&& self.columns() <= self.pitch()
        &&& self.pitch() * self.rows() <= self.hue_bytes().len()
        &&& self.pitch() * self.rows() <= self.saturation_bytes().len()
        &&& self.pitch() * self.rows() <= self.value_bytes().len()
    }

    /// The hue samples.
    pub closed spec fn hue_bytes(self) -> Seq<u8> {
        self.h@
    }

    /// The saturation samples.
    pub closed spec fn saturation_bytes(self) -> Seq<u8> {
        self.s@
    }

    /// The value samples.
    pub closed spec fn value_bytes(self) -> Seq<u8> {
        self.v@
    }

    /// The width in pixels.
    pub closed spec fn columns(self) -> u32 {
        self.width
    }

    /// The height in pixels.
    pub closed spec fn rows(self) -> u32 {
        self.height
    }

    /// The stride in bytes.
    pub closed spec fn pitch(self) -> u32 {
        self.stride
    }

    /// The presentation time.
    pub closed spec fn time(self) -> Timestamp {
        self.timestamp
    }

    /// The frame holds these planes and dimensions.
    pub open spec fn holds(
        self,
        h: Seq<u8>,
        s: Seq<u8>,
        v: Seq<u8>,
        width: u32,
        height: u32,
        stride: u32,
        timestamp: Timestamp,
    ) -> bool {
        &&& self.hue_bytes() == h
        &&& self.saturation_bytes() == s
        &&& self.value_bytes() == v
        &&& self.columns() == width
        &&& self.rows() == height
        &&& self.pitch() == stride
        &&& self.time() == timestamp
    }

    /// A frame over three planes.
    pub fn new(
        h: &'a [u8],
        s: &'a [u8],
        v: &'a [u8],
        width: u32,
        height: u32,
        stride: u32,
        timestamp: Timestamp,
    ) -> (f: HsvFrame<'a>)
        requires
            hsv_frame_fault(h@.len(), s@.len(), v@.len(), width, height, stride) is None,
        ensures
            f.holds(h@, s@, v@, width, height, stride, timestamp),
            f.valid(),
    {
        HsvFrame { h, s, v, width, height, stride, timestamp }
    }

    /// A frame over three planes, or the reason why there is none.
    pub fn try_new(
        h: &'a [u8],
        s: &'a [u8],
        v: &'a [u8],
        width: u32,
        height: u32,
        stride: u32,
        timestamp: Timestamp,
    ) -> (r: Result<HsvFrame<'a>, HsvFrameError>)
        ensures
            ({
                let fault = hsv_frame_fault(
                    h@.len(),
                    s@.len(),
                    v@.len(),
                    width,
                    height,
                    stride,
                );
                match r {
                    Ok(f) => {
                        &&& fault is None
                        &&& f.holds(h@, s@, v@, width, height, stride, timestamp)
                        &&& f.valid()
                    },
                    Err(e) => fault == Some(e),
                }
            }),
    {
        if stride < width {
            return Err(HsvFrameError::StrideTooSmall { width, stride });
        }
        let expected: usize = match (stride as usize).checked_mul(height as usize) {
            Some(v) => v,
            None => return Err(HsvFrameError::DimensionsOverflow { stride, height }),
        };
        if h.len() < expected {
            return Err(
                HsvFrameError::PlaneTooShort { plane: HsvPlane::Hue, expected, actual: h.len() },
            );
        }
        if s.len() < expected {
            return Err(
                HsvFrameError::PlaneTooShort {
                    plane: HsvPlane::Saturation,
                    expected,
                    actual: s.len(),
                },
            );
        }
        if v.len() < expected {
            return Err(
                HsvFrameError::PlaneTooShort { plane: HsvPlane::Value, expected, actual: v.len() },
            );
        }
        Ok(HsvFrame { h, s, v, width, height, stride, timestamp })
    }

    /// The hue plane.
    pub fn hue(&self) -> (d: &'a [u8])
        ensures
            d@ == self.hue_bytes(),
            self.valid(),
    {
        proof {
            use_type_invariant(*self);
        }
        self.h
    }

    /// The saturation plane.
    pub fn saturation(&self) -> (d: &'a [u8])
        ensures
            d@ == self.saturation_bytes(),
            self.valid(),
    {
        proof {
            use_type_invariant(*self);
        }
        self.s
    }

    /// The value plane.
    pub fn value(&self) -> (d: &'a [u8])
        ensures
            d@ == self.value_bytes(),
            self.valid(),
    {
        proof {
            use_type_invariant(*self);
        }
        self.v
    }

    /// The width in pixels.
    pub fn width(&self) -> (w: u32)
        ensures
            w == self.columns(),
    {
        self.width
    }

    /// The height in pixels.
    pub fn height(&self) -> (h: u32)
        ensures
            h == self.rows(),
    {
        self.height
    }

    /// The stride in bytes.
    pub fn stride(&self) -> (s: u32)
        ensures
            s == self.pitch(),
    {
        self.stride
    }

    /// The same frame at another presentation time.
    pub fn restamped(&self, timestamp: Timestamp) -> (f: HsvFrame<'a>)
        ensures
            f.hue_bytes() == self.hue_bytes(),
            f.saturation_bytes() == self.saturation_bytes(),
            f.value_bytes() == self.value_bytes(),
            f.columns() == self.columns(),
            f.rows() == self.rows(),
            f.pitch() == self.pitch(),
            f.time() == timestamp,
            f.valid(),
    {
        proof {
            use_type_invariant(*self);
        }
        HsvFrame { timestamp, ..*self }
    }

    /// The presentation time.
    pub fn timestamp(&self) -> (ts: Timestamp)
        ensures
            ts == self.time(),
    {
        self.timestamp
    }
}

/// An accepted luma frame holds all of its pixels: those of a row lie side by side, each row
/// one stride behind the last, all within the buffer, and no two at the same place. A frame
/// is refused only where a row has no room in its stride or the rows none in the buffer.
pub proof fn accepted_luma_frames_hold_their_pixels(
    len: nat,
    width: u32,
    height: u32,
    stride: u32,
    y: int,
    x: int,
)
    requires
        0 <= y < height,
        0 <= x < width,
    ensures
        luma_frame_fault(len, width, height, stride) is None ==> x < stride && 0 <= y * stride + x
            < len,
        luma_frame_fault(len, width, height, stride) is None <==> width <= stride && stride
            * height <= len && stride * height <= usize::MAX,
{
    if luma_frame_fault(len, width, height, stride) is None {
        lemma_in_buffer(y, x, stride as int, height as int);
    }
}

/// An accepted packed frame holds all of its pixels, three bytes each. A frame is refused only
/// where a row has no room in its stride or the rows none in the buffer.
pub proof fn accepted_rgb_frames_hold_their_pixels(
    len: nat,
    width: u32,
    height: u32,
    stride: u32,
    y: int,
    x: int,
)
    requires
        0 <= y < height,
        0 <= x < width,
    ensures
        rgb_frame_fault(len, width, height, stride) is None ==> 3 * x + 2 < stride && 0 <= y
            * stride + 3 * x && y * stride + 3 * x + 2 < len,
        rgb_frame_fault(len, width, height, stride) is None <==> 3 * width <= stride && stride
            * height <= len && stride * height <= usize::MAX,
{
    if rgb_frame_fault(len, width, height, stride) is None {
        lemma_in_buffer(y, 3 * x + 2, stride as int, height as int);
    }
}

/// An accepted frame in hue, saturation and value holds all of its pixels in each plane. A
/// frame is refused only where a row has no room in its stride or the rows none in a plane.
pub proof fn accepted_hsv_frames_hold_their_pixels(
    hue: nat,
    saturation: nat,
    value: nat,
    width: u32,
    height: u32,
    stride: u32,
    y: int,
    x: int,
)
    requires
        0 <= y < height,
        0 <= x < width,
    ensures
        hsv_frame_fault(hue, saturation, value, width, height, stride) is None ==> {
            &&& x < stride
            &&& 0 <= y * stride + x
            &&& y * stride + x < hue
            &&& y * stride + x < saturation
            &&& y * stride + x < value
        },
        hsv_frame_fault(hue, saturation, value, width, height, stride) is None <==> width
            <= stride && stride * height <= hue && stride * height <= saturation && stride * height
            <= value && stride * height <= usize::MAX,
{
    if hsv_frame_fault(hue, saturation, value, width, height, stride) is None {
        lemma_in_buffer(y, x, stride as int, height as int);
    }
}

/// A place in a row lies in the buffer of all rows.
proof fn lemma_in_buffer(y: int, x: int, stride: int, height: int)
    requires
        0 <= y < height,
        0 <= x < stride,
    ensures
        0 <= y * stride + x < stride * height,
{
    assert(0 <= y * stride + x < stride * height) by (nonlinear_arith)
        requires
            0 <= y < height,
            0 <= x < stride,
    ;
}

} // verus!
