//! Color-space conversions of packed frames.
//!
//! The flag `use_simd` is accepted for callers that switch vector units off; both
//! settings give the same planes.

use vstd::prelude::*;

use crate::arch;
use crate::arch::{
    blue, green, hue_at, hue_of, luma_at, luma_of, max3, min3, red, round_div, same_tail,
    saturation_at, saturation_of, value_at,
};
use crate::frame::ChannelOrder;
use crate::grid::plane_is;

verus! {

/// Converts a packed three-byte-per-pixel frame into hue, saturation and value
/// planes of `width * height` samples each, hue in `0..=179`.
pub fn bgr_to_hsv_planes(
    h_out: &mut [u8],
    s_out: &mut [u8],
    v_out: &mut [u8],
    src: &[u8],
    width: u32,
    height: u32,
    stride: u32,
    order: ChannelOrder,
    use_simd: bool,
)
    requires
        3 * width <= stride,
        stride * height <= src.len(),
        width * height <= old(h_out).len(),
        width * height <= old(s_out).len(),
        width * height <= old(v_out).len(),
    ensures
        plane_is(final(h_out)@, hue_at(src@, stride as int, order), width as int, height as int),
        plane_is(
            final(s_out)@,
            saturation_at(src@, stride as int, order),
            width as int,
            height as int,
        ),
        plane_is(final(v_out)@, value_at(src@, stride as int, order), width as int, height as int),
        same_tail(old(h_out)@, final(h_out)@, width * height),
        same_tail(old(s_out)@, final(s_out)@, width * height),
        same_tail(old(v_out)@, final(v_out)@, width * height),
{
    arch::bgr_to_hsv_planes(h_out, s_out, v_out, src, width, height, stride, order, use_simd);
}

/// Converts a packed three-byte-per-pixel frame into a luma plane of
/// `width * height` samples.
pub fn bgr_to_luma(
    out: &mut [u8],
    src: &[u8],
    width: u32,
    height: u32,
    stride: u32,
    order: ChannelOrder,
    use_simd: bool,
)
    requires
        3 * width <= stride,
        stride * height <= src.len(),
        width * height <= old(out).len(),
    ensures
        plane_is(final(out)@, luma_at(src@, stride as int, order), width as int, height as int),
        same_tail(old(out)@, final(out)@, width * height),
{
    arch::bgr_to_luma(out, src, width, height, stride, order, use_simd);
}

/// Luma lies between the smallest and the largest channel, so it always fits in a
/// byte, and a gray pixel keeps its value.
pub proof fn luma_lies_between_channels(b: u8, g: u8, r: u8)
    ensures
        min3(b, g, r) <= luma_of(b, g, r) <= max3(b, g, r),
        b == g && g == r ==> luma_of(b, g, r) == b,
{
}

/// Luma is the BT.601 weighting of the channels, rounded to the nearest integer,
/// or one below it.
pub proof fn luma_follows_bt601(b: u8, g: u8, r: u8)
    ensures
        0 <= round_div(299 * r + 587 * g + 114 * b, 1000) - luma_of(b, g, r) <= 1,
{
    let exact = 2 * (299 * r + 587 * g + 114 * b) + 1000;
    let q = luma_of(b, g, r);
    assert(2000 * q <= exact < 2000 * q + 4000);
    assert(round_div(299 * r + 587 * g + 114 * b, 1000) == exact / 2000);
}

/// Hue stays in `0..=179` and saturation in `0..=255`.
pub proof fn hsv_in_range(b: u8, g: u8, r: u8)
    ensures
        0 <= hue_of(b, g, r) <= 179,
        0 <= saturation_of(b, g, r) <= 255,
{
    arch::lemma_hsv_range(b, g, r);
}

/// A gray pixel has neither hue nor saturation, and its value is its gray level.
pub proof fn gray_has_no_color(v: u8)
    ensures
        hue_of(v, v, v) == 0,
        saturation_of(v, v, v) == 0,
        max3(v, v, v) == v,
{
    if v > 0 {
        assert(round_div(0, v as int) == 0) by {
            vstd::arithmetic::div_mod::lemma_basic_div(v as int, 2 * v);
        }
    }
}

/// Two packed frames hold the same pixels, one of them with red and blue swapped.
pub open spec fn swapped(a: Seq<u8>, b: Seq<u8>, width: int, height: int, stride: int) -> bool {
    forall|y: int, x: int|
        #![trigger green(a, y, x, stride)]
        0 <= y < height && 0 <= x < width ==> {
            &&& blue(a, y, x, stride, ChannelOrder::Bgr) == red(b, y, x, stride, ChannelOrder::Bgr)
            &&& green(a, y, x, stride) == green(b, y, x, stride)
            &&& red(a, y, x, stride, ChannelOrder::Bgr) == blue(b, y, x, stride, ChannelOrder::Bgr)
        }
}

/// Reading a frame as red first gives the planes that its copy with red and blue
/// swapped gives when read as blue first.
pub proof fn channel_order_swaps_red_and_blue(
    a: Seq<u8>,
    b: Seq<u8>,
    width: int,
    height: int,
    stride: int,
)
    requires
        swapped(a, b, width, height, stride),
    ensures
        forall|y: int, x: int|
            0 <= y < height && 0 <= x < width ==> {
                &&& #[trigger] hue_at(a, stride, ChannelOrder::Rgb)(y, x) == hue_at(
                    b,
                    stride,
                    ChannelOrder::Bgr,
                )(y, x)
                &&& saturation_at(a, stride, ChannelOrder::Rgb)(y, x) == saturation_at(
                    b,
                    stride,
                    ChannelOrder::Bgr,
                )(y, x)
                &&& value_at(a, stride, ChannelOrder::Rgb)(y, x) == value_at(
                    b,
                    stride,
                    ChannelOrder::Bgr,
                )(y, x)
                &&& luma_at(a, stride, ChannelOrder::Rgb)(y, x) == luma_at(
                    b,
                    stride,
                    ChannelOrder::Bgr,
                )(y, x)
            },
{
    assert forall|y: int, x: int| 0 <= y < height && 0 <= x < width implies {
        &&& #[trigger] hue_at(a, stride, ChannelOrder::Rgb)(y, x) == hue_at(
            b,
            stride,
            ChannelOrder::Bgr,
        )(y, x)
        &&& saturation_at(a, stride, ChannelOrder::Rgb)(y, x) == saturation_at(
            b,
            stride,
            ChannelOrder::Bgr,
        )(y, x)
        &&& value_at(a, stride, ChannelOrder::Rgb)(y, x) == value_at(
            b,
            stride,
            ChannelOrder::Bgr,
        )(y, x)
        &&& luma_at(a, stride, ChannelOrder::Rgb)(y, x) == luma_at(b, stride, ChannelOrder::Bgr)(
            y,
            x,
        )
    } by {
        assert(green(a, y, x, stride) == green(b, y, x, stride));
        assert(blue(a, y, x, stride, ChannelOrder::Rgb) == red(
            a,
            y,
            x,
            stride,
            ChannelOrder::Bgr,
        ));
        assert(red(a, y, x, stride, ChannelOrder::Rgb) == blue(
            a,
            y,
            x,
            stride,
            ChannelOrder::Bgr,
        ));
    }
}

} // verus!
