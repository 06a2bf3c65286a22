//! Pixel kernels: color conversion, gradients and the reductions over a frame.
//!
//! Every kernel that takes `use_simd` returns the same values for both settings
//! of the flag.

use vstd::arithmetic::div_mod::*;
use vstd::prelude::*;

use crate::frame::ChannelOrder;
use crate::grid::{
    cell, lemma_area_bound, lemma_cell, lemma_plane_row, lemma_plane_step, lemma_rows, plane_is,
    plane_upto,
};
use crate::sum::{
    area_sum, lemma_area_sum_bound, lemma_partial_bound, lemma_partial_signed_bound, line_sum,
};

verus! {

/// The integer nearest to `a / d`, the larger one where two are equally near.
pub open spec fn round_div(a: int, d: int) -> int {
    (2 * a + d) / (2 * d)
}

/// The largest of three channel values.
pub open spec fn max3(b: u8, g: u8, r: u8) -> u8 {
    let m = if b >= g {
        b
    } else {
        g
    };
    if m >= r {
        m
    } else {
        r
    }
}

/// The smallest of three channel values.
pub open spec fn min3(b: u8, g: u8, r: u8) -> u8 {
    let m = if b <= g {
        b
    } else {
        g
    };
    if m <= r {
        m
    } else {
        r
    }
}

/// Half the hue angle in degrees, rounded to the nearest integer in `0..=179`.
pub open spec fn hue_of(b: u8, g: u8, r: u8) -> int {
    let v = max3(b, g, r);
    let delta = v - min3(b, g, r);
    if delta == 0 {
        0
    } else if v == r {
        if g >= b {
            round_div(30 * (g - b), delta)
        } else {
            let h = 180 + round_div(30 * (g - b), delta);
            if h > 179 {
                179
            } else {
                h
            }
        }
    } else if v == g {
        60 + round_div(30 * (b - r), delta)
    } else {
        120 + round_div(30 * (r - g), delta)
    }
}

/// Saturation scaled to `0..=255`, rounded to the nearest integer.
pub open spec fn saturation_of(b: u8, g: u8, r: u8) -> int {
    let v = max3(b, g, r);
    if v == 0 {
        0
    } else {
        round_div(255 * (v - min3(b, g, r)), v as int)
    }
}

/// Adding whole steps before a rounding division adds them after it.
proof fn lemma_round_div_shift(a: int, d: int, k: int)
    requires
        d > 0,
    ensures
        (2 * a + d + k * (2 * d)) / (2 * d) == round_div(a, d) + k,
{
    lemma_hoist_over_denominator(2 * a + d, k, (2 * d) as nat);
}

/// A rounded quotient lies between the bounds of the exact one.
proof fn lemma_round_div_range(a: int, d: int, lo: int, hi: int)
    requires
        d > 0,
        lo * d <= a <= hi * d,
    ensures
        lo <= round_div(a, d) <= hi,
{
    let q = (2 * a + d) / (2 * d);
    let m = (2 * a + d) % (2 * d);
    lemma_fundamental_div_mod(2 * a + d, 2 * d);
    assert(lo <= q) by (nonlinear_arith)
        requires
            2 * a + d == (2 * d) * q + m,
            0 <= m < 2 * d,
            lo * d <= a,
            d > 0,
    ;
    assert(q <= hi) by (nonlinear_arith)
        requires
            2 * a + d == (2 * d) * q + m,
            0 <= m < 2 * d,
            a <= hi * d,
            d > 0,
    ;
}

/// Hue stays in `0..=179` and saturation in `0..=255`.
pub proof fn lemma_hsv_range(b: u8, g: u8, r: u8)
    ensures
        0 <= hue_of(b, g, r) <= 179,
        0 <= saturation_of(b, g, r) <= 255,
{
    let v = max3(b, g, r);
    let delta = v - min3(b, g, r);
    if v > 0 {
        lemma_round_div_range(255 * delta, v as int, 0, 255);
    }
    if delta > 0 {
        if v == r && g >= b {
            lemma_round_div_range(30 * (g - b), delta, 0, 30);
        } else if v == r {
            lemma_round_div_range(30 * (g - b), delta, -30, 0);
        } else if v == g {
            lemma_round_div_range(30 * (b - r), delta, -30, 30);
        } else {
            lemma_round_div_range(30 * (r - g), delta, -30, 30);
        }
    }
}

/// Converts one pixel to hue, saturation and value in the eight-bit encoding with
/// hue in `0..=179`.
pub fn bgr_to_hsv_pixel(b: u8, g: u8, r: u8) -> (hsv: (u8, u8, u8))
    ensures
        hsv.0 == hue_of(b, g, r),
        hsv.1 == saturation_of(b, g, r),
        hsv.2 == max3(b, g, r),
        hsv.0 <= 179,
{
    let m: u8 = if b >= g {
        b
    } else {
        g
    };
    let v: u8 = if m >= r {
        m
    } else {
        r
    };
    let n: u8 = if b <= g {
        b
    } else {
        g
    };
    let min: u8 = if n <= r {
        n
    } else {
        r
    };
    let delta: u32 = (v - min) as u32;
    let sat: u8 = if v == 0 {
        0
    } else {
        proof {
            lemma_round_div_range(255 * (v - min), v as int, 0, 255);
        }
        ((510 * delta + v as u32) / (2 * v as u32)) as u8
    };
    let bi: u32 = b as u32;
    let gi: u32 = g as u32;
    let ri: u32 = r as u32;
    let hue: u8 = if delta == 0 {
        0
    } else if v == r {
        if g >= b {
            proof {
                lemma_round_div_range(30 * (g - b), delta as int, 0, 30);
            }
            ((60 * (gi - bi) + delta) / (2 * delta)) as u8
        } else {
            proof {
                lemma_round_div_range(30 * (g - b), delta as int, -30, 0);
                lemma_round_div_shift(30 * (g - b), delta as int, 180);
            }
            let h: u32 = (360 * delta + delta + 60 * gi - 60 * bi) / (2 * delta);
            if h > 179 {
                179
            } else {
                h as u8
            }
        }
    } else if v == g {
        proof {
            lemma_round_div_range(30 * (b - r), delta as int, -30, 30);
            lemma_round_div_shift(30 * (b - r), delta as int, 60);
        }
        ((120 * delta + delta + 60 * bi - 60 * ri) / (2 * delta)) as u8
    } else {
        proof {
            lemma_round_div_range(30 * (r - g), delta as int, -30, 30);
            lemma_round_div_shift(30 * (r - g), delta as int, 120);
        }
        ((240 * delta + delta + 60 * ri - 60 * gi) / (2 * delta)) as u8
    };
    (hue, sat, v)
}

/// Byte offset of blue inside a packed pixel.
pub open spec fn blue_offset(order: ChannelOrder) -> int {
    if order == ChannelOrder::Bgr {
        0
    } else {
        2
    }
}

/// Byte offset of red inside a packed pixel.
pub open spec fn red_offset(order: ChannelOrder) -> int {
    2 - blue_offset(order)
}

/// Blue channel of the pixel in row `y`, column `x` of a packed frame.
pub open spec fn blue(src: Seq<u8>, y: int, x: int, stride: int, order: ChannelOrder) -> u8 {
    src[y * stride + (x * 3 + blue_offset(order))]
}

/// Green channel of the pixel in row `y`, column `x` of a packed frame.
pub open spec fn green(src: Seq<u8>, y: int, x: int, stride: int) -> u8 {
    src[y * stride + (x * 3 + 1)]
}

/// Red channel of the pixel in row `y`, column `x` of a packed frame.
pub open spec fn red(src: Seq<u8>, y: int, x: int, stride: int, order: ChannelOrder) -> u8 {
    src[y * stride + (x * 3 + red_offset(order))]
}

/// Reads the blue, green and red channels of one pixel of a packed frame.
fn pixel_at(
    src: &[u8],
    y: usize,
    x: usize,
    width: usize,
    height: usize,
    stride: usize,
    order: ChannelOrder,
) -> (p: (u8, u8, u8))
    requires
        y < height,
        x < width,
        3 * width <= stride,
        stride * height <= src.len(),
    ensures
        p.0 == blue(src@, y as int, x as int, stride as int, order),
        p.1 == green(src@, y as int, x as int, stride as int),
        p.2 == red(src@, y as int, x as int, stride as int, order),
{
    proof {
        lemma_cell(y as int, x * 3 + 2, stride as int, height as int);
    }
    let at: usize = y * stride + x * 3;
    match order {
        ChannelOrder::Bgr => (src[at], src[at + 1], src[at + 2]),
        ChannelOrder::Rgb => (src[at + 2], src[at + 1], src[at]),
    }
}

/// Hue of every pixel of a packed frame.
pub open spec fn hue_at(src: Seq<u8>, stride: int, order: ChannelOrder) -> spec_fn(int, int) -> u8 {
    |y: int, x: int|
        hue_of(
            blue(src, y, x, stride, order),
            green(src, y, x, stride),
            red(src, y, x, stride, order),
        ) as u8
}

/// Saturation of every pixel of a packed frame.
pub open spec fn saturation_at(
    src: Seq<u8>,
    stride: int,
    order: ChannelOrder,
) -> spec_fn(int, int) -> u8 {
    |y: int, x: int|
        saturation_of(
            blue(src, y, x, stride, order),
            green(src, y, x, stride),
            red(src, y, x, stride, order),
        ) as u8
}

/// Value, the largest channel, of every pixel of a packed frame.
pub open spec fn value_at(
    src: Seq<u8>,
    stride: int,
    order: ChannelOrder,
) -> spec_fn(int, int) -> u8 {
    |y: int, x: int|
        max3(
            blue(src, y, x, stride, order),
            green(src, y, x, stride),
            red(src, y, x, stride, order),
        )
}

/// `after` differs from `before` at most in its first `n` samples.
pub open spec fn same_tail<T>(before: Seq<T>, after: Seq<T>, n: int) -> bool {
    &&& after.len() == before.len()
    &&& forall|i: int| n <= i < after.len() ==> #[trigger] after[i] == before[i]
}

/// Converts a packed three-byte-per-pixel frame into hue, saturation and value
/// planes of `width * height` samples each.
#[allow(unused_variables)]
pub fn bgr_to_hsv_planes(
    h_out: &mut [u8],
    s_out: &mut [u8],
    v_out: &mut [u8],
    src: &[u8],
    width: u32,
    height: u32,
    stride: u32,
    order: ChannelOrder,
    use_simd: bool,
)
    requires
        3 * width <= stride,
        stride * height <= src.len(),
        width * height <= old(h_out).len(),
        width * height <= old(s_out).len(),
        width * height <= old(v_out).len(),
    ensures
        plane_is(final(h_out)@, hue_at(src@, stride as int, order), width as int, height as int),
        plane_is(
            final(s_out)@,
            saturation_at(src@, stride as int, order),
            width as int,
            height as int,
        ),
        plane_is(final(v_out)@, value_at(src@, stride as int, order), width as int, height as int),
        same_tail(old(h_out)@, final(h_out)@, width * height),
        same_tail(old(s_out)@, final(s_out)@, width * height),
        same_tail(old(v_out)@, final(v_out)@, width * height),
{
    let w: usize = width as usize;
    let h: usize = height as usize;
    let s: usize = stride as usize;
    let ghost n = w * h;
    let ghost hue_f = hue_at(src@, stride as int, order);
    let ghost sat_f = saturation_at(src@, stride as int, order);
    let ghost val_f = value_at(src@, stride as int, order);
    let mut y: usize = 0;
    while y < h
        invariant
            n == w * h,
            3 * w <= s,
            s * h <= src.len(),
            n <= h_out.len(),
            n <= s_out.len(),
            n <= v_out.len(),
            y <= h,
            hue_f == hue_at(src@, s as int, order),
            sat_f == saturation_at(src@, s as int, order),
            val_f == value_at(src@, s as int, order),
            plane_upto(h_out@, hue_f, w as int, y as int, 0),
            plane_upto(s_out@, sat_f, w as int, y as int, 0),
            plane_upto(v_out@, val_f, w as int, y as int, 0),
            same_tail(old(h_out)@, h_out@, n),
            same_tail(old(s_out)@, s_out@, n),
            same_tail(old(v_out)@, v_out@, n),
        decreases h - y,
    {
        proof {
            lemma_rows(y as int, w as int, h as int);
        }
        let base: usize = y * w;
        let mut x: usize = 0;
        while x < w
            invariant
                n == w * h,
                3 * w <= s,
                s * h <= src.len(),
                n <= h_out.len(),
                n <= s_out.len(),
                n <= v_out.len(),
                y < h,
                x <= w,
                base == y * w,
                base + w <= n,
                hue_f == hue_at(src@, s as int, order),
                sat_f == saturation_at(src@, s as int, order),
                val_f == value_at(src@, s as int, order),
                plane_upto(h_out@, hue_f, w as int, y as int, x as int),
                plane_upto(s_out@, sat_f, w as int, y as int, x as int),
                plane_upto(v_out@, val_f, w as int, y as int, x as int),
                same_tail(old(h_out)@, h_out@, n),
                same_tail(old(s_out)@, s_out@, n),
                same_tail(old(v_out)@, v_out@, n),
            decreases w - x,
        {
            let (b, g, r) = pixel_at(src, y, x, w, h, s, order);
            let (hue, sat, val) = bgr_to_hsv_pixel(b, g, r);
            let ghost h0 = h_out@;
            let ghost s0 = s_out@;
            let ghost v0 = v_out@;
            h_out[base + x] = hue;
            s_out[base + x] = sat;
            v_out[base + x] = val;
            proof {
                lemma_plane_step(h0, h_out@, hue_f, w as int, y as int, x as int);
                lemma_plane_step(s0, s_out@, sat_f, w as int, y as int, x as int);
                lemma_plane_step(v0, v_out@, val_f, w as int, y as int, x as int);
            }
            x = x + 1;
        }
        proof {
            lemma_plane_row(h_out@, hue_f, w as int, y as int);
            lemma_plane_row(s_out@, sat_f, w as int, y as int);
            lemma_plane_row(v_out@, val_f, w as int, y as int);
        }
        y = y + 1;
    }
}

/// Luma of one pixel: the weighted mean of its channels with weights 77, 150 and
/// 29 in 256, rounded down.
pub open spec fn luma_of(b: u8, g: u8, r: u8) -> int {
    (77 * r + 150 * g + 29 * b) / 256
}

/// Luma of every pixel of a packed frame.
pub open spec fn luma_at(
    src: Seq<u8>,
    stride: int,
    order: ChannelOrder,
) -> spec_fn(int, int) -> u8 {
    |y: int, x: int|
        luma_of(
            blue(src, y, x, stride, order),
            green(src, y, x, stride),
            red(src, y, x, stride, order),
        ) as u8
}

/// Converts a packed three-byte-per-pixel frame into a luma plane of
/// `width * height` samples.
#[allow(unused_variables)]
pub fn bgr_to_luma(
    out: &mut [u8],
    src: &[u8],
    width: u32,
    height: u32,
    stride: u32,
    order: ChannelOrder,
    use_simd: bool,
)
    requires
        3 * width <= stride,
        stride * height <= src.len(),
        width * height <= old(out).len(),
    ensures
        plane_is(final(out)@, luma_at(src@, stride as int, order), width as int, height as int),
        same_tail(old(out)@, final(out)@, width * height),
{
    let w: usize = width as usize;
    let h: usize = height as usize;
    let s: usize = stride as usize;
    let ghost n = w * h;
    let ghost f = luma_at(src@, stride as int, order);
    let mut y: usize = 0;
    while y < h
        invariant
            n == w * h,
            3 * w <= s,
            s * h <= src.len(),
            n <= out.len(),
            y <= h,
            f == luma_at(src@, s as int, order),
            plane_upto(out@, f, w as int, y as int, 0),
            same_tail(old(out)@, out@, n),
        decreases h - y,
    {
        proof {
            lemma_rows(y as int, w as int, h as int);
        }
        let base: usize = y * w;
        let mut x: usize = 0;
        while x < w
            invariant
                n == w * h,
                3 * w <= s,
                s * h <= src.len(),
                n <= out.len(),
                y < h,
                x <= w,
                base == y * w,
                base + w <= n,
                f == luma_at(src@, s as int, order),
                plane_upto(out@, f, w as int, y as int, x as int),
                same_tail(old(out)@, out@, n),
            decreases w - x,
        {
            let (b, g, r) = pixel_at(src, y, x, w, h, s, order);
            let luma: u8 = ((77 * r as u32 + 150 * g as u32 + 29 * b as u32) / 256) as u8;
            let ghost before = out@;
            out[base + x] = luma;
            proof {
                lemma_plane_step(before, out@, f, w as int, y as int, x as int);
            }
            x = x + 1;
        }
        proof {
            lemma_plane_row(out@, f, w as int, y as int);
        }
        y = y + 1;
    }
}

/// The sample in row `y`, column `x` of a plane with row stride `stride`.
pub open spec fn sample(p: Seq<u8>, y: int, x: int, stride: int) -> int {
    p[y * stride + x] as int
}

/// Horizontal 3 by 3 Sobel gradient.
pub open spec fn gradient_x(p: Seq<u8>, y: int, x: int, stride: int) -> int {
    (sample(p, y - 1, x + 1, stride) + 2 * sample(p, y, x + 1, stride) + sample(
        p,
        y + 1,
        x + 1,
        stride,
    )) - (sample(p, y - 1, x - 1, stride) + 2 * sample(p, y, x - 1, stride) + sample(
        p,
        y + 1,
        x - 1,
        stride,
    ))
}

/// Vertical 3 by 3 Sobel gradient.
pub open spec fn gradient_y(p: Seq<u8>, y: int, x: int, stride: int) -> int {
    (sample(p, y + 1, x - 1, stride) + 2 * sample(p, y + 1, x, stride) + sample(
        p,
        y + 1,
        x + 1,
        stride,
    )) - (sample(p, y - 1, x - 1, stride) + 2 * sample(p, y - 1, x, stride) + sample(
        p,
        y - 1,
        x + 1,
        stride,
    ))
}

/// Absolute value.
pub open spec fn magnitude(a: int) -> int {
    if a < 0 {
        -a
    } else {
        a
    }
}

/// Sign: -1, 0 or 1.
pub open spec fn sign(a: int) -> int {
    if a < 0 {
        -1
    } else if a == 0 {
        0
    } else {
        1
    }
}

/// Direction bin of a gradient: 0 horizontal, 2 vertical, 1 and 3 the diagonals.
/// The bin borders lie at slopes 0.414 and 2.414.
pub open spec fn direction(gx: int, gy: int) -> u8 {
    if magnitude(gy) * 1000 < magnitude(gx) * 414 {
        0
    } else if magnitude(gy) * 1000 > magnitude(gx) * 2414 {
        2
    } else if sign(gx) == sign(gy) {
        1
    } else {
        3
    }
}

/// A cell with neighbors on all sides in a plane of `w` by `h` samples.
pub open spec fn interior(y: int, x: int, w: int, h: int) -> bool {
    1 <= y < h - 1 && 1 <= x < w - 1
}

/// Gradient magnitude, the sum of both absolute gradients; zero on the border.
pub open spec fn edge_magnitude(p: Seq<u8>, w: int, h: int) -> spec_fn(int, int) -> i32 {
    |y: int, x: int|
        if interior(y, x, w, h) {
            (magnitude(gradient_x(p, y, x, w)) + magnitude(gradient_y(p, y, x, w))) as i32
        } else {
            0
        }
}

/// Direction bin of the gradient; zero on the border.
pub open spec fn edge_direction(p: Seq<u8>, w: int, h: int) -> spec_fn(int, int) -> u8 {
    |y: int, x: int|
        if interior(y, x, w, h) {
            direction(gradient_x(p, y, x, w), gradient_y(p, y, x, w))
        } else {
            0
        }
}

/// A gradient of bytes is at most 1020 either way.
pub proof fn lemma_gradient_bounds(p: Seq<u8>, y: int, x: int, stride: int)
    ensures
        -1020 <= gradient_x(p, y, x, stride) <= 1020,
        -1020 <= gradient_y(p, y, x, stride) <= 1020,
{
}

/// Reads the sample in row `y`, column `x`.
fn sample_at(p: &[u8], y: usize, x: usize, w: usize, h: usize, stride: usize) -> (v: i32)
    requires
        y < h,
        x < w,
        w <= stride,
        stride * h <= p.len(),
    ensures
        v == sample(p@, y as int, x as int, stride as int),
        0 <= v <= 255,
{
    proof {
        lemma_cell(y as int, x as int, stride as int, h as int);
    }
    p[y * stride + x] as i32
}

/// Both Sobel gradients at an interior cell.
fn gradients(p: &[u8], y: usize, x: usize, w: usize, h: usize, stride: usize) -> (g: (i32, i32))
    requires
        interior(y as int, x as int, w as int, h as int),
        w <= stride,
        stride * h <= p.len(),
    ensures
        g.0 == gradient_x(p@, y as int, x as int, stride as int),
        g.1 == gradient_y(p@, y as int, x as int, stride as int),
        -1020 <= g.0 <= 1020,
        -1020 <= g.1 <= 1020,
{
    let tl: i32 = sample_at(p, y - 1, x - 1, w, h, stride);
    let t: i32 = sample_at(p, y - 1, x, w, h, stride);
    let tr: i32 = sample_at(p, y - 1, x + 1, w, h, stride);
    let l: i32 = sample_at(p, y, x - 1, w, h, stride);
    let r: i32 = sample_at(p, y, x + 1, w, h, stride);
    let bl: i32 = sample_at(p, y + 1, x - 1, w, h, stride);
    let b: i32 = sample_at(p, y + 1, x, w, h, stride);
    let br: i32 = sample_at(p, y + 1, x + 1, w, h, stride);
    ((tr + 2 * r + br) - (tl + 2 * l + bl), (bl + 2 * b + br) - (tl + 2 * t + tr))
}

/// Absolute value of a small integer.
fn abs(a: i32) -> (m: i32)
    requires
        a > i32::MIN,
    ensures
        m == magnitude(a as int),
{
    if a < 0 {
        -a
    } else {
        a
    }
}

/// Direction bin of a gradient.
fn direction_bin(gx: i32, gy: i32) -> (d: u8)
    requires
        -1020 <= gx <= 1020,
        -1020 <= gy <= 1020,
    ensures
        d == direction(gx as int, gy as int),
{
    let ax: i32 = abs(gx);
    let ay: i32 = abs(gy);
    if ay * 1000 < ax * 414 {
        0
    } else if ay * 1000 > ax * 2414 {
        2
    } else if (gx < 0) == (gy < 0) && (gx > 0) == (gy > 0) {
        1
    } else {
        3
    }
}

/// Sets every sample from index `from` on to zero.
fn zero_magnitudes(mag: &mut [i32], from: usize)
    ensures
        final(mag)@.len() == old(mag)@.len(),
        forall|i: int| 0 <= i < from && i < final(mag)@.len() ==> final(mag)@[i] == old(mag)@[i],
        forall|i: int| from <= i < final(mag)@.len() ==> final(mag)@[i] == 0,
{
    let n: usize = mag.len();
    let mut i: usize = from;
    while i < n
        invariant
            n == mag@.len(),
            n == old(mag)@.len(),
            from <= i,
            forall|j: int| 0 <= j < from && j < n ==> mag@[j] == old(mag)@[j],
            forall|j: int| from <= j < i && j < n ==> mag@[j] == 0,
        decreases n - i,
    {
        mag[i] = 0;
        i = i + 1;
    }
}

/// Sets every sample from index `from` on to zero.
fn zero_samples(dir: &mut [u8], from: usize)
    ensures
        final(dir)@.len() == old(dir)@.len(),
        forall|i: int| 0 <= i < from && i < final(dir)@.len() ==> final(dir)@[i] == old(dir)@[i],
        forall|i: int| from <= i < final(dir)@.len() ==> final(dir)@[i] == 0,
{
    let n: usize = dir.len();
    let mut i: usize = from;
    while i < n
        invariant
            n == dir@.len(),
            n == old(dir)@.len(),
            from <= i,
            forall|j: int| 0 <= j < from && j < n ==> dir@[j] == old(dir)@[j],
            forall|j: int| from <= j < i && j < n ==> dir@[j] == 0,
        decreases n - i,
    {
        dir[i] = 0;
        i = i + 1;
    }
}

/// Sobel magnitude and direction of a packed `w` by `h` plane. Border cells, and
/// what the outputs hold past the plane, become zero; so does everything where
/// the plane has no interior.
#[allow(unused_variables)]
pub fn sobel(input: &[u8], mag: &mut [i32], dir: &mut [u8], w: usize, h: usize, use_simd: bool)
    requires
        w >= 3 && h >= 3 ==> w * h <= input.len() && w * h <= old(mag).len() && w * h <= old(
            dir,
        ).len(),
    ensures
        final(mag)@.len() == old(mag)@.len(),
        final(dir)@.len() == old(dir)@.len(),
        w >= 3 && h >= 3 ==> plane_is(
            final(mag)@,
            edge_magnitude(input@, w as int, h as int),
            w as int,
            h as int,
        ),
        w >= 3 && h >= 3 ==> plane_is(
            final(dir)@,
            edge_direction(input@, w as int, h as int),
            w as int,
            h as int,
        ),
        forall|i: int|
            0 <= i < final(mag)@.len() && (w < 3 || h < 3 || i >= w * h)
                ==> #[trigger] final(mag)@[i] == 0,
        forall|i: int|
            0 <= i < final(dir)@.len() && (w < 3 || h < 3 || i >= w * h)
                ==> #[trigger] final(dir)@[i] == 0,
{
    if w < 3 || h < 3 {
        zero_magnitudes(mag, 0);
        zero_samples(dir, 0);
        return;
    }
    let ghost n = w * h;
    let ghost fm = edge_magnitude(input@, w as int, h as int);
    let ghost fd = edge_direction(input@, w as int, h as int);
    let mut y: usize = 0;
    while y < h
        invariant
            n == w * h,
            w >= 3,
            h >= 3,
            n <= input.len(),
            n <= mag.len(),
            n <= dir.len(),
            mag@.len() == old(mag)@.len(),
            dir@.len() == old(dir)@.len(),
            y <= h,
            fm == edge_magnitude(input@, w as int, h as int),
            fd == edge_direction(input@, w as int, h as int),
            plane_upto(mag@, fm, w as int, y as int, 0),
            plane_upto(dir@, fd, w as int, y as int, 0),
        decreases h - y,
    {
        proof {
            lemma_rows(y as int, w as int, h as int);
        }
        let base: usize = y * w;
        let mut x: usize = 0;
        while x < w
            invariant
                n == w * h,
                w >= 3,
                h >= 3,
                n <= input.len(),
                n <= mag.len(),
                n <= dir.len(),
                mag@.len() == old(mag)@.len(),
                dir@.len() == old(dir)@.len(),
                y < h,
                x <= w,
                base == y * w,
                base + w <= n,
                fm == edge_magnitude(input@, w as int, h as int),
                fd == edge_direction(input@, w as int, h as int),
                plane_upto(mag@, fm, w as int, y as int, x as int),
                plane_upto(dir@, fd, w as int, y as int, x as int),
            decreases w - x,
        {
            let ghost m0 = mag@;
            let ghost d0 = dir@;
            if 1 <= y && y < h - 1 && 1 <= x && x < w - 1 {
                let (gx, gy) = gradients(input, y, x, w, h, w);
                mag[base + x] = abs(gx) + abs(gy);
                dir[base + x] = direction_bin(gx, gy);
            } else {
                mag[base + x] = 0;
                dir[base + x] = 0;
            }
            proof {
                lemma_plane_step(m0, mag@, fm, w as int, y as int, x as int);
                lemma_plane_step(d0, dir@, fd, w as int, y as int, x as int);
            }
            x = x + 1;
        }
        proof {
            lemma_plane_row(mag@, fm, w as int, y as int);
            lemma_plane_row(dir@, fd, w as int, y as int);
        }
        y = y + 1;
    }
    let ghost m1 = mag@;
    let ghost d1 = dir@;
    zero_magnitudes(mag, w * h);
    zero_samples(dir, w * h);
    proof {
        assert forall|j: int, i: int| 0 <= j < h && 0 <= i < w implies #[trigger] mag@[cell(
            j,
            i,
            w as int,
        )] == fm(j, i) by {
            lemma_cell(j, i, w as int, h as int);
            assert(m1[cell(j, i, w as int)] == fm(j, i));
        }
        assert forall|j: int, i: int| 0 <= j < h && 0 <= i < w implies #[trigger] dir@[cell(
            j,
            i,
            w as int,
        )] == fd(j, i) by {
            lemma_cell(j, i, w as int, h as int);
            assert(d1[cell(j, i, w as int)] == fd(j, i));
        }
    }
}

/// Absolute difference of two signals, position by position.
pub open spec fn abs_diff_at(a: Seq<u8>, b: Seq<u8>) -> spec_fn(int, int) -> int {
    |y: int, x: int| magnitude(a[x] - b[x])
}

/// Sum of the absolute differences of the first `n` samples of two signals.
pub open spec fn abs_diff_sum(a: Seq<u8>, b: Seq<u8>, n: int) -> int {
    line_sum(abs_diff_at(a, b), 0, 0, n)
}

/// A sum over samples together with their number: the exact form of a mean.
#[derive(Debug, Clone, Copy, PartialEq, Eq, Structural)]
pub struct Mean {
    /// The sum.
    pub sum: u64,
    /// The number of samples summed; zero stands for a mean of zero.
    pub count: u64,
}

/// Mean absolute difference of the first `n` samples of two signals, as a sum and
/// a count.
#[allow(unused_variables)]
pub fn mean_abs_diff(a: &[u8], b: &[u8], n: usize, use_simd: bool) -> (m: Mean)
    requires
        n <= a@.len(),
        n <= b@.len(),
        255 * n <= u64::MAX,
    ensures
        m.sum == abs_diff_sum(a@, b@, n as int),
        m.count == n,
        m.sum <= 255 * n,
{
    let mut sum: u64 = 0;
    let mut i: usize = 0;
    let ghost f = abs_diff_at(a@, b@);
    while i < n
        invariant
            n <= a@.len(),
            n <= b@.len(),
            255 * n <= u64::MAX,
            i <= n,
            f == abs_diff_at(a@, b@),
            sum == line_sum(f, 0, 0, i as int),
            sum <= 255 * i,
        decreases n - i,
    {
        let d: u8 = if a[i] >= b[i] {
            a[i] - b[i]
        } else {
            b[i] - a[i]
        };
        sum = sum + d as u64;
        i = i + 1;
    }
    Mean { sum, count: n as u64 }
}

/// One for a pixel whose largest channel is below 5 or above 250, zero for others.
pub open spec fn clipped_at(src: Seq<u8>, stride: int) -> spec_fn(int, int) -> int {
    |y: int, x: int|
        {
            let m = max3(
                blue(src, y, x, stride, ChannelOrder::Bgr),
                green(src, y, x, stride),
                red(src, y, x, stride, ChannelOrder::Bgr),
            );
            if 5 <= m <= 250 {
                0
            } else {
                1
            }
        }
}

/// Number of crushed or blown-out pixels of a packed three-byte-per-pixel frame.
#[allow(unused_variables)]
pub fn clipping_count(
    src: &[u8],
    width: u32,
    height: u32,
    stride: u32,
    use_simd: bool,
) -> (count: u64)
    requires
        3 * width <= stride,
        stride * height <= src.len(),
    ensures
        count == area_sum(
            clipped_at(src@, stride as int),
            0,
            height as int,
            0,
            width as int,
        ),
        count <= width * height,
{
    let w: usize = width as usize;
    let h: usize = height as usize;
    let s: usize = stride as usize;
    let ghost f = clipped_at(src@, stride as int);
    let mut count: u64 = 0;
    let mut y: usize = 0;
    proof {
        lemma_area_bound(width, height);
        assert(1 * (w * h) == w * h);
    }
    while y < h
        invariant
            3 * w <= s,
            s * h <= src.len(),
            y <= h,
            w * h <= u32::MAX * u32::MAX,
            1 * (w * h) == w * h,
            f == clipped_at(src@, s as int),
            count == area_sum(f, 0, y as int, 0, w as int),
        decreases h - y,
    {
        let mut x: usize = 0;
        while x < w
            invariant
                3 * w <= s,
                s * h <= src.len(),
                y < h,
                x <= w,
                w * h <= u32::MAX * u32::MAX,
                1 * (w * h) == w * h,
                f == clipped_at(src@, s as int),
                count == area_sum(f, 0, y as int, 0, w as int) + line_sum(f, y as int, 0, x as int),
            decreases w - x,
        {
            let (b, g, r) = pixel_at(src, y, x, w, h, s, ChannelOrder::Bgr);
            let m: u8 = if b >= g {
                b
            } else {
                g
            };
            let top: u8 = if m >= r {
                m
            } else {
                r
            };
            proof {
                lemma_partial_bound(f, 0, y as int, h as int, 0, x as int, w as int, 1);
            }
            if !(5 <= top && top <= 250) {
                count = count + 1;
            }
            x = x + 1;
        }
        y = y + 1;
    }
    proof {
        lemma_area_sum_bound(f, 0, h as int, 0, w as int, 0, 1);
    }
    count
}

/// Samples of a plane.
pub open spec fn sample_value(p: Seq<u8>, stride: int) -> spec_fn(int, int) -> int {
    |y: int, x: int| sample(p, y, x, stride)
}

/// Squared samples of a plane.
pub open spec fn sample_square(p: Seq<u8>, stride: int) -> spec_fn(int, int) -> int {
    |y: int, x: int| sample(p, y, x, stride) * sample(p, y, x, stride)
}

/// First and second moments of a plane: the exact form of its mean and variance.
#[derive(Debug, Clone, Copy, PartialEq, Eq, Structural)]
pub struct PlaneMoments {
    /// Number of samples.
    pub count: u64,
    /// Sum of the samples.
    pub sum: u64,
    /// Sum of the squared samples.
    pub sum_sq: u64,
}

/// Moments of a single-plane image with row stride `stride`.
#[allow(unused_variables)]
pub fn plane_mean_variance(
    plane: &[u8],
    width: usize,
    height: usize,
    stride: usize,
    use_simd: bool,
) -> (m: PlaneMoments)
    requires
        width > 0 && height > 0 ==> width <= stride && stride * height <= plane.len(),
        65025 * (width * height) <= u64::MAX,
    ensures
        m.count == width * height,
        m.sum == area_sum(
            sample_value(plane@, stride as int),
            0,
            height as int,
            0,
            width as int,
        ),
        m.sum_sq == area_sum(
            sample_square(plane@, stride as int),
            0,
            height as int,
            0,
            width as int,
        ),
{
    let ghost f = sample_value(plane@, stride as int);
    let ghost g = sample_square(plane@, stride as int);
    if width == 0 || height == 0 {
        proof {
            lemma_empty_area(f, width as int, height as int);
            lemma_empty_area(g, width as int, height as int);
        }
        return PlaneMoments { count: 0, sum: 0, sum_sq: 0 };
    }
    let mut sum: u64 = 0;
    let mut sum_sq: u64 = 0;
    let mut y: usize = 0;
    while y < height
        invariant
            width <= stride,
            stride * height <= plane.len(),
            65025 * (width * height) <= u64::MAX,
            y <= height,
            f == sample_value(plane@, stride as int),
            g == sample_square(plane@, stride as int),
            sum == area_sum(f, 0, y as int, 0, width as int),
            sum_sq == area_sum(g, 0, y as int, 0, width as int),
        decreases height - y,
    {
        let mut x: usize = 0;
        while x < width
            invariant
                width <= stride,
                stride * height <= plane.len(),
                65025 * (width * height) <= u64::MAX,
                y < height,
                x <= width,
                f == sample_value(plane@, stride as int),
                g == sample_square(plane@, stride as int),
                sum == area_sum(f, 0, y as int, 0, width as int) + line_sum(
                    f,
                    y as int,
                    0,
                    x as int,
                ),
                sum_sq == area_sum(g, 0, y as int, 0, width as int) + line_sum(
                    g,
                    y as int,
                    0,
                    x as int,
                ),
            decreases width - x,
        {
            let v: u64 = sample_at(plane, y, x, width, height, stride) as u64;
            proof {
                assert forall|j: int, i: int|
                    0 <= j < height && 0 <= i < width implies 0 <= #[trigger] g(j, i) <= 65025 by {
                    let q = sample(plane@, j, i, stride as int);
                    assert(0 <= q * q <= 65025) by (nonlinear_arith)
                        requires
                            0 <= q <= 255,
                    ;
                }
                lemma_partial_bound(
                    f,
                    0,
                    y as int,
                    height as int,
                    0,
                    x + 1,
                    width as int,
                    65025,
                );
                lemma_partial_bound(
                    g,
                    0,
                    y as int,
                    height as int,
                    0,
                    x + 1,
                    width as int,
                    65025,
                );
                assert(0 <= v * v <= 65025) by (nonlinear_arith)
                    requires
                        0 <= v <= 255,
                ;
            }
            sum = sum + v;
            sum_sq = sum_sq + v * v;
            x = x + 1;
        }
        y = y + 1;
    }
    let count: u64 = if height == 0 || width == 0 {
        proof {
            assert(width * height == 0) by (nonlinear_arith)
                requires
                    width == 0 || height == 0,
            ;
        }
        0
    } else {
        proof {
            assert(width * height <= stride * height) by (nonlinear_arith)
                requires
                    width <= stride,
                    0 <= height,
            ;
        }
        (width * height) as u64
    };
    PlaneMoments { count, sum, sum_sq }
}

/// Squared gradient length at an interior cell.
pub open spec fn gradient_energy(p: Seq<u8>, stride: int) -> spec_fn(int, int) -> int {
    |y: int, x: int|
        gradient_x(p, y, x, stride) * gradient_x(p, y, x, stride) + gradient_y(p, y, x, stride)
            * gradient_y(p, y, x, stride)
}

/// Number of interior cells of a `w` by `h` plane.
pub open spec fn interior_count(w: int, h: int) -> int {
    if w < 3 || h < 3 {
        0
    } else {
        (w - 2) * (h - 2)
    }
}

/// The interior of a plane is no larger than the buffer that holds it.
proof fn lemma_interior_count(w: int, h: int, stride: int)
    requires
        3 <= w <= stride,
        3 <= h,
    ensures
        0 < interior_count(w, h) <= stride * h,
{
    assert(0 < (w - 2) * (h - 2) <= stride * h) by (nonlinear_arith)
        requires
            3 <= w <= stride,
            3 <= h,
    ;
}

/// Mean squared Sobel gradient over the interior of a luma plane, as a sum and a
/// count. A plane without interior gives a mean of zero.
#[allow(unused_variables)]
pub fn tenengrad(
    luma: &[u8],
    width: usize,
    height: usize,
    stride: usize,
    use_simd: bool,
) -> (m: Mean)
    requires
        width >= 3 && height >= 3 ==> width <= stride && stride * height <= luma.len(),
        2080800 * interior_count(width as int, height as int) <= i64::MAX,
    ensures
        m.count == interior_count(width as int, height as int),
        m.sum == area_sum(
            gradient_energy(luma@, stride as int),
            1,
            height - 1,
            1,
            width - 1,
        ),
{
    let ghost f = gradient_energy(luma@, stride as int);
    if width < 3 || height < 3 {
        proof {
            lemma_no_interior(f, width as int, height as int);
        }
        return Mean { sum: 0, count: 0 };
    }
    let ghost inner = interior_count(width as int, height as int);
    proof {
        lemma_interior_count(width as int, height as int, stride as int);
    }
    let mut sum: u64 = 0;
    let mut y: usize = 1;
    while y < height - 1
        invariant
            width <= stride,
            width >= 3,
            height >= 3,
            stride * height <= luma.len(),
            inner == (width - 2) * (height - 2),
            2080800 * inner <= i64::MAX,
            1 <= y <= height - 1,
            f == gradient_energy(luma@, stride as int),
            sum == area_sum(f, 1, y as int, 1, width - 1),
        decreases height - y,
    {
        let mut x: usize = 1;
        while x < width - 1
            invariant
                width <= stride,
                width >= 3,
                height >= 3,
                stride * height <= luma.len(),
                inner == (width - 2) * (height - 2),
                2080800 * inner <= i64::MAX,
                1 <= y < height - 1,
                1 <= x <= width - 1,
                f == gradient_energy(luma@, stride as int),
                sum == area_sum(f, 1, y as int, 1, width - 1) + line_sum(f, y as int, 1, x as int),
            decreases width - x,
        {
            let (gx, gy) = gradients(luma, y, x, width, height, stride);
            proof {
                assert forall|j: int, i: int|
                    1 <= j < height - 1 && 1 <= i < width - 1 implies 0 <= #[trigger] f(j, i)
                    <= 2080800 by {
                    let a = gradient_x(luma@, j, i, stride as int);
                    let b = gradient_y(luma@, j, i, stride as int);
                    lemma_square_bound(a, 1020);
                    lemma_square_bound(b, 1020);
                }
                lemma_partial_bound(f, 1, y as int, height - 1, 1, x + 1, width - 1, 2080800);
                lemma_square_bound(gx as int, 1020);
                lemma_square_bound(gy as int, 1020);
            }
            sum = sum + (gx * gx + gy * gy) as u64;
            x = x + 1;
        }
        y = y + 1;
    }
    Mean { sum, count: ((width - 2) * (height - 2)) as u64 }
}

/// A square is bounded by the square of the bound.
pub proof fn lemma_square_bound(a: int, m: int)
    requires
        -m <= a <= m,
    ensures
        0 <= a * a <= m * m,
{
    assert(0 <= a * a <= m * m) by (nonlinear_arith)
        requires
            -m <= a <= m,
    ;
}

/// Over an empty plane there is nothing to sum.
proof fn lemma_empty_area(f: spec_fn(int, int) -> int, w: int, h: int)
    requires
        w == 0 || h == 0,
        0 <= w,
        0 <= h,
    ensures
        area_sum(f, 0, h, 0, w) == 0,
        w * h == 0,
    decreases h,
{
    if h > 0 {
        lemma_empty_area(f, w, h - 1);
    }
    assert(w * h == 0) by (nonlinear_arith)
        requires
            w == 0 || h == 0,
    ;
}

/// Without an interior there is nothing to sum.
pub proof fn lemma_no_interior(f: spec_fn(int, int) -> int, w: int, h: int)
    requires
        w < 3 || h < 3,
        0 <= w,
        0 <= h,
    ensures
        area_sum(f, 1, h - 1, 1, w - 1) == 0,
    decreases h,
{
    if h >= 3 {
        lemma_no_interior(f, w, h - 1);
    }
}

/// Absolute response to the mask `[[1,-2,1],[-2,4,-2],[1,-2,1]]`.
pub open spec fn laplacian_response(p: Seq<u8>, stride: int) -> spec_fn(int, int) -> int {
    |y: int, x: int|
        magnitude(
            4 * sample(p, y, x, stride) - 2 * (sample(p, y - 1, x, stride) + sample(
                p,
                y + 1,
                x,
                stride,
            ) + sample(p, y, x - 1, stride) + sample(p, y, x + 1, stride)) + (sample(
                p,
                y - 1,
                x - 1,
                stride,
            ) + sample(p, y - 1, x + 1, stride) + sample(p, y + 1, x - 1, stride) + sample(
                p,
                y + 1,
                x + 1,
                stride,
            )),
        )
}

/// Mean absolute Laplacian response over the interior of a luma plane, as a sum
/// and a count; noise in a frame is proportional to it. A plane without interior
/// gives a mean of zero.
#[allow(unused_variables)]
pub fn noise(
    luma: &[u8],
    width: usize,
    height: usize,
    stride: usize,
    use_simd: bool,
) -> (m: Mean)
    requires
        width >= 3 && height >= 3 ==> width <= stride && stride * height <= luma.len(),
        4080 * interior_count(width as int, height as int) <= i64::MAX,
    ensures
        m.count == interior_count(width as int, height as int),
        m.sum == area_sum(
            laplacian_response(luma@, stride as int),
            1,
            height - 1,
            1,
            width - 1,
        ),
{
    let ghost f = laplacian_response(luma@, stride as int);
    if width < 3 || height < 3 {
        proof {
            lemma_no_interior(f, width as int, height as int);
        }
        return Mean { sum: 0, count: 0 };
    }
    let ghost inner = interior_count(width as int, height as int);
    proof {
        lemma_interior_count(width as int, height as int, stride as int);
    }
    let mut sum: u64 = 0;
    let mut y: usize = 1;
    while y < height - 1
        invariant
            width <= stride,
            width >= 3,
            height >= 3,
            stride * height <= luma.len(),
            inner == (width - 2) * (height - 2),
            4080 * inner <= i64::MAX,
            1 <= y <= height - 1,
            f == laplacian_response(luma@, stride as int),
            sum == area_sum(f, 1, y as int, 1, width - 1),
        decreases height - y,
    {
        let mut x: usize = 1;
        while x < width - 1
            invariant
                width <= stride,
                width >= 3,
                height >= 3,
                stride * height <= luma.len(),
                inner == (width - 2) * (height - 2),
                4080 * inner <= i64::MAX,
                1 <= y < height - 1,
                1 <= x <= width - 1,
                f == laplacian_response(luma@, stride as int),
                sum == area_sum(f, 1, y as int, 1, width - 1) + line_sum(f, y as int, 1, x as int),
            decreases width - x,
        {
            let c: i32 = sample_at(luma, y, x, width, height, stride);
            let t: i32 = sample_at(luma, y - 1, x, width, height, stride);
            let b: i32 = sample_at(luma, y + 1, x, width, height, stride);
            let l: i32 = sample_at(luma, y, x - 1, width, height, stride);
            let r: i32 = sample_at(luma, y, x + 1, width, height, stride);
            let tl: i32 = sample_at(luma, y - 1, x - 1, width, height, stride);
            let tr: i32 = sample_at(luma, y - 1, x + 1, width, height, stride);
            let bl: i32 = sample_at(luma, y + 1, x - 1, width, height, stride);
            let br: i32 = sample_at(luma, y + 1, x + 1, width, height, stride);
            let response: i32 = abs(4 * c - 2 * (t + b + l + r) + (tl + tr + bl + br));
            proof {
                lemma_partial_bound(f, 1, y as int, height - 1, 1, x + 1, width - 1, 4080);
            }
            sum = sum + response as u64;
            x = x + 1;
        }
        y = y + 1;
    }
    Mean { sum, count: ((width - 2) * (height - 2)) as u64 }
}

/// Gradient magnitude of the cells whose direction falls into bin `k`; cells
/// without a positive magnitude weigh nothing.
pub open spec fn bin_weight(
    mag: Seq<i32>,
    dir: Seq<u8>,
    w: int,
    k: int,
) -> spec_fn(int, int) -> int {
    |y: int, x: int|
        if mag[cell(y, x, w)] > 0 && dir[cell(y, x, w)] as int % 4 == k {
            mag[cell(y, x, w)] as int
        } else {
            0
        }
}

/// Total gradient magnitude in direction bin `k` over the interior, held at
/// `u64::MAX`.
pub open spec fn bin_total(mag: Seq<i32>, dir: Seq<u8>, w: int, h: int, k: int) -> int {
    saturated(area_sum(bin_weight(mag, dir, w, k), 1, h - 1, 1, w - 1))
}

/// A sum held at the largest `u64`.
pub open spec fn saturated(a: int) -> int {
    if a > u64::MAX {
        u64::MAX as int
    } else {
        a
    }
}

/// Share of the strongest gradient direction: the weight of the heaviest bin out
/// of the weight of all four.
#[derive(Debug, Clone, Copy, PartialEq, Eq, Structural)]
pub struct Dominance {
    /// Weight of the heaviest direction bin.
    pub heaviest: u64,
    /// Weight of all direction bins.
    pub total: u64,
}

/// The larger of two weights.
pub open spec fn heavier(a: int, b: int) -> int {
    if a >= b {
        a
    } else {
        b
    }
}

/// Magnitude-weighted concentration of the gradient directions over the interior
/// of a `width` by `height` plane: the weight of the heaviest of the four
/// direction bins and of all four together. `None` where no cell has a gradient.
#[allow(unused_variables)]
pub fn gradient_anisotropy(
    mag: &[i32],
    dir: &[u8],
    width: usize,
    height: usize,
    use_simd: bool,
) -> (d: Option<Dominance>)
    requires
        width * height <= mag.len(),
        width * height <= dir.len(),
        bin_total(mag@, dir@, width as int, height as int, 0) + bin_total(
            mag@,
            dir@,
            width as int,
            height as int,
            1,
        ) + bin_total(mag@, dir@, width as int, height as int, 2) + bin_total(
            mag@,
            dir@,
            width as int,
            height as int,
            3,
        ) <= u64::MAX,
    ensures
        ({
            let b0 = bin_total(mag@, dir@, width as int, height as int, 0);
            let b1 = bin_total(mag@, dir@, width as int, height as int, 1);
            let b2 = bin_total(mag@, dir@, width as int, height as int, 2);
            let b3 = bin_total(mag@, dir@, width as int, height as int, 3);
            match d {
                None => b0 + b1 + b2 + b3 == 0,
                Some(s) => {
                    &&& s.total > 0
                    &&& s.total == b0 + b1 + b2 + b3
                    &&& s.heaviest == heavier(heavier(b0, b1), heavier(b2, b3))
                },
            }
        }),
{
    let ghost w = width as int;
    let ghost h = height as int;
    let ghost f = |k: int| bin_weight(mag@, dir@, w, k);
    if width < 3 || height < 3 {
        proof {
            lemma_no_interior(f(0), w, h);
            lemma_no_interior(f(1), w, h);
            lemma_no_interior(f(2), w, h);
            lemma_no_interior(f(3), w, h);
        }
        return None;
    }
    let mut bins: [u64; 4] = [0u64; 4];
    let mut y: usize = 1;
    while y < height - 1
        invariant
            w == width,
            h == height,
            width >= 3,
            height >= 3,
            width * height <= mag.len(),
            width * height <= dir.len(),
            1 <= y <= height - 1,
            bins@.len() == 4,
            f == (|k: int| bin_weight(mag@, dir@, w, k)),
            forall|k: int|
                0 <= k < 4 ==> #[trigger] bins@[k] == saturated(
                    area_sum(f(k), 1, y as int, 1, w - 1),
                ),
        decreases height - y,
    {
        let mut x: usize = 1;
        while x < width - 1
            invariant
                w == width,
                h == height,
                width >= 3,
                height >= 3,
                width * height <= mag.len(),
                width * height <= dir.len(),
                1 <= y < height - 1,
                1 <= x <= width - 1,
                bins@.len() == 4,
                f == (|k: int| bin_weight(mag@, dir@, w, k)),
                forall|k: int|
                    0 <= k < 4 ==> #[trigger] bins@[k] == saturated(
                        area_sum(f(k), 1, y as int, 1, w - 1) + line_sum(
                            f(k),
                            y as int,
                            1,
                            x as int,
                        ),
                    ),
            decreases width - x,
        {
            proof {
                lemma_cell(y as int, x as int, w, h);
            }
            let at: usize = y * width + x;
            let m: i32 = mag[at];
            let d: usize = (dir[at] % 4) as usize;
            assert(at == cell(y as int, x as int, w));
            let ghost before = bins@;
            if m > 0 {
                let held: u64 = bins[d];
                bins[d] = held.saturating_add(m as u64);
            }
            proof {
                assert forall|k: int| 0 <= k < 4 implies #[trigger] bins@[k] == saturated(
                    area_sum(f(k), 1, y as int, 1, w - 1) + line_sum(f(k), y as int, 1, x + 1),
                ) by {
                    assert(line_sum(f(k), y as int, 1, x + 1) == line_sum(
                        f(k),
                        y as int,
                        1,
                        x as int,
                    ) + f(k)(y as int, x as int));
                    assert(before[k] == saturated(
                        area_sum(f(k), 1, y as int, 1, w - 1) + line_sum(
                            f(k),
                            y as int,
                            1,
                            x as int,
                        ),
                    ));
                }
            }
            x = x + 1;
        }
        y = y + 1;
    }
    proof {
        assert(bins@[0] == bin_total(mag@, dir@, w, h, 0));
        assert(bins@[1] == bin_total(mag@, dir@, w, h, 1));
        assert(bins@[2] == bin_total(mag@, dir@, w, h, 2));
        assert(bins@[3] == bin_total(mag@, dir@, w, h, 3));
    }
    let total: u64 = bins[0] + bins[1] + bins[2] + bins[3];
    if total == 0 {
        return None;
    }
    let a: u64 = if bins[0] >= bins[1] {
        bins[0]
    } else {
        bins[1]
    };
    let b: u64 = if bins[2] >= bins[3] {
        bins[2]
    } else {
        bins[3]
    };
    Some(
        Dominance {
            heaviest: if a >= b {
                a
            } else {
                b
            },
            total,
        },
    )
}

/// Red minus green.
pub open spec fn red_green(
    src: Seq<u8>,
    stride: int,
    order: ChannelOrder,
) -> spec_fn(int, int) -> int {
    |y: int, x: int| red(src, y, x, stride, order) - green(src, y, x, stride)
}

/// Twice the yellow-blue opponent: red plus green minus twice blue.
pub open spec fn yellow_blue(
    src: Seq<u8>,
    stride: int,
    order: ChannelOrder,
) -> spec_fn(int, int) -> int {
    |y: int, x: int|
        red(src, y, x, stride, order) + green(src, y, x, stride) - 2 * blue(
            src,
            y,
            x,
            stride,
            order,
        )
}

/// The square of a signal.
pub open spec fn squared(f: spec_fn(int, int) -> int) -> spec_fn(int, int) -> int {
    |y: int, x: int| f(y, x) * f(y, x)
}

/// Moments of the two color-opponent signals of a frame: the exact form of what
/// colorfulness is computed from.
#[derive(Debug, Clone, Copy, PartialEq, Eq, Structural)]
pub struct ColorMoments {
    /// Number of pixels.
    pub count: u64,
    /// Sum of red minus green.
    pub sum_rg: i64,
    /// Sum of red plus green minus twice blue.
    pub sum_yb: i64,
    /// Sum of the squares of red minus green.
    pub sum_rg_sq: u64,
    /// Sum of the squares of red plus green minus twice blue.
    pub sum_yb_sq: u64,
}

/// Moments of the color-opponent signals of a packed three-byte-per-pixel frame.
#[allow(unused_variables)]
pub fn colorfulness(
    bgr: &[u8],
    width: usize,
    height: usize,
    stride: usize,
    order: ChannelOrder,
    use_simd: bool,
) -> (m: ColorMoments)
    requires
        width > 0 && height > 0 ==> 3 * width <= stride && stride * height <= bgr.len(),
        260100 * (width * height) <= i64::MAX,
    ensures
        m.count == width * height,
        m.sum_rg == area_sum(
            red_green(bgr@, stride as int, order),
            0,
            height as int,
            0,
            width as int,
        ),
        m.sum_yb == area_sum(
            yellow_blue(bgr@, stride as int, order),
            0,
            height as int,
            0,
            width as int,
        ),
        m.sum_rg_sq == area_sum(
            squared(red_green(bgr@, stride as int, order)),
            0,
            height as int,
            0,
            width as int,
        ),
        m.sum_yb_sq == area_sum(
            squared(yellow_blue(bgr@, stride as int, order)),
            0,
            height as int,
            0,
            width as int,
        ),
{
    let ghost f = red_green(bgr@, stride as int, order);
    let ghost g = yellow_blue(bgr@, stride as int, order);
    let mut m: ColorMoments = ColorMoments {
        count: 0,
        sum_rg: 0,
        sum_yb: 0,
        sum_rg_sq: 0,
        sum_yb_sq: 0,
    };
    if width == 0 || height == 0 {
        proof {
            lemma_empty_area(f, width as int, height as int);
            lemma_empty_area(g, width as int, height as int);
            lemma_empty_area(squared(f), width as int, height as int);
            lemma_empty_area(squared(g), width as int, height as int);
        }
        return m;
    }
    let mut y: usize = 0;
    while y < height
        invariant
            3 * width <= stride,
            stride * height <= bgr.len(),
            260100 * (width * height) <= i64::MAX,
            y <= height,
            f == red_green(bgr@, stride as int, order),
            g == yellow_blue(bgr@, stride as int, order),
            m.count == width * y,
            m.sum_rg == area_sum(f, 0, y as int, 0, width as int),
            m.sum_yb == area_sum(g, 0, y as int, 0, width as int),
            m.sum_rg_sq == area_sum(squared(f), 0, y as int, 0, width as int),
            m.sum_yb_sq == area_sum(squared(g), 0, y as int, 0, width as int),
        decreases height - y,
    {
        let mut x: usize = 0;
        while x < width
            invariant
                3 * width <= stride,
                stride * height <= bgr.len(),
                260100 * (width * height) <= i64::MAX,
                y < height,
                x <= width,
                f == red_green(bgr@, stride as int, order),
                g == yellow_blue(bgr@, stride as int, order),
                m.count == width * y + x,
                m.sum_rg == area_sum(f, 0, y as int, 0, width as int) + line_sum(
                    f,
                    y as int,
                    0,
                    x as int,
                ),
                m.sum_yb == area_sum(g, 0, y as int, 0, width as int) + line_sum(
                    g,
                    y as int,
                    0,
                    x as int,
                ),
                m.sum_rg_sq == area_sum(squared(f), 0, y as int, 0, width as int) + line_sum(
                    squared(f),
                    y as int,
                    0,
                    x as int,
                ),
                m.sum_yb_sq == area_sum(squared(g), 0, y as int, 0, width as int) + line_sum(
                    squared(g),
                    y as int,
                    0,
                    x as int,
                ),
            decreases width - x,
        {
            let (b, gr, r) = pixel_at(bgr, y, x, width, height, stride, order);
            let rg: i64 = r as i64 - gr as i64;
            let yb: i64 = r as i64 + gr as i64 - 2 * b as i64;
            proof {
                lemma_color_bounds(
                    bgr@,
                    y as int,
                    x as int,
                    width as int,
                    height as int,
                    stride as int,
                    order,
                );
                lemma_square_bound(rg as int, 510);
                lemma_square_bound(yb as int, 510);
                assert(width * y + x < width * height) by {
                    lemma_cell(y as int, x as int, width as int, height as int);
                    assert(y * width == width * y) by (nonlinear_arith);
                }
            }
            m.count = m.count + 1;
            m.sum_rg = m.sum_rg + rg;
            m.sum_yb = m.sum_yb + yb;
            m.sum_rg_sq = m.sum_rg_sq + (rg * rg) as u64;
            m.sum_yb_sq = m.sum_yb_sq + (yb * yb) as u64;
            x = x + 1;
        }
        proof {
            assert(width * y + width == width * (y + 1)) by (nonlinear_arith);
        }
        y = y + 1;
    }
    m
}

/// Partial sums of the color-opponent signals and of their squares stay within
/// the bound that a whole frame of extreme pixels would reach.
proof fn lemma_color_bounds(
    src: Seq<u8>,
    y: int,
    x: int,
    w: int,
    h: int,
    stride: int,
    order: ChannelOrder,
)
    requires
        0 <= y < h,
        0 <= x < w,
    ensures
        ({
            let f = red_green(src, stride, order);
            let g = yellow_blue(src, stride, order);
            let top = 260100 * (w * h);
            &&& -top <= area_sum(f, 0, y, 0, w) + line_sum(f, y, 0, x + 1) <= top
            &&& -top <= area_sum(g, 0, y, 0, w) + line_sum(g, y, 0, x + 1) <= top
            &&& 0 <= area_sum(squared(f), 0, y, 0, w) + line_sum(squared(f), y, 0, x + 1) <= top
            &&& 0 <= area_sum(squared(g), 0, y, 0, w) + line_sum(squared(g), y, 0, x + 1) <= top
        }),
{
    let f = red_green(src, stride, order);
    let g = yellow_blue(src, stride, order);
    assert forall|j: int, i: int| 0 <= j < h && 0 <= i < w implies 0 <= #[trigger] squared(f)(j, i)
        <= 260100 by {
        lemma_square_bound(f(j, i), 510);
    }
    assert forall|j: int, i: int| 0 <= j < h && 0 <= i < w implies 0 <= #[trigger] squared(g)(j, i)
        <= 260100 by {
        lemma_square_bound(g(j, i), 510);
    }
    lemma_partial_signed_bound(f, 0, y, h, 0, x + 1, w, 260100);
    lemma_partial_signed_bound(g, 0, y, h, 0, x + 1, w, 260100);
    lemma_partial_bound(squared(f), 0, y, h, 0, x + 1, w, 260100);
    lemma_partial_bound(squared(g), 0, y, h, 0, x + 1, w, 260100);
}

/// The value of a pixel is its largest channel: none exceeds it, and it is one of them.
pub proof fn value_is_the_largest_channel(b: u8, g: u8, r: u8)
    ensures
        b <= max3(b, g, r) && g <= max3(b, g, r) && r <= max3(b, g, r),
        max3(b, g, r) == b || max3(b, g, r) == g || max3(b, g, r) == r,
        min3(b, g, r) <= b && min3(b, g, r) <= g && min3(b, g, r) <= r,
        min3(b, g, r) == b || min3(b, g, r) == g || min3(b, g, r) == r,
{
}

/// A rounded quotient is nearest to the exact one.
proof fn lemma_round_div_nearest(a: int, d: int)
    requires
        d > 0,
    ensures
        2 * (round_div(a, d) * d) <= 2 * a + d,
        2 * a < 2 * (round_div(a, d) * d) + d,
{
    let q = round_div(a, d);
    let m = (2 * a + d) % (2 * d);
    lemma_fundamental_div_mod(2 * a + d, 2 * d);
    assert(2 * (q * d) <= 2 * a + d && 2 * a < 2 * (q * d) + d) by (nonlinear_arith)
        requires
            2 * a + d == (2 * d) * q + m,
            0 <= m < 2 * d,
            d > 0,
    ;
}

/// The saturation of a pixel is the share of its largest channel by which that exceeds the
/// smallest, in 255ths, to the nearest integer: none without color, all of it where a channel
/// is missing.
pub proof fn saturation_is_the_share_of_color(b: u8, g: u8, r: u8)
    ensures
        ({
            let v = max3(b, g, r) as int;
            let c = v - min3(b, g, r);
            let s = saturation_of(b, g, r);
            &&& 2 * (s * v) <= 2 * (255 * c) + v
            &&& v > 0 ==> 2 * (255 * c) < 2 * (s * v) + v
            &&& b == g && g == r ==> s == 0
            &&& v > 0 && c == v ==> s == 255
            &&& v == 0 ==> s == 0
        }),
{
    let v = max3(b, g, r) as int;
    let c = v - min3(b, g, r);
    if v > 0 {
        lemma_round_div_nearest(255 * c, v);
        if c == 0 {
            lemma_round_div_range(0, v, 0, 0);
        }
        if c == v {
            lemma_round_div_range(255 * v, v, 255, 255);
        }
    }
}

/// Between red and yellow, hue is the share of green that comes on top of blue, in 30ths of
/// the color of the pixel, to the nearest integer. A gray pixel has hue zero.
pub proof fn hue_starts_at_red(b: u8, g: u8, r: u8)
    requires
        r >= g >= b,
    ensures
        r == b ==> hue_of(b, g, r) == 0,
        r > b ==> 2 * (hue_of(b, g, r) * (r - b)) <= 2 * (30 * (g - b)) + (r - b),
        r > b ==> 2 * (30 * (g - b)) < 2 * (hue_of(b, g, r) * (r - b)) + (r - b),
{
    if r > b {
        lemma_round_div_nearest(30 * (g - b), r - b);
    }
}

/// Hue goes round the color wheel: where each channel takes the place of the next, red that
/// of green, green that of blue and blue that of red, the hue moves by a third of the wheel.
/// Short of red, hues that would round up to the full wheel stay at the last one.
pub proof fn hue_turns_with_the_channels(b: u8, g: u8, r: u8)
    ensures
        r > g && r > b && g >= b ==> hue_of(g, r, b) == hue_of(b, g, r) + 60,
        r > g && b > g && r > b ==> hue_of(b, g, r) == if hue_of(g, r, b) + 120 > 179 {
            179
        } else {
            hue_of(g, r, b) + 120
        },
        g > r && g > b ==> hue_of(g, r, b) == hue_of(b, g, r) + 60,
{
}

/// The luma of a pixel is a weighted mean of its channels, rounded down: that of a gray pixel
/// is its gray, and a brighter channel never makes it darker.
pub proof fn luma_is_a_mean(b: u8, g: u8, r: u8, b2: u8, g2: u8, r2: u8)
    ensures
        luma_of(g, g, g) == g,
        0 <= luma_of(b, g, r) <= 255,
        b <= b2 && g <= g2 && r <= r2 ==> luma_of(b, g, r) <= luma_of(b2, g2, r2),
        256 * luma_of(b, g, r) <= 77 * r + 150 * g + 29 * b < 256 * (luma_of(b, g, r) + 1),
{
}

/// A packed pixel takes three bytes: blue, green and red in one order, red, green and blue in
/// the other.
pub proof fn pixels_are_packed_in_threes(
    src: Seq<u8>,
    y: int,
    x: int,
    stride: int,
    order: ChannelOrder,
)
    ensures
        ({
            let at = y * stride + 3 * x;
            let (p, q) = (blue(src, y, x, stride, order), red(src, y, x, stride, order));
            &&& green(src, y, x, stride) == src[at + 1]
            &&& order == ChannelOrder::Bgr ==> p == src[at] && q == src[at + 2]
            &&& order == ChannelOrder::Rgb ==> p == src[at + 2] && q == src[at]
            &&& value_at(src, stride, order)(y, x) == max3(p, src[at + 1], q)
            &&& hue_at(src, stride, order)(y, x) == hue_of(p, src[at + 1], q)
            &&& saturation_at(src, stride, order)(y, x) == saturation_of(p, src[at + 1], q)
            &&& luma_at(src, stride, order)(y, x) == luma_of(p, src[at + 1], q)
            &&& red_green(src, stride, order)(y, x) == q - src[at + 1]
            &&& yellow_blue(src, stride, order)(y, x) == q + src[at + 1] - 2 * p
        }),
{
    let at = y * stride + 3 * x;
    lemma_hsv_range(
        blue(src, y, x, stride, order),
        src[at + 1],
        red(src, y, x, stride, order),
    );
}

/// A pixel is clipped, crushed or blown out, just where all of its channels lie below 5 or
/// one lies above 250.
pub proof fn clipped_pixels_are_dark_or_blown_out(src: Seq<u8>, y: int, x: int, stride: int)
    ensures
        ({
            let at = y * stride + 3 * x;
            let (b, g, r) = (src[at], src[at + 1], src[at + 2]);
            clipped_at(src, stride)(y, x) == if (b < 5 && g < 5 && r < 5) || b > 250 || g > 250
                || r > 250 {
                1int
            } else {
                0
            }
        }),
{
}

/// The neighbors of an inner cell lie in the buffer, each at its own place.
proof fn lemma_neighbors_apart(p: Seq<u8>, y: int, x: int, stride: int, dy: int)
    requires
        1 <= y,
        1 <= x < stride - 1,
        (y + 2) * stride <= p.len(),
        -1 <= dy <= 1,
    ensures
        (y - 1) * stride == y * stride - stride,
        (y + 1) * stride == y * stride + stride,
        (y + dy) * stride == if dy == 0 {
            y * stride
        } else if dy == 1 {
            y * stride + stride
        } else {
            y * stride - stride
        },
        y * stride >= stride,
        y * stride + 2 * stride <= p.len(),
{
    assert((y - 1) * stride == y * stride - stride) by (nonlinear_arith);
    assert((y + 1) * stride == y * stride + stride) by (nonlinear_arith);
    assert((y + 2) * stride == y * stride + 2 * stride) by (nonlinear_arith);
    assert(y * stride >= stride) by (nonlinear_arith)
        requires
            y >= 1,
            stride >= 0,
    ;
    assert(y + dy == if dy == 0 {
        y
    } else if dy == 1 {
        y + 1
    } else {
        y - 1
    });
}

/// The Sobel gradients weigh the neighbors of a cell: where one neighbor, `dy` rows and `dx`
/// columns off, gets brighter by some amount, the horizontal gradient grows by that amount to
/// the right and shrinks by it to the left, twice as much in the row of the cell; and the
/// vertical one grows by it below and shrinks by it above, twice as much in its column.
pub proof fn gradients_weigh_the_neighbors(
    p: Seq<u8>,
    q: Seq<u8>,
    y: int,
    x: int,
    stride: int,
    dy: int,
    dx: int,
)
    requires
        1 <= y,
        1 <= x < stride - 1,
        (y + 2) * stride <= p.len(),
        p.len() == q.len(),
        -1 <= dy <= 1,
        -1 <= dx <= 1,
        forall|i: int|
            0 <= i < p.len() && i != (y + dy) * stride + (x + dx) ==> #[trigger] p[i] == q[i],
    ensures
        ({
            let gain = q[(y + dy) * stride + (x + dx)] - p[(y + dy) * stride + (x + dx)];
            let across = if dy == 0 {
                2 * gain
            } else {
                gain
            };
            let along = if dx == 0 {
                2 * gain
            } else {
                gain
            };
            &&& gradient_x(q, y, x, stride) - gradient_x(p, y, x, stride) == if dx == 1 {
                across
            } else if dx == -1 {
                -across
            } else {
                0
            }
            &&& gradient_y(q, y, x, stride) - gradient_y(p, y, x, stride) == if dy == 1 {
                along
            } else if dy == -1 {
                -along
            } else {
                0
            }
        }),
{
    lemma_neighbors_apart(p, y, x, stride, dy);
}

/// A plane without contrast has no gradient and no Laplacian response.
pub proof fn flat_planes_have_no_gradient(p: Seq<u8>, y: int, x: int, stride: int, c: u8)
    requires
        1 <= y,
        1 <= x < stride - 1,
        (y + 2) * stride <= p.len(),
        forall|i: int| 0 <= i < p.len() ==> #[trigger] p[i] == c,
    ensures
        gradient_x(p, y, x, stride) == 0,
        gradient_y(p, y, x, stride) == 0,
        laplacian_response(p, stride)(y, x) == 0,
{
    lemma_neighbors_apart(p, y, x, stride, 0);
}

/// The Laplacian weighs a spot on a flat plane: by four where it is the cell itself, by two
/// where it lies beside it, and by one at its corners.
pub proof fn the_laplacian_weighs_spots(
    p: Seq<u8>,
    y: int,
    x: int,
    stride: int,
    dy: int,
    dx: int,
    ground: u8,
)
    requires
        1 <= y,
        1 <= x < stride - 1,
        (y + 2) * stride <= p.len(),
        -1 <= dy <= 1,
        -1 <= dx <= 1,
        forall|i: int|
            0 <= i < p.len() && i != (y + dy) * stride + (x + dx) ==> #[trigger] p[i] == ground,
    ensures
        ({
            let spot = p[(y + dy) * stride + (x + dx)] - ground;
            let contrast = if spot < 0 {
                -spot
            } else {
                spot
            };
            laplacian_response(p, stride)(y, x) == if dy == 0 && dx == 0 {
                4 * contrast
            } else if dy == 0 || dx == 0 {
                2 * contrast
            } else {
                contrast
            }
        }),
{
    lemma_neighbors_apart(p, y, x, stride, dy);
}

/// The magnitude of a gradient is the sum of its absolute parts, and the border has none; the
/// energy of a gradient is the sum of their squares.
pub proof fn magnitude_adds_up_both_gradients(p: Seq<u8>, y: int, x: int, w: int, h: int)
    ensures
        ({
            let gx = gradient_x(p, y, x, w);
            let gy = gradient_y(p, y, x, w);
            let inner = 1 <= y < h - 1 && 1 <= x < w - 1;
            let m = edge_magnitude(p, w, h)(y, x);
            &&& inner ==> m >= gx && m >= -gx && m >= gy && m >= -gy
            &&& inner ==> m == gx + gy || m == gx - gy || m == gy - gx || m == -gx - gy
            &&& inner ==> m >= gx + gy && m >= gx - gy && m >= gy - gx && m >= -gx - gy
            &&& !inner ==> m == 0 && edge_direction(p, w, h)(y, x) == 0
            &&& inner ==> edge_direction(p, w, h)(y, x) == direction(gx, gy)
            &&& gradient_energy(p, w)(y, x) == gx * gx + gy * gy
        }),
{
    lemma_gradient_bounds(p, y, x, w);
}

/// Directions are those of lines: a gradient has the direction of its opposite, and a mirrored
/// one lies on the other diagonal. Flat ones are horizontal, steep ones vertical, and those in
/// between lie on a diagonal.
pub proof fn directions_are_those_of_lines(gx: int, gy: int)
    ensures
        direction(-gx, -gy) == direction(gx, gy),
        direction(gx, gy) == 0 ==> direction(-gx, gy) == 0,
        direction(gx, gy) == 2 ==> direction(-gx, gy) == 2,
        gx != 0 && gy != 0 && direction(gx, gy) == 1 ==> direction(-gx, gy) == 3,
        gx != 0 && gy != 0 && direction(gx, gy) == 3 ==> direction(-gx, gy) == 1,
        gx != 0 ==> direction(gx, 0) == 0 && direction(gx, gx) == 1 && direction(gx, -gx) == 3,
        gy != 0 ==> direction(0, gy) == 2,
        gx >= 0 && gy >= 0 ==> {
            &&& direction(gx, gy) == 0 <==> 1000 * gy < 414 * gx
            &&& direction(gx, gy) == 2 <==> 1000 * gy > 2414 * gx
            &&& direction(gx, gy) == 0 || direction(gx, gy) == 2 || direction(gx, gy) == 1
        },
{
}

/// The sum of absolute differences starts at zero, and each pair of samples adds the distance
/// between them.
pub proof fn differences_add_up(a: Seq<u8>, b: Seq<u8>, n: int)
    requires
        n >= 0,
    ensures
        abs_diff_sum(a, b, 0) == 0,
        a[n] >= b[n] ==> abs_diff_sum(a, b, n + 1) == abs_diff_sum(a, b, n) + (a[n] - b[n]),
        a[n] <= b[n] ==> abs_diff_sum(a, b, n + 1) == abs_diff_sum(a, b, n) + (b[n] - a[n]),
{
}

/// Every cell with a gradient weighs in one direction bin, with its magnitude; cells without
/// one weigh in none.
pub proof fn every_cell_weighs_in_one_bin(mag: Seq<i32>, dir: Seq<u8>, w: int, y: int, x: int)
    requires
        dir[y * w + x] < 4,
    ensures
        ({
            let m = mag[y * w + x] as int;
            let d = dir[y * w + x] as int;
            &&& forall|k: int|
                0 <= k < 4 ==> #[trigger] bin_weight(mag, dir, w, k)(y, x) == if k == d && m > 0 {
                    m
                } else {
                    0
                }
        }),
{
}

/// The heavier of two weights is one of them, and the other does not exceed it.
pub proof fn the_heavier_weight_exceeds_none(a: int, b: int)
    ensures
        heavier(a, b) >= a,
        heavier(a, b) >= b,
        heavier(a, b) == a || heavier(a, b) == b,
{
}

/// The interior of a plane is counted cell by cell.
pub proof fn the_interior_is_counted_cell_by_cell(w: int, h: int)
    requires
        0 <= w,
        0 <= h,
    ensures
        interior_count(w, h) == area_sum(|y: int, x: int| 1int, 1, h - 1, 1, w - 1),
{
    let one = |y: int, x: int| 1int;
    if w < 3 || h < 3 {
        lemma_no_interior(one, w, h);
    } else {
        lemma_area_sum_bound(one, 1, h - 1, 1, w - 1, 1, 1);
        assert((w - 1 - 1) * (h - 1 - 1) == (w - 2) * (h - 2));
    }
}

/// The weight of a direction bin is the sum of the magnitudes that fall into it, where that
/// can be counted in 64 bits.
pub proof fn bins_add_up_their_magnitudes(mag: Seq<i32>, dir: Seq<u8>, w: int, h: int, k: int)
    requires
        area_sum(bin_weight(mag, dir, w, k), 1, h - 1, 1, w - 1) <= u64::MAX,
    ensures
        bin_total(mag, dir, w, h, k) == area_sum(
            bin_weight(mag, dir, w, k),
            1,
            h - 1,
            1,
            w - 1,
        ),
{
}

} // verus!
