//! The staged quality metrics of a frame, in exact form.
//!
//! The cheap metrics always run. A caller-supplied gate judges them, and only a
//! frame that passes pays for the expensive ones.

use vstd::prelude::*;

use crate::arch::{
    bin_total, bin_weight, clipped_at, clipping_count, colorfulness, edge_direction,
    edge_magnitude, gradient_anisotropy, gradient_energy, gradient_x, gradient_y, heavier,
    interior_count, laplacian_response, lemma_gradient_bounds, lemma_no_interior, lemma_square_bound, noise,
    plane_mean_variance, red_green, sample_square, sample_value, sobel, squared, tenengrad, yellow_blue, ColorMoments,
    Dominance, Mean, PlaneMoments,
};
use crate::cascade::flags::Extractors;
use crate::cascade::frames::Frames;
use crate::content::{copy_plane, strided};
use crate::frame::{ChannelOrder, HsvFrame, LumaFrame, RgbFrame};
use crate::grid::{cell, lemma_cell, lemma_plane_of, plane_of};
use crate::sum::{area_sum, lemma_area_sum_bound};

verus! {

/// The metrics that every frame pays for.
#[derive(Debug, Clone, Copy, PartialEq, Eq, Structural)]
pub struct CheapMetrics {
    /// Moments of luma, for brightness and variance.
    pub luma: PlaneMoments,
    /// Moments of saturation, for its variance.
    pub saturation: PlaneMoments,
    /// Crushed and blown-out pixels, out of all.
    pub clipping: Mean,
}

/// The metrics of a frame. An expensive one that did not run is absent.
#[derive(Debug, Clone, Copy, PartialEq, Eq, Structural)]
pub struct StagedMetrics {
    /// The metrics that every frame pays for.
    pub cheap: CheapMetrics,
    /// Mean squared gradient.
    pub sharpness: Option<Mean>,
    /// Mean absolute Laplacian response.
    pub noise: Option<Mean>,
    /// Share of the strongest gradient direction; none in a frame without gradient.
    pub motion_blur: Option<Option<Dominance>>,
    /// Moments of the color-opponent signals.
    pub colorfulness: Option<ColorMoments>,
}

/// Moments of a strided plane.
pub open spec fn plane_moments(p: Seq<u8>, w: int, h: int, stride: int) -> PlaneMoments {
    PlaneMoments {
        count: (w * h) as u64,
        sum: area_sum(sample_value(p, stride), 0, h, 0, w) as u64,
        sum_sq: area_sum(sample_square(p, stride), 0, h, 0, w) as u64,
    }
}

/// The metrics that every frame pays for.
pub open spec fn cheap_metrics(f: Frames<'_>) -> CheapMetrics {
    let rgb = f.rgb_view();
    let luma = f.luma_view();
    let hsv = f.hsv_view();
    let w = rgb.columns() as int;
    let h = rgb.rows() as int;
    CheapMetrics {
        luma: plane_moments(luma.bytes(), w, h, luma.pitch() as int),
        saturation: plane_moments(hsv.saturation_bytes(), w, h, hsv.pitch() as int),
        clipping: Mean {
            sum: area_sum(clipped_at(rgb.bytes(), rgb.pitch() as int), 0, h, 0, w) as u64,
            count: (w * h) as u64,
        },
    }
}

/// Mean squared gradient of a luma view.
pub open spec fn sharpness_of(luma: LumaFrame<'_>) -> Mean {
    let w = luma.columns() as int;
    let h = luma.rows() as int;
    Mean {
        sum: area_sum(
            gradient_energy(luma.bytes(), luma.pitch() as int),
            1,
            h - 1,
            1,
            w - 1,
        ) as u64,
        count: interior_count(w, h) as u64,
    }
}

/// Mean absolute Laplacian response of a luma view.
pub open spec fn noise_of(luma: LumaFrame<'_>) -> Mean {
    let w = luma.columns() as int;
    let h = luma.rows() as int;
    Mean {
        sum: area_sum(
            laplacian_response(luma.bytes(), luma.pitch() as int),
            1,
            h - 1,
            1,
            w - 1,
        ) as u64,
        count: interior_count(w, h) as u64,
    }
}

/// Share of the strongest gradient direction of a luma view.
pub open spec fn motion_blur_of(luma: LumaFrame<'_>) -> Option<Dominance> {
    let w = luma.columns() as int;
    let h = luma.rows() as int;
    let p = plane_of(strided(luma.bytes(), luma.pitch() as int), w, h);
    if w < 3 || h < 3 {
        None
    } else {
        let mag = plane_of(edge_magnitude(p, w, h), w, h);
        let dir = plane_of(edge_direction(p, w, h), w, h);
        let b0 = bin_total(mag, dir, w, h, 0);
        let b1 = bin_total(mag, dir, w, h, 1);
        let b2 = bin_total(mag, dir, w, h, 2);
        let b3 = bin_total(mag, dir, w, h, 3);
        if b0 + b1 + b2 + b3 == 0 {
            None
        } else {
            Some(
                Dominance {
                    heaviest: heavier(heavier(b0, b1), heavier(b2, b3)) as u64,
                    total: (b0 + b1 + b2 + b3) as u64,
                },
            )
        }
    }
}

/// Moments of the color-opponent signals of a packed view.
pub open spec fn colorfulness_of(rgb: RgbFrame<'_>, order: ChannelOrder) -> ColorMoments {
    let w = rgb.columns() as int;
    let h = rgb.rows() as int;
    let rg = red_green(rgb.bytes(), rgb.pitch() as int, order);
    let yb = yellow_blue(rgb.bytes(), rgb.pitch() as int, order);
    ColorMoments {
        count: (w * h) as u64,
        sum_rg: area_sum(rg, 0, h, 0, w) as i64,
        sum_yb: area_sum(yb, 0, h, 0, w) as i64,
        sum_rg_sq: area_sum(squared(rg), 0, h, 0, w) as u64,
        sum_yb_sq: area_sum(squared(yb), 0, h, 0, w) as u64,
    }
}

/// The metrics of a frame: the cheap ones, and unless it was gated, the enabled
/// expensive ones.
pub open spec fn staged_metrics(
    f: Frames<'_>,
    extractors: Extractors,
    order: ChannelOrder,
    gated: bool,
) -> StagedMetrics {
    StagedMetrics {
        cheap: cheap_metrics(f),
        sharpness: if !gated && extractors.sharpness {
            Some(sharpness_of(f.luma_view()))
        } else {
            None
        },
        noise: if !gated && extractors.noise {
            Some(noise_of(f.luma_view()))
        } else {
            None
        },
        motion_blur: if !gated && extractors.motion_blur {
            Some(motion_blur_of(f.luma_view()))
        } else {
            None
        },
        colorfulness: if !gated && extractors.colorfulness {
            Some(colorfulness_of(f.rgb_view(), order))
        } else {
            None
        },
    }
}

/// The metrics of a frame, where `gate` judges the cheap ones.
pub open spec fn measured<G: Fn(CheapMetrics) -> bool>(
    f: Frames<'_>,
    extractors: Extractors,
    order: ChannelOrder,
    gate: G,
    m: StagedMetrics,
) -> bool {
    exists|gated: bool| #[trigger]
        gate.ensures((cheap_metrics(f),), gated) && m == staged_metrics(
            f,
            extractors,
            order,
            gated,
        )
}

/// The area of an analysis frame keeps all sums in range.
proof fn lemma_small_area(w: int, h: int)
    requires
        0 < w,
        0 < h,
        w * h <= 0x10_0000,
    ensures
        0 <= interior_count(w, h) <= w * h,
        w <= 0x10_0000,
        h <= 0x10_0000,
{
    assert(w <= w * h && h <= w * h) by (nonlinear_arith)
        requires
            0 < w,
            0 < h,
    ;
    if w >= 3 && h >= 3 {
        assert(0 < (w - 2) * (h - 2) <= w * h) by (nonlinear_arith)
            requires
                3 <= w,
                3 <= h,
        ;
    }
}

/// Computes the cheap metrics of a frame.
fn compute_cheap(f: &Frames<'_>, simd: bool) -> (m: CheapMetrics)
    requires
        f.valid(),
    ensures
        m == cheap_metrics(*f),
{
    let rgb: RgbFrame<'_> = f.rgb();
    let luma: LumaFrame<'_> = f.luma();
    let hsv: HsvFrame<'_> = f.hsv();
    let w: u32 = rgb.width();
    let h: u32 = rgb.height();
    let packed: &[u8] = rgb.data();
    let plane: &[u8] = luma.data();
    let saturation: &[u8] = hsv.saturation();
    CheapMetrics {
        luma: plane_mean_variance(plane, w as usize, h as usize, luma.stride() as usize, simd),
        saturation: plane_mean_variance(
            saturation,
            w as usize,
            h as usize,
            hsv.stride() as usize,
            simd,
        ),
        clipping: Mean {
            sum: clipping_count(packed, w, h, rgb.stride(), simd),
            count: w as u64 * h as u64,
        },
    }
}

/// Computes the share of the strongest gradient direction of a luma view.
fn compute_motion_blur(luma: &LumaFrame<'_>, simd: bool) -> (d: Option<Dominance>)
    requires
        luma.columns() > 0,
        luma.rows() > 0,
        luma.columns() * luma.rows() <= 0x10_0000,
    ensures
        d == motion_blur_of(*luma),
{
    let data: &[u8] = luma.data();
    let width: u32 = luma.width();
    let height: u32 = luma.height();
    let w: usize = width as usize;
    let h: usize = height as usize;
    if w < 3 || h < 3 {
        return None;
    }
    let n: usize = w * h;
    let mut p: Vec<u8> = vec![0u8; n];
    copy_plane(p.as_mut_slice(), data, width, height, luma.stride());
    let mut mag: Vec<i32> = vec![0i32; n];
    let mut dir: Vec<u8> = vec![0u8; n];
    sobel(p.as_slice(), mag.as_mut_slice(), dir.as_mut_slice(), w, h, simd);
    proof {
        let wi = w as int;
        let hi = h as int;
        lemma_plane_of(p@, strided(data@, luma.pitch() as int), wi, hi);
        lemma_plane_of(mag@, edge_magnitude(p@, wi, hi), wi, hi);
        lemma_plane_of(dir@, edge_direction(p@, wi, hi), wi, hi);
        lemma_bins_fit(p@, mag@, dir@, wi, hi, 0);
        lemma_bins_fit(p@, mag@, dir@, wi, hi, 1);
        lemma_bins_fit(p@, mag@, dir@, wi, hi, 2);
        lemma_bins_fit(p@, mag@, dir@, wi, hi, 3);
    }
    gradient_anisotropy(mag.as_slice(), dir.as_slice(), w, h, simd)
}

/// A direction bin of an analysis frame stays far below the largest count.
proof fn lemma_bins_fit(p: Seq<u8>, mag: Seq<i32>, dir: Seq<u8>, w: int, h: int, k: int)
    requires
        w >= 3,
        h >= 3,
        w * h <= 0x10_0000,
        mag.len() == w * h,
        mag == plane_of(edge_magnitude(p, w, h), w, h),
    ensures
        0 <= bin_total(mag, dir, w, h, k) <= 2040 * 0x10_0000,
{
    let f = bin_weight(mag, dir, w, k);
    assert forall|y: int, x: int|
        1 <= y < h - 1 && 1 <= x < w - 1 implies 0 <= #[trigger] f(y, x) <= 2040 by {
        lemma_cell(y, x, w, h);
        lemma_gradient_bounds(p, y, x, w);
        assert(mag[cell(y, x, w)] == edge_magnitude(p, w, h)(y, x));
    }
    lemma_area_sum_bound(f, 1, h - 1, 1, w - 1, 0, 2040);
    lemma_small_area(w, h);
    let inner = (w - 2) * (h - 2);
    assert(0 * inner == 0);
    assert(2040 * inner <= 2040 * 0x10_0000) by (nonlinear_arith)
        requires
            inner <= 0x10_0000,
    ;
}

/// Computes the metrics of a frame in two stages. `gate` judges the cheap ones;
/// where it holds the frame back, no expensive one runs.
pub fn frame_metrics<G: Fn(CheapMetrics) -> bool>(
    f: &Frames<'_>,
    extractors: Extractors,
    order: ChannelOrder,
    simd: bool,
    gate: G,
) -> (m: StagedMetrics)
    requires
        forall|c: CheapMetrics| #[trigger] gate.requires((c,)),
    ensures
        measured(*f, extractors, order, gate, m),
{
    let luma: LumaFrame<'_> = f.luma();
    let rgb: RgbFrame<'_> = f.rgb();
    let cheap: CheapMetrics = compute_cheap(f, simd);
    let gated: bool = gate(cheap);
    let w: usize = rgb.width() as usize;
    let h: usize = rgb.height() as usize;
    let plane: &[u8] = luma.data();
    let packed: &[u8] = rgb.data();
    proof {
        lemma_small_area(w as int, h as int);
    }
    let sharpness: Option<Mean> = if !gated && extractors.sharpness {
        Some(tenengrad(plane, w, h, luma.stride() as usize, simd))
    } else {
        None
    };
    let noise: Option<Mean> = if !gated && extractors.noise {
        Some(noise(plane, w, h, luma.stride() as usize, simd))
    } else {
        None
    };
    let motion_blur: Option<Option<Dominance>> = if !gated && extractors.motion_blur {
        Some(compute_motion_blur(&luma, simd))
    } else {
        None
    };
    let colorfulness: Option<ColorMoments> = if !gated && extractors.colorfulness {
        Some(colorfulness(packed, w, h, rgb.stride() as usize, order, simd))
    } else {
        None
    };
    let m: StagedMetrics = StagedMetrics { cheap, sharpness, noise, motion_blur, colorfulness };
    assert(m == staged_metrics(*f, extractors, order, gated));
    m
}

/// A frame that is held back pays for no expensive metric, and a disabled
/// metric never runs. All other frames have every enabled metric.
pub proof fn gated_frames_skip_expensive_metrics(
    f: Frames<'_>,
    extractors: Extractors,
    order: ChannelOrder,
    gated: bool,
)
    ensures
        ({
            let m = staged_metrics(f, extractors, order, gated);
            &&& m.cheap == cheap_metrics(f)
            &&& m.sharpness is Some <==> !gated && extractors.sharpness
            &&& m.noise is Some <==> !gated && extractors.noise
            &&& m.motion_blur is Some <==> !gated && extractors.motion_blur
            &&& m.colorfulness is Some <==> !gated && extractors.colorfulness
            &&& m.sharpness matches Some(v) ==> v == sharpness_of(f.luma_view())
            &&& m.noise matches Some(v) ==> v == noise_of(f.luma_view())
            &&& m.motion_blur matches Some(v) ==> v == motion_blur_of(f.luma_view())
            &&& m.colorfulness matches Some(v) ==> v == colorfulness_of(f.rgb_view(), order)
        }),
{
}

/// A sum over an analysis frame of terms between `lo` and `hi` stays between as many of
/// them.
proof fn lemma_small_sum(
    f: spec_fn(int, int) -> int,
    y0: int,
    y1: int,
    x0: int,
    x1: int,
    lo: int,
    hi: int,
)
    requires
        y0 <= y1,
        x0 <= x1,
        (y1 - y0) * (x1 - x0) <= 0x10_0000,
        lo <= 0 <= hi,
        forall|y: int, x: int| y0 <= y < y1 && x0 <= x < x1 ==> lo <= #[trigger] f(y, x) <= hi,
    ensures
        lo * 0x10_0000 <= area_sum(f, y0, y1, x0, x1) <= hi * 0x10_0000,
{
    lemma_area_sum_bound(f, y0, y1, x0, x1, lo, hi);
    let n = (x1 - x0) * (y1 - y0);
    assert(0 <= n <= 0x10_0000) by (nonlinear_arith)
        requires
            n == (x1 - x0) * (y1 - y0),
            (y1 - y0) * (x1 - x0) <= 0x10_0000,
            y0 <= y1,
            x0 <= x1,
    ;
    assert(lo * 0x10_0000 <= lo * n && hi * n <= hi * 0x10_0000) by (nonlinear_arith)
        requires
            0 <= n <= 0x10_0000,
            lo <= 0 <= hi,
    ;
}

/// The moments of a plane are exact.
pub proof fn plane_moments_are_exact(p: Seq<u8>, w: int, h: int, stride: int)
    requires
        0 < w,
        0 < h,
        w * h <= 0x10_0000,
    ensures
        plane_moments(p, w, h, stride).count == w * h,
        plane_moments(p, w, h, stride).sum == area_sum(sample_value(p, stride), 0, h, 0, w),
        plane_moments(p, w, h, stride).sum_sq == area_sum(sample_square(p, stride), 0, h, 0, w),
{
    lemma_small_area(w, h);
    assert(h * w == w * h) by (nonlinear_arith);
    lemma_small_sum(sample_value(p, stride), 0, h, 0, w, 0, 255);
    assert forall|y: int, x: int| 0 <= y < h && 0 <= x < w implies 0 <= #[trigger] sample_square(
        p,
        stride,
    )(y, x) <= 65025 by {
        lemma_square_bound(p[y * stride + x] as int, 255);
    }
    lemma_small_sum(sample_square(p, stride), 0, h, 0, w, 0, 65025);
}

/// The metrics that every frame pays for are exact.
pub proof fn cheap_metrics_are_exact(f: Frames<'_>)
    requires
        f.valid(),
    ensures
        ({
            let m = cheap_metrics(f);
            let w = f.rgb_view().columns() as int;
            let h = f.rgb_view().rows() as int;
            let luma = f.luma_view();
            let hsv = f.hsv_view();
            let rgb = f.rgb_view();
            &&& m.luma.count == w * h
            &&& m.luma.sum == area_sum(
                sample_value(luma.bytes(), luma.pitch() as int),
                0,
                h,
                0,
                w,
            )
            &&& m.luma.sum_sq == area_sum(
                sample_square(luma.bytes(), luma.pitch() as int),
                0,
                h,
                0,
                w,
            )
            &&& m.saturation.count == w * h
            &&& m.saturation.sum == area_sum(
                sample_value(hsv.saturation_bytes(), hsv.pitch() as int),
                0,
                h,
                0,
                w,
            )
            &&& m.saturation.sum_sq == area_sum(
                sample_square(hsv.saturation_bytes(), hsv.pitch() as int),
                0,
                h,
                0,
                w,
            )
            &&& m.clipping.count == w * h
            &&& m.clipping.sum == area_sum(
                clipped_at(rgb.bytes(), rgb.pitch() as int),
                0,
                h,
                0,
                w,
            )
        }),
{
    let w = f.rgb_view().columns() as int;
    let h = f.rgb_view().rows() as int;
    let rgb = f.rgb_view();
    lemma_small_area(w, h);
    assert(h * w == w * h) by (nonlinear_arith);
    plane_moments_are_exact(f.luma_view().bytes(), w, h, f.luma_view().pitch() as int);
    plane_moments_are_exact(f.hsv_view().saturation_bytes(), w, h, f.hsv_view().pitch() as int);
    lemma_small_sum(clipped_at(rgb.bytes(), rgb.pitch() as int), 0, h, 0, w, 0, 1);
}

/// Sharpness and noise of an analysis frame are exact.
pub proof fn sharpness_and_noise_are_exact(luma: LumaFrame<'_>)
    requires
        luma.columns() > 0,
        luma.rows() > 0,
        luma.columns() * luma.rows() <= 0x10_0000,
    ensures
        ({
            let w = luma.columns() as int;
            let h = luma.rows() as int;
            let stride = luma.pitch() as int;
            &&& sharpness_of(luma).count == interior_count(w, h)
            &&& sharpness_of(luma).sum == area_sum(
                gradient_energy(luma.bytes(), stride),
                1,
                h - 1,
                1,
                w - 1,
            )
            &&& noise_of(luma).count == interior_count(w, h)
            &&& noise_of(luma).sum == area_sum(
                laplacian_response(luma.bytes(), stride),
                1,
                h - 1,
                1,
                w - 1,
            )
        }),
{
    let w = luma.columns() as int;
    let h = luma.rows() as int;
    let stride = luma.pitch() as int;
    let p = luma.bytes();
    let f = gradient_energy(p, stride);
    let g = laplacian_response(p, stride);
    lemma_small_area(w, h);
    if w >= 3 && h >= 3 {
        assert((h - 2) * (w - 2) == (w - 2) * (h - 2)) by (nonlinear_arith);
        assert forall|y: int, x: int|
            1 <= y < h - 1 && 1 <= x < w - 1 implies 0 <= #[trigger] f(y, x) <= 2080800 by {
            lemma_square_bound(gradient_x(p, y, x, stride), 1020);
            lemma_square_bound(gradient_y(p, y, x, stride), 1020);
        }
        lemma_small_sum(f, 1, h - 1, 1, w - 1, 0, 2080800);
        lemma_small_sum(g, 1, h - 1, 1, w - 1, 0, 4080);
    } else {
        lemma_no_interior(f, w, h);
        lemma_no_interior(g, w, h);
    }
}

/// The moments of the color-opponent signals of an analysis frame are exact.
pub proof fn color_moments_are_exact(rgb: RgbFrame<'_>, order: ChannelOrder)
    requires
        rgb.columns() > 0,
        rgb.rows() > 0,
        rgb.columns() * rgb.rows() <= 0x10_0000,
    ensures
        ({
            let m = colorfulness_of(rgb, order);
            let w = rgb.columns() as int;
            let h = rgb.rows() as int;
            let rg = red_green(rgb.bytes(), rgb.pitch() as int, order);
            let yb = yellow_blue(rgb.bytes(), rgb.pitch() as int, order);
            &&& m.count == w * h
            &&& m.sum_rg == area_sum(rg, 0, h, 0, w)
            &&& m.sum_yb == area_sum(yb, 0, h, 0, w)
            &&& m.sum_rg_sq == area_sum(squared(rg), 0, h, 0, w)
            &&& m.sum_yb_sq == area_sum(squared(yb), 0, h, 0, w)
        }),
{
    let w = rgb.columns() as int;
    let h = rgb.rows() as int;
    let rg = red_green(rgb.bytes(), rgb.pitch() as int, order);
    let yb = yellow_blue(rgb.bytes(), rgb.pitch() as int, order);
    lemma_small_area(w, h);
    assert(h * w == w * h) by (nonlinear_arith);
    lemma_small_sum(rg, 0, h, 0, w, -255, 255);
    lemma_small_sum(yb, 0, h, 0, w, -510, 510);
    assert forall|y: int, x: int| 0 <= y < h && 0 <= x < w implies 0 <= #[trigger] squared(rg)(
        y,
        x,
    ) <= 65025 by {
        lemma_square_bound(rg(y, x), 255);
    }
    assert forall|y: int, x: int| 0 <= y < h && 0 <= x < w implies 0 <= #[trigger] squared(yb)(
        y,
        x,
    ) <= 260100 by {
        lemma_square_bound(yb(y, x), 510);
    }
    lemma_small_sum(squared(rg), 0, h, 0, w, 0, 65025);
    lemma_small_sum(squared(yb), 0, h, 0, w, 0, 260100);
}

/// The share of the strongest gradient direction of an analysis frame is exact: the
/// heaviest bin out of the sum of all four.
pub proof fn motion_blur_is_exact(luma: LumaFrame<'_>)
    requires
        luma.columns() >= 3,
        luma.rows() >= 3,
        luma.columns() * luma.rows() <= 0x10_0000,
    ensures
        ({
            let w = luma.columns() as int;
            let h = luma.rows() as int;
            let p = plane_of(strided(luma.bytes(), luma.pitch() as int), w, h);
            let mag = plane_of(edge_magnitude(p, w, h), w, h);
            let dir = plane_of(edge_direction(p, w, h), w, h);
            let b0 = bin_total(mag, dir, w, h, 0);
            let b1 = bin_total(mag, dir, w, h, 1);
            let b2 = bin_total(mag, dir, w, h, 2);
            let b3 = bin_total(mag, dir, w, h, 3);
            &&& motion_blur_of(luma) is Some <==> b0 > 0 || b1 > 0 || b2 > 0 || b3 > 0
            &&& motion_blur_of(luma) matches Some(d) ==> {
                &&& d.total == b0 + b1 + b2 + b3
                &&& d.heaviest == heavier(heavier(b0, b1), heavier(b2, b3))
                &&& 0 < d.heaviest <= d.total
                &&& d.heaviest >= b0 && d.heaviest >= b1 && d.heaviest >= b2 && d.heaviest >= b3
            }
        }),
{
    let w = luma.columns() as int;
    let h = luma.rows() as int;
    let p = plane_of(strided(luma.bytes(), luma.pitch() as int), w, h);
    let mag = plane_of(edge_magnitude(p, w, h), w, h);
    let dir = plane_of(edge_direction(p, w, h), w, h);
    lemma_bins_fit(p, mag, dir, w, h, 0);
    lemma_bins_fit(p, mag, dir, w, h, 1);
    lemma_bins_fit(p, mag, dir, w, h, 2);
    lemma_bins_fit(p, mag, dir, w, h, 3);
}

} // verus!
