//! Pixel kernels.

use scenesdetect::arch::{
    bgr_to_hsv_planes, bgr_to_luma, clipping_count, colorfulness, gradient_anisotropy,
    mean_abs_diff, noise, plane_mean_variance, sobel, tenengrad, Mean,
};
use scenesdetect::frame::ChannelOrder;

fn ratio(m: Mean) -> f64 {
    if m.count == 0 {
        0.0
    } else {
        m.sum as f64 / m.count as f64
    }
}

fn luma_stats(plane: &[u8], w: usize, h: usize, s: usize, simd: bool) -> (f32, f32) {
    let m = plane_mean_variance(plane, w, h, s, simd);
    if m.count == 0 {
        return (0.0, 0.0);
    }
    let n = m.count as f64;
    let mean = m.sum as f64 / n;
    ((mean) as f32, (m.sum_sq as f64 / n - mean * mean).max(0.0) as f32)
}

fn color_score(
    bgr: &[u8],
    w: usize,
    h: usize,
    stride: usize,
    order: ChannelOrder,
    simd: bool,
) -> f32 {
    let m = colorfulness(bgr, w, h, stride, order, simd);
    if m.count == 0 {
        return 0.0;
    }
    let n = m.count as f64;
    let mean_rg = m.sum_rg as f64 / n;
    let mean_u = m.sum_yb as f64 / n;
    let mean_yb = mean_u * 0.5;
    let var_rg = (m.sum_rg_sq as f64 / n - mean_rg * mean_rg).max(0.0);
    let var_yb = (m.sum_yb_sq as f64 / n - mean_u * mean_u).max(0.0) * 0.25;
    let sigma = (var_rg + var_yb).sqrt();
    let mu = (mean_rg * mean_rg + mean_yb * mean_yb).sqrt();
    (sigma + 0.3 * mu) as f32
}

fn anisotropy(mag: &[i32], dir: &[u8], w: usize, h: usize, simd: bool) -> f32 {
    match gradient_anisotropy(mag, dir, w, h, simd) {
        None => 0.0,
        Some(d) => ((d.heaviest as f64 / d.total as f64 - 0.25).max(0.0) / 0.75) as f32,
    }
}

fn plain_bgr_to_hsv_planes(
    h_out: &mut [u8],
    s_out: &mut [u8],
    v_out: &mut [u8],
    src: &[u8],
    width: u32,
    height: u32,
    stride: u32,
    order: ChannelOrder,
) {
    bgr_to_hsv_planes(h_out, s_out, v_out, src, width, height, stride, order, false);
}

fn scalar_bgr_to_luma(out: &mut [u8], src: &[u8], w: u32, h: u32, s: u32, order: ChannelOrder) {
    bgr_to_luma(out, src, w, h, s, order, false);
}

fn scalar_mean_abs_diff(a: &[u8], b: &[u8], n: usize) -> f64 {
    ratio(mean_abs_diff(a, b, n, false))
}

fn plain_sobel(input: &[u8], mag: &mut [i32], dir: &mut [u8], w: usize, h: usize) {
    sobel(input, mag, dir, w, h, false);
}

fn scalar_clipping_count(src: &[u8], w: u32, h: u32, s: u32) -> u64 {
    clipping_count(src, w, h, s, false)
}

fn scalar_tenengrad(luma: &[u8], w: usize, h: usize, s: usize) -> f32 {
    ratio(tenengrad(luma, w, h, s, false)) as f32
}

fn scalar_noise(luma: &[u8], w: usize, h: usize, s: usize) -> f32 {
    (ratio(noise(luma, w, h, s, false)) * 0.208_898_754_886_372_3) as f32
}

fn scalar_plane_mean_variance(p: &[u8], w: usize, h: usize, s: usize) -> (f32, f32) {
    luma_stats(p, w, h, s, false)
}

fn scalar_gradient_anisotropy(mag: &[i32], dir: &[u8], w: usize, h: usize) -> f32 {
    anisotropy(mag, dir, w, h, false)
}

fn scalar_colorfulness(bgr: &[u8], w: usize, h: usize, s: usize, order: ChannelOrder) -> f32 {
    color_score(bgr, w, h, s, order, false)
}

fn simd_bgr_to_hsv_planes(
    h_out: &mut [u8],
    s_out: &mut [u8],
    v_out: &mut [u8],
    src: &[u8],
    width: u32,
    height: u32,
    stride: u32,
    order: ChannelOrder,
) {
    bgr_to_hsv_planes(h_out, s_out, v_out, src, width, height, stride, order, true);
}

fn simd_bgr_to_luma(out: &mut [u8], src: &[u8], w: u32, h: u32, s: u32, order: ChannelOrder) {
    bgr_to_luma(out, src, w, h, s, order, true);
}

fn simd_mean_abs_diff(a: &[u8], b: &[u8], n: usize) -> f64 {
    ratio(mean_abs_diff(a, b, n, true))
}

fn simd_sobel(input: &[u8], mag: &mut [i32], dir: &mut [u8], w: usize, h: usize) {
    sobel(input, mag, dir, w, h, true);
}

fn simd_clipping_count(src: &[u8], w: u32, h: u32, s: u32) -> u64 {
    clipping_count(src, w, h, s, true)
}

fn simd_tenengrad(luma: &[u8], w: usize, h: usize, s: usize) -> f32 {
    ratio(tenengrad(luma, w, h, s, true)) as f32
}

fn simd_noise(luma: &[u8], w: usize, h: usize, s: usize) -> f32 {
    (ratio(noise(luma, w, h, s, true)) * 0.208_898_754_886_372_3) as f32
}

fn simd_plane_mean_variance(p: &[u8], w: usize, h: usize, s: usize) -> (f32, f32) {
    luma_stats(p, w, h, s, true)
}

fn simd_gradient_anisotropy(mag: &[i32], dir: &[u8], w: usize, h: usize) -> f32 {
    anisotropy(mag, dir, w, h, true)
}

fn simd_colorfulness(bgr: &[u8], w: usize, h: usize, s: usize, order: ChannelOrder) -> f32 {
    color_score(bgr, w, h, s, order, true)
}

fn make_bgr(w: usize, h: usize) -> Vec<u8> {
  let mut buf = vec![0u8; w * h * 3];
  let mut rng = 0x9E3779B9u32;
  for v in buf.iter_mut() {
    rng = rng.wrapping_mul(1664525).wrapping_add(1013904223);
    *v = (rng >> 24) as u8;
  }
  buf
}

fn make_luma(w: usize, h: usize) -> Vec<u8> {
  let mut buf = vec![0u8; w * h];
  let mut rng = 0xDEADBEEFu32;
  for v in buf.iter_mut() {
    rng = rng.wrapping_mul(1664525).wrapping_add(1013904223);
    *v = (rng >> 24) as u8;
  }
  buf
}
#[test]
fn arch_scalar_bgr_to_hsv_planes() {
  let (w, h) = (32, 16);
  let src = make_bgr(w, h);
  let n = w * h;
  let mut ho = vec![0u8; n];
  let mut so = vec![0u8; n];
  let mut vo = vec![0u8; n];
  plain_bgr_to_hsv_planes(
    &mut ho,
    &mut so,
    &mut vo,
    &src,
    w as u32,
    h as u32,
    (w * 3) as u32,
    ChannelOrder::Bgr,
  );
  assert!(vo.iter().any(|&v| v > 0));
}
#[test]
fn scalar_rgb_to_hsv_planes_matches_swapped_bgr() {
  let (w, h) = (32, 16);
  let bgr = make_bgr(w, h);
  let mut rgb = bgr.clone();
  for chunk in rgb.chunks_exact_mut(3) {
    chunk.swap(0, 2);
  }
  let n = w * h;
  let mut h_bgr = vec![0u8; n];
  let mut s_bgr = vec![0u8; n];
  let mut v_bgr = vec![0u8; n];
  plain_bgr_to_hsv_planes(
    &mut h_bgr,
    &mut s_bgr,
    &mut v_bgr,
    &bgr,
    w as u32,
    h as u32,
    (w * 3) as u32,
    ChannelOrder::Bgr,
  );
  let mut h_rgb = vec![0u8; n];
  let mut s_rgb = vec![0u8; n];
  let mut v_rgb = vec![0u8; n];
  plain_bgr_to_hsv_planes(
    &mut h_rgb,
    &mut s_rgb,
    &mut v_rgb,
    &rgb,
    w as u32,
    h as u32,
    (w * 3) as u32,
    ChannelOrder::Rgb,
  );
  assert_eq!(h_bgr, h_rgb);
  assert_eq!(s_bgr, s_rgb);
  assert_eq!(v_bgr, v_rgb);
}

#[test]
fn arch_scalar_mean_abs_diff_nonzero() {
  let a = make_luma(64, 1);
  let b = make_luma(64, 1);
  let d = scalar_mean_abs_diff(&a, &b, 64);
  assert!(d >= 0.0);
}

#[test]
fn arch_scalar_sobel() {
  let (w, h) = (16, 16);
  let src = make_luma(w, h);
  let mut mag = vec![0i32; w * h];
  let mut dir = vec![0u8; w * h];
  plain_sobel(&src, &mut mag, &mut dir, w, h);
  assert!(mag.iter().any(|&m| m > 0));
}

#[test]
fn sobel_dispatcher_short_circuits_on_zero_width() {
  let mut mag = vec![0xFFi32; 16];
  let mut dir = vec![0xFFu8; 16];
  sobel(&[], &mut mag, &mut dir, 0, 4, false);
  assert!(mag.iter().all(|&m| m == 0));
  assert!(dir.iter().all(|&d| d == 0));
}

#[test]
fn sobel_dispatcher_short_circuits_on_zero_height() {
  let mut mag = vec![0xFFi32; 16];
  let mut dir = vec![0xFFu8; 16];
  sobel(&[], &mut mag, &mut dir, 4, 0, false);
  assert!(mag.iter().all(|&m| m == 0));
  assert!(dir.iter().all(|&d| d == 0));
}

#[test]
fn sobel_dispatcher_short_circuits_on_too_small() {
  let src = vec![0u8; 4];
  let mut mag = vec![0xFFi32; 4];
  let mut dir = vec![0xFFu8; 4];
  sobel(&src, &mut mag, &mut dir, 2, 2, false);
  assert!(mag.iter().all(|&m| m == 0));
  assert!(dir.iter().all(|&d| d == 0));
}

#[test]
fn sobel_dispatcher_short_circuits_with_simd_enabled_on_zero_dims() {
  let mut mag = vec![0xFFi32; 16];
  let mut dir = vec![0xFFu8; 16];
  sobel(&[], &mut mag, &mut dir, 0, 8, true);
  assert!(mag.iter().all(|&m| m == 0));
  assert!(dir.iter().all(|&d| d == 0));
}
#[test]
fn arch_ssse3_bgr_to_hsv_planes_direct() {
  let (w, h) = (64, 16);
  let src = make_bgr(w, h);
  let n = w * h;
  let mut ho = vec![0u8; n];
  let mut so = vec![0u8; n];
  let mut vo = vec![0u8; n];
  {
    simd_bgr_to_hsv_planes(
      &mut ho,
      &mut so,
      &mut vo,
      &src,
      w as u32,
      h as u32,
      (w * 3) as u32,
      ChannelOrder::Bgr,
    );
  }
  assert!(vo.iter().any(|&v| v > 0));
}
#[test]
fn ssse3_rgb_bgr_to_hsv_planes_matches_swapped() {
  let (w, h) = (64, 16);
  let bgr = make_bgr(w, h);
  let mut rgb = bgr.clone();
  for chunk in rgb.chunks_exact_mut(3) {
    chunk.swap(0, 2);
  }
  let n = w * h;
  let mut h_bgr = vec![0u8; n];
  let mut s_bgr = vec![0u8; n];
  let mut v_bgr = vec![0u8; n];
  let mut h_rgb = vec![0u8; n];
  let mut s_rgb = vec![0u8; n];
  let mut v_rgb = vec![0u8; n];
  {
    simd_bgr_to_hsv_planes(
      &mut h_bgr,
      &mut s_bgr,
      &mut v_bgr,
      &bgr,
      w as u32,
      h as u32,
      (w * 3) as u32,
      ChannelOrder::Bgr,
    );
    simd_bgr_to_hsv_planes(
      &mut h_rgb,
      &mut s_rgb,
      &mut v_rgb,
      &rgb,
      w as u32,
      h as u32,
      (w * 3) as u32,
      ChannelOrder::Rgb,
    );
  }
  assert_eq!(h_bgr, h_rgb);
  assert_eq!(s_bgr, s_rgb);
  assert_eq!(v_bgr, v_rgb);
}

#[test]
fn arch_ssse3_mean_abs_diff_direct() {
  let a = make_luma(128, 1);
  let b = make_luma(128, 1);
  let d = { simd_mean_abs_diff(&a, &b, 128) };
  assert!(d >= 0.0);
}

#[test]
fn arch_ssse3_sobel_direct() {
  let (w, h) = (32, 32);
  let src = make_luma(w, h);
  let mut mag = vec![0i32; w * h];
  let mut dir = vec![0u8; w * h];
  { simd_sobel(&src, &mut mag, &mut dir, w, h) };
  assert!(mag.iter().any(|&m| m > 0));
}
#[test]
fn arch_avx2_bgr_to_hsv_planes_direct() {
  let (w, h) = (64, 16);
  let src = make_bgr(w, h);
  let n = w * h;
  let mut ho = vec![0u8; n];
  let mut so = vec![0u8; n];
  let mut vo = vec![0u8; n];
  {
    simd_bgr_to_hsv_planes(
      &mut ho,
      &mut so,
      &mut vo,
      &src,
      w as u32,
      h as u32,
      (w * 3) as u32,
      ChannelOrder::Bgr,
    );
  }
  assert!(vo.iter().any(|&v| v > 0));
}
#[test]
fn avx2_rgb_bgr_to_hsv_planes_matches_swapped() {
  let (w, h) = (64, 16);
  let bgr = make_bgr(w, h);
  let mut rgb = bgr.clone();
  for chunk in rgb.chunks_exact_mut(3) {
    chunk.swap(0, 2);
  }
  let n = w * h;
  let mut h_bgr = vec![0u8; n];
  let mut s_bgr = vec![0u8; n];
  let mut v_bgr = vec![0u8; n];
  let mut h_rgb = vec![0u8; n];
  let mut s_rgb = vec![0u8; n];
  let mut v_rgb = vec![0u8; n];
  {
    simd_bgr_to_hsv_planes(
      &mut h_bgr,
      &mut s_bgr,
      &mut v_bgr,
      &bgr,
      w as u32,
      h as u32,
      (w * 3) as u32,
      ChannelOrder::Bgr,
    );
    simd_bgr_to_hsv_planes(
      &mut h_rgb,
      &mut s_rgb,
      &mut v_rgb,
      &rgb,
      w as u32,
      h as u32,
      (w * 3) as u32,
      ChannelOrder::Rgb,
    );
  }
  assert_eq!(h_bgr, h_rgb);
  assert_eq!(s_bgr, s_rgb);
  assert_eq!(v_bgr, v_rgb);
}
#[test]
fn arch_neon_bgr_to_hsv_planes_direct() {
  let (w, h) = (64, 16);
  let src = make_bgr(w, h);
  let n = w * h;
  let mut ho = vec![0u8; n];
  let mut so = vec![0u8; n];
  let mut vo = vec![0u8; n];
  {
    simd_bgr_to_hsv_planes(
      &mut ho,
      &mut so,
      &mut vo,
      &src,
      w as u32,
      h as u32,
      (w * 3) as u32,
      ChannelOrder::Bgr,
    );
  }
  assert!(vo.iter().any(|&v| v > 0));
}
#[test]
fn neon_rgb_bgr_to_hsv_planes_matches_swapped() {
  let (w, h) = (64, 16);
  let bgr = make_bgr(w, h);
  let mut rgb = bgr.clone();
  for chunk in rgb.chunks_exact_mut(3) {
    chunk.swap(0, 2);
  }
  let n = w * h;
  let mut h_bgr = vec![0u8; n];
  let mut s_bgr = vec![0u8; n];
  let mut v_bgr = vec![0u8; n];
  let mut h_rgb = vec![0u8; n];
  let mut s_rgb = vec![0u8; n];
  let mut v_rgb = vec![0u8; n];
  {
    simd_bgr_to_hsv_planes(
      &mut h_bgr,
      &mut s_bgr,
      &mut v_bgr,
      &bgr,
      w as u32,
      h as u32,
      (w * 3) as u32,
      ChannelOrder::Bgr,
    );
    simd_bgr_to_hsv_planes(
      &mut h_rgb,
      &mut s_rgb,
      &mut v_rgb,
      &rgb,
      w as u32,
      h as u32,
      (w * 3) as u32,
      ChannelOrder::Rgb,
    );
  }
  assert_eq!(h_bgr, h_rgb);
  assert_eq!(s_bgr, s_rgb);
  assert_eq!(v_bgr, v_rgb);
}

#[test]
fn arch_neon_mean_abs_diff_direct() {
  let a = make_luma(128, 1);
  let b = make_luma(128, 1);
  let d = { simd_mean_abs_diff(&a, &b, 128) };
  assert!(d >= 0.0);
}

#[test]
fn arch_neon_sobel_direct() {
  let (w, h) = (32, 32);
  let src = make_luma(w, h);
  let mut mag = vec![0i32; w * h];
  let mut dir = vec![0u8; w * h];
  { simd_sobel(&src, &mut mag, &mut dir, w, h) };
  assert!(mag.iter().any(|&m| m > 0));
}

#[test]
fn scalar_bgr_to_luma_spot_values() {
  let red = [0u8, 0, 255];
  let green = [0u8, 255, 0];
  let blue = [255u8, 0, 0];
  let mut out = [0u8; 1];
  scalar_bgr_to_luma(&mut out, &red, 1, 1, 3, ChannelOrder::Bgr);
  assert_eq!(out[0], 76);
  scalar_bgr_to_luma(&mut out, &green, 1, 1, 3, ChannelOrder::Bgr);
  assert_eq!(out[0], 149);
  scalar_bgr_to_luma(&mut out, &blue, 1, 1, 3, ChannelOrder::Bgr);
  assert_eq!(out[0], 28);
}

#[test]
fn scalar_rgb_to_luma_matches_swapped_bgr() {
  let (w, h) = (16usize, 8usize);
  let bgr = make_bgr(w, h);
  let mut rgb = bgr.clone();
  for chunk in rgb.chunks_exact_mut(3) {
    chunk.swap(0, 2);
  }
  let mut out_bgr = vec![0u8; w * h];
  let mut out_rgb = vec![0u8; w * h];
  scalar_bgr_to_luma(
    &mut out_bgr,
    &bgr,
    w as u32,
    h as u32,
    (w * 3) as u32,
    ChannelOrder::Bgr,
  );
  scalar_bgr_to_luma(
    &mut out_rgb,
    &rgb,
    w as u32,
    h as u32,
    (w * 3) as u32,
    ChannelOrder::Rgb,
  );
  assert_eq!(out_bgr, out_rgb);
}
fn assert_bgr_to_luma_equiv<F: FnOnce(&mut [u8], &[u8], u32, u32, u32)>(
  w: usize,
  h: usize,
  stride: usize,
  backend: F,
) {
  let mut src = vec![0xAAu8; stride * h];
  let mut rng = 0x9E3779B9u32;
  for y in 0..h {
    for x in 0..w * 3 {
      rng = rng.wrapping_mul(1664525).wrapping_add(1013904223);
      src[y * stride + x] = (rng >> 24) as u8;
    }
  }
  let mut out_scalar = vec![0u8; w * h];
  scalar_bgr_to_luma(
    &mut out_scalar,
    &src,
    w as u32,
    h as u32,
    stride as u32,
    ChannelOrder::Bgr,
  );
  let mut out_simd = vec![0u8; w * h];
  backend(&mut out_simd, &src, w as u32, h as u32, stride as u32);
  assert_eq!(out_simd, out_scalar, "SIMD backend disagrees with scalar");
}
#[test]
fn neon_bgr_to_luma_matches_scalar() {
  assert_bgr_to_luma_equiv(16, 4, 16 * 3, |out, src, w, h, s| {
    simd_bgr_to_luma(out, src, w, h, s, ChannelOrder::Bgr);
  });
  assert_bgr_to_luma_equiv(17, 4, 17 * 3, |out, src, w, h, s| {
    simd_bgr_to_luma(out, src, w, h, s, ChannelOrder::Bgr);
  });
  assert_bgr_to_luma_equiv(24, 5, 96, |out, src, w, h, s| {
    simd_bgr_to_luma(out, src, w, h, s, ChannelOrder::Bgr);
  });
  assert_bgr_to_luma_equiv(257, 31, 257 * 3, |out, src, w, h, s| {
    simd_bgr_to_luma(out, src, w, h, s, ChannelOrder::Bgr);
  });
}
#[test]
fn neon_rgb_bgr_to_luma_matches_swapped() {
  let (w, h) = (24usize, 8usize);
  let bgr = make_bgr(w, h);
  let mut rgb = bgr.clone();
  for chunk in rgb.chunks_exact_mut(3) {
    chunk.swap(0, 2);
  }
  let mut out_bgr = vec![0u8; w * h];
  let mut out_rgb = vec![0u8; w * h];
  {
    simd_bgr_to_luma(
      &mut out_bgr,
      &bgr,
      w as u32,
      h as u32,
      (w * 3) as u32,
      ChannelOrder::Bgr,
    );
    simd_bgr_to_luma(
      &mut out_rgb,
      &rgb,
      w as u32,
      h as u32,
      (w * 3) as u32,
      ChannelOrder::Rgb,
    );
  }
  assert_eq!(out_bgr, out_rgb);
}
#[test]
fn ssse3_bgr_to_luma_matches_scalar() {
  assert_bgr_to_luma_equiv(16, 4, 16 * 3, |out, src, w, h, s| {
    simd_bgr_to_luma(out, src, w, h, s, ChannelOrder::Bgr);
  });
  assert_bgr_to_luma_equiv(17, 4, 17 * 3, |out, src, w, h, s| {
    simd_bgr_to_luma(out, src, w, h, s, ChannelOrder::Bgr);
  });
  assert_bgr_to_luma_equiv(24, 5, 96, |out, src, w, h, s| {
    simd_bgr_to_luma(out, src, w, h, s, ChannelOrder::Bgr);
  });
  assert_bgr_to_luma_equiv(257, 31, 257 * 3, |out, src, w, h, s| {
    simd_bgr_to_luma(out, src, w, h, s, ChannelOrder::Bgr);
  });
}
#[test]
fn ssse3_rgb_bgr_to_luma_matches_swapped() {
  let (w, h) = (24usize, 8usize);
  let bgr = make_bgr(w, h);
  let mut rgb = bgr.clone();
  for chunk in rgb.chunks_exact_mut(3) {
    chunk.swap(0, 2);
  }
  let mut out_bgr = vec![0u8; w * h];
  let mut out_rgb = vec![0u8; w * h];
  {
    simd_bgr_to_luma(
      &mut out_bgr,
      &bgr,
      w as u32,
      h as u32,
      (w * 3) as u32,
      ChannelOrder::Bgr,
    );
    simd_bgr_to_luma(
      &mut out_rgb,
      &rgb,
      w as u32,
      h as u32,
      (w * 3) as u32,
      ChannelOrder::Rgb,
    );
  }
  assert_eq!(out_bgr, out_rgb);
}

#[test]
fn scalar_clipping_count_spot_values() {
  let src = [
    4u8, 0, 0,
    100, 100, 100,
    0, 0, 255,
  ];
  assert_eq!(
    scalar_clipping_count(&src, 3, 1, 9),
    2,
    "expected 2 clipped pixels"
  );
}
fn assert_clipping_equiv<F: FnOnce(&[u8], u32, u32, u32) -> u64>(
  w: usize,
  h: usize,
  stride: usize,
  backend: F,
) {
  let mut src = vec![0xAAu8; stride * h];
  let mut rng = 0xDEADBEEFu32;
  for y in 0..h {
    for x in 0..w * 3 {
      rng = rng.wrapping_mul(1664525).wrapping_add(1013904223);
      src[y * stride + x] = (rng >> 24) as u8;
    }
  }
  let scalar_out = scalar_clipping_count(&src, w as u32, h as u32, stride as u32);
  let simd_out = backend(&src, w as u32, h as u32, stride as u32);
  assert_eq!(
    simd_out, scalar_out,
    "SIMD clipping count disagrees with scalar"
  );
}

#[test]
fn neon_clipping_count_matches_scalar() {
  assert_clipping_equiv(16, 4, 16 * 3, |src, w, h, s| {
    simd_clipping_count(src, w, h, s)
  });
  assert_clipping_equiv(17, 4, 17 * 3, |src, w, h, s| {
    simd_clipping_count(src, w, h, s)
  });
  assert_clipping_equiv(24, 5, 96, |src, w, h, s| {
    simd_clipping_count(src, w, h, s)
  });
  assert_clipping_equiv(257, 31, 257 * 3, |src, w, h, s| {
    simd_clipping_count(src, w, h, s)
  });
}

#[test]
fn ssse3_clipping_count_matches_scalar() {
  assert_clipping_equiv(16, 4, 16 * 3, |src, w, h, s| {
    simd_clipping_count(src, w, h, s)
  });
  assert_clipping_equiv(17, 4, 17 * 3, |src, w, h, s| {
    simd_clipping_count(src, w, h, s)
  });
  assert_clipping_equiv(24, 5, 96, |src, w, h, s| {
    simd_clipping_count(src, w, h, s)
  });
  assert_clipping_equiv(257, 31, 257 * 3, |src, w, h, s| {
    simd_clipping_count(src, w, h, s)
  });
}

#[test]
fn scalar_tenengrad_uniform_is_zero() {
  let data = vec![128u8; 16 * 16];
  assert_eq!(scalar_tenengrad(&data, 16, 16, 16), 0.0);
}

#[test]
fn scalar_noise_uniform_is_zero() {
  let data = vec![100u8; 16 * 16];
  assert_eq!(scalar_noise(&data, 16, 16, 16), 0.0);
}

#[test]
fn scalar_noise_too_small_is_zero() {
  let data = vec![0u8; 4];
  assert_eq!(scalar_noise(&data, 2, 2, 2), 0.0);
}

#[test]
fn scalar_noise_alternating_stripe_matches_closed_form() {
  let (w, h) = (16usize, 16usize);
  let mut data = vec![0u8; w * h];
  for y in 0..h {
    for x in 0..w {
      let phase = ((x + y) & 1) as i32;
      let val = 100i32 + if phase == 0 { -64 } else { 64 };
      data[y * w + x] = val as u8;
    }
  }
  let sigma = scalar_noise(&data, w, h, w);
  let expected = 0.208_898_754_886_372_3_f64 * 1024.0;
  assert!(
    ((sigma as f64) - expected).abs() < 0.5,
    "expected ~{expected}, got {sigma}"
  );
}

#[test]
fn scalar_noise_stride_padding_is_ignored() {
  let w = 4usize;
  let h = 4usize;
  let stride = 8usize;
  let mut data = vec![255u8; stride * h];
  for y in 0..h {
    for x in 0..w {
      data[y * stride + x] = 100;
    }
  }
  let sigma = scalar_noise(&data, w, h, stride);
  assert_eq!(sigma, 0.0, "padding leaked into the Laplacian");
}

#[test]
fn scalar_gradient_anisotropy_zero_mag_is_zero() {
  let (w, h) = (8usize, 8usize);
  let mag = vec![0i32; w * h];
  let dir = vec![0u8; w * h];
  assert_eq!(scalar_gradient_anisotropy(&mag, &dir, w, h), 0.0);
}

#[test]
fn scalar_gradient_anisotropy_too_small_is_zero() {
  let mag = vec![100i32; 4];
  let dir = vec![0u8; 4];
  assert_eq!(scalar_gradient_anisotropy(&mag, &dir, 2, 2), 0.0);
}

#[test]
fn scalar_gradient_anisotropy_single_direction_is_one() {
  let (w, h) = (8usize, 8usize);
  let mag = vec![100i32; w * h];
  let dir = vec![0u8; w * h];
  let a = scalar_gradient_anisotropy(&mag, &dir, w, h);
  assert!(
    (a - 1.0).abs() < 1e-6,
    "expected 1.0 for single-direction frame, got {a}"
  );
}

#[test]
fn scalar_gradient_anisotropy_uniform_directions_is_zero() {
  let (w, h) = (10usize, 10usize);
  let mag = vec![100i32; w * h];
  let mut dir = vec![0u8; w * h];
  let mut counter = 0u8;
  for y in 1..h - 1 {
    for x in 1..w - 1 {
      dir[y * w + x] = counter & 0b11;
      counter = counter.wrapping_add(1);
    }
  }
  let a = scalar_gradient_anisotropy(&mag, &dir, w, h);
  assert!(
    a.abs() < 1e-6,
    "expected ~0.0 for uniform directions, got {a}"
  );
  assert!(mag.iter().any(|&v| v != 0));
}

#[test]
fn scalar_colorfulness_uniform_gray_is_zero() {
  let w = 16usize;
  let h = 16usize;
  let data = vec![128u8; w * h * 3];
  let c = scalar_colorfulness(&data, w, h, w * 3, ChannelOrder::Bgr);
  assert!(c.abs() < 1e-3, "expected ~0.0, got {c}");
}

#[test]
fn scalar_colorfulness_pure_red_has_nonzero_score() {
  let w = 8usize;
  let h = 8usize;
  let mut data = vec![0u8; w * h * 3];
  for i in 0..(w * h) {
    data[i * 3 + 2] = 255;
  }
  let c = scalar_colorfulness(&data, w, h, w * 3, ChannelOrder::Bgr);
  let expected = 0.3_f64 * (255.0_f64.powi(2) + 127.5_f64.powi(2)).sqrt();
  assert!(
    ((c as f64) - expected).abs() < 1e-2,
    "expected ~{expected}, got {c}"
  );
}

#[test]
fn scalar_colorfulness_stride_padding_is_ignored() {
  let w = 4usize;
  let h = 4usize;
  let stride = 32usize;
  let mut data = vec![200u8; stride * h]; // padding is "color-y"
  for y in 0..h {
    for x in 0..w {
      data[y * stride + x * 3] = 128;
      data[y * stride + x * 3 + 1] = 128;
      data[y * stride + x * 3 + 2] = 128;
    }
  }
  let c = scalar_colorfulness(&data, w, h, stride, ChannelOrder::Bgr);
  assert!(c.abs() < 1e-3, "padding leaked into reduction, got {c}");
}

#[test]
fn scalar_colorfulness_empty_frame_is_zero() {
  let data = vec![0u8];
  assert_eq!(
    scalar_colorfulness(&data, 0, 0, 0, ChannelOrder::Bgr),
    0.0
  );
}

#[test]
fn scalar_tenengrad_small_frame_is_zero() {
  let data = vec![0u8, 255, 255, 0];
  assert_eq!(scalar_tenengrad(&data, 2, 2, 2), 0.0);
}
fn assert_tenengrad_equiv<F: FnOnce(&[u8], usize, usize, usize) -> f32>(
  w: usize,
  h: usize,
  stride: usize,
  backend: F,
) {
  let mut data = vec![0xAAu8; stride * h];
  let mut rng = 0xCAFEBABEu32;
  for y in 0..h {
    for x in 0..w {
      rng = rng.wrapping_mul(1664525).wrapping_add(1013904223);
      data[y * stride + x] = (rng >> 24) as u8;
    }
  }
  let scalar_out = scalar_tenengrad(&data, w, h, stride);
  let simd_out = backend(&data, w, h, stride);
  let rel = (simd_out - scalar_out).abs() / scalar_out.abs().max(1.0);
  assert!(
    rel < 1e-3,
    "SIMD tenengrad disagrees with scalar: simd={simd_out} scalar={scalar_out} rel={rel}"
  );
}

#[test]
fn neon_tenengrad_matches_scalar() {
  assert_tenengrad_equiv(10, 10, 10, |luma, w, h, s| {
    simd_tenengrad(luma, w, h, s)
  });
  assert_tenengrad_equiv(11, 10, 11, |luma, w, h, s| {
    simd_tenengrad(luma, w, h, s)
  });
  assert_tenengrad_equiv(24, 12, 64, |luma, w, h, s| {
    simd_tenengrad(luma, w, h, s)
  });
  assert_tenengrad_equiv(257, 31, 257, |luma, w, h, s| {
    simd_tenengrad(luma, w, h, s)
  });
}

#[test]
fn ssse3_tenengrad_matches_scalar() {
  assert_tenengrad_equiv(10, 10, 10, |luma, w, h, s| {
    simd_tenengrad(luma, w, h, s)
  });
  assert_tenengrad_equiv(11, 10, 11, |luma, w, h, s| {
    simd_tenengrad(luma, w, h, s)
  });
  assert_tenengrad_equiv(24, 12, 64, |luma, w, h, s| {
    simd_tenengrad(luma, w, h, s)
  });
  assert_tenengrad_equiv(257, 31, 257, |luma, w, h, s| {
    simd_tenengrad(luma, w, h, s)
  });
}
fn assert_noise_equiv<F: FnOnce(&[u8], usize, usize, usize) -> f32>(
  w: usize,
  h: usize,
  stride: usize,
  backend: F,
) {
  let mut data = vec![0xAAu8; stride * h];
  let mut rng = 0xC0FFEE_u32;
  for y in 0..h {
    for x in 0..w {
      rng = rng.wrapping_mul(1664525).wrapping_add(1013904223);
      data[y * stride + x] = (rng >> 24) as u8;
    }
  }
  let scalar_out = scalar_noise(&data, w, h, stride);
  let simd_out = backend(&data, w, h, stride);
  let rel = (simd_out - scalar_out).abs() / scalar_out.abs().max(1.0);
  assert!(
    rel < 1e-4,
    "SIMD noise disagrees with scalar: simd={simd_out} scalar={scalar_out} rel={rel}"
  );
}

#[test]
fn neon_noise_matches_scalar() {
  assert_noise_equiv(10, 10, 10, |luma, w, h, s| {
    simd_noise(luma, w, h, s)
  });
  assert_noise_equiv(11, 10, 11, |luma, w, h, s| {
    simd_noise(luma, w, h, s)
  });
  assert_noise_equiv(24, 12, 64, |luma, w, h, s| {
    simd_noise(luma, w, h, s)
  });
  assert_noise_equiv(257, 31, 257, |luma, w, h, s| {
    simd_noise(luma, w, h, s)
  });
}

#[test]
fn ssse3_noise_matches_scalar() {
  assert_noise_equiv(10, 10, 10, |luma, w, h, s| {
    simd_noise(luma, w, h, s)
  });
  assert_noise_equiv(11, 10, 11, |luma, w, h, s| {
    simd_noise(luma, w, h, s)
  });
  assert_noise_equiv(24, 12, 64, |luma, w, h, s| {
    simd_noise(luma, w, h, s)
  });
  assert_noise_equiv(257, 31, 257, |luma, w, h, s| {
    simd_noise(luma, w, h, s)
  });
}

#[test]
fn sse41_noise_matches_scalar() {
  assert_noise_equiv(10, 10, 10, |luma, w, h, s| {
    simd_noise(luma, w, h, s)
  });
  assert_noise_equiv(11, 10, 11, |luma, w, h, s| {
    simd_noise(luma, w, h, s)
  });
  assert_noise_equiv(24, 12, 64, |luma, w, h, s| {
    simd_noise(luma, w, h, s)
  });
  assert_noise_equiv(257, 31, 257, |luma, w, h, s| {
    simd_noise(luma, w, h, s)
  });
}

#[test]
fn avx2_noise_matches_scalar() {
  assert_noise_equiv(18, 10, 18, |luma, w, h, s| {
    simd_noise(luma, w, h, s)
  });
  assert_noise_equiv(19, 10, 19, |luma, w, h, s| {
    simd_noise(luma, w, h, s)
  });
  assert_noise_equiv(40, 12, 96, |luma, w, h, s| {
    simd_noise(luma, w, h, s)
  });
  assert_noise_equiv(257, 31, 257, |luma, w, h, s| {
    simd_noise(luma, w, h, s)
  });
}
fn assert_colorfulness_equiv<F: FnOnce(&[u8], usize, usize, usize) -> f32>(
  w: usize,
  h: usize,
  stride: usize,
  backend: F,
) {
  let mut data = vec![0xCCu8; stride * h];
  let mut rng = 0xDEAD_BEEFu32;
  for y in 0..h {
    for x in 0..w {
      rng = rng.wrapping_mul(1664525).wrapping_add(1013904223);
      let base = y * stride + x * 3;
      data[base] = (rng >> 24) as u8;
      rng = rng.wrapping_mul(1664525).wrapping_add(1013904223);
      data[base + 1] = (rng >> 24) as u8;
      rng = rng.wrapping_mul(1664525).wrapping_add(1013904223);
      data[base + 2] = (rng >> 24) as u8;
    }
  }
  let scalar_out = scalar_colorfulness(&data, w, h, stride, ChannelOrder::Bgr);
  let simd_out = backend(&data, w, h, stride);
  let rel = (simd_out - scalar_out).abs() / scalar_out.abs().max(1.0);
  assert!(
    rel < 1e-4,
    "SIMD colorfulness disagrees with scalar: simd={simd_out} scalar={scalar_out} rel={rel}"
  );
}

#[test]
fn neon_colorfulness_matches_scalar() {
  assert_colorfulness_equiv(16, 12, 48, |bgr, w, h, s| {
    simd_colorfulness(bgr, w, h, s, ChannelOrder::Bgr)
  });
  assert_colorfulness_equiv(17, 12, 51, |bgr, w, h, s| {
    simd_colorfulness(bgr, w, h, s, ChannelOrder::Bgr)
  });
  assert_colorfulness_equiv(24, 9, 128, |bgr, w, h, s| {
    simd_colorfulness(bgr, w, h, s, ChannelOrder::Bgr)
  });
  assert_colorfulness_equiv(259, 17, 259 * 3, |bgr, w, h, s| {
    simd_colorfulness(bgr, w, h, s, ChannelOrder::Bgr)
  });
}

#[test]
fn ssse3_colorfulness_matches_scalar() {
  assert_colorfulness_equiv(16, 12, 48, |bgr, w, h, s| {
    simd_colorfulness(bgr, w, h, s, ChannelOrder::Bgr)
  });
  assert_colorfulness_equiv(17, 12, 51, |bgr, w, h, s| {
    simd_colorfulness(bgr, w, h, s, ChannelOrder::Bgr)
  });
  assert_colorfulness_equiv(24, 9, 128, |bgr, w, h, s| {
    simd_colorfulness(bgr, w, h, s, ChannelOrder::Bgr)
  });
  assert_colorfulness_equiv(259, 17, 259 * 3, |bgr, w, h, s| {
    simd_colorfulness(bgr, w, h, s, ChannelOrder::Bgr)
  });
}

#[test]
fn sse41_colorfulness_matches_scalar() {
  assert_colorfulness_equiv(16, 12, 48, |bgr, w, h, s| {
    simd_colorfulness(bgr, w, h, s, ChannelOrder::Bgr)
  });
  assert_colorfulness_equiv(17, 12, 51, |bgr, w, h, s| {
    simd_colorfulness(bgr, w, h, s, ChannelOrder::Bgr)
  });
  assert_colorfulness_equiv(24, 9, 128, |bgr, w, h, s| {
    simd_colorfulness(bgr, w, h, s, ChannelOrder::Bgr)
  });
  assert_colorfulness_equiv(259, 17, 259 * 3, |bgr, w, h, s| {
    simd_colorfulness(bgr, w, h, s, ChannelOrder::Bgr)
  });
}

#[test]
fn avx2_colorfulness_matches_scalar() {
  assert_colorfulness_equiv(16, 12, 48, |bgr, w, h, s| {
    simd_colorfulness(bgr, w, h, s, ChannelOrder::Bgr)
  });
  assert_colorfulness_equiv(17, 12, 51, |bgr, w, h, s| {
    simd_colorfulness(bgr, w, h, s, ChannelOrder::Bgr)
  });
  assert_colorfulness_equiv(24, 9, 128, |bgr, w, h, s| {
    simd_colorfulness(bgr, w, h, s, ChannelOrder::Bgr)
  });
  assert_colorfulness_equiv(259, 17, 259 * 3, |bgr, w, h, s| {
    simd_colorfulness(bgr, w, h, s, ChannelOrder::Bgr)
  });
}
fn assert_anisotropy_equiv<F: FnOnce(&[i32], &[u8], usize, usize) -> f32>(
  w: usize,
  h: usize,
  backend: F,
) {
  let mut mag = vec![0i32; w * h];
  let mut dir = vec![0u8; w * h];
  let mut rng = 0xFEED_FACEu32;
  for v in mag.iter_mut() {
    rng = rng.wrapping_mul(1664525).wrapping_add(1013904223);
    *v = (rng as i32) / 4;
  }
  for v in dir.iter_mut() {
    rng = rng.wrapping_mul(1664525).wrapping_add(1013904223);
    *v = (rng >> 24) as u8;
  }
  let scalar_out = scalar_gradient_anisotropy(&mag, &dir, w, h);
  let simd_out = backend(&mag, &dir, w, h);
  let rel = (simd_out - scalar_out).abs() / scalar_out.abs().max(1.0);
  assert!(
    rel < 1e-5,
    "SIMD gradient_anisotropy disagrees with scalar: simd={simd_out} scalar={scalar_out} rel={rel}"
  );
}

#[test]
fn neon_gradient_anisotropy_matches_scalar() {
  assert_anisotropy_equiv(10, 10, |m, d, w, h| {
    simd_gradient_anisotropy(m, d, w, h)
  });
  assert_anisotropy_equiv(11, 10, |m, d, w, h| {
    simd_gradient_anisotropy(m, d, w, h)
  });
  assert_anisotropy_equiv(257, 31, |m, d, w, h| {
    simd_gradient_anisotropy(m, d, w, h)
  });
}

#[test]
fn ssse3_gradient_anisotropy_matches_scalar() {
  assert_anisotropy_equiv(6, 6, |m, d, w, h| {
    simd_gradient_anisotropy(m, d, w, h)
  });
  assert_anisotropy_equiv(7, 6, |m, d, w, h| {
    simd_gradient_anisotropy(m, d, w, h)
  });
  assert_anisotropy_equiv(11, 10, |m, d, w, h| {
    simd_gradient_anisotropy(m, d, w, h)
  });
  assert_anisotropy_equiv(257, 31, |m, d, w, h| {
    simd_gradient_anisotropy(m, d, w, h)
  });
}

#[test]
fn sse41_gradient_anisotropy_matches_scalar() {
  assert_anisotropy_equiv(6, 6, |m, d, w, h| {
    simd_gradient_anisotropy(m, d, w, h)
  });
  assert_anisotropy_equiv(7, 6, |m, d, w, h| {
    simd_gradient_anisotropy(m, d, w, h)
  });
  assert_anisotropy_equiv(11, 10, |m, d, w, h| {
    simd_gradient_anisotropy(m, d, w, h)
  });
  assert_anisotropy_equiv(257, 31, |m, d, w, h| {
    simd_gradient_anisotropy(m, d, w, h)
  });
}

#[test]
fn avx2_gradient_anisotropy_matches_scalar() {
  assert_anisotropy_equiv(10, 10, |m, d, w, h| {
    simd_gradient_anisotropy(m, d, w, h)
  });
  assert_anisotropy_equiv(11, 10, |m, d, w, h| {
    simd_gradient_anisotropy(m, d, w, h)
  });
  assert_anisotropy_equiv(257, 31, |m, d, w, h| {
    simd_gradient_anisotropy(m, d, w, h)
  });
}




#[test]
fn scalar_plane_mean_variance_uniform() {
  let data = vec![128u8; 16 * 8];
  let (mean, var) = scalar_plane_mean_variance(&data, 16, 8, 16);
  assert!((mean - 128.0).abs() < 1e-3);
  assert!(var < 1e-3);
}

#[test]
fn scalar_plane_mean_variance_bimodal() {
  let mut data = vec![0u8; 16 * 16];
  for i in (16 * 8)..(16 * 16) {
    data[i] = 200;
  }
  let (mean, var) = scalar_plane_mean_variance(&data, 16, 16, 16);
  assert!((mean - 100.0).abs() < 1e-3);
  assert!((var - 10_000.0).abs() < 1.0);
}

fn assert_plane_stats_equiv<F: FnOnce(&[u8], usize, usize, usize) -> (f32, f32)>(
  w: usize,
  h: usize,
  stride: usize,
  backend: F,
) {
  let mut data = vec![0xAAu8; stride * h];
  let mut rng = 0xABAD1DEAu32;
  for y in 0..h {
    for x in 0..w {
      rng = rng.wrapping_mul(1664525).wrapping_add(1013904223);
      data[y * stride + x] = (rng >> 24) as u8;
    }
  }
  let (scalar_m, scalar_v) = scalar_plane_mean_variance(&data, w, h, stride);
  let (simd_m, simd_v) = backend(&data, w, h, stride);
  let rel_m = (simd_m - scalar_m).abs() / scalar_m.abs().max(1.0);
  let rel_v = (simd_v - scalar_v).abs() / scalar_v.abs().max(1.0);
  assert!(
    rel_m < 1e-5 && rel_v < 1e-4,
    "plane stats disagree: mean simd={simd_m} scalar={scalar_m} (rel {rel_m}), \
     var simd={simd_v} scalar={scalar_v} (rel {rel_v})"
  );
}

#[test]
fn neon_plane_mean_variance_matches_scalar() {
  assert_plane_stats_equiv(16, 4, 16, |p, w, h, s| {
    simd_plane_mean_variance(p, w, h, s)
  });
  assert_plane_stats_equiv(17, 4, 17, |p, w, h, s| {
    simd_plane_mean_variance(p, w, h, s)
  });
  assert_plane_stats_equiv(24, 5, 64, |p, w, h, s| {
    simd_plane_mean_variance(p, w, h, s)
  });
  assert_plane_stats_equiv(257, 31, 257, |p, w, h, s| {
    simd_plane_mean_variance(p, w, h, s)
  });
}

#[test]
fn ssse3_plane_mean_variance_matches_scalar() {
  assert_plane_stats_equiv(16, 4, 16, |p, w, h, s| {
    simd_plane_mean_variance(p, w, h, s)
  });
  assert_plane_stats_equiv(17, 4, 17, |p, w, h, s| {
    simd_plane_mean_variance(p, w, h, s)
  });
  assert_plane_stats_equiv(24, 5, 64, |p, w, h, s| {
    simd_plane_mean_variance(p, w, h, s)
  });
  assert_plane_stats_equiv(257, 31, 257, |p, w, h, s| {
    simd_plane_mean_variance(p, w, h, s)
  });
}
#[test]
fn scalar_plane_mean_variance_bright_uniform_is_zero_var() {
  for &v in &[182u8, 200, 240, 255] {
    let data = vec![v; 32 * 8];
    let (mean, var) = scalar_plane_mean_variance(&data, 32, 8, 32);
    assert!(
      (mean - v as f32).abs() < 1e-3,
      "uniform v={v}: mean {mean} ≠ {v}"
    );
    assert!(var < 1e-3, "uniform v={v}: variance {var} should be 0");
  }
}

#[test]
fn ssse3_plane_mean_variance_bright_matches_scalar() {
  for &v in &[182u8, 200, 240, 255] {
    let data = vec![v; 32 * 8];
    let (scalar_m, scalar_v) = scalar_plane_mean_variance(&data, 32, 8, 32);
    let (simd_m, simd_v) = { simd_plane_mean_variance(&data, 32, 8, 32) };
    assert!(
      (simd_m - scalar_m).abs() < 1e-3,
      "v={v}: mean simd={simd_m} scalar={scalar_m}"
    );
    assert!(
      (simd_v - scalar_v).abs() < 1e-3,
      "v={v}: variance simd={simd_v} scalar={scalar_v}"
    );
  }
}
