//! The kernels on pseudo-random pictures.

use scenesdetect::arch::{bgr_to_hsv_planes, mean_abs_diff, sobel};
use scenesdetect::frame::ChannelOrder;

fn fill(buf: &mut [u8], seed: u32) {
    let mut rng = seed;
    for v in buf.iter_mut() {
        rng = rng.wrapping_mul(1664525).wrapping_add(1013904223);
        *v = (rng >> 24) as u8;
    }
}

fn make_bgr(w: usize, h: usize) -> Vec<u8> {
    let mut buf = vec![0u8; w * h * 3];
    fill(&mut buf, 0x9E3779B9);
    buf
}

fn make_luma(w: usize, h: usize) -> Vec<u8> {
    let mut buf = vec![0u8; w * h];
    fill(&mut buf, 0xDEADBEEF);
    buf
}

fn planes(w: usize, h: usize, use_simd: bool) -> Vec<u8> {
    let src = make_bgr(w, h);
    let n = w * h;
    let mut ho = vec![0u8; n];
    let mut so = vec![0u8; n];
    let mut vo = vec![0u8; n];
    bgr_to_hsv_planes(
        &mut ho,
        &mut so,
        &mut vo,
        &src,
        w as u32,
        h as u32,
        (w * 3) as u32,
        ChannelOrder::Bgr,
        use_simd,
    );
    vo
}

fn magnitudes(w: usize, h: usize, use_simd: bool) -> Vec<i32> {
    let src = make_luma(w, h);
    let mut mag = vec![0i32; w * h];
    let mut dir = vec![0u8; w * h];
    sobel(&src, &mut mag, &mut dir, w, h, use_simd);
    mag
}

fn difference(n: usize, use_simd: bool) -> f64 {
    let a = make_luma(n, 1);
    let b = make_luma(n, 1);
    let m = mean_abs_diff(&a, &b, n, use_simd);
    m.sum as f64 / m.count as f64
}

#[test]
fn scalar_bgr_to_hsv_planes() {
    let vo = planes(32, 16, false);
    assert!(vo.iter().any(|&v| v > 0));
}

#[test]
fn scalar_mean_abs_diff_nonzero() {
    let d = difference(64, false);
    assert!(d >= 0.0);
}

#[test]
fn scalar_sobel() {
    let mag = magnitudes(16, 16, false);
    assert!(mag.iter().any(|&m| m > 0));
}

#[test]
fn ssse3_bgr_to_hsv_planes_direct() {
    let vo = planes(64, 16, true);
    assert!(vo.iter().any(|&v| v > 0));
}

#[test]
fn avx2_bgr_to_hsv_planes_direct() {
    let vo = planes(64, 16, true);
    assert!(vo.iter().any(|&v| v > 0));
}

#[test]
fn neon_bgr_to_hsv_planes_direct() {
    let vo = planes(64, 16, true);
    assert!(vo.iter().any(|&v| v > 0));
}

#[test]
fn ssse3_mean_abs_diff_direct() {
    let d = difference(128, true);
    assert!(d >= 0.0);
}

#[test]
fn ssse3_sobel_direct() {
    let mag = magnitudes(32, 32, true);
    assert!(mag.iter().any(|&m| m > 0));
}

#[test]
fn neon_mean_abs_diff_direct() {
    let d = difference(128, true);
    assert!(d >= 0.0);
}

#[test]
fn neon_sobel_direct() {
    let mag = magnitudes(32, 32, true);
    assert!(mag.iter().any(|&m| m > 0));
}
