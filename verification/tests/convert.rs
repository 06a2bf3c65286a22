//! Color-space conversions.

use scenesdetect::frame::convert::{bgr_to_hsv_planes, bgr_to_luma};
use scenesdetect::frame::ChannelOrder;

fn make_bgr(w: usize, h: usize, seed: u32) -> std::vec::Vec<u8> {
  let mut buf = vec![0u8; w * h * 3];
  let mut rng = seed;
  for v in buf.iter_mut() {
    rng = rng.wrapping_mul(1664525).wrapping_add(1013904223);
    *v = (rng >> 24) as u8;
  }
  buf
}

#[test]
fn bgr_to_luma_black_is_zero() {
  let (w, h) = (8, 4);
  let src = vec![0u8; w * h * 3];
  let mut out = vec![255u8; w * h];
  bgr_to_luma(
    &mut out,
    &src,
    w as u32,
    h as u32,
    (w * 3) as u32,
    ChannelOrder::Bgr,
    false,
  );
  assert!(
    out.iter().all(|&y| y == 0),
    "black frame should be all zero"
  );
}

#[test]
fn bgr_to_luma_white_is_saturated() {
  let (w, h) = (8, 4);
  let src = vec![255u8; w * h * 3];
  let mut out = vec![0u8; w * h];
  bgr_to_luma(
    &mut out,
    &src,
    w as u32,
    h as u32,
    (w * 3) as u32,
    ChannelOrder::Bgr,
    false,
  );
  assert!(out.iter().all(|&y| y == 255), "white frame should saturate");
}

#[test]
fn bgr_to_luma_coefficients_match_bt601() {
  let red_bgr = [0u8, 0, 255];
  let green_bgr = [0u8, 255, 0];
  let blue_bgr = [255u8, 0, 0];

  let mut out = [0u8; 1];

  bgr_to_luma(&mut out, &red_bgr, 1, 1, 3, ChannelOrder::Bgr, false);
  assert_eq!(out[0], 76);

  bgr_to_luma(&mut out, &green_bgr, 1, 1, 3, ChannelOrder::Bgr, false);
  assert_eq!(out[0], 149);

  bgr_to_luma(&mut out, &blue_bgr, 1, 1, 3, ChannelOrder::Bgr, false);
  assert_eq!(out[0], 28);
}

#[test]
fn bgr_to_luma_honors_stride_padding() {
  let (w, h) = (4usize, 2usize);
  let stride = 16usize;
  let mut src = vec![0u8; stride * h];
  for x in 0..w {
    src[x * 3] = 255;
    src[x * 3 + 1] = 255;
    src[x * 3 + 2] = 255;
  }
  let mut out = vec![0u8; w * h];
  bgr_to_luma(
    &mut out,
    &src,
    w as u32,
    h as u32,
    stride as u32,
    ChannelOrder::Bgr,
    false,
  );
  assert!(out[..w].iter().all(|&y| y == 255));
  assert!(out[w..].iter().all(|&y| y == 0));
}

#[test]
fn rgb_to_luma_swaps_red_and_blue_coefficients() {
  let red_rgb = [255u8, 0, 0];
  let green_rgb = [0u8, 255, 0];
  let blue_rgb = [0u8, 0, 255];

  let mut out = [0u8; 1];

  bgr_to_luma(&mut out, &red_rgb, 1, 1, 3, ChannelOrder::Rgb, false);
  assert_eq!(out[0], 76, "RGB-red should weight by 77");

  bgr_to_luma(&mut out, &green_rgb, 1, 1, 3, ChannelOrder::Rgb, false);
  assert_eq!(out[0], 149, "RGB-green should weight by 150");

  bgr_to_luma(&mut out, &blue_rgb, 1, 1, 3, ChannelOrder::Rgb, false);
  assert_eq!(out[0], 28, "RGB-blue should weight by 29");
}






#[test]
fn bgr_to_hsv_planes_reexport_works() {
  let (w, h) = (16, 4);
  let src = make_bgr(w, h, 0x9E3779B9);
  let mut ho = vec![0u8; w * h];
  let mut so = vec![0u8; w * h];
  let mut vo = vec![0u8; w * h];
  bgr_to_hsv_planes(
    &mut ho,
    &mut so,
    &mut vo,
    &src,
    w as u32,
    h as u32,
    (w * 3) as u32,
    ChannelOrder::Bgr,
    false,
  );
  assert!(vo.iter().any(|&v| v > 0));
}

#[test]
fn rgb_to_hsv_planes_matches_swapped_bgr() {
  let (w, h) = (16, 4);
  let bgr = make_bgr(w, h, 0xDEAD_BEEF);
  let mut rgb = bgr.clone();
  for chunk in rgb.chunks_exact_mut(3) {
    chunk.swap(0, 2);
  }

  let n = w * h;
  let mut h_bgr = vec![0u8; n];
  let mut s_bgr = vec![0u8; n];
  let mut v_bgr = vec![0u8; n];
  bgr_to_hsv_planes(
    &mut h_bgr,
    &mut s_bgr,
    &mut v_bgr,
    &bgr,
    w as u32,
    h as u32,
    (w * 3) as u32,
    ChannelOrder::Bgr,
    false,
  );

  let mut h_rgb = vec![0u8; n];
  let mut s_rgb = vec![0u8; n];
  let mut v_rgb = vec![0u8; n];
  bgr_to_hsv_planes(
    &mut h_rgb,
    &mut s_rgb,
    &mut v_rgb,
    &rgb,
    w as u32,
    h as u32,
    (w * 3) as u32,
    ChannelOrder::Rgb,
    false,
  );

  assert_eq!(h_bgr, h_rgb);
  assert_eq!(s_bgr, s_rgb);
  assert_eq!(v_bgr, v_rgb);
}
