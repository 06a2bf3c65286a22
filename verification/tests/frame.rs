//! Frame types.

use scenesdetect::frame::{
    HsvFrame, HsvFrameError, HsvPlane, LumaFrame, LumaFrameError, RgbFrame, RgbFrameError,
    Timebase, Timestamp,
};

#[test]
fn luma_frame_basic() {
  let buf = [0u8; 64 * 48];
  let tb = Timebase::new(1, 1000);
  let f = LumaFrame::new(&buf, 64, 48, 64, Timestamp::new(0, tb));
  assert_eq!(f.width(), 64);
  assert_eq!(f.height(), 48);
  assert_eq!(f.stride(), 64);
  assert_eq!(f.data().len(), 64 * 48);
}

#[test]
fn luma_frame_with_padding() {
  let buf = [0u8; 80 * 48];
  let tb = Timebase::new(1, 1000);
  let f = LumaFrame::new(&buf, 64, 48, 80, Timestamp::new(0, tb));
  assert_eq!(f.width(), 64);
  assert_eq!(f.stride(), 80);
}



#[test]
fn try_new_success() {
  let buf = [0u8; 80 * 48];
  let tb = Timebase::new(1, 1000);
  let f = LumaFrame::try_new(&buf, 64, 48, 80, Timestamp::new(0, tb)).expect("valid frame");
  assert_eq!(f.width(), 64);
  assert_eq!(f.stride(), 80);
}

#[test]
fn try_new_rejects_stride_less_than_width() {
  let buf = [0u8; 64 * 48];
  let tb = Timebase::new(1, 1000);
  let err = LumaFrame::try_new(&buf, 64, 48, 32, Timestamp::new(0, tb)).expect_err("should fail");
  assert_eq!(
    err,
    LumaFrameError::StrideTooSmall {
      width: 64,
      stride: 32,
    },
  );
}

#[test]
fn try_new_rejects_short_data() {
  let buf = [0u8; 10];
  let tb = Timebase::new(1, 1000);
  let err = LumaFrame::try_new(&buf, 64, 48, 64, Timestamp::new(0, tb)).expect_err("should fail");
  assert_eq!(
    err,
    LumaFrameError::DataTooShort {
      expected: 64 * 48,
      actual: 10,
    },
  );
}

#[test]
fn luma_frame_error_display() {
  let e = LumaFrameError::StrideTooSmall {
    width: 64,
    stride: 32,
  };
  assert_eq!(e.message(), "stride (32) is smaller than width (64)");
}

#[test]
fn rgb_frame_basic() {
  let buf = [0u8; 4 * 3 * 2];
  let tb = Timebase::new(1, 1000);
  let f = RgbFrame::new(&buf, 4, 2, 12, Timestamp::new(0, tb));
  assert_eq!(f.width(), 4);
  assert_eq!(f.height(), 2);
  assert_eq!(f.stride(), 12);
  assert_eq!(f.data().len(), 24);
}

#[test]
fn rgb_frame_with_padding() {
  let buf = [0u8; 16 * 2];
  let tb = Timebase::new(1, 1000);
  let f = RgbFrame::new(&buf, 4, 2, 16, Timestamp::new(0, tb));
  assert_eq!(f.stride(), 16);
}

#[test]
fn try_new_rgb_rejects_stride_less_than_width_times_3() {
  let buf = [0u8; 12 * 2];
  let tb = Timebase::new(1, 1000);
  let err =
    RgbFrame::try_new(&buf, 4, 2, 8, Timestamp::new(0, tb)).expect_err("stride 8 < 4*3 = 12");
  assert_eq!(
    err,
    RgbFrameError::StrideTooSmall {
      width: 4,
      stride: 8,
      min_stride: 12,
    },
  );
}

#[test]
fn try_new_rgb_rejects_short_data() {
  let buf = [0u8; 10];
  let tb = Timebase::new(1, 1000);
  let err = RgbFrame::try_new(&buf, 4, 2, 12, Timestamp::new(0, tb)).expect_err("should fail");
  assert_eq!(
    err,
    RgbFrameError::DataTooShort {
      expected: 24,
      actual: 10,
    },
  );
}


#[test]
fn rgb_frame_try_new_rejects_width_times_three_overflow() {
  let buf = [0u8; 0];
  let tb = Timebase::new(1, 1000);
  let bad_w = u32::MAX / 3 + 1;
  let err = RgbFrame::try_new(&buf, bad_w, 1, u32::MAX, Timestamp::new(0, tb))
    .expect_err("width*3 should overflow");
  assert_eq!(err, RgbFrameError::WidthOverflow { width: bad_w });
}

#[test]
fn hsv_frame_basic_accessors() {
  let h = vec![10u8; 64 * 48];
  let s = vec![20u8; 64 * 48];
  let v = vec![30u8; 64 * 48];
  let tb = Timebase::new(1, 1000);
  let ts = Timestamp::new(42, tb);
  let f = HsvFrame::new(&h, &s, &v, 64, 48, 64, ts);

  assert_eq!(f.width(), 64);
  assert_eq!(f.height(), 48);
  assert_eq!(f.stride(), 64);
  assert_eq!(f.timestamp(), ts);
  assert_eq!(f.hue().len(), 64 * 48);
  assert_eq!(f.saturation().len(), 64 * 48);
  assert_eq!(f.value().len(), 64 * 48);
  assert_eq!(f.hue()[0], 10);
  assert_eq!(f.saturation()[0], 20);
  assert_eq!(f.value()[0], 30);
}

#[test]
fn hsv_frame_try_new_rejects_stride_less_than_width() {
  let h = vec![0u8; 16];
  let tb = Timebase::new(1, 1000);
  let err =
    HsvFrame::try_new(&h, &h, &h, 64, 1, 32, Timestamp::new(0, tb)).expect_err("should fail");
  assert_eq!(
    err,
    HsvFrameError::StrideTooSmall {
      width: 64,
      stride: 32
    }
  );
}

#[test]
fn hsv_frame_try_new_reports_which_plane_is_short() {
  let full = vec![0u8; 64 * 48];
  let short = vec![0u8; 10];
  let tb = Timebase::new(1, 1000);
  let ts = Timestamp::new(0, tb);
  let err = HsvFrame::try_new(&short, &full, &full, 64, 48, 64, ts).expect_err("h too short");
  assert_eq!(
    err,
    HsvFrameError::PlaneTooShort {
      plane: HsvPlane::Hue,
      expected: 64 * 48,
      actual: 10,
    },
  );
  let err = HsvFrame::try_new(&full, &short, &full, 64, 48, 64, ts).expect_err("s too short");
  assert_eq!(
    err,
    HsvFrameError::PlaneTooShort {
      plane: HsvPlane::Saturation,
      expected: 64 * 48,
      actual: 10,
    },
  );
  let err = HsvFrame::try_new(&full, &full, &short, 64, 48, 64, ts).expect_err("v too short");
  assert_eq!(
    err,
    HsvFrameError::PlaneTooShort {
      plane: HsvPlane::Value,
      expected: 64 * 48,
      actual: 10,
    },
  );
}


#[test]
fn hsv_plane_display_and_as_str() {
  assert_eq!(HsvPlane::Hue.as_str(), "hue");
  assert_eq!(HsvPlane::Saturation.as_str(), "saturation");
  assert_eq!(HsvPlane::Value.as_str(), "value");
  assert_eq!(HsvPlane::Hue.as_str(), "hue");
  assert_eq!(HsvPlane::Saturation.as_str(), "saturation");
  assert_eq!(HsvPlane::Value.as_str(), "value");
}

#[test]
fn hsv_frame_error_display_variants() {
  let e = HsvFrameError::StrideTooSmall {
    width: 10,
    stride: 5,
  };
  assert!(e.message().contains("smaller than width"));
  let e = HsvFrameError::PlaneTooShort {
    plane: HsvPlane::Saturation,
    expected: 100,
    actual: 50,
  };
  let s = e.message();
  assert!(s.contains("saturation"));
  assert!(s.contains("100"));
  assert!(s.contains("50"));
}

#[test]
fn frame_error_displays_include_key_fields() {
  let e = RgbFrameError::StrideTooSmall {
    width: 4,
    stride: 8,
    min_stride: 12,
  };
  assert!(e.message().contains("12"));
  let e = RgbFrameError::DataTooShort {
    expected: 24,
    actual: 10,
  };
  assert!(e.message().contains("24"));
  let e = RgbFrameError::DimensionsOverflow {
    stride: 1,
    height: 1,
  };
  assert!(e.message().contains("overflow"));
  let e = LumaFrameError::DataTooShort {
    expected: 24,
    actual: 10,
  };
  assert!(e.message().contains("24"));
  let e = LumaFrameError::DimensionsOverflow {
    stride: 1,
    height: 1,
  };
  assert!(e.message().contains("overflow"));
  let e = HsvFrameError::DimensionsOverflow {
    stride: 1,
    height: 1,
  };
  assert!(e.message().contains("overflow"));
}
