//! Frames and what they refuse.

use colorthief::frame::{Rgb48Frame, RgbFrame, RgbFrameError};

#[test]
fn rgb48_try_new_rejects_zero_dimension() {
    let buf = vec![0u16; 12];
    let err = Rgb48Frame::try_new(&buf, 0, 4, 12).unwrap_err();
    assert!(matches!(err, RgbFrameError::ZeroDimension { .. }));
}

#[test]
fn rgb48_try_new_rejects_stride_too_small() {
    let buf = vec![0u16; 16];
    let err = Rgb48Frame::try_new(&buf, 4, 2, 8).unwrap_err();
    assert!(
        matches!(err, RgbFrameError::StrideTooSmall { min_stride: 12, stride: 8 }),
        "expected StrideTooSmall, got {err:?}",
    );
}

#[test]
fn rgb48_try_new_rejects_plane_too_short() {
    let buf = vec![0u16; 30];
    let err = Rgb48Frame::try_new(&buf, 4, 4, 12).unwrap_err();
    assert!(
        matches!(err, RgbFrameError::PlaneTooShort { expected: 48, actual: 30 }),
        "expected PlaneTooShort, got {err:?}",
    );
}

#[test]
fn every_refusal_has_an_input() {
    let buf = vec![0u8; 64];
    assert!(matches!(
        RgbFrame::try_new(&buf, 3, 0, 9),
        Err(RgbFrameError::ZeroDimension { width: 3, height: 0 }),
    ));
    assert!(matches!(
        RgbFrame::try_new(&buf, 0x5555_5556, 1, u32::MAX),
        Err(RgbFrameError::WidthOverflow { width: 0x5555_5556 }),
    ));
    assert!(matches!(
        RgbFrame::try_new(&buf, 4, 2, 11),
        Err(RgbFrameError::StrideTooSmall { min_stride: 12, stride: 11 }),
    ));
    assert!(matches!(
        RgbFrame::try_new(&buf, 4, 8, 12),
        Err(RgbFrameError::PlaneTooShort { expected: 96, actual: 64 }),
    ));
    assert!(RgbFrame::try_new(&buf, 4, 5, 12).is_ok());
}

#[test]
fn a_frame_hands_back_what_it_was_made_with() {
    let buf = vec![9u8; 40];
    let frame = RgbFrame::try_new(&buf, 3, 4, 10).expect("frame");
    assert_eq!((frame.width(), frame.height(), frame.stride()), (3, 4, 10));
    assert_eq!(frame.rgb(), &buf[..]);
    let wide = vec![9u16; 40];
    let frame = Rgb48Frame::try_new(&wide, 3, 4, 10).expect("frame");
    assert_eq!((frame.width(), frame.height(), frame.stride()), (3, 4, 10));
    assert_eq!(frame.rgb16(), &wide[..]);
}

#[test]
fn pixels_come_row_by_row_without_padding() {
    let buf: Vec<u8> = (0u8..16).collect();
    let frame = RgbFrame::try_new(&buf, 2, 2, 8).expect("frame");
    assert_eq!(
        frame.pixels(),
        vec![[0, 1, 2], [3, 4, 5], [8, 9, 10], [11, 12, 13]],
    );
}

#[test]
fn padding_does_not_change_the_image() {
    let one: Vec<u8> = vec![1, 2, 3, 0, 0, 4, 5, 6, 0, 0];
    let other: Vec<u8> = vec![1, 2, 3, 250, 251, 4, 5, 6, 252, 253];
    let a = RgbFrame::try_new(&one, 1, 2, 5).expect("frame");
    let b = RgbFrame::try_new(&other, 1, 2, 5).expect("frame");
    assert_eq!(a.pixels(), b.pixels());
}

#[test]
fn a_widened_frame_is_the_same_image() {
    let narrow: Vec<u8> = vec![0, 127, 255, 1, 128, 254];
    let wide: Vec<u16> = narrow.iter().map(|&b| ((b as u16) << 8) | 0x7f).collect();
    let a = RgbFrame::try_new(&narrow, 2, 1, 6).expect("frame");
    let b = Rgb48Frame::try_new(&wide, 2, 1, 6).expect("frame");
    assert_eq!(a.pixels(), b.pixels());
}

#[test]
fn refusals_say_what_is_wrong() {
    let said = |e: RgbFrameError| e.to_string();
    assert_eq!(
        said(RgbFrameError::ZeroDimension { width: 0, height: 4 }),
        "width (0) or height (4) is zero",
    );
    assert_eq!(
        said(RgbFrameError::StrideTooSmall { min_stride: 12, stride: 8 }),
        "stride (8) is smaller than 3 * width (12)",
    );
    assert_eq!(
        said(RgbFrameError::PlaneTooShort { expected: 48, actual: 30 }),
        "RGB plane has 30 bytes but at least 48 are required",
    );
    assert_eq!(
        said(RgbFrameError::GeometryOverflow { stride: 9, rows: 10 }),
        "declared geometry overflows usize: stride=9 * rows=10",
    );
    assert_eq!(
        said(RgbFrameError::WidthOverflow { width: u32::MAX }),
        "3 * width overflows u32 (4294967295 too large)",
    );
}
