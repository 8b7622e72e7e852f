use lostcoast::harness::{
    default_max_delta, diff_verdict, format_size, max_delta, parse_size, size_field_text,
    CompareError, DiffVerdict, Rgba8Image, SizeError,
};
use lostcoast::text::IntErrorKind;

fn solid(w: u32, h: u32, rgb: [u8; 3]) -> Rgba8Image {
    Rgba8Image::from_pixel(w, h, [rgb[0], rgb[1], rgb[2], 255])
}

#[test]
fn max_delta_zero_for_identical() {
    let a = solid(4, 4, [10, 20, 30]);
    assert_eq!(max_delta(&a, &a).unwrap(), 0);
}

#[test]
fn max_delta_picks_largest() {
    let mut a = solid(2, 1, [0, 0, 0]);
    let b = solid(2, 1, [5, 0, 9]);
    a.data[0..4].copy_from_slice(&[0, 0, 0, 255]);
    assert_eq!(max_delta(&a, &b).unwrap(), 9);
}

#[test]
fn max_delta_ignores_alpha() {
    let a = Rgba8Image::from_pixel(3, 2, [1, 2, 3, 0]);
    let b = Rgba8Image::from_pixel(3, 2, [1, 2, 3, 255]);
    assert_eq!(max_delta(&a, &b).unwrap(), 0);
}

#[test]
fn max_delta_is_symmetric_on_one_pixel() {
    let mut a = solid(3, 3, [100, 100, 100]);
    let b = solid(3, 3, [100, 100, 100]);
    a.data[4 * 7 + 1] = 40;
    assert_eq!(max_delta(&a, &b).unwrap(), 60);
    assert_eq!(max_delta(&b, &a).unwrap(), 60);
}

#[test]
fn max_delta_size_mismatch() {
    let a = solid(8, 8, [0, 0, 0]);
    let b = solid(4, 4, [0, 0, 0]);
    assert_eq!(max_delta(&a, &b), Err(CompareError::SizeMismatch));
    let c = solid(8, 4, [0, 0, 0]);
    assert_eq!(max_delta(&a, &c), Err(CompareError::SizeMismatch));
}

#[test]
fn max_delta_empty_images() {
    let a = solid(0, 5, [1, 1, 1]);
    let b = solid(0, 5, [9, 9, 9]);
    assert_eq!(max_delta(&a, &b), Ok(0));
}

#[test]
fn from_pixel_fills_every_pixel() {
    let a = Rgba8Image::from_pixel(2, 3, [7, 8, 9, 10]);
    assert_eq!(a.data.len(), 24);
    for px in a.data.chunks(4) {
        assert_eq!(px, &[7, 8, 9, 10]);
    }
}

#[test]
fn default_tolerance_is_four() {
    assert_eq!(default_max_delta(), 4);
}

#[test]
fn parse_size_reads_width_and_height() {
    assert_eq!(parse_size("1280x720"), Ok((1280, 720)));
    assert_eq!(parse_size("64X32"), Ok((64, 32)));
    assert_eq!(parse_size("+8x007"), Ok((8, 7)));
    assert_eq!(parse_size("4294967295x0"), Ok((u32::MAX, 0)));
}

#[test]
fn parse_size_needs_exactly_one_separator() {
    assert_eq!(parse_size("1280"), Err(SizeError::ExpectedWxH));
    assert_eq!(parse_size(""), Err(SizeError::ExpectedWxH));
    assert_eq!(parse_size("1x2x3"), Err(SizeError::ExpectedWxH));
    assert_eq!(parse_size("1xX3"), Err(SizeError::ExpectedWxH));
}

#[test]
fn parse_size_number_errors() {
    assert_eq!(parse_size("x5"), Err(SizeError::Number(IntErrorKind::Empty)));
    assert_eq!(parse_size("5x"), Err(SizeError::Number(IntErrorKind::Empty)));
    assert_eq!(parse_size("5x-1"), Err(SizeError::Number(IntErrorKind::InvalidDigit)));
    assert_eq!(parse_size("+x1"), Err(SizeError::Number(IntErrorKind::InvalidDigit)));
    assert_eq!(parse_size(" 5x1"), Err(SizeError::Number(IntErrorKind::InvalidDigit)));
    assert_eq!(parse_size("4294967296x1"), Err(SizeError::Number(IntErrorKind::PosOverflow)));
    assert_eq!(parse_size("99999999999ax1"), Err(SizeError::Number(IntErrorKind::PosOverflow)));
    assert_eq!(parse_size("1a99999999999x1"), Err(SizeError::Number(IntErrorKind::InvalidDigit)));
}

#[test]
fn parse_size_agrees_with_std() {
    for s in ["12x34", "0x0", "+1x+2", "-1x2", "1x 2", "00012x9", "4294967295x4294967295"] {
        let (w, h) = s.split_once(['x', 'X']).unwrap();
        let expected = match (w.parse::<u32>(), h.parse::<u32>()) {
            (Ok(a), Ok(b)) => Some((a, b)),
            _ => None,
        };
        assert_eq!(parse_size(s).ok(), expected, "{s}");
    }
}

#[test]
fn format_size_round_trips() {
    for (w, h) in [(0u32, 0u32), (1280, 720), (7, 100000), (u32::MAX, 1)] {
        let t = format_size(w, h);
        assert_eq!(t, format!("{w}x{h}"));
        assert_eq!(parse_size(&t), Ok((w, h)));
    }
}

#[test]
fn size_field_defaults_to_1280x720() {
    assert_eq!(size_field_text(None), "1280x720");
    assert_eq!(size_field_text(Some([640, 480])), "640x480");
    assert_eq!(parse_size(&size_field_text(None)), Ok((1280, 720)));
}

#[test]
fn diff_verdict_orders_checks() {
    assert_eq!(diff_verdict(true, 4, 4), DiffVerdict::Pass);
    assert_eq!(diff_verdict(true, 5, 4), DiffVerdict::DeltaTooHigh);
    assert_eq!(diff_verdict(false, 5, 4), DiffVerdict::SsimTooLow);
    assert_eq!(DiffVerdict::Pass.exit_code(), 0);
    assert_eq!(DiffVerdict::SsimTooLow.exit_code(), 1);
    assert_eq!(DiffVerdict::DeltaTooHigh.exit_code(), 2);
    assert_eq!(DiffVerdict::SizeMismatch.exit_code(), 3);
    assert_eq!(DiffVerdict::LoadFailed.exit_code(), 4);
}
