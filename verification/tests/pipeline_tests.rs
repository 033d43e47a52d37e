use pixtrack::buffer::FrameBuffer;
use pixtrack::codes::{PxcErr, PxcErrCheck, TpxMode};
use pixtrack::frame::Frame;
use pixtrack::pixels::{apply_thresholds, reshape};
use pixtrack::buffer::retry_delay_ms;
use pixtrack::render::{i16_text, render_row, separator_line};

#[test]
fn window_drops_out_of_band_samples() {
    let buf = vec![5, -3, 100, 0, 50];
    // High bound in force at 50: values above it drop; low bound 0 drops
    // negatives.
    let r = apply_thresholds(buf.clone(), 0, 50, true);
    assert_eq!(r, vec![5, 0, 0, 0, 50]);
    // No high bound: only the low bound applies.
    let r = apply_thresholds(buf.clone(), 0, 0, false);
    assert_eq!(r, vec![5, 0, 100, 0, 50]);
    // A raised low bound.
    let r = apply_thresholds(buf, 10, 0, false);
    assert_eq!(r, vec![0, 0, 100, 0, 50]);
}

#[test]
fn reshape_cuts_rows_of_the_pixel_width() {
    let buf = vec![1, 2, 3, 4, 5, 6, 7, 8];
    let grid = reshape(&buf, 4);
    assert_eq!(grid, vec![vec![1, 2, 3, 4], vec![5, 6, 7, 8]]);

    let buf = vec![1, 2, 3, 4, 5, 6];
    let grid = reshape(&buf, 4);
    assert_eq!(grid, vec![vec![1, 2, 3, 4], vec![5, 6]]);

    let grid = reshape(&Vec::new(), 4);
    assert_eq!(grid.len(), 0);
}

#[test]
fn buffer_length_never_decreases() {
    // Repeated retrievals with captures in between: the reported length
    // is monotonically non-decreasing, because reads remove nothing.
    let mut buffer = FrameBuffer::new();
    let mut reported: Vec<usize> = Vec::new();
    reported.push(buffer.len());
    buffer.push_frame(Frame::new(vec![vec![1, 2]]));
    reported.push(buffer.len());
    let _peek = buffer.get_frames().len();
    reported.push(buffer.len());
    buffer.push_frame(Frame::new(vec![vec![3, 4]]));
    buffer.push_frame(Frame::new(vec![vec![5, 6]]));
    reported.push(buffer.len());
    reported.push(buffer.len());
    assert_eq!(reported, vec![0, 1, 1, 3, 3]);
    for w in reported.windows(2) {
        assert!(w[0] <= w[1]);
    }
}

#[test]
fn buffer_keeps_frames_in_arrival_order() {
    let mut buffer = FrameBuffer::new();
    buffer.push_frame(Frame::new(vec![vec![1]]));
    buffer.push_frame(Frame::new(vec![vec![2]]));
    let frames = buffer.get_frames();
    assert_eq!(frames.len(), 2);
    assert_eq!(frames[0].data, vec![vec![1]]);
    assert_eq!(frames[1].data, vec![vec![2]]);
}

#[test]
fn retry_backoff_grows_then_caps() {
    assert_eq!(retry_delay_ms(0), 0);
    assert_eq!(retry_delay_ms(3), 0);
    assert_eq!(retry_delay_ms(4), 100);
    assert_eq!(retry_delay_ms(7), 400);
    assert_eq!(retry_delay_ms(13), 1000);
    assert_eq!(retry_delay_ms(1000), 1000);
}

#[test]
fn return_codes_map_to_error_kinds() {
    assert_eq!(0i32.check_rc(), Ok(()));
    assert_eq!(7i32.check_rc(), Ok(()));
    assert_eq!((-1i32).check_rc(), Err(PxcErr::NotInitialized));
    assert_eq!((-5i32).check_rc(), Err(PxcErr::AcqFailed));
    assert_eq!((-14i32).check_rc(), Err(PxcErr::ZestNotLoaded));
    assert_eq!((-999i32).check_rc(), Err(PxcErr::UnexpectedError));
    assert_eq!(PxcErr::from(-3), PxcErr::InvalidArgument);
    assert_eq!(PxcErr::from(-1000), PxcErr::UnexpectedError);
}

#[test]
fn mode_codes_match_the_driver() {
    assert_eq!(TpxMode::Medipix.mode_code(), 0);
    assert_eq!(TpxMode::Tot.mode_code(), 1);
    assert_eq!(TpxMode::Timepix.mode_code(), 3);
}

#[test]
fn samples_render_as_decimal_text() {
    assert_eq!(i16_text(0), b"0");
    assert_eq!(i16_text(7), b"7");
    assert_eq!(i16_text(-17), b"-17");
    assert_eq!(i16_text(32767), b"32767");
    assert_eq!(i16_text(-32768), b"-32768");
}

#[test]
fn rows_render_space_separated() {
    assert_eq!(render_row(&vec![1, -2, 30]), b"1 -2 30");
    assert_eq!(render_row(&vec![0]), b"0");
    assert_eq!(render_row(&Vec::new()), b"");
    assert_eq!(separator_line(), b"----------");
}

#[test]
fn capture_to_classification_pipeline() {
    // A flat buffer as a capture returns it, windowed, reshaped, labeled
    // and classified.
    // A vertical run in column 2 of a 6-wide grid, rows 0..=5, plus one
    // sample above the window bound.
    let mut buf = vec![0i16; 36];
    for row in 0..6 {
        buf[row * 6 + 2] = 40;
    }
    buf[3 * 6 + 5] = 120;
    let windowed = apply_thresholds(buf, 0, 100, true);
    let grid = reshape(&windowed, 6);
    let mut frame = Frame::new(grid);
    frame.count_particles(3);
    frame.classify_particles();
    let particles = frame.get_particles();
    assert_eq!(particles.len(), 1);
    assert_eq!(particles[0].positions.len(), 6);
}
