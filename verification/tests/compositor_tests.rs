use rolling_shutter::errors::ErrorKind;
use rolling_shutter::image_processing::{
    num_usable_frames, process_frames, process_image, BandStep, PixelBuffer, Rgba,
};
use rolling_shutter::Direction;

fn solid_frame(width: u32, height: u32, p: Rgba) -> PixelBuffer {
    let mut f = PixelBuffer::new(width, height);
    for y in 0..height {
        for x in 0..width {
            f.set_pixel(x, y, p);
        }
    }
    f
}

const ZERO: Rgba = Rgba { r: 0, g: 0, b: 0, a: 0 };

#[test]
fn composite_north_short_sequence() {
    // Five identical 10x10 frames, direction North: rows 0 to 4 come from the
    // frames, rows 5 to 9 stay at their initial transparent state.
    let color = Rgba { r: 9, g: 8, b: 7, a: 255 };
    let frames: Vec<PixelBuffer> = (0..5).map(|_| solid_frame(10, 10, color)).collect();
    let out = process_frames(&frames, Direction::N).unwrap();
    assert_eq!(out.width, 10);
    assert_eq!(out.height, 10);
    for y in 0..10 {
        for x in 0..10 {
            let expected = if y < 5 { color } else { ZERO };
            assert_eq!(out.get_pixel(x, y), expected);
        }
    }
}

#[test]
fn composite_rows_come_from_their_frames() {
    // Distinctly colored frames: row i of the output is frame i's row.
    let frames: Vec<PixelBuffer> = (0..4u8)
        .map(|i| solid_frame(3, 4, Rgba { r: i, g: 0, b: 0, a: 255 }))
        .collect();
    let out = process_frames(&frames, Direction::N).unwrap();
    for y in 0..4u32 {
        for x in 0..3u32 {
            assert_eq!(out.get_pixel(x, y).r, y as u8);
        }
    }
    // South sweeps the same rows bottom to top.
    let out = process_frames(&frames, Direction::S).unwrap();
    for y in 0..4u32 {
        for x in 0..3u32 {
            assert_eq!(out.get_pixel(x, y).r, (4 - 1 - y) as u8);
        }
    }
}

#[test]
fn composite_west_stops_after_width_frames() {
    // Three frames of width 2, direction West: exactly two bands (columns 0
    // and 1) are composited, and the third frame contributes nothing.
    let f0 = solid_frame(2, 3, Rgba { r: 10, g: 0, b: 0, a: 255 });
    let f1 = solid_frame(2, 3, Rgba { r: 20, g: 0, b: 0, a: 255 });
    let f2 = solid_frame(2, 3, Rgba { r: 99, g: 99, b: 99, a: 99 });
    let frames = vec![f0, f1, f2];
    let out = process_frames(&frames, Direction::W).unwrap();
    for y in 0..3u32 {
        assert_eq!(out.get_pixel(0, y).r, 10);
        assert_eq!(out.get_pixel(1, y).r, 20);
    }
    // The scan is already exhausted at the third frame's step.
    let mut buf = PixelBuffer::new(2, 3);
    let f2 = solid_frame(2, 3, Rgba { r: 99, g: 99, b: 99, a: 99 });
    assert_eq!(process_image(&mut buf, &f2, 2, Direction::W), BandStep::Exhausted);
}

#[test]
fn composite_east_fills_columns_right_to_left() {
    let f0 = solid_frame(3, 2, Rgba { r: 1, g: 0, b: 0, a: 255 });
    let f1 = solid_frame(3, 2, Rgba { r: 2, g: 0, b: 0, a: 255 });
    let frames = vec![f0, f1];
    let out = process_frames(&frames, Direction::E).unwrap();
    for y in 0..2u32 {
        assert_eq!(out.get_pixel(2, y).r, 1);
        assert_eq!(out.get_pixel(1, y).r, 2);
        assert_eq!(out.get_pixel(0, y), ZERO);
    }
}

#[test]
fn undersized_frame_cannot_be_processed() {
    // The second frame cannot supply the full row the output buffer scans.
    let f0 = solid_frame(3, 3, Rgba { r: 1, g: 0, b: 0, a: 255 });
    let f1 = solid_frame(1, 1, Rgba { r: 2, g: 0, b: 0, a: 255 });
    let frames = vec![f0, f1];
    match process_frames(&frames, Direction::N) {
        Err(ErrorKind::CouldNotProcessImage(p)) => assert_eq!(p, "1"),
        Err(e) => panic!("expected a processing failure, got {:?}", e),
        Ok(_) => panic!("expected a processing failure, got a composite"),
    }
}

#[test]
fn oversized_frame_supplies_its_band() {
    // A frame larger than the output still holds the whole band: only the
    // band's region of it is copied.
    let f0 = solid_frame(2, 2, Rgba { r: 1, g: 0, b: 0, a: 255 });
    let f1 = solid_frame(5, 5, Rgba { r: 2, g: 0, b: 0, a: 255 });
    let frames = vec![f0, f1];
    let out = process_frames(&frames, Direction::N).unwrap();
    assert_eq!(out.width, 2);
    assert_eq!(out.height, 2);
    for x in 0..2u32 {
        assert_eq!(out.get_pixel(x, 0).r, 1);
        assert_eq!(out.get_pixel(x, 1).r, 2);
    }
}

#[test]
fn band_step_does_not_fit() {
    // The band spans the output's full row; a narrower frame cannot supply it.
    let mut buf = PixelBuffer::new(3, 3);
    let small = solid_frame(2, 2, Rgba { r: 5, g: 0, b: 0, a: 255 });
    assert_eq!(process_image(&mut buf, &small, 0, Direction::N), BandStep::DoesNotFit);
    // The buffer is untouched by a failed step.
    assert_eq!(buf.get_pixel(0, 0), ZERO);
}

#[test]
fn east_band_within_narrow_frame_is_copied() {
    // Output 4 wide, frame 2 wide, direction East, step 3: the band is column
    // 0, which lies inside both, so it is copied.
    let mut buf = PixelBuffer::new(4, 2);
    let narrow = solid_frame(2, 2, Rgba { r: 7, g: 0, b: 0, a: 255 });
    assert_eq!(process_image(&mut buf, &narrow, 3, Direction::E), BandStep::Copied);
    for y in 0..2u32 {
        assert_eq!(buf.get_pixel(0, y).r, 7);
        assert_eq!(buf.get_pixel(1, y), ZERO);
        assert_eq!(buf.get_pixel(2, y), ZERO);
        assert_eq!(buf.get_pixel(3, y), ZERO);
    }
    // Step 2's band, column 1, also lies inside the frame; step 1's band,
    // column 2, does not.
    assert_eq!(process_image(&mut buf, &narrow, 2, Direction::E), BandStep::Copied);
    assert_eq!(process_image(&mut buf, &narrow, 1, Direction::E), BandStep::DoesNotFit);
    // The scan of a 4-wide output is exhausted at step 4.
    assert_eq!(process_image(&mut buf, &narrow, 4, Direction::E), BandStep::Exhausted);
}

#[test]
fn usable_frames_is_min_of_count_and_limit() {
    assert_eq!(num_usable_frames(5, 10, 10, Direction::N), 5);
    assert_eq!(num_usable_frames(20, 10, 10, Direction::S), 10);
    assert_eq!(num_usable_frames(20, 7, 9, Direction::W), 7);
    assert_eq!(num_usable_frames(20, 7, 9, Direction::E), 7);
    assert_eq!(num_usable_frames(3, 7, 9, Direction::E), 3);
}

#[test]
fn rgba_bytes_round_trip() {
    let bytes: Vec<u8> = (0..16u8).collect();
    let buf = PixelBuffer::from_rgba_bytes(2, 2, &bytes).unwrap();
    assert_eq!(buf.get_pixel(0, 0), Rgba { r: 0, g: 1, b: 2, a: 3 });
    assert_eq!(buf.get_pixel(1, 0), Rgba { r: 4, g: 5, b: 6, a: 7 });
    assert_eq!(buf.get_pixel(0, 1), Rgba { r: 8, g: 9, b: 10, a: 11 });
    assert_eq!(buf.get_pixel(1, 1), Rgba { r: 12, g: 13, b: 14, a: 15 });
    assert_eq!(buf.to_rgba_bytes(), bytes);
    // A byte string of the wrong length is refused.
    assert!(PixelBuffer::from_rgba_bytes(2, 2, &vec![0u8; 15]).is_none());
    assert!(PixelBuffer::from_rgba_bytes(2, 2, &vec![0u8; 17]).is_none());
}
