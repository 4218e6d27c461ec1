use image::GenericImageView;
use pathtrace::buffer::{FrameBuffer, RejectedSample};
use pathtrace::frame::{FrameSize, PixelSample, Rgb8};

fn buffer(width: u32, height: u32) -> FrameBuffer {
    FrameBuffer::new(FrameSize::new(width, height).unwrap()).unwrap()
}

fn sample(x: i32, y: i32, r: u8, g: u8, b: u8) -> PixelSample {
    PixelSample { x, y, color: Rgb8 { r, g, b } }
}

#[test]
fn a_new_buffer_is_black_and_has_the_size_of_the_frame() {
    let b = buffer(4, 3);
    assert_eq!(b.size().width(), 4);
    assert_eq!(b.size().height(), 3);
    assert_eq!(b.received(), 0);
    assert!(!b.is_complete());
    for py in 0..3 {
        for px in 0..4 {
            assert_eq!(b.pixel(px, py), Some(Rgb8 { r: 0, g: 0, b: 0 }));
        }
    }
}

#[test]
fn a_new_buffer_is_backed_by_an_rgb_image_of_the_frame_size() {
    let b = buffer(4, 3);
    assert_eq!(b.image().dimensions(), (4, 3));
    assert!(b.image().as_rgb8().is_some());
    assert_eq!(b.image().get_pixel(3, 2), image::Rgba([0, 0, 0, 255]));
}

#[test]
fn a_frame_beyond_what_an_image_may_hold_gets_no_buffer() {
    let huge = FrameSize::new(2_147_483_647, 2_147_483_647).unwrap();
    assert!(FrameBuffer::new(huge).is_none());
}

#[test]
fn an_empty_frame_gets_a_buffer_that_is_complete() {
    let b = buffer(0, 0);
    assert!(b.is_complete());
    assert_eq!(b.pixel(0, 0), None);
}

#[test]
fn pixel_outside_the_frame_is_nothing() {
    let b = buffer(4, 3);
    assert_eq!(b.pixel(4, 0), None);
    assert_eq!(b.pixel(0, 3), None);
    assert_eq!(b.pixel(u32::MAX, u32::MAX), None);
}

#[test]
fn accept_writes_the_colour_at_the_position_of_the_sample() {
    let mut b = buffer(4, 3);
    assert_eq!(b.accept(sample(-2, -1, 10, 20, 30)), Ok(false));
    assert_eq!(b.accept(sample(1, 1, 40, 50, 60)), Ok(false));
    assert_eq!(b.pixel(0, 0), Some(Rgb8 { r: 10, g: 20, b: 30 }));
    assert_eq!(b.pixel(3, 2), Some(Rgb8 { r: 40, g: 50, b: 60 }));
    assert_eq!(b.pixel(1, 1), Some(Rgb8 { r: 0, g: 0, b: 0 }));
    assert_eq!(b.received(), 2);
}

#[test]
fn accept_writes_into_the_image_with_full_alpha() {
    let mut b = buffer(4, 3);
    assert_eq!(b.accept(sample(0, 0, 7, 8, 9)), Ok(false));
    assert_eq!(b.image().get_pixel(2, 1), image::Rgba([7, 8, 9, 255]));
    assert_eq!(b.image().get_pixel(1, 1), image::Rgba([0, 0, 0, 255]));
    assert_eq!(b.image().get_pixel(2, 0), image::Rgba([0, 0, 0, 255]));
}

#[test]
fn accept_leaves_every_other_pixel_alone() {
    let mut b = buffer(3, 3);
    assert_eq!(b.accept(sample(0, 0, 1, 2, 3)), Ok(false));
    for py in 0..3 {
        for px in 0..3 {
            let expected = if (px, py) == (1, 1) {
                Rgb8 { r: 1, g: 2, b: 3 }
            } else {
                Rgb8 { r: 0, g: 0, b: 0 }
            };
            assert_eq!(b.pixel(px, py), Some(expected));
        }
    }
}

#[test]
fn accept_rejects_a_sample_outside_the_frame() {
    let mut b = buffer(4, 3);
    assert_eq!(b.accept(sample(2, 0, 1, 1, 1)), Err(RejectedSample::OutOfFrame));
    assert_eq!(b.accept(sample(0, 2, 1, 1, 1)), Err(RejectedSample::OutOfFrame));
    assert_eq!(b.accept(sample(-3, 0, 1, 1, 1)), Err(RejectedSample::OutOfFrame));
    assert_eq!(b.accept(sample(0, -2, 1, 1, 1)), Err(RejectedSample::OutOfFrame));
    assert_eq!(b.received(), 0);
    for py in 0..3 {
        for px in 0..4 {
            assert_eq!(b.pixel(px, py), Some(Rgb8 { r: 0, g: 0, b: 0 }));
        }
    }
}

#[test]
fn the_sample_that_fills_the_frame_completes_it() {
    let mut b = buffer(2, 1);
    assert_eq!(b.accept(sample(-1, 0, 1, 1, 1)), Ok(false));
    assert!(!b.is_complete());
    assert_eq!(b.accept(sample(0, 0, 2, 2, 2)), Ok(true));
    assert!(b.is_complete());
    assert_eq!(b.received(), 2);
}

#[test]
fn a_complete_frame_takes_no_more_samples() {
    let mut b = buffer(1, 1);
    assert_eq!(b.accept(sample(0, 0, 5, 5, 5)), Ok(true));
    assert_eq!(b.accept(sample(0, 0, 9, 9, 9)), Err(RejectedSample::FrameComplete));
    assert_eq!(b.pixel(0, 0), Some(Rgb8 { r: 5, g: 5, b: 5 }));
    assert_eq!(b.received(), 1);
}

#[test]
fn a_complete_frame_still_says_when_a_sample_is_outside() {
    let mut b = buffer(1, 1);
    assert_eq!(b.accept(sample(0, 0, 5, 5, 5)), Ok(true));
    assert_eq!(b.accept(sample(1, 0, 9, 9, 9)), Err(RejectedSample::OutOfFrame));
}

#[test]
fn a_later_sample_for_the_same_pixel_overwrites_the_earlier() {
    let mut b = buffer(2, 2);
    assert_eq!(b.accept(sample(0, 0, 1, 1, 1)), Ok(false));
    assert_eq!(b.accept(sample(0, 0, 2, 2, 2)), Ok(false));
    assert_eq!(b.pixel(1, 1), Some(Rgb8 { r: 2, g: 2, b: 2 }));
    assert_eq!(b.received(), 2);
}

#[test]
fn begin_frame_keeps_the_image_and_empties_the_log() {
    let mut b = buffer(1, 2);
    assert_eq!(b.accept(sample(0, -1, 3, 4, 5)), Ok(false));
    assert_eq!(b.accept(sample(0, 0, 6, 7, 8)), Ok(true));
    b.begin_frame();
    assert_eq!(b.received(), 0);
    assert!(!b.is_complete());
    assert_eq!(b.pixel(0, 0), Some(Rgb8 { r: 3, g: 4, b: 5 }));
    assert_eq!(b.pixel(0, 1), Some(Rgb8 { r: 6, g: 7, b: 8 }));
    assert_eq!(b.accept(sample(0, 0, 9, 9, 9)), Ok(false));
    assert_eq!(b.pixel(0, 1), Some(Rgb8 { r: 9, g: 9, b: 9 }));
}

#[test]
fn a_full_schedule_in_any_order_fills_every_pixel_once() {
    let size = FrameSize::new(5, 4).unwrap();
    let mut scheduled: Vec<(i32, i32)> = Vec::new();
    for y in size.rows() {
        scheduled.extend(size.row_pixels(y));
    }
    // a fixed shuffle: walk the schedule in steps that are coprime to its length
    let n = scheduled.len();
    let arrivals: Vec<(i32, i32)> = (0..n).map(|i| scheduled[(i * 7 + 3) % n]).collect();
    let mut b = FrameBuffer::new(size).unwrap();
    for (i, &(x, y)) in arrivals.iter().enumerate() {
        let color = Rgb8 { r: (x + 100) as u8, g: (y + 100) as u8, b: 1 };
        let complete = b.accept(PixelSample { x, y, color }).unwrap();
        assert_eq!(complete, i + 1 == n);
    }
    assert!(b.is_complete());
    for py in 0..4u32 {
        for px in 0..5u32 {
            let x = px as i32 - 2;
            let y = py as i32 - 2;
            let expected = Rgb8 { r: (x + 100) as u8, g: (y + 100) as u8, b: 1 };
            assert_eq!(b.pixel(px, py), Some(expected));
        }
    }
}

#[test]
fn a_pixel_that_arrives_twice_leaves_a_gap_in_a_complete_frame() {
    let mut b = buffer(2, 1);
    assert_eq!(b.accept(sample(-1, 0, 1, 1, 1)), Ok(false));
    assert_eq!(b.accept(sample(-1, 0, 2, 2, 2)), Ok(true));
    assert!(b.is_complete());
    assert_eq!(b.pixel(0, 0), Some(Rgb8 { r: 2, g: 2, b: 2 }));
    assert_eq!(b.pixel(1, 0), Some(Rgb8 { r: 0, g: 0, b: 0 }));
}

#[test]
fn a_wide_frame_without_rows_gets_a_buffer_where_a_row_fits() {
    let wide = FrameSize::new(2_147_483_647, 0).unwrap();
    let row_fits = 3 * 2_147_483_647u64 <= usize::MAX as u64;
    let b = FrameBuffer::new(wide);
    assert_eq!(b.is_some(), row_fits);
    if let Some(b) = b {
        assert_eq!(b.image().dimensions(), (2_147_483_647, 0));
        assert!(b.is_complete());
    }
}

#[test]
fn a_high_frame_without_columns_gets_a_buffer() {
    let high = FrameSize::new(0, 2_147_483_647).unwrap();
    let b = FrameBuffer::new(high).unwrap();
    assert_eq!(b.image().dimensions(), (0, 2_147_483_647));
    assert!(b.is_complete());
    assert_eq!(b.pixel(0, 0), None);
}
