use rrt::frame::{channel_byte, pixel_from_levels, Frame, FrameError, Rgb8, RowResult};

fn px(v: u8) -> Rgb8 {
    Rgb8 { r: v, g: v.wrapping_add(1), b: v.wrapping_add(2) }
}

fn row(y: u32, width: u32) -> RowResult {
    RowResult { row: y, pixels: (0..width).map(|x| px((10 * y + x) as u8)).collect() }
}

#[test]
fn channel_levels_are_clamped_to_a_byte() {
    assert_eq!(channel_byte(-1), 0);
    assert_eq!(channel_byte(0), 0);
    assert_eq!(channel_byte(128), 128);
    assert_eq!(channel_byte(255), 255);
    assert_eq!(channel_byte(256), 255);
    assert_eq!(channel_byte(i32::MIN), 0);
    assert_eq!(channel_byte(i32::MAX), 255);
}

#[test]
fn pixel_from_levels_clamps_each_channel() {
    assert_eq!(pixel_from_levels(-5, 100, 999), Rgb8 { r: 0, g: 100, b: 255 });
}

#[test]
fn rows_in_order_make_a_frame() {
    let results: Vec<RowResult> = (0..3).map(|y| row(y, 2)).collect();
    let f = Frame::assemble(2, 3, &results).unwrap();
    assert_eq!(f.width(), 2);
    assert_eq!(f.height(), 3);
    assert_eq!(f.pixel(0, 0), Some(px(0)));
    assert_eq!(f.pixel(1, 2), Some(px(21)));
    assert_eq!(f.pixel(2, 0), None);
    assert_eq!(f.pixel(0, 3), None);
}

#[test]
fn rows_go_where_their_index_says() {
    let results = vec![row(2, 2), row(0, 2), row(1, 2)];
    let f = Frame::assemble(2, 3, &results).unwrap();
    assert_eq!(f.pixel(0, 0), Some(px(0)));
    assert_eq!(f.pixel(1, 1), Some(px(11)));
    assert_eq!(f.pixel(0, 2), Some(px(20)));
}

#[test]
fn completion_order_does_not_change_the_frame() {
    let width = 20;
    let height = 10;
    let in_order: Vec<RowResult> = (0..height).map(|y| row(y, width)).collect();
    let shuffled: Vec<RowResult> = [7, 2, 9, 0, 4, 1, 8, 3, 6, 5].iter().map(|&y| row(y, width)).collect();
    let reversed: Vec<RowResult> = (0..height).rev().map(|y| row(y, width)).collect();
    let a = Frame::assemble(width, height, &in_order).unwrap().to_bytes();
    let b = Frame::assemble(width, height, &shuffled).unwrap().to_bytes();
    let c = Frame::assemble(width, height, &reversed).unwrap().to_bytes();
    assert_eq!(a, b);
    assert_eq!(a, c);
}

#[test]
fn bytes_run_row_after_row_from_the_top() {
    let results = vec![
        RowResult { row: 1, pixels: vec![Rgb8 { r: 7, g: 8, b: 9 }, Rgb8 { r: 10, g: 11, b: 12 }] },
        RowResult { row: 0, pixels: vec![Rgb8 { r: 1, g: 2, b: 3 }, Rgb8 { r: 4, g: 5, b: 6 }] },
    ];
    let f = Frame::assemble(2, 2, &results).unwrap();
    assert_eq!(f.to_bytes(), vec![1, 2, 3, 4, 5, 6, 7, 8, 9, 10, 11, 12]);
}

#[test]
fn empty_frame_has_no_bytes() {
    let f = Frame::assemble(0, 0, &Vec::new()).unwrap();
    assert!(f.to_bytes().is_empty());
    let f = Frame::assemble(0, 2, &vec![row(1, 0), row(0, 0)]).unwrap();
    assert_eq!(f.height(), 2);
    assert!(f.to_bytes().is_empty());
}

#[test]
fn row_index_out_of_range_is_refused() {
    let results = vec![row(0, 2), row(3, 2), row(1, 2)];
    assert_eq!(Frame::assemble(2, 3, &results).err(), Some(FrameError::RowOutOfRange { row: 3 }));
}

#[test]
fn row_of_wrong_length_is_refused() {
    let results = vec![row(0, 2), row(1, 3), row(2, 2)];
    assert_eq!(Frame::assemble(2, 3, &results).err(), Some(FrameError::WrongRowLength { row: 1 }));
}

#[test]
fn duplicate_row_is_refused() {
    let results = vec![row(1, 2), row(0, 2), row(1, 2)];
    assert_eq!(Frame::assemble(2, 3, &results).err(), Some(FrameError::DuplicateRow { row: 1 }));
}

#[test]
fn first_faulty_entry_decides_the_error() {
    let results = vec![row(0, 2), row(0, 2), row(9, 2)];
    assert_eq!(Frame::assemble(2, 3, &results).err(), Some(FrameError::DuplicateRow { row: 0 }));
}

#[test]
fn first_missing_row_is_reported() {
    let results = vec![row(3, 2), row(0, 2)];
    assert_eq!(Frame::assemble(2, 4, &results).err(), Some(FrameError::MissingRow { row: 1 }));
    assert_eq!(Frame::assemble(2, 1, &Vec::new()).err(), Some(FrameError::MissingRow { row: 0 }));
}
