use orbit::render::Frame;

fn pixel(frame: &Frame, x: usize, y: usize) -> [u8; 4] {
    let o = 4 * x + 4 * frame.size * y;
    [frame.values[o], frame.values[o + 1], frame.values[o + 2], frame.values[o + 3]]
}

fn white_pixels(frame: &Frame, width: usize, height: usize) -> Vec<(usize, usize)> {
    let mut out = Vec::new();
    for y in 0..height {
        for x in 0..width {
            let p = pixel(frame, x, y);
            if p == [255, 255, 255, 255] {
                out.push((x, y));
            } else {
                assert_eq!(p, [0, 0, 0, 255], "pixel ({}, {}) is neither black nor white", x, y);
            }
        }
    }
    out.sort();
    out
}

fn sorted(mut v: Vec<(usize, usize)>) -> Vec<(usize, usize)> {
    v.sort();
    v
}

#[test]
fn new_frame_is_opaque_black() {
    let frame = Frame::new(3, 2);
    assert_eq!(frame.size, 3);
    assert_eq!(frame.values.len(), 24);
    for chunk in frame.values.chunks(4) {
        assert_eq!(chunk, &[0, 0, 0, 255]);
    }
    assert_eq!(frame.values(), &frame.values);
}

#[test]
fn new_frame_of_no_pixels_is_empty() {
    let frame = Frame::new(0, 5);
    assert!(frame.values.is_empty());
}

#[test]
fn radius_two_circle_touches_only_its_octant_points() {
    let mut frame = Frame::new(20, 20);
    frame.render(10, 10, 2);
    let expected = sorted(vec![
        (10, 12), (10, 8), (12, 10), (8, 10),
        (11, 12), (9, 12), (11, 8), (9, 8),
        (12, 11), (8, 11), (12, 9), (8, 9),
    ]);
    assert_eq!(white_pixels(&frame, 20, 20), expected);
    assert_eq!(frame.values.len(), 4 * 20 * 20);
}

#[test]
fn radius_zero_plots_the_centre_and_its_diagonals() {
    let mut frame = Frame::new(5, 5);
    frame.render(2, 3, 0);
    // Offsets (0, 0), then one more step to (1, -1) before the loop ends.
    let expected = sorted(vec![(2, 3), (1, 2), (3, 2), (1, 4), (3, 4)]);
    assert_eq!(white_pixels(&frame, 5, 5), expected);
}

#[test]
fn radius_one_plots_the_four_neighbours() {
    let mut frame = Frame::new(5, 5);
    frame.render(2, 2, 1);
    // Offsets (0, 1) then (1, 0): both mirror onto the four neighbours.
    let expected = sorted(vec![(2, 3), (2, 1), (3, 2), (1, 2)]);
    assert_eq!(white_pixels(&frame, 5, 5), expected);
}

#[test]
fn negative_radius_plots_one_offset() {
    let mut frame = Frame::new(5, 5);
    frame.render(2, 2, -1);
    let expected = sorted(vec![(2, 1), (2, 3), (1, 2), (3, 2)]);
    assert_eq!(white_pixels(&frame, 5, 5), expected);
}

#[test]
fn points_left_of_or_above_the_origin_are_skipped() {
    let mut frame = Frame::new(6, 6);
    frame.render(0, 0, 2);
    // Only the mirrored points with non-negative coordinates remain.
    let expected = sorted(vec![(0, 2), (2, 0), (1, 2), (2, 1)]);
    assert_eq!(white_pixels(&frame, 6, 6), expected);
}

#[test]
fn points_past_the_row_end_wrap_into_the_next_row() {
    let mut frame = Frame::new(4, 4);
    frame.render(3, 1, 1);
    // (4, 1) lies past the end of row 1 and wraps to (0, 2).
    let expected = sorted(vec![(3, 2), (3, 0), (0, 2), (2, 1)]);
    assert_eq!(white_pixels(&frame, 4, 4), expected);
}

#[test]
fn points_past_the_buffer_end_are_dropped() {
    let mut frame = Frame::new(4, 4);
    frame.render(1, 3, 1);
    // (1, 4) lies below the last row.
    let expected = sorted(vec![(1, 2), (2, 3), (0, 3)]);
    assert_eq!(white_pixels(&frame, 4, 4), expected);
    assert_eq!(frame.values.len(), 64);
}

#[test]
fn far_away_centre_leaves_the_frame_untouched() {
    let mut frame = Frame::new(4, 4);
    frame.render(usize::MAX, usize::MAX, 3);
    assert_eq!(white_pixels(&frame, 4, 4), vec![]);
}

#[test]
fn large_radius_draws_nothing_inside_a_small_frame() {
    let mut frame = Frame::new(4, 4);
    frame.render(1, 1, 1000);
    assert_eq!(white_pixels(&frame, 4, 4), vec![]);
}

#[test]
fn render_on_a_frame_of_independent_width_and_height() {
    let mut frame = Frame::new(8, 3);
    frame.render(4, 1, 1);
    let expected = sorted(vec![(4, 2), (4, 0), (5, 1), (3, 1)]);
    assert_eq!(white_pixels(&frame, 8, 3), expected);
}
