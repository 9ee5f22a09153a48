use egui_pixels::brush::{BrushInput, BrushTool, Rect, StrokeState};
use egui_pixels::pixel_range::PixelRange;

fn count_mask_true(mask: &[bool]) -> usize {
    mask.iter().filter(|&&b| b).count()
}

fn mask_at(stroke: &StrokeState, x: usize, y: usize) -> bool {
    stroke.mask()[y * stroke.width() + x]
}

#[test]
fn stamp_square_center() {
    let mut s = StrokeState::new(20, 20);
    s.stamp_square(10, 10, 3);
    assert!(mask_at(&s, 7, 7));
    assert!(mask_at(&s, 13, 13));
    assert!(!mask_at(&s, 6, 10));
    assert!(!mask_at(&s, 10, 14));
    assert_eq!(count_mask_true(s.mask()), 7 * 7);
}

#[test]
fn stamp_square_clamps_top_left() {
    let mut s = StrokeState::new(20, 20);
    s.stamp_square(1, 1, 5);
    assert!(mask_at(&s, 0, 0));
    assert!(mask_at(&s, 6, 6));
    assert!(!mask_at(&s, 7, 1));
    assert_eq!(count_mask_true(s.mask()), 7 * 7);
}

#[test]
fn stamp_square_clamps_bottom_right() {
    let mut s = StrokeState::new(20, 20);
    s.stamp_square(18, 18, 5);
    assert!(mask_at(&s, 13, 13));
    assert!(mask_at(&s, 19, 19));
    assert!(!mask_at(&s, 12, 18));
    assert_eq!(count_mask_true(s.mask()), 7 * 7);
}

#[test]
fn stamp_square_half_size_zero_single_pixel() {
    let mut s = StrokeState::new(10, 10);
    s.stamp_square(5, 5, 0);
    assert!(mask_at(&s, 5, 5));
    assert_eq!(count_mask_true(s.mask()), 1);
}

#[test]
fn stamp_square_exact_corner() {
    let mut s = StrokeState::new(10, 10);
    s.stamp_square(0, 0, 3);
    assert!(mask_at(&s, 0, 0));
    assert!(mask_at(&s, 3, 3));
    assert!(!mask_at(&s, 4, 0));
    assert_eq!(count_mask_true(s.mask()), 4 * 4);
}

#[test]
fn stamp_square_overlapping_idempotent() {
    let mut s = StrokeState::new(20, 20);
    s.stamp_square(10, 10, 3);
    let count1 = count_mask_true(s.mask());
    s.stamp_square(10, 10, 3);
    let count2 = count_mask_true(s.mask());
    assert_eq!(count1, count2);
}

#[test]
fn into_pixel_area_empty_mask_returns_none() {
    let s = StrokeState::new(10, 10);
    assert!(s.into_pixel_area([255, 0, 0]).is_none());
}

#[test]
fn into_pixel_area_single_pixel() {
    let mut s = StrokeState::new(10, 10);
    s.stamp_square(5, 5, 0);
    let result = s.into_pixel_area([255, 0, 0]);
    assert!(result.is_some());
    assert_eq!(result.unwrap().pixels, vec![PixelRange::new_total(55, 1)]);
}

#[test]
fn into_pixel_area_full_row() {
    let mut s = StrokeState::new(20, 10);
    s.stamp_square(10, 5, 5);
    let result = s.into_pixel_area([255, 0, 0]);
    assert!(result.is_some());
    let area = result.unwrap();
    assert_eq!(area.color, [255, 0, 0]);
    assert_eq!(area.pixels.len(), 10);
    assert_eq!(area.pixels[0], PixelRange::new_total(5, 11));
}

#[test]
fn into_pixel_area_disconnected_spans() {
    let mut s = StrokeState::new(20, 10);
    s.stamp_square(3, 5, 1);
    s.stamp_square(15, 5, 1);
    let result = s.into_pixel_area([255, 0, 0]);
    assert!(result.is_some());
    let area = result.unwrap();
    assert_eq!(area.pixels.len(), 6);
    assert_eq!(area.pixels[0], PixelRange::new_total(82, 3));
    assert_eq!(area.pixels[1], PixelRange::new_total(94, 3));
}

#[test]
fn last_pos_and_clamp() {
    let mut s = StrokeState::new(8, 4);
    assert_eq!(s.last_pos(), None);
    s.set_last_pos((2, 3));
    assert_eq!(s.last_pos(), Some((2, 3)));
    assert_eq!(s.clamp(100, 1), (7, 1));
    assert_eq!(s.clamp(3, 9), (3, 3));
    assert_eq!(s.height(), 4);
}

#[test]
fn rect_bounds_is_the_union() {
    let a = Rect { x: 1, y: 2, width: 3, height: 4 };
    let b = Rect { x: 3, y: 0, width: 5, height: 1 };
    assert_eq!(a.bounds(&b), Rect { x: 1, y: 0, width: 7, height: 6 });
}

#[test]
fn dirty_rect_grows_with_stamps_and_is_taken_once() {
    let mut s = StrokeState::new(20, 20);
    assert_eq!(s.take_dirty(), None);
    s.stamp_square(2, 2, 1);
    s.stamp_square(10, 5, 0);
    assert_eq!(s.take_dirty(), Some(Rect { x: 1, y: 1, width: 10, height: 5 }));
    assert_eq!(s.take_dirty(), None);
}

fn line_points(x0: usize, y0: usize, x1: usize, y1: usize, half_size: usize) -> Vec<(usize, usize)> {
    let dx = x1 as f64 - x0 as f64;
    let dy = y1 as f64 - y0 as f64;
    let dist = (dx * dx + dy * dy).sqrt();
    if dist < 1.0 {
        return vec![];
    }
    let step = (half_size as f64).max(1.0);
    let steps = (dist / step).ceil() as usize;
    (0..=steps)
        .map(|i| {
            let t = i as f64 / steps as f64;
            ((x0 as f64 + dx * t).round() as usize, (y0 as f64 + dy * t).round() as usize)
        })
        .collect()
}

#[test]
fn stamp_line_horizontal() {
    let mut s = StrokeState::new(20, 20);
    s.stamp_line(5, 10, 15, 10, 2, &line_points);
    assert!(mask_at(&s, 5, 10));
    assert!(mask_at(&s, 15, 10));
    assert!(mask_at(&s, 10, 10));
}

#[test]
fn stamp_line_vertical() {
    let mut s = StrokeState::new(20, 20);
    s.stamp_line(10, 5, 10, 15, 2, &line_points);
    assert!(mask_at(&s, 10, 5));
    assert!(mask_at(&s, 10, 15));
    assert!(mask_at(&s, 10, 10));
}

#[test]
fn stamp_line_same_position_returns_early() {
    let mut s = StrokeState::new(10, 10);
    s.stamp_line(5, 5, 5, 5, 2, &line_points);
    assert_eq!(count_mask_true(s.mask()), 0);
}

#[test]
fn stamp_line_diagonal_covers_path() {
    let mut s = StrokeState::new(20, 20);
    s.stamp_line(0, 0, 10, 10, 1, &line_points);
    assert!(mask_at(&s, 0, 0));
    assert!(mask_at(&s, 5, 5));
    assert!(mask_at(&s, 10, 10));
}

#[test]
fn stamp_to_first_call_stamps_square() {
    let mut s = StrokeState::new(20, 20);
    s.stamp_to(10, 10, 2, &line_points);
    assert!(mask_at(&s, 8, 8));
    assert!(mask_at(&s, 12, 12));
    assert_eq!(s.last_pos(), Some((10, 10)));
}

#[test]
fn stamp_to_second_call_uses_line() {
    let mut s = StrokeState::new(20, 20);
    s.stamp_to(5, 10, 2, &line_points);
    s.stamp_to(15, 10, 2, &line_points);
    assert!(mask_at(&s, 10, 10));
}

#[test]
fn stamp_to_clamps_into_the_image() {
    let mut s = StrokeState::new(10, 10);
    s.stamp_to(50, 3, 0, &line_points);
    assert_eq!(s.last_pos(), Some((9, 3)));
    assert!(mask_at(&s, 9, 3));
    assert_eq!(count_mask_true(s.mask()), 1);
}

fn frame(drag_started: bool, dragged: bool, drag_stopped: bool, clicked: bool, cursor: Option<(usize, usize)>) -> BrushInput {
    BrushInput { drag_started, dragged, drag_stopped, clicked, command_or_ctrl: false, cursor }
}

#[test]
fn brush_drag_paints_a_stroke_and_hands_it_out() {
    let mut tool = BrushTool::default();
    tool.set_brush_size(1);
    assert_eq!(tool.handle(frame(true, false, false, false, Some((2, 2))), 10, 10, [1, 2, 3], &line_points), None);
    assert!(tool.stroke().is_some());
    assert_eq!(tool.handle(frame(false, true, false, false, Some((6, 2))), 10, 10, [1, 2, 3], &line_points), None);
    let (area, overlapping, layer) = tool.handle(frame(false, false, true, false, None), 10, 10, [1, 2, 3], &line_points).unwrap();
    assert_eq!(layer, None);
    assert!(!overlapping);
    assert_eq!(area.color, [1, 2, 3]);
    assert_eq!(
        area.pixels,
        vec![PixelRange::new_total(11, 7), PixelRange::new_total(21, 7), PixelRange::new_total(31, 7)]
    );
    assert!(tool.stroke().is_none());
}

#[test]
fn brush_drag_with_command_is_dropped() {
    let mut tool = BrushTool::default();
    tool.handle(frame(true, false, false, false, Some((2, 2))), 10, 10, [1, 2, 3], &line_points);
    let mut stop = frame(false, false, true, false, None);
    stop.command_or_ctrl = true;
    assert_eq!(tool.handle(stop, 10, 10, [1, 2, 3], &line_points), None);
    assert!(tool.stroke().is_none());
}

#[test]
fn brush_click_paints_one_square_on_a_layer() {
    let mut tool = BrushTool::default();
    tool.set_layer(4);
    tool.set_color([9, 9, 9]);
    tool.set_brush_size(1);
    assert_eq!(tool.layer(), Some(4));
    assert_eq!(tool.color([0, 0, 0]), [9, 9, 9]);
    let (area, overlapping, layer) = tool.handle(frame(false, false, false, true, Some((0, 0))), 10, 10, [9, 9, 9], &line_points).unwrap();
    assert!(!overlapping);
    assert_eq!(layer, Some(4));
    assert_eq!(area.pixels, vec![PixelRange::new_total(0, 2), PixelRange::new_total(10, 2)]);
    tool.handle(frame(true, false, false, false, Some((5, 5))), 10, 10, [9, 9, 9], &line_points);
    let (_, overlapping, layer) = tool.handle(frame(false, false, true, false, None), 10, 10, [9, 9, 9], &line_points).unwrap();
    assert!(overlapping);
    assert_eq!(layer, Some(4));
}

#[test]
fn brush_tool_stroke_dirty_part() {
    let mut tool = BrushTool::default();
    assert_eq!(tool.brush_size(), 10);
    tool.set_brush_size(1);
    assert_eq!(tool.take_stroke_dirty(), None);
    tool.handle(frame(true, false, false, false, Some((3, 3))), 10, 10, [1, 1, 1], &line_points);
    assert_eq!(tool.take_stroke_dirty(), Some(Rect { x: 2, y: 2, width: 3, height: 3 }));
    assert_eq!(tool.take_stroke_dirty(), None);
}
