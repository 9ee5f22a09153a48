use egui_pixels::pixel_range::PixelRange;
use egui_pixels::rect_selection::RectSelectionResult;

#[test]
fn rect_selection_needs_a_proper_rectangle() {
    assert!(RectSelectionResult::new(3, 2, 2, 5, 10).is_none());
    assert!(RectSelectionResult::new(2, 6, 4, 5, 10).is_none());
    assert!(RectSelectionResult::new(2, 3, 4, 5, 10).is_some());
    assert!(RectSelectionResult::new(2, 2, 2, 5, 10).is_some());
}

#[test]
fn rect_selection_of_one_pixel() {
    let r = RectSelectionResult::new(5, 5, 5, 5, 10).unwrap();
    assert_eq!(r.width(), 1);
    assert_eq!(r.height(), 1);
    assert_eq!(r.iter_ranges(255), vec![PixelRange::new_total(55, 1)]);
}

#[test]
fn rect_selection_stays_inside_the_image_columns() {
    assert!(RectSelectionResult::new(0, 0, 20, 5, 10).is_none());
    assert!(RectSelectionResult::new(0, 0, 10, 5, 10).is_none());
    assert!(RectSelectionResult::new(0, 0, 9, 5, 10).is_some());
}

#[test]
fn rect_selection_sizes_and_bounds() {
    let r = RectSelectionResult::new(2, 3, 4, 5, 10).unwrap();
    assert_eq!(r.width(), 3);
    assert_eq!(r.height(), 3);
    assert_eq!(r.bounds(), [[2, 3], [4, 5]]);
}

#[test]
fn rect_selection_ranges_one_per_row() {
    let r = RectSelectionResult::new(2, 3, 4, 5, 10).unwrap();
    assert_eq!(
        r.iter_ranges(7),
        vec![PixelRange::new(32, 3, 7), PixelRange::new(42, 3, 7), PixelRange::new(52, 3, 7)]
    );
    let area = r.into_pixel_area(9, [1, 2, 3]);
    assert_eq!(area.color, [1, 2, 3]);
    assert_eq!(area.pixels.len(), 3);
    assert_eq!(area.pixels[0].confidence(), 9);
}

#[test]
fn rect_selection_from_drag_corners_in_any_order() {
    let r = RectSelectionResult::from_corners((4, 5), (2, 3), 10).unwrap();
    assert_eq!(r.bounds(), [[2, 3], [4, 5]]);
    assert_eq!(RectSelectionResult::from_corners((4, 5), (4, 9), 10).unwrap().bounds(), [[4, 5], [4, 9]]);
    assert!(RectSelectionResult::from_corners((4, 5), (12, 9), 10).is_none());
}
