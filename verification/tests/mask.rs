use egui_pixels::history::{History, HistoryAction, HistoryActionKind};
use egui_pixels::mask::{areas_ok, history_ok, order_by_start, row_runs, AddAction, MaskImage, MaskSettings};
use egui_pixels::pixel_range::{PixelArea, PixelRange};

fn single_pixel_total_black(start: u32, len: u16) -> PixelArea {
    PixelArea::with_black_color(vec![PixelRange::new_total(start, len)])
}

fn bounds_to_ranges(bounds: [[usize; 2]; 2], image_width: u32) -> Vec<PixelRange> {
    let [[x_top, y_top], [x_bottom, y_bottom]] = bounds;
    let x_left = x_top as u32;
    let x_right = x_bottom as u32;
    let x_width = (x_right - x_left + 1) as u16;
    row_runs(x_left, x_width, y_top as u32, y_bottom as u32, image_width)
}

fn empty_mask() -> MaskImage {
    MaskImage::new([10, 10], vec![], History::default())
}

#[test]
fn mask_add_area_with_overlap() {
    let mut mask_image = empty_mask();
    mask_image.add_area_overlapping(single_pixel_total_black(1, 4));
    mask_image.add_area_overlapping(single_pixel_total_black(2, 2));
    assert_eq!(
        mask_image.subgroups(),
        vec![single_pixel_total_black(1, 4), single_pixel_total_black(2, 2)]
    );
}

#[test]
fn mask_add_area_non_overlapping_parts_remove_completely() {
    let mut mask_image = empty_mask();
    mask_image.add_area(single_pixel_total_black(1, 4));
    mask_image.add_area(single_pixel_total_black(2, 2));
    assert_eq!(mask_image.subgroups(), vec![single_pixel_total_black(1, 4)]);
}

#[test]
fn mask_add_area_non_overlapping_parts_remove_partially() {
    let mut mask_image = empty_mask();
    mask_image.add_area(single_pixel_total_black(1, 4));
    mask_image.add_area(single_pixel_total_black(2, 4));
    assert_eq!(
        mask_image.subgroups(),
        vec![single_pixel_total_black(1, 4), single_pixel_total_black(5, 1)]
    );
}

#[test]
fn mask_clear_should_remove_multiple_overlapping_areas_start() {
    let mut mask_image = empty_mask();
    mask_image.add_area_overlapping(single_pixel_total_black(1, 8));
    mask_image.add_area_overlapping(single_pixel_total_black(2, 6));
    mask_image.clear_ranges(bounds_to_ranges([[0, 0], [4, 1]], 10));
    assert_eq!(
        mask_image.subgroups(),
        vec![single_pixel_total_black(5, 4), single_pixel_total_black(5, 3)]
    );
}

#[test]
fn mask_clear_should_remove_multiple_overlapping_areas_end() {
    let mut mask_image = empty_mask();
    mask_image.add_area_overlapping(single_pixel_total_black(1, 8));
    mask_image.add_area_overlapping(single_pixel_total_black(2, 6));
    mask_image.clear_ranges(bounds_to_ranges([[5, 0], [10, 1]], 10));
    assert_eq!(
        mask_image.subgroups(),
        vec![single_pixel_total_black(1, 4), single_pixel_total_black(2, 3)]
    );
}

#[test]
fn mask_clear_should_remove_multiple_overlapping_areas_within() {
    let mut mask_image = empty_mask();
    mask_image.add_area_overlapping(single_pixel_total_black(1, 8));
    mask_image.add_area_overlapping(single_pixel_total_black(2, 6));
    mask_image.clear_ranges(bounds_to_ranges([[4, 0], [5, 1]], 10));
    assert_eq!(
        mask_image.subgroups(),
        vec![
            PixelArea::with_black_color(vec![PixelRange::new_total(1, 3), PixelRange::new_total(6, 3)]),
            PixelArea::with_black_color(vec![PixelRange::new_total(2, 2), PixelRange::new_total(6, 2)]),
        ]
    );
}

#[test]
fn clear_should_remove_overlapping_areas_first() {
    let mut mask_image = empty_mask();
    mask_image.add_area_overlapping(single_pixel_total_black(1, 8));
    mask_image.add_area_overlapping(single_pixel_total_black(4, 2));
    mask_image.clear_ranges(bounds_to_ranges([[0, 0], [3, 1]], 10));
    assert_eq!(
        mask_image.subgroups(),
        vec![single_pixel_total_black(4, 5), single_pixel_total_black(4, 2)]
    );
}

#[test]
fn clear_should_remove_overlapping_areas_last() {
    let mut mask_image = empty_mask();
    mask_image.add_area_overlapping(single_pixel_total_black(4, 2));
    mask_image.add_area_overlapping(single_pixel_total_black(1, 8));
    mask_image.clear_ranges(bounds_to_ranges([[0, 0], [3, 1]], 10));
    assert_eq!(
        mask_image.subgroups(),
        vec![single_pixel_total_black(4, 2), single_pixel_total_black(4, 5)]
    );
}

fn iter_sorted_mask() -> MaskImage {
    let mut history = History::default();
    history.push(HistoryAction {
        kind: HistoryActionKind::Add(PixelArea::with_black_color(vec![
            PixelRange::new_total(22, 7),
            PixelRange::new_total(39, 1),
            PixelRange::new_total(42, 7),
        ])),
        layer: None,
        checkpoint: true,
    });
    MaskImage::new(
        [10, 10],
        vec![
            PixelArea::with_black_color(vec![PixelRange::new_total(2, 5), PixelRange::new_total(12, 5)]),
            PixelArea::with_black_color(vec![PixelRange::new_total(32, 5)]),
        ],
        history,
    )
}

#[test]
fn mask_iter_sorted() {
    let x = iter_sorted_mask();
    let group_sequence: Vec<usize> = order_by_start(&x.subgroups()).iter().map(|(group_id, _)| *group_id).collect();
    assert_eq!(group_sequence, vec![0, 0, 2, 1, 2, 2]);
}

#[test]
fn mod_iter_sorted() {
    let x = iter_sorted_mask();
    let ordered = order_by_start(&x.subgroups());
    let starts: Vec<u32> = ordered.iter().map(|(_, r)| r.start()).collect();
    assert_eq!(starts, vec![2, 12, 22, 32, 39, 42]);
    let group_sequence: Vec<usize> = ordered.iter().map(|(group_id, _)| *group_id).collect();
    assert_eq!(group_sequence, vec![0, 0, 2, 1, 2, 2]);
}

#[test]
fn undo_and_redo_by_keys() {
    let mut mask_image = empty_mask();
    mask_image.add_area_overlapping(single_pixel_total_black(1, 4));
    mask_image.add_area_overlapping(single_pixel_total_black(20, 2));
    mask_image.handle_events(false, true, false);
    assert_eq!(mask_image.subgroups(), vec![single_pixel_total_black(1, 4)]);
    mask_image.handle_events(true, true, false);
    assert_eq!(
        mask_image.subgroups(),
        vec![single_pixel_total_black(1, 4), single_pixel_total_black(20, 2)]
    );
}

#[test]
fn reset_removes_everything_and_undo_brings_it_back() {
    let mut mask_image = empty_mask();
    mask_image.add_area_overlapping(single_pixel_total_black(1, 4));
    mask_image.reset();
    assert!(mask_image.subgroups().is_empty());
    mask_image.handle_events(false, true, false);
    assert_eq!(mask_image.subgroups(), vec![single_pixel_total_black(1, 4)]);
}

#[test]
fn overlay_visibility_toggles() {
    let mut mask_image = empty_mask();
    assert!(!mask_image.texture_visible());
    assert!(mask_image.begin_redraw());
    assert!(mask_image.texture_visible());
    assert!(!mask_image.begin_redraw());
    mask_image.handle_events(false, false, true);
    assert!(!mask_image.texture_visible());
    mask_image.add_area_overlapping(single_pixel_total_black(1, 4));
    assert!(mask_image.texture_visible());
    assert!(mask_image.begin_redraw());
}

#[test]
fn clear_rect_clears_rows() {
    let mut mask_image = empty_mask();
    mask_image.add_area_overlapping(single_pixel_total_black(0, 30));
    mask_image.clear_rect([[2, 0], [3, 2]]);
    assert_eq!(
        mask_image.subgroups(),
        vec![PixelArea::with_black_color(vec![
            PixelRange::new_total(0, 2),
            PixelRange::new_total(4, 8),
            PixelRange::new_total(14, 8),
            PixelRange::new_total(24, 6),
        ])]
    );
}

#[test]
fn add_action_picks_the_way_to_add() {
    let mut mask_image = empty_mask();
    AddAction::keep_overlapping(true).add(&mut mask_image, single_pixel_total_black(1, 4));
    AddAction::keep_overlapping(false).add(&mut mask_image, single_pixel_total_black(2, 4));
    AddAction::keep_overlapping(true).add(&mut mask_image, single_pixel_total_black(2, 2));
    assert_eq!(
        mask_image.subgroups(),
        vec![single_pixel_total_black(1, 4), single_pixel_total_black(5, 1), single_pixel_total_black(2, 2)]
    );
}

#[test]
fn dirty_and_seed() {
    let mut mask_image = MaskImage::new([10, 10], vec![single_pixel_total_black(0, 1)], History::default());
    assert!(!mask_image.is_dirty());
    assert_eq!(mask_image.random_seed(), 1);
    mask_image.add_area_overlapping(single_pixel_total_black(3, 1));
    assert!(mask_image.is_dirty());
    assert_eq!(mask_image.random_seed(), 2);
    mask_image.mark_not_dirty();
    assert!(!mask_image.is_dirty());
}

#[test]
fn mask_settings_opacity() {
    let s = MaskSettings::default();
    assert_eq!(s.opacity(false), 128);
    assert_eq!(s.opacity(true), 200);
    let mut mask_image = empty_mask();
    let mut settings = MaskSettings::default();
    settings.default_opacity = 1;
    settings.active_opacity = 2;
    mask_image.set_settings(settings);
    assert_eq!(mask_image.settings().opacity(true), 2);
}

#[test]
fn try_new_refuses_bad_areas_and_actions() {
    let good = vec![single_pixel_total_black(0, 3)];
    assert!(areas_ok(&good));
    assert!(MaskImage::try_new([10, 10], good, History::default()).is_some());
    let overlapping = vec![PixelArea::with_black_color(vec![PixelRange::new_total(0, 3), PixelRange::new_total(2, 3)])];
    assert!(!areas_ok(&overlapping));
    assert!(MaskImage::try_new([10, 10], overlapping, History::default()).is_none());
    assert!(!areas_ok(&vec![PixelArea::with_black_color(vec![])]));
    let mut history = History::default();
    history.push(HistoryAction {
        kind: HistoryActionKind::Clear(vec![PixelRange::new_total(5, 1), PixelRange::new_total(2, 1)]),
        layer: None,
        checkpoint: true,
    });
    assert!(!history_ok(&history));
    assert!(MaskImage::try_new([10, 10], vec![], history).is_none());
}

#[test]
fn mask_size() {
    assert_eq!(MaskImage::new([7, 3], vec![], History::default()).size(), [7, 3]);
}

#[test]
fn active_subgroup_hit_test_takes_the_topmost_area() {
    let mut mask_image = empty_mask();
    mask_image.add_area_overlapping(single_pixel_total_black(10, 10));
    mask_image.add_area_overlapping(single_pixel_total_black(15, 2));
    assert_eq!(mask_image.active_subgroup_at((5, 1), 10), Some(1));
    assert_eq!(mask_image.active_subgroup_at((2, 1), 10), Some(0));
    assert_eq!(mask_image.active_subgroup_at((2, 0), 10), None);
}

#[test]
fn set_active_subgroup_redraws_on_change() {
    let mut mask_image = empty_mask();
    assert!(mask_image.begin_redraw());
    assert_eq!(mask_image.active_subgroup(), None);
    mask_image.set_active_subgroup(None);
    assert!(!mask_image.begin_redraw());
    mask_image.set_active_subgroup(Some(2));
    assert_eq!(mask_image.active_subgroup(), Some(2));
    assert!(mask_image.begin_redraw());
}

fn runs(v: &[(u32, u16)]) -> PixelArea {
    PixelArea::with_black_color(v.iter().map(|&(s, l)| PixelRange::new_total(s, l)).collect())
}

fn positions(a: &PixelArea) -> Vec<u32> {
    a.pixels.iter().flat_map(|r| r.start()..r.end()).collect()
}

#[test]
fn non_overlapping_no_pixel_overlap_with_multiple_layers() {
    let mut mask_image = empty_mask();
    // Rows of width 10: (x range, row) become flattened runs.
    AddAction::keep_overlapping(true).add(&mut mask_image, runs(&[(0, 5), (12, 3)]));
    AddAction::keep_overlapping(true).add(&mut mask_image, runs(&[(30, 5), (50, 3)]));
    let new_mask = runs(&[(3, 5), (28, 2), (30, 3), (49, 1), (50, 4)]);
    AddAction::keep_overlapping(false).add(&mut mask_image, new_mask);

    let subgroups = mask_image.subgroups();
    assert_eq!(subgroups.len(), 3);
    let all_existing_pixels: Vec<u32> = subgroups[..2].iter().flat_map(positions).collect();
    let new_layer_pixels = positions(&subgroups[2]);
    for pixel in &new_layer_pixels {
        assert!(!all_existing_pixels.contains(pixel), "Pixel {pixel} exists in both new layer and existing layers");
    }
    assert_eq!(new_layer_pixels, vec![5, 6, 7, 28, 29, 49, 53]);
}

#[test]
fn add_to_existing_overlapping_doesnt_fail() {
    let mut history = History::default();
    history.push(HistoryAction { kind: HistoryActionKind::Add(runs(&[(0, 2)])), layer: None, checkpoint: true });
    history.push(HistoryAction { kind: HistoryActionKind::Add(runs(&[(1, 4)])), layer: None, checkpoint: true });
    let mut x = MaskImage::new([10, 10], vec![], history);
    AddAction::keep_overlapping(false).add(&mut x, runs(&[(2, 4)]));
    let group_sequence: Vec<usize> = order_by_start(&x.subgroups()).into_iter().map(|(group_id, _)| group_id).collect();
    assert_eq!(group_sequence, vec![0, 1, 2]);
}
