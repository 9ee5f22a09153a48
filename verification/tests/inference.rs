use egui_pixels::inference::{extract_pixel_ranges, PendingPrompt, ResizedImageData};
use egui_pixels::pixel_range::PixelRange;

fn marked(scores: &[f32]) -> Vec<bool> {
    scores.iter().map(|x| *x > 0.0).collect()
}

#[test]
fn extract_pixel_ranges_summarizes_pixels() {
    assert_eq!(
        vec![PixelRange::new_total(0, 3)],
        extract_pixel_ranges(&marked(&[1., 1., 1.]), 3)
    );
}

#[test]
fn extract_pixel_ranges_splits_at_rows_and_gaps() {
    let scores = [1., 1., -1., 1., 1., 1., 0., 1., 1.];
    assert_eq!(
        extract_pixel_ranges(&marked(&scores), 3),
        vec![
            PixelRange::new_total(0, 2),
            PixelRange::new_total(3, 3),
            PixelRange::new_total(7, 2),
        ]
    );
}

#[test]
fn extract_pixel_ranges_handles_a_short_last_row() {
    let scores = [0., 1., 1., 1., 1.];
    assert_eq!(
        extract_pixel_ranges(&marked(&scores), 2),
        vec![
            PixelRange::new_total(1, 1),
            PixelRange::new_total(2, 2),
            PixelRange::new_total(4, 1),
        ]
    );
}

#[test]
fn resized_image_data_map_keeps_sizes() {
    let data = ResizedImageData { image_data: 21u32, original_width: 4, original_height: 3, resized_width: 2, resized_height: 1 };
    let mapped = data.map(|x| x * 2);
    assert_eq!(mapped.image_data, 42);
    assert_eq!((mapped.original_width, mapped.original_height), (4, 3));
    assert_eq!((mapped.resized_width, mapped.resized_height), (2, 1));
}

#[test]
fn prompt_waits_for_embeddings() {
    let mut p = PendingPrompt::new();
    let rect = [[1, 2], [10, 20]];
    assert_eq!(p.step(Some(rect), false), None);
    assert_eq!(p.waiting, Some(rect));
    assert_eq!(p.step(None, false), None);
    assert_eq!(p.step(None, true), Some(rect));
    assert_eq!(p.waiting, None);
    assert_eq!(p.step(None, true), None);
}

#[test]
fn newer_rectangle_replaces_waiting_one() {
    let mut p = PendingPrompt::new();
    p.step(Some([[0, 0], [5, 5]]), false);
    assert_eq!(p.step(Some([[3, 3], [9, 9]]), true), Some([[3, 3], [9, 9]]));
    assert_eq!(p.waiting, None);
}
