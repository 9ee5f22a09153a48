use egui_pixels::contrast::{contrast_window, fix_image_contrast};

fn stretch_u8(p: u16, lower: u16, upper: u16) -> u16 {
    let max_pixel_value = 255.0_f32;
    let range = max_pixel_value / (upper as f32 - lower as f32);
    ((p as f32 - lower as f32) * range).clamp(0.0, max_pixel_value) as u16
}

#[test]
fn fix_image_contrast_all_pixels_same() {
    let image = vec![255u16; 25];
    let fixed = fix_image_contrast(&image, stretch_u8);
    assert_eq!(fixed, image);
}

#[test]
fn contrast_window_takes_order_statistics() {
    let pixels: Vec<u16> = (0..100).rev().collect();
    assert_eq!(contrast_window(&pixels), (5, 95));
}

#[test]
fn contrast_window_single_pixel() {
    assert_eq!(contrast_window(&vec![7]), (7, 7));
}

#[test]
fn contrast_window_small_image_uses_first_values() {
    // fewer than 20 pixels: both positions are 0
    assert_eq!(contrast_window(&vec![9, 3, 5]), (3, 3));
}

#[test]
fn fix_image_contrast_stretches_window() {
    let pixels: Vec<u16> = (0..100).collect();
    let fixed = fix_image_contrast(&pixels, stretch_u8);
    assert_eq!(fixed.len(), 100);
    assert_eq!(fixed[0], 0);
    assert_eq!(fixed[5], 0);
    assert_eq!(fixed[95], 255);
    assert_eq!(fixed[99], 255);
    assert_eq!(fixed[50], stretch_u8(50, 5, 95));
}
