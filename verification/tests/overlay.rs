use egui_pixels::overlay::{areas_within, overlay_pixels, Rgba};
use egui_pixels::pixel_range::{PixelArea, PixelRange};

fn lut() -> [u8; 256] {
    let mut l = [0u8; 256];
    for (i, x) in l.iter_mut().enumerate() {
        *x = (i / 2) as u8;
    }
    l
}

#[test]
fn later_areas_cover_earlier_ones() {
    let areas = vec![
        PixelArea::new(vec![PixelRange::new_total(0, 4)], [1, 2, 3]),
        PixelArea::new(vec![PixelRange::new(2, 3, 100)], [7, 8, 9]),
    ];
    assert!(areas_within(&areas, 6));
    let out = overlay_pixels(&areas, 6, &lut(), &[255u8; 256], None);
    assert_eq!(
        out,
        vec![
            Rgba { r: 1, g: 2, b: 3, a: 127 },
            Rgba { r: 1, g: 2, b: 3, a: 127 },
            Rgba { r: 7, g: 8, b: 9, a: 50 },
            Rgba { r: 7, g: 8, b: 9, a: 50 },
            Rgba { r: 7, g: 8, b: 9, a: 50 },
            Rgba { r: 0, g: 0, b: 0, a: 0 },
        ]
    );
}

#[test]
fn runs_past_the_image_are_detected() {
    let areas = vec![PixelArea::new(vec![PixelRange::new_total(8, 4)], [1, 2, 3])];
    assert!(!areas_within(&areas, 10));
    assert!(areas_within(&areas, 12));
}

#[test]
fn highlighted_area_takes_its_own_opacity() {
    let areas = vec![
        PixelArea::new(vec![PixelRange::new_total(0, 2)], [1, 2, 3]),
        PixelArea::new(vec![PixelRange::new(2, 2, 100)], [7, 8, 9]),
    ];
    let active = [200u8; 256];
    let out = overlay_pixels(&areas, 4, &lut(), &active, Some(1));
    assert_eq!(
        out,
        vec![
            Rgba { r: 1, g: 2, b: 3, a: 127 },
            Rgba { r: 1, g: 2, b: 3, a: 127 },
            Rgba { r: 7, g: 8, b: 9, a: 200 },
            Rgba { r: 7, g: 8, b: 9, a: 200 },
        ]
    );
    let out = overlay_pixels(&areas, 4, &lut(), &active, Some(0));
    assert_eq!(out[0].a, 200);
    assert_eq!(out[2].a, 50);
    let out = overlay_pixels(&areas, 4, &lut(), &active, Some(5));
    assert_eq!(out[0].a, 127);
}
