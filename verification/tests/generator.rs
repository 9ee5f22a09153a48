use egui_pixels::generator::{color_hue_index, MaskGenerator};

fn reference_hue_index(seed: u16) -> u8 {
    let mut num = (seed & 0xFF) as u8;
    for _ in 0..2 {
        num = num.wrapping_mul(197).rotate_left(5) ^ 0x5A;
    }
    num
}

#[test]
fn hue_index_matches_the_permutation() {
    for seed in [0u16, 1, 2, 77, 255, 256, 1000, u16::MAX] {
        assert_eq!(color_hue_index(seed), reference_hue_index(seed));
    }
    assert_eq!(color_hue_index(3), color_hue_index(3 + 256));
}

#[test]
fn hue_index_exact_values() {
    // 0 -> rotl5(0) ^ 0x5A = 0x5A; 0x5A * 197 = 17730 = 0x4542 -> 0x42; rotl5(0x42) = 0x48; ^ 0x5A = 0x12
    assert_eq!(color_hue_index(0), 0x12);
}

#[test]
fn mask_generator_selects_by_position() {
    let mut g = MaskGenerator::new(vec![("a".to_string(), 1u32), ("b".to_string(), 2u32)]);
    assert_eq!(g.len(), 2);
    assert_eq!(g.name(1), Some("b"));
    assert_eq!(g.name(2), None);
    assert_eq!(g.selected().copied(), Some(1));
    g.select(1);
    if let Some(f) = g.selected() {
        *f = 5;
    }
    assert_eq!(g.selected().copied(), Some(5));
    g.select(3);
    assert!(g.selected().is_none());
}
