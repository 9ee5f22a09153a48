use egui_pixels::image_state::{check_texture_size, chessboard_pixels, ImageId, StateConfig, TextureExceedsLimit};

#[test]
fn texture_size_limit() {
    assert!(check_texture_size(100, 200, 200).is_ok());
    let err = check_texture_size(100, 201, 200).unwrap_err();
    assert_eq!((err.width, err.height, err.max_texture_side), (100, 201, 200));
    let e = TextureExceedsLimit::new(1, 2, 3);
    assert_eq!((e.width, e.height, e.max_texture_side), (1, 2, 3));
}

#[test]
fn image_id_round_trip() {
    let id = ImageId::new("cat.png");
    assert_eq!(id.as_str(), "cat.png");
    assert_eq!(id, ImageId("cat.png".to_string()));
}

#[test]
fn state_config_default() {
    assert!(!StateConfig::default().reset_viewport_on_image_load);
}

#[test]
fn chessboard_squares_alternate() {
    let v = chessboard_pixels(400, 400, 50, 0, 255);
    assert_eq!(v.len(), 160_000);
    assert_eq!(v[0], [0, 0, 0]);
    assert_eq!(v[49], [0, 0, 0]);
    assert_eq!(v[50], [255, 255, 255]);
    assert_eq!(v[50 * 400], [255, 255, 255]);
    assert_eq!(v[50 * 400 + 50], [0, 0, 0]);
    assert_eq!(v[399 * 400 + 399], [0, 0, 0]);
}

#[test]
fn chessboard_of_small_image() {
    let v = chessboard_pixels(3, 2, 1, 7, 9);
    let grey: Vec<u8> = v.iter().map(|p| p[0]).collect();
    assert_eq!(grey, vec![7, 9, 7, 9, 7, 9]);
    assert!(chessboard_pixels(0, 5, 1, 0, 1).is_empty());
}

#[test]
fn texture_exceeds_limit_message() {
    let e = TextureExceedsLimit::new(4097, 12, 4096);
    let text: String = e.message().into_iter().collect();
    assert_eq!(text, "Image too large: 4097x12, max texture side is 4096");
    let zero: String = TextureExceedsLimit::new(0, 7, 10).message().into_iter().collect();
    assert_eq!(zero, "Image too large: 0x7, max texture side is 10");
}
