use egui_pixels::storage::{display_name, Kind};

#[test]
fn image_extensions_are_images() {
    for ext in ["jpeg", "jpg", "png", "tiff", "tif"] {
        assert_eq!(Kind::from_str(ext), Ok(Kind::Image));
    }
}

#[test]
fn masks_extension_is_mask() {
    assert_eq!(Kind::from_str("masks"), Ok(Kind::Mask));
}

#[test]
fn other_extensions_are_refused() {
    for ext in ["", "JPG", "gif", "mask", "tiff2", "png "] {
        assert_eq!(Kind::from_str(ext), Err(()));
    }
}

#[test]
fn masks_order_before_images() {
    assert!(Kind::Mask < Kind::Image);
}

fn shown(id: &str) -> String {
    display_name(id).into_iter().collect()
}

#[test]
fn display_name_capitalises_first_letter() {
    assert_eq!(shown("image1"), "Image1");
    assert_eq!(shown("Image1"), "Image1");
    assert_eq!(shown("zebra"), "Zebra");
}

#[test]
fn display_name_keeps_other_first_characters() {
    assert_eq!(shown(""), "");
    assert_eq!(shown("1abc"), "1abc");
    assert_eq!(shown("_a"), "_a");
    assert_eq!(shown("éclair"), "éclair");
    assert_eq!(shown("aB c"), "AB c");
}
