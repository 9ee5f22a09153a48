use egui_pixels::cursor_image::{CursorImage, CursorImageSystem};

const POINTER: CursorImage = CursorImage { bytes: "abc", offset_x: 1, offset_y: 2 };
const OTHER: CursorImage = CursorImage { bytes: "xyz", offset_x: 1, offset_y: 2 };

#[test]
fn cursor_is_published_once_while_over_the_image() {
    let mut system = CursorImageSystem::new();
    system.set(POINTER);
    assert_eq!(system.apply(true), Some(Some(POINTER)));
    system.set(POINTER);
    assert_eq!(system.apply(true), None);
    system.set(OTHER);
    assert_eq!(system.apply(true), Some(Some(OTHER)));
}

#[test]
fn cursor_is_cleared_outside_the_image() {
    let mut system = CursorImageSystem::new();
    system.set(POINTER);
    assert_eq!(system.apply(true), Some(Some(POINTER)));
    assert_eq!(system.apply(false), Some(None));
    assert_eq!(system.apply(false), None);
}
