use egui_pixels::image_selector::ImageSelector;
use egui_pixels::image_state::{ImageId, ImageListTaskItem};

fn item(name: &str, has_masks: bool) -> ImageListTaskItem {
    ImageListTaskItem { id: ImageId::new(name), name: name.to_string(), has_masks }
}

fn selector(masks: &[bool]) -> ImageSelector {
    let mut s = ImageSelector::new();
    let items = masks.iter().enumerate().map(|(i, m)| item(&format!("img{i}"), *m)).collect();
    s.set_values(Ok(items));
    s
}

fn current_name(s: &ImageSelector) -> Option<String> {
    s.current().map(|x| x.name.clone())
}

#[test]
fn empty_selector_has_no_current_image() {
    let mut s = ImageSelector::new();
    assert!(s.current().is_none());
    assert!(!s.next());
    assert!(!s.prev());
    assert!(!s.next_annotated());
    assert!(!s.prev_annotated());
}

#[test]
fn failed_listing_has_no_current_image() {
    let mut s = ImageSelector::new();
    s.set_values(Err("no such directory".to_string()));
    assert!(s.current().is_none());
    assert!(!s.next());
}

#[test]
fn next_and_prev_wrap_around() {
    let mut s = selector(&[false, false, false]);
    assert_eq!(current_name(&s), Some("img0".to_string()));
    assert!(s.prev());
    assert_eq!(current_name(&s), Some("img2".to_string()));
    assert!(s.next());
    assert_eq!(current_name(&s), Some("img0".to_string()));
    assert!(s.next());
    assert_eq!(current_name(&s), Some("img1".to_string()));
}

#[test]
fn annotated_moves_skip_images_without_masks() {
    let mut s = selector(&[false, true, false, false, true]);
    assert!(s.next_annotated());
    assert_eq!(current_name(&s), Some("img1".to_string()));
    assert!(s.next_annotated());
    assert_eq!(current_name(&s), Some("img4".to_string()));
    assert!(s.next_annotated());
    assert_eq!(current_name(&s), Some("img1".to_string()));
    assert!(s.prev_annotated());
    assert_eq!(current_name(&s), Some("img4".to_string()));
    assert!(s.prev_annotated());
    assert_eq!(current_name(&s), Some("img1".to_string()));
}

#[test]
fn annotated_moves_stay_without_other_masks() {
    let mut s = selector(&[false, false, false]);
    assert!(s.select(1));
    assert!(s.next_annotated());
    assert_eq!(current_name(&s), Some("img1".to_string()));
    assert!(s.prev_annotated());
    assert_eq!(current_name(&s), Some("img1".to_string()));
}

#[test]
fn select_reports_changes_only() {
    let mut s = selector(&[false, false]);
    assert!(!s.select(0));
    assert!(s.select(1));
    assert!(!s.select(1));
    assert!(!s.select(5));
    assert_eq!(current_name(&s), Some("img1".to_string()));
}

#[test]
fn annotated_search_from_past_the_end_of_a_shorter_list() {
    let mut s = selector(&[false, false, false, false, false, false]);
    assert!(s.select(5));
    s.set_values(Ok(vec![item("a", true), item("b", false), item("c", true)]));
    assert!(s.current().is_none());
    assert!(s.prev_annotated());
    assert_eq!(current_name(&s), Some("c".to_string()));
    s.set_values(Ok(vec![item("a", false), item("b", true)]));
    assert!(s.next_annotated());
    assert_eq!(current_name(&s), Some("b".to_string()));
}

#[test]
fn selector_reports_items_and_search_ends() {
    let mut s = selector(&[false, false]);
    assert_eq!(s.len(), 2);
    assert_eq!(s.item(1).map(|x| x.name.clone()), Some("img1".to_string()));
    assert!(s.item(2).is_none());
    assert!(s.select(1));
    assert_eq!(s.position(), 1);
    assert!(s.can_search_annotated());
    s.set_values(Ok(vec![item("a", false)]));
    assert!(!s.can_search_annotated());
    s.set_values(Ok(vec![item("a", true)]));
    assert!(s.can_search_annotated());
}
