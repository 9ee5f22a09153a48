use egui_pixels::sub_group::{remove_overlaps, Annotation, SubGroup};

#[test]
fn sub_group_overlapping_before() {
    let mut annotation = Annotation::with_black_color(vec![SubGroup::new_total(2, 4)]);
    let existing = vec![SubGroup::new_total(0, 3)];
    remove_overlaps(&mut annotation, &existing);
    assert_eq!(annotation.pixels, vec![SubGroup::new_total(3, 3)])
}

#[test]
fn sub_group_existing_within_new() {
    let mut annotation = Annotation::with_black_color(vec![SubGroup::new_total(0, 6)]);
    let existing = vec![SubGroup::new_total(1, 4)];
    remove_overlaps(&mut annotation, &existing);
    assert_eq!(
        annotation.pixels,
        vec![SubGroup::new_total(0, 1), SubGroup::new_total(5, 1)]
    )
}

#[test]
fn sub_group_overlapping_both() {
    let mut annotation = Annotation::with_black_color(vec![SubGroup::new_total(2, 4)]);
    let existing = vec![SubGroup::new_total(0, 6)];
    remove_overlaps(&mut annotation, &existing);
    assert_eq!(annotation.pixels, vec![])
}

#[test]
fn sub_group_overlapping_twice() {
    let mut annotation =
        Annotation::with_black_color(vec![SubGroup::new_total(2, 1), SubGroup::new_total(4, 1)]);
    let existing = vec![SubGroup::new_total(0, 6)];
    remove_overlaps(&mut annotation, &existing);
    assert_eq!(annotation.pixels, vec![]);
}

#[test]
fn sub_group_overlapping_end() {
    let mut annotation = Annotation::with_black_color(vec![SubGroup::new_total(1, 4)]);
    let existing = vec![SubGroup::new_total(2, 6)];
    remove_overlaps(&mut annotation, &existing);
    assert_eq!(annotation.pixels, vec![SubGroup::new_total(1, 1)])
}

#[test]
fn sub_group_overlapping_between() {
    let mut annotation = Annotation::with_black_color(vec![SubGroup::new_total(2, 4)]);
    let existing = vec![SubGroup::new_total(0, 3), SubGroup::new_total(0, 8)];
    remove_overlaps(&mut annotation, &existing);
    assert_eq!(annotation.pixels, vec![])
}

#[test]
fn sub_group_no_overlap_before() {
    let mut annotation = Annotation::with_black_color(vec![SubGroup::new_total(2, 4)]);
    let existing = vec![SubGroup::new_total(0, 2)];
    remove_overlaps(&mut annotation, &existing);
    assert_eq!(annotation.pixels, vec![SubGroup::new_total(2, 4)])
}

#[test]
fn sub_group_accessors() {
    let g = SubGroup::new(7, 3, 42);
    assert_eq!(g.start_position(), 7);
    assert_eq!(g.end_position(), 10);
    assert_eq!(g.association(), 42);
    assert_eq!(g.as_range(), 7..10);
    assert_eq!(SubGroup::new_total(0, 1).association(), 255);
}

#[test]
fn annotation_basics() {
    let a = Annotation::new(vec![SubGroup::new_total(0, 2)], [9, 8, 7]);
    assert_eq!(a.color, [9, 8, 7]);
    assert_eq!(a.sub_group_len(), 1);
    assert!(!a.is_empty());
    assert!(Annotation::with_black_color(vec![]).is_empty());
}
