use egui_pixels::pixel_range::{remove_overlaps, runs_ok, Meta, PixelArea, PixelRange};

#[test]
fn mod_overlapping_before() {
    let mut annotation = PixelArea::with_black_color(vec![PixelRange::new_total(2, 4)]);
    let existing = vec![PixelRange::new_total(0, 3)];
    remove_overlaps(&mut annotation, &existing);
    assert_eq!(annotation.pixels, vec![PixelRange::new_total(3, 3)])
}

#[test]
fn mod_existing_within_new() {
    let mut annotation = PixelArea::with_black_color(vec![PixelRange::new_total(0, 6)]);
    let existing = vec![PixelRange::new_total(1, 4)];
    remove_overlaps(&mut annotation, &existing);
    assert_eq!(
        annotation.pixels,
        vec![PixelRange::new_total(0, 1), PixelRange::new_total(5, 1)]
    )
}

#[test]
fn mod_overlapping_both() {
    let mut annotation = PixelArea::with_black_color(vec![PixelRange::new_total(2, 4)]);
    let existing = vec![PixelRange::new_total(0, 6)];
    remove_overlaps(&mut annotation, &existing);
    assert_eq!(annotation.pixels, vec![])
}

#[test]
fn mod_overlapping_twice() {
    let mut annotation = PixelArea::with_black_color(vec![
        PixelRange::new_total(2, 1),
        PixelRange::new_total(4, 1),
    ]);
    let existing = vec![PixelRange::new_total(0, 6)];
    remove_overlaps(&mut annotation, &existing);
    assert_eq!(annotation.pixels, vec![]);
}

#[test]
fn mod_overlapping_end() {
    let mut annotation = PixelArea::with_black_color(vec![PixelRange::new_total(1, 4)]);
    let existing = vec![PixelRange::new_total(2, 6)];
    remove_overlaps(&mut annotation, &existing);
    assert_eq!(annotation.pixels, vec![PixelRange::new_total(1, 1)])
}

#[test]
fn mod_overlapping_between() {
    let mut annotation = PixelArea::with_black_color(vec![PixelRange::new_total(2, 4)]);
    let existing = vec![PixelRange::new_total(0, 3), PixelRange::new_total(0, 8)];
    remove_overlaps(&mut annotation, &existing);
    assert_eq!(annotation.pixels, vec![])
}

#[test]
fn mod_no_overlap_before() {
    let mut annotation = PixelArea::with_black_color(vec![PixelRange::new_total(2, 4)]);
    let existing = vec![PixelRange::new_total(0, 2)];
    remove_overlaps(&mut annotation, &existing);
    assert_eq!(annotation.pixels, vec![PixelRange::new_total(2, 4)])
}

#[test]
fn remove_overlaps_keeps_colour_and_sets_full_confidence() {
    let mut annotation = PixelArea::new(vec![PixelRange::new(0, 10, 7)], [1, 2, 3]);
    let existing = vec![PixelRange::new_total(3, 2), PixelRange::new_total(8, 5)];
    remove_overlaps(&mut annotation, &existing);
    assert_eq!(annotation.color, [1, 2, 3]);
    assert_eq!(
        annotation.pixels,
        vec![PixelRange::new_total(0, 3), PixelRange::new_total(5, 3)]
    );
}

#[test]
fn pixel_range_accessors() {
    let mut r = PixelRange::new(10, 5, 99);
    assert_eq!(r.start(), 10);
    assert_eq!(r.length(), 5);
    assert_eq!(r.end(), 15);
    assert_eq!(r.confidence(), 99);
    assert_eq!(r.as_range(), 10..15);
    r.increment_length();
    assert_eq!(r.length(), 6);
    assert_eq!(r.end(), 16);
    assert_eq!(PixelRange::new_total(0, 1).confidence(), 255);
}

#[test]
fn meta_defaults_to_full_confidence() {
    assert_eq!(Meta::default().confidence(), 255);
    assert_eq!(Meta::new(12).confidence(), 12);
}

#[test]
fn pixel_area_basics() {
    let a = PixelArea::with_black_color(vec![PixelRange::new_total(0, 2), PixelRange::new_total(5, 1)]);
    assert_eq!(a.color, [0, 0, 0]);
    assert_eq!(a.range_len(), 2);
    assert!(!a.is_empty());
    assert!(PixelArea::default().is_empty());
    assert_eq!(a.duplicate(), a);
}

#[test]
fn try_new_takes_ordered_runs_only() {
    let ordered = vec![PixelRange::new_total(0, 2), PixelRange::new(2, 3, 7)];
    let a = PixelArea::try_new(ordered.clone(), [1, 2, 3]).expect("ordered runs");
    assert_eq!(a.pixels, ordered);
    assert_eq!(a.color, [1, 2, 3]);
    assert!(PixelArea::try_new(vec![PixelRange::new_total(5, 2), PixelRange::new_total(0, 2)], [0, 0, 0]).is_none());
    assert!(PixelArea::try_new(vec![PixelRange::new_total(0, 3), PixelRange::new_total(2, 2)], [0, 0, 0]).is_none());
    assert!(PixelArea::try_new(vec![], [0, 0, 0]).is_none());
}

#[test]
fn runs_ok_accepts_touching_runs() {
    assert!(runs_ok(&vec![PixelRange::new_total(0, 2), PixelRange::new_total(2, 1)]));
    assert!(runs_ok(&vec![]));
    assert!(!runs_ok(&vec![PixelRange::new_total(0, 3), PixelRange::new_total(1, 1)]));
}

#[test]
fn map_inplace_replaces_runs() {
    let a = PixelArea::new(vec![PixelRange::new_total(0, 4)], [9, 9, 9]);
    let b = a
        .clone()
        .map_inplace(|v| v.into_iter().map(|r| PixelRange::new_total(r.start() + 10, 2)).collect())
        .expect("one run");
    assert_eq!(b.pixels, vec![PixelRange::new_total(10, 2)]);
    assert_eq!(b.color, [9, 9, 9]);
    assert!(a.map_inplace(|_| vec![]).is_none());
}

#[test]
fn single_runs_of_full_confidence() {
    let a = PixelArea::single_pixel_total_color(5, 3, [4, 5, 6]);
    assert_eq!(a.pixels, vec![PixelRange::new_total(5, 3)]);
    assert_eq!(a.color, [4, 5, 6]);
    let b = PixelArea::single_range_total_black(1, 1);
    assert_eq!(b.pixels, vec![PixelRange::new_total(1, 1)]);
    assert_eq!(b.color, [0, 0, 0]);
}
