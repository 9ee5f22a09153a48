use egui_pixels::history::{History, HistoryAction, HistoryActionKind};
use egui_pixels::layers::union_area;
use egui_pixels::mask::{AffectedLayer, HistoryActionBuilder, MaskImage};
use egui_pixels::pixel_range::{PixelArea, PixelRange};

fn black(start: u32, len: u16) -> PixelArea {
    PixelArea::with_black_color(vec![PixelRange::new_total(start, len)])
}

fn seed_color(seed: u16) -> [u8; 3] {
    [seed as u8, 1, 2]
}

fn coloured(start: u32, len: u16, seed: u16) -> PixelArea {
    PixelArea::new(vec![PixelRange::new_total(start, len)], seed_color(seed))
}

fn action(kind: HistoryActionKind, layer: Option<usize>) -> HistoryAction {
    HistoryAction { kind, layer, checkpoint: true }
}

#[test]
fn consecutive_resets_different_layers_are_not_deduped() {
    let mut history = History::default();
    history.push(HistoryAction { kind: HistoryActionKind::Reset, layer: Some(0), checkpoint: false });
    history.push(HistoryAction { kind: HistoryActionKind::Reset, layer: Some(1), checkpoint: false });
    assert_eq!(history.len(), 2);
}

#[test]
fn consecutive_resets_same_layer_are_deduped() {
    let mut history = History::default();
    history.push(HistoryAction { kind: HistoryActionKind::Reset, layer: Some(1), checkpoint: false });
    history.push(HistoryAction { kind: HistoryActionKind::Reset, layer: Some(1), checkpoint: true });
    assert_eq!(history.len(), 1);
}

#[test]
fn add_on_a_new_layer_fills_the_gap() {
    let out = action(HistoryActionKind::Add(black(3, 2)), Some(2)).apply_to_layers(vec![Some(black(0, 1))], &seed_color);
    assert_eq!(out, vec![Some(black(0, 1)), None, Some(coloured(3, 2, 3))]);
}

#[test]
fn add_without_layer_goes_on_top() {
    let out = action(HistoryActionKind::Add(black(3, 2)), None).apply_to_layers(vec![None], &seed_color);
    assert_eq!(out, vec![None, Some(coloured(3, 2, 1))]);
}

#[test]
fn add_on_an_existing_layer_joins_the_areas() {
    let existing = PixelArea::new(vec![PixelRange::new_total(0, 4), PixelRange::new_total(10, 2)], [9, 9, 9]);
    let out = action(HistoryActionKind::Add(black(2, 10)), Some(0)).apply_to_layers(vec![Some(existing)], &seed_color);
    assert_eq!(
        out,
        vec![Some(PixelArea::new(
            vec![PixelRange::new_total(0, 4), PixelRange::new_total(4, 6), PixelRange::new_total(10, 2)],
            [9, 9, 9]
        ))]
    );
}

#[test]
fn reset_one_layer_or_all() {
    let layers = vec![Some(black(0, 1)), Some(black(5, 1))];
    let one = action(HistoryActionKind::Reset, Some(1)).apply_to_layers(layers.clone(), &seed_color);
    assert_eq!(one, vec![Some(black(0, 1)), None]);
    let past = action(HistoryActionKind::Reset, Some(7)).apply_to_layers(layers.clone(), &seed_color);
    assert_eq!(past, layers);
    let all = action(HistoryActionKind::Reset, None).apply_to_layers(layers, &seed_color);
    assert!(all.is_empty());
}

#[test]
fn clear_keeps_layer_numbers() {
    let layers = vec![Some(black(0, 4)), Some(black(10, 2)), None];
    let clear = vec![PixelRange::new_total(0, 2), PixelRange::new_total(9, 5)];
    let all = action(HistoryActionKind::Clear(clear.clone()), None).apply_to_layers(layers.clone(), &seed_color);
    assert_eq!(all, vec![Some(black(2, 2)), None, None]);
    let first = action(HistoryActionKind::Clear(clear), Some(0)).apply_to_layers(layers, &seed_color);
    assert_eq!(first, vec![Some(black(2, 2)), Some(black(10, 2)), None]);
}

#[test]
fn history_applied_to_layers() {
    let mut history = History::default();
    history.push(action(HistoryActionKind::Add(black(0, 5)), Some(1)));
    history.push(action(HistoryActionKind::Add(black(20, 5)), None));
    history.push(action(HistoryActionKind::Clear(vec![PixelRange::new_total(3, 20)]), None));
    let out = history.apply_to_layers(vec![], &seed_color);
    assert_eq!(out, vec![None, Some(coloured(0, 3, 2)), Some(coloured(23, 2, 2))]);
    history.undo();
    let out = history.apply_to_layers(vec![], &seed_color);
    assert_eq!(out, vec![None, Some(coloured(0, 5, 2)), Some(coloured(20, 5, 2))]);
}

#[test]
fn union_of_areas() {
    let u = union_area(&black(5, 5), &PixelArea::new(vec![PixelRange::new_total(0, 12)], [1, 1, 1]));
    assert_eq!(u.color, [0, 0, 0]);
    assert_eq!(
        u.pixels,
        vec![PixelRange::new_total(0, 5), PixelRange::new_total(5, 5), PixelRange::new_total(10, 2)]
    );
}

#[test]
fn take_dirty_reports_the_last_layer() {
    let mut history = History::default();
    history.push(action(HistoryActionKind::Reset, Some(3)));
    let mut mask = MaskImage::new([10, 10], vec![], history);
    assert_eq!(mask.take_dirty(), Some(AffectedLayer::Layer(3)));
    assert_eq!(mask.take_dirty(), None);
    mask.reset();
    assert_eq!(mask.take_dirty(), Some(AffectedLayer::Unspecified));
    mask.handle_events(false, true, false);
    mask.handle_events(false, true, false);
    assert_eq!(mask.take_dirty(), None);
    assert!(!mask.is_dirty());
}

#[test]
fn edits_on_layers_show_in_the_stack() {
    let mut mask = MaskImage::new([10, 10], vec![black(0, 2)], History::default());
    HistoryActionBuilder::on_layer(Some(0)).keep_overlapping(true).add(&mut mask, black(5, 1));
    HistoryActionBuilder::on_layer(Some(3)).without_tracking().keep_overlapping(true).add(&mut mask, black(8, 1));
    let stack = mask.subgroups_stack(&seed_color);
    assert_eq!(stack.max_layer(), 4);
    assert_eq!(
        stack.get(0),
        Some(&PixelArea::new(vec![PixelRange::new_total(0, 2), PixelRange::new_total(5, 1)], [0, 0, 0]))
    );
    assert!(stack.get(1).is_none() && stack.get(2).is_none());
    assert_eq!(stack.get(3), Some(&coloured(8, 1, 4)));
    HistoryActionBuilder::on_layer(Some(0)).reset(&mut mask);
    let stack = mask.subgroups_stack(&seed_color);
    assert!(stack.get(0).is_none());
    assert_eq!(stack.get(3), Some(&coloured(8, 1, 4)));
    mask.handle_events(false, true, false);
    let stack = mask.subgroups_stack(&seed_color);
    assert!(stack.get(0).is_some());
}
