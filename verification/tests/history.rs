use egui_pixels::history::{History, HistoryAction, HistoryActionKind};
use egui_pixels::pixel_range::{PixelArea, PixelRange};

fn add(x: u32, checkpoint: bool) -> HistoryAction {
    HistoryAction {
        kind: HistoryActionKind::Add(PixelArea::with_black_color(vec![PixelRange::new_total(x, 1)])),
        layer: None,
        checkpoint,
    }
}

#[test]
fn history_undo_empty_returns_none() {
    let mut history = History::default();
    assert_eq!(None, history.undo());
}

#[test]
fn history_insert_undo_and_redo() {
    let mut history = History::default();
    let item = add(0, true);
    history.push(item.clone());
    assert_eq!(history.undo(), Some(&item));
    assert_eq!(history.undo(), None);
    assert_eq!(history.redo(), Some(&item));
}

#[test]
fn history_push_after_undo() {
    let mut history = History::default();
    let item = add(0, true);
    let item2 = add(10, true);
    history.push(item.clone());
    assert_eq!(history.undo(), Some(&item));
    assert_eq!(history.undo(), None);
    history.push(item2);
    assert_eq!(None, history.redo());
}

#[test]
fn undo_redo_group_checkpoint_and_plain() {
    let mut history = History::default();
    history.push(add(0, true));
    history.push(add(10, false));
    assert_eq!(history.end(), 2);
    history.undo();
    assert_eq!(history.end(), 0);
    history.redo();
    assert_eq!(history.end(), 2);
}

#[test]
fn undo_redo_multiple_groups() {
    let mut history = History::default();
    history.push(add(0, true));
    history.push(add(10, false));
    history.push(add(20, true));
    history.push(add(30, false));
    assert_eq!(history.end(), 4);
    history.undo();
    assert_eq!(history.end(), 2);
    history.undo();
    assert_eq!(history.end(), 0);
    history.redo();
    assert_eq!(history.end(), 2);
    history.redo();
    assert_eq!(history.end(), 4);
}

#[test]
fn redo_stops_at_next_checkpoint() {
    let mut history = History::default();
    history.push(add(0, true));
    history.push(add(10, false));
    history.undo();
    assert_eq!(history.end(), 0);
    history.redo();
    assert_eq!(history.end(), 2);
    history.undo();
    assert_eq!(history.end(), 0);
}

#[test]
fn only_plain_actions_cannot_undo() {
    let mut history = History::default();
    history.push(add(0, false));
    history.push(add(10, false));
    assert_eq!(history.end(), 2);
    assert_eq!(None, history.undo());
    assert_eq!(history.end(), 2);
}

#[test]
fn consecutive_resets_are_deduped() {
    let mut history = History::default();
    history.push(HistoryAction { kind: HistoryActionKind::Reset, layer: None, checkpoint: true });
    history.push(HistoryAction { kind: HistoryActionKind::Reset, layer: None, checkpoint: false });
    assert_eq!(history.len(), 1);
    assert_eq!(history.end(), 1);
}

#[test]
fn dirty_tracks_saved_position() {
    let mut history = History::default();
    assert!(!history.is_dirty());
    history.push(add(0, true));
    assert!(history.is_dirty());
    history.mark_not_dirty();
    assert!(!history.is_dirty());
    history.undo();
    assert!(history.is_dirty());
    history.redo();
    assert!(!history.is_dirty());
}

#[test]
fn push_after_undo_past_saved_position_forgets_it() {
    let mut history = History::default();
    history.push(add(0, true));
    history.mark_not_dirty();
    history.undo();
    history.push(add(5, true));
    assert!(history.is_dirty());
    history.undo();
    assert!(history.is_dirty());
}

#[test]
fn push_then_undo_restores_applied_actions() {
    let mut history = History::default();
    history.push(add(0, true));
    history.push(add(1, false));
    let before: Vec<HistoryAction> = (0..history.end()).map(|i| history.applied_action(i).clone()).collect();
    let item = add(7, true);
    history.push(item.clone());
    assert_eq!(history.undo(), Some(&item));
    let after: Vec<HistoryAction> = (0..history.end()).map(|i| history.applied_action(i).clone()).collect();
    assert_eq!(before, after);
}

#[test]
fn random_seed_follows_applied_count() {
    let mut history = History::default();
    assert_eq!(history.random_seed(), 0);
    history.push(add(0, true));
    history.push(add(1, true));
    assert_eq!(history.random_seed(), 2);
}

#[test]
fn apply_add_reset_and_clear() {
    let area = PixelArea::with_black_color(vec![PixelRange::new_total(0, 10)]);
    let added = add(20, true).apply(vec![area.clone()]);
    assert_eq!(added.len(), 2);
    let reset = HistoryAction { kind: HistoryActionKind::Reset, layer: None, checkpoint: true }.apply(added.clone());
    assert!(reset.is_empty());
    let clear = HistoryAction {
        kind: HistoryActionKind::Clear(vec![PixelRange::new_total(0, 5), PixelRange::new_total(20, 1)]),
        layer: None,
        checkpoint: true,
    };
    let cleared = clear.apply(added);
    assert_eq!(cleared, vec![PixelArea::with_black_color(vec![PixelRange::new_total(5, 5)])]);
}

#[test]
fn clean_again_only_at_the_saved_actions() {
    let mut h = History::default();
    h.push(add(1, true));
    h.push(add(2, true));
    h.mark_not_dirty();
    assert!(!h.is_dirty());
    h.undo();
    assert!(h.is_dirty());
    h.redo();
    assert!(!h.is_dirty());
    h.push(add(3, true));
    assert!(h.is_dirty());
    h.undo();
    assert!(!h.is_dirty());
    h.undo();
    h.push(add(4, true));
    assert!(h.is_dirty());
    h.undo();
    h.redo();
    assert!(h.is_dirty());
}
