//! Grouped undo/redo driven directly on a `History`.

use code_editor::history::{EditKind, History};
use code_editor::selection::Selection;
use code_editor::state::SessionId;
use code_editor::text::{Change, Length, Position, Text};

fn text_of(lines: &[&str]) -> Text {
    Text::from_lines(lines.iter().map(|s| s.to_string()).collect())
}

fn lines_of(history: &History) -> Vec<String> {
    history.as_text().as_lines().clone()
}

fn pos(line_index: usize, char_index: usize) -> Position {
    Position { line_index, char_index }
}

#[test]
fn undo_on_empty_history_is_a_no_op() {
    let mut h = History::new();
    let sel = Selection::new();
    let mut changes: Vec<Change> = Vec::new();
    assert!(h.undo(&sel, &mut changes).is_none());
    assert!(changes.is_empty());
    assert_eq!(lines_of(&h), vec![String::new()]);
    let mut changes2: Vec<Change> = Vec::new();
    assert!(h.redo(&sel, &mut changes2).is_none());
}

#[test]
fn round_trip_restores_text_and_selection() {
    let mut h = History::from_text(text_of(&["hello"]));
    let sel = Selection::new();
    let mut log: Vec<Change> = Vec::new();
    h.edit(SessionId::new(1), EditKind::Insert, &sel);
    h.apply_change(
        Change::Insert(pos(0, 5), text_of(&[" world"])),
        &mut log,
    );
    h.apply_change(
        Change::Delete(pos(0, 0), Length { line_count: 0, char_count: 1 }),
        &mut log,
    );
    assert_eq!(lines_of(&h), vec!["ello world".to_string()]);

    let mut replayed: Vec<Change> = Vec::new();
    let restored = h.undo(&sel, &mut replayed).expect("one group to undo");
    assert_eq!(lines_of(&h), vec!["hello".to_string()]);
    assert_eq!(restored.as_regions(), sel.as_regions());
    assert_eq!(replayed.len(), 2);
}

#[test]
fn redo_after_undo_reproduces_the_edit_exactly() {
    let mut h = History::from_text(text_of(&["ab", "cd"]));
    let sel = Selection::new();
    let mut log: Vec<Change> = Vec::new();
    h.edit(SessionId::new(7), EditKind::Delete, &sel);
    h.apply_change(
        Change::Delete(pos(0, 1), Length { line_count: 1, char_count: 1 }),
        &mut log,
    );
    assert_eq!(lines_of(&h), vec!["ad".to_string()]);

    let mut replayed: Vec<Change> = Vec::new();
    h.undo(&sel, &mut replayed).expect("one group to undo");
    assert_eq!(lines_of(&h), vec!["ab".to_string(), "cd".to_string()]);

    let mut replayed2: Vec<Change> = Vec::new();
    let restored = h.redo(&sel, &mut replayed2).expect("one group to redo");
    assert_eq!(lines_of(&h), vec!["ad".to_string()]);
    assert_eq!(restored.as_regions(), sel.as_regions());
}

#[test]
fn same_session_and_kind_coalesce_into_one_group() {
    let mut h = History::new();
    let sel = Selection::new();
    let mut log: Vec<Change> = Vec::new();
    let session = SessionId::new(1);
    h.edit(session, EditKind::Insert, &sel);
    h.apply_change(Change::Insert(pos(0, 0), text_of(&["a"])), &mut log);
    h.edit(session, EditKind::Insert, &sel);
    h.apply_change(Change::Insert(pos(0, 1), text_of(&["b"])), &mut log);
    assert_eq!(h.undo_group_count(), 1);
    let mut replayed: Vec<Change> = Vec::new();
    h.undo(&sel, &mut replayed).expect("one group to undo");
    assert_eq!(lines_of(&h), vec![String::new()]);
}

#[test]
fn different_kind_or_session_starts_a_new_group() {
    let mut h = History::new();
    let sel = Selection::new();
    let mut log: Vec<Change> = Vec::new();
    h.edit(SessionId::new(1), EditKind::Insert, &sel);
    h.apply_change(Change::Insert(pos(0, 0), text_of(&["ab"])), &mut log);
    h.edit(SessionId::new(1), EditKind::Delete, &sel);
    h.apply_change(
        Change::Delete(pos(0, 0), Length { line_count: 0, char_count: 1 }),
        &mut log,
    );
    assert_eq!(h.undo_group_count(), 2);

    let mut h2 = History::new();
    let mut log2: Vec<Change> = Vec::new();
    h2.edit(SessionId::new(1), EditKind::Insert, &sel);
    h2.apply_change(Change::Insert(pos(0, 0), text_of(&["a"])), &mut log2);
    h2.edit(SessionId::new(2), EditKind::Insert, &sel);
    h2.apply_change(Change::Insert(pos(0, 1), text_of(&["b"])), &mut log2);
    assert_eq!(h2.undo_group_count(), 2);
}

#[test]
fn forcing_a_new_group_breaks_coalescing() {
    let mut h = History::new();
    let sel = Selection::new();
    let mut log: Vec<Change> = Vec::new();
    let session = SessionId::new(1);
    h.edit(session, EditKind::Insert, &sel);
    h.apply_change(Change::Insert(pos(0, 0), text_of(&["a"])), &mut log);
    h.force_new_undo_group();
    h.edit(session, EditKind::Insert, &sel);
    h.apply_change(Change::Insert(pos(0, 1), text_of(&["b"])), &mut log);
    assert_eq!(h.undo_group_count(), 2);
}

#[test]
fn an_edit_invalidates_redo_history() {
    let mut h = History::new();
    let sel = Selection::new();
    let mut log: Vec<Change> = Vec::new();
    h.edit(SessionId::new(1), EditKind::Insert, &sel);
    h.apply_change(Change::Insert(pos(0, 0), text_of(&["a"])), &mut log);
    let mut replayed: Vec<Change> = Vec::new();
    h.undo(&sel, &mut replayed).expect("one group to undo");
    assert_eq!(h.redo_group_count(), 1);
    h.edit(SessionId::new(1), EditKind::Insert, &sel);
    assert_eq!(h.redo_group_count(), 0);
}
