//! The orchestration layer: sessions editing shared documents.

use code_editor::selection::{Affinity, Cursor};
use code_editor::state::State;
use code_editor::text::{Position, Text};

fn pos(line_index: usize, char_index: usize) -> Position {
    Position { line_index, char_index }
}

fn cursor(line_index: usize, char_index: usize) -> Cursor {
    Cursor { position: pos(line_index, char_index), affinity: Affinity::Before }
}

fn text_of(lines: &[&str]) -> Text {
    Text::from_lines(lines.iter().map(|s| s.to_string()).collect())
}

fn doc_lines(state: &State, session: code_editor::state::SessionId) -> Vec<String> {
    state.layout(session).as_text().as_lines().clone()
}

#[test]
fn insert_undo_redo_on_the_empty_document() {
    let mut state = State::new();
    let document = state.open_document(Text::new());
    let session = state.open_session(document);

    state.insert(session, text_of(&["hi"]));
    assert_eq!(doc_lines(&state, session), vec!["hi".to_string()]);

    state.undo(session);
    assert_eq!(doc_lines(&state, session), vec![String::new()]);
    let regions = state.selection_regions(session);
    assert_eq!(regions.len(), 1);
    assert_eq!(regions[0].cursor.position, pos(0, 0));
    assert_eq!(regions[0].anchor, pos(0, 0));

    state.redo(session);
    assert_eq!(doc_lines(&state, session), vec!["hi".to_string()]);
}

#[test]
fn deleting_two_regions_is_one_undo_step() {
    let mut state = State::new();
    let document = state.open_document(text_of(&["abcdefgh"]));
    let session = state.open_session(document);

    state.set_cursor(session, cursor(0, 0));
    state.update_last_added_cursor(session, cursor(0, 2), false);
    state.add_cursor(session, cursor(0, 5));
    state.update_last_added_cursor(session, cursor(0, 7), false);
    {
        let regions = state.selection_regions(session);
        assert_eq!(regions.len(), 2);
        assert_eq!(regions[0].start(), pos(0, 0));
        assert_eq!(regions[0].end(), pos(0, 2));
        assert_eq!(regions[1].start(), pos(0, 5));
        assert_eq!(regions[1].end(), pos(0, 7));
    }

    state.delete(session);
    assert_eq!(doc_lines(&state, session), vec!["cdeh".to_string()]);

    state.undo(session);
    assert_eq!(doc_lines(&state, session), vec!["abcdefgh".to_string()]);
    let regions = state.selection_regions(session);
    assert_eq!(regions.len(), 2);
    assert_eq!(regions[0].start(), pos(0, 0));
    assert_eq!(regions[0].end(), pos(0, 2));
    assert_eq!(regions[1].start(), pos(0, 5));
    assert_eq!(regions[1].end(), pos(0, 7));
}

#[test]
fn consecutive_insertions_coalesce_and_a_cursor_move_splits_them() {
    let mut state = State::new();
    let document = state.open_document(Text::new());
    let session = state.open_session(document);

    // The selection expands over inserted text (the cursor drifts past it,
    // the anchor stays), so a second insertion replaces the first; both
    // still coalesce into one undo group.
    state.insert(session, text_of(&["a"]));
    assert_eq!(state.undo_count(session), 1);
    state.insert(session, text_of(&["b"]));
    assert_eq!(doc_lines(&state, session), vec!["b".to_string()]);
    assert_eq!(state.undo_count(session), 1);
    state.undo(session);
    assert_eq!(doc_lines(&state, session), vec![String::new()]);

    // A cursor move between insertions forces a second group.
    state.redo(session);
    assert_eq!(doc_lines(&state, session), vec!["b".to_string()]);
    state.set_cursor(session, cursor(0, 1));
    state.insert(session, text_of(&["c"]));
    assert_eq!(doc_lines(&state, session), vec!["bc".to_string()]);
    assert_eq!(state.undo_count(session), 2);
    state.undo(session);
    assert_eq!(doc_lines(&state, session), vec!["b".to_string()]);
}

#[test]
fn edits_from_different_sessions_never_coalesce() {
    let mut state = State::new();
    let document = state.open_document(Text::new());
    let one = state.open_session(document);
    let two = state.open_session(document);

    state.insert(one, text_of(&["a"]));
    assert_eq!(state.undo_count(one), 1);
    // The other session's remapped selection covers the inserted text, so
    // its insertion replaces it - in a second undo group, because the
    // session differs.
    state.insert(two, text_of(&["b"]));
    assert_eq!(doc_lines(&state, one), vec!["b".to_string()]);
    assert_eq!(state.undo_count(one), 2);
}

#[test]
fn other_sessions_of_the_document_are_remapped_through_edits() {
    let mut state = State::new();
    let document = state.open_document(text_of(&["hello"]));
    let editor = state.open_session(document);
    let viewer = state.open_session(document);

    state.set_cursor(viewer, cursor(0, 3));
    state.set_cursor(editor, cursor(0, 0));
    state.insert(editor, text_of(&["xy"]));
    assert_eq!(doc_lines(&state, viewer), vec!["xyhello".to_string()]);
    let regions = state.selection_regions(viewer);
    assert_eq!(regions[0].cursor.position, pos(0, 5));
}

#[test]
fn undo_on_a_fresh_document_changes_nothing() {
    let mut state = State::new();
    let document = state.open_document(text_of(&["abc"]));
    let session = state.open_session(document);
    state.undo(session);
    assert_eq!(doc_lines(&state, session), vec!["abc".to_string()]);
    assert_eq!(state.undo_count(session), 0);
    assert_eq!(state.redo_count(session), 0);
}

#[test]
fn selection_replace_inserts_at_the_span_start() {
    let mut state = State::new();
    let document = state.open_document(text_of(&["hello world"]));
    let session = state.open_session(document);
    state.set_cursor(session, cursor(0, 0));
    state.update_last_added_cursor(session, cursor(0, 5), false);
    state.insert(session, text_of(&["goodbye"]));
    assert_eq!(doc_lines(&state, session), vec!["goodbye world".to_string()]);
    state.undo(session);
    assert_eq!(doc_lines(&state, session), vec!["hello world".to_string()]);
}

#[test]
fn cursors_move_by_one_character_and_wrap_at_line_ends() {
    let mut state = State::new();
    let document = state.open_document(text_of(&["ab", "cd"]));
    let session = state.open_session(document);

    state.set_cursor(session, cursor(0, 2));
    state.move_all_cursors_right(session, true);
    assert_eq!(state.selection_regions(session)[0].cursor.position, pos(1, 0));
    state.move_all_cursors_left(session, true);
    assert_eq!(state.selection_regions(session)[0].cursor.position, pos(0, 2));

    state.set_cursor(session, cursor(0, 0));
    state.move_all_cursors_left(session, true);
    assert_eq!(state.selection_regions(session)[0].cursor.position, pos(0, 0));

    state.set_cursor(session, cursor(1, 2));
    state.move_all_cursors_right(session, true);
    assert_eq!(state.selection_regions(session)[0].cursor.position, pos(1, 2));
}

#[test]
fn multi_line_insert_splices_lines() {
    let mut state = State::new();
    let document = state.open_document(text_of(&["ad"]));
    let session = state.open_session(document);
    state.set_cursor(session, cursor(0, 1));
    state.insert(session, text_of(&["b", "c"]));
    assert_eq!(
        doc_lines(&state, session),
        vec!["ab".to_string(), "cd".to_string()]
    );
    state.undo(session);
    assert_eq!(doc_lines(&state, session), vec!["ad".to_string()]);
}

#[test]
fn layout_reflects_the_session_wrap_caches() {
    let mut state = State::new();
    let document = state.open_document(text_of(&["short"]));
    let session = state.open_session(document);
    let layout = state.layout(session);
    assert_eq!(layout.line_count(), 1);
    assert_eq!(layout.line(0).row_count(), 1);
    assert_eq!(layout.line(0).column_count, 5);
}

#[test]
fn wrap_settings_recompute_the_caches() {
    let mut state = State::new();
    let document = state.open_document(text_of(&["aaaa bbbb cccc"]));
    let session = state.open_session(document);
    assert_eq!(state.layout(session).line(0).row_count(), 1);
    state.set_wrap_settings(session, 9, 4);
    let layout = state.layout(session);
    assert_eq!(layout.line(0).wrap_char_indices.as_slice(), &[9]);
    assert_eq!(layout.line(0).row_count(), 2);
    assert_eq!(layout.line(0).wrap_indentation_width, 0);
}
