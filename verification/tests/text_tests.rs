//! The buffer, its addressing arithmetic, and change inversion.

use code_editor::text::{Change, Drift, Length, Position, Text};

fn text_of(lines: &[&str]) -> Text {
    Text::from_lines(lines.iter().map(|s| s.to_string()).collect())
}

fn lines_of(text: &Text) -> Vec<String> {
    text.as_lines().clone()
}

fn pos(line_index: usize, char_index: usize) -> Position {
    Position { line_index, char_index }
}

fn len(line_count: usize, char_count: usize) -> Length {
    Length { line_count, char_count }
}

#[test]
fn new_text_is_one_empty_line() {
    let t = Text::new();
    assert_eq!(lines_of(&t), vec![String::new()]);
    assert!(t.is_empty());
    assert_eq!(t.length(), len(0, 0));
}

#[test]
fn from_no_lines_is_empty_document() {
    let t = Text::from_lines(Vec::new());
    assert_eq!(lines_of(&t), vec![String::new()]);
}

#[test]
fn length_spans_to_last_line() {
    let t = text_of(&["ab", "cde", "f"]);
    assert_eq!(t.length(), len(2, 1));
    assert!(!t.is_empty());
}

#[test]
fn slice_within_one_line() {
    let t = text_of(&["hello world"]);
    let s = t.slice(pos(0, 6), len(0, 5));
    assert_eq!(lines_of(&s), vec!["world".to_string()]);
}

#[test]
fn slice_across_lines() {
    let t = text_of(&["abc", "def", "ghi"]);
    let s = t.slice(pos(0, 2), len(2, 1));
    assert_eq!(
        lines_of(&s),
        vec!["c".to_string(), "def".to_string(), "g".to_string()]
    );
}

#[test]
fn insert_single_line() {
    let mut t = text_of(&["hrd"]);
    t.apply_change(&Change::Insert(pos(0, 1), text_of(&["ea"])));
    assert_eq!(lines_of(&t), vec!["heard".to_string()]);
}

#[test]
fn insert_multi_line_splits_target() {
    let mut t = text_of(&["axd"]);
    t.apply_change(&Change::Insert(pos(0, 1), text_of(&["b", "c"])));
    assert_eq!(lines_of(&t), vec!["ab".to_string(), "cxd".to_string()]);
}

#[test]
fn delete_within_one_line() {
    let mut t = text_of(&["heard"]);
    t.apply_change(&Change::Delete(pos(0, 1), len(0, 2)));
    assert_eq!(lines_of(&t), vec!["hrd".to_string()]);
}

#[test]
fn delete_across_lines_merges() {
    let mut t = text_of(&["ab", "cd", "ef"]);
    t.apply_change(&Change::Delete(pos(0, 1), len(2, 1)));
    assert_eq!(lines_of(&t), vec!["af".to_string()]);
}

#[test]
fn invert_insert_is_delete_of_inserted_extent() {
    let t = text_of(&["axd"]);
    let ins = Change::Insert(pos(0, 1), text_of(&["b", "c"]));
    let inv = ins.invert(&t);
    match inv {
        Change::Delete(p, l) => {
            assert_eq!(p, pos(0, 1));
            assert_eq!(l, len(1, 1));
        }
        _ => panic!("inverting an insertion must give a deletion"),
    }
}

#[test]
fn invert_delete_captures_removed_text() {
    let t = text_of(&["ab", "cd", "ef"]);
    let del = Change::Delete(pos(0, 1), len(2, 1));
    let inv = del.invert(&t);
    match inv {
        Change::Insert(p, captured) => {
            assert_eq!(p, pos(0, 1));
            assert_eq!(
                lines_of(&captured),
                vec!["b".to_string(), "cd".to_string(), "e".to_string()]
            );
        }
        _ => panic!("inverting a deletion must give an insertion"),
    }
}

#[test]
fn change_then_inverse_restores_text() {
    let original = text_of(&["ab", "cd", "ef"]);
    let mut t = original.duplicate();
    let del = Change::Delete(pos(0, 1), len(2, 1));
    let inv = del.invert(&t);
    t.apply_change(&del);
    t.apply_change(&inv);
    assert_eq!(lines_of(&t), lines_of(&original));
}

#[test]
fn remap_before_insertion_is_unchanged() {
    let ins = Change::Insert(pos(1, 2), text_of(&["xy"]));
    assert_eq!(pos(0, 7).apply_change(&ins, Drift::After), pos(0, 7));
    assert_eq!(pos(1, 1).apply_change(&ins, Drift::Before), pos(1, 1));
}

#[test]
fn remap_at_insertion_point_follows_drift() {
    let ins = Change::Insert(pos(0, 2), text_of(&["xy"]));
    assert_eq!(pos(0, 2).apply_change(&ins, Drift::After), pos(0, 2));
    assert_eq!(pos(0, 2).apply_change(&ins, Drift::Before), pos(0, 4));
}

#[test]
fn remap_after_insertion_shifts_by_extent() {
    let one_line = Change::Insert(pos(0, 2), text_of(&["xy"]));
    assert_eq!(pos(0, 5).apply_change(&one_line, Drift::After), pos(0, 7));
    let two_lines = Change::Insert(pos(0, 2), text_of(&["x", "y"]));
    assert_eq!(pos(0, 5).apply_change(&two_lines, Drift::After), pos(1, 4));
    assert_eq!(pos(3, 5).apply_change(&two_lines, Drift::After), pos(4, 5));
}

#[test]
fn remap_inside_deletion_collapses_to_start() {
    let del = Change::Delete(pos(0, 2), len(1, 3));
    assert_eq!(pos(0, 4).apply_change(&del, Drift::After), pos(0, 2));
    assert_eq!(pos(1, 2).apply_change(&del, Drift::Before), pos(0, 2));
}

#[test]
fn remap_after_deletion_keeps_distance_from_end() {
    let del = Change::Delete(pos(0, 2), len(1, 3));
    assert_eq!(pos(1, 5).apply_change(&del, Drift::After), pos(0, 4));
    assert_eq!(pos(2, 1).apply_change(&del, Drift::After), pos(1, 1));
}

#[test]
fn position_order_is_lexicographic() {
    assert!(pos(0, 9).lt(pos(1, 0)));
    assert!(pos(1, 0).lt(pos(1, 1)));
    assert!(pos(1, 1).le(pos(1, 1)));
    assert_eq!(pos(0, 3).min(pos(1, 0)), pos(0, 3));
    assert_eq!(pos(0, 3).max(pos(1, 0)), pos(1, 0));
}

#[test]
fn position_and_length_arithmetic_carry_lines() {
    assert_eq!(pos(1, 3).add(len(0, 2)), pos(1, 5));
    assert_eq!(pos(1, 3).add(len(2, 4)), pos(3, 4));
    assert_eq!(pos(3, 4).sub(pos(1, 3)), len(2, 4));
    assert_eq!(len(0, 3).add(len(0, 4)), len(0, 7));
    assert_eq!(len(1, 3).add(len(2, 4)), len(3, 4));
    assert_eq!(Length::empty(), len(0, 0));
}
