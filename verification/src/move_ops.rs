//! Horizontal cursor motion.
//!
//! The core addresses characters, so one character is the unit of motion:
//! stepping left moves to the previous character slot on the line, or to
//! the end of the previous line, or stays put at the document start;
//! stepping right mirrors this at the line and document end.

use crate::selection::Cursor;
use crate::text::{Position, PositionModel, TextModel};
use vstd::prelude::*;

verus! {

/// Where one step leftward carries a position of `t`.
pub open spec fn move_left_model(p: PositionModel, t: TextModel) -> PositionModel {
    if p.character > 0 {
        PositionModel { line: p.line, character: p.character - 1 }
    } else if p.line > 0 {
        PositionModel { line: p.line - 1, character: t[p.line - 1].len() as int }
    } else {
        p
    }
}

/// Where one step rightward carries a position of `t`.
pub open spec fn move_right_model(p: PositionModel, t: TextModel) -> PositionModel {
    if p.character < t[p.line].len() {
        PositionModel { line: p.line, character: p.character + 1 }
    } else if p.line < t.len() - 1 {
        PositionModel { line: p.line + 1, character: 0 }
    } else {
        p
    }
}

fn is_at_first_line(position: Position) -> (r: bool)
    ensures
        r == (position@.line == 0),
{
    position.line_index == 0
}

fn is_at_last_line(position: Position, lines: &Vec<String>) -> (r: bool)
    requires
        lines@.len() >= 1,
        position@.line < lines@.len(),
    ensures
        r == (position@.line == lines.deep_view().len() - 1),
{
    position.line_index == lines.len() - 1
}

fn is_at_start_of_line(position: Position) -> (r: bool)
    ensures
        r == (position@.character == 0),
{
    position.char_index == 0
}

fn is_at_end_of_line(position: Position, lines: &Vec<String>) -> (r: bool)
    requires
        position@.in_text(lines.deep_view()),
    ensures
        r == (position@.character == lines.deep_view()[position@.line].len()),
{
    position.char_index == lines[position.line_index].as_str().unicode_len()
}

fn move_to_prev_grapheme(position: Position) -> (r: Position)
    requires
        position@.character > 0,
    ensures
        r@ == (PositionModel { line: position@.line, character: position@.character - 1 }),
{
    Position { line_index: position.line_index, char_index: position.char_index - 1 }
}

fn move_to_next_grapheme(position: Position, lines: &Vec<String>) -> (r: Position)
    requires
        position@.in_text(lines.deep_view()),
        position@.character < lines.deep_view()[position@.line].len(),
    ensures
        r@ == (PositionModel { line: position@.line, character: position@.character + 1 }),
{
    let line_len = lines[position.line_index].as_str().unicode_len();
    assert(position@.character < line_len);
    Position { line_index: position.line_index, char_index: position.char_index + 1 }
}

fn move_to_end_of_prev_line(position: Position, lines: &Vec<String>) -> (r: Position)
    requires
        position@.line >= 1,
        position@.line < lines@.len(),
    ensures
        r@ == (PositionModel {
            line: position@.line - 1,
            character: lines.deep_view()[position@.line - 1].len() as int,
        }),
{
    let prev_line = position.line_index - 1;
    Position { line_index: prev_line, char_index: lines[prev_line].as_str().unicode_len() }
}

fn move_to_start_of_next_line(position: Position, lines: &Vec<String>) -> (r: Position)
    requires
        position@.line + 1 < lines@.len(),
    ensures
        r@ == (PositionModel { line: position@.line + 1, character: 0 }),
{
    let line_total = lines.len();
    assert(position@.line + 1 < line_total);
    Position { line_index: position.line_index + 1, char_index: 0 }
}

/// Steps the cursor one character leftward (or to the end of the previous
/// line, or leaves it at the document start), keeping its affinity.
pub fn move_left(cursor: Cursor, lines: &Vec<String>) -> (r: Cursor)
    requires
        lines@.len() >= 1,
        cursor.position@.in_text(lines.deep_view()),
    ensures
        r.position@ == move_left_model(cursor.position@, lines.deep_view()),
        r.position@.in_text(lines.deep_view()),
        r.affinity == cursor.affinity,
{
    let position = cursor.position;
    let new_position = if !is_at_start_of_line(position) {
        move_to_prev_grapheme(position)
    } else if !is_at_first_line(position) {
        move_to_end_of_prev_line(position, lines)
    } else {
        position
    };
    Cursor { position: new_position, affinity: cursor.affinity }
}

/// Steps the cursor one character rightward (or to the start of the next
/// line, or leaves it at the document end), keeping its affinity.
pub fn move_right(cursor: Cursor, lines: &Vec<String>) -> (r: Cursor)
    requires
        lines@.len() >= 1,
        cursor.position@.in_text(lines.deep_view()),
    ensures
        r.position@ == move_right_model(cursor.position@, lines.deep_view()),
        r.position@.in_text(lines.deep_view()),
        r.affinity == cursor.affinity,
{
    let position = cursor.position;
    let new_position = if !is_at_end_of_line(position, lines) {
        move_to_next_grapheme(position, lines)
    } else if !is_at_last_line(position, lines) {
        move_to_start_of_next_line(position, lines)
    } else {
        position
    };
    Cursor { position: new_position, affinity: cursor.affinity }
}

} // verus!
