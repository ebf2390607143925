//! The line-indexed text buffer and its addressing arithmetic.
//!
//! A `Text` is a non-empty sequence of lines; a `Position` addresses a
//! character slot inside it; a `Length` is the two-dimensional distance
//! between two positions. A `Change` inserts or deletes a span, and can be
//! inverted against the buffer it is about to modify.
//!
//! The mathematical model of a buffer is `Seq<Seq<char>>` (one inner
//! sequence per line); positions and lengths are mirrored by ghost structs
//! over `int` so that contracts never truncate.

use vstd::prelude::*;

verus! {

/// Mathematical model of a buffer: one character sequence per line.
pub type TextModel = Seq<Seq<char>>;

/// Ghost mirror of `Position` over unbounded integers.
pub ghost struct PositionModel {
    pub line: int,
    pub character: int,
}

/// Ghost mirror of `Length` over unbounded integers.
pub ghost struct LengthModel {
    pub line_count: int,
    pub char_count: int,
}

impl LengthModel {
    /// The zero distance.
    pub open spec fn zero() -> LengthModel {
        LengthModel { line_count: 0, char_count: 0 }
    }

    /// Distance addition; a multi-line right operand resets the character
    /// component, a same-line one accumulates it.
    pub open spec fn plus(self, other: LengthModel) -> LengthModel {
        if other.line_count == 0 {
            LengthModel { line_count: self.line_count, char_count: self.char_count + other.char_count }
        } else {
            LengthModel {
                line_count: self.line_count + other.line_count,
                char_count: other.char_count,
            }
        }
    }

    /// Distance subtraction, the partial inverse of `plus`.
    pub open spec fn minus(self, other: LengthModel) -> LengthModel {
        if self.line_count == other.line_count {
            LengthModel { line_count: 0, char_count: self.char_count - other.char_count }
        } else {
            LengthModel { line_count: self.line_count - other.line_count, char_count: self.char_count }
        }
    }
}

impl PositionModel {
    pub open spec fn le(self, other: PositionModel) -> bool {
        self.line < other.line || (self.line == other.line && self.character <= other.character)
    }

    pub open spec fn lt(self, other: PositionModel) -> bool {
        self.line < other.line || (self.line == other.line && self.character < other.character)
    }

    /// The position `self` shifted forward by `length`.
    pub open spec fn plus(self, length: LengthModel) -> PositionModel {
        if length.line_count == 0 {
            PositionModel { line: self.line, character: self.character + length.char_count }
        } else {
            PositionModel { line: self.line + length.line_count, character: length.char_count }
        }
    }

    /// The distance from `other` (the earlier position) to `self`.
    pub open spec fn minus(self, other: PositionModel) -> LengthModel {
        if self.line == other.line {
            LengthModel { line_count: 0, char_count: self.character - other.character }
        } else {
            LengthModel { line_count: self.line - other.line, char_count: self.character }
        }
    }

    /// `self` addresses a character slot of `t`: a line of `t` and an
    /// offset at most that line's length.
    pub open spec fn in_text(self, t: TextModel) -> bool {
        0 <= self.line < t.len() && 0 <= self.character <= t[self.line].len()
    }
}

/// A position in a buffer: a line number and a character offset within that
/// line. Totally ordered lexicographically.
#[derive(Clone, Copy, Debug, PartialEq, Eq, Structural)]
pub struct Position {
    pub line_index: usize,
    pub char_index: usize,
}

impl View for Position {
    type V = PositionModel;

    open spec fn view(&self) -> PositionModel {
        PositionModel { line: self.line_index as int, character: self.char_index as int }
    }
}

/// A two-dimensional distance between positions: a number of line breaks
/// and, on the last line of the span, a number of characters.
#[derive(Clone, Copy, Debug, PartialEq, Eq, Structural)]
pub struct Length {
    pub line_count: usize,
    pub char_count: usize,
}

impl View for Length {
    type V = LengthModel;

    open spec fn view(&self) -> LengthModel {
        LengthModel { line_count: self.line_count as int, char_count: self.char_count as int }
    }
}

impl Position {
    /// The first position of any buffer.
    pub fn origin() -> (r: Position)
        ensures
            r@ == (PositionModel { line: 0, character: 0 }),
    {
        Position { line_index: 0, char_index: 0 }
    }

    pub fn le(self, other: Position) -> (r: bool)
        ensures
            r == self@.le(other@),
    {
        self.line_index < other.line_index || (self.line_index == other.line_index
            && self.char_index <= other.char_index)
    }

    pub fn lt(self, other: Position) -> (r: bool)
        ensures
            r == self@.lt(other@),
    {
        self.line_index < other.line_index || (self.line_index == other.line_index
            && self.char_index < other.char_index)
    }

    /// The earlier of two positions.
    pub fn min(self, other: Position) -> (r: Position)
        ensures
            r == if self@.le(other@) {
                self
            } else {
                other
            },
    {
        if self.le(other) {
            self
        } else {
            other
        }
    }

    /// The later of two positions.
    pub fn max(self, other: Position) -> (r: Position)
        ensures
            r == if self@.le(other@) {
                other
            } else {
                self
            },
    {
        if self.le(other) {
            other
        } else {
            self
        }
    }

    /// Shift this position forward by `length`.
    pub fn add(self, length: Length) -> (r: Position)
        requires
            length@.line_count == 0 ==> self@.character + length@.char_count <= usize::MAX,
            length@.line_count != 0 ==> self@.line + length@.line_count <= usize::MAX,
        ensures
            r@ == self@.plus(length@),
    {
        if length.line_count == 0 {
            Position { line_index: self.line_index, char_index: self.char_index + length.char_count }
        } else {
            Position {
                line_index: self.line_index + length.line_count,
                char_index: length.char_count,
            }
        }
    }

    /// The distance from `other` (which must not be later) to `self`.
    pub fn sub(self, other: Position) -> (r: Length)
        requires
            other@.le(self@),
        ensures
            r@ == self@.minus(other@),
    {
        if self.line_index == other.line_index {
            Length { line_count: 0, char_count: self.char_index - other.char_index }
        } else {
            Length { line_count: self.line_index - other.line_index, char_count: self.char_index }
        }
    }
}

impl Length {
    /// The zero distance.
    pub fn empty() -> (r: Length)
        ensures
            r@ == LengthModel::zero(),
    {
        Length { line_count: 0, char_count: 0 }
    }

    pub fn is_zero(self) -> (r: bool)
        ensures
            r == (self@ == LengthModel::zero()),
    {
        self.line_count == 0 && self.char_count == 0
    }

    /// Distance addition, carrying across the line boundary.
    pub fn add(self, other: Length) -> (r: Length)
        requires
            other@.line_count == 0 ==> self@.char_count + other@.char_count <= usize::MAX,
            other@.line_count != 0 ==> self@.line_count + other@.line_count <= usize::MAX,
        ensures
            r@ == self@.plus(other@),
    {
        if other.line_count == 0 {
            Length { line_count: self.line_count, char_count: self.char_count + other.char_count }
        } else {
            Length {
                line_count: self.line_count + other.line_count,
                char_count: other.char_count,
            }
        }
    }

    /// Distance subtraction, the partial inverse of `add`.
    pub fn sub(self, other: Length) -> (r: Length)
        requires
            self@.line_count == other@.line_count ==> other@.char_count <= self@.char_count,
            self@.line_count != other@.line_count ==> other@.line_count <= self@.line_count,
        ensures
            r@ == self@.minus(other@),
    {
        if self.line_count == other.line_count {
            Length { line_count: 0, char_count: self.char_count - other.char_count }
        } else {
            Length { line_count: self.line_count - other.line_count, char_count: self.char_count }
        }
    }
}

/// Tie-break rule for remapping a position that sits exactly at an
/// insertion point: `Before` moves past the inserted text, `After` stays.
#[derive(Clone, Copy, Debug, PartialEq, Eq, Structural)]
pub enum Drift {
    Before,
    After,
}

/// A buffer model is never empty: an empty document is one empty line.
pub open spec fn text_wf(t: TextModel) -> bool {
    t.len() >= 1
}

/// The distance from the origin to the end of the buffer.
pub open spec fn text_length(t: TextModel) -> LengthModel {
    LengthModel { line_count: t.len() - 1, char_count: t.last().len() as int }
}

/// The span starting at `p` of extent `l` lies inside `t`.
pub open spec fn span_in_text(t: TextModel, p: PositionModel, l: LengthModel) -> bool {
    &&& p.in_text(t)
    &&& l.line_count >= 0
    &&& l.char_count >= 0
    &&& p.plus(l).in_text(t)
}

/// The sub-text of `t` covered by the span at `p` of extent `l`.
pub open spec fn slice_model(t: TextModel, p: PositionModel, l: LengthModel) -> TextModel {
    let e = p.plus(l);
    if l.line_count == 0 {
        seq![t[p.line].subrange(p.character, e.character)]
    } else {
        seq![t[p.line].skip(p.character)] + t.subrange(p.line + 1, e.line) + seq![
            t[e.line].take(e.character),
        ]
    }
}

/// `t` with the lines of `x` spliced in at `p`: the target line is split at
/// `p`, its prefix heads the first inserted line and its suffix tails the
/// last one.
pub open spec fn insert_model(t: TextModel, p: PositionModel, x: TextModel) -> TextModel {
    let prefix = t[p.line].take(p.character);
    let suffix = t[p.line].skip(p.character);
    let mid = if x.len() == 1 {
        seq![prefix + x[0] + suffix]
    } else {
        seq![prefix + x[0]] + x.subrange(1, x.len() - 1) + seq![x.last() + suffix]
    };
    t.take(p.line) + mid + t.skip(p.line + 1)
}

/// `t` with the span at `p` of extent `l` removed: the line range collapses
/// to one line made of the prefix before the span and the suffix after it.
pub open spec fn delete_model(t: TextModel, p: PositionModel, l: LengthModel) -> TextModel {
    let e = p.plus(l);
    t.take(p.line) + seq![t[p.line].take(p.character) + t[e.line].skip(e.character)] + t.skip(
        e.line + 1,
    )
}

/// The authoritative line-indexed buffer.
#[derive(Clone, Debug)]
pub struct Text {
    lines: Vec<String>,
}

impl View for Text {
    type V = TextModel;

    closed spec fn view(&self) -> TextModel {
        self.lines.deep_view()
    }
}

/// Appends one line, tracking the deep view.
fn push_line(lines: &mut Vec<String>, line: String)
    ensures
        final(lines).deep_view() == old(lines).deep_view().push(line@),
{
    lines.push(line);
    proof {
        assert(lines.deep_view() =~~= old(lines).deep_view().push(line@));
    }
}

/// Appends clones of `src[from..to]`, tracking the deep view.
fn extend_lines(dst: &mut Vec<String>, src: &Vec<String>, from: usize, to: usize)
    requires
        from <= to <= src@.len(),
    ensures
        final(dst).deep_view() == old(dst).deep_view() + src.deep_view().subrange(
            from as int,
            to as int,
        ),
{
    let mut i = from;
    while i < to
        invariant
            from <= i <= to <= src@.len(),
            dst.deep_view() == old(dst).deep_view() + src.deep_view().subrange(
                from as int,
                i as int,
            ),
        decreases to - i,
    {
        let line = src[i].clone();
        assert(line@ == src.deep_view()[i as int]);
        push_line(dst, line);
        i += 1;
        proof {
            assert(dst.deep_view() =~~= old(dst).deep_view() + src.deep_view().subrange(
                from as int,
                i as int,
            ));
        }
    }
    proof {
        assert(dst.deep_view() =~~= old(dst).deep_view() + src.deep_view().subrange(
            from as int,
            to as int,
        ));
    }
}

impl Text {
    /// The buffer is well formed: it has at least one line.
    pub open spec fn wf(&self) -> bool {
        self@.len() >= 1
    }

    /// An empty document: one empty line.
    pub fn new() -> (r: Text)
        ensures
            r.wf(),
            r@ == seq![Seq::<char>::empty()],
    {
        let mut lines: Vec<String> = Vec::new();
        lines.push(String::new());
        let r = Text { lines };
        proof {
            assert(r@ =~~= seq![Seq::<char>::empty()]);
        }
        r
    }

    /// Wraps explicit lines as a buffer; no lines at all make the empty
    /// document.
    pub fn from_lines(lines: Vec<String>) -> (r: Text)
        ensures
            r.wf(),
            lines@.len() >= 1 ==> r@ == lines.deep_view(),
            lines@.len() == 0 ==> r@ == seq![Seq::<char>::empty()],
    {
        let mut lines = lines;
        if lines.len() == 0 {
            lines.push(String::new());
            let r = Text { lines };
            proof {
                assert(r@ =~~= seq![Seq::<char>::empty()]);
            }
            r
        } else {
            Text { lines }
        }
    }

    /// A fresh buffer with the same content.
    pub fn duplicate(&self) -> (r: Text)
        ensures
            r@ == self@,
    {
        let mut lines: Vec<String> = Vec::new();
        extend_lines(&mut lines, &self.lines, 0, self.lines.len());
        let r = Text { lines };
        proof {
            assert(r@ =~~= self@);
        }
        r
    }

    pub fn line_count(&self) -> (r: usize)
        ensures
            r == self@.len(),
    {
        self.lines.len()
    }

    /// The line at `index`.
    pub fn line(&self, index: usize) -> (r: &String)
        requires
            index < self@.len(),
        ensures
            r@ == self@[index as int],
    {
        &self.lines[index]
    }

    /// The character count of the line at `index`.
    pub fn line_len(&self, index: usize) -> (r: usize)
        requires
            index < self@.len(),
        ensures
            r == self@[index as int].len(),
    {
        self.lines[index].as_str().unicode_len()
    }

    /// The lines of the buffer.
    pub fn as_lines(&self) -> (r: &Vec<String>)
        ensures
            r.deep_view() == self@,
            r@.len() == self@.len(),
            forall|i: int| 0 <= i < r@.len() ==> r@[i]@ == self@[i],
    {
        &self.lines
    }

    /// The lines of the buffer, by value.
    pub fn into_lines(self) -> (r: Vec<String>)
        ensures
            r.deep_view() == self@,
    {
        self.lines
    }

    /// The distance from the origin to the end of the buffer.
    pub fn length(&self) -> (r: Length)
        requires
            self.wf(),
        ensures
            r@ == text_length(self@),
    {
        let last = self.lines.len() - 1;
        Length { line_count: last, char_count: self.lines[last].as_str().unicode_len() }
    }

    /// Whether the buffer is the empty document.
    pub fn is_empty(&self) -> (r: bool)
        requires
            self.wf(),
        ensures
            r == (text_length(self@) == LengthModel::zero()),
    {
        self.length().is_zero()
    }

    /// Extracts the sub-text covered by the span at `start` of extent
    /// `length`; used to capture the exact text a deletion removes.
    pub fn slice(&self, start: Position, length: Length) -> (r: Text)
        requires
            self.wf(),
            span_in_text(self@, start@, length@),
        ensures
            r.wf(),
            r@ == slice_model(self@, start@, length@),
    {
        let ghost t = self@;
        let ghost e = start@.plus(length@);
        let mut lines: Vec<String> = Vec::new();
        if length.line_count == 0 {
            let line_str = self.lines[start.line_index].as_str();
            let line_len = line_str.unicode_len();
            let end_char = start.char_index + length.char_count;
            let piece = line_str.substring_char(start.char_index, end_char);
            push_line(&mut lines, piece.to_owned());
            let r = Text { lines };
            proof {
                assert(r@ =~~= slice_model(t, start@, length@));
            }
            r
        } else {
            let line_total = self.lines.len();
            assert(start@.line + length@.line_count < line_total);
            let end_line = start.line_index + length.line_count;
            let first_str = self.lines[start.line_index].as_str();
            let first_len = first_str.unicode_len();
            let front = first_str.substring_char(start.char_index, first_len);
            push_line(&mut lines, front.to_owned());
            extend_lines(&mut lines, &self.lines, start.line_index + 1, end_line);
            let back = self.lines[end_line].as_str().substring_char(0, length.char_count);
            push_line(&mut lines, back.to_owned());
            let r = Text { lines };
            proof {
                assert(r@ =~~= slice_model(t, start@, length@));
            }
            r
        }
    }

    /// Applies one change to the buffer in place.
    pub fn apply_change(&mut self, change: &Change)
        requires
            old(self).wf(),
            change_valid(old(self)@, change@),
        ensures
            final(self).wf(),
            final(self)@ == apply_change_model(old(self)@, change@),
    {
        match change {
            Change::Insert(position, text) => self.insert(*position, text),
            Change::Delete(start, length) => self.delete(*start, *length),
        }
    }

    /// Splices the lines of `text` in at `position`.
    fn insert(&mut self, position: Position, text: &Text)
        requires
            old(self).wf(),
            text.wf(),
            position@.in_text(old(self)@),
        ensures
            final(self).wf(),
            final(self)@ == insert_model(old(self)@, position@, text@),
    {
        let ghost t = old(self)@;
        let ghost x = text@;
        let li = position.line_index;
        let line_total = self.lines.len();
        assert(li < line_total);
        let line_str = self.lines[li].as_str();
        let line_len = line_str.unicode_len();
        let prefix = line_str.substring_char(0, position.char_index);
        let suffix = line_str.substring_char(position.char_index, line_len);
        let mut new_lines: Vec<String> = Vec::new();
        extend_lines(&mut new_lines, &self.lines, 0, li);
        let ins_count = text.lines.len();
        if ins_count == 1 {
            let mut combined = prefix.to_owned();
            combined.append(text.lines[0].as_str());
            combined.append(suffix);
            push_line(&mut new_lines, combined);
        } else {
            let mut first_line = prefix.to_owned();
            first_line.append(text.lines[0].as_str());
            push_line(&mut new_lines, first_line);
            extend_lines(&mut new_lines, &text.lines, 1, ins_count - 1);
            let mut last_line = text.lines[ins_count - 1].clone();
            last_line.append(suffix);
            push_line(&mut new_lines, last_line);
        }
        extend_lines(&mut new_lines, &self.lines, li + 1, line_total);
        self.lines = new_lines;
        proof {
            assert(self@ =~~= insert_model(t, position@, x));
        }
    }

    /// Removes the span at `start` of extent `length`.
    fn delete(&mut self, start: Position, length: Length)
        requires
            old(self).wf(),
            span_in_text(old(self)@, start@, length@),
        ensures
            final(self).wf(),
            final(self)@ == delete_model(old(self)@, start@, length@),
    {
        let ghost t = old(self)@;
        let ghost e = start@.plus(length@);
        let line_total = self.lines.len();
        let end_line = if length.line_count == 0 {
            start.line_index
        } else {
            assert(start@.line + length@.line_count < line_total);
            start.line_index + length.line_count
        };
        let end_char = if length.line_count == 0 {
            let line_str = self.lines[start.line_index].as_str();
            let line_len = line_str.unicode_len();
            start.char_index + length.char_count
        } else {
            length.char_count
        };
        assert(e == (PositionModel { line: end_line as int, character: end_char as int }));
        let prefix = self.lines[start.line_index].as_str().substring_char(0, start.char_index);
        let mut combined = prefix.to_owned();
        let end_str = self.lines[end_line].as_str();
        let end_len = end_str.unicode_len();
        let suffix = end_str.substring_char(end_char, end_len);
        combined.append(suffix);
        let mut new_lines: Vec<String> = Vec::new();
        extend_lines(&mut new_lines, &self.lines, 0, start.line_index);
        push_line(&mut new_lines, combined);
        extend_lines(&mut new_lines, &self.lines, end_line + 1, line_total);
        self.lines = new_lines;
        proof {
            assert(self@ =~~= delete_model(t, start@, length@));
        }
    }
}

/// An edit: inserting a sub-text at a position, or deleting a span.
#[derive(Clone, Debug)]
pub enum Change {
    Insert(Position, Text),
    Delete(Position, Length),
}

/// Ghost mirror of `Change`.
pub ghost enum ChangeModel {
    Insert(PositionModel, TextModel),
    Delete(PositionModel, LengthModel),
}

impl View for Change {
    type V = ChangeModel;

    open spec fn view(&self) -> ChangeModel {
        match self {
            Change::Insert(position, text) => ChangeModel::Insert(position@, text@),
            Change::Delete(start, length) => ChangeModel::Delete(start@, length@),
        }
    }
}

/// The change addresses content that `t` actually has.
pub open spec fn change_valid(t: TextModel, c: ChangeModel) -> bool {
    text_wf(t) && match c {
        ChangeModel::Insert(p, x) => p.in_text(t) && x.len() >= 1,
        ChangeModel::Delete(p, l) => span_in_text(t, p, l),
    }
}

/// The buffer after applying `c` to `t`.
pub open spec fn apply_change_model(t: TextModel, c: ChangeModel) -> TextModel {
    match c {
        ChangeModel::Insert(p, x) => insert_model(t, p, x),
        ChangeModel::Delete(p, l) => delete_model(t, p, l),
    }
}

/// The change that undoes `c`, computed against the buffer `t` that `c` is
/// about to modify: inverting an insertion deletes the inserted extent;
/// inverting a deletion re-inserts the exact sub-text the deletion removes.
pub open spec fn invert_model(c: ChangeModel, t: TextModel) -> ChangeModel {
    match c {
        ChangeModel::Insert(p, x) => ChangeModel::Delete(p, text_length(x)),
        ChangeModel::Delete(p, l) => ChangeModel::Insert(p, slice_model(t, p, l)),
    }
}

impl Change {
    /// The change that undoes `self` against the buffer `text` (which
    /// `self` has not yet been applied to).
    pub fn invert(&self, text: &Text) -> (r: Change)
        requires
            text.wf(),
            change_valid(text@, self@),
        ensures
            r@ == invert_model(self@, text@),
            change_valid(apply_change_model(text@, self@), invert_model(self@, text@)),
    {
        proof {
            lemma_invert_valid(text@, self@);
        }
        match self {
            Change::Insert(position, ins) => Change::Delete(*position, ins.length()),
            Change::Delete(start, length) => Change::Insert(*start, text.slice(*start, *length)),
        }
    }
}

/// Where a change made elsewhere in the buffer carries a position `q`:
/// positions before the edit stay put, positions after it shift by the
/// inserted or deleted extent, a position exactly at an insertion point is
/// resolved by `drift`, and a position inside a deleted span collapses to
/// the span's start.
pub open spec fn remap_model(q: PositionModel, c: ChangeModel, drift: Drift) -> PositionModel {
    match c {
        ChangeModel::Insert(p, x) => {
            if q.lt(p) {
                q
            } else if q == p {
                if drift == Drift::Before {
                    p.plus(text_length(x))
                } else {
                    q
                }
            } else {
                p.plus(text_length(x)).plus(q.minus(p))
            }
        },
        ChangeModel::Delete(p, l) => {
            if q.lt(p) {
                q
            } else {
                let e = p.plus(l);
                if e.le(q) {
                    p.plus(q.minus(e))
                } else {
                    p
                }
            }
        },
    }
}

/// Both components of the model position fit the machine word.
pub open spec fn pos_fits(p: PositionModel) -> bool {
    0 <= p.line <= usize::MAX && 0 <= p.character <= usize::MAX
}

/// The arithmetic of remapping `q` through `c` stays within the machine
/// word; implied whenever `q` lies in a buffer that `c` validly changes
/// (see `lemma_remap_valid`).
pub open spec fn remap_fits(q: PositionModel, c: ChangeModel) -> bool {
    match c {
        ChangeModel::Insert(p, x) => {
            &&& x.len() >= 1
            &&& (p.le(q) ==> pos_fits(p.plus(text_length(x)).plus(q.minus(p))))
        },
        ChangeModel::Delete(p, l) => {
            &&& (p.le(q) ==> pos_fits(p.plus(l)))
            &&& (p.plus(l).le(q) ==> pos_fits(p.plus(q.minus(p.plus(l)))))
        },
    }
}

impl Position {
    /// Remaps this position through a change that happened elsewhere in
    /// the buffer.
    pub fn apply_change(self, change: &Change, drift: Drift) -> (r: Position)
        requires
            remap_fits(self@, change@),
        ensures
            r@ == remap_model(self@, change@, drift),
    {
        match change {
            Change::Insert(position, text) => {
                if self.lt(*position) {
                    self
                } else if self == *position {
                    match drift {
                        Drift::Before => position.add(text.length()),
                        Drift::After => self,
                    }
                } else {
                    let length = text.length();
                    if self.line_index == position.line_index {
                        if length.line_count == 0 {
                            Position {
                                line_index: self.line_index,
                                char_index: self.char_index + length.char_count,
                            }
                        } else {
                            Position {
                                line_index: position.line_index + length.line_count,
                                char_index: length.char_count + (self.char_index
                                    - position.char_index),
                            }
                        }
                    } else {
                        Position {
                            line_index: self.line_index + length.line_count,
                            char_index: self.char_index,
                        }
                    }
                }
            },
            Change::Delete(start, length) => {
                if self.lt(*start) {
                    self
                } else {
                    let end = start.add(*length);
                    if end.le(self) {
                        if self.line_index == end.line_index {
                            Position {
                                line_index: start.line_index,
                                char_index: start.char_index + (self.char_index - end.char_index),
                            }
                        } else {
                            Position {
                                line_index: start.line_index + (self.line_index - end.line_index),
                                char_index: self.char_index,
                            }
                        }
                    } else {
                        *start
                    }
                }
            },
        }
    }
}

/// Remapping never swaps the order of two positions: an earlier position
/// stays at or before a later one, whatever either one's drift; at equal
/// positions the `After` drift stays at or before the `Before` drift.
pub proof fn lemma_remap_le(
    c: ChangeModel,
    p: PositionModel,
    q: PositionModel,
    dp: Drift,
    dq: Drift,
)
    requires
        c matches ChangeModel::Insert(ip, x) ==> x.len() >= 1,
        c matches ChangeModel::Delete(dp2, l) ==> l.line_count >= 0 && l.char_count >= 0,
        p.lt(q) || (p == q && (dp == Drift::After || dq == Drift::Before)),
    ensures
        remap_model(p, c, dp).le(remap_model(q, c, dq)),
{
    match c {
        ChangeModel::Insert(ip, x) => {
            let l = text_length(x);
            assert(l.line_count >= 0);
        },
        ChangeModel::Delete(sp, l) => {
        },
    }
}

/// A position of the old buffer, remapped through a valid change, is a
/// position of the new buffer (and in particular its arithmetic fits).
pub proof fn lemma_remap_valid(t: TextModel, c: ChangeModel, q: PositionModel, drift: Drift)
    requires
        change_valid(t, c),
        q.in_text(t),
    ensures
        remap_model(q, c, drift).in_text(apply_change_model(t, c)),
{
    let t2 = apply_change_model(t, c);
    let r = remap_model(q, c, drift);
    match c {
        ChangeModel::Insert(p, x) => {
            let l = text_length(x);
            let prefix = t[p.line].take(p.character);
            let suffix = t[p.line].skip(p.character);
            if x.len() == 1 {
                assert(t2[p.line] == prefix + x[0] + suffix);
            } else {
                assert(t2[p.line] == prefix + x[0]);
                assert(t2[p.line + x.len() - 1] == x.last() + suffix);
            }
            if q.lt(p) {
                if q.line < p.line {
                    assert(t2[q.line] == t[q.line]);
                }
            } else {
                assert(forall|j: int|
                    p.line < j < t.len() ==> t2[j + x.len() - 1] == t[j]);
                if q.line > p.line {
                    assert(t2[q.line + x.len() - 1] == t[q.line]);
                }
            }
        },
        ChangeModel::Delete(p, l) => {
            let e = p.plus(l);
            assert(t2[p.line] == t[p.line].take(p.character) + t[e.line].skip(e.character));
            if q.lt(p) {
                if q.line < p.line {
                    assert(t2[q.line] == t[q.line]);
                }
            } else if e.le(q) {
                assert(forall|j: int|
                    e.line < j < t.len() ==> t2[j - (e.line - p.line)] == t[j]);
                if q.line > e.line {
                    assert(t2[q.line - (e.line - p.line)] == t[q.line]);
                }
            }
        },
    }
}

/// Remapping through a valid change also keeps the machine-word bounds,
/// provided the position itself, the buffer's line count, and the one line
/// the remapped position can land on are sized like real, allocated values.
pub proof fn lemma_remap_fits(t: TextModel, c: ChangeModel, q: PositionModel)
    requires
        change_valid(t, c),
        q.in_text(t),
        pos_fits(q),
        t.len() <= usize::MAX,
        apply_change_model(t, c).len() <= usize::MAX,
        c matches ChangeModel::Insert(p, x) ==> apply_change_model(t, c)[p.line + x.len()
            - 1].len() <= usize::MAX,
        c matches ChangeModel::Delete(p, l) ==> t[p.plus(l).line].len() <= usize::MAX
            && apply_change_model(t, c)[p.line].len() <= usize::MAX,
    ensures
        remap_fits(q, c),
{
    lemma_remap_valid(t, c, q, Drift::Before);
    lemma_remap_valid(t, c, q, Drift::After);
    let t2 = apply_change_model(t, c);
    match c {
        ChangeModel::Insert(p, x) => {
            if p.le(q) {
                let r = p.plus(text_length(x)).plus(q.minus(p));
                if q == p {
                    assert(r == remap_model(q, c, Drift::Before));
                } else {
                    assert(r == remap_model(q, c, Drift::After));
                }
                assert(r.in_text(t2));
                if q.line == p.line {
                    assert(r.line == p.line + x.len() - 1);
                    assert(r.character <= t2[p.line + x.len() - 1].len());
                } else {
                    assert(r.character == q.character);
                }
            }
        },
        ChangeModel::Delete(p, l) => {
            let e = p.plus(l);
            assert(e.in_text(t));
            assert(e.character <= t[e.line].len());
            if e.le(q) {
                let r = p.plus(q.minus(e));
                assert(r == remap_model(q, c, Drift::After));
                assert(r.in_text(t2));
                if q.line == e.line {
                    assert(r.line == p.line);
                    assert(r.character <= t2[p.line].len());
                } else {
                    assert(r.character == q.character);
                }
            }
        },
    }
}

/// Position remapping through an insertion, spelled out: inserting text of
/// extent `l` at `p` leaves strictly earlier positions unchanged and shifts
/// every later position (and, under `Drift::Before`, the insertion point
/// itself) forward by exactly `l`, with the usual line-carry rules: a
/// position on the insertion line keeps its distance from `p`, a position
/// on a later line keeps its character offset and moves down by
/// `l.line_count` lines.
pub proof fn lemma_remap_insert(p: PositionModel, x: TextModel, q: PositionModel, drift: Drift)
    requires
        x.len() >= 1,
    ensures
        q.lt(p) ==> remap_model(q, ChangeModel::Insert(p, x), drift) == q,
        q == p && drift == Drift::After ==> remap_model(q, ChangeModel::Insert(p, x), drift) == q,
        p.le(q) && (q != p || drift == Drift::Before) && q.line == p.line ==> remap_model(
            q,
            ChangeModel::Insert(p, x),
            drift,
        ) == (PositionModel {
            line: q.line + text_length(x).line_count,
            character: if text_length(x).line_count == 0 {
                q.character + text_length(x).char_count
            } else {
                text_length(x).char_count + (q.character - p.character)
            },
        }),
        q.line > p.line ==> remap_model(q, ChangeModel::Insert(p, x), drift) == (PositionModel {
            line: q.line + text_length(x).line_count,
            character: q.character,
        }),
{
}

/// Position remapping through a deletion, spelled out: positions strictly
/// before the deleted span stay put, positions inside it collapse to the
/// span's start `p`, and positions at or after its end `e` shift back by
/// the deleted extent, keeping their distance from `e`.
pub proof fn lemma_remap_delete(p: PositionModel, l: LengthModel, q: PositionModel, drift: Drift)
    requires
        l.line_count >= 0,
        l.char_count >= 0,
    ensures
        q.lt(p) ==> remap_model(q, ChangeModel::Delete(p, l), drift) == q,
        p.le(q) && q.lt(p.plus(l)) ==> remap_model(q, ChangeModel::Delete(p, l), drift) == p,
        p.plus(l).le(q) && q.line == p.plus(l).line ==> remap_model(
            q,
            ChangeModel::Delete(p, l),
            drift,
        ) == (PositionModel {
            line: p.line,
            character: p.character + (q.character - p.plus(l).character),
        }),
        p.plus(l).le(q) && q.line > p.plus(l).line ==> remap_model(
            q,
            ChangeModel::Delete(p, l),
            drift,
        ) == (PositionModel { line: p.line + (q.line - p.plus(l).line), character: q.character }),
{
}

/// The inverse of a valid change is valid on the changed buffer.
pub proof fn lemma_invert_valid(t: TextModel, c: ChangeModel)
    requires
        change_valid(t, c),
    ensures
        change_valid(apply_change_model(t, c), invert_model(c, t)),
{
    match c {
        ChangeModel::Insert(p, x) => {
            let t2 = insert_model(t, p, x);
            let l = text_length(x);
            let e = p.plus(l);
            if x.len() == 1 {
                assert(t2[p.line] == t[p.line].take(p.character) + x[0] + t[p.line].skip(
                    p.character,
                ));
            } else {
                assert(t2[p.line] == t[p.line].take(p.character) + x[0]);
                assert(t2[e.line] == x.last() + t[p.line].skip(p.character));
            }
        },
        ChangeModel::Delete(p, l) => {
            let t2 = delete_model(t, p, l);
            let e = p.plus(l);
            assert(t2[p.line] == t[p.line].take(p.character) + t[e.line].skip(e.character));
        },
    }
}

/// Round trip, first half: applying a valid change and then its inverse
/// restores the buffer exactly.
pub proof fn lemma_apply_invert(t: TextModel, c: ChangeModel)
    requires
        change_valid(t, c),
    ensures
        apply_change_model(apply_change_model(t, c), invert_model(c, t)) == t,
{
    match c {
        ChangeModel::Insert(p, x) => {
            let t2 = insert_model(t, p, x);
            let l = text_length(x);
            let e = p.plus(l);
            let prefix = t[p.line].take(p.character);
            let suffix = t[p.line].skip(p.character);
            let back = delete_model(t2, p, l);
            if x.len() == 1 {
                assert(t2[p.line] == prefix + x[0] + suffix);
                assert(t2[p.line].take(p.character) =~= prefix);
                assert(t2[e.line].skip(e.character) =~= suffix);
            } else {
                assert(t2[p.line] == prefix + x[0]);
                assert(t2[e.line] == x.last() + suffix);
                assert(t2[p.line].take(p.character) =~= prefix);
                assert(t2[e.line].skip(e.character) =~= suffix);
            }
            assert(prefix + suffix =~= t[p.line]);
            assert(back =~~= t);
        },
        ChangeModel::Delete(p, l) => {
            let t2 = delete_model(t, p, l);
            let x = slice_model(t, p, l);
            let e = p.plus(l);
            let prefix = t[p.line].take(p.character);
            let suffix = t[e.line].skip(e.character);
            let back = insert_model(t2, p, x);
            assert(t2[p.line] == prefix + suffix);
            assert(t2[p.line].take(p.character) =~= prefix);
            assert(t2[p.line].skip(p.character) =~= suffix);
            if l.line_count == 0 {
                assert(x[0] == t[p.line].subrange(p.character, e.character));
                assert(prefix + x[0] + suffix =~= t[p.line]);
                assert(back =~~= t);
            } else {
                assert(x[0] == t[p.line].skip(p.character));
                assert(x.last() == t[e.line].take(e.character));
                assert(prefix + x[0] =~= t[p.line]);
                assert(x.last() + suffix =~= t[e.line]);
                assert(back =~~= t);
            }
        },
    }
}

/// Round trip, second half: inverting the inverse against the changed
/// buffer gives the original change back, so redo after undo replays the
/// exact same edit.
pub proof fn lemma_invert_invert(t: TextModel, c: ChangeModel)
    requires
        change_valid(t, c),
    ensures
        invert_model(invert_model(c, t), apply_change_model(t, c)) == c,
{
    match c {
        ChangeModel::Insert(p, x) => {
            let t2 = insert_model(t, p, x);
            let l = text_length(x);
            let e = p.plus(l);
            let prefix = t[p.line].take(p.character);
            let suffix = t[p.line].skip(p.character);
            let back = slice_model(t2, p, l);
            if x.len() == 1 {
                assert(t2[p.line] == prefix + x[0] + suffix);
                assert(t2[p.line].subrange(p.character, e.character) =~= x[0]);
                assert(back =~~= x);
            } else {
                assert(t2[p.line] == prefix + x[0]);
                assert(t2[e.line] == x.last() + suffix);
                assert(t2[p.line].skip(p.character) =~= x[0]);
                assert(t2[e.line].take(e.character) =~= x.last());
                assert(t2.subrange(p.line + 1, e.line) =~= x.subrange(1, x.len() - 1));
                assert(back =~~= x);
            }
        },
        ChangeModel::Delete(p, l) => {
            let x = slice_model(t, p, l);
            if l.line_count == 0 {
                assert(text_length(x) == l);
            } else {
                assert(x.last() == t[p.plus(l).line].take(p.plus(l).character));
                assert(text_length(x) == l);
            }
        },
    }
}

} // verus!
