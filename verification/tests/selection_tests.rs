//! The multi-region selection model: ordering, merging and remapping.

use code_editor::selection::{Affinity, Cursor, Region, Selection};
use code_editor::text::{Change, Length, Position, Text};

fn pos(line_index: usize, char_index: usize) -> Position {
    Position { line_index, char_index }
}

fn region(anchor: Position, cursor: Position) -> Region {
    Region { cursor: Cursor { position: cursor, affinity: Affinity::Before }, anchor }
}

fn starts(selection: &Selection) -> Vec<Position> {
    selection.as_regions().iter().map(|r| r.start()).collect()
}

#[test]
fn new_selection_is_one_empty_region_at_origin() {
    let s = Selection::new();
    let rs = s.as_regions();
    assert_eq!(rs.len(), 1);
    assert_eq!(rs[0].start(), pos(0, 0));
    assert!(rs[0].is_empty());
}

#[test]
fn region_span_is_between_cursor_and_anchor() {
    let r = region(pos(0, 5), pos(0, 2));
    assert_eq!(r.start(), pos(0, 2));
    assert_eq!(r.end(), pos(0, 5));
    assert_eq!(r.length(), Length { line_count: 0, char_count: 3 });
    assert!(!r.is_empty());
}

#[test]
fn empty_regions_overlap_when_touching() {
    let a = region(pos(0, 2), pos(0, 2));
    let b = region(pos(0, 2), pos(0, 4));
    assert!(a.overlaps_with(b));
    let c = region(pos(0, 0), pos(0, 2));
    let d = region(pos(0, 2), pos(0, 4));
    assert!(!c.overlaps_with(d));
    let e = region(pos(0, 0), pos(0, 3));
    assert!(e.overlaps_with(d));
}

#[test]
fn merge_spans_from_earlier_start_to_later_end() {
    let a = region(pos(0, 0), pos(0, 4));
    let b = region(pos(0, 3), pos(0, 9));
    let m = a.merge_with(b).expect("overlapping regions must merge");
    assert_eq!(m.start(), pos(0, 0));
    assert_eq!(m.end(), pos(0, 9));
    assert!(a.merge_with(region(pos(0, 9), pos(0, 11))).is_none());
}

#[test]
fn add_keeps_regions_sorted_by_start() {
    let mut s = Selection::new();
    s.set(region(pos(0, 6), pos(0, 7)));
    s.add(region(pos(0, 0), pos(0, 1)));
    s.add(region(pos(0, 3), pos(0, 4)));
    assert_eq!(starts(&s), vec![pos(0, 0), pos(0, 3), pos(0, 6)]);
}

#[test]
fn update_removes_neighbours_the_new_region_overlaps() {
    let mut s = Selection::new();
    s.set(region(pos(0, 0), pos(0, 2)));
    s.add(region(pos(0, 4), pos(0, 6)));
    s.add(region(pos(0, 8), pos(0, 10)));
    let idx = s.update(1, |_| region(pos(0, 1), pos(0, 9)));
    assert_eq!(idx, 0);
    let rs = s.as_regions();
    assert_eq!(rs.len(), 1);
    assert_eq!(rs[0].start(), pos(0, 1));
    assert_eq!(rs[0].end(), pos(0, 9));
}

#[test]
fn update_all_merges_overlapping_neighbours_once() {
    let mut s = Selection::new();
    s.set(region(pos(0, 0), pos(0, 3)));
    s.add(region(pos(0, 4), pos(0, 7)));
    s.add(region(pos(0, 10), pos(0, 12)));
    // Grow every region rightward by two characters: the first two collide.
    let idx = s.update_all(0, |r| {
        region(r.start(), pos(0, r.end().char_index + 2))
    });
    let rs = s.as_regions();
    assert_eq!(rs.len(), 2);
    assert_eq!(rs[0].start(), pos(0, 0));
    assert_eq!(rs[0].end(), pos(0, 9));
    assert_eq!(rs[1].start(), pos(0, 10));
    assert!(idx < rs.len());
}

#[test]
fn selection_remap_keeps_the_span_stable_at_its_boundary() {
    // Inserting exactly at a selected span's start must not grow the span:
    // the start drifts past the insertion, the end stays put relative to
    // the content.
    let mut s = Selection::new();
    s.set(region(pos(0, 2), pos(0, 5)));
    let ins = Change::Insert(
        pos(0, 2),
        Text::from_lines(vec!["xy".to_string()]),
    );
    s.apply_change(&ins);
    let rs = s.as_regions();
    assert_eq!(rs[0].start(), pos(0, 4));
    assert_eq!(rs[0].end(), pos(0, 7));
}

#[test]
fn selection_remap_collapses_deleted_spans() {
    let mut s = Selection::new();
    s.set(region(pos(0, 3), pos(0, 5)));
    s.add(region(pos(0, 8), pos(0, 9)));
    let del = Change::Delete(pos(0, 2), Length { line_count: 0, char_count: 4 });
    s.apply_change(&del);
    let rs = s.as_regions();
    assert_eq!(rs[0].start(), pos(0, 2));
    assert_eq!(rs[0].end(), pos(0, 2));
    assert_eq!(rs[1].start(), pos(0, 4));
    assert_eq!(rs[1].end(), pos(0, 5));
}

#[test]
fn sortedness_and_no_overlap_after_repairing_mutations() {
    let mut s = Selection::new();
    s.set(region(pos(0, 0), pos(0, 2)));
    s.add(region(pos(0, 1), pos(0, 4)));
    // `add` does not merge; `update` repairs around the updated region.
    let idx = s.update(0, |r| r);
    let rs = s.as_regions();
    for i in 0..rs.len() - 1 {
        assert!(rs[i].start().le(rs[i + 1].start()));
        assert!(rs[i].end().le(rs[i + 1].start()));
    }
    assert!(idx < rs.len());
}
