//! The multi-region selection model.
//!
//! A `Selection` is a non-empty sequence of `Region`s kept sorted by start;
//! after the repairing mutations (`update`, `update_all`, `set`) no two
//! regions overlap. A `Region` is a cursor/anchor pair; its span is the
//! interval between the two. Remapping a selection through a buffer change
//! drifts each region's start past insertions and pins its end, which keeps
//! the selected span stable under edits at its boundary.

use crate::text::{
    remap_fits, remap_model, Change, ChangeModel, Drift, Length, Position, PositionModel,
};
use vstd::prelude::*;

verus! {

/// Which visual row a cursor belongs to when its position sits exactly on
/// a wrap or fold boundary.
#[derive(Clone, Copy, Debug, PartialEq, Eq, Structural)]
pub enum Affinity {
    Before,
    After,
}

/// A cursor: a buffer position plus its visual-row affinity.
#[derive(Clone, Copy, Debug, PartialEq, Eq, Structural)]
pub struct Cursor {
    pub position: Position,
    pub affinity: Affinity,
}

impl Cursor {
    /// Applies `f` to the position, keeping the affinity.
    pub fn update_position<F: FnOnce(Position) -> Position>(self, f: F) -> (r: Cursor)
        requires
            call_requires(f, (self.position,)),
        ensures
            r.affinity == self.affinity,
            call_ensures(f, (self.position,), r.position),
    {
        Cursor { position: f(self.position), affinity: self.affinity }
    }
}

/// The earlier of two positions, as a value.
pub open spec fn pos_min(a: Position, b: Position) -> Position {
    if a@.le(b@) {
        a
    } else {
        b
    }
}

/// The later of two positions, as a value.
pub open spec fn pos_max(a: Position, b: Position) -> Position {
    if a@.le(b@) {
        b
    } else {
        a
    }
}

/// Ghost mirror of a region: its two endpoints as model positions (the
/// cursor affinity is stated separately where it matters).
pub ghost struct RegionModel {
    pub cursor: PositionModel,
    pub anchor: PositionModel,
}

impl RegionModel {
    pub open spec fn start(self) -> PositionModel {
        if self.cursor.le(self.anchor) {
            self.cursor
        } else {
            self.anchor
        }
    }

    pub open spec fn end(self) -> PositionModel {
        if self.cursor.le(self.anchor) {
            self.anchor
        } else {
            self.cursor
        }
    }

    pub open spec fn cursor_drift(self) -> Drift {
        if self.cursor.le(self.anchor) {
            Drift::Before
        } else {
            Drift::After
        }
    }

    pub open spec fn anchor_drift(self) -> Drift {
        if self.cursor.le(self.anchor) {
            Drift::After
        } else {
            Drift::Before
        }
    }

    /// The region carried through one change: each endpoint remapped with
    /// its direction-aware drift.
    pub open spec fn remap(self, c: ChangeModel) -> RegionModel {
        RegionModel {
            cursor: remap_model(self.cursor, c, self.cursor_drift()),
            anchor: remap_model(self.anchor, c, self.anchor_drift()),
        }
    }
}

/// Every region carried through a list of changes, in order.
pub open spec fn regions_remap_all(ws: Seq<RegionModel>, cs: Seq<ChangeModel>) -> Seq<RegionModel>
    decreases cs.len(),
{
    if cs.len() == 0 {
        ws
    } else {
        regions_remap_all(
            ws.map_values(|r: RegionModel| r.remap(cs.first())),
            cs.drop_first(),
        )
    }
}

/// Carrying regions through a list extended by one change is carrying them
/// through the list, then through that change.
pub proof fn lemma_regions_remap_all_snoc(ws: Seq<RegionModel>, cs: Seq<ChangeModel>, c: ChangeModel)
    ensures
        regions_remap_all(ws, cs.push(c)) == regions_remap_all(ws, cs).map_values(
            |r: RegionModel| r.remap(c),
        ),
    decreases cs.len(),
{
    if cs.len() == 0 {
        assert(cs.push(c).first() == c);
        let m1 = ws.map_values(|r: RegionModel| r.remap(cs.push(c).first()));
        assert(regions_remap_all(ws, cs.push(c)) == regions_remap_all(
            m1,
            cs.push(c).drop_first(),
        ));
        assert(cs.push(c).drop_first() =~= Seq::<ChangeModel>::empty());
        assert(regions_remap_all(m1, Seq::<ChangeModel>::empty()) == m1);
        assert(regions_remap_all(ws, cs) == ws);
        assert(m1 =~= ws.map_values(|r: RegionModel| r.remap(c)));
    } else {
        assert(cs.push(c).first() == cs.first());
        assert(cs.push(c).drop_first() =~= cs.drop_first().push(c));
        let ws1 = ws.map_values(|r: RegionModel| r.remap(cs.first()));
        lemma_regions_remap_all_snoc(ws1, cs.drop_first(), c);
    }
}

/// The regions of a selection as model values.
pub open spec fn region_views(rs: Seq<Region>) -> Seq<RegionModel> {
    rs.map_values(|r: Region| r@)
}

/// The cursor affinities of a selection, in order.
pub open spec fn region_affinities(rs: Seq<Region>) -> Seq<Affinity> {
    rs.map_values(|r: Region| r.cursor.affinity)
}

/// One selected span: a cursor and the anchor it extends from. The span is
/// empty when the two coincide.
#[derive(Clone, Copy, Debug, PartialEq, Eq, Structural)]
pub struct Region {
    pub cursor: Cursor,
    pub anchor: Position,
}

impl View for Region {
    type V = RegionModel;

    open spec fn view(&self) -> RegionModel {
        RegionModel { cursor: self.cursor.position@, anchor: self.anchor@ }
    }
}

impl Region {
    /// A collapsed region: cursor and anchor at one position.
    pub fn at(cursor: Cursor) -> (r: Region)
        ensures
            r.cursor == cursor,
            r.anchor == cursor.position,
    {
        Region { cursor, anchor: cursor.position }
    }

    /// The earlier endpoint, as a value.
    pub open spec fn start_p(self) -> Position {
        pos_min(self.cursor.position, self.anchor)
    }

    /// The later endpoint, as a value.
    pub open spec fn end_p(self) -> Position {
        pos_max(self.cursor.position, self.anchor)
    }

    /// The earlier endpoint, as a model position.
    pub open spec fn start_m(self) -> PositionModel {
        self.start_p()@
    }

    /// The later endpoint, as a model position.
    pub open spec fn end_m(self) -> PositionModel {
        self.end_p()@
    }

    pub open spec fn is_empty_m(self) -> bool {
        self.start_m() == self.end_m()
    }

    /// Overlap test for `self` placed before `other`: spans that share
    /// content overlap; an empty region also overlaps what it merely
    /// touches.
    pub open spec fn overlaps_m(self, other: Region) -> bool {
        if self.is_empty_m() || other.is_empty_m() {
            other.start_m().le(self.end_m())
        } else {
            other.start_m().lt(self.end_m())
        }
    }

    pub fn start(self) -> (r: Position)
        ensures
            r == self.start_p(),
    {
        self.cursor.position.min(self.anchor)
    }

    pub fn end(self) -> (r: Position)
        ensures
            r == self.end_p(),
    {
        self.cursor.position.max(self.anchor)
    }

    /// The extent of the span.
    pub fn length(self) -> (r: Length)
        ensures
            r@ == self.end_m().minus(self.start_m()),
    {
        self.end().sub(self.start())
    }

    pub fn is_empty(self) -> (r: bool)
        ensures
            r == self.is_empty_m(),
    {
        self.length().is_zero()
    }

    /// Whether `self` (placed before `other`) overlaps it.
    pub fn overlaps_with(self, other: Region) -> (r: bool)
        ensures
            r == self.overlaps_m(other),
    {
        if self.is_empty() || other.is_empty() {
            other.start().le(self.end())
        } else {
            other.start().lt(self.end())
        }
    }

    /// Applies `f` to the cursor, keeping the anchor.
    pub fn update_cursor<F: FnOnce(Cursor) -> Cursor>(self, f: F) -> (r: Region)
        requires
            call_requires(f, (self.cursor,)),
        ensures
            r.anchor == self.anchor,
            call_ensures(f, (self.cursor,), r.cursor),
    {
        Region { cursor: f(self.cursor), anchor: self.anchor }
    }

    /// Collapses the span onto the cursor.
    pub fn reset_anchor(self) -> (r: Region)
        ensures
            r.cursor == self.cursor,
            r.anchor == self.cursor.position,
    {
        Region { cursor: self.cursor, anchor: self.cursor.position }
    }

    /// The drift of the cursor when this region is remapped: the span's
    /// start drifts past an insertion, its end stays put, so a backward or
    /// empty region lets the cursor drift `Before` and the anchor `After`,
    /// and a forward one the reverse.
    pub open spec fn cursor_drift(self) -> Drift {
        if self.cursor.position@.le(self.anchor@) {
            Drift::Before
        } else {
            Drift::After
        }
    }

    pub open spec fn anchor_drift(self) -> Drift {
        if self.cursor.position@.le(self.anchor@) {
            Drift::After
        } else {
            Drift::Before
        }
    }

    /// Remaps both endpoints through a change made elsewhere.
    pub fn apply_change(self, change: &Change) -> (r: Region)
        requires
            remap_fits(self.cursor.position@, change@),
            remap_fits(self.anchor@, change@),
        ensures
            r.cursor.position@ == remap_model(self.cursor.position@, change@, self.cursor_drift()),
            r.anchor@ == remap_model(self.anchor@, change@, self.anchor_drift()),
            r@ == self@.remap(change@),
            r.cursor.affinity == self.cursor.affinity,
    {
        if self.cursor.position.le(self.anchor) {
            Region {
                cursor: Cursor {
                    position: self.cursor.position.apply_change(change, Drift::Before),
                    affinity: self.cursor.affinity,
                },
                anchor: self.anchor.apply_change(change, Drift::After),
            }
        } else {
            Region {
                cursor: Cursor {
                    position: self.cursor.position.apply_change(change, Drift::After),
                    affinity: self.cursor.affinity,
                },
                anchor: self.anchor.apply_change(change, Drift::Before),
            }
        }
    }

    /// The merge of two overlapping regions: it spans from the earlier
    /// start to the later end and keeps the typing direction (and cursor
    /// affinity) of whichever region's cursor sat at the start side.
    pub open spec fn merge_m(self, other: Region) -> Region {
        let s = pos_min(self.start_p(), other.start_p());
        let e = pos_max(self.end_p(), other.end_p());
        if self.cursor.position@.le(self.anchor@) {
            Region { cursor: Cursor { position: s, affinity: self.cursor.affinity }, anchor: e }
        } else {
            Region { cursor: Cursor { position: e, affinity: other.cursor.affinity }, anchor: s }
        }
    }

    /// Merges `self` (placed before `other`) with `other` if they overlap.
    pub fn merge_with(self, other: Region) -> (r: Option<Region>)
        ensures
            r is Some <==> self.overlaps_m(other),
            r matches Some(m) ==> m == self.merge_m(other),
            r matches Some(m) ==> m.start_m() == if self.start_m().le(other.start_m()) {
                self.start_m()
            } else {
                other.start_m()
            },
            r matches Some(m) ==> m.end_m() == if self.end_m().le(other.end_m()) {
                other.end_m()
            } else {
                self.end_m()
            },
    {
        if !self.overlaps_with(other) {
            return None;
        }
        let s = self.start().min(other.start());
        let e = self.end().max(other.end());
        let m = if self.cursor.position.le(self.anchor) {
            Region { cursor: Cursor { position: s, affinity: self.cursor.affinity }, anchor: e }
        } else {
            Region { cursor: Cursor { position: e, affinity: other.cursor.affinity }, anchor: s }
        };
        proof {
            assert(m.start_m() == pos_min(self.start_p(), other.start_p())@);
            assert(m.end_m() == pos_max(self.end_p(), other.end_p())@);
        }
        Some(m)
    }
}

/// Remapping two non-overlapping regions through one change keeps them in
/// selection order: every remapped endpoint of the earlier region stays at
/// or before every remapped endpoint of the later one. The span's start
/// drifts past insertions while its end stays put, so the gap (or touch
/// point) between the regions never inverts.
#[verifier::rlimit(100)]
pub proof fn lemma_remap_pair_ordered(a: Region, b: Region, c: ChangeModel)
    requires
        !a.overlaps_m(b),
        c matches ChangeModel::Insert(ip, x) ==> x.len() >= 1,
        c matches ChangeModel::Delete(dp, l) ==> l.line_count >= 0 && l.char_count >= 0,
    ensures
        ({
            let acp = remap_model(a.cursor.position@, c, a.cursor_drift());
            let aan = remap_model(a.anchor@, c, a.anchor_drift());
            let bcp = remap_model(b.cursor.position@, c, b.cursor_drift());
            let ban = remap_model(b.anchor@, c, b.anchor_drift());
            &&& acp.le(bcp)
            &&& acp.le(ban)
            &&& aan.le(bcp)
            &&& aan.le(ban)
        }),
{
    let ae = a.end_m();
    let bs = b.start_m();
    assert(a.is_empty_m() || b.is_empty_m() ==> ae.lt(bs));
    assert(!a.is_empty_m() && !b.is_empty_m() ==> ae.le(bs));
    let pairs_a: Seq<(PositionModel, Drift)> = seq![
        (a.cursor.position@, a.cursor_drift()),
        (a.anchor@, a.anchor_drift()),
    ];
    let pairs_b: Seq<(PositionModel, Drift)> = seq![
        (b.cursor.position@, b.cursor_drift()),
        (b.anchor@, b.anchor_drift()),
    ];
    assert forall|i: int, j: int| 0 <= i < 2 && 0 <= j < 2 implies remap_model(
        #[trigger] pairs_a[i].0,
        c,
        pairs_a[i].1,
    ).le(remap_model(#[trigger] pairs_b[j].0, c, pairs_b[j].1)) by {
        let (pa, da) = pairs_a[i];
        let (pb, db) = pairs_b[j];
        assert(pa.le(ae));
        assert(bs.le(pb));
        if pa.lt(pb) {
            crate::text::lemma_remap_le(c, pa, pb, da, db);
        } else {
            assert(pa == ae && pa == bs && pb == bs);
            assert(!a.is_empty_m() && !b.is_empty_m());
            assert(da == Drift::After) by {
                if a.cursor.position@.le(a.anchor@) {
                    assert(pa != a.cursor.position@ || a.cursor.position@ == a.anchor@);
                } else {
                }
            }
            assert(db == Drift::Before) by {
                if b.cursor.position@.le(b.anchor@) {
                } else {
                    assert(pb != b.cursor.position@ || b.cursor.position@ == b.anchor@);
                }
            }
            crate::text::lemma_remap_le(c, pa, pb, da, db);
        }
    }
    assert(pairs_a[0] == (a.cursor.position@, a.cursor_drift()));
    assert(pairs_a[1] == (a.anchor@, a.anchor_drift()));
    assert(pairs_b[0] == (b.cursor.position@, b.cursor_drift()));
    assert(pairs_b[1] == (b.anchor@, b.anchor_drift()));
}

/// Remapping a fully merged selection keeps it in selection order.
#[verifier::spinoff_prover]
pub proof fn lemma_remap_all_ordered(rs: Seq<Region>, ns: Seq<Region>, c: ChangeModel)
    requires
        ns.len() == rs.len(),
        forall|i: int|
            #![trigger ns[i]]
            0 <= i < rs.len() ==> ns[i].cursor.position@ == remap_model(
                rs[i].cursor.position@,
                c,
                rs[i].cursor_drift(),
            ) && ns[i].anchor@ == remap_model(rs[i].anchor@, c, rs[i].anchor_drift()),
        regions_merged(rs),
        c matches ChangeModel::Insert(ip, x) ==> x.len() >= 1,
        c matches ChangeModel::Delete(dp, l) ==> l.line_count >= 0 && l.char_count >= 0,
    ensures
        regions_ordered(ns),
{
    assert forall|i: int|
        0 <= i < ns.len() - 1 implies #[trigger] ns[i].start_m().le(ns[i + 1].start_m())
        && ns[i].end_m().le(ns[i + 1].start_m()) by {
        assert(!rs[i].overlaps_m(rs[i + 1]));
        lemma_remap_pair_ordered(rs[i], rs[i + 1], c);
    }
}

/// Region starts ascend.
pub open spec fn starts_sorted(rs: Seq<Region>) -> bool {
    forall|i: int| #![trigger rs[i]] 0 <= i < rs.len() - 1 ==> rs[i].start_m().le(rs[i + 1].start_m())
}

/// The selection invariant: sorted by start with non-overlapping spans;
/// adjacent empty regions may abut.
pub open spec fn regions_ordered(rs: Seq<Region>) -> bool {
    forall|i: int|
        #![trigger rs[i]]
        0 <= i < rs.len() - 1 ==> rs[i].start_m().le(rs[i + 1].start_m()) && rs[i].end_m().le(
            rs[i + 1].start_m(),
        )
}

/// Fully merged: no adjacent pair overlaps, not even a touching empty one.
pub open spec fn regions_merged(rs: Seq<Region>) -> bool {
    forall|i: int| #![trigger rs[i]] 0 <= i < rs.len() - 1 ==> !rs[i].overlaps_m(rs[i + 1])
}

/// A merged selection is ordered.
pub proof fn lemma_merged_ordered(rs: Seq<Region>)
    requires
        regions_merged(rs),
    ensures
        regions_ordered(rs),
{
}

/// How far leftward neighbours of the region at `index` are consumed when
/// it is replaced by `g`: the least index whose predecessors all overlap
/// `g` no further.
pub open spec fn merge_left_bound(rs: Seq<Region>, index: int, g: Region) -> int
    decreases index,
{
    if 0 < index <= rs.len() && rs[index - 1].overlaps_m(g) {
        merge_left_bound(rs, index - 1, g)
    } else {
        index
    }
}

/// How far rightward neighbours are consumed: the first index at or after
/// `index` that `g` does not overlap.
pub open spec fn merge_right_bound(rs: Seq<Region>, index: int, g: Region) -> int
    decreases rs.len() - index,
{
    if 0 <= index < rs.len() && g.overlaps_m(rs[index]) {
        merge_right_bound(rs, index + 1, g)
    } else {
        index
    }
}

/// What `Selection::update` leaves behind: the new region `g` in place of
/// `rs[index]`, with every overlapped neighbour on either side removed.
pub open spec fn update_result(rs: Seq<Region>, index: int, g: Region) -> Seq<Region> {
    rs.subrange(0, merge_left_bound(rs, index, g)) + seq![g] + rs.subrange(
        merge_right_bound(rs, index + 1, g),
        rs.len() as int,
    )
}

pub proof fn lemma_merge_left_bound(rs: Seq<Region>, index: int, g: Region)
    requires
        0 <= index <= rs.len(),
    ensures
        0 <= merge_left_bound(rs, index, g) <= index,
        merge_left_bound(rs, index, g) > 0 ==> !rs[merge_left_bound(rs, index, g)
            - 1].overlaps_m(g),
    decreases index,
{
    if 0 < index && rs[index - 1].overlaps_m(g) {
        lemma_merge_left_bound(rs, index - 1, g);
    }
}

pub proof fn lemma_merge_right_bound(rs: Seq<Region>, index: int, g: Region)
    requires
        0 <= index <= rs.len(),
    ensures
        index <= merge_right_bound(rs, index, g) <= rs.len(),
        merge_right_bound(rs, index, g) < rs.len() ==> !g.overlaps_m(
            rs[merge_right_bound(rs, index, g)],
        ),
    decreases rs.len() - index,
{
    if index < rs.len() && g.overlaps_m(rs[index]) {
        lemma_merge_right_bound(rs, index + 1, g);
    }
}

/// The repair of `update` restores the selection invariant around the new
/// region, whatever `g` is.
/// Two non-overlapping regions, the first placed before the second, stand
/// in selection order.
pub proof fn lemma_not_overlaps_ordered(x: Region, y: Region)
    requires
        !x.overlaps_m(y),
    ensures
        x.end_m().le(y.start_m()),
        x.start_m().le(y.start_m()),
{
}

#[verifier::rlimit(60)]
pub proof fn lemma_update_result_ordered(rs: Seq<Region>, index: int, g: Region)
    requires
        0 <= index < rs.len(),
    ensures
        regions_ordered(rs) ==> regions_ordered(update_result(rs, index, g)),
        regions_merged(rs) ==> regions_merged(update_result(rs, index, g)),
{
    lemma_merge_left_bound(rs, index, g);
    lemma_merge_right_bound(rs, index + 1, g);
    let a = merge_left_bound(rs, index, g);
    let b = merge_right_bound(rs, index + 1, g);
    let ur = update_result(rs, index, g);
    assert(ur.len() == a + 1 + (rs.len() - b));
    assert(forall|j: int| #![trigger ur[j]] 0 <= j < a ==> ur[j] == rs[j]);
    assert(ur[a] == g);
    assert(forall|j: int| #![trigger ur[j]] a < j < ur.len() ==> ur[j] == rs[b + (j - a - 1)]);
    if a > 0 {
        lemma_not_overlaps_ordered(rs[a - 1], g);
    }
    if b < rs.len() {
        lemma_not_overlaps_ordered(g, rs[b]);
    }
    if regions_ordered(rs) {
        assert forall|i: int| 0 <= i < ur.len() - 1 implies #[trigger] ur[i].start_m().le(
            ur[i + 1].start_m(),
        ) && ur[i].end_m().le(ur[i + 1].start_m()) by {
            if i < a - 1 {
                assert(ur[i] == rs[i] && ur[i + 1] == rs[i + 1]);
            } else if i == a - 1 {
                assert(ur[i] == rs[a - 1] && ur[i + 1] == g);
            } else if i == a {
                assert(ur[i] == g && ur[i + 1] == rs[b]);
            } else {
                assert(ur[i] == rs[b + (i - a - 1)] && ur[i + 1] == rs[b + (i - a)]);
            }
        }
    }
    if regions_merged(rs) {
        assert forall|i: int| 0 <= i < ur.len() - 1 implies !#[trigger] ur[i].overlaps_m(
            ur[i + 1],
        ) by {
            if i < a - 1 {
                assert(ur[i] == rs[i] && ur[i + 1] == rs[i + 1]);
            } else if i == a - 1 {
                assert(ur[i] == rs[a - 1] && ur[i + 1] == g);
            } else if i == a {
                assert(ur[i] == g && ur[i + 1] == rs[b]);
            } else {
                assert(ur[i] == rs[b + (i - a - 1)] && ur[i + 1] == rs[b + (i - a)]);
            }
        }
    }
}

/// One left-to-right merge pass: two adjacent regions in sorted order that
/// overlap are replaced by their merge; an out-of-order pair is left alone.
pub open spec fn merge_pass(rs: Seq<Region>) -> Seq<Region>
    decreases rs.len(),
{
    if rs.len() <= 1 {
        rs
    } else if rs[0].start_m().le(rs[1].start_m()) && rs[0].overlaps_m(rs[1]) {
        merge_pass(seq![rs[0].merge_m(rs[1])] + rs.subrange(2, rs.len() as int))
    } else {
        seq![rs[0]] + merge_pass(rs.drop_first())
    }
}

/// Where the merge pass carries a tracked region index that starts at
/// absolute position `at`: every merge removes the region after the current
/// one, so an index above the removal slot shifts down by one.
pub open spec fn merge_pass_index(rs: Seq<Region>, at: int, index: int) -> int
    decreases rs.len(),
{
    if rs.len() <= 1 {
        index
    } else if rs[0].start_m().le(rs[1].start_m()) && rs[0].overlaps_m(rs[1]) {
        merge_pass_index(
            seq![rs[0].merge_m(rs[1])] + rs.subrange(2, rs.len() as int),
            at,
            if at + 1 < index {
                index - 1
            } else {
                index
            },
        )
    } else {
        merge_pass_index(rs.drop_first(), at + 1, index)
    }
}

/// On a start-sorted sequence the merge pass yields a merged, ordered
/// selection whose first region keeps its start.
pub proof fn lemma_merge_pass(rs: Seq<Region>)
    requires
        starts_sorted(rs),
    ensures
        merge_pass(rs).len() <= rs.len(),
        rs.len() >= 1 ==> merge_pass(rs).len() >= 1,
        regions_merged(merge_pass(rs)),
        regions_ordered(merge_pass(rs)),
        rs.len() >= 1 ==> merge_pass(rs)[0].start_m() == rs[0].start_m(),
        rs.len() >= 1 && !rs[0].is_empty_m() ==> !merge_pass(rs)[0].is_empty_m(),
    decreases rs.len(),
{
    if rs.len() <= 1 {
    } else if rs[0].start_m().le(rs[1].start_m()) && rs[0].overlaps_m(rs[1]) {
        let m = rs[0].merge_m(rs[1]);
        let rest = seq![m] + rs.subrange(2, rs.len() as int);
        assert(m.start_m() == rs[0].start_m());
        assert(starts_sorted(rest)) by {
            assert(forall|i: int| #![trigger rest[i]]
                0 <= i < rest.len() - 1 ==> rest[i].start_m().le(rest[i + 1].start_m())) by {
                assert(forall|i: int| #![trigger rest[i]] 1 <= i < rest.len() ==> rest[i] == rs[i + 1]);
            }
        }
        lemma_merge_pass(rest);
        assert(merge_pass(rs) == merge_pass(rest));
    } else {
        let rest = rs.drop_first();
        assert(starts_sorted(rest)) by {
            assert(forall|i: int| #![trigger rest[i]] 0 <= i < rest.len() ==> rest[i] == rs[i + 1]);
        }
        lemma_merge_pass(rest);
        let mp = merge_pass(rs);
        let mpr = merge_pass(rest);
        assert(mp == seq![rs[0]] + mpr);
        if rest.len() >= 1 {
            assert(!rs[0].overlaps_m(rs[1]));
            assert(mpr[0].start_m() == rs[1].start_m());
            assert(!rs[0].overlaps_m(mpr[0]));
            assert(forall|i: int| #![trigger mpr[i]] 0 <= i < mpr.len() ==> mp[i + 1] == mpr[i]);
        }
    }
}

/// The ordered, auto-merging sequence of selected regions; never empty.
#[derive(Clone, Debug)]
pub struct Selection {
    regions: Vec<Region>,
}

impl View for Selection {
    type V = Seq<Region>;

    closed spec fn view(&self) -> Seq<Region> {
        self.regions@
    }
}

impl Selection {
    /// A selection never has no region at all.
    pub open spec fn wf(&self) -> bool {
        self@.len() >= 1
    }

    /// One empty region at the origin.
    pub fn new() -> (r: Selection)
        ensures
            r.wf(),
            r@ == seq![
                Region {
                    cursor: Cursor {
                        position: Position { line_index: 0, char_index: 0 },
                        affinity: Affinity::Before,
                    },
                    anchor: Position { line_index: 0, char_index: 0 },
                },
            ],
            regions_merged(r@),
            regions_ordered(r@),
    {
        let mut regions: Vec<Region> = Vec::new();
        regions.push(
            Region {
                cursor: Cursor {
                    position: Position { line_index: 0, char_index: 0 },
                    affinity: Affinity::Before,
                },
                anchor: Position { line_index: 0, char_index: 0 },
            },
        );
        let r = Selection { regions };
        proof {
            assert(r@ =~= seq![
                Region {
                    cursor: Cursor {
                        position: Position { line_index: 0, char_index: 0 },
                        affinity: Affinity::Before,
                    },
                    anchor: Position { line_index: 0, char_index: 0 },
                },
            ]);
        }
        r
    }

    pub fn as_regions(&self) -> (r: &Vec<Region>)
        ensures
            r@ == self@,
    {
        &self.regions
    }

    pub fn region_count(&self) -> (r: usize)
        ensures
            r == self@.len(),
    {
        self.regions.len()
    }

    pub fn region_at(&self, index: usize) -> (r: Region)
        requires
            index < self@.len(),
        ensures
            r == self@[index as int],
    {
        self.regions[index]
    }

    /// A fresh selection with the same regions.
    pub fn duplicate(&self) -> (r: Selection)
        ensures
            r@ == self@,
    {
        let mut regions: Vec<Region> = Vec::new();
        let mut i: usize = 0;
        while i < self.regions.len()
            invariant
                i <= self@.len(),
                regions@ == self@.subrange(0, i as int),
            decreases self@.len() - i,
        {
            regions.push(self.regions[i]);
            i += 1;
            proof {
                assert(regions@ =~= self@.subrange(0, i as int));
            }
        }
        proof {
            assert(regions@ =~= self@);
        }
        Selection { regions }
    }

    /// Replaces the whole selection with one region.
    pub fn set(&mut self, region: Region)
        ensures
            final(self)@ == seq![region],
            final(self).wf(),
            regions_merged(final(self)@),
            regions_ordered(final(self)@),
    {
        self.regions.clear();
        self.regions.push(region);
        proof {
            assert(self@ =~= seq![region]);
        }
    }

    /// Inserts a region at its sorted place (after any region with the same
    /// start) without merge-checking: the caller repairs overlap afterwards.
    pub fn add(&mut self, region: Region) -> (r: usize)
        ensures
            r <= old(self)@.len(),
            final(self)@ == old(self)@.insert(r as int, region),
            forall|j: int| 0 <= j < r ==> old(self)@[j].start_m().le(region.start_m()),
            r < old(self)@.len() ==> region.start_m().lt(old(self)@[r as int].start_m()),
            starts_sorted(old(self)@) ==> starts_sorted(final(self)@),
    {
        let ghost rs = self@;
        let mut i: usize = 0;
        loop
            invariant_except_break
                i <= rs.len(),
                self@ == rs,
                forall|j: int| 0 <= j < i ==> rs[j].start_m().le(region.start_m()),
            ensures
                i <= rs.len(),
                self@ == rs,
                forall|j: int| 0 <= j < i ==> rs[j].start_m().le(region.start_m()),
                i < rs.len() ==> region.start_m().lt(rs[i as int].start_m()),
            decreases rs.len() - i,
        {
            if i >= self.regions.len() {
                break;
            }
            let cur = self.regions[i];
            if region.start().lt(cur.start()) {
                break;
            }
            proof {
                assert(cur.start_m().le(region.start_m()));
            }
            i += 1;
        }
        self.regions.insert(i, region);
        proof {
            if starts_sorted(rs) {
                let ns = rs.insert(i as int, region);
                assert(starts_sorted(ns)) by {
                    assert(forall|j: int| #![trigger ns[j]] 0 <= j < i ==> ns[j] == rs[j]);
                    assert(forall|j: int| #![trigger ns[j]] i < j < ns.len() ==> ns[j] == rs[j - 1]);
                }
            }
        }
        i
    }

    /// Applies `f` to the region at `index`, then repairs the invariant
    /// locally: neighbours that the new region overlaps are removed,
    /// leftward ones first; returns the new region's resulting index.
    pub fn update<F: FnOnce(Region) -> Region>(&mut self, index: usize, f: F) -> (r: usize)
        requires
            old(self).wf(),
            index < old(self)@.len(),
            call_requires(f, (old(self)@[index as int],)),
        ensures
            final(self).wf(),
            r < final(self)@.len(),
            exists|g: Region|
                #![auto]
                call_ensures(f, (old(self)@[index as int],), g) && final(self)@ == update_result(
                    old(self)@,
                    index as int,
                    g,
                ) && r == merge_left_bound(old(self)@, index as int, g) && final(self)@[r as int]
                    == g,
            regions_ordered(old(self)@) ==> regions_ordered(final(self)@),
            regions_merged(old(self)@) ==> regions_merged(final(self)@),
    {
        let ghost rs = self@;
        let total = self.regions.len();
        let region = self.regions[index];
        let g = f(region);
        self.regions[index] = g;
        proof {
            lemma_merge_left_bound(rs, index as int, g);
            lemma_merge_right_bound(rs, index as int + 1, g);
            assert(self@ =~= rs.subrange(0, index as int) + seq![g] + rs.subrange(
                index as int + 1,
                rs.len() as int,
            ));
        }
        let mut i: usize = index;
        loop
            invariant_except_break
                i <= index < rs.len(),
                self@ == rs.subrange(0, i as int) + seq![g] + rs.subrange(
                    index as int + 1,
                    rs.len() as int,
                ),
                merge_left_bound(rs, index as int, g) == merge_left_bound(rs, i as int, g),
            ensures
                i <= index < rs.len(),
                i as int == merge_left_bound(rs, index as int, g),
                self@ == rs.subrange(0, i as int) + seq![g] + rs.subrange(
                    index as int + 1,
                    rs.len() as int,
                ),
            decreases i,
        {
            if i == 0 {
                break;
            }
            let prev = self.regions[i - 1];
            proof {
                assert(prev == rs[i as int - 1]);
            }
            if !prev.overlaps_with(g) {
                break;
            }
            self.regions.remove(i - 1);
            i -= 1;
            proof {
                assert(self@ =~= rs.subrange(0, i as int) + seq![g] + rs.subrange(
                    index as int + 1,
                    rs.len() as int,
                ));
            }
        }
        let ghost a = i as int;
        let ghost mut j: int = index as int + 1;
        loop
            invariant_except_break
                i as int == a,
                a == merge_left_bound(rs, index as int, g),
                0 <= a <= index < rs.len(),
                rs.len() <= usize::MAX,
                index as int + 1 <= j <= rs.len(),
                self@ == rs.subrange(0, a) + seq![g] + rs.subrange(j, rs.len() as int),
                merge_right_bound(rs, index as int + 1, g) == merge_right_bound(rs, j, g),
            ensures
                i as int == a,
                j == merge_right_bound(rs, index as int + 1, g),
                self@ == rs.subrange(0, a) + seq![g] + rs.subrange(j, rs.len() as int),
            decreases rs.len() - j,
        {
            if i + 1 >= self.regions.len() {
                proof {
                    assert(j == rs.len());
                }
                break;
            }
            let next = self.regions[i + 1];
            proof {
                assert(next == rs[j]);
            }
            if !g.overlaps_with(next) {
                break;
            }
            self.regions.remove(i + 1);
            proof {
                j = j + 1;
                assert(self@ =~= rs.subrange(0, a) + seq![g] + rs.subrange(j, rs.len() as int));
            }
        }
        proof {
            lemma_update_result_ordered(rs, index as int, g);
            assert(self@ == update_result(rs, index as int, g));
            assert(self@[a] == g);
        }
        i
    }

    /// Applies `f` to every region (the caller keeps `f` monotone in the
    /// region starts so that the mapped starts remain sorted), then makes
    /// one left-to-right merge pass over sorted neighbours; returns `index`
    /// shifted down by the removals before it.
    pub fn update_all<F: Fn(Region) -> Region>(&mut self, index: usize, f: F) -> (r: usize)
        requires
            old(self).wf(),
            forall|i: int| 0 <= i < old(self)@.len() ==> call_requires(f, (old(self)@[i],)),
        ensures
            final(self).wf(),
            r < final(self)@.len(),
            exists|mapped: Seq<Region>|
                #![auto]
                mapped.len() == old(self)@.len() && (forall|i: int|
                    0 <= i < mapped.len() ==> call_ensures(f, (old(self)@[i],), mapped[i]))
                    && final(self)@ == merge_pass(mapped) && (starts_sorted(mapped)
                    ==> regions_merged(final(self)@) && regions_ordered(final(self)@)) && r as int
                    == (if merge_pass_index(mapped, 0, index as int) < merge_pass(mapped).len() {
                    merge_pass_index(mapped, 0, index as int)
                } else {
                    merge_pass(mapped).len() - 1
                }),
    {
        let ghost rs = self@;
        let n = self.regions.len();
        let mut k: usize = 0;
        while k < n
            invariant
                n == rs.len(),
                k <= n,
                self@.len() == n,
                forall|i: int| 0 <= i < rs.len() ==> call_requires(f, (rs[i],)),
                forall|i: int|
                    #![trigger self@[i]]
                    0 <= i < k ==> call_ensures(f, (rs[i],), self@[i]),
                forall|i: int| #![trigger self@[i]] k <= i < n ==> self@[i] == rs[i],
            decreases n - k,
        {
            let cur = self.regions[k];
            let g = f(cur);
            self.regions[k] = g;
            k += 1;
        }
        let ghost mapped = self@;
        proof {
            assert(self@.subrange(0, self@.len() as int) =~= mapped);
            assert(self@.subrange(0, 0) + merge_pass(mapped) =~= merge_pass(mapped));
        }
        let mut idx = index;
        let mut ci: usize = 0;
        proof {
            assert(merge_pass_index(mapped, 0, index as int) == merge_pass_index(
                self@.subrange(ci as int, self@.len() as int),
                ci as int,
                idx as int,
            ));
        }
        loop
            invariant_except_break
                self@.len() >= 1,
                ci < self@.len(),
                self@.len() <= mapped.len(),
                mapped.len() == n,
                merge_pass(mapped) == self@.subrange(0, ci as int) + merge_pass(
                    self@.subrange(ci as int, self@.len() as int),
                ),
                merge_pass_index(mapped, 0, index as int) == merge_pass_index(
                    self@.subrange(ci as int, self@.len() as int),
                    ci as int,
                    idx as int,
                ),
            ensures
                self@ == merge_pass(mapped),
                self@.len() >= 1,
                idx as int == merge_pass_index(mapped, 0, index as int),
            decreases self@.len() - ci,
        {
            if ci + 1 >= self.regions.len() {
                proof {
                    let sub = self@.subrange(ci as int, self@.len() as int);
                    assert(merge_pass(sub) == sub);
                    assert(self@.subrange(0, ci as int) + sub =~= self@);
                }
                break;
            }
            let cur = self.regions[ci];
            let next = self.regions[ci + 1];
            let ghost pre = self@;
            let ghost sub = pre.subrange(ci as int, pre.len() as int);
            proof {
                assert(sub[0] == cur && sub[1] == next);
            }
            if cur.start().le(next.start()) {
                match cur.merge_with(next) {
                    Some(m) => {
                        self.regions[ci] = m;
                        self.regions.remove(ci + 1);
                        if ci + 1 < idx {
                            idx -= 1;
                        }
                        proof {
                            assert(merge_pass(sub) == merge_pass(
                                seq![cur.merge_m(next)] + sub.subrange(2, sub.len() as int),
                            ));
                            assert(self@.subrange(ci as int, self@.len() as int) =~= seq![m]
                                + sub.subrange(2, sub.len() as int));
                            assert(self@.subrange(0, ci as int) =~= pre.subrange(0, ci as int));
                        }
                    },
                    None => {
                        ci += 1;
                        proof {
                            assert(merge_pass(sub) == seq![cur] + merge_pass(sub.drop_first()));
                            assert(sub.drop_first() =~= pre.subrange(ci as int, pre.len() as int));
                            assert(pre.subrange(0, ci as int) =~= pre.subrange(0, ci as int - 1)
                                + seq![cur]);
                        }
                    },
                }
            } else {
                ci += 1;
                proof {
                    assert(merge_pass(sub) == seq![cur] + merge_pass(sub.drop_first()));
                    assert(sub.drop_first() =~= pre.subrange(ci as int, pre.len() as int));
                    assert(pre.subrange(0, ci as int) =~= pre.subrange(0, ci as int - 1)
                        + seq![cur]);
                }
            }
        }
        proof {
            if starts_sorted(mapped) {
                lemma_merge_pass(mapped);
            }
        }
        if idx >= self.regions.len() {
            idx = self.regions.len() - 1;
        }
        idx
    }

    /// Remaps every region through `change`, cursor and anchor each with
    /// its direction-aware drift; a fully merged selection stays in
    /// selection order (abutting empty regions can arise where spans
    /// collapse).
    #[verifier::rlimit(100)]
    pub fn apply_change(&mut self, change: &Change)
        requires
            old(self).wf(),
            forall|i: int|
                #![trigger old(self)@[i]]
                0 <= i < old(self)@.len() ==> remap_fits(old(self)@[i].cursor.position@, change@)
                    && remap_fits(old(self)@[i].anchor@, change@),
        ensures
            final(self).wf(),
            final(self)@.len() == old(self)@.len(),
            forall|i: int|
                #![trigger final(self)@[i]]
                0 <= i < old(self)@.len() ==> final(self)@[i].cursor.position@ == remap_model(
                    old(self)@[i].cursor.position@,
                    change@,
                    old(self)@[i].cursor_drift(),
                ) && final(self)@[i].anchor@ == remap_model(
                    old(self)@[i].anchor@,
                    change@,
                    old(self)@[i].anchor_drift(),
                ) && final(self)@[i]@ == old(self)@[i]@.remap(change@)
                    && final(self)@[i].cursor.affinity == old(self)@[i].cursor.affinity,
            regions_merged(old(self)@) ==> regions_ordered(final(self)@),
    {
        let ghost rs = self@;
        let n = self.regions.len();
        let mut k: usize = 0;
        while k < n
            invariant
                n == rs.len(),
                k <= n,
                self@.len() == n,
                forall|i: int|
                    #![trigger rs[i]]
                    0 <= i < n ==> remap_fits(rs[i].cursor.position@, change@) && remap_fits(
                        rs[i].anchor@,
                        change@,
                    ),
                forall|i: int|
                    #![trigger self@[i]]
                    0 <= i < k ==> self@[i].cursor.position@ == remap_model(
                        rs[i].cursor.position@,
                        change@,
                        rs[i].cursor_drift(),
                    ) && self@[i].anchor@ == remap_model(
                        rs[i].anchor@,
                        change@,
                        rs[i].anchor_drift(),
                    ) && self@[i].cursor.affinity == rs[i].cursor.affinity,
                forall|i: int| #![trigger self@[i]] k <= i < n ==> self@[i] == rs[i],
            decreases n - k,
        {
            let cur = self.regions[k];
            self.regions[k] = cur.apply_change(change);
            k += 1;
        }
        proof {
            if regions_merged(rs) {
                assert(remap_fits(rs[0].cursor.position@, change@));
                lemma_remap_all_ordered(rs, self@, change@);
            }
        }
    }
}

} // verus!
