//! Grouped undo/redo over one buffer.
//!
//! The history owns the authoritative `Text` and two stacks of undo groups.
//! Each group stores the inverse changes of one coalesced edit and the
//! selection that preceded it; undoing a group replays its inverses (last
//! first), which provably restores the buffer that preceded the edit, and
//! pushes the corresponding redo group. Ghost snapshots of those earlier
//! buffers make the restoration an explicit postcondition.

use crate::selection::{Region, Selection};
use crate::state::SessionId;
use crate::text::{
    apply_change_model, change_valid, invert_model, lemma_apply_invert, lemma_invert_valid,
    lemma_remap_fits, pos_fits, remap_fits, text_wf, Change, ChangeModel, PositionModel, Text,
    TextModel,
};
use vstd::prelude::*;

verus! {

/// Every region of the selection addresses content of `t`.
pub open spec fn selection_in_text(rs: Seq<Region>, t: TextModel) -> bool {
    forall|i: int|
        #![trigger rs[i]]
        0 <= i < rs.len() ==> rs[i].cursor.position@.in_text(t) && rs[i].anchor@.in_text(t)
}

/// What kind of edit a change log entry came from; only edits of one kind
/// coalesce into one undo group.
#[derive(Clone, Copy, Debug, PartialEq, Eq, Structural)]
pub enum EditKind {
    Insert,
    Delete,
}

impl EditKind {
    /// Whether an edit of kind `self` may join a group opened by `other`.
    pub fn groups_with(self, other: EditKind) -> (r: bool)
        ensures
            r == (self == other),
    {
        self == other
    }
}

/// The changes of a stack group, applied from the last to the first, are
/// each valid at their point.
pub open spec fn undo_valid(t: TextModel, gs: Seq<ChangeModel>) -> bool
    decreases gs.len(),
{
    gs.len() == 0 || (change_valid(t, gs.last()) && undo_valid(
        apply_change_model(t, gs.last()),
        gs.drop_last(),
    ))
}

/// The buffer after applying the changes of a stack group from the last to
/// the first.
pub open spec fn undo_apply(t: TextModel, gs: Seq<ChangeModel>) -> TextModel
    decreases gs.len(),
{
    if gs.len() == 0 {
        t
    } else {
        undo_apply(apply_change_model(t, gs.last()), gs.drop_last())
    }
}

/// The buffer after applying a list of changes from the first to the last.
pub open spec fn apply_all(t0: TextModel, cs: Seq<ChangeModel>) -> TextModel
    decreases cs.len(),
{
    if cs.len() == 0 {
        t0
    } else {
        apply_all(apply_change_model(t0, cs.first()), cs.drop_first())
    }
}

/// The changes apply validly from the first to the last, and at each step
/// remapping any real position of the buffer stays within machine bounds.
pub open spec fn chain_fits(t0: TextModel, cs: Seq<ChangeModel>) -> bool
    decreases cs.len(),
{
    cs.len() == 0 || {
        &&& change_valid(t0, cs.first())
        &&& (forall|q: PositionModel|
            q.in_text(t0) && pos_fits(q) ==> #[trigger] remap_fits(q, cs.first()))
        &&& chain_fits(apply_change_model(t0, cs.first()), cs.drop_first())
    }
}

pub proof fn lemma_apply_all_snoc(t0: TextModel, cs: Seq<ChangeModel>, c: ChangeModel)
    ensures
        apply_all(t0, cs.push(c)) == apply_change_model(apply_all(t0, cs), c),
    decreases cs.len(),
{
    if cs.len() == 0 {
        assert(cs.push(c).drop_first() =~= Seq::<ChangeModel>::empty());
        assert(cs.push(c).first() == c);
        assert(cs.push(c).len() == 1);
        assert(apply_all(t0, cs.push(c)) == apply_all(
            apply_change_model(t0, c),
            cs.push(c).drop_first(),
        ));
        assert(apply_all(apply_change_model(t0, c), Seq::<ChangeModel>::empty())
            == apply_change_model(t0, c));
        assert(apply_all(t0, cs) == t0);
    } else {
        assert(cs.push(c).drop_first() =~= cs.drop_first().push(c));
        assert(cs.push(c).first() == cs.first());
        lemma_apply_all_snoc(apply_change_model(t0, cs.first()), cs.drop_first(), c);
        assert(apply_all(t0, cs.push(c)) == apply_all(
            apply_change_model(t0, cs.first()),
            cs.drop_first().push(c),
        ));
        assert(apply_all(t0, cs) == apply_all(apply_change_model(t0, cs.first()), cs.drop_first()));
    }
}

pub proof fn lemma_chain_fits_snoc(t0: TextModel, cs: Seq<ChangeModel>, c: ChangeModel)
    requires
        chain_fits(t0, cs),
        change_valid(apply_all(t0, cs), c),
        forall|q: PositionModel|
            q.in_text(apply_all(t0, cs)) && pos_fits(q) ==> #[trigger] remap_fits(q, c),
    ensures
        chain_fits(t0, cs.push(c)),
    decreases cs.len(),
{
    if cs.len() == 0 {
        assert(cs.push(c).drop_first() =~= Seq::<ChangeModel>::empty());
        assert(cs.push(c).first() == c);
        assert(apply_all(t0, cs) == t0);
        assert(change_valid(t0, cs.push(c).first()));
        assert(forall|q: PositionModel|
            q.in_text(t0) && pos_fits(q) ==> #[trigger] remap_fits(q, cs.push(c).first()));
        assert(chain_fits(apply_change_model(t0, cs.push(c).first()), cs.push(c).drop_first()));
    } else {
        assert(cs.push(c).drop_first() =~= cs.drop_first().push(c));
        assert(cs.push(c).first() == cs.first());
        assert(apply_all(t0, cs) == apply_all(apply_change_model(t0, cs.first()), cs.drop_first()));
        lemma_chain_fits_snoc(apply_change_model(t0, cs.first()), cs.drop_first(), c);
        assert(chain_fits(apply_change_model(t0, cs.push(c).first()), cs.push(c).drop_first()));
    }
}

/// Within a fitting chain, each change applies validly to the fold of the
/// changes before it, and remapping real positions through it stays within
/// machine bounds.
pub proof fn lemma_chain_fits_index(t0: TextModel, cs: Seq<ChangeModel>, k: int)
    requires
        chain_fits(t0, cs),
        0 <= k < cs.len(),
    ensures
        change_valid(apply_all(t0, cs.take(k)), cs[k]),
        forall|q: PositionModel|
            q.in_text(apply_all(t0, cs.take(k))) && pos_fits(q) ==> #[trigger] remap_fits(
                q,
                cs[k],
            ),
        apply_all(t0, cs.take(k + 1)) == apply_change_model(apply_all(t0, cs.take(k)), cs[k]),
    decreases k,
{
    lemma_apply_all_snoc(t0, cs.take(k), cs[k]);
    assert(cs.take(k + 1) =~= cs.take(k).push(cs[k]));
    if k == 0 {
        assert(cs.take(0) =~= Seq::<ChangeModel>::empty());
        assert(apply_all(t0, cs.take(0)) == t0);
    } else {
        let t1 = apply_change_model(t0, cs.first());
        let rest = cs.drop_first();
        lemma_chain_fits_index(t1, rest, k - 1);
        assert(rest.take(k - 1) =~= cs.take(k).drop_first());
        assert(cs.take(k).first() == cs.first());
        assert(apply_all(t0, cs.take(k)) == apply_all(t1, cs.take(k).drop_first()));
        assert(rest[k - 1] == cs[k]);
        assert(rest.take(k) =~= cs.take(k + 1).drop_first());
    }
}

/// Ghost image of one undo group: the selection that preceded the edit,
/// the stored (inverse) changes, and the buffer the group restores.
pub ghost struct GroupModel {
    pub selection: Seq<Region>,
    pub changes: Seq<ChangeModel>,
    pub text_before: TextModel,
}

/// The groups of a stack, from the oldest up, each restore the snapshot
/// before them: replaying the top group of a stack whose owner holds `cur`
/// is valid and yields that group's `text_before`, and so on downward.
pub open spec fn groups_chain(gs: Seq<GroupModel>, cur: TextModel) -> bool
    decreases gs.len(),
{
    gs.len() == 0 || {
        let g = gs.last();
        &&& undo_valid(cur, g.changes)
        &&& g.text_before == undo_apply(cur, g.changes)
        &&& text_wf(g.text_before)
        &&& g.selection.len() >= 1
        &&& selection_in_text(g.selection, g.text_before)
        &&& groups_chain(gs.drop_last(), g.text_before)
    }
}

/// Ghost image of a whole history.
pub ghost struct HistoryModel {
    pub text: TextModel,
    pub prev_edit: Option<(SessionId, EditKind)>,
    pub undo_groups: Seq<GroupModel>,
    pub redo_groups: Seq<GroupModel>,
}

/// The history invariant: a well-formed buffer and two stacks of groups
/// each chaining back from it; while an undo group is open the undo stack
/// is non-empty and the redo stack is clear.
pub open spec fn history_wf(m: HistoryModel) -> bool {
    &&& text_wf(m.text)
    &&& groups_chain(m.undo_groups, m.text)
    &&& groups_chain(m.redo_groups, m.text)
    &&& (m.prev_edit is Some ==> m.undo_groups.len() >= 1 && m.redo_groups.len() == 0)
}

struct EditStackEntry {
    selection: Selection,
    changes_start: usize,
}

/// One stack of undo groups: group boundaries index into one shared change
/// log; `texts` snapshots (in ghost code) the buffer each group restores.
struct EditStack {
    entries: Vec<EditStackEntry>,
    changes: Vec<Change>,
    texts: Ghost<Seq<TextModel>>,
}

/// The view of the change log.
pub open spec fn changes_view(cs: Seq<Change>) -> Seq<ChangeModel> {
    cs.map_values(|c: Change| c@)
}

impl EditStack {
    /// Group boundaries ascend and stay inside the change log; one ghost
    /// snapshot per group.
    spec fn inv(&self) -> bool {
        &&& self.texts@.len() == self.entries@.len()
        &&& forall|i: int|
            #![trigger self.entries@[i]]
            0 <= i < self.entries@.len() ==> self.entries@[i].changes_start <= self.changes@.len()
        &&& forall|i: int, j: int|
            #![trigger self.entries@[i].changes_start, self.entries@[j].changes_start]
            0 <= i <= j < self.entries@.len() ==> self.entries@[i].changes_start
                <= self.entries@[j].changes_start
    }

    /// The end of group `i` in the change log.
    spec fn group_end(&self, i: int) -> int {
        if i + 1 < self.entries@.len() {
            self.entries@[i + 1].changes_start as int
        } else {
            self.changes@.len() as int
        }
    }

    /// The groups this stack holds, oldest first.
    spec fn groups(&self) -> Seq<GroupModel> {
        Seq::new(
            self.entries@.len(),
            |i: int|
                GroupModel {
                    selection: self.entries@[i].selection@,
                    changes: changes_view(self.changes@).subrange(
                        self.entries@[i].changes_start as int,
                        self.group_end(i),
                    ),
                    text_before: self.texts@[i],
                },
        )
    }

    fn empty() -> (r: EditStack)
        ensures
            r.inv(),
            r.groups() == Seq::<GroupModel>::empty(),
            r.entries@.len() == 0,
    {
        let r = EditStack { entries: Vec::new(), changes: Vec::new(), texts: Ghost(Seq::empty()) };
        proof {
            assert(r.groups() =~= Seq::<GroupModel>::empty());
        }
        r
    }

    /// Opens a new group anchored at `selection`, snapshotting the owner's
    /// current buffer `cur`.
    fn push_selection(&mut self, selection: Selection, Ghost(cur): Ghost<TextModel>)
        requires
            old(self).inv(),
        ensures
            final(self).inv(),
            final(self).groups() == old(self).groups().push(
                GroupModel {
                    selection: selection@,
                    changes: Seq::empty(),
                    text_before: cur,
                },
            ),
    {
        let ghost pre = *self;
        let changes_start = self.changes.len();
        self.entries.push(EditStackEntry { selection, changes_start });
        proof {
            self.texts@ = self.texts@.push(cur);
        }
        proof {
            let n = pre.entries@.len();
            assert(forall|i: int|
                #![trigger self.entries@[i]]
                0 <= i < n ==> self.entries@[i] == pre.entries@[i]);
            assert(changes_view(self.changes@).subrange(
                changes_start as int,
                self.changes@.len() as int,
            ) =~= Seq::<ChangeModel>::empty());
            assert forall|i: int| 0 <= i < n implies self.groups()[i] == pre.groups()[i] by {
                assert(self.group_end(i) == pre.group_end(i));
            }
            assert(self.groups() =~= pre.groups().push(
                GroupModel { selection: selection@, changes: Seq::empty(), text_before: cur },
            ));
        }
    }

    /// Appends one change to the currently open (last) group.
    fn push_change(&mut self, change: Change)
        requires
            old(self).inv(),
            old(self).entries@.len() >= 1,
        ensures
            final(self).inv(),
            final(self).groups() == old(self).groups().update(
                old(self).groups().len() - 1,
                GroupModel {
                    changes: old(self).groups().last().changes.push(change@),
                    ..old(self).groups().last()
                },
            ),
    {
        let ghost pre = *self;
        self.changes.push(change);
        proof {
            let n = pre.entries@.len();
            assert(changes_view(self.changes@) =~= changes_view(pre.changes@).push(change@));
            assert forall|i: int| 0 <= i < n - 1 implies self.groups()[i] == pre.groups()[i] by {
                assert(self.group_end(i) == pre.group_end(i));
                assert(changes_view(self.changes@).subrange(
                    pre.entries@[i].changes_start as int,
                    pre.group_end(i),
                ) =~= changes_view(pre.changes@).subrange(
                    pre.entries@[i].changes_start as int,
                    pre.group_end(i),
                ));
            }
            assert(self.groups()[n - 1].changes =~= pre.groups()[n - 1].changes.push(change@));
            assert(self.groups() =~= pre.groups().update(
                n - 1,
                GroupModel {
                    changes: pre.groups().last().changes.push(change@),
                    ..pre.groups().last()
                },
            ));
        }
    }

    /// Pops the most recent group, draining its stored changes, in reverse
    /// order, into `out`.
    #[verifier::rlimit(60)]
    fn pop_group(&mut self, out: &mut Vec<Change>) -> (r: Option<Selection>)
        requires
            old(self).inv(),
            old(out)@.len() == 0,
        ensures
            final(self).inv(),
            r is None ==> old(self).entries@.len() == 0 && final(self).groups() == old(
                self,
            ).groups() && final(out)@.len() == 0,
            r matches Some(sel) ==> old(self).entries@.len() >= 1
                && final(self).groups() == old(self).groups().drop_last()
                && sel@ == old(self).groups().last().selection
                && changes_view(final(out)@) == old(self).groups().last().changes.reverse(),
    {
        let ghost pre = *self;
        match self.entries.pop() {
            None => {
                proof {
                    assert(self.groups() =~= pre.groups());
                }
                None
            },
            Some(entry) => {
                let start = entry.changes_start;
                proof {
                    assert(pre.entries@.last() == entry);
                    assert(start <= self.changes@.len());
                }
                let ghost orig_changes = self.changes@;
                while self.changes.len() > start
                    invariant
                        pre.inv(),
                        pre.entries@.len() >= 1,
                        self.entries@ == pre.entries@.drop_last(),
                        self.texts@ == pre.texts@,
                        orig_changes == pre.changes@,
                        start == pre.entries@.last().changes_start,
                        start <= self.changes@.len() <= orig_changes.len(),
                        self.changes@ == orig_changes.subrange(0, self.changes@.len() as int),
                        out@ == orig_changes.subrange(
                            self.changes@.len() as int,
                            orig_changes.len() as int,
                        ).reverse(),
                    decreases self.changes@.len(),
                {
                    let c = self.changes.pop().unwrap();
                    out.push(c);
                    proof {
                        assert(self.changes@ =~= orig_changes.subrange(
                            0,
                            self.changes@.len() as int,
                        ));
                        assert(out@ =~= orig_changes.subrange(
                            self.changes@.len() as int,
                            orig_changes.len() as int,
                        ).reverse());
                    }
                }
                proof {
                    self.texts@ = self.texts@.drop_last();
                }
                proof {
                    let n = pre.entries@.len();
                    assert(forall|i: int|
                        #![trigger self.entries@[i]]
                        0 <= i < n - 1 ==> self.entries@[i] == pre.entries@[i]);
                    assert(self.changes@ =~= orig_changes.subrange(0, start as int));
                    assert forall|i: int| 0 <= i < n - 1 implies self.groups()[i]
                        == pre.groups()[i] by {
                        assert(self.group_end(i) == pre.group_end(i));
                        assert(changes_view(self.changes@).subrange(
                            pre.entries@[i].changes_start as int,
                            self.group_end(i),
                        ) =~= changes_view(pre.changes@).subrange(
                            pre.entries@[i].changes_start as int,
                            pre.group_end(i),
                        ));
                    }
                    assert(self.groups() =~= pre.groups().drop_last());
                    assert(changes_view(out@) =~= changes_view(
                        pre.changes@.subrange(start as int, pre.changes@.len() as int).reverse(),
                    ));
                    assert(changes_view(
                        pre.changes@.subrange(start as int, pre.changes@.len() as int).reverse(),
                    ) =~= pre.groups().last().changes.reverse());
                }
                Some(entry.selection)
            },
        }
    }

    /// Discards every group.
    fn clear(&mut self)
        ensures
            final(self).inv(),
            final(self).groups() == Seq::<GroupModel>::empty(),
    {
        self.entries.clear();
        self.changes.clear();
        proof {
            self.texts@ = Seq::empty();
        }
        proof {
            assert(self.groups() =~= Seq::<GroupModel>::empty());
        }
    }
}

/// The buffer together with its grouped undo/redo stacks and the marker
/// deciding whether the next edit continues the open group.
pub struct History {
    text: Text,
    prev_edit: Option<(SessionId, EditKind)>,
    undo_stack: EditStack,
    redo_stack: EditStack,
}

impl View for History {
    type V = HistoryModel;

    closed spec fn view(&self) -> HistoryModel {
        HistoryModel {
            text: self.text@,
            prev_edit: self.prev_edit,
            undo_groups: self.undo_stack.groups(),
            redo_groups: self.redo_stack.groups(),
        }
    }
}

impl History {
    pub closed spec fn wf(&self) -> bool {
        &&& self.undo_stack.inv()
        &&& self.redo_stack.inv()
        &&& history_wf(self@)
    }

    /// A well-formed history satisfies the model-level invariant.
    pub proof fn lemma_wf_model(&self)
        requires
            self.wf(),
        ensures
            history_wf(self@),
    {
    }

    /// A history over the empty document.
    pub fn new() -> (r: History)
        ensures
            r.wf(),
            r@.text == seq![Seq::<char>::empty()],
            r@.undo_groups.len() == 0,
            r@.redo_groups.len() == 0,
            r@.prev_edit is None,
    {
        History {
            text: Text::new(),
            prev_edit: None,
            undo_stack: EditStack::empty(),
            redo_stack: EditStack::empty(),
        }
    }

    /// A history over an existing buffer.
    pub fn from_text(text: Text) -> (r: History)
        requires
            text.wf(),
        ensures
            r.wf(),
            r@.text == text@,
            r@.undo_groups.len() == 0,
            r@.redo_groups.len() == 0,
            r@.prev_edit is None,
    {
        History { text, prev_edit: None, undo_stack: EditStack::empty(), redo_stack: EditStack::empty() }
    }

    /// The current buffer.
    pub fn as_text(&self) -> (r: &Text)
        ensures
            r@ == self@.text,
    {
        &self.text
    }

    pub fn undo_group_count(&self) -> (r: usize)
        ensures
            r == self@.undo_groups.len(),
    {
        self.undo_stack.entries.len()
    }

    pub fn redo_group_count(&self) -> (r: usize)
        ensures
            r == self@.redo_groups.len(),
    {
        self.redo_stack.entries.len()
    }

    /// Clears the grouping marker, so the next edit always opens a fresh
    /// undo group; invoked after selection-only mutations.
    pub fn force_new_undo_group(&mut self)
        requires
            old(self).wf(),
        ensures
            final(self).wf(),
            final(self)@ == (HistoryModel { prev_edit: None, ..old(self)@ }),
    {
        self.prev_edit = None;
    }

    /// Starts or continues an edit: unless the previous edit was made by
    /// the same session with the same kind, a fresh undo group anchored at
    /// `selection` is opened; any redo history is invalidated either way.
    pub fn edit(&mut self, session: SessionId, kind: EditKind, selection: &Selection)
        requires
            old(self).wf(),
            selection@.len() >= 1,
            selection_in_text(selection@, old(self)@.text),
        ensures
            final(self).wf(),
            final(self)@.text == old(self)@.text,
            final(self)@.redo_groups.len() == 0,
            final(self)@.prev_edit == Some((session, kind)),
            final(self)@.undo_groups.len() >= 1,
            old(self)@.prev_edit == Some((session, kind)) ==> final(self)@.undo_groups == old(
                self,
            )@.undo_groups,
            old(self)@.prev_edit != Some((session, kind)) ==> final(self)@.undo_groups == old(
                self,
            )@.undo_groups.push(
                GroupModel {
                    selection: selection@,
                    changes: Seq::empty(),
                    text_before: old(self)@.text,
                },
            ),
    {
        let ghost m0 = self@;
        let coalesce = match self.prev_edit {
            Some((prev_session, prev_kind)) => prev_session == session && prev_kind.groups_with(
                kind,
            ),
            None => false,
        };
        if !coalesce {
            self.prev_edit = Some((session, kind));
            self.undo_stack.push_selection(selection.duplicate(), Ghost(self.text@));
        }
        self.redo_stack.clear();
        proof {
            if !coalesce {
                let g = GroupModel {
                    selection: selection@,
                    changes: Seq::<ChangeModel>::empty(),
                    text_before: m0.text,
                };
                assert(m0.undo_groups.push(g).drop_last() =~= m0.undo_groups);
                assert(undo_apply(m0.text, g.changes) == m0.text);
                assert(groups_chain(self@.undo_groups, m0.text));
            }
        }
    }

    /// Applies one change as part of the open edit group: the inverse is
    /// computed against the buffer before the change, the change is applied
    /// to the buffer and appended to `changes`, and the inverse joins the
    /// group.
    pub fn apply_change(&mut self, change: Change, changes: &mut Vec<Change>)
        requires
            old(self).wf(),
            old(self)@.undo_groups.len() >= 1,
            old(self)@.redo_groups.len() == 0,
            change_valid(old(self)@.text, change@),
        ensures
            final(self).wf(),
            final(self)@.text == apply_change_model(old(self)@.text, change@),
            final(self)@.prev_edit == old(self)@.prev_edit,
            final(self)@.redo_groups.len() == 0,
            final(self)@.undo_groups == old(self)@.undo_groups.update(
                old(self)@.undo_groups.len() - 1,
                GroupModel {
                    changes: old(self)@.undo_groups.last().changes.push(
                        invert_model(change@, old(self)@.text),
                    ),
                    ..old(self)@.undo_groups.last()
                },
            ),
            final(changes)@ == old(changes)@.push(change),
    {
        let ghost m0 = self@;
        let inverted = change.invert(&self.text);
        self.text.apply_change(&change);
        self.undo_stack.push_change(inverted);
        changes.push(change);
        proof {
            let t0 = m0.text;
            let t1 = self.text@;
            let c = change@;
            let ic = invert_model(c, t0);
            let g0 = m0.undo_groups.last();
            let g1 = GroupModel { changes: g0.changes.push(ic), ..g0 };
            let gs1 = m0.undo_groups.update(m0.undo_groups.len() - 1, g1);
            lemma_apply_invert(t0, c);
            lemma_invert_valid(t0, c);
            assert(g1.changes.drop_last() =~= g0.changes);
            assert(undo_valid(t1, g1.changes));
            assert(undo_apply(t1, g1.changes) == undo_apply(t0, g0.changes));
            assert(gs1.drop_last() =~= m0.undo_groups.drop_last());
            assert(gs1.last() == g1);
            assert(groups_chain(gs1, t1));
            assert(self@.undo_groups =~= gs1);
        }
    }

    /// Pops the most recent undo group, if any: replays its stored inverse
    /// changes (last first), which restores the buffer the group's edit
    /// found, pushes the mirroring redo group anchored at `selection`, and
    /// returns the selection that preceded the edit.
    pub fn undo(&mut self, selection: &Selection, changes: &mut Vec<Change>) -> (r: Option<
        Selection,
    >)
        requires
            old(self).wf(),
            selection@.len() >= 1,
            selection_in_text(selection@, old(self)@.text),
            old(changes)@.len() == 0,

        ensures
            final(self).wf(),
            old(self)@.undo_groups.len() == 0 ==> r is None && final(self)@ == old(self)@
                && final(changes)@.len() == 0,
            old(self)@.undo_groups.len() >= 1 ==> (r matches Some(sel) && {
                let g = old(self)@.undo_groups.last();
                &&& sel@ == g.selection
                &&& final(self)@.text == g.text_before
                &&& final(self)@.undo_groups == old(self)@.undo_groups.drop_last()
                &&& final(self)@.redo_groups.len() == old(self)@.redo_groups.len() + 1
                &&& final(self)@.redo_groups.drop_last() == old(self)@.redo_groups
                &&& final(self)@.redo_groups.last().selection == selection@
                &&& final(self)@.redo_groups.last().text_before == old(self)@.text
                &&& final(self)@.prev_edit is None
                &&& changes_view(final(changes)@) == g.changes.reverse()
                &&& sel@.len() >= 1
                &&& selection_in_text(sel@, final(self)@.text)
                &&& chain_fits(old(self)@.text, changes_view(final(changes)@))
                &&& apply_all(old(self)@.text, changes_view(final(changes)@)) == final(self)@.text
            }),
    {
        let ghost m0 = self@;
        match self.undo_stack.pop_group(changes) {
            None => None,
            Some(sel) => {
                let ghost g = m0.undo_groups.last();
                self.redo_stack.push_selection(selection.duplicate(), Ghost(self.text@));
                let ghost dr = changes@;
                proof {
                    assert(changes_view(dr).len() == g.changes.len());
                    assert(groups_chain(m0.undo_groups, m0.text));
                    assert(undo_valid(m0.text, g.changes));
                    assert(g.changes.take(g.changes.len() as int) =~= g.changes);
                }
                let n = changes.len();
                let mut k: usize = 0;
                while k < n
                    invariant
                        k <= n,
                        n == dr.len(),
                        changes@ == dr,
                        changes_view(dr) == g.changes.reverse(),
                        g.changes.len() == n,
                        g == m0.undo_groups.last(),
                        m0.undo_groups.len() >= 1,
                        selection@.len() >= 1,
                        selection_in_text(selection@, m0.text),
                        text_wf(m0.text),
                        self.text.wf(),
                        undo_valid(self.text@, g.changes.take(g.changes.len() - k)),
                        undo_apply(self.text@, g.changes.take(g.changes.len() - k))
                            == g.text_before,
                        self.undo_stack.inv(),
                        self.undo_stack.groups() == m0.undo_groups.drop_last(),
                        self.redo_stack.inv(),
                        self.redo_stack.groups().len() == m0.redo_groups.len() + 1,
                        self.redo_stack.groups().drop_last() == m0.redo_groups,
                        self.redo_stack.groups().last().selection == selection@,
                        self.redo_stack.groups().last().text_before == m0.text,
                        undo_valid(self.text@, self.redo_stack.groups().last().changes),
                        undo_apply(self.text@, self.redo_stack.groups().last().changes) == m0.text,
                        chain_fits(m0.text, changes_view(dr.take(k as int))),
                        apply_all(m0.text, changes_view(dr.take(k as int))) == self.text@,
                    decreases n - k,
                {
                    let ghost t_pre = self.text@;
                    let ghost rem = g.changes.take(g.changes.len() - k);
                    let ghost acc = self.redo_stack.groups().last().changes;
                    proof {
                        assert(dr[k as int]@ == changes_view(dr)[k as int]);
                        assert(g.changes.reverse()[k as int] == g.changes[g.changes.len() - 1
                            - k]);
                        assert(rem.last() == g.changes[g.changes.len() - 1 - k]);
                        assert(change_valid(t_pre, rem.last()));
                    }
                    let _pre_total: usize = self.text.line_count();
                    match &changes[k] {
                        Change::Delete(start, length) => {
                            assert(start@.plus(length@).line < _pre_total);
                            let _pre_line: usize = self.text.line_len(
                                start.line_index + length.line_count,
                            );
                        },
                        Change::Insert(_, _) => {},
                    }
                    let inv_c = changes[k].invert(&self.text);
                    self.text.apply_change(&changes[k]);
                    let _post_total: usize = self.text.line_count();
                    match &changes[k] {
                        Change::Insert(position, ins) => {
                            let ins_lines = ins.line_count();
                            assert(position@.line + ins_lines - 1 < _post_total);
                            let _post_line: usize = self.text.line_len(
                                position.line_index + (ins_lines - 1),
                            );
                        },
                        Change::Delete(start, _) => {
                            let _post_line: usize = self.text.line_len(start.line_index);
                        },
                    }
                    self.redo_stack.push_change(inv_c);
                    k += 1;
                    proof {
                        lemma_apply_invert(t_pre, rem.last());
                        lemma_invert_valid(t_pre, rem.last());
                        assert(g.changes.take(g.changes.len() - k) =~= rem.drop_last());
                        let acc1 = self.redo_stack.groups().last().changes;
                        assert(acc1 == acc.push(invert_model(rem.last(), t_pre)));
                        assert(acc1.drop_last() =~= acc);
                        assert(acc1.last() == invert_model(rem.last(), t_pre));
                        assert(apply_change_model(self.text@, acc1.last()) == t_pre);
                        assert(undo_valid(self.text@, acc1));
                        assert(undo_apply(self.text@, acc1) == undo_apply(t_pre, acc));
                        assert(self.redo_stack.groups().drop_last() =~= m0.redo_groups);
                        assert forall|q: PositionModel|
                            q.in_text(t_pre) && pos_fits(q) implies #[trigger] remap_fits(
                            q,
                            dr[k - 1]@,
                        ) by {
                            lemma_remap_fits(t_pre, dr[k - 1]@, q);
                        }
                        lemma_chain_fits_snoc(
                            m0.text,
                            changes_view(dr.take(k - 1)),
                            dr[k - 1]@,
                        );
                        lemma_apply_all_snoc(m0.text, changes_view(dr.take(k - 1)), dr[k - 1]@);
                        assert(changes_view(dr.take(k as int)) =~= changes_view(
                            dr.take(k - 1),
                        ).push(dr[k - 1]@));
                    }
                }
                self.prev_edit = None;
                proof {
                    assert(g.changes.take(0) =~= Seq::<ChangeModel>::empty());
                    assert(self.text@ == g.text_before);
                    assert(dr.take(n as int) =~= dr);
                    assert(groups_chain(self@.undo_groups, g.text_before));
                    assert(groups_chain(self@.redo_groups.drop_last(), m0.text));
                    assert(groups_chain(self@.redo_groups, self.text@));
                }
                Some(sel)
            },
        }
    }

    /// The mirror of `undo` against the redo stack: replays the popped redo
    /// group (which restores the buffer as it stood before the undo) and
    /// pushes the mirroring undo group anchored at `selection`.
    pub fn redo(&mut self, selection: &Selection, changes: &mut Vec<Change>) -> (r: Option<
        Selection,
    >)
        requires
            old(self).wf(),
            selection@.len() >= 1,
            selection_in_text(selection@, old(self)@.text),
            old(changes)@.len() == 0,

        ensures
            final(self).wf(),
            old(self)@.redo_groups.len() == 0 ==> r is None && final(self)@ == old(self)@
                && final(changes)@.len() == 0,
            old(self)@.redo_groups.len() >= 1 ==> (r matches Some(sel) && {
                let g = old(self)@.redo_groups.last();
                &&& sel@ == g.selection
                &&& final(self)@.text == g.text_before
                &&& final(self)@.redo_groups == old(self)@.redo_groups.drop_last()
                &&& final(self)@.undo_groups.len() == old(self)@.undo_groups.len() + 1
                &&& final(self)@.undo_groups.drop_last() == old(self)@.undo_groups
                &&& final(self)@.undo_groups.last().selection == selection@
                &&& final(self)@.undo_groups.last().text_before == old(self)@.text
                &&& final(self)@.prev_edit is None
                &&& changes_view(final(changes)@) == g.changes.reverse()
                &&& sel@.len() >= 1
                &&& selection_in_text(sel@, final(self)@.text)
                &&& chain_fits(old(self)@.text, changes_view(final(changes)@))
                &&& apply_all(old(self)@.text, changes_view(final(changes)@)) == final(self)@.text
            }),
    {
        let ghost m0 = self@;
        match self.redo_stack.pop_group(changes) {
            None => None,
            Some(sel) => {
                let ghost g = m0.redo_groups.last();
                self.undo_stack.push_selection(selection.duplicate(), Ghost(self.text@));
                let ghost dr = changes@;
                proof {
                    assert(changes_view(dr).len() == g.changes.len());
                    assert(groups_chain(m0.redo_groups, m0.text));
                    assert(undo_valid(m0.text, g.changes));
                    assert(g.changes.take(g.changes.len() as int) =~= g.changes);
                }
                let n = changes.len();
                let mut k: usize = 0;
                while k < n
                    invariant
                        k <= n,
                        n == dr.len(),
                        changes@ == dr,
                        changes_view(dr) == g.changes.reverse(),
                        g.changes.len() == n,
                        g == m0.redo_groups.last(),
                        m0.redo_groups.len() >= 1,
                        selection@.len() >= 1,
                        selection_in_text(selection@, m0.text),
                        text_wf(m0.text),
                        self.text.wf(),
                        undo_valid(self.text@, g.changes.take(g.changes.len() - k)),
                        undo_apply(self.text@, g.changes.take(g.changes.len() - k))
                            == g.text_before,
                        self.redo_stack.inv(),
                        self.redo_stack.groups() == m0.redo_groups.drop_last(),
                        self.undo_stack.inv(),
                        self.undo_stack.groups().len() == m0.undo_groups.len() + 1,
                        self.undo_stack.groups().drop_last() == m0.undo_groups,
                        self.undo_stack.groups().last().selection == selection@,
                        self.undo_stack.groups().last().text_before == m0.text,
                        undo_valid(self.text@, self.undo_stack.groups().last().changes),
                        undo_apply(self.text@, self.undo_stack.groups().last().changes) == m0.text,
                        chain_fits(m0.text, changes_view(dr.take(k as int))),
                        apply_all(m0.text, changes_view(dr.take(k as int))) == self.text@,
                    decreases n - k,
                {
                    let ghost t_pre = self.text@;
                    let ghost rem = g.changes.take(g.changes.len() - k);
                    let ghost acc = self.undo_stack.groups().last().changes;
                    proof {
                        assert(dr[k as int]@ == changes_view(dr)[k as int]);
                        assert(g.changes.reverse()[k as int] == g.changes[g.changes.len() - 1
                            - k]);
                        assert(rem.last() == g.changes[g.changes.len() - 1 - k]);
                        assert(change_valid(t_pre, rem.last()));
                    }
                    let _pre_total: usize = self.text.line_count();
                    match &changes[k] {
                        Change::Delete(start, length) => {
                            assert(start@.plus(length@).line < _pre_total);
                            let _pre_line: usize = self.text.line_len(
                                start.line_index + length.line_count,
                            );
                        },
                        Change::Insert(_, _) => {},
                    }
                    let inv_c = changes[k].invert(&self.text);
                    self.text.apply_change(&changes[k]);
                    let _post_total: usize = self.text.line_count();
                    match &changes[k] {
                        Change::Insert(position, ins) => {
                            let ins_lines = ins.line_count();
                            assert(position@.line + ins_lines - 1 < _post_total);
                            let _post_line: usize = self.text.line_len(
                                position.line_index + (ins_lines - 1),
                            );
                        },
                        Change::Delete(start, _) => {
                            let _post_line: usize = self.text.line_len(start.line_index);
                        },
                    }
                    self.undo_stack.push_change(inv_c);
                    k += 1;
                    proof {
                        lemma_apply_invert(t_pre, rem.last());
                        lemma_invert_valid(t_pre, rem.last());
                        assert(g.changes.take(g.changes.len() - k) =~= rem.drop_last());
                        let acc1 = self.undo_stack.groups().last().changes;
                        assert(acc1 == acc.push(invert_model(rem.last(), t_pre)));
                        assert(acc1.drop_last() =~= acc);
                        assert(acc1.last() == invert_model(rem.last(), t_pre));
                        assert(apply_change_model(self.text@, acc1.last()) == t_pre);
                        assert(undo_valid(self.text@, acc1));
                        assert(undo_apply(self.text@, acc1) == undo_apply(t_pre, acc));
                        assert(self.undo_stack.groups().drop_last() =~= m0.undo_groups);
                        assert forall|q: PositionModel|
                            q.in_text(t_pre) && pos_fits(q) implies #[trigger] remap_fits(
                            q,
                            dr[k - 1]@,
                        ) by {
                            lemma_remap_fits(t_pre, dr[k - 1]@, q);
                        }
                        lemma_chain_fits_snoc(
                            m0.text,
                            changes_view(dr.take(k - 1)),
                            dr[k - 1]@,
                        );
                        lemma_apply_all_snoc(m0.text, changes_view(dr.take(k - 1)), dr[k - 1]@);
                        assert(changes_view(dr.take(k as int)) =~= changes_view(
                            dr.take(k - 1),
                        ).push(dr[k - 1]@));
                    }
                }
                self.prev_edit = None;
                proof {
                    assert(g.changes.take(0) =~= Seq::<ChangeModel>::empty());
                    assert(self.text@ == g.text_before);
                    assert(dr.take(n as int) =~= dr);
                    assert(groups_chain(self@.redo_groups, g.text_before));
                    assert(groups_chain(self@.undo_groups.drop_last(), m0.text));
                    assert(groups_chain(self@.undo_groups, self.text@));
                }
                Some(sel)
            },
        }
    }
}

} // verus!
