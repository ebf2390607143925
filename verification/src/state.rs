//! Shared-state orchestration: documents, the sessions viewing them, and
//! the routing of edits between them.
//!
//! A `Document` owns the buffer (through its `History`) and its inlay
//! tables; a `Session` owns one view's selection and per-line wrap and
//! column caches; the `State` owns both arenas and routes every mutation:
//! selection-only changes force a fresh undo group, text changes go through
//! the history and are then propagated — the editing session's selection is
//! remapped through every change (or replaced, after undo/redo, by the
//! restored one), every other session viewing the same document is remapped
//! the same way, and the per-line caches of all of them are recomputed.
//!
//! Inlay invalidation policy: this interface installs no inlays, and a text
//! modification drops any the document holds, so the tables stay empty and
//! every line composes to its raw text run.
//!
//! Caches are recomputed eagerly for the whole document on each text
//! modification: simple and always exact.

use crate::history::{
    apply_all, chain_fits, changes_view, selection_in_text, EditKind, History,
};
use crate::layout::{
    breaks_view, inlays_view, inlays_wf, inline_elements_model, lemma_no_inlay_elements,
    wrapped_elements_model, WrappedElement, WrappedElementModel, WrappedElements,
};
use crate::move_ops;
use crate::selection::{
    region_affinities, region_views, regions_remap_all, Cursor, Region, RegionModel, Selection,
};
use crate::text::{
    pos_fits, remap_fits, Change, ChangeModel, Position, PositionModel, Text, TextModel,
};
use crate::wrap::{
    atoms_of, indent_of, leading_ws_len, lemma_str_width_bounds, lemma_str_width_push, str_width,
    wrap, wrap_run,
};
use vstd::prelude::*;

verus! {

/// Identifies one session: one independent view (selection, wrap and fold
/// caches) over a document. The id only decides undo-group coalescing and
/// which session's selection is authoritative after an edit.
#[derive(Clone, Copy, Debug, PartialEq, Eq, Hash, Structural)]
pub struct SessionId(usize);

impl SessionId {
    /// The id as a number.
    pub closed spec fn spec_value(self) -> usize {
        self.0
    }

    /// An explicit id, for driving a `History` directly; ids that address a
    /// `State` come from `State::open_session`.
    pub fn new(value: usize) -> (r: SessionId)
        ensures
            r.spec_value() == value,
    {
        SessionId(value)
    }
}

/// Identifies one shared document.
#[derive(Clone, Copy, Debug, PartialEq, Eq, Hash, Structural)]
pub struct DocumentId(usize);

/// Synthetic content spliced into a line's visual layout without existing
/// in the buffer: either text or a widget of a declared column width.
#[derive(Clone, Debug, PartialEq, Eq)]
pub enum InlineInlay {
    Text(String),
    Widget(InlineWidget),
}

/// An inline widget: the layout needs only its identity and the number of
/// display columns it occupies.
#[derive(Clone, Copy, Debug, PartialEq, Eq, Structural)]
pub struct InlineWidget {
    pub id: usize,
    pub column_count: usize,
}

/// Block-level synthetic content anchored between lines.
#[derive(Clone, Copy, Debug, PartialEq, Eq, Structural)]
pub enum BlockInlay {
    Widget(BlockWidget),
}

/// A block widget; its pixel metrics are the host's concern, the layout
/// logic needs only its identity.
#[derive(Clone, Copy, Debug, PartialEq, Eq, Structural)]
pub struct BlockWidget {
    pub id: usize,
}

/// The atoms of one inlay-free line.
pub open spec fn line_atoms(line: Seq<char>, tab: int) -> Seq<crate::wrap::Atom> {
    atoms_of(inline_elements_model(line, Seq::empty(), 0), tab)
}

/// The leading-whitespace width of a line.
pub open spec fn line_base_indent(line: Seq<char>, tab: int) -> int {
    str_width(line.take(leading_ws_len(line)), tab)
}

/// The greedy wrap of one inlay-free line.
pub open spec fn line_wrap_state(line: Seq<char>, max: int, tab: int) -> crate::wrap::WrapState {
    wrap_run(
        line_atoms(line, tab),
        max,
        indent_of(line_atoms(line, tab), line_base_indent(line, tab), max),
    )
}

/// The cached continuation indentation of a line (degenerating to zero
/// beyond the machine word, as `wrap` does).
pub open spec fn line_indent_clamped(line: Seq<char>, max: int, tab: int) -> int {
    let ind = indent_of(line_atoms(line, tab), line_base_indent(line, tab), max);
    if ind <= usize::MAX {
        ind
    } else {
        0
    }
}

/// Caps a count at the machine word.
pub open spec fn clamp_usize(x: int) -> int {
    if x <= usize::MAX {
        x
    } else {
        usize::MAX as int
    }
}

/// The widest visual row of a wrapped line: display columns accumulate per
/// element and restart at the indentation after each wrap marker.
pub open spec fn col_fold(
    ws: Seq<WrappedElementModel>,
    cur: int,
    maxw: int,
    indent: int,
    tab: int,
) -> int
    decreases ws.len(),
{
    if ws.len() == 0 {
        if cur >= maxw {
            cur
        } else {
            maxw
        }
    } else {
        match ws.first() {
            WrappedElementModel::Text { text, .. } => col_fold(
                ws.drop_first(),
                cur + str_width(text, tab),
                maxw,
                indent,
                tab,
            ),
            WrappedElementModel::Widget(w) => col_fold(
                ws.drop_first(),
                cur + w.column_count,
                maxw,
                indent,
                tab,
            ),
            WrappedElementModel::Wrap => col_fold(
                ws.drop_first(),
                indent,
                if cur >= maxw {
                    cur
                } else {
                    maxw
                },
                indent,
                tab,
            ),
        }
    }
}

/// The column count of one inlay-free line, wrapped at the given breaks.
pub open spec fn line_column_count(line: Seq<char>, max: int, tab: int) -> int {
    col_fold(
        wrapped_elements_model(
            inline_elements_model(line, Seq::empty(), 0),
            line_wrap_state(line, max, tab).breaks,
            0,
        ),
        0,
        0,
        line_indent_clamped(line, max, tab),
        tab,
    )
}

/// The layout's per-line wrap and column tables are exactly the wrap data
/// of its buffer under the given widths.
pub open spec fn layout_matches(
    l: crate::layout::Layout,
    max: int,
    tab: int,
) -> bool {
    forall|i: int|
        #![trigger l.wrap_char_indices@[i]]
        0 <= i < l.text@.len() ==> breaks_view(l.wrap_char_indices@[i]@) == line_wrap_state(
            l.text@[i],
            max,
            tab,
        ).breaks && l.wrap_indentation_width@[i] as int == line_indent_clamped(l.text@[i], max, tab)
            && l.column_count@[i] as int == clamp_usize(line_column_count(l.text@[i], max, tab))
}

/// The inserted sub-text, as a model, when the edit inserts one.
pub open spec fn text_opt_view(t: Option<Text>) -> Option<TextModel> {
    match t {
        Some(x) => Some(x@),
        None => None,
    }
}

/// One edit processed up to its first `k` selection regions: the changes it
/// records and the buffer they leave. Region `k` is the `k`-th region of
/// the selection at the start of the edit, carried through the changes
/// already recorded; its span is deleted and, when inserting, the text is
/// spliced in where the collapsed span landed — selection-replace
/// semantics, left to right, each region remapped through the earlier
/// changes of the same edit.
pub open spec fn edit_state(
    t0: TextModel,
    ws: Seq<RegionModel>,
    k: int,
    ins: Option<TextModel>,
) -> (Seq<ChangeModel>, TextModel)
    decreases k,
{
    if k <= 0 {
        (Seq::empty(), t0)
    } else {
        let prev = edit_state(t0, ws, k - 1, ins);
        let r = regions_remap_all(ws, prev.0)[k - 1];
        let del = ChangeModel::Delete(r.start(), r.end().minus(r.start()));
        let t2 = crate::text::apply_change_model(prev.1, del);
        match ins {
            Some(x) => {
                let insc = ChangeModel::Insert(r.remap(del).start(), x);
                (prev.0 + seq![del, insc], crate::text::apply_change_model(t2, insc))
            },
            None => (prev.0 + seq![del], t2),
        }
    }
}

/// One region after a leftward cursor step: the cursor moves to the
/// previous character slot (or the previous line's end, or stays at the
/// document start); the anchor collapses onto it or stays, per the flag.
pub open spec fn left_step_region(r: RegionModel, t: TextModel, reset_anchor: bool) -> RegionModel {
    let c = crate::move_ops::move_left_model(r.cursor, t);
    RegionModel {
        cursor: c,
        anchor: if reset_anchor {
            c
        } else {
            r.anchor
        },
    }
}

/// The rightward mirror of `left_step_region`.
pub open spec fn right_step_region(r: RegionModel, t: TextModel, reset_anchor: bool) -> RegionModel {
    let c = crate::move_ops::move_right_model(r.cursor, t);
    RegionModel {
        cursor: c,
        anchor: if reset_anchor {
            c
        } else {
            r.anchor
        },
    }
}

/// One view of a document: its selection and per-line layout caches.
pub struct Session {
    tab_column_count: usize,
    max_column_count: usize,
    column_count: Vec<usize>,
    fold_column_index: Vec<usize>,
    wrap_char_indices: Vec<Vec<usize>>,
    wrap_indentation_width: Vec<usize>,
    selection: Selection,
    last_added_region: usize,
    document: DocumentId,
}

/// One shared document: its history, its inlay tables, and the sessions
/// viewing it.
pub struct Document {
    sessions: Vec<SessionId>,
    history: History,
    inline_inlays: Vec<Vec<(usize, InlineInlay)>>,
    block_inlays: Vec<(usize, BlockInlay)>,
}

/// All documents and sessions, in arenas addressed by their ids.
pub struct State {
    sessions: Vec<Session>,
    documents: Vec<Document>,
}

/// The per-line caches hold exactly the wrap and column data of `t`.
pub open spec fn session_caches_ok(
    column_count: Seq<usize>,
    fold_column_index: Seq<usize>,
    wrap_char_indices: Seq<Vec<usize>>,
    wrap_indentation_width: Seq<usize>,
    t: TextModel,
    max: int,
    tab: int,
) -> bool {
    &&& column_count.len() == t.len()
    &&& fold_column_index.len() == t.len()
    &&& wrap_char_indices.len() == t.len()
    &&& wrap_indentation_width.len() == t.len()
    &&& forall|i: int|
        #![trigger wrap_char_indices[i]]
        0 <= i < t.len() ==> breaks_view(wrap_char_indices[i]@) == line_wrap_state(
            t[i],
            max,
            tab,
        ).breaks && wrap_indentation_width[i] as int == line_indent_clamped(t[i], max, tab)
            && column_count[i] as int == clamp_usize(line_column_count(t[i], max, tab))
}

impl Session {
    /// The session's caches mirror `t` and its selection addresses it.
    pub closed spec fn wf_for(&self, t: TextModel) -> bool {
        &&& session_caches_ok(
            self.column_count@,
            self.fold_column_index@,
            self.wrap_char_indices@,
            self.wrap_indentation_width@,
            t,
            self.max_column_count as int,
            self.tab_column_count as int,
        )
        &&& self.selection@.len() >= 1
        &&& selection_in_text(self.selection@, t)
        &&& self.last_added_region < self.selection@.len()
    }
}

/// The exact display width of a text run.
fn text_width_exec(s: &str, tab_column_count: usize) -> (r: u128)
    ensures
        r as int == str_width(s@, tab_column_count as int),
{
    let n = s.unicode_len();
    let mut i: usize = 0;
    let mut w: u128 = 0;
    while i < n
        invariant
            i <= n,
            n == s@.len(),
            w as int == str_width(s@.take(i as int), tab_column_count as int),
            w as int <= i * (usize::MAX as int),
        decreases n - i,
    {
        let c = s.get_char(i);
        let cw = if c == '\t' {
            tab_column_count
        } else {
            1
        };
        proof {
            assert(s@.take(i as int + 1) =~= s@.take(i as int).push(s@[i as int]));
            lemma_str_width_push(s@.take(i as int), s@[i as int], tab_column_count as int);
        }
        w = w + (cw as u128);
        i = i + 1;
    }
    proof {
        assert(s@.take(n as int) =~= s@);
    }
    w
}

/// The widest visual row of one composed line, capped at the machine word.
fn line_column_width(
    line: &String,
    inlays: &Vec<(usize, InlineInlay)>,
    breaks: &Vec<usize>,
    indent: usize,
    tab_column_count: usize,
) -> (r: usize)
    requires
        inlays_wf(inlays_view(inlays@), line@.len() as int),
        crate::layout::breaks_wf(breaks_view(breaks@)),
        forall|i: int|
            0 <= i < breaks@.len() ==> #[trigger] breaks_view(breaks@)[i] >= 0,
        crate::layout::advance_total(inline_elements_model(line@, inlays_view(inlays@), 0))
            <= usize::MAX,
        0 <= tab_column_count,
    ensures
        r as int == clamp_usize(
            col_fold(
                wrapped_elements_model(
                    inline_elements_model(line@, inlays_view(inlays@), 0),
                    breaks_view(breaks@),
                    0,
                ),
                0,
                0,
                indent as int,
                tab_column_count as int,
            ),
        ),
{
    let ghost tabm = tab_column_count as int;
    let ghost indm = indent as int;
    let ghost cbound = usize::MAX as int;
    let mut it = WrappedElements::new(line.as_str(), inlays, breaks);
    let ghost all = it.remaining();
    let mut cur: u128 = 0;
    let mut maxw: u128 = 0;
    let ghost mut cur_g: int = 0;
    let ghost mut maxw_g: int = 0;
    loop
        invariant_except_break
            it.wf(),
            tabm == tab_column_count as int,
            indm == indent as int,
            0 <= cur_g,
            0 <= maxw_g,
            (cur_g <= cbound ==> cur as int == cur_g),
            (cur_g > cbound ==> cur as int == cbound),
            (maxw_g <= cbound ==> maxw as int == maxw_g),
            (maxw_g > cbound ==> maxw as int == cbound),
            cbound == usize::MAX as int,
            col_fold(all, 0, 0, indm, tabm) == col_fold(it.remaining(), cur_g, maxw_g, indm, tabm),
        ensures
            col_fold(all, 0, 0, indm, tabm) == if cur_g >= maxw_g {
                cur_g
            } else {
                maxw_g
            },
            0 <= cur_g,
            0 <= maxw_g,
            (cur_g <= cbound ==> cur as int == cur_g),
            (cur_g > cbound ==> cur as int == cbound),
            (maxw_g <= cbound ==> maxw as int == maxw_g),
            (maxw_g > cbound ==> maxw as int == cbound),
            cbound == usize::MAX as int,
        decreases it.remaining().len(),
    {
        let ghost rem = it.remaining();
        match it.next() {
            None => {
                break;
            },
            Some(WrappedElement::Text { text, .. }) => {
                let w = text_width_exec(text, tab_column_count);
                proof {
                    lemma_str_width_bounds(text@, tabm);
                    cur_g = cur_g + w as int;
                }
                let nc = cur.saturating_add(w);
                cur = if nc > (usize::MAX as u128) {
                    usize::MAX as u128
                } else {
                    nc
                };
            },
            Some(WrappedElement::Widget(wg)) => {
                proof {
                    cur_g = cur_g + wg.column_count as int;
                }
                let nc = cur.saturating_add(wg.column_count as u128);
                cur = if nc > (usize::MAX as u128) {
                    usize::MAX as u128
                } else {
                    nc
                };
            },
            Some(WrappedElement::Wrap) => {
                proof {
                    if cur_g >= maxw_g {
                        maxw_g = cur_g;
                    }
                    cur_g = indm;
                }
                if cur > maxw {
                    maxw = cur;
                }
                cur = indent as u128;
            },
        }
    }
    let result128 = if cur > maxw {
        cur
    } else {
        maxw
    };
    let r: usize = if result128 > (usize::MAX as u128) {
        usize::MAX
    } else {
        result128 as usize
    };
    r
}

/// Recomputes the caches of one inlay-free line: its wrap breaks, its
/// continuation indentation and its column count.
fn compute_line_caches(
    line: &String,
    max_column_count: usize,
    tab_column_count: usize,
    empty_inlays: &Vec<(usize, InlineInlay)>,
) -> (r: (Vec<usize>, usize, usize))
    requires
        empty_inlays@.len() == 0,
    ensures
        breaks_view(r.0@) == line_wrap_state(
            line@,
            max_column_count as int,
            tab_column_count as int,
        ).breaks,
        r.1 as int == line_indent_clamped(line@, max_column_count as int, tab_column_count as int),
        r.2 as int == clamp_usize(
            line_column_count(line@, max_column_count as int, tab_column_count as int),
        ),
{
    let _line_len: usize = line.as_str().unicode_len();
    proof {
        assert(inlays_view(empty_inlays@) =~= Seq::<(int, crate::layout::InlayModel)>::empty());
        lemma_no_inlay_elements(line@, 0);
    }
    let mut breaks: Vec<usize> = Vec::new();
    let indent = wrap(line, empty_inlays, max_column_count, tab_column_count, &mut breaks);
    proof {
        assert(crate::layout::breaks_wf(breaks_view(breaks@)));
    }
    let col = line_column_width(line, empty_inlays, &breaks, indent, tab_column_count);
    (breaks, indent, col)
}

/// Rebuilds every per-line cache of `session` from the document buffer.
fn rebuild_caches(session: &mut Session, text: &Text, empty_inlays: &Vec<(usize, InlineInlay)>)
    requires
        text.wf(),
        empty_inlays@.len() == 0,
    ensures
        final(session).tab_column_count == old(session).tab_column_count,
        final(session).max_column_count == old(session).max_column_count,
        final(session).selection == old(session).selection,
        final(session).last_added_region == old(session).last_added_region,
        final(session).document == old(session).document,
        session_caches_ok(
            final(session).column_count@,
            final(session).fold_column_index@,
            final(session).wrap_char_indices@,
            final(session).wrap_indentation_width@,
            text@,
            old(session).max_column_count as int,
            old(session).tab_column_count as int,
        ),
{
    session.column_count.clear();
    session.fold_column_index.clear();
    session.wrap_char_indices.clear();
    session.wrap_indentation_width.clear();
    let n = text.line_count();
    let mut i: usize = 0;
    while i < n
        invariant
            i <= n,
            n == text@.len(),
            text.wf(),
            empty_inlays@.len() == 0,
            session.tab_column_count == old(session).tab_column_count,
            session.max_column_count == old(session).max_column_count,
            session.selection == old(session).selection,
            session.last_added_region == old(session).last_added_region,
            session.document == old(session).document,
            session.column_count@.len() == i,
            session.fold_column_index@.len() == i,
            session.wrap_char_indices@.len() == i,
            session.wrap_indentation_width@.len() == i,
            forall|j: int|
                #![trigger session.wrap_char_indices@[j]]
                0 <= j < i ==> breaks_view(session.wrap_char_indices@[j]@) == line_wrap_state(
                    text@[j],
                    session.max_column_count as int,
                    session.tab_column_count as int,
                ).breaks && session.wrap_indentation_width@[j] as int == line_indent_clamped(
                    text@[j],
                    session.max_column_count as int,
                    session.tab_column_count as int,
                ) && session.column_count@[j] as int == clamp_usize(
                    line_column_count(
                        text@[j],
                        session.max_column_count as int,
                        session.tab_column_count as int,
                    ),
                ),
        decreases n - i,
    {
        let line = text.line(i);
        let (breaks, indent, col) = compute_line_caches(
            line,
            session.max_column_count,
            session.tab_column_count,
            empty_inlays,
        );
        session.wrap_char_indices.push(breaks);
        session.wrap_indentation_width.push(indent);
        session.column_count.push(col);
        session.fold_column_index.push(0);
        i = i + 1;
    }
}

/// Remaps a selection through a fitting chain of changes, in order.
fn remap_selection(selection: &mut Selection, changes: &Vec<Change>, Ghost(t0): Ghost<TextModel>)
    requires
        old(selection)@.len() >= 1,
        selection_in_text(old(selection)@, t0),
        chain_fits(t0, changes_view(changes@)),
    ensures
        final(selection)@.len() == old(selection)@.len(),
        selection_in_text(final(selection)@, apply_all(t0, changes_view(changes@))),
        region_views(final(selection)@) == regions_remap_all(
            region_views(old(selection)@),
            changes_view(changes@),
        ),
        region_affinities(final(selection)@) == region_affinities(old(selection)@),
{
    let ghost cv = changes_view(changes@);
    let ghost ws0 = region_views(old(selection)@);
    let n = changes.len();
    let mut k: usize = 0;
    proof {
        assert(cv.take(0) =~= Seq::<ChangeModel>::empty());
    }
    while k < n
        invariant
            k <= n,
            n == changes@.len(),
            cv == changes_view(changes@),
            ws0 == region_views(old(selection)@),
            chain_fits(t0, cv),
            selection@.len() == old(selection)@.len(),
            selection@.len() >= 1,
            selection_in_text(selection@, apply_all(t0, cv.take(k as int))),
            region_views(selection@) == regions_remap_all(ws0, cv.take(k as int)),
            region_affinities(selection@) == region_affinities(old(selection)@),
        decreases n - k,
    {
        proof {
            crate::history::lemma_chain_fits_index(t0, cv, k as int);
        }
        let ghost t_pre = apply_all(t0, cv.take(k as int));
        let ghost pre_sel = selection@;
        let change = &changes[k];
        proof {
            assert(change@ == cv[k as int]);
            assert forall|i: int|
                #![trigger selection@[i]]
                0 <= i < selection@.len() implies remap_fits(
                selection@[i].cursor.position@,
                change@,
            ) && remap_fits(selection@[i].anchor@, change@) by {
                assert(pos_fits(selection@[i].cursor.position@));
                assert(pos_fits(selection@[i].anchor@));
            }
        }
        selection.apply_change(change);
        k = k + 1;
        proof {
            let t_post = apply_all(t0, cv.take(k as int));
            assert(t_post == crate::text::apply_change_model(t_pre, cv[k - 1]));
            crate::selection::lemma_regions_remap_all_snoc(ws0, cv.take(k - 1), cv[k - 1]);
            assert(cv.take(k as int) =~= cv.take(k - 1).push(cv[k - 1]));
            assert(region_views(selection@) =~= region_views(pre_sel).map_values(
                |r: RegionModel| r.remap(cv[k - 1]),
            ));
            assert(region_affinities(selection@) =~= region_affinities(pre_sel));
            assert forall|i: int|
                #![trigger selection@[i]]
                0 <= i < selection@.len() implies selection@[i].cursor.position@.in_text(t_post)
                && selection@[i].anchor@.in_text(t_post) by {
                crate::text::lemma_remap_valid(
                    t_pre,
                    cv[k - 1],
                    pre_sel[i].cursor.position@,
                    pre_sel[i].cursor_drift(),
                );
                crate::text::lemma_remap_valid(
                    t_pre,
                    cv[k - 1],
                    pre_sel[i].anchor@,
                    pre_sel[i].anchor_drift(),
                );
            }
        }
    }
    proof {
        assert(cv.take(n as int) =~= cv);
    }
}

/// Applies one change through the history, also witnessing that remapping
/// any real position of the pre-change buffer through it fits.
fn history_apply_change_logged(history: &mut History, change: Change, changes: &mut Vec<Change>)
    requires
        old(history).wf(),
        old(history)@.undo_groups.len() >= 1,
        old(history)@.redo_groups.len() == 0,
        crate::text::change_valid(old(history)@.text, change@),
    ensures
        final(history).wf(),
        final(history)@.text == crate::text::apply_change_model(old(history)@.text, change@),
        final(history)@.prev_edit == old(history)@.prev_edit,
        final(history)@.redo_groups.len() == 0,
        final(history)@.undo_groups.len() == old(history)@.undo_groups.len(),
        final(history)@.undo_groups.last().text_before == old(
            history,
        )@.undo_groups.last().text_before,
        final(history)@.undo_groups.last().selection == old(
            history,
        )@.undo_groups.last().selection,
        final(changes)@ == old(changes)@.push(change),
        forall|q: PositionModel|
            q.in_text(old(history)@.text) && pos_fits(q) ==> #[trigger] remap_fits(q, change@),
{
    let ghost t0 = history@.text;
    let ghost c = change@;
    let _pre_total: usize = history.as_text().line_count();
    let mut anchor_line: usize = 0;
    let mut ins_lines: usize = 1;
    match &change {
        Change::Delete(start, length) => {
            assert(start@.plus(length@).line < _pre_total);
            let _pre_line: usize = history.as_text().line_len(
                start.line_index + length.line_count,
            );
            anchor_line = start.line_index;
        },
        Change::Insert(position, ins) => {
            ins_lines = ins.line_count();
            anchor_line = position.line_index;
        },
    }
    history.apply_change(change, changes);
    let _post_total: usize = history.as_text().line_count();
    proof {
        assert(anchor_line + ins_lines - 1 < _post_total);
    }
    let post_line: usize = anchor_line + (ins_lines - 1);
    let _post_len: usize = history.as_text().line_len(post_line);
    proof {
        assert forall|q: PositionModel|
            q.in_text(t0) && pos_fits(q) implies #[trigger] remap_fits(q, c) by {
            crate::text::lemma_remap_fits(t0, c, q);
        }
    }
}

impl State {
    /// The invariant of one document: a well-formed history, inlay tables
    /// parallel to the buffer (and empty, per this interface's policy), and
    /// a duplicate-free list of viewing sessions that all point back at it.
    pub closed spec fn doc_wf(&self, d: int) -> bool {
        let doc = self.documents@[d];
        &&& doc.history.wf()
        &&& doc.inline_inlays@.len() == doc.history@.text.len()
        &&& forall|i: int|
            #![trigger doc.inline_inlays@[i]]
            0 <= i < doc.inline_inlays@.len() ==> doc.inline_inlays@[i]@.len() == 0
        &&& forall|i: int|
            0 <= i < doc.history@.text.len() ==> #[trigger] doc.history@.text[i].len()
                <= usize::MAX
        &&& doc.block_inlays@.len() == 0
        &&& forall|k: int|
            #![trigger doc.sessions@[k]]
            0 <= k < doc.sessions@.len() ==> doc.sessions@[k].0 < self.sessions@.len()
                && self.sessions@[doc.sessions@[k].0 as int].document.0 == d
        &&& forall|k1: int, k2: int|
            #![trigger doc.sessions@[k1], doc.sessions@[k2]]
            0 <= k1 < k2 < doc.sessions@.len() ==> doc.sessions@[k1] != doc.sessions@[k2]
    }

    /// The invariant of one session: it views an existing document, is
    /// registered with it, and its selection and caches fit that buffer.
    pub closed spec fn session_wf(&self, s: int) -> bool {
        let session = self.sessions@[s];
        &&& session.document.0 < self.documents@.len()
        &&& session.wf_for(self.documents@[session.document.0 as int].history@.text)
        &&& exists|k: int|
            0 <= k < self.documents@[session.document.0 as int].sessions@.len()
                && self.documents@[session.document.0 as int].sessions@[k] == SessionId(
                (s as usize),
            )
    }

    pub closed spec fn wf(&self) -> bool {
        &&& forall|d: int| 0 <= d < self.documents@.len() ==> self.doc_wf(d)
        &&& forall|s: int| 0 <= s < self.sessions@.len() ==> self.session_wf(s)
    }

    pub closed spec fn session_count(&self) -> nat {
        self.sessions@.len()
    }

    pub closed spec fn document_count(&self) -> nat {
        self.documents@.len()
    }

    pub closed spec fn valid_session(&self, sid: SessionId) -> bool {
        sid.0 < self.sessions@.len()
    }

    pub closed spec fn valid_document(&self, did: DocumentId) -> bool {
        did.0 < self.documents@.len()
    }

    /// The document a session views.
    pub closed spec fn document_of(&self, sid: SessionId) -> DocumentId {
        self.sessions@[sid.0 as int].document
    }

    /// A document's buffer.
    pub closed spec fn document_text(&self, did: DocumentId) -> TextModel {
        self.documents@[did.0 as int].history@.text
    }

    /// The buffer a session views.
    pub open spec fn text_of(&self, sid: SessionId) -> TextModel {
        self.document_text(self.document_of(sid))
    }

    /// A session's document history.
    pub closed spec fn history_of(&self, sid: SessionId) -> crate::history::HistoryModel {
        self.documents@[self.sessions@[sid.0 as int].document.0 as int].history@
    }

    /// A document's history.
    pub closed spec fn document_history(&self, did: DocumentId) -> crate::history::HistoryModel {
        self.documents@[did.0 as int].history@
    }

    /// A session's tab width, in display columns.
    pub closed spec fn tab_column_count_of(&self, sid: SessionId) -> int {
        self.sessions@[sid.0 as int].tab_column_count as int
    }

    /// A session's wrap width, in display columns.
    pub closed spec fn max_column_count_of(&self, sid: SessionId) -> int {
        self.sessions@[sid.0 as int].max_column_count as int
    }

    /// A session's selection regions.
    pub closed spec fn selection_of(&self, sid: SessionId) -> Seq<Region> {
        self.sessions@[sid.0 as int].selection@
    }

    /// The index of the most recently added region of a session.
    pub closed spec fn last_added_of(&self, sid: SessionId) -> int {
        self.sessions@[sid.0 as int].last_added_region as int
    }

    /// A well-formed state keeps every selection inside its buffer.
    pub proof fn lemma_selection_ok(&self, sid: SessionId)
        requires
            self.wf(),
            self.valid_session(sid),
        ensures
            self.selection_of(sid).len() >= 1,
            selection_in_text(self.selection_of(sid), self.text_of(sid)),
            0 <= self.last_added_of(sid) < self.selection_of(sid).len(),
            crate::text::text_wf(self.text_of(sid)),
            crate::history::history_wf(self.history_of(sid)),
            self.valid_document(self.document_of(sid)),
    {
        assert(self.session_wf(sid.0 as int));
        assert(self.doc_wf(self.sessions@[sid.0 as int].document.0 as int));
        self.documents@[self.sessions@[sid.0 as int].document.0 as int].history.lemma_wf_model();
    }

    /// The composed read-only view of a session: its document's buffer and
    /// inlay tables together with the session's per-line caches.
    #[verifier::rlimit(100)]
    #[verifier::spinoff_prover]
    pub fn layout(&self, session: SessionId) -> (r: crate::layout::Layout<'_>)
        requires
            self.wf(),
            self.valid_session(session),
        ensures
            r.wf(),
            r.text@ == self.text_of(session),
            layout_matches(
                r,
                self.max_column_count_of(session),
                self.tab_column_count_of(session),
            ),
    {
        let si = session.0;
        let ghost di = self.sessions@[si as int].document.0 as int;
        proof {
            assert(self.session_wf(si as int));
            assert(self.doc_wf(di));
            self.documents@[di].history.lemma_wf_model();
        }
        let sess = &self.sessions[si];
        let doc = &self.documents[sess.document.0];
        let r = crate::layout::Layout {
            text: doc.history.as_text(),
            inline_inlays: &doc.inline_inlays,
            block_inlays: &doc.block_inlays,
            column_count: &sess.column_count,
            fold_column_index: &sess.fold_column_index,
            wrap_char_indices: &sess.wrap_char_indices,
            wrap_indentation_width: &sess.wrap_indentation_width,
        };
        proof {
            let t = r.text@;
            let max = sess.max_column_count as int;
            let tab = sess.tab_column_count as int;
            assert forall|i: int|
                0 <= i < t.len() implies inlays_wf(
                #[trigger] inlays_view(r.inline_inlays@[i]@),
                t[i].len() as int,
            ) && crate::layout::breaks_wf(breaks_view(r.wrap_char_indices@[i]@)) && (forall|b: int|
                0 <= b < r.wrap_char_indices@[i]@.len() ==> #[trigger] breaks_view(
                    r.wrap_char_indices@[i]@,
                )[b] >= 0) && crate::layout::advance_total(
                inline_elements_model(t[i], inlays_view(r.inline_inlays@[i]@), 0),
            ) <= usize::MAX by {
                assert(r.inline_inlays@[i]@.len() == 0);
                assert(inlays_view(r.inline_inlays@[i]@) =~= Seq::<(
                    int,
                    crate::layout::InlayModel,
                )>::empty());
                lemma_no_inlay_elements(t[i], 0);
                crate::wrap::lemma_atoms_of(inline_elements_model(t[i], Seq::empty(), 0), tab);
                crate::wrap::lemma_wrap_run(
                    line_atoms(t[i], tab),
                    max,
                    indent_of(line_atoms(t[i], tab), line_base_indent(t[i], tab), max),
                );
                assert(breaks_view(r.wrap_char_indices@[i]@) == line_wrap_state(
                    t[i],
                    max,
                    tab,
                ).breaks);
                assert(crate::layout::breaks_wf(breaks_view(r.wrap_char_indices@[i]@)));
            }
            assert(crate::layout::blocks_wf(r.block_inlays@)) by {
                assert(r.block_inlays@.len() == 0);
            }
            assert(max == self.max_column_count_of(session));
            assert(tab == self.tab_column_count_of(session));
            assert(layout_matches(r, max, tab)) by {
                assert forall|i: int|
                    #![trigger r.wrap_char_indices@[i]]
                    0 <= i < r.text@.len() implies breaks_view(r.wrap_char_indices@[i]@)
                    == line_wrap_state(r.text@[i], max, tab).breaks
                    && r.wrap_indentation_width@[i] as int == line_indent_clamped(
                    r.text@[i],
                    max,
                    tab,
                ) && r.column_count@[i] as int == clamp_usize(
                    line_column_count(r.text@[i], max, tab),
                ) by {
                    assert(self.sessions@[si as int].wrap_char_indices@[i]
                        == r.wrap_char_indices@[i]);
                }
            }
        }
        r
    }

    /// The regions of a session's selection.
    pub fn selection_regions(&self, session: SessionId) -> (r: &Vec<Region>)
        requires
            self.wf(),
            self.valid_session(session),
        ensures
            r@ == self.selection_of(session),
    {
        self.sessions[session.0].selection.as_regions()
    }

    /// How many undo groups the session's document holds.
    pub fn undo_count(&self, session: SessionId) -> (r: usize)
        requires
            self.wf(),
            self.valid_session(session),
        ensures
            r == self.history_of(session).undo_groups.len(),
    {
        proof {
            assert(self.session_wf(session.0 as int));
        }
        let di = self.sessions[session.0].document.0;
        self.documents[di].history.undo_group_count()
    }

    /// How many redo groups the session's document holds.
    pub fn redo_count(&self, session: SessionId) -> (r: usize)
        requires
            self.wf(),
            self.valid_session(session),
        ensures
            r == self.history_of(session).redo_groups.len(),
    {
        proof {
            assert(self.session_wf(session.0 as int));
        }
        let di = self.sessions[session.0].document.0;
        self.documents[di].history.redo_group_count()
    }

    /// Changes a session's wrap and tab widths and recomputes its per-line
    /// caches; the buffer, history and selection are untouched.
    pub fn set_wrap_settings(
        &mut self,
        session: SessionId,
        max_column_count: usize,
        tab_column_count: usize,
    )
        requires
            old(self).wf(),
            old(self).valid_session(session),
        ensures
            final(self).wf(),
            final(self).valid_session(session),
            final(self).max_column_count_of(session) == max_column_count,
            final(self).tab_column_count_of(session) == tab_column_count,
            final(self).text_of(session) == old(self).text_of(session),
            final(self).selection_of(session) == old(self).selection_of(session),
            final(self).history_of(session) == old(self).history_of(session),
            final(self).last_added_of(session) == old(self).last_added_of(session),
    {
        let si = session.0;
        proof {
            old(self).lemma_selection_ok(session);
            assert(old(self).session_wf(si as int));
            assert(old(self).doc_wf(old(self).sessions@[si as int].document.0 as int));
        }
        let di = self.sessions[si].document.0;
        {
            let sess = &mut self.sessions[si];
            sess.max_column_count = max_column_count;
            sess.tab_column_count = tab_column_count;
        }
        let empty_inlays: Vec<(usize, InlineInlay)> = Vec::new();
        proof {
            self.documents@[di as int].history.lemma_wf_model();
        }
        let doc_text = self.documents[di].history.as_text();
        let sess = &mut self.sessions[si];
        rebuild_caches(sess, doc_text, &empty_inlays);
        proof {
            assert forall|d2: int| 0 <= d2 < self.documents@.len() implies self.doc_wf(d2) by {
                assert(old(self).doc_wf(d2));
                assert(self.documents@[d2] == old(self).documents@[d2]);
            }
            assert forall|s2: int| 0 <= s2 < self.sessions@.len() implies self.session_wf(s2) by {
                assert(old(self).session_wf(s2));
                if s2 != si {
                    assert(self.sessions@[s2] == old(self).sessions@[s2]);
                }
                let od = self.sessions@[s2].document.0 as int;
                assert(self.documents@[od] == old(self).documents@[od]);
            }
        }
    }

    /// An empty state: no documents, no sessions.
    pub fn new() -> (r: State)
        ensures
            r.wf(),
            r.session_count() == 0,
            r.document_count() == 0,
    {
        State { sessions: Vec::new(), documents: Vec::new() }
    }

    /// Takes ownership of a buffer as a new shared document with a fresh
    /// history and empty inlay tables.
    pub fn open_document(&mut self, text: Text) -> (r: DocumentId)
        requires
            old(self).wf(),
            text.wf(),
        ensures
            final(self).wf(),
            final(self).valid_document(r),
            final(self).document_count() == old(self).document_count() + 1,
            final(self).session_count() == old(self).session_count(),
            final(self).document_text(r) == text@,
            final(self).document_history(r).undo_groups.len() == 0,
            final(self).document_history(r).redo_groups.len() == 0,
            final(self).document_history(r).prev_edit is None,
    {
        let n = text.line_count();
        let mut inline_inlays: Vec<Vec<(usize, InlineInlay)>> = Vec::new();
        let mut i: usize = 0;
        while i < n
            invariant
                i <= n,
                n == text@.len(),
                inline_inlays@.len() == i,
                forall|j: int|
                    #![trigger inline_inlays@[j]]
                    0 <= j < i ==> inline_inlays@[j]@.len() == 0,
                forall|j: int| 0 <= j < i ==> #[trigger] text@[j].len() <= usize::MAX,
            decreases n - i,
        {
            let _line_len: usize = text.line_len(i);
            inline_inlays.push(Vec::new());
            i = i + 1;
        }
        let history = History::from_text(text);
        let d = self.documents.len();
        self.documents.push(
            Document { sessions: Vec::new(), history, inline_inlays, block_inlays: Vec::new() },
        );
        proof {
            assert forall|d2: int| 0 <= d2 < self.documents@.len() implies self.doc_wf(d2) by {
                if d2 < d {
                    assert(old(self).doc_wf(d2));
                    assert(self.documents@[d2] == old(self).documents@[d2]);
                }
            }
            assert forall|s: int| 0 <= s < self.sessions@.len() implies self.session_wf(s) by {
                assert(old(self).session_wf(s));
                assert(self.sessions@[s] == old(self).sessions@[s]);
                assert(self.documents@[self.sessions@[s].document.0 as int] == old(self).documents@[self.sessions@[s].document.0 as int]);
            }
        }
        DocumentId(d)
    }

    /// Opens a new view of a document, with one empty selection region at
    /// the origin and freshly computed caches.
    pub fn open_session(&mut self, document: DocumentId) -> (r: SessionId)
        requires
            old(self).wf(),
            old(self).valid_document(document),
        ensures
            final(self).wf(),
            final(self).valid_session(r),
            final(self).document_of(r) == document,
            final(self).session_count() == old(self).session_count() + 1,
            final(self).document_count() == old(self).document_count(),
            final(self).document_text(document) == old(self).document_text(document),
            final(self).history_of(r) == old(self).document_history(document),
            final(self).tab_column_count_of(r) == 4,
            final(self).max_column_count_of(r) == 80,
            final(self).last_added_of(r) == 0,
            final(self).selection_of(r) == seq![
                Region {
                    cursor: Cursor {
                        position: Position { line_index: 0, char_index: 0 },
                        affinity: crate::selection::Affinity::Before,
                    },
                    anchor: Position { line_index: 0, char_index: 0 },
                },
            ],
    {
        let di = document.0;
        let s = self.sessions.len();
        let mut session = Session {
            tab_column_count: 4,
            max_column_count: 80,
            column_count: Vec::new(),
            fold_column_index: Vec::new(),
            wrap_char_indices: Vec::new(),
            wrap_indentation_width: Vec::new(),
            selection: Selection::new(),
            last_added_region: 0,
            document,
        };
        let empty_inlays: Vec<(usize, InlineInlay)> = Vec::new();
        proof {
            assert(self.doc_wf(di as int));
            self.documents@[di as int].history.lemma_wf_model();
            assert(crate::text::text_wf(self.documents@[di as int].history@.text));
        }
        rebuild_caches(&mut session, self.documents[di].history.as_text(), &empty_inlays);
        self.sessions.push(session);
        let doc = &mut self.documents[di];
        doc.sessions.push(SessionId(s));
        proof {
            assert forall|d2: int| 0 <= d2 < self.documents@.len() implies self.doc_wf(d2) by {
                assert(old(self).doc_wf(d2));
                if d2 == di {
                    let ds = self.documents@[d2].sessions@;
                    let ods = old(self).documents@[d2].sessions@;
                    assert(ds =~= ods.push(SessionId(s)));
                    assert(forall|k: int| #![trigger ds[k]] 0 <= k < ods.len() ==> ds[k] == ods[k]);
                    assert(self.sessions@[s as int].document.0 == d2);
                    assert(forall|k: int|
                        #![trigger ods[k]]
                        0 <= k < ods.len() ==> ods[k].0 < s);
                } else {
                    assert(self.documents@[d2] == old(self).documents@[d2]);
                }
            }
            assert forall|s2: int| 0 <= s2 < self.sessions@.len() implies self.session_wf(s2) by {
                if s2 < s {
                    assert(old(self).session_wf(s2));
                    assert(self.sessions@[s2] == old(self).sessions@[s2]);
                    let od = self.sessions@[s2].document.0 as int;
                    assert(self.documents@[od].history == old(self).documents@[od].history);
                    let k = choose|k: int|
                        0 <= k < old(self).documents@[od].sessions@.len() && old(self).documents@[od].sessions@[k] == SessionId((s2 as usize));
                    assert(self.documents@[od].sessions@[k] == SessionId((s2 as usize)));
                } else {
                    let od = self.sessions@[s2].document.0 as int;
                    assert(od == di as int);
                    let k = self.documents@[od].sessions@.len() - 1;
                    assert(self.documents@[od].sessions@[k] == SessionId((s2 as usize)));
                    let t = self.documents@[od].history@.text;
                    assert(self.documents@[od].history == old(self).documents@[od].history);
                    assert(crate::text::text_wf(t));
                    assert(self.sessions@[s2].selection@ =~= seq![
                        Region {
                            cursor: Cursor {
                                position: Position { line_index: 0, char_index: 0 },
                                affinity: crate::selection::Affinity::Before,
                            },
                            anchor: Position { line_index: 0, char_index: 0 },
                        },
                    ]);
                    assert(selection_in_text(self.sessions@[s2].selection@, t));
                    assert(self.sessions@[s2].wf_for(t));
                }
            }
        }
        SessionId(s)
    }

    /// The editing session's document and the selection-only framing of the
    /// state invariant: after mutating one session's selection (keeping it
    /// inside its buffer) and forcing a new undo group, everything is still
    /// well formed.
    proof fn lemma_selection_mutation_wf(&self, pre: &State, sid: SessionId)
        requires
            pre.wf(),
            pre.valid_session(sid),
            self.documents@ == pre.documents@.update(
                pre.sessions@[sid.0 as int].document.0 as int,
                self.documents@[pre.sessions@[sid.0 as int].document.0 as int],
            ),
            self.sessions@ == pre.sessions@.update(
                sid.0 as int,
                self.sessions@[sid.0 as int],
            ),
            self.documents@[pre.sessions@[sid.0 as int].document.0 as int].history.wf(),
            self.documents@[pre.sessions@[sid.0 as int].document.0 as int].history@ == (
            crate::history::HistoryModel {
                prev_edit: None,
                ..pre.documents@[pre.sessions@[sid.0 as int].document.0 as int].history@
            }),
            self.documents@[pre.sessions@[sid.0 as int].document.0 as int].sessions
                == pre.documents@[pre.sessions@[sid.0 as int].document.0 as int].sessions,
            self.documents@[pre.sessions@[sid.0 as int].document.0 as int].inline_inlays
                == pre.documents@[pre.sessions@[sid.0 as int].document.0 as int].inline_inlays,
            self.documents@[pre.sessions@[sid.0 as int].document.0 as int].block_inlays
                == pre.documents@[pre.sessions@[sid.0 as int].document.0 as int].block_inlays,
            self.sessions@[sid.0 as int].tab_column_count == pre.sessions@[sid.0 as int].tab_column_count,
            self.sessions@[sid.0 as int].max_column_count == pre.sessions@[sid.0 as int].max_column_count,
            self.sessions@[sid.0 as int].column_count == pre.sessions@[sid.0 as int].column_count,
            self.sessions@[sid.0 as int].fold_column_index == pre.sessions@[sid.0 as int].fold_column_index,
            self.sessions@[sid.0 as int].wrap_char_indices == pre.sessions@[sid.0 as int].wrap_char_indices,
            self.sessions@[sid.0 as int].wrap_indentation_width == pre.sessions@[sid.0 as int].wrap_indentation_width,
            self.sessions@[sid.0 as int].document == pre.sessions@[sid.0 as int].document,
            self.sessions@[sid.0 as int].selection@.len() >= 1,
            selection_in_text(self.sessions@[sid.0 as int].selection@, pre.text_of(sid)),
            self.sessions@[sid.0 as int].last_added_region
                < self.sessions@[sid.0 as int].selection@.len(),
        ensures
            self.wf(),
    {
        let si = sid.0 as int;
        assert(pre.session_wf(si));
        let di = pre.sessions@[si].document.0 as int;
        assert(pre.doc_wf(di));
        assert(self.documents@.len() == pre.documents@.len());
        assert forall|d2: int| 0 <= d2 < self.documents@.len() implies self.doc_wf(d2) by {
            assert(pre.doc_wf(d2));
            if d2 != di {
                assert(self.documents@[d2] == pre.documents@[d2]);
            }
        }
        assert forall|s2: int| 0 <= s2 < self.sessions@.len() implies self.session_wf(s2) by {
            assert(pre.session_wf(s2));
            let od = self.sessions@[s2].document.0 as int;
            if s2 != si {
                assert(self.sessions@[s2] == pre.sessions@[s2]);
            }
            assert(self.documents@[od].history@.text == pre.documents@[od].history@.text);
            assert(self.documents@[od].sessions == pre.documents@[od].sessions);
            assert(self.sessions@[s2].wf_for(self.documents@[od].history@.text));
        }
    }

    /// Replaces the whole selection with one region collapsed at `cursor`
    /// and forces the next edit into a fresh undo group.
    pub fn set_cursor(&mut self, session: SessionId, cursor: Cursor)
        requires
            old(self).wf(),
            old(self).valid_session(session),
            cursor.position@.in_text(old(self).text_of(session)),
        ensures
            final(self).wf(),
            final(self).selection_of(session) == seq![Region { cursor, anchor: cursor.position }],
            final(self).last_added_of(session) == 0,
            final(self).history_of(session).prev_edit is None,
            final(self).text_of(session) == old(self).text_of(session),
    {
        let si = session.0;
        proof {
            old(self).lemma_selection_ok(session);
        }
        let sess = &mut self.sessions[si];
        sess.selection.set(Region::at(cursor));
        sess.last_added_region = 0;
        let di = self.sessions[si].document.0;
        proof {
            assert(old(self).session_wf(si as int));
            assert(old(self).doc_wf(di as int));
        }
        let doc = &mut self.documents[di];
        doc.history.force_new_undo_group();
        proof {
            self.lemma_selection_mutation_wf(old(self), session);
        }
    }

    /// Adds a region collapsed at `cursor` at its sorted place (without
    /// merge-checking), remembers it as the last added one, and forces the
    /// next edit into a fresh undo group.
    pub fn add_cursor(&mut self, session: SessionId, cursor: Cursor)
        requires
            old(self).wf(),
            old(self).valid_session(session),
            cursor.position@.in_text(old(self).text_of(session)),
        ensures
            final(self).wf(),
            final(self).selection_of(session) == old(self).selection_of(session).insert(
                final(self).last_added_of(session),
                Region { cursor, anchor: cursor.position },
            ),
            0 <= final(self).last_added_of(session) <= old(self).selection_of(session).len(),
            final(self).history_of(session).prev_edit is None,
            final(self).text_of(session) == old(self).text_of(session),
    {
        let si = session.0;
        proof {
            old(self).lemma_selection_ok(session);
        }
        let sess = &mut self.sessions[si];
        let index = sess.selection.add(Region::at(cursor));
        sess.last_added_region = index;
        let di = self.sessions[si].document.0;
        proof {
            assert(old(self).session_wf(si as int));
            assert(old(self).doc_wf(di as int));
        }
        let doc = &mut self.documents[di];
        doc.history.force_new_undo_group();
        proof {
            assert forall|i: int|
                #![trigger final(self).selection_of(session)[i]]
                0 <= i < final(self).selection_of(session).len() implies final(self).selection_of(
                session,
            )[i].cursor.position@.in_text(old(self).text_of(session)) && final(self).selection_of(
                session,
            )[i].anchor@.in_text(old(self).text_of(session)) by {
                let ns = old(self).selection_of(session).insert(
                    index as int,
                    Region { cursor, anchor: cursor.position },
                );
                assert(final(self).selection_of(session) == ns);
                if i < index {
                    assert(ns[i] == old(self).selection_of(session)[i]);
                } else if i == index {
                    assert(ns[i] == Region { cursor, anchor: cursor.position });
                } else {
                    assert(ns[i] == old(self).selection_of(session)[i - 1]);
                }
            }
            self.lemma_selection_mutation_wf(old(self), session);
        }
    }

    /// Applies `cursor` to the most recently added region (collapsing it
    /// when `reset_anchor` is set), repairs the overlap invariant around
    /// it, and forces the next edit into a fresh undo group.
    pub fn update_last_added_cursor(
        &mut self,
        session: SessionId,
        cursor: Cursor,
        reset_anchor: bool,
    )
        requires
            old(self).wf(),
            old(self).valid_session(session),
            cursor.position@.in_text(old(self).text_of(session)),
        ensures
            final(self).wf(),
            final(self).selection_of(session) == crate::selection::update_result(
                old(self).selection_of(session),
                old(self).last_added_of(session),
                if reset_anchor {
                    Region { cursor, anchor: cursor.position }
                } else {
                    Region {
                        cursor,
                        anchor: old(self).selection_of(session)[old(self).last_added_of(
                            session,
                        )].anchor,
                    }
                },
            ),
            final(self).history_of(session).prev_edit is None,
            final(self).text_of(session) == old(self).text_of(session),
    {
        let si = session.0;
        proof {
            old(self).lemma_selection_ok(session);
        }
        let ghost old_sel = old(self).selection_of(session);
        let ghost old_idx = old(self).last_added_of(session);
        let sess = &mut self.sessions[si];
        let ghost target = if reset_anchor {
            Region { cursor, anchor: cursor.position }
        } else {
            Region { cursor, anchor: old_sel[old_idx].anchor }
        };
        let last = sess.last_added_region;
        let f = |region: Region| -> (r: Region)
            ensures
                r == if reset_anchor {
                    Region { cursor, anchor: cursor.position }
                } else {
                    Region { cursor, anchor: region.anchor }
                },
            {
                if reset_anchor {
                    Region { cursor, anchor: cursor.position }
                } else {
                    Region { cursor, anchor: region.anchor }
                }
            };
        let index = sess.selection.update(last, f);
        sess.last_added_region = index;
        proof {
            assert(sess.selection@ == crate::selection::update_result(old_sel, old_idx, target));
        }
        let di = self.sessions[si].document.0;
        proof {
            assert(old(self).session_wf(si as int));
            assert(old(self).doc_wf(di as int));
        }
        let doc = &mut self.documents[di];
        doc.history.force_new_undo_group();
        proof {
            let ns = final(self).selection_of(session);
            let a = crate::selection::merge_left_bound(old_sel, old_idx, target);
            let b = crate::selection::merge_right_bound(old_sel, old_idx + 1, target);
            crate::selection::lemma_merge_left_bound(old_sel, old_idx, target);
            crate::selection::lemma_merge_right_bound(old_sel, old_idx + 1, target);
            assert forall|i: int|
                #![trigger ns[i]]
                0 <= i < ns.len() implies ns[i].cursor.position@.in_text(
                old(self).text_of(session),
            ) && ns[i].anchor@.in_text(old(self).text_of(session)) by {
                if i < a {
                    assert(ns[i] == old_sel[i]);
                } else if i == a {
                    assert(ns[i] == target);
                } else {
                    assert(ns[i] == old_sel[b + (i - a - 1)]);
                }
            }
            self.lemma_selection_mutation_wf(old(self), session);
        }
    }

    /// Steps every cursor one character leftward, optionally collapsing
    /// each region onto its cursor, then merges overlapping neighbours and
    /// forces the next edit into a fresh undo group.
    pub fn move_all_cursors_left(&mut self, session: SessionId, reset_anchor: bool)
        requires
            old(self).wf(),
            old(self).valid_session(session),
        ensures
            final(self).wf(),
            final(self).history_of(session).prev_edit is None,
            final(self).text_of(session) == old(self).text_of(session),
            exists|mapped: Seq<Region>|
                #![auto]
                mapped.len() == old(self).selection_of(session).len() && (forall|i: int|
                    0 <= i < mapped.len() ==> mapped[i]@ == left_step_region(
                        old(self).selection_of(session)[i]@,
                        old(self).text_of(session),
                        reset_anchor,
                    ) && mapped[i].cursor.affinity == old(self).selection_of(
                        session,
                    )[i].cursor.affinity) && final(self).selection_of(session)
                    == crate::selection::merge_pass(mapped) && final(self).last_added_of(session)
                    == (if crate::selection::merge_pass_index(
                    mapped,
                    0,
                    old(self).last_added_of(session),
                ) < crate::selection::merge_pass(mapped).len() {
                    crate::selection::merge_pass_index(
                        mapped,
                        0,
                        old(self).last_added_of(session),
                    )
                } else {
                    crate::selection::merge_pass(mapped).len() - 1
                }),
    {
        let si = session.0;
        proof {
            old(self).lemma_selection_ok(session);
        }
        let ghost t = old(self).text_of(session);
        let di = self.sessions[si].document.0;
        let doc = &self.documents[di];
        let lines = doc.history.as_text().as_lines();
        let sess = &mut self.sessions[si];
        let ghost old_sel = sess.selection@;
        let f = |region: Region| -> (r: Region)
            requires
                region.cursor.position@.in_text(lines.deep_view()),
                region.anchor@.in_text(lines.deep_view()),
                lines.deep_view().len() >= 1,
            ensures
                r.cursor.position@.in_text(lines.deep_view()),
                r.anchor@.in_text(lines.deep_view()),
                r@ == left_step_region(region@, lines.deep_view(), reset_anchor),
                r.cursor.affinity == region.cursor.affinity,
            {
                let c = move_ops::move_left(region.cursor, lines);
                if reset_anchor {
                    Region::at(c)
                } else {
                    Region { cursor: c, anchor: region.anchor }
                }
            };
        proof {
            assert(lines.deep_view() == t);
            assert forall|i: int| 0 <= i < old_sel.len() implies call_requires(
                f,
                (old_sel[i],),
            ) by {
                assert(old_sel[i].cursor.position@.in_text(t));
            }
        }
        let ghost old_idx = sess.last_added_region as int;
        let index = sess.selection.update_all(sess.last_added_region, f);
        sess.last_added_region = index;
        proof {
            let mapped = choose|mapped: Seq<Region>|
                #![auto]
                mapped.len() == old_sel.len() && (forall|i: int|
                    0 <= i < mapped.len() ==> call_ensures(f, (old_sel[i],), mapped[i]))
                    && sess.selection@ == crate::selection::merge_pass(mapped) && index as int
                    == (if crate::selection::merge_pass_index(mapped, 0, old_idx)
                    < crate::selection::merge_pass(mapped).len() {
                    crate::selection::merge_pass_index(mapped, 0, old_idx)
                } else {
                    crate::selection::merge_pass(mapped).len() - 1
                });
            assert(selection_in_text(mapped, t));
            lemma_merge_pass_in_text(mapped, t);
            assert(forall|i: int|
                #![trigger mapped[i]]
                0 <= i < mapped.len() ==> mapped[i]@ == left_step_region(old_sel[i]@, t, reset_anchor)
                    && mapped[i].cursor.affinity == old_sel[i].cursor.affinity);
        }
        proof {
            assert(old(self).session_wf(si as int));
            assert(old(self).doc_wf(di as int));
        }
        let doc = &mut self.documents[di];
        doc.history.force_new_undo_group();
        proof {
            self.lemma_selection_mutation_wf(old(self), session);
        }
    }

    /// Steps every cursor one character rightward; the mirror of
    /// `move_all_cursors_left`.
    pub fn move_all_cursors_right(&mut self, session: SessionId, reset_anchor: bool)
        requires
            old(self).wf(),
            old(self).valid_session(session),
        ensures
            final(self).wf(),
            final(self).history_of(session).prev_edit is None,
            final(self).text_of(session) == old(self).text_of(session),
            exists|mapped: Seq<Region>|
                #![auto]
                mapped.len() == old(self).selection_of(session).len() && (forall|i: int|
                    0 <= i < mapped.len() ==> mapped[i]@ == right_step_region(
                        old(self).selection_of(session)[i]@,
                        old(self).text_of(session),
                        reset_anchor,
                    ) && mapped[i].cursor.affinity == old(self).selection_of(
                        session,
                    )[i].cursor.affinity) && final(self).selection_of(session)
                    == crate::selection::merge_pass(mapped) && final(self).last_added_of(session)
                    == (if crate::selection::merge_pass_index(
                    mapped,
                    0,
                    old(self).last_added_of(session),
                ) < crate::selection::merge_pass(mapped).len() {
                    crate::selection::merge_pass_index(
                        mapped,
                        0,
                        old(self).last_added_of(session),
                    )
                } else {
                    crate::selection::merge_pass(mapped).len() - 1
                }),
    {
        let si = session.0;
        proof {
            old(self).lemma_selection_ok(session);
        }
        let ghost t = old(self).text_of(session);
        let di = self.sessions[si].document.0;
        let doc = &self.documents[di];
        let lines = doc.history.as_text().as_lines();
        let sess = &mut self.sessions[si];
        let ghost old_sel = sess.selection@;
        let f = |region: Region| -> (r: Region)
            requires
                region.cursor.position@.in_text(lines.deep_view()),
                region.anchor@.in_text(lines.deep_view()),
                lines.deep_view().len() >= 1,
            ensures
                r.cursor.position@.in_text(lines.deep_view()),
                r.anchor@.in_text(lines.deep_view()),
                r@ == right_step_region(region@, lines.deep_view(), reset_anchor),
                r.cursor.affinity == region.cursor.affinity,
            {
                let c = move_ops::move_right(region.cursor, lines);
                if reset_anchor {
                    Region::at(c)
                } else {
                    Region { cursor: c, anchor: region.anchor }
                }
            };
        proof {
            assert(lines.deep_view() == t);
            assert forall|i: int| 0 <= i < old_sel.len() implies call_requires(
                f,
                (old_sel[i],),
            ) by {
                assert(old_sel[i].cursor.position@.in_text(t));
            }
        }
        let ghost old_idx = sess.last_added_region as int;
        let index = sess.selection.update_all(sess.last_added_region, f);
        sess.last_added_region = index;
        proof {
            let mapped = choose|mapped: Seq<Region>|
                #![auto]
                mapped.len() == old_sel.len() && (forall|i: int|
                    0 <= i < mapped.len() ==> call_ensures(f, (old_sel[i],), mapped[i]))
                    && sess.selection@ == crate::selection::merge_pass(mapped) && index as int
                    == (if crate::selection::merge_pass_index(mapped, 0, old_idx)
                    < crate::selection::merge_pass(mapped).len() {
                    crate::selection::merge_pass_index(mapped, 0, old_idx)
                } else {
                    crate::selection::merge_pass(mapped).len() - 1
                });
            assert(selection_in_text(mapped, t));
            lemma_merge_pass_in_text(mapped, t);
            assert(forall|i: int|
                #![trigger mapped[i]]
                0 <= i < mapped.len() ==> mapped[i]@ == right_step_region(old_sel[i]@, t, reset_anchor)
                    && mapped[i].cursor.affinity == old_sel[i].cursor.affinity);
        }
        proof {
            assert(old(self).session_wf(si as int));
            assert(old(self).doc_wf(di as int));
        }
        let doc = &mut self.documents[di];
        doc.history.force_new_undo_group();
        proof {
            self.lemma_selection_mutation_wf(old(self), session);
        }
    }
}

/// Drops a document's inlays after a text modification and re-sizes the
/// per-line table to the new buffer, per this interface's policy.
fn reset_doc_inlays(doc: &mut Document)
    ensures
        final(doc).history == old(doc).history,
        final(doc).sessions == old(doc).sessions,
        final(doc).block_inlays@.len() == 0,
        final(doc).inline_inlays@.len() == final(doc).history@.text.len(),
        forall|i: int|
            #![trigger final(doc).inline_inlays@[i]]
            0 <= i < final(doc).inline_inlays@.len() ==> final(doc).inline_inlays@[i]@.len() == 0,
        forall|i: int|
            0 <= i < final(doc).history@.text.len()
                ==> #[trigger] final(doc).history@.text[i].len() <= usize::MAX,
{
    doc.inline_inlays.clear();
    doc.block_inlays.clear();
    let n = doc.history.as_text().line_count();
    let mut i: usize = 0;
    while i < n
        invariant
            i <= n,
            n == doc.history@.text.len(),
            doc.history == old(doc).history,
            doc.sessions == old(doc).sessions,
            doc.block_inlays@.len() == 0,
            doc.inline_inlays@.len() == i,
            forall|j: int|
                #![trigger doc.inline_inlays@[j]]
                0 <= j < i ==> doc.inline_inlays@[j]@.len() == 0,
            forall|j: int|
                0 <= j < i ==> #[trigger] doc.history@.text[j].len() <= usize::MAX,
        decreases n - i,
    {
        let _line_len: usize = doc.history.as_text().line_len(i);
        doc.inline_inlays.push(Vec::new());
        i = i + 1;
    }
}

impl State {
    /// A session with this index views document `di`.
    spec fn views(&self, s: int, di: int) -> bool {
        self.sessions@[s].document.0 == di
    }

    /// After the history of document `di` changed and the editing session's
    /// selection was committed, every precondition of `propagate` about the
    /// untouched parts of the state still holds.
    proof fn lemma_propagate_pre(&self, pre: &State, di: int, editor: SessionId)
        requires
            pre.wf(),
            editor.0 < pre.sessions@.len(),
            pre.sessions@[editor.0 as int].document.0 == di,
            0 <= di < pre.documents@.len(),
            self.documents@ == pre.documents@.update(di, self.documents@[di]),
            self.documents@[di].sessions == pre.documents@[di].sessions,
            self.sessions@ == pre.sessions@.update(
                editor.0 as int,
                self.sessions@[editor.0 as int],
            ),
            self.sessions@[editor.0 as int].document == pre.sessions@[editor.0 as int].document,
        ensures
            forall|d: int| 0 <= d < self.documents@.len() && d != di ==> self.doc_wf(d),
            forall|s: int|
                0 <= s < self.sessions@.len() && !self.views(s, di) ==> self.session_wf(s),
            forall|s: int|
                0 <= s < self.sessions@.len() && self.views(s, di) ==> exists|k2: int|
                    0 <= k2 < self.documents@[di].sessions@.len()
                        && self.documents@[di].sessions@[k2] == SessionId((s as usize)),
            forall|s: int|
                #![trigger self.sessions@[s]]
                0 <= s < self.sessions@.len() && self.views(s, di) && s != editor.0
                    ==> self.sessions@[s].wf_for(pre.documents@[di].history@.text)
                    && self.sessions@[s].selection@.len() >= 1,
            forall|k2: int|
                #![trigger self.documents@[di].sessions@[k2]]
                0 <= k2 < self.documents@[di].sessions@.len()
                    ==> self.documents@[di].sessions@[k2].0 < self.sessions@.len()
                    && self.sessions@[self.documents@[di].sessions@[k2].0 as int].document.0 == di,
            forall|k1: int, k2: int|
                #![trigger self.documents@[di].sessions@[k1], self.documents@[di].sessions@[k2]]
                0 <= k1 < k2 < self.documents@[di].sessions@.len()
                    ==> self.documents@[di].sessions@[k1] != self.documents@[di].sessions@[k2],
    {
        assert(pre.doc_wf(di));
        assert forall|d: int| 0 <= d < self.documents@.len() && d != di implies self.doc_wf(
            d,
        ) by {
            assert(pre.doc_wf(d));
            assert(self.documents@[d] == pre.documents@[d]);
            assert forall|k2: int|
                #![trigger self.documents@[d].sessions@[k2]]
                0 <= k2 < self.documents@[d].sessions@.len() implies self.documents@[
            d].sessions@[k2].0 < self.sessions@.len() && self.sessions@[self.documents@[
            d].sessions@[k2].0 as int].document.0 == d by {
                let sid2 = pre.documents@[d].sessions@[k2].0 as int;
                assert(pre.sessions@[sid2].document.0 == d);
                if sid2 != editor.0 as int {
                    assert(self.sessions@[sid2] == pre.sessions@[sid2]);
                }
            }
        }
        assert forall|s: int|
            0 <= s < self.sessions@.len() && !self.views(s, di) implies self.session_wf(s) by {
            assert(pre.session_wf(s));
            assert(self.sessions@[s] == pre.sessions@[s]);
            let od = self.sessions@[s].document.0 as int;
            assert(self.documents@[od] == pre.documents@[od]);
        }
        assert forall|s: int|
            0 <= s < self.sessions@.len() && self.views(s, di) implies exists|k2: int|
            0 <= k2 < self.documents@[di].sessions@.len() && self.documents@[di].sessions@[k2]
                == SessionId((s as usize)) by {
            assert(pre.session_wf(s));
            assert(self.sessions@[s].document == pre.sessions@[s].document);
        }
        assert forall|s: int|
            #![trigger self.sessions@[s]]
            0 <= s < self.sessions@.len() && self.views(s, di) && s != editor.0
                implies self.sessions@[s].wf_for(pre.documents@[di].history@.text)
                && self.sessions@[s].selection@.len() >= 1 by {
            assert(pre.session_wf(s));
            assert(self.sessions@[s] == pre.sessions@[s]);
        }
        assert forall|k2: int|
            #![trigger self.documents@[di].sessions@[k2]]
            0 <= k2 < self.documents@[di].sessions@.len() implies self.documents@[
        di].sessions@[k2].0 < self.sessions@.len() && self.sessions@[self.documents@[
        di].sessions@[k2].0 as int].document.0 == di by {
            let sid2 = pre.documents@[di].sessions@[k2].0 as int;
            assert(pre.sessions@[sid2].document.0 == di);
            if sid2 != editor.0 as int {
                assert(self.sessions@[sid2] == pre.sessions@[sid2]);
            }
        }
    }

    /// Propagates a committed text modification of document `di` to every
    /// session viewing it: the editing session (whose selection is already
    /// final) gets its caches rebuilt; every other viewer has its selection
    /// remapped through the changes and its caches rebuilt too.
    fn propagate(
        &mut self,
        di: usize,
        editor: SessionId,
        changes: &Vec<Change>,
        Ghost(t0): Ghost<TextModel>,
    )
        requires
            di < old(self).documents@.len(),
            editor.0 < old(self).sessions@.len(),
            old(self).sessions@[editor.0 as int].document.0 == di,
            old(self).documents@[di as int].history.wf(),
            old(self).documents@[di as int].inline_inlays@.len() == old(self).documents@[di as int].history@.text.len(),
            forall|i: int|
                #![trigger old(self).documents@[di as int].inline_inlays@[i]]
                0 <= i < old(self).documents@[di as int].inline_inlays@.len() ==> old(self).documents@[di as int].inline_inlays@[i]@.len() == 0,
            old(self).documents@[di as int].block_inlays@.len() == 0,
            forall|i: int|
                0 <= i < old(self).documents@[di as int].history@.text.len() ==> #[trigger] old(
                    self,
                ).documents@[di as int].history@.text[i].len() <= usize::MAX,
            forall|k: int|
                #![trigger old(self).documents@[di as int].sessions@[k]]
                0 <= k < old(self).documents@[di as int].sessions@.len() ==> old(self).documents@[di as int].sessions@[k].0 < old(self).sessions@.len() && old(self).sessions@[old(self).documents@[di as int].sessions@[k].0 as int].document.0 == di,
            forall|k1: int, k2: int|
                #![trigger old(self).documents@[di as int].sessions@[k1], old(self).documents@[di as int].sessions@[k2]]
                0 <= k1 < k2 < old(self).documents@[di as int].sessions@.len() ==> old(self).documents@[di as int].sessions@[k1] != old(self).documents@[di as int].sessions@[k2],
            forall|d: int|
                0 <= d < old(self).documents@.len() && d != di ==> old(self).doc_wf(d),
            forall|s: int|
                0 <= s < old(self).sessions@.len() && !old(self).views(s, di as int) ==> old(self).session_wf(s),
            forall|s: int|
                0 <= s < old(self).sessions@.len() && old(self).views(s, di as int) ==> exists|
                    k: int,
                |
                    0 <= k < old(self).documents@[di as int].sessions@.len() && old(self).documents@[di as int].sessions@[k] == SessionId((s as usize)),
            forall|s: int|
                #![trigger old(self).sessions@[s]]
                0 <= s < old(self).sessions@.len() && old(self).views(s, di as int) && s
                    != editor.0 ==> old(self).sessions@[s].wf_for(t0),
            old(self).sessions@[editor.0 as int].selection@.len() >= 1,
            selection_in_text(
                old(self).sessions@[editor.0 as int].selection@,
                old(self).documents@[di as int].history@.text,
            ),
            old(self).sessions@[editor.0 as int].last_added_region < old(self).sessions@[editor.0 as int].selection@.len(),
            chain_fits(t0, changes_view(changes@)),
            apply_all(t0, changes_view(changes@)) == old(self).documents@[di as int].history@.text,
        ensures
            final(self).wf(),
            final(self).documents == old(self).documents,
            final(self).sessions@.len() == old(self).sessions@.len(),
            final(self).sessions@[editor.0 as int].selection == old(self).sessions@[editor.0 as int].selection,
            final(self).sessions@[editor.0 as int].document == old(self).sessions@[editor.0 as int].document,
            final(self).sessions@[editor.0 as int].last_added_region == old(self).sessions@[editor.0 as int].last_added_region,
            forall|other: SessionId|
                #![trigger final(self).selection_of(other)]
                other.0 < old(self).sessions@.len() && old(self).sessions@[other.0
                    as int].document.0 == di && other != editor ==> region_views(
                    final(self).selection_of(other),
                ) == regions_remap_all(
                    region_views(old(self).selection_of(other)),
                    changes_view(changes@),
                ) && region_affinities(final(self).selection_of(other)) == region_affinities(
                    old(self).selection_of(other),
                ) && final(self).last_added_of(other) == old(self).last_added_of(other)
                    && final(self).document_of(other) == old(self).document_of(other),
    {
        let ghost new_text = old(self).documents@[di as int].history@.text;
        proof {
            old(self).documents@[di as int].history.lemma_wf_model();
            assert(crate::text::text_wf(new_text));
        }
        let empty_inlays: Vec<(usize, InlineInlay)> = Vec::new();
        let total_sessions = self.sessions.len();
        let m = self.documents[di].sessions.len();
        let mut k: usize = 0;
        while k < m
            invariant
                k <= m,
                di < self.documents@.len(),
                self.sessions@.len() <= usize::MAX,
                editor.0 < self.sessions@.len(),
                self.documents == old(self).documents,
                m == self.documents@[di as int].sessions@.len(),
                self.sessions@.len() == old(self).sessions@.len(),
                empty_inlays@.len() == 0,
                new_text == self.documents@[di as int].history@.text,
                crate::text::text_wf(new_text),
                chain_fits(t0, changes_view(changes@)),
                apply_all(t0, changes_view(changes@)) == new_text,
                old(self).sessions@[editor.0 as int].document.0 == di,
                old(self).sessions@[editor.0 as int].selection@.len() >= 1,
                selection_in_text(old(self).sessions@[editor.0 as int].selection@, new_text),
                old(self).sessions@[editor.0 as int].last_added_region < old(self).sessions@[editor.0 as int].selection@.len(),
                forall|k2: int|
                    #![trigger self.documents@[di as int].sessions@[k2]]
                    0 <= k2 < m ==> self.documents@[di as int].sessions@[k2].0
                        < self.sessions@.len() && old(self).sessions@[self.documents@[di
                        as int].sessions@[k2].0 as int].document.0 == di,
                forall|k1: int, k2: int|
                    #![trigger self.documents@[di as int].sessions@[k1], self.documents@[di as int].sessions@[k2]]
                    0 <= k1 < k2 < m ==> self.documents@[di as int].sessions@[k1]
                        != self.documents@[di as int].sessions@[k2],
                forall|s: int|
                    #![trigger old(self).sessions@[s]]
                    0 <= s < old(self).sessions@.len() && old(self).views(s, di as int) && s
                        != editor.0 ==> old(self).sessions@[s].wf_for(t0),
                forall|s: int|
                    #![trigger self.sessions@[s]]
                    0 <= s < self.sessions@.len() && !old(self).views(s, di as int)
                        ==> self.sessions@[s] == old(self).sessions@[s],
                forall|s: int|
                    #![trigger self.sessions@[s]]
                    0 <= s < self.sessions@.len() && old(self).views(s, di as int) && !(exists|
                        k2: int,
                    |
                        0 <= k2 < k && self.documents@[di as int].sessions@[k2] == SessionId(
                            (s as usize),
                        )) ==> self.sessions@[s] == old(self).sessions@[s],
                forall|s: int|
                    #![trigger self.sessions@[s]]
                    0 <= s < self.sessions@.len() && old(self).views(s, di as int) && (exists|
                        k2: int,
                    |
                        0 <= k2 < k && self.documents@[di as int].sessions@[k2] == SessionId(
                            (s as usize),
                        )) ==> self.sessions@[s].wf_for(new_text) && self.sessions@[s].document
                        == old(self).sessions@[s].document && self.sessions@[s].last_added_region
                        == old(self).sessions@[s].last_added_region && (s == editor.0
                        ==> self.sessions@[s].selection == old(self).sessions@[s].selection) && (s
                        != editor.0 ==> region_views(self.sessions@[s].selection@)
                        == regions_remap_all(
                        region_views(old(self).sessions@[s].selection@),
                        changes_view(changes@),
                    ) && region_affinities(self.sessions@[s].selection@) == region_affinities(
                        old(self).sessions@[s].selection@,
                    )),
            decreases m - k,
        {
            let ghost entry_sessions = self.sessions@;
            let id = self.documents[di].sessions[k];
            let s2 = id.0;
            let ghost s2i = s2 as int;
            proof {
                assert(self.documents@[di as int].sessions@[k as int] == id);
                assert(!(exists|k2: int|
                    0 <= k2 < k && self.documents@[di as int].sessions@[k2] == id)) by {
                    if exists|k2: int|
                        0 <= k2 < k && self.documents@[di as int].sessions@[k2] == id {
                        let k2 = choose|k2: int|
                            0 <= k2 < k && self.documents@[di as int].sessions@[k2] == id;
                        assert(self.documents@[di as int].sessions@[k2]
                            != self.documents@[di as int].sessions@[k as int]);
                    }
                }
                assert(self.sessions@[s2i] == old(self).sessions@[s2i]);
            }
            if s2 != editor.0 {
                let sess2 = &mut self.sessions[s2];
                proof {
                    assert(old(self).sessions@[s2i].wf_for(t0));
                }
                remap_selection(&mut sess2.selection, changes, Ghost(t0));
            }
            let sess2 = &mut self.sessions[s2];
            let doc_text = self.documents[di].history.as_text();
            rebuild_caches(sess2, doc_text, &empty_inlays);
            k = k + 1;
            proof {
                assert(self.sessions@ =~= entry_sessions.update(s2i, self.sessions@[s2i]));
                assert(self.sessions@[s2i].wf_for(new_text)) by {
                    if s2i != editor.0 as int {
                        assert(old(self).sessions@[s2i].wf_for(t0));
                    }
                }
                assert(self.documents@[di as int].sessions@[k - 1] == SessionId((s2 as usize)));
                assert forall|s: int|
                    #![trigger self.sessions@[s]]
                    0 <= s < self.sessions@.len() && old(self).views(s, di as int) && (exists|
                        k2: int,
                    |
                        0 <= k2 < k && self.documents@[di as int].sessions@[k2] == SessionId(
                            (s as usize),
                        )) implies self.sessions@[s].wf_for(new_text) && self.sessions@[s].document
                    == old(self).sessions@[s].document && self.sessions@[s].last_added_region
                    == old(self).sessions@[s].last_added_region && (s == editor.0
                    ==> self.sessions@[s].selection == old(self).sessions@[s].selection) && (s
                    != editor.0 ==> region_views(self.sessions@[s].selection@)
                    == regions_remap_all(
                    region_views(old(self).sessions@[s].selection@),
                    changes_view(changes@),
                ) && region_affinities(self.sessions@[s].selection@) == region_affinities(
                    old(self).sessions@[s].selection@,
                )) by {
                    if s == s2i {
                        if s2 == editor.0 {
                            assert(self.sessions@[s].selection == old(self).sessions@[s].selection);
                        }
                    } else {
                        let k2 = choose|k2: int|
                            0 <= k2 < k && self.documents@[di as int].sessions@[k2] == SessionId(
                                (s as usize),
                            );
                        assert(k2 != k - 1);
                        assert(self.sessions@[s] == entry_sessions[s]);
                    }
                }
                assert forall|s: int|
                    #![trigger self.sessions@[s]]
                    0 <= s < self.sessions@.len() && old(self).views(s, di as int) && !(exists|
                        k2: int,
                    |
                        0 <= k2 < k && self.documents@[di as int].sessions@[k2] == SessionId(
                            (s as usize),
                        )) implies self.sessions@[s] == old(self).sessions@[s] by {
                    assert(s != s2i);
                    assert(self.sessions@[s] == entry_sessions[s]);
                }
            }
        }
        proof {
            assert forall|d2: int| 0 <= d2 < self.documents@.len() implies self.doc_wf(d2) by {
                if d2 == di {
                } else {
                    assert(old(self).doc_wf(d2));
                    assert(self.documents@[d2] == old(self).documents@[d2]);
                    assert forall|k2: int|
                        #![trigger self.documents@[d2].sessions@[k2]]
                        0 <= k2 < self.documents@[d2].sessions@.len() implies self.documents@[
                        d2].sessions@[k2].0 < self.sessions@.len() && self.sessions@[self.documents@[
                        d2].sessions@[k2].0 as int].document.0 == d2 by {
                        let sid2 = old(self).documents@[d2].sessions@[k2].0 as int;
                        assert(old(self).sessions@[sid2].document.0 == d2);
                        assert(!old(self).views(sid2, di as int));
                        assert(self.sessions@[sid2] == old(self).sessions@[sid2]);
                    }
                }
            }
            assert forall|s: int| 0 <= s < self.sessions@.len() implies self.session_wf(s) by {
                if old(self).views(s, di as int) {
                    assert(exists|k2: int|
                        0 <= k2 < m && self.documents@[di as int].sessions@[k2] == SessionId(
                            (s as usize),
                        ));
                    assert(self.sessions@[s].wf_for(new_text));
                    assert(self.sessions@[s].document == old(self).sessions@[s].document);
                } else {
                    assert(old(self).session_wf(s));
                    assert(self.sessions@[s] == old(self).sessions@[s]);
                    let od = self.sessions@[s].document.0 as int;
                    assert(self.documents@[od] == old(self).documents@[od]);
                }
            }
            assert forall|other: SessionId|
                #![trigger final(self).selection_of(other)]
                other.0 < old(self).sessions@.len() && old(self).sessions@[other.0
                    as int].document.0 == di && other != editor implies region_views(
                final(self).selection_of(other),
            ) == regions_remap_all(
                region_views(old(self).selection_of(other)),
                changes_view(changes@),
            ) && region_affinities(final(self).selection_of(other)) == region_affinities(
                old(self).selection_of(other),
            ) && final(self).last_added_of(other) == old(self).last_added_of(other)
                && final(self).document_of(other) == old(self).document_of(other) by {
                let s = other.0 as int;
                assert(old(self).views(s, di as int));
                assert(exists|k2: int|
                    0 <= k2 < m && self.documents@[di as int].sessions@[k2] == SessionId(
                        (s as usize),
                    ));
                assert(SessionId((s as usize)) == other);
                assert(s != editor.0 as int);
            }
        }
    }
}

impl State {
    /// One edit: for every selection region (left to right, each remapped
    /// through the changes already applied), deletes the region's span and,
    /// when inserting, splices `ins` in at its start — all in one undo
    /// group, which coalesces with the previous edit of the same session
    /// and kind. The editing session's selection is remapped through every
    /// change; other sessions viewing the document likewise.
    #[verifier::rlimit(100)]
    #[verifier::spinoff_prover]
    fn edit_text(&mut self, session: SessionId, kind: EditKind, ins: Option<Text>)
        requires
            old(self).wf(),
            old(self).valid_session(session),
            ins matches Some(t) ==> t.wf(),
        ensures
            final(self).wf(),
            final(self).valid_session(session),
            final(self).history_of(session).prev_edit == Some((session, kind)),
            final(self).history_of(session).redo_groups.len() == 0,
            old(self).history_of(session).prev_edit == Some((session, kind)) ==> final(self).history_of(session).undo_groups.len() == old(self).history_of(
                session,
            ).undo_groups.len(),
            old(self).history_of(session).prev_edit != Some((session, kind)) ==> final(self).history_of(session).undo_groups.len() == old(self).history_of(
                session,
            ).undo_groups.len() + 1,
            final(self).document_of(session) == old(self).document_of(session),
            final(self).last_added_of(session) == old(self).last_added_of(session),
            ({
                let st = edit_state(
                    old(self).text_of(session),
                    region_views(old(self).selection_of(session)),
                    old(self).selection_of(session).len() as int,
                    text_opt_view(ins),
                );
                &&& final(self).text_of(session) == st.1
                &&& region_views(final(self).selection_of(session)) == regions_remap_all(
                    region_views(old(self).selection_of(session)),
                    st.0,
                )
                &&& region_affinities(final(self).selection_of(session)) == region_affinities(
                    old(self).selection_of(session),
                )
                &&& forall|other: SessionId|
                    #![trigger final(self).selection_of(other)]
                    other != session && old(self).valid_session(other) && old(self).document_of(
                        other,
                    ) == old(self).document_of(session) ==> region_views(
                        final(self).selection_of(other),
                    ) == regions_remap_all(region_views(old(self).selection_of(other)), st.0)
                        && region_affinities(final(self).selection_of(other))
                        == region_affinities(old(self).selection_of(other)) && final(self).last_added_of(other) == old(self).last_added_of(other)
            }),
            old(self).history_of(session).prev_edit != Some((session, kind)) ==> final(self).history_of(session).undo_groups.last().text_before == old(self).text_of(
                session,
            ) && final(self).history_of(session).undo_groups.last().selection == old(self).selection_of(session),
            old(self).history_of(session).prev_edit == Some((session, kind)) ==> final(self).history_of(session).undo_groups.last().text_before == old(self).history_of(
                session,
            ).undo_groups.last().text_before && final(self).history_of(session).undo_groups.last().selection == old(self).history_of(session).undo_groups.last().selection,
    {
        let si = session.0;
        proof {
            old(self).lemma_selection_ok(session);
        }
        let di = self.sessions[si].document.0;
        proof {
            assert(old(self).doc_wf(di as int));
        }
        let ghost t0 = old(self).text_of(session);
        let ghost sel0 = old(self).selection_of(session);
        let ghost ws0 = region_views(sel0);
        let ghost insm = text_opt_view(ins);
        let ghost coalesced = old(self).history_of(session).prev_edit == Some((session, kind));
        let ghost pre_groups = old(self).history_of(session).undo_groups;
        let mut changes: Vec<Change> = Vec::new();
        let sess_sel = &self.sessions[si].selection;
        let doc0 = &mut self.documents[di];
        doc0.history.edit(session, kind, sess_sel);
        let ghost groups_after_edit = self.documents@[di as int].history@.undo_groups.len();
        let mut working = self.sessions[si].selection.duplicate();
        let n = working.region_count();
        proof {
            assert(changes_view(changes@).take(0) =~= Seq::<ChangeModel>::empty());
            assert(changes_view(changes@) =~= Seq::<ChangeModel>::empty());
            assert(region_views(working@) == regions_remap_all(ws0, changes_view(changes@)));
        }
        let mut k: usize = 0;
        while k < n
            invariant
                k <= n,
                n == working@.len(),
                si == session.0,
                si < self.sessions@.len(),
                di < self.documents@.len(),
                self.documents@.len() == old(self).documents@.len(),
                forall|j: int|
                    #![trigger self.documents@[j]]
                    0 <= j < self.documents@.len() && j != di ==> self.documents@[j] == old(
                        self,
                    ).documents@[j],
                self.documents@[di as int].sessions == old(self).documents@[di as int].sessions,
                self.sessions@ == old(self).sessions@,
                self.documents@[di as int].history.wf(),
                self.documents@[di as int].history@.undo_groups.len() == groups_after_edit,
                groups_after_edit >= 1,
                self.documents@[di as int].history@.redo_groups.len() == 0,
                self.documents@[di as int].history@.prev_edit == Some((session, kind)),
                chain_fits(t0, changes_view(changes@)),
                apply_all(t0, changes_view(changes@))
                    == self.documents@[di as int].history@.text,
                working@.len() >= 1,
                selection_in_text(working@, self.documents@[di as int].history@.text),
                (ins matches Some(t) ==> t.wf()),
                insm == text_opt_view(ins),
                ws0 == region_views(sel0),
                sel0.len() == n,
                changes_view(changes@) == edit_state(t0, ws0, k as int, insm).0,
                self.documents@[di as int].history@.text == edit_state(t0, ws0, k as int, insm).1,
                region_views(working@) == regions_remap_all(ws0, changes_view(changes@)),
                region_affinities(working@) == region_affinities(sel0),
                (coalesced ==> self.documents@[di as int].history@.undo_groups.last().text_before
                    == pre_groups.last().text_before
                    && self.documents@[di as int].history@.undo_groups.last().selection
                    == pre_groups.last().selection),
                (!coalesced ==> self.documents@[di as int].history@.undo_groups.last().text_before
                    == t0 && self.documents@[di as int].history@.undo_groups.last().selection
                    == sel0),
                coalesced == (old(self).history_of(session).prev_edit == Some((session, kind))),
                pre_groups == old(self).history_of(session).undo_groups,
            decreases n - k,
        {
            let ghost t_cur = self.documents@[di as int].history@.text;
            let ghost cs_pre = changes_view(changes@);
            let region = working.region_at(k);
            let start = region.start();
            let length = region.length();
            proof {
                assert(region.cursor.position@.in_text(t_cur) && region.anchor@.in_text(t_cur));
                assert(start@ == region.start_m() && start@.in_text(t_cur));
                assert(region.end_m().in_text(t_cur));
                assert(start@.plus(region.end_m().minus(start@)) == region.end_m());
                assert(region@ == regions_remap_all(ws0, cs_pre)[k as int]);
                assert(start@ == region@.start());
                assert(region.end_m() == region@.end());
            }
            let del = Change::Delete(start, length);
            proof {
                assert(del@ == ChangeModel::Delete(
                    region@.start(),
                    region@.end().minus(region@.start()),
                ));
            }
            let ghost pre_changes = changes@;
            let doc = &mut self.documents[di];
            history_apply_change_logged(&mut doc.history, del, &mut changes);
            let last_index = changes.len() - 1;
            proof {
                assert(changes@[last_index as int] == del);
                assert(changes_view(changes@) =~= changes_view(pre_changes).push(del@));
                crate::history::lemma_chain_fits_snoc(t0, changes_view(pre_changes), del@);
                crate::history::lemma_apply_all_snoc(t0, changes_view(pre_changes), del@);
                assert forall|i: int|
                    #![trigger working@[i]]
                    0 <= i < working@.len() implies remap_fits(
                    working@[i].cursor.position@,
                    del@,
                ) && remap_fits(working@[i].anchor@, del@) by {
                    assert(pos_fits(working@[i].cursor.position@));
                    assert(pos_fits(working@[i].anchor@));
                }
            }
            let ghost pre_working = working@;
            working.apply_change(&changes[last_index]);
            proof {
                let t_next = self.documents@[di as int].history@.text;
                assert forall|i: int|
                    #![trigger working@[i]]
                    0 <= i < working@.len() implies working@[i].cursor.position@.in_text(t_next)
                    && working@[i].anchor@.in_text(t_next) by {
                    crate::text::lemma_remap_valid(
                        t_cur,
                        del@,
                        pre_working[i].cursor.position@,
                        pre_working[i].cursor_drift(),
                    );
                    crate::text::lemma_remap_valid(
                        t_cur,
                        del@,
                        pre_working[i].anchor@,
                        pre_working[i].anchor_drift(),
                    );
                }
                crate::selection::lemma_regions_remap_all_snoc(ws0, cs_pre, del@);
                assert(changes_view(changes@) =~= cs_pre.push(del@));
                assert(region_views(working@) =~= region_views(pre_working).map_values(
                    |r: RegionModel| r.remap(del@),
                ));
                assert(region_affinities(working@) =~= region_affinities(pre_working));
                assert(region_views(working@) == regions_remap_all(ws0, changes_view(changes@)));
            }
            match &ins {
                Some(text_ins) => {
                    let ghost t_mid = self.documents@[di as int].history@.text;
                    let region2 = working.region_at(k);
                    let start2 = region2.start();
                    proof {
                        assert(region2.cursor.position@.in_text(t_mid) && region2.anchor@.in_text(
                            t_mid,
                        ));
                        assert(start2@ == region2.start_m() && start2@.in_text(t_mid));
                        assert(region2@ == regions_remap_all(ws0, changes_view(changes@))[
                            k as int]);
                        assert(region2@ == region@.remap(del@));
                        assert(start2@ == region@.remap(del@).start());
                    }
                    let insc = Change::Insert(start2, text_ins.duplicate());
                    proof {
                        assert(insc@ == ChangeModel::Insert(
                            region@.remap(del@).start(),
                            text_ins@,
                        ));
                    }
                    let ghost pre_changes2 = changes@;
                    let doc2 = &mut self.documents[di];
                    history_apply_change_logged(&mut doc2.history, insc, &mut changes);
                    let last_index2 = changes.len() - 1;
                    proof {
                        assert(changes@[last_index2 as int] == insc);
                        assert(changes_view(changes@) =~= changes_view(pre_changes2).push(insc@));
                        crate::history::lemma_chain_fits_snoc(
                            t0,
                            changes_view(pre_changes2),
                            insc@,
                        );
                        crate::history::lemma_apply_all_snoc(
                            t0,
                            changes_view(pre_changes2),
                            insc@,
                        );
                        assert forall|i: int|
                            #![trigger working@[i]]
                            0 <= i < working@.len() implies remap_fits(
                            working@[i].cursor.position@,
                            insc@,
                        ) && remap_fits(working@[i].anchor@, insc@) by {
                            assert(pos_fits(working@[i].cursor.position@));
                            assert(pos_fits(working@[i].anchor@));
                        }
                    }
                    let ghost pre_working2 = working@;
                    working.apply_change(&changes[last_index2]);
                    proof {
                        let t_next = self.documents@[di as int].history@.text;
                        assert forall|i: int|
                            #![trigger working@[i]]
                            0 <= i < working@.len() implies working@[i].cursor.position@.in_text(
                            t_next,
                        ) && working@[i].anchor@.in_text(t_next) by {
                            crate::text::lemma_remap_valid(
                                t_mid,
                                insc@,
                                pre_working2[i].cursor.position@,
                                pre_working2[i].cursor_drift(),
                            );
                            crate::text::lemma_remap_valid(
                                t_mid,
                                insc@,
                                pre_working2[i].anchor@,
                                pre_working2[i].anchor_drift(),
                            );
                        }
                        crate::selection::lemma_regions_remap_all_snoc(
                            ws0,
                            changes_view(pre_changes2),
                            insc@,
                        );
                        assert(region_views(working@) =~= region_views(pre_working2).map_values(
                            |r: RegionModel| r.remap(insc@),
                        ));
                        assert(region_affinities(working@) =~= region_affinities(pre_working2));
                        assert(region_views(working@) == regions_remap_all(
                            ws0,
                            changes_view(changes@),
                        ));
                    }
                },
                None => {},
            }
            k = k + 1;
            proof {
                assert(edit_state(t0, ws0, k as int, insm).0 == edit_state(
                    t0,
                    ws0,
                    k - 1,
                    insm,
                ).0 + (match insm {
                    Some(x) => seq![
                        del@,
                        ChangeModel::Insert(region@.remap(del@).start(), x),
                    ],
                    None => seq![del@],
                }));
                match insm {
                    Some(x) => {
                        assert(changes_view(changes@) =~= cs_pre + seq![
                            del@,
                            ChangeModel::Insert(region@.remap(del@).start(), x),
                        ]);
                    },
                    None => {
                        assert(changes_view(changes@) =~= cs_pre + seq![del@]);
                    },
                }
                assert(changes_view(changes@) == edit_state(t0, ws0, k as int, insm).0);
                assert(self.documents@[di as int].history@.text == edit_state(
                    t0,
                    ws0,
                    k as int,
                    insm,
                ).1);
            }
        }
        let inlay_doc = &mut self.documents[di];
        reset_doc_inlays(inlay_doc);
        let sess = &mut self.sessions[si];
        sess.selection = working;
        proof {
            assert(old(self).session_wf(si as int));
            assert(self.sessions@ =~= old(self).sessions@.update(
                si as int,
                self.sessions@[si as int],
            ));
            assert(self.documents@ =~= old(self).documents@.update(
                di as int,
                self.documents@[di as int],
            ));
            self.lemma_propagate_pre(old(self), di as int, session);
        }
        self.propagate(di, session, &changes, Ghost(t0));
    }

    /// Replaces every selection region's span with `text`, as one edit that
    /// coalesces with a previous insertion by the same session.
    #[verifier::rlimit(100)]
    #[verifier::spinoff_prover]
    pub fn insert(&mut self, session: SessionId, text: Text)
        requires
            old(self).wf(),
            old(self).valid_session(session),
            text.wf(),
        ensures
            final(self).wf(),
            final(self).valid_session(session),
            final(self).history_of(session).prev_edit == Some((session, EditKind::Insert)),
            final(self).history_of(session).redo_groups.len() == 0,
            old(self).history_of(session).prev_edit == Some((session, EditKind::Insert)) ==> final(self).history_of(session).undo_groups.len() == old(self).history_of(
                session,
            ).undo_groups.len(),
            old(self).history_of(session).prev_edit != Some((session, EditKind::Insert)) ==> final(self).history_of(session).undo_groups.len() == old(self).history_of(
                session,
            ).undo_groups.len() + 1,
            final(self).document_of(session) == old(self).document_of(session),
            final(self).last_added_of(session) == old(self).last_added_of(session),
            ({
                let st = edit_state(
                    old(self).text_of(session),
                    region_views(old(self).selection_of(session)),
                    old(self).selection_of(session).len() as int,
                    Some(text@),
                );
                &&& final(self).text_of(session) == st.1
                &&& region_views(final(self).selection_of(session)) == regions_remap_all(
                    region_views(old(self).selection_of(session)),
                    st.0,
                )
                &&& region_affinities(final(self).selection_of(session)) == region_affinities(
                    old(self).selection_of(session),
                )
                &&& forall|other: SessionId|
                    #![trigger final(self).selection_of(other)]
                    other != session && old(self).valid_session(other) && old(self).document_of(
                        other,
                    ) == old(self).document_of(session) ==> region_views(
                        final(self).selection_of(other),
                    ) == regions_remap_all(region_views(old(self).selection_of(other)), st.0)
                        && region_affinities(final(self).selection_of(other))
                        == region_affinities(old(self).selection_of(other)) && final(self).last_added_of(other) == old(self).last_added_of(other)
            }),
            old(self).history_of(session).prev_edit != Some((session, EditKind::Insert)) ==> final(self).history_of(session).undo_groups.last().text_before == old(self).text_of(
                session,
            ) && final(self).history_of(session).undo_groups.last().selection == old(self).selection_of(session),
            old(self).history_of(session).prev_edit == Some((session, EditKind::Insert)) ==> final(self).history_of(session).undo_groups.last().text_before == old(self).history_of(
                session,
            ).undo_groups.last().text_before && final(self).history_of(session).undo_groups.last().selection == old(self).history_of(session).undo_groups.last().selection,
    {
        self.edit_text(session, EditKind::Insert, Some(text));
    }

    /// Deletes every selection region's span, as one edit that coalesces
    /// with a previous deletion by the same session. An empty region still
    /// records a zero-length deletion: a no-op on the buffer, kept so that
    /// the undo group accounts for every region of the edit.
    #[verifier::rlimit(100)]
    #[verifier::spinoff_prover]
    pub fn delete(&mut self, session: SessionId)
        requires
            old(self).wf(),
            old(self).valid_session(session),
        ensures
            final(self).wf(),
            final(self).valid_session(session),
            final(self).history_of(session).prev_edit == Some((session, EditKind::Delete)),
            final(self).history_of(session).redo_groups.len() == 0,
            old(self).history_of(session).prev_edit == Some((session, EditKind::Delete)) ==> final(self).history_of(session).undo_groups.len() == old(self).history_of(
                session,
            ).undo_groups.len(),
            old(self).history_of(session).prev_edit != Some((session, EditKind::Delete)) ==> final(self).history_of(session).undo_groups.len() == old(self).history_of(
                session,
            ).undo_groups.len() + 1,
            final(self).document_of(session) == old(self).document_of(session),
            final(self).last_added_of(session) == old(self).last_added_of(session),
            ({
                let st = edit_state(
                    old(self).text_of(session),
                    region_views(old(self).selection_of(session)),
                    old(self).selection_of(session).len() as int,
                    None,
                );
                &&& final(self).text_of(session) == st.1
                &&& region_views(final(self).selection_of(session)) == regions_remap_all(
                    region_views(old(self).selection_of(session)),
                    st.0,
                )
                &&& region_affinities(final(self).selection_of(session)) == region_affinities(
                    old(self).selection_of(session),
                )
                &&& forall|other: SessionId|
                    #![trigger final(self).selection_of(other)]
                    other != session && old(self).valid_session(other) && old(self).document_of(
                        other,
                    ) == old(self).document_of(session) ==> region_views(
                        final(self).selection_of(other),
                    ) == regions_remap_all(region_views(old(self).selection_of(other)), st.0)
                        && region_affinities(final(self).selection_of(other))
                        == region_affinities(old(self).selection_of(other)) && final(self).last_added_of(other) == old(self).last_added_of(other)
            }),
            old(self).history_of(session).prev_edit != Some((session, EditKind::Delete)) ==> final(self).history_of(session).undo_groups.last().text_before == old(self).text_of(
                session,
            ) && final(self).history_of(session).undo_groups.last().selection == old(self).selection_of(session),
            old(self).history_of(session).prev_edit == Some((session, EditKind::Delete)) ==> final(self).history_of(session).undo_groups.last().text_before == old(self).history_of(
                session,
            ).undo_groups.last().text_before && final(self).history_of(session).undo_groups.last().selection == old(self).history_of(session).undo_groups.last().selection,
    {
        self.edit_text(session, EditKind::Delete, None);
    }

    /// Undoes the most recent undo group of the session's document, if any:
    /// the buffer returns to exactly the state that preceded the group's
    /// edit, the editing session adopts the selection stored with the
    /// group, and every other viewing session is remapped through the
    /// replayed changes.
    #[verifier::rlimit(100)]
    #[verifier::spinoff_prover]
    pub fn undo(&mut self, session: SessionId)
        requires
            old(self).wf(),
            old(self).valid_session(session),
        ensures
            final(self).wf(),
            final(self).valid_session(session),
            final(self).document_of(session) == old(self).document_of(session),
            old(self).history_of(session).undo_groups.len() == 0 ==> final(self).history_of(
                session,
            ) == old(self).history_of(session) && final(self).selection_of(session) == old(self).selection_of(session) && final(self).text_of(session) == old(self).text_of(session)
                && final(self).last_added_of(session) == old(self).last_added_of(session),
            old(self).history_of(session).undo_groups.len() >= 1 ==> ({
                let g = old(self).history_of(session).undo_groups.last();
                &&& final(self).text_of(session) == g.text_before
                &&& final(self).selection_of(session) == g.selection
                &&& final(self).last_added_of(session) == 0
                &&& final(self).history_of(session).undo_groups == old(self).history_of(
                    session,
                ).undo_groups.drop_last()
                &&& final(self).history_of(session).redo_groups.len() == old(self).history_of(
                    session,
                ).redo_groups.len() + 1
                &&& final(self).history_of(session).redo_groups.last().text_before == old(self).text_of(session)
                &&& final(self).history_of(session).redo_groups.last().selection == old(self).selection_of(session)
                &&& final(self).history_of(session).redo_groups.drop_last() == old(self).history_of(session).redo_groups
                &&& forall|other: SessionId|
                    #![trigger final(self).selection_of(other)]
                    other != session && old(self).valid_session(other) && old(self).document_of(
                        other,
                    ) == old(self).document_of(session) ==> region_views(
                        final(self).selection_of(other),
                    ) == regions_remap_all(
                        region_views(old(self).selection_of(other)),
                        g.changes.reverse(),
                    ) && region_affinities(final(self).selection_of(other)) == region_affinities(
                        old(self).selection_of(other),
                    ) && final(self).last_added_of(other) == old(self).last_added_of(other)
            }),
    {
        let si = session.0;
        proof {
            old(self).lemma_selection_ok(session);
        }
        let di = self.sessions[si].document.0;
        proof {
            assert(old(self).doc_wf(di as int));
        }
        let ghost t0 = old(self).text_of(session);
        let mut changes: Vec<Change> = Vec::new();
        let sess_sel = &self.sessions[si].selection;
        let doc0 = &mut self.documents[di];
        let popped = doc0.history.undo(sess_sel, &mut changes);
        match popped {
            None => {
                proof {
                    assert forall|d2: int|
                        0 <= d2 < self.documents@.len() implies self.doc_wf(d2) by {
                        assert(old(self).doc_wf(d2));
                        if d2 != di {
                            assert(self.documents@[d2] == old(self).documents@[d2]);
                        }
                    }
                    assert forall|s2: int|
                        0 <= s2 < self.sessions@.len() implies self.session_wf(s2) by {
                        assert(old(self).session_wf(s2));
                        let od = self.sessions@[s2].document.0 as int;
                        assert(self.documents@[od].history@.text == old(self).documents@[od].history@.text);
                        assert(self.documents@[od].sessions == old(self).documents@[od].sessions);
                    }
                }
            },
            Some(sel) => {
                let inlay_doc = &mut self.documents[di];
                reset_doc_inlays(inlay_doc);
                let sess = &mut self.sessions[si];
                sess.selection = sel;
                sess.last_added_region = 0;
                proof {
                    assert(old(self).session_wf(si as int));
                    assert(self.documents@ =~= old(self).documents@.update(
                        di as int,
                        self.documents@[di as int],
                    ));
                    assert(self.sessions@ =~= old(self).sessions@.update(
                        si as int,
                        self.sessions@[si as int],
                    ));
                    self.lemma_propagate_pre(old(self), di as int, session);
                }
                self.propagate(di, session, &changes, Ghost(t0));
            },
        }
    }

    /// Redoes the most recently undone group, if any: the mirror of `undo`.
    #[verifier::rlimit(100)]
    #[verifier::spinoff_prover]
    pub fn redo(&mut self, session: SessionId)
        requires
            old(self).wf(),
            old(self).valid_session(session),
        ensures
            final(self).wf(),
            final(self).valid_session(session),
            final(self).document_of(session) == old(self).document_of(session),
            old(self).history_of(session).redo_groups.len() == 0 ==> final(self).history_of(
                session,
            ) == old(self).history_of(session) && final(self).selection_of(session) == old(self).selection_of(session) && final(self).text_of(session) == old(self).text_of(session)
                && final(self).last_added_of(session) == old(self).last_added_of(session),
            old(self).history_of(session).redo_groups.len() >= 1 ==> ({
                let g = old(self).history_of(session).redo_groups.last();
                &&& final(self).text_of(session) == g.text_before
                &&& final(self).selection_of(session) == g.selection
                &&& final(self).last_added_of(session) == 0
                &&& final(self).history_of(session).redo_groups == old(self).history_of(
                    session,
                ).redo_groups.drop_last()
                &&& final(self).history_of(session).undo_groups.len() == old(self).history_of(
                    session,
                ).undo_groups.len() + 1
                &&& final(self).history_of(session).undo_groups.last().text_before == old(self).text_of(session)
                &&& final(self).history_of(session).undo_groups.last().selection == old(self).selection_of(session)
                &&& final(self).history_of(session).undo_groups.drop_last() == old(self).history_of(session).undo_groups
                &&& forall|other: SessionId|
                    #![trigger final(self).selection_of(other)]
                    other != session && old(self).valid_session(other) && old(self).document_of(
                        other,
                    ) == old(self).document_of(session) ==> region_views(
                        final(self).selection_of(other),
                    ) == regions_remap_all(
                        region_views(old(self).selection_of(other)),
                        g.changes.reverse(),
                    ) && region_affinities(final(self).selection_of(other)) == region_affinities(
                        old(self).selection_of(other),
                    ) && final(self).last_added_of(other) == old(self).last_added_of(other)
            }),
    {
        let si = session.0;
        proof {
            old(self).lemma_selection_ok(session);
        }
        let di = self.sessions[si].document.0;
        proof {
            assert(old(self).doc_wf(di as int));
        }
        let ghost t0 = old(self).text_of(session);
        let mut changes: Vec<Change> = Vec::new();
        let sess_sel = &self.sessions[si].selection;
        let doc0 = &mut self.documents[di];
        let popped = doc0.history.redo(sess_sel, &mut changes);
        match popped {
            None => {
                proof {
                    assert forall|d2: int|
                        0 <= d2 < self.documents@.len() implies self.doc_wf(d2) by {
                        assert(old(self).doc_wf(d2));
                        if d2 != di {
                            assert(self.documents@[d2] == old(self).documents@[d2]);
                        }
                    }
                    assert forall|s2: int|
                        0 <= s2 < self.sessions@.len() implies self.session_wf(s2) by {
                        assert(old(self).session_wf(s2));
                        let od = self.sessions@[s2].document.0 as int;
                        assert(self.documents@[od].history@.text == old(self).documents@[od].history@.text);
                        assert(self.documents@[od].sessions == old(self).documents@[od].sessions);
                    }
                }
            },
            Some(sel) => {
                let inlay_doc = &mut self.documents[di];
                reset_doc_inlays(inlay_doc);
                let sess = &mut self.sessions[si];
                sess.selection = sel;
                sess.last_added_region = 0;
                proof {
                    assert(old(self).session_wf(si as int));
                    assert(self.documents@ =~= old(self).documents@.update(
                        di as int,
                        self.documents@[di as int],
                    ));
                    assert(self.sessions@ =~= old(self).sessions@.update(
                        si as int,
                        self.sessions@[si as int],
                    ));
                    self.lemma_propagate_pre(old(self), di as int, session);
                }
                self.propagate(di, session, &changes, Ghost(t0));
            },
        }
    }
}

/// A merge pass keeps every region endpoint inside the buffer: the merged
/// region's endpoints are endpoints of the regions it merges.
pub proof fn lemma_merge_pass_in_text(rs: Seq<Region>, t: TextModel)
    requires
        selection_in_text(rs, t),
    ensures
        selection_in_text(crate::selection::merge_pass(rs), t),
    decreases rs.len(),
{
    let mp = crate::selection::merge_pass(rs);
    if rs.len() <= 1 {
    } else if rs[0].start_m().le(rs[1].start_m()) && rs[0].overlaps_m(rs[1]) {
        let m = rs[0].merge_m(rs[1]);
        let rest = seq![m] + rs.subrange(2, rs.len() as int);
        assert(m.cursor.position@.in_text(t) && m.anchor@.in_text(t)) by {
            assert(rs[0].cursor.position@.in_text(t) && rs[0].anchor@.in_text(t));
            assert(rs[1].cursor.position@.in_text(t) && rs[1].anchor@.in_text(t));
        }
        assert(selection_in_text(rest, t)) by {
            assert(forall|i: int|
                #![trigger rest[i]]
                1 <= i < rest.len() ==> rest[i] == rs[i + 1]);
        }
        lemma_merge_pass_in_text(rest, t);
    } else {
        let rest = rs.drop_first();
        assert(selection_in_text(rest, t)) by {
            assert(forall|i: int| #![trigger rest[i]] 0 <= i < rest.len() ==> rest[i] == rs[i + 1]);
        }
        lemma_merge_pass_in_text(rest, t);
        assert(forall|i: int|
            #![trigger crate::selection::merge_pass(rest)[i]]
            0 <= i < crate::selection::merge_pass(rest).len() ==> mp[i + 1]
                == crate::selection::merge_pass(rest)[i]);
    }
}

} // verus!
