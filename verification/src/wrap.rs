//! Greedy word wrap of one composed line.
//!
//! The atomic unit of wrapping is a whitespace-delimited segment of a text
//! run (a break never splits inside one) or a single widget. Two passes:
//! the first resolves the indentation carried onto continuation rows (the
//! line's leading-whitespace width, degenerating to zero when any single
//! segment would not fit beside it); the second accumulates display
//! columns per segment and records a break at the current offset whenever
//! the next segment would overflow the maximum. Offsets are in the wrap
//! coordinate of `WrappedElements`: characters of raw and inlay text, one
//! slot per widget.

use crate::layout::{
    advance_of, advance_total, breaks_view, inlays_view, inlays_wf, inline_elements_model,
    InlineElement, InlineElementModel, InlineElements,
};
use crate::state::InlineInlay;
use vstd::prelude::*;

verus! {

/// The whitespace classification the core wraps by: blank and tab.
pub open spec fn is_ws(c: char) -> bool {
    c == ' ' || c == '\t'
}

/// The display width of one character: a tab expands to the configured
/// column count, everything else occupies one column.
pub open spec fn char_width(c: char, tab: int) -> int {
    if c == '\t' {
        tab
    } else {
        1
    }
}

/// The display width of a character sequence.
pub open spec fn str_width(s: Seq<char>, tab: int) -> int
    decreases s.len(),
{
    if s.len() == 0 {
        0
    } else {
        char_width(s.first(), tab) + str_width(s.drop_first(), tab)
    }
}

pub proof fn lemma_str_width_push(s: Seq<char>, c: char, tab: int)
    ensures
        str_width(s.push(c), tab) == str_width(s, tab) + char_width(c, tab),
    decreases s.len(),
{
    if s.len() == 0 {
        assert(s.push(c).drop_first() =~= s);
    } else {
        assert(s.push(c).drop_first() =~= s.drop_first().push(c));
        lemma_str_width_push(s.drop_first(), c, tab);
    }
}

pub proof fn lemma_str_width_bounds(s: Seq<char>, tab: int)
    requires
        0 <= tab <= usize::MAX,
    ensures
        0 <= str_width(s, tab) <= s.len() * (usize::MAX as int),
    decreases s.len(),
{
    if s.len() > 0 {
        lemma_str_width_bounds(s.drop_first(), tab);
    }
}

/// The length of the leading run of characters that classify like the
/// first one.
pub open spec fn run_len(s: Seq<char>) -> int
    decreases s.len(),
{
    if s.len() == 0 {
        0
    } else if s.len() == 1 {
        1
    } else if is_ws(s[1]) == is_ws(s[0]) {
        1 + run_len(s.drop_first())
    } else {
        1
    }
}

pub proof fn lemma_run_len(s: Seq<char>)
    requires
        s.len() >= 1,
    ensures
        1 <= run_len(s) <= s.len(),
        forall|k: int| 0 <= k < run_len(s) ==> is_ws(#[trigger] s[k]) == is_ws(s[0]),
        run_len(s) < s.len() ==> is_ws(s[run_len(s)]) != is_ws(s[0]),
    decreases s.len(),
{
    if s.len() > 1 && is_ws(s[1]) == is_ws(s[0]) {
        lemma_run_len(s.drop_first());
        assert(forall|k: int|
            #![trigger s.drop_first()[k]]
            0 <= k < s.len() - 1 ==> s.drop_first()[k] == s[k + 1]);
        assert forall|k: int| 0 <= k < run_len(s) implies is_ws(#[trigger] s[k]) == is_ws(
            s[0],
        ) by {
            if k >= 1 {
                assert(s[k] == s.drop_first()[k - 1]);
            }
        }
    }
}

/// The maximal runs of `s`, alternating whitespace and non-whitespace.
pub open spec fn segments(s: Seq<char>) -> Seq<Seq<char>>
    decreases s.len(),
{
    if s.len() == 0 {
        Seq::empty()
    } else {
        let k = if 1 <= run_len(s) <= s.len() {
            run_len(s)
        } else {
            s.len() as int
        };
        seq![s.take(k)] + segments(s.skip(k))
    }
}

/// One atom of wrapping: its display width and its extent in the wrap
/// coordinate.
pub ghost struct Atom {
    pub width: int,
    pub len: int,
}

/// The atoms of a text run: its segments, each weighed and measured.
pub open spec fn text_atoms(s: Seq<char>, tab: int) -> Seq<Atom> {
    segments(s).map_values(|seg: Seq<char>| Atom { width: str_width(seg, tab), len: seg.len() as int })
}

/// The atoms of one inline element.
pub open spec fn elem_atoms(e: InlineElementModel, tab: int) -> Seq<Atom> {
    match e {
        InlineElementModel::Text { text, .. } => text_atoms(text, tab),
        InlineElementModel::Widget(w) => seq![Atom { width: w.column_count as int, len: 1 }],
    }
}

/// The atoms of a whole element sequence, in display order.
pub open spec fn atoms_of(elems: Seq<InlineElementModel>, tab: int) -> Seq<Atom>
    decreases elems.len(),
{
    if elems.len() == 0 {
        Seq::empty()
    } else {
        elem_atoms(elems.first(), tab) + atoms_of(elems.drop_first(), tab)
    }
}

/// The length of the line's leading whitespace.
pub open spec fn leading_ws_len(s: Seq<char>) -> int
    decreases s.len(),
{
    if s.len() == 0 || !is_ws(s[0]) {
        0
    } else {
        1 + leading_ws_len(s.drop_first())
    }
}

/// The resolved continuation indentation: the leading-whitespace width,
/// degenerating to zero when any single atom would overflow beside it.
pub open spec fn indent_of(atoms: Seq<Atom>, base: int, max: int) -> int {
    if exists|i: int| 0 <= i < atoms.len() && base + #[trigger] atoms[i].width > max {
        0
    } else {
        base
    }
}

/// The running state of the greedy pass: the current column, the current
/// wrap-coordinate offset, and the breaks recorded so far.
pub ghost struct WrapState {
    pub column: int,
    pub position: int,
    pub breaks: Seq<int>,
}

/// Places one atom: if it would overflow the maximum, a break is recorded
/// at the current offset and the column restarts at the indentation.
pub open spec fn wrap_step(st: WrapState, a: Atom, max: int, indent: int) -> WrapState {
    let st1 = if st.column + a.width > max {
        WrapState { column: indent, position: st.position, breaks: st.breaks.push(st.position) }
    } else {
        st
    };
    WrapState { column: st1.column + a.width, position: st1.position + a.len, breaks: st1.breaks }
}

/// The greedy pass over all atoms, from column zero.
pub open spec fn wrap_run(atoms: Seq<Atom>, max: int, indent: int) -> WrapState
    decreases atoms.len(),
{
    if atoms.len() == 0 {
        WrapState { column: 0, position: 0, breaks: Seq::empty() }
    } else {
        wrap_step(wrap_run(atoms.drop_last(), max, indent), atoms.last(), max, indent)
    }
}

/// The wrap-coordinate offset where atom `k` starts: the total extent of
/// the atoms before it.
pub open spec fn atom_prefix_len(atoms: Seq<Atom>, k: int) -> int
    decreases k,
{
    if k <= 0 {
        0
    } else {
        atom_prefix_len(atoms, k - 1) + if k - 1 < atoms.len() {
            atoms[k - 1].len
        } else {
            0
        }
    }
}

/// The total extent of a sequence of atoms.
pub open spec fn atoms_len_total(atoms: Seq<Atom>) -> int
    decreases atoms.len(),
{
    if atoms.len() == 0 {
        0
    } else {
        atoms.first().len + atoms_len_total(atoms.drop_first())
    }
}

pub proof fn lemma_atoms_len_total_concat(a: Seq<Atom>, b: Seq<Atom>)
    ensures
        atoms_len_total(a + b) == atoms_len_total(a) + atoms_len_total(b),
    decreases a.len(),
{
    if a.len() == 0 {
        assert(a + b =~= b);
    } else {
        assert((a + b).drop_first() =~= a.drop_first() + b);
        lemma_atoms_len_total_concat(a.drop_first(), b);
    }
}

/// Segment atoms have positive extent and together cover the text.
pub proof fn lemma_text_atoms(s: Seq<char>, tab: int)
    ensures
        atoms_len_total(text_atoms(s, tab)) == s.len(),
        forall|i: int|
            0 <= i < text_atoms(s, tab).len() ==> #[trigger] text_atoms(s, tab)[i].len >= 1,
    decreases s.len(),
{
    if s.len() > 0 {
        lemma_run_len(s);
        let k = run_len(s);
        lemma_text_atoms(s.skip(k), tab);
        assert(text_atoms(s, tab) =~= seq![
            Atom { width: str_width(s.take(k), tab), len: s.take(k).len() as int },
        ] + text_atoms(s.skip(k), tab));
        assert(text_atoms(s, tab).drop_first() =~= text_atoms(s.skip(k), tab));
    }
}

/// All atoms of a line have positive extent and together cover the line's
/// wrap coordinate.
pub proof fn lemma_atoms_of(elems: Seq<InlineElementModel>, tab: int)
    ensures
        atoms_len_total(atoms_of(elems, tab)) == advance_total(elems),
        forall|i: int|
            0 <= i < atoms_of(elems, tab).len() ==> #[trigger] atoms_of(elems, tab)[i].len >= 1,
    decreases elems.len(),
{
    if elems.len() > 0 {
        lemma_atoms_of(elems.drop_first(), tab);
        match elems.first() {
            InlineElementModel::Text { text, .. } => {
                lemma_text_atoms(text, tab);
            },
            InlineElementModel::Widget(_) => {},
        }
        lemma_atoms_len_total_concat(elem_atoms(elems.first(), tab), atoms_of(elems.drop_first(), tab));
        let ea = elem_atoms(elems.first(), tab);
        let rest = atoms_of(elems.drop_first(), tab);
        match elems.first() {
            InlineElementModel::Widget(w) => {
                assert(ea.drop_first() =~= Seq::<Atom>::empty());
                assert(atoms_len_total(Seq::<Atom>::empty()) == 0);
                assert(ea.first() == (Atom { width: w.column_count as int, len: 1 }));
                assert(atoms_len_total(ea) == 1);
            },
            InlineElementModel::Text { text, .. } => {
                assert(atoms_len_total(ea) == text.len());
            },
        }
        assert(atoms_len_total(ea) == advance_of(elems.first()));
        assert forall|i: int| 0 <= i < atoms_of(elems, tab).len() implies #[trigger] atoms_of(
            elems,
            tab,
        )[i].len >= 1 by {
            if i < ea.len() {
                assert(atoms_of(elems, tab)[i] == ea[i]);
                match elems.first() {
                    InlineElementModel::Widget(w) => {
                        assert(ea[i] == (Atom { width: w.column_count as int, len: 1 }));
                    },
                    InlineElementModel::Text { .. } => {},
                }
            } else {
                assert(atoms_of(elems, tab)[i] == rest[i - ea.len()]);
            }
        }
    }
}

pub proof fn lemma_atom_prefix_is_total(atoms: Seq<Atom>, k: int)
    requires
        0 <= k <= atoms.len(),
    ensures
        atom_prefix_len(atoms, k) == atoms_len_total(atoms.take(k)),
    decreases k,
{
    if k > 0 {
        lemma_atom_prefix_is_total(atoms, k - 1);
        assert(atoms.take(k).drop_last() =~= atoms.take(k - 1));
        lemma_atoms_len_total_concat(atoms.take(k - 1), seq![atoms[k - 1]]);
        assert(atoms.take(k) =~= atoms.take(k - 1) + seq![atoms[k - 1]]);
        assert(seq![atoms[k - 1]].drop_first() =~= Seq::<Atom>::empty());
        assert(atoms_len_total(Seq::<Atom>::empty()) == 0);
        assert(seq![atoms[k - 1]].first() == atoms[k - 1]);
        assert(atoms_len_total(seq![atoms[k - 1]]) == atoms[k - 1].len);
    }
}

/// The greedy pass walks the atoms in order: after any prefix the offset is
/// that prefix's total extent, and every recorded break is the offset of
/// some atom's start (never the inside of one); with nonnegative extents
/// the breaks ascend.
pub proof fn lemma_wrap_run(atoms: Seq<Atom>, max: int, indent: int)
    requires
        forall|i: int| 0 <= i < atoms.len() ==> #[trigger] atoms[i].len >= 0,
    ensures
        wrap_run(atoms, max, indent).position == atom_prefix_len(atoms, atoms.len() as int),
        forall|b: int|
            0 <= b < wrap_run(atoms, max, indent).breaks.len()
                ==> exists|k: int|
                0 <= k < atoms.len() && #[trigger] wrap_run(atoms, max, indent).breaks[b]
                    == atom_prefix_len(atoms, k),
        forall|b1: int, b2: int|
            #![trigger wrap_run(atoms, max, indent).breaks[b1], wrap_run(atoms, max, indent).breaks[b2]]
            0 <= b1 <= b2 < wrap_run(atoms, max, indent).breaks.len() ==> wrap_run(
                atoms,
                max,
                indent,
            ).breaks[b1] <= wrap_run(atoms, max, indent).breaks[b2],
        forall|b: int|
            0 <= b < wrap_run(atoms, max, indent).breaks.len() ==> 0 <= #[trigger] wrap_run(
                atoms,
                max,
                indent,
            ).breaks[b] <= wrap_run(atoms, max, indent).position,
        wrap_run(atoms, max, indent).position >= 0,
    decreases atoms.len(),
{
    if atoms.len() > 0 {
        let pre = atoms.drop_last();
        assert(forall|i: int| #![trigger pre[i]] 0 <= i < pre.len() ==> pre[i] == atoms[i]);
        lemma_wrap_run(pre, max, indent);
        let st0 = wrap_run(pre, max, indent);
        assert(atoms[atoms.len() - 1].len >= 0);
        let st1 = wrap_run(atoms, max, indent);
        assert forall|k: int| 0 <= k <= pre.len() implies #[trigger] atom_prefix_len(pre, k)
            == atom_prefix_len(atoms, k) by {
            lemma_atom_prefix_shared(atoms, k);
        }
        assert(st1.position == st0.position + atoms.last().len);
        assert(st0.position == atom_prefix_len(atoms, atoms.len() - 1));
        assert forall|b: int| 0 <= b < st1.breaks.len() implies exists|k: int|
            0 <= k < atoms.len() && #[trigger] st1.breaks[b] == atom_prefix_len(atoms, k) by {
            if b < st0.breaks.len() {
                assert(st1.breaks[b] == st0.breaks[b]);
                let k = choose|k: int|
                    0 <= k < pre.len() && st0.breaks[b] == atom_prefix_len(pre, k);
                assert(st1.breaks[b] == atom_prefix_len(atoms, k));
            } else {
                assert(st1.breaks[b] == st0.position);
                assert(st1.breaks[b] == atom_prefix_len(atoms, atoms.len() - 1));
            }
        }
        assert forall|b: int| 0 <= b < st1.breaks.len() implies 0 <= #[trigger] st1.breaks[b]
            <= st1.position by {
            if b < st0.breaks.len() {
                assert(st1.breaks[b] == st0.breaks[b]);
            } else {
                assert(st1.breaks[b] == st0.position);
            }
        }
    }
}

/// A prefix offset does not depend on the atoms at or after it.
pub proof fn lemma_atom_prefix_shared(atoms: Seq<Atom>, k: int)
    requires
        0 <= k <= atoms.len() - 1,
    ensures
        atom_prefix_len(atoms.drop_last(), k) == atom_prefix_len(atoms, k),
    decreases k,
{
    if k > 0 {
        lemma_atom_prefix_shared(atoms, k - 1);
    }
}

/// With nonnegative extents, prefix offsets ascend.
pub proof fn lemma_atom_prefix_mono(atoms: Seq<Atom>, k1: int, k2: int)
    requires
        0 <= k1 <= k2,
        forall|i: int| 0 <= i < atoms.len() ==> #[trigger] atoms[i].len >= 0,
    ensures
        atom_prefix_len(atoms, k1) <= atom_prefix_len(atoms, k2),
    decreases k2 - k1,
{
    if k1 < k2 {
        lemma_atom_prefix_mono(atoms, k1, k2 - 1);
    }
}

pub proof fn lemma_leading_ws_len(s: Seq<char>)
    ensures
        0 <= leading_ws_len(s) <= s.len(),
        forall|k: int| 0 <= k < leading_ws_len(s) ==> is_ws(#[trigger] s[k]),
        leading_ws_len(s) < s.len() ==> !is_ws(s[leading_ws_len(s)]),
    decreases s.len(),
{
    if s.len() > 0 && is_ws(s[0]) {
        lemma_leading_ws_len(s.drop_first());
        assert(forall|k: int|
            #![trigger s.drop_first()[k]]
            0 <= k < s.len() - 1 ==> s.drop_first()[k] == s[k + 1]);
        assert forall|k: int| 0 <= k < leading_ws_len(s) implies is_ws(#[trigger] s[k]) by {
            if k >= 1 {
                assert(s[k] == s.drop_first()[k - 1]);
            }
        }
    }
}

fn ws_char(c: char) -> (r: bool)
    ensures
        r == is_ws(c),
{
    c == ' ' || c == '\t'
}

fn col_width_of(c: char, tab_column_count: usize) -> (r: usize)
    ensures
        r as int == char_width(c, tab_column_count as int),
{
    if c == '\t' {
        tab_column_count
    } else {
        1
    }
}

/// The display width of the line's leading whitespace; exact, since it fits
/// twice the square of the machine word.
fn leading_indent(text: &str, tab_column_count: usize) -> (r: u128)
    ensures
        r as int == str_width(
            text@.take(leading_ws_len(text@)),
            tab_column_count as int,
        ),
{
    let n = text.unicode_len();
    let ghost lws = leading_ws_len(text@);
    proof {
        lemma_leading_ws_len(text@);
    }
    let mut i: usize = 0;
    let mut w: u128 = 0;
    loop
        invariant_except_break
            i <= lws <= n,
            n == text@.len(),
            forall|k: int| 0 <= k < lws ==> is_ws(#[trigger] text@[k]),
            lws < n ==> !is_ws(text@[lws as int]),
            w as int == str_width(text@.take(i as int), tab_column_count as int),
            w as int <= i * (usize::MAX as int),
        ensures
            w as int == str_width(text@.take(lws), tab_column_count as int),
        decreases n - i,
    {
        if i >= n {
            proof {
                assert(i == lws);
            }
            break;
        }
        let c = text.get_char(i);
        if !ws_char(c) {
            proof {
                assert(i == lws);
            }
            break;
        }
        let cw = col_width_of(c, tab_column_count);
        proof {
            assert(i < lws);
            assert(text@.take(i as int + 1) =~= text@.take(i as int).push(text@[i as int]));
            lemma_str_width_push(text@.take(i as int), text@[i as int], tab_column_count as int);
        }
        w = w + (cw as u128);
        i = i + 1;
    }
    w
}

/// Exec atoms as model atoms.
pub open spec fn atoms_view(v: Seq<(u128, usize)>) -> Seq<Atom> {
    v.map_values(|p: (u128, usize)| Atom { width: p.0 as int, len: p.1 as int })
}

/// Collects the wrap atoms of one composed line, each with its exact
/// display width and extent.
fn collect_atoms(text: &str, inlays: &Vec<(usize, InlineInlay)>, tab_column_count: usize) -> (r:
    Vec<(u128, usize)>)
    requires
        inlays_wf(inlays_view(inlays@), text@.len() as int),
    ensures
        atoms_view(r@) == atoms_of(
            inline_elements_model(text@, inlays_view(inlays@), 0),
            tab_column_count as int,
        ),
{
    let ghost tabm = tab_column_count as int;
    let mut atoms: Vec<(u128, usize)> = Vec::new();
    let mut it = InlineElements::new(text, inlays);
    let ghost all = it.remaining();
    proof {
        assert(atoms_view(atoms@) + atoms_of(all, tabm) =~= atoms_of(all, tabm));
    }
    loop
        invariant_except_break
            it.wf(),
            tabm == tab_column_count as int,
            atoms_of(all, tabm) == atoms_view(atoms@) + atoms_of(it.remaining(), tabm),
        ensures
            atoms_view(atoms@) == atoms_of(all, tabm),
        decreases it.remaining().len(),
    {
        let ghost rem = it.remaining();
        let ghost pre_atoms = atoms_view(atoms@);
        match it.next() {
            None => {
                proof {
                    assert(atoms_of(rem, tabm) =~= Seq::<Atom>::empty());
                    assert(pre_atoms + atoms_of(rem, tabm) =~= pre_atoms);
                }
                break;
            },
            Some(InlineElement::Widget(w)) => {
                atoms.push((w.column_count as u128, 1));
                proof {
                    assert(rem.first() == InlineElementModel::Widget(w));
                    let a = Atom { width: w.column_count as int, len: 1 };
                    assert(elem_atoms(rem.first(), tabm) == seq![a]);
                    assert(atoms_view(atoms@) =~= pre_atoms.push(a));
                    assert(pre_atoms.push(a) + atoms_of(it.remaining(), tabm) =~= pre_atoms + (
                    seq![a] + atoms_of(it.remaining(), tabm)));
                }
            },
            Some(InlineElement::Text { text: run, .. }) => {
                let ghost rt = run@;
                let ghost rest_elems = it.remaining();
                proof {
                    assert(rem.first() matches InlineElementModel::Text { text, .. } && text
                        == rt);
                    assert(elem_atoms(rem.first(), tabm) == text_atoms(rt, tabm));
                }
                let n = run.unicode_len();
                let ghost target = atoms_view(atoms@) + text_atoms(rt, tabm);
                proof {
                    assert(rt.skip(0) =~= rt);
                }
                let mut i: usize = 0;
                loop
                    invariant_except_break
                        i <= n,
                        n == rt.len(),
                        run@ == rt,
                        tabm == tab_column_count as int,
                        atoms_view(atoms@) + text_atoms(rt.skip(i as int), tabm) == target,
                    ensures
                        atoms_view(atoms@) == target,
                    decreases n - i,
                {
                    if i >= n {
                        proof {
                            assert(rt.skip(i as int) =~= Seq::<char>::empty());
                            assert(segments(Seq::<char>::empty()) =~= Seq::<Seq<char>>::empty());
                            assert(text_atoms(rt.skip(i as int), tabm) =~= Seq::<Atom>::empty());
                            assert(atoms_view(atoms@) + Seq::<Atom>::empty() =~= atoms_view(
                                atoms@,
                            ));
                        }
                        break;
                    }
                    let first_ws = ws_char(run.get_char(i));
                    let mut j: usize = i;
                    let mut w: u128 = 0;
                    loop
                        invariant_except_break
                            i <= j <= n,
                            i < n,
                            n == rt.len(),
                            run@ == rt,
                            first_ws == is_ws(rt[i as int]),
                            forall|k: int|
                                i <= k < j ==> is_ws(#[trigger] rt[k]) == is_ws(rt[i as int]),
                            w as int == str_width(
                                rt.subrange(i as int, j as int),
                                tab_column_count as int,
                            ),
                            w as int <= (j - i) * (usize::MAX as int),
                        ensures
                            i <= j <= n,
                            forall|k: int|
                                i <= k < j ==> is_ws(#[trigger] rt[k]) == is_ws(rt[i as int]),
                            w as int == str_width(
                                rt.subrange(i as int, j as int),
                                tab_column_count as int,
                            ),
                            j == n || is_ws(rt[j as int]) != is_ws(rt[i as int]),
                            j > i,
                        decreases n - j,
                    {
                        if j >= n {
                            break;
                        }
                        let c = run.get_char(j);
                        if ws_char(c) != first_ws {
                            break;
                        }
                        let cw = col_width_of(c, tab_column_count);
                        proof {
                            assert(rt.subrange(i as int, j as int + 1) =~= rt.subrange(
                                i as int,
                                j as int,
                            ).push(rt[j as int]));
                            lemma_str_width_push(
                                rt.subrange(i as int, j as int),
                                rt[j as int],
                                tab_column_count as int,
                            );
                        }
                        w = w + (cw as u128);
                        j = j + 1;
                    }
                    let ghost pre = atoms_view(atoms@);
                    let ghost suffix = rt.skip(i as int);
                    proof {
                        lemma_run_len(suffix);
                        assert(forall|k: int|
                            #![trigger suffix[k]]
                            0 <= k < suffix.len() ==> suffix[k] == rt[i + k]);
                        assert forall|k: int| 0 <= k < j - i implies is_ws(#[trigger] suffix[k])
                            == is_ws(suffix[0]) by {
                            assert(suffix[k] == rt[i + k]);
                        }
                        assert(run_len(suffix) == j - i) by {
                            if run_len(suffix) < j - i {
                                assert(is_ws(suffix[run_len(suffix)]) != is_ws(suffix[0]));
                                assert(is_ws(rt[i + run_len(suffix)]) == is_ws(rt[i as int]));
                            }
                            if run_len(suffix) > j - i {
                                if j < n {
                                    assert(is_ws(suffix[j - i]) == is_ws(suffix[0]));
                                    assert(is_ws(rt[j as int]) != is_ws(rt[i as int]));
                                }
                            }
                        }
                        assert(suffix.take(j - i) =~= rt.subrange(i as int, j as int));
                        assert(suffix.skip(j - i) =~= rt.skip(j as int));
                        assert(segments(suffix) == seq![rt.subrange(i as int, j as int)]
                            + segments(rt.skip(j as int)));
                    }
                    let ghost prev_vec = atoms@;
                    atoms.push((w, j - i));
                    proof {
                        let a = Atom {
                            width: str_width(rt.subrange(i as int, j as int), tabm),
                            len: (j - i) as int,
                        };
                        assert(atoms@ == prev_vec.push((w, (j - i) as usize)));
                        assert(w as int == str_width(rt.subrange(i as int, j as int), tabm));
                        assert(atoms_view(atoms@).len() == prev_vec.len() + 1);
                        assert(atoms_view(atoms@)[prev_vec.len() as int] == a);
                        assert(text_atoms(suffix, tabm) =~= seq![a] + text_atoms(
                            rt.skip(j as int),
                            tabm,
                        ));
                        assert(atoms_view(atoms@) =~= pre.push(a));
                        assert(pre.push(a) + text_atoms(rt.skip(j as int), tabm) =~= pre + (
                        seq![a] + text_atoms(rt.skip(j as int), tabm)));
                    }
                    i = j;
                }
                proof {
                    assert(atoms_view(atoms@) + atoms_of(rest_elems, tabm) =~= pre_atoms + (
                    text_atoms(rt, tabm) + atoms_of(rest_elems, tabm)));
                }
            },
        }
    }
    atoms
}

/// Wraps one composed line: records the break offsets of the greedy pass
/// into `positions` and returns the resolved continuation indentation (an
/// indentation wider than the machine word degenerates to zero as well).
pub fn wrap(
    text: &String,
    inlays: &Vec<(usize, InlineInlay)>,
    max_column_count: usize,
    tab_column_count: usize,
    positions: &mut Vec<usize>,
) -> (r: usize)
    requires
        old(positions)@.len() == 0,
        inlays_wf(inlays_view(inlays@), text@.len() as int),
        advance_total(inline_elements_model(text@, inlays_view(inlays@), 0)) <= usize::MAX,
    ensures
        ({
            let elems = inline_elements_model(text@, inlays_view(inlays@), 0);
            let atoms = atoms_of(elems, tab_column_count as int);
            let base = str_width(text@.take(leading_ws_len(text@)), tab_column_count as int);
            let indent = indent_of(atoms, base, max_column_count as int);
            let st = wrap_run(atoms, max_column_count as int, indent);
            &&& breaks_view(final(positions)@) == st.breaks
            &&& (indent <= usize::MAX ==> r == indent)
            &&& (indent > usize::MAX ==> r == 0)
            &&& (forall|b1: int, b2: int|
                #![trigger final(positions)@[b1], final(positions)@[b2]]
                0 <= b1 <= b2 < final(positions)@.len() ==> final(positions)@[b1]
                    <= final(positions)@[b2])
            &&& (forall|b: int|
                0 <= b < final(positions)@.len() ==> #[trigger] final(positions)@[b] as int
                    <= advance_total(elems))
        }),
{
    let ghost elems = inline_elements_model(text@, inlays_view(inlays@), 0);
    let ghost tabm = tab_column_count as int;
    let ghost maxm = max_column_count as int;
    let atoms = collect_atoms(text.as_str(), inlays, tab_column_count);
    let ghost am = atoms_view(atoms@);
    proof {
        lemma_atoms_of(elems, tabm);
        assert(forall|i: int| 0 <= i < am.len() ==> #[trigger] am[i].len >= 1);
    }
    let base = leading_indent(text.as_str(), tab_column_count);
    let ghost basem = base as int;
    let max128 = max_column_count as u128;
    let n = atoms.len();
    let mut degenerate = false;
    let mut i: usize = 0;
    loop
        invariant_except_break
            i <= n,
            n == atoms@.len(),
            atoms_view(atoms@) == am,
            base as int == basem,
            maxm == max_column_count as int,
            max128 == max_column_count as u128,
            !degenerate,
            forall|k: int| 0 <= k < i ==> basem + #[trigger] am[k].width <= maxm,
        ensures
            atoms_view(atoms@) == am,
            n == atoms@.len(),
            degenerate == exists|k: int|
                0 <= k < am.len() && basem + #[trigger] am[k].width > maxm,
        decreases n - i,
    {
        if i >= n {
            break;
        }
        let (w, _) = atoms[i];
        proof {
            assert(am[i as int].width == w as int);
            assert(am[i as int].width >= 0);
        }
        if base.saturating_add(w) > max128 {
            degenerate = true;
            proof {
                assert(basem + am[i as int].width > maxm);
            }
            break;
        }
        proof {
            assert(basem + am[i as int].width <= maxm);
        }
        i = i + 1;
    }
    let ghost indent_m = indent_of(am, basem, maxm);
    proof {
        assert(indent_m == if degenerate {
            0int
        } else {
            basem
        });
        lemma_wrap_run(am, maxm, indent_m);
        lemma_atom_prefix_is_total(am, am.len() as int);
        assert(am.take(am.len() as int) =~= am);
        assert(atoms_len_total(am) == advance_total(elems));
    }
    let r: usize = if degenerate {
        0
    } else if base > (usize::MAX as u128) {
        0
    } else {
        base as usize
    };
    let cap: u128 = max128 + 1;
    let indent_c: u128 = if degenerate {
        0
    } else if base > max128 {
        cap
    } else {
        base
    };
    let mut col: u128 = 0;
    let mut pos: usize = 0;
    let mut k: usize = 0;
    loop
        invariant_except_break
            k <= n,
            n == atoms@.len(),
            atoms_view(atoms@) == am,
            forall|z: int| 0 <= z < am.len() ==> #[trigger] am[z].len >= 1,
            atoms_len_total(am) <= usize::MAX,
            atom_prefix_len(am, am.len() as int) == atoms_len_total(am),
            cap == max128 + 1,
            maxm == max_column_count as int,
            max128 == max_column_count as u128,
            indent_m >= 0,
            (indent_m <= maxm ==> indent_c as int == indent_m),
            (indent_m > maxm ==> indent_c == cap),
            pos as int == wrap_run(am.take(k as int), maxm, indent_m).position,
            breaks_view(positions@) == wrap_run(am.take(k as int), maxm, indent_m).breaks,
            (wrap_run(am.take(k as int), maxm, indent_m).column <= maxm ==> col as int == wrap_run(
                am.take(k as int),
                maxm,
                indent_m,
            ).column),
            (wrap_run(am.take(k as int), maxm, indent_m).column > maxm ==> col == cap),
            wrap_run(am.take(k as int), maxm, indent_m).column >= 0,
        ensures
            breaks_view(positions@) == wrap_run(am, maxm, indent_m).breaks,
        decreases n - k,
    {
        if k >= n {
            proof {
                assert(am.take(k as int) =~= am);
            }
            break;
        }
        let ghost stk = wrap_run(am.take(k as int), maxm, indent_m);
        let (w, l) = atoms[k];
        proof {
            assert(am[k as int] == (Atom { width: w as int, len: l as int }));
            assert(am[k as int].len >= 1);
            lemma_atom_prefix_mono(am, k as int + 1, am.len() as int);
            lemma_atom_prefix_is_total(am, k as int);
            lemma_atom_prefix_is_total(am, k as int + 1);
            assert(forall|z: int|
                #![trigger am.take(k as int)[z]]
                0 <= z < k ==> am.take(k as int)[z] == am[z]);
            lemma_wrap_run(am.take(k as int), maxm, indent_m);
            assert(am.take(k as int).take(k as int) =~= am.take(k as int));
            lemma_atom_prefix_is_total(am.take(k as int), k as int);
            assert(stk.position == atoms_len_total(am.take(k as int)));
            assert(stk.position == atom_prefix_len(am, k as int));
            assert(stk.position + am[k as int].len == atom_prefix_len(am, k as int + 1));
            assert(atom_prefix_len(am, k as int + 1) <= atoms_len_total(am));
            assert(am.take(k as int + 1).drop_last() =~= am.take(k as int));
            assert(am.take(k as int + 1).last() == am[k as int]);
        }
        let over = col.saturating_add(w) > max128;
        proof {
            if stk.column <= maxm {
                assert(col as int == stk.column);
            } else {
                assert(col == cap);
            }
            assert(over == (stk.column + am[k as int].width > maxm));
        }
        if over {
            positions.push(pos);
            col = indent_c;
        }
        let nc = col.saturating_add(w);
        col = if nc > max128 {
            cap
        } else {
            nc
        };
        pos = pos + l;
        k = k + 1;
        proof {
            let stk1 = wrap_run(am.take(k as int), maxm, indent_m);
            assert(stk1 == wrap_step(stk, am[k as int - 1], maxm, indent_m));
            if over {
                assert(breaks_view(positions@) =~= stk.breaks.push(stk.position));
            }
        }
    }
    proof {
        assert forall|b1: int, b2: int|
            0 <= b1 <= b2 < positions@.len() implies #[trigger] positions@[b1]
            <= #[trigger] positions@[b2] by {
            let st = wrap_run(am, maxm, indent_m);
            assert(breaks_view(positions@)[b1] == st.breaks[b1]);
            assert(breaks_view(positions@)[b2] == st.breaks[b2]);
        }
        assert forall|b: int| 0 <= b < positions@.len() implies #[trigger] positions@[b] as int
            <= advance_total(elems) by {
            let st = wrap_run(am, maxm, indent_m);
            assert(breaks_view(positions@)[b] == st.breaks[b]);
            assert(st.position == atom_prefix_len(am, am.len() as int));
        }
    }
    r
}

} // verus!
