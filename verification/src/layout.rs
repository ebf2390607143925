//! The composed visual structure of one line: raw text interleaved with
//! inline inlays, then split at wrap points.
//!
//! `InlineElements` yields the line's text runs and widgets in display
//! order: an inlay anchored at a character offset splits the surrounding
//! raw text into two runs. `WrappedElements` further splits that stream at
//! the line's wrap offsets, emitting an explicit `Wrap` marker at each
//! break; offsets here count text characters (inlay text included) and one
//! slot per widget. Both are pull-based, single-pass views over borrowed
//! data; their contracts say exactly which element comes next.

use crate::state::{BlockInlay, BlockWidget, InlineInlay, InlineWidget};
use crate::text::Text;
use vstd::prelude::*;

verus! {

/// Ghost image of an inline inlay.
pub ghost enum InlayModel {
    Text(Seq<char>),
    Widget(InlineWidget),
}

impl View for InlineInlay {
    type V = InlayModel;

    open spec fn view(&self) -> InlayModel {
        match self {
            InlineInlay::Text(s) => InlayModel::Text(s@),
            InlineInlay::Widget(w) => InlayModel::Widget(*w),
        }
    }
}

/// One element of a line's inline composition: a run of text (raw or from
/// an inlay) or an inline widget.
#[derive(Clone, Copy, Debug)]
pub enum InlineElement<'a> {
    Text { is_inlay: bool, text: &'a str },
    Widget(InlineWidget),
}

/// Ghost image of an inline element.
pub ghost enum InlineElementModel {
    Text { is_inlay: bool, text: Seq<char> },
    Widget(InlineWidget),
}

impl<'a> View for InlineElement<'a> {
    type V = InlineElementModel;

    open spec fn view(&self) -> InlineElementModel {
        match self {
            InlineElement::Text { is_inlay, text } => InlineElementModel::Text {
                is_inlay: *is_inlay,
                text: text@,
            },
            InlineElement::Widget(w) => InlineElementModel::Widget(*w),
        }
    }
}

/// The element an inlay contributes.
pub open spec fn elem_of_inlay(inlay: InlayModel) -> InlineElementModel {
    match inlay {
        InlayModel::Text(s) => InlineElementModel::Text { is_inlay: true, text: s },
        InlayModel::Widget(w) => InlineElementModel::Widget(w),
    }
}

/// The (offset, inlay) pairs as model values.
pub open spec fn inlays_view(s: Seq<(usize, InlineInlay)>) -> Seq<(int, InlayModel)> {
    s.map_values(|p: (usize, InlineInlay)| (p.0 as int, p.1@))
}

/// The inline composition of a line, from text cursor `at`: an inlay
/// anchored at `at` comes first; otherwise raw text runs to the next inlay
/// anchor (or to the end of the line).
pub open spec fn inline_elements_model(
    text: Seq<char>,
    inlays: Seq<(int, InlayModel)>,
    at: int,
) -> Seq<InlineElementModel>
    decreases inlays.len(), text.len(),
{
    if inlays.len() > 0 && inlays[0].0 == at {
        seq![elem_of_inlay(inlays[0].1)] + inline_elements_model(text, inlays.drop_first(), at)
    } else if text.len() == 0 {
        Seq::empty()
    } else {
        let run = if inlays.len() > 0 && 1 <= inlays[0].0 - at < text.len() {
            inlays[0].0 - at
        } else {
            text.len() as int
        };
        seq![InlineElementModel::Text { is_inlay: false, text: text.take(run) }]
            + inline_elements_model(text.skip(run), inlays, at + run)
    }
}

/// A line with no inlays composes to one raw text run (or to nothing when
/// it is empty).
pub proof fn lemma_no_inlay_elements(text: Seq<char>, at: int)
    ensures
        text.len() == 0 ==> inline_elements_model(text, Seq::empty(), at) == Seq::<
            InlineElementModel,
        >::empty(),
        text.len() > 0 ==> inline_elements_model(text, Seq::empty(), at) == seq![
            InlineElementModel::Text { is_inlay: false, text },
        ],
        advance_total(inline_elements_model(text, Seq::empty(), at)) == text.len(),
{
    if text.len() > 0 {
        let m = inline_elements_model(text, Seq::empty(), at);
        assert(text.take(text.len() as int) =~= text);
        assert(text.skip(text.len() as int) =~= Seq::<char>::empty());
        assert(inline_elements_model(text.skip(text.len() as int), Seq::empty(), at + text.len())
            =~= Seq::<InlineElementModel>::empty());
        assert(m =~= seq![InlineElementModel::Text { is_inlay: false, text }]);
        assert(m.drop_first() =~= Seq::<InlineElementModel>::empty());
        assert(advance_total(m) == advance_of(m.first()) + advance_total(m.drop_first()));
        assert(advance_total(Seq::<InlineElementModel>::empty()) == 0);
    }
}

/// Inlay anchors ascend and stay within the line.
pub open spec fn inlays_wf(iv: Seq<(int, InlayModel)>, text_len: int) -> bool {
    &&& forall|i: int| #![trigger iv[i]] 0 <= i < iv.len() ==> 0 <= iv[i].0 <= text_len
    &&& forall|i: int, j: int|
        #![trigger iv[i].0, iv[j].0]
        0 <= i <= j < iv.len() ==> iv[i].0 <= iv[j].0
}

/// The lazy inline composition of one line.
#[derive(Clone, Debug)]
pub struct InlineElements<'a> {
    text: &'a str,
    inlays: &'a Vec<(usize, InlineInlay)>,
    inlay_index: usize,
    char_index: usize,
}

impl<'a> InlineElements<'a> {
    /// What the iterator will still yield.
    pub closed spec fn remaining(&self) -> Seq<InlineElementModel> {
        inline_elements_model(
            self.text@.skip(self.char_index as int),
            inlays_view(self.inlays@).skip(self.inlay_index as int),
            self.char_index as int,
        )
    }

    pub closed spec fn wf(&self) -> bool {
        &&& self.char_index <= self.text@.len()
        &&& self.inlay_index <= self.inlays@.len()
        &&& inlays_wf(inlays_view(self.inlays@), self.text@.len() as int)
        &&& forall|i: int|
            #![trigger inlays_view(self.inlays@)[i]]
            self.inlay_index <= i < self.inlays@.len() ==> inlays_view(self.inlays@)[i].0
                >= self.char_index
    }

    /// Starts the composition of `text` with `inlays`.
    pub fn new(text: &'a str, inlays: &'a Vec<(usize, InlineInlay)>) -> (r: InlineElements<'a>)
        requires
            inlays_wf(inlays_view(inlays@), text@.len() as int),
        ensures
            r.wf(),
            r.remaining() == inline_elements_model(text@, inlays_view(inlays@), 0),
    {
        let r = InlineElements { text, inlays, inlay_index: 0, char_index: 0 };
        proof {
            assert(r.text@.skip(0) =~= text@);
            assert(inlays_view(inlays@).skip(0) =~= inlays_view(inlays@));
        }
        r
    }

    /// Yields the next element: the first of `remaining()`.
    pub fn next(&mut self) -> (r: Option<InlineElement<'a>>)
        requires
            old(self).wf(),
        ensures
            final(self).wf(),
            old(self).remaining().len() == 0 ==> r is None && final(self).remaining()
                == old(self).remaining(),
            old(self).remaining().len() > 0 ==> (r matches Some(e) && e@ == old(
                self,
            ).remaining().first() && final(self).remaining() == old(self).remaining().drop_first()),
    {
        let ghost iv = inlays_view(self.inlays@);
        let ghost suffix_inlays = iv.skip(self.inlay_index as int);
        let ghost suffix_text = self.text@.skip(self.char_index as int);
        let text_len = self.text.unicode_len();
        if self.inlay_index < self.inlays.len() {
            let (offset, _) = self.inlays[self.inlay_index];
            if offset == self.char_index {
                let element = match &self.inlays[self.inlay_index].1 {
                    InlineInlay::Text(s) => InlineElement::Text { is_inlay: true, text: s.as_str() },
                    InlineInlay::Widget(w) => InlineElement::Widget(*w),
                };
                self.inlay_index = self.inlay_index + 1;
                proof {
                    assert(suffix_inlays[0] == iv[old(self).inlay_index as int]);
                    assert(iv.skip(self.inlay_index as int) =~= suffix_inlays.drop_first());
                    assert(element@ == elem_of_inlay(suffix_inlays[0].1));
                    assert(self.remaining() =~= old(self).remaining().drop_first());
                }
                return Some(element);
            }
        }
        if self.char_index == text_len {
            proof {
                assert(suffix_text.len() == 0);
                if self.inlay_index < self.inlays@.len() {
                    assert(suffix_inlays[0] == iv[self.inlay_index as int]);
                    assert(suffix_inlays[0].0 != self.char_index as int);
                }
                assert(old(self).remaining().len() == 0);
            }
            return None;
        }
        let run_end = if self.inlay_index < self.inlays.len() {
            let (offset, _) = self.inlays[self.inlay_index];
            proof {
                assert(iv[self.inlay_index as int].0 == offset);
                assert(offset >= self.char_index);
                assert(offset != self.char_index);
            }
            if offset < text_len {
                offset
            } else {
                text_len
            }
        } else {
            text_len
        };
        let ghost run = run_end - self.char_index;
        let piece = self.text.substring_char(self.char_index, run_end);
        let element = InlineElement::Text { is_inlay: false, text: piece };
        let ghost pre_char = self.char_index as int;
        self.char_index = run_end;
        proof {
            if suffix_inlays.len() > 0 {
                assert(suffix_inlays[0] == iv[self.inlay_index as int]);
            }
            assert(run == if suffix_inlays.len() > 0 && 1 <= suffix_inlays[0].0 - pre_char
                < suffix_text.len() {
                suffix_inlays[0].0 - pre_char
            } else {
                suffix_text.len() as int
            });
            assert(piece@ =~= suffix_text.take(run));
            assert(self.text@.skip(self.char_index as int) =~= suffix_text.skip(run));
            assert(element@ == old(self).remaining().first());
            assert(self.remaining() =~= old(self).remaining().drop_first());
        }
        Some(element)
    }
}

/// One element of a wrapped line: a (possibly split) run of text, a
/// widget, or the wrap marker itself.
#[derive(Clone, Copy, Debug)]
pub enum WrappedElement<'a> {
    Text { is_inlay: bool, text: &'a str },
    Widget(InlineWidget),
    Wrap,
}

/// Ghost image of a wrapped element.
pub ghost enum WrappedElementModel {
    Text { is_inlay: bool, text: Seq<char> },
    Widget(InlineWidget),
    Wrap,
}

impl<'a> View for WrappedElement<'a> {
    type V = WrappedElementModel;

    open spec fn view(&self) -> WrappedElementModel {
        match self {
            WrappedElement::Text { is_inlay, text } => WrappedElementModel::Text {
                is_inlay: *is_inlay,
                text: text@,
            },
            WrappedElement::Widget(w) => WrappedElementModel::Widget(*w),
            WrappedElement::Wrap => WrappedElementModel::Wrap,
        }
    }
}

/// How far an element advances the wrap coordinate: its character count
/// for a text run, one slot for a widget.
pub open spec fn advance_of(e: InlineElementModel) -> int {
    match e {
        InlineElementModel::Text { text, .. } => text.len() as int,
        InlineElementModel::Widget(_) => 1,
    }
}

/// The total wrap-coordinate extent of an element sequence.
pub open spec fn advance_total(elems: Seq<InlineElementModel>) -> int
    decreases elems.len(),
{
    if elems.len() == 0 {
        0
    } else {
        advance_of(elems.first()) + advance_total(elems.drop_first())
    }
}

pub proof fn lemma_advance_total_nonneg(elems: Seq<InlineElementModel>)
    ensures
        advance_total(elems) >= 0,
    decreases elems.len(),
{
    if elems.len() > 0 {
        lemma_advance_total_nonneg(elems.drop_first());
    }
}

/// The length of the leading text run, used as a termination measure.
pub open spec fn first_text_len(elems: Seq<InlineElementModel>) -> int {
    if elems.len() > 0 && (elems.first() matches InlineElementModel::Text { text, .. }) {
        elems.first()->Text_text.len() as int
    } else {
        0
    }
}

/// Wrap offsets as model values.
pub open spec fn breaks_view(s: Seq<usize>) -> Seq<int> {
    s.map_values(|b: usize| b as int)
}

/// The wrapped composition: a `Wrap` marker at each break offset, with a
/// text run spanning a break split exactly at the break.
pub open spec fn wrapped_elements_model(
    elems: Seq<InlineElementModel>,
    breaks: Seq<int>,
    at: int,
) -> Seq<WrappedElementModel>
    decreases breaks.len(), elems.len(), first_text_len(elems),
{
    if breaks.len() > 0 && breaks[0] == at {
        seq![WrappedElementModel::Wrap] + wrapped_elements_model(elems, breaks.drop_first(), at)
    } else if elems.len() == 0 {
        Seq::empty()
    } else {
        match elems.first() {
            InlineElementModel::Widget(w) => seq![WrappedElementModel::Widget(w)]
                + wrapped_elements_model(elems.drop_first(), breaks, at + 1),
            InlineElementModel::Text { is_inlay, text } => {
                let cut = if breaks.len() > 0 && 1 <= breaks[0] - at < text.len() {
                    breaks[0] - at
                } else {
                    text.len() as int
                };
                if cut < text.len() {
                    seq![WrappedElementModel::Text { is_inlay, text: text.take(cut) }]
                        + wrapped_elements_model(
                        elems.update(
                            0,
                            InlineElementModel::Text { is_inlay, text: text.skip(cut) },
                        ),
                        breaks,
                        at + cut,
                    )
                } else {
                    seq![WrappedElementModel::Text { is_inlay, text }]
                        + wrapped_elements_model(elems.drop_first(), breaks, at + text.len())
                }
            },
        }
    }
}

/// Break offsets ascend.
pub open spec fn breaks_wf(bv: Seq<int>) -> bool {
    forall|i: int, j: int| #![trigger bv[i], bv[j]] 0 <= i <= j < bv.len() ==> bv[i] <= bv[j]
}

/// The lazy wrapped composition of one line.
#[derive(Clone, Debug)]
pub struct WrappedElements<'a> {
    element: Option<InlineElement<'a>>,
    elements: InlineElements<'a>,
    wrap_indices: &'a Vec<usize>,
    wrap_index: usize,
    char_index: usize,
}

impl<'a> WrappedElements<'a> {
    /// The elements still pending, the partially consumed one first.
    pub closed spec fn pending(&self) -> Seq<InlineElementModel> {
        match self.element {
            Some(e) => seq![e@] + self.elements.remaining(),
            None => self.elements.remaining(),
        }
    }

    /// What the iterator will still yield.
    pub closed spec fn remaining(&self) -> Seq<WrappedElementModel> {
        wrapped_elements_model(
            self.pending(),
            breaks_view(self.wrap_indices@).skip(self.wrap_index as int),
            self.char_index as int,
        )
    }

    pub closed spec fn wf(&self) -> bool {
        &&& self.elements.wf()
        &&& self.wrap_index <= self.wrap_indices@.len()
        &&& breaks_wf(breaks_view(self.wrap_indices@))
        &&& forall|i: int|
            #![trigger breaks_view(self.wrap_indices@)[i]]
            self.wrap_index <= i < self.wrap_indices@.len() ==> breaks_view(self.wrap_indices@)[i]
                >= self.char_index
        &&& (self.element is None ==> self.elements.remaining().len() == 0)
        &&& self.char_index + advance_total(self.pending()) <= usize::MAX
    }

    /// Starts the wrapped composition of `text` with `inlays`, split at
    /// `wrap_indices`.
    pub fn new(
        text: &'a str,
        inlays: &'a Vec<(usize, InlineInlay)>,
        wrap_indices: &'a Vec<usize>,
    ) -> (r: WrappedElements<'a>)
        requires
            inlays_wf(inlays_view(inlays@), text@.len() as int),
            breaks_wf(breaks_view(wrap_indices@)),
            forall|i: int|
                #![trigger breaks_view(wrap_indices@)[i]]
                0 <= i < wrap_indices@.len() ==> breaks_view(wrap_indices@)[i] >= 0,
            advance_total(inline_elements_model(text@, inlays_view(inlays@), 0)) <= usize::MAX,
        ensures
            r.wf(),
            r.remaining() == wrapped_elements_model(
                inline_elements_model(text@, inlays_view(inlays@), 0),
                breaks_view(wrap_indices@),
                0,
            ),
    {
        let mut elements = InlineElements::new(text, inlays);
        let ghost all = elements.remaining();
        let element = elements.next();
        let r = WrappedElements { element, elements, wrap_indices, wrap_index: 0, char_index: 0 };
        proof {
            if all.len() == 0 {
                assert(r.pending() =~= all);
            } else {
                assert(r.pending() =~= all);
            }
            assert(breaks_view(wrap_indices@).skip(0) =~= breaks_view(wrap_indices@));
        }
        r
    }

    /// Yields the next wrapped element: the first of `remaining()`.
    pub fn next(&mut self) -> (r: Option<WrappedElement<'a>>)
        requires
            old(self).wf(),
        ensures
            final(self).wf(),
            old(self).remaining().len() == 0 ==> r is None && final(self).remaining() == old(
                self,
            ).remaining(),
            old(self).remaining().len() > 0 ==> (r matches Some(e) && e@ == old(
                self,
            ).remaining().first() && final(self).remaining() == old(self).remaining().drop_first()),
    {
        let ghost bv = breaks_view(self.wrap_indices@);
        let ghost bsuf = bv.skip(self.wrap_index as int);
        let ghost pend = self.pending();
        proof {
            lemma_advance_total_nonneg(pend);
        }
        if self.wrap_index < self.wrap_indices.len() {
            let idx = self.wrap_indices[self.wrap_index];
            proof {
                assert(bsuf[0] == bv[self.wrap_index as int]);
            }
            if idx == self.char_index {
                self.wrap_index = self.wrap_index + 1;
                proof {
                    assert(bv.skip(self.wrap_index as int) =~= bsuf.drop_first());
                    assert(self.remaining() =~= old(self).remaining().drop_first());
                }
                return Some(WrappedElement::Wrap);
            }
        }
        match self.element {
            None => {
                proof {
                    assert(pend.len() == 0);
                    if self.wrap_index < self.wrap_indices@.len() {
                        assert(bsuf[0] == bv[self.wrap_index as int]);
                    }
                    assert(old(self).remaining().len() == 0);
                }
                None
            },
            Some(InlineElement::Widget(w)) => {
                let ghost rest = self.elements.remaining();
                let next_element = self.elements.next();
                self.element = next_element;
                proof {
                    assert(pend.first() == InlineElementModel::Widget(w));
                    assert(pend.drop_first() =~= rest);
                    lemma_advance_total_nonneg(rest);
                }
                self.char_index = self.char_index + 1;
                proof {
                    assert(self.pending() =~= pend.drop_first());
                    assert(self.remaining() =~= old(self).remaining().drop_first());
                }
                Some(WrappedElement::Widget(w))
            },
            Some(InlineElement::Text { is_inlay, text }) => {
                let text_len = text.unicode_len();
                proof {
                    assert(pend.first() == (InlineElementModel::Text {
                        is_inlay,
                        text: text@,
                    }));
                    assert(advance_total(pend) == text@.len() + advance_total(pend.drop_first()));
                    lemma_advance_total_nonneg(pend.drop_first());
                }
                let mut cut = text_len;
                if self.wrap_index < self.wrap_indices.len() {
                    let idx = self.wrap_indices[self.wrap_index];
                    proof {
                        assert(bsuf[0] == bv[self.wrap_index as int]);
                    }
                    let dist = idx - self.char_index;
                    if dist < cut {
                        cut = dist;
                    }
                }
                let ghost cut_m = if bsuf.len() > 0 && 1 <= bsuf[0] - self.char_index
                    < text@.len() {
                    bsuf[0] - self.char_index
                } else {
                    text@.len() as int
                };
                proof {
                    assert(cut == cut_m);
                }
                if cut < text_len {
                    let head = text.substring_char(0, cut);
                    let tail = text.substring_char(cut, text_len);
                    self.element = Some(InlineElement::Text { is_inlay, text: tail });
                    self.char_index = self.char_index + cut;
                    proof {
                        assert(head@ =~= text@.take(cut as int));
                        assert(tail@ =~= text@.skip(cut as int));
                        assert(self.pending() =~= pend.update(
                            0,
                            InlineElementModel::Text { is_inlay, text: text@.skip(cut as int) },
                        ));
                        assert(advance_total(self.pending()) == advance_total(pend) - cut) by {
                            assert(self.pending().drop_first() =~= pend.drop_first());
                        }
                        assert(self.remaining() =~= old(self).remaining().drop_first());
                    }
                    Some(WrappedElement::Text { is_inlay, text: head })
                } else {
                    let ghost rest = self.elements.remaining();
                    let next_element = self.elements.next();
                    self.element = next_element;
                    self.char_index = self.char_index + text_len;
                    proof {
                        assert(pend.drop_first() =~= rest);
                        lemma_advance_total_nonneg(rest);
                        assert(self.pending() =~= pend.drop_first());
                        assert(self.remaining() =~= old(self).remaining().drop_first());
                    }
                    Some(WrappedElement::Text { is_inlay, text })
                }
            },
        }
    }
}

/// One line of the composed layout: its text, inline inlays, wrap data and
/// column metrics, all borrowed from the owning document and session.
#[derive(Clone, Copy, Debug)]
pub struct Line<'a> {
    pub text: &'a String,
    pub inlays: &'a Vec<(usize, InlineInlay)>,
    pub column_count: usize,
    pub fold_column_index: usize,
    pub wrap_char_indices: &'a Vec<usize>,
    pub wrap_indentation_width: usize,
}

impl<'a> Line<'a> {
    /// The line's inlays and wrap offsets are coherent with its text.
    pub open spec fn wf(&self) -> bool {
        &&& inlays_wf(inlays_view(self.inlays@), self.text@.len() as int)
        &&& breaks_wf(breaks_view(self.wrap_char_indices@))
        &&& forall|i: int|
            0 <= i < self.wrap_char_indices@.len() ==> #[trigger] breaks_view(
                self.wrap_char_indices@,
            )[i] >= 0
        &&& advance_total(inline_elements_model(self.text@, inlays_view(self.inlays@), 0))
            <= usize::MAX
    }

    /// How many visual rows the line occupies: one more than its breaks.
    pub fn row_count(&self) -> (r: usize)
        requires
            self.wrap_char_indices@.len() < usize::MAX,
        ensures
            r == self.wrap_char_indices@.len() + 1,
    {
        self.wrap_char_indices.len() + 1
    }

    /// The line's inline composition.
    pub fn inline_elements(&self) -> (r: InlineElements<'a>)
        requires
            self.wf(),
        ensures
            r.wf(),
            r.remaining() == inline_elements_model(self.text@, inlays_view(self.inlays@), 0),
    {
        InlineElements::new(self.text.as_str(), self.inlays)
    }

    /// The line's wrapped composition.
    pub fn wrapped_elements(&self) -> (r: WrappedElements<'a>)
        requires
            self.wf(),
        ensures
            r.wf(),
            r.remaining() == wrapped_elements_model(
                inline_elements_model(self.text@, inlays_view(self.inlays@), 0),
                breaks_view(self.wrap_char_indices@),
                0,
            ),
    {
        WrappedElements::new(self.text.as_str(), self.inlays, self.wrap_char_indices)
    }
}

/// Block anchors ascend.
pub open spec fn blocks_wf(bs: Seq<(usize, BlockInlay)>) -> bool {
    forall|i: int, j: int|
        #![trigger bs[i], bs[j]]
        0 <= i <= j < bs.len() ==> bs[i].0 <= bs[j].0
}

/// A read-only composed view over one document's buffer and inlay tables
/// and one session's per-line caches; every table is parallel to the lines.
#[derive(Clone, Copy, Debug)]
pub struct Layout<'a> {
    pub text: &'a Text,
    pub inline_inlays: &'a Vec<Vec<(usize, InlineInlay)>>,
    pub block_inlays: &'a Vec<(usize, BlockInlay)>,
    pub column_count: &'a Vec<usize>,
    pub fold_column_index: &'a Vec<usize>,
    pub wrap_char_indices: &'a Vec<Vec<usize>>,
    pub wrap_indentation_width: &'a Vec<usize>,
}

impl<'a> Layout<'a> {
    pub open spec fn wf(&self) -> bool {
        &&& self.text@.len() >= 1
        &&& self.inline_inlays@.len() == self.text@.len()
        &&& self.column_count@.len() == self.text@.len()
        &&& self.fold_column_index@.len() == self.text@.len()
        &&& self.wrap_char_indices@.len() == self.text@.len()
        &&& self.wrap_indentation_width@.len() == self.text@.len()
        &&& blocks_wf(self.block_inlays@)
        &&& forall|i: int|
            0 <= i < self.text@.len() ==> inlays_wf(
                #[trigger] inlays_view(self.inline_inlays@[i]@),
                self.text@[i].len() as int,
            ) && breaks_wf(breaks_view(self.wrap_char_indices@[i]@)) && (forall|b: int|
                0 <= b < self.wrap_char_indices@[i]@.len() ==> #[trigger] breaks_view(
                    self.wrap_char_indices@[i]@,
                )[b] >= 0) && advance_total(
                inline_elements_model(self.text@[i], inlays_view(self.inline_inlays@[i]@), 0),
            ) <= usize::MAX
    }

    /// The buffer under the layout.
    pub fn as_text(&self) -> (r: &'a Text)
        ensures
            r@ == self.text@,
    {
        self.text
    }

    pub fn line_count(&self) -> (r: usize)
        ensures
            r == self.text@.len(),
    {
        self.text.line_count()
    }

    /// The composed view of one line.
    pub fn line(&self, index: usize) -> (r: Line<'a>)
        requires
            self.wf(),
            index < self.text@.len(),
        ensures
            r.wf(),
            r.text@ == self.text@[index as int],
            r.inlays@ == self.inline_inlays@[index as int]@,
            r.column_count == self.column_count@[index as int],
            r.fold_column_index == self.fold_column_index@[index as int],
            r.wrap_char_indices@ == self.wrap_char_indices@[index as int]@,
            r.wrap_indentation_width == self.wrap_indentation_width@[index as int],
    {
        Line {
            text: self.text.line(index),
            inlays: &self.inline_inlays[index],
            column_count: self.column_count[index],
            fold_column_index: self.fold_column_index[index],
            wrap_char_indices: &self.wrap_char_indices[index],
            wrap_indentation_width: self.wrap_indentation_width[index],
        }
    }

    /// The lines of the half-open range, lazily.
    pub fn lines(&self, start: usize, end: usize) -> (r: Lines<'a>)
        requires
            self.wf(),
            start <= end <= self.text@.len(),
        ensures
            r.wf(),
            r.line_index == start,
            r.line_end == end,
            r.layout == *self,
    {
        Lines { layout: *self, line_index: start, line_end: end }
    }

    /// The lines of the half-open range merged with the block inlays
    /// anchored in it, lazily.
    pub fn block_elements(&self, line_start: usize, line_end: usize) -> (r: BlockElements<'a>)
        requires
            self.wf(),
            line_start <= line_end <= self.text@.len(),
        ensures
            r.wf(),
            r.remaining() == block_slots_model(
                blocks_view(self.block_inlays@).skip(r.block_index as int),
                line_start as int,
                line_end as int,
            ),
            r.layout == *self,
    {
        let n = self.block_inlays.len();
        let mut block_index: usize = 0;
        loop
            invariant_except_break
                block_index <= n,
                n == self.block_inlays@.len(),
                blocks_wf(self.block_inlays@),
                forall|i: int|
                    0 <= i < block_index ==> #[trigger] self.block_inlays@[i].0 < line_start,
            ensures
                block_index <= n,
                n == self.block_inlays@.len(),
                forall|i: int|
                    block_index <= i < n ==> #[trigger] self.block_inlays@[i].0 >= line_start,
            decreases n - block_index,
        {
            if block_index >= n {
                break;
            }
            let (anchor, _) = self.block_inlays[block_index];
            if anchor >= line_start {
                proof {
                    assert forall|i: int|
                        block_index <= i < n implies #[trigger] self.block_inlays@[i].0
                        >= line_start by {
                        assert(self.block_inlays@[block_index as int].0
                            <= self.block_inlays@[i].0);
                    }
                }
                break;
            }
            block_index = block_index + 1;
        }
        BlockElements { layout: *self, block_index, line_index: line_start, line_end }
    }
}

/// The lazy line range of a layout.
#[derive(Clone, Copy, Debug)]
pub struct Lines<'a> {
    pub layout: Layout<'a>,
    pub line_index: usize,
    pub line_end: usize,
}

impl<'a> Lines<'a> {
    pub open spec fn wf(&self) -> bool {
        &&& self.layout.wf()
        &&& self.line_index <= self.line_end <= self.layout.text@.len()
    }

    /// Yields the composed view of the next line of the range.
    pub fn next(&mut self) -> (r: Option<Line<'a>>)
        requires
            old(self).wf(),
        ensures
            final(self).wf(),
            final(self).layout == old(self).layout,
            final(self).line_end == old(self).line_end,
            old(self).line_index >= old(self).line_end ==> r is None && *final(self) == *old(
                self,
            ),
            old(self).line_index < old(self).line_end ==> (r matches Some(line) && {
                let i = old(self).line_index as int;
                &&& final(self).line_index == old(self).line_index + 1
                &&& line.wf()
                &&& line.text@ == old(self).layout.text@[i]
                &&& line.inlays@ == old(self).layout.inline_inlays@[i]@
                &&& line.column_count == old(self).layout.column_count@[i]
                &&& line.wrap_char_indices@ == old(self).layout.wrap_char_indices@[i]@
                &&& line.wrap_indentation_width == old(self).layout.wrap_indentation_width@[i]
            }),
    {
        if self.line_index >= self.line_end {
            return None;
        }
        let line = self.layout.line(self.line_index);
        self.line_index = self.line_index + 1;
        Some(line)
    }
}

/// The anchored block inlays as model pairs.
pub open spec fn blocks_view(s: Seq<(usize, BlockInlay)>) -> Seq<(int, BlockInlay)> {
    s.map_values(|p: (usize, BlockInlay)| (p.0 as int, p.1))
}

/// The widget a block inlay contributes.
pub open spec fn widget_of_block(b: BlockInlay) -> BlockWidget {
    match b {
        BlockInlay::Widget(w) => w,
    }
}

/// What the block composition emits at each step: a real line (by index)
/// or the widget of an anchored block inlay.
pub ghost enum BlockSlotModel {
    Line(int),
    Widget(BlockWidget),
}

/// The block composition of a line range: a block inlay anchored at the
/// current line comes before it, as its own widget; lines advance the
/// cursor.
pub open spec fn block_slots_model(
    blocks: Seq<(int, BlockInlay)>,
    li: int,
    end: int,
) -> Seq<BlockSlotModel>
    decreases blocks.len(), end - li,
{
    if blocks.len() > 0 && blocks[0].0 == li {
        seq![BlockSlotModel::Widget(widget_of_block(blocks[0].1))] + block_slots_model(
            blocks.drop_first(),
            li,
            end,
        )
    } else if li >= end {
        Seq::empty()
    } else {
        seq![BlockSlotModel::Line(li)] + block_slots_model(blocks, li + 1, end)
    }
}

/// One element of the block composition.
#[derive(Clone, Copy, Debug)]
pub enum BlockElement<'a> {
    Line { is_inlay: bool, line: Line<'a> },
    Widget(BlockWidget),
}

/// The lazy block composition of a line range.
#[derive(Clone, Copy, Debug)]
pub struct BlockElements<'a> {
    pub layout: Layout<'a>,
    pub block_index: usize,
    pub line_index: usize,
    pub line_end: usize,
}

impl<'a> BlockElements<'a> {
    /// The slots still to be yielded.
    pub open spec fn remaining(&self) -> Seq<BlockSlotModel> {
        block_slots_model(
            blocks_view(self.layout.block_inlays@).skip(self.block_index as int),
            self.line_index as int,
            self.line_end as int,
        )
    }

    pub open spec fn wf(&self) -> bool {
        &&& self.layout.wf()
        &&& self.line_index <= self.line_end <= self.layout.text@.len()
        &&& self.block_index <= self.layout.block_inlays@.len()
        &&& forall|i: int|
            self.block_index <= i < self.layout.block_inlays@.len()
                ==> #[trigger] self.layout.block_inlays@[i].0 >= self.line_index
    }

    /// Yields the next block element: a widget anchored at the current
    /// line, or the line itself.
    pub fn next(&mut self) -> (r: Option<BlockElement<'a>>)
        requires
            old(self).wf(),
        ensures
            final(self).wf(),
            final(self).layout == old(self).layout,
            old(self).remaining().len() == 0 ==> r is None && final(self).remaining() == old(
                self,
            ).remaining(),
            old(self).remaining().len() > 0 ==> final(self).remaining() == old(
                self,
            ).remaining().drop_first() && (old(self).remaining().first() matches
            BlockSlotModel::Line(i) ==> (r matches Some(BlockElement::Line { is_inlay, line })
                && !is_inlay && line.wf() && i == old(self).line_index && line.text@ == old(
                self,
            ).layout.text@[i])) && (forall|w: BlockWidget|
                old(self).remaining().first() == BlockSlotModel::Widget(w) ==> (
                r matches Some(BlockElement::Widget(w2)) && w2 == w)),
    {
        let ghost av = blocks_view(self.layout.block_inlays@);
        let ghost asuf = av.skip(self.block_index as int);
        if self.block_index < self.layout.block_inlays.len() {
            let (anchor, inlay) = self.layout.block_inlays[self.block_index];
            proof {
                assert(asuf[0] == av[self.block_index as int]);
            }
            if anchor == self.line_index {
                let widget = match inlay {
                    BlockInlay::Widget(w) => w,
                };
                self.block_index = self.block_index + 1;
                proof {
                    assert(widget == widget_of_block(
                        self.layout.block_inlays@[old(self).block_index as int].1,
                    ));
                    assert(av.skip(self.block_index as int) =~= asuf.drop_first());
                    assert(self.remaining() =~= old(self).remaining().drop_first());
                }
                return Some(BlockElement::Widget(widget));
            }
        }
        if self.line_index >= self.line_end {
            proof {
                if self.block_index < self.layout.block_inlays@.len() {
                    assert(asuf[0] == av[self.block_index as int]);
                }
                assert(old(self).remaining().len() == 0);
            }
            return None;
        }
        let line = self.layout.line(self.line_index);
        self.line_index = self.line_index + 1;
        proof {
            if self.block_index < self.layout.block_inlays@.len() {
                assert(asuf[0] == av[self.block_index as int]);
            }
            assert(self.remaining() =~= old(self).remaining().drop_first());
        }
        Some(BlockElement::Line { is_inlay: false, line })
    }
}

} // verus!
