//! Word wrap and the composed line layout.

use code_editor::layout::{
    BlockElement, BlockElements, InlineElement, InlineElements, Layout, WrappedElement,
    WrappedElements,
};
use code_editor::state::{BlockInlay, BlockWidget, InlineInlay, InlineWidget};
use code_editor::text::Text;
use code_editor::wrap::wrap;

fn no_inlays() -> Vec<(usize, InlineInlay)> {
    Vec::new()
}

#[test]
fn wrap_breaks_only_at_whitespace_boundaries() {
    let line = "aaaa bbbb cccc".to_string();
    let inlays = no_inlays();
    let mut breaks: Vec<usize> = Vec::new();
    let indent = wrap(&line, &inlays, 9, 4, &mut breaks);
    // The only break falls between "bbbb" and the following blank: never
    // inside a segment.
    assert_eq!(breaks, vec![9]);
    assert_eq!(indent, 0);
    for b in &breaks {
        assert!([4, 5, 9, 10].contains(b));
    }
}

#[test]
fn wrap_is_deterministic() {
    let line = "aaaa bbbb cccc".to_string();
    let inlays = no_inlays();
    let mut first: Vec<usize> = Vec::new();
    let mut second: Vec<usize> = Vec::new();
    let i1 = wrap(&line, &inlays, 9, 4, &mut first);
    let i2 = wrap(&line, &inlays, 9, 4, &mut second);
    assert_eq!(first, second);
    assert_eq!(i1, i2);
}

#[test]
fn wrap_carries_leading_whitespace_as_indentation() {
    let line = "  aa bb cc dd".to_string();
    let inlays = no_inlays();
    let mut breaks: Vec<usize> = Vec::new();
    let indent = wrap(&line, &inlays, 7, 4, &mut breaks);
    // Columns: "  "=2, "aa"=2, " aa" etc.; continuation rows start at the
    // leading-whitespace width.
    assert_eq!(indent, 2);
    assert_eq!(breaks, vec![7, 11]);
}

#[test]
fn wrap_indentation_degenerates_when_a_segment_cannot_fit_beside_it() {
    let line = "    wide".to_string();
    let inlays = no_inlays();
    let mut breaks: Vec<usize> = Vec::new();
    let indent = wrap(&line, &inlays, 6, 4, &mut breaks);
    assert_eq!(indent, 0);
}

#[test]
fn wrap_expands_tabs_to_the_configured_width() {
    let line = "\taaa".to_string();
    let inlays = no_inlays();
    let mut breaks: Vec<usize> = Vec::new();
    let indent = wrap(&line, &inlays, 5, 4, &mut breaks);
    // Tab is four columns, "aaa" three: 4 + 3 > 5 forces a break after the
    // tab, and the indentation degenerates (4 + 3 > 5 too).
    assert_eq!(indent, 0);
    assert_eq!(breaks, vec![1]);
}

#[test]
fn wrap_counts_widgets_as_atomic_columns() {
    let line = "abc xyz".to_string();
    let inlays = vec![(
        3usize,
        InlineInlay::Widget(InlineWidget { id: 9, column_count: 5 }),
    )];
    let mut breaks: Vec<usize> = Vec::new();
    let indent = wrap(&line, &inlays, 6, 4, &mut breaks);
    assert_eq!(indent, 0);
    // "abc" occupies 3 columns; the widget's 5 do not fit beside it, and
    // the trailing " xyz" does not fit beside the widget.
    assert_eq!(breaks, vec![3, 5]);
}

#[test]
fn inline_elements_split_text_at_inlay_anchors() {
    let inlays = vec![
        (2usize, InlineInlay::Text("XY".to_string())),
        (4usize, InlineInlay::Widget(InlineWidget { id: 1, column_count: 2 })),
    ];
    let mut it = InlineElements::new("abcdef", &inlays);
    let mut seen: Vec<String> = Vec::new();
    while let Some(e) = it.next() {
        match e {
            InlineElement::Text { is_inlay, text } => {
                seen.push(format!("{}:{}", if is_inlay { "inlay" } else { "text" }, text));
            }
            InlineElement::Widget(w) => seen.push(format!("widget:{}", w.id)),
        }
    }
    assert_eq!(
        seen,
        vec![
            "text:ab".to_string(),
            "inlay:XY".to_string(),
            "text:cd".to_string(),
            "widget:1".to_string(),
            "text:ef".to_string(),
        ]
    );
}

#[test]
fn wrapped_elements_split_runs_exactly_at_breaks() {
    let inlays = no_inlays();
    let breaks = vec![3usize];
    let mut it = WrappedElements::new("abcdef", &inlays, &breaks);
    let mut seen: Vec<String> = Vec::new();
    while let Some(e) = it.next() {
        match e {
            WrappedElement::Text { text, .. } => seen.push(format!("text:{}", text)),
            WrappedElement::Widget(w) => seen.push(format!("widget:{}", w.id)),
            WrappedElement::Wrap => seen.push("wrap".to_string()),
        }
    }
    assert_eq!(
        seen,
        vec!["text:abc".to_string(), "wrap".to_string(), "text:def".to_string()]
    );
}

fn layout_tables() -> (Text, Vec<Vec<(usize, InlineInlay)>>, Vec<(usize, BlockInlay)>) {
    let text = Text::from_lines(vec!["alpha".to_string(), "beta".to_string()]);
    let inline_inlays = vec![Vec::new(), Vec::new()];
    let block_inlays = vec![(1usize, BlockInlay::Widget(BlockWidget { id: 42 }))];
    (text, inline_inlays, block_inlays)
}

#[test]
fn block_elements_interleave_widgets_with_lines() {
    let (text, inline_inlays, block_inlays) = layout_tables();
    let column_count = vec![5usize, 4usize];
    let fold_column_index = vec![0usize, 0usize];
    let wrap_char_indices: Vec<Vec<usize>> = vec![Vec::new(), Vec::new()];
    let wrap_indentation_width = vec![0usize, 0usize];
    let layout = Layout {
        text: &text,
        inline_inlays: &inline_inlays,
        block_inlays: &block_inlays,
        column_count: &column_count,
        fold_column_index: &fold_column_index,
        wrap_char_indices: &wrap_char_indices,
        wrap_indentation_width: &wrap_indentation_width,
    };
    assert_eq!(layout.line_count(), 2);
    assert_eq!(layout.line(0).text.as_str(), "alpha");
    assert_eq!(layout.line(0).row_count(), 1);

    let mut it: BlockElements = layout.block_elements(0, 2);
    let mut seen: Vec<String> = Vec::new();
    while let Some(e) = it.next() {
        match e {
            BlockElement::Line { line, .. } => seen.push(format!("line:{}", line.text)),
            BlockElement::Widget(w) => seen.push(format!("widget:{}", w.id)),
        }
    }
    assert_eq!(
        seen,
        vec!["line:alpha".to_string(), "widget:42".to_string(), "line:beta".to_string()]
    );

    let mut lines = layout.lines(0, 2);
    assert_eq!(lines.next().unwrap().text.as_str(), "alpha");
    assert_eq!(lines.next().unwrap().text.as_str(), "beta");
    assert!(lines.next().is_none());
}
