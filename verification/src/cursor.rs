//! The cursor of the grammar only moves forward and never leaves the input.
//!
//! The grammar passes every position that a construct reports through
//! `forward`, which keeps its definitions well founded. The lemmas here show
//! that `forward` never has to change one: what a construct reports lies
//! behind where it began and inside the input.

use crate::grammar::{
    closes, emphasis, ends_flow, ends_line, fence_closes, forward, indent, is_line_break, item_at,
    item_text, lemma_quote_lines, push_break, row_follows, spec_block, spec_body, spec_cells,
    spec_code_span, spec_fence, spec_items, spec_link, spec_runs, spec_separator, star_closer,
    sublist, token_at, Closer, Flow,
};
use crate::markdown::{ListItemView, RunView, TRowView};
use crate::scanner::TokenView;
use crate::text::repeated;
use vstd::prelude::*;

verus! {

/// A code span ends behind where it began, inside the input.
pub proof fn lemma_code_span(tokens: Seq<TokenView>, pos: int, flow: Flow, acc: Seq<char>)
    requires
        0 <= pos <= tokens.len(),
    ensures
        match spec_code_span(tokens, pos, flow, acc) {
            Ok((_, next)) => pos < next <= tokens.len(),
            Err(_) => true,
        },
    decreases tokens.len() - pos,
{
    let t = token_at(tokens, pos);
    if t == TokenView::Backtick(1) {
    } else if ends_flow(tokens, pos, flow) {
    } else {
        lemma_code_span(tokens, pos + 1, flow, acc + t.source());
    }
}

/// A link ends behind where it began, inside the input.
pub proof fn lemma_link(tokens: Seq<TokenView>, pos: int, flow: Flow, image: bool)
    requires
        0 <= pos <= tokens.len(),
    ensures
        match spec_link(tokens, pos, flow, image) {
            Ok((_, next)) => pos < next <= tokens.len(),
            Err(_) => true,
        },
    decreases tokens.len() - pos, 1int,
{
    lemma_runs(tokens, pos, Closer::Bracket, flow, Seq::empty());
}

/// Runs end inside the input, and behind where they began unless they
/// began at the end of their flow.
pub proof fn lemma_runs(
    tokens: Seq<TokenView>,
    pos: int,
    closer: Closer,
    flow: Flow,
    acc: Seq<RunView>,
)
    requires
        0 <= pos <= tokens.len(),
    ensures
        match spec_runs(tokens, pos, closer, flow, acc) {
            Ok((_, next)) => pos <= next <= tokens.len() && (pos < next || ((closer is End
                || closer is Pipe) && ends_flow(tokens, pos, flow))),
            Err(_) => true,
        },
    decreases tokens.len() - pos, 0int,
{
    let t = token_at(tokens, pos);
    if closes(closer, t) {
    } else if ends_flow(tokens, pos, flow) {
    } else {
        match t {
            TokenView::Text(text) => {
                lemma_runs(tokens, pos + 1, closer, flow, acc.push(RunView::Text(text)));
            },
            TokenView::Whitespace => {
                lemma_runs(
                    tokens,
                    pos + 1,
                    closer,
                    flow,
                    acc.push(RunView::Text(seq![' '])),
                );
            },
            TokenView::Newline(n) => {
                if n == 1 {
                    lemma_runs(tokens, pos + 1, closer, flow, push_break(acc));
                }
            },
            TokenView::Star(n) => {
                if 1 <= n <= 3 {
                    lemma_runs(tokens, pos + 1, star_closer(n), flow, Seq::empty());
                    match spec_runs(tokens, pos + 1, star_closer(n), flow, Seq::empty()) {
                        Err(_) => {},
                        Ok((inner, next)) => {
                            if inner.len() > 0 {
                                lemma_runs(
                                    tokens,
                                    next,
                                    closer,
                                    flow,
                                    acc.push(emphasis(n, inner)),
                                );
                            }
                        },
                    }
                }
            },
            TokenView::Backtick(n) => {
                if n == 1 {
                    lemma_code_span(tokens, pos + 1, flow, Seq::empty());
                    match spec_code_span(tokens, pos + 1, flow, Seq::empty()) {
                        Err(_) => {},
                        Ok((text, next)) => {
                            lemma_runs(tokens, next, closer, flow, acc.push(RunView::Code(text)));
                        },
                    }
                }
            },
            TokenView::LeftBracket => {
                lemma_link(tokens, pos + 1, flow, false);
                match spec_link(tokens, pos + 1, flow, false) {
                    Err(_) => {},
                    Ok((link, next)) => {
                        lemma_runs(tokens, next, closer, flow, acc.push(link));
                    },
                }
            },
            TokenView::Exclamination => {
                if token_at(tokens, pos + 1) is LeftBracket {
                    lemma_link(tokens, pos + 2, flow, true);
                    match spec_link(tokens, pos + 2, flow, true) {
                        Err(_) => {},
                        Ok((image, next)) => {
                            lemma_runs(tokens, next, closer, flow, acc.push(image));
                        },
                    }
                }
            },
            _ => {},
        }
    }
}

/// The indentation of a line ends inside the input.
pub proof fn lemma_indent(tokens: Seq<TokenView>, pos: int)
    requires
        0 <= pos <= tokens.len(),
    ensures
        pos + indent(tokens, pos) <= tokens.len(),
    decreases tokens.len() - pos,
{
    if token_at(tokens, pos) is Whitespace {
        lemma_indent(tokens, pos + 1);
    }
}

/// The items of a list end inside the input, and a list that begins with
/// an item ends behind where it began.
pub proof fn lemma_items(tokens: Seq<TokenView>, pos: int, nested: bool, acc: Seq<ListItemView>)
    requires
        0 <= pos <= tokens.len(),
    ensures
        match spec_items(tokens, pos, nested, acc) {
            Ok((_, next)) => pos <= next <= tokens.len() && (!nested && item_at(tokens, pos)
                ==> pos < next),
            Err(_) => true,
        },
    decreases tokens.len() - pos,
{
    lemma_indent(tokens, pos);
    let marker = pos + indent(tokens, pos);
    if item_at(tokens, marker) && nested == (marker > pos) {
        let text = item_text(tokens, marker);
        lemma_runs(tokens, text, Closer::End, Flow::Line, Seq::empty());
        match spec_runs(tokens, text, Closer::End, Flow::Line, Seq::empty()) {
            Err(_) => {},
            Ok((runs, end)) => {
                assert(forward(tokens, marker, end) == end);
                let plain = ListItemView { runs, nested: None };
                if token_at(tokens, end) != TokenView::Newline(1) {
                } else if nested {
                    lemma_items(tokens, end + 1, true, acc.push(plain));
                } else {
                    lemma_items(tokens, end + 1, true, Seq::empty());
                    match spec_items(tokens, end + 1, true, Seq::empty()) {
                        Err(_) => {},
                        Ok((inner, next)) => {
                            assert(forward(tokens, end, next) == next);
                            lemma_items(
                                tokens,
                                next,
                                false,
                                acc.push(
                                    ListItemView { runs, nested: sublist(inner) },
                                ),
                            );
                        },
                    }
                }
            },
        }
    }
}

/// The cells of a row end at the end of the line, inside the input.
pub proof fn lemma_cells(tokens: Seq<TokenView>, pos: int, acc: Seq<Seq<RunView>>)
    requires
        0 <= pos <= tokens.len(),
    ensures
        match spec_cells(tokens, pos, acc) {
            Ok((_, next)) => pos <= next <= tokens.len() && ends_line(token_at(tokens, next)),
            Err(_) => true,
        },
    decreases tokens.len() - pos,
{
    if !ends_line(token_at(tokens, pos)) {
        lemma_runs(tokens, pos, Closer::Pipe, Flow::Line, Seq::empty());
        match spec_runs(tokens, pos, Closer::Pipe, Flow::Line, Seq::empty()) {
            Err(_) => {},
            Ok((runs, next)) => {
                assert(forward(tokens, pos, next) == next);
                lemma_cells(tokens, next, acc.push(runs));
            },
        }
    }
}

/// A separator row ends inside the input.
pub proof fn lemma_separator(tokens: Seq<TokenView>, pos: int)
    requires
        0 <= pos <= tokens.len(),
    ensures
        match spec_separator(tokens, pos) {
            Ok(next) => pos <= next <= tokens.len(),
            Err(_) => true,
        },
    decreases tokens.len() - pos,
{
    let t = token_at(tokens, pos);
    if !ends_line(t) && (t is VerticalLine || t is Dash || t is Whitespace) {
        lemma_separator(tokens, pos + 1);
    }
}

/// The body rows of a table end inside the input.
pub proof fn lemma_body(tokens: Seq<TokenView>, pos: int, width: nat, acc: Seq<TRowView>)
    requires
        0 <= pos <= tokens.len(),
    ensures
        match spec_body(tokens, pos, width, acc) {
            Ok((_, next)) => pos <= next <= tokens.len(),
            Err(_) => true,
        },
    decreases tokens.len() - pos,
{
    if row_follows(tokens, pos) {
        lemma_cells(tokens, pos + 2, Seq::empty());
        match spec_cells(tokens, pos + 2, Seq::empty()) {
            Err(_) => {},
            Ok((cells, next)) => {
                if cells.len() == width {
                    assert(forward(tokens, pos + 1, next) == next);
                    lemma_body(tokens, next, width, acc.push(TRowView { heading: false, cells }));
                }
            },
        }
    }
}

/// The content of a fence ends behind where it began, inside the input.
pub proof fn lemma_fence(tokens: Seq<TokenView>, pos: int, acc: Seq<char>)
    requires
        0 <= pos <= tokens.len(),
    ensures
        match spec_fence(tokens, pos, acc) {
            Ok((_, next)) => pos < next <= tokens.len(),
            Err(_) => true,
        },
    decreases tokens.len() - pos,
{
    let t = token_at(tokens, pos);
    if !(t is Eof) && !fence_closes(tokens, pos) {
        lemma_fence(tokens, pos + 1, acc + t.source());
    }
}

/// A block ends inside the input, and behind where it began unless it
/// began at `Eof`.
pub proof fn lemma_block(tokens: Seq<TokenView>, pos: int)
    requires
        0 <= pos <= tokens.len(),
    ensures
        match spec_block(tokens, pos) {
            Ok((_, next)) => pos <= next <= tokens.len() && (pos < next || token_at(tokens, pos)
                is Eof),
            Err(_) => true,
        },
{
    let t = token_at(tokens, pos);
    let next = token_at(tokens, pos + 1);
    if t is Eof {
        lemma_runs(tokens, pos, Closer::End, Flow::Paragraph, Seq::empty());
    } else {
        match t {
            TokenView::Hash(n) if 1 <= n <= 6 && next is Whitespace => {
                lemma_runs(tokens, pos + 2, Closer::End, Flow::Line, Seq::empty());
            },
            TokenView::RightAngleBracket => {
                lemma_quote_lines(tokens, pos, true, Seq::empty(), Seq::empty());
            },
            TokenView::Backtick(n) if n == 3 && is_line_break(next) => {
                let blank = (next->Newline_0 - 1) as nat;
                lemma_fence(tokens, pos + 2, repeated('\n', blank));
            },
            TokenView::Dash(n) if n == 3 && ends_line(next) => {},
            TokenView::VerticalLine => {
                lemma_cells(tokens, pos + 1, Seq::empty());
                match spec_cells(tokens, pos + 1, Seq::empty()) {
                    Err(_) => {},
                    Ok((cells, end)) => {
                        if row_follows(tokens, end) {
                            lemma_separator(tokens, end + 2);
                            match spec_separator(tokens, end + 2) {
                                Err(_) => {},
                                Ok(behind) => {
                                    lemma_body(tokens, behind, cells.len(), Seq::empty());
                                },
                            }
                        }
                    },
                }
            },
            _ => {
                if item_at(tokens, pos) {
                    lemma_items(tokens, pos, false, Seq::empty());
                } else {
                    lemma_runs(tokens, pos, Closer::End, Flow::Paragraph, Seq::empty());
                }
            },
        }
    }
}

} // verus!
