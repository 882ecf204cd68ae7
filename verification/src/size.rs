//! The tree is no larger than its input allows: a document has at most four
//! nodes for each token that was read to build it.

use crate::cursor;
use crate::grammar::{
    closes, delimiter_at, emphasis, ends_flow, ends_line, entry_of, forward, indent, is_blank_line,
    is_line_break, item_at, item_text, lemma_quote_lines, push_break, quote_lines, row_follows,
    spec_block, spec_blocks, spec_body, spec_cells, spec_code_span, spec_document, spec_entries,
    spec_front_matter, spec_items, spec_link, spec_runs, spec_separator, star_closer, sublist,
    token_at, Closer, Flow,
};
use crate::markdown::{BlockView, ListItemView, RunView, TRowView};
use crate::scanner::TokenView;
use vstd::prelude::*;

verus! {

/// The number of nodes of a run: itself and those of the runs inside it.
pub open spec fn run_size(run: RunView) -> nat
    decreases run,
{
    match run {
        RunView::Bold(inner) => 1 + runs_size(inner),
        RunView::Italic(inner) => 1 + runs_size(inner),
        RunView::Link { inner, .. } => 1 + runs_size(inner),
        _ => 1,
    }
}

/// The number of nodes of a run sequence.
pub open spec fn runs_size(runs: Seq<RunView>) -> nat
    decreases runs,
{
    if runs.len() == 0 {
        0
    } else {
        runs_size(runs.drop_last()) + run_size(runs.last())
    }
}

/// The number of nodes of the cells of a row: each cell and its runs.
pub open spec fn cells_size(cells: Seq<Seq<RunView>>) -> nat
    decreases cells.len(),
{
    if cells.len() == 0 {
        0
    } else {
        cells_size(cells.drop_last()) + 1 + runs_size(cells.last())
    }
}

/// The number of nodes of a sequence of rows: each row and its cells.
pub open spec fn rows_size(rows: Seq<TRowView>) -> nat
    decreases rows.len(),
{
    if rows.len() == 0 {
        0
    } else {
        rows_size(rows.drop_last()) + 1 + cells_size(rows.last().cells)
    }
}

/// The number of nodes of a list item: itself, its runs and its block.
pub open spec fn item_size(item: ListItemView) -> nat
    decreases item,
{
    1 + runs_size(item.runs) + match item.nested {
        Some(block) => block_size(block),
        None => 0,
    }
}

/// The number of nodes of a sequence of list items.
pub open spec fn items_size(items: Seq<ListItemView>) -> nat
    decreases items,
{
    if items.len() == 0 {
        0
    } else {
        items_size(items.drop_last()) + item_size(items.last())
    }
}

/// The number of nodes of a block: itself and all that it holds.
pub open spec fn block_size(block: BlockView) -> nat
    decreases block,
{
    match block {
        BlockView::Heading { runs, .. } => 1 + runs_size(runs),
        BlockView::Paragraph(runs) => 1 + runs_size(runs),
        BlockView::List { items, .. } => 1 + items_size(items),
        BlockView::Table { thead, tbody } => 2 + cells_size(thead.cells) + rows_size(tbody),
        BlockView::Code { .. } => 1,
        BlockView::Quote(blocks) => 1 + blocks_size(blocks),
        BlockView::HorizontalRule => 1,
    }
}

/// The number of nodes of a block sequence.
pub open spec fn blocks_size(blocks: Seq<BlockView>) -> nat
    decreases blocks,
{
    if blocks.len() == 0 {
        0
    } else {
        blocks_size(blocks.drop_last()) + block_size(blocks.last())
    }
}

/// A run added to a sequence adds its nodes.
pub proof fn lemma_push_run(runs: Seq<RunView>, run: RunView)
    ensures
        runs_size(runs.push(run)) == runs_size(runs) + run_size(run),
{
    assert(runs.push(run).drop_last() =~= runs);
}

/// A newline added to a sequence adds one node.
pub proof fn lemma_push_break(runs: Seq<RunView>)
    ensures
        runs_size(push_break(runs)) == runs_size(runs) + 1,
{
    lemma_push_run(runs, RunView::Text(seq![' ']));
    lemma_push_run(runs, RunView::LineBreak);
}

/// A link has at most two nodes for each token read for it.
pub proof fn lemma_link(tokens: Seq<TokenView>, pos: int, flow: Flow, image: bool)
    requires
        0 <= pos <= tokens.len(),
    ensures
        match spec_link(tokens, pos, flow, image) {
            Ok((run, next)) => run_size(run) <= 2 * (next - pos),
            Err(_) => true,
        },
    decreases tokens.len() - pos, 1int,
{
    assert(runs_size(Seq::<RunView>::empty()) == 0);
    lemma_runs(tokens, pos, Closer::Bracket, flow, Seq::empty());
    cursor::lemma_runs(tokens, pos, Closer::Bracket, flow, Seq::empty());
}

/// Runs add at most two nodes for each token read for them.
pub proof fn lemma_runs(
    tokens: Seq<TokenView>,
    pos: int,
    closer: Closer,
    flow: Flow,
    acc: Seq<RunView>,
)
    requires
        0 <= pos <= tokens.len(),
    ensures
        match spec_runs(tokens, pos, closer, flow, acc) {
            Ok((runs, next)) => runs_size(runs) <= runs_size(acc) + 2 * (next - pos),
            Err(_) => true,
        },
    decreases tokens.len() - pos, 0int,
{
    let t = token_at(tokens, pos);
    if closes(closer, t) {
    } else if ends_flow(tokens, pos, flow) {
    } else {
        match t {
            TokenView::Text(text) => {
                lemma_push_run(acc, RunView::Text(text));
                lemma_runs(tokens, pos + 1, closer, flow, acc.push(RunView::Text(text)));
            },
            TokenView::Whitespace => {
                lemma_push_run(acc, RunView::Text(seq![' ']));
                lemma_runs(tokens, pos + 1, closer, flow, acc.push(RunView::Text(seq![' '])));
            },
            TokenView::Newline(n) => {
                if n == 1 {
                    lemma_push_break(acc);
                    lemma_runs(tokens, pos + 1, closer, flow, push_break(acc));
                }
            },
            TokenView::Star(n) => {
                if 1 <= n <= 3 {
                    assert(runs_size(Seq::<RunView>::empty()) == 0);
                    lemma_runs(tokens, pos + 1, star_closer(n), flow, Seq::empty());
                    cursor::lemma_runs(tokens, pos + 1, star_closer(n), flow, Seq::empty());
                    match spec_runs(tokens, pos + 1, star_closer(n), flow, Seq::empty()) {
                        Err(_) => {},
                        Ok((inner, next)) => {
                            if inner.len() > 0 {
                                let run = emphasis(n, inner);
                                if n == 3 {
                                    lemma_push_run(Seq::empty(), RunView::Italic(inner));
                                    assert(seq![RunView::Italic(inner)] =~= Seq::<
                                        RunView,
                                    >::empty().push(RunView::Italic(inner)));
                                }
                                assert(run_size(run) <= 2 + runs_size(inner));
                                lemma_push_run(acc, run);
                                lemma_runs(tokens, next, closer, flow, acc.push(run));
                            }
                        },
                    }
                }
            },
            TokenView::Backtick(n) => {
                if n == 1 {
                    cursor::lemma_code_span(tokens, pos + 1, flow, Seq::empty());
                    match spec_code_span(tokens, pos + 1, flow, Seq::empty()) {
                        Err(_) => {},
                        Ok((text, next)) => {
                            lemma_push_run(acc, RunView::Code(text));
                            lemma_runs(tokens, next, closer, flow, acc.push(RunView::Code(text)));
                        },
                    }
                }
            },
            TokenView::LeftBracket => {
                lemma_link(tokens, pos + 1, flow, false);
                cursor::lemma_link(tokens, pos + 1, flow, false);
                match spec_link(tokens, pos + 1, flow, false) {
                    Err(_) => {},
                    Ok((link, next)) => {
                        lemma_push_run(acc, link);
                        lemma_runs(tokens, next, closer, flow, acc.push(link));
                    },
                }
            },
            TokenView::Exclamination => {
                if token_at(tokens, pos + 1) is LeftBracket {
                    lemma_link(tokens, pos + 2, flow, true);
                    cursor::lemma_link(tokens, pos + 2, flow, true);
                    match spec_link(tokens, pos + 2, flow, true) {
                        Err(_) => {},
                        Ok((image, next)) => {
                            lemma_push_run(acc, image);
                            lemma_runs(tokens, next, closer, flow, acc.push(image));
                        },
                    }
                }
            },
            _ => {},
        }
    }
}

/// An item added to a sequence adds its nodes.
pub proof fn lemma_push_item(items: Seq<ListItemView>, item: ListItemView)
    ensures
        items_size(items.push(item)) == items_size(items) + item_size(item),
{
    assert(items.push(item).drop_last() =~= items);
}

/// The items of a list add at most two nodes for each token read for them.
pub proof fn lemma_items(tokens: Seq<TokenView>, pos: int, nested: bool, acc: Seq<ListItemView>)
    requires
        0 <= pos <= tokens.len(),
    ensures
        match spec_items(tokens, pos, nested, acc) {
            Ok((items, next)) => items_size(items) <= items_size(acc) + 2 * (next - pos),
            Err(_) => true,
        },
    decreases tokens.len() - pos,
{
    cursor::lemma_indent(tokens, pos);
    let marker = pos + indent(tokens, pos);
    if item_at(tokens, marker) && nested == (marker > pos) {
        let text = item_text(tokens, marker);
        assert(runs_size(Seq::<RunView>::empty()) == 0);
        lemma_runs(tokens, text, Closer::End, Flow::Line, Seq::empty());
        cursor::lemma_runs(tokens, text, Closer::End, Flow::Line, Seq::empty());
        match spec_runs(tokens, text, Closer::End, Flow::Line, Seq::empty()) {
            Err(_) => {},
            Ok((runs, end)) => {
                assert(forward(tokens, marker, end) == end);
                let plain = ListItemView { runs, nested: None };
                if token_at(tokens, end) != TokenView::Newline(1) {
                    lemma_push_item(acc, plain);
                } else if nested {
                    lemma_push_item(acc, plain);
                    lemma_items(tokens, end + 1, true, acc.push(plain));
                } else {
                    assert(items_size(Seq::<ListItemView>::empty()) == 0);
                    lemma_items(tokens, end + 1, true, Seq::empty());
                    cursor::lemma_items(tokens, end + 1, true, Seq::empty());
                    match spec_items(tokens, end + 1, true, Seq::empty()) {
                        Err(_) => {},
                        Ok((inner, next)) => {
                            let item = ListItemView { runs, nested: sublist(inner) };
                            lemma_push_item(acc, item);
                            lemma_items(tokens, next, false, acc.push(item));
                        },
                    }
                }
            },
        }
    }
}

/// The cells of a row add at most three nodes for each token read for
/// them.
pub proof fn lemma_cells(tokens: Seq<TokenView>, pos: int, acc: Seq<Seq<RunView>>)
    requires
        0 <= pos <= tokens.len(),
    ensures
        match spec_cells(tokens, pos, acc) {
            Ok((cells, next)) => cells_size(cells) <= cells_size(acc) + 3 * (next - pos),
            Err(_) => true,
        },
    decreases tokens.len() - pos,
{
    if !ends_line(token_at(tokens, pos)) {
        assert(runs_size(Seq::<RunView>::empty()) == 0);
        lemma_runs(tokens, pos, Closer::Pipe, Flow::Line, Seq::empty());
        cursor::lemma_runs(tokens, pos, Closer::Pipe, Flow::Line, Seq::empty());
        match spec_runs(tokens, pos, Closer::Pipe, Flow::Line, Seq::empty()) {
            Err(_) => {},
            Ok((runs, next)) => {
                assert(acc.push(runs).drop_last() =~= acc);
                lemma_cells(tokens, next, acc.push(runs));
            },
        }
    }
}

/// The body rows of a table add at most three nodes for each token read
/// for them.
pub proof fn lemma_body(tokens: Seq<TokenView>, pos: int, width: nat, acc: Seq<TRowView>)
    requires
        0 <= pos <= tokens.len(),
    ensures
        match spec_body(tokens, pos, width, acc) {
            Ok((rows, next)) => rows_size(rows) <= rows_size(acc) + 3 * (next - pos),
            Err(_) => true,
        },
    decreases tokens.len() - pos,
{
    if row_follows(tokens, pos) {
        assert(cells_size(Seq::<Seq<RunView>>::empty()) == 0);
        lemma_cells(tokens, pos + 2, Seq::empty());
        cursor::lemma_cells(tokens, pos + 2, Seq::empty());
        match spec_cells(tokens, pos + 2, Seq::empty()) {
            Err(_) => {},
            Ok((cells, next)) => {
                if cells.len() == width {
                    let row = TRowView { heading: false, cells };
                    assert(acc.push(row).drop_last() =~= acc);
                    lemma_body(tokens, next, width, acc.push(row));
                }
            },
        }
    }
}

/// A block has at most four nodes for each token read for it.
pub proof fn lemma_block(tokens: Seq<TokenView>, pos: int)
    requires
        0 <= pos <= tokens.len(),
        !(token_at(tokens, pos) is Eof),
    ensures
        match spec_block(tokens, pos) {
            Ok((block, next)) => block_size(block) <= 4 * (next - pos),
            Err(_) => true,
        },
    decreases tokens.len() - pos, 1int,
{
    let t = token_at(tokens, pos);
    let next = token_at(tokens, pos + 1);
    cursor::lemma_block(tokens, pos);
    assert(runs_size(Seq::<RunView>::empty()) == 0);
    match t {
        TokenView::Hash(n) if 1 <= n <= 6 && next is Whitespace => {
            lemma_runs(tokens, pos + 2, Closer::End, Flow::Line, Seq::empty());
        },
        TokenView::RightAngleBracket => {
            let quote = quote_lines(tokens, pos, true, Seq::empty(), Seq::empty());
            lemma_quote_lines(tokens, pos, true, Seq::empty(), Seq::empty());
            assert(blocks_size(Seq::<BlockView>::empty()) == 0);
            lemma_blocks(quote.body, 0, Seq::empty());
        },
        TokenView::Backtick(n) if n == 3 && is_line_break(next) => {},
        TokenView::Dash(n) if n == 3 && ends_line(next) => {},
        TokenView::VerticalLine => {
            assert(cells_size(Seq::<Seq<RunView>>::empty()) == 0);
            assert(rows_size(Seq::<TRowView>::empty()) == 0);
            lemma_cells(tokens, pos + 1, Seq::empty());
            cursor::lemma_cells(tokens, pos + 1, Seq::empty());
            match spec_cells(tokens, pos + 1, Seq::empty()) {
                Err(_) => {},
                Ok((cells, end)) => {
                    if row_follows(tokens, end) {
                        cursor::lemma_separator(tokens, end + 2);
                        match spec_separator(tokens, end + 2) {
                            Err(_) => {},
                            Ok(behind) => {
                                lemma_body(tokens, behind, cells.len(), Seq::empty());
                                cursor::lemma_body(tokens, behind, cells.len(), Seq::empty());
                            },
                        }
                    }
                },
            }
        },
        _ => {
            if item_at(tokens, pos) {
                assert(items_size(Seq::<ListItemView>::empty()) == 0);
                lemma_items(tokens, pos, false, Seq::empty());
                cursor::lemma_items(tokens, pos, false, Seq::empty());
            } else {
                lemma_runs(tokens, pos, Closer::End, Flow::Paragraph, Seq::empty());
                cursor::lemma_runs(tokens, pos, Closer::End, Flow::Paragraph, Seq::empty());
            }
        },
    }
}

/// Blocks add at most four nodes for each token read for them.
pub proof fn lemma_blocks(tokens: Seq<TokenView>, pos: int, acc: Seq<BlockView>)
    requires
        0 <= pos <= tokens.len(),
    ensures
        match spec_blocks(tokens, pos, acc) {
            Ok((blocks, end)) => pos <= end <= tokens.len() && blocks_size(blocks) <= blocks_size(
                acc,
            ) + 4 * (end - pos),
            Err(_) => true,
        },
    decreases tokens.len() - pos, 2int,
{
    let t = token_at(tokens, pos);
    if t is Eof {
    } else if is_blank_line(t) {
        lemma_blocks(tokens, pos + 1, acc);
    } else {
        lemma_block(tokens, pos);
        cursor::lemma_block(tokens, pos);
        match spec_block(tokens, pos) {
            Err(_) => {},
            Ok((block, next)) => {
                assert(acc.push(block).drop_last() =~= acc);
                lemma_blocks(tokens, next, acc.push(block));
            },
        }
    }
}

/// The entries of a front matter add at most one key for each two tokens
/// read for them.
pub proof fn lemma_entries(tokens: Seq<TokenView>, pos: int, acc: Map<Seq<char>, Seq<char>>)
    requires
        0 <= pos <= tokens.len(),
        acc.dom().finite(),
    ensures
        match spec_entries(tokens, pos, acc) {
            Ok((table, next)) => pos <= next <= tokens.len() && table.dom().finite() && 2
                * table.len() <= 2 * acc.len() + (next - pos),
            Err(_) => true,
        },
    decreases tokens.len() - pos,
{
    match token_at(tokens, pos) {
        TokenView::Text(line) => {
            match entry_of(line) {
                None => {},
                Some((key, value)) => {
                    if token_at(tokens, pos + 1) == TokenView::Newline(1) {
                        lemma_entries(tokens, pos + 2, acc.insert(key, value));
                    }
                },
            }
        },
        _ => {},
    }
}

/// A document is no larger than its input allows: its blocks have at most
/// four nodes, and its front matter at most one key, for each token between
/// its start and its end.
pub proof fn lemma_document(tokens: Seq<TokenView>, pos: int)
    requires
        0 <= pos <= tokens.len(),
    ensures
        match spec_document(tokens, pos) {
            Ok((document, end)) => pos <= end <= tokens.len() && blocks_size(document.content) <= 4
                * (end - pos) && document.front_matter.len() <= end - pos,
            Err(_) => true,
        },
{
    assert(blocks_size(Seq::<BlockView>::empty()) == 0);
    if delimiter_at(tokens, pos) {
        lemma_entries(tokens, pos + 2, Map::empty());
    }
    match spec_front_matter(tokens, pos) {
        Err(_) => {},
        Ok((_, next)) => {
            lemma_blocks(tokens, next, Seq::empty());
        },
    }
}

} // verus!
