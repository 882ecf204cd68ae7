//! What holds of every tree that the grammar builds.

use crate::grammar::{
    closes, delimiter_at, emphasis, ends_flow, ends_line, entry_of, fence_closes, forward, indent,
    is_blank_line, item_at, item_text, lemma_quote_lines, push_break, quote_lines, row_follows,
    spec_block, spec_blocks, spec_body, spec_cells, spec_code_span, spec_document, spec_entries,
    spec_fence, spec_front_matter, spec_items, spec_link, spec_quote, spec_runs, spec_separator,
    spec_table, star_closer, sublist, token_at, Closer, Flow,
};
use crate::markdown::{
    blocks_well_formed, items_well_formed, runs_well_formed, table_well_formed, BlockView,
    ListItemView, RunView, TRowView,
};
use crate::scanner::{source_of, TokenView};
use crate::text::{index_of, lemma_trimmed};
use vstd::prelude::*;

verus! {

/// A newline added to well-formed runs leaves them well formed.
pub proof fn lemma_push_break(runs: Seq<RunView>)
    requires
        runs_well_formed(runs),
    ensures
        runs_well_formed(push_break(runs)),
{
    lemma_push_run(runs, RunView::LineBreak);
    lemma_push_run(runs, RunView::Text(seq![' ']));
}

/// A well-formed run added to well-formed runs leaves them well formed.
pub proof fn lemma_push_run(runs: Seq<RunView>, run: RunView)
    requires
        runs_well_formed(runs),
        run.well_formed(),
    ensures
        runs_well_formed(runs.push(run)),
{
    let after = runs.push(run);
    assert forall|i: int| 0 <= i < after.len() implies (#[trigger] after[i]).well_formed() by {
        if i < runs.len() {
            assert(after[i] == runs[i]);
        }
    }
}

/// A link or an image from the grammar is well formed.
pub proof fn lemma_link(tokens: Seq<TokenView>, pos: int, flow: Flow, image: bool)
    ensures
        match spec_link(tokens, pos, flow, image) {
            Ok((run, _)) => run.well_formed(),
            Err(_) => true,
        },
    decreases tokens.len() - pos, 1int,
{
    lemma_runs(tokens, pos, Closer::Bracket, flow, Seq::empty());
}

/// The runs that the grammar adds to well-formed runs leave them well
/// formed: no emphasis is empty.
pub proof fn lemma_runs(
    tokens: Seq<TokenView>,
    pos: int,
    closer: Closer,
    flow: Flow,
    acc: Seq<RunView>,
)
    requires
        runs_well_formed(acc),
    ensures
        match spec_runs(tokens, pos, closer, flow, acc) {
            Ok((runs, _)) => runs_well_formed(runs),
            Err(_) => true,
        },
    decreases tokens.len() - pos, 0int,
{
    let t = token_at(tokens, pos);
    if closes(closer, t) {
    } else if ends_flow(tokens, pos, flow) {
    } else {
        match t {
            TokenView::Text(text) => {
                lemma_push_run(acc, RunView::Text(text));
                lemma_runs(tokens, pos + 1, closer, flow, acc.push(RunView::Text(text)));
            },
            TokenView::Whitespace => {
                lemma_push_run(acc, RunView::Text(seq![' ']));
                lemma_runs(tokens, pos + 1, closer, flow, acc.push(RunView::Text(seq![' '])));
            },
            TokenView::Newline(n) => {
                if n == 1 {
                    lemma_push_break(acc);
                    lemma_runs(tokens, pos + 1, closer, flow, push_break(acc));
                }
            },
            TokenView::Star(n) => {
                if 1 <= n <= 3 {
                    lemma_runs(tokens, pos + 1, star_closer(n), flow, Seq::empty());
                    match spec_runs(tokens, pos + 1, star_closer(n), flow, Seq::empty()) {
                        Err(_) => {},
                        Ok((inner, next)) => {
                            if inner.len() > 0 {
                                let run = emphasis(n, inner);
                                if n == 3 {
                                    assert(runs_well_formed(seq![RunView::Italic(inner)]));
                                }
                                lemma_push_run(acc, run);
                                lemma_runs(
                                    tokens,
                                    forward(tokens, pos, next),
                                    closer,
                                    flow,
                                    acc.push(run),
                                );
                            }
                        },
                    }
                }
            },
            TokenView::Backtick(n) => {
                if n == 1 {
                    match spec_code_span(tokens, pos + 1, flow, Seq::empty()) {
                        Err(_) => {},
                        Ok((text, next)) => {
                            lemma_push_run(acc, RunView::Code(text));
                            lemma_runs(
                                tokens,
                                forward(tokens, pos, next),
                                closer,
                                flow,
                                acc.push(RunView::Code(text)),
                            );
                        },
                    }
                }
            },
            TokenView::LeftBracket => {
                lemma_link(tokens, pos + 1, flow, false);
                match spec_link(tokens, pos + 1, flow, false) {
                    Err(_) => {},
                    Ok((link, next)) => {
                        lemma_push_run(acc, link);
                        lemma_runs(
                            tokens,
                            forward(tokens, pos, next),
                            closer,
                            flow,
                            acc.push(link),
                        );
                    },
                }
            },
            TokenView::Exclamination => {
                if token_at(tokens, pos + 1) is LeftBracket {
                    lemma_link(tokens, pos + 2, flow, true);
                    match spec_link(tokens, pos + 2, flow, true) {
                        Err(_) => {},
                        Ok((image, next)) => {
                            lemma_push_run(acc, image);
                            lemma_runs(
                                tokens,
                                forward(tokens, pos, next),
                                closer,
                                flow,
                                acc.push(image),
                            );
                        },
                    }
                }
            },
            _ => {},
        }
    }
}

/// The items that the grammar adds to well-formed items leave them well
/// formed, and a list that begins with an item has one.
pub proof fn lemma_items(tokens: Seq<TokenView>, pos: int, nested: bool, acc: Seq<ListItemView>)
    requires
        items_well_formed(acc),
    ensures
        match spec_items(tokens, pos, nested, acc) {
            Ok((items, _)) => items_well_formed(items) && items.len() >= acc.len() && (!nested
                && item_at(tokens, pos) ==> items.len() >= 1),
            Err(_) => true,
        },
    decreases tokens.len() - pos,
{
    let marker = pos + indent(tokens, pos);
    if item_at(tokens, marker) && nested == (marker > pos) {
        let text = item_text(tokens, marker);
        lemma_runs(tokens, text, Closer::End, Flow::Line, Seq::empty());
        match spec_runs(tokens, text, Closer::End, Flow::Line, Seq::empty()) {
            Err(_) => {},
            Ok((runs, end)) => {
                let end = forward(tokens, marker, end);
                let plain = ListItemView { runs, nested: None };
                if token_at(tokens, end) != TokenView::Newline(1) {
                    lemma_push_item(acc, plain);
                } else if nested {
                    lemma_push_item(acc, plain);
                    lemma_items(tokens, end + 1, true, acc.push(plain));
                } else {
                    assert(items_well_formed(Seq::<ListItemView>::empty()));
                    lemma_items(tokens, end + 1, true, Seq::empty());
                    match spec_items(tokens, end + 1, true, Seq::empty()) {
                        Err(_) => {},
                        Ok((inner, next)) => {
                            let item = ListItemView { runs, nested: sublist(inner) };
                            lemma_push_item(acc, item);
                            lemma_items(tokens, forward(tokens, end, next), false, acc.push(item));
                        },
                    }
                }
            },
        }
    }
}

/// A well-formed item added to well-formed items leaves them well formed.
pub proof fn lemma_push_item(items: Seq<ListItemView>, item: ListItemView)
    requires
        items_well_formed(items),
        item.well_formed(),
    ensures
        items_well_formed(items.push(item)),
{
    let after = items.push(item);
    assert forall|i: int| 0 <= i < after.len() implies (#[trigger] after[i]).well_formed() by {
        if i < items.len() {
            assert(after[i] == items[i]);
        }
    }
}

/// The cells that the grammar adds to well-formed cells leave them well
/// formed.
pub proof fn lemma_cells(tokens: Seq<TokenView>, pos: int, acc: Seq<Seq<RunView>>)
    requires
        forall|i: int| 0 <= i < acc.len() ==> runs_well_formed(#[trigger] acc[i]),
    ensures
        match spec_cells(tokens, pos, acc) {
            Ok((cells, _)) => forall|i: int|
                0 <= i < cells.len() ==> runs_well_formed(#[trigger] cells[i]),
            Err(_) => true,
        },
    decreases tokens.len() - pos,
{
    if !ends_line(token_at(tokens, pos)) {
        assert(runs_well_formed(Seq::<RunView>::empty()));
        lemma_runs(tokens, pos, Closer::Pipe, Flow::Line, Seq::empty());
        match spec_runs(tokens, pos, Closer::Pipe, Flow::Line, Seq::empty()) {
            Err(_) => {},
            Ok((runs, next)) => {
                let after = acc.push(runs);
                assert forall|i: int| 0 <= i < after.len() implies runs_well_formed(
                    #[trigger] after[i],
                ) by {
                    if i < acc.len() {
                        assert(after[i] == acc[i]);
                    }
                }
                lemma_cells(tokens, forward(tokens, pos, next), after);
            },
        }
    }
}

/// The rows that the grammar adds to well-formed rows of a width leave
/// them well formed: every row has that width.
pub proof fn lemma_body(tokens: Seq<TokenView>, pos: int, width: nat, acc: Seq<TRowView>)
    requires
        forall|i: int| 0 <= i < acc.len() ==> (#[trigger] acc[i]).well_formed(width, false),
    ensures
        match spec_body(tokens, pos, width, acc) {
            Ok((rows, _)) => forall|i: int|
                0 <= i < rows.len() ==> (#[trigger] rows[i]).well_formed(width, false),
            Err(_) => true,
        },
    decreases tokens.len() - pos,
{
    if row_follows(tokens, pos) {
        lemma_cells(tokens, pos + 2, Seq::empty());
        match spec_cells(tokens, pos + 2, Seq::empty()) {
            Err(_) => {},
            Ok((cells, next)) => {
                if cells.len() == width {
                    let row = TRowView { heading: false, cells };
                    let after = acc.push(row);
                    assert forall|i: int| 0 <= i < after.len() implies (
                    #[trigger] after[i]).well_formed(width, false) by {
                        if i < acc.len() {
                            assert(after[i] == acc[i]);
                        }
                    }
                    lemma_body(tokens, forward(tokens, pos + 1, next), width, after);
                }
            },
        }
    }
}

/// A table from the grammar is well formed.
pub proof fn lemma_table(tokens: Seq<TokenView>, pos: int)
    ensures
        match spec_table(tokens, pos) {
            Ok((block, _)) => block.well_formed(),
            Err(_) => true,
        },
{
    lemma_cells(tokens, pos + 1, Seq::empty());
    match spec_cells(tokens, pos + 1, Seq::empty()) {
        Err(_) => {},
        Ok((cells, end)) => {
            if row_follows(tokens, end) {
                match spec_separator(tokens, end + 2) {
                    Err(_) => {},
                    Ok(behind) => {
                        lemma_body(tokens, behind, cells.len(), Seq::empty());
                    },
                }
            }
        },
    }
}

/// A block quote from the grammar is well formed.
pub proof fn lemma_quote(tokens: Seq<TokenView>, pos: int)
    ensures
        match spec_quote(tokens, pos) {
            Ok((block, _)) => block.well_formed(),
            Err(_) => true,
        },
    decreases tokens.len() - pos, 0int,
{
    let quote = quote_lines(tokens, pos, true, Seq::empty(), Seq::empty());
    if 0 <= pos < tokens.len() {
        lemma_quote_lines(tokens, pos, true, Seq::empty(), Seq::empty());
        assert(blocks_well_formed(Seq::<BlockView>::empty()));
        lemma_blocks(quote.body, 0, Seq::empty());
    } else {
        assert(blocks_well_formed(Seq::<BlockView>::empty()));
    }
}

/// A block from the grammar is well formed.
pub proof fn lemma_block(tokens: Seq<TokenView>, pos: int)
    ensures
        match spec_block(tokens, pos) {
            Ok((block, _)) => block.well_formed(),
            Err(_) => true,
        },
    decreases tokens.len() - pos, 1int,
{
    assert(runs_well_formed(Seq::<RunView>::empty()));
    assert(items_well_formed(Seq::<ListItemView>::empty()));
    lemma_runs(tokens, pos + 2, Closer::End, Flow::Line, Seq::empty());
    lemma_runs(tokens, pos, Closer::End, Flow::Paragraph, Seq::empty());
    lemma_items(tokens, pos, false, Seq::empty());
    lemma_table(tokens, pos);
    if token_at(tokens, pos) is RightAngleBracket {
        lemma_quote(tokens, pos);
    }
}

/// The blocks that the grammar adds to well-formed blocks leave them well
/// formed.
pub proof fn lemma_blocks(tokens: Seq<TokenView>, pos: int, acc: Seq<BlockView>)
    requires
        blocks_well_formed(acc),
    ensures
        match spec_blocks(tokens, pos, acc) {
            Ok((blocks, _)) => blocks_well_formed(blocks),
            Err(_) => true,
        },
    decreases tokens.len() - pos, 2int,
{
    let t = token_at(tokens, pos);
    if t is Eof {
    } else if is_blank_line(t) {
        lemma_blocks(tokens, pos + 1, acc);
    } else {
        lemma_block(tokens, pos);
        match spec_block(tokens, pos) {
            Err(_) => {},
            Ok((block, next)) => {
                let after = acc.push(block);
                assert forall|i: int| 0 <= i < after.len() implies (
                #[trigger] after[i]).well_formed() by {
                    if i < acc.len() {
                        assert(after[i] == acc[i]);
                    }
                }
                lemma_blocks(tokens, forward(tokens, pos, next), after);
            },
        }
    }
}

/// The entries that the grammar adds to a well-formed table leave it well
/// formed: keys and values are trimmed.
pub proof fn lemma_entries(tokens: Seq<TokenView>, pos: int, acc: Map<Seq<char>, Seq<char>>)
    requires
        table_well_formed(acc),
    ensures
        match spec_entries(tokens, pos, acc) {
            Ok((table, _)) => table_well_formed(table),
            Err(_) => true,
        },
    decreases tokens.len() - pos,
{
    match token_at(tokens, pos) {
        TokenView::Text(line) => {
            match entry_of(line) {
                None => {},
                Some((key, value)) => {
                    if token_at(tokens, pos + 1) == TokenView::Newline(1) {
                        let colon = index_of(line, ':') as int;
                        lemma_trimmed(line.take(colon));
                        lemma_trimmed(line.skip(colon + 1));
                        lemma_entries(tokens, pos + 2, acc.insert(key, value));
                    }
                },
            }
        },
        _ => {},
    }
}

/// Every document that the grammar accepts is well formed: the keys and
/// values of its front matter are trimmed, no emphasis is empty, headings
/// have a level from 1 to 6, lists have items, and the rows of a table are
/// as wide as its header.
pub proof fn lemma_document(tokens: Seq<TokenView>, pos: int)
    ensures
        match spec_document(tokens, pos) {
            Ok((document, _)) => document.well_formed(),
            Err(_) => true,
        },
{
    if delimiter_at(tokens, pos) {
        lemma_entries(tokens, pos + 2, Map::empty());
    }
    match spec_front_matter(tokens, pos) {
        Err(_) => {},
        Ok((_, next)) => {
            assert(blocks_well_formed(Seq::<BlockView>::empty()));
            lemma_blocks(tokens, next, Seq::empty());
        },
    }
}

/// A code span is raw: its text is the source of the tokens between its
/// backticks.
pub proof fn lemma_code_span_is_source(
    tokens: Seq<TokenView>,
    pos: int,
    flow: Flow,
    acc: Seq<char>,
)
    requires
        0 <= pos <= tokens.len(),
    ensures
        match spec_code_span(tokens, pos, flow, acc) {
            Ok((text, next)) => pos < next <= tokens.len() && token_at(tokens, next - 1)
                == TokenView::Backtick(1) && text == acc + source_of(
                tokens.subrange(pos, next - 1),
            ),
            Err(_) => true,
        },
    decreases tokens.len() - pos,
{
    let t = token_at(tokens, pos);
    if t == TokenView::Backtick(1) {
        assert(source_of(tokens.subrange(pos, pos)) =~= Seq::<char>::empty());
        assert(acc + Seq::<char>::empty() =~= acc);
    } else if ends_flow(tokens, pos, flow) {
    } else {
        lemma_code_span_is_source(tokens, pos + 1, flow, acc + t.source());
        match spec_code_span(tokens, pos + 1, flow, acc + t.source()) {
            Err(_) => {},
            Ok((text, next)) => {
                let span = tokens.subrange(pos, next - 1);
                assert(span[0] == t);
                assert(span.drop_first() =~= tokens.subrange(pos + 1, next - 1));
                assert(acc + t.source() + source_of(span.drop_first()) =~= acc + source_of(span));
            },
        }
    }
}

/// A fenced code block is raw: its content is the source of the tokens
/// between its fences.
pub proof fn lemma_fence_is_source(tokens: Seq<TokenView>, pos: int, acc: Seq<char>)
    requires
        0 <= pos <= tokens.len(),
    ensures
        match spec_fence(tokens, pos, acc) {
            Ok((content, next)) => pos < next <= tokens.len() && fence_closes(tokens, next - 1)
                && content == acc + source_of(tokens.subrange(pos, next - 1)),
            Err(_) => true,
        },
    decreases tokens.len() - pos,
{
    let t = token_at(tokens, pos);
    if t is Eof {
    } else if fence_closes(tokens, pos) {
        assert(source_of(tokens.subrange(pos, pos)) =~= Seq::<char>::empty());
        assert(acc + Seq::<char>::empty() =~= acc);
    } else {
        lemma_fence_is_source(tokens, pos + 1, acc + t.source());
        match spec_fence(tokens, pos + 1, acc + t.source()) {
            Err(_) => {},
            Ok((content, next)) => {
                let span = tokens.subrange(pos, next - 1);
                assert(span[0] == t);
                assert(span.drop_first() =~= tokens.subrange(pos + 1, next - 1));
                assert(acc + t.source() + source_of(span.drop_first()) =~= acc + source_of(span));
            },
        }
    }
}

} // verus!
