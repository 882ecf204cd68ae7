//! The grammar, as mathematics.
//!
//! Every function here maps a token sequence and a cursor to what the parser
//! must produce from that point: a value and the cursor behind it, or the
//! first error. The parser's contracts are equalities with these functions.

use crate::error::{ParseError, ParseErrorKind};
use crate::markdown::{BlockView, ListItemView, MarkdownView, RunView, TRowView};
use crate::scanner::TokenView;
use crate::text::{index_of, repeated, trimmed};
use vstd::prelude::*;

verus! {

/// The token at `pos`. Outside the sequence the input reads as `Eof`.
pub open spec fn token_at(tokens: Seq<TokenView>, pos: int) -> TokenView {
    if 0 <= pos < tokens.len() {
        tokens[pos]
    } else {
        TokenView::Eof
    }
}

/// An error of the given kind at `pos`. The position is reported where
/// `pos` names a token of the sequence.
pub open spec fn error_at(tokens: Seq<TokenView>, pos: int, kind: ParseErrorKind) -> ParseError {
    ParseError {
        kind,
        position: if 0 <= pos < tokens.len() {
            Some(pos as usize)
        } else {
            None
        },
    }
}

/// Where the cursor stands after a construct that began at `from` and
/// reported `to`: never at or before `from`, never beyond the end. This is
/// what makes the definitions below well founded; no construct of the
/// grammar reports a position that it changes, as the module `cursor` shows.
pub open spec fn forward(tokens: Seq<TokenView>, from: int, to: int) -> int {
    if from < to <= tokens.len() {
        to
    } else {
        tokens.len() as int
    }
}

/// How the text of a block flows over line ends.
#[derive(Debug, Clone, Copy, PartialEq, Eq)]
pub enum Flow {
    /// Single newlines are breaks inside the text; a blank line ends it.
    Paragraph,
    /// The first newline ends the text.
    Line,
}

/// What closes the run sequence being parsed.
#[derive(Debug, Clone, Copy, PartialEq, Eq)]
pub enum Closer {
    /// Only the end of the flow.
    End,
    /// A `VerticalLine`, or the end of the flow.
    Pipe,
    /// `Star(1)`.
    Italic,
    /// `Star(2)`.
    Bold,
    /// `Star(3)`.
    BoldItalic,
    /// `RightBracket`.
    Bracket,
}

/// `t` is the token that `closer` waits for.
pub open spec fn closes(closer: Closer, t: TokenView) -> bool {
    match closer {
        Closer::End => false,
        Closer::Pipe => t is VerticalLine,
        Closer::Italic => t == TokenView::Star(1),
        Closer::Bold => t == TokenView::Star(2),
        Closer::BoldItalic => t == TokenView::Star(3),
        Closer::Bracket => t is RightBracket,
    }
}

/// `t` ends a line: a newline token of one or more newlines, or `Eof`.
pub open spec fn ends_line(t: TokenView) -> bool {
    match t {
        TokenView::Eof => true,
        TokenView::Newline(n) => n >= 1,
        _ => false,
    }
}

/// Text that flows as `flow` says ends at `pos`: at `Eof`, at a blank line,
/// and at a single newline if the text is a line or if nothing but `Eof`
/// follows.
pub open spec fn ends_flow(tokens: Seq<TokenView>, pos: int, flow: Flow) -> bool {
    match token_at(tokens, pos) {
        TokenView::Eof => true,
        TokenView::Newline(n) => n >= 2 || (n == 1 && (flow is Line || token_at(tokens, pos + 1)
            is Eof)),
        _ => false,
    }
}

/// The error for a flow that ends while `closer` is still open.
pub open spec fn unclosed(closer: Closer) -> ParseErrorKind {
    match closer {
        Closer::Bracket => ParseErrorKind::MalformedLink,
        _ => ParseErrorKind::UnterminatedEmphasis,
    }
}

/// The closer of an emphasis opened by a run of `n` stars.
pub open spec fn star_closer(n: nat) -> Closer {
    if n == 1 {
        Closer::Italic
    } else if n == 2 {
        Closer::Bold
    } else {
        Closer::BoldItalic
    }
}

/// The run for what a star run of length `n` encloses: italic, bold, or
/// bold around italic.
pub open spec fn emphasis(n: nat, inner: Seq<RunView>) -> RunView {
    if n == 1 {
        RunView::Italic(inner)
    } else if n == 2 {
        RunView::Bold(inner)
    } else {
        RunView::Bold(seq![RunView::Italic(inner)])
    }
}

/// How many spaces end `text`.
pub open spec fn space_suffix(text: Seq<char>) -> nat
    decreases text.len(),
{
    if text.len() > 0 && text.last() == ' ' {
        1 + space_suffix(text.drop_last())
    } else {
        0
    }
}

/// How many spaces end `runs`: those that end its last run, if that is
/// text, and, where that text is nothing but spaces, those that end the runs
/// before it.
pub open spec fn spaces_behind(runs: Seq<RunView>) -> nat
    decreases runs.len(),
{
    if runs.len() == 0 {
        0
    } else {
        match runs.last() {
            RunView::Text(text) => if space_suffix(text) == text.len() {
                text.len() + spaces_behind(runs.drop_last())
            } else {
                space_suffix(text)
            },
            _ => 0,
        }
    }
}

/// A single newline after `runs` is a hard break: two or more spaces end
/// the runs before it.
pub open spec fn hard_break_due(runs: Seq<RunView>) -> bool {
    spaces_behind(runs) >= 2
}

/// `runs` with a single newline added: a line break where one is due, a
/// run of one space otherwise.
pub open spec fn push_break(runs: Seq<RunView>) -> Seq<RunView> {
    if hard_break_due(runs) {
        runs.push(RunView::LineBreak)
    } else {
        runs.push(RunView::Text(seq![' ']))
    }
}

/// The text of a run with all markup removed.
pub open spec fn run_text(run: RunView) -> Seq<char>
    decreases run,
{
    match run {
        RunView::Text(text) => text,
        RunView::Bold(inner) => plain_text(inner),
        RunView::Italic(inner) => plain_text(inner),
        RunView::Link { inner, .. } => plain_text(inner),
        RunView::Image { alt, .. } => alt,
        RunView::Code(text) => text,
        RunView::LineBreak => Seq::empty(),
    }
}

/// The text of a run sequence with all markup removed.
pub open spec fn plain_text(runs: Seq<RunView>) -> Seq<char>
    decreases runs,
{
    if runs.len() == 0 {
        Seq::empty()
    } else {
        plain_text(runs.drop_last()) + run_text(runs.last())
    }
}

/// The raw text of a code span whose opening backtick has been read: the
/// source of every token up to the next `Backtick(1)`, which is consumed.
/// The end of the flow before that is an error.
pub open spec fn spec_code_span(tokens: Seq<TokenView>, pos: int, flow: Flow, acc: Seq<char>)
    -> Result<(Seq<char>, int), ParseError>
    decreases tokens.len() - pos,
{
    let t = token_at(tokens, pos);
    if t == TokenView::Backtick(1) {
        Ok((acc, pos + 1))
    } else if ends_flow(tokens, pos, flow) {
        Err(error_at(tokens, pos, ParseErrorKind::UnexpectedToken))
    } else {
        spec_code_span(tokens, pos + 1, flow, acc + t.source())
    }
}

/// The target of a link, read behind the closing bracket: `LeftParen`, a
/// `Text` with the URL, `RightParen`.
pub open spec fn spec_link_target(tokens: Seq<TokenView>, pos: int)
    -> Result<(Seq<char>, int), ParseError> {
    if !(token_at(tokens, pos) is LeftParen) {
        Err(error_at(tokens, pos, ParseErrorKind::MalformedLink))
    } else {
        match token_at(tokens, pos + 1) {
            TokenView::Text(url) => if token_at(tokens, pos + 2) is RightParen {
                Ok((url, pos + 3))
            } else {
                Err(error_at(tokens, pos + 2, ParseErrorKind::MalformedLink))
            },
            _ => Err(error_at(tokens, pos + 1, ParseErrorKind::MalformedLink)),
        }
    }
}

/// A link or an image whose opening bracket has been read: the runs up to
/// the closing bracket, then the target. An image keeps the plain text of
/// those runs as its alternative text.
pub open spec fn spec_link(tokens: Seq<TokenView>, pos: int, flow: Flow, image: bool)
    -> Result<(RunView, int), ParseError>
    decreases tokens.len() - pos, 1int,
{
    match spec_runs(tokens, pos, Closer::Bracket, flow, Seq::empty()) {
        Err(e) => Err(e),
        Ok((inner, behind)) => match spec_link_target(tokens, behind) {
            Err(e) => Err(e),
            Ok((url, next)) => Ok(
                (
                    if image {
                        RunView::Image { url, alt: plain_text(inner) }
                    } else {
                        RunView::Link { url, inner }
                    },
                    next,
                ),
            ),
        },
    }
}

/// The inline grammar: the runs from `pos` on, added to `acc`, up to the
/// token that `closer` waits for (consumed) or, where `closer` allows it, the
/// end of the flow (not consumed).
///
/// - `Text` is a run of its text, and `Whitespace` a run of one space.
/// - `Newline(1)` inside a paragraph is a line break, where two or more
///   spaces stand before it, and a run of one space otherwise.
/// - `Star(1)`, `Star(2)` and `Star(3)` open an emphasis that the next star
///   run of the same length closes; it may not be empty.
/// - `Backtick(1)` opens a code span.
/// - `LeftBracket` opens a link; `Exclamination` before it makes an image.
/// - Every other token is an error.
pub open spec fn spec_runs(
    tokens: Seq<TokenView>,
    pos: int,
    closer: Closer,
    flow: Flow,
    acc: Seq<RunView>,
) -> Result<(Seq<RunView>, int), ParseError>
    decreases tokens.len() - pos, 0int,
{
    let t = token_at(tokens, pos);
    if closes(closer, t) {
        Ok((acc, pos + 1))
    } else if ends_flow(tokens, pos, flow) {
        match closer {
            Closer::End | Closer::Pipe => Ok((acc, pos)),
            _ => Err(error_at(tokens, pos, unclosed(closer))),
        }
    } else {
        match t {
            TokenView::Text(text) => spec_runs(
                tokens,
                pos + 1,
                closer,
                flow,
                acc.push(RunView::Text(text)),
            ),
            TokenView::Whitespace => spec_runs(
                tokens,
                pos + 1,
                closer,
                flow,
                acc.push(RunView::Text(seq![' '])),
            ),
            TokenView::Newline(n) => if n == 1 {
                spec_runs(tokens, pos + 1, closer, flow, push_break(acc))
            } else {
                Err(error_at(tokens, pos, ParseErrorKind::UnexpectedToken))
            },
            TokenView::Star(n) => if 1 <= n <= 3 {
                match spec_runs(tokens, pos + 1, star_closer(n), flow, Seq::empty()) {
                    Err(e) => Err(e),
                    Ok((inner, next)) => if inner.len() == 0 {
                        Err(error_at(tokens, next - 1, ParseErrorKind::UnexpectedToken))
                    } else {
                        spec_runs(
                            tokens,
                            forward(tokens, pos, next),
                            closer,
                            flow,
                            acc.push(emphasis(n, inner)),
                        )
                    },
                }
            } else {
                Err(error_at(tokens, pos, ParseErrorKind::UnexpectedToken))
            },
            TokenView::Backtick(n) => if n == 1 {
                match spec_code_span(tokens, pos + 1, flow, Seq::empty()) {
                    Err(e) => Err(e),
                    Ok((text, next)) => spec_runs(
                        tokens,
                        forward(tokens, pos, next),
                        closer,
                        flow,
                        acc.push(RunView::Code(text)),
                    ),
                }
            } else {
                Err(error_at(tokens, pos, ParseErrorKind::UnexpectedToken))
            },
            TokenView::LeftBracket => match spec_link(tokens, pos + 1, flow, false) {
                Err(e) => Err(e),
                Ok((link, next)) => spec_runs(
                    tokens,
                    forward(tokens, pos, next),
                    closer,
                    flow,
                    acc.push(link),
                ),
            },
            TokenView::Exclamination => if token_at(tokens, pos + 1) is LeftBracket {
                match spec_link(tokens, pos + 2, flow, true) {
                    Err(e) => Err(e),
                    Ok((image, next)) => spec_runs(
                        tokens,
                        forward(tokens, pos, next),
                        closer,
                        flow,
                        acc.push(image),
                    ),
                }
            } else {
                Err(error_at(tokens, pos, ParseErrorKind::UnexpectedToken))
            },
            _ => Err(error_at(tokens, pos, ParseErrorKind::UnexpectedToken)),
        }
    }
}

/// The key and the value that a line of front matter holds: what stands
/// before and behind its first colon, each without the white space around it.
/// A line without a colon holds none.
pub open spec fn entry_of(line: Seq<char>) -> Option<(Seq<char>, Seq<char>)> {
    let colon = index_of(line, ':') as int;
    if colon < line.len() {
        Some((trimmed(line.take(colon)), trimmed(line.skip(colon + 1))))
    } else {
        None
    }
}

/// The entries of a front matter from `pos` on, added to `acc`: every
/// `Text` must hold an entry and be followed by `Newline(1)`. The first token
/// that is no `Text` ends them.
pub open spec fn spec_entries(tokens: Seq<TokenView>, pos: int, acc: Map<Seq<char>, Seq<char>>)
    -> Result<(Map<Seq<char>, Seq<char>>, int), ParseError>
    decreases tokens.len() - pos,
{
    match token_at(tokens, pos) {
        TokenView::Text(line) => match entry_of(line) {
            None => Err(error_at(tokens, pos, ParseErrorKind::InvalidFrontMatter)),
            Some((key, value)) => if token_at(tokens, pos + 1) == TokenView::Newline(1) {
                spec_entries(tokens, pos + 2, acc.insert(key, value))
            } else {
                Err(error_at(tokens, pos + 1, ParseErrorKind::InvalidFrontMatter))
            },
        },
        _ => Ok((acc, pos)),
    }
}

/// `Dash(3)` and `Newline(1)` stand at `pos`.
pub open spec fn delimiter_at(tokens: Seq<TokenView>, pos: int) -> bool {
    token_at(tokens, pos) == TokenView::Dash(3) && token_at(tokens, pos + 1) == TokenView::Newline(
        1,
    )
}

/// The front matter at `pos`. It is there if and only if a delimiter stands
/// at `pos`; then its entries follow, and a second delimiter must close it.
/// Where there is none the table is empty and no token is consumed.
pub open spec fn spec_front_matter(tokens: Seq<TokenView>, pos: int) -> Result<
    (Map<Seq<char>, Seq<char>>, int),
    ParseError,
> {
    if delimiter_at(tokens, pos) {
        match spec_entries(tokens, pos + 2, Map::empty()) {
            Err(e) => Err(e),
            Ok((table, next)) => if token_at(tokens, next) != TokenView::Dash(3) {
                Err(error_at(tokens, next, ParseErrorKind::InvalidFrontMatter))
            } else if token_at(tokens, next + 1) != TokenView::Newline(1) {
                Err(error_at(tokens, next + 1, ParseErrorKind::InvalidFrontMatter))
            } else {
                Ok((table, next + 2))
            },
        }
    } else {
        Ok((Map::empty(), pos))
    }
}

/// `t` is a newline token of one or more newlines.
pub open spec fn is_line_break(t: TokenView) -> bool {
    match t {
        TokenView::Newline(n) => n >= 1,
        _ => false,
    }
}

/// `t` is a newline token of two or more newlines: a blank line.
pub open spec fn is_blank_line(t: TokenView) -> bool {
    match t {
        TokenView::Newline(n) => n >= 2,
        _ => false,
    }
}

/// The cursor behind the line end at `pos`, if one stands there.
pub open spec fn skip_line_break(tokens: Seq<TokenView>, pos: int) -> int {
    if is_line_break(token_at(tokens, pos)) {
        pos + 1
    } else {
        pos
    }
}

/// A list item begins at `pos`: with `Dash(1)` or `Plus`, or with `Star(1)`
/// before `Whitespace`. A star before anything else opens an emphasis.
pub open spec fn item_at(tokens: Seq<TokenView>, pos: int) -> bool {
    let t = token_at(tokens, pos);
    t == TokenView::Dash(1) || t is Plus || (t == TokenView::Star(1) && token_at(tokens, pos + 1)
        is Whitespace)
}

/// Where the text of the item begins whose marker stands at `pos`: behind
/// the marker and the one `Whitespace` that may follow it.
pub open spec fn item_text(tokens: Seq<TokenView>, pos: int) -> int {
    if token_at(tokens, pos + 1) is Whitespace {
        pos + 2
    } else {
        pos + 1
    }
}

/// How many `Whitespace` tokens stand at `pos` without interruption.
pub open spec fn indent(tokens: Seq<TokenView>, pos: int) -> nat
    decreases tokens.len() - pos,
{
    if token_at(tokens, pos) is Whitespace {
        1 + indent(tokens, pos + 1)
    } else {
        0
    }
}

/// The block nested in a list item: the list of its indented items, if any.
pub open spec fn sublist(items: Seq<ListItemView>) -> Option<BlockView> {
    if items.len() == 0 {
        None
    } else {
        Some(BlockView::List { ordered: false, items })
    }
}

/// The items of a list from the line that starts at `pos` on, added to
/// `acc`. With `nested` the items are those of indented lines, which have no
/// lists of their own; without, those of lines that are not indented, each
/// with the list of the indented items under it. The first line that holds
/// no item of the kind ends the list and is not consumed, nor is the blank
/// line or `Eof` behind the last item.
pub open spec fn spec_items(
    tokens: Seq<TokenView>,
    pos: int,
    nested: bool,
    acc: Seq<ListItemView>,
) -> Result<(Seq<ListItemView>, int), ParseError>
    decreases tokens.len() - pos,
{
    let marker = pos + indent(tokens, pos);
    if item_at(tokens, marker) && nested == (marker > pos) {
        match spec_runs(tokens, item_text(tokens, marker), Closer::End, Flow::Line, Seq::empty()) {
            Err(e) => Err(e),
            Ok((runs, end)) => {
                let end = forward(tokens, marker, end);
                if token_at(tokens, end) != TokenView::Newline(1) {
                    Ok((acc.push(ListItemView { runs, nested: None }), end))
                } else if nested {
                    spec_items(tokens, end + 1, true, acc.push(ListItemView { runs, nested: None }))
                } else {
                    match spec_items(tokens, end + 1, true, Seq::empty()) {
                        Err(e) => Err(e),
                        Ok((inner, next)) => spec_items(
                            tokens,
                            forward(tokens, end, next),
                            false,
                            acc.push(ListItemView { runs, nested: sublist(inner) }),
                        ),
                    }
                }
            },
        }
    } else {
        Ok((acc, pos))
    }
}

/// The cells of a table row from `pos` on, added to `acc`: each cell is a
/// run sequence that a `VerticalLine` or the end of the line closes. The line
/// end is not consumed.
pub open spec fn spec_cells(tokens: Seq<TokenView>, pos: int, acc: Seq<Seq<RunView>>) -> Result<
    (Seq<Seq<RunView>>, int),
    ParseError,
>
    decreases tokens.len() - pos,
{
    if ends_line(token_at(tokens, pos)) {
        Ok((acc, pos))
    } else {
        match spec_runs(tokens, pos, Closer::Pipe, Flow::Line, Seq::empty()) {
            Err(e) => Err(e),
            Ok((runs, next)) => spec_cells(tokens, forward(tokens, pos, next), acc.push(runs)),
        }
    }
}

/// The end of the separator row whose first `VerticalLine` stands before
/// `pos`: the row may hold `VerticalLine`, `Dash` and `Whitespace` only.
pub open spec fn spec_separator(tokens: Seq<TokenView>, pos: int) -> Result<int, ParseError>
    decreases tokens.len() - pos,
{
    let t = token_at(tokens, pos);
    if ends_line(t) {
        Ok(pos)
    } else if t is VerticalLine || t is Dash || t is Whitespace {
        spec_separator(tokens, pos + 1)
    } else {
        Err(error_at(tokens, pos, ParseErrorKind::MalformedTableRow))
    }
}

/// A row follows the line end at `pos`: `Newline(1)`, then `VerticalLine`.
pub open spec fn row_follows(tokens: Seq<TokenView>, pos: int) -> bool {
    token_at(tokens, pos) == TokenView::Newline(1) && token_at(tokens, pos + 1) is VerticalLine
}

/// The body rows of a table behind the line end at `pos`, added to `acc`.
/// Every row must have `width` cells.
pub open spec fn spec_body(tokens: Seq<TokenView>, pos: int, width: nat, acc: Seq<TRowView>)
    -> Result<(Seq<TRowView>, int), ParseError>
    decreases tokens.len() - pos,
{
    if row_follows(tokens, pos) {
        match spec_cells(tokens, pos + 2, Seq::empty()) {
            Err(e) => Err(e),
            Ok((cells, next)) => if cells.len() != width {
                Err(error_at(tokens, pos + 1, ParseErrorKind::MalformedTableRow))
            } else {
                spec_body(
                    tokens,
                    forward(tokens, pos + 1, next),
                    width,
                    acc.push(TRowView { heading: false, cells }),
                )
            },
        }
    } else {
        Ok((acc, pos))
    }
}

/// The table whose first `VerticalLine` stands at `pos`: the header row,
/// then, if more rows follow, the separator row, which is dropped, and the
/// body rows.
pub open spec fn spec_table(tokens: Seq<TokenView>, pos: int) -> Result<
    (BlockView, int),
    ParseError,
> {
    match spec_cells(tokens, pos + 1, Seq::empty()) {
        Err(e) => Err(e),
        Ok((cells, end)) => {
            let thead = TRowView { heading: true, cells };
            if row_follows(tokens, end) {
                match spec_separator(tokens, end + 2) {
                    Err(e) => Err(e),
                    Ok(behind) => match spec_body(tokens, behind, cells.len(), Seq::empty()) {
                        Err(e) => Err(e),
                        Ok((tbody, next)) => Ok(
                            (BlockView::Table { thead, tbody }, skip_line_break(tokens, next)),
                        ),
                    },
                }
            } else {
                Ok(
                    (
                        BlockView::Table { thead, tbody: Seq::empty() },
                        skip_line_break(tokens, end),
                    ),
                )
            }
        },
    }
}

/// A fence closes at `pos`: `Backtick(3)` alone on its line.
pub open spec fn fence_closes(tokens: Seq<TokenView>, pos: int) -> bool {
    &&& token_at(tokens, pos) == TokenView::Backtick(3)
    &&& token_at(tokens, pos - 1) is Newline
    &&& ends_line(token_at(tokens, pos + 1))
}

/// The content of a fenced code block from `pos` on, added to `acc`: the
/// source of every token before the closing fence, which is consumed.
pub open spec fn spec_fence(tokens: Seq<TokenView>, pos: int, acc: Seq<char>) -> Result<
    (Seq<char>, int),
    ParseError,
>
    decreases tokens.len() - pos,
{
    let t = token_at(tokens, pos);
    if t is Eof {
        Err(error_at(tokens, pos, ParseErrorKind::UnterminatedCodeFence))
    } else if fence_closes(tokens, pos) {
        Ok((acc, pos + 1))
    } else {
        spec_fence(tokens, pos + 1, acc + t.source())
    }
}

/// The body of a block quote: its tokens, for each of them the index of the
/// token of the input that it comes from, and the index at which the quote
/// ends.
pub struct QuoteLines {
    pub body: Seq<TokenView>,
    pub origin: Seq<int>,
    pub end: int,
}

/// The body of a quote with the line end at `pos` added. A line end that
/// follows a line end forms one token with it.
pub open spec fn join_line(body: Seq<TokenView>, origin: Seq<int>, pos: int) -> (
    Seq<TokenView>,
    Seq<int>,
) {
    if body.len() > 0 {
        match body.last() {
            TokenView::Newline(n) => (body.drop_last().push(TokenView::Newline(n + 1)), origin),
            _ => (body.push(TokenView::Newline(1)), origin.push(pos)),
        }
    } else {
        (body.push(TokenView::Newline(1)), origin.push(pos))
    }
}

/// The lines of a block quote from `pos` on, added to `body` and `origin`.
/// Each line gives its tokens without the `RightAngleBracket` and the one
/// `Whitespace` that may follow it; between two lines of the quote stands
/// their line end. The quote ends at the line end behind its last line, or
/// at `Eof`. At `line_start` a `RightAngleBracket` stands at `pos`.
pub open spec fn quote_lines(
    tokens: Seq<TokenView>,
    pos: int,
    line_start: bool,
    body: Seq<TokenView>,
    origin: Seq<int>,
) -> QuoteLines
    decreases tokens.len() - pos, (if line_start { 1int } else { 0int }),
{
    let t = token_at(tokens, pos);
    if !(0 <= pos < tokens.len()) {
        QuoteLines { body, origin, end: pos }
    } else if line_start {
        if token_at(tokens, pos + 1) is Whitespace {
            quote_lines(tokens, pos + 2, false, body, origin)
        } else {
            quote_lines(tokens, pos + 1, false, body, origin)
        }
    } else if t is Eof {
        QuoteLines { body, origin, end: pos }
    } else if t is Newline {
        if t == TokenView::Newline(1) && token_at(tokens, pos + 1) is RightAngleBracket {
            let joined = join_line(body, origin, pos);
            quote_lines(tokens, pos + 1, true, joined.0, joined.1)
        } else {
            QuoteLines { body, origin, end: pos }
        }
    } else {
        quote_lines(tokens, pos + 1, false, body.push(t), origin.push(pos))
    }
}

/// An error from the body of a block quote, with its position in the
/// tokens that the quote was taken from. An error at the end of the body
/// stands at the end of the quote.
pub open spec fn quote_error(tokens: Seq<TokenView>, origin: Seq<int>, end: int, e: ParseError)
    -> ParseError {
    match e.position {
        Some(p) => if p < origin.len() {
            error_at(tokens, origin[p as int], e.kind)
        } else {
            error_at(tokens, end, e.kind)
        },
        None => error_at(tokens, end, e.kind),
    }
}

/// The body of a block quote has an origin for each token and grows by
/// less than the number of tokens of the quote, which ends inside the input.
pub proof fn lemma_quote_lines(
    tokens: Seq<TokenView>,
    pos: int,
    line_start: bool,
    body: Seq<TokenView>,
    origin: Seq<int>,
)
    requires
        0 <= pos <= tokens.len(),
        body.len() == origin.len(),
    ensures
        ({
            let q = quote_lines(tokens, pos, line_start, body, origin);
            &&& q.body.len() == q.origin.len()
            &&& q.body.len() <= body.len() + q.end - pos
            &&& pos <= q.end <= tokens.len()
            &&& line_start && pos < tokens.len() ==> q.body.len() < body.len() + q.end - pos
        }),
    decreases tokens.len() - pos, (if line_start { 1int } else { 0int }),
{
    let t = token_at(tokens, pos);
    if !(0 <= pos < tokens.len()) {
    } else if line_start {
        if token_at(tokens, pos + 1) is Whitespace {
            lemma_quote_lines(tokens, pos + 2, false, body, origin);
        } else {
            lemma_quote_lines(tokens, pos + 1, false, body, origin);
        }
    } else if t is Eof {
    } else if t is Newline {
        if t == TokenView::Newline(1) && token_at(tokens, pos + 1) is RightAngleBracket {
            let joined = join_line(body, origin, pos);
            lemma_quote_lines(tokens, pos + 1, true, joined.0, joined.1);
        }
    } else {
        lemma_quote_lines(tokens, pos + 1, false, body.push(t), origin.push(pos));
    }
}

/// The heading of the given level whose `Hash` stands at `pos`, with
/// `Whitespace` behind it: its runs to the end of the line, which is
/// consumed.
pub open spec fn spec_heading(tokens: Seq<TokenView>, pos: int, level: u8) -> Result<
    (BlockView, int),
    ParseError,
> {
    match spec_runs(tokens, pos + 2, Closer::End, Flow::Line, Seq::empty()) {
        Err(e) => Err(e),
        Ok((runs, end)) => Ok((BlockView::Heading { level, runs }, skip_line_break(tokens, end))),
    }
}

/// The paragraph that begins at `pos`: its runs to the next blank line or
/// to the end of the input. The line end behind it is consumed.
pub open spec fn spec_paragraph(tokens: Seq<TokenView>, pos: int) -> Result<
    (BlockView, int),
    ParseError,
> {
    match spec_runs(tokens, pos, Closer::End, Flow::Paragraph, Seq::empty()) {
        Err(e) => Err(e),
        Ok((runs, end)) => Ok((BlockView::Paragraph(runs), skip_line_break(tokens, end))),
    }
}

/// The list whose first item begins at `pos`.
pub open spec fn spec_list(tokens: Seq<TokenView>, pos: int) -> Result<
    (BlockView, int),
    ParseError,
> {
    match spec_items(tokens, pos, false, Seq::empty()) {
        Err(e) => Err(e),
        Ok((items, end)) => Ok((BlockView::List { ordered: false, items }, end)),
    }
}

/// The fenced code block whose opening `Backtick(3)` stands at `pos`, with
/// a line end behind it. Of that line end only the first newline belongs to
/// the fence; the others are content. The line end behind the closing fence
/// is consumed.
pub open spec fn spec_code_block(tokens: Seq<TokenView>, pos: int) -> Result<
    (BlockView, int),
    ParseError,
> {
    let blank = match token_at(tokens, pos + 1) {
        TokenView::Newline(n) => (n - 1) as nat,
        _ => 0,
    };
    match spec_fence(tokens, pos + 2, repeated('\n', blank)) {
        Err(e) => Err(e),
        Ok((content, end)) => Ok((BlockView::Code { content }, skip_line_break(tokens, end))),
    }
}

/// The block quote whose first `RightAngleBracket` stands at `pos`: the
/// blocks of its body. The line end behind its last line is consumed.
pub open spec fn spec_quote(tokens: Seq<TokenView>, pos: int) -> Result<
    (BlockView, int),
    ParseError,
>
    decreases tokens.len() - pos, 0int,
{
    let quote = quote_lines(tokens, pos, true, Seq::empty(), Seq::empty());
    if 0 <= pos < tokens.len() {
        proof {
            lemma_quote_lines(tokens, pos, true, Seq::empty(), Seq::empty());
        }
        match spec_blocks(quote.body, 0, Seq::empty()) {
            Err(e) => Err(quote_error(tokens, quote.origin, quote.end, e)),
            Ok((blocks, _)) => Ok((BlockView::Quote(blocks), skip_line_break(tokens, quote.end))),
        }
    } else {
        Ok((BlockView::Quote(Seq::empty()), pos))
    }
}

/// The block that begins at `pos`, and the cursor behind it.
///
/// - `Hash(n)` with `n` from 1 to 6, then `Whitespace`: a heading of level
///   `n`.
/// - `Dash(1)`, `Plus`, or `Star(1)` before `Whitespace`: a list.
/// - `RightAngleBracket`: a block quote.
/// - `Backtick(3)`, then a line end: a fenced code block.
/// - `Dash(3)`, then the end of the line: a horizontal rule.
/// - `VerticalLine`: a table.
/// - Anything else: a paragraph.
pub open spec fn spec_block(tokens: Seq<TokenView>, pos: int) -> Result<
    (BlockView, int),
    ParseError,
>
    decreases tokens.len() - pos, 1int,
{
    let t = token_at(tokens, pos);
    let next = token_at(tokens, pos + 1);
    match t {
        TokenView::Hash(n) if 1 <= n <= 6 && next is Whitespace => spec_heading(
            tokens,
            pos,
            n as u8,
        ),
        TokenView::RightAngleBracket => spec_quote(tokens, pos),
        TokenView::Backtick(n) if n == 3 && is_line_break(next) => spec_code_block(tokens, pos),
        TokenView::Dash(n) if n == 3 && ends_line(next) => Ok(
            (BlockView::HorizontalRule, skip_line_break(tokens, pos + 1)),
        ),
        TokenView::VerticalLine => spec_table(tokens, pos),
        _ => if item_at(tokens, pos) {
            spec_list(tokens, pos)
        } else {
            spec_paragraph(tokens, pos)
        },
    }
}

/// The blocks from `pos` to the first `Eof`, added to `acc`, and the index
/// of that `Eof`. Blank lines between blocks separate them and make no block.
pub open spec fn spec_blocks(tokens: Seq<TokenView>, pos: int, acc: Seq<BlockView>) -> Result<
    (Seq<BlockView>, int),
    ParseError,
>
    decreases tokens.len() - pos, 2int,
{
    let t = token_at(tokens, pos);
    if t is Eof {
        Ok((acc, pos))
    } else if is_blank_line(t) {
        spec_blocks(tokens, pos + 1, acc)
    } else {
        match spec_block(tokens, pos) {
            Err(e) => Err(e),
            Ok((block, next)) => spec_blocks(tokens, forward(tokens, pos, next), acc.push(block)),
        }
    }
}

/// The document that begins at `pos`: front matter, then blocks; and the
/// index of the `Eof` that ends it.
pub open spec fn spec_document(tokens: Seq<TokenView>, pos: int) -> Result<
    (MarkdownView, int),
    ParseError,
> {
    match spec_front_matter(tokens, pos) {
        Err(e) => Err(e),
        Ok((front_matter, next)) => match spec_blocks(tokens, next, Seq::empty()) {
            Err(e) => Err(e),
            Ok((content, end)) => Ok((MarkdownView { front_matter, content }, end)),
        },
    }
}

} // verus!
