//! Recursive descent over a token sequence.
//!
//! The parser holds one cursor that only moves forward. Each method reads
//! one construct at the cursor and is specified by the function of the
//! grammar that describes that construct.

use crate::error::{ParseError, ParseErrorKind};
use crate::grammar::{
    closes, delimiter_at, emphasis, ends_flow, ends_line, error_at, forward, indent, is_line_break,
    item_at, join_line, lemma_quote_lines, plain_text, push_break, quote_error, quote_lines,
    row_follows, run_text, skip_line_break, space_suffix, spaces_behind, spec_block, spec_blocks,
    spec_body, spec_cells, spec_code_block, spec_code_span, spec_document, spec_entries, spec_fence,
    spec_front_matter, spec_heading, spec_items, spec_link, spec_link_target, spec_list,
    spec_paragraph, spec_quote, spec_runs, spec_separator, spec_table, sublist, token_at, Closer,
    Flow, QuoteLines,
};
use crate::invariants::lemma_document;
use crate::markdown::{
    block_views, cell_views, item_views, row_views, run_views, Block, BlockView, FrontMatter,
    ListItem, ListItemView, Markdown, MarkdownView, Run, RunView, TCell, TRow, TRowView,
};
use crate::scanner::{token_views, Token, TokenView};
use crate::size::blocks_size;
use crate::text::{find, push_repeated, repeated, to_chars, trimmed_string};
use vstd::prelude::*;

verus! {

/// A cursor into a token sequence.
pub struct Parser<'a> {
    tokens: &'a [Token],
    current_pos: usize,
}

/// Whether `token` is the one that `closer` waits for.
fn is_closer(closer: Closer, token: &Token) -> (b: bool)
    ensures
        b == closes(closer, token@),
{
    match closer {
        Closer::End => false,
        Closer::Pipe => matches!(token, Token::VerticalLine),
        Closer::Italic => match token {
            Token::Star(n) => *n == 1,
            _ => false,
        },
        Closer::Bold => match token {
            Token::Star(n) => *n == 2,
            _ => false,
        },
        Closer::BoldItalic => match token {
            Token::Star(n) => *n == 3,
            _ => false,
        },
        Closer::Bracket => matches!(token, Token::RightBracket),
    }
}

/// Whether `token` ends a line.
fn is_line_end(token: &Token) -> (b: bool)
    ensures
        b == ends_line(token@),
{
    match token {
        Token::Eof => true,
        Token::Newline(n) => *n >= 1,
        _ => false,
    }
}

/// `n`, counted up to two.
spec fn up_to_two(n: nat) -> nat {
    if n < 2 {
        n
    } else {
        2
    }
}

/// How many spaces end `text`, counted up to two, and whether `text` is
/// nothing but spaces.
fn measure(text: &str) -> (r: (u8, bool))
    ensures
        r.0 == up_to_two(space_suffix(text@)),
        r.1 == (space_suffix(text@) == text@.len()),
{
    let mut spaces: u8 = 0;
    let mut blank: bool = true;
    for c in it: text.chars()
        invariant
            it.seq() == text@,
            spaces == up_to_two(space_suffix(text@.take(it.index() as int))),
            blank == (space_suffix(text@.take(it.index() as int)) == it.index()),
    {
        proof {
            let before = text@.take(it.index() as int);
            let after = text@.take(it.index() + 1);
            assert(after.last() == c);
            assert(after.drop_last() =~= before);
            lemma_space_suffix(before);
        }
        if c == ' ' {
            if spaces < 2 {
                spaces += 1;
            }
        } else {
            spaces = 0;
            blank = false;
        }
    }
    assert(text@.take(text@.len() as int) =~= text@);
    (spaces, blank)
}

/// No more spaces end a text than it has characters.
proof fn lemma_space_suffix(text: Seq<char>)
    ensures
        space_suffix(text) <= text.len(),
    decreases text.len(),
{
    if text.len() > 0 && text.last() == ' ' {
        lemma_space_suffix(text.drop_last());
    }
}

/// Adds a run of `text` to `runs`. `tail` tells how many spaces end `runs`,
/// counted up to two, and the result how many end them then.
fn add_text(runs: &mut Vec<Run>, text: &str, tail: u8) -> (after: u8)
    requires
        tail == up_to_two(spaces_behind(run_views(old(runs)@))),
    ensures
        run_views(final(runs)@) == run_views(old(runs)@).push(RunView::Text(text@)),
        after == up_to_two(spaces_behind(run_views(final(runs)@))),
{
    let (spaces, blank) = measure(text);
    runs.push(Run::Text(String::from_str(text)));
    proof {
        let before = run_views(old(runs)@);
        let now = run_views(runs@);
        assert(now =~= before.push(RunView::Text(text@)));
        assert(now.drop_last() =~= before);
        assert(now.last() == RunView::Text(text@));
        lemma_space_suffix(text@);
    }
    if !blank {
        spaces
    } else if spaces >= 2 || tail >= 2 {
        2
    } else {
        spaces + tail
    }
}

/// Adds a single newline to `runs`: a line break where two or more spaces
/// end the runs before it, a run of one space otherwise. `tail` tells how
/// many spaces end `runs`, counted up to two, and the result how many end
/// them then.
fn add_break(runs: &mut Vec<Run>, tail: u8) -> (after: u8)
    requires
        tail == up_to_two(spaces_behind(run_views(old(runs)@))),
    ensures
        run_views(final(runs)@) == push_break(run_views(old(runs)@)),
        after == up_to_two(spaces_behind(run_views(final(runs)@))),
{
    if tail >= 2 {
        runs.push(Run::LineBreak);
        proof {
            let before = run_views(old(runs)@);
            let now = run_views(runs@);
            assert(now =~= before.push(RunView::LineBreak));
            assert(now.last() == RunView::LineBreak);
        }
        0
    } else {
        proof {
            reveal_strlit(" ");
            assert(" "@ =~= seq![' ']);
        }
        add_text(runs, " ", tail)
    }
}

/// The text of `runs` with all markup removed, appended to `out`.
fn write_plain_text(runs: &Vec<Run>, out: &mut String)
    ensures
        final(out)@ == old(out)@ + plain_text(run_views(runs@)),
    decreases runs,
{
    let mut i: usize = 0;
    assert(run_views(runs@).take(0) =~= Seq::<RunView>::empty());
    while i < runs.len()
        invariant
            i <= runs.len(),
            out@ == old(out)@ + plain_text(run_views(runs@).take(i as int)),
        decreases runs.len() - i,
    {
        let ghost before = out@;
        match &runs[i] {
            Run::Text(text) => out.append(text.as_str()),
            Run::Bold(inner) => write_plain_text(inner, out),
            Run::Italic(inner) => write_plain_text(inner, out),
            Run::Link { inner, .. } => write_plain_text(inner, out),
            Run::Image { alt, .. } => out.append(alt.as_str()),
            Run::Code(text) => out.append(text.as_str()),
            Run::LineBreak => {},
        }
        proof {
            let views = run_views(runs@);
            assert(views.take(i + 1).drop_last() =~= views.take(i as int));
            assert(views.take(i + 1).last() == runs@[i as int]@);
            assert(out@ =~= before + run_text(runs@[i as int]@));
        }
        i += 1;
    }
    assert(run_views(runs@).take(runs.len() as int) =~= run_views(runs@));
}

/// The indices held in a vector, as integers.
spec fn indices(origin: Seq<usize>) -> Seq<int> {
    Seq::new(origin.len(), |i: int| origin[i] as int)
}

/// A slice is no longer than `usize::MAX`.
proof fn lemma_bounded(tokens: &[Token])
    ensures
        tokens@.len() <= usize::MAX,
{
    assert(tokens@.len() == vstd::slice::spec_slice_len(tokens));
}

impl<'a> Parser<'a> {
    /// The values of the tokens being parsed.
    pub closed spec fn input(&self) -> Seq<TokenView> {
        token_views(self.tokens@)
    }

    /// The index of the token at the cursor.
    pub closed spec fn position(&self) -> int {
        self.current_pos as int
    }

    #[verifier::type_invariant]
    spec fn within_input(&self) -> bool {
        self.current_pos <= self.tokens@.len()
    }

    /// A parser at the start of `tokens`.
    pub fn new(tokens: &'a [Token]) -> (parser: Self)
        ensures
            parser.input() == token_views(tokens@),
            parser.position() == 0,
    {
        Self { tokens, current_pos: 0 }
    }

    /// Parses the document that begins at the cursor: the front matter, if
    /// there is one, and the blocks up to `Eof`. The first violation of the
    /// grammar is returned, and no document. A document that is returned is
    /// well formed and has at most four nodes for each token read, and the
    /// cursor then stands on the `Eof` that ends it; after an error the cursor
    /// stands where it stood.
    pub fn parse(&mut self) -> (r: Result<Markdown, ParseError>)
        ensures
            final(self).input() == old(self).input(),
            match r {
                Ok(document) => {
                    let end = final(self).position();
                    &&& spec_document(old(self).input(), old(self).position()) == Ok::<
                        _,
                        ParseError,
                    >((document@, end))
                    &&& old(self).position() <= end <= old(self).input().len()
                    &&& document@.well_formed()
                    &&& blocks_size(document@.content) <= 4 * (end - old(self).position())
                    &&& document@.front_matter.len() <= end - old(self).position()
                },
                Err(e) => {
                    &&& spec_document(old(self).input(), old(self).position()) == Err::<
                        (MarkdownView, int),
                        _,
                    >(e)
                    &&& final(self).position() == old(self).position()
                },
            },
    {
        proof {
            use_type_invariant(&*self);
            lemma_document(self.input(), self.position());
            crate::size::lemma_document(self.input(), self.position());
        }
        let start: usize = self.current_pos;
        let front_matter = match self.front_matter() {
            Ok(table) => table,
            Err(e) => {
                self.current_pos = start;
                return Err(e);
            },
        };
        match self.content() {
            Ok(content) => Ok(Markdown { front_matter, content }),
            Err(e) => {
                self.current_pos = start;
                Err(e)
            },
        }
    }

    /// The token `offset` places behind the cursor; `Eof` where the input
    /// has no such token.
    fn token_at(&self, offset: usize) -> (token: &'a Token)
        ensures
            token@ == token_at(self.input(), self.position() + offset),
            self.position() <= self.input().len() <= usize::MAX,
    {
        proof {
            use_type_invariant(self);
        }
        if offset < self.tokens.len() - self.current_pos {
            &self.tokens[self.current_pos + offset]
        } else {
            &Token::Eof
        }
    }

    /// The token at the cursor.
    fn current_token(&self) -> (token: &'a Token)
        ensures
            token@ == token_at(self.input(), self.position()),
            self.position() <= self.input().len() <= usize::MAX,
    {
        self.token_at(0)
    }

    /// Whether the cursor stands on `Eof`.
    fn is_at_end(&self) -> (b: bool)
        ensures
            b == (token_at(self.input(), self.position()) is Eof),
    {
        matches!(self.current_token(), Token::Eof)
    }

    /// Moves the cursor over the token it stands on and returns that token.
    /// The cursor does not move over `Eof`.
    fn advance(&mut self) -> (token: &'a Token)
        ensures
            final(self).tokens == old(self).tokens,
            token@ == token_at(old(self).input(), old(self).position()),
            final(self).position() == if token@ is Eof {
                old(self).position()
            } else {
                old(self).position() + 1
            },
    {
        let token = self.current_token();
        if !matches!(token, Token::Eof) {
            self.current_pos += 1;
        }
        token
    }

    /// An error of the given kind at token `pos`.
    fn error(&self, pos: usize, kind: ParseErrorKind) -> (e: ParseError)
        ensures
            e == error_at(self.input(), pos as int, kind),
    {
        ParseError {
            kind,
            position: if pos < self.tokens.len() {
                Some(pos)
            } else {
                None
            },
        }
    }

    /// Whether text that flows as `flow` says ends at the cursor.
    fn at_flow_end(&self, flow: Flow) -> (b: bool)
        ensures
            b == ends_flow(self.input(), self.position(), flow),
    {
        match self.current_token() {
            Token::Eof => true,
            Token::Newline(n) => *n >= 2 || (*n == 1 && (matches!(flow, Flow::Line) || matches!(
                self.token_at(1),
                Token::Eof
            ))),
            _ => false,
        }
    }

    /// The token before the cursor.
    fn prev_token(&self) -> (token: &'a Token)
        requires
            self.position() >= 1,
        ensures
            token@ == token_at(self.input(), self.position() - 1),
    {
        proof {
            use_type_invariant(self);
        }
        &self.tokens[self.current_pos - 1]
    }

    /// Moves the cursor over the token it stands on if that is `expected`.
    fn consume(&mut self, expected: &Token, kind: ParseErrorKind) -> (r: Result<(), ParseError>)
        requires
            !(expected@ is Eof),
        ensures
            final(self).tokens == old(self).tokens,
            match r {
                Ok(_) => token_at(old(self).input(), old(self).position()) == expected@
                    && final(self).position() == old(self).position() + 1,
                Err(e) => token_at(old(self).input(), old(self).position()) != expected@
                    && final(self).position() == old(self).position() && e == error_at(
                    old(self).input(),
                    old(self).position(),
                    kind,
                ),
            },
    {
        if expected.same(self.current_token()) {
            self.advance();
            Ok(())
        } else {
            Err(self.error(self.current_pos, kind))
        }
    }

    /// Moves the cursor over the line end it stands on, if it stands on one.
    fn skip_line_break(&mut self)
        ensures
            final(self).tokens == old(self).tokens,
            final(self).position() == skip_line_break(old(self).input(), old(self).position()),
    {
        let at_break: bool = match self.current_token() {
            Token::Newline(n) => *n >= 1,
            _ => false,
        };
        if at_break {
            self.current_pos += 1;
        }
    }

    /// Reads the front matter, if the cursor stands on its opening delimiter.
    fn front_matter(&mut self) -> (r: Result<FrontMatter, ParseError>)
        ensures
            final(self).tokens == old(self).tokens,
            match r {
                Ok(table) => spec_front_matter(old(self).input(), old(self).position())
                    == Ok::<_, ParseError>((table@, final(self).position())),
                Err(e) => spec_front_matter(old(self).input(), old(self).position()) == Err::<
                    (Map<Seq<char>, Seq<char>>, int),
                    _,
                >(e),
            },
    {
        let mut table = FrontMatter::new();
        if !self.at_delimiter() {
            return Ok(table);
        }
        proof {
            lemma_bounded(self.tokens);
        }
        self.current_pos += 2;
        loop
            invariant
                self.tokens == old(self).tokens,
                delimiter_at(old(self).input(), old(self).position()),
                spec_entries(self.input(), self.position(), table@) == spec_entries(
                    old(self).input(),
                    old(self).position() + 2,
                    Map::empty(),
                ),
            ensures
                self.tokens == old(self).tokens,
                spec_entries(old(self).input(), old(self).position() + 2, Map::empty())
                    == Ok::<_, ParseError>((table@, self.position())),
            decreases self.tokens@.len() - self.current_pos,
        {
            match self.current_token() {
                Token::Text(line) => {
                    let chars = to_chars(line.as_str());
                    let colon: usize = find(&chars, ':');
                    if colon >= chars.len() {
                        return Err(
                            self.error(self.current_pos, ParseErrorKind::InvalidFrontMatter),
                        );
                    }
                    let key = trimmed_string(&chars, 0, colon);
                    let value = trimmed_string(&chars, colon + 1, chars.len());
                    proof {
                        assert(chars@.subrange(0, colon as int) =~= line@.take(colon as int));
                        assert(chars@.subrange(colon + 1, chars@.len() as int) =~= line@.skip(
                            colon + 1,
                        ));
                    }
                    let single: bool = match self.token_at(1) {
                        Token::Newline(n) => *n == 1,
                        _ => false,
                    };
                    if !single {
                        return Err(
                            self.error(self.current_pos + 1, ParseErrorKind::InvalidFrontMatter),
                        );
                    }
                    table.insert(key, value);
                    self.current_pos += 2;
                },
                _ => {
                    break ;
                },
            }
        }
        self.consume(&Token::Dash(3), ParseErrorKind::InvalidFrontMatter)?;
        self.consume(&Token::Newline(1), ParseErrorKind::InvalidFrontMatter)?;
        Ok(table)
    }

    /// Whether `Dash(3)` and `Newline(1)` stand at the cursor.
    fn at_delimiter(&self) -> (b: bool)
        ensures
            b == delimiter_at(self.input(), self.position()),
    {
        let dashes: bool = match self.current_token() {
            Token::Dash(n) => *n == 3,
            _ => false,
        };
        let newline: bool = match self.token_at(1) {
            Token::Newline(n) => *n == 1,
            _ => false,
        };
        dashes && newline
    }

    /// Reads a heading of the given level; the cursor stands on its `Hash`.
    fn heading(&mut self, level: u8) -> (r: Result<Block, ParseError>)
        requires
            old(self).position() + 2 <= old(self).input().len(),
        ensures
            final(self).tokens == old(self).tokens,
            match r {
                Ok(block) => spec_heading(old(self).input(), old(self).position(), level)
                    == Ok::<_, ParseError>((block@, final(self).position()))
                    && final(self).position() > old(self).position(),
                Err(e) => spec_heading(old(self).input(), old(self).position(), level) == Err::<
                    (BlockView, int),
                    _,
                >(e),
            },
    {
        proof {
            lemma_bounded(self.tokens);
        }
        self.current_pos += 2;
        let runs = self.runs(Closer::End, Flow::Line)?;
        self.skip_line_break();
        Ok(Block::Heading { level, runs })
    }

    /// Reads a paragraph.
    fn paragraph(&mut self) -> (r: Result<Block, ParseError>)
        ensures
            final(self).tokens == old(self).tokens,
            match r {
                Ok(block) => spec_paragraph(old(self).input(), old(self).position())
                    == Ok::<_, ParseError>((block@, final(self).position()))
                    && final(self).position() >= old(self).position() && (final(self).position()
                    > old(self).position() || token_at(old(self).input(), old(self).position())
                    is Eof),
                Err(e) => spec_paragraph(old(self).input(), old(self).position()) == Err::<
                    (BlockView, int),
                    _,
                >(e),
            },
    {
        let runs = self.runs(Closer::End, Flow::Paragraph)?;
        self.skip_line_break();
        Ok(Block::Paragraph(runs))
    }

    /// Reads a fenced code block; the cursor stands on its opening
    /// `Backtick(3)`, which a line end follows.
    fn code_block(&mut self) -> (r: Result<Block, ParseError>)
        requires
            is_line_break(token_at(old(self).input(), old(self).position() + 1)),
        ensures
            final(self).tokens == old(self).tokens,
            match r {
                Ok(block) => spec_code_block(old(self).input(), old(self).position())
                    == Ok::<_, ParseError>((block@, final(self).position()))
                    && final(self).position() > old(self).position(),
                Err(e) => spec_code_block(old(self).input(), old(self).position()) == Err::<
                    (BlockView, int),
                    _,
                >(e),
            },
    {
        let newlines: usize = match self.token_at(1) {
            Token::Newline(n) => *n,
            _ => 1,
        };
        let mut content = String::new();
        push_repeated(&mut content, '\n', newlines - 1);
        assert(content@ =~= repeated('\n', (newlines - 1) as nat));
        self.current_pos += 2;
        loop
            invariant_except_break
                spec_fence(self.input(), self.position(), content@) == spec_fence(
                    old(self).input(),
                    old(self).position() + 2,
                    repeated('\n', (newlines - 1) as nat),
                ),
            invariant
                self.tokens == old(self).tokens,
                old(self).current_pos + 2 <= self.current_pos,
                token_at(old(self).input(), old(self).position() + 1) == TokenView::Newline(
                    newlines as nat,
                ),
                newlines >= 1,
            ensures
                self.tokens == old(self).tokens,
                old(self).current_pos + 2 < self.current_pos,
                spec_fence(
                    old(self).input(),
                    old(self).position() + 2,
                    repeated('\n', (newlines - 1) as nat),
                ) == Ok::<_, ParseError>((content@, self.position())),
            decreases self.tokens@.len() - self.current_pos,
        {
            let token = self.current_token();
            if matches!(token, Token::Eof) {
                return Err(self.error(self.current_pos, ParseErrorKind::UnterminatedCodeFence));
            }
            let fence: bool = match token {
                Token::Backtick(n) => *n == 3,
                _ => false,
            };
            if fence && matches!(self.prev_token(), Token::Newline(_)) && is_line_end(
                self.token_at(1),
            ) {
                self.current_pos += 1;
                break ;
            }
            token.write_source(&mut content);
            self.current_pos += 1;
        }
        self.skip_line_break();
        Ok(Block::Code { content })
    }

    /// How many `Whitespace` tokens stand at the cursor without interruption.
    fn indent(&self) -> (n: usize)
        ensures
            n == indent(self.input(), self.position()),
            self.position() + n <= self.input().len() <= usize::MAX,
    {
        proof {
            use_type_invariant(self);
            lemma_bounded(self.tokens);
        }
        let mut n: usize = 0;
        while self.current_pos + n < self.tokens.len() && matches!(
            self.tokens[self.current_pos + n],
            Token::Whitespace
        )
            invariant
                self.current_pos + n <= self.tokens@.len() <= usize::MAX,
                n + indent(self.input(), self.position() + n) == indent(
                    self.input(),
                    self.position(),
                ),
            decreases self.tokens@.len() - self.current_pos - n,
        {
            n += 1;
        }
        n
    }

    /// Reads the items of a list from the line at the cursor on: indented
    /// ones with `nested`, others without.
    fn items(&mut self, nested: bool) -> (r: Result<Vec<ListItem>, ParseError>)
        ensures
            final(self).tokens == old(self).tokens,
            match r {
                Ok(items) => spec_items(
                    old(self).input(),
                    old(self).position(),
                    nested,
                    Seq::empty(),
                ) == Ok::<_, ParseError>((item_views(items@), final(self).position()))
                    && final(self).position() >= old(self).position() && (!nested && item_at(
                    old(self).input(),
                    old(self).position(),
                ) ==> final(self).position() > old(self).position()),
                Err(e) => spec_items(old(self).input(), old(self).position(), nested, Seq::empty())
                    == Err::<(Seq<ListItemView>, int), _>(e),
            },
        decreases old(self).tokens@.len() - old(self).current_pos,
    {
        let mut items: Vec<ListItem> = Vec::new();
        assert(item_views(items@) =~= Seq::<ListItemView>::empty());
        loop
            invariant
                self.tokens == old(self).tokens,
                old(self).current_pos <= self.current_pos,
                spec_items(self.input(), self.position(), nested, item_views(items@))
                    == spec_items(old(self).input(), old(self).position(), nested, Seq::empty()),
                self.current_pos == old(self).current_pos ==> items@.len() == 0,
            decreases self.tokens@.len() - self.current_pos,
        {
            let depth: usize = self.indent();
            let marker = self.token_at(depth);
            let marked: bool = match marker {
                Token::Star(n) => *n == 1,
                Token::Dash(n) => *n == 1,
                Token::Plus => true,
                _ => false,
            };
            if !marked || nested != (depth >= 1) {
                return Ok(items);
            }
            let spaced: bool = matches!(self.token_at(depth + 1), Token::Whitespace);
            if !spaced && matches!(marker, Token::Star(_)) {
                return Ok(items);
            }
            let ghost before = item_views(items@);
            self.current_pos += depth + 1;
            if spaced {
                self.current_pos += 1;
            }
            let runs = self.runs(Closer::End, Flow::Line)?;
            let single: bool = match self.current_token() {
                Token::Newline(n) => *n == 1,
                _ => false,
            };
            let ghost shown = run_views(runs@);
            if !single {
                items.push(ListItem { runs, nested: None });
                assert(item_views(items@) =~= before.push(
                    ListItemView { runs: shown, nested: None },
                ));
                return Ok(items);
            }
            self.current_pos += 1;
            if nested {
                items.push(ListItem { runs, nested: None });
                assert(item_views(items@) =~= before.push(
                    ListItemView { runs: shown, nested: None },
                ));
            } else {
                let inner = self.items(true)?;
                let ghost under = item_views(inner@);
                let sub: Option<Block> = if inner.len() == 0 {
                    None
                } else {
                    Some(Block::List { ordered: false, items: inner })
                };
                items.push(ListItem { runs, nested: sub });
                assert(item_views(items@) =~= before.push(
                    ListItemView { runs: shown, nested: sublist(under) },
                ));
            }
            proof {
                use_type_invariant(&*self);
            }
        }
    }

    /// Reads a list; the cursor stands on the marker of its first item.
    fn list(&mut self) -> (r: Result<Block, ParseError>)
        requires
            item_at(old(self).input(), old(self).position()),
        ensures
            final(self).tokens == old(self).tokens,
            match r {
                Ok(block) => spec_list(old(self).input(), old(self).position())
                    == Ok::<_, ParseError>((block@, final(self).position()))
                    && final(self).position() > old(self).position(),
                Err(e) => spec_list(old(self).input(), old(self).position()) == Err::<
                    (BlockView, int),
                    _,
                >(e),
            },
    {
        let items = self.items(false)?;
        Ok(Block::List { ordered: false, items })
    }

    /// Reads the cells of a table row up to the end of the line.
    fn cells(&mut self) -> (r: Result<Vec<TCell>, ParseError>)
        ensures
            final(self).tokens == old(self).tokens,
            match r {
                Ok(cells) => spec_cells(old(self).input(), old(self).position(), Seq::empty())
                    == Ok::<_, ParseError>((cell_views(cells@), final(self).position()))
                    && final(self).position() >= old(self).position(),
                Err(e) => spec_cells(old(self).input(), old(self).position(), Seq::empty())
                    == Err::<(Seq<Seq<RunView>>, int), _>(e),
            },
    {
        let mut cells: Vec<TCell> = Vec::new();
        assert(cell_views(cells@) =~= Seq::<Seq<RunView>>::empty());
        loop
            invariant
                self.tokens == old(self).tokens,
                old(self).current_pos <= self.current_pos,
                spec_cells(self.input(), self.position(), cell_views(cells@)) == spec_cells(
                    old(self).input(),
                    old(self).position(),
                    Seq::empty(),
                ),
            decreases self.tokens@.len() - self.current_pos,
        {
            if is_line_end(self.current_token()) {
                return Ok(cells);
            }
            let ghost before = cell_views(cells@);
            let runs = self.runs(Closer::Pipe, Flow::Line)?;
            let ghost shown = run_views(runs@);
            cells.push(TCell(runs));
            proof {
                use_type_invariant(&*self);
                assert(cell_views(cells@) =~= before.push(shown));
            }
        }
    }

    /// Reads a separator row behind its first `VerticalLine`, up to the end
    /// of the line.
    fn separator(&mut self) -> (r: Result<(), ParseError>)
        ensures
            final(self).tokens == old(self).tokens,
            match r {
                Ok(_) => spec_separator(old(self).input(), old(self).position()) == Ok::<
                    _,
                    ParseError,
                >(final(self).position()) && final(self).position() >= old(self).position(),
                Err(e) => spec_separator(old(self).input(), old(self).position()) == Err::<int, _>(
                    e,
                ),
            },
    {
        loop
            invariant
                self.tokens == old(self).tokens,
                old(self).current_pos <= self.current_pos,
                spec_separator(self.input(), self.position()) == spec_separator(
                    old(self).input(),
                    old(self).position(),
                ),
            decreases self.tokens@.len() - self.current_pos,
        {
            let token = self.current_token();
            if is_line_end(token) {
                return Ok(());
            }
            match token {
                Token::VerticalLine | Token::Dash(_) | Token::Whitespace => {
                    self.current_pos += 1;
                },
                _ => {
                    return Err(self.error(self.current_pos, ParseErrorKind::MalformedTableRow));
                },
            }
        }
    }

    /// Whether `Newline(1)` and `VerticalLine` stand at the cursor.
    fn at_next_row(&self) -> (b: bool)
        ensures
            b == row_follows(self.input(), self.position()),
            b ==> self.position() + 2 <= self.input().len() <= usize::MAX,
    {
        let single: bool = match self.current_token() {
            Token::Newline(n) => *n == 1,
            _ => false,
        };
        single && matches!(self.token_at(1), Token::VerticalLine)
    }

    /// Reads a table; the cursor stands on its first `VerticalLine`.
    fn table(&mut self) -> (r: Result<Block, ParseError>)
        requires
            token_at(old(self).input(), old(self).position()) is VerticalLine,
        ensures
            final(self).tokens == old(self).tokens,
            match r {
                Ok(block) => spec_table(old(self).input(), old(self).position())
                    == Ok::<_, ParseError>((block@, final(self).position()))
                    && final(self).position() > old(self).position(),
                Err(e) => spec_table(old(self).input(), old(self).position()) == Err::<
                    (BlockView, int),
                    _,
                >(e),
            },
    {
        proof {
            lemma_bounded(self.tokens);
        }
        let ghost goal = spec_table(self.input(), self.position());
        self.current_pos += 1;
        let head = self.cells()?;
        let width: usize = head.len();
        let thead = TRow { heading: true, cells: head };
        let mut tbody: Vec<TRow> = Vec::new();
        assert(row_views(tbody@) =~= Seq::<TRowView>::empty());
        if self.at_next_row() {
            self.current_pos += 2;
            self.separator()?;
            let ghost behind = self.position();
            loop
                invariant
                    self.tokens == old(self).tokens,
                    old(self).current_pos < self.current_pos,
                    spec_body(self.input(), self.position(), width as nat, row_views(tbody@))
                        == spec_body(self.input(), behind, width as nat, Seq::empty()),
                    goal == spec_table(old(self).input(), old(self).position()),
                    goal == match spec_body(self.input(), behind, width as nat, Seq::empty()) {
                        Err(e) => Err(e),
                        Ok((rows, next)) => Ok(
                            (
                                BlockView::Table { thead: thead@, tbody: rows },
                                skip_line_break(self.input(), next),
                            ),
                        ),
                    },
                ensures
                    self.tokens == old(self).tokens,
                    old(self).current_pos < self.current_pos,
                    spec_body(self.input(), behind, width as nat, Seq::empty()) == Ok::<
                        _,
                        ParseError,
                    >((row_views(tbody@), self.position())),
                decreases self.tokens@.len() - self.current_pos,
            {
                if !self.at_next_row() {
                    break ;
                }
                let row: usize = self.current_pos + 1;
                self.current_pos += 2;
                let cells = self.cells()?;
                if cells.len() != width {
                    return Err(self.error(row, ParseErrorKind::MalformedTableRow));
                }
                let ghost before = row_views(tbody@);
                let ghost shown = cell_views(cells@);
                tbody.push(TRow { heading: false, cells });
                proof {
                    use_type_invariant(&*self);
                    assert(row_views(tbody@) =~= before.push(
                        TRowView { heading: false, cells: shown },
                    ));
                }
            }
        }
        self.skip_line_break();
        Ok(Block::Table { thead, tbody })
    }

    /// Gathers the body of a block quote; the cursor stands on its first
    /// `RightAngleBracket` and is left at the end of the quote. The second
    /// vector holds, for each token of the body, the index it comes from.
    fn quote_lines(&mut self) -> (r: (Vec<Token>, Vec<usize>))
        requires
            token_at(old(self).input(), old(self).position()) is RightAngleBracket,
        ensures
            final(self).tokens == old(self).tokens,
            quote_lines(
                old(self).input(),
                old(self).position(),
                true,
                Seq::empty(),
                Seq::empty(),
            ) == (QuoteLines {
                body: token_views(r.0@),
                origin: indices(r.1@),
                end: final(self).position(),
            }),
    {
        let mut body: Vec<Token> = Vec::new();
        let mut origin: Vec<usize> = Vec::new();
        let mut line_start: bool = true;
        proof {
            lemma_bounded(self.tokens);
            assert(indices(origin@) =~= Seq::<int>::empty());
            assert(token_views(body@) =~= Seq::<TokenView>::empty());
        }
        loop
            invariant
                self.tokens == old(self).tokens,
                self.tokens@.len() <= usize::MAX,
                line_start ==> token_at(self.input(), self.position()) is RightAngleBracket,
                body@.len() > 0 ==> match body@.last() {
                    Token::Newline(n) => n <= self.current_pos,
                    _ => true,
                },
                quote_lines(
                    self.input(),
                    self.position(),
                    line_start,
                    token_views(body@),
                    indices(origin@),
                ) == quote_lines(
                    old(self).input(),
                    old(self).position(),
                    true,
                    Seq::empty(),
                    Seq::empty(),
                ),
            ensures
                quote_lines(
                    old(self).input(),
                    old(self).position(),
                    true,
                    Seq::empty(),
                    Seq::empty(),
                ) == (QuoteLines {
                    body: token_views(body@),
                    origin: indices(origin@),
                    end: self.position(),
                }),
            decreases self.tokens@.len() - self.current_pos, (if line_start { 1int } else { 0int }),
        {
            let token = self.current_token();
            let ghost shown = token_views(body@);
            let ghost from = indices(origin@);
            if line_start {
                if matches!(self.token_at(1), Token::Whitespace) {
                    self.current_pos += 2;
                } else {
                    self.current_pos += 1;
                }
                line_start = false;
            } else {
                match token {
                    Token::Eof => {
                        break ;
                    },
                    Token::Newline(n) => {
                        if *n != 1 || !matches!(self.token_at(1), Token::RightAngleBracket) {
                            break ;
                        }
                        match body.pop() {
                            Some(Token::Newline(lines)) => {
                                body.push(Token::Newline(lines + 1));
                            },
                            Some(other) => {
                                body.push(other);
                                body.push(Token::Newline(1));
                                origin.push(self.current_pos);
                            },
                            None => {
                                body.push(Token::Newline(1));
                                origin.push(self.current_pos);
                            },
                        }
                        proof {
                            let joined = join_line(shown, from, self.position());
                            assert(token_views(body@) =~= joined.0);
                            assert(indices(origin@) =~= joined.1);
                        }
                        line_start = true;
                        self.current_pos += 1;
                    },
                    _ => {
                        body.push(token.duplicate());
                        origin.push(self.current_pos);
                        proof {
                            assert(token_views(body@) =~= shown.push(token@));
                            assert(indices(origin@) =~= from.push(self.position()));
                        }
                        self.current_pos += 1;
                    },
                }
            }
        }
        (body, origin)
    }

    /// An error from the body of a block quote, with its position in the
    /// input of this parser.
    fn quote_error(&self, origin: &Vec<usize>, end: usize, e: ParseError) -> (mapped: ParseError)
        ensures
            mapped == quote_error(self.input(), indices(origin@), end as int, e),
    {
        match e.position {
            Some(p) => {
                if p < origin.len() {
                    self.error(origin[p], e.kind)
                } else {
                    self.error(end, e.kind)
                }
            },
            None => self.error(end, e.kind),
        }
    }

    /// Reads a block quote; the cursor stands on its first
    /// `RightAngleBracket`.
    fn blockquote(&mut self) -> (r: Result<Block, ParseError>)
        requires
            token_at(old(self).input(), old(self).position()) is RightAngleBracket,
        ensures
            final(self).tokens == old(self).tokens,
            match r {
                Ok(block) => spec_quote(old(self).input(), old(self).position())
                    == Ok::<_, ParseError>((block@, final(self).position()))
                    && final(self).position() > old(self).position(),
                Err(e) => spec_quote(old(self).input(), old(self).position()) == Err::<
                    (BlockView, int),
                    _,
                >(e),
            },
        decreases old(self).tokens@.len() - old(self).current_pos, 0int,
    {
        let (body, origin) = self.quote_lines();
        proof {
            lemma_quote_lines(
                old(self).input(),
                old(self).position(),
                true,
                Seq::empty(),
                Seq::empty(),
            );
        }
        let mut inner = Parser::new(body.as_slice());
        match inner.content() {
            Err(e) => Err(self.quote_error(&origin, self.current_pos, e)),
            Ok(blocks) => {
                self.skip_line_break();
                Ok(Block::Quote(blocks))
            },
        }
    }

    /// Reads the block at the cursor.
    fn block(&mut self) -> (r: Result<Block, ParseError>)
        ensures
            final(self).tokens == old(self).tokens,
            match r {
                Ok(block) => spec_block(old(self).input(), old(self).position())
                    == Ok::<_, ParseError>((block@, final(self).position()))
                    && final(self).position() >= old(self).position() && (final(self).position()
                    > old(self).position() || token_at(old(self).input(), old(self).position())
                    is Eof),
                Err(e) => spec_block(old(self).input(), old(self).position()) == Err::<
                    (BlockView, int),
                    _,
                >(e),
            },
        decreases old(self).tokens@.len() - old(self).current_pos, 1int,
    {
        let next = self.token_at(1);
        match self.current_token() {
            Token::Hash(n) => {
                if 1 <= *n && *n <= 6 && matches!(next, Token::Whitespace) {
                    return self.heading(*n as u8);
                }
            },
            Token::RightAngleBracket => {
                return self.blockquote();
            },
            Token::Backtick(n) => {
                let line_end: bool = match next {
                    Token::Newline(k) => *k >= 1,
                    _ => false,
                };
                if *n == 3 && line_end {
                    return self.code_block();
                }
            },
            Token::Dash(n) => {
                if *n == 3 && is_line_end(next) {
                    self.current_pos += 1;
                    self.skip_line_break();
                    return Ok(Block::HorizontalRule);
                }
            },
            Token::VerticalLine => {
                return self.table();
            },
            _ => {},
        }
        let item: bool = match self.current_token() {
            Token::Star(n) => *n == 1 && matches!(next, Token::Whitespace),
            Token::Dash(n) => *n == 1,
            Token::Plus => true,
            _ => false,
        };
        if item {
            self.list()
        } else {
            self.paragraph()
        }
    }

    /// Reads blocks up to `Eof`.
    fn content(&mut self) -> (r: Result<Vec<Block>, ParseError>)
        ensures
            final(self).tokens == old(self).tokens,
            match r {
                Ok(blocks) => spec_blocks(old(self).input(), old(self).position(), Seq::empty())
                    == Ok::<_, ParseError>((block_views(blocks@), final(self).position())),
                Err(e) => spec_blocks(old(self).input(), old(self).position(), Seq::empty())
                    == Err::<(Seq<BlockView>, int), _>(e),
            },
        decreases old(self).tokens@.len() - old(self).current_pos, 2int,
    {
        let mut blocks: Vec<Block> = Vec::new();
        assert(block_views(blocks@) =~= Seq::<BlockView>::empty());
        loop
            invariant
                self.tokens == old(self).tokens,
                old(self).current_pos <= self.current_pos,
                spec_blocks(self.input(), self.position(), block_views(blocks@)) == spec_blocks(
                    old(self).input(),
                    old(self).position(),
                    Seq::empty(),
                ),
            decreases self.tokens@.len() - self.current_pos,
        {
            if self.is_at_end() {
                return Ok(blocks);
            }
            let blank: bool = match self.current_token() {
                Token::Newline(n) => *n >= 2,
                _ => false,
            };
            if blank {
                self.current_pos += 1;
                continue ;
            }
            let ghost before = block_views(blocks@);
            let block = self.block()?;
            let ghost shown = block@;
            blocks.push(block);
            proof {
                use_type_invariant(&*self);
                assert(block_views(blocks@) =~= before.push(shown));
            }
        }
    }

    /// Reads the raw text of a code span up to its closing backtick.
    fn code_span(&mut self, flow: Flow) -> (r: Result<String, ParseError>)
        ensures
            final(self).tokens == old(self).tokens,
            match r {
                Ok(text) => spec_code_span(
                    old(self).input(),
                    old(self).position(),
                    flow,
                    Seq::empty(),
                ) == Ok::<_, ParseError>((text@, final(self).position()))
                    && final(self).position() > old(self).position(),
                Err(e) => spec_code_span(
                    old(self).input(),
                    old(self).position(),
                    flow,
                    Seq::empty(),
                ) == Err::<(Seq<char>, int), _>(e),
            },
    {
        let mut text = String::new();
        loop
            invariant
                self.tokens == old(self).tokens,
                old(self).current_pos <= self.current_pos,
                spec_code_span(self.input(), self.position(), flow, text@) == spec_code_span(
                    old(self).input(),
                    old(self).position(),
                    flow,
                    Seq::empty(),
                ),
            decreases self.tokens@.len() - self.current_pos,
        {
            let token = self.current_token();
            let closing: bool = match token {
                Token::Backtick(n) => *n == 1,
                _ => false,
            };
            if closing {
                self.current_pos += 1;
                return Ok(text);
            }
            if self.at_flow_end(flow) {
                return Err(self.error(self.current_pos, ParseErrorKind::UnexpectedToken));
            }
            token.write_source(&mut text);
            self.current_pos += 1;
        }
    }

    /// Reads the target of a link: `(`, the URL, `)`.
    fn link_target(&mut self) -> (r: Result<String, ParseError>)
        ensures
            final(self).tokens == old(self).tokens,
            match r {
                Ok(url) => spec_link_target(old(self).input(), old(self).position())
                    == Ok::<_, ParseError>((url@, final(self).position()))
                    && final(self).position() > old(self).position(),
                Err(e) => spec_link_target(old(self).input(), old(self).position()) == Err::<
                    (Seq<char>, int),
                    _,
                >(e),
            },
    {
        self.consume(&Token::LeftParen, ParseErrorKind::MalformedLink)?;
        let url = match self.current_token() {
            Token::Text(url) => url.clone(),
            _ => {
                return Err(self.error(self.current_pos, ParseErrorKind::MalformedLink));
            },
        };
        self.advance();
        self.consume(&Token::RightParen, ParseErrorKind::MalformedLink)?;
        Ok(url)
    }

    /// Reads a link or an image behind its opening bracket.
    fn link(&mut self, flow: Flow, image: bool) -> (r: Result<Run, ParseError>)
        ensures
            final(self).tokens == old(self).tokens,
            match r {
                Ok(run) => spec_link(old(self).input(), old(self).position(), flow, image)
                    == Ok::<_, ParseError>((run@, final(self).position()))
                    && final(self).position() > old(self).position(),
                Err(e) => spec_link(old(self).input(), old(self).position(), flow, image)
                    == Err::<(RunView, int), _>(e),
            },
        decreases old(self).tokens@.len() - old(self).current_pos, 1int,
    {
        let inner = self.runs(Closer::Bracket, flow)?;
        let url = self.link_target()?;
        if image {
            let mut alt = String::new();
            write_plain_text(&inner, &mut alt);
            Ok(Run::Image { url, alt })
        } else {
            Ok(Run::Link { url, inner })
        }
    }

    /// Reads runs up to the token that `closer` waits for, or up to the
    /// end of the flow where `closer` allows that.
    fn runs(&mut self, closer: Closer, flow: Flow) -> (r: Result<Vec<Run>, ParseError>)
        ensures
            final(self).tokens == old(self).tokens,
            match r {
                Ok(runs) => spec_runs(
                    old(self).input(),
                    old(self).position(),
                    closer,
                    flow,
                    Seq::empty(),
                ) == Ok::<_, ParseError>((run_views(runs@), final(self).position()))
                    && final(self).position() >= old(self).position() && (final(self).position()
                    > old(self).position() || ((closer is End || closer is Pipe) && ends_flow(
                    old(self).input(),
                    old(self).position(),
                    flow,
                ))),
                Err(e) => spec_runs(
                    old(self).input(),
                    old(self).position(),
                    closer,
                    flow,
                    Seq::empty(),
                ) == Err::<(Seq<RunView>, int), _>(e),
            },
        decreases old(self).tokens@.len() - old(self).current_pos, 0int,
    {
        let mut runs: Vec<Run> = Vec::new();
        let mut tail: u8 = 0;
        assert(run_views(runs@) =~= Seq::<RunView>::empty());
        loop
            invariant
                self.tokens == old(self).tokens,
                old(self).current_pos <= self.current_pos,
                tail == up_to_two(spaces_behind(run_views(runs@))),
                spec_runs(self.input(), self.position(), closer, flow, run_views(runs@))
                    == spec_runs(
                    old(self).input(),
                    old(self).position(),
                    closer,
                    flow,
                    Seq::empty(),
                ),
            decreases self.tokens@.len() - self.current_pos,
        {
            let start: usize = self.current_pos;
            let token = self.current_token();
            let ghost goal = spec_runs(self.input(), start as int, closer, flow, run_views(runs@));
            if is_closer(closer, token) {
                self.current_pos += 1;
                return Ok(runs);
            }
            if self.at_flow_end(flow) {
                return match closer {
                    Closer::End | Closer::Pipe => Ok(runs),
                    Closer::Bracket => Err(self.error(start, ParseErrorKind::MalformedLink)),
                    _ => Err(self.error(start, ParseErrorKind::UnterminatedEmphasis)),
                };
            }
            match token {
                Token::Text(text) => {
                    tail = add_text(&mut runs, text.as_str(), tail);
                    self.current_pos += 1;
                },
                Token::Whitespace => {
                    proof {
                        reveal_strlit(" ");
                        assert(" "@ =~= seq![' ']);
                    }
                    tail = add_text(&mut runs, " ", tail);
                    self.current_pos += 1;
                },
                Token::Newline(n) => {
                    if *n != 1 {
                        return Err(self.error(start, ParseErrorKind::UnexpectedToken));
                    }
                    tail = add_break(&mut runs, tail);
                    self.current_pos += 1;
                },
                Token::Star(n) => {
                    if *n < 1 || *n > 3 {
                        return Err(self.error(start, ParseErrorKind::UnexpectedToken));
                    }
                    self.current_pos += 1;
                    let inner = self.runs(
                        if *n == 1 {
                            Closer::Italic
                        } else if *n == 2 {
                            Closer::Bold
                        } else {
                            Closer::BoldItalic
                        },
                        flow,
                    )?;
                    if inner.len() == 0 {
                        return Err(
                            self.error(self.current_pos - 1, ParseErrorKind::UnexpectedToken),
                        );
                    }
                    let ghost before = run_views(runs@);
                    if *n == 1 {
                        runs.push(Run::Italic(inner));
                    } else if *n == 2 {
                        runs.push(Run::Bold(inner));
                    } else {
                        let mut wrapped: Vec<Run> = Vec::new();
                        wrapped.push(Run::Italic(inner));
                        assert(run_views(wrapped@) =~= seq![wrapped@[0]@]);
                        runs.push(Run::Bold(wrapped));
                    }
                    assert(run_views(runs@) =~= before.push(
                        emphasis(*n as nat, run_views(inner@)),
                    ));
                    tail = 0;
                },
                Token::Backtick(n) => {
                    if *n != 1 {
                        return Err(self.error(start, ParseErrorKind::UnexpectedToken));
                    }
                    self.current_pos += 1;
                    let text = self.code_span(flow)?;
                    let ghost before = run_views(runs@);
                    runs.push(Run::Code(text));
                    assert(run_views(runs@) =~= before.push(RunView::Code(text@)));
                    tail = 0;
                },
                Token::LeftBracket => {
                    self.current_pos += 1;
                    let link = self.link(flow, false)?;
                    let ghost before = run_views(runs@);
                    let ghost added = link@;
                    runs.push(link);
                    assert(run_views(runs@) =~= before.push(added));
                    tail = 0;
                },
                Token::Exclamination => {
                    if !matches!(self.token_at(1), Token::LeftBracket) {
                        return Err(self.error(start, ParseErrorKind::UnexpectedToken));
                    }
                    self.current_pos += 2;
                    let image = self.link(flow, true)?;
                    let ghost before = run_views(runs@);
                    let ghost added = image@;
                    runs.push(image);
                    assert(run_views(runs@) =~= before.push(added));
                    tail = 0;
                },
                _ => {
                    return Err(self.error(start, ParseErrorKind::UnexpectedToken));
                },
            }
            proof {
                use_type_invariant(&*self);
                assert(start < self.current_pos <= self.tokens@.len());
                assert(spec_runs(self.input(), self.position(), closer, flow, run_views(runs@))
                    == goal);
            }
        }
    }
}

} // verus!
