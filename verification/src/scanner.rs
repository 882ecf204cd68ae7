//! Lexical analysis: a character sequence becomes a flat sequence of tokens.
//!
//! The scanner knows nothing about document structure. Runs of `\n`, `#`, `*`,
//! `` ` `` and `-` collapse into one token that carries the length of the run,
//! a handful of punctuation characters and the space become tokens of their
//! own, and everything else is gathered into text. A text ends before the
//! next character that forms a run or is a token by itself; only the space
//! stays inside a text that has begun.

use crate::text::{push_repeated, repeated, to_chars};
use vstd::prelude::*;

verus! {

/// A lexical unit of a document.
#[derive(Debug, PartialEq, Eq)]
pub enum Token {
    Text(String),
    Newline(usize),
    Whitespace,
    Hash(usize),
    Star(usize),
    Plus,
    Underscore,
    Exclamination,
    Tilde,
    Backtick(usize),
    Dash(usize),
    VerticalLine,
    Caret,
    LeftParen,
    RightParen,
    LeftBracket,
    RightBracket,
    RightAngleBracket,
    Eof,
}

/// The mathematical value of a [`Token`]: text is a sequence of characters and
/// run lengths are natural numbers.
pub enum TokenView {
    Text(Seq<char>),
    Newline(nat),
    Whitespace,
    Hash(nat),
    Star(nat),
    Plus,
    Underscore,
    Exclamination,
    Tilde,
    Backtick(nat),
    Dash(nat),
    VerticalLine,
    Caret,
    LeftParen,
    RightParen,
    LeftBracket,
    RightBracket,
    RightAngleBracket,
    Eof,
}

impl View for Token {
    type V = TokenView;

    open spec fn view(&self) -> TokenView {
        match self {
            Token::Text(s) => TokenView::Text(s@),
            Token::Newline(n) => TokenView::Newline(*n as nat),
            Token::Whitespace => TokenView::Whitespace,
            Token::Hash(n) => TokenView::Hash(*n as nat),
            Token::Star(n) => TokenView::Star(*n as nat),
            Token::Plus => TokenView::Plus,
            Token::Underscore => TokenView::Underscore,
            Token::Exclamination => TokenView::Exclamination,
            Token::Tilde => TokenView::Tilde,
            Token::Backtick(n) => TokenView::Backtick(*n as nat),
            Token::Dash(n) => TokenView::Dash(*n as nat),
            Token::VerticalLine => TokenView::VerticalLine,
            Token::Caret => TokenView::Caret,
            Token::LeftParen => TokenView::LeftParen,
            Token::RightParen => TokenView::RightParen,
            Token::LeftBracket => TokenView::LeftBracket,
            Token::RightBracket => TokenView::RightBracket,
            Token::RightAngleBracket => TokenView::RightAngleBracket,
            Token::Eof => TokenView::Eof,
        }
    }
}

/// The values of a sequence of tokens, element by element.
pub open spec fn token_views(tokens: Seq<Token>) -> Seq<TokenView> {
    Seq::new(tokens.len(), |i: int| tokens[i]@)
}

impl TokenView {
    /// The characters a token stands for; `Eof` stands for none.
    pub open spec fn source(self) -> Seq<char> {
        match self {
            TokenView::Text(s) => s,
            TokenView::Newline(n) => repeated('\n', n),
            TokenView::Whitespace => seq![' '],
            TokenView::Hash(n) => repeated('#', n),
            TokenView::Star(n) => repeated('*', n),
            TokenView::Plus => seq!['+'],
            TokenView::Underscore => seq!['_'],
            TokenView::Exclamination => seq!['!'],
            TokenView::Tilde => seq!['~'],
            TokenView::Backtick(n) => repeated('`', n),
            TokenView::Dash(n) => repeated('-', n),
            TokenView::VerticalLine => seq!['|'],
            TokenView::Caret => seq!['^'],
            TokenView::LeftParen => seq!['('],
            TokenView::RightParen => seq![')'],
            TokenView::LeftBracket => seq!['['],
            TokenView::RightBracket => seq![']'],
            TokenView::RightAngleBracket => seq!['>'],
            TokenView::Eof => Seq::empty(),
        }
    }
}

/// The characters of which a run forms one token.
pub open spec fn is_repeatable(c: char) -> bool {
    c == '\n' || c == '#' || c == '*' || c == '`' || c == '-'
}

/// The token for a run of `n` copies of the repeatable character `c`.
pub open spec fn run_token(c: char, n: nat) -> TokenView {
    if c == '\n' {
        TokenView::Newline(n)
    } else if c == '#' {
        TokenView::Hash(n)
    } else if c == '*' {
        TokenView::Star(n)
    } else if c == '`' {
        TokenView::Backtick(n)
    } else {
        TokenView::Dash(n)
    }
}

/// The token of a character that is a token by itself.
pub open spec fn single_token(c: char) -> Option<TokenView> {
    if c == ' ' {
        Some(TokenView::Whitespace)
    } else if c == '+' {
        Some(TokenView::Plus)
    } else if c == '_' {
        Some(TokenView::Underscore)
    } else if c == '!' {
        Some(TokenView::Exclamination)
    } else if c == '~' {
        Some(TokenView::Tilde)
    } else if c == '|' {
        Some(TokenView::VerticalLine)
    } else if c == '^' {
        Some(TokenView::Caret)
    } else if c == '(' {
        Some(TokenView::LeftParen)
    } else if c == ')' {
        Some(TokenView::RightParen)
    } else if c == '[' {
        Some(TokenView::LeftBracket)
    } else if c == ']' {
        Some(TokenView::RightBracket)
    } else if c == '>' {
        Some(TokenView::RightAngleBracket)
    } else {
        None
    }
}

/// The characters that end a text once it has begun: every character that
/// forms a run or is a token by itself, but for the space, which stays inside
/// a text.
pub open spec fn breaks_text(c: char) -> bool {
    is_repeatable(c) || (single_token(c) is Some && c != ' ')
}

/// The characters that begin a text: those that form no run and are no
/// token by themselves.
pub open spec fn begins_text(c: char) -> bool {
    !is_repeatable(c) && single_token(c) is None
}

/// How many copies of `c` stand in `s` from `pos` on without interruption.
pub open spec fn run_length(s: Seq<char>, pos: int, c: char) -> nat
    decreases s.len() - pos,
{
    if 0 <= pos < s.len() && s[pos] == c {
        1 + run_length(s, pos + 1, c)
    } else {
        0
    }
}

/// How many characters stand in `s` from `pos` on before the next one that
/// breaks a text, or the end.
pub open spec fn text_length(s: Seq<char>, pos: int) -> nat
    decreases s.len() - pos,
{
    if 0 <= pos < s.len() && !breaks_text(s[pos]) {
        1 + text_length(s, pos + 1)
    } else {
        0
    }
}

/// The number of characters of the token that begins at `pos`. A text takes
/// its first character whatever it is, and then all that do not break it.
pub open spec fn token_length(s: Seq<char>, pos: int) -> nat {
    let c = s[pos];
    if is_repeatable(c) {
        run_length(s, pos, c)
    } else if single_token(c) is Some {
        1
    } else {
        1 + text_length(s, pos + 1)
    }
}

/// The token that begins at `pos`.
pub open spec fn token_from(s: Seq<char>, pos: int) -> TokenView {
    let c = s[pos];
    if is_repeatable(c) {
        run_token(c, run_length(s, pos, c))
    } else {
        match single_token(c) {
            Some(token) => token,
            None => TokenView::Text(s.subrange(pos, pos + token_length(s, pos))),
        }
    }
}

/// The tokens of `s` from `pos` on, with the closing `Eof`.
pub open spec fn scan_from(s: Seq<char>, pos: int) -> Seq<TokenView>
    decreases s.len() - pos,
{
    if 0 <= pos < s.len() {
        proof {
            lemma_token_length(s, pos);
        }
        seq![token_from(s, pos)] + scan_from(s, pos + token_length(s, pos))
    } else {
        seq![TokenView::Eof]
    }
}

/// The tokens of `s`.
pub open spec fn spec_scan(s: Seq<char>) -> Seq<TokenView> {
    scan_from(s, 0)
}

/// A run stays inside the sequence.
pub proof fn lemma_run_length(s: Seq<char>, pos: int, c: char)
    requires
        0 <= pos <= s.len(),
    ensures
        pos + run_length(s, pos, c) <= s.len(),
        forall|i: int| pos <= i < pos + run_length(s, pos, c) ==> s[i] == c,
        pos + run_length(s, pos, c) < s.len() ==> s[pos + run_length(s, pos, c)] != c,
    decreases s.len() - pos,
{
    if pos < s.len() && s[pos] == c {
        lemma_run_length(s, pos + 1, c);
    }
}

/// A text stays inside the sequence, holds no character that breaks it, and
/// ends before one that does.
pub proof fn lemma_text_length(s: Seq<char>, pos: int)
    requires
        0 <= pos <= s.len(),
    ensures
        pos + text_length(s, pos) <= s.len(),
        forall|i: int| pos <= i < pos + text_length(s, pos) ==> !breaks_text(s[i]),
        pos + text_length(s, pos) < s.len() ==> breaks_text(s[pos + text_length(s, pos)]),
    decreases s.len() - pos,
{
    if pos < s.len() && !breaks_text(s[pos]) {
        lemma_text_length(s, pos + 1);
    }
}

/// Every token takes at least one character and none beyond the end.
pub proof fn lemma_token_length(s: Seq<char>, pos: int)
    requires
        0 <= pos < s.len(),
    ensures
        1 <= token_length(s, pos) <= s.len() - pos,
{
    lemma_run_length(s, pos + 1, s[pos]);
    lemma_text_length(s, pos + 1);
}

impl Token {
    /// Whether `self` and `other` have the same value.
    pub fn same(&self, other: &Token) -> (b: bool)
        ensures
            b == (self@ == other@),
    {
        match (self, other) {
            (Token::Text(a), Token::Text(b)) => *a == *b,
            (Token::Newline(a), Token::Newline(b)) => *a == *b,
            (Token::Whitespace, Token::Whitespace) => true,
            (Token::Hash(a), Token::Hash(b)) => *a == *b,
            (Token::Star(a), Token::Star(b)) => *a == *b,
            (Token::Plus, Token::Plus) => true,
            (Token::Underscore, Token::Underscore) => true,
            (Token::Exclamination, Token::Exclamination) => true,
            (Token::Tilde, Token::Tilde) => true,
            (Token::Backtick(a), Token::Backtick(b)) => *a == *b,
            (Token::Dash(a), Token::Dash(b)) => *a == *b,
            (Token::VerticalLine, Token::VerticalLine) => true,
            (Token::Caret, Token::Caret) => true,
            (Token::LeftParen, Token::LeftParen) => true,
            (Token::RightParen, Token::RightParen) => true,
            (Token::LeftBracket, Token::LeftBracket) => true,
            (Token::RightBracket, Token::RightBracket) => true,
            (Token::RightAngleBracket, Token::RightAngleBracket) => true,
            (Token::Eof, Token::Eof) => true,
            _ => false,
        }
    }

    /// A token with the same value.
    pub fn duplicate(&self) -> (copy: Token)
        ensures
            copy@ == self@,
    {
        match self {
            Token::Text(s) => Token::Text(s.clone()),
            Token::Newline(n) => Token::Newline(*n),
            Token::Whitespace => Token::Whitespace,
            Token::Hash(n) => Token::Hash(*n),
            Token::Star(n) => Token::Star(*n),
            Token::Plus => Token::Plus,
            Token::Underscore => Token::Underscore,
            Token::Exclamination => Token::Exclamination,
            Token::Tilde => Token::Tilde,
            Token::Backtick(n) => Token::Backtick(*n),
            Token::Dash(n) => Token::Dash(*n),
            Token::VerticalLine => Token::VerticalLine,
            Token::Caret => Token::Caret,
            Token::LeftParen => Token::LeftParen,
            Token::RightParen => Token::RightParen,
            Token::LeftBracket => Token::LeftBracket,
            Token::RightBracket => Token::RightBracket,
            Token::RightAngleBracket => Token::RightAngleBracket,
            Token::Eof => Token::Eof,
        }
    }

    /// Appends the characters this token stands for to `out`.
    pub fn write_source(&self, out: &mut String)
        ensures
            final(out)@ == old(out)@ + self@.source(),
    {
        match self {
            Token::Text(s) => out.append(s.as_str()),
            Token::Newline(n) => push_repeated(out, '\n', *n),
            Token::Hash(n) => push_repeated(out, '#', *n),
            Token::Star(n) => push_repeated(out, '*', *n),
            Token::Backtick(n) => push_repeated(out, '`', *n),
            Token::Dash(n) => push_repeated(out, '-', *n),
            Token::Whitespace => out.push(' '),
            Token::Plus => out.push('+'),
            Token::Underscore => out.push('_'),
            Token::Exclamination => out.push('!'),
            Token::Tilde => out.push('~'),
            Token::VerticalLine => out.push('|'),
            Token::Caret => out.push('^'),
            Token::LeftParen => out.push('('),
            Token::RightParen => out.push(')'),
            Token::LeftBracket => out.push('['),
            Token::RightBracket => out.push(']'),
            Token::RightAngleBracket => out.push('>'),
            Token::Eof => {},
        }
        assert(final(out)@ =~= old(out)@ + self@.source());
    }
}

/// The characters that a token sequence stands for.
pub open spec fn source_of(tokens: Seq<TokenView>) -> Seq<char>
    decreases tokens.len(),
{
    if tokens.len() == 0 {
        Seq::empty()
    } else {
        tokens[0].source() + source_of(tokens.drop_first())
    }
}

/// `a` and `b` are run-length tokens of the same character.
pub open spec fn same_run(a: TokenView, b: TokenView) -> bool {
    ||| a is Newline && b is Newline
    ||| a is Hash && b is Hash
    ||| a is Star && b is Star
    ||| a is Backtick && b is Backtick
    ||| a is Dash && b is Dash
}

/// The scanner would have made one token of `a` and `b`: they are runs of
/// the same character, or `b` goes on with the text `a`.
pub open spec fn joins(a: TokenView, b: TokenView) -> bool {
    same_run(a, b) || (a is Text && (b is Text || b is Whitespace))
}

/// `t` stands for at least one character: a run is not empty, nor a text.
/// A text begins with a character that begins one and holds none that breaks
/// it.
pub open spec fn is_proper(t: TokenView) -> bool {
    match t {
        TokenView::Text(s) => s.len() >= 1 && begins_text(s[0]) && forall|i: int|
            0 <= i < s.len() ==> !breaks_text(#[trigger] s[i]),
        TokenView::Newline(n) => n >= 1,
        TokenView::Hash(n) => n >= 1,
        TokenView::Star(n) => n >= 1,
        TokenView::Backtick(n) => n >= 1,
        TokenView::Dash(n) => n >= 1,
        TokenView::Eof => false,
        _ => true,
    }
}

/// What holds of every scanned sequence: it ends in `Eof` and holds no
/// other, each token before that is proper, and no two neighbours could have
/// been one token: every run and every text is as long as it can be.
pub open spec fn well_scanned(tokens: Seq<TokenView>) -> bool {
    &&& tokens.len() >= 1
    &&& tokens.last() is Eof
    &&& forall|i: int| 0 <= i < tokens.len() - 1 ==> is_proper(#[trigger] tokens[i])
    &&& forall|i: int| 0 <= i < tokens.len() - 1 ==> !joins(#[trigger] tokens[i], tokens[i + 1])
}

/// `s` is one repeatable character, one or more times.
pub open spec fn is_single_run(s: Seq<char>) -> bool {
    &&& s.len() >= 1
    &&& is_repeatable(s[0])
    &&& forall|i: int| 0 <= i < s.len() ==> #[trigger] s[i] == s[0]
}

/// The token at `pos` is proper. It is no run of the character that stands
/// before `pos`, if that character differs from the one at `pos`, and it
/// goes on with no text, if the character at `pos` breaks a text. A text
/// ends at the end or before a character that breaks it.
proof fn lemma_token_from(s: Seq<char>, pos: int)
    requires
        0 <= pos < s.len(),
    ensures
        is_proper(token_from(s, pos)),
        token_from(s, pos).source() == s.subrange(pos, pos + token_length(s, pos)),
        forall|c: char|
            is_repeatable(c) && s[pos] != c ==> !same_run(
                #[trigger] run_token(c, 1),
                token_from(s, pos),
            ),
        breaks_text(s[pos]) ==> !(token_from(s, pos) is Text) && !(token_from(s, pos)
            is Whitespace),
        !(token_from(s, pos) is Text) ==> is_repeatable(s[pos]) || single_token(s[pos]) is Some,
        token_from(s, pos) is Text && pos + token_length(s, pos) < s.len() ==> breaks_text(
            s[pos + token_length(s, pos)],
        ),
{
    let c = s[pos];
    lemma_token_length(s, pos);
    lemma_run_length(s, pos, c);
    lemma_text_length(s, pos + 1);
    if begins_text(c) {
        let text = s.subrange(pos, pos + token_length(s, pos));
        assert forall|i: int| 0 <= i < text.len() implies !breaks_text(#[trigger] text[i]) by {
            assert(text[i] == s[pos + i]);
        }
        assert(text[0] == c);
    }
    if is_repeatable(c) {
        assert(run_token(c, run_length(s, pos, c)).source() =~= s.subrange(
            pos,
            pos + run_length(s, pos, c),
        ));
    } else if single_token(c) is Some {
        assert(single_token(c)->0.source() =~= s.subrange(pos, pos + 1));
    }
}

/// Scanning yields a well-formed sequence that stands for the characters
/// scanned and has at most one token for each of them, besides `Eof`.
pub proof fn lemma_scan_from(s: Seq<char>, pos: int)
    requires
        0 <= pos <= s.len(),
    ensures
        well_scanned(scan_from(s, pos)),
        source_of(scan_from(s, pos)) == s.skip(pos),
        scan_from(s, pos).len() <= s.len() - pos + 1,
        pos < s.len() ==> scan_from(s, pos)[0] == token_from(s, pos),
    decreases s.len() - pos,
{
    let tokens = scan_from(s, pos);
    if pos < s.len() {
        let n = token_length(s, pos);
        let head = token_from(s, pos);
        let rest = scan_from(s, pos + n);
        lemma_token_length(s, pos);
        lemma_token_from(s, pos);
        lemma_scan_from(s, pos + n);
        assert(tokens =~= seq![head] + rest);
        assert(tokens.drop_first() =~= rest);
        assert(source_of(tokens) =~= s.skip(pos)) by {
            assert(head.source() + s.skip(pos + n) =~= s.skip(pos));
        }
        assert forall|i: int| 0 <= i < tokens.len() - 1 implies is_proper(
            #[trigger] tokens[i],
        ) by {
            if i > 0 {
                assert(tokens[i] == rest[i - 1]);
            }
        }
        assert forall|i: int| 0 <= i < tokens.len() - 1 implies !joins(
            #[trigger] tokens[i],
            tokens[i + 1],
        ) by {
            if i > 0 {
                assert(tokens[i] == rest[i - 1]);
                assert(tokens[i + 1] == rest[i]);
            } else {
                assert(tokens[1] == rest[0]);
                let c = s[pos];
                if pos + n < s.len() {
                    lemma_token_from(s, pos + n);
                    if is_repeatable(c) {
                        lemma_run_length(s, pos, c);
                        assert(!same_run(run_token(c, 1), token_from(s, pos + n)));
                    }
                }
            }
        }
    } else {
        assert(source_of(tokens) =~= s.skip(pos)) by {
            assert(tokens.drop_first() =~= Seq::<TokenView>::empty());
            assert(source_of(tokens.drop_first()) =~= Seq::<char>::empty());
        }
    }
}

/// A text that is one run of a repeatable character scans to one token that
/// carries the length of the run, and `Eof`.
pub proof fn lemma_scan_single_run(s: Seq<char>)
    requires
        is_single_run(s),
    ensures
        spec_scan(s) == seq![run_token(s[0], s.len()), TokenView::Eof],
{
    lemma_run_to_end(s, 0);
    assert(scan_from(s, s.len() as int) =~= seq![TokenView::Eof]);
    assert(spec_scan(s) =~= seq![run_token(s[0], s.len()), TokenView::Eof]);
}

/// In a text of one character only, the run from `pos` reaches the end.
proof fn lemma_run_to_end(s: Seq<char>, pos: int)
    requires
        0 <= pos <= s.len(),
        forall|i: int| 0 <= i < s.len() ==> #[trigger] s[i] == s[0],
    ensures
        run_length(s, pos, s[0]) == s.len() - pos,
    decreases s.len() - pos,
{
    if pos < s.len() {
        lemma_run_to_end(s, pos + 1);
    }
}

/// Whether `ch` ends a text once it has begun.
fn is_text_breaker(ch: char) -> (b: bool)
    ensures
        b == breaks_text(ch),
{
    ch == '\n' || ch == '#' || ch == '*' || ch == '`' || ch == '-' || ch == '+' || ch == '_' || ch
        == '!' || ch == '~' || ch == '|' || ch == '^' || ch == '(' || ch == ')' || ch == '['
        || ch == ']' || ch == '>'
}

/// A cursor into the characters of a document.
pub struct Scanner {
    chars: Vec<char>,
    pos: usize,
}

impl Scanner {
    /// The characters being scanned.
    pub closed spec fn source(&self) -> Seq<char> {
        self.chars@
    }

    /// The index of the next character to read.
    pub closed spec fn position(&self) -> int {
        self.pos as int
    }

    #[verifier::type_invariant]
    spec fn within_source(&self) -> bool {
        self.pos <= self.chars@.len()
    }

    /// A scanner at the start of `input`.
    pub fn new(input: &str) -> (scanner: Self)
        ensures
            scanner.source() == input@,
            scanner.position() == 0,
    {
        Scanner { chars: to_chars(input), pos: 0 }
    }

    /// Scans what is left of the source: its tokens in order, then `Eof`.
    ///
    /// The result is well formed: it ends in the only `Eof`, no text holds a
    /// character that breaks a text, and every run and every text is as long
    /// as it can be. It stands for exactly the characters scanned and has at
    /// most one token for each of them, besides `Eof`. A source that is one
    /// run of a repeatable character gives one token with the length of the
    /// run.
    pub fn scan(&mut self) -> (tokens: Vec<Token>)
        ensures
            final(self).source() == old(self).source(),
            final(self).position() == final(self).source().len(),
            token_views(tokens@) == scan_from(old(self).source(), old(self).position()),
            well_scanned(token_views(tokens@)),
            source_of(token_views(tokens@)) == old(self).source().skip(old(self).position()),
            tokens@.len() <= old(self).source().len() - old(self).position() + 1,
            old(self).position() == 0 && is_single_run(old(self).source()) ==> token_views(
                tokens@,
            ) == seq![
                run_token(old(self).source()[0], old(self).source().len()),
                TokenView::Eof,
            ],
    {
        proof {
            use_type_invariant(&*self);
            lemma_scan_from(self.source(), self.position());
            if self.position() == 0 && is_single_run(self.source()) {
                lemma_scan_single_run(self.source());
            }
        }
        let mut tokens: Vec<Token> = Vec::new();
        while !self.is_at_end()
            invariant
                self.chars == old(self).chars,
                token_views(tokens@) + scan_from(self.source(), self.position()) == scan_from(
                    old(self).source(),
                    old(self).position(),
                ),
            decreases self.chars@.len() - self.pos,
        {
            let ghost before = token_views(tokens@);
            let ghost at = self.position();
            let token = self.next_token();
            let ghost added = token@;
            tokens.push(token);
            proof {
                use_type_invariant(&*self);
                assert(token_views(tokens@) =~= before.push(added));
                assert(before.push(added) + scan_from(self.source(), self.position()) =~= before
                    + scan_from(self.source(), at));
            }
        }
        let ghost before = token_views(tokens@);
        tokens.push(Token::Eof);
        proof {
            use_type_invariant(&*self);
            assert(token_views(tokens@) =~= before + seq![TokenView::Eof]);
        }
        tokens
    }

    /// Reads the token at the cursor; `Eof`, and no move, at the end.
    fn next_token(&mut self) -> (token: Token)
        ensures
            final(self).chars == old(self).chars,
            old(self).position() < old(self).source().len() ==> token@ == token_from(
                old(self).source(),
                old(self).position(),
            ) && final(self).position() == old(self).position() + token_length(
                old(self).source(),
                old(self).position(),
            ),
            old(self).position() >= old(self).source().len() ==> token@ is Eof
                && final(self).position() == old(self).position(),
    {
        match self.advance() {
            Some(c) => {
                if c == '\n' || c == '#' || c == '*' || c == '`' || c == '-' {
                    self.repeatable(c)
                } else if c == ' ' {
                    Token::Whitespace
                } else if c == '+' {
                    Token::Plus
                } else if c == '_' {
                    Token::Underscore
                } else if c == '!' {
                    Token::Exclamination
                } else if c == '~' {
                    Token::Tilde
                } else if c == '|' {
                    Token::VerticalLine
                } else if c == '^' {
                    Token::Caret
                } else if c == '(' {
                    Token::LeftParen
                } else if c == ')' {
                    Token::RightParen
                } else if c == '[' {
                    Token::LeftBracket
                } else if c == ']' {
                    Token::RightBracket
                } else if c == '>' {
                    Token::RightAngleBracket
                } else {
                    self.text()
                }
            },
            None => Token::Eof,
        }
    }

    /// Reads the rest of a run of `ch` whose first character has been read.
    fn repeatable(&mut self, ch: char) -> (token: Token)
        requires
            is_repeatable(ch),
            1 <= old(self).position(),
            old(self).source()[old(self).position() - 1] == ch,
        ensures
            final(self).chars == old(self).chars,
            token@ == run_token(ch, run_length(old(self).source(), old(self).position() - 1, ch)),
            final(self).position() == old(self).position() - 1 + run_length(
                old(self).source(),
                old(self).position() - 1,
                ch,
            ),
    {
        proof {
            use_type_invariant(&*self);
        }
        let mut cnt: usize = 1;
        while self.peek() == Some(ch)
            invariant
                self.chars == old(self).chars,
                old(self).pos <= self.pos <= self.chars@.len(),
                cnt == self.pos - old(self).pos + 1,
                cnt + run_length(self.source(), self.position(), ch) == run_length(
                    old(self).source(),
                    old(self).position() - 1,
                    ch,
                ),
            decreases self.chars@.len() - self.pos,
        {
            cnt += 1;
            self.advance();
        }
        if ch == '\n' {
            Token::Newline(cnt)
        } else if ch == '#' {
            Token::Hash(cnt)
        } else if ch == '*' {
            Token::Star(cnt)
        } else if ch == '`' {
            Token::Backtick(cnt)
        } else {
            Token::Dash(cnt)
        }
    }

    /// Reads the rest of a text whose first character has been read.
    fn text(&mut self) -> (token: Token)
        requires
            1 <= old(self).position(),
        ensures
            final(self).chars == old(self).chars,
            token@ == TokenView::Text(
                old(self).source().subrange(
                    old(self).position() - 1,
                    old(self).position() + text_length(old(self).source(), old(self).position()),
                ),
            ),
            final(self).position() == old(self).position() + text_length(
                old(self).source(),
                old(self).position(),
            ),
    {
        proof {
            use_type_invariant(&*self);
        }
        let mut text = String::new();
        text.push(self.chars[self.pos - 1]);
        assert(text@ =~= self.source().subrange(self.position() - 1, self.position()));
        loop
            invariant
                self.chars == old(self).chars,
                1 <= old(self).pos <= self.pos <= self.chars@.len(),
                text@ == self.source().subrange(old(self).position() - 1, self.position()),
                self.position() + text_length(self.source(), self.position()) == old(
                    self
                ).position() + text_length(old(self).source(), old(self).position()),
            ensures
                text_length(self.source(), self.position()) == 0,
            decreases self.chars@.len() - self.pos,
        {
            match self.peek() {
                None => {
                    break ;
                },
                Some(next) => {
                    if is_text_breaker(next) {
                        break ;
                    }
                    text.push(next);
                    self.advance();
                    assert(text@ =~= self.source().subrange(
                        old(self).position() - 1,
                        self.position(),
                    ));
                },
            }
        }
        Token::Text(text)
    }

    /// Reads the character at the cursor and moves behind it; `None` at the
    /// end.
    fn advance(&mut self) -> (c: Option<char>)
        ensures
            final(self).chars == old(self).chars,
            old(self).position() < old(self).source().len() ==> c == Some(
                old(self).source()[old(self).position()],
            ) && final(self).position() == old(self).position() + 1,
            old(self).position() >= old(self).source().len() ==> c is None
                && final(self).position() == old(self).position(),
    {
        proof {
            use_type_invariant(&*self);
        }
        if self.pos < self.chars.len() {
            let c = self.chars[self.pos];
            self.pos += 1;
            Some(c)
        } else {
            None
        }
    }

    /// The character at the cursor; `None` at the end.
    fn peek(&self) -> (c: Option<char>)
        ensures
            self.source().len() <= usize::MAX,
            self.position() < self.source().len() ==> c == Some(self.source()[self.position()]),
            self.position() >= self.source().len() ==> c is None,
    {
        if self.pos < self.chars.len() {
            Some(self.chars[self.pos])
        } else {
            None
        }
    }

    /// Whether every character has been read.
    fn is_at_end(&self) -> (b: bool)
        ensures
            b == (self.position() >= self.source().len()),
    {
        self.peek().is_none()
    }
}

} // verus!
