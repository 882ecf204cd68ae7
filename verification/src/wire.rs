//! The wire format of front matter, and the proof that a table written in
//! it is read back as the same table.
//!
//! ```text
//! ---
//! key: value
//! ---
//! ```

use crate::document_of;
use crate::error::ParseError;
use crate::grammar::{delimiter_at, entry_of, spec_blocks, spec_entries, spec_front_matter};
use crate::markdown::{table_of, BlockView, FrontMatter, MarkdownView};
use crate::scanner::{
    begins_text, breaks_text, is_repeatable, lemma_run_length, lemma_scan_from, lemma_text_length,
    lemma_token_length, run_length, scan_from, single_token, spec_scan, text_length, token_from,
    token_length, TokenView,
};
use crate::text::{
    is_space, is_trimmed, lemma_index_of_is, lemma_leading_spaces_is, lemma_trailing_spaces_is,
    trimmed,
};
use vstd::prelude::*;

verus! {

/// A run counted in `a + b` from a position in `b` is the run counted in
/// `b`.
pub proof fn lemma_run_length_shift(a: Seq<char>, b: Seq<char>, q: int, c: char)
    requires
        0 <= q <= b.len(),
    ensures
        run_length(a + b, a.len() + q, c) == run_length(b, q, c),
    decreases b.len() - q,
{
    if q < b.len() {
        assert((a + b)[a.len() + q] == b[q]);
        if b[q] == c {
            lemma_run_length_shift(a, b, q + 1, c);
        }
    }
}

/// A text measured in `a + b` from a position in `b` is the text measured
/// in `b`.
pub proof fn lemma_text_length_shift(a: Seq<char>, b: Seq<char>, q: int)
    requires
        0 <= q <= b.len(),
    ensures
        text_length(a + b, a.len() + q) == text_length(b, q),
    decreases b.len() - q,
{
    if q < b.len() {
        assert((a + b)[a.len() + q] == b[q]);
        if !breaks_text(b[q]) {
            lemma_text_length_shift(a, b, q + 1);
        }
    }
}

/// A run in `a` that ends inside `a`, or before a `b` that does not go on
/// with it, is the same run in `a + b`.
pub proof fn lemma_run_length_prefix(a: Seq<char>, b: Seq<char>, p: int, c: char)
    requires
        0 <= p <= a.len(),
        p + run_length(a, p, c) < a.len() || b.len() == 0 || b[0] != c,
    ensures
        run_length(a + b, p, c) == run_length(a, p, c),
    decreases a.len() - p,
{
    if p < a.len() {
        assert((a + b)[p] == a[p]);
        if a[p] == c {
            lemma_run_length_prefix(a, b, p + 1, c);
        }
    } else if b.len() > 0 {
        assert((a + b)[p] == b[0]);
    }
}

/// A text in `a` that ends inside `a` is the same text in `a + b`.
pub proof fn lemma_text_length_prefix(a: Seq<char>, b: Seq<char>, p: int)
    requires
        0 <= p <= a.len(),
        p + text_length(a, p) < a.len(),
    ensures
        text_length(a + b, p) == text_length(a, p),
    decreases a.len() - p,
{
    if p < a.len() {
        assert((a + b)[p] == a[p]);
        if !breaks_text(a[p]) {
            lemma_text_length_prefix(a, b, p + 1);
        }
    }
}

/// Scanning `a + b` from a position in `b` is scanning `b`.
pub proof fn lemma_scan_shift(a: Seq<char>, b: Seq<char>, q: int)
    requires
        0 <= q <= b.len(),
    ensures
        scan_from(a + b, a.len() + q) == scan_from(b, q),
    decreases b.len() - q,
{
    let s = a + b;
    let p = a.len() + q;
    if q < b.len() {
        assert(s[p] == b[q]);
        lemma_run_length_shift(a, b, q, b[q]);
        lemma_text_length_shift(a, b, q + 1);
        lemma_token_length(b, q);
        let n = token_length(b, q);
        assert(token_length(s, p) == n);
        assert(s.subrange(p, p + n) =~= b.subrange(q, q + n));
        assert(token_from(s, p) == token_from(b, q));
        lemma_scan_shift(a, b, q + n);
    }
}

/// Where `a` ends in a newline and `b` does not begin with one, the tokens
/// of `a + b` are those of `a`, without its `Eof`, and then those of `b`.
pub proof fn lemma_scan_prefix(a: Seq<char>, b: Seq<char>, p: int)
    requires
        a.len() > 0,
        a.last() == '\n',
        b.len() == 0 || b[0] != '\n',
        0 <= p <= a.len(),
    ensures
        scan_from(a + b, p) == scan_from(a, p).drop_last() + scan_from(b, 0),
    decreases a.len() - p,
{
    let s = a + b;
    if p < a.len() {
        let c = a[p];
        assert(s[p] == c);
        lemma_token_length(a, p);
        lemma_run_length(a, p, c);
        lemma_text_length(a, p + 1);
        let n = token_length(a, p);
        if is_repeatable(c) {
            if c != '\n' && p + run_length(a, p, c) == a.len() {
                assert(a[a.len() - 1] == c);
            }
            lemma_run_length_prefix(a, b, p, c);
        } else if single_token(c) is None {
            if p + 1 + text_length(a, p + 1) == a.len() {
                assert(!breaks_text(a[a.len() - 1]));
            }
            lemma_text_length_prefix(a, b, p + 1);
        }
        assert(token_length(s, p) == n);
        assert(s.subrange(p, p + n) =~= a.subrange(p, p + n));
        assert(token_from(s, p) == token_from(a, p));
        lemma_scan_prefix(a, b, p + n);
        let rest = scan_from(a, p + n);
        assert(rest.len() >= 1) by {
            lemma_scan_from(a, p + n);
        }
        assert((seq![token_from(a, p)] + rest).drop_last() =~= seq![token_from(a, p)]
            + rest.drop_last());
        assert(scan_from(s, p) =~= scan_from(a, p).drop_last() + scan_from(b, 0));
    } else {
        lemma_scan_shift(a, b, 0);
        assert(scan_from(a, p).drop_last() =~= Seq::<TokenView>::empty());
        assert(scan_from(a + b, p) =~= scan_from(a, p).drop_last() + scan_from(b, 0));
    }
}

/// A text of `n` characters from `pos`, none of which breaks it, that ends
/// before one that does or at the end, has length `n`.
pub proof fn lemma_text_length_is(s: Seq<char>, pos: int, n: int)
    requires
        0 <= pos,
        0 <= n,
        pos + n <= s.len(),
        forall|i: int| pos <= i < pos + n ==> !breaks_text(#[trigger] s[i]),
        pos + n < s.len() ==> breaks_text(s[pos + n]),
    ensures
        text_length(s, pos) == n,
    decreases n,
{
    if n > 0 {
        assert(!breaks_text(s[pos]));
        lemma_text_length_is(s, pos + 1, n - 1);
    }
}

/// A line that begins a text and holds nothing that breaks one scans, with
/// its newline, to one `Text` and `Newline(1)`.
pub proof fn lemma_scan_line(line: Seq<char>)
    requires
        line.len() >= 1,
        begins_text(line[0]),
        forall|i: int| 0 <= i < line.len() ==> !breaks_text(#[trigger] line[i]),
    ensures
        spec_scan(line + seq!['\n']) == seq![
            TokenView::Text(line),
            TokenView::Newline(1),
            TokenView::Eof,
        ],
{
    let s = line + seq!['\n'];
    let n = line.len() as int;
    assert(s[0] == line[0]);
    assert forall|i: int| 1 <= i < 1 + (n - 1) implies !breaks_text(#[trigger] s[i]) by {
        assert(s[i] == line[i]);
    }
    assert(s[n] == '\n');
    lemma_text_length_is(s, 1, n - 1);
    assert(token_length(s, 0) == n);
    assert(s.subrange(0, n) =~= line);
    assert(token_from(s, 0) == TokenView::Text(line));
    assert(run_length(s, n, '\n') == 1) by {
        assert(run_length(s, n + 1, '\n') == 0);
    }
    assert(token_from(s, n) == TokenView::Newline(1));
    assert(scan_from(s, n + 1) =~= seq![TokenView::Eof]);
    assert(scan_from(s, n) =~= seq![TokenView::Newline(1), TokenView::Eof]);
    assert(scan_from(s, 0) =~= seq![
        TokenView::Text(line),
        TokenView::Newline(1),
        TokenView::Eof,
    ]);
}

/// The line that opens and closes a front matter.
pub open spec fn delimiter() -> Seq<char> {
    seq!['-', '-', '-', '\n']
}

/// The delimiter scans to `Dash(3)` and `Newline(1)`.
pub proof fn lemma_scan_delimiter()
    ensures
        spec_scan(delimiter()) == seq![
            TokenView::Dash(3),
            TokenView::Newline(1),
            TokenView::Eof,
        ],
{
    let s = delimiter();
    assert(run_length(s, 4, '-') == 0);
    assert(run_length(s, 3, '-') == 0);
    assert(run_length(s, 2, '-') == 1);
    assert(run_length(s, 1, '-') == 2);
    assert(run_length(s, 0, '-') == 3);
    assert(run_length(s, 4, '\n') == 0);
    assert(run_length(s, 3, '\n') == 1);
    assert(token_from(s, 0) == TokenView::Dash(3));
    assert(token_from(s, 3) == TokenView::Newline(1));
    assert(scan_from(s, 4) =~= seq![TokenView::Eof]);
    assert(scan_from(s, 3) =~= seq![TokenView::Newline(1), TokenView::Eof]);
    assert(scan_from(s, 0) =~= seq![
        TokenView::Dash(3),
        TokenView::Newline(1),
        TokenView::Eof,
    ]);
}

/// The line of an entry: the key, a colon, a space, the value.
pub open spec fn line_of(entry: (Seq<char>, Seq<char>)) -> Seq<char> {
    entry.0 + seq![':', ' '] + entry.1
}

/// The lines of the entries, each with its newline.
pub open spec fn wire_entries(entries: Seq<(Seq<char>, Seq<char>)>) -> Seq<char>
    decreases entries.len(),
{
    if entries.len() == 0 {
        Seq::empty()
    } else {
        line_of(entries[0]) + seq!['\n'] + wire_entries(entries.drop_first())
    }
}

/// The entries in the wire format: between two delimiters, a line for each.
pub open spec fn wire_format(entries: Seq<(Seq<char>, Seq<char>)>) -> Seq<char> {
    delimiter() + wire_entries(entries) + delimiter()
}

/// The text holds no character that breaks a text and neither begins nor
/// ends with white space.
pub open spec fn is_plain(text: Seq<char>) -> bool {
    &&& forall|i: int| 0 <= i < text.len() ==> !breaks_text(#[trigger] text[i])
    &&& is_trimmed(text)
}

/// The entry survives the wire format: key and value are plain, and the
/// key holds no colon. The line of such an entry scans to one text.
pub open spec fn is_wire_safe(entry: (Seq<char>, Seq<char>)) -> bool {
    &&& is_plain(entry.0)
    &&& is_plain(entry.1)
    &&& forall|i: int| 0 <= i < entry.0.len() ==> #[trigger] entry.0[i] != ':'
}

/// The tokens of the lines of the entries.
pub open spec fn entry_tokens(entries: Seq<(Seq<char>, Seq<char>)>) -> Seq<TokenView>
    decreases entries.len(),
{
    if entries.len() == 0 {
        Seq::empty()
    } else {
        seq![TokenView::Text(line_of(entries[0])), TokenView::Newline(1)] + entry_tokens(
            entries.drop_first(),
        )
    }
}

/// There are two tokens for each entry: its line and `Newline(1)`.
pub proof fn lemma_entry_tokens(entries: Seq<(Seq<char>, Seq<char>)>, i: int)
    requires
        0 <= i <= entries.len(),
    ensures
        entry_tokens(entries).len() == 2 * entries.len(),
        i < entries.len() ==> entry_tokens(entries)[2 * i] == TokenView::Text(line_of(entries[i]))
            && entry_tokens(entries)[2 * i + 1] == TokenView::Newline(1),
    decreases entries.len(),
{
    if entries.len() > 0 {
        let rest = entries.drop_first();
        if i > 0 {
            lemma_entry_tokens(rest, i - 1);
            if i < entries.len() {
                assert(rest[i - 1] == entries[i]);
                assert(entry_tokens(entries)[2 * i] == entry_tokens(rest)[2 * (i - 1)]);
                assert(entry_tokens(entries)[2 * i + 1] == entry_tokens(rest)[2 * (i - 1) + 1]);
            }
        } else {
            lemma_entry_tokens(rest, 0);
        }
    }
}

/// The line of a wire-safe entry begins a text and holds nothing that
/// breaks one.
proof fn lemma_line(entry: (Seq<char>, Seq<char>))
    requires
        is_wire_safe(entry),
    ensures
        line_of(entry).len() >= 2,
        begins_text(line_of(entry)[0]),
        line_of(entry)[0] != '\n',
        forall|i: int| 0 <= i < line_of(entry).len() ==> !breaks_text(#[trigger] line_of(entry)[i]),
{
    let line = line_of(entry);
    let k = entry.0.len() as int;
    assert forall|i: int| 0 <= i < line.len() implies !breaks_text(#[trigger] line[i]) by {
        if i < k {
            assert(line[i] == entry.0[i]);
        } else if i >= k + 2 {
            assert(line[i] == entry.1[i - k - 2]);
        }
    }
    if k > 0 {
        assert(line[0] == entry.0[0]);
        assert(!breaks_text(entry.0[0]));
        assert(is_space(' '));
    } else {
        assert(line[0] == ':');
    }
}

/// The lines of wire-safe entries, followed by a delimiter, scan to the
/// tokens of the lines and those of the delimiter.
pub proof fn lemma_scan_entries(entries: Seq<(Seq<char>, Seq<char>)>)
    requires
        forall|i: int| 0 <= i < entries.len() ==> is_wire_safe(#[trigger] entries[i]),
    ensures
        spec_scan(wire_entries(entries) + delimiter()) == entry_tokens(entries) + seq![
            TokenView::Dash(3),
            TokenView::Newline(1),
            TokenView::Eof,
        ],
        (wire_entries(entries) + delimiter())[0] != '\n',
    decreases entries.len(),
{
    lemma_scan_delimiter();
    if entries.len() == 0 {
        assert(wire_entries(entries) + delimiter() =~= delimiter());
        assert(entry_tokens(entries) + seq![
            TokenView::Dash(3),
            TokenView::Newline(1),
            TokenView::Eof,
        ] =~= seq![TokenView::Dash(3), TokenView::Newline(1), TokenView::Eof]);
    } else {
        let first = entries[0];
        let rest = entries.drop_first();
        assert forall|i: int| 0 <= i < rest.len() implies is_wire_safe(#[trigger] rest[i]) by {
            assert(rest[i] == entries[i + 1]);
        }
        lemma_scan_entries(rest);
        lemma_line(first);
        lemma_scan_line(line_of(first));
        let a = line_of(first) + seq!['\n'];
        let b = wire_entries(rest) + delimiter();
        assert(a + b =~= wire_entries(entries) + delimiter());
        assert((a + b)[0] == line_of(first)[0]);
        lemma_scan_prefix(a, b, 0);
        assert(scan_from(a, 0).drop_last() =~= seq![
            TokenView::Text(line_of(first)),
            TokenView::Newline(1),
        ]);
        assert(scan_from(a + b, 0) =~= entry_tokens(entries) + seq![
            TokenView::Dash(3),
            TokenView::Newline(1),
            TokenView::Eof,
        ]);
    }
}

/// The tokens of a front matter in the wire format.
pub open spec fn wire_tokens(entries: Seq<(Seq<char>, Seq<char>)>) -> Seq<TokenView> {
    seq![TokenView::Dash(3), TokenView::Newline(1)] + entry_tokens(entries) + seq![
        TokenView::Dash(3),
        TokenView::Newline(1),
        TokenView::Eof,
    ]
}

/// Wire-safe entries in the wire format scan to a delimiter, the tokens of
/// their lines, and a delimiter.
pub proof fn lemma_scan_wire_format(entries: Seq<(Seq<char>, Seq<char>)>)
    requires
        forall|i: int| 0 <= i < entries.len() ==> is_wire_safe(#[trigger] entries[i]),
    ensures
        spec_scan(wire_format(entries)) == wire_tokens(entries),
{
    lemma_scan_delimiter();
    lemma_scan_entries(entries);
    let a = delimiter();
    let b = wire_entries(entries) + delimiter();
    assert(a + b =~= wire_format(entries));
    lemma_scan_prefix(a, b, 0);
    assert(scan_from(a, 0).drop_last() =~= seq![TokenView::Dash(3), TokenView::Newline(1)]);
    assert(scan_from(a + b, 0) =~= wire_tokens(entries));
}

/// Plain text is its own trimmed form.
proof fn lemma_trimmed_plain(text: Seq<char>)
    requires
        is_trimmed(text),
    ensures
        trimmed(text) == text,
        trimmed(seq![' '] + text) == text,
{
    lemma_leading_spaces_is(text, 0);
    assert(text.skip(0) =~= text);
    lemma_trailing_spaces_is(text, 0);
    assert(text.take(text.len() as int) =~= text);
    let padded = seq![' '] + text;
    assert(is_space(' '));
    assert(padded[0] == ' ');
    if text.len() > 0 {
        assert(padded[1] == text[0]);
    }
    lemma_leading_spaces_is(padded, 1);
    assert(padded.skip(1) =~= text);
}

/// The line of a wire-safe entry holds that entry.
pub proof fn lemma_entry_of(entry: (Seq<char>, Seq<char>))
    requires
        is_wire_safe(entry),
    ensures
        entry_of(line_of(entry)) == Some(entry),
{
    let line = line_of(entry);
    let k = entry.0.len() as int;
    assert forall|i: int| 0 <= i < k implies line[i] != ':' by {
        assert(line[i] == entry.0[i]);
    }
    assert(line[k] == ':');
    lemma_index_of_is(line, ':', k);
    assert(line.take(k) =~= entry.0);
    assert(line.skip(k + 1) =~= seq![' '] + entry.1);
    lemma_trimmed_plain(entry.0);
    lemma_trimmed_plain(entry.1);
}

/// Read from the `i`-th on, the lines of wire-safe entries complete the
/// table of the entries before them to the table of all.
proof fn lemma_parse_entries(entries: Seq<(Seq<char>, Seq<char>)>, i: int)
    requires
        forall|j: int| 0 <= j < entries.len() ==> is_wire_safe(#[trigger] entries[j]),
        0 <= i <= entries.len(),
    ensures
        spec_entries(wire_tokens(entries), 2 + 2 * i, table_of(entries.take(i))) == Ok::<
            _,
            ParseError,
        >((table_of(entries), 2 + 2 * (entries.len() as int))),
    decreases entries.len() - i,
{
    let tokens = wire_tokens(entries);
    let n = entries.len() as int;
    lemma_entry_tokens(entries, i);
    assert(tokens.len() == 2 * n + 5);
    if i < n {
        assert(tokens[2 + 2 * i] == entry_tokens(entries)[2 * i]);
        assert(tokens[2 + 2 * i + 1] == entry_tokens(entries)[2 * i + 1]);
        assert(is_wire_safe(entries[i]));
        lemma_entry_of(entries[i]);
        assert(entries.take(i + 1).drop_last() =~= entries.take(i));
        assert(entries.take(i + 1).last() == entries[i]);
        lemma_parse_entries(entries, i + 1);
    } else {
        assert(entries.take(i) =~= entries);
        assert(tokens[2 + 2 * n] == TokenView::Dash(3));
    }
}

/// A table written in the wire format is read back as the same table, with
/// no blocks behind it: for every sequence of wire-safe entries, the
/// document of their wire format has their table as its front matter.
pub proof fn lemma_front_matter_round_trip(entries: Seq<(Seq<char>, Seq<char>)>)
    requires
        forall|i: int| 0 <= i < entries.len() ==> is_wire_safe(#[trigger] entries[i]),
    ensures
        document_of(wire_format(entries)) == Ok::<_, ParseError>(
            MarkdownView { front_matter: table_of(entries), content: Seq::empty() },
        ),
{
    let tokens = wire_tokens(entries);
    let n = entries.len() as int;
    lemma_scan_wire_format(entries);
    lemma_entry_tokens(entries, 0);
    lemma_parse_entries(entries, 0);
    assert(entries.take(0) =~= Seq::<(Seq<char>, Seq<char>)>::empty());
    assert(tokens.len() == 2 * n + 5);
    assert(tokens[0] == TokenView::Dash(3));
    assert(tokens[1] == TokenView::Newline(1));
    assert(delimiter_at(tokens, 0));
    assert(tokens[2 + 2 * n] == TokenView::Dash(3));
    assert(tokens[2 + 2 * n + 1] == TokenView::Newline(1));
    assert(tokens[2 + 2 * n + 2] == TokenView::Eof);
    assert(spec_front_matter(tokens, 0) == Ok::<_, ParseError>(
        (table_of(entries), 2 * n + 4),
    ));
    assert(spec_blocks(tokens, 2 * n + 4, Seq::empty()) == Ok::<_, ParseError>(
        (Seq::<BlockView>::empty(), 2 * n + 4),
    ));
}

/// The lines of entries with one more entry are the lines of the entries
/// and the line of that entry.
pub proof fn lemma_wire_entries_push(
    entries: Seq<(Seq<char>, Seq<char>)>,
    entry: (Seq<char>, Seq<char>),
)
    ensures
        wire_entries(entries.push(entry)) == wire_entries(entries) + line_of(entry) + seq!['\n'],
    decreases entries.len(),
{
    let all = entries.push(entry);
    if entries.len() == 0 {
        assert(all[0] == entry);
        assert(all.drop_first() =~= Seq::<(Seq<char>, Seq<char>)>::empty());
        assert(wire_entries(all.drop_first()) =~= Seq::<char>::empty());
        assert(wire_entries(entries) =~= Seq::<char>::empty());
        assert(wire_entries(all) =~= wire_entries(entries) + line_of(entry) + seq!['\n']);
    } else {
        let rest = entries.drop_first();
        assert(all[0] == entries[0]);
        assert(all.drop_first() =~= rest.push(entry));
        lemma_wire_entries_push(rest, entry);
        assert(wire_entries(all) =~= wire_entries(entries) + line_of(entry) + seq!['\n']);
    }
}

/// Writes a table in the wire format, its entries in stored order.
pub fn to_wire(table: &FrontMatter) -> (text: String)
    ensures
        text@ == wire_format(table.pairs()),
{
    let mut text = String::from_str("---\n");
    proof {
        reveal_strlit("---\n");
        reveal_strlit(": ");
        assert("---\n"@ =~= delimiter());
        assert(": "@ =~= seq![':', ' ']);
        assert(table.pairs().take(0) =~= Seq::<(Seq<char>, Seq<char>)>::empty());
        assert(text@ =~= delimiter() + wire_entries(table.pairs().take(0)));
    }
    let count: usize = table.len();
    let mut i: usize = 0;
    while i < count
        invariant
            i <= count,
            count == table.pairs().len(),
            ": "@ == seq![':', ' '],
            text@ == delimiter() + wire_entries(table.pairs().take(i as int)),
        decreases count - i,
    {
        match table.entry(i) {
            Some((key, value)) => {
                text.append(key.as_str());
                text.append(": ");
                text.append(value.as_str());
                text.push('\n');
                proof {
                    let pairs = table.pairs();
                    lemma_wire_entries_push(pairs.take(i as int), pairs[i as int]);
                    assert(pairs.take(i + 1) =~= pairs.take(i as int).push(pairs[i as int]));
                    assert(text@ =~= delimiter() + wire_entries(pairs.take(i + 1)));
                }
            },
            None => {},
        }
        i += 1;
    }
    text.append("---\n");
    proof {
        assert(table.pairs().take(count as int) =~= table.pairs());
    }
    text
}

} // verus!
