use mackerel::parser::Parser;
use mackerel::scanner::Token;
use mackerel::{parse_markdown, Block, ParseError, ParseErrorKind, Run};

fn text(s: &str) -> Run {
    Run::Text(s.to_string())
}

fn paragraph(input: &str) -> Vec<Run> {
    let mut content = parse_markdown(input).unwrap().content;
    assert_eq!(content.len(), 1);
    match content.remove(0) {
        Block::Paragraph(runs) => runs,
        other => panic!("not a paragraph: {other:?}"),
    }
}

fn error(input: &str) -> ParseError {
    parse_markdown(input).unwrap_err()
}

#[test]
fn three_stars_are_bold_around_italic() {
    assert_eq!(
        paragraph("***bold italic***"),
        vec![Run::Bold(vec![Run::Italic(vec![text("bold italic")])])]
    );
}

#[test]
fn two_stars_are_bold() {
    assert_eq!(paragraph("**bold**"), vec![Run::Bold(vec![text("bold")])]);
}

#[test]
fn one_star_is_italic() {
    assert_eq!(paragraph("*italic*"), vec![Run::Italic(vec![text("italic")])]);
}

#[test]
fn emphasis_nests() {
    assert_eq!(
        paragraph("**a *b* c**"),
        vec![Run::Bold(vec![text("a "), Run::Italic(vec![text("b")]), text(" "), text("c")])]
    );
}

#[test]
fn unterminated_emphasis_fails() {
    assert_eq!(
        error("*oops"),
        ParseError { kind: ParseErrorKind::UnterminatedEmphasis, position: Some(2) }
    );
    assert_eq!(error("**oops*").kind, ParseErrorKind::UnterminatedEmphasis);
    assert_eq!(error("a ***b\n\nc").kind, ParseErrorKind::UnterminatedEmphasis);
}

#[test]
fn emphasis_must_close_before_the_last_newline() {
    assert_eq!(
        error("*a\n"),
        ParseError { kind: ParseErrorKind::UnterminatedEmphasis, position: Some(2) }
    );
}

#[test]
fn emphasis_does_not_cross_a_blank_line() {
    assert_eq!(
        error("*a\n\nb*"),
        ParseError { kind: ParseErrorKind::UnterminatedEmphasis, position: Some(2) }
    );
}

#[test]
fn four_stars_are_unexpected() {
    assert_eq!(
        error("****"),
        ParseError { kind: ParseErrorKind::UnexpectedToken, position: Some(0) }
    );
}

#[test]
fn a_link_has_text_and_target() {
    assert_eq!(
        paragraph("[Link](https://x.test)"),
        vec![Run::Link { url: "https://x.test".to_string(), inner: vec![text("Link")] }]
    );
}

#[test]
fn link_text_is_parsed_as_runs() {
    assert_eq!(
        paragraph("[a *b*](u)"),
        vec![Run::Link {
            url: "u".to_string(),
            inner: vec![text("a "), Run::Italic(vec![text("b")])],
        }]
    );
}

#[test]
fn a_link_without_target_fails() {
    assert_eq!(
        error("[Link]"),
        ParseError { kind: ParseErrorKind::MalformedLink, position: Some(3) }
    );
    assert_eq!(
        error("[Link] (u)"),
        ParseError { kind: ParseErrorKind::MalformedLink, position: Some(3) }
    );
}

#[test]
fn a_link_with_a_broken_target_fails() {
    assert_eq!(
        error("[a]()"),
        ParseError { kind: ParseErrorKind::MalformedLink, position: Some(4) }
    );
    assert_eq!(
        error("[a](u"),
        ParseError { kind: ParseErrorKind::MalformedLink, position: Some(5) }
    );
    assert_eq!(
        error("[a](u_v)"),
        ParseError { kind: ParseErrorKind::MalformedLink, position: Some(5) }
    );
}

#[test]
fn an_unclosed_bracket_fails() {
    assert_eq!(
        error("[Link"),
        ParseError { kind: ParseErrorKind::MalformedLink, position: Some(2) }
    );
}

#[test]
fn an_image_keeps_the_plain_text() {
    assert_eq!(
        paragraph("![a **b** `c`](pic.png)"),
        vec![Run::Image { url: "pic.png".to_string(), alt: "a b c".to_string() }]
    );
}

#[test]
fn an_exclamation_mark_alone_is_unexpected() {
    assert_eq!(
        error("*a*!"),
        ParseError { kind: ParseErrorKind::UnexpectedToken, position: Some(3) }
    );
}

#[test]
fn a_code_span_is_raw() {
    assert_eq!(
        paragraph("`a *b* [c](d) | e`"),
        vec![Run::Code("a *b* [c](d) | e".to_string())]
    );
}

#[test]
fn an_unclosed_code_span_fails() {
    assert_eq!(
        error("`code"),
        ParseError { kind: ParseErrorKind::UnexpectedToken, position: Some(2) }
    );
}

#[test]
fn two_backticks_are_unexpected() {
    assert_eq!(
        error("a ``b``"),
        ParseError { kind: ParseErrorKind::UnexpectedToken, position: Some(1) }
    );
}

#[test]
fn whitespace_is_text() {
    assert_eq!(
        paragraph("*a* *b*"),
        vec![Run::Italic(vec![text("a")]), text(" "), Run::Italic(vec![text("b")])]
    );
}

#[test]
fn every_space_is_a_run_of_its_own() {
    assert_eq!(
        paragraph("*a*   b"),
        vec![Run::Italic(vec![text("a")]), text(" "), text(" "), text(" "), text("b")]
    );
    let tokens = vec![
        Token::Whitespace,
        Token::Whitespace,
        Token::Text("a".to_string()),
        Token::Eof,
    ];
    assert_eq!(
        Parser::new(&tokens).parse().unwrap().content,
        vec![Block::Paragraph(vec![text(" "), text(" "), text("a")])]
    );
}

#[test]
fn text_behind_text_is_a_run_of_its_own() {
    let tokens = vec![
        Token::Text("a".to_string()),
        Token::Text("b".to_string()),
        Token::Eof,
    ];
    assert_eq!(
        Parser::new(&tokens).parse().unwrap().content,
        vec![Block::Paragraph(vec![text("a"), text("b")])]
    );
}

#[test]
fn an_image_may_stand_behind_text() {
    assert_eq!(
        paragraph("a ![x](y)"),
        vec![text("a "), Run::Image { url: "y".to_string(), alt: "x".to_string() }]
    );
}

#[test]
fn a_single_newline_is_a_space() {
    assert_eq!(paragraph("one\ntwo"), vec![text("one"), text(" "), text("two")]);
    assert_eq!(
        paragraph("*one*\n*two*"),
        vec![Run::Italic(vec![text("one")]), text(" "), Run::Italic(vec![text("two")])]
    );
}

#[test]
fn two_trailing_spaces_make_a_line_break() {
    assert_eq!(
        paragraph("one  \ntwo"),
        vec![text("one  "), Run::LineBreak, text("two")]
    );
    assert_eq!(
        paragraph("*one*  \ntwo"),
        vec![Run::Italic(vec![text("one")]), text(" "), text(" "), Run::LineBreak, text("two")]
    );
}

#[test]
fn the_spaces_before_a_line_break_are_counted_over_runs() {
    let one_space = || Token::Whitespace;
    let newline = || Token::Newline(1);
    let word = |s: &str| Token::Text(s.to_string());
    let tokens = vec![word("a "), one_space(), newline(), word("b"), Token::Eof];
    assert_eq!(
        Parser::new(&tokens).parse().unwrap().content,
        vec![Block::Paragraph(vec![text("a "), text(" "), Run::LineBreak, text("b")])]
    );
    let tokens = vec![word("a"), one_space(), newline(), word("b"), Token::Eof];
    assert_eq!(
        Parser::new(&tokens).parse().unwrap().content,
        vec![Block::Paragraph(vec![text("a"), text(" "), text(" "), text("b")])]
    );
    let tokens = vec![word("  "), newline(), word("b"), Token::Eof];
    assert_eq!(
        Parser::new(&tokens).parse().unwrap().content,
        vec![Block::Paragraph(vec![text("  "), Run::LineBreak, text("b")])]
    );
    let tokens = vec![word("a  x"), newline(), word("b"), Token::Eof];
    assert_eq!(
        Parser::new(&tokens).parse().unwrap().content,
        vec![Block::Paragraph(vec![text("a  x"), text(" "), text("b")])]
    );
}

#[test]
fn one_trailing_space_makes_no_line_break() {
    assert_eq!(paragraph("one \ntwo"), vec![text("one "), text(" "), text("two")]);
}

#[test]
fn text_newline_text_is_three_runs() {
    let tokens = vec![
        Token::Text("a".to_string()),
        Token::Newline(1),
        Token::Text("b".to_string()),
        Token::Eof,
    ];
    assert_eq!(
        Parser::new(&tokens).parse().unwrap().content,
        vec![Block::Paragraph(vec![text("a"), text(" "), text("b")])]
    );
}

#[test]
fn other_tokens_are_unexpected() {
    let inputs = [
        "a (b)", "a _b_", "a ]", "*a*~", "*a*^", "*a*+", "*a*>", "*a*#", "*a*-", "*a*|", "a-b",
        "a#b", "a+b", "a~b", "a|b", "a^b", "a>b", "Hi!",
    ];
    for input in inputs {
        assert_eq!(error(input).kind, ParseErrorKind::UnexpectedToken, "{input}");
    }
}

#[test]
fn empty_emphasis_is_unexpected() {
    let tokens = vec![Token::Star(1), Token::Star(1), Token::Eof];
    assert_eq!(
        Parser::new(&tokens).parse().unwrap_err(),
        ParseError { kind: ParseErrorKind::UnexpectedToken, position: Some(1) }
    );
}

#[test]
fn an_error_beyond_the_tokens_has_no_position() {
    let tokens = vec![Token::Star(1), Token::Text("a".to_string())];
    assert_eq!(
        Parser::new(&tokens).parse().unwrap_err(),
        ParseError { kind: ParseErrorKind::UnterminatedEmphasis, position: None }
    );
}

#[test]
fn every_kind_has_its_message() {
    let message = |kind| ParseError { kind, position: None }.message();
    assert_eq!(message(ParseErrorKind::InvalidFrontMatter), "invalid front matter delimiter");
    assert_eq!(message(ParseErrorKind::UnterminatedEmphasis), "unterminated emphasis");
    assert_eq!(message(ParseErrorKind::MalformedLink), "malformed link target");
    assert_eq!(message(ParseErrorKind::UnterminatedCodeFence), "unterminated code fence");
    assert_eq!(message(ParseErrorKind::UnexpectedToken), "unexpected token in inline context");
    assert_eq!(message(ParseErrorKind::MalformedTableRow), "malformed table row");
}
