use mackerel::scanner::{Scanner, Token};

#[test]
fn scanner_test() {
    let markdown_text = "---\n\
title: Test\n\
date: 2025-10-24\n\
---\n\
# heading 1\n\
\n\
First *paragraph.* [Link](https://ntalbs.github.io)\n";

    let mut scanner = Scanner::new(markdown_text);
    let tokens = scanner.scan();
    let expected_tokens = vec![
        Token::Dash(3),
        Token::Newline(1),
        Token::Text("title: Test".into()),
        Token::Newline(1),
        Token::Text("date: 2025".into()),
        Token::Dash(1),
        Token::Text("10".into()),
        Token::Dash(1),
        Token::Text("24".into()),
        Token::Newline(1),
        Token::Dash(3),
        Token::Newline(1),
        Token::Hash(1),
        Token::Whitespace,
        Token::Text("heading 1".into()),
        Token::Newline(2),
        Token::Text("First ".into()),
        Token::Star(1),
        Token::Text("paragraph.".into()),
        Token::Star(1),
        Token::Whitespace,
        Token::LeftBracket,
        Token::Text("Link".into()),
        Token::RightBracket,
        Token::LeftParen,
        Token::Text("https://ntalbs.github.io".into()),
        Token::RightParen,
        Token::Newline(1),
        Token::Eof,
    ];

    assert_eq!(tokens, expected_tokens);
}
