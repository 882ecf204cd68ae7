use mackerel::scanner::{Scanner, Token};

fn scan(input: &str) -> Vec<Token> {
    Scanner::new(input).scan()
}

fn text(s: &str) -> Token {
    Token::Text(s.to_string())
}

#[test]
fn empty_input_is_only_eof() {
    assert_eq!(scan(""), vec![Token::Eof]);
}

#[test]
fn a_run_of_newlines_is_one_token() {
    assert_eq!(scan("\n"), vec![Token::Newline(1), Token::Eof]);
    assert_eq!(scan("\n\n\n"), vec![Token::Newline(3), Token::Eof]);
}

#[test]
fn a_run_of_hashes_is_one_token() {
    assert_eq!(scan("######"), vec![Token::Hash(6), Token::Eof]);
}

#[test]
fn a_run_of_stars_is_one_token() {
    assert_eq!(scan("**"), vec![Token::Star(2), Token::Eof]);
}

#[test]
fn a_run_of_backticks_is_one_token() {
    assert_eq!(scan("```"), vec![Token::Backtick(3), Token::Eof]);
}

#[test]
fn a_run_of_dashes_is_one_token() {
    assert_eq!(scan("-----"), vec![Token::Dash(5), Token::Eof]);
}

#[test]
fn a_long_run_keeps_its_length() {
    let input = "*".repeat(300);
    assert_eq!(scan(&input), vec![Token::Star(300), Token::Eof]);
}

#[test]
fn different_runs_do_not_merge() {
    assert_eq!(
        scan("##**--``\n\n"),
        vec![
            Token::Hash(2),
            Token::Star(2),
            Token::Dash(2),
            Token::Backtick(2),
            Token::Newline(2),
            Token::Eof,
        ]
    );
}

#[test]
fn punctuation_is_one_token_each() {
    assert_eq!(
        scan("+_!~|^()[]>"),
        vec![
            Token::Plus,
            Token::Underscore,
            Token::Exclamination,
            Token::Tilde,
            Token::VerticalLine,
            Token::Caret,
            Token::LeftParen,
            Token::RightParen,
            Token::LeftBracket,
            Token::RightBracket,
            Token::RightAngleBracket,
            Token::Eof,
        ]
    );
}

#[test]
fn repeated_punctuation_is_not_collapsed() {
    assert_eq!(scan("++"), vec![Token::Plus, Token::Plus, Token::Eof]);
}

#[test]
fn spaces_are_not_collapsed() {
    assert_eq!(
        scan("   "),
        vec![Token::Whitespace, Token::Whitespace, Token::Whitespace, Token::Eof]
    );
}

#[test]
fn text_runs_to_the_next_breaker() {
    assert_eq!(
        scan("one two*three"),
        vec![text("one two"), Token::Star(1), text("three"), Token::Eof]
    );
}

#[test]
fn a_space_stays_inside_a_text() {
    assert_eq!(scan("one two  three "), vec![text("one two  three "), Token::Eof]);
}

#[test]
fn a_text_ends_before_a_delimiter() {
    assert_eq!(scan("a#b"), vec![text("a"), Token::Hash(1), text("b"), Token::Eof]);
    assert_eq!(scan("a--b"), vec![text("a"), Token::Dash(2), text("b"), Token::Eof]);
    assert_eq!(
        scan("a - b # c + d!"),
        vec![
            text("a "),
            Token::Dash(1),
            Token::Whitespace,
            text("b "),
            Token::Hash(1),
            Token::Whitespace,
            text("c "),
            Token::Plus,
            Token::Whitespace,
            text("d"),
            Token::Exclamination,
            Token::Eof,
        ]
    );
    assert_eq!(
        scan("x|y~z^w>v"),
        vec![
            text("x"),
            Token::VerticalLine,
            text("y"),
            Token::Tilde,
            text("z"),
            Token::Caret,
            text("w"),
            Token::RightAngleBracket,
            text("v"),
            Token::Eof,
        ]
    );
}

#[test]
fn a_table_row_has_a_token_for_each_pipe() {
    assert_eq!(
        scan("|a|b|"),
        vec![
            Token::VerticalLine,
            text("a"),
            Token::VerticalLine,
            text("b"),
            Token::VerticalLine,
            Token::Eof,
        ]
    );
}

#[test]
fn an_image_behind_text_keeps_its_mark() {
    assert_eq!(
        scan("a ![x](y)"),
        vec![
            text("a "),
            Token::Exclamination,
            Token::LeftBracket,
            text("x"),
            Token::RightBracket,
            Token::LeftParen,
            text("y"),
            Token::RightParen,
            Token::Eof,
        ]
    );
}

#[test]
fn each_breaker_ends_a_text() {
    let breakers = [
        "\n", "#", "*", "`", "-", "+", "_", "!", "~", "|", "^", "(", ")", "[", "]", ">",
    ];
    for breaker in breakers {
        let input = format!("ab{breaker}");
        let tokens = scan(&input);
        assert_eq!(tokens.len(), 3, "{breaker}");
        assert_eq!(tokens[0], text("ab"));
        assert_ne!(tokens[1], text(breaker));
        assert_eq!(tokens[2], Token::Eof);
    }
}

#[test]
fn no_text_holds_a_delimiter() {
    let input = "---\nk: v-w\n---\n# T!\n\n* a **b** `c`+d\n> q ~ r\n\n|x|y^z|\n(a)[b]_c_";
    for token in scan(input) {
        if let Token::Text(content) = token {
            assert!(!content.is_empty());
            assert!(!content.starts_with(' '));
            assert!(!content.contains(|c| "\n#*`-+_!~|^()[]>".contains(c)), "{content}");
        }
    }
}

#[test]
fn no_text_is_followed_by_text_or_space() {
    let tokens = scan("one two*three  four#five six ");
    for pair in tokens.windows(2) {
        if matches!(pair[0], Token::Text(_)) {
            assert!(!matches!(pair[1], Token::Text(_) | Token::Whitespace));
        }
    }
}

#[test]
fn text_is_not_normalized() {
    assert_eq!(scan("Ünï\tcödé"), vec![text("Ünï\tcödé"), Token::Eof]);
}

#[test]
fn a_space_at_the_start_of_a_token_is_whitespace() {
    assert_eq!(
        scan("* item"),
        vec![Token::Star(1), Token::Whitespace, text("item"), Token::Eof]
    );
}

#[test]
fn the_last_token_is_the_only_eof() {
    for input in ["", "a", "# t\n\n*x* [y](z)\n", "```\n|\n```", "   \n\n\n"] {
        let tokens = scan(input);
        assert_eq!(tokens.last(), Some(&Token::Eof));
        let count = tokens.iter().filter(|t| **t == Token::Eof).count();
        assert_eq!(count, 1);
    }
}

#[test]
fn the_tokens_stand_for_the_input() {
    let input = "---\nk: v\n---\n# T\n\n* a **b** `c`\n> q\n\n|x|\n";
    let mut source = String::new();
    for token in scan(input) {
        token.write_source(&mut source);
    }
    assert_eq!(source, input);
}

#[test]
fn scanning_twice_continues_at_the_end() {
    let mut scanner = Scanner::new("ab");
    assert_eq!(scanner.scan(), vec![text("ab"), Token::Eof]);
    assert_eq!(scanner.scan(), vec![Token::Eof]);
}

#[test]
fn tokens_compare_by_value() {
    assert!(text("a").same(&text("a")));
    assert!(!text("a").same(&text("b")));
    assert!(Token::Star(2).same(&Token::Star(2)));
    assert!(!Token::Star(2).same(&Token::Star(3)));
    assert!(!Token::Star(2).same(&Token::Hash(2)));
    assert_eq!(text("a").duplicate(), text("a"));
    assert_eq!(Token::Dash(3).duplicate(), Token::Dash(3));
}
