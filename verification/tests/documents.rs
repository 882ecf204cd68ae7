use mackerel::wire::to_wire;
use mackerel::{
    parse_markdown, render, Block, FrontMatter, ListItem, ParseError, ParseErrorKind, Run, TCell,
    TRow,
};

fn text(s: &str) -> Run {
    Run::Text(s.to_string())
}

fn wire(entries: &[(&str, &str)]) -> String {
    let mut out = String::from("---\n");
    for (key, value) in entries {
        out.push_str(key);
        out.push_str(": ");
        out.push_str(value);
        out.push('\n');
    }
    out.push_str("---\n");
    out
}

#[test]
fn end_to_end() {
    let input = "---\ntitle: Test\n---\n# Heading\n\nPlain *em* and **strong**.";
    let document = parse_markdown(input).unwrap();
    assert_eq!(document.front_matter.len(), 1);
    assert_eq!(document.front_matter.get("title"), Some(&"Test".to_string()));
    assert_eq!(
        document.content,
        vec![
            Block::Heading { level: 1, runs: vec![text("Heading")] },
            Block::Paragraph(vec![
                text("Plain "),
                Run::Italic(vec![text("em")]),
                text(" "),
                text("and "),
                Run::Bold(vec![text("strong")]),
                text("."),
            ]),
        ]
    );
    assert_eq!(render(&document), "<h1>Heading</h1><p>Plain <i>em</i> and <b>strong</b>.</p>");
}

#[test]
fn without_front_matter_the_table_is_empty() {
    let document = parse_markdown("# title").unwrap();
    assert_eq!(document.front_matter.len(), 0);
    assert!(document.front_matter.entry(0).is_none());
    assert_eq!(document.content.len(), 1);
}

#[test]
fn front_matter_round_trip() {
    let entries = [("title", "Test"), ("date", "2025.10.24"), ("", "no key"), ("empty", "")];
    let document = parse_markdown(&wire(&entries)).unwrap();
    assert_eq!(document.front_matter.len(), entries.len());
    for (key, value) in entries {
        assert_eq!(document.front_matter.get(key), Some(&value.to_string()));
    }
    assert!(document.content.is_empty());
}

#[test]
fn a_table_is_written_in_the_wire_format() {
    let mut table = FrontMatter::new();
    assert_eq!(to_wire(&table), "---\n---\n");
    table.insert("title".to_string(), "Test".to_string());
    table.insert("date".to_string(), "2025-10-24".to_string());
    table.insert("title".to_string(), "Other".to_string());
    assert_eq!(to_wire(&table), "---\ntitle: Other\ndate: 2025-10-24\n---\n");
}

#[test]
fn a_written_table_is_read_back() {
    let mut table = FrontMatter::new();
    table.insert("title".to_string(), "A b c".to_string());
    table.insert("".to_string(), "x".to_string());
    table.insert("k.1".to_string(), "".to_string());
    let document = parse_markdown(&to_wire(&table)).unwrap();
    assert_eq!(document.front_matter.len(), table.len());
    let mut index = 0;
    while let Some((key, value)) = table.entry(index) {
        assert_eq!(document.front_matter.get(key), Some(value));
        index += 1;
    }
    assert_eq!(index, 3);
    assert!(document.content.is_empty());
}

#[test]
fn a_table_that_is_not_plain_is_not_read_back() {
    let mut table = FrontMatter::new();
    table.insert("a*b".to_string(), "c".to_string());
    assert!(parse_markdown(&to_wire(&table)).is_err());
    let mut table = FrontMatter::new();
    table.insert("date".to_string(), "2025-10-24".to_string());
    assert_eq!(
        parse_markdown(&to_wire(&table)).unwrap_err(),
        ParseError { kind: ParseErrorKind::InvalidFrontMatter, position: Some(3) }
    );
    let mut table = FrontMatter::new();
    table.insert("#k".to_string(), "v".to_string());
    assert!(parse_markdown(&to_wire(&table)).is_err());
    let mut table = FrontMatter::new();
    table.insert("a ".to_string(), "c".to_string());
    let document = parse_markdown(&to_wire(&table)).unwrap();
    assert_eq!(document.front_matter.get("a "), None);
    assert_eq!(document.front_matter.get("a"), Some(&"c".to_string()));
}

#[test]
fn an_empty_front_matter_round_trips() {
    let document = parse_markdown(&wire(&[])).unwrap();
    assert_eq!(document.front_matter.len(), 0);
    assert!(document.content.is_empty());
}

#[test]
fn keys_and_values_are_trimmed() {
    let document = parse_markdown("---\nkey \t:  \u{a0}value\u{3000} \n---\n").unwrap();
    assert_eq!(document.front_matter.get("key"), Some(&"value".to_string()));
}

#[test]
fn a_line_splits_at_its_first_colon() {
    let document = parse_markdown("---\nurl: https://x.test:80\n---\n").unwrap();
    assert_eq!(document.front_matter.get("url"), Some(&"https://x.test:80".to_string()));
}

#[test]
fn a_later_entry_replaces_an_earlier_one() {
    let document = parse_markdown("---\nk: one\nj: other\nk: two\n---\n").unwrap();
    assert_eq!(document.front_matter.len(), 2);
    assert_eq!(document.front_matter.get("k"), Some(&"two".to_string()));
    assert_eq!(document.front_matter.get("j"), Some(&"other".to_string()));
    assert_eq!(document.front_matter.get("i"), None);
}

#[test]
fn an_unclosed_front_matter_fails() {
    assert_eq!(
        parse_markdown("---\nk: v\n# title").unwrap_err(),
        ParseError { kind: ParseErrorKind::InvalidFrontMatter, position: Some(4) }
    );
    assert_eq!(
        parse_markdown("---\nk: v\n---").unwrap_err(),
        ParseError { kind: ParseErrorKind::InvalidFrontMatter, position: Some(5) }
    );
    assert_eq!(
        parse_markdown("---\nk: v\n---\n\n# title").unwrap_err(),
        ParseError { kind: ParseErrorKind::InvalidFrontMatter, position: Some(5) }
    );
}

#[test]
fn a_line_without_colon_fails() {
    assert_eq!(
        parse_markdown("---\nno colon\n---\n").unwrap_err(),
        ParseError { kind: ParseErrorKind::InvalidFrontMatter, position: Some(2) }
    );
}

#[test]
fn an_entry_must_fill_its_line() {
    assert_eq!(
        parse_markdown("---\nk: a*b\n---\n").unwrap_err(),
        ParseError { kind: ParseErrorKind::InvalidFrontMatter, position: Some(3) }
    );
}

#[test]
fn dashes_before_a_blank_line_open_no_front_matter() {
    let document = parse_markdown("---\n\ntext").unwrap();
    assert_eq!(document.front_matter.len(), 0);
    assert_eq!(
        document.content,
        vec![Block::HorizontalRule, Block::Paragraph(vec![text("text")])]
    );
}

#[test]
fn a_table_of_entries() {
    let mut table = FrontMatter::new();
    assert_eq!(table.len(), 0);
    table.insert("a".to_string(), "1".to_string());
    table.insert("b".to_string(), "2".to_string());
    table.insert("a".to_string(), "3".to_string());
    assert_eq!(table.len(), 2);
    assert_eq!(table.get("a"), Some(&"3".to_string()));
    assert_eq!(table.get("b"), Some(&"2".to_string()));
    assert_eq!(table.get("c"), None);
    assert_eq!(table.entry(0), Some((&"a".to_string(), &"3".to_string())));
    assert_eq!(table.entry(1), Some((&"b".to_string(), &"2".to_string())));
    assert_eq!(table.entry(2), None);
}

#[test]
fn tables_are_equal_in_any_order() {
    let mut one = FrontMatter::new();
    one.insert("a".to_string(), "1".to_string());
    one.insert("b".to_string(), "2".to_string());
    let mut other = FrontMatter::new();
    other.insert("b".to_string(), "2".to_string());
    other.insert("a".to_string(), "1".to_string());
    assert!(one == other);
    other.insert("a".to_string(), "3".to_string());
    assert!(one != other);
    other.insert("a".to_string(), "1".to_string());
    other.insert("c".to_string(), "1".to_string());
    assert!(one != other);
    assert!(FrontMatter::new() == FrontMatter::new());
    assert!(one != FrontMatter::new());
}

#[test]
fn documents_are_equal_by_value() {
    let one = parse_markdown("---\na: 1\nb: 2\n---\n# t\n\n*x*").unwrap();
    let same = parse_markdown("---\nb: 2\na: 1\n---\n# t\n\n\n*x*\n").unwrap();
    let other = parse_markdown("---\na: 1\nb: 2\n---\n# t\n\n**x**").unwrap();
    assert_eq!(one, same);
    assert_ne!(one, other);
}

#[test]
fn runs_render() {
    assert_eq!(text("text").render(), "text");
    assert_eq!(Run::Bold(vec![text("bold")]).render(), "<b>bold</b>");
    assert_eq!(Run::Italic(vec![text("italic")]).render(), "<i>italic</i>");
    assert_eq!(
        Run::Link { url: "https://local.host".to_string(), inner: vec![text("target")] }.render(),
        "<a href=\"https://local.host\">target</a>"
    );
    assert_eq!(
        Run::Image { url: "https://local.host/img".to_string(), alt: "alt text".to_string() }
            .render(),
        "<img src=\"https://local.host/img\" alt=\"alt text\">"
    );
    assert_eq!(Run::Code("code".to_string()).render(), "<code>code</code>");
    assert_eq!(Run::LineBreak.render(), "<br>");
}

#[test]
fn headings_render_with_their_level() {
    for level in 1..=6u8 {
        let block = Block::Heading { level, runs: vec![text("t")] };
        assert_eq!(block.render(), format!("<h{level}>t</h{level}>"));
    }
    assert_eq!(Block::Heading { level: 0, runs: vec![] }.render(), "<h0></h0>");
    assert_eq!(Block::Heading { level: 42, runs: vec![] }.render(), "<h42></h42>");
    assert_eq!(Block::Heading { level: 255, runs: vec![] }.render(), "<h255></h255>");
}

#[test]
fn blocks_render() {
    assert_eq!(Block::Paragraph(vec![text("a"), Run::LineBreak]).render(), "<p>a<br></p>");
    assert_eq!(Block::HorizontalRule.render(), "<hr>");
    assert_eq!(
        Block::Code { content: "x\n".to_string() }.render(),
        "<pre><code>x\n</code></pre>"
    );
    assert_eq!(
        Block::Quote(vec![Block::Paragraph(vec![text("q")]), Block::HorizontalRule]).render(),
        "<blockquote><p>q</p><hr></blockquote>"
    );
}

#[test]
fn lists_render() {
    let inner = Block::List {
        ordered: true,
        items: vec![ListItem { runs: vec![text("b")], nested: None }],
    };
    let outer = Block::List {
        ordered: false,
        items: vec![
            ListItem { runs: vec![text("a")], nested: Some(inner) },
            ListItem { runs: vec![text("c")], nested: None },
        ],
    };
    assert_eq!(outer.render(), "<ul><li>a<ol><li>b</li></ol></li><li>c</li></ul>");
}

#[test]
fn tables_render() {
    let table = Block::Table {
        thead: TRow { heading: true, cells: vec![TCell(vec![text("h")]), TCell(vec![])] },
        tbody: vec![TRow {
            heading: false,
            cells: vec![TCell(vec![text("a")]), TCell(vec![Run::Code("b".to_string())])],
        }],
    };
    assert_eq!(
        table.render(),
        "<table><tr><th>h</th><th></th></tr><tr><td>a</td><td><code>b</code></td></tr></table>"
    );
}

#[test]
fn a_document_renders_block_after_block() {
    let document = parse_markdown("# a\n\n- b\n  - c\n\n> d\n\n```\ne\n```\n\n---\n").unwrap();
    assert_eq!(
        render(&document),
        "<h1>a</h1><ul><li>b<ul><li>c</li></ul></li></ul><blockquote><p>d</p></blockquote>\
<pre><code>e\n</code></pre><hr>"
    );
}
