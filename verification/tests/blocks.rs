use mackerel::{parse_markdown, Block, ListItem, ParseError, ParseErrorKind, Run, TCell, TRow};

fn text(s: &str) -> Run {
    Run::Text(s.to_string())
}

fn blocks(input: &str) -> Vec<Block> {
    parse_markdown(input).unwrap().content
}

fn error(input: &str) -> ParseError {
    parse_markdown(input).unwrap_err()
}

fn item(s: &str) -> ListItem {
    ListItem { runs: vec![text(s)], nested: None }
}

fn list(items: Vec<ListItem>) -> Block {
    Block::List { ordered: false, items }
}

#[test]
fn an_empty_document_has_no_blocks() {
    assert_eq!(blocks(""), vec![]);
    assert_eq!(blocks("\n\n\n"), vec![]);
}

#[test]
fn headings_have_levels_one_to_six() {
    for level in 1..=6u8 {
        let input = format!("{} title", "#".repeat(level as usize));
        assert_eq!(blocks(&input), vec![Block::Heading { level, runs: vec![text("title")] }]);
    }
}

#[test]
fn seven_hashes_are_no_heading() {
    assert_eq!(
        error("####### title"),
        ParseError { kind: ParseErrorKind::UnexpectedToken, position: Some(0) }
    );
}

#[test]
fn a_hash_without_space_is_no_heading() {
    assert_eq!(
        error("#title"),
        ParseError { kind: ParseErrorKind::UnexpectedToken, position: Some(0) }
    );
}

#[test]
fn a_heading_ends_at_the_line_end() {
    assert_eq!(
        blocks("# one\ntwo"),
        vec![
            Block::Heading { level: 1, runs: vec![text("one")] },
            Block::Paragraph(vec![text("two")]),
        ]
    );
}

#[test]
fn a_heading_holds_runs() {
    assert_eq!(
        blocks("## a *b*\n"),
        vec![Block::Heading { level: 2, runs: vec![text("a "), Run::Italic(vec![text("b")])] }]
    );
}

#[test]
fn emphasis_in_a_heading_ends_with_the_line() {
    assert_eq!(
        error("# *a\nb*"),
        ParseError { kind: ParseErrorKind::UnterminatedEmphasis, position: Some(4) }
    );
}

#[test]
fn blank_lines_separate_paragraphs() {
    assert_eq!(
        blocks("one\n\ntwo\n\n\n\nthree"),
        vec![
            Block::Paragraph(vec![text("one")]),
            Block::Paragraph(vec![text("two")]),
            Block::Paragraph(vec![text("three")]),
        ]
    );
}

#[test]
fn a_final_newline_ends_a_paragraph() {
    assert_eq!(
        blocks("one\ntwo\n"),
        vec![Block::Paragraph(vec![text("one"), text(" "), text("two")])]
    );
    assert_eq!(blocks("*one*\n"), vec![Block::Paragraph(vec![Run::Italic(vec![text("one")])])]);
}

#[test]
fn a_newline_at_the_start_is_part_of_the_paragraph() {
    assert_eq!(blocks("\none"), vec![Block::Paragraph(vec![text(" "), text("one")])]);
}

#[test]
fn a_list_has_an_item_for_each_marker() {
    assert_eq!(
        blocks("- one\n* two\n+ three\n"),
        vec![list(vec![item("one"), item("two"), item("three")])]
    );
}

#[test]
fn a_star_without_space_is_no_marker() {
    assert_eq!(blocks("*a*"), vec![Block::Paragraph(vec![Run::Italic(vec![text("a")])])]);
}

#[test]
fn a_dash_or_a_plus_needs_no_space() {
    assert_eq!(blocks("-one\n+two\n-  three"), vec![list(vec![
        item("one"),
        item("two"),
        ListItem { runs: vec![text(" "), text("three")], nested: None },
    ])]);
}

#[test]
fn indented_items_are_nested() {
    assert_eq!(
        blocks("- one\n  - a\n  - b\n- two"),
        vec![list(vec![
            ListItem { runs: vec![text("one")], nested: Some(list(vec![item("a"), item("b")])) },
            item("two"),
        ])]
    );
}

#[test]
fn nesting_has_one_level() {
    assert_eq!(
        blocks("- one\n - a\n    - b"),
        vec![list(vec![ListItem {
            runs: vec![text("one")],
            nested: Some(list(vec![item("a"), item("b")])),
        }])]
    );
}

#[test]
fn a_blank_line_ends_a_list() {
    assert_eq!(
        blocks("- one\n\n- two"),
        vec![list(vec![item("one")]), list(vec![item("two")])]
    );
    assert_eq!(
        blocks("- one\n  - a\n\n- two"),
        vec![
            list(vec![ListItem { runs: vec![text("one")], nested: Some(list(vec![item("a")])) }]),
            list(vec![item("two")]),
        ]
    );
}

#[test]
fn a_line_without_marker_ends_a_list() {
    assert_eq!(
        blocks("- one\ntwo"),
        vec![list(vec![item("one")]), Block::Paragraph(vec![text("two")])]
    );
}

#[test]
fn an_item_holds_runs() {
    assert_eq!(
        blocks("- a **b**"),
        vec![list(vec![ListItem {
            runs: vec![text("a "), Run::Bold(vec![text("b")])],
            nested: None,
        }])]
    );
}

#[test]
fn a_quote_holds_blocks() {
    assert_eq!(
        blocks("> # title\n>\n> one\n> two\n\nafter"),
        vec![
            Block::Quote(vec![
                Block::Heading { level: 1, runs: vec![text("title")] },
                Block::Paragraph(vec![text("one"), text(" "), text("two")]),
            ]),
            Block::Paragraph(vec![text("after")]),
        ]
    );
}

#[test]
fn an_empty_line_of_a_quote_is_a_blank_line() {
    assert_eq!(
        blocks("> one\n>\n>\n> two"),
        vec![Block::Quote(vec![
            Block::Paragraph(vec![text("one")]),
            Block::Paragraph(vec![text("two")]),
        ])]
    );
}

#[test]
fn a_quote_ends_at_a_line_without_bracket() {
    assert_eq!(
        blocks("> one\ntwo"),
        vec![
            Block::Quote(vec![Block::Paragraph(vec![text("one")])]),
            Block::Paragraph(vec![text("two")]),
        ]
    );
}

#[test]
fn quotes_nest() {
    assert_eq!(
        blocks("> > deep\n> shallow"),
        vec![Block::Quote(vec![
            Block::Quote(vec![Block::Paragraph(vec![text("deep")])]),
            Block::Paragraph(vec![text("shallow")]),
        ])]
    );
}

#[test]
fn a_quote_holds_a_list() {
    assert_eq!(
        blocks("> - a\n> - b"),
        vec![Block::Quote(vec![list(vec![item("a"), item("b")])])]
    );
}

#[test]
fn an_empty_quote_has_no_blocks() {
    assert_eq!(blocks(">"), vec![Block::Quote(vec![])]);
}

#[test]
fn an_error_in_a_quote_keeps_its_position() {
    assert_eq!(
        error("one\n\n> *a\n> b\n\nc"),
        ParseError { kind: ParseErrorKind::UnterminatedEmphasis, position: Some(10) }
    );
    assert_eq!(
        error("> a\n> [b]"),
        ParseError { kind: ParseErrorKind::MalformedLink, position: Some(9) }
    );
    assert_eq!(
        error("> a ``"),
        ParseError { kind: ParseErrorKind::UnexpectedToken, position: Some(3) }
    );
}

#[test]
fn a_fence_holds_raw_text() {
    assert_eq!(
        blocks("```\nlet *x* = [1];\n# no heading\n```\n"),
        vec![Block::Code { content: "let *x* = [1];\n# no heading\n".to_string() }]
    );
}

#[test]
fn a_fence_keeps_blank_lines() {
    assert_eq!(
        blocks("```\n\na\n\n\nb\n```"),
        vec![Block::Code { content: "\na\n\n\nb\n".to_string() }]
    );
}

#[test]
fn an_empty_fence_is_empty() {
    assert_eq!(blocks("```\n```"), vec![Block::Code { content: String::new() }]);
}

#[test]
fn backticks_inside_a_line_close_no_fence() {
    assert_eq!(
        blocks("```\na ``` b\n```\n\nafter"),
        vec![
            Block::Code { content: "a ``` b\n".to_string() },
            Block::Paragraph(vec![text("after")]),
        ]
    );
}

#[test]
fn an_unterminated_fence_fails() {
    assert_eq!(
        error("```\ncode\n"),
        ParseError { kind: ParseErrorKind::UnterminatedCodeFence, position: Some(4) }
    );
}

#[test]
fn a_fence_needs_its_own_line() {
    assert_eq!(
        error("```rust\ncode\n```"),
        ParseError { kind: ParseErrorKind::UnexpectedToken, position: Some(0) }
    );
}

#[test]
fn three_dashes_are_a_rule() {
    assert_eq!(
        blocks("one\n\n---\n\ntwo"),
        vec![
            Block::Paragraph(vec![text("one")]),
            Block::HorizontalRule,
            Block::Paragraph(vec![text("two")]),
        ]
    );
    assert_eq!(blocks("# t\n---"), vec![
        Block::Heading { level: 1, runs: vec![text("t")] },
        Block::HorizontalRule,
    ]);
}

#[test]
fn other_dashes_are_no_rule() {
    assert_eq!(
        error("one\n\n----"),
        ParseError { kind: ParseErrorKind::UnexpectedToken, position: Some(2) }
    );
}

fn cell(runs: Vec<Run>) -> TCell {
    TCell(runs)
}

#[test]
fn a_table_has_a_header_and_rows() {
    assert_eq!(
        blocks("|*a*|*b*|\n|---|---|\n|*c*|*d*|\n|*e*|*f*|\n\nafter"),
        vec![
            Block::Table {
                thead: TRow {
                    heading: true,
                    cells: vec![
                        cell(vec![Run::Italic(vec![text("a")])]),
                        cell(vec![Run::Italic(vec![text("b")])]),
                    ],
                },
                tbody: vec![
                    TRow {
                        heading: false,
                        cells: vec![
                            cell(vec![Run::Italic(vec![text("c")])]),
                            cell(vec![Run::Italic(vec![text("d")])]),
                        ],
                    },
                    TRow {
                        heading: false,
                        cells: vec![
                            cell(vec![Run::Italic(vec![text("e")])]),
                            cell(vec![Run::Italic(vec![text("f")])]),
                        ],
                    },
                ],
            },
            Block::Paragraph(vec![text("after")]),
        ]
    );
}

#[test]
fn plain_cells_are_cells() {
    assert_eq!(
        blocks("|a|b|\n|---|---|\n|c|d|"),
        vec![Block::Table {
            thead: TRow {
                heading: true,
                cells: vec![cell(vec![text("a")]), cell(vec![text("b")])],
            },
            tbody: vec![TRow {
                heading: false,
                cells: vec![cell(vec![text("c")]), cell(vec![text("d")])],
            }],
        }]
    );
    assert_eq!(
        blocks("| a | b |"),
        vec![Block::Table {
            thead: TRow {
                heading: true,
                cells: vec![cell(vec![text(" "), text("a ")]), cell(vec![text(" "), text("b ")])],
            },
            tbody: vec![],
        }]
    );
}

#[test]
fn a_table_may_have_a_header_only() {
    assert_eq!(
        blocks("|*a*|"),
        vec![Block::Table {
            thead: TRow { heading: true, cells: vec![cell(vec![Run::Italic(vec![text("a")])])] },
            tbody: vec![],
        }]
    );
}

#[test]
fn the_last_cell_may_stay_open() {
    assert_eq!(
        blocks("|*a*|b\n| --- | - |\n|`c`|d"),
        vec![Block::Table {
            thead: TRow {
                heading: true,
                cells: vec![cell(vec![Run::Italic(vec![text("a")])]), cell(vec![text("b")])],
            },
            tbody: vec![TRow {
                heading: false,
                cells: vec![cell(vec![Run::Code("c".to_string())]), cell(vec![text("d")])],
            }],
        }]
    );
}

#[test]
fn a_row_of_another_width_fails() {
    assert_eq!(
        error("|*a*|*b*|\n|---|---|\n|*c*|"),
        ParseError { kind: ParseErrorKind::MalformedTableRow, position: Some(16) }
    );
}

#[test]
fn a_separator_holds_dashes_and_pipes_only() {
    assert_eq!(
        error("|*a*|\n|*b*|"),
        ParseError { kind: ParseErrorKind::MalformedTableRow, position: Some(7) }
    );
}

#[test]
fn emphasis_does_not_cross_a_cell() {
    assert_eq!(
        error("|*`a`|b*|"),
        ParseError { kind: ParseErrorKind::UnexpectedToken, position: Some(5) }
    );
}
