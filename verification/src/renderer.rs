//! HTML for a document tree.
//!
//! The tree is walked depth first and every node becomes a pair of tags
//! around the HTML of its children. Text is written as it stands.

use crate::markdown::{
    block_views, cell_views, item_views, row_views, run_views, Block, BlockView, ListItem,
    ListItemView, Markdown, MarkdownView, Run, RunView, TCell, TRow, TRowView,
};
use vstd::prelude::*;

verus! {

/// The HTML of a run.
pub open spec fn html_of_run(run: RunView) -> Seq<char>
    decreases run,
{
    match run {
        RunView::Text(text) => text,
        RunView::Bold(inner) => "<b>"@ + html_of_runs(inner) + "</b>"@,
        RunView::Italic(inner) => "<i>"@ + html_of_runs(inner) + "</i>"@,
        RunView::Link { url, inner } => "<a href=\""@ + url + "\">"@ + html_of_runs(inner)
            + "</a>"@,
        RunView::Image { url, alt } => "<img src=\""@ + url + "\" alt=\""@ + alt + "\">"@,
        RunView::Code(text) => "<code>"@ + text + "</code>"@,
        RunView::LineBreak => "<br>"@,
    }
}

/// The HTML of a run sequence: that of its runs, one after the other.
pub open spec fn html_of_runs(runs: Seq<RunView>) -> Seq<char>
    decreases runs,
{
    if runs.len() == 0 {
        Seq::empty()
    } else {
        html_of_runs(runs.drop_last()) + html_of_run(runs.last())
    }
}

/// The character of a decimal digit.
pub open spec fn digit(d: nat) -> char {
    if d == 0 {
        '0'
    } else if d == 1 {
        '1'
    } else if d == 2 {
        '2'
    } else if d == 3 {
        '3'
    } else if d == 4 {
        '4'
    } else if d == 5 {
        '5'
    } else if d == 6 {
        '6'
    } else if d == 7 {
        '7'
    } else if d == 8 {
        '8'
    } else {
        '9'
    }
}

/// `n` in decimal.
pub open spec fn decimal(n: nat) -> Seq<char>
    decreases n,
{
    if n < 10 {
        seq![digit(n)]
    } else {
        decimal(n / 10).push(digit(n % 10))
    }
}

/// The HTML of the cells of a row: `th` in a heading row, `td` in others.
pub open spec fn html_of_cells(cells: Seq<Seq<RunView>>, heading: bool) -> Seq<char>
    decreases cells.len(),
{
    if cells.len() == 0 {
        Seq::empty()
    } else if heading {
        html_of_cells(cells.drop_last(), heading) + ("<th>"@ + html_of_runs(cells.last())
            + "</th>"@)
    } else {
        html_of_cells(cells.drop_last(), heading) + ("<td>"@ + html_of_runs(cells.last())
            + "</td>"@)
    }
}

/// The HTML of a table row.
pub open spec fn html_of_row(row: TRowView) -> Seq<char> {
    "<tr>"@ + html_of_cells(row.cells, row.heading) + "</tr>"@
}

/// The HTML of a sequence of table rows.
pub open spec fn html_of_rows(rows: Seq<TRowView>) -> Seq<char>
    decreases rows.len(),
{
    if rows.len() == 0 {
        Seq::empty()
    } else {
        html_of_rows(rows.drop_last()) + html_of_row(rows.last())
    }
}

/// The HTML of a list item: its runs, then its nested block.
pub open spec fn html_of_item(item: ListItemView) -> Seq<char>
    decreases item,
{
    "<li>"@ + html_of_runs(item.runs) + match item.nested {
        Some(block) => html_of_block(block),
        None => Seq::empty(),
    } + "</li>"@
}

/// The HTML of a sequence of list items.
pub open spec fn html_of_items(items: Seq<ListItemView>) -> Seq<char>
    decreases items,
{
    if items.len() == 0 {
        Seq::empty()
    } else {
        html_of_items(items.drop_last()) + html_of_item(items.last())
    }
}

/// The HTML of a block.
pub open spec fn html_of_block(block: BlockView) -> Seq<char>
    decreases block,
{
    match block {
        BlockView::Heading { level, runs } => "<h"@ + decimal(level as nat) + ">"@ + html_of_runs(
            runs,
        ) + "</h"@ + decimal(level as nat) + ">"@,
        BlockView::Paragraph(runs) => "<p>"@ + html_of_runs(runs) + "</p>"@,
        BlockView::List { ordered, items } => if ordered {
            "<ol>"@ + html_of_items(items) + "</ol>"@
        } else {
            "<ul>"@ + html_of_items(items) + "</ul>"@
        },
        BlockView::Table { thead, tbody } => "<table>"@ + html_of_row(thead) + html_of_rows(tbody)
            + "</table>"@,
        BlockView::Code { content } => "<pre><code>"@ + content + "</code></pre>"@,
        BlockView::Quote(blocks) => "<blockquote>"@ + html_of_blocks(blocks) + "</blockquote>"@,
        BlockView::HorizontalRule => "<hr>"@,
    }
}

/// The HTML of a block sequence: that of its blocks, one after the other.
pub open spec fn html_of_blocks(blocks: Seq<BlockView>) -> Seq<char>
    decreases blocks,
{
    if blocks.len() == 0 {
        Seq::empty()
    } else {
        html_of_blocks(blocks.drop_last()) + html_of_block(blocks.last())
    }
}

/// The HTML of a document: that of its blocks. The front matter is not
/// part of it.
pub open spec fn html_of(document: MarkdownView) -> Seq<char> {
    html_of_blocks(document.content)
}

/// Renders a run sequence.
pub fn render_runs(runs: &[Run]) -> (html: String)
    ensures
        html@ == html_of_runs(run_views(runs@)),
    decreases runs@,
{
    let mut html = String::new();
    let mut i: usize = 0;
    assert(run_views(runs@).take(0) =~= Seq::<RunView>::empty());
    while i < runs.len()
        invariant
            i <= runs.len(),
            html@ == html_of_runs(run_views(runs@).take(i as int)),
        decreases runs.len() - i,
    {
        let part = runs[i].render();
        html.append(part.as_str());
        proof {
            let views = run_views(runs@);
            assert(views.take(i + 1).drop_last() =~= views.take(i as int));
        }
        i += 1;
    }
    assert(run_views(runs@).take(runs.len() as int) =~= run_views(runs@));
    html
}

impl Run {
    /// Renders the run.
    pub fn render(&self) -> (html: String)
        ensures
            html@ == html_of_run(self@),
        decreases self,
    {
        match self {
            Run::Text(text) => text.clone(),
            Run::Bold(inner) => {
                let mut html = String::from_str("<b>");
                html.append(render_runs(inner.as_slice()).as_str());
                html.append("</b>");
                html
            },
            Run::Italic(inner) => {
                let mut html = String::from_str("<i>");
                html.append(render_runs(inner.as_slice()).as_str());
                html.append("</i>");
                html
            },
            Run::Link { url, inner } => {
                let mut html = String::from_str("<a href=\"");
                html.append(url.as_str());
                html.append("\">");
                html.append(render_runs(inner.as_slice()).as_str());
                html.append("</a>");
                html
            },
            Run::Image { url, alt } => {
                let mut html = String::from_str("<img src=\"");
                html.append(url.as_str());
                html.append("\" alt=\"");
                html.append(alt.as_str());
                html.append("\">");
                html
            },
            Run::Code(text) => {
                let mut html = String::from_str("<code>");
                html.append(text.as_str());
                html.append("</code>");
                html
            },
            Run::LineBreak => String::from_str("<br>"),
        }
    }
}

/// The character of the decimal digit `d`.
fn digit_char(d: u8) -> (c: char)
    requires
        d < 10,
    ensures
        c == digit(d as nat),
{
    if d == 0 {
        '0'
    } else if d == 1 {
        '1'
    } else if d == 2 {
        '2'
    } else if d == 3 {
        '3'
    } else if d == 4 {
        '4'
    } else if d == 5 {
        '5'
    } else if d == 6 {
        '6'
    } else if d == 7 {
        '7'
    } else if d == 8 {
        '8'
    } else {
        '9'
    }
}

/// `n` in decimal.
fn decimal_string(n: u8) -> (text: String)
    ensures
        text@ == decimal(n as nat),
{
    let mut text = String::new();
    if n >= 100 {
        text.push(digit_char(n / 100));
    }
    if n >= 10 {
        text.push(digit_char((n / 10) % 10));
    }
    text.push(digit_char(n % 10));
    proof {
        reveal_with_fuel(decimal, 3);
        assert(text@ =~= decimal(n as nat));
    }
    text
}

/// Renders the cells of a row.
fn render_cells(cells: &Vec<TCell>, heading: bool) -> (html: String)
    ensures
        html@ == html_of_cells(cell_views(cells@), heading),
{
    let mut html = String::new();
    let mut i: usize = 0;
    assert(cell_views(cells@).take(0) =~= Seq::<Seq<RunView>>::empty());
    while i < cells.len()
        invariant
            i <= cells.len(),
            html@ == html_of_cells(cell_views(cells@).take(i as int), heading),
        decreases cells.len() - i,
    {
        let mut cell = String::from_str(
            if heading {
                "<th>"
            } else {
                "<td>"
            },
        );
        cell.append(render_runs(cells[i].0.as_slice()).as_str());
        cell.append(
            if heading {
                "</th>"
            } else {
                "</td>"
            },
        );
        html.append(cell.as_str());
        proof {
            let views = cell_views(cells@);
            assert(views.take(i + 1).drop_last() =~= views.take(i as int));
        }
        i += 1;
    }
    assert(cell_views(cells@).take(cells.len() as int) =~= cell_views(cells@));
    html
}

impl TRow {
    /// Renders the row.
    pub fn render(&self) -> (html: String)
        ensures
            html@ == html_of_row(self@),
    {
        let mut html = String::from_str("<tr>");
        html.append(render_cells(&self.cells, self.heading).as_str());
        html.append("</tr>");
        html
    }
}

/// Renders a sequence of rows.
fn render_rows(rows: &Vec<TRow>) -> (html: String)
    ensures
        html@ == html_of_rows(row_views(rows@)),
{
    let mut html = String::new();
    let mut i: usize = 0;
    assert(row_views(rows@).take(0) =~= Seq::<TRowView>::empty());
    while i < rows.len()
        invariant
            i <= rows.len(),
            html@ == html_of_rows(row_views(rows@).take(i as int)),
        decreases rows.len() - i,
    {
        html.append(rows[i].render().as_str());
        proof {
            let views = row_views(rows@);
            assert(views.take(i + 1).drop_last() =~= views.take(i as int));
        }
        i += 1;
    }
    assert(row_views(rows@).take(rows.len() as int) =~= row_views(rows@));
    html
}

/// Renders a sequence of list items.
fn render_items(items: &Vec<ListItem>) -> (html: String)
    ensures
        html@ == html_of_items(item_views(items@)),
    decreases items,
{
    let mut html = String::new();
    let mut i: usize = 0;
    assert(item_views(items@).take(0) =~= Seq::<ListItemView>::empty());
    while i < items.len()
        invariant
            i <= items.len(),
            html@ == html_of_items(item_views(items@).take(i as int)),
        decreases items.len() - i,
    {
        let item = &items[i];
        let mut part = String::from_str("<li>");
        part.append(render_runs(item.runs.as_slice()).as_str());
        match &item.nested {
            Some(block) => {
                part.append(block.render().as_str());
            },
            None => {
                assert(part@ + Seq::<char>::empty() =~= part@);
            },
        }
        part.append("</li>");
        html.append(part.as_str());
        proof {
            let views = item_views(items@);
            assert(views.take(i + 1).drop_last() =~= views.take(i as int));
            assert(views.take(i + 1).last() == item@);
            assert(part@ == html_of_item(item@));
        }
        i += 1;
    }
    assert(item_views(items@).take(items.len() as int) =~= item_views(items@));
    html
}

/// Renders a block sequence.
pub fn render_blocks(blocks: &Vec<Block>) -> (html: String)
    ensures
        html@ == html_of_blocks(block_views(blocks@)),
    decreases blocks,
{
    let mut html = String::new();
    let mut i: usize = 0;
    assert(block_views(blocks@).take(0) =~= Seq::<BlockView>::empty());
    while i < blocks.len()
        invariant
            i <= blocks.len(),
            html@ == html_of_blocks(block_views(blocks@).take(i as int)),
        decreases blocks.len() - i,
    {
        html.append(blocks[i].render().as_str());
        proof {
            let views = block_views(blocks@);
            assert(views.take(i + 1).drop_last() =~= views.take(i as int));
        }
        i += 1;
    }
    assert(block_views(blocks@).take(blocks.len() as int) =~= block_views(blocks@));
    html
}

impl Block {
    /// Renders the block.
    pub fn render(&self) -> (html: String)
        ensures
            html@ == html_of_block(self@),
        decreases self,
    {
        match self {
            Block::Heading { level, runs } => {
                let tag = decimal_string(*level);
                let mut html = String::from_str("<h");
                html.append(tag.as_str());
                html.append(">");
                html.append(render_runs(runs.as_slice()).as_str());
                html.append("</h");
                html.append(tag.as_str());
                html.append(">");
                html
            },
            Block::Paragraph(runs) => {
                let mut html = String::from_str("<p>");
                html.append(render_runs(runs.as_slice()).as_str());
                html.append("</p>");
                html
            },
            Block::List { ordered, items } => {
                let mut html = String::from_str(
                    if *ordered {
                        "<ol>"
                    } else {
                        "<ul>"
                    },
                );
                html.append(render_items(items).as_str());
                html.append(
                    if *ordered {
                        "</ol>"
                    } else {
                        "</ul>"
                    },
                );
                html
            },
            Block::Table { thead, tbody } => {
                let mut html = String::from_str("<table>");
                html.append(thead.render().as_str());
                html.append(render_rows(tbody).as_str());
                html.append("</table>");
                html
            },
            Block::Code { content } => {
                let mut html = String::from_str("<pre><code>");
                html.append(content.as_str());
                html.append("</code></pre>");
                html
            },
            Block::Quote(blocks) => {
                let mut html = String::from_str("<blockquote>");
                html.append(render_blocks(blocks).as_str());
                html.append("</blockquote>");
                html
            },
            Block::HorizontalRule => String::from_str("<hr>"),
        }
    }
}

/// Renders a document as HTML.
pub fn render(document: &Markdown) -> (html: String)
    ensures
        html@ == html_of(document@),
{
    render_blocks(&document.content)
}

} // verus!
