//! A small markdown dialect with a key/value front matter: text is scanned
//! into tokens, tokens are parsed into a document tree, and the tree is
//! rendered as HTML.

pub mod cursor;
pub mod error;
pub mod grammar;
pub mod invariants;
pub mod markdown;
pub mod parser;
pub mod renderer;
pub mod scanner;
pub mod size;
pub mod text;
pub mod wire;

pub use crate::error::{ParseError, ParseErrorKind};
pub use crate::markdown::{Block, FrontMatter, ListItem, Markdown, Run, TCell, TRow};
pub use crate::renderer::render;

use crate::grammar::spec_document;
use crate::markdown::MarkdownView;
use crate::parser::Parser;
use crate::scanner::{spec_scan, Scanner};
use crate::size::blocks_size;
use vstd::prelude::*;

verus! {

/// The document that a text stands for: the document of its tokens.
pub open spec fn document_of(text: Seq<char>) -> Result<MarkdownView, ParseError> {
    match spec_document(spec_scan(text), 0) {
        Ok((document, _)) => Ok(document),
        Err(e) => Err(e),
    }
}

/// Scans and parses `input`. The result is the whole document or the first
/// violation of the grammar. The document is well formed and no larger than
/// the input allows: it has at most four nodes for each token, and there is
/// at most one token for each character, besides `Eof`.
pub fn parse_markdown(input: &str) -> (r: Result<Markdown, ParseError>)
    ensures
        match r {
            Ok(document) => {
                &&& document_of(input@) == Ok::<_, ParseError>(document@)
                &&& document@.well_formed()
                &&& blocks_size(document@.content) <= 4 * (input@.len() + 1)
                &&& document@.front_matter.len() <= input@.len() + 1
            },
            Err(e) => document_of(input@) == Err::<MarkdownView, _>(e),
        },
{
    let mut scanner = Scanner::new(input);
    let tokens = scanner.scan();
    let mut parser = Parser::new(tokens.as_slice());
    parser.parse()
}

} // verus!
