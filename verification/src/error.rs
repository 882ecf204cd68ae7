//! The one way a parse can fail.

use vstd::prelude::*;

verus! {

/// What the grammar found wrong.
#[derive(Debug, Clone, Copy, PartialEq, Eq)]
pub enum ParseErrorKind {
    InvalidFrontMatter,
    UnterminatedEmphasis,
    MalformedLink,
    UnterminatedCodeFence,
    UnexpectedToken,
    MalformedTableRow,
}

/// A grammar violation: its kind and, where the offending token is part of
/// the input, the index of that token.
#[derive(Debug, Clone, Copy, PartialEq, Eq)]
pub struct ParseError {
    pub kind: ParseErrorKind,
    pub position: Option<usize>,
}

/// The message that goes with each kind of error.
pub open spec fn message_of(kind: ParseErrorKind) -> Seq<char> {
    match kind {
        ParseErrorKind::InvalidFrontMatter => "invalid front matter delimiter"@,
        ParseErrorKind::UnterminatedEmphasis => "unterminated emphasis"@,
        ParseErrorKind::MalformedLink => "malformed link target"@,
        ParseErrorKind::UnterminatedCodeFence => "unterminated code fence"@,
        ParseErrorKind::UnexpectedToken => "unexpected token in inline context"@,
        ParseErrorKind::MalformedTableRow => "malformed table row"@,
    }
}

impl ParseError {
    /// A description of the error for a human reader.
    pub fn message(&self) -> (text: &'static str)
        ensures
            text@ == message_of(self.kind),
    {
        match self.kind {
            ParseErrorKind::InvalidFrontMatter => "invalid front matter delimiter",
            ParseErrorKind::UnterminatedEmphasis => "unterminated emphasis",
            ParseErrorKind::MalformedLink => "malformed link target",
            ParseErrorKind::UnterminatedCodeFence => "unterminated code fence",
            ParseErrorKind::UnexpectedToken => "unexpected token in inline context",
            ParseErrorKind::MalformedTableRow => "malformed table row",
        }
    }
}

} // verus!
