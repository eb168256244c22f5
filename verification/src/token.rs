//! The tokens that the thread-definition macros read, as a flat sequence in
//! which each delimited group is an opening token, its content and a closing
//! token, and the errors that reading them can end in.

use vstd::prelude::*;

verus! {

/// The delimiter of a group.
#[derive(PartialEq, Eq, Structural, Clone, Copy, Debug)]
pub enum Delimiter {
    /// `( ... )`
    Parenthesis,
    /// `{ ... }`
    Brace,
    /// `[ ... ]`
    Bracket,
}

/// Whether a punctuation character is followed directly by another one.
#[derive(PartialEq, Eq, Structural, Clone, Copy, Debug)]
pub enum Spacing {
    /// Followed by whitespace or a non-punctuation token.
    Alone,
    /// Followed directly by another punctuation character, as `=` in `=>`.
    Joint,
}

/// One token of a flattened token stream.
pub enum Token {
    /// An identifier or keyword, raw identifiers with their `r#`.
    Ident(String),
    /// A punctuation character.
    Punct(char, Spacing),
    /// A literal, as it is written.
    Literal(String),
    /// The start of a group.
    Open(Delimiter),
    /// The end of a group.
    Close(Delimiter),
}

/// A half-open range `start..end` of token positions.
#[derive(PartialEq, Eq, Structural, Clone, Copy, Debug)]
pub struct Span {
    pub start: usize,
    pub end: usize,
}

/// The syntax that was expected where parsing stopped.
#[derive(PartialEq, Eq, Structural, Clone, Copy, Debug)]
pub enum Expected {
    /// An identifier that is not a keyword.
    Ident,
    /// `;`
    Semi,
    /// `=>`
    FatArrow,
    /// `:`
    Colon,
    /// `,`
    Comma,
    /// `::`
    Colon2,
    /// The `>` that closes angle brackets.
    Gt,
    /// `{ ... }`
    Braces,
    /// `( ... )`
    Parens,
    /// `[ ... ]`
    Brackets,
    /// A path.
    Path,
    /// A path segment after `::`.
    PathSegment,
    /// An integer literal.
    IntLiteral,
    /// The named section keyword.
    Keyword(Section),
}

/// A section of the macro input.
#[derive(PartialEq, Eq, Structural, Clone, Copy, Debug)]
pub enum Section {
    /// `thread => ...`
    Thread,
    /// `local => ...`
    Local,
    /// `index => ...`
    Index,
    /// `init => ...`
    Init,
    /// `threads => { ... }`
    Threads,
}

/// Why parsing failed.
#[derive(PartialEq, Eq, Structural, Clone, Copy, Debug)]
pub enum ErrorKind {
    /// Something else was expected.
    Expected(Expected),
    /// An integer literal does not fit in `u32`.
    IntTooLarge,
    /// An integer literal is negative.
    InvalidDigit,
    /// The identifier at this position names no kind of thread.
    UnexpectedIdent(usize),
    /// Tokens were left over.
    UnexpectedToken,
    /// A group has no closing token.
    Unbalanced,
    /// A section was given twice.
    Multiple(Section),
    /// A section is missing.
    Missing(Section),
    /// Two `exception` threads.
    MultipleException,
    /// Two `timer` threads.
    MultipleTimer,
}

/// A parse error: its kind and the token position it points at (the end of
/// the group being read when it points past the last token).
#[derive(PartialEq, Eq, Structural, Clone, Copy, Debug)]
pub struct ParseError {
    pub kind: ErrorKind,
    pub at: usize,
}

/// The error `kind` at position `at`.
pub open spec fn err(kind: ErrorKind, at: int) -> ParseError {
    ParseError { kind, at: at as usize }
}

/// Builds the error `kind` at position `at`.
pub fn mk_err(kind: ErrorKind, at: usize) -> (r: ParseError)
    ensures
        r == err(kind, at as int),
{
    ParseError { kind, at }
}

} // verus!
