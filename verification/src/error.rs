//! Errors reported while reading a pattern.
use vstd::prelude::*;

verus! {

/// A range of byte offsets in the pattern text.
#[derive(Debug, Clone, Copy, PartialEq, Eq, Structural)]
pub struct Span {
    /// First byte offset.
    pub start: usize,
    /// Byte offset just past the end.
    pub end: usize,
}

impl Span {
    /// Creates a span.
    pub fn new(start: usize, end: usize) -> (s: Self)
        ensures
            s.start == start,
            s.end == end,
    {
        Span { start, end }
    }

    /// Creates an empty span at one offset.
    pub fn point(pos: usize) -> (s: Self)
        ensures
            s.start == pos,
            s.end == pos,
    {
        Span { start: pos, end: pos }
    }
}

/// What went wrong.
#[derive(Debug, Clone)]
pub enum ErrorKind {
    /// The pattern ended where more was expected.
    UnexpectedEof,
    /// A character that cannot stand here.
    UnexpectedChar(char),
    /// An escape sequence that is not known.
    InvalidEscape(char),
    /// A malformed `\x` escape.
    InvalidHexEscape,
    /// A malformed `\u` escape.
    InvalidUnicodeEscape,
    /// A malformed `\p` or `\P` escape.
    InvalidUnicodeProperty,
    /// A Unicode property that is not known.
    UnknownUnicodeProperty(String),
    /// A class range whose start is past its end.
    InvalidClassRange {
        /// First character of the range.
        start: char,
        /// Last character of the range.
        end: char,
    },
    /// A class with nothing in it.
    EmptyClass,
    /// A malformed group.
    InvalidGroup,
    /// A malformed repetition.
    InvalidRepetition,
    /// A quantifier applied to a quantifier.
    NestedQuantifier,
    /// A quantifier with nothing to repeat.
    RepetitionOnNothing,
    /// A `)` with no group open.
    UnmatchedCloseParen,
    /// A `[` that is never closed.
    UnmatchedOpenBracket,
    /// A `(` that is never closed.
    UnmatchedOpenParen,
}

/// An error, with the pattern and the place it concerns.
#[derive(Debug, Clone)]
pub struct Error {
    /// What went wrong.
    pub kind: ErrorKind,
    /// The pattern text, when known.
    pub pattern: Option<String>,
    /// Where in the pattern, when known.
    pub span: Option<Span>,
}

/// Whether an error carries the pattern text it was read from, and a place in it.
pub open spec fn located(e: Error, text: Seq<char>) -> bool {
    &&& e.pattern matches Some(p) && p@ == text
    &&& e.span is Some
}

/// The result of reading a pattern.
pub type Result<T> = core::result::Result<T, Error>;

impl Error {
    /// Creates an error with no place attached.
    pub fn new(kind: ErrorKind) -> (e: Self)
        ensures
            e.kind == kind,
            e.pattern is None,
            e.span is None,
    {
        Error { kind, pattern: None, span: None }
    }

    /// Creates an error at a place of the pattern.
    pub fn with_span(kind: ErrorKind, pattern: &str, span: Span) -> (e: Self)
        ensures
            e.kind == kind,
            e.pattern matches Some(p) && p@ == pattern@,
            e.span == Some(span),
    {
        Error { kind, pattern: Some(pattern.to_owned()), span: Some(span) }
    }

    /// What went wrong.
    pub fn kind(&self) -> (k: &ErrorKind)
        ensures
            *k == self.kind,
    {
        &self.kind
    }

    /// Where in the pattern, when known.
    pub fn span(&self) -> (s: Option<Span>)
        ensures
            s == self.span,
    {
        self.span
    }
}

} // verus!
