//! Locations and the errors of parsing and serializing.
use vstd::prelude::*;

verus! {

/// A place in the input: byte offset, and line and column (both from 1,
/// the column counted in characters).
#[derive(Debug, Clone, Copy, PartialEq, Eq, Structural)]
pub struct Location {
    pub offset: usize,
    pub line: usize,
    pub column: usize,
}

impl Location {
    /// The start of the input.
    pub fn start() -> (r: Location)
        ensures
            r == (Location { offset: 0, line: 1, column: 1 }),
    {
        Location { offset: 0, line: 1, column: 1 }
    }
}

/// The two kinds of diagnosed syntax problem.
#[derive(Debug, Clone, Copy, PartialEq, Eq, Structural)]
pub enum DiagnosticKind {
    /// A construct that cannot be parsed.
    Syntax,
    /// A required part that is absent.
    Missing,
}

/// One diagnosed syntax problem.
#[derive(Debug)]
pub struct Diagnostic {
    pub kind: DiagnosticKind,
    pub location: Location,
    pub message: String,
}

/// What a `ParseError` reports.
#[derive(Debug, Clone, Copy, PartialEq, Eq, Structural)]
pub enum ParseErrorKind {
    /// Every syntax problem of one document.
    Aggregate,
    /// A document with other than exactly one pattern where one was required.
    Count,
}

/// A failed parse: a summary message with its location and the diagnosed
/// problems (none for a count error).
#[derive(Debug)]
pub struct ParseError {
    pub kind: ParseErrorKind,
    pub location: Location,
    pub message: String,
    pub errors: Vec<Diagnostic>,
}

impl ParseError {
    /// Number of diagnosed syntax problems.
    pub fn error_count(&self) -> (r: usize)
        ensures
            r == self.errors@.len(),
    {
        self.errors.len()
    }
}

/// A pattern whose shape or values Gram notation cannot express.
#[derive(Debug)]
pub struct SerializeError {
    pub reason: String,
}

impl SerializeError {
    /// A structural error with the given reason.
    pub fn invalid_structure(reason: &str) -> (r: SerializeError)
        ensures
            r.reason@ == reason@,
    {
        SerializeError { reason: reason.to_string() }
    }
}

} // verus!
