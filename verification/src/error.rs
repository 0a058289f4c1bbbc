//! Error types shared by all parsers.
use vstd::prelude::*;

verus! {

/// What a parser expected and did not find.
#[derive(Debug, Clone, Copy, PartialEq, Eq)]
pub enum ErrorKind {
    Tag,
    OneOf,
    NoneOf,
    IsNot,
    IsA,
    TakeWhile1,
    TakeWhileMN,
    TakeTill1,
    TakeUntil,
    Eof,
    Escaped,
    EscapedTransform,
    Alpha,
    Digit,
    Char,
    Alt,
}

/// The default error: where in the input the failure happened, and what failed.
#[derive(Debug, Clone, Copy, PartialEq, Eq)]
pub struct Error<I> {
    /// The input at the point of failure.
    pub input: I,
    /// What was expected.
    pub kind: ErrorKind,
}

impl<I> Error<I> {
    /// Builds an error from the input at the point of failure and what was expected there.
    pub fn new(input: I, kind: ErrorKind) -> (e: Self)
        ensures
            e.input == input,
            e.kind == kind,
    {
        Error { input, kind }
    }
}

/// How much more input a streaming parser would have needed.
#[derive(Debug, Clone, Copy, PartialEq, Eq)]
pub enum Needed {
    /// The amount is not known.
    Unknown,
    /// At least this many more tokens.
    Size(usize),
}

/// How a parser failed, and so how the caller should go on.
#[derive(Debug, Clone, Copy, PartialEq, Eq)]
pub enum ErrMode<E> {
    /// More input is needed to decide.
    Incomplete(Needed),
    /// The parser failed; an alternative may be tried.
    Backtrack(E),
    /// The parser failed and no alternative should be tried.
    Cut(E),
}

} // verus!
