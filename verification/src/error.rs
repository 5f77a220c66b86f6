//! The ways in which reading a value can fail.

use vstd::prelude::*;

verus! {

/// The three fixed words of the grammar.
#[derive(Clone, Copy, Debug, PartialEq, Eq, Structural)]
pub enum Keyword {
    Null,
    True,
    False,
}

/// Why the parser gave up.
#[derive(Clone, Copy, Debug, PartialEq, Eq, Structural)]
pub enum ErrorKind {
    /// A value was expected and the character found cannot begin one.
    UnexpectedCharacter,
    /// A value was expected and the input had ended.
    UnexpectedEndOfInput,
    /// A run of digits and points that is neither an integer that fits nor a
    /// number in decimal notation.
    MalformedNumber,
    /// A word began like the keyword named and then departed from it or broke
    /// off.
    MalformedLiteral(Keyword),
    /// A string was opened and the input ended before its closing quote.
    UnterminatedString,
    /// A key of an object was followed by something other than `:`, or by the
    /// end of the input.
    ExpectedColon,
    /// A member of an object or an element of an array was followed by
    /// something other than `,`, or by the end of the input.
    ExpectedComma,
    /// Where a key or the closing `}` of an object was due, something else
    /// stood, or the input had ended.
    UnexpectedToken,
}

/// A failure together with the place in the input at which it lies, counted
/// in characters from the start.
///
/// A malformed number lies at its first digit and an unterminated string at
/// its opening quote. Every other failure lies at the character that should
/// have been another, or at the end of the input where the input ended too
/// soon.
#[derive(Clone, Copy, Debug, PartialEq, Eq, Structural)]
pub struct ParseError {
    pub kind: ErrorKind,
    pub position: usize,
}

/// The mathematical counterpart of [`ParseError`].
pub struct Failure {
    pub kind: ErrorKind,
    pub position: int,
}

impl View for ParseError {
    type V = Failure;

    open spec fn view(&self) -> Failure {
        Failure { kind: self.kind, position: self.position as int }
    }
}

} // verus!
