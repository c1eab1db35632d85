//! Typed parse failures: what went wrong, and the byte offset at which the
//! parser detected it.

use vstd::prelude::*;

verus! {

/// The kind of a parse failure.
#[derive(Debug, Clone, Copy, PartialEq, Eq, Structural)]
pub enum ErrorKind {
    /// Input exhausted where a token was expected.
    UnexpectedEndOfInput,
    /// The lookahead character matches no grammar production.
    UnexpectedToken,
    /// A numeric literal is malformed (no digit after a sign, a bare `.`,
    /// or an exponent marker with no digits).
    InvalidNumber,
    /// The closing quote of a string was never found.
    UnterminatedString,
    /// A backslash followed by an unrecognized character, or an incomplete
    /// or invalid `\u` sequence.
    InvalidEscape,
    /// A comma inside an array was not followed by the start of a value.
    ExpectedElement,
    /// An object member did not begin with a string key.
    ExpectedPair,
    /// The `:` between an object key and its value is missing.
    ExpectedColon,
    /// The closing `]` of an array was never reached.
    UnterminatedArray,
    /// The closing `}` of an object was never reached.
    UnterminatedObject,
    /// Nesting of arrays and objects exceeds the fixed depth limit.
    NestingTooDeep,
    /// Non-whitespace content follows the top-level value.
    TrailingContent,
}

/// A parse failure: its kind and the byte offset at which it was detected.
///
/// The offset never exceeds the input length; an offset equal to the length
/// means the failure was detected at end of input.
#[derive(Debug, Clone, Copy, PartialEq, Eq, Structural)]
pub struct ParseError {
    pub kind: ErrorKind,
    pub offset: usize,
}

} // verus!
