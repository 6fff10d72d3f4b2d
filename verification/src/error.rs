//! Why a document was rejected.

use vstd::prelude::*;

verus! {

#[derive(Clone, Copy, Debug, PartialEq, Eq, Structural)]
pub enum KdlError {
    /// A character that cannot start any token.
    UnexpectedCharacter,
    /// A code point that may not appear in a document (a byte order mark is
    /// allowed only as the very first character).
    DisallowedCodePoint,
    /// A string with no closing quote.
    UnterminatedString,
    /// A backslash escape that is not recognised.
    InvalidEscape,
    /// A `\u{}` escape with no hex digit.
    EmptyUnicodeEscape,
    /// A `\u` escape that is not `{`, one to six hex digits and `}`, or that
    /// names no Unicode scalar value.
    InvalidUnicodeEscape,
    /// A backslash with nothing after it.
    TrailingBackslash,
    /// A `/*` comment with no matching `*/`.
    UnterminatedComment,
    /// A `\` that is not followed by a newline (after whitespace and comments).
    InvalidLineContinuation,
    /// A multi-line string with no content at all.
    MultilineEmpty,
    /// A multi-line string whose content does not start with a newline.
    MultilineNoNewline,
    /// A multi-line string whose final line holds more than whitespace.
    MultilineFinalLine,
    /// A line of a multi-line string that does not start with the whitespace
    /// of the final line.
    MultilinePrefix,
    /// A raw string with no matching closing quote and hashes.
    InvalidRawString,
    /// A word that starts like a number but is no valid number.
    InvalidNumber,
    /// An integer outside the range of `i64`.
    IntegerOutOfRange,
    /// A `#` keyword other than `#true`, `#false`, `#null`, `#inf`, `#-inf`, `#nan`.
    InvalidKeyword,
    /// A bare word that may not be used where it stands.
    InvalidIdentifier,
    /// A token that may not stand where it stands.
    UnexpectedToken,
    /// A children block with no closing `}`.
    UnclosedChildren,
    /// A `}` with no open children block.
    UnmatchedCloseBrace,
}

/// The description `message` gives of each error.
pub open spec fn spec_message(e: KdlError) -> Seq<char> {
    match e {
        KdlError::UnexpectedCharacter => "unexpected character"@,
        KdlError::DisallowedCodePoint => "disallowed code point in document"@,
        KdlError::UnterminatedString => "unterminated string"@,
        KdlError::InvalidEscape => "invalid escape sequence"@,
        KdlError::EmptyUnicodeEscape => "empty unicode escape"@,
        KdlError::InvalidUnicodeEscape => "invalid character in unicode escape"@,
        KdlError::TrailingBackslash => "backslash at end of string"@,
        KdlError::UnterminatedComment => "unterminated block comment"@,
        KdlError::InvalidLineContinuation => "line continuation must be followed by a newline"@,
        KdlError::MultilineEmpty => "empty multi-line string"@,
        KdlError::MultilineNoNewline => "multi-line string must start with a newline"@,
        KdlError::MultilineFinalLine => "final line of a multi-line string must be whitespace only"@,
        KdlError::MultilinePrefix => "line does not start with the final line's whitespace prefix"@,
        KdlError::InvalidRawString => "unterminated raw string"@,
        KdlError::InvalidNumber => "invalid number"@,
        KdlError::IntegerOutOfRange => "integer out of range"@,
        KdlError::InvalidKeyword => "invalid keyword"@,
        KdlError::InvalidIdentifier => "invalid identifier"@,
        KdlError::UnexpectedToken => "unexpected token"@,
        KdlError::UnclosedChildren => "children block is not closed"@,
        KdlError::UnmatchedCloseBrace => "closing brace without children block"@,
    }
}

impl KdlError {
    /// A short description of the error, in words.
    pub fn message(&self) -> (r: &'static str)
        ensures
            r@ == spec_message(*self),
    {
        let r = match self {
            KdlError::UnexpectedCharacter => "unexpected character",
            KdlError::DisallowedCodePoint => "disallowed code point in document",
            KdlError::UnterminatedString => "unterminated string",
            KdlError::InvalidEscape => "invalid escape sequence",
            KdlError::EmptyUnicodeEscape => "empty unicode escape",
            KdlError::InvalidUnicodeEscape => "invalid character in unicode escape",
            KdlError::TrailingBackslash => "backslash at end of string",
            KdlError::UnterminatedComment => "unterminated block comment",
            KdlError::InvalidLineContinuation => "line continuation must be followed by a newline",
            KdlError::MultilineEmpty => "empty multi-line string",
            KdlError::MultilineNoNewline => "multi-line string must start with a newline",
            KdlError::MultilineFinalLine => "final line of a multi-line string must be whitespace only",
            KdlError::MultilinePrefix => "line does not start with the final line's whitespace prefix",
            KdlError::InvalidRawString => "unterminated raw string",
            KdlError::InvalidNumber => "invalid number",
            KdlError::IntegerOutOfRange => "integer out of range",
            KdlError::InvalidKeyword => "invalid keyword",
            KdlError::InvalidIdentifier => "invalid identifier",
            KdlError::UnexpectedToken => "unexpected token",
            KdlError::UnclosedChildren => "children block is not closed",
            KdlError::UnmatchedCloseBrace => "closing brace without children block",
        };
        r
    }
}

} // verus!
