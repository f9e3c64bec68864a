//! Typed errors for parsing and manipulating identifiers.

use vstd::prelude::*;

verus! {

/// First-violation parse errors, per the grammar position they arose at.
#[derive(Debug, Clone, Copy, PartialEq, Eq, Structural)]
pub enum ParserError {
    /// The first token does not satisfy the language-subtag grammar.
    InvalidLanguage,
    /// A token fails the grammar expected at its position.
    InvalidSubtag,
    /// An unrecognized or malformed extension singleton or structure.
    InvalidExtension,
}

/// Errors returned by language-identifier operations.
#[derive(Debug, Clone, Copy, PartialEq, Eq, Structural)]
pub enum LanguageIdentifierError {
    /// Reserved for failures outside the parser; kept rare on purpose.
    Unknown,
    /// A parser error, carried through unchanged.
    ParserError(ParserError),
}

/// Errors returned by locale operations.
#[derive(Debug, Clone, Copy, PartialEq, Eq, Structural)]
pub enum LocaleError {
    /// Reserved for failures outside the parser; kept rare on purpose.
    Unknown,
    /// A parser error, carried through unchanged.
    ParserError(ParserError),
    /// An error from the language-identifier portion.
    LanguageIdentifierError(LanguageIdentifierError),
}

} // verus!
