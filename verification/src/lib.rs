//! Parsing, validation, canonicalization and manipulation of Unicode
//! language and locale identifiers.
//!
//! Subtags are held as packed fixed-width integers (`codec`), the
//! language-identifier grammar and parser live in `subtags`, `parser` and
//! `langid`, the `u`/`t`/`x` extension grammar in `extensions`, the combined
//! locale model in `locale`, the likely-subtags inference engine with its
//! tables in `likelysubtags`, and character direction in `layout`.  The
//! laws that relate parsing and serialization -- round-trip, idempotent
//! canonicalization, case and separator insensitivity -- are proved in
//! `laws`.

pub mod codec;
pub mod errors;
pub mod subtags;
pub mod tokens;
pub mod langid;
pub mod parser;
pub mod laws;
pub mod extensions;
pub mod locale;
pub mod likelysubtags;
pub mod layout;
