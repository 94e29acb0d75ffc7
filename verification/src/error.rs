//! Errors reported by the parser.

use vstd::prelude::*;

verus! {

/// Why a parse request failed.
#[derive(Debug)]
#[non_exhaustive]
pub enum ParserError {
    /// The parse options are out of range; the text says which one.
    InvalidOptions(String),
    /// No extractor exists for the requested language.
    UnsupportedLanguage(String),
    /// The parser rejected the grammar.
    LanguageSetup(String),
    /// The structural query did not compile.
    InvalidQuery(String),
    /// The parse ran past its timeout.
    ParseTimedOut,
    /// The cancellation flag was raised.
    ParseCancelled,
    /// The source is larger than allowed.
    SourceTooLarge { len: usize, max: usize },
    /// More chunks were extracted than allowed.
    TooManyChunks { count: usize, max: usize },
    /// A chunk's byte range does not hold UTF-8 text.
    InvalidUtf8(std::str::Utf8Error),
}

} // verus!
