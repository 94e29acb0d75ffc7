//! Structural chunking of Rust source for retrieval pipelines.
//!
//! `parse_file` parses Rust with tree-sitter and returns one chunk per
//! module-level item (functions, structs, enums, impls, traits, modules,
//! constants, statics, type aliases, macros), each with its leading
//! attributes and doc comments, its name, its 1-based line span and an error
//! flag. The scanning, chunk assembly and option checks are verified; the
//! parser, the grammar and the query engine are reached through the trusted
//! wrappers in `backend`.

pub mod chunk;
pub mod doc_scan;
pub mod error;
pub mod extract;
pub mod lines;
pub mod options;
pub mod syntax;
pub mod text;
mod backend;

pub use chunk::{ChunkKind, ParsedChunk, SemanticChunk};
pub use error::ParserError;
pub use extract::extract_rust_chunks;
pub use options::{
    ParseOptions, Timeout, DEFAULT_MAX_CHUNKS, DEFAULT_MAX_SOURCE_BYTES, DEFAULT_PARSE_TIMEOUT_SECS,
    MAX_CHUNKS_LIMIT, MAX_PARSE_TIMEOUT_SECS, MAX_SOURCE_BYTES_LIMIT,
};

use vstd::prelude::*;
use vstd::string::*;

use crate::extract::{chunk_views, is_source_slice_chunk, rust_chunks, timeout_limit};
use crate::options::{is_invalid_options, options_problem};
use crate::text::str_eq;

verus! {

/// Caps the number of chunks: more than `max_chunks` is an error.
pub fn limit_chunks(chunks: Vec<SemanticChunk>, max_chunks: usize) -> (r: Result<
    Vec<SemanticChunk>,
    ParserError,
>)
    ensures
        chunks.len() > max_chunks ==> (r matches Err(ParserError::TooManyChunks { count, max })
            && count == chunks.len() && max == max_chunks),
        chunks.len() <= max_chunks ==> (r matches Ok(v) && v@ == chunks@),
{
    if chunks.len() > max_chunks {
        Err(ParserError::TooManyChunks { count: chunks.len(), max: max_chunks })
    } else {
        Ok(chunks)
    }
}

/// What a parse request answers, given the source bytes, the language, the
/// caps in force and whether the options were valid (`problem`):
/// invalid options, then an oversized source, then an unsupported language
/// are reported in that order; otherwise the answer is the source's chunks
/// (`rust_chunks`), each a slice of the source on the lines it reports, or
/// `TooManyChunks` when there are more of them than the cap, or the parse
/// was stopped (by the cancellation flag or the timeout).
pub open spec fn parse_answer(
    src: Seq<u8>,
    language: Seq<char>,
    problem: Option<Seq<char>>,
    max_source_bytes: usize,
    max_chunks: usize,
    r: Result<Vec<SemanticChunk>, ParserError>,
) -> bool {
    if problem is Some {
        r matches Err(e) && is_invalid_options(e, problem->0)
    } else if src.len() > max_source_bytes {
        r matches Err(ParserError::SourceTooLarge { len, max }) && len == src.len() && max
            == max_source_bytes
    } else if language != "rust"@ {
        r matches Err(ParserError::UnsupportedLanguage(l)) && l@ == language
    } else {
        match r {
            Ok(v) => {
                &&& v.len() <= max_chunks
                &&& rust_chunks(src) == Some(chunk_views(v@))
                &&& forall|k: int|
                    0 <= k < v@.len() ==> is_source_slice_chunk(src, #[trigger] v@[k]@)
            },
            Err(e) => {
                ||| (e matches ParserError::TooManyChunks { count, max } && (max == max_chunks
                    && rust_chunks(src) is Some && count == rust_chunks(src)->0.len() && count
                    > max_chunks))
                ||| (e is InvalidUtf8 && rust_chunks(src) is None)
                ||| e is ParseCancelled
                ||| e is ParseTimedOut
            },
        }
    }
}

/// Parses `source` written in `language` (only `"rust"` is supported)
/// under `options`.
pub fn parse_file_with_options(source: &str, language: &str, options: ParseOptions<'_>) -> (r:
    Result<Vec<SemanticChunk>, ParserError>)
    ensures
        parse_answer(
            source.spec_bytes(),
            language@,
            options_problem(options),
            options.max_source_bytes,
            options.max_chunks,
            r,
        ),
        options.cancellation is None ==> !(r matches Err(e) && e is ParseCancelled),
        options.cancellation is None && timeout_limit(options.timeout) == 0 ==> !(r matches Err(e)
            && (e is ParseCancelled || e is ParseTimedOut)),
{
    if let Err(e) = options.validate() {
        return Err(e);
    }
    let len = source.as_bytes().len();
    if len > options.max_source_bytes {
        return Err(ParserError::SourceTooLarge { len, max: options.max_source_bytes });
    }
    if !str_eq(language, "rust") {
        return Err(ParserError::UnsupportedLanguage(language.to_owned()));
    }
    match extract_rust_chunks(source, options) {
        Ok(chunks) => limit_chunks(chunks, options.max_chunks),
        Err(e) => Err(e),
    }
}

/// Parses `source` written in `language` with the default options.
pub fn parse_file(source: &str, language: &str) -> (r: Result<Vec<SemanticChunk>, ParserError>)
    ensures
        parse_answer(
            source.spec_bytes(),
            language@,
            None,
            DEFAULT_MAX_SOURCE_BYTES,
            DEFAULT_MAX_CHUNKS,
            r,
        ),
        !(r matches Err(e) && e is ParseCancelled),
{
    let options = ParseOptions::default();
    parse_file_with_options(source, language, options)
}

/// Two answers to the same request agree: when both succeed they hold the
/// same chunks, and when one succeeds the other either succeeds too or was
/// stopped by the cancellation flag or the timeout. So `parse_file` agrees
/// with `parse_file_with_options` under the default options, and two calls
/// with the same arguments agree.
pub proof fn lemma_answers_agree(
    src: Seq<u8>,
    language: Seq<char>,
    problem: Option<Seq<char>>,
    max_source_bytes: usize,
    max_chunks: usize,
    r1: Result<Vec<SemanticChunk>, ParserError>,
    r2: Result<Vec<SemanticChunk>, ParserError>,
)
    requires
        parse_answer(src, language, problem, max_source_bytes, max_chunks, r1),
        parse_answer(src, language, problem, max_source_bytes, max_chunks, r2),
    ensures
        r1 is Ok && r2 is Ok ==> chunk_views(r1->Ok_0@) == chunk_views(r2->Ok_0@),
        r1 is Ok ==> (r2 is Ok || (r2 matches Err(e) && (e is ParseCancelled
            || e is ParseTimedOut))),
{
}

/// What `parse_file_with_options` answers on a request that passes its
/// checks agrees with what `extract_rust_chunks` gives for the same source:
/// the same chunks when both succeed; `TooManyChunks` with their count when
/// they exceed the cap; never an error of the source itself.
pub proof fn lemma_answer_agrees_with_extractor(
    src: Seq<u8>,
    max_source_bytes: usize,
    max_chunks: usize,
    extracted: Seq<SemanticChunk>,
    r: Result<Vec<SemanticChunk>, ParserError>,
)
    requires
        rust_chunks(src) == Some(chunk_views(extracted)),
        src.len() <= max_source_bytes,
        parse_answer(src, "rust"@, None, max_source_bytes, max_chunks, r),
    ensures
        r matches Ok(v) ==> chunk_views(v@) == chunk_views(extracted) && extracted.len()
            <= max_chunks,
        r matches Err(e) ==> (e is ParseCancelled || e is ParseTimedOut || (e matches ParserError::TooManyChunks { count, max } && (count == extracted.len() && max == max_chunks
            && count > max_chunks))),
        extracted.len() > max_chunks ==> r is Err,
{
    assert(chunk_views(extracted).len() == extracted.len());
    if let Ok(v) = r {
        assert(chunk_views(v@).len() == v@.len());
    }
}

} // verus!
