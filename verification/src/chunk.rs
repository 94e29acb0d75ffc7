//! The structural chunks handed to downstream indexing.

use vstd::prelude::*;

use crate::text::str_eq;

verus! {

/// The syntactic kind of a chunk.
#[derive(Clone, Copy, Debug, PartialEq, Eq, Hash, Structural)]
pub enum ChunkKind {
    Function,
    Struct,
    Enum,
    Impl,
    Trait,
    Mod,
    Const,
    Static,
    TypeAlias,
    Macro,
    Unknown,
}

/// One top-level (or module-level) item: its kind, name, source text
/// (including leading attributes and doc comments), 1-based line span, and
/// whether the parser had to recover from errors inside it.
#[derive(Clone, Debug, PartialEq, Eq)]
pub struct SemanticChunk {
    pub kind: ChunkKind,
    pub name: Option<String>,
    pub text: String,
    pub start_line: usize,
    pub end_line: usize,
    pub has_error: bool,
}

/// The same chunk type under the name used by downstream crates.
pub type ParsedChunk = SemanticChunk;

/// A chunk as plain values: kind, name, text, start line, end line, error flag.
pub type ChunkView = (ChunkKind, Option<Seq<char>>, Seq<char>, usize, usize, bool);

pub open spec fn opt_string_view(o: Option<String>) -> Option<Seq<char>> {
    match o {
        Some(s) => Some(s@),
        None => None,
    }
}

impl View for SemanticChunk {
    type V = ChunkView;

    open spec fn view(&self) -> ChunkView {
        (
            self.kind,
            opt_string_view(self.name),
            self.text@,
            self.start_line,
            self.end_line,
            self.has_error,
        )
    }
}

/// The chunk kind that a capture name of the structural query stands for.
pub open spec fn spec_chunk_kind(name: Seq<char>) -> ChunkKind {
    if name == "function"@ {
        ChunkKind::Function
    } else if name == "struct"@ {
        ChunkKind::Struct
    } else if name == "enum"@ {
        ChunkKind::Enum
    } else if name == "impl"@ {
        ChunkKind::Impl
    } else if name == "trait"@ {
        ChunkKind::Trait
    } else if name == "mod"@ {
        ChunkKind::Mod
    } else if name == "const"@ {
        ChunkKind::Const
    } else if name == "static"@ {
        ChunkKind::Static
    } else if name == "type_alias"@ {
        ChunkKind::TypeAlias
    } else if name == "macro"@ {
        ChunkKind::Macro
    } else {
        ChunkKind::Unknown
    }
}

/// Maps a capture name of the structural query to its chunk kind.
pub fn chunk_kind_from_capture(capture_name: &str) -> (kind: ChunkKind)
    ensures
        kind == spec_chunk_kind(capture_name@),
{
    if str_eq(capture_name, "function") {
        ChunkKind::Function
    } else if str_eq(capture_name, "struct") {
        ChunkKind::Struct
    } else if str_eq(capture_name, "enum") {
        ChunkKind::Enum
    } else if str_eq(capture_name, "impl") {
        ChunkKind::Impl
    } else if str_eq(capture_name, "trait") {
        ChunkKind::Trait
    } else if str_eq(capture_name, "mod") {
        ChunkKind::Mod
    } else if str_eq(capture_name, "const") {
        ChunkKind::Const
    } else if str_eq(capture_name, "static") {
        ChunkKind::Static
    } else if str_eq(capture_name, "type_alias") {
        ChunkKind::TypeAlias
    } else if str_eq(capture_name, "macro") {
        ChunkKind::Macro
    } else {
        ChunkKind::Unknown
    }
}

} // verus!
