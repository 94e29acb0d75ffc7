//! Turning a parsed Rust source into chunks.

use std::collections::HashMap;
use std::ops::ControlFlow;

use vstd::prelude::*;
use vstd::string::*;

use crate::backend::{
    duration_as_micros, elapsed, language_error_text, new_parser, new_query, node_depth_at,
    node_end_at, node_field_at, node_has_error_at, node_kind_at, node_missing_at, node_start_at,
    now, parse_source, query_capture_names, query_captures, query_error_text, rust_language,
    rust_node_count, rust_node_depth, rust_node_end, rust_node_field, rust_node_has_error,
    rust_node_kind, rust_node_missing, rust_node_start, rust_query_captures, set_parser_language,
    tree_cursor, tree_node_count, is_node_key, RustTree,
};
use crate::chunk::{chunk_kind_from_capture, spec_chunk_kind, ChunkKind, ChunkView, SemanticChunk};
use crate::doc_scan::{
    is_doc_comment_range, lemma_doc_comments_well_formed, ranges_well_ordered, scan_doc_comments,
    spec_doc_comments, ByteRange,
};
use crate::error::ParserError;
use crate::lines::{
    build_line_starts, byte_offset_to_line, lemma_line_of_monotone, lemma_line_starts_well_formed,
    spec_line_of, spec_line_starts, strictly_increasing,
};
use crate::options::{ParseOptions, Timeout};
use crate::syntax::{
    chunk_byte_range, extract_name, is_extractable_item, spec_chunk_byte_range,
    spec_is_extractable, spec_item_name, tree_wf, NodeView, SyntaxNode, SyntaxTree,
};
use crate::text::{bytes_text, str_eq, text_between};

verus! {

/// A node captured by the structural query: which capture matched it, and
/// where it sits in the syntax tree snapshot.
#[derive(Clone, Copy, Debug, PartialEq, Eq, Structural)]
pub struct CapturedNode {
    pub capture_index: u32,
    pub node: usize,
}

/// The capture names as text.
pub open spec fn names_view(names: Seq<&str>) -> Seq<Seq<char>> {
    names.map_values(|n: &str| n@)
}

/// The chunk kind of capture number `index`.
pub open spec fn capture_kind(names: Seq<Seq<char>>, index: u32) -> ChunkKind {
    if (index as int) < names.len() {
        spec_chunk_kind(names[index as int])
    } else {
        ChunkKind::Unknown
    }
}

/// What one capture contributes: nothing when the node is missing or not
/// at module level, a chunk otherwise; `None` when the chunk's bytes are not
/// UTF-8 text.
#[verifier::opaque]
pub open spec fn spec_capture_chunk(
    t: Seq<NodeView>,
    src: Seq<u8>,
    names: Seq<Seq<char>>,
    cap: CapturedNode,
) -> Option<Option<ChunkView>> {
    let i = cap.node as int;
    if t[i].is_missing || !spec_is_extractable(t, i) {
        Some(None)
    } else {
        let range = spec_chunk_byte_range(t, i, src, spec_doc_comments(src));
        match bytes_text(src, range.0, range.1) {
            None => None,
            Some(text) => Some(
                Some(
                    (
                        capture_kind(names, cap.capture_index),
                        spec_item_name(t, i, src),
                        text,
                        spec_line_of(spec_line_starts(src), range.0) as usize,
                        spec_line_of(spec_line_starts(src), range.1) as usize,
                        t[i].has_error,
                    ),
                ),
            ),
        }
    }
}

/// The chunks of the first `n` captures, in capture order; `None` when one
/// of them covers bytes that are not UTF-8 text.
pub open spec fn spec_chunks(
    t: Seq<NodeView>,
    src: Seq<u8>,
    names: Seq<Seq<char>>,
    caps: Seq<CapturedNode>,
    n: int,
) -> Option<Seq<ChunkView>>
    decreases n,
{
    if n <= 0 {
        Some(Seq::empty())
    } else {
        match spec_chunks(t, src, names, caps, n - 1) {
            None => None,
            Some(prev) => match spec_capture_chunk(t, src, names, caps[n - 1]) {
                None => None,
                Some(None) => Some(prev),
                Some(Some(c)) => Some(prev.push(c)),
            },
        }
    }
}

pub open spec fn chunk_views(v: Seq<SemanticChunk>) -> Seq<ChunkView> {
    v.map_values(|c: SemanticChunk| c@)
}

proof fn lemma_doc_comments_ordered(src: Seq<u8>)
    requires
        src.len() <= usize::MAX,
    ensures
        ranges_well_ordered(spec_doc_comments(src)),
{
    lemma_doc_comments_well_formed(src);
    assert forall|i: int| 0 <= i < spec_doc_comments(src).len() implies #[trigger] spec_doc_comments(
        src,
    )[i].start <= spec_doc_comments(src)[i].end by {
        assert(is_doc_comment_range(src, spec_doc_comments(src)[i]));
    }
}

proof fn lemma_spec_chunks_error_persists(
    t: Seq<NodeView>,
    src: Seq<u8>,
    names: Seq<Seq<char>>,
    caps: Seq<CapturedNode>,
    m: int,
    n: int,
)
    requires
        0 <= m <= n,
        spec_chunks(t, src, names, caps, m) is None,
    ensures
        spec_chunks(t, src, names, caps, n) is None,
    decreases n - m,
{
    if m < n {
        lemma_spec_chunks_error_persists(t, src, names, caps, m, n - 1);
    }
}

/// The chunk for one captured node, if it is extractable.
fn capture_chunk(
    source: &str,
    tree: &SyntaxTree,
    capture_names: &[&str],
    cap: CapturedNode,
    doc_comments: &Vec<ByteRange>,
    line_starts: &Vec<usize>,
) -> (r: Result<Option<SemanticChunk>, std::str::Utf8Error>)
    requires
        tree_wf(tree@, source.spec_bytes().len() as int),
        cap.node < tree@.len(),
        doc_comments@ == spec_doc_comments(source.spec_bytes()),
        ranges_well_ordered(doc_comments@),
        line_starts@ == spec_line_starts(source.spec_bytes()),
        strictly_increasing(line_starts@),
    ensures
        match spec_capture_chunk(tree@, source.spec_bytes(), names_view(capture_names@), cap) {
            None => r is Err,
            Some(None) => r == Ok::<Option<SemanticChunk>, std::str::Utf8Error>(None),
            Some(Some(v)) => r matches Ok(Some(c)) && c@ == v,
        },
{
    reveal(spec_capture_chunk);
    let bytes = source.as_bytes();
    let i = cap.node;
    if tree.nodes[i].is_missing || !is_extractable_item(tree, i) {
        return Ok(None);
    }
    let index = cap.capture_index as usize;
    let kind = if index < capture_names.len() {
        assert(names_view(capture_names@)[index as int] == capture_names@[index as int]@);
        chunk_kind_from_capture(capture_names[index])
    } else {
        ChunkKind::Unknown
    };
    let name = extract_name(tree, i, bytes);
    let has_error = tree.nodes[i].has_error;
    let (start_byte, end_byte) = chunk_byte_range(tree, i, source, doc_comments.as_slice());
    assert(tree@[i as int].start_byte <= tree@[i as int].end_byte <= bytes@.len()) by {
        reveal(tree_wf);
    }
    let text = match text_between(bytes, start_byte, end_byte) {
        Ok(text) => text,
        Err(e) => {
            return Err(e);
        },
    };
    let start_line = byte_offset_to_line(line_starts.as_slice(), start_byte);
    let end_line = byte_offset_to_line(line_starts.as_slice(), end_byte);
    Ok(Some(SemanticChunk { kind, name, text, start_line, end_line, has_error }))
}

/// The chunk view `c` is the UTF-8 text of some byte range of `src`, its
/// start line is the line where that range begins and its end line the line
/// where it ends.
pub open spec fn is_source_slice_chunk(src: Seq<u8>, c: ChunkView) -> bool {
    exists|s: int, e: int|
        0 <= s <= e <= src.len() && #[trigger] bytes_text(src, s, e) == Some(c.2) && c.3
            == spec_line_of(spec_line_starts(src), s) as usize && c.4 == spec_line_of(
            spec_line_starts(src),
            e,
        ) as usize
}

/// Every chunk's text is a slice of the source (read as UTF-8), and its
/// start and end lines are the lines on which that slice begins and ends.
pub proof fn lemma_chunks_are_source_slices(
    t: Seq<NodeView>,
    src: Seq<u8>,
    names: Seq<Seq<char>>,
    caps: Seq<CapturedNode>,
    n: int,
)
    requires
        0 <= n <= caps.len(),
        spec_chunks(t, src, names, caps, n) is Some,
    ensures
        forall|k: int|
            0 <= k < spec_chunks(t, src, names, caps, n)->0.len() ==> is_source_slice_chunk(
                src,
                #[trigger] spec_chunks(t, src, names, caps, n)->0[k],
            ),
    decreases n,
{
    if n > 0 {
        lemma_chunks_are_source_slices(t, src, names, caps, n - 1);
        let prev = spec_chunks(t, src, names, caps, n - 1)->0;
        let all = spec_chunks(t, src, names, caps, n)->0;
        reveal(spec_capture_chunk);
        if let Some(Some(c)) = spec_capture_chunk(t, src, names, caps[n - 1]) {
            let i = caps[n - 1].node as int;
            let range = spec_chunk_byte_range(t, i, src, spec_doc_comments(src));
            assert(bytes_text(src, range.0, range.1) == Some(c.2));
            assert(is_source_slice_chunk(src, c));
            assert forall|k: int| 0 <= k < all.len() implies is_source_slice_chunk(
                src,
                #[trigger] all[k],
            ) by {
                if k < prev.len() {
                    assert(all[k] == prev[k]);
                }
            }
        }
    }
}

/// Builds the chunks for the captured items of a syntax tree snapshot of
/// `source`, in capture order.
pub fn chunks_from_tree(
    source: &str,
    tree: &SyntaxTree,
    capture_names: &[&str],
    captures: &[CapturedNode],
) -> (r: Result<Vec<SemanticChunk>, ParserError>)
    requires
        tree_wf(tree@, source.spec_bytes().len() as int),
        forall|k: int| 0 <= k < captures@.len() ==> #[trigger] captures@[k].node < tree@.len(),
    ensures
        r is Ok <==> spec_chunks(
            tree@,
            source.spec_bytes(),
            names_view(capture_names@),
            captures@,
            captures@.len() as int,
        ) is Some,
        r matches Ok(v) ==> Some(chunk_views(v@)) == spec_chunks(
            tree@,
            source.spec_bytes(),
            names_view(capture_names@),
            captures@,
            captures@.len() as int,
        ),
        r matches Err(e) ==> e is InvalidUtf8,
{
    let bytes = source.as_bytes();
    let ghost src = bytes@;
    let ghost t = tree@;
    let doc_comments = scan_doc_comments(source);
    let line_starts = build_line_starts(source);
    let source_len = bytes.len();
    proof {
        assert(src.len() == source_len);
        lemma_doc_comments_ordered(src);
        lemma_line_starts_well_formed(src);
    }
    let mut chunks: Vec<SemanticChunk> = Vec::new();
    let mut k: usize = 0;
    while k < captures.len()
        invariant
            src == source.spec_bytes(),
            t == tree@,
            tree_wf(t, src.len() as int),
            forall|j: int| 0 <= j < captures@.len() ==> #[trigger] captures@[j].node < t.len(),
            k <= captures@.len(),
            doc_comments@ == spec_doc_comments(src),
            ranges_well_ordered(doc_comments@),
            line_starts@ == spec_line_starts(src),
            strictly_increasing(line_starts@),
            spec_chunks(t, src, names_view(capture_names@), captures@, k as int) == Some(chunk_views(chunks@)),
        decreases captures@.len() - k,
    {
        let ghost before = chunks@;
        match capture_chunk(source, tree, capture_names, captures[k], &doc_comments, &line_starts) {
            Err(e) => {
                proof {
                    lemma_spec_chunks_error_persists(
                        t,
                        src,
                        names_view(capture_names@),
                        captures@,
                        k + 1,
                        captures@.len() as int,
                    );
                }
                return Err(ParserError::InvalidUtf8(e));
            },
            Ok(None) => {},
            Ok(Some(chunk)) => {
                chunks.push(chunk);
                assert(chunk_views(chunks@) =~= chunk_views(before).push(chunk@));
            },
        }
        k += 1;
    }
    Ok(chunks)
}

// ---------------------------------------------------------------------------
// Driving the parser
// ---------------------------------------------------------------------------

/// The structural query: one capture per kind of item.
pub const RUST_QUERY: &'static str = r#"
(
  [
    (function_item) @function
    (function_signature_item) @function
    (struct_item) @struct
    (enum_item) @enum
    (impl_item) @impl
    (trait_item) @trait
    (mod_item) @mod
    (const_item) @const
    (static_item) @static
    (type_item) @type_alias
    (macro_definition) @macro
  ]
)
"#;

/// The capture names of `RUST_QUERY`, by capture number.
pub open spec fn rust_capture_names() -> Seq<Seq<char>> {
    seq![
        "function"@,
        "struct"@,
        "enum"@,
        "impl"@,
        "trait"@,
        "mod"@,
        "const"@,
        "static"@,
        "type_alias"@,
        "macro"@,
    ]
}

/// The parse time limit in whole microseconds, kept to 64 bits; zero sets
/// no limit.
pub open spec fn timeout_limit(t: Timeout) -> u64 {
    (t@ / 1000) as u64
}

/// A cancellation flag holding `value` is raised when the value is not zero.
pub fn flag_raised(value: usize) -> (r: bool)
    ensures
        r == (value != 0),
{
    value != 0
}

/// Whether the caller has raised the cancellation flag (it is read afresh
/// on every call).
pub fn is_parse_cancelled(options: &ParseOptions) -> (r: bool)
    ensures
        options.cancellation is None ==> !r,
{
    match options.cancellation {
        Some(flag) => flag_raised(flag.load(std::sync::atomic::Ordering::Relaxed)),
        None => false,
    }
}

/// The error for a parse that stopped before finishing, given whether the
/// cancellation flag was found raised.
pub fn interruption_error(cancelled: bool) -> (e: ParserError)
    ensures
        cancelled ==> e is ParseCancelled,
        !cancelled ==> e is ParseTimedOut,
{
    if cancelled {
        ParserError::ParseCancelled
    } else {
        ParserError::ParseTimedOut
    }
}

/// The error for a parse that stopped before finishing: cancellation when
/// the flag is raised, a timeout otherwise.
pub fn parse_interrupted_error(options: &ParseOptions) -> (e: ParserError)
    ensures
        e is ParseCancelled || e is ParseTimedOut,
        options.cancellation is None ==> e is ParseTimedOut,
{
    interruption_error(is_parse_cancelled(options))
}

/// Whether the parser may go on: it stops when the flag is raised, or when
/// a limit is set and more microseconds than the limit have passed.
pub fn progress_decision(cancelled: bool, limit_micros: u64, elapsed_micros: u128) -> (r:
    ControlFlow<()>)
    ensures
        r is Break <==> (cancelled || (limit_micros > 0 && elapsed_micros > limit_micros)),
{
    if cancelled || (limit_micros > 0 && elapsed_micros > limit_micros as u128) {
        ControlFlow::Break(())
    } else {
        ControlFlow::Continue(())
    }
}

/// Decides, while the parser runs, whether it may go on, given the time
/// spent since the parse started: it stops once the flag is raised or the
/// time spent exceeds the timeout in whole microseconds (a timeout under one
/// microsecond sets no limit). Time alone stops it exactly when the limit
/// has passed.
pub fn parse_progress(options: &ParseOptions, elapsed_micros: u128) -> (r: ControlFlow<()>)
    ensures
        (timeout_limit(options.timeout) > 0 && elapsed_micros > timeout_limit(options.timeout))
            ==> r is Break,
        options.cancellation is None ==> (r is Break <==> (timeout_limit(options.timeout) > 0
            && elapsed_micros > timeout_limit(options.timeout))),
        (r is Break && !(timeout_limit(options.timeout) > 0 && elapsed_micros > timeout_limit(
            options.timeout,
        ))) ==> options.cancellation is Some,
{
    let cancelled = is_parse_cancelled(options);
    let limit: u64 = #[verifier::truncate] (options.timeout.as_micros() as u64);
    progress_decision(cancelled, limit, elapsed_micros)
}

/// The progress check the parser runs: the time spent since `started`, in
/// whole microseconds, judged by `parse_progress`.
pub fn progress_now(options: &ParseOptions, started: &std::time::Instant) -> (r: ControlFlow<()>)
    ensures
        options.cancellation is None && timeout_limit(options.timeout) == 0 ==> r is Continue,
{
    parse_progress(options, duration_as_micros(&elapsed(started)))
}

/// The text the parser asks for at byte `offset`: the rest of the source,
/// or nothing past its end.
pub fn source_from(source: &[u8], offset: usize) -> (r: &[u8])
    ensures
        offset < source@.len() ==> r@ == source@.subrange(offset as int, source@.len() as int),
        offset >= source@.len() ==> r@.len() == 0,
{
    let len = source.len();
    if offset < len {
        vstd::slice::slice_subrange(source, offset, len)
    } else {
        vstd::slice::slice_subrange(source, len, len)
    }
}

// ---------------------------------------------------------------------------
// The snapshot of the parsed tree
// ---------------------------------------------------------------------------

/// The snapshot as it is built: the nodes so far, and the indices of the
/// last node's ancestors and of the last node itself, one per depth.
pub struct SnapState {
    pub nodes: Seq<NodeView>,
    pub path: Seq<usize>,
}

/// The depth at which node `i` of the tree of `src` is placed: its own
/// depth, or one below the last node if the tree claims more.
pub open spec fn snap_depth(src: Seq<u8>, path: Seq<usize>, i: int) -> int {
    if (rust_node_depth(src, i) as int) < path.len() {
        rust_node_depth(src, i) as int
    } else {
        path.len() as int
    }
}

/// Node `i` of the tree of `src` as the snapshot holds it, given the nodes
/// before it: linked to its parent and previous sibling, with its byte range
/// kept within the source and starting no earlier than its previous sibling.
pub open spec fn snap_node(src: Seq<u8>, st: SnapState, i: int) -> NodeView {
    let d = snap_depth(src, st.path, i);
    let parent = if d > 0 {
        Some(st.path[d - 1])
    } else {
        None
    };
    let prev = if d < st.path.len() {
        Some(st.path[d])
    } else {
        None
    };
    let raw_end = rust_node_end(src, i) as int;
    let end0 = if raw_end < src.len() {
        raw_end
    } else {
        src.len() as int
    };
    let raw_start = rust_node_start(src, i) as int;
    let start0 = if raw_start < end0 {
        raw_start
    } else {
        end0
    };
    let start = match prev {
        Some(q) => if start0 < st.nodes[q as int].start_byte {
            st.nodes[q as int].start_byte as int
        } else {
            start0
        },
        None => start0,
    };
    let end = if end0 < start {
        start
    } else {
        end0
    };
    NodeView {
        kind: rust_node_kind(src, i),
        field: rust_node_field(src, i),
        start_byte: start as usize,
        end_byte: end as usize,
        is_missing: rust_node_missing(src, i),
        has_error: rust_node_has_error(src, i),
        parent,
        prev_sibling: prev,
        next_sibling: None,
        first_child: None,
    }
}

pub open spec fn with_next_sibling(n: NodeView, next: usize) -> NodeView {
    NodeView { next_sibling: Some(next), ..n }
}

pub open spec fn with_first_child(n: NodeView, child: usize) -> NodeView {
    NodeView { first_child: Some(child), ..n }
}

/// The snapshot of the first `n` nodes (in pre-order) of the tree of `src`.
pub open spec fn snap_state(src: Seq<u8>, n: int) -> SnapState
    decreases n,
{
    if n <= 0 {
        SnapState { nodes: Seq::empty(), path: Seq::empty() }
    } else {
        let st = snap_state(src, n - 1);
        let i = n - 1;
        let node = snap_node(src, st, i);
        let linked = match node.prev_sibling {
            Some(q) => st.nodes.update(q as int, with_next_sibling(st.nodes[q as int], i as usize)),
            None => match node.parent {
                Some(p) => st.nodes.update(p as int, with_first_child(st.nodes[p as int], i as usize)),
                None => st.nodes,
            },
        };
        SnapState {
            nodes: linked.push(node),
            path: st.path.take(snap_depth(src, st.path, i)).push(i as usize),
        }
    }
}

/// The snapshot of the whole tree that tree-sitter-rust builds for `src`.
pub open spec fn spec_snapshot(src: Seq<u8>) -> Seq<NodeView> {
    snap_state(src, rust_node_count(src) as int).nodes
}

/// The snapshot is consistent with the source, whatever the parser returns.
#[verifier::spinoff_prover]
pub proof fn lemma_snap_state_wf(src: Seq<u8>, n: int)
    requires
        0 <= n <= usize::MAX,
        src.len() <= usize::MAX,
    ensures
        snap_state(src, n).nodes.len() == n,
        forall|k: int|
            0 <= k < snap_state(src, n).path.len() ==> #[trigger] snap_state(src, n).path[k] < n,
        tree_wf(snap_state(src, n).nodes, src.len() as int),
    decreases n,
{
    reveal(tree_wf);
    if n > 0 {
        lemma_snap_state_wf(src, n - 1);
        let st = snap_state(src, n - 1);
        let i = n - 1;
        let node = snap_node(src, st, i);
        let d = snap_depth(src, st.path, i);
        let linked = match node.prev_sibling {
            Some(q) => st.nodes.update(q as int, with_next_sibling(st.nodes[q as int], i as usize)),
            None => match node.parent {
                Some(p) => st.nodes.update(p as int, with_first_child(st.nodes[p as int], i as usize)),
                None => st.nodes,
            },
        };
        let all = linked.push(node);
        assert(snap_state(src, n).nodes == all);
        if d < st.path.len() {
            let q = st.path[d];
            assert(st.nodes[q as int].start_byte <= st.nodes[q as int].end_byte <= src.len());
        }
        if d > 0 {
            assert(st.path[d - 1] < i);
        }
        assert forall|j: int| 0 <= j < all.len() implies {
            &&& #[trigger] all[j].start_byte <= all[j].end_byte <= src.len()
            &&& all[j].parent matches Some(p) ==> p < j
            &&& all[j].prev_sibling matches Some(q) ==> q < j && all[q as int].start_byte
                <= all[j].start_byte
            &&& all[j].next_sibling matches Some(q) ==> j < q < all.len()
            &&& all[j].first_child matches Some(c) ==> j < c < all.len()
        } by {
            if j < i {
                assert(st.nodes[j].start_byte <= st.nodes[j].end_byte <= src.len());
                if let Some(q) = st.nodes[j].prev_sibling {
                    assert(st.nodes[q as int].start_byte <= st.nodes[j].start_byte);
                }
            }
        }
        let path = snap_state(src, n).path;
        assert forall|k: int| 0 <= k < path.len() implies #[trigger] path[k] < n by {
            if k < d {
                assert(path[k] == st.path[k]);
            }
        }
    }
}

/// Every node of the snapshot has the kind and error flag the parser gave
/// it.
pub proof fn lemma_snap_state_kinds(src: Seq<u8>, n: int)
    requires
        0 <= n <= usize::MAX,
        src.len() <= usize::MAX,
    ensures
        forall|j: int|
            0 <= j < n ==> (#[trigger] snap_state(src, n).nodes[j]).kind == rust_node_kind(src, j)
                && snap_state(src, n).nodes[j].has_error == rust_node_has_error(src, j),
    decreases n,
{
    if n > 0 {
        lemma_snap_state_kinds(src, n - 1);
        lemma_snap_state_wf(src, n - 1);
        let st = snap_state(src, n - 1);
        let all = snap_state(src, n).nodes;
        assert forall|j: int| 0 <= j < n implies (#[trigger] all[j]).kind == rust_node_kind(src, j)
            && all[j].has_error == rust_node_has_error(src, j) by {
            if j < n - 1 {
                assert(st.nodes[j].kind == rust_node_kind(src, j));
            }
        }
    }
}

/// The views of a list of nodes.
pub open spec fn nodes_view(v: Seq<SyntaxNode>) -> Seq<NodeView> {
    v.map_values(|n: SyntaxNode| n@)
}

/// Copies the tree of `tree@` into a snapshot, one node at a time in
/// pre-order.
/// Beside the snapshot, it returns each node's byte range as the parser
/// reported it, before the snapshot kept it within the source.
fn snapshot_tree<'t>(tree: &'t RustTree, source_len: usize) -> (r: (SyntaxTree<'t>, Vec<(usize, usize)>))
    requires
        source_len == tree@.len(),
    ensures
        r.0@ == spec_snapshot(tree@),
        tree_wf(r.0@, tree@.len() as int),
        r.0@.len() == rust_node_count(tree@),
        r.1@.len() == rust_node_count(tree@),
        forall|j: int|
            0 <= j < rust_node_count(tree@) ==> #[trigger] r.1@[j] == (
                rust_node_start(tree@, j),
                rust_node_end(tree@, j),
            ),
        forall|j: int|
            0 <= j < rust_node_count(tree@) ==> (#[trigger] r.0@[j]).kind == rust_node_kind(tree@, j),
{
    let ghost src = tree@;
    let count = tree_node_count(tree);
    let mut cursor = tree_cursor(tree);
    let mut nodes: Vec<SyntaxNode<'t>> = Vec::new();
    let mut path: Vec<usize> = Vec::new();
    let mut keys: Vec<(usize, usize)> = Vec::new();
    let mut i: usize = 0;
    while i < count
        invariant
            cursor@ == src,
            source_len == src.len(),
            count == rust_node_count(src),
            i <= count,
            nodes_view(nodes@) == snap_state(src, i as int).nodes,
            path@ == snap_state(src, i as int).path,
            keys@.len() == i,
            forall|j: int|
                0 <= j < i ==> #[trigger] keys@[j] == (rust_node_start(src, j), rust_node_end(src, j)),
        decreases count - i,
    {
        proof {
            lemma_snap_state_wf(src, i as int);
        }
        let ghost st = snap_state(src, i as int);
        let ghost before = nodes@;
        let ghost old_keys = keys@;
        let depth = node_depth_at(&mut cursor, i);
        let d: usize = if (depth as usize) < path.len() {
            depth as usize
        } else {
            path.len()
        };
        let parent = if d > 0 {
            Some(path[d - 1])
        } else {
            None
        };
        let prev = if d < path.len() {
            Some(path[d])
        } else {
            None
        };
        let raw_end = node_end_at(&mut cursor, i);
        let end0 = if raw_end < source_len {
            raw_end
        } else {
            source_len
        };
        let raw_start = node_start_at(&mut cursor, i);
        let start0 = if raw_start < end0 {
            raw_start
        } else {
            end0
        };
        let start = match prev {
            Some(q) => if start0 < nodes[q].start_byte {
                nodes[q].start_byte
            } else {
                start0
            },
            None => start0,
        };
        let end = if end0 < start {
            start
        } else {
            end0
        };
        let node = SyntaxNode {
            kind: node_kind_at(&mut cursor, i),
            field: node_field_at(&mut cursor, i),
            start_byte: start,
            end_byte: end,
            is_missing: node_missing_at(&mut cursor, i),
            has_error: node_has_error_at(&mut cursor, i),
            parent,
            prev_sibling: prev,
            next_sibling: None,
            first_child: None,
        };
        assert(node@ == snap_node(src, st, i as int));
        match prev {
            Some(q) => {
                let mut linked = nodes[q];
                linked.next_sibling = Some(i);
                nodes.set(q, linked);
            },
            None => match parent {
                Some(p) => {
                    let mut linked = nodes[p];
                    linked.first_child = Some(i);
                    nodes.set(p, linked);
                },
                None => {},
            },
        }
        nodes.push(node);
        path.truncate(d);
        path.push(i);
        keys.push((raw_start, raw_end));
        proof {
            assert forall|j: int| 0 <= j <= i implies #[trigger] keys@[j] == (
                rust_node_start(src, j),
                rust_node_end(src, j),
            ) by {
                if j < i {
                    assert(old_keys[j] == keys@[j]);
                }
            }
            let next = snap_state(src, i + 1);
            assert(nodes_view(nodes@) =~= next.nodes);
            assert(path@ =~= next.path);
        }
        i += 1;
    }
    proof {
        lemma_snap_state_wf(src, count as int);
        lemma_snap_state_kinds(src, count as int);
    }
    let t = SyntaxTree { nodes };
    assert(t@ == nodes_view(t.nodes@));
    (t, keys)
}

// ---------------------------------------------------------------------------
// Locating the captured nodes in the snapshot
// ---------------------------------------------------------------------------

/// The first node at or after `from` of the tree of `src` with the range
/// and kind that capture `c` records.
pub open spec fn first_match(src: Seq<u8>, c: (u32, usize, usize, Seq<char>), from: int) -> Option<int>
    decreases rust_node_count(src) - from,
{
    if from < 0 || from >= rust_node_count(src) {
        None
    } else if is_node_key(src, from, c) {
        Some(from)
    } else {
        first_match(src, c, from + 1)
    }
}

/// For each start byte among the first `n` nodes of the tree of `src`, the
/// first node with it.
pub open spec fn first_start_map(src: Seq<u8>, n: int) -> Map<usize, usize>
    decreases n,
{
    if n <= 0 {
        Map::empty()
    } else {
        let m = first_start_map(src, n - 1);
        if m.contains_key(rust_node_start(src, n - 1)) {
            m
        } else {
            m.insert(rust_node_start(src, n - 1), (n - 1) as usize)
        }
    }
}

/// The first `n` captures located in the tree of `src`: each refers to the
/// first node with its range and kind; a capture that matches no node is
/// dropped.
pub open spec fn spec_located(src: Seq<u8>, raw: Seq<(u32, usize, usize, Seq<char>)>, n: int) -> Seq<
    CapturedNode,
>
    decreases n,
{
    if n <= 0 {
        Seq::empty()
    } else {
        let prev = spec_located(src, raw, n - 1);
        let c = raw[n - 1];
        match first_match(src, c, 0) {
            Some(j) => prev.push(CapturedNode { capture_index: c.0, node: j as usize }),
            None => prev,
        }
    }
}

/// The captures as plain values.
pub open spec fn raw_view(raw: Seq<(u32, usize, usize, &str)>) -> Seq<(u32, usize, usize, Seq<char>)> {
    raw.map_values(|c: (u32, usize, usize, &str)| (c.0, c.1, c.2, c.3@))
}

proof fn lemma_first_start_map(src: Seq<u8>, n: int)
    requires
        0 <= n <= rust_node_count(src),
    ensures
        forall|s: usize| #[trigger]
            first_start_map(src, n).contains_key(s) ==> {
                let j = first_start_map(src, n)[s] as int;
                &&& j < n
                &&& rust_node_start(src, j) == s
                &&& forall|x: int| 0 <= x < j ==> #[trigger] rust_node_start(src, x) != s
            },
        forall|s: usize| #[trigger]
            first_start_map(src, n).contains_key(s) || forall|x: int|
                0 <= x < n ==> #[trigger] rust_node_start(src, x) != s,
    decreases n,
{
    if n > 0 {
        lemma_first_start_map(src, n - 1);
        let m0 = first_start_map(src, n - 1);
        let m = first_start_map(src, n);
        let last = rust_node_start(src, n - 1);
        assert forall|s: usize| #[trigger] m.contains_key(s) implies {
            let j = m[s] as int;
            &&& j < n
            &&& rust_node_start(src, j) == s
            &&& forall|x: int| 0 <= x < j ==> #[trigger] rust_node_start(src, x) != s
        } by {
            if m0.contains_key(s) {
                assert(m[s] == m0[s]);
            } else {
                assert(s == last);
                assert(m[s] == (n - 1) as usize);
                assert(forall|x: int| 0 <= x < n - 1 ==> #[trigger] rust_node_start(src, x) != s);
            }
        }
        assert forall|s: usize| #[trigger] m.contains_key(s) || forall|x: int|
            0 <= x < n ==> #[trigger] rust_node_start(src, x) != s by {
            if !m.contains_key(s) {
                assert(!m0.contains_key(s));
                assert(s != last);
            }
        }
    }
}

proof fn lemma_first_match_skip(src: Seq<u8>, c: (u32, usize, usize, Seq<char>), a: int, b: int)
    requires
        0 <= a <= b,
        forall|x: int| a <= x < b && x < rust_node_count(src) ==> !#[trigger] is_node_key(src, x, c),
    ensures
        first_match(src, c, a) == first_match(src, c, b) || (b > rust_node_count(src)
            && first_match(src, c, a) is None),
    decreases b - a,
{
    if a < b {
        lemma_first_match_skip(src, c, a + 1, b);
    }
}

proof fn lemma_first_match_bound(src: Seq<u8>, c: (u32, usize, usize, Seq<char>), from: int)
    requires
        0 <= from,
    ensures
        first_match(src, c, from) matches Some(j) ==> from <= j < rust_node_count(src)
            && is_node_key(src, j, c),
    decreases rust_node_count(src) - from,
{
    if from < rust_node_count(src) && !is_node_key(src, from, c) {
        lemma_first_match_bound(src, c, from + 1);
    }
}

proof fn lemma_first_match_found(src: Seq<u8>, c: (u32, usize, usize, Seq<char>), from: int, j: int)
    requires
        0 <= from <= j < rust_node_count(src),
        is_node_key(src, j, c),
    ensures
        first_match(src, c, from) is Some,
    decreases j - from,
{
    if from < j && !is_node_key(src, from, c) {
        lemma_first_match_found(src, c, from + 1, j);
    }
}

/// Capture `c` has the range and kind of some node of the tree of `src`.
pub open spec fn is_tree_capture(src: Seq<u8>, c: (u32, usize, usize, Seq<char>)) -> bool {
    exists|j: int| 0 <= j < rust_node_count(src) && #[trigger] is_node_key(src, j, c)
}

/// Captures of nodes of the tree are never dropped: when each capture has
/// the range and kind of some node of the tree of `src`, every capture is
/// located, in order, at a node with its range and kind.
pub proof fn lemma_captured_nodes_located(src: Seq<u8>, raw: Seq<(u32, usize, usize, Seq<char>)>, n: int)
    requires
        0 <= n <= raw.len(),
        forall|k: int| 0 <= k < raw.len() ==> is_tree_capture(src, #[trigger] raw[k]),
    ensures
        spec_located(src, raw, n).len() == n,
        forall|k: int|
            0 <= k < n ==> {
                &&& (#[trigger] spec_located(src, raw, n)[k]).capture_index == raw[k].0
                &&& spec_located(src, raw, n)[k].node < rust_node_count(src)
                &&& is_node_key(src, spec_located(src, raw, n)[k].node as int, raw[k])
            },
    decreases n,
{
    if n > 0 {
        lemma_captured_nodes_located(src, raw, n - 1);
        let c = raw[n - 1];
        assert(is_tree_capture(src, c));
        let j = choose|j: int| 0 <= j < rust_node_count(src) && #[trigger] is_node_key(src, j, c);
        lemma_first_match_found(src, c, 0, j);
        lemma_first_match_bound(src, c, 0);
        let prev = spec_located(src, raw, n - 1);
        let all = spec_located(src, raw, n);
        assert forall|k: int| 0 <= k < n implies {
            &&& (#[trigger] all[k]).capture_index == raw[k].0
            &&& all[k].node < rust_node_count(src)
            &&& is_node_key(src, all[k].node as int, raw[k])
        } by {
            if k < n - 1 {
                assert(all[k] == prev[k]);
            }
        }
    }
}

/// Finds the snapshot node of every capture by the range and kind the
/// parser reported; captures that match no node are dropped.
fn locate_captures(
    tree: &RustTree,
    snapshot: &SyntaxTree,
    keys: &Vec<(usize, usize)>,
    raw: &Vec<(u32, usize, usize, &str)>,
) -> (caps: Vec<CapturedNode>)
    requires
        snapshot@.len() == rust_node_count(tree@),
        keys@.len() == rust_node_count(tree@),
        forall|j: int|
            0 <= j < rust_node_count(tree@) ==> #[trigger] keys@[j] == (
                rust_node_start(tree@, j),
                rust_node_end(tree@, j),
            ),
        forall|j: int|
            0 <= j < rust_node_count(tree@) ==> (#[trigger] snapshot@[j]).kind == rust_node_kind(tree@, j),
    ensures
        caps@ == spec_located(tree@, raw_view(raw@), raw@.len() as int),
        forall|k: int| 0 <= k < caps@.len() ==> #[trigger] caps@[k].node < snapshot@.len(),
{
    broadcast use vstd::std_specs::hash::group_hash_axioms;

    let ghost src = tree@;
    let n = keys.len();
    let mut by_start: HashMap<usize, usize> = HashMap::new();
    let mut i: usize = 0;
    while i < n
        invariant
            n == rust_node_count(src),
            n == keys@.len(),
            forall|j: int|
                0 <= j < n ==> #[trigger] keys@[j] == (rust_node_start(src, j), rust_node_end(src, j)),
            i <= n,
            by_start@ == first_start_map(src, i as int),
        decreases n - i,
    {
        let s = keys[i].0;
        assert(keys@[i as int] == (rust_node_start(src, i as int), rust_node_end(src, i as int)));
        if !by_start.contains_key(&s) {
            by_start.insert(s, i);
        }
        i += 1;
    }
    proof {
        lemma_first_start_map(src, n as int);
    }
    let ghost rv = raw_view(raw@);
    let mut caps: Vec<CapturedNode> = Vec::new();
    let mut k: usize = 0;
    while k < raw.len()
        invariant
            src == tree@,
            n == rust_node_count(src),
            n == keys@.len(),
            n == snapshot@.len(),
            forall|j: int|
                0 <= j < n ==> #[trigger] keys@[j] == (rust_node_start(src, j), rust_node_end(src, j)),
            forall|j: int| 0 <= j < n ==> (#[trigger] snapshot@[j]).kind == rust_node_kind(src, j),
            rv == raw_view(raw@),
            k <= raw@.len(),
            by_start@ == first_start_map(src, n as int),
            forall|s: usize| #[trigger]
                first_start_map(src, n as int).contains_key(s) ==> {
                    let j = first_start_map(src, n as int)[s] as int;
                    &&& j < n
                    &&& rust_node_start(src, j) == s
                    &&& forall|x: int| 0 <= x < j ==> #[trigger] rust_node_start(src, x) != s
                },
            forall|s: usize| #[trigger]
                first_start_map(src, n as int).contains_key(s) || forall|x: int|
                    0 <= x < n ==> #[trigger] rust_node_start(src, x) != s,
            caps@ == spec_located(src, rv, k as int),
            forall|j: int| 0 <= j < caps@.len() ==> #[trigger] caps@[j].node < n,
        decreases raw@.len() - k,
    {
        let (capture_index, s, e, kind) = raw[k];
        let ghost key = rv[k as int];
        assert(key == (capture_index, s, e, kind@));
        let mut found: Option<usize> = None;
        match by_start.get(&s) {
            Some(first) => {
                let mut j: usize = *first;
                proof {
                    assert forall|x: int| 0 <= x < j && x < n implies !#[trigger] is_node_key(src, x, key) by {
                        assert(rust_node_start(src, x) != s);
                    }
                    lemma_first_match_skip(src, key, 0, j as int);
                }
                while j < n
                    invariant_except_break
                        found is None,
                    invariant
                        src == tree@,
                        n == rust_node_count(src),
                        n == keys@.len(),
                        n == snapshot@.len(),
                        forall|x: int|
                            0 <= x < n ==> #[trigger] keys@[x] == (rust_node_start(src, x), rust_node_end(src, x)),
                        forall|x: int| 0 <= x < n ==> (#[trigger] snapshot@[x]).kind == rust_node_kind(src, x),
                        j <= n,
                        key == (capture_index, s, e, kind@),
                        first_match(src, key, 0) == first_match(src, key, j as int),
                    ensures
                        match found {
                            Some(x) => first_match(src, key, 0) == Some(x as int) && x < n,
                            None => first_match(src, key, 0) is None,
                        },
                    decreases n - j,
                {
                    let (ks, ke) = keys[j];
                    assert(keys@[j as int] == (rust_node_start(src, j as int), rust_node_end(src, j as int)));
                    assert(snapshot@[j as int] == snapshot.nodes@[j as int]@);
                    if ks == s && ke == e && str_eq(snapshot.nodes[j].kind, kind) {
                        assert(is_node_key(src, j as int, key));
                        found = Some(j);
                        break;
                    }
                    j += 1;
                }
            },
            None => {
                proof {
                    assert forall|x: int| 0 <= x < n && x < n implies !#[trigger] is_node_key(src, x, key) by {
                        assert(rust_node_start(src, x) != s);
                    }
                    lemma_first_match_skip(src, key, 0, n as int);
                }
            },
        }
        match found {
            Some(x) => {
                caps.push(CapturedNode { capture_index, node: x });
            },
            None => {},
        }
        proof {
            assert(caps@ =~= spec_located(src, rv, k + 1));
        }
        k += 1;
    }
    caps
}

// ---------------------------------------------------------------------------
// The chunks of a source
// ---------------------------------------------------------------------------

/// The chunks of `src`: what the chunker makes of the tree tree-sitter-rust
/// builds for it, with the structural query's captures, in the order the
/// query yields them; `None` when a chunk's bytes are not UTF-8 text.
pub open spec fn rust_chunks(src: Seq<u8>) -> Option<Seq<ChunkView>> {
    let caps = rust_located(src);
    spec_chunks(spec_snapshot(src), src, rust_capture_names(), caps, caps.len() as int)
}

/// The structural query's captures of `src`, located in its tree.
pub open spec fn rust_located(src: Seq<u8>) -> Seq<CapturedNode> {
    let raw = rust_query_captures(src, RUST_QUERY@);
    spec_located(src, raw, raw.len() as int)
}

/// Every capture of the structural query over the tree of `src` is located
/// at a node of the tree: none is dropped.
pub open spec fn all_captures_located(src: Seq<u8>) -> bool {
    let raw = rust_query_captures(src, RUST_QUERY@);
    spec_located(src, raw, raw.len() as int).len() == raw.len()
}

proof fn lemma_chunks_come_from_captures(
    t: Seq<NodeView>,
    src: Seq<u8>,
    names: Seq<Seq<char>>,
    caps: Seq<CapturedNode>,
    n: int,
)
    requires
        0 <= n <= caps.len(),
        spec_chunks(t, src, names, caps, n) is Some,
    ensures
        forall|k: int|
            0 <= k < spec_chunks(t, src, names, caps, n)->0.len() ==> exists|j: int|
                0 <= j < n && spec_capture_chunk(t, src, names, caps[j]) == Some(
                    Some(#[trigger] spec_chunks(t, src, names, caps, n)->0[k]),
                ),
    decreases n,
{
    if n > 0 {
        lemma_chunks_come_from_captures(t, src, names, caps, n - 1);
        let prev = spec_chunks(t, src, names, caps, n - 1)->0;
        let all = spec_chunks(t, src, names, caps, n)->0;
        assert forall|k: int| 0 <= k < all.len() implies exists|j: int|
            0 <= j < n && spec_capture_chunk(t, src, names, caps[j]) == Some(Some(#[trigger] all[k])) by {
            if k < prev.len() {
                assert(all[k] == prev[k]);
                let j = choose|j: int|
                    0 <= j < n - 1 && spec_capture_chunk(t, src, names, caps[j]) == Some(
                        Some(#[trigger] prev[k]),
                    );
                assert(0 <= j < n && spec_capture_chunk(t, src, names, caps[j]) == Some(Some(all[k])));
            } else {
                assert(spec_capture_chunk(t, src, names, caps[n - 1]) == Some(Some(all[k])));
            }
        }
    }
}

proof fn lemma_located_nodes_in_tree(src: Seq<u8>, raw: Seq<(u32, usize, usize, Seq<char>)>, n: int)
    requires
        0 <= n <= raw.len(),
    ensures
        forall|k: int|
            0 <= k < spec_located(src, raw, n).len() ==> (#[trigger] spec_located(src, raw, n)[k]).node
                < rust_node_count(src),
    decreases n,
{
    if n > 0 {
        lemma_located_nodes_in_tree(src, raw, n - 1);
        lemma_first_match_bound(src, raw[n - 1], 0);
        let prev = spec_located(src, raw, n - 1);
        let all = spec_located(src, raw, n);
        assert forall|k: int| 0 <= k < all.len() implies (#[trigger] all[k]).node < rust_node_count(src) by {
            if k < prev.len() {
                assert(all[k] == prev[k]);
            }
        }
    }
}

/// A chunk's error flag is the parser's: every chunk of `src` comes from one
/// of the located captures, whose node `i` is a node of the tree, and is
/// flagged exactly when tree-sitter marked node `i` as containing a syntax
/// error (an ERROR or MISSING node inside it).
pub proof fn lemma_chunk_error_flag_is_the_nodes(src: Seq<u8>)
    requires
        rust_chunks(src) is Some,
        src.len() <= usize::MAX,
    ensures
        forall|k: int|
            0 <= k < rust_chunks(src)->0.len() ==> exists|j: int|
                0 <= j < rust_located(src).len() && rust_located(src)[j].node < rust_node_count(src)
                    && (#[trigger] rust_chunks(src)->0[k]).5 == rust_node_has_error(
                    src,
                    rust_located(src)[j].node as int,
                ),
{
    let t = spec_snapshot(src);
    let caps = rust_located(src);
    let names = rust_capture_names();
    let raw = rust_query_captures(src, RUST_QUERY@);
    let count = rust_node_count(src) as int;
    lemma_chunks_come_from_captures(t, src, names, caps, caps.len() as int);
    lemma_located_nodes_in_tree(src, raw, raw.len() as int);
    lemma_snap_state_kinds(src, count);
    lemma_snap_state_wf(src, count);
    let all = rust_chunks(src)->0;
    assert forall|k: int| 0 <= k < all.len() implies exists|j: int|
        0 <= j < caps.len() && caps[j].node < rust_node_count(src) && (#[trigger] all[k]).5
            == rust_node_has_error(src, caps[j].node as int) by {
        let j = choose|j: int|
            0 <= j < caps.len() && spec_capture_chunk(t, src, names, caps[j]) == Some(Some(#[trigger] all[k]));
        let i = caps[j].node as int;
        assert(i < count);
        reveal(spec_capture_chunk);
        assert(t[i].has_error == rust_node_has_error(src, i));
    }
}

/// Each chunk of a source is a slice of it: its text is the UTF-8 text of a
/// byte range of `src`, and its start and end lines are the lines on which
/// that range begins and ends.
pub proof fn lemma_rust_chunks_are_source_slices(src: Seq<u8>)
    requires
        rust_chunks(src) is Some,
    ensures
        forall|k: int|
            0 <= k < rust_chunks(src)->0.len() ==> is_source_slice_chunk(
                src,
                #[trigger] rust_chunks(src)->0[k],
            ),
{
    let t = spec_snapshot(src);
    let raw = rust_query_captures(src, RUST_QUERY@);
    let caps = spec_located(src, raw, raw.len() as int);
    lemma_chunks_are_source_slices(t, src, rust_capture_names(), caps, caps.len() as int);
}

/// Each chunk's line span is well ordered: it starts on line 1 or later and
/// ends no earlier than it starts.
pub proof fn lemma_rust_chunk_lines_ordered(src: Seq<u8>)
    requires
        rust_chunks(src) is Some,
        src.len() < usize::MAX,
    ensures
        forall|k: int|
            0 <= k < rust_chunks(src)->0.len() ==> 1 <= (#[trigger] rust_chunks(src)->0[k]).3
                <= rust_chunks(src)->0[k].4,
{
    lemma_rust_chunks_are_source_slices(src);
    let v = rust_chunks(src)->0;
    assert forall|k: int| 0 <= k < v.len() implies 1 <= (#[trigger] v[k]).3 <= v[k].4 by {
        assert(is_source_slice_chunk(src, v[k]));
        let (s, e): (int, int) = choose|s: int, e: int|
            0 <= s <= e <= src.len() && #[trigger] bytes_text(src, s, e) == Some(v[k].2) && v[k].3
                == spec_line_of(spec_line_starts(src), s) as usize && v[k].4 == spec_line_of(
                spec_line_starts(src),
                e,
            ) as usize;
        lemma_line_of_monotone(src, s, e);
    }
}

/// Parses Rust source with tree-sitter and returns its structural chunks:
/// module-level items with their attributes and doc comments.
pub fn extract_rust_chunks(source_code: &str, options: ParseOptions<'_>) -> (r: Result<
    Vec<SemanticChunk>,
    ParserError,
>)
    ensures
        r matches Ok(v) ==> rust_chunks(source_code.spec_bytes()) == Some(chunk_views(v@)),
        r matches Ok(v) ==> forall|k: int|
            0 <= k < v@.len() ==> is_source_slice_chunk(source_code.spec_bytes(), #[trigger] v@[k]@),
        r is Ok ==> all_captures_located(source_code.spec_bytes()),
        r matches Err(e) ==> (e is ParseCancelled || e is ParseTimedOut || (e is InvalidUtf8
            && rust_chunks(source_code.spec_bytes()) is None)),
        options.cancellation is None ==> !(r matches Err(e) && e is ParseCancelled),
        options.cancellation is None && timeout_limit(options.timeout) == 0 ==> (r is Ok
            <==> rust_chunks(source_code.spec_bytes()) is Some),
        options.cancellation is None && timeout_limit(options.timeout) == 0 ==> !(r matches Err(e)
            && (e is ParseCancelled || e is ParseTimedOut)),
{
    let language = rust_language();
    let mut parser = match set_parser_language(new_parser(), &language) {
        Ok(parser) => parser,
        Err(error) => {
            return Err(ParserError::LanguageSetup(language_error_text(&error)));
        },
    };
    if is_parse_cancelled(&options) {
        return Err(ParserError::ParseCancelled);
    }
    let bytes = source_code.as_bytes();
    let ghost src = bytes@;
    let started = now();
    let tree = match parse_source(&mut parser, bytes, &options, &started) {
        Some(tree) => tree,
        None => {
            return Err(parse_interrupted_error(&options));
        },
    };
    if is_parse_cancelled(&options) {
        return Err(ParserError::ParseCancelled);
    }
    let query = match new_query(&language, RUST_QUERY) {
        Ok(query) => query,
        Err(error) => {
            return Err(ParserError::InvalidQuery(query_error_text(&error)));
        },
    };
    let raw_captures = query_captures(&query, &tree);
    let capture_names = query_capture_names(&query);
    let (snapshot, keys) = snapshot_tree(&tree, bytes.len());
    let captures = locate_captures(&tree, &snapshot, &keys, &raw_captures);
    proof {
        let raw = rust_query_captures(src, RUST_QUERY@);
        assert(raw_view(raw_captures@) =~= raw);
        assert forall|k: int| 0 <= k < raw.len() implies is_tree_capture(src, #[trigger] raw[k]) by {
            assert(raw_captures@[k].1 == raw_captures@[k].1);
        }
        lemma_captured_nodes_located(src, raw, raw.len() as int);
    }
    let result = chunks_from_tree(source_code, &snapshot, capture_names, captures.as_slice());
    match result {
        Ok(chunks) => {
            proof {
                assert(rust_chunks(src) == Some(chunk_views(chunks@)));
                lemma_rust_chunks_are_source_slices(src);
                assert forall|k: int| 0 <= k < chunks@.len() implies is_source_slice_chunk(
                    src,
                    #[trigger] chunks@[k]@,
                ) by {
                    assert(chunk_views(chunks@)[k] == chunks@[k]@);
                    assert(is_source_slice_chunk(src, rust_chunks(src)->0[k]));
                }
            }
            Ok(chunks)
        },
        Err(e) => Err(e),
    }
}

} // verus!
