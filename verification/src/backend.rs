//! The tree-sitter parser, the Rust grammar, the query engine and the clock,
//! reached through trusted wrappers. Each wrapper makes one call and
//! converts its result. What tree-sitter-rust makes of a source (its nodes,
//! in pre-order, and the query's captures) depends on the source alone and
//! is named by the `rust_*` spec functions below; the wrappers that read a
//! tree state their results over those names. Whether a parse finishes
//! (flag, clock), error texts and the clock itself are left unstated.

use tree_sitter::StreamingIterator;
use vstd::prelude::*;

use crate::extract::{names_view, rust_capture_names, timeout_limit, RUST_QUERY};
use crate::options::ParseOptions;

verus! {

#[verifier::external_type_specification]
#[verifier::external_body]
pub struct ExLanguage(tree_sitter::Language);

#[verifier::external_type_specification]
#[verifier::external_body]
pub struct ExParser(tree_sitter::Parser);

#[verifier::external_type_specification]
#[verifier::external_body]
pub struct ExTree(tree_sitter::Tree);

#[verifier::external_type_specification]
#[verifier::external_body]
pub struct ExTreeCursor<'tree>(tree_sitter::TreeCursor<'tree>);

#[verifier::external_type_specification]
#[verifier::external_body]
pub struct ExQuery(tree_sitter::Query);

#[verifier::external_type_specification]
#[verifier::external_body]
pub struct ExLanguageError(tree_sitter::LanguageError);

#[verifier::external_type_specification]
#[verifier::external_body]
pub struct ExQueryError(tree_sitter::QueryError);

#[verifier::external_type_specification]
#[verifier::external_body]
pub struct ExInstant(std::time::Instant);

/// The Rust grammar as a tree-sitter language. Only `rust_language` makes
/// one.
pub struct RustLanguage {
    language: tree_sitter::Language,
}

/// A tree-sitter parser that has the Rust grammar. Only
/// `set_parser_language` makes one.
pub struct RustParser {
    parser: tree_sitter::Parser,
}

/// `tree_sitter_rust::LANGUAGE` turned into a `tree_sitter::Language`.
#[verifier::external_body]
pub(crate) fn rust_language() -> RustLanguage {
    RustLanguage { language: tree_sitter::Language::new(tree_sitter_rust::LANGUAGE) }
}

/// `tree_sitter::Parser::new`.
#[verifier::external_body]
pub(crate) fn new_parser() -> tree_sitter::Parser {
    tree_sitter::Parser::new()
}

/// `tree_sitter::Parser::set_language` with the Rust grammar. It succeeds:
/// the grammar's ABI version (15) lies within the versions this tree-sitter
/// accepts (13 to 15), and the grammar can parse.
#[verifier::external_body]
pub(crate) fn set_parser_language(
    parser: tree_sitter::Parser,
    language: &RustLanguage,
) -> (r: Result<RustParser, tree_sitter::LanguageError>)
    ensures
        r is Ok,
{
    let mut parser = parser;
    match parser.set_language(&language.language) {
        Ok(()) => Ok(RustParser { parser }),
        Err(error) => Err(error),
    }
}

/// The `Display` text of a `tree_sitter::LanguageError`.
#[verifier::external_body]
pub(crate) fn language_error_text(error: &tree_sitter::LanguageError) -> String {
    error.to_string()
}

// ---------------------------------------------------------------------------
// What tree-sitter's Rust grammar makes of a source
// ---------------------------------------------------------------------------

/// The number of nodes (named and anonymous) in the tree that
/// tree-sitter-rust builds for `src`.
pub uninterp spec fn rust_node_count(src: Seq<u8>) -> usize;

/// The grammar kind of node `index` (in pre-order, the root being 0) of the
/// tree of `src`.
pub uninterp spec fn rust_node_kind(src: Seq<u8>, index: int) -> Seq<char>;

/// The field under which node `index` of the tree of `src` hangs from its
/// parent.
pub uninterp spec fn rust_node_field(src: Seq<u8>, index: int) -> Option<Seq<char>>;

/// The depth of node `index` of the tree of `src` (the root has depth 0).
pub uninterp spec fn rust_node_depth(src: Seq<u8>, index: int) -> u32;

/// The first byte of node `index` of the tree of `src`.
pub uninterp spec fn rust_node_start(src: Seq<u8>, index: int) -> usize;

/// The end byte (exclusive) of node `index` of the tree of `src`.
pub uninterp spec fn rust_node_end(src: Seq<u8>, index: int) -> usize;

/// Whether node `index` of the tree of `src` was inserted by error recovery.
pub uninterp spec fn rust_node_missing(src: Seq<u8>, index: int) -> bool;

/// Whether node `index` of the tree of `src` contains a syntax error.
pub uninterp spec fn rust_node_has_error(src: Seq<u8>, index: int) -> bool;

/// Every capture of every match of the query written as `query` over the
/// tree of `src`, in the order tree-sitter yields them: the capture number,
/// and the captured node's first byte, end byte and kind.
/// Each captured node is a node of that tree.
pub uninterp spec fn rust_query_captures(src: Seq<u8>, query: Seq<char>) -> Seq<
    (u32, usize, usize, Seq<char>),
>;

/// Node `j` of the tree of `src` has the range and kind that capture `c`
/// records.
pub open spec fn is_node_key(src: Seq<u8>, j: int, c: (u32, usize, usize, Seq<char>)) -> bool {
    &&& rust_node_start(src, j) == c.1
    &&& rust_node_end(src, j) == c.2
    &&& rust_node_kind(src, j) == c.3
}

/// A complete tree-sitter tree of `source`. Only `parse_source` builds one,
/// from the parser's result for exactly these bytes.
pub struct RustTree<'s> {
    tree: tree_sitter::Tree,
    source: &'s [u8],
}

impl<'s> View for RustTree<'s> {
    type V = Seq<u8>;

    closed spec fn view(&self) -> Seq<u8> {
        self.source@
    }
}

/// A cursor over a `RustTree`; its view is the parsed source.
pub struct RustCursor<'t> {
    cursor: tree_sitter::TreeCursor<'t>,
    source: &'t [u8],
}

impl<'t> View for RustCursor<'t> {
    type V = Seq<u8>;

    closed spec fn view(&self) -> Seq<u8> {
        self.source@
    }
}

/// A compiled tree-sitter query; its view is the query's text.
pub struct RustQuery {
    query: tree_sitter::Query,
    text: &'static str,
}

impl View for RustQuery {
    type V = Seq<char>;

    closed spec fn view(&self) -> Seq<char> {
        self.text@
    }
}

/// `tree_sitter::Parser::parse_with_options` over the whole of `source`,
/// with a progress callback that asks `progress_now` whether to go on.
/// The result is the tree of exactly `source`, or `None` when the callback
/// stopped the parse. With the Rust grammar set, and no wasm scanner, the
/// parse returns `None` only then; without a cancellation flag and with a
/// zero limit, `progress_now` never stops it, so a tree comes back.
#[verifier::external_body]
pub(crate) fn parse_source<'s, 'a>(
    parser: &mut RustParser,
    source: &'s [u8],
    options: &ParseOptions<'a>,
    started: &std::time::Instant,
) -> (r: Option<RustTree<'s>>)
    ensures
        r matches Some(t) ==> t@ == source@,
        options.cancellation is None && timeout_limit(options.timeout) == 0 ==> r is Some,
{
    let mut progress = |_state: &tree_sitter::ParseState| crate::extract::progress_now(options, started);
    let parse_options = tree_sitter::ParseOptions::new().progress_callback(&mut progress);
    let tree = parser.parser.parse_with_options(
        &mut |offset: usize, _position: tree_sitter::Point| crate::extract::source_from(source, offset),
        None,
        Some(parse_options),
    );
    match tree {
        Some(tree) => Some(RustTree { tree, source }),
        None => None,
    }
}

/// `tree_sitter::Node::descendant_count` of the root: the number of nodes.
#[verifier::external_body]
pub(crate) fn tree_node_count(tree: &RustTree) -> (r: usize)
    ensures
        r == rust_node_count(tree@),
{
    tree.tree.root_node().descendant_count()
}

/// `tree_sitter::Tree::walk`: a cursor on the root of `tree`.
#[verifier::external_body]
pub(crate) fn tree_cursor<'t>(tree: &'t RustTree) -> (r: RustCursor<'t>)
    ensures
        r@ == tree@,
{
    RustCursor { cursor: tree.tree.walk(), source: tree.source }
}

/// `tree_sitter::Node::kind` of node `index`, reached with
/// `tree_sitter::TreeCursor::goto_descendant`.
#[verifier::external_body]
pub(crate) fn node_kind_at<'t>(cursor: &mut RustCursor<'t>, index: usize) -> (r: &'t str)
    requires
        index < rust_node_count(old(cursor)@),
    ensures
        final(cursor)@ == old(cursor)@,
        r@ == rust_node_kind(old(cursor)@, index as int),
{
    cursor.cursor.goto_descendant(index);
    cursor.cursor.node().kind()
}

/// `tree_sitter::TreeCursor::field_name` at node `index`.
#[verifier::external_body]
pub(crate) fn node_field_at<'t>(cursor: &mut RustCursor<'t>, index: usize) -> (r: Option<&'t str>)
    requires
        index < rust_node_count(old(cursor)@),
    ensures
        final(cursor)@ == old(cursor)@,
        match r {
            Some(f) => rust_node_field(old(cursor)@, index as int) == Some(f@),
            None => rust_node_field(old(cursor)@, index as int) is None,
        },
{
    cursor.cursor.goto_descendant(index);
    cursor.cursor.field_name()
}

/// `tree_sitter::TreeCursor::depth` at node `index`.
#[verifier::external_body]
pub(crate) fn node_depth_at(cursor: &mut RustCursor, index: usize) -> (r: u32)
    requires
        index < rust_node_count(old(cursor)@),
    ensures
        final(cursor)@ == old(cursor)@,
        r == rust_node_depth(old(cursor)@, index as int),
{
    cursor.cursor.goto_descendant(index);
    cursor.cursor.depth()
}

/// `tree_sitter::Node::start_byte` of node `index`.
#[verifier::external_body]
pub(crate) fn node_start_at(cursor: &mut RustCursor, index: usize) -> (r: usize)
    requires
        index < rust_node_count(old(cursor)@),
    ensures
        final(cursor)@ == old(cursor)@,
        r == rust_node_start(old(cursor)@, index as int),
{
    cursor.cursor.goto_descendant(index);
    cursor.cursor.node().start_byte()
}

/// `tree_sitter::Node::end_byte` of node `index`.
#[verifier::external_body]
pub(crate) fn node_end_at(cursor: &mut RustCursor, index: usize) -> (r: usize)
    requires
        index < rust_node_count(old(cursor)@),
    ensures
        final(cursor)@ == old(cursor)@,
        r == rust_node_end(old(cursor)@, index as int),
{
    cursor.cursor.goto_descendant(index);
    cursor.cursor.node().end_byte()
}

/// `tree_sitter::Node::is_missing` of node `index`.
#[verifier::external_body]
pub(crate) fn node_missing_at(cursor: &mut RustCursor, index: usize) -> (r: bool)
    requires
        index < rust_node_count(old(cursor)@),
    ensures
        final(cursor)@ == old(cursor)@,
        r == rust_node_missing(old(cursor)@, index as int),
{
    cursor.cursor.goto_descendant(index);
    cursor.cursor.node().is_missing()
}

/// `tree_sitter::Node::has_error` of node `index`.
#[verifier::external_body]
pub(crate) fn node_has_error_at(cursor: &mut RustCursor, index: usize) -> (r: bool)
    requires
        index < rust_node_count(old(cursor)@),
    ensures
        final(cursor)@ == old(cursor)@,
        r == rust_node_has_error(old(cursor)@, index as int),
{
    cursor.cursor.goto_descendant(index);
    cursor.cursor.node().has_error()
}

/// `tree_sitter::Query::new` for the Rust grammar. The structural query
/// `RUST_QUERY` compiles: it names only node kinds of the grammar.
#[verifier::external_body]
pub(crate) fn new_query(
    language: &RustLanguage,
    text: &'static str,
) -> (r: Result<RustQuery, tree_sitter::QueryError>)
    ensures
        r matches Ok(q) ==> q@ == text@,
        text@ == RUST_QUERY@ ==> r is Ok,
{
    match tree_sitter::Query::new(&language.language, text) {
        Ok(query) => Ok(RustQuery { query, text }),
        Err(error) => Err(error),
    }
}

/// The `Display` text of a `tree_sitter::QueryError`.
#[verifier::external_body]
pub(crate) fn query_error_text(error: &tree_sitter::QueryError) -> String {
    error.to_string()
}

/// `tree_sitter::Query::capture_names`: capture numbers follow the order in
/// which the names first appear in the query text, so for `RUST_QUERY` they
/// are `rust_capture_names()`.
#[verifier::external_body]
pub(crate) fn query_capture_names(query: &RustQuery) -> (r: &[&str])
    ensures
        query@ == RUST_QUERY@ ==> names_view(r@) == rust_capture_names(),
{
    query.query.capture_names()
}

/// Runs `query` over the whole tree with `tree_sitter::QueryCursor::matches`
/// and lists every capture of every match, in the order the cursor yields
/// them, as (capture number, node start byte, node end byte, node kind).
#[verifier::external_body]
pub(crate) fn query_captures<'t>(query: &RustQuery, tree: &'t RustTree) -> (r: Vec<(u32, usize, usize, &'t str)>)
    ensures
        r@.len() == rust_query_captures(tree@, query@).len(),
        forall|k: int| 0 <= k < r@.len() ==> {
            let c = #[trigger] r@[k];
            let n = rust_query_captures(tree@, query@)[k];
            c.0 == n.0 && c.1 == n.1 && c.2 == n.2 && c.3@ == n.3
        },
        forall|k: int|
            0 <= k < r@.len() ==> exists|j: int|
                0 <= j < rust_node_count(tree@) && is_node_key(
                    tree@,
                    j,
                    rust_query_captures(tree@, query@)[k],
                ) && #[trigger] r@[k].1 == rust_node_start(tree@, j),
{
    let mut cursor = tree_sitter::QueryCursor::new();
    let mut matches = cursor.matches(&query.query, tree.tree.root_node(), tree.source);
    let mut captures = Vec::new();
    while let Some(found) = matches.next() {
        for capture in found.captures() {
            let node = capture.node;
            captures.push((capture.index, node.start_byte(), node.end_byte(), node.kind()));
        }
    }
    captures
}

/// `std::time::Instant::now`.
#[verifier::external_body]
pub(crate) fn now() -> std::time::Instant {
    std::time::Instant::now()
}

/// `std::time::Instant::elapsed`: depends on the clock, so nothing is
/// stated of it.
#[verifier::external_body]
pub(crate) fn elapsed(started: &std::time::Instant) -> std::time::Duration {
    started.elapsed()
}

/// `std::time::Duration::as_micros`; `Duration` is opaque here, so the
/// count is left unstated.
#[verifier::external_body]
pub(crate) fn duration_as_micros(duration: &std::time::Duration) -> u128 {
    duration.as_micros()
}

} // verus!
