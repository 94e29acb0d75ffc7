//! A plain-value snapshot of a concrete syntax tree, and the decisions the
//! chunker takes on it: which items are extractable, what an item is called,
//! and which bytes its chunk covers.

use vstd::prelude::*;
use vstd::string::*;

use crate::doc_scan::{
    leading_doc_start, lemma_leading_doc_start_bounds, ranges_well_ordered,
    spec_leading_doc_start, ByteRange,
};
use crate::chunk::opt_string_view;
use crate::text::{bytes_text, str_eq, text_between};

verus! {

/// One node of the syntax tree. Links are indices into the snapshot.
#[derive(Clone, Copy, Debug)]
pub struct SyntaxNode<'t> {
    /// The grammar kind, e.g. `function_item`.
    pub kind: &'t str,
    /// The field name under which the node hangs from its parent.
    pub field: Option<&'t str>,
    pub start_byte: usize,
    pub end_byte: usize,
    pub is_missing: bool,
    pub has_error: bool,
    pub parent: Option<usize>,
    pub prev_sibling: Option<usize>,
    pub next_sibling: Option<usize>,
    pub first_child: Option<usize>,
}

/// What a node is, as plain values: its kind and field name as text.
pub struct NodeView {
    pub kind: Seq<char>,
    pub field: Option<Seq<char>>,
    pub start_byte: usize,
    pub end_byte: usize,
    pub is_missing: bool,
    pub has_error: bool,
    pub parent: Option<usize>,
    pub prev_sibling: Option<usize>,
    pub next_sibling: Option<usize>,
    pub first_child: Option<usize>,
}

impl<'t> View for SyntaxNode<'t> {
    type V = NodeView;

    open spec fn view(&self) -> NodeView {
        NodeView {
            kind: self.kind@,
            field: match self.field {
                Some(f) => Some(f@),
                None => None,
            },
            start_byte: self.start_byte,
            end_byte: self.end_byte,
            is_missing: self.is_missing,
            has_error: self.has_error,
            parent: self.parent,
            prev_sibling: self.prev_sibling,
            next_sibling: self.next_sibling,
            first_child: self.first_child,
        }
    }
}

/// The nodes of a syntax tree in pre-order, the root first.
pub struct SyntaxTree<'t> {
    pub nodes: Vec<SyntaxNode<'t>>,
}

impl<'t> View for SyntaxTree<'t> {
    type V = Seq<NodeView>;

    open spec fn view(&self) -> Seq<NodeView> {
        self.nodes@.map_values(|n: SyntaxNode<'t>| n@)
    }
}

/// The snapshot is consistent with a source of `src_len` bytes: byte ranges
/// lie within the source, parents and previous siblings come earlier, a
/// previous sibling does not start later, children and next siblings come
/// later.
#[verifier::opaque]
pub open spec fn tree_wf(t: Seq<NodeView>, src_len: int) -> bool {
    forall|i: int|
        0 <= i < t.len() ==> {
            &&& #[trigger] t[i].start_byte <= t[i].end_byte <= src_len
            &&& t[i].parent matches Some(p) ==> p < i
            &&& t[i].prev_sibling matches Some(q) ==> q < i && t[q as int].start_byte
                <= t[i].start_byte
            &&& t[i].next_sibling matches Some(q) ==> i < q < t.len()
            &&& t[i].first_child matches Some(c) ==> i < c < t.len()
        }
}

pub open spec fn kind_is(t: Seq<NodeView>, i: int, k: Seq<char>) -> bool {
    t[i].kind == k
}

/// Index of the parent of node `i`, or -1.
pub open spec fn parent_index(t: Seq<NodeView>, i: int) -> int {
    match t[i].parent {
        Some(p) => if p < i {
            p as int
        } else {
            -1
        },
        None => -1,
    }
}

/// Index of the previous sibling of node `i`, or -1.
pub open spec fn prev_sibling_index(t: Seq<NodeView>, i: int) -> int {
    match t[i].prev_sibling {
        Some(q) => if q < i {
            q as int
        } else {
            -1
        },
        None => -1,
    }
}

/// Whether an item whose parent is node `p` sits at module level: directly
/// in the source file, in the body of a `mod` or `extern` block, or under
/// error nodes that hang from the file (or form the root themselves).
pub open spec fn extractable_from(t: Seq<NodeView>, p: int) -> bool
    decreases p + 1,
{
    if p < 0 || p >= t.len() {
        false
    } else if kind_is(t, p, "source_file"@) {
        true
    } else if kind_is(t, p, "declaration_list"@) {
        let g = parent_index(t, p);
        0 <= g && (kind_is(t, g, "mod_item"@) || kind_is(t, g, "foreign_mod_item"@))
    } else if kind_is(t, p, "ERROR"@) {
        let g = parent_index(t, p);
        if g < 0 || kind_is(t, g, "source_file"@) {
            true
        } else {
            extractable_from(t, g)
        }
    } else {
        false
    }
}

/// Node `i` is an item the chunker extracts.
pub open spec fn spec_is_extractable(t: Seq<NodeView>, i: int) -> bool {
    extractable_from(t, parent_index(t, i))
}

/// Starting from node `c` and following next-sibling links, the first node
/// that hangs under field `f`; -1 when there is none.
pub open spec fn field_child_from(t: Seq<NodeView>, c: int, f: Seq<char>) -> int
    decreases t.len() - c,
{
    if c < 0 || c >= t.len() {
        -1
    } else if t[c].field == Some(f) {
        c
    } else {
        match t[c].next_sibling {
            Some(n) => if c < n < t.len() {
                field_child_from(t, n as int, f)
            } else {
                -1
            },
            None => -1,
        }
    }
}

pub open spec fn first_child_index(t: Seq<NodeView>, i: int) -> int {
    match t[i].first_child {
        Some(c) => if c > i {
            c as int
        } else {
            -1
        },
        None => -1,
    }
}

/// The first child of node `i` under field `f`, or -1.
pub open spec fn spec_field_child(t: Seq<NodeView>, i: int, f: Seq<char>) -> int {
    field_child_from(t, first_child_index(t, i), f)
}

/// The source text of node `j`, when it is UTF-8.
pub open spec fn node_text(t: Seq<NodeView>, j: int, src: Seq<u8>) -> Option<Seq<char>> {
    bytes_text(src, t[j].start_byte as int, t[j].end_byte as int)
}

/// The text of an identifier or type identifier node.
pub open spec fn spec_identifier_text(t: Seq<NodeView>, j: int, src: Seq<u8>) -> Option<
    Seq<char>,
> {
    if kind_is(t, j, "identifier"@) || kind_is(t, j, "type_identifier"@) {
        node_text(t, j, src)
    } else {
        None
    }
}

/// The base name of a type: through generic arguments, paths and
/// references down to the named type.
pub open spec fn spec_type_name(t: Seq<NodeView>, j: int, src: Seq<u8>) -> Option<Seq<char>>
    decreases t.len() - j,
{
    if j < 0 || j >= t.len() {
        None
    } else if kind_is(t, j, "type_identifier"@) {
        node_text(t, j, src)
    } else if kind_is(t, j, "generic_type"@) || kind_is(t, j, "reference_type"@)
        || kind_is(t, j, "scoped_type_identifier"@) {
        let f = if kind_is(t, j, "scoped_type_identifier"@) {
            "name"@
        } else {
            "type"@
        };
        let c = spec_field_child(t, j, f);
        if j < c < t.len() {
            spec_type_name(t, c, src)
        } else {
            None
        }
    } else {
        spec_identifier_text(t, j, src)
    }
}

/// The name of item `i`: the implemented type for an `impl`, the declared
/// identifier otherwise.
pub open spec fn spec_item_name(t: Seq<NodeView>, i: int, src: Seq<u8>) -> Option<Seq<char>> {
    if kind_is(t, i, "impl_item"@) {
        let c = spec_field_child(t, i, "type"@);
        if c >= 0 {
            spec_type_name(t, c, src)
        } else {
            None
        }
    } else {
        let c = spec_field_child(t, i, "name"@);
        if c >= 0 {
            spec_identifier_text(t, c, src)
        } else {
            None
        }
    }
}

/// Node `j` is an outer (`#[..]`) or inner (`#![..]`) attribute.
pub open spec fn is_attribute_kind(t: Seq<NodeView>, j: int) -> bool {
    kind_is(t, j, "attribute_item"@) || kind_is(t, j, "inner_attribute_item"@)
}

/// Walking back from sibling `j` over attribute items, the start of the
/// earliest attribute in the run (`start` when there is none).
pub open spec fn attributes_start(t: Seq<NodeView>, j: int, start: int) -> int
    decreases j + 1,
{
    if j < 0 || j >= t.len() {
        start
    } else if is_attribute_kind(t, j) {
        attributes_start(t, prev_sibling_index(t, j), t[j].start_byte as int)
    } else {
        start
    }
}

/// The byte range of the chunk for item `i`: from its leading doc comments
/// and attributes to its end.
pub open spec fn spec_chunk_byte_range(
    t: Seq<NodeView>,
    i: int,
    src: Seq<u8>,
    docs: Seq<ByteRange>,
) -> (int, int) {
    (
        spec_leading_doc_start(
            docs,
            src,
            attributes_start(t, prev_sibling_index(t, i), t[i].start_byte as int),
        ),
        t[i].end_byte as int,
    )
}

// ---------------------------------------------------------------------------
// Lemmas
// ---------------------------------------------------------------------------

/// Items in the body of an inline `mod` block or an `extern` block are
/// extracted, like items of the file itself.
pub proof fn lemma_module_body_items_extracted(t: Seq<NodeView>, i: int)
    requires
        0 <= i < t.len(),
        0 <= parent_index(t, i),
        kind_is(t, parent_index(t, i), "declaration_list"@) || kind_is(
            t,
            parent_index(t, i),
            "source_file"@,
        ),
        kind_is(t, parent_index(t, i), "declaration_list"@) ==> 0 <= parent_index(
            t,
            parent_index(t, i),
        ) && (kind_is(t, parent_index(t, parent_index(t, i)), "mod_item"@) || kind_is(
            t,
            parent_index(t, parent_index(t, i)),
            "foreign_mod_item"@,
        )),
    ensures
        spec_is_extractable(t, i),
{
}

/// Methods and other members of `impl` and `trait` bodies, and items whose
/// parent is any other node (a function body, for instance), are not
/// extracted on their own: they stay inside the enclosing chunk.
pub proof fn lemma_nested_items_not_extracted(t: Seq<NodeView>, i: int)
    requires
        0 <= i < t.len(),
        0 <= parent_index(t, i),
        !kind_is(t, parent_index(t, i), "source_file"@),
        !kind_is(t, parent_index(t, i), "ERROR"@),
        kind_is(t, parent_index(t, i), "declaration_list"@) ==> 0 <= parent_index(
            t,
            parent_index(t, i),
        ) && !kind_is(t, parent_index(t, parent_index(t, i)), "mod_item"@) && !kind_is(
            t,
            parent_index(t, parent_index(t, i)),
            "foreign_mod_item"@,
        ),
    ensures
        !spec_is_extractable(t, i),
{
}

proof fn lemma_field_child_from_range(t: Seq<NodeView>, c: int, f: Seq<char>)
    ensures
        field_child_from(t, c, f) == -1 || (c <= field_child_from(t, c, f) < t.len()),
    decreases t.len() - c,
{
    if 0 <= c < t.len() && !(t[c].field == Some(f)) {
        if let Some(n) = t[c].next_sibling {
            if c < n < t.len() {
                lemma_field_child_from_range(t, n as int, f);
            }
        }
    }
}

/// A field child comes after its parent.
pub proof fn lemma_field_child_range(t: Seq<NodeView>, i: int, f: Seq<char>)
    ensures
        spec_field_child(t, i, f) == -1 || (i < spec_field_child(t, i, f) < t.len()),
{
    lemma_field_child_from_range(t, first_child_index(t, i), f);
}

/// The attribute run starts no later than the item, given that siblings do
/// not start later than the nodes that follow them.
pub proof fn lemma_attributes_start_bound(t: Seq<NodeView>, j: int, start: int, src_len: int)
    requires
        tree_wf(t, src_len),
        j < t.len(),
        0 <= j ==> t[j].start_byte <= start,
    ensures
        attributes_start(t, j, start) <= start,
    decreases j + 1,
{
    reveal(tree_wf);
    if 0 <= j < t.len() && is_attribute_kind(t, j) {
        let q = prev_sibling_index(t, j);
        assert(t[j].start_byte <= t[j].end_byte);
        lemma_attributes_start_bound(t, q, t[j].start_byte as int, src_len);
    }
}

/// `chain` is an unbroken run of attribute siblings: each is an attribute
/// node, and each is the previous sibling of the next one.
pub open spec fn is_attribute_run(t: Seq<NodeView>, chain: Seq<int>) -> bool {
    &&& forall|m: int|
        0 <= m < chain.len() ==> 0 <= #[trigger] chain[m] < t.len() && is_attribute_kind(t, chain[m])
    &&& forall|m: int| 0 < m < chain.len() ==> chain[m - 1] == prev_sibling_index(t, #[trigger] chain[m])
}

proof fn lemma_attribute_walk_reaches(t: Seq<NodeView>, src_len: int, chain: Seq<int>, m: int, start: int)
    requires
        tree_wf(t, src_len),
        is_attribute_run(t, chain),
        0 <= m < chain.len(),
    ensures
        attributes_start(t, chain[m], start) <= t[chain[0]].start_byte,
    decreases m,
{
    reveal(tree_wf);
    let j = chain[m];
    assert(0 <= j < t.len() && is_attribute_kind(t, j));
    if m == 0 {
        let q = prev_sibling_index(t, j);
        assert(t[j].start_byte <= t[j].end_byte);
        lemma_attributes_start_bound(t, q, t[j].start_byte as int, src_len);
    } else {
        assert(chain[m - 1] == prev_sibling_index(t, chain[m]));
        lemma_attribute_walk_reaches(t, src_len, chain, m - 1, t[j].start_byte as int);
    }
}

/// An item's chunk holds its whole run of leading attributes: when the
/// siblings `chain[0]`, ..., `chain[k-1]` just before item `i` are all
/// attributes, each the previous sibling of the next and the last one the
/// item's previous sibling, the chunk starts no later than the first of
/// them.
pub proof fn lemma_attribute_run_included(
    t: Seq<NodeView>,
    i: int,
    src: Seq<u8>,
    docs: Seq<ByteRange>,
    chain: Seq<int>,
)
    requires
        tree_wf(t, src.len() as int),
        ranges_well_ordered(docs),
        0 <= i < t.len(),
        chain.len() >= 1,
        is_attribute_run(t, chain),
        chain[chain.len() - 1] == prev_sibling_index(t, i),
    ensures
        spec_chunk_byte_range(t, i, src, docs).0 <= t[chain[0]].start_byte,
{
    let last = chain.len() - 1;
    lemma_attribute_walk_reaches(t, src.len() as int, chain, last, t[i].start_byte as int);
    let a = attributes_start(t, prev_sibling_index(t, i), t[i].start_byte as int);
    lemma_leading_doc_start_bounds(docs, src, a);
}

// ---------------------------------------------------------------------------
// Executable decisions
// ---------------------------------------------------------------------------

/// Whether node `i` of the snapshot is an item at module level.
pub fn is_extractable_item(tree: &SyntaxTree, i: usize) -> (r: bool)
    requires
        i < tree@.len(),
    ensures
        r == spec_is_extractable(tree@, i as int),
{
    let ghost t = tree@;
    let mut current = i;
    loop
        invariant
            current < t.len(),
            t == tree@,
            spec_is_extractable(t, i as int) == extractable_from(t, parent_index(t, current as int)),
        decreases current,
    {
        let parent = match tree.nodes[current].parent {
            Some(p) => {
                if p >= current {
                    return false;
                }
                p
            },
            None => {
                return false;
            },
        };
        let kind = tree.nodes[parent].kind;
        if str_eq(kind, "source_file") {
            return true;
        }
        if str_eq(kind, "declaration_list") {
            return match tree.nodes[parent].parent {
                Some(g) => g < parent && (str_eq(tree.nodes[g].kind, "mod_item") || str_eq(
                    tree.nodes[g].kind,
                    "foreign_mod_item",
                )),
                None => false,
            };
        }
        if str_eq(kind, "ERROR") {
            match tree.nodes[parent].parent {
                Some(g) => {
                    if g >= parent || str_eq(tree.nodes[g].kind, "source_file") {
                        return true;
                    }
                },
                None => {
                    return true;
                },
            }
            current = parent;
        } else {
            return false;
        }
    }
}

/// The first child of node `i` under field `field`.
pub fn child_by_field_name(tree: &SyntaxTree, i: usize, field: &str) -> (r: Option<usize>)
    requires
        i < tree@.len(),
    ensures
        match r {
            Some(c) => c as int == spec_field_child(tree@, i as int, field@),
            None => spec_field_child(tree@, i as int, field@) == -1,
        },
{
    let ghost t = tree@;
    let n = tree.nodes.len();
    let mut c = match tree.nodes[i].first_child {
        Some(c) => {
            if c <= i {
                return None;
            }
            c
        },
        None => {
            return None;
        },
    };
    loop
        invariant
            t == tree@,
            n == t.len(),
            spec_field_child(t, i as int, field@) == field_child_from(t, c as int, field@),
        decreases n - c,
    {
        if c >= n {
            return None;
        }
        if let Some(f) = tree.nodes[c].field {
            if str_eq(f, field) {
                return Some(c);
            }
        }
        match tree.nodes[c].next_sibling {
            Some(next) => {
                if next <= c || next >= n {
                    return None;
                }
                c = next;
            },
            None => {
                return None;
            },
        }
    }
}

fn node_text_string(tree: &SyntaxTree, j: usize, source: &[u8]) -> (r: Option<String>)
    requires
        j < tree@.len(),
    ensures
        opt_string_view(r) == node_text(tree@, j as int, source@),
{
    let node = &tree.nodes[j];
    if node.start_byte > node.end_byte || node.end_byte > source.len() {
        return None;
    }
    match text_between(source, node.start_byte, node.end_byte) {
        Ok(text) => Some(text),
        Err(_) => None,
    }
}

/// The text of node `j` when it is an identifier or a type identifier.
pub fn identifier_text(tree: &SyntaxTree, j: usize, source: &[u8]) -> (r: Option<String>)
    requires
        j < tree@.len(),
    ensures
        opt_string_view(r) == spec_identifier_text(tree@, j as int, source@),
{
    let kind = tree.nodes[j].kind;
    if str_eq(kind, "identifier") || str_eq(kind, "type_identifier") {
        node_text_string(tree, j, source)
    } else {
        None
    }
}

/// The base name of the type at node `j`.
pub fn type_name_from_type_node(tree: &SyntaxTree, j: usize, source: &[u8]) -> (r: Option<String>)
    requires
        j < tree@.len(),
    ensures
        opt_string_view(r) == spec_type_name(tree@, j as int, source@),
    decreases tree@.len() - j,
{
    let kind = tree.nodes[j].kind;
    if str_eq(kind, "type_identifier") {
        return node_text_string(tree, j, source);
    }
    let scoped = str_eq(kind, "scoped_type_identifier");
    if str_eq(kind, "generic_type") || str_eq(kind, "reference_type") || scoped {
        let field = if scoped {
            "name"
        } else {
            "type"
        };
        proof {
            lemma_field_child_range(tree@, j as int, field@);
        }
        return match child_by_field_name(tree, j, field) {
            Some(inner) => type_name_from_type_node(tree, inner, source),
            None => None,
        };
    }
    identifier_text(tree, j, source)
}

/// The name of item `i`: the implemented type for an `impl` block, the
/// declared identifier for every other item.
pub fn extract_name(tree: &SyntaxTree, i: usize, source: &[u8]) -> (r: Option<String>)
    requires
        i < tree@.len(),
    ensures
        opt_string_view(r) == spec_item_name(tree@, i as int, source@),
{
    proof {
        lemma_field_child_range(tree@, i as int, "type"@);
        lemma_field_child_range(tree@, i as int, "name"@);
    }
    if str_eq(tree.nodes[i].kind, "impl_item") {
        match child_by_field_name(tree, i, "type") {
            Some(type_node) => type_name_from_type_node(tree, type_node, source),
            None => None,
        }
    } else {
        match child_by_field_name(tree, i, "name") {
            Some(name_node) => identifier_text(tree, name_node, source),
            None => None,
        }
    }
}

/// Walks back from sibling `j` (-1 for none) over attribute items,
/// returning the start of the earliest one (`start` if there is none).
fn attribute_run_start(tree: &SyntaxTree, j: Option<usize>, start: usize) -> (r: usize)
    requires
        j matches Some(q) ==> q < tree@.len(),
    ensures
        r == attributes_start(
            tree@,
            match j {
                Some(q) => q as int,
                None => -1,
            },
            start as int,
        ),
    decreases match j {
        Some(q) => q as int + 1,
        None => 0,
    },
{
    match j {
        Some(sib) => {
            let kind = tree.nodes[sib].kind;
            if str_eq(kind, "attribute_item") || str_eq(kind, "inner_attribute_item") {
                let prev = match tree.nodes[sib].prev_sibling {
                    Some(q) => if q < sib {
                        Some(q)
                    } else {
                        None
                    },
                    None => None,
                };
                attribute_run_start(tree, prev, tree.nodes[sib].start_byte)
            } else {
                start
            }
        },
        None => start,
    }
}

/// The byte range of the chunk for item `i`: its leading attributes and
/// doc comments are included.
pub fn chunk_byte_range(tree: &SyntaxTree, i: usize, source: &str, doc_comments: &[ByteRange]) -> (r: (
    usize,
    usize,
))
    requires
        i < tree@.len(),
        tree_wf(tree@, source.spec_bytes().len() as int),
        ranges_well_ordered(doc_comments@),
    ensures
        (r.0 as int, r.1 as int) == spec_chunk_byte_range(
            tree@,
            i as int,
            source.spec_bytes(),
            doc_comments@,
        ),
        r.0 <= tree@[i as int].start_byte,
        r.1 == tree@[i as int].end_byte,
{
    reveal(tree_wf);
    let ghost t = tree@;
    let node = &tree.nodes[i];
    let prev = match node.prev_sibling {
        Some(q) => if q < i {
            Some(q)
        } else {
            None
        },
        None => None,
    };
    proof {
        assert(t[i as int] == tree.nodes@[i as int]@);
        assert(t[i as int].start_byte <= t[i as int].end_byte);
        lemma_attributes_start_bound(
            t,
            prev_sibling_index(t, i as int),
            node.start_byte as int,
            source.spec_bytes().len() as int,
        );
    }
    let start = attribute_run_start(tree, prev, node.start_byte);
    let doc_start = leading_doc_start(doc_comments, source, start);
    (doc_start, node.end_byte)
}

} // verus!
