use rek0n_parser::chunk::chunk_kind_from_capture;
use rek0n_parser::extract::{chunks_from_tree, CapturedNode};
use rek0n_parser::limit_chunks;
use rek0n_parser::syntax::{
    chunk_byte_range, child_by_field_name, extract_name, is_extractable_item, SyntaxNode,
    SyntaxTree,
};
use rek0n_parser::{ChunkKind, ParserError, SemanticChunk};

fn node(
    kind: &'static str,
    field: Option<&'static str>,
    start: usize,
    end: usize,
    parent: Option<usize>,
) -> SyntaxNode<'static> {
    SyntaxNode {
        kind,
        field,
        start_byte: start,
        end_byte: end,
        is_missing: false,
        has_error: false,
        parent,
        prev_sibling: None,
        next_sibling: None,
        first_child: None,
    }
}

/// `#[inline]\nfn go() {}` with an attribute sibling before the function.
fn attributed_function() -> (&'static str, SyntaxTree<'static>) {
    let source = "#[inline]\nfn go() {}";
    let mut nodes = vec![
        node("source_file", None, 0, 20, None),
        node("attribute_item", None, 0, 9, Some(0)),
        node("function_item", None, 10, 20, Some(0)),
        node("identifier", Some("name"), 13, 15, Some(2)),
    ];
    nodes[0].first_child = Some(1);
    nodes[1].next_sibling = Some(2);
    nodes[2].prev_sibling = Some(1);
    nodes[2].first_child = Some(3);
    (source, SyntaxTree { nodes })
}

#[test]
fn capture_names_map_to_kinds() {
    assert_eq!(chunk_kind_from_capture("function"), ChunkKind::Function);
    assert_eq!(chunk_kind_from_capture("struct"), ChunkKind::Struct);
    assert_eq!(chunk_kind_from_capture("enum"), ChunkKind::Enum);
    assert_eq!(chunk_kind_from_capture("impl"), ChunkKind::Impl);
    assert_eq!(chunk_kind_from_capture("trait"), ChunkKind::Trait);
    assert_eq!(chunk_kind_from_capture("mod"), ChunkKind::Mod);
    assert_eq!(chunk_kind_from_capture("const"), ChunkKind::Const);
    assert_eq!(chunk_kind_from_capture("static"), ChunkKind::Static);
    assert_eq!(chunk_kind_from_capture("type_alias"), ChunkKind::TypeAlias);
    assert_eq!(chunk_kind_from_capture("macro"), ChunkKind::Macro);
    assert_eq!(chunk_kind_from_capture("functions"), ChunkKind::Unknown);
    assert_eq!(chunk_kind_from_capture(""), ChunkKind::Unknown);
}

#[test]
fn chunk_from_snapshot_includes_attributes() {
    let (source, tree) = attributed_function();
    let names = ["function", "struct"];
    let captures = [CapturedNode { capture_index: 0, node: 2 }];
    let chunks = chunks_from_tree(source, &tree, &names, &captures).expect("chunks");
    assert_eq!(chunks.len(), 1);
    assert_eq!(
        chunks[0],
        SemanticChunk {
            kind: ChunkKind::Function,
            name: Some("go".to_string()),
            text: "#[inline]\nfn go() {}".to_string(),
            start_line: 1,
            end_line: 2,
            has_error: false,
        }
    );
}

#[test]
fn unknown_capture_index_gives_unknown_kind() {
    let (source, tree) = attributed_function();
    let names = ["function"];
    let captures = [CapturedNode { capture_index: 5, node: 2 }];
    let chunks = chunks_from_tree(source, &tree, &names, &captures).expect("chunks");
    assert_eq!(chunks[0].kind, ChunkKind::Unknown);
}

#[test]
fn missing_and_nested_nodes_are_skipped() {
    let (source, mut tree) = attributed_function();
    let names = ["function"];
    // the identifier's parent is a function, so it is not module level
    let captures = [CapturedNode { capture_index: 0, node: 3 }];
    assert!(chunks_from_tree(source, &tree, &names, &captures).unwrap().is_empty());
    tree.nodes[2].is_missing = true;
    let captures = [CapturedNode { capture_index: 0, node: 2 }];
    assert!(chunks_from_tree(source, &tree, &names, &captures).unwrap().is_empty());
}

#[test]
fn chunk_over_split_character_is_invalid_utf8() {
    let source = "é";
    let mut nodes = vec![node("source_file", None, 0, 2, None), node("function_item", None, 1, 2, Some(0))];
    nodes[0].first_child = Some(1);
    let tree = SyntaxTree { nodes };
    let captures = [CapturedNode { capture_index: 0, node: 1 }];
    let err = chunks_from_tree(source, &tree, &["function"], &captures).unwrap_err();
    assert!(matches!(err, ParserError::InvalidUtf8(_)));
}

#[test]
fn byte_range_walks_over_attributes_and_docs() {
    let source = "/// doc\n#[a]\nstruct S;";
    let mut nodes = vec![
        node("source_file", None, 0, 22, None),
        node("line_comment", None, 0, 7, Some(0)),
        node("attribute_item", None, 8, 12, Some(0)),
        node("struct_item", None, 13, 22, Some(0)),
    ];
    nodes[0].first_child = Some(1);
    nodes[1].next_sibling = Some(2);
    nodes[2].prev_sibling = Some(1);
    nodes[2].next_sibling = Some(3);
    nodes[3].prev_sibling = Some(2);
    let tree = SyntaxTree { nodes };
    let docs = rek0n_parser::doc_scan::scan_doc_comments(source);
    assert_eq!(chunk_byte_range(&tree, 3, source, &docs), (0, 22));
    assert_eq!(chunk_byte_range(&tree, 3, source, &[]), (8, 22));
}

#[test]
fn module_items_are_extractable_but_impl_members_are_not() {
    let mut nodes = vec![
        node("source_file", None, 0, 10, None),
        node("mod_item", None, 0, 10, Some(0)),
        node("declaration_list", Some("body"), 2, 10, Some(1)),
        node("function_item", None, 3, 9, Some(2)),
        node("impl_item", None, 0, 10, Some(0)),
        node("declaration_list", Some("body"), 2, 10, Some(4)),
        node("function_item", None, 3, 9, Some(5)),
        node("ERROR", None, 0, 10, None),
        node("function_item", None, 0, 5, Some(7)),
    ];
    nodes[0].first_child = Some(1);
    let tree = SyntaxTree { nodes };
    assert!(is_extractable_item(&tree, 1));
    assert!(is_extractable_item(&tree, 3));
    assert!(is_extractable_item(&tree, 4));
    assert!(!is_extractable_item(&tree, 6));
    assert!(is_extractable_item(&tree, 8));
    assert!(!is_extractable_item(&tree, 0));
}

#[test]
fn impl_names_resolve_through_generics_and_paths() {
    // impl<T> a::Wrap<T> for X
    let source = "impl a::Wrap<T> {}";
    let mut nodes = vec![
        node("source_file", None, 0, 18, None),
        node("impl_item", None, 0, 18, Some(0)),
        node("generic_type", Some("type"), 5, 15, Some(1)),
        node("scoped_type_identifier", Some("type"), 5, 12, Some(2)),
        node("identifier", Some("path"), 5, 6, Some(3)),
        node("type_identifier", Some("name"), 8, 12, Some(3)),
    ];
    nodes[0].first_child = Some(1);
    nodes[1].first_child = Some(2);
    nodes[2].first_child = Some(3);
    nodes[3].first_child = Some(4);
    nodes[4].next_sibling = Some(5);
    nodes[5].prev_sibling = Some(4);
    let tree = SyntaxTree { nodes };
    assert_eq!(child_by_field_name(&tree, 3, "name"), Some(5));
    assert_eq!(child_by_field_name(&tree, 3, "type"), None);
    assert_eq!(extract_name(&tree, 1, source.as_bytes()).as_deref(), Some("Wrap"));
}

#[test]
fn limit_chunks_caps_the_count() {
    let chunk = SemanticChunk {
        kind: ChunkKind::Const,
        name: None,
        text: "const A: u8 = 1;".to_string(),
        start_line: 1,
        end_line: 1,
        has_error: false,
    };
    let ok = limit_chunks(vec![chunk.clone()], 1).unwrap();
    assert_eq!(ok, vec![chunk.clone()]);
    let err = limit_chunks(vec![chunk.clone(), chunk], 1).unwrap_err();
    assert!(matches!(err, ParserError::TooManyChunks { count: 2, max: 1 }));
}
