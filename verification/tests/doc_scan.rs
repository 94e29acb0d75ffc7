use rek0n_parser::doc_scan::{leading_doc_start, scan_doc_comments, ByteRange};

#[test]
fn ignores_doc_like_text_inside_raw_string() {
    let source = r##"r#" /** not a doc comment "# struct Widget;"##;
    let ranges = scan_doc_comments(source);
    assert!(ranges.is_empty());
}

#[test]
fn records_contiguous_line_docs() {
    let source = "/// one\n/// two\nstruct Widget;\n";
    let ranges = scan_doc_comments(source);
    assert_eq!(ranges.len(), 2);
    assert_eq!(&source[ranges[0].start..ranges[0].end], "/// one");
    assert_eq!(&source[ranges[1].start..ranges[1].end], "/// two");
}

#[test]
fn records_inner_line_doc_comments() {
    let source = "//! crate docs\nfn main() {}\n";
    let ranges = scan_doc_comments(source);
    assert_eq!(ranges.len(), 1);
    assert_eq!(&source[ranges[0].start..ranges[0].end], "//! crate docs");
}

#[test]
fn leading_doc_start_walks_back_through_whitespace() {
    let source = "/// one\n/// two\n\nstruct Widget;\n";
    let ranges = scan_doc_comments(source);
    let item_start = source.find("struct Widget").expect("struct should exist");
    let start = leading_doc_start(&ranges, source, item_start);
    assert_eq!(source[start..item_start].trim(), "/// one\n/// two");
}

#[test]
fn lifetimes_do_not_swallow_following_doc_comments() {
    let source = r#"
fn foo<'a>(x: &'a str) -> &'a str {
    x
}

/// Docs for another.
struct Other;
"#;
    let ranges = scan_doc_comments(source);
    assert_eq!(ranges.len(), 1);
    assert_eq!(
        &source[ranges[0].start..ranges[0].end],
        "/// Docs for another."
    );
}

#[test]
fn char_literals_are_still_skipped() {
    let source = "const C: char = 'a'; /// real doc\nstruct Widget;\n";
    let ranges = scan_doc_comments(source);
    assert_eq!(ranges.len(), 1);
    assert_eq!(&source[ranges[0].start..ranges[0].end], "/// real doc");
}

#[test]
fn static_lifetime_is_not_treated_as_char_literal() {
    let source = "fn foo(x: &'static str) {}\n/// doc\nstruct Widget;\n";
    let ranges = scan_doc_comments(source);
    assert_eq!(ranges.len(), 1);
    assert_eq!(&source[ranges[0].start..ranges[0].end], "/// doc");
}

// ---------------------------------------------------------------------------

#[test]
fn block_doc_comments_are_recorded_with_nesting() {
    let source = "/** outer /* inner */ still */ fn f() {}";
    let ranges = scan_doc_comments(source);
    assert_eq!(ranges, vec![ByteRange { start: 0, end: 30 }]);
    assert_eq!(&source[0..30], "/** outer /* inner */ still */");
}

#[test]
fn inner_block_doc_is_recorded_but_plain_comments_are_not() {
    let source = "/*! inner */\n/* plain */\n// plain\nfn f() {}";
    let ranges = scan_doc_comments(source);
    assert_eq!(ranges.len(), 1);
    assert_eq!(&source[ranges[0].start..ranges[0].end], "/*! inner */");
}

#[test]
fn unterminated_block_doc_runs_to_end() {
    let source = "fn f() {} /** open";
    let ranges = scan_doc_comments(source);
    assert_eq!(ranges, vec![ByteRange { start: 10, end: source.len() }]);
}

#[test]
fn doc_text_in_strings_and_byte_strings_is_skipped() {
    let source = "let a = \"/// no\"; let b = b\"//! no\"; let c = \"esc \\\" /// no\";\n/// yes\n";
    let ranges = scan_doc_comments(source);
    assert_eq!(ranges.len(), 1);
    assert_eq!(&source[ranges[0].start..ranges[0].end], "/// yes");
}

#[test]
fn escaped_char_literals_are_skipped() {
    let source = "let q = '\\''; let u = '\\u{1F600}'; let x = '\\x41'; let e = 'é'; /// doc\n";
    let ranges = scan_doc_comments(source);
    assert_eq!(ranges.len(), 1);
    assert_eq!(&source[ranges[0].start..ranges[0].end], "/// doc");
}

#[test]
fn doc_range_at_end_of_input_has_no_newline() {
    let source = "fn f() {}\n/// last";
    let ranges = scan_doc_comments(source);
    assert_eq!(ranges, vec![ByteRange { start: 10, end: 18 }]);
}

#[test]
fn leading_doc_start_stops_at_code_between() {
    let source = "/// doc\nfn f() {}\nstruct S;";
    let ranges = scan_doc_comments(source);
    let item_start = source.find("struct S").unwrap();
    assert_eq!(leading_doc_start(&ranges, source, item_start), item_start);
}

#[test]
fn leading_doc_start_without_docs_is_identity() {
    let source = "struct S;";
    assert_eq!(leading_doc_start(&[], source, 0), 0);
}

#[test]
fn leading_doc_start_crosses_unicode_whitespace() {
    let source = "/// doc\n\u{00A0}\u{2003}\nstruct S;";
    let ranges = scan_doc_comments(source);
    let item_start = source.find("struct S").unwrap();
    assert_eq!(leading_doc_start(&ranges, source, item_start), 0);
}
