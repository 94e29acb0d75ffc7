use std::sync::atomic::AtomicUsize;

use rek0n_parser::{
    parse_file, parse_file_with_options, ChunkKind, ParseOptions, ParsedChunk, ParserError,
    Timeout, DEFAULT_PARSE_TIMEOUT_SECS,
};

#[test]
fn parse_file_routes_rust_language() {
    let source = "fn main() {}";
    let chunks = parse_file(source, "rust").expect("rust parsing should succeed");

    assert_eq!(chunks.len(), 1);
    assert_eq!(chunks[0].kind, ChunkKind::Function);
    assert_eq!(chunks[0].name.as_deref(), Some("main"));
}

#[test]
fn rejects_oversized_source() {
    let options = ParseOptions {
        max_source_bytes: 4,
        ..Default::default()
    };
    let err = parse_file_with_options("fn main() {}", "rust", options).unwrap_err();
    assert!(matches!(err, ParserError::SourceTooLarge { .. }));
}

fn large_rust_source(function_count: usize) -> String {
    (0..function_count)
        .map(|index| format!("fn workload_{index}() {{ let value = {index}; }}\n"))
        .collect()
}

#[test]
fn parse_timed_out_returns_parse_timed_out() {
    let err = parse_file_with_options(
        &large_rust_source(20_000),
        "rust",
        ParseOptions {
            timeout: Timeout::from_micros(1),
            cancellation: None,
            ..Default::default()
        },
    )
    .expect_err("parse with a 1 µs timeout should fail");

    assert!(matches!(err, ParserError::ParseTimedOut));
}

#[test]
fn cancelled_parse_returns_parse_cancelled() {
    let flag = AtomicUsize::new(1);
    let err = parse_file_with_options(
        "fn main() {}",
        "rust",
        ParseOptions {
            timeout: Timeout::from_secs(5),
            cancellation: Some(&flag),
            ..Default::default()
        },
    )
    .expect_err("pre-cancelled parse should fail");

    assert!(matches!(err, ParserError::ParseCancelled));
}

#[test]
fn default_parse_options_use_five_second_timeout() {
    assert_eq!(
        ParseOptions::default().timeout,
        Timeout::from_secs(DEFAULT_PARSE_TIMEOUT_SECS)
    );
}

fn healthy(chunks: &[ParsedChunk]) -> Vec<&ParsedChunk> {
    chunks.iter().filter(|chunk| !chunk.has_error).collect()
}

#[test]
fn parse_file_extracts_struct_and_function() {
    let source = r#"
struct User {
    id: u64,
}

fn authenticate(token: &str) -> bool {
    !token.is_empty()
}
"#;

    let chunks = parse_file(source, "rust").expect("rust parse should succeed");
    assert_eq!(chunks.len(), 2);

    assert_eq!(chunks[0].kind, ChunkKind::Struct);
    assert_eq!(chunks[0].name.as_deref(), Some("User"));
    assert!(chunks[0].text.contains("id: u64"));

    assert_eq!(chunks[1].kind, ChunkKind::Function);
    assert_eq!(chunks[1].name.as_deref(), Some("authenticate"));
    assert!(chunks[1].text.contains("token"));
}

#[test]
fn parse_file_rejects_unsupported_language() {
    let err = parse_file("print('hi')", "python").expect_err("python should be rejected");
    assert!(matches!(
        err,
        ParserError::UnsupportedLanguage(ref language) if language == "python"
    ));
}

#[test]
fn parse_file_includes_doc_comments_in_chunk_text() {
    let source = r#"/// Authenticates a bearer token.
fn authenticate(token: &str) -> bool {
    !token.is_empty()
}
"#;

    let chunks = parse_file(source, "rust").expect("rust parse should succeed");
    assert_eq!(chunks.len(), 1);
    assert!(chunks[0].text.contains("/// Authenticates a bearer token."));
}

#[test]
fn consumer_pattern_skips_error_flagged_chunks() {
    let source = r#"
struct Good {
    value: i32,
}

fn broken( {

fn also_good() -> i32 {
    42
}
"#;

    let chunks = parse_file(source, "rust").expect("best-effort parse should succeed");
    let usable = healthy(&chunks);

    assert_eq!(usable.len(), 2);
    assert_eq!(usable[0].name.as_deref(), Some("Good"));
    assert_eq!(usable[1].name.as_deref(), Some("also_good"));
}

#[test]
fn inner_attributes_before_an_item_are_included() {
    let source = "#![allow(dead_code)]\nfn main() {}\n";
    let chunks = parse_file(source, "rust").expect("parse should succeed");
    assert_eq!(chunks.len(), 1);
    assert_eq!(chunks[0].text, "#![allow(dead_code)]\nfn main() {}");
    assert_eq!(chunks[0].start_line, 1);
    assert_eq!(chunks[0].end_line, 2);
}

#[test]
fn file_module_declarations_stay_one_chunk() {
    let source = "mod helpers;\n\nfn run() {}\n";
    let chunks = parse_file(source, "rust").expect("parse should succeed");
    assert_eq!(chunks.len(), 2);
    assert_eq!(chunks[0].kind, ChunkKind::Mod);
    assert_eq!(chunks[0].name.as_deref(), Some("helpers"));
    assert_eq!(chunks[0].text, "mod helpers;");
    assert_eq!(chunks[1].kind, ChunkKind::Function);
    assert_eq!(chunks[1].start_line, 3);
}

#[test]
fn chunk_lines_and_text_follow_the_source() {
    let source = "\n\n/// Adds.\nfn add(a: i32, b: i32) -> i32 {\n    a + b\n}\n";
    let chunks = parse_file(source, "rust").expect("parse should succeed");
    assert_eq!(chunks.len(), 1);
    assert_eq!(chunks[0].start_line, 3);
    assert_eq!(chunks[0].end_line, 6);
    assert!(source.contains(chunks[0].text.as_str()));
    assert!(chunks[0].text.starts_with("/// Adds."));
}

#[test]
fn reference_and_scoped_impl_names_resolve() {
    let source = "impl<'a> Iterator for &'a Walker {}\nimpl fmt::Debug for crate::a::Thing {}\n";
    let chunks = parse_file(source, "rust").expect("parse should succeed");
    assert_eq!(chunks.len(), 2);
    assert_eq!(chunks[0].name.as_deref(), Some("Walker"));
    assert_eq!(chunks[1].name.as_deref(), Some("Thing"));
}

#[test]
fn sub_microsecond_timeout_sets_no_limit() {
    let chunks = parse_file_with_options(
        &large_rust_source(200),
        "rust",
        ParseOptions {
            timeout: Timeout::from_nanos(500),
            cancellation: None,
            ..Default::default()
        },
    )
    .expect("a timeout under one microsecond sets no limit");

    assert_eq!(chunks.len(), 200);
}

#[test]
fn end_line_is_the_line_where_the_item_ends() {
    let source = "\n/// doc\nfn a() {\n    1;\n}\nstruct S;\n";
    let chunks = parse_file(source, "rust").expect("parse should succeed");
    assert_eq!(chunks.len(), 2);
    assert_eq!((chunks[0].start_line, chunks[0].end_line), (2, 5));
    assert_eq!((chunks[1].start_line, chunks[1].end_line), (6, 6));
}
