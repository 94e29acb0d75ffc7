use rek0n_parser::{extract_rust_chunks, ChunkKind, ParseOptions, ParserError, SemanticChunk};

fn parse(source: &str) -> Result<Vec<SemanticChunk>, ParserError> {
    extract_rust_chunks(source, ParseOptions::default())
}

#[test]
fn extracts_function_struct_and_impl_chunks() {
    let source = r#"
struct Widget {
value: i32,
}

impl Widget {
fn new(value: i32) -> Self {
    Self { value }
}
}

fn standalone() -> i32 {
42
}
"#;

    let chunks = parse(source).expect("parse should succeed");
    assert_eq!(chunks.len(), 3);

    assert_eq!(chunks[0].kind, ChunkKind::Struct);
    assert_eq!(chunks[0].name.as_deref(), Some("Widget"));

    assert_eq!(chunks[1].kind, ChunkKind::Impl);
    assert_eq!(chunks[1].name.as_deref(), Some("Widget"));

    assert_eq!(chunks[2].kind, ChunkKind::Function);
    assert_eq!(chunks[2].name.as_deref(), Some("standalone"));
}

#[test]
fn chunk_text_matches_source_slice() {
    let source = "fn hello() {}\n";
    let chunks = parse(source).expect("parse should succeed");

    assert_eq!(chunks.len(), 1);
    assert_eq!(chunks[0].text, "fn hello() {}");
    assert_eq!(chunks[0].start_line, 1);
    assert_eq!(chunks[0].end_line, 1);
}

#[test]
fn empty_source_returns_no_chunks() {
    let chunks = parse("").expect("parse should succeed");
    assert!(chunks.is_empty());
}

#[test]
fn impl_methods_are_not_extracted_as_separate_functions() {
    let source = r#"
impl Widget {
fn new() -> Self {
    Self
}

fn reset(&mut self) {}
}
"#;

    let chunks = parse(source).expect("parse should succeed");
    assert_eq!(chunks.len(), 1);
    assert_eq!(chunks[0].kind, ChunkKind::Impl);
    assert_eq!(chunks[0].name.as_deref(), Some("Widget"));
    assert!(chunks[0].text.contains("fn new"));
    assert!(chunks[0].text.contains("fn reset"));
}

#[test]
fn module_scoped_items_are_still_extracted() {
    let source = r#"
mod inner {
struct InnerWidget {
    value: i32,
}

fn inner_fn() -> i32 {
    1
}
}
"#;

    let chunks = parse(source).expect("parse should succeed");
    assert_eq!(chunks.len(), 3);
    assert_eq!(chunks[0].kind, ChunkKind::Mod);
    assert_eq!(chunks[0].name.as_deref(), Some("inner"));
    assert_eq!(chunks[1].kind, ChunkKind::Struct);
    assert_eq!(chunks[1].name.as_deref(), Some("InnerWidget"));
    assert_eq!(chunks[2].kind, ChunkKind::Function);
    assert_eq!(chunks[2].name.as_deref(), Some("inner_fn"));
}

#[test]
fn trait_impl_name_uses_implemented_type_not_trait() {
    let source = r#"
impl std::fmt::Display for Widget {
fn fmt(&self, f: &mut std::fmt::Formatter<'_>) -> std::fmt::Result {
    write!(f, "widget")
}
}
"#;

    let chunks = parse(source).expect("parse should succeed");
    assert_eq!(chunks.len(), 1);
    assert_eq!(chunks[0].kind, ChunkKind::Impl);
    assert_eq!(chunks[0].name.as_deref(), Some("Widget"));
}

#[test]
fn generic_impl_name_resolves_base_type() {
    let source = r#"
impl<T: Default> Container<T> {
fn new() -> Self {
    Self { value: T::default() }
}
}
"#;

    let chunks = parse(source).expect("parse should succeed");
    assert_eq!(chunks.len(), 1);
    assert_eq!(chunks[0].kind, ChunkKind::Impl);
    assert_eq!(chunks[0].name.as_deref(), Some("Container"));
}

#[test]
fn trait_methods_are_not_extracted_as_separate_functions() {
    let source = r#"
trait Drawable {
fn draw(&self);

fn area(&self) -> f64;
}
"#;

    let chunks = parse(source).expect("parse should succeed");
    assert_eq!(chunks.len(), 1);
    assert_eq!(chunks[0].kind, ChunkKind::Trait);
    assert_eq!(chunks[0].name.as_deref(), Some("Drawable"));
    assert!(chunks[0].text.contains("fn draw"));
    assert!(chunks[0].text.contains("fn area"));
}

#[test]
fn extracts_valid_items_despite_parse_errors_elsewhere() {
    let source = r#"
struct Good {
value: i32,
}

fn broken( {

fn also_good() -> i32 {
42
}
"#;

    let chunks = parse(source).expect("best-effort parse should succeed");
    assert_eq!(chunks.len(), 2);
    assert_eq!(chunks[0].kind, ChunkKind::Struct);
    assert_eq!(chunks[0].name.as_deref(), Some("Good"));
    assert_eq!(chunks[1].kind, ChunkKind::Function);
    assert_eq!(chunks[1].name.as_deref(), Some("also_good"));
}

#[test]
fn doc_comments_and_attributes_are_included_in_chunk_text() {
    let source = r#"/// Widget docs.
#[derive(Debug, Clone)]
struct Widget {
value: i32,
}
"#;

    let chunks = parse(source).expect("parse should succeed");
    assert_eq!(chunks.len(), 1);
    assert!(chunks[0].text.contains("/// Widget docs."));
    assert!(chunks[0].text.contains("#[derive(Debug, Clone)]"));
    assert!(chunks[0].text.contains("struct Widget"));
    assert_eq!(chunks[0].start_line, 1);
}

#[test]
fn function_attributes_are_included_in_chunk_text() {
    let source = r#"/// Runs the app.
#[test]
fn run_smoke_test() {
assert!(true);
}
"#;

    let chunks = parse(source).expect("parse should succeed");
    assert_eq!(chunks.len(), 1);
    assert!(chunks[0].text.contains("#[test]"));
    assert!(chunks[0].text.contains("/// Runs the app."));
    assert!(chunks[0].text.contains("fn run_smoke_test"));
}

#[test]
fn block_doc_comments_are_included_in_chunk_text() {
    let source = r#"/**
 * Widget documentation.
 */
struct Widget {
value: i32,
}
"#;

    let chunks = parse(source).expect("parse should succeed");
    assert_eq!(chunks.len(), 1);
    assert!(chunks[0].text.contains("Widget documentation."));
    assert!(chunks[0].text.contains("struct Widget"));
}

#[test]
fn extern_block_declarations_are_extracted() {
    let source = r#"
extern "C" {
fn ffi_fn(x: i32) -> i32;
static FFI_FLAG: i32;
}
"#;

    let chunks = parse(source).expect("parse should succeed");
    assert_eq!(chunks.len(), 2);
    assert_eq!(chunks[0].kind, ChunkKind::Function);
    assert_eq!(chunks[0].name.as_deref(), Some("ffi_fn"));
    assert_eq!(chunks[1].kind, ChunkKind::Static);
    assert_eq!(chunks[1].name.as_deref(), Some("FFI_FLAG"));
}

#[test]
fn doc_like_text_inside_raw_string_does_not_extend_chunk() {
    let source = r##"r#" /** not a doc comment "# struct Widget { value: i32 }"##;
    let chunks = parse(source).expect("parse should succeed");
    assert_eq!(chunks.len(), 1);
    assert!(!chunks[0].text.contains("not a doc comment"));
    assert!(chunks[0].text.starts_with("struct Widget"));
}

#[test]
fn doc_comments_after_lifetime_annotations_are_included() {
    let source = r#"
fn foo<'a>(x: &'a str) -> &'a str {
x
}

/// Docs for another.
struct Other {
value: i32,
}
"#;

    let chunks = parse(source).expect("parse should succeed");
    assert_eq!(chunks.len(), 2);
    assert_eq!(chunks[0].kind, ChunkKind::Function);
    assert_eq!(chunks[0].name.as_deref(), Some("foo"));
    assert_eq!(chunks[1].kind, ChunkKind::Struct);
    assert_eq!(chunks[1].name.as_deref(), Some("Other"));
    assert!(chunks[1].text.contains("/// Docs for another."));
}

#[test]
fn healthy_chunks_have_no_error_flag() {
    let source = "fn healthy() -> i32 { 42 }";
    let chunks = parse(source).expect("parse should succeed");
    assert_eq!(chunks.len(), 1);
    assert!(!chunks[0].has_error);
}

#[test]
fn extracts_extended_item_kinds() {
    let source = r#"
enum Color {
Red,
Green,
}

trait Drawable {
fn draw(&self);
}

const MAX: usize = 100;

static VERSION: &str = "1.0";

type UserId = u64;

macro_rules! vec_of {
($($x:expr),*) => { vec![$($x),*] };
}
"#;

    let chunks = parse(source).expect("parse should succeed");
    assert_eq!(chunks.len(), 6);

    assert_eq!(chunks[0].kind, ChunkKind::Enum);
    assert_eq!(chunks[0].name.as_deref(), Some("Color"));

    assert_eq!(chunks[1].kind, ChunkKind::Trait);
    assert_eq!(chunks[1].name.as_deref(), Some("Drawable"));

    assert_eq!(chunks[2].kind, ChunkKind::Const);
    assert_eq!(chunks[2].name.as_deref(), Some("MAX"));

    assert_eq!(chunks[3].kind, ChunkKind::Static);
    assert_eq!(chunks[3].name.as_deref(), Some("VERSION"));

    assert_eq!(chunks[4].kind, ChunkKind::TypeAlias);
    assert_eq!(chunks[4].name.as_deref(), Some("UserId"));

    assert_eq!(chunks[5].kind, ChunkKind::Macro);
    assert_eq!(chunks[5].name.as_deref(), Some("vec_of"));
}
