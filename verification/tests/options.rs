use rek0n_parser::{
    parse_file_with_options, ParseOptions, ParserError, Timeout, DEFAULT_MAX_CHUNKS,
    DEFAULT_MAX_SOURCE_BYTES,
};

fn invalid_message(options: ParseOptions) -> String {
    match options.validate() {
        Err(ParserError::InvalidOptions(message)) => message,
        other => panic!("expected InvalidOptions, got {other:?}"),
    }
}

#[test]
fn default_options_validate() {
    let options = ParseOptions::default();
    assert!(options.validate().is_ok());
    assert_eq!(options.max_source_bytes, DEFAULT_MAX_SOURCE_BYTES);
    assert_eq!(options.max_chunks, DEFAULT_MAX_CHUNKS);
    assert!(options.cancellation.is_none());
    assert_eq!(options.timeout.as_micros(), 5_000_000);
}

#[test]
fn zero_source_bytes_is_rejected() {
    let options = ParseOptions { max_source_bytes: 0, ..Default::default() };
    assert_eq!(invalid_message(options), "max_source_bytes must be at least 1");
}

#[test]
fn oversized_source_limit_is_rejected_with_both_numbers() {
    let options = ParseOptions { max_source_bytes: 16 * 1024 * 1024 + 1, ..Default::default() };
    assert_eq!(
        invalid_message(options),
        "max_source_bytes 16777217 exceeds limit of 16777216"
    );
}

#[test]
fn limits_at_the_boundary_are_accepted() {
    let options = ParseOptions {
        max_source_bytes: 16 * 1024 * 1024,
        max_chunks: 1_000_000,
        timeout: Timeout::from_secs(300),
        ..Default::default()
    };
    assert!(options.validate().is_ok());
}

#[test]
fn zero_chunks_is_rejected() {
    let options = ParseOptions { max_chunks: 0, ..Default::default() };
    assert_eq!(invalid_message(options), "max_chunks must be at least 1");
}

#[test]
fn chunk_limit_over_maximum_is_rejected() {
    let options = ParseOptions { max_chunks: 1_000_001, ..Default::default() };
    assert_eq!(invalid_message(options), "max_chunks 1000001 exceeds limit of 1000000");
}

#[test]
fn zero_timeout_is_rejected() {
    let options = ParseOptions { timeout: Timeout::from_nanos(0), ..Default::default() };
    assert_eq!(invalid_message(options), "parse timeout must be non-zero");
}

#[test]
fn long_timeout_is_rejected() {
    let options = ParseOptions { timeout: Timeout::from_millis(300_001), ..Default::default() };
    assert_eq!(invalid_message(options), "parse timeout exceeds 300s limit");
}

#[test]
fn source_size_is_checked_before_the_language() {
    let options = ParseOptions { max_source_bytes: 3, ..Default::default() };
    let err = parse_file_with_options("print('hi')", "python", options).unwrap_err();
    assert!(matches!(err, ParserError::SourceTooLarge { len: 11, max: 3 }));
}

#[test]
fn options_are_checked_before_the_source() {
    let options = ParseOptions { max_chunks: 0, ..Default::default() };
    let err = parse_file_with_options("fn main() {}", "python", options).unwrap_err();
    assert!(matches!(err, ParserError::InvalidOptions(_)));
}

#[test]
fn too_many_chunks_is_reported() {
    let options = ParseOptions { max_chunks: 1, ..Default::default() };
    let err = parse_file_with_options("fn a() {}\nfn b() {}\n", "rust", options).unwrap_err();
    assert!(matches!(err, ParserError::TooManyChunks { count: 2, max: 1 }));
}

#[test]
fn timeout_units_convert() {
    assert_eq!(Timeout::from_secs(2).as_nanos(), 2_000_000_000);
    assert_eq!(Timeout::from_millis(3).as_micros(), 3_000);
    assert_eq!(Timeout::from_micros(7).as_nanos(), 7_000);
    assert_eq!(Timeout::from_nanos(1_999).as_micros(), 1);
    assert!(Timeout::from_nanos(0).is_zero());
    assert!(!Timeout::from_nanos(1).is_zero());
}
