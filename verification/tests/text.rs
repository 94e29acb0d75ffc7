use rek0n_parser::text::{
    decimal_string, is_all_whitespace, is_whitespace_gap, str_eq, str_slice, text_between,
};

#[test]
fn strings_compare_exactly() {
    assert!(str_eq("rust", "rust"));
    assert!(!str_eq("rust", "Rust"));
    assert!(!str_eq("rust", "rus"));
    assert!(str_eq("", ""));
}

#[test]
fn decimals_render_without_leading_zeros() {
    assert_eq!(decimal_string(0), "0");
    assert_eq!(decimal_string(7), "7");
    assert_eq!(decimal_string(10), "10");
    assert_eq!(decimal_string(16777216), "16777216");
}

#[test]
fn whitespace_checks_use_unicode_whitespace() {
    assert!(is_all_whitespace(" \t\n\r\u{000B}\u{000C}\u{00A0}\u{3000}"));
    assert!(is_all_whitespace(""));
    assert!(!is_all_whitespace(" x "));
    assert!(!is_all_whitespace("\u{200B}"));
}

#[test]
fn gaps_must_be_slices_of_whitespace() {
    let source = "a \u{00A0} b";
    assert!(is_whitespace_gap(source, 1, 5));
    assert!(!is_whitespace_gap(source, 0, 5));
    // splits the two-byte no-break space
    assert!(!is_whitespace_gap(source, 1, 3));
    assert!(!is_whitespace_gap(source, 5, 1));
    assert!(!is_whitespace_gap(source, 1, 99));
}

#[test]
fn slices_respect_character_boundaries() {
    let source = "héllo";
    assert_eq!(str_slice(source, 0, 1), Some("h"));
    assert_eq!(str_slice(source, 1, 3), Some("é"));
    assert_eq!(str_slice(source, 1, 2), None);
    assert_eq!(str_slice(source, 3, 2), None);
}

#[test]
fn text_between_reads_utf8_only() {
    let bytes = "héllo".as_bytes();
    assert_eq!(text_between(bytes, 0, 3).unwrap(), "hé");
    assert!(text_between(bytes, 0, 2).is_err());
    assert!(text_between(&[0xff, 0x41], 0, 2).is_err());
    assert_eq!(text_between(bytes, 3, 3).unwrap(), "");
}

