use rek0n_parser::doc_scan::{
    is_lifetime_static, lifetime_end, skip_apostrophe, skip_byte_string_literal,
    skip_char_literal, skip_quoted_literal, skip_raw_string_literal, utf8_char_len,
};

#[test]
fn utf8_widths() {
    assert_eq!(utf8_char_len(b'a'), 1);
    assert_eq!(utf8_char_len(0xC3), 2);
    assert_eq!(utf8_char_len(0xE2), 3);
    assert_eq!(utf8_char_len(0xF0), 4);
    assert_eq!(utf8_char_len(0x80), 1);
    assert_eq!(utf8_char_len(0xF8), 1);
}

#[test]
fn quoted_literals() {
    let b = br#"x "a\"b" y"#;
    assert_eq!(skip_quoted_literal(b, 2, b'"'), Some(8));
    assert_eq!(skip_quoted_literal(b, 0, b'"'), None);
    assert_eq!(skip_quoted_literal(b"\"open", 0, b'"'), Some(1));
    assert_eq!(skip_quoted_literal(b"\"ends\\", 0, b'"'), Some(1));
}

#[test]
fn byte_strings() {
    assert_eq!(skip_byte_string_literal(b"b\"xy\" z", 0), Some(5));
    assert_eq!(skip_byte_string_literal(b"by", 0), None);
}

#[test]
fn raw_strings() {
    assert_eq!(skip_raw_string_literal(br##"r#"a"b"# c"##, 0), Some(8));
    assert_eq!(skip_raw_string_literal(br#"r"a" c"#, 0), Some(4));
    assert_eq!(skip_raw_string_literal(b"r#x", 0), None);
    assert_eq!(skip_raw_string_literal(b"rust", 0), None);
    assert_eq!(skip_raw_string_literal(br##"r##"a"# "##, 0), Some(1));
}

#[test]
fn lifetimes_and_chars() {
    assert!(is_lifetime_static(b"'static str", 1));
    assert!(!is_lifetime_static(b"'statics", 1));
    assert!(!is_lifetime_static(b"'stat", 1));
    assert_eq!(lifetime_end(b"'a_1>", 1), 4);
    assert_eq!(skip_apostrophe(b"&'a str", 1), Some(3));
    assert_eq!(skip_apostrophe(b"'static", 0), Some(7));
    assert_eq!(skip_apostrophe(b"'x' ", 0), Some(3));
    assert_eq!(skip_apostrophe(b"'\\n' ", 0), Some(4));
    assert_eq!(skip_apostrophe(b"x", 0), None);
    assert_eq!(skip_char_literal(b"'\\x41'", 0), Some(6));
    assert_eq!(skip_char_literal(b"'\\u{41}'", 0), Some(8));
    assert_eq!(skip_char_literal("'é'".as_bytes(), 0), Some(4));
    assert_eq!(skip_char_literal(b"'ab", 0), Some(1));
    assert_eq!(skip_char_literal(b"'", 3), Some(4));
}
