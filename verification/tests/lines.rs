use rek0n_parser::lines::{build_line_starts, byte_offset_to_line};

#[test]
fn line_starts_follow_newlines() {
    assert_eq!(build_line_starts("a\nbc\n\nd"), vec![0, 2, 5, 6]);
    assert_eq!(build_line_starts(""), vec![0]);
}

#[test]
fn offsets_map_to_one_based_lines() {
    let starts = build_line_starts("a\nbc\n\nd");
    assert_eq!(byte_offset_to_line(&starts, 0), 1);
    assert_eq!(byte_offset_to_line(&starts, 1), 1);
    assert_eq!(byte_offset_to_line(&starts, 2), 2);
    assert_eq!(byte_offset_to_line(&starts, 4), 2);
    assert_eq!(byte_offset_to_line(&starts, 5), 3);
    assert_eq!(byte_offset_to_line(&starts, 6), 4);
    assert_eq!(byte_offset_to_line(&starts, 100), 4);
}

#[test]
fn line_is_one_plus_newlines_before_offset() {
    let source = "x\n\ny\nz\n";
    let starts = build_line_starts(source);
    for offset in 0..=source.len() {
        let newlines = source.as_bytes()[..offset].iter().filter(|b| **b == b'\n').count();
        assert_eq!(byte_offset_to_line(&starts, offset), 1 + newlines);
    }
}
