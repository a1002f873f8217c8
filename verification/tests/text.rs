use vsg_rs::text::{
    is_blank_line, line_col, normalize_newlines, split_hunk, to_crlf, uses_crlf,
};
use vsg_rs::{apply_edits, TextEdit};

#[test]
fn edits_are_applied_in_order() {
    let source = b"entity e is\nend;\n";
    let edits = vec![
        TextEdit { start: 0, end: 6, text: b"ENTITY".to_vec() },
        TextEdit { start: 11, end: 11, text: b" -- x".to_vec() },
    ];
    assert_eq!(apply_edits(source, &edits), b"ENTITY e is -- x\nend;\n");
    assert_eq!(apply_edits(source, &[]), source.to_vec());
    let delete = vec![TextEdit { start: 0, end: 12, text: Vec::new() }];
    assert_eq!(apply_edits(source, &delete), b"end;\n");
}

#[test]
fn line_endings() {
    assert_eq!(to_crlf(b"a\nb\n"), b"a\r\nb\r\n");
    assert_eq!(to_crlf(b""), b"");
    assert_eq!(normalize_newlines(b"a\r\nb\rc\n"), b"a\nb\nc\n");
    // Round trip.
    assert_eq!(normalize_newlines(&to_crlf(b"x\n\ny")), b"x\n\ny");
    assert!(uses_crlf(b"a\r\nb\n"));
    assert!(!uses_crlf(b"a\nb\r\n"));
    assert!(!uses_crlf(b"\n"));
    assert!(!uses_crlf(b"no line break"));
}

#[test]
fn lines_and_columns() {
    let src = b"ab\n\tc\nd";
    assert_eq!(line_col(src, true, 0), (1, 1));
    assert_eq!(line_col(src, true, 2), (1, 3));
    assert_eq!(line_col(src, true, 4), (2, 5));
    assert_eq!(line_col(src, true, 6), (3, 1));
    assert_eq!(line_col(src, true, 100), (3, 2));
    assert_eq!(line_col("é=1".as_bytes(), true, 2), (1, 2));
}

#[test]
fn blank_lines() {
    assert!(is_blank_line(b" \t\r\n"));
    assert!(is_blank_line(b""));
    assert!(!is_blank_line(b"  x\n"));
}

#[test]
fn hunks_split_into_lines() {
    let old: Vec<&[u8]> = vec![b"a<=b;\n", b"\n", b"c<=d;\n"];
    let new: Vec<&[u8]> = vec![b"a <= b;\n", b"c <= d;\n"];
    let pieces = split_hunk(&old, &new, &(0..3), &(0..2));
    assert_eq!(pieces, vec![(0..1, 0..1), (1..2, 1..1), (2..3, 1..2)]);
    // Different numbers of code lines keep the hunk whole.
    let new2: Vec<&[u8]> = vec![b"a <= b; c <= d;\n"];
    assert_eq!(split_hunk(&old, &new2, &(0..3), &(0..1)), vec![(0..3, 0..1)]);
    // Identical lines are left out.
    let same: Vec<&[u8]> = vec![b"x\n"];
    assert_eq!(split_hunk(&same, &same, &(0..1), &(0..1)), vec![]);
}
