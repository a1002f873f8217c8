use vsg_rs::text::{apply_edits, range_edit_candidates, TextEdit};

fn edit(start: usize, end: usize, text: &str) -> TextEdit {
    TextEdit { start, end, text: text.as_bytes().to_vec() }
}

#[test]
fn only_the_hunks_touching_the_range_are_offered() {
    let src = b"a\nb\nc\n";
    let new = b"a\nB\nc\n";
    let (fine, coarse, all) = range_edit_candidates(src, new, 2..4);
    assert_eq!(fine, vec![edit(2, 4, "B\n")]);
    assert_eq!(coarse, fine);
    assert_eq!(all, fine);
    assert_eq!(apply_edits(src, &fine), new.to_vec());
    let (fine, coarse, all) = range_edit_candidates(src, new, 0..1);
    assert!(fine.is_empty() && coarse.is_empty());
    assert_eq!(all, vec![edit(2, 4, "B\n")]);
}

#[test]
fn blank_lines_are_separate_edits() {
    let src = b"x;\ny;\n";
    let new = b"x;\n\ny;\n";
    let (fine, _, all) = range_edit_candidates(src, new, 0..src.len());
    assert_eq!(fine, vec![edit(3, 3, "\n")]);
    assert_eq!(all, vec![edit(3, 3, "\n")]);
    assert_eq!(apply_edits(src, &all), new.to_vec());
}

#[test]
fn separate_changes_stay_separate() {
    let src = b"a\nb\nc\nd\n";
    let new = b"A\nb\nc\nD\n";
    let (fine, coarse, all) = range_edit_candidates(src, new, 6..7);
    assert_eq!(fine, vec![edit(6, 8, "D\n")]);
    assert_eq!(coarse, vec![edit(6, 8, "D\n")]);
    assert_eq!(all, vec![edit(0, 2, "A\n"), edit(6, 8, "D\n")]);
    assert_eq!(apply_edits(src, &all), new.to_vec());
}
