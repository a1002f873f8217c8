use vsg_rs::align::{align_lines, comment_lines, AlignSettings, CommentLine, Region, RegionSpan};

/// The lines of `source` with the trailing comments (after `;`) of region `key` filled in.
fn with_comments(source: &str, key: usize) -> Vec<CommentLine> {
    let mut lines = comment_lines(source.as_bytes());
    for line in lines.iter_mut() {
        let text = &source[line.start..line.code_end];
        if line.blank || line.comment_only {
            continue;
        }
        line.region = Some(key);
        if let (Some(semi), Some(dash)) = (text.find(';'), text.find("--")) {
            line.code_end = line.start + semi + 1;
            line.comment = Some(line.start + dash);
            line.comment_region = Some(key);
        }
    }
    lines
}

fn run(source: &str, settings: &AlignSettings) -> String {
    let lines = with_comments(source, 7);
    let regions = [RegionSpan { key: 7, region: Region::Concurrent, first: 0, last: lines.len() - 1 }];
    String::from_utf8(align_lines(source.as_bytes(), &lines, &regions, settings, true, 2)).unwrap()
}

#[test]
fn lines_are_classified() {
    let lines = comment_lines(b"  a;\n\n  -- note\n\t\n");
    let kinds: Vec<(usize, usize, bool, bool)> =
        lines.iter().map(|l| (l.start, l.code_end, l.blank, l.comment_only)).collect();
    assert_eq!(
        kinds,
        vec![(0, 4, false, false), (5, 5, true, false), (6, 15, false, true), (16, 17, true, false), (18, 18, true, false)]
    );
}

#[test]
fn trailing_comments_of_a_group_share_a_column() {
    let source = "  a <= b; -- one\n  long_name <= c; -- two\n";
    assert_eq!(
        run(source, &AlignSettings::default()),
        "  a <= b;         -- one\n  long_name <= c; -- two\n"
    );
}

#[test]
fn a_blank_line_ends_a_group() {
    let source = "  a <= b; -- one\n\n  long_name <= c;   -- two\n";
    assert_eq!(
        run(source, &AlignSettings::default()),
        "  a <= b; -- one\n\n  long_name <= c; -- two\n"
    );
}

#[test]
fn disabled_comment_alignment_changes_nothing() {
    let mut settings = AlignSettings::default();
    settings.declaration_comments.enabled = false;
    settings.interface_comments.enabled = false;
    settings.map_comments.enabled = false;
    settings.concurrent_comments.enabled = false;
    settings.process_comments.enabled = false;
    let source = "  a <= b; -- one\n  long_name <= c; -- two\n";
    assert_eq!(run(source, &settings), source);
}

#[test]
fn lines_without_comments_can_count() {
    let mut settings = AlignSettings::default();
    settings.concurrent_comments.include_lines_without_comments = true;
    let source = "  a <= b; -- one\n  long_name <= c;\n";
    assert_eq!(run(source, &settings), "  a <= b;         -- one\n  long_name <= c;\n");
}

#[test]
fn aligning_changes_only_blanks() {
    let source = "  a <= b;    -- one\n  long_name <= c; -- two\n  x <= y;\t-- three\n";
    let out = run(source, &AlignSettings::default());
    let strip = |s: &str| s.chars().filter(|c| *c != ' ' && *c != '\t').collect::<String>();
    assert_eq!(strip(&out), strip(source));
    assert_ne!(out, source);
}
