use vsg_rs::align::{info, width, AlignSettings, Family};
use vsg_rs::blank::{rules, Style};
use vsg_rs::format::disabled_at;
use vsg_rs::indent::Part;
use vsg_rs::layout::{
    comment_offset, has_comment, message, newlines, rule_for, tail, trailing_whitespace,
    ChangeKind, LayoutChange,
};
use vsg_rs::organize::{library_of, rank};
use vsg_rs::reflow::{fill, prose};

#[test]
fn rules_are_sorted_and_known() {
    assert!(rules().windows(2).all(|w| w[0].info.id < w[1].info.id));
}

#[test]
fn blank_line_styles() {
    assert_eq!(Style::parse("require_blank_line"), Some(Style::Require));
    assert_eq!(Style::parse("allow_comment"), Some(Style::Require));
    assert_eq!(Style::parse("no_blank_line"), Some(Style::NoBlank));
    assert_eq!(Style::parse("no_code"), Some(Style::NoCode));
    assert_eq!(Style::parse("something"), None);
    assert_eq!(Style::NoBlank.strongest(Style::Require), Style::Require);
    assert_eq!(Style::NoCode.strongest(Style::NoBlank), Style::NoCode);
    let all = rules();
    assert_eq!(all.len(), 83);
    assert_eq!(all[0].info.id, "architecture_003");
    assert_eq!(all[0].style, Some(Style::Require));
    assert!(all.iter().any(|r| !r.info.enabled_by_default));
}

#[test]
fn indentation_levels() {
    assert_eq!(Part::Body.default_level(), 1);
    assert_eq!(Part::Statements.default_level(), 1);
    assert_eq!(Part::Begin.default_level(), 0);
    assert_eq!(Part::End.default_level(), 0);
}

#[test]
fn alignment_settings() {
    let a = AlignSettings::default();
    assert!(a.comments_enabled());
    assert_eq!(a.process_comments, Family::new(false, false, true));
    assert_eq!(a.families().len(), 10);
    let mut b = a;
    let off = Family { enabled: false, ..a.declaration_comments };
    for i in 5..10 {
        b.set_family(i, off);
    }
    assert!(!b.comments_enabled());
    assert_eq!(info("process_035").id, "process_035");
    assert_eq!(width(b"\t\tab", true, 4), 2);
    assert_eq!(width(b"\ta\tb", true, 4), 5);
    assert_eq!(width(b"ab", true, 4), 2);
}

#[test]
fn library_order() {
    assert_eq!(rank("ieee"), (0, "ieee".to_string()));
    assert_eq!(rank("std").0, 0);
    assert_eq!(rank("work").0, 2);
    assert_eq!(rank("osvvm"), (1, "osvvm".to_string()));
    assert_eq!(library_of("IEEE.std_logic_1164.all"), "ieee");
    assert_eq!(library_of(" work "), "work");
}

#[test]
fn formatting_directives() {
    let directives = [(10, false), (20, true), (30, false)];
    assert!(!disabled_at(&directives, 5));
    assert!(disabled_at(&directives, 10));
    assert!(disabled_at(&directives, 15));
    assert!(!disabled_at(&directives, 25));
    assert!(disabled_at(&directives, 40));
    assert!(matches!(vsg_rs::format::concat(Vec::new()), vsg_rs::doc::Doc::Concat(v) if v.is_empty()));
}

#[test]
fn gaps_between_tokens() {
    assert_eq!(newlines(b"  \n\n  "), 2);
    assert!(has_comment(b"  -- x\n"));
    assert!(has_comment(b" /* x */ "));
    assert!(!has_comment(b" - \n"));
    assert_eq!(tail(b"x  \n \t "), 3);
    assert_eq!(tail(b"   "), 3);
    assert!(trailing_whitespace(b"  \n"));
    assert!(trailing_whitespace(b"x \r\n"));
    assert!(!trailing_whitespace(b"\n  "));
    assert_eq!(comment_offset(b"  -- c\n"), Some(2));
    assert_eq!(comment_offset(b"\n  -- c\n"), None);
    assert_eq!(comment_offset(b"  "), None);
}

fn change(kind: ChangeKind, expected: usize) -> LayoutChange {
    LayoutChange {
        line: 1,
        kind,
        key: "Indent:x".to_string(),
        rule: None,
        expected,
        token: "begin".to_string(),
        original: "BEGIN".to_string(),
    }
}

#[test]
fn layout_messages_and_rules() {
    assert_eq!(message(&change(ChangeKind::Indent, 4), 2), "Indent level 2");
    assert_eq!(message(&change(ChangeKind::Indent, 3), 0), "Indent level 3");
    assert_eq!(message(&change(ChangeKind::Spacing, 0), 2), "Remove the space before begin");
    assert_eq!(
        message(&change(ChangeKind::Spacing, 12), 2),
        "Change the number of spaces before begin to 12"
    );
    assert_eq!(message(&change(ChangeKind::LineBreak, 0), 2), "Move begin to the next line");
    assert_eq!(message(&change(ChangeKind::Join, 0), 2), "Move begin to the previous line");
    assert_eq!(message(&change(ChangeKind::BlankLines, 0), 2), "Remove blank lines above");
    assert_eq!(message(&change(ChangeKind::BlankLines, 1), 2), "Add blank line above");
    assert_eq!(message(&change(ChangeKind::KeywordCase, 0), 2), "Change \"BEGIN\" to \"begin\"");
    let table = vec![("Indent:x".to_string(), "process_012".to_string())];
    assert_eq!(rule_for(&change(ChangeKind::Indent, 2), &table), "process_012");
    assert_eq!(rule_for(&change(ChangeKind::Indent, 2), &[]), "format");
    assert_eq!(rule_for(&change(ChangeKind::Trailing, 0), &[]), "whitespace_001");
    let mut known = change(ChangeKind::KeywordCase, 0);
    known.rule = Some("entity_004");
    assert_eq!(rule_for(&known, &table), "entity_004");
}

#[test]
fn prose_lines() {
    assert_eq!(
        prose(b"  -- one two\n"),
        Some((b"  ".as_slice(), b"one two".as_slice()))
    );
    assert_eq!(prose(b"-- x\r\n"), Some((b"".as_slice(), b"x".as_slice())));
    assert_eq!(prose(b"--! documented\n"), None);
    assert_eq!(prose(b"-- * item\n"), None);
    assert_eq!(prose(b"-- | a | table |\n"), None);
    assert_eq!(prose(b"-- vsg_off signal_008\n"), None);
    assert_eq!(prose(b"-- Synthesis translate_off\n"), None);
    assert_eq!(prose(b"--  indented\n"), None);
    assert_eq!(prose(b"-- 1. first\n"), None);
    assert_eq!(prose(b"x <= y; -- trailing\n"), None);
    assert_eq!(prose(b"   \n"), None);
}

#[test]
fn paragraphs_fill_their_lines() {
    let mut out = Vec::new();
    let words: Vec<&[u8]> = vec![b"one", b"two", b"three", b"four", b"five"];
    fill(b"  ", &words, 20, true, &mut out);
    assert_eq!(out, b"  -- one two three\n  -- four five\n");
    let mut out = Vec::new();
    fill(b"", &[b"averyveryverylongword".as_slice()], 10, true, &mut out);
    assert_eq!(out, b"-- averyveryverylongword\n");
}
