use vsg_rs::layout::{layout_changes, ChangeKind, TokenLayout};

fn tok(text: &str, keyword: bool, kind: &str, construct: &str, gap: &str, line: usize) -> TokenLayout {
    TokenLayout {
        text: text.as_bytes().to_vec(),
        keyword,
        kind: kind.to_string(),
        construct: construct.to_string(),
        rule: if keyword { Some("entity_004") } else { None },
        gap: gap.as_bytes().to_vec(),
        line,
    }
}

#[test]
fn classifies_case_trailing_and_blank_lines() {
    let before = vec![
        tok("ENTITY", true, "entity", "EntityDeclaration", "", 1),
        tok("e", false, "Identifier", "EntityDeclaration", " ", 1),
        tok("is", true, "is", "EntityDeclaration", " ", 1),
        tok("end", true, "end", "EntityDeclaration", "  \n\n\n", 4),
    ];
    let after = vec![
        tok("entity", true, "entity", "EntityDeclaration", "", 1),
        tok("e", false, "Identifier", "EntityDeclaration", " ", 1),
        tok("is", true, "is", "EntityDeclaration", " ", 1),
        tok("end", true, "end", "EntityDeclaration", "\n\n", 3),
    ];
    let changes = layout_changes(&before, &after);
    assert_eq!(changes.len(), 3, "{changes:#?}");
    assert_eq!(changes[0].kind, ChangeKind::KeywordCase);
    assert_eq!((changes[0].line, changes[0].rule), (1, Some("entity_004")));
    assert_eq!(changes[0].key, "KeywordCase:entity");
    assert_eq!((changes[0].token.as_str(), changes[0].original.as_str()), ("entity", "ENTITY"));
    assert_eq!(changes[1].kind, ChangeKind::Trailing);
    assert_eq!(changes[1].line, 1);
    assert_eq!(changes[2].kind, ChangeKind::BlankLines);
    assert_eq!(changes[2].key, "BlankLines:EntityDeclaration:end");
    assert_eq!((changes[2].line, changes[2].expected), (4, 1));
}

#[test]
fn spacing_line_breaks_joins_and_indentation() {
    let before = vec![
        tok("a", false, "Identifier", "Target", "", 1),
        tok("<=", false, "LTE", "SignalAssignment", "  ", 1),
        tok("b", false, "Identifier", "Name", "\n", 2),
        tok(";", false, "SemiColon", "SignalAssignment", " ", 2),
        tok("c", false, "Identifier", "Target", "\n", 3),
    ];
    let after = vec![
        tok("a", false, "Identifier", "Target", "", 1),
        tok("<=", false, "LTE", "SignalAssignment", " ", 1),
        tok("b", false, "Identifier", "Name", " ", 1),
        tok(";", false, "SemiColon", "SignalAssignment", "", 1),
        tok("c", false, "Identifier", "Target", "\n  ", 2),
    ];
    let changes = layout_changes(&before, &after);
    let summary: Vec<(ChangeKind, &str, usize)> =
        changes.iter().map(|c| (c.kind, c.key.as_str(), c.expected)).collect();
    assert_eq!(
        summary,
        vec![
            (ChangeKind::Spacing, "Spacing:SignalAssignment:Identifier>LTE", 1),
            (ChangeKind::Join, "Join:Name:Identifier", 0),
            (ChangeKind::Spacing, "Spacing:SignalAssignment:Identifier>SemiColon", 0),
            (ChangeKind::Indent, "Indent:Target:Identifier", 2),
        ]
    );
}

#[test]
fn comment_columns_and_mismatched_streams() {
    let before = vec![
        tok("x", false, "Identifier", "Name", "", 1),
        tok("y", false, "Identifier", "Name", "  -- note\n", 2),
    ];
    let after = vec![
        tok("x", false, "Identifier", "Name", "", 1),
        tok("y", false, "Identifier", "Name", " -- note\n", 2),
    ];
    let changes = layout_changes(&before, &after);
    assert_eq!(changes.len(), 1, "{changes:#?}");
    assert_eq!(changes[0].kind, ChangeKind::CommentColumn);
    assert_eq!((changes[0].line, changes[0].expected), (1, 1));
    assert_eq!(changes[0].key, "CommentColumn:Name");
    assert!(layout_changes(&before, &after[..1]).is_empty());
    assert!(layout_changes(&before, &before).is_empty());
}
