use vsg_rs::indent::{resolve, Construct, IndentPolicy, Part, SettingValue, TokenSettings};

fn entry(construct: &str, token: &str, fields: &[(&str, SettingValue)]) -> TokenSettings {
    TokenSettings {
        construct: construct.to_string(),
        token: token.to_string(),
        fields: fields.iter().map(|(f, v)| (f.to_string(), v.clone())).collect(),
        changed: true,
    }
}

fn text(s: &str) -> SettingValue {
    SettingValue::Text(s.to_string())
}

#[test]
fn case_when_use_clauses_and_unsupported_settings() {
    let user = vec![
        entry("architecture_body", "architecture_keyword", &[
            ("after", SettingValue::Number(0)),
            ("token", SettingValue::Number(0)),
        ]),
        entry("architecture_body", "begin_keyword", &[
            ("after", SettingValue::Number(0)),
            ("token", SettingValue::Number(0)),
        ]),
        entry("case_statement", "case_keyword", &[("after", text("+1")), ("token", text("current"))]),
        entry("case_statement", "end_keyword", &[("after", text("-1")), ("token", text("-1"))]),
        entry("case_statement_alternative", "when_keyword", &[
            ("after", text("current")),
            ("token", text("current")),
        ]),
        entry("use_clause", "keyword", &[
            ("after", text("current")),
            ("token", text("current")),
            ("token_after_library_clause", text("current")),
            ("token_if_no_matching_library_clause", text("+1")),
        ]),
        entry("wait_statement", "wait_keyword", &[("after", text("+3")), ("token", text("current"))]),
    ];
    let (policy, warnings) = resolve(&user, &[]);
    // `when` at +1 and its statements at +1 too (0 relative to `when`).
    assert_eq!(policy.level(Construct::CaseStatement, Part::Body), 1);
    assert_eq!(policy.level(Construct::CaseStatementAlternative, Part::Body), 0);
    assert_eq!(policy.level(Construct::CaseStatement, Part::End), 0);
    assert_eq!(policy.use_after_library, Some(0));
    assert_eq!(policy.level(Construct::ArchitectureBody, Part::Body), 0);
    assert_eq!(policy.level(Construct::ArchitectureBody, Part::Statements), 0);
    assert_eq!(warnings.len(), 1, "{warnings:?}");
    assert!(warnings[0].contains("wait_statement.wait_keyword"), "{warnings:?}");
}

#[test]
fn the_default_policy_has_the_structural_levels() {
    let policy = IndentPolicy::default();
    assert_eq!(policy.level(Construct::ProcessStatement, Part::Body), 1);
    assert_eq!(policy.level(Construct::ProcessStatement, Part::Statements), 1);
    assert_eq!(policy.level(Construct::ProcessStatement, Part::Begin), 0);
    assert_eq!(policy.level(Construct::IfStatement, Part::Branch), 0);
    assert_eq!(policy.level(Construct::PortClause, Part::End), 0);
    assert_eq!(policy.use_after_library, None);
}

#[test]
fn user_settings_override_defaults() {
    let defaults = vec![
        entry("port_clause", "port_keyword", &[("after", text("+1"))]),
        entry("port_clause", "close_parenthesis", &[("token", text("-1"))]),
        entry("use_clause", "keyword", &[("token_after_library_clause", text("+1"))]),
    ];
    let (policy, warnings) = resolve(&[], &defaults);
    assert_eq!(policy.level(Construct::PortClause, Part::Body), 1);
    assert_eq!(policy.level(Construct::PortClause, Part::End), 0);
    assert_eq!(policy.use_after_library, None);
    assert!(warnings.is_empty(), "{warnings:?}");
    let user = vec![entry("port_clause", "port_keyword", &[("after", text("+2"))])];
    let (policy, warnings) = resolve(&user, &defaults);
    assert_eq!(policy.level(Construct::PortClause, Part::Body), 2);
    assert_eq!(policy.level(Construct::PortClause, Part::End), 1);
    assert!(warnings.is_empty(), "{warnings:?}");
}

#[test]
fn explicit_defaults_resolve_like_none() {
    let mut defaults = vec![
        entry("process_statement", "process_keyword", &[("after", text("+1"))]),
        entry("process_statement", "begin_keyword", &[("after", text("+1")), ("token", text("current"))]),
        entry("process_statement", "end_keyword", &[("token", text("-1"))]),
        entry("use_clause", "keyword", &[("token_after_library_clause", text("+1"))]),
    ];
    for d in defaults.iter_mut() {
        d.changed = false;
    }
    assert_eq!(resolve(&defaults, &defaults), resolve(&[], &defaults));
}

#[test]
fn unsupported_values_are_reported() {
    let user = vec![
        entry("loop_statement", "loop_keyword", &[("after", SettingValue::Number(2))]),
        entry("if_statement", "if_keyword", &[("after", text("-1"))]),
        entry("use_clause", "keyword", &[("token_after_library_clause", text("-1"))]),
    ];
    let (policy, warnings) = resolve(&user, &[]);
    assert_eq!(
        warnings,
        vec![
            "indent.tokens.loop_statement: absolute indentation is only supported for design units"
                .to_string(),
            "indent.tokens.if_statement: a part would be indented left of its construct; not supported"
                .to_string(),
            "indent.tokens.use_clause: token_after_library_clause must be `current` or `+N`"
                .to_string(),
        ]
    );
    // Nothing was recorded for the loop, so it keeps its structural levels.
    assert_eq!(policy.level(Construct::LoopStatement, Part::Body), 1);
}
