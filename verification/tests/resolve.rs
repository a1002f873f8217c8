use vsg_rs::align::AlignSettings;
use vsg_rs::blank::Style;
use vsg_rs::config::{ConfigValue, ParenConstruct, RuleDefaults, RuleLayers, Severity};

fn map(entries: Vec<(&str, ConfigValue)>) -> ConfigValue {
    ConfigValue::Mapping(
        entries
            .into_iter()
            .map(|(k, v)| {
                let shown = format!("{v:?}");
                (k.to_string(), v, shown)
            })
            .collect(),
    )
}

fn text(s: &str) -> ConfigValue {
    ConfigValue::Text(s.to_string())
}

fn layers(block: ConfigValue) -> RuleLayers {
    let mut layers = RuleLayers::new();
    assert!(layers.merge_rules(&block).is_ok());
    layers
}

fn defaults(id: &str, groups: &[&str], disable: bool, options: Vec<(&str, ConfigValue)>) -> (String, RuleDefaults) {
    (
        id.to_string(),
        RuleDefaults {
            groups: groups.iter().map(|g| g.to_string()).collect(),
            disable,
            severity: Severity::Error,
            fixable: true,
            options: options.into_iter().map(|(k, v)| (k.to_string(), v)).collect(),
        },
    )
}

#[test]
fn alignment_defaults_without_configuration() {
    let align = RuleLayers::new().resolve_alignment(&Vec::new());
    assert_eq!(align, AlignSettings::default());
}

#[test]
fn alignment_families_follow_their_rules() {
    let block = map(vec![
        ("architecture_026", map(vec![("disable", ConfigValue::Bool(true))])),
        (
            "process_035",
            map(vec![
                ("blank_line_ends_group", text("yes")),
                ("include_lines_without_comments", ConfigValue::Bool(false)),
            ]),
        ),
        ("entity_017", map(vec![("disable", ConfigValue::Bool(true))])),
    ]);
    let table = vec![defaults("entity_017", &["alignment"], false, Vec::new())];
    let align = layers(block).resolve_alignment(&table);
    assert!(!align.declaration_colons.enabled);
    assert!(align.declaration_names.enabled);
    assert!(align.process_comments.blank_line_ends_group);
    assert!(!align.process_comments.include_lines_without_comments);
    assert!(!align.process_comments.comment_line_ends_group);
    assert!(!align.interface_colons);
    assert!(align.component_colons, "unknown rules count as enabled");
}

#[test]
fn a_rule_disabled_by_its_defaults_stays_off() {
    let table = vec![defaults("instantiation_010", &["alignment"], true, Vec::new())];
    let align = RuleLayers::new().resolve_alignment(&table);
    assert!(!align.map_arrows);
    let block = map(vec![("group", map(vec![("alignment", map(vec![("disable", ConfigValue::Bool(false))]))]))]);
    assert!(layers(block).resolve_alignment(&table).map_arrows);
}

#[test]
fn rule_by_id_reads_the_defaults() {
    let table = vec![defaults(
        "length_001",
        &["length"],
        false,
        vec![("length", ConfigValue::Unsigned(120)), ("severity", text("Warning")), ("disable", ConfigValue::Bool(false))],
    )];
    let block = map(vec![("group", map(vec![("length", map(vec![("length", ConfigValue::Unsigned(80))]))]))]);
    let layers = layers(block);
    let d = vsg_rs::config::defaults_for(&table, "length_001");
    let s = layers.rule_by_id("length_001", d).unwrap();
    assert!(s.enabled);
    assert_eq!(s.option_usize("length"), Some(80));
    assert!(!s.has_option("severity"));
    assert!(!s.has_option("disable"));
    assert!(layers.rule_by_id("length_002", None).is_none());
    let lint = layers.rule_by_id("lint_700", None).unwrap();
    assert!(!lint.enabled);
    assert_eq!(lint.severity, Severity::Error);
}

#[test]
fn blank_lines_follow_their_rules() {
    let block = map(vec![
        ("entity_003", map(vec![("style", text("no_blank_line"))])),
        ("entity_016", map(vec![("style", text("sideways"))])),
        ("architecture_015", map(vec![("disable", ConfigValue::Bool(true))])),
        ("library_003", map(vec![("allow_library_clause", text("yes"))])),
        ("whitespace_200", map(vec![("blank_lines_allowed", ConfigValue::Unsigned(2))])),
    ]);
    let (blank, warnings) = layers(block).resolve_blank_lines(&Vec::new(), None);
    assert_eq!(warnings, vec!["entity_016: unsupported style `sideways`".to_string()]);
    assert!(blank.rules.iter().any(|(id, s)| *id == "entity_003" && *s == Some(Style::NoBlank)));
    assert!(blank.rules.iter().any(|(id, s)| *id == "entity_016" && *s == Some(Style::NoBlank)));
    assert!(!blank.rules.iter().any(|(id, _)| *id == "architecture_015"));
    assert!(!blank.rules.iter().any(|(id, _)| *id == "signal_200"), "off by default");
    assert!(blank.allow_library_clause);
    assert_eq!(blank.max_blank_lines, 2);
    let pragmas = blank.pragmas.unwrap();
    assert_eq!(pragmas.open.len(), 3);
    assert_eq!(pragmas.close.len(), 3);
}

#[test]
fn blank_line_limits_and_pragmas_can_be_switched_off() {
    let block = map(vec![
        ("whitespace_200", map(vec![("disable", ConfigValue::Bool(true))])),
        ("pragma_400", map(vec![("disable", ConfigValue::Bool(true))])),
        ("pragma_401", map(vec![("disable", ConfigValue::Bool(true))])),
        ("pragma_402", map(vec![("disable", ConfigValue::Bool(true))])),
        ("pragma_403", map(vec![("disable", ConfigValue::Bool(true))])),
    ]);
    let (blank, warnings) = layers(block).resolve_blank_lines(&Vec::new(), None);
    assert!(warnings.is_empty());
    assert_eq!(blank.max_blank_lines, 255);
    assert!(blank.pragmas.is_none());
    assert!(!blank.allow_library_clause);
    let open: &[&str] = &["^--\\s*keep"];
    let close: &[&str] = &["(", "^--\\s*done"];
    let (blank, _) = RuleLayers::new().resolve_blank_lines(&Vec::new(), Some((open, close)));
    let pragmas = blank.pragmas.unwrap();
    assert_eq!(pragmas.open, vec!["^--\\s*keep".to_string()]);
    assert_eq!(pragmas.close, vec!["^--\\s*done".to_string()], "a pattern that does not compile is left out");
    assert_eq!(blank.max_blank_lines, 1);
}

#[test]
fn spacing_defaults_without_configuration() {
    let table = vec![
        defaults("port_007", &["port"], false, Vec::new()),
        defaults("port_008", &["port"], false, Vec::new()),
        defaults("port_009", &["port"], false, Vec::new()),
    ];
    let spacing = RuleLayers::new().resolve_spacing(&table);
    assert_eq!(spacing.mode_spacing, vec![(1, 4), (1, 3), (1, 1)]);
    assert!(spacing.close_paren_same_line.is_empty());
    assert_eq!(spacing.comment_spaces, 1);
    assert!(!spacing.indent_continuations);
}

#[test]
fn spacing_follows_the_rules() {
    let block = map(vec![
        ("port_007", map(vec![("spaces_before", ConfigValue::Unsigned(2)), ("spaces_after", text(" 0 "))])),
        ("port_014", map(vec![("action", text("same_line"))])),
        ("port_map_004", map(vec![("action", text("same_line"))])),
        ("generic_010", map(vec![("action", text("new_line"))])),
        ("comment_004", map(vec![("number_of_spaces", text(">= 3"))])),
        ("sequential_004", map(vec![("align_left", text("yes")), ("align_paren", text("no"))])),
    ]);
    let table = vec![
        defaults("port_007", &["port"], false, Vec::new()),
        defaults("port_014", &["port"], false, vec![("action", text("new_line"))]),
        defaults("port_map_004", &["port_map"], false, Vec::new()),
        defaults("generic_010", &["generic"], false, Vec::new()),
        defaults("comment_004", &["comment"], false, vec![("number_of_spaces", ConfigValue::Unsigned(1))]),
        defaults("sequential_004", &["sequential"], false, Vec::new()),
    ];
    let spacing = layers(block).resolve_spacing(&table);
    assert_eq!(spacing.mode_spacing, vec![(2, 1), (1, 3), (1, 1)], "at least one space");
    assert_eq!(spacing.close_paren_same_line, vec![ParenConstruct::PortClause, ParenConstruct::PortMapAspect]);
    assert_eq!(spacing.comment_spaces, 3);
    assert!(spacing.indent_continuations);
}

#[test]
fn a_disabled_spacing_rule_changes_nothing() {
    let block = map(vec![
        ("comment_004", map(vec![("disable", ConfigValue::Bool(true)), ("number_of_spaces", ConfigValue::Unsigned(4))])),
        ("port_007", map(vec![("disable", ConfigValue::Bool(true)), ("spaces_after", ConfigValue::Unsigned(9))])),
    ]);
    let table = vec![
        defaults("port_007", &["port"], false, Vec::new()),
        defaults("comment_004", &["comment"], false, Vec::new()),
    ];
    let spacing = layers(block).resolve_spacing(&table);
    assert_eq!(spacing.mode_spacing[0], (1, 4));
    assert_eq!(spacing.comment_spaces, 1);
}
