use vsg_rs::config::{merge_layer, ConfigValue, RuleLayer, RuleLayers, Severity};

fn map(entries: Vec<(&str, ConfigValue)>) -> ConfigValue {
    ConfigValue::Mapping(
        entries
            .into_iter()
            .map(|(k, v)| {
                let shown = format!("{v:?}");
                (k.to_string(), v, shown)
            })
            .collect(),
    )
}

fn text(s: &str) -> ConfigValue {
    ConfigValue::Text(s.to_string())
}

#[test]
fn precedence_of_global_group_and_rule() {
    // rule: {global: {disable: true}, group: {structure::optional: {disable: false}},
    //        entity_019: {disable: true}}
    let block = map(vec![
        ("global", map(vec![("disable", ConfigValue::Bool(true))])),
        ("group", map(vec![("structure::optional", map(vec![("disable", ConfigValue::Bool(false))]))])),
        ("entity_019", map(vec![("disable", ConfigValue::Bool(true))])),
    ]);
    let mut layers = RuleLayers::new();
    assert!(layers.merge_rules(&block).is_ok());
    let groups = ["structure", "structure::optional"];
    assert!(layers.layered("entity_015", &groups, true, Severity::Error, true, Vec::new()).enabled);
    assert!(!layers.layered("entity_019", &groups, true, Severity::Error, true, Vec::new()).enabled);
    assert!(!layers.layered("process_016", &["process"], true, Severity::Error, true, Vec::new()).enabled);
}

#[test]
fn invalid_settings_are_refused() {
    let mut layers = RuleLayers::new();
    let block = map(vec![("entity_015", map(vec![("disable", text("maybe"))]))]);
    let err = layers.merge_rules(&block).unwrap_err();
    assert_eq!(err, format!("`entity_015.disable` has an invalid value {:?}", text("maybe")));
    assert_eq!(RuleLayers::new().merge_rules(&text("x")).unwrap_err(), "`rule` must be a mapping");
    let block = map(vec![("group", text("x"))]);
    assert_eq!(RuleLayers::new().merge_rules(&block).unwrap_err(), "`rule.group` must be a mapping");
    let mut layer = RuleLayer::default();
    assert_eq!(
        merge_layer(&mut layer, &ConfigValue::Null, "length_001").unwrap_err(),
        "settings of `length_001` must be a mapping"
    );
}

#[test]
fn severity_fixable_and_options() {
    let block = map(vec![
        ("global", map(vec![("severity", text("Warning"))])),
        (
            "length_001",
            map(vec![
                ("length", ConfigValue::Unsigned(100)),
                ("fixable", ConfigValue::Bool(false)),
                ("phase", ConfigValue::Unsigned(7)),
                ("case", text("lower")),
                ("names", ConfigValue::List(vec![text("a"), ConfigValue::Unsigned(1), text("b")])),
            ]),
        ),
    ]);
    let mut layers = RuleLayers::new();
    assert!(layers.merge_rules(&block).is_ok());
    let s = layers.layered("length_001", &["length"], true, Severity::Error, true, Vec::new());
    assert_eq!(s.severity, Severity::Warning);
    assert!(!s.fixable && s.fixable_configured);
    assert_eq!(s.option_usize("length"), Some(100));
    assert_eq!(s.option_str("case"), Some("lower"));
    assert_eq!(s.option_list("case"), vec!["lower"]);
    assert_eq!(s.option_list("names"), vec!["a", "b"]);
    assert!(!s.has_option("phase"));
    assert_eq!(s.option_bool("case"), None);
    let other = layers.layered("entity_015", &["structure"], true, Severity::Error, true, Vec::new());
    assert_eq!(other.severity, Severity::Warning);
    assert!(other.fixable && !other.fixable_configured);
}

#[test]
fn lint_rules_are_layered_under_the_lint_group() {
    let mut layers = RuleLayers::new();
    assert!(layers.lint_rule("lint_601").enabled);
    assert!(!layers.lint_rule("lint_700").enabled);
    let block = map(vec![
        ("group", map(vec![("lint", map(vec![("disable", ConfigValue::Bool(false))]))])),
        ("lint_601", map(vec![("severity", text("warning"))])),
    ]);
    assert!(layers.merge_rules(&block).is_ok());
    assert!(layers.lint_rule("lint_700").enabled);
    assert_eq!(layers.lint_rule("lint_601").severity, Severity::Warning);
    assert_eq!(layers.lint_rule("lint_602").severity, Severity::Error);
}
