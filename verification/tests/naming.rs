use vsg_rs::blank::Pragmas;
use vsg_rs::analysis::design::{Affix, Naming};
use vsg_rs::analysis::naming_rules;
use vsg_rs::config::{ConfigValue, RuleLayers};

fn map(entries: Vec<(&str, ConfigValue)>) -> ConfigValue {
    ConfigValue::Mapping(
        entries
            .into_iter()
            .map(|(k, v)| {
                let shown = format!("{v:?}");
                (k.to_string(), v, shown)
            })
            .collect(),
    )
}

#[test]
fn a_suffix_can_be_a_glob_or_a_pattern() {
    for pattern in ["_p*", "re:_p[0-9]+"] {
        let affix = Affix::new(pattern).unwrap();
        assert!(affix.matches("a_p1", false), "{pattern}");
        assert!(affix.matches("b_p12", false), "{pattern}");
        assert!(!affix.matches("c_comb", false), "{pattern}");
    }
    assert!(Affix::new("r_").unwrap().matches("r_count", true));
    assert!(!Affix::new("r_").unwrap().matches("count_r_", true));
    assert!(Affix::new("re:^r").unwrap().matches("rx", true));
    assert!(!Affix::new("re:x").unwrap().matches("xa", false));
    let err = Affix::new("re:(").unwrap_err();
    assert!(err.starts_with("`re:(` is not a regular expression: "), "{err}");
}

#[test]
fn registered_names_are_checked_against_their_lists() {
    let naming = Naming {
        prefixes: vec![Affix::new("r_").unwrap()],
        suffixes: vec![Affix::new("_q").unwrap(), Affix::new("_r").unwrap(), Affix::new("_reg").unwrap()],
    };
    assert_eq!(Naming::quoted(&naming.suffixes), "'_q', '_r' or '_reg'");
    assert_eq!(Naming::quoted(&naming.prefixes), "'r_'");
    assert_eq!(Naming::quoted(&[]), "");
    assert!(naming.findings("r_count_q").is_empty());
    assert_eq!(
        naming.findings("count"),
        vec![
            ("lint_602", "Registered signal 'count' does not have the suffix '_q', '_r' or '_reg'".to_string()),
            ("lint_603", "Registered signal 'count' does not have the prefix 'r_'".to_string()),
        ]
    );
    let none = Naming { prefixes: Vec::new(), suffixes: Vec::new() };
    assert!(none.findings("count").is_empty());
}

#[test]
fn naming_rules_follow_the_configuration() {
    let naming = naming_rules(&RuleLayers::new()).unwrap();
    assert!(naming.suffixes.is_empty() && naming.prefixes.is_empty());
    let mut layers = RuleLayers::new();
    let block = map(vec![
        ("lint_602", map(vec![("disable", ConfigValue::Bool(false))])),
        (
            "lint_603",
            map(vec![
                ("disable", ConfigValue::Bool(false)),
                ("prefixes", ConfigValue::List(vec![ConfigValue::Text("REG_".to_string())])),
            ]),
        ),
    ]);
    assert!(layers.merge_rules(&block).is_ok());
    let naming = naming_rules(&layers).unwrap();
    assert_eq!(Naming::quoted(&naming.suffixes), "'_q', '_r' or '_reg'");
    assert_eq!(Naming::quoted(&naming.prefixes), "'reg_'");
    let block = map(vec![(
        "lint_602",
        map(vec![("disable", ConfigValue::Bool(false)), ("suffixes", ConfigValue::Text("re:(".to_string()))]),
    )]);
    let mut layers = RuleLayers::new();
    assert!(layers.merge_rules(&block).is_ok());
    let err = naming_rules(&layers).unwrap_err();
    assert!(err.starts_with("lint_602: `re:(` is not a regular expression"), "{err}");
}

#[test]
fn pragma_comments_open_and_close_regions() {
    let pragmas = Pragmas::default();
    assert_eq!(pragmas.pragma(b"-- synthesis translate_off"), Some(true));
    assert_eq!(pragmas.pragma(b"  --  synthesis translate_on  "), Some(false));
    assert_eq!(pragmas.pragma(b"--vhdl_comp_off"), Some(true));
    assert_eq!(pragmas.pragma(b"-- RTL_SYNTHESIS ON"), Some(false));
    assert_eq!(pragmas.pragma(b"-- a comment"), None);
    let custom = Pragmas::new(&["(", "^--\\s*begin"], &["^--\\s*end"]);
    assert_eq!(custom.open, vec!["^--\\s*begin".to_string()]);
    assert_eq!(custom.pragma(b"-- begin"), Some(true));
    assert_eq!(custom.pragma(b"-- end"), Some(false));
}
