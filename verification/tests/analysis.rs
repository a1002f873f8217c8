use vsg_rs::analysis::design::targets_overlap;
use vsg_rs::analysis::lint::{codes, needs_no_library_map, rule_of, Analysis, Finding, Source};
use vsg_rs::analysis::testbench::named_like_a_testbench;
use vsg_rs::analysis::width::width_of;
use vsg_rs::analysis::{certainty_of, rules, Certainty};

#[test]
fn overlapping_targets() {
    // The same thing, twice.
    assert!(targets_overlap("q", "q"));
    assert!(targets_overlap("q(3)", "q(3)"));
    // A whole object and a part of it.
    assert!(targets_overlap("q", "q(3)"));
    assert!(targets_overlap("rec", "rec.a"));
    assert!(targets_overlap("rec", "rec.a.b(2)"));
    // Different elements, fields and dimensions are different drivers.
    assert!(!targets_overlap("q(3)", "q(4)"));
    assert!(!targets_overlap("rec.a", "rec.b"));
    assert!(!targets_overlap("rec.a.x", "rec.a.y"));
    assert!(!targets_overlap("arr(0).f", "arr(1).f"));
    assert!(!targets_overlap("a(0)(1)", "a(0)(2)"));
    assert!(!targets_overlap("a(1, 2)", "a(1, 3)"));
    assert!(!targets_overlap("other", "q"));
    // Slices meet or they do not.
    assert!(!targets_overlap("q(3 downto 0)", "q(7 downto 4)"));
    assert!(targets_overlap("q(7 downto 0)", "q(3)"));
    assert!(targets_overlap("q(7 downto 4)", "q(5 downto 0)"));
    // Targets read from the tree carry no blanks between tokens.
    assert!(targets_overlap("q(7downto0)", "q(3)"));
    assert!(targets_overlap("q(7downto4)", "q(5downto0)"));
    assert!(!targets_overlap("q(3downto0)", "q(7downto4)"));
    assert!(targets_overlap("q(0to3)", "q(3)"));
    // The same field of the same element is one driver.
    assert!(targets_overlap("arr(0).f", "arr(0).f"));
    // What cannot be evaluated is not accused: two generate branches are the usual case.
    assert!(!targets_overlap("q(i)", "q(j)"));
    assert!(targets_overlap("q(i)", "q(i)"));
}

#[test]
fn glob_patterns() {
    // A bare name is about the file wherever it is.
    assert!(vsg_rs::analysis::testbench::matches("tb_*.vhd", "modules/fifo/test/tb_fifo.vhd"));
    assert!(!vsg_rs::analysis::testbench::matches("tb_*.vhd", "modules/fifo/src/fifo.vhd"));
    // A path pattern matches from the root, and from any directory below it.
    assert!(vsg_rs::analysis::testbench::matches("test/**", "test/tb_fifo.vhd"));
    assert!(vsg_rs::analysis::testbench::matches("test/**", "modules/fifo/test/tb_fifo.vhd"));
    assert!(!vsg_rs::analysis::testbench::matches("test/**", "modules/fifo/src/fifo.vhd"));
    assert!(vsg_rs::analysis::testbench::matches("**/verify/*.vhd", "a/b/verify/thing.vhd"));
    assert!(vsg_rs::analysis::testbench::matches("sim/*.vhd", "sim/harness.vhd"));
    assert!(!vsg_rs::analysis::testbench::matches("sim/*.vhd", "sim/deep/harness.vhd"));
}

#[test]
fn widths_are_read_from_the_range() {
    assert_eq!(width_of("7downto0"), Some(8));
    assert_eq!(width_of("0to3"), Some(4));
    assert_eq!(width_of("width_g-1downto0"), None);
    assert_eq!(width_of(""), None);
    assert_eq!(width_of("9223372036854775807downto0"), Some(9223372036854775808));
    assert_eq!(width_of("9223372036854775807downto-9223372036854775808"), None);
    assert_eq!(width_of("-9223372036854775808to9223372036854775806"), Some(u64::MAX));
}

#[test]
fn testbench_names() {
    assert!(named_like_a_testbench("test/adder.vhd"));
    assert!(named_like_a_testbench("src/tb_adder.vhd"));
    assert!(named_like_a_testbench("src/adder_tb.vhd"));
    assert!(named_like_a_testbench("SRC\\Sim\\adder.vhd"));
    assert!(!named_like_a_testbench("src/testbed_helper.vhd"));
    assert!(!named_like_a_testbench("src/adder.vhd"));
}

#[test]
fn widths_of_other_ranges() {
    assert_eq!(width_of("0to0"), Some(1));
    assert_eq!(width_of("3 downto 7"), None);
    assert_eq!(width_of("-2to2"), Some(5));
    assert_eq!(width_of("15 DOWNTO 0"), Some(16));
}

#[test]
fn certainty_classes() {
    assert_eq!(Certainty::Definite.group(), "definite");
    assert_eq!(Certainty::Definite.name(), "definite error");
    assert_eq!(Certainty::Policy.name(), "policy");
    assert!(Certainty::Definite.on_by_default());
    assert!(!Certainty::Advisory.on_by_default());
    assert_eq!(certainty_of("lint_001"), Some(Certainty::Advisory));
    assert_eq!(certainty_of("lint_740"), Some(Certainty::Definite));
    assert_eq!(certainty_of("lint_713"), Some(Certainty::Policy));
    assert_eq!(certainty_of("nope"), None);
    assert_eq!(rules().len(), codes().len() + 17);
}

#[test]
fn every_tree_rule_has_a_certainty() {
    for id in [
        "lint_600", "lint_601", "lint_710", "lint_711", "lint_720", "lint_730", "lint_750",
    ] {
        assert_eq!(certainty_of(id), Some(Certainty::Definite), "{id}");
    }
    assert_eq!(certainty_of("lint_602"), Some(Certainty::Policy));
    assert_eq!(certainty_of("lint_603"), Some(Certainty::Policy));
    assert_eq!(certainty_of("lint_700"), Some(Certainty::Experimental));
}

#[test]
fn front_end_codes() {
    assert_eq!(rule_of("MissingInSensitivityList").map(|r| r.0), Some("lint_001"));
    assert_eq!(rule_of("NotACode"), None);
    assert!(needs_no_library_map("lint_002"));
    assert!(!needs_no_library_map("lint_100"));
}

fn finding(rule: &'static str) -> Finding {
    Finding {
        file: "a.vhd".into(),
        rule,
        line: 1,
        column: 1,
        message: String::new(),
        related: Vec::new(),
    }
}

#[test]
fn an_unmapped_project_reports_only_file_rules() {
    let analysis = Analysis {
        findings: vec![finding("lint_100"), finding("lint_001"), finding("lint_302"), finding("lint_003")],
        unanalysed: Vec::new(),
        mapped: false,
    };
    let kept: Vec<&str> = analysis.reportable().iter().map(|f| f.rule).collect();
    assert_eq!(kept, vec!["lint_001", "lint_003"]);
    let mapped = Analysis {
        findings: vec![finding("lint_100"), finding("lint_001")],
        unanalysed: Vec::new(),
        mapped: true,
    };
    assert_eq!(mapped.reportable().len(), 2);
}

#[test]
fn sources() {
    let file = Source::file("a.vhd".into());
    assert!(file.text.is_none());
    let buffer = Source::buffer("b.vhd".into(), b"x".to_vec());
    assert_eq!(buffer.text, Some(b"x".to_vec()));
}

#[test]
fn blanks_around_a_range_keyword_do_not_matter() {
    assert!(targets_overlap("q(7 downto 4)", "q(5downto0)"));
    assert!(targets_overlap("q(7downto4)", "q(5 downto 0)"));
    assert!(targets_overlap("q(0 to 3)", "q(3to5)"));
    assert!(!targets_overlap("q(7 downto 4)", "q(3downto0)"));
    assert!(!targets_overlap("q(7downto4)", "q(3 downto 0)"));
}
