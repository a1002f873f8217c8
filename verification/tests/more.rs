use vsg_rs::analysis::design::intersection;
use vsg_rs::config::{formatter_rule, Severity};
use vsg_rs::analysis::elaborate::{trimmed, Ports};
use vsg_rs::analysis::evaluated::literal_bounds;
use vsg_rs::combinational::{cycle_from, loops};
use vsg_rs::fuzz::{configuration, pick};
use vsg_rs::lsp::{file_path, percent_decode, percent_decode_bytes, position_at};

#[test]
fn names_and_bounds() {
    assert_eq!(trimmed("  Clk_A "), "clk_a");
    assert_eq!(literal_bounds("7downto0"), Some((0, 7)));
    assert_eq!(literal_bounds("(0TO3)"), Some((0, 3)));
    assert_eq!(literal_bounds(" (3 to 7) "), Some((3, 7)));
    assert_eq!(literal_bounds("n-1downto0"), None);
    assert_eq!(literal_bounds("7"), None);
    let ports = Ports::default();
    assert!(ports.driving.is_empty() && ports.order.is_empty() && !ports.from_entity);
}

#[test]
fn loops_in_a_graph() {
    // 0 -> 1 -> 2 -> 1, and 3 alone.
    let graph = vec![vec![1], vec![2], vec![1], vec![]];
    assert_eq!(cycle_from(0, &graph), Some(vec![1, 2, 1]));
    assert_eq!(cycle_from(3, &graph), None);
    let self_loop = vec![vec![0]];
    assert_eq!(cycle_from(0, &self_loop), Some(vec![0, 0]));
    // One finding per cycle.
    assert_eq!(loops(&graph), vec![vec![1, 2, 1]]);
    let chain = vec![vec![1], vec![2], vec![]];
    assert_eq!(cycle_from(0, &chain), None);
    assert!(loops(&chain).is_empty());
}

#[test]
fn first_cycle_of_the_walk() {
    // Signals numbered by name: a = 0, y = 1; y depends on a and on itself.
    assert_eq!(cycle_from(1, &vec![vec![], vec![0, 1]]), Some(vec![1, 1]));
    // a = 0, b = 1, y = 2, z = 3: y -> {a, z}, z -> {b, y}.
    let two = vec![vec![], vec![], vec![0, 3], vec![1, 2]];
    assert_eq!(cycle_from(2, &two), Some(vec![2, 3, 2]));
    // z -> y -> {a, b}: no cycle.
    let none = vec![vec![], vec![], vec![0, 1], vec![2]];
    assert_eq!(cycle_from(3, &none), None);
    // a = 0, b = 1, s = 2: s -> a -> b -> a.
    let tail = vec![vec![1], vec![0], vec![0]];
    assert_eq!(cycle_from(2, &tail), Some(vec![0, 1, 0]));
    // Two disjoint loops are two findings.
    let pairs = vec![vec![1], vec![0], vec![3], vec![2]];
    assert_eq!(loops(&pairs), vec![vec![0, 1, 0], vec![2, 3, 2]]);
}

#[test]
fn fuzzing_configurations() {
    assert_eq!(pick(5, &["a", "b"]), "b");
    let yaml = configuration(&[0, 0, 3, 7]);
    assert_eq!(
        yaml,
        "rule:\n  global:\n    case: lower\n    indent_size: 2\n    indent_style: spaces\n  length_001:\n    length: 40\n"
    );
    let yaml = configuration(&[1, 5, 0, 0]);
    assert!(yaml.contains("case: upper"));
    assert!(yaml.contains("indent_style: smart_tabs"));
    assert!(yaml.contains("length: 80"));
    assert!(yaml.contains("  group:\n    alignment:\n      disable: true\n    blank_line:\n"));
    assert!(yaml.contains("port_007"));
}

#[test]
fn uris_and_positions() {
    assert_eq!(file_path("/C:/dir/x.vhd"), "C:/dir/x.vhd");
    assert_eq!(file_path("/home/me/x.vhd"), "/home/me/x.vhd");
    assert_eq!(file_path("/home/my%20designs/x.vhd"), "/home/my designs/x.vhd");
    assert_eq!(percent_decode("100%"), "100%");
    assert_eq!(percent_decode("a%2fb%2Fc"), "a/b/c");
    assert_eq!(percent_decode_bytes(b"%zz%4"), b"%zz%4");
    assert_eq!(percent_decode("%+1"), "%+1");
    assert_eq!(percent_decode("%-1%1+"), "%-1%1+");
    assert_eq!(position_at(1, 1), (0, 0));
    assert_eq!(position_at(0, 5), (0, 4));
}

#[test]
fn intersection_keeps_the_common_names_in_order() {
    let set = |names: &[&str]| names.iter().map(|n| n.to_string()).collect::<Vec<String>>();
    assert_eq!(intersection(vec![]), Vec::<String>::new());
    assert_eq!(intersection(vec![set(&["a", "b"])]), set(&["a", "b"]));
    assert_eq!(
        intersection(vec![set(&["a", "b", "c"]), set(&["c", "a"]), set(&["a", "c", "d"])]),
        set(&["a", "c"])
    );
    assert_eq!(intersection(vec![set(&["a"]), set(&[])]), Vec::<String>::new());
}

#[test]
fn formatter_rules_are_blank_line_rules() {
    let rule = formatter_rule("pragma_400");
    assert_eq!(rule.id, "pragma_400");
    assert_eq!(rule.groups, &["blank_line"]);
    assert!(rule.enabled_by_default);
    assert_eq!(rule.severity, Severity::Error);
    assert_eq!(rule.description, "Blank line policy (applied by the formatter).");
}
