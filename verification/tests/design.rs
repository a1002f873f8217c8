use std::path::PathBuf;

use vhdl_syntax::parser::parse_with_standard;
use vhdl_syntax::standard::VHDLStandard;
use vhdl_syntax::syntax::child::Child;
use vhdl_syntax::syntax::{AstNode, NodeKind, SyntaxNode};
use vsg_rs::analysis::design::{check, Affix, Naming};
use vsg_rs::analysis::elaborate::{add_entities, interfaces, undriven, Entities, Ports};
use vsg_rs::analysis::lint::Finding;
use vsg_rs::analysis::syntax::{Element, Kind, Node, Token};

fn kind_of(kind: NodeKind) -> Kind {
    match kind {
        NodeKind::ArchitectureBody => Kind::ArchitectureBody,
        NodeKind::ArchitectureDeclarativePart => Kind::ArchitectureDeclarativePart,
        NodeKind::ArchitectureStatementPart => Kind::ArchitectureStatementPart,
        NodeKind::AttributeName => Kind::AttributeName,
        NodeKind::IfGenerateStatement => Kind::IfGenerateStatement,
        NodeKind::CaseGenerateStatement => Kind::CaseGenerateStatement,
        NodeKind::ForGenerateStatement => Kind::ForGenerateStatement,
        NodeKind::GenerateStatementBody => Kind::GenerateStatementBody,
        NodeKind::ProcessStatement => Kind::ProcessStatement,
        NodeKind::ProcessStatementPart => Kind::ProcessStatementPart,
        NodeKind::WaitStatement => Kind::WaitStatement,
        NodeKind::ParenthesizedProcessSensitivityList => Kind::ParenthesizedProcessSensitivityList,
        NodeKind::AllSensitivityList => Kind::AllSensitivityList,
        NodeKind::ProcessPreamble => Kind::ProcessPreamble,
        NodeKind::SensitivityList => Kind::SensitivityList,
        NodeKind::SensitivityClause => Kind::SensitivityClause,
        NodeKind::NameTarget => Kind::NameTarget,
        NodeKind::Name => Kind::Name,
        NodeKind::NameDesignatorPrefix => Kind::NameDesignatorPrefix,
        NodeKind::ConcurrentSimpleSignalAssignment => Kind::ConcurrentSimpleSignalAssignment,
        NodeKind::ConcurrentConditionalSignalAssignment => Kind::ConcurrentConditionalSignalAssignment,
        NodeKind::ConcurrentSelectedSignalAssignment => Kind::ConcurrentSelectedSignalAssignment,
        NodeKind::SimpleWaveformAssignment => Kind::SimpleWaveformAssignment,
        NodeKind::ConditionalWaveformAssignment => Kind::ConditionalWaveformAssignment,
        NodeKind::SelectedWaveformAssignment => Kind::SelectedWaveformAssignment,
        NodeKind::SimpleForceAssignment => Kind::SimpleForceAssignment,
        NodeKind::ConditionalForceAssignment => Kind::ConditionalForceAssignment,
        NodeKind::SimpleVariableAssignment => Kind::SimpleVariableAssignment,
        NodeKind::ConditionalVariableAssignment => Kind::ConditionalVariableAssignment,
        NodeKind::SelectedVariableAssignment => Kind::SelectedVariableAssignment,
        NodeKind::IfStatement => Kind::IfStatement,
        NodeKind::IfStatementElsif => Kind::IfStatementElsif,
        NodeKind::IfStatementElse => Kind::IfStatementElse,
        NodeKind::CaseStatement => Kind::CaseStatement,
        NodeKind::CaseStatementAlternative => Kind::CaseStatementAlternative,
        NodeKind::LoopStatement => Kind::LoopStatement,
        NodeKind::LoopStatementPreamble => Kind::LoopStatementPreamble,
        NodeKind::SequenceOfStatements => Kind::SequenceOfStatements,
        NodeKind::VariableDeclaration => Kind::VariableDeclaration,
        NodeKind::SignalDeclaration => Kind::SignalDeclaration,
        NodeKind::EntityDeclaration => Kind::EntityDeclaration,
        NodeKind::ComponentDeclaration => Kind::ComponentDeclaration,
        NodeKind::PortClause => Kind::PortClause,
        NodeKind::InterfaceObjectDeclaration => Kind::InterfaceObjectDeclaration,
        NodeKind::ComponentInstantiationStatement => Kind::ComponentInstantiationStatement,
        NodeKind::InstantiatedEntity => Kind::InstantiatedEntity,
        NodeKind::PortMapAspect => Kind::PortMapAspect,
        NodeKind::AssociationElement => Kind::AssociationElement,
        NodeKind::Formal => Kind::Formal,
        NodeKind::ProcedureCallStatement => Kind::ProcedureCallStatement,
        NodeKind::ConcurrentProcedureCallOrComponentInstantiationStatement => Kind::ConcurrentProcedureCallOrComponentInstantiationStatement,
        NodeKind::FullTypeDeclaration => Kind::FullTypeDeclaration,
        NodeKind::EnumerationTypeDefinition => Kind::EnumerationTypeDefinition,
        NodeKind::ConstantDeclaration => Kind::ConstantDeclaration,
        NodeKind::CaseStatementPreamble => Kind::CaseStatementPreamble,
        NodeKind::CaseStatementAlternativePreamble => Kind::CaseStatementAlternativePreamble,
        NodeKind::ParenthesizedName => Kind::ParenthesizedName,
        NodeKind::ContextClause => Kind::ContextClause,
        NodeKind::LibraryClause => Kind::LibraryClause,
        NodeKind::UseClauseContextItem => Kind::UseClauseContextItem,
        NodeKind::BlockDeclarativePart => Kind::BlockDeclarativePart,
        NodeKind::ProcessDeclarativePart => Kind::ProcessDeclarativePart,
        NodeKind::PackageDeclarativePart => Kind::PackageDeclarativePart,
        NodeKind::PackageBodyDeclarativePart => Kind::PackageBodyDeclarativePart,
        NodeKind::SubprogramDeclarativePart => Kind::SubprogramDeclarativePart,
        NodeKind::ProtectedTypeBodyDeclarativePart => Kind::ProtectedTypeBodyDeclarativePart,
        NodeKind::ProtectedTypeDeclarativePart => Kind::ProtectedTypeDeclarativePart,
        NodeKind::EntityDeclarativePart => Kind::EntityDeclarativePart,
        NodeKind::InterfaceList => Kind::InterfaceList,
        NodeKind::GenericClause => Kind::GenericClause,
        NodeKind::AssociationList => Kind::AssociationList,
        NodeKind::GenericMapAspect => Kind::GenericMapAspect,
        NodeKind::BlockStatementPart => Kind::BlockStatementPart,
        _ => Kind::Other,
    }
}

fn tree(node: &SyntaxNode) -> Node {
    let elements = node
        .children_with_tokens()
        .map(|child| match child {
            Child::Node(n) => Element::Node(tree(&n)),
            Child::Token(t) => Element::Token(Token {
                text: String::from_utf8_lossy(t.text().as_bytes()).into_owned(),
                latin1: t.text().to_string(),
                offset: t.text_offset(),
            }),
        })
        .collect();
    Node {
        kind: kind_of(node.kind()),
        elements,
    }
}

fn findings(source: &str, naming: &Naming) -> Vec<Finding> {
    let (file, errors) = parse_with_standard(VHDLStandard::VHDL2008, source.as_bytes());
    assert!(errors.is_empty(), "test source must parse");
    check(&tree(&file.raw()), source.as_bytes(), &PathBuf::from("dut.vhd"), naming)
}

fn none() -> Naming {
    Naming {
        prefixes: Vec::new(),
        suffixes: Vec::new(),
    }
}

fn check_source(text: &str) -> Vec<(&'static str, usize)> {
    findings(text, &none())
        .into_iter()
        .map(|f| (f.rule, f.line))
        .collect()
}

fn naming(prefixes: &[&str], suffixes: &[&str]) -> Naming {
    let affixes = |list: &[&str]| {
        list.iter()
            .map(|a| Affix::new(a).expect("affix"))
            .collect()
    };
    Naming {
        prefixes: affixes(prefixes),
        suffixes: affixes(suffixes),
    }
}

fn check_named(source: &str, naming: &Naming) -> Vec<(&'static str, String)> {
    findings(source, naming)
        .into_iter()
        .map(|f| (f.rule, f.message))
        .collect()
}

const PREAMBLE: &str = "entity dut is\nend entity;\n\narchitecture rtl of dut is\n  \
                        signal a, b, c, d, clk : bit;\nbegin\n";

const CLOCKED: &str = "entity dut is\nend entity;\n\narchitecture rtl of dut is\n  \
                       signal clk, d, state, count_q : bit;\nbegin\n  \
                       p : process (clk) is\n  begin\n    if rising_edge(clk) then\n      \
                       state <= d;\n      count_q <= d;\n    end if;\n  end process;\n\
                       end architecture;\n";

#[test]
fn every_driver_is_a_related_location() {
    let source = "entity dut is\nend entity dut;\n\narchitecture rtl of dut is\n  \
                  signal a, b, q : bit;\nbegin\n  q <= a;\n  q <= b;\n\
                  end architecture rtl;\n";
    let found = findings(
        source,
        &Naming {
            prefixes: Vec::new(),
            suffixes: Vec::new(),
        },
    );
    let drivers: Vec<&Finding> = found.iter().filter(|f| f.rule == "lint_601").collect();
    assert_eq!(drivers.len(), 1, "{found:?}");
    // The lines belong to the finding, not to its message.
    assert_eq!(drivers[0].related.len(), 2, "{:?}", drivers[0].related);
    assert!(
        !drivers[0].message.contains("lines"),
        "locations should not be written into the message: {}",
        drivers[0].message
    );
}

#[test]
fn design_an_if_without_else_infers_a_latch() {
    let found = check_source(&format!(
        "{PREAMBLE}  p : process (a, b) is\n  begin\n    if a = '1' then\n      \
         c <= b;\n    end if;\n  end process;\nend architecture;\n"
    ));
    assert!(
        found.iter().any(|(rule, _)| *rule == "lint_600"),
        "got {found:?}"
    );
}

#[test]
fn design_a_default_assignment_prevents_the_latch() {
    let found = check_source(&format!(
        "{PREAMBLE}  p : process (a, b) is\n  begin\n    c <= '0';\n    if a = '1' then\n      \
         c <= b;\n    end if;\n  end process;\nend architecture;\n"
    ));
    assert!(
        !found.iter().any(|(rule, _)| *rule == "lint_600"),
        "an unconditional assignment is a default, got {found:?}"
    );
}

#[test]
fn design_a_process_that_waits_is_not_a_latch() {
    let found = check_source(&format!(
        "{PREAMBLE}  p : process is\n  begin\n    wait until a = '1';\n    if b = '1' then\n      \
         c <= b;\n    end if;\n    wait;\n  end process;\nend architecture;\n"
    ));
    assert!(
        !found.iter().any(|(rule, _)| *rule == "lint_600"),
        "a testbench process is not combinational logic, got {found:?}"
    );
}

#[test]
fn design_a_default_inside_a_branch_prevents_the_latch() {
    let found = check_source(&format!(
        "{PREAMBLE}  p : process (a, b) is\n  begin\n    if a = '1' then\n      \
         d <= '0';\n      if b = '1' then\n        d <= '1';\n      end if;\n    else\n      \
         d <= '0';\n    end if;\n  end process;\nend architecture;\n"
    ));
    assert!(
        !found.iter().any(|(rule, _)| *rule == "lint_600"),
        "every path assigns d, got {found:?}"
    );
}

#[test]
fn design_a_nested_if_without_else_is_a_latch() {
    let found = check_source(&format!(
        "{PREAMBLE}  p : process (a, b) is\n  begin\n    if a = '1' then\n      \
         c <= '1';\n      if b = '1' then\n        d <= '1';\n      end if;\n    else\n      \
         c <= '0';\n      d <= '0';\n    end if;\n  end process;\nend architecture;\n"
    ));
    assert!(
        found.iter().any(|(rule, _)| *rule == "lint_600"),
        "a = '1' with b = '0' leaves d unassigned, got {found:?}"
    );
}

#[test]
fn design_a_case_with_others_assigning_everywhere_is_not_a_latch() {
    let found = check_source(&format!(
        "{PREAMBLE}  p : process (a) is\n  begin\n    case a is\n      when '0' =>\n        \
         c <= '0';\n      when others =>\n        c <= '1';\n    end case;\n  \
         end process;\nend architecture;\n"
    ));
    assert!(
        !found.iter().any(|(rule, _)| *rule == "lint_600"),
        "every alternative assigns c, got {found:?}"
    );
}

#[test]
fn assigning_a_whole_record_covers_its_fields() {
    let found = check_source(
        "entity dut is\nend entity;\n\narchitecture rtl of dut is\n  \
         type rec_t is record\n    x : bit;\n    y : bit;\n  end record;\n  \
         constant init : rec_t := (others => '0');\n  signal a : bit;\n  \
         signal r : rec_t;\nbegin\n  p : process (a) is\n  begin\n    \
         if a = '1' then\n      r <= init;\n    else\n      r <= init;\n      \
         r.x <= a;\n    end if;\n  end process;\nend architecture;\n",
    );
    assert!(
        !found.iter().any(|(rule, _)| *rule == "lint_600"),
        "every path assigns the whole record, got {found:?}"
    );
}

#[test]
fn a_variable_read_before_it_is_written_is_a_latch() {
    let found = check_source(&format!(
        "{PREAMBLE}  p : process (a, b) is\n    variable v : bit;\n  begin\n    \
         if a = '1' then\n      v := b;\n    end if;\n    c <= v;\n  \
         end process;\nend architecture;\n"
    ));
    assert!(
        found.iter().any(|(rule, _)| *rule == "lint_600"),
        "v survives from the previous run, got {found:?}"
    );
}

#[test]
fn a_variable_written_before_it_is_read_is_fine() {
    let found = check_source(&format!(
        "{PREAMBLE}  p : process (a, b) is\n    variable v : bit;\n  begin\n    \
         v := '0';\n    if a = '1' then\n      v := b;\n    end if;\n    c <= v;\n  \
         end process;\nend architecture;\n"
    ));
    assert!(
        !found.iter().any(|(rule, _)| *rule == "lint_600"),
        "v has a default before it is read, got {found:?}"
    );
}

#[test]
fn a_variable_in_a_clocked_process_is_not_a_latch() {
    let found = check_source(&format!(
        "{PREAMBLE}  p : process (clk) is\n    variable v : bit;\n  begin\n    \
         if rising_edge(clk) then\n      c <= v;\n      v := a;\n    end if;\n  \
         end process;\nend architecture;\n"
    ));
    assert!(
        !found.iter().any(|(rule, _)| *rule == "lint_600"),
        "a variable in a register is memory on purpose, got {found:?}"
    );
}

#[test]
fn design_a_for_loop_assigns_every_element() {
    let found = check_source(
        "entity dut is\nend entity;\n\narchitecture rtl of dut is\n  \
         signal a, b : bit_vector(3 downto 0);\nbegin\n  p : process (a) is\n  begin\n    \
         for i in a'range loop\n      b(i) <= a(i);\n    end loop;\n  end process;\n\
         end architecture;\n",
    );
    assert!(
        !found.iter().any(|(rule, _)| *rule == "lint_600"),
        "the loop covers every bit, got {found:?}"
    );
}

#[test]
fn design_a_clocked_process_is_not_a_latch() {
    let found = check_source(&format!(
        "{PREAMBLE}  p : process (clk) is\n  begin\n    if rising_edge(clk) then\n      \
         c <= b;\n    end if;\n  end process;\nend architecture;\n"
    ));
    assert!(
        !found.iter().any(|(rule, _)| *rule == "lint_600"),
        "a register is not a latch, got {found:?}"
    );
}

#[test]
fn design_two_processes_driving_one_signal() {
    let found = check_source(&format!(
        "{PREAMBLE}  p : process (a) is\n  begin\n    c <= a;\n  end process;\n\n  \
         q : process (b) is\n  begin\n    c <= b;\n  end process;\nend architecture;\n"
    ));
    assert!(
        found.iter().any(|(rule, _)| *rule == "lint_601"),
        "got {found:?}"
    );
}

#[test]
fn design_a_concurrent_assignment_counts_as_a_driver() {
    let found = check_source(&format!(
        "{PREAMBLE}  c <= a;\n\n  p : process (b) is\n  begin\n    c <= b;\n  \
         end process;\nend architecture;\n"
    ));
    assert!(
        found.iter().any(|(rule, _)| *rule == "lint_601"),
        "got {found:?}"
    );
}

#[test]
fn registered_signals_are_only_checked_when_asked() {
    let found = check_named(CLOCKED, &none());
    assert!(
        !found.iter().any(|(rule, _)| *rule == "lint_602"),
        "nothing configured, nothing to say: {found:?}"
    );
}

#[test]
fn a_register_without_the_suffix_is_reported() {
    let found = check_named(CLOCKED, &naming(&[], &["_q", "_r"]));
    let reported: Vec<&String> = found
        .iter()
        .filter(|(rule, _)| *rule == "lint_602")
        .map(|(_, message)| message)
        .collect();
    assert_eq!(reported.len(), 1, "{found:?}");
    assert!(reported[0].contains("'state'"), "{reported:?}");
    assert!(reported[0].contains("'_q' or '_r'"), "{reported:?}");
}

#[test]
fn a_prefix_works_as_well_as_a_suffix() {
    let found = check_named(CLOCKED, &naming(&["r_"], &[]));
    assert_eq!(
        found.iter().filter(|(rule, _)| *rule == "lint_603").count(),
        2,
        "neither name has the prefix: {found:?}"
    );
}

#[test]
fn a_combinational_signal_is_not_a_register() {
    let found = check_named(
        &format!(
            "{PREAMBLE}  p : process (a) is\n  begin\n    c <= a;\n  \
                  end process;\nend architecture;\n"
        ),
        &naming(&[], &["_q"]),
    );
    assert!(
        !found.iter().any(|(rule, _)| *rule == "lint_602"),
        "no clock, no register: {found:?}"
    );
}

#[test]
fn a_suffix_can_be_a_pattern() {
    // Pipeline stages: `_p1`, `_p2`, ... without listing each one.
    let source = "entity dut is\nend entity;\n\narchitecture rtl of dut is\n  \
                  signal clk, d, a_p1, b_p12, c_comb : bit;\nbegin\n  \
                  p : process (clk) is\n  begin\n    if rising_edge(clk) then\n      \
                  a_p1 <= d;\n      b_p12 <= d;\n      c_comb <= d;\n    end if;\n  \
                  end process;\nend architecture;\n";
    for pattern in ["_p*", "re:_p[0-9]+"] {
        let found = check_named(source, &naming(&[], &[pattern]));
        let reported: Vec<&String> = found
            .iter()
            .filter(|(rule, _)| *rule == "lint_602")
            .map(|(_, message)| message)
            .collect();
        assert_eq!(reported.len(), 1, "{pattern}: {found:?}");
        assert!(reported[0].contains("'c_comb'"), "{pattern}: {reported:?}");
    }
    // A single wildcard character accepts one digit only.
    let found = check_named(source, &naming(&[], &["_p?"]));
    assert_eq!(
        found.iter().filter(|(rule, _)| *rule == "lint_602").count(),
        2,
        "`_p?` accepts _p1 but not _p12: {found:?}"
    );
}

#[test]
fn different_elements_are_not_two_drivers() {
    let found = check_source(
        "entity dut is\nend entity;\n\narchitecture rtl of dut is\n  \
         signal a : bit;\n  signal q : bit_vector(7 downto 0);\nbegin\n  \
         q(3 downto 0) <= (others => a);\n  q(7 downto 4) <= (others => '0');\n\
         end architecture;\n",
    );
    assert!(
        !found.iter().any(|(rule, _)| *rule == "lint_601"),
        "disjoint slices, got {found:?}"
    );
}

#[test]
fn a_whole_object_and_a_part_of_it_are_two_drivers() {
    let found = check_source(
        "entity dut is\nend entity;\n\narchitecture rtl of dut is\n  \
         signal a : bit;\n  signal q : bit_vector(7 downto 0);\nbegin\n  \
         q <= (others => '0');\n  q(3) <= a;\nend architecture;\n",
    );
    assert!(
        found.iter().any(|(rule, _)| *rule == "lint_601"),
        "the whole vector and one of its bits, got {found:?}"
    );
}

#[test]
fn design_one_driver_is_not_reported() {
    let found = check_source(&format!(
        "{PREAMBLE}  c <= a;\n  d <= b;\nend architecture;\n"
    ));
    assert!(
        !found.iter().any(|(rule, _)| *rule == "lint_601"),
        "got {found:?}"
    );
}

#[test]
fn the_earliest_driver_reports_with_every_place() {
    let source = "entity dut is\nend entity dut;\n\narchitecture rtl of dut is\n  \
                  signal a, b, q : bit;\nbegin\n  q <= a;\n  q <= b;\n\
                  end architecture rtl;\n";
    let found = findings(source, &none());
    assert_eq!(found.len(), 1);
    assert_eq!(found[0].rule, "lint_601");
    assert_eq!((found[0].line, found[0].column), (7, 3));
    assert_eq!(found[0].message, "Signal 'q' is assigned by 2 concurrent statements");
    let places: Vec<(usize, usize, &str)> = found[0]
        .related
        .iter()
        .map(|r| (r.line, r.column, r.message.as_str()))
        .collect();
    assert_eq!(
        places,
        vec![(7, 3, "'q' is driven here"), (8, 3, "'q' is driven here")]
    );
}

#[test]
fn a_latch_is_reported_where_it_is_assigned() {
    let source = format!(
        "{PREAMBLE}  p : process (a, b) is\n  begin\n    if a = '1' then\n      \
         c <= b;\n    end if;\n  end process;\nend architecture;\n"
    );
    let found = findings(&source, &none());
    assert_eq!(found.len(), 1, "{found:?}");
    assert_eq!(found[0].rule, "lint_600");
    assert_eq!((found[0].line, found[0].column), (10, 7));
    assert_eq!(
        found[0].message,
        "Signal 'c' is not assigned on every path of this combinational process, which infers a latch"
    );
}

#[test]
fn drivers_in_two_generate_bodies_are_not_compared() {
    let source = "entity dut is\n  generic (g : boolean := true);\nend entity;\n\n\
                  architecture rtl of dut is\n  signal a, b, q : bit;\nbegin\n  \
                  one : if g generate\n    q <= a;\n  else generate\n    q <= b;\n  \
                  end generate;\nend architecture;\n";
    let found = check_source(source);
    assert!(!found.iter().any(|(rule, _)| *rule == "lint_601"), "{found:?}");
}

#[test]
fn findings_come_in_order_of_place() {
    let source = format!(
        "{PREAMBLE}  p : process (a, b) is\n  begin\n    if a = '1' then\n      \
         c <= b;\n    end if;\n  end process;\n  c <= a;\nend architecture;\n"
    );
    let found = check_source(&source);
    let lines: Vec<usize> = found.iter().map(|(_, line)| *line).collect();
    let mut sorted = lines.clone();
    sorted.sort();
    assert_eq!(lines, sorted, "{found:?}");
    assert!(found.iter().any(|(rule, _)| *rule == "lint_600"));
    assert!(found.iter().any(|(rule, _)| *rule == "lint_601"));
}

/// Every entity and component the sources declare, as `entities` gathers them from files (a
/// file that does not parse is skipped).
fn entities_of(sources: &[&str]) -> Entities {
    let mut out = Entities::new();
    for source in sources {
        let (file, errors) = parse_with_standard(VHDLStandard::VHDL2008, source.as_bytes());
        if !errors.is_empty() {
            continue;
        }
        add_entities(&mut out, &tree(&file.raw()));
    }
    out
}

fn get<'a>(entities: &'a Entities, name: &str) -> Option<&'a Ports> {
    entities.iter().find(|(n, _)| n == name).map(|(_, p)| p)
}

fn undriven_in(source: &str, entities: &Entities) -> Vec<Finding> {
    let (file, errors) = parse_with_standard(VHDLStandard::VHDL2008, source.as_bytes());
    assert!(errors.is_empty(), "test source must parse");
    undriven(&tree(&file.raw()), source.as_bytes(), &PathBuf::from("dut.vhd"), entities)
}

fn undriven_messages(source: &str, entities: &Entities) -> Vec<String> {
    undriven_in(source, entities)
        .into_iter()
        .map(|f| f.message)
        .collect()
}

/// The findings of `interfaces` for one file, against a project holding `entity`.
fn interface_check(entity: &str, source: &str) -> Vec<String> {
    let known = entities_of(&[entity]);
    let (file, errors) = parse_with_standard(VHDLStandard::VHDL2008, source.as_bytes());
    assert!(errors.is_empty(), "test source must parse");
    interfaces(&tree(&file.raw()), source.as_bytes(), &PathBuf::from("top.vhd"), &known)
        .into_iter()
        .map(|f| f.message)
        .collect()
}

const DUT: &str = "entity dut is\n  port (\n    clk : in bit;\n    d : in bit;\n    \
                   q : out bit\n  );\nend entity dut;\n";

/// An architecture whose declarative part holds `component`.
fn top(component: &str) -> String {
    format!(
        "entity top is\nend entity top;\n\narchitecture rtl of top is\n{component}\
             begin\nend architecture rtl;\n"
    )
}

fn fifo() -> Entities {
    let source = "entity fifo is\n  port (\n    wr : in bit;\n    rd : out bit\n  );\n\
                  end entity fifo;\n";
    entities_of(&[source])
}

#[test]
fn a_component_that_matches_its_entity_is_silent() {
    let found = interface_check(
        DUT,
        &top(
            "  component dut is\n    port (\n      clk : in bit;\n      d : in bit;\n      \
              q : out bit\n    );\n  end component dut;\n",
        ),
    );
    assert!(found.is_empty(), "{found:?}");
}

#[test]
fn a_port_the_component_does_not_declare() {
    let found = interface_check(
        DUT,
        &top(
            "  component dut is\n    port (\n      clk : in bit;\n      d : in bit\n    \
              );\n  end component dut;\n",
        ),
    );
    assert_eq!(found.len(), 1, "{found:?}");
    assert!(found[0].contains("does not declare q"), "{found:?}");
}

#[test]
fn a_port_the_entity_does_not_have_and_a_changed_mode() {
    let found = interface_check(
        DUT,
        &top(
            "  component dut is\n    port (\n      clk : in bit;\n      d : out bit;\n      \
              q : out bit;\n      spare : in bit\n    );\n  end component dut;\n",
        ),
    );
    assert_eq!(found.len(), 1, "{found:?}");
    assert!(found[0].contains("does not have, spare"), "{found:?}");
    assert!(found[0].contains("different mode to d"), "{found:?}");
}

#[test]
fn the_same_ports_in_a_different_order() {
    // Legal, and harmless until someone instantiates positionally.
    let found = interface_check(
        DUT,
        &top(
            "  component dut is\n    port (\n      d : in bit;\n      clk : in bit;\n      \
              q : out bit\n    );\n  end component dut;\n",
        ),
    );
    assert_eq!(found.len(), 1, "{found:?}");
    assert!(found[0].contains("different order"), "{found:?}");
}

#[test]
fn a_component_for_an_entity_the_run_cannot_see_is_left_alone() {
    let found = interface_check(
        "entity other is\nend entity other;\n",
        &top(
            "  component vendor_pll is\n    port (\n      refclk : in bit\n    );\n  \
              end component vendor_pll;\n",
        ),
    );
    assert!(found.is_empty(), "{found:?}");
}

#[test]
fn a_component_instantiation_drives_its_actuals() {
    // `u : component driver` is the same instance as `u : entity work.driver`, but the
    // parser gives it a different node. Reading only the entity form meant the unit was
    // never identified, the instance was skipped, and every signal it drove was reported as
    // having no driver.
    let source = "entity tb is\nend entity tb;\n\narchitecture tb of tb is\n\n  \
                  signal reset : bit;\n\n  component driver is\n    port (\n      \
                  reset : out bit\n    );\n  end component;\n\nbegin\n\n  \
                  u : component driver\n    port map (\n      reset => reset\n    );\n\n  \
                  p : process (reset) is\n  begin\n    report bit'image(reset);\n  \
                  end process p;\n\nend architecture tb;\n";
    let entities = entities_of(&[source]);
    let found = undriven_in(source, &entities);
    assert!(found.is_empty(), "the component drives reset: {found:?}");
}

#[test]
fn an_instance_of_something_unreadable_drives_everything_it_touches() {
    // Whatever this is, it is connected to `spare`. Not knowing what must not become a claim
    // that nothing drives it.
    let source = "entity tb is\nend entity tb;\n\narchitecture tb of tb is\n\n  \
                  signal spare : bit;\n\nbegin\n\n  u : entity work.nowhere\n    \
                  port map (\n      q => spare\n    );\n\n  p : process (spare) is\n  \
                  begin\n    report bit'image(spare);\n  end process p;\n\n\
                  end architecture tb;\n";
    let found = undriven_in(source, &Entities::new());
    assert!(
        found.is_empty(),
        "an unknown entity drives what it touches: {found:?}"
    );
}

#[test]
fn elaborate_ports_are_read_by_their_mode() {
    let found = fifo();
    let ports = get(&found, "fifo").expect("the entity was found");
    assert!(ports.driving.iter().any(|p| p == "rd"), "{ports:?}");
    assert!(ports.reading.iter().any(|p| p == "wr"), "{ports:?}");
    assert_eq!(ports.order, ["wr", "rd"]);
}

#[test]
fn elaborate_a_signal_nothing_drives_is_reported() {
    let messages = undriven_messages(
        "entity dut is\n  port (\n    y : out bit\n  );\nend entity dut;\n\n\
         architecture rtl of dut is\n\n  signal orphan : bit;\n\nbegin\n\n  \
         y <= orphan;\n\nend architecture rtl;\n",
        &Entities::new(),
    );
    assert_eq!(messages.len(), 1, "{messages:?}");
    assert!(messages[0].contains("'orphan'"), "{messages:?}");
}

#[test]
fn elaborate_an_instance_output_is_a_driver() {
    let messages = undriven_messages(
        "entity dut is\n  port (\n    y : out bit\n  );\nend entity dut;\n\n\
         architecture rtl of dut is\n\n  signal s : bit;\n\nbegin\n\n  \
         u : entity work.fifo\n    port map (\n      wr => y,\n      rd => s\n    );\n\n  \
         y <= s;\n\nend architecture rtl;\n",
        &fifo(),
    );
    assert!(messages.is_empty(), "the instance drives s: {messages:?}");
}

#[test]
fn elaborate_an_instance_input_does_not_drive() {
    let messages = undriven_messages(
        "entity dut is\n  port (\n    y : out bit\n  );\nend entity dut;\n\n\
         architecture rtl of dut is\n\n  signal s : bit;\n\nbegin\n\n  \
         u : entity work.fifo\n    port map (\n      wr => s,\n      rd => y\n    );\n\n  \
         y <= s;\n\nend architecture rtl;\n",
        &fifo(),
    );
    assert_eq!(messages.len(), 1, "s is only read: {messages:?}");
}

#[test]
fn elaborate_an_unknown_entity_is_left_alone() {
    let messages = undriven_messages(
        "entity dut is\n  port (\n    y : out bit\n  );\nend entity dut;\n\n\
         architecture rtl of dut is\n\n  signal s : bit;\n\nbegin\n\n  \
         u : entity work.mystery\n    port map (\n      a => s\n    );\n\n  \
         y <= s;\n\nend architecture rtl;\n",
        &Entities::new(),
    );
    assert!(
        messages.is_empty(),
        "without the entity there is no telling: {messages:?}"
    );
}

#[test]
fn elaborate_a_signal_tied_by_its_initial_value_is_not_reported() {
    let messages = undriven_messages(
        "entity dut is\n  port (\n    y : out bit\n  );\nend entity dut;\n\n\
         architecture rtl of dut is\n\n  signal tied : bit := '0';\n\nbegin\n\n  \
         y <= tied;\n\nend architecture rtl;\n",
        &Entities::new(),
    );
    assert!(messages.is_empty(), "tied on purpose: {messages:?}");
}

#[test]
fn elaborate_a_signal_nobody_reads_is_not_this_rule() {
    let messages = undriven_messages(
        "entity dut is\nend entity dut;\n\narchitecture rtl of dut is\n\n  \
         signal unused : bit;\n\nbegin\n\nend architecture rtl;\n",
        &Entities::new(),
    );
    assert!(messages.is_empty(), "that is lint_004: {messages:?}");
}

#[test]
fn wiring_messages_are_exact() {
    let found = undriven_in(
        "entity dut is\n  port (\n    y : out bit\n  );\nend entity dut;\n\n\
         architecture rtl of dut is\n\n  signal orphan : bit;\n\nbegin\n\n  \
         y <= orphan;\n\nend architecture rtl;\n",
        &Entities::new(),
    );
    assert_eq!(found.len(), 1);
    assert_eq!(found[0].rule, "lint_730");
    assert_eq!((found[0].line, found[0].column), (9, 10));
    assert_eq!(found[0].message, "Signal 'orphan' is read but nothing drives it");
    let messages = interface_check(
        DUT,
        &top(
            "  component dut is\n    port (\n      clk : in bit;\n      d : in bit\n    \
              );\n  end component dut;\n",
        ),
    );
    assert_eq!(
        messages,
        vec![
            "Component 'dut' does not match entity 'dut': it does not declare q. An instance \
             binds to the component, so the two disagreeing means the design connects \
             something other than it reads like."
                .to_string()
        ]
    );
}

#[test]
fn an_entity_replaces_its_component_but_not_the_other_way() {
    let component = "entity top is\nend entity top;\n\narchitecture rtl of top is\n  \
                     component fifo is\n    port (\n      wr : out bit\n    );\n  \
                     end component fifo;\nbegin\nend architecture rtl;\n";
    let entity = "entity fifo is\n  port (\n    wr : in bit\n  );\nend entity fifo;\n";
    for sources in [[component, entity], [entity, component]] {
        let known = entities_of(&sources);
        let ports = get(&known, "fifo").expect("fifo");
        assert!(ports.from_entity);
        assert_eq!(ports.reading, ["wr"]);
        assert!(ports.driving.is_empty());
    }
}
