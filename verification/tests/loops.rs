use std::path::PathBuf;

use vhdl_syntax::parser::parse_with_standard;
use vhdl_syntax::standard::VHDLStandard;
use vhdl_syntax::syntax::child::Child;
use vhdl_syntax::syntax::{AstNode, NodeKind, SyntaxNode};
use vsg_rs::combinational::check;
use vsg_rs::analysis::lint::Finding;
use vsg_rs::analysis::syntax::{Element, Kind, Node, Token};

fn kind_of(kind: NodeKind) -> Kind {
    match kind {
        NodeKind::ArchitectureBody => Kind::ArchitectureBody,
        NodeKind::ArchitectureDeclarativePart => Kind::ArchitectureDeclarativePart,
        NodeKind::ArchitectureStatementPart => Kind::ArchitectureStatementPart,
        NodeKind::AttributeName => Kind::AttributeName,
        NodeKind::IfGenerateStatement => Kind::IfGenerateStatement,
        NodeKind::CaseGenerateStatement => Kind::CaseGenerateStatement,
        NodeKind::ForGenerateStatement => Kind::ForGenerateStatement,
        NodeKind::GenerateStatementBody => Kind::GenerateStatementBody,
        NodeKind::ProcessStatement => Kind::ProcessStatement,
        NodeKind::ProcessStatementPart => Kind::ProcessStatementPart,
        NodeKind::WaitStatement => Kind::WaitStatement,
        NodeKind::ParenthesizedProcessSensitivityList => Kind::ParenthesizedProcessSensitivityList,
        NodeKind::AllSensitivityList => Kind::AllSensitivityList,
        NodeKind::ProcessPreamble => Kind::ProcessPreamble,
        NodeKind::SensitivityList => Kind::SensitivityList,
        NodeKind::SensitivityClause => Kind::SensitivityClause,
        NodeKind::NameTarget => Kind::NameTarget,
        NodeKind::Name => Kind::Name,
        NodeKind::NameDesignatorPrefix => Kind::NameDesignatorPrefix,
        NodeKind::ConcurrentSimpleSignalAssignment => Kind::ConcurrentSimpleSignalAssignment,
        NodeKind::ConcurrentConditionalSignalAssignment => Kind::ConcurrentConditionalSignalAssignment,
        NodeKind::ConcurrentSelectedSignalAssignment => Kind::ConcurrentSelectedSignalAssignment,
        NodeKind::SimpleWaveformAssignment => Kind::SimpleWaveformAssignment,
        NodeKind::ConditionalWaveformAssignment => Kind::ConditionalWaveformAssignment,
        NodeKind::SelectedWaveformAssignment => Kind::SelectedWaveformAssignment,
        NodeKind::SimpleForceAssignment => Kind::SimpleForceAssignment,
        NodeKind::ConditionalForceAssignment => Kind::ConditionalForceAssignment,
        NodeKind::SimpleVariableAssignment => Kind::SimpleVariableAssignment,
        NodeKind::ConditionalVariableAssignment => Kind::ConditionalVariableAssignment,
        NodeKind::SelectedVariableAssignment => Kind::SelectedVariableAssignment,
        NodeKind::IfStatement => Kind::IfStatement,
        NodeKind::IfStatementElsif => Kind::IfStatementElsif,
        NodeKind::IfStatementElse => Kind::IfStatementElse,
        NodeKind::CaseStatement => Kind::CaseStatement,
        NodeKind::CaseStatementAlternative => Kind::CaseStatementAlternative,
        NodeKind::LoopStatement => Kind::LoopStatement,
        NodeKind::LoopStatementPreamble => Kind::LoopStatementPreamble,
        NodeKind::SequenceOfStatements => Kind::SequenceOfStatements,
        NodeKind::VariableDeclaration => Kind::VariableDeclaration,
        NodeKind::SignalDeclaration => Kind::SignalDeclaration,
        NodeKind::EntityDeclaration => Kind::EntityDeclaration,
        NodeKind::ComponentDeclaration => Kind::ComponentDeclaration,
        NodeKind::PortClause => Kind::PortClause,
        NodeKind::InterfaceObjectDeclaration => Kind::InterfaceObjectDeclaration,
        NodeKind::ComponentInstantiationStatement => Kind::ComponentInstantiationStatement,
        NodeKind::InstantiatedEntity => Kind::InstantiatedEntity,
        NodeKind::PortMapAspect => Kind::PortMapAspect,
        NodeKind::AssociationElement => Kind::AssociationElement,
        NodeKind::Formal => Kind::Formal,
        NodeKind::ProcedureCallStatement => Kind::ProcedureCallStatement,
        NodeKind::ConcurrentProcedureCallOrComponentInstantiationStatement => Kind::ConcurrentProcedureCallOrComponentInstantiationStatement,
        NodeKind::FullTypeDeclaration => Kind::FullTypeDeclaration,
        NodeKind::EnumerationTypeDefinition => Kind::EnumerationTypeDefinition,
        NodeKind::ConstantDeclaration => Kind::ConstantDeclaration,
        NodeKind::CaseStatementPreamble => Kind::CaseStatementPreamble,
        NodeKind::CaseStatementAlternativePreamble => Kind::CaseStatementAlternativePreamble,
        NodeKind::ParenthesizedName => Kind::ParenthesizedName,
        NodeKind::ContextClause => Kind::ContextClause,
        NodeKind::LibraryClause => Kind::LibraryClause,
        NodeKind::UseClauseContextItem => Kind::UseClauseContextItem,
        NodeKind::BlockDeclarativePart => Kind::BlockDeclarativePart,
        NodeKind::ProcessDeclarativePart => Kind::ProcessDeclarativePart,
        NodeKind::PackageDeclarativePart => Kind::PackageDeclarativePart,
        NodeKind::PackageBodyDeclarativePart => Kind::PackageBodyDeclarativePart,
        NodeKind::SubprogramDeclarativePart => Kind::SubprogramDeclarativePart,
        NodeKind::ProtectedTypeBodyDeclarativePart => Kind::ProtectedTypeBodyDeclarativePart,
        NodeKind::ProtectedTypeDeclarativePart => Kind::ProtectedTypeDeclarativePart,
        NodeKind::EntityDeclarativePart => Kind::EntityDeclarativePart,
        NodeKind::InterfaceList => Kind::InterfaceList,
        NodeKind::GenericClause => Kind::GenericClause,
        NodeKind::AssociationList => Kind::AssociationList,
        NodeKind::GenericMapAspect => Kind::GenericMapAspect,
        NodeKind::BlockStatementPart => Kind::BlockStatementPart,
        _ => Kind::Other,
    }
}

fn tree(node: &SyntaxNode) -> Node {
    let elements = node
        .children_with_tokens()
        .map(|child| match child {
            Child::Node(n) => Element::Node(tree(&n)),
            Child::Token(t) => Element::Token(Token {
                text: String::from_utf8_lossy(t.text().as_bytes()).into_owned(),
                latin1: t.text().to_string(),
                offset: t.text_offset(),
            }),
        })
        .collect();
    Node {
        kind: kind_of(node.kind()),
        elements,
    }
}

fn check_all(source: &str) -> Vec<Finding> {
    let (file, errors) = parse_with_standard(VHDLStandard::VHDL2008, source.as_bytes());
    assert!(errors.is_empty(), "test source must parse");
    check(&tree(&file.raw()), source.as_bytes(), &PathBuf::from("dut.vhd"))
}

fn check_source(source: &str) -> Vec<String> {
    check_all(source).into_iter().map(|f| f.message).collect()
}

fn architecture(body: &str) -> String {
    format!(
        "entity dut is\nend entity dut;\n\narchitecture rtl of dut is\n\n  \
         signal clk, a, b, y, z : bit;\n\nbegin\n\n{body}\nend architecture rtl;\n"
    )
}

#[test]
fn a_signal_that_feeds_itself_is_a_loop() {
    let found = check_source(&architecture("  y <= y and a;\n"));
    assert_eq!(found.len(), 1, "{found:?}");
    assert!(found[0].contains('y'), "{found:?}");
}

#[test]
fn a_loop_through_two_signals_is_found() {
    let found = check_source(&architecture("  y <= z and a;\n  z <= y or b;\n"));
    assert_eq!(found.len(), 1, "{found:?}");
}

#[test]
fn the_cycle_is_reported_as_places_not_prose() {
    let found = check_all(&architecture("  y <= z and a;\n  z <= y or b;\n"));
    assert_eq!(found.len(), 1, "{found:?}");
    // One location per signal on the cycle, and the closing repeat is not one of them.
    let lines: Vec<usize> = found[0].related.iter().map(|r| r.line).collect();
    assert_eq!(lines.len(), 2, "{:?}", found[0].related);
    assert!(lines.iter().all(|l| *l > 0));
}

#[test]
fn a_register_breaks_the_loop() {
    let found = check_source(&architecture(
        "  p : process (clk) is\n  begin\n    if rising_edge(clk) then\n      \
         y <= z;\n    end if;\n  end process p;\n\n  z <= y and a;\n",
    ));
    assert!(found.is_empty(), "the register breaks it: {found:?}");
}

#[test]
fn a_chain_without_a_cycle_is_quiet() {
    let found = check_source(&architecture("  y <= a and b;\n  z <= y;\n"));
    assert!(found.is_empty(), "{found:?}");
}

#[test]
fn different_elements_of_one_vector_are_not_a_loop() {
    let source = "entity dut is\nend entity dut;\n\narchitecture rtl of dut is\n\n  \
                  signal q : bit_vector(3 downto 0);\n\nbegin\n\n  \
                  q(0) <= q(1);\n  q(1) <= q(2);\n\nend architecture rtl;\n";
    assert!(
        check_source(source).is_empty(),
        "the elements are different signals"
    );
}

#[test]
fn an_attribute_of_the_target_is_not_a_dependency() {
    let source = "entity dut is\nend entity dut;\n\narchitecture rtl of dut is\n\n  \
                  signal count : bit_vector(3 downto 0);\n  signal a : bit;\n\nbegin\n\n  \
                  count <= (count'range => a);\n\nend architecture rtl;\n";
    assert!(
        check_source(source).is_empty(),
        "'range is a property, not a value"
    );
}

#[test]
fn a_process_that_waits_is_not_combinational() {
    let found = check_source(&architecture(
        "  p : process is\n  begin\n    wait for 5 ns;\n    clk <= not clk;\n  \
         end process p;\n",
    ));
    assert!(found.is_empty(), "the wait breaks it: {found:?}");
}

#[test]
fn a_delayed_assignment_is_not_a_loop() {
    let found = check_source(&architecture("  clk <= not clk after 5 ns;\n"));
    assert!(found.is_empty(), "the delay breaks it: {found:?}");
}

#[test]
fn a_combinational_process_can_loop() {
    let found = check_source(&architecture(
        "  p : process (a, z) is\n  begin\n    y <= z and a;\n  end process p;\n\n  \
         z <= y;\n",
    ));
    assert_eq!(found.len(), 1, "{found:?}");
}

#[test]
fn loop_message_names_the_walk() {
    let found = check_all(&architecture("  y <= z and a;\n  z <= y or b;\n"));
    assert_eq!(found.len(), 1);
    assert_eq!(found[0].rule, "lint_720");
    assert_eq!(
        found[0].message,
        "Combinational loop: y -> z -> y depends on itself with no register in the way"
    );
    assert_eq!(found[0].related[0].message, "'y' is driven here");
    assert_eq!(found[0].related[1].message, "'z' is driven here");
    // At the assignment to y, which is the first signal of the walk.
    assert_eq!((found[0].line, found[0].column), (10, 3));
}

#[test]
fn two_disjoint_loops_are_two_findings() {
    let found = check_source(&architecture("  y <= y and a;\n  z <= z or b;\n"));
    assert_eq!(found.len(), 2, "{found:?}");
}
