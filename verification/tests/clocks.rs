use std::path::PathBuf;

use vhdl_syntax::parser::parse_with_standard;
use vhdl_syntax::standard::VHDLStandard;
use vhdl_syntax::syntax::child::Child;
use vhdl_syntax::syntax::{AstNode, NodeKind, SyntaxNode};
use vsg_rs::analysis::clockdomain::check;
use vsg_rs::analysis::lint::Finding;
use vsg_rs::analysis::syntax::{Element, Kind, Node, Token};

fn kind_of(kind: NodeKind) -> Kind {
    match kind {
        NodeKind::ArchitectureBody => Kind::ArchitectureBody,
        NodeKind::ArchitectureDeclarativePart => Kind::ArchitectureDeclarativePart,
        NodeKind::ArchitectureStatementPart => Kind::ArchitectureStatementPart,
        NodeKind::AttributeName => Kind::AttributeName,
        NodeKind::IfGenerateStatement => Kind::IfGenerateStatement,
        NodeKind::CaseGenerateStatement => Kind::CaseGenerateStatement,
        NodeKind::ForGenerateStatement => Kind::ForGenerateStatement,
        NodeKind::GenerateStatementBody => Kind::GenerateStatementBody,
        NodeKind::ProcessStatement => Kind::ProcessStatement,
        NodeKind::ProcessStatementPart => Kind::ProcessStatementPart,
        NodeKind::WaitStatement => Kind::WaitStatement,
        NodeKind::ParenthesizedProcessSensitivityList => Kind::ParenthesizedProcessSensitivityList,
        NodeKind::AllSensitivityList => Kind::AllSensitivityList,
        NodeKind::ProcessPreamble => Kind::ProcessPreamble,
        NodeKind::SensitivityList => Kind::SensitivityList,
        NodeKind::SensitivityClause => Kind::SensitivityClause,
        NodeKind::NameTarget => Kind::NameTarget,
        NodeKind::Name => Kind::Name,
        NodeKind::NameDesignatorPrefix => Kind::NameDesignatorPrefix,
        NodeKind::ConcurrentSimpleSignalAssignment => Kind::ConcurrentSimpleSignalAssignment,
        NodeKind::ConcurrentConditionalSignalAssignment => Kind::ConcurrentConditionalSignalAssignment,
        NodeKind::ConcurrentSelectedSignalAssignment => Kind::ConcurrentSelectedSignalAssignment,
        NodeKind::SimpleWaveformAssignment => Kind::SimpleWaveformAssignment,
        NodeKind::ConditionalWaveformAssignment => Kind::ConditionalWaveformAssignment,
        NodeKind::SelectedWaveformAssignment => Kind::SelectedWaveformAssignment,
        NodeKind::SimpleForceAssignment => Kind::SimpleForceAssignment,
        NodeKind::ConditionalForceAssignment => Kind::ConditionalForceAssignment,
        NodeKind::SimpleVariableAssignment => Kind::SimpleVariableAssignment,
        NodeKind::ConditionalVariableAssignment => Kind::ConditionalVariableAssignment,
        NodeKind::SelectedVariableAssignment => Kind::SelectedVariableAssignment,
        NodeKind::IfStatement => Kind::IfStatement,
        NodeKind::IfStatementElsif => Kind::IfStatementElsif,
        NodeKind::IfStatementElse => Kind::IfStatementElse,
        NodeKind::CaseStatement => Kind::CaseStatement,
        NodeKind::CaseStatementAlternative => Kind::CaseStatementAlternative,
        NodeKind::LoopStatement => Kind::LoopStatement,
        NodeKind::LoopStatementPreamble => Kind::LoopStatementPreamble,
        NodeKind::SequenceOfStatements => Kind::SequenceOfStatements,
        NodeKind::VariableDeclaration => Kind::VariableDeclaration,
        NodeKind::SignalDeclaration => Kind::SignalDeclaration,
        NodeKind::EntityDeclaration => Kind::EntityDeclaration,
        NodeKind::ComponentDeclaration => Kind::ComponentDeclaration,
        NodeKind::PortClause => Kind::PortClause,
        NodeKind::InterfaceObjectDeclaration => Kind::InterfaceObjectDeclaration,
        NodeKind::ComponentInstantiationStatement => Kind::ComponentInstantiationStatement,
        NodeKind::InstantiatedEntity => Kind::InstantiatedEntity,
        NodeKind::PortMapAspect => Kind::PortMapAspect,
        NodeKind::AssociationElement => Kind::AssociationElement,
        NodeKind::Formal => Kind::Formal,
        NodeKind::ProcedureCallStatement => Kind::ProcedureCallStatement,
        NodeKind::ConcurrentProcedureCallOrComponentInstantiationStatement => Kind::ConcurrentProcedureCallOrComponentInstantiationStatement,
        NodeKind::FullTypeDeclaration => Kind::FullTypeDeclaration,
        NodeKind::EnumerationTypeDefinition => Kind::EnumerationTypeDefinition,
        NodeKind::ConstantDeclaration => Kind::ConstantDeclaration,
        NodeKind::CaseStatementPreamble => Kind::CaseStatementPreamble,
        NodeKind::CaseStatementAlternativePreamble => Kind::CaseStatementAlternativePreamble,
        NodeKind::ParenthesizedName => Kind::ParenthesizedName,
        NodeKind::ContextClause => Kind::ContextClause,
        NodeKind::LibraryClause => Kind::LibraryClause,
        NodeKind::UseClauseContextItem => Kind::UseClauseContextItem,
        NodeKind::BlockDeclarativePart => Kind::BlockDeclarativePart,
        NodeKind::ProcessDeclarativePart => Kind::ProcessDeclarativePart,
        NodeKind::PackageDeclarativePart => Kind::PackageDeclarativePart,
        NodeKind::PackageBodyDeclarativePart => Kind::PackageBodyDeclarativePart,
        NodeKind::SubprogramDeclarativePart => Kind::SubprogramDeclarativePart,
        NodeKind::ProtectedTypeBodyDeclarativePart => Kind::ProtectedTypeBodyDeclarativePart,
        NodeKind::ProtectedTypeDeclarativePart => Kind::ProtectedTypeDeclarativePart,
        NodeKind::EntityDeclarativePart => Kind::EntityDeclarativePart,
        NodeKind::InterfaceList => Kind::InterfaceList,
        NodeKind::GenericClause => Kind::GenericClause,
        NodeKind::AssociationList => Kind::AssociationList,
        NodeKind::GenericMapAspect => Kind::GenericMapAspect,
        NodeKind::BlockStatementPart => Kind::BlockStatementPart,
        _ => Kind::Other,
    }
}

fn tree(node: &SyntaxNode) -> Node {
    let elements = node
        .children_with_tokens()
        .map(|child| match child {
            Child::Node(n) => Element::Node(tree(&n)),
            Child::Token(t) => Element::Token(Token {
                text: String::from_utf8_lossy(t.text().as_bytes()).into_owned(),
                latin1: t.text().to_string(),
                offset: t.text_offset(),
            }),
        })
        .collect();
    Node {
        kind: kind_of(node.kind()),
        elements,
    }
}

fn check_all(source: &str, synchronizers: &[&str]) -> Vec<Finding> {
    let (file, errors) = parse_with_standard(VHDLStandard::VHDL2008, source.as_bytes());
    assert!(errors.is_empty(), "test source must parse");
    let patterns: Vec<String> = synchronizers.iter().map(|s| (*s).to_owned()).collect();
    check(&tree(&file.raw()), source.as_bytes(), &PathBuf::from("dut.vhd"), &patterns)
}

fn check_source(source: &str, synchronizers: &[&str]) -> Vec<String> {
    check_all(source, synchronizers).into_iter().map(|f| f.message).collect()
}

fn two_clocks(body: &str) -> String {
    format!(
        "entity dut is\nend entity dut;\n\narchitecture rtl of dut is\n\n  \
         signal clk_a, clk_b, a_data, b_data, b_sync, y : bit;\n\nbegin\n\n  \
         a : process (clk_a) is\n  begin\n    if rising_edge(clk_a) then\n      \
         a_data <= not a_data;\n    end if;\n  end process a;\n\n{body}\n\
         end architecture rtl;\n"
    )
}

fn in_b(body: &str) -> String {
    two_clocks(&format!(
        "  b : process (clk_b) is\n  begin\n    if rising_edge(clk_b) then\n      \
         {body}\n    end if;\n  end process b;\n"
    ))
}

#[test]
fn using_another_domains_register_in_logic_is_reported() {
    let found = check_source(&in_b("y <= a_data and b_data;"), &[]);
    assert_eq!(found.len(), 1, "{found:?}");
    assert!(found[0].contains("'a_data'"), "{found:?}");
}

#[test]
fn capturing_it_into_a_flop_is_a_synchroniser() {
    let found = check_source(&in_b("b_sync <= a_data;"), &[]);
    assert!(
        found.is_empty(),
        "a plain capture is the first stage: {found:?}"
    );
}

#[test]
fn staying_in_one_domain_is_quiet() {
    let found = check_source(&in_b("y <= b_data and y;"), &[]);
    assert!(found.is_empty(), "{found:?}");
}

#[test]
fn one_clock_cannot_cross() {
    let source = "entity dut is\nend entity dut;\n\narchitecture rtl of dut is\n\n  \
                  signal clk, a, y : bit;\n\nbegin\n\n  p : process (clk) is\n  begin\n    \
                  if rising_edge(clk) then\n      a <= not a;\n      y <= a and y;\n    \
                  end if;\n  end process p;\n\nend architecture rtl;\n";
    assert!(check_source(source, &[]).is_empty());
}

#[test]
fn a_synchroniser_is_named_by_its_entity_and_nothing_else() {
    let body = "  u : entity work.cdc_bit_sync\n    port map (\n      d => a_data,\n      \
                q => b_sync\n    );\n\n  b : process (clk_b) is\n  begin\n    \
                if rising_edge(clk_b) then\n      y <= a_data and b_data;\n    end if;\n  \
                end process b;\n";
    assert!(
        check_source(&two_clocks(body), &["cdc_bit_sync"]).is_empty(),
        "an exact entity name must match"
    );
}

#[test]
fn a_named_synchroniser_makes_it_safe() {
    let body = "  u : entity work.cdc_bit_sync\n    port map (\n      d => a_data,\n      \
                q => b_sync\n    );\n\n  b : process (clk_b) is\n  begin\n    \
                if rising_edge(clk_b) then\n      y <= a_data and b_data;\n    end if;\n  \
                end process b;\n";
    assert!(
        check_source(&two_clocks(body), &["cdc_*"]).is_empty(),
        "the project named it a synchroniser"
    );
    assert_eq!(
        check_source(&two_clocks(body), &[]).len(),
        1,
        "without the configuration it is still a crossing"
    );
}

#[test]
fn crossing_message_and_place() {
    let found = check_all(&in_b("y <= a_data and b_data;"), &[]);
    assert_eq!(found.len(), 1);
    assert_eq!(found[0].rule, "lint_700");
    assert_eq!(
        found[0].message,
        "Signal 'a_data' is registered on 'clk_a' and used in logic on 'clk_b': an unsynchronised clock domain crossing"
    );
    assert!(found[0].related.is_empty());
}

#[test]
fn one_finding_per_line_and_message() {
    // The same crossing twice on one line is one finding.
    let found = check_source(&in_b("y <= a_data and a_data;"), &[]);
    assert_eq!(found.len(), 1, "{found:?}");
}
