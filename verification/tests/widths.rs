use std::path::PathBuf;

use vhdl_syntax::parser::parse_with_standard;
use vhdl_syntax::standard::VHDLStandard;
use vhdl_syntax::syntax::child::Child;
use vhdl_syntax::syntax::{AstNode, NodeKind, SyntaxNode};
use vsg_rs::analysis::width::check;
use vsg_rs::analysis::lint::Finding;
use vsg_rs::analysis::syntax::{Element, Kind, Node, Token};

fn kind_of(kind: NodeKind) -> Kind {
    match kind {
        NodeKind::ArchitectureBody => Kind::ArchitectureBody,
        NodeKind::ArchitectureDeclarativePart => Kind::ArchitectureDeclarativePart,
        NodeKind::ArchitectureStatementPart => Kind::ArchitectureStatementPart,
        NodeKind::AttributeName => Kind::AttributeName,
        NodeKind::IfGenerateStatement => Kind::IfGenerateStatement,
        NodeKind::CaseGenerateStatement => Kind::CaseGenerateStatement,
        NodeKind::ForGenerateStatement => Kind::ForGenerateStatement,
        NodeKind::GenerateStatementBody => Kind::GenerateStatementBody,
        NodeKind::ProcessStatement => Kind::ProcessStatement,
        NodeKind::ProcessStatementPart => Kind::ProcessStatementPart,
        NodeKind::WaitStatement => Kind::WaitStatement,
        NodeKind::ParenthesizedProcessSensitivityList => Kind::ParenthesizedProcessSensitivityList,
        NodeKind::AllSensitivityList => Kind::AllSensitivityList,
        NodeKind::ProcessPreamble => Kind::ProcessPreamble,
        NodeKind::SensitivityList => Kind::SensitivityList,
        NodeKind::SensitivityClause => Kind::SensitivityClause,
        NodeKind::NameTarget => Kind::NameTarget,
        NodeKind::Name => Kind::Name,
        NodeKind::NameDesignatorPrefix => Kind::NameDesignatorPrefix,
        NodeKind::ConcurrentSimpleSignalAssignment => Kind::ConcurrentSimpleSignalAssignment,
        NodeKind::ConcurrentConditionalSignalAssignment => Kind::ConcurrentConditionalSignalAssignment,
        NodeKind::ConcurrentSelectedSignalAssignment => Kind::ConcurrentSelectedSignalAssignment,
        NodeKind::SimpleWaveformAssignment => Kind::SimpleWaveformAssignment,
        NodeKind::ConditionalWaveformAssignment => Kind::ConditionalWaveformAssignment,
        NodeKind::SelectedWaveformAssignment => Kind::SelectedWaveformAssignment,
        NodeKind::SimpleForceAssignment => Kind::SimpleForceAssignment,
        NodeKind::ConditionalForceAssignment => Kind::ConditionalForceAssignment,
        NodeKind::SimpleVariableAssignment => Kind::SimpleVariableAssignment,
        NodeKind::ConditionalVariableAssignment => Kind::ConditionalVariableAssignment,
        NodeKind::SelectedVariableAssignment => Kind::SelectedVariableAssignment,
        NodeKind::IfStatement => Kind::IfStatement,
        NodeKind::IfStatementElsif => Kind::IfStatementElsif,
        NodeKind::IfStatementElse => Kind::IfStatementElse,
        NodeKind::CaseStatement => Kind::CaseStatement,
        NodeKind::CaseStatementAlternative => Kind::CaseStatementAlternative,
        NodeKind::LoopStatement => Kind::LoopStatement,
        NodeKind::LoopStatementPreamble => Kind::LoopStatementPreamble,
        NodeKind::SequenceOfStatements => Kind::SequenceOfStatements,
        NodeKind::VariableDeclaration => Kind::VariableDeclaration,
        NodeKind::SignalDeclaration => Kind::SignalDeclaration,
        NodeKind::EntityDeclaration => Kind::EntityDeclaration,
        NodeKind::ComponentDeclaration => Kind::ComponentDeclaration,
        NodeKind::PortClause => Kind::PortClause,
        NodeKind::InterfaceObjectDeclaration => Kind::InterfaceObjectDeclaration,
        NodeKind::ComponentInstantiationStatement => Kind::ComponentInstantiationStatement,
        NodeKind::InstantiatedEntity => Kind::InstantiatedEntity,
        NodeKind::PortMapAspect => Kind::PortMapAspect,
        NodeKind::AssociationElement => Kind::AssociationElement,
        NodeKind::Formal => Kind::Formal,
        NodeKind::ProcedureCallStatement => Kind::ProcedureCallStatement,
        NodeKind::ConcurrentProcedureCallOrComponentInstantiationStatement => Kind::ConcurrentProcedureCallOrComponentInstantiationStatement,
        NodeKind::FullTypeDeclaration => Kind::FullTypeDeclaration,
        NodeKind::EnumerationTypeDefinition => Kind::EnumerationTypeDefinition,
        NodeKind::ConstantDeclaration => Kind::ConstantDeclaration,
        NodeKind::CaseStatementPreamble => Kind::CaseStatementPreamble,
        NodeKind::CaseStatementAlternativePreamble => Kind::CaseStatementAlternativePreamble,
        NodeKind::ParenthesizedName => Kind::ParenthesizedName,
        NodeKind::ContextClause => Kind::ContextClause,
        NodeKind::LibraryClause => Kind::LibraryClause,
        NodeKind::UseClauseContextItem => Kind::UseClauseContextItem,
        NodeKind::BlockDeclarativePart => Kind::BlockDeclarativePart,
        NodeKind::ProcessDeclarativePart => Kind::ProcessDeclarativePart,
        NodeKind::PackageDeclarativePart => Kind::PackageDeclarativePart,
        NodeKind::PackageBodyDeclarativePart => Kind::PackageBodyDeclarativePart,
        NodeKind::SubprogramDeclarativePart => Kind::SubprogramDeclarativePart,
        NodeKind::ProtectedTypeBodyDeclarativePart => Kind::ProtectedTypeBodyDeclarativePart,
        NodeKind::ProtectedTypeDeclarativePart => Kind::ProtectedTypeDeclarativePart,
        NodeKind::EntityDeclarativePart => Kind::EntityDeclarativePart,
        NodeKind::InterfaceList => Kind::InterfaceList,
        NodeKind::GenericClause => Kind::GenericClause,
        NodeKind::AssociationList => Kind::AssociationList,
        NodeKind::GenericMapAspect => Kind::GenericMapAspect,
        NodeKind::BlockStatementPart => Kind::BlockStatementPart,
        _ => Kind::Other,
    }
}

fn tree(node: &SyntaxNode) -> Node {
    let elements = node
        .children_with_tokens()
        .map(|child| match child {
            Child::Node(n) => Element::Node(tree(&n)),
            Child::Token(t) => Element::Token(Token {
                text: String::from_utf8_lossy(t.text().as_bytes()).into_owned(),
                latin1: t.text().to_string(),
                offset: t.text_offset(),
            }),
        })
        .collect();
    Node {
        kind: kind_of(node.kind()),
        elements,
    }
}


fn check_all(source: &str) -> Vec<Finding> {
    let (file, errors) = parse_with_standard(VHDLStandard::VHDL2008, source.as_bytes());
    assert!(errors.is_empty(), "test source must parse");
    check(&tree(&file.raw()), source.as_bytes(), &PathBuf::from("dut.vhd"))
}

fn check_source(source: &str) -> Vec<String> {
    check_all(source).into_iter().map(|f| f.message).collect()
}

fn architecture(declarations: &str, body: &str) -> String {
    format!(
        "entity dut is\nend entity dut;\n\narchitecture rtl of dut is\n\n{declarations}\
         \nbegin\n\n{body}\nend architecture rtl;\n"
    )
}

const TWO: &str = "  signal a : std_logic_vector(7 downto 0);\n  \
                   signal b : std_logic_vector(15 downto 0);\n";

#[test]
fn a_wider_source_is_reported() {
    let found = check_source(&architecture(TWO, "  a <= b;\n"));
    assert_eq!(found.len(), 1, "{found:?}");
    assert!(found[0].contains("16 bits"), "{found:?}");
}

#[test]
fn matching_widths_are_quiet() {
    let found = check_source(&architecture(
        "  signal a : std_logic_vector(7 downto 0);\n  \
         signal b : std_logic_vector(7 downto 0);\n",
        "  a <= b;\n",
    ));
    assert!(found.is_empty(), "{found:?}");
}

#[test]
fn a_generic_range_is_not_guessed_at() {
    let source = "entity dut is\n  generic (\n    width_g : positive := 8\n  );\n  \
                  port (\n    a : out std_logic_vector(width_g - 1 downto 0)\n  );\n\
                  end entity dut;\n\narchitecture rtl of dut is\n\n  \
                  signal b : std_logic_vector(15 downto 0);\n\nbegin\n\n  a <= b;\n\n\
                  end architecture rtl;\n";
    assert!(check_source(source).is_empty(), "the width is unknown");
}

#[test]
fn a_slice_has_a_width_of_its_own() {
    let found = check_source(&architecture(TWO, "  a <= b(7 downto 0);\n"));
    assert!(
        found.is_empty(),
        "the slice is not the whole signal: {found:?}"
    );
}

#[test]
fn an_expression_is_left_alone() {
    let found = check_source(&architecture(TWO, "  a <= not b;\n"));
    assert!(found.is_empty(), "{found:?}");
}

#[test]
fn a_port_is_measured_too() {
    let source = "entity dut is\n  port (\n    q : out std_logic_vector(3 downto 0)\n  );\n\
                  end entity dut;\n\narchitecture rtl of dut is\n\n  \
                  signal b : std_logic_vector(15 downto 0);\n\nbegin\n\n  q <= b;\n\n\
                  end architecture rtl;\n";
    assert_eq!(check_source(source).len(), 1);
}

#[test]
fn a_clocked_assignment_is_measured_too() {
    let found = check_source(&architecture(
        &format!("{TWO}  signal clk : std_logic;\n"),
        "  p : process (clk) is\n  begin\n    if rising_edge(clk) then\n      \
         a <= b;\n    end if;\n  end process p;\n",
    ));
    assert_eq!(found.len(), 1, "{found:?}");
}

#[test]
fn the_width_message_names_both_sides_at_the_read() {
    let found = check_all(&architecture(TWO, "  a <= b;\n"));
    assert_eq!(found.len(), 1);
    assert_eq!(
        found[0].message,
        "'b' is 16 bits wide and is assigned to 'a', which is 8"
    );
    assert_eq!(found[0].rule, "lint_740");
    assert_eq!((found[0].line, found[0].column), (11, 8));
    assert_eq!(found[0].file, PathBuf::from("dut.vhd"));
}

#[test]
fn a_name_declared_at_two_widths_is_not_measured() {
    let found = check_source(&architecture(
        "  signal a : std_logic_vector(7 downto 0);\n  \
         signal b : std_logic_vector(15 downto 0);\n  \
         signal b : std_logic_vector(3 downto 0);\n",
        "  a <= b;\n",
    ));
    assert!(found.is_empty(), "{found:?}");
}
