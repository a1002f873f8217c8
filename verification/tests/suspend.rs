use std::path::PathBuf;

use vhdl_syntax::parser::parse_with_standard;
use vhdl_syntax::standard::VHDLStandard;
use vhdl_syntax::syntax::child::Child;
use vhdl_syntax::syntax::{AstNode, NodeKind, SyntaxNode};
use vsg_rs::analysis::suspend::check;
use vsg_rs::analysis::lint::Finding;
use vsg_rs::analysis::syntax::{Element, Kind, Node, Token};

fn kind_of(kind: NodeKind) -> Kind {
    match kind {
        NodeKind::ArchitectureBody => Kind::ArchitectureBody,
        NodeKind::ArchitectureDeclarativePart => Kind::ArchitectureDeclarativePart,
        NodeKind::ArchitectureStatementPart => Kind::ArchitectureStatementPart,
        NodeKind::AttributeName => Kind::AttributeName,
        NodeKind::IfGenerateStatement => Kind::IfGenerateStatement,
        NodeKind::CaseGenerateStatement => Kind::CaseGenerateStatement,
        NodeKind::ForGenerateStatement => Kind::ForGenerateStatement,
        NodeKind::GenerateStatementBody => Kind::GenerateStatementBody,
        NodeKind::ProcessStatement => Kind::ProcessStatement,
        NodeKind::ProcessStatementPart => Kind::ProcessStatementPart,
        NodeKind::WaitStatement => Kind::WaitStatement,
        NodeKind::ParenthesizedProcessSensitivityList => Kind::ParenthesizedProcessSensitivityList,
        NodeKind::AllSensitivityList => Kind::AllSensitivityList,
        NodeKind::ProcessPreamble => Kind::ProcessPreamble,
        NodeKind::SensitivityList => Kind::SensitivityList,
        NodeKind::SensitivityClause => Kind::SensitivityClause,
        NodeKind::NameTarget => Kind::NameTarget,
        NodeKind::Name => Kind::Name,
        NodeKind::NameDesignatorPrefix => Kind::NameDesignatorPrefix,
        NodeKind::ConcurrentSimpleSignalAssignment => Kind::ConcurrentSimpleSignalAssignment,
        NodeKind::ConcurrentConditionalSignalAssignment => Kind::ConcurrentConditionalSignalAssignment,
        NodeKind::ConcurrentSelectedSignalAssignment => Kind::ConcurrentSelectedSignalAssignment,
        NodeKind::SimpleWaveformAssignment => Kind::SimpleWaveformAssignment,
        NodeKind::ConditionalWaveformAssignment => Kind::ConditionalWaveformAssignment,
        NodeKind::SelectedWaveformAssignment => Kind::SelectedWaveformAssignment,
        NodeKind::SimpleForceAssignment => Kind::SimpleForceAssignment,
        NodeKind::ConditionalForceAssignment => Kind::ConditionalForceAssignment,
        NodeKind::SimpleVariableAssignment => Kind::SimpleVariableAssignment,
        NodeKind::ConditionalVariableAssignment => Kind::ConditionalVariableAssignment,
        NodeKind::SelectedVariableAssignment => Kind::SelectedVariableAssignment,
        NodeKind::IfStatement => Kind::IfStatement,
        NodeKind::IfStatementElsif => Kind::IfStatementElsif,
        NodeKind::IfStatementElse => Kind::IfStatementElse,
        NodeKind::CaseStatement => Kind::CaseStatement,
        NodeKind::CaseStatementAlternative => Kind::CaseStatementAlternative,
        NodeKind::LoopStatement => Kind::LoopStatement,
        NodeKind::LoopStatementPreamble => Kind::LoopStatementPreamble,
        NodeKind::SequenceOfStatements => Kind::SequenceOfStatements,
        NodeKind::VariableDeclaration => Kind::VariableDeclaration,
        NodeKind::SignalDeclaration => Kind::SignalDeclaration,
        NodeKind::EntityDeclaration => Kind::EntityDeclaration,
        NodeKind::ComponentDeclaration => Kind::ComponentDeclaration,
        NodeKind::PortClause => Kind::PortClause,
        NodeKind::InterfaceObjectDeclaration => Kind::InterfaceObjectDeclaration,
        NodeKind::ComponentInstantiationStatement => Kind::ComponentInstantiationStatement,
        NodeKind::InstantiatedEntity => Kind::InstantiatedEntity,
        NodeKind::PortMapAspect => Kind::PortMapAspect,
        NodeKind::AssociationElement => Kind::AssociationElement,
        NodeKind::Formal => Kind::Formal,
        NodeKind::ProcedureCallStatement => Kind::ProcedureCallStatement,
        NodeKind::ConcurrentProcedureCallOrComponentInstantiationStatement => Kind::ConcurrentProcedureCallOrComponentInstantiationStatement,
        NodeKind::FullTypeDeclaration => Kind::FullTypeDeclaration,
        NodeKind::EnumerationTypeDefinition => Kind::EnumerationTypeDefinition,
        NodeKind::ConstantDeclaration => Kind::ConstantDeclaration,
        NodeKind::CaseStatementPreamble => Kind::CaseStatementPreamble,
        NodeKind::CaseStatementAlternativePreamble => Kind::CaseStatementAlternativePreamble,
        NodeKind::ParenthesizedName => Kind::ParenthesizedName,
        NodeKind::ContextClause => Kind::ContextClause,
        NodeKind::LibraryClause => Kind::LibraryClause,
        NodeKind::UseClauseContextItem => Kind::UseClauseContextItem,
        NodeKind::BlockDeclarativePart => Kind::BlockDeclarativePart,
        NodeKind::ProcessDeclarativePart => Kind::ProcessDeclarativePart,
        NodeKind::PackageDeclarativePart => Kind::PackageDeclarativePart,
        NodeKind::PackageBodyDeclarativePart => Kind::PackageBodyDeclarativePart,
        NodeKind::SubprogramDeclarativePart => Kind::SubprogramDeclarativePart,
        NodeKind::ProtectedTypeBodyDeclarativePart => Kind::ProtectedTypeBodyDeclarativePart,
        NodeKind::ProtectedTypeDeclarativePart => Kind::ProtectedTypeDeclarativePart,
        NodeKind::EntityDeclarativePart => Kind::EntityDeclarativePart,
        NodeKind::InterfaceList => Kind::InterfaceList,
        NodeKind::GenericClause => Kind::GenericClause,
        NodeKind::AssociationList => Kind::AssociationList,
        NodeKind::GenericMapAspect => Kind::GenericMapAspect,
        NodeKind::BlockStatementPart => Kind::BlockStatementPart,
        _ => Kind::Other,
    }
}

fn tree(node: &SyntaxNode) -> Node {
    let elements = node
        .children_with_tokens()
        .map(|child| match child {
            Child::Node(n) => Element::Node(tree(&n)),
            Child::Token(t) => Element::Token(Token {
                text: String::from_utf8_lossy(t.text().as_bytes()).into_owned(),
                latin1: t.text().to_string(),
                offset: t.text_offset(),
            }),
        })
        .collect();
    Node {
        kind: kind_of(node.kind()),
        elements,
    }
}

fn check_all(source: &str) -> Vec<Finding> {
    let (file, errors) = parse_with_standard(VHDLStandard::VHDL2008, source.as_bytes());
    assert!(errors.is_empty(), "test source must parse");
    check(&tree(&file.raw()), source.as_bytes(), &PathBuf::from("dut.vhd"))
}

fn check_source(source: &str) -> Vec<String> {
    check_all(source).into_iter().map(|f| f.message).collect()
}

fn architecture(body: &str) -> String {
    format!(
        "entity dut is\nend entity dut;\n\narchitecture rtl of dut is\n  signal x : bit;\n\
         begin\n{body}end architecture rtl;\n"
    )
}

#[test]
fn a_process_with_neither_a_list_nor_a_wait() {
    let found = check_source(&architecture(
        "  p : process\n  begin\n    x <= '1';\n  end process p;\n",
    ));
    assert_eq!(found.len(), 1, "{found:?}");
    assert!(found[0].contains("'p' can never suspend"), "{found:?}");
}

#[test]
fn process_all_is_a_sensitivity_list_too() {
    // VHDL-2008's implicit list. open-logic writes every combinational process this way,
    // and reading it as "no sensitivity list" reported 33 perfectly good ones.
    let found = check_source(&architecture(
        "  p : process (all) is\n  begin\n    x <= '1';\n  end process p;\n",
    ));
    assert!(found.is_empty(), "{found:?}");
}

#[test]
fn a_sensitivity_list_is_a_wait_at_the_end() {
    let found = check_source(&architecture(
        "  p : process (x) is\n  begin\n    x <= '1';\n  end process p;\n",
    ));
    assert!(found.is_empty(), "{found:?}");
}

#[test]
fn a_wait_suspends_it() {
    let found = check_source(&architecture(
        "  p : process\n  begin\n    x <= '1';\n    wait for 10 ns;\n  end process p;\n",
    ));
    assert!(found.is_empty(), "{found:?}");
}

#[test]
fn a_wait_that_looks_unreachable_still_counts() {
    let found = check_source(&architecture(
        "  p : process\n  begin\n    if false then\n      wait;\n    end if;\n  \
         end process p;\n",
    ));
    assert!(found.is_empty(), "{found:?}");
}

#[test]
fn a_procedure_call_might_be_where_the_wait_is() {
    // The reason NVC says "potential": the procedure may suspend, so this process may be
    // perfectly well behaved. Saying nothing is the only honest answer without resolving
    // the call.
    let found = check_source(&architecture(
        "  p : process\n  begin\n    tick;\n  end process p;\n",
    ));
    assert!(found.is_empty(), "{found:?}");
}

#[test]
fn a_process_without_a_label_is_still_reported() {
    let found = check_source(&architecture(
        "  process\n  begin\n    x <= '1';\n  end process;\n",
    ));
    assert_eq!(found.len(), 1, "{found:?}");
    assert!(
        found[0].starts_with("Process can never suspend"),
        "{found:?}"
    );
}

#[test]
fn a_process_that_cannot_suspend_is_reported_at_its_label() {
    let found = check_all(&architecture(
        "  Main : process\n  begin\n    x <= '1';\n  end process Main;\n",
    ));
    assert_eq!(found.len(), 1);
    assert_eq!(found[0].rule, "lint_770");
    assert_eq!((found[0].line, found[0].column), (7, 3));
    assert_eq!(
        found[0].message,
        "Process 'main' can never suspend: it has no sensitivity list and no wait statement, so \
         it restarts without ever letting simulation time advance."
    );
}
