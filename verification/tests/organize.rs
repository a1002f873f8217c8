
use vhdl_syntax::parser::parse_with_standard;
use vhdl_syntax::standard::VHDLStandard;
use vhdl_syntax::syntax::child::Child;
use vhdl_syntax::syntax::{AstNode, NodeKind, SyntaxNode};
use vsg_rs::organize::sort_context_clauses;
use vsg_rs::analysis::syntax::{Element, Kind, Node, Token};

fn kind_of(kind: NodeKind) -> Kind {
    match kind {
        NodeKind::ArchitectureBody => Kind::ArchitectureBody,
        NodeKind::ArchitectureDeclarativePart => Kind::ArchitectureDeclarativePart,
        NodeKind::ArchitectureStatementPart => Kind::ArchitectureStatementPart,
        NodeKind::AttributeName => Kind::AttributeName,
        NodeKind::IfGenerateStatement => Kind::IfGenerateStatement,
        NodeKind::CaseGenerateStatement => Kind::CaseGenerateStatement,
        NodeKind::ForGenerateStatement => Kind::ForGenerateStatement,
        NodeKind::GenerateStatementBody => Kind::GenerateStatementBody,
        NodeKind::ProcessStatement => Kind::ProcessStatement,
        NodeKind::ProcessStatementPart => Kind::ProcessStatementPart,
        NodeKind::WaitStatement => Kind::WaitStatement,
        NodeKind::ParenthesizedProcessSensitivityList => Kind::ParenthesizedProcessSensitivityList,
        NodeKind::AllSensitivityList => Kind::AllSensitivityList,
        NodeKind::ProcessPreamble => Kind::ProcessPreamble,
        NodeKind::SensitivityList => Kind::SensitivityList,
        NodeKind::SensitivityClause => Kind::SensitivityClause,
        NodeKind::NameTarget => Kind::NameTarget,
        NodeKind::Name => Kind::Name,
        NodeKind::NameDesignatorPrefix => Kind::NameDesignatorPrefix,
        NodeKind::ConcurrentSimpleSignalAssignment => Kind::ConcurrentSimpleSignalAssignment,
        NodeKind::ConcurrentConditionalSignalAssignment => Kind::ConcurrentConditionalSignalAssignment,
        NodeKind::ConcurrentSelectedSignalAssignment => Kind::ConcurrentSelectedSignalAssignment,
        NodeKind::SimpleWaveformAssignment => Kind::SimpleWaveformAssignment,
        NodeKind::ConditionalWaveformAssignment => Kind::ConditionalWaveformAssignment,
        NodeKind::SelectedWaveformAssignment => Kind::SelectedWaveformAssignment,
        NodeKind::SimpleForceAssignment => Kind::SimpleForceAssignment,
        NodeKind::ConditionalForceAssignment => Kind::ConditionalForceAssignment,
        NodeKind::SimpleVariableAssignment => Kind::SimpleVariableAssignment,
        NodeKind::ConditionalVariableAssignment => Kind::ConditionalVariableAssignment,
        NodeKind::SelectedVariableAssignment => Kind::SelectedVariableAssignment,
        NodeKind::IfStatement => Kind::IfStatement,
        NodeKind::IfStatementElsif => Kind::IfStatementElsif,
        NodeKind::IfStatementElse => Kind::IfStatementElse,
        NodeKind::CaseStatement => Kind::CaseStatement,
        NodeKind::CaseStatementAlternative => Kind::CaseStatementAlternative,
        NodeKind::LoopStatement => Kind::LoopStatement,
        NodeKind::LoopStatementPreamble => Kind::LoopStatementPreamble,
        NodeKind::SequenceOfStatements => Kind::SequenceOfStatements,
        NodeKind::VariableDeclaration => Kind::VariableDeclaration,
        NodeKind::SignalDeclaration => Kind::SignalDeclaration,
        NodeKind::EntityDeclaration => Kind::EntityDeclaration,
        NodeKind::ComponentDeclaration => Kind::ComponentDeclaration,
        NodeKind::PortClause => Kind::PortClause,
        NodeKind::InterfaceObjectDeclaration => Kind::InterfaceObjectDeclaration,
        NodeKind::ComponentInstantiationStatement => Kind::ComponentInstantiationStatement,
        NodeKind::InstantiatedEntity => Kind::InstantiatedEntity,
        NodeKind::PortMapAspect => Kind::PortMapAspect,
        NodeKind::AssociationElement => Kind::AssociationElement,
        NodeKind::Formal => Kind::Formal,
        NodeKind::ProcedureCallStatement => Kind::ProcedureCallStatement,
        NodeKind::ConcurrentProcedureCallOrComponentInstantiationStatement => Kind::ConcurrentProcedureCallOrComponentInstantiationStatement,
        NodeKind::FullTypeDeclaration => Kind::FullTypeDeclaration,
        NodeKind::EnumerationTypeDefinition => Kind::EnumerationTypeDefinition,
        NodeKind::ConstantDeclaration => Kind::ConstantDeclaration,
        NodeKind::CaseStatementPreamble => Kind::CaseStatementPreamble,
        NodeKind::CaseStatementAlternativePreamble => Kind::CaseStatementAlternativePreamble,
        NodeKind::ParenthesizedName => Kind::ParenthesizedName,
        NodeKind::ContextClause => Kind::ContextClause,
        NodeKind::LibraryClause => Kind::LibraryClause,
        NodeKind::UseClauseContextItem => Kind::UseClauseContextItem,
        NodeKind::BlockDeclarativePart => Kind::BlockDeclarativePart,
        NodeKind::ProcessDeclarativePart => Kind::ProcessDeclarativePart,
        NodeKind::PackageDeclarativePart => Kind::PackageDeclarativePart,
        NodeKind::PackageBodyDeclarativePart => Kind::PackageBodyDeclarativePart,
        NodeKind::SubprogramDeclarativePart => Kind::SubprogramDeclarativePart,
        NodeKind::ProtectedTypeBodyDeclarativePart => Kind::ProtectedTypeBodyDeclarativePart,
        NodeKind::ProtectedTypeDeclarativePart => Kind::ProtectedTypeDeclarativePart,
        NodeKind::EntityDeclarativePart => Kind::EntityDeclarativePart,
        NodeKind::InterfaceList => Kind::InterfaceList,
        NodeKind::GenericClause => Kind::GenericClause,
        NodeKind::AssociationList => Kind::AssociationList,
        NodeKind::GenericMapAspect => Kind::GenericMapAspect,
        NodeKind::BlockStatementPart => Kind::BlockStatementPart,
        _ => Kind::Other,
    }
}

fn tree(node: &SyntaxNode) -> Node {
    let elements = node
        .children_with_tokens()
        .map(|child| match child {
            Child::Node(n) => Element::Node(tree(&n)),
            Child::Token(t) => Element::Token(Token {
                text: String::from_utf8_lossy(t.text().as_bytes()).into_owned(),
                latin1: t.text().to_string(),
                offset: t.text_offset(),
            }),
        })
        .collect();
    Node {
        kind: kind_of(node.kind()),
        elements,
    }
}

fn sorted(source: &str) -> Option<String> {
    let (file, errors) = parse_with_standard(VHDLStandard::VHDL2008, source.as_bytes());
    assert!(errors.is_empty(), "test source must parse");
    sort_context_clauses(&tree(&file.raw()), source.as_bytes()).map(|v| String::from_utf8(v).unwrap())
}

const ENTITY: &str = "\nentity dut is\nend entity dut;\n";

#[test]
fn ieee_first_then_alphabetical_then_work() {
    let source = format!(
        "library work;\nuse work.pkg.all;\n\nlibrary osvvm;\nuse osvvm.randompkg.all;\n\n\
         library ieee;\nuse ieee.std_logic_1164.all;\n{ENTITY}"
    );
    let wanted = format!(
        "library ieee;\nuse ieee.std_logic_1164.all;\n\nlibrary osvvm;\n\
         use osvvm.randompkg.all;\n\nlibrary work;\nuse work.pkg.all;\n{ENTITY}"
    );
    assert_eq!(sorted(&source).expect("a reordering"), wanted);
}

#[test]
fn use_clauses_sort_within_their_library() {
    let source = format!(
        "library ieee;\nuse ieee.numeric_std.all;\nuse ieee.std_logic_1164.all;\n\
         use ieee.fixed_pkg.all;\n{ENTITY}"
    );
    let got = sorted(&source).expect("a reordering");
    assert!(
        got.starts_with(
            "library ieee;\nuse ieee.fixed_pkg.all;\nuse ieee.numeric_std.all;\n\
             use ieee.std_logic_1164.all;\n"
        ),
        "{got}"
    );
}

#[test]
fn a_comment_travels_with_its_clause() {
    let source = format!(
        "library work;\nuse work.pkg.all;\n\n-- the fixed-point package\nlibrary ieee;\n\
         use ieee.fixed_pkg.all;\n{ENTITY}"
    );
    let got = sorted(&source).expect("a reordering");
    assert!(
        got.starts_with("-- the fixed-point package\nlibrary ieee;\nuse ieee.fixed_pkg.all;"),
        "{got}"
    );
}

#[test]
fn a_trailing_comment_is_kept() {
    let source = format!(
        "library work;\nuse work.pkg.all;\n\nlibrary ieee;  -- standard\n\
         use ieee.std_logic_1164.all;\n{ENTITY}"
    );
    let got = sorted(&source).expect("a reordering");
    assert!(got.contains("library ieee;  -- standard\n"), "{got}");
}

#[test]
fn source_already_in_order_offers_nothing() {
    let source = format!(
        "library ieee;\nuse ieee.std_logic_1164.all;\n\nlibrary work;\n\
         use work.pkg.all;\n{ENTITY}"
    );
    assert_eq!(sorted(&source), None);
}

#[test]
fn clauses_sharing_a_line_are_left_alone() {
    let source = format!("library work; library ieee;\nuse ieee.numeric_std.all;\n{ENTITY}");
    assert_eq!(sorted(&source), None);
}

#[test]
fn a_library_clause_naming_two_is_left_alone() {
    let source = format!("library work, ieee;\nuse ieee.std_logic_1164.all;\n{ENTITY}");
    assert_eq!(sorted(&source), None);
}

#[test]
fn nothing_to_sort_offers_nothing() {
    assert_eq!(sorted(&format!("library ieee;\n{ENTITY}")), None);
    assert_eq!(sorted(ENTITY), None);
}

#[test]
fn a_source_that_is_not_utf8_offers_nothing() {
    let mut source = format!("library work;\nuse work.pkg.all;\nlibrary ieee;\n{ENTITY}").into_bytes();
    source.extend_from_slice(b"-- \xff\n");
    let (file, _) = parse_with_standard(VHDLStandard::VHDL2008, source.as_slice());
    assert_eq!(sort_context_clauses(&tree(&file.raw()), &source), None);
}

#[test]
fn a_use_clause_without_its_library_clause_is_a_group() {
    let source = format!("use work.pkg.all;\nlibrary ieee;\nuse ieee.std_logic_1164.all;\n{ENTITY}");
    let got = sorted(&source).expect("a reordering");
    assert!(got.starts_with("library ieee;\nuse ieee.std_logic_1164.all;\n\nuse work.pkg.all;\n"), "{got}");
}
