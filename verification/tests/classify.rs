
use vhdl_syntax::parser::parse_with_standard;
use vhdl_syntax::standard::VHDLStandard;
use vhdl_syntax::syntax::child::Child;
use vhdl_syntax::syntax::{AstNode, NodeKind, SyntaxNode};
use vsg_rs::analysis::testbench::classify;
use vsg_rs::analysis::syntax::{Element, Kind, Node, Token};

fn kind_of(kind: NodeKind) -> Kind {
    match kind {
        NodeKind::ArchitectureBody => Kind::ArchitectureBody,
        NodeKind::ArchitectureDeclarativePart => Kind::ArchitectureDeclarativePart,
        NodeKind::ArchitectureStatementPart => Kind::ArchitectureStatementPart,
        NodeKind::AttributeName => Kind::AttributeName,
        NodeKind::IfGenerateStatement => Kind::IfGenerateStatement,
        NodeKind::CaseGenerateStatement => Kind::CaseGenerateStatement,
        NodeKind::ForGenerateStatement => Kind::ForGenerateStatement,
        NodeKind::GenerateStatementBody => Kind::GenerateStatementBody,
        NodeKind::ProcessStatement => Kind::ProcessStatement,
        NodeKind::ProcessStatementPart => Kind::ProcessStatementPart,
        NodeKind::WaitStatement => Kind::WaitStatement,
        NodeKind::ParenthesizedProcessSensitivityList => Kind::ParenthesizedProcessSensitivityList,
        NodeKind::AllSensitivityList => Kind::AllSensitivityList,
        NodeKind::ProcessPreamble => Kind::ProcessPreamble,
        NodeKind::SensitivityList => Kind::SensitivityList,
        NodeKind::SensitivityClause => Kind::SensitivityClause,
        NodeKind::NameTarget => Kind::NameTarget,
        NodeKind::Name => Kind::Name,
        NodeKind::NameDesignatorPrefix => Kind::NameDesignatorPrefix,
        NodeKind::ConcurrentSimpleSignalAssignment => Kind::ConcurrentSimpleSignalAssignment,
        NodeKind::ConcurrentConditionalSignalAssignment => Kind::ConcurrentConditionalSignalAssignment,
        NodeKind::ConcurrentSelectedSignalAssignment => Kind::ConcurrentSelectedSignalAssignment,
        NodeKind::SimpleWaveformAssignment => Kind::SimpleWaveformAssignment,
        NodeKind::ConditionalWaveformAssignment => Kind::ConditionalWaveformAssignment,
        NodeKind::SelectedWaveformAssignment => Kind::SelectedWaveformAssignment,
        NodeKind::SimpleForceAssignment => Kind::SimpleForceAssignment,
        NodeKind::ConditionalForceAssignment => Kind::ConditionalForceAssignment,
        NodeKind::SimpleVariableAssignment => Kind::SimpleVariableAssignment,
        NodeKind::ConditionalVariableAssignment => Kind::ConditionalVariableAssignment,
        NodeKind::SelectedVariableAssignment => Kind::SelectedVariableAssignment,
        NodeKind::IfStatement => Kind::IfStatement,
        NodeKind::IfStatementElsif => Kind::IfStatementElsif,
        NodeKind::IfStatementElse => Kind::IfStatementElse,
        NodeKind::CaseStatement => Kind::CaseStatement,
        NodeKind::CaseStatementAlternative => Kind::CaseStatementAlternative,
        NodeKind::LoopStatement => Kind::LoopStatement,
        NodeKind::LoopStatementPreamble => Kind::LoopStatementPreamble,
        NodeKind::SequenceOfStatements => Kind::SequenceOfStatements,
        NodeKind::VariableDeclaration => Kind::VariableDeclaration,
        NodeKind::SignalDeclaration => Kind::SignalDeclaration,
        NodeKind::EntityDeclaration => Kind::EntityDeclaration,
        NodeKind::ComponentDeclaration => Kind::ComponentDeclaration,
        NodeKind::PortClause => Kind::PortClause,
        NodeKind::InterfaceObjectDeclaration => Kind::InterfaceObjectDeclaration,
        NodeKind::ComponentInstantiationStatement => Kind::ComponentInstantiationStatement,
        NodeKind::InstantiatedEntity => Kind::InstantiatedEntity,
        NodeKind::PortMapAspect => Kind::PortMapAspect,
        NodeKind::AssociationElement => Kind::AssociationElement,
        NodeKind::Formal => Kind::Formal,
        NodeKind::ProcedureCallStatement => Kind::ProcedureCallStatement,
        NodeKind::ConcurrentProcedureCallOrComponentInstantiationStatement => Kind::ConcurrentProcedureCallOrComponentInstantiationStatement,
        NodeKind::FullTypeDeclaration => Kind::FullTypeDeclaration,
        NodeKind::EnumerationTypeDefinition => Kind::EnumerationTypeDefinition,
        NodeKind::ConstantDeclaration => Kind::ConstantDeclaration,
        NodeKind::CaseStatementPreamble => Kind::CaseStatementPreamble,
        NodeKind::CaseStatementAlternativePreamble => Kind::CaseStatementAlternativePreamble,
        NodeKind::ParenthesizedName => Kind::ParenthesizedName,
        NodeKind::ContextClause => Kind::ContextClause,
        NodeKind::LibraryClause => Kind::LibraryClause,
        NodeKind::UseClauseContextItem => Kind::UseClauseContextItem,
        NodeKind::BlockDeclarativePart => Kind::BlockDeclarativePart,
        NodeKind::ProcessDeclarativePart => Kind::ProcessDeclarativePart,
        NodeKind::PackageDeclarativePart => Kind::PackageDeclarativePart,
        NodeKind::PackageBodyDeclarativePart => Kind::PackageBodyDeclarativePart,
        NodeKind::SubprogramDeclarativePart => Kind::SubprogramDeclarativePart,
        NodeKind::ProtectedTypeBodyDeclarativePart => Kind::ProtectedTypeBodyDeclarativePart,
        NodeKind::ProtectedTypeDeclarativePart => Kind::ProtectedTypeDeclarativePart,
        NodeKind::EntityDeclarativePart => Kind::EntityDeclarativePart,
        NodeKind::InterfaceList => Kind::InterfaceList,
        NodeKind::GenericClause => Kind::GenericClause,
        NodeKind::AssociationList => Kind::AssociationList,
        NodeKind::GenericMapAspect => Kind::GenericMapAspect,
        NodeKind::BlockStatementPart => Kind::BlockStatementPart,
        _ => Kind::Other,
    }
}

fn tree(node: &SyntaxNode) -> Node {
    let elements = node
        .children_with_tokens()
        .map(|child| match child {
            Child::Node(n) => Element::Node(tree(&n)),
            Child::Token(t) => Element::Token(Token {
                text: String::from_utf8_lossy(t.text().as_bytes()).into_owned(),
                latin1: t.text().to_string(),
                offset: t.text_offset(),
            }),
        })
        .collect();
    Node {
        kind: kind_of(node.kind()),
        elements,
    }
}

fn classify_with(
    source: &str,
    path: &str,
    patterns: &[&str],
    libraries: &[&str],
    belongs_to: Option<Vec<String>>,
) -> Option<&'static str> {
    let (file, errors) = parse_with_standard(VHDLStandard::VHDL2008, source.as_bytes());
    assert!(errors.is_empty(), "test source must parse");
    let patterns: Vec<String> = patterns.iter().map(|p| (*p).to_owned()).collect();
    let libraries: Vec<String> = libraries.iter().map(|p| (*p).to_owned()).collect();
    classify(&tree(&file.raw()), source.as_bytes(), path, &patterns, &libraries, &belongs_to)
}

fn classified(source: &str, path: &str, patterns: &[&str]) -> Option<&'static str> {
    classify_with(source, path, patterns, &[], None)
}

const RTL: &str = "entity adder is\n  port (\n    a : in bit;\n    y : out bit\n  );\n\
                   end entity adder;\n\narchitecture rtl of adder is\nbegin\n  y <= a;\n\
                   end architecture rtl;\n";

#[test]
fn a_test_library_marks_its_files() {
    let of_file = Some(vec!["tb_lib".to_owned()]);
    assert_eq!(
        classify_with(RTL, "src/adder.vhd", &[], &["tb_lib"], of_file.clone()),
        Some("in a library listed in `vsg_rs: testbench_libraries`")
    );
    assert_eq!(classify_with(RTL, "src/adder.vhd", &[], &["other_lib"], of_file), None);
}

#[test]
fn real_rtl_is_not_a_testbench() {
    assert_eq!(classified(RTL, "src/adder.vhd", &[]), None);
}

#[test]
fn an_entity_without_ports_is_a_testbench() {
    let source = "entity tb is\nend entity tb;\n\narchitecture sim of tb is\nbegin\n\
                  end architecture sim;\n";
    assert!(classified(source, "src/thing.vhd", &[]).is_some());
}

#[test]
fn a_verification_library_is_a_testbench() {
    let source = format!("library vunit_lib;\n  use vunit_lib.run_pkg.all;\n\n{RTL}");
    assert_eq!(
        classified(&source, "src/adder.vhd", &[]),
        Some("uses a verification library")
    );
}

#[test]
fn names_and_directories_count() {
    assert!(classified(RTL, "test/adder.vhd", &[]).is_some());
    assert!(classified(RTL, "src/tb_adder.vhd", &[]).is_some());
    assert!(classified(RTL, "src/adder_tb.vhd", &[]).is_some());
    assert_eq!(classified(RTL, "src/testbed_helper.vhd", &[]), None);
}

#[test]
fn configuration_wins() {
    assert_eq!(
        classified(RTL, "verify/adder.vhd", &["verify/**"]),
        Some("listed in `vsg_rs: testbench_files`")
    );
}

#[test]
fn the_directive_marks_one_file() {
    let source = format!("-- vsg-rs: testbench\n{RTL}");
    assert_eq!(
        classified(&source, "src/adder.vhd", &[]),
        Some("marked with `-- vsg-rs: testbench`")
    );
}

#[test]
fn each_reason_in_its_order() {
    assert_eq!(classified(RTL, "./verify/adder.vhd", &["verify/*.vhd"]), Some("listed in `vsg_rs: testbench_files`"));
    assert_eq!(classified(RTL, "test/adder.vhd", &[]), Some("named like a testbench"));
    let source = "entity tb is\nend entity tb;\n";
    assert_eq!(classified(source, "src/thing.vhd", &[]), Some("declares an entity with no ports"));
    // A comment mentioning a framework is not code.
    let commented = format!("-- see osvvm\n{RTL}");
    assert_eq!(classified(&commented, "src/adder.vhd", &[]), None);
}
