use std::path::PathBuf;

use vhdl_syntax::parser::parse_with_standard;
use vhdl_syntax::standard::VHDLStandard;
use vhdl_syntax::syntax::child::Child;
use vhdl_syntax::syntax::{AstNode, NodeKind, SyntaxNode};
use vsg_rs::analysis::evaluated::check;
use vsg_rs::analysis::syntax::all_tokens;
use vsg_rs::analysis::lint::Finding;
use vsg_rs::analysis::syntax::{Element, Kind, Node, Token};

fn kind_of(kind: NodeKind) -> Kind {
    match kind {
        NodeKind::ArchitectureBody => Kind::ArchitectureBody,
        NodeKind::ArchitectureDeclarativePart => Kind::ArchitectureDeclarativePart,
        NodeKind::ArchitectureStatementPart => Kind::ArchitectureStatementPart,
        NodeKind::AttributeName => Kind::AttributeName,
        NodeKind::IfGenerateStatement => Kind::IfGenerateStatement,
        NodeKind::CaseGenerateStatement => Kind::CaseGenerateStatement,
        NodeKind::ForGenerateStatement => Kind::ForGenerateStatement,
        NodeKind::GenerateStatementBody => Kind::GenerateStatementBody,
        NodeKind::ProcessStatement => Kind::ProcessStatement,
        NodeKind::ProcessStatementPart => Kind::ProcessStatementPart,
        NodeKind::WaitStatement => Kind::WaitStatement,
        NodeKind::ParenthesizedProcessSensitivityList => Kind::ParenthesizedProcessSensitivityList,
        NodeKind::AllSensitivityList => Kind::AllSensitivityList,
        NodeKind::ProcessPreamble => Kind::ProcessPreamble,
        NodeKind::SensitivityList => Kind::SensitivityList,
        NodeKind::SensitivityClause => Kind::SensitivityClause,
        NodeKind::NameTarget => Kind::NameTarget,
        NodeKind::Name => Kind::Name,
        NodeKind::NameDesignatorPrefix => Kind::NameDesignatorPrefix,
        NodeKind::ConcurrentSimpleSignalAssignment => Kind::ConcurrentSimpleSignalAssignment,
        NodeKind::ConcurrentConditionalSignalAssignment => Kind::ConcurrentConditionalSignalAssignment,
        NodeKind::ConcurrentSelectedSignalAssignment => Kind::ConcurrentSelectedSignalAssignment,
        NodeKind::SimpleWaveformAssignment => Kind::SimpleWaveformAssignment,
        NodeKind::ConditionalWaveformAssignment => Kind::ConditionalWaveformAssignment,
        NodeKind::SelectedWaveformAssignment => Kind::SelectedWaveformAssignment,
        NodeKind::SimpleForceAssignment => Kind::SimpleForceAssignment,
        NodeKind::ConditionalForceAssignment => Kind::ConditionalForceAssignment,
        NodeKind::SimpleVariableAssignment => Kind::SimpleVariableAssignment,
        NodeKind::ConditionalVariableAssignment => Kind::ConditionalVariableAssignment,
        NodeKind::SelectedVariableAssignment => Kind::SelectedVariableAssignment,
        NodeKind::IfStatement => Kind::IfStatement,
        NodeKind::IfStatementElsif => Kind::IfStatementElsif,
        NodeKind::IfStatementElse => Kind::IfStatementElse,
        NodeKind::CaseStatement => Kind::CaseStatement,
        NodeKind::CaseStatementAlternative => Kind::CaseStatementAlternative,
        NodeKind::LoopStatement => Kind::LoopStatement,
        NodeKind::LoopStatementPreamble => Kind::LoopStatementPreamble,
        NodeKind::SequenceOfStatements => Kind::SequenceOfStatements,
        NodeKind::VariableDeclaration => Kind::VariableDeclaration,
        NodeKind::SignalDeclaration => Kind::SignalDeclaration,
        NodeKind::EntityDeclaration => Kind::EntityDeclaration,
        NodeKind::ComponentDeclaration => Kind::ComponentDeclaration,
        NodeKind::PortClause => Kind::PortClause,
        NodeKind::InterfaceObjectDeclaration => Kind::InterfaceObjectDeclaration,
        NodeKind::ComponentInstantiationStatement => Kind::ComponentInstantiationStatement,
        NodeKind::InstantiatedEntity => Kind::InstantiatedEntity,
        NodeKind::PortMapAspect => Kind::PortMapAspect,
        NodeKind::AssociationElement => Kind::AssociationElement,
        NodeKind::Formal => Kind::Formal,
        NodeKind::ProcedureCallStatement => Kind::ProcedureCallStatement,
        NodeKind::ConcurrentProcedureCallOrComponentInstantiationStatement => Kind::ConcurrentProcedureCallOrComponentInstantiationStatement,
        NodeKind::FullTypeDeclaration => Kind::FullTypeDeclaration,
        NodeKind::EnumerationTypeDefinition => Kind::EnumerationTypeDefinition,
        NodeKind::ConstantDeclaration => Kind::ConstantDeclaration,
        NodeKind::CaseStatementPreamble => Kind::CaseStatementPreamble,
        NodeKind::CaseStatementAlternativePreamble => Kind::CaseStatementAlternativePreamble,
        NodeKind::ParenthesizedName => Kind::ParenthesizedName,
        NodeKind::ContextClause => Kind::ContextClause,
        NodeKind::LibraryClause => Kind::LibraryClause,
        NodeKind::UseClauseContextItem => Kind::UseClauseContextItem,
        NodeKind::BlockDeclarativePart => Kind::BlockDeclarativePart,
        NodeKind::ProcessDeclarativePart => Kind::ProcessDeclarativePart,
        NodeKind::PackageDeclarativePart => Kind::PackageDeclarativePart,
        NodeKind::PackageBodyDeclarativePart => Kind::PackageBodyDeclarativePart,
        NodeKind::SubprogramDeclarativePart => Kind::SubprogramDeclarativePart,
        NodeKind::ProtectedTypeBodyDeclarativePart => Kind::ProtectedTypeBodyDeclarativePart,
        NodeKind::ProtectedTypeDeclarativePart => Kind::ProtectedTypeDeclarativePart,
        NodeKind::EntityDeclarativePart => Kind::EntityDeclarativePart,
        NodeKind::InterfaceList => Kind::InterfaceList,
        NodeKind::GenericClause => Kind::GenericClause,
        NodeKind::AssociationList => Kind::AssociationList,
        NodeKind::GenericMapAspect => Kind::GenericMapAspect,
        NodeKind::BlockStatementPart => Kind::BlockStatementPart,
        _ => Kind::Other,
    }
}

fn tree(node: &SyntaxNode) -> Node {
    let elements = node
        .children_with_tokens()
        .map(|child| match child {
            Child::Node(n) => Element::Node(tree(&n)),
            Child::Token(t) => Element::Token(Token {
                text: String::from_utf8_lossy(t.text().as_bytes()).into_owned(),
                latin1: t.text().to_string(),
                offset: t.text_offset(),
            }),
        })
        .collect();
    Node {
        kind: kind_of(node.kind()),
        elements,
    }
}

fn check_all(source: &str) -> Vec<Finding> {
    let (file, errors) = parse_with_standard(VHDLStandard::VHDL2008, source.as_bytes());
    assert!(errors.is_empty(), "test source must parse");
    let root = tree(&file.raw());
    // Whether each token reads as a number equal to zero, as the front end decides it.
    let zero: Vec<bool> = all_tokens(&root)
        .iter()
        .map(|t| t.text.parse::<f64>().is_ok_and(|v| v == 0.0))
        .collect();
    check(&root, source.as_bytes(), &PathBuf::from("dut.vhd"), &zero)
}

fn check_source(source: &str) -> Vec<String> {
    check_all(source).into_iter().map(|f| f.message).collect()
}

fn check_divisions(source: &str) -> Vec<String> {
    check_all(source)
        .into_iter()
        .filter(|f| f.rule == "lint_781")
        .map(|f| f.message)
        .collect()
}

/// An architecture declaring `declarations` whose body is `body`.
fn architecture(declarations: &str, body: &str) -> String {
    format!(
        "entity dut is\nend entity dut;\n\narchitecture rtl of dut is\n{declarations}\
         begin\n{body}end architecture rtl;\n"
    )
}

const VECTOR: &str = "  signal x : bit_vector(7 downto 0);\n  signal y : bit;\n";

/// A process whose body is `body`.
fn process(body: &str) -> String {
    format!(
        "entity dut is\nend entity dut;\n\narchitecture rtl of dut is\nbegin\n  \
         p : process is\n    variable n : integer := 7;\n  begin\n{body}    wait;\n  \
         end process p;\nend architecture rtl;\n"
    )
}

#[test]
fn an_index_past_the_end() {
    let found = check_source(&architecture(VECTOR, "  y <= x(8);\n"));
    assert_eq!(found.len(), 1, "{found:?}");
    assert!(found[0].contains("Index 8 is outside"), "{found:?}");
    assert!(found[0].contains("'x'"), "{found:?}");
}

#[test]
fn an_index_below_the_start() {
    let found = check_source(&architecture(
        "  signal x : bit_vector(3 to 7);\n  signal y : bit;\n",
        "  y <= x(2);\n",
    ));
    assert_eq!(found.len(), 1, "{found:?}");
}

#[test]
fn every_index_in_range_is_silent() {
    let found = check_source(&architecture(VECTOR, "  y <= x(7) xor x(0) xor x(3);\n"));
    assert!(found.is_empty(), "{found:?}");
}

#[test]
fn an_index_that_is_not_a_literal_is_not_evaluated() {
    // The answer depends on a value the rule does not have, so it does not invent one.
    let found = check_source(&architecture(
        "  signal x : bit_vector(7 downto 0);\n  signal y : bit;\n  \
         signal i : integer := 9;\n",
        "  y <= x(i);\n",
    ));
    assert!(found.is_empty(), "{found:?}");
}

#[test]
fn a_range_that_is_not_literal_is_not_evaluated() {
    // A generic decides this range. Evaluating it would mean evaluating generics, which is
    // exactly the guessing this layer refuses.
    let source = "entity dut is\n  generic (n : integer := 4);\nend entity dut;\n\n\
                  architecture rtl of dut is\n  signal x : bit_vector(n - 1 downto 0);\n  \
                  signal y : bit;\nbegin\n  y <= x(8);\nend architecture rtl;\n";
    assert!(check_source(source).is_empty());
}

#[test]
fn a_slice_is_not_an_index() {
    let found = check_source(&architecture(
        "  signal x : bit_vector(7 downto 0);\n  signal z : bit_vector(3 downto 0);\n",
        "  z <= x(3 downto 0);\n",
    ));
    assert!(found.is_empty(), "{found:?}");
}

#[test]
fn a_name_declared_twice_with_different_ranges_is_left_alone() {
    let source = "entity dut is\nend entity dut;\n\narchitecture rtl of dut is\n  \
                  signal x : bit_vector(7 downto 0);\n  signal y : bit;\nbegin\n  \
                  p : process is\n    variable x : bit_vector(15 downto 0);\n  begin\n    \
                  y <= x(8);\n    wait;\n  end process p;\nend architecture rtl;\n";
    assert!(check_source(source).is_empty());
}

#[test]
fn a_function_call_is_not_an_index() {
    // `f(8)` looks exactly like an index. It is read as one only when the prefix is an
    // object this file declares with a range.
    let found = check_source(&architecture(VECTOR, "  y <= f(8);\n"));
    assert!(found.is_empty(), "{found:?}");
}

#[test]
fn each_operator_with_a_zero_divisor() {
    let found = check_divisions(&process(
        "    n := n / 0;\n    n := n mod 0;\n    n := n rem 0;\n",
    ));
    assert_eq!(found.len(), 3, "{found:?}");
    assert!(found[0].starts_with("Division by zero"), "{found:?}");
    assert!(found[1].contains("`mod` by zero"), "{found:?}");
    assert!(found[2].contains("`rem` by zero"), "{found:?}");
}

#[test]
fn a_divisor_that_is_not_zero_is_silent() {
    let found = check_divisions(&process("    n := n / 2;\n    n := n mod 8;\n"));
    assert!(found.is_empty(), "{found:?}");
}

#[test]
fn a_named_divisor_is_not_evaluated() {
    // `zero` is zero, and seeing that needs the value propagated to the division. That is
    // the machinery this layer does without, so it says nothing.
    let source = "entity dut is\nend entity dut;\n\narchitecture rtl of dut is\n  \
                  constant zero : integer := 0;\nbegin\n  p : process is\n    \
                  variable n : integer := 7;\n  begin\n    n := n / zero;\n    wait;\n  \
                  end process p;\nend architecture rtl;\n";
    assert!(check_divisions(source).is_empty());
}

#[test]
fn inequality_is_not_a_division() {
    // `/=` is one token, not `/` followed by something.
    let found = check_divisions(&process("    if n /= 0 then\n      n := 1;\n    end if;\n"));
    assert!(found.is_empty(), "{found:?}");
}

#[test]
fn a_zero_that_is_not_a_divisor_is_silent() {
    let found = check_divisions(&process("    n := n + 0;\n    n := n - 0;\n"));
    assert!(found.is_empty(), "{found:?}");
}

#[test]
fn evaluated_messages_are_exact() {
    let found = check_all(&architecture(VECTOR, "  y <= x(8);\n"));
    assert_eq!(found.len(), 1);
    assert_eq!(found[0].rule, "lint_780");
    assert_eq!((found[0].line, found[0].column), (8, 8));
    assert_eq!(
        found[0].message,
        "Index 8 is outside the range 0 to 7 of 'x'. Evaluating this raises an error: an index \
         has to be within the array's range."
    );
    let negative = check_source(&architecture(
        "  signal x : bit_vector(3 to 7);\n  signal y : bit;\n",
        "  y <= x(-2);\n",
    ));
    assert_eq!(
        negative,
        vec![
            "Index -2 is outside the range 3 to 7 of 'x'. Evaluating this raises an error: an \
             index has to be within the array's range."
                .to_string()
        ]
    );
    let divided = check_all(&process("    n := n mod 0.0;\n"));
    assert_eq!(divided.len(), 1);
    assert_eq!(divided[0].rule, "lint_781");
    assert_eq!(
        divided[0].message,
        "`mod` by zero. Evaluating this raises an error: the right operand of `/`, `mod` and \
         `rem` may not be zero."
    );
}
