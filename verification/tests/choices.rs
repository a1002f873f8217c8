use std::path::PathBuf;

use vhdl_syntax::parser::parse_with_standard;
use vhdl_syntax::standard::VHDLStandard;
use vhdl_syntax::syntax::child::Child;
use vhdl_syntax::syntax::{AstNode, NodeKind, SyntaxNode};
use vsg_rs::analysis::choices::check;
use vsg_rs::analysis::lint::Finding;
use vsg_rs::analysis::syntax::{Element, Kind, Node, Token};

fn kind_of(kind: NodeKind) -> Kind {
    match kind {
        NodeKind::ArchitectureBody => Kind::ArchitectureBody,
        NodeKind::ArchitectureDeclarativePart => Kind::ArchitectureDeclarativePart,
        NodeKind::ArchitectureStatementPart => Kind::ArchitectureStatementPart,
        NodeKind::AttributeName => Kind::AttributeName,
        NodeKind::IfGenerateStatement => Kind::IfGenerateStatement,
        NodeKind::CaseGenerateStatement => Kind::CaseGenerateStatement,
        NodeKind::ForGenerateStatement => Kind::ForGenerateStatement,
        NodeKind::GenerateStatementBody => Kind::GenerateStatementBody,
        NodeKind::ProcessStatement => Kind::ProcessStatement,
        NodeKind::ProcessStatementPart => Kind::ProcessStatementPart,
        NodeKind::WaitStatement => Kind::WaitStatement,
        NodeKind::ParenthesizedProcessSensitivityList => Kind::ParenthesizedProcessSensitivityList,
        NodeKind::AllSensitivityList => Kind::AllSensitivityList,
        NodeKind::ProcessPreamble => Kind::ProcessPreamble,
        NodeKind::SensitivityList => Kind::SensitivityList,
        NodeKind::SensitivityClause => Kind::SensitivityClause,
        NodeKind::NameTarget => Kind::NameTarget,
        NodeKind::Name => Kind::Name,
        NodeKind::NameDesignatorPrefix => Kind::NameDesignatorPrefix,
        NodeKind::ConcurrentSimpleSignalAssignment => Kind::ConcurrentSimpleSignalAssignment,
        NodeKind::ConcurrentConditionalSignalAssignment => Kind::ConcurrentConditionalSignalAssignment,
        NodeKind::ConcurrentSelectedSignalAssignment => Kind::ConcurrentSelectedSignalAssignment,
        NodeKind::SimpleWaveformAssignment => Kind::SimpleWaveformAssignment,
        NodeKind::ConditionalWaveformAssignment => Kind::ConditionalWaveformAssignment,
        NodeKind::SelectedWaveformAssignment => Kind::SelectedWaveformAssignment,
        NodeKind::SimpleForceAssignment => Kind::SimpleForceAssignment,
        NodeKind::ConditionalForceAssignment => Kind::ConditionalForceAssignment,
        NodeKind::SimpleVariableAssignment => Kind::SimpleVariableAssignment,
        NodeKind::ConditionalVariableAssignment => Kind::ConditionalVariableAssignment,
        NodeKind::SelectedVariableAssignment => Kind::SelectedVariableAssignment,
        NodeKind::IfStatement => Kind::IfStatement,
        NodeKind::IfStatementElsif => Kind::IfStatementElsif,
        NodeKind::IfStatementElse => Kind::IfStatementElse,
        NodeKind::CaseStatement => Kind::CaseStatement,
        NodeKind::CaseStatementAlternative => Kind::CaseStatementAlternative,
        NodeKind::LoopStatement => Kind::LoopStatement,
        NodeKind::LoopStatementPreamble => Kind::LoopStatementPreamble,
        NodeKind::SequenceOfStatements => Kind::SequenceOfStatements,
        NodeKind::VariableDeclaration => Kind::VariableDeclaration,
        NodeKind::SignalDeclaration => Kind::SignalDeclaration,
        NodeKind::EntityDeclaration => Kind::EntityDeclaration,
        NodeKind::ComponentDeclaration => Kind::ComponentDeclaration,
        NodeKind::PortClause => Kind::PortClause,
        NodeKind::InterfaceObjectDeclaration => Kind::InterfaceObjectDeclaration,
        NodeKind::ComponentInstantiationStatement => Kind::ComponentInstantiationStatement,
        NodeKind::InstantiatedEntity => Kind::InstantiatedEntity,
        NodeKind::PortMapAspect => Kind::PortMapAspect,
        NodeKind::AssociationElement => Kind::AssociationElement,
        NodeKind::Formal => Kind::Formal,
        NodeKind::ProcedureCallStatement => Kind::ProcedureCallStatement,
        NodeKind::ConcurrentProcedureCallOrComponentInstantiationStatement => Kind::ConcurrentProcedureCallOrComponentInstantiationStatement,
        NodeKind::FullTypeDeclaration => Kind::FullTypeDeclaration,
        NodeKind::EnumerationTypeDefinition => Kind::EnumerationTypeDefinition,
        NodeKind::ConstantDeclaration => Kind::ConstantDeclaration,
        NodeKind::CaseStatementPreamble => Kind::CaseStatementPreamble,
        NodeKind::CaseStatementAlternativePreamble => Kind::CaseStatementAlternativePreamble,
        NodeKind::ParenthesizedName => Kind::ParenthesizedName,
        NodeKind::ContextClause => Kind::ContextClause,
        NodeKind::LibraryClause => Kind::LibraryClause,
        NodeKind::UseClauseContextItem => Kind::UseClauseContextItem,
        NodeKind::BlockDeclarativePart => Kind::BlockDeclarativePart,
        NodeKind::ProcessDeclarativePart => Kind::ProcessDeclarativePart,
        NodeKind::PackageDeclarativePart => Kind::PackageDeclarativePart,
        NodeKind::PackageBodyDeclarativePart => Kind::PackageBodyDeclarativePart,
        NodeKind::SubprogramDeclarativePart => Kind::SubprogramDeclarativePart,
        NodeKind::ProtectedTypeBodyDeclarativePart => Kind::ProtectedTypeBodyDeclarativePart,
        NodeKind::ProtectedTypeDeclarativePart => Kind::ProtectedTypeDeclarativePart,
        NodeKind::EntityDeclarativePart => Kind::EntityDeclarativePart,
        NodeKind::InterfaceList => Kind::InterfaceList,
        NodeKind::GenericClause => Kind::GenericClause,
        NodeKind::AssociationList => Kind::AssociationList,
        NodeKind::GenericMapAspect => Kind::GenericMapAspect,
        NodeKind::BlockStatementPart => Kind::BlockStatementPart,
        _ => Kind::Other,
    }
}

fn tree(node: &SyntaxNode) -> Node {
    let elements = node
        .children_with_tokens()
        .map(|child| match child {
            Child::Node(n) => Element::Node(tree(&n)),
            Child::Token(t) => Element::Token(Token {
                text: String::from_utf8_lossy(t.text().as_bytes()).into_owned(),
                latin1: t.text().to_string(),
                offset: t.text_offset(),
            }),
        })
        .collect();
    Node {
        kind: kind_of(node.kind()),
        elements,
    }
}

fn check_all(source: &str) -> Vec<Finding> {
    let (file, errors) = parse_with_standard(VHDLStandard::VHDL2008, source.as_bytes());
    assert!(errors.is_empty(), "test source must parse");
    check(&tree(&file.raw()), source.as_bytes(), &PathBuf::from("dut.vhd"))
}

/// The messages of one rule only, since the two rules of this module partition the `others`
/// alternatives between them.
fn check_rule(source: &str, rule: &str) -> Vec<String> {
    check_all(source)
        .into_iter()
        .filter(|f| f.rule == rule)
        .map(|f| f.message)
        .collect()
}

fn check_source(source: &str) -> Vec<String> {
    check_all(source).into_iter().map(|f| f.message).collect()
}

/// An architecture around `declarations` and `body`.
fn architecture(declarations: &str, body: &str) -> String {
    format!(
        "entity dut is\nend entity dut;\n\narchitecture rtl of dut is\n{declarations}\
         begin\n  process (clk) is\n  begin\n{body}  end process;\nend architecture rtl;\n"
    )
}

const STATE: &str = "  type state_t is (idle, run, done);\n  signal state : state_t;\n";

#[test]
fn every_value_named_and_then_others() {
    let found = check_source(&architecture(
        STATE,
        "    case state is\n      when idle => null;\n      when run => null;\n      \
         when done => null;\n      when others => null;\n    end case;\n",
    ));
    assert_eq!(found.len(), 1, "{found:?}");
    assert!(found[0].contains("can never be taken"), "{found:?}");
    assert!(found[0].contains("all 3 values of 'state'"), "{found:?}");
}

#[test]
fn an_others_that_hides_values_is_the_policy_rule() {
    // `done` is only reachable through `others`. That is not a dead branch, so lint_712 has
    // nothing to say; it is lint_713's business, and lint_713 is off unless asked for.
    let found = check_rule(
        &architecture(
            STATE,
            "    case state is\n      when idle => null;\n      when run => null;\n      \
             when others => null;\n    end case;\n",
        ),
        "lint_713",
    );
    assert_eq!(found.len(), 1, "{found:?}");
    assert!(found[0].contains("covers 1 of the values"), "{found:?}");
    assert!(found[0].contains("done"), "{found:?}");
}

#[test]
fn an_exhaustive_case_without_others_is_not_reported() {
    let found = check_source(&architecture(
        STATE,
        "    case state is\n      when idle => null;\n      when run => null;\n      \
         when done => null;\n    end case;\n",
    ));
    assert!(found.is_empty(), "{found:?}");
}

#[test]
fn alternatives_may_group_their_choices() {
    let found = check_source(&architecture(
        STATE,
        "    case state is\n      when idle | run => null;\n      when done => null;\n      \
         when others => null;\n    end case;\n",
    ));
    assert_eq!(found.len(), 1, "{found:?}");
}

#[test]
fn a_case_on_something_else_is_left_alone() {
    // The selector is not an enumeration this file declares, so nothing is known about how
    // many values it has.
    let found = check_source(&architecture(
        "  signal byte : bit_vector(7 downto 0);\n",
        "    case byte is\n      when \"00000000\" => null;\n      when others => null;\n    \
         end case;\n",
    ));
    assert!(found.is_empty(), "{found:?}");
}

#[test]
fn a_choice_that_is_not_a_plain_value_disqualifies_the_case() {
    // `idle to done` is a range: whether the named choices cover the type is not something
    // this module works out, so it says nothing rather than guessing.
    let found = check_source(&architecture(
        STATE,
        "    case state is\n      when idle to done => null;\n      when others => null;\n    \
         end case;\n",
    ));
    assert!(found.is_empty(), "{found:?}");
}

#[test]
fn a_process_variable_of_an_architecture_type_counts() {
    let source = "entity dut is\nend entity dut;\n\narchitecture rtl of dut is\n  type state_t is (idle, run, done);\nbegin\n  process is\n    variable state : state_t;\n  begin\n    case state is\n      when idle => null;\n      when run => null;\n      when done => null;\n      when others => null;\n    end case;\n  end process;\nend architecture rtl;\n";
    assert_eq!(check_source(source).len(), 1);
}

#[test]
fn one_name_declared_with_two_types_is_ambiguous() {
    // Each process has its own `state`, of a different type. Which one the case selects is
    // not something a flat name map can answer, so neither case is judged.
    let source = "entity dut is\nend entity dut;\n\narchitecture rtl of dut is\n  type small_t is (idle, run);\n  type big_t is (idle, run, done);\nbegin\n  a : process is\n    variable state : small_t;\n  begin\n    case state is\n      when idle => null;\n      when run => null;\n      when others => null;\n    end case;\n  end process;\n  b : process is\n    variable state : big_t;\n  begin\n    case state is\n      when idle => null;\n      when others => null;\n    end case;\n  end process;\nend architecture rtl;\n";
    let found = check_source(source);
    assert!(found.is_empty(), "{found:?}");
}

#[test]
fn the_others_messages_are_exact() {
    let dead = check_all(&architecture(
        STATE,
        "    case state is\n      when idle => null;\n      when run => null;\n      \
         when done => null;\n      when others => null;\n    end case;\n",
    ));
    assert_eq!(dead.len(), 1);
    assert_eq!(dead[0].rule, "lint_712");
    assert_eq!((dead[0].line, dead[0].column), (14, 7));
    assert_eq!(
        dead[0].message,
        "'when others' can never be taken: the other alternatives already name all 3 values of \
         'state'. Removing it makes adding a value a compile error instead of a silent \
         fall-through."
    );
    let hiding = check_all(&architecture(
        STATE,
        "    case state is\n      when idle => null;\n      when others => null;\n    \
         end case;\n",
    ));
    assert_eq!(hiding.len(), 1);
    assert_eq!(hiding[0].rule, "lint_713");
    assert_eq!(
        hiding[0].message,
        "'when others' covers 2 of the values of 'state' (run, done). Naming each one makes \
         adding a value a compile error rather than a silent fall-through."
    );
}
