use std::path::PathBuf;

use vhdl_syntax::parser::parse_with_standard;
use vhdl_syntax::standard::VHDLStandard;
use vhdl_syntax::syntax::child::Child;
use vhdl_syntax::syntax::{AstNode, NodeKind, SyntaxNode};
use vsg_rs::analysis::fsm::check;
use vsg_rs::analysis::lint::Finding;
use vsg_rs::analysis::syntax::{Element, Kind, Node, Token};

fn kind_of(kind: NodeKind) -> Kind {
    match kind {
        NodeKind::ArchitectureBody => Kind::ArchitectureBody,
        NodeKind::ArchitectureDeclarativePart => Kind::ArchitectureDeclarativePart,
        NodeKind::ArchitectureStatementPart => Kind::ArchitectureStatementPart,
        NodeKind::AttributeName => Kind::AttributeName,
        NodeKind::IfGenerateStatement => Kind::IfGenerateStatement,
        NodeKind::CaseGenerateStatement => Kind::CaseGenerateStatement,
        NodeKind::ForGenerateStatement => Kind::ForGenerateStatement,
        NodeKind::GenerateStatementBody => Kind::GenerateStatementBody,
        NodeKind::ProcessStatement => Kind::ProcessStatement,
        NodeKind::ProcessStatementPart => Kind::ProcessStatementPart,
        NodeKind::WaitStatement => Kind::WaitStatement,
        NodeKind::ParenthesizedProcessSensitivityList => Kind::ParenthesizedProcessSensitivityList,
        NodeKind::AllSensitivityList => Kind::AllSensitivityList,
        NodeKind::ProcessPreamble => Kind::ProcessPreamble,
        NodeKind::SensitivityList => Kind::SensitivityList,
        NodeKind::SensitivityClause => Kind::SensitivityClause,
        NodeKind::NameTarget => Kind::NameTarget,
        NodeKind::Name => Kind::Name,
        NodeKind::NameDesignatorPrefix => Kind::NameDesignatorPrefix,
        NodeKind::ConcurrentSimpleSignalAssignment => Kind::ConcurrentSimpleSignalAssignment,
        NodeKind::ConcurrentConditionalSignalAssignment => Kind::ConcurrentConditionalSignalAssignment,
        NodeKind::ConcurrentSelectedSignalAssignment => Kind::ConcurrentSelectedSignalAssignment,
        NodeKind::SimpleWaveformAssignment => Kind::SimpleWaveformAssignment,
        NodeKind::ConditionalWaveformAssignment => Kind::ConditionalWaveformAssignment,
        NodeKind::SelectedWaveformAssignment => Kind::SelectedWaveformAssignment,
        NodeKind::SimpleForceAssignment => Kind::SimpleForceAssignment,
        NodeKind::ConditionalForceAssignment => Kind::ConditionalForceAssignment,
        NodeKind::SimpleVariableAssignment => Kind::SimpleVariableAssignment,
        NodeKind::ConditionalVariableAssignment => Kind::ConditionalVariableAssignment,
        NodeKind::SelectedVariableAssignment => Kind::SelectedVariableAssignment,
        NodeKind::IfStatement => Kind::IfStatement,
        NodeKind::IfStatementElsif => Kind::IfStatementElsif,
        NodeKind::IfStatementElse => Kind::IfStatementElse,
        NodeKind::CaseStatement => Kind::CaseStatement,
        NodeKind::CaseStatementAlternative => Kind::CaseStatementAlternative,
        NodeKind::LoopStatement => Kind::LoopStatement,
        NodeKind::LoopStatementPreamble => Kind::LoopStatementPreamble,
        NodeKind::SequenceOfStatements => Kind::SequenceOfStatements,
        NodeKind::VariableDeclaration => Kind::VariableDeclaration,
        NodeKind::SignalDeclaration => Kind::SignalDeclaration,
        NodeKind::EntityDeclaration => Kind::EntityDeclaration,
        NodeKind::ComponentDeclaration => Kind::ComponentDeclaration,
        NodeKind::PortClause => Kind::PortClause,
        NodeKind::InterfaceObjectDeclaration => Kind::InterfaceObjectDeclaration,
        NodeKind::ComponentInstantiationStatement => Kind::ComponentInstantiationStatement,
        NodeKind::InstantiatedEntity => Kind::InstantiatedEntity,
        NodeKind::PortMapAspect => Kind::PortMapAspect,
        NodeKind::AssociationElement => Kind::AssociationElement,
        NodeKind::Formal => Kind::Formal,
        NodeKind::ProcedureCallStatement => Kind::ProcedureCallStatement,
        NodeKind::ConcurrentProcedureCallOrComponentInstantiationStatement => Kind::ConcurrentProcedureCallOrComponentInstantiationStatement,
        NodeKind::FullTypeDeclaration => Kind::FullTypeDeclaration,
        NodeKind::EnumerationTypeDefinition => Kind::EnumerationTypeDefinition,
        NodeKind::ConstantDeclaration => Kind::ConstantDeclaration,
        NodeKind::CaseStatementPreamble => Kind::CaseStatementPreamble,
        NodeKind::CaseStatementAlternativePreamble => Kind::CaseStatementAlternativePreamble,
        NodeKind::ParenthesizedName => Kind::ParenthesizedName,
        NodeKind::ContextClause => Kind::ContextClause,
        NodeKind::LibraryClause => Kind::LibraryClause,
        NodeKind::UseClauseContextItem => Kind::UseClauseContextItem,
        NodeKind::BlockDeclarativePart => Kind::BlockDeclarativePart,
        NodeKind::ProcessDeclarativePart => Kind::ProcessDeclarativePart,
        NodeKind::PackageDeclarativePart => Kind::PackageDeclarativePart,
        NodeKind::PackageBodyDeclarativePart => Kind::PackageBodyDeclarativePart,
        NodeKind::SubprogramDeclarativePart => Kind::SubprogramDeclarativePart,
        NodeKind::ProtectedTypeBodyDeclarativePart => Kind::ProtectedTypeBodyDeclarativePart,
        NodeKind::ProtectedTypeDeclarativePart => Kind::ProtectedTypeDeclarativePart,
        NodeKind::EntityDeclarativePart => Kind::EntityDeclarativePart,
        NodeKind::InterfaceList => Kind::InterfaceList,
        NodeKind::GenericClause => Kind::GenericClause,
        NodeKind::AssociationList => Kind::AssociationList,
        NodeKind::GenericMapAspect => Kind::GenericMapAspect,
        NodeKind::BlockStatementPart => Kind::BlockStatementPart,
        _ => Kind::Other,
    }
}

fn tree(node: &SyntaxNode) -> Node {
    let elements = node
        .children_with_tokens()
        .map(|child| match child {
            Child::Node(n) => Element::Node(tree(&n)),
            Child::Token(t) => Element::Token(Token {
                text: String::from_utf8_lossy(t.text().as_bytes()).into_owned(),
                latin1: t.text().to_string(),
                offset: t.text_offset(),
            }),
        })
        .collect();
    Node {
        kind: kind_of(node.kind()),
        elements,
    }
}

fn check_all(source: &str) -> Vec<Finding> {
    let (file, errors) = parse_with_standard(VHDLStandard::VHDL2008, source.as_bytes());
    assert!(errors.is_empty(), "test source must parse");
    check(&tree(&file.raw()), source.as_bytes(), &PathBuf::from("dut.vhd"))
}

fn check_source(source: &str) -> Vec<(&'static str, String)> {
    check_all(source).into_iter().map(|f| (f.rule, f.message)).collect()
}

/// A machine over `idle`, `run`, `done` and `orphan`, with the alternatives the test gives.
fn machine(body: &str) -> String {
    format!(
        "entity dut is\nend entity dut;\n\narchitecture rtl of dut is\n\n  \
         type state_t is (idle, run, done, orphan);\n\n  signal state : state_t;\n  \
         signal clk, go : bit;\n\nbegin\n\n  p : process (clk) is\n  begin\n    \
         if rising_edge(clk) then\n      case state is\n{body}      end case;\n    \
         end if;\n  end process p;\n\nend architecture rtl;\n"
    )
}

#[test]
fn a_state_nothing_assigns_is_unreachable() {
    let found = check_source(&machine(
        "        when idle =>\n          if go = '1' then\n            state <= run;\n          \
         end if;\n        when run =>\n          state <= done;\n        when done =>\n          \
         state <= idle;\n        when orphan =>\n          state <= idle;\n",
    ));
    let unreachable: Vec<&String> = found
        .iter()
        .filter(|(rule, _)| *rule == "lint_710")
        .map(|(_, message)| message)
        .collect();
    assert_eq!(unreachable.len(), 1, "{found:?}");
    assert!(unreachable[0].contains("'orphan'"), "{unreachable:?}");
}

#[test]
fn a_state_that_never_leaves_is_reported() {
    let found = check_source(&machine(
        "        when idle =>\n          state <= run;\n        when run =>\n          \
         state <= done;\n        when done =>\n          null;\n        when orphan =>\n          \
         state <= idle;\n",
    ));
    let stuck: Vec<&String> = found
        .iter()
        .filter(|(rule, _)| *rule == "lint_711")
        .map(|(_, message)| message)
        .collect();
    assert_eq!(stuck.len(), 1, "{found:?}");
    assert!(stuck[0].contains("'done'"), "{stuck:?}");
}

#[test]
fn a_complete_machine_is_quiet() {
    let found = check_source(&machine(
        "        when idle =>\n          if go = '1' then\n            state <= run;\n          \
         end if;\n        when run =>\n          state <= done;\n        when done =>\n          \
         state <= orphan;\n        when orphan =>\n          state <= idle;\n",
    ));
    assert!(found.is_empty(), "{found:?}");
}

#[test]
fn a_state_computed_rather_than_named_is_not_guessed_at() {
    let found = check_source(&machine(
        "        when idle =>\n          state <= run;\n        when run =>\n          \
         state <= done;\n        when done =>\n          state <= next_state(state);\n        \
         when orphan =>\n          state <= idle;\n",
    ));
    assert!(found.is_empty(), "{found:?}");
}

#[test]
fn a_case_that_only_chooses_an_output_is_not_transition_logic() {
    let source = "entity dut is\nend entity dut;\n\narchitecture rtl of dut is\n\n  \
                  type state_t is (idle, run, done);\n\n  signal state : state_t;\n  \
                  signal clk, go, y : bit;\n\nbegin\n\n  p : process (clk) is\n  begin\n    \
                  if rising_edge(clk) then\n      if go = '1' then\n        state <= run;\n      \
                  else\n        state <= idle;\n      end if;\n      if go = '0' then\n        \
                  state <= done;\n      end if;\n      case state is\n        when idle =>\n          \
                  y <= '0';\n        when run =>\n          y <= '1';\n        when done =>\n          \
                  y <= '0';\n      end case;\n    end if;\n  end process p;\n\n\
                  end architecture rtl;\n";
    let found = check_source(source);
    assert!(
        !found.iter().any(|(rule, _)| *rule == "lint_711"),
        "a multiplexer, not a machine: {found:?}"
    );
}

#[test]
fn a_process_without_a_clock_is_not_a_state_machine() {
    let source = "entity dut is\nend entity dut;\n\narchitecture rtl of dut is\n\n  \
                  type state_t is (idle, run, orphan);\n\n  signal state : state_t;\n  \
                  signal go : bit;\n\nbegin\n\n  p : process (go) is\n  begin\n    \
                  case state is\n      when idle =>\n        state <= run;\n      \
                  when others =>\n        state <= idle;\n    end case;\n  \
                  end process p;\n\nend architecture rtl;\n";
    assert!(check_source(source).is_empty(), "no register, no machine");
}

#[test]
fn state_messages_in_full() {
    let found = check_all(&machine(
        "        when idle =>\n          state <= run;\n        when run =>\n          \
         state <= done;\n        when done =>\n          null;\n        when orphan =>\n          \
         state <= idle;\n",
    ));
    let messages: Vec<(&str, &str)> = found.iter().map(|f| (f.rule, f.message.as_str())).collect();
    assert!(messages.contains(&(
        "lint_710",
        "State 'orphan' of 'state_t' is never entered: nothing assigns it"
    )));
    assert!(messages.contains(&(
        "lint_711",
        "State 'done' of 'state_t' has no exit: its alternative never assigns another state"
    )));
    // Sorted by place.
    assert!(found.windows(2).all(|w| (w[0].line, w[0].column) <= (w[1].line, w[1].column)));
}
