//! The syntax tree the design checks read, as plain values: a node is its kind and its
//! elements in source order, an element is a node or a token, and a token is its text and the
//! byte offset where it starts. Trivia (white space and comments) is not kept: no check reads it.
//!
//! Only the node kinds some check asks about have a name here; every other kind is `Other`,
//! which no check looks for.
use vstd::prelude::*;

use crate::chars::{chars_of, lowered, lower_all};
use vstd::string::StringExecFns;

verus! {

/// The kinds of syntax node the design checks look for.
#[derive(Clone, Copy, Debug, PartialEq, Eq, Structural)]
pub enum Kind {
    ArchitectureBody,
    ArchitectureDeclarativePart,
    ArchitectureStatementPart,
    AttributeName,
    IfGenerateStatement,
    CaseGenerateStatement,
    ForGenerateStatement,
    GenerateStatementBody,
    ProcessStatement,
    ProcessStatementPart,
    WaitStatement,
    ParenthesizedProcessSensitivityList,
    AllSensitivityList,
    ProcessPreamble,
    SensitivityList,
    SensitivityClause,
    NameTarget,
    Name,
    NameDesignatorPrefix,
    ConcurrentSimpleSignalAssignment,
    ConcurrentConditionalSignalAssignment,
    ConcurrentSelectedSignalAssignment,
    SimpleWaveformAssignment,
    ConditionalWaveformAssignment,
    SelectedWaveformAssignment,
    SimpleForceAssignment,
    ConditionalForceAssignment,
    SimpleVariableAssignment,
    ConditionalVariableAssignment,
    SelectedVariableAssignment,
    IfStatement,
    IfStatementElsif,
    IfStatementElse,
    CaseStatement,
    CaseStatementAlternative,
    LoopStatement,
    LoopStatementPreamble,
    SequenceOfStatements,
    VariableDeclaration,
    SignalDeclaration,
    EntityDeclaration,
    ComponentDeclaration,
    PortClause,
    InterfaceObjectDeclaration,
    ComponentInstantiationStatement,
    InstantiatedEntity,
    PortMapAspect,
    AssociationElement,
    Formal,
    ProcedureCallStatement,
    ConcurrentProcedureCallOrComponentInstantiationStatement,
    FullTypeDeclaration,
    EnumerationTypeDefinition,
    ConstantDeclaration,
    CaseStatementPreamble,
    CaseStatementAlternativePreamble,
    ParenthesizedName,
    ContextClause,
    LibraryClause,
    UseClauseContextItem,
    BlockDeclarativePart,
    ProcessDeclarativePart,
    PackageDeclarativePart,
    PackageBodyDeclarativePart,
    SubprogramDeclarativePart,
    ProtectedTypeBodyDeclarativePart,
    ProtectedTypeDeclarativePart,
    EntityDeclarativePart,
    InterfaceList,
    GenericClause,
    AssociationList,
    GenericMapAspect,
    BlockStatementPart,
    /// Any kind no check asks about.
    Other,
}

/// A token: its text as written, and the byte offset in the source where it starts. `text`
/// reads the token's bytes as UTF-8 (an invalid sequence becoming U+FFFD), `latin1` reads each
/// byte as the Latin-1 character it encodes; the two agree on ASCII.
#[derive(Debug)]
pub struct Token {
    pub text: String,
    pub latin1: String,
    pub offset: usize,
}

/// What a node holds: another node, or a token.
#[derive(Debug)]
pub enum Element {
    Node(Node),
    Token(Token),
}

/// A syntax node: its kind and its elements in source order.
#[derive(Debug)]
pub struct Node {
    pub kind: Kind,
    pub elements: Vec<Element>,
}

/// The nodes among the first `i` elements of `n`.
pub open spec fn children_upto(n: Node, i: int) -> Seq<Node>
    decreases i,
{
    if i <= 0 || i > n.elements@.len() {
        Seq::empty()
    } else {
        children_upto(n, i - 1) + match n.elements@[i - 1] {
            Element::Node(c) => seq![c],
            Element::Token(_) => Seq::empty(),
        }
    }
}

/// The nodes `n` holds directly, in order.
pub open spec fn spec_children(n: Node) -> Seq<Node> {
    children_upto(n, n.elements@.len() as int)
}

/// The nodes of kind `k` below `n` (not `n` itself), each before the nodes it holds, in source
/// order.
pub open spec fn spec_find(n: Node, k: Kind) -> Seq<Node>
    decreases n, 1int, 0int,
{
    find_upto(n, k, n.elements@.len() as int)
}

/// The nodes of kind `k` below the first `i` elements of `n`, those elements included.
pub open spec fn find_upto(n: Node, k: Kind, i: int) -> Seq<Node>
    decreases n, 0int, i,
{
    if i <= 0 || i > n.elements@.len() {
        Seq::empty()
    } else {
        find_upto(n, k, i - 1) + match n.elements@[i - 1] {
            Element::Node(c) => {
                proof {
                    lemma_child_decreases(n, i - 1);
                }
                (if c.kind == k {
                    seq![c]
                } else {
                    Seq::empty()
                }) + spec_find(c, k)
            },
            Element::Token(_) => Seq::empty(),
        }
    }
}

/// Every token under `n`, in order.
pub open spec fn spec_tokens(n: Node) -> Seq<Token>
    decreases n, 1int, 0int,
{
    tokens_upto(n, n.elements@.len() as int)
}

/// The tokens under the first `i` elements of `n`.
pub open spec fn tokens_upto(n: Node, i: int) -> Seq<Token>
    decreases n, 0int, i,
{
    if i <= 0 || i > n.elements@.len() {
        Seq::empty()
    } else {
        tokens_upto(n, i - 1) + match n.elements@[i - 1] {
            Element::Node(c) => {
                proof {
                    lemma_child_decreases(n, i - 1);
                }
                spec_tokens(c)
            },
            Element::Token(t) => seq![t],
        }
    }
}

/// A child node is smaller than its parent.
pub proof fn lemma_child_decreases(n: Node, i: int)
    requires
        0 <= i < n.elements@.len(),
        n.elements@[i] is Node,
    ensures
        decreases_to!(n => n.elements@[i]->Node_0),
{
    assert(decreases_to!(n => n.elements));
    assert(decreases_to!(n.elements => n.elements@));
    assert(decreases_to!(n.elements@ => n.elements@[i]));
    assert(decreases_to!(n.elements@[i] => n.elements@[i]->Node_0));
}

/// The texts of `ts` in lower case, one after the other.
pub open spec fn texts(ts: Seq<Token>) -> Seq<char>
    decreases ts.len(),
{
    if ts.len() == 0 {
        Seq::empty()
    } else {
        texts(ts.drop_last()) + lowered(ts.last().text@)
    }
}

/// The text of a node, lower case, without trivia: enough to compare two assignment targets
/// without resolving either.
pub open spec fn spec_text_of(n: Node) -> Seq<char> {
    texts(spec_tokens(n))
}

/// The nodes some references point to.
pub open spec fn nodes_of(s: Seq<&Node>) -> Seq<Node> {
    s.map_values(|r: &Node| *r)
}

/// The tokens some references point to.
pub open spec fn tokens_of(s: Seq<&Token>) -> Seq<Token> {
    s.map_values(|r: &Token| *r)
}

fn find_into<'a>(n: &'a Node, k: Kind, out: &mut Vec<&'a Node>)
    ensures
        nodes_of(final(out)@) == nodes_of(old(out)@) + spec_find(*n, k),
    decreases n,
{
    let ghost start = nodes_of(out@);
    let mut i: usize = 0;
    while i < n.elements.len()
        invariant
            0 <= i <= n.elements@.len(),
            nodes_of(out@) == start + find_upto(*n, k, i as int),
        decreases n.elements@.len() - i,
    {
        match &n.elements[i] {
            Element::Node(c) => {
                proof {
                    lemma_child_decreases(*n, i as int);
                }
                let ghost before = nodes_of(out@);
                if c.kind == k {
                    out.push(c);
                    assert(nodes_of(out@) =~= before.push(*c));
                }
                find_into(c, k, out);
                assert(nodes_of(out@) =~= start + find_upto(*n, k, i + 1));
            },
            Element::Token(_) => {
                assert(find_upto(*n, k, i + 1) =~= find_upto(*n, k, i as int));
            },
        }
        i = i + 1;
    }
}

/// The nodes of kind `k` below `n`, each before the nodes it holds, in source order.
pub fn find<'a>(n: &'a Node, k: Kind) -> (r: Vec<&'a Node>)
    ensures
        nodes_of(r@) == spec_find(*n, k),
{
    let mut out: Vec<&'a Node> = Vec::new();
    find_into(n, k, &mut out);
    assert(nodes_of(Seq::<&Node>::empty()) =~= Seq::<Node>::empty());
    assert(Seq::<Node>::empty() + spec_find(*n, k) =~= spec_find(*n, k));
    out
}

/// The nodes `n` holds directly, in order.
pub fn children<'a>(n: &'a Node) -> (r: Vec<&'a Node>)
    ensures
        nodes_of(r@) == spec_children(*n),
{
    let mut out: Vec<&'a Node> = Vec::new();
    let mut i: usize = 0;
    while i < n.elements.len()
        invariant
            0 <= i <= n.elements@.len(),
            nodes_of(out@) == children_upto(*n, i as int),
        decreases n.elements@.len() - i,
    {
        let ghost before = nodes_of(out@);
        match &n.elements[i] {
            Element::Node(c) => {
                out.push(c);
                assert(nodes_of(out@) =~= before.push(*c));
            },
            Element::Token(_) => {},
        }
        assert(nodes_of(out@) =~= children_upto(*n, i + 1));
        i = i + 1;
    }
    out
}

fn tokens_into<'a>(n: &'a Node, out: &mut Vec<&'a Token>)
    ensures
        tokens_of(final(out)@) == tokens_of(old(out)@) + spec_tokens(*n),
    decreases n,
{
    let ghost start = tokens_of(out@);
    let mut i: usize = 0;
    while i < n.elements.len()
        invariant
            0 <= i <= n.elements@.len(),
            tokens_of(out@) == start + tokens_upto(*n, i as int),
        decreases n.elements@.len() - i,
    {
        let ghost before = tokens_of(out@);
        match &n.elements[i] {
            Element::Node(c) => {
                proof {
                    lemma_child_decreases(*n, i as int);
                }
                tokens_into(c, out);
            },
            Element::Token(t) => {
                out.push(t);
                assert(tokens_of(out@) =~= before.push(*t));
            },
        }
        assert(tokens_of(out@) =~= start + tokens_upto(*n, i + 1));
        i = i + 1;
    }
}

/// Every token under `n`, in order.
pub fn all_tokens<'a>(n: &'a Node) -> (r: Vec<&'a Token>)
    ensures
        tokens_of(r@) == spec_tokens(*n),
{
    let mut out: Vec<&'a Token> = Vec::new();
    tokens_into(n, &mut out);
    assert(tokens_of(Seq::<&Token>::empty()) =~= Seq::<Token>::empty());
    assert(Seq::<Token>::empty() + spec_tokens(*n) =~= spec_tokens(*n));
    out
}

proof fn lemma_texts_push(ts: Seq<Token>, t: Token)
    ensures
        texts(ts.push(t)) == texts(ts) + lowered(t.text@),
{
    assert(ts.push(t).drop_last() =~= ts);
}

/// The text of a token, in lower case.
pub fn lower_text(t: &Token) -> (r: Vec<char>)
    ensures
        r@ == lowered(t.text@),
{
    let v = chars_of(t.text.as_str());
    lower_all(&v)
}

/// The text of a node, lower case, without trivia.
pub fn text_of(n: &Node) -> (r: Vec<char>)
    ensures
        r@ == spec_text_of(*n),
{
    let ts = all_tokens(n);
    let mut out: Vec<char> = Vec::new();
    let mut i: usize = 0;
    while i < ts.len()
        invariant
            0 <= i <= ts@.len(),
            tokens_of(ts@) == spec_tokens(*n),
            out@ == texts(tokens_of(ts@).take(i as int)),
        decreases ts@.len() - i,
    {
        let low = lower_text(ts[i]);
        let mut j: usize = 0;
        let ghost before = out@;
        while j < low.len()
            invariant
                0 <= j <= low@.len(),
                out@ == before + low@.take(j as int),
            decreases low@.len() - j,
        {
            out.push(low[j]);
            j = j + 1;
            assert(out@ =~= before + low@.take(j as int));
        }
        proof {
            assert(low@.take(low@.len() as int) =~= low@);
            assert(tokens_of(ts@).take(i + 1) =~= tokens_of(ts@).take(i as int).push(*ts@[i as int]));
            lemma_texts_push(tokens_of(ts@).take(i as int), *ts@[i as int]);
        }
        i = i + 1;
    }
    assert(tokens_of(ts@).take(ts@.len() as int) =~= tokens_of(ts@));
    out
}

} // verus!
