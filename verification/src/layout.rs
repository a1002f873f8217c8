//! What formatting changes, token by token, and which VSG layout rule reports it.
//!
//! The formatted snapshot has the same tokens as the source, so the two token streams are
//! compared pairwise. Each difference in the whitespace before a token (indentation, spaces,
//! line breaks, blank lines, trailing whitespace, comment column) or in a keyword's case becomes
//! a [`LayoutChange`]. Keyword case maps to its VSG rule directly. The other kinds map to VSG
//! rules through a table learned by comparing with VSG's reports on real code; unknown changes
//! are reported under `format`.
use vstd::prelude::*;
use vstd::string::StringExecFns;

use crate::bytes::str_eq;
use crate::lsp::{lossy_text, utf8_lossy};
use crate::text::{count_newlines, line_start};

verus! {

#[derive(Debug, Clone, Copy, PartialEq, Eq, Structural)]
pub enum ChangeKind {
    /// The indentation of a line.
    Indent,
    /// Spaces between two tokens on one line.
    Spacing,
    /// A token moves to a new line.
    LineBreak,
    /// A line break before a token is removed.
    Join,
    /// The number of blank lines before a line.
    BlankLines,
    /// Whitespace at the end of a line.
    Trailing,
    /// The case of a keyword.
    KeywordCase,
    /// The column of a trailing comment.
    CommentColumn,
}

/// One layout difference between a snapshot and its formatting.
#[derive(Debug, Clone, PartialEq, Eq)]
pub struct LayoutChange {
    /// 1-based line in the source.
    pub line: usize,
    pub kind: ChangeKind,
    /// Context of the change for the rule table, such as `Indent:ProcessStatementPart:signal`.
    pub key: String,
    /// The VSG rule that reports the change, if known without the table.
    pub rule: Option<&'static str>,
    /// Expected indentation or spaces (columns), or blank lines.
    pub expected: usize,
    /// The token the change is about, as formatted.
    pub token: String,
    /// The token as written in the source.
    pub original: String,
}

/// Spaces a VSG `number_of_spaces` option asks for.
#[derive(Debug, Clone, Copy, PartialEq, Eq, Structural)]
pub enum Spaces {
    Exact(usize),
    /// At least this many; wider source spacing is kept (`>=1`).
    AtLeast(usize),
}

/// The number of line breaks in a gap between two tokens.
pub fn newlines(gap: &[u8]) -> (r: usize)
    ensures
        r == count_newlines(gap@),
{
    let mut n: usize = 0;
    let mut i: usize = 0;
    while i < gap.len()
        invariant
            0 <= i <= gap@.len(),
            n == count_newlines(gap@.take(i as int)),
            n <= i,
        decreases gap@.len() - i,
    {
        assert(gap@.take(i as int + 1).drop_last() =~= gap@.take(i as int));
        if gap[i] == 10u8 {
            n = n + 1;
        }
        i = i + 1;
    }
    assert(gap@.take(gap@.len() as int) =~= gap@);
    n
}

/// Whether a comment starts at position `i`: `--` or `/*`.
pub open spec fn comment_at(gap: Seq<u8>, i: int) -> bool {
    0 <= i && i + 1 < gap.len() && ((gap[i] == 45u8 && gap[i + 1] == 45u8) || (gap[i] == 47u8
        && gap[i + 1] == 42u8))
}

/// The first position at or after `i` where a comment starts.
pub open spec fn first_comment(gap: Seq<u8>, i: int) -> Option<int>
    decreases gap.len() - i,
{
    if i < 0 || i + 1 >= gap.len() {
        None
    } else if comment_at(gap, i) {
        Some(i)
    } else {
        first_comment(gap, i + 1)
    }
}

fn find_comment(gap: &[u8]) -> (r: Option<usize>)
    ensures
        match r {
            Some(i) => first_comment(gap@, 0) == Some(i as int),
            None => first_comment(gap@, 0) is None,
        },
{
    if gap.len() < 2 {
        return None;
    }
    let mut i: usize = 0;
    while i < gap.len() - 1
        invariant
            0 <= i,
            i <= gap@.len(),
            gap@.len() >= 2,
            first_comment(gap@, 0) == first_comment(gap@, i as int),
        decreases gap@.len() - i,
    {
        if (gap[i] == 45u8 && gap[i + 1] == 45u8) || (gap[i] == 47u8 && gap[i + 1] == 42u8) {
            return Some(i);
        }
        i = i + 1;
    }
    None
}

/// Whether the gap holds a comment.
pub fn has_comment(gap: &[u8]) -> (r: bool)
    ensures
        r == first_comment(gap@, 0) is Some,
{
    find_comment(gap).is_some()
}

/// The number of spaces and tabs in `s`.
pub open spec fn blanks(s: Seq<u8>) -> nat
    decreases s.len(),
{
    if s.len() == 0 {
        0
    } else {
        blanks(s.drop_last()) + if s.last() == 32u8 || s.last() == 9u8 {
            1nat
        } else {
            0nat
        }
    }
}

/// Width of the whitespace after the last line break (or of the whole gap).
pub open spec fn spec_tail(gap: Seq<u8>) -> nat {
    blanks(gap.skip(line_start(gap, gap.len() as int)))
}

/// Width of the whitespace after the last line break (or of the whole gap).
pub fn tail(gap: &[u8]) -> (r: usize)
    ensures
        r == spec_tail(gap@),
{
    let mut start = gap.len();
    while start > 0 && gap[start - 1] != 10u8
        invariant
            0 <= start <= gap@.len(),
            line_start(gap@, gap@.len() as int) == line_start(gap@, start as int),
        decreases start,
    {
        start = start - 1;
    }
    let mut n: usize = 0;
    let mut i = start;
    assert(gap@.skip(start as int).take(0) =~= Seq::<u8>::empty());
    while i < gap.len()
        invariant
            start <= i <= gap@.len(),
            n == blanks(gap@.skip(start as int).take(i - start)),
            n <= i,
        decreases gap@.len() - i,
    {
        assert(gap@.skip(start as int).take(i - start + 1).drop_last() =~= gap@.skip(
            start as int,
        ).take(i - start));
        if gap[i] == 32u8 || gap[i] == 9u8 {
            n = n + 1;
        }
        i = i + 1;
    }
    assert(gap@.skip(start as int).take(gap@.len() - start) =~= gap@.skip(start as int));
    n
}

/// Whether the line that ends with the line break at `p` ends with a space or a tab (before
/// a carriage return, if it has one).
pub open spec fn ends_with_blank(gap: Seq<u8>, p: int) -> bool {
    let start = line_start(gap, p);
    let end = if p > start && gap[p - 1] == 13u8 {
        p - 1
    } else {
        p
    };
    end > start && (gap[end - 1] == 32u8 || gap[end - 1] == 9u8)
}

/// Whether a line that ends in the gap ends with spaces or tabs.
pub open spec fn spec_trailing_whitespace(gap: Seq<u8>) -> bool {
    exists|p: int| 0 <= p < gap.len() && gap[p] == 10u8 && #[trigger] ends_with_blank(gap, p)
}

proof fn lemma_line_start_le(s: Seq<u8>, p: int)
    requires
        0 <= p <= s.len(),
    ensures
        0 <= line_start(s, p) <= p,
        forall|k: int| line_start(s, p) <= k < p ==> s[k] != 10u8,
    decreases p,
{
    if p > 0 && s[p - 1] != 10u8 {
        lemma_line_start_le(s, p - 1);
    }
}

/// Whether a line that ends in the gap ends with spaces or tabs.
pub fn trailing_whitespace(gap: &[u8]) -> (r: bool)
    ensures
        r == spec_trailing_whitespace(gap@),
{
    let mut start: usize = 0;
    let mut p: usize = 0;
    while p < gap.len()
        invariant
            0 <= start <= p <= gap@.len(),
            start == line_start(gap@, p as int),
            forall|q: int| 0 <= q < p && gap@[q] == 10u8 ==> !#[trigger] ends_with_blank(gap@, q),
        decreases gap@.len() - p,
    {
        if gap[p] == 10u8 {
            let end = if p > start && gap[p - 1] == 13u8 {
                p - 1
            } else {
                p
            };
            if end > start && (gap[end - 1] == 32u8 || gap[end - 1] == 9u8) {
                assert(ends_with_blank(gap@, p as int));
                return true;
            }
            assert(!ends_with_blank(gap@, p as int));
            start = p + 1;
        }
        p = p + 1;
    }
    false
}

/// Spaces before a comment that is on the same line as the previous token.
pub open spec fn spec_comment_offset(gap: Seq<u8>) -> Option<int> {
    match first_comment(gap, 0) {
        Some(i) => if gap.take(i).contains(10u8) {
            None
        } else {
            Some(i)
        },
        None => None,
    }
}

proof fn lemma_first_comment_bounds(gap: Seq<u8>, i: int)
    requires
        0 <= i,
    ensures
        first_comment(gap, i) matches Some(k) ==> i <= k < gap.len(),
    decreases gap.len() - i,
{
    if !(i + 1 >= gap.len()) && !comment_at(gap, i) {
        lemma_first_comment_bounds(gap, i + 1);
    }
}

/// Spaces before a comment on the same line as the previous token.
pub fn comment_offset(gap: &[u8]) -> (r: Option<usize>)
    ensures
        match r {
            Some(n) => spec_comment_offset(gap@) == Some(n as int),
            None => spec_comment_offset(gap@) is None,
        },
{
    let first = match find_comment(gap) {
        Some(i) => i,
        None => {
            return None;
        },
    };
    proof {
        lemma_first_comment_bounds(gap@, 0);
    }
    let before = vstd::slice::slice_subrange(gap, 0, first);
    assert(before@ =~= gap@.take(first as int));
    if crate::bytes::contains_byte(before, 10u8) {
        None
    } else {
        Some(first)
    }
}

/// The rule a learned table gives for a key: the first entry with that key.
pub open spec fn table_rule(table: Seq<(String, String)>, key: Seq<char>, i: int) -> Option<Seq<char>>
    decreases table.len() - i,
{
    if i < 0 || i >= table.len() {
        None
    } else if table[i].0@ == key {
        Some(table[i].1@)
    } else {
        table_rule(table, key, i + 1)
    }
}

/// The VSG rule that reports a change: known directly, from the learned table, or `format`
/// (`whitespace_001` for trailing whitespace).
pub open spec fn spec_rule_for(change: LayoutChange, table: Seq<(String, String)>) -> Seq<char> {
    match change.rule {
        Some(rule) => rule@,
        None => match table_rule(table, change.key@, 0) {
            Some(rule) => rule,
            None => match change.kind {
                ChangeKind::Trailing => "whitespace_001"@,
                _ => "format"@,
            },
        },
    }
}

/// The VSG rule that reports a change: known directly, from the learned table (pairs of a key
/// and a rule id), or `format`.
pub fn rule_for<'a>(change: &'a LayoutChange, table: &'a [(String, String)]) -> (r: &'a str)
    ensures
        r@ == spec_rule_for(*change, table@),
{
    if let Some(rule) = change.rule {
        return rule;
    }
    let mut i: usize = 0;
    while i < table.len()
        invariant
            0 <= i <= table@.len(),
            change.rule is None,
            table_rule(table@, change.key@, 0) == table_rule(table@, change.key@, i as int),
        decreases table@.len() - i,
    {
        if str_eq(table[i].0.as_str(), change.key.as_str()) {
            return table[i].1.as_str();
        }
        i = i + 1;
    }
    match change.kind {
        ChangeKind::Trailing => "whitespace_001",
        _ => "format",
    }
}

/// The decimal digits of `n`.
pub open spec fn decimal(n: nat) -> Seq<char>
    decreases n,
{
    if n < 10 {
        seq![((n + 48) as u32) as char]
    } else {
        decimal(n / 10).push((((n % 10) + 48) as u32) as char)
    }
}

/// The decimal digits of `n`, as a string.
pub fn decimal_string(n: usize) -> (r: String)
    ensures
        r@ == decimal(n as nat),
    decreases n,
{
    let digit = (n % 10) as u8;
    let c = (digit + 48) as char;
    if n < 10 {
        let mut s = String::new();
        s.push(c);
        assert(s@ =~= decimal(n as nat));
        s
    } else {
        let mut s = decimal_string(n / 10);
        s.push(c);
        s
    }
}

/// A VSG-style solution text for a change.
pub open spec fn spec_message(change: LayoutChange, indent_size: nat) -> Seq<char> {
    let token = change.token@;
    match change.kind {
        ChangeKind::Indent => "Indent level "@ + decimal(
            change.expected as nat / (if indent_size > 0 {
                indent_size
            } else {
                1
            }),
        ),
        ChangeKind::Spacing => if change.expected == 0 {
            "Remove the space before "@ + token
        } else {
            "Change the number of spaces before "@ + token + " to "@ + decimal(
                change.expected as nat,
            )
        },
        ChangeKind::LineBreak => "Move "@ + token + " to the next line"@,
        ChangeKind::Join => "Move "@ + token + " to the previous line"@,
        ChangeKind::BlankLines => if change.expected == 0 {
            "Remove blank lines above"@
        } else {
            "Add blank line above"@
        },
        ChangeKind::Trailing => "Remove trailing whitespace"@,
        ChangeKind::KeywordCase => "Change \""@ + change.original@ + "\" to \""@ + token + "\""@,
        ChangeKind::CommentColumn => "Align the comment"@,
    }
}

/// A VSG-style solution text for a change.
pub fn message(change: &LayoutChange, indent_size: usize) -> (r: String)
    ensures
        r@ == spec_message(*change, indent_size as nat),
{
    let token = change.token.as_str();
    match change.kind {
        ChangeKind::Indent => {
            let size = if indent_size > 0 {
                indent_size
            } else {
                1
            };
            let mut s = String::from_str("Indent level ");
            let n = decimal_string(change.expected / size);
            s.append(n.as_str());
            s
        },
        ChangeKind::Spacing => {
            if change.expected == 0 {
                let mut s = String::from_str("Remove the space before ");
                s.append(token);
                s
            } else {
                let mut s = String::from_str("Change the number of spaces before ");
                s.append(token);
                s.append(" to ");
                let n = decimal_string(change.expected);
                s.append(n.as_str());
                s
            }
        },
        ChangeKind::LineBreak => {
            let mut s = String::from_str("Move ");
            s.append(token);
            s.append(" to the next line");
            s
        },
        ChangeKind::Join => {
            let mut s = String::from_str("Move ");
            s.append(token);
            s.append(" to the previous line");
            s
        },
        ChangeKind::BlankLines => {
            if change.expected == 0 {
                String::from_str("Remove blank lines above")
            } else {
                String::from_str("Add blank line above")
            }
        },
        ChangeKind::Trailing => String::from_str("Remove trailing whitespace"),
        ChangeKind::KeywordCase => {
            let mut s = String::from_str("Change \"");
            s.append(change.original.as_str());
            s.append("\" to \"");
            s.append(token);
            s.append("\"");
            s
        },
        ChangeKind::CommentColumn => String::from_str("Align the comment"),
    }
}


/// What the comparison reads of a token of a snapshot.
#[derive(Debug, Clone, PartialEq, Eq)]
pub struct TokenLayout {
    /// The token's bytes.
    pub text: Vec<u8>,
    /// Whether the token is a keyword.
    pub keyword: bool,
    /// The token's kind as the rule table names it: a keyword in lower case, else the kind's
    /// name.
    pub kind: String,
    /// The kind of the syntax node that holds the token.
    pub construct: String,
    /// The `case::keyword` rule of a keyword, where one applies.
    pub rule: Option<&'static str>,
    /// The whitespace and comments between the previous token (or the start) and this one.
    pub gap: Vec<u8>,
    /// 1-based line of the token.
    pub line: usize,
}

/// The mathematical form of a [`LayoutChange`].
pub ghost struct SChange {
    pub line: int,
    pub kind: ChangeKind,
    pub key: Seq<char>,
    pub rule: Option<&'static str>,
    pub expected: int,
    pub token: Seq<char>,
    pub original: Seq<char>,
}

pub open spec fn change_view(c: LayoutChange) -> SChange {
    SChange {
        line: c.line as int,
        kind: c.kind,
        key: c.key@,
        rule: c.rule,
        expected: c.expected as int,
        token: c.token@,
        original: c.original@,
    }
}

pub open spec fn changes_view(v: Seq<LayoutChange>) -> Seq<SChange> {
    Seq::new(v.len(), |i: int| change_view(v[i]))
}

/// `a - b`, or 0 where `b` is larger.
pub open spec fn minus(a: int, b: int) -> int {
    if a > b {
        a - b
    } else {
        0
    }
}

/// The changes of a token whose gap holds a comment: own-line comments keep their layout, so
/// only the column of a trailing comment and the token's indentation count.
pub open spec fn comment_changes(
    b: TokenLayout,
    a: TokenLayout,
    prev: Option<TokenLayout>,
    token: Seq<char>,
    original: Seq<char>,
) -> Seq<SChange> {
    let (gb, ga) = (b.gap@, a.gap@);
    let nb = count_newlines(gb) as int;
    let na = count_newlines(ga) as int;
    let here = b.construct@ + ":"@ + b.kind@;
    let column = match (spec_comment_offset(gb), spec_comment_offset(ga), prev) {
        (Some(ob), Some(oa), Some(p)) => if ob != oa {
            seq![SChange { line: minus(b.line as int, nb), kind: ChangeKind::CommentColumn, key: "CommentColumn:"@ + p.construct@, rule: None, expected: oa, token, original }]
        } else {
            Seq::empty()
        },
        _ => Seq::empty(),
    };
    let indent = if nb > 0 && na > 0 && spec_tail(gb) != spec_tail(ga) {
        seq![SChange { line: b.line as int, kind: ChangeKind::Indent, key: "Indent:"@ + here, rule: None, expected: spec_tail(ga) as int, token, original }]
    } else {
        Seq::empty()
    };
    column + indent
}

/// The changes of a token whose gap holds only whitespace, by the line breaks before it in
/// the source (`nb`) and in the formatting (`na`).
pub open spec fn space_changes(
    b: TokenLayout,
    a: TokenLayout,
    prev: Option<TokenLayout>,
    token: Seq<char>,
    original: Seq<char>,
) -> Seq<SChange> {
    let (gb, ga) = (b.gap@, a.gap@);
    let nb = count_newlines(gb) as int;
    let na = count_newlines(ga) as int;
    let here = b.construct@ + ":"@ + b.kind@;
    let line = b.line as int;
    let previous = match prev {
        Some(p) => p.kind@,
        None => "Start"@,
    };
    if nb == 0 && na == 0 {
        seq![SChange { line, kind: ChangeKind::Spacing, key: "Spacing:"@ + b.construct@ + ":"@ + previous + ">"@ + b.kind@, rule: None, expected: spec_tail(ga) as int, token, original }]
    } else if nb == 0 {
        seq![SChange { line, kind: ChangeKind::LineBreak, key: "LineBreak:"@ + here, rule: None, expected: spec_tail(ga) as int, token, original }]
    } else if na == 0 {
        seq![SChange { line, kind: ChangeKind::Join, key: "Join:"@ + here, rule: None, expected: 0, token, original }]
    } else {
        let blank = if nb != na {
            seq![SChange { line, kind: ChangeKind::BlankLines, key: "BlankLines:"@ + here, rule: None, expected: na - 1, token, original }]
        } else {
            Seq::empty()
        };
        let indent = if spec_tail(gb) != spec_tail(ga) {
            seq![SChange { line, kind: ChangeKind::Indent, key: "Indent:"@ + here, rule: None, expected: spec_tail(ga) as int, token, original }]
        } else {
            Seq::empty()
        };
        blank + indent
    }
}

/// The layout differences of one token: `b` in the source, `a` in the formatting, `prev` the
/// source token before `b`.
pub open spec fn token_changes(b: TokenLayout, a: TokenLayout, prev: Option<TokenLayout>) -> Seq<SChange> {
    let token = lossy_text(a.text@);
    let original = lossy_text(b.text@);
    let line = b.line as int;
    let case = if b.text@ != a.text@ && b.keyword {
        seq![SChange { line, kind: ChangeKind::KeywordCase, key: "KeywordCase:"@ + b.kind@, rule: b.rule, expected: 0, token, original }]
    } else {
        Seq::empty()
    };
    let (gb, ga) = (b.gap@, a.gap@);
    if gb == ga {
        case
    } else {
        let nb = count_newlines(gb) as int;
        let first_line = minus(line, nb);
        let trailing = if spec_trailing_whitespace(gb) && !spec_trailing_whitespace(ga) {
            seq![SChange { line: if first_line > 1 { first_line } else { 1 }, kind: ChangeKind::Trailing, key: "Trailing"@, rule: None, expected: 0, token, original }]
        } else {
            Seq::empty()
        };
        if first_comment(gb, 0) is Some || first_comment(ga, 0) is Some {
            case + trailing + comment_changes(b, a, prev, token, original)
        } else {
            case + trailing + space_changes(b, a, prev, token, original)
        }
    }
}

/// The changes of the first `n` tokens.
pub open spec fn changes_upto(before: Seq<TokenLayout>, after: Seq<TokenLayout>, n: int) -> Seq<SChange>
    decreases n,
{
    if n <= 0 {
        Seq::empty()
    } else {
        changes_upto(before, after, n - 1) + token_changes(
            before[n - 1],
            after[n - 1],
            if n - 1 == 0 {
                None
            } else {
                Some(before[n - 2])
            },
        )
    }
}

/// The layout differences between the tokens of a snapshot and those of its formatting; none
/// when the token streams do not pair up.
pub open spec fn spec_layout_changes(before: Seq<TokenLayout>, after: Seq<TokenLayout>) -> Seq<SChange> {
    if before.len() != after.len() {
        Seq::empty()
    } else {
        changes_upto(before, after, before.len() as int)
    }
}

fn change(
    line: usize,
    kind: ChangeKind,
    key: String,
    rule: Option<&'static str>,
    expected: usize,
    token: &String,
    original: &String,
) -> (r: LayoutChange)
    ensures
        change_view(r) == (SChange { line: line as int, kind, key: key@, rule, expected: expected as int, token: token@, original: original@ }),
{
    LayoutChange { line, kind, key, rule, expected, token: token.clone(), original: original.clone() }
}

fn prefixed(prefix: &str, a: &str, b: &str) -> (r: String)
    ensures
        r@ == prefix@ + a@ + b@,
{
    let mut s = String::from_str(prefix);
    s.append(a);
    s.append(b);
    s
}

pub open spec fn opt_view(prev: Option<&TokenLayout>) -> Option<TokenLayout> {
    match prev {
        Some(p) => Some(*p),
        None => None,
    }
}

/// `construct:kind` of a token.
fn here_of(b: &TokenLayout) -> (r: String)
    ensures
        r@ == b.construct@ + ":"@ + b.kind@,
{
    let mut s = b.construct.clone();
    s.append(":");
    s.append(b.kind.as_str());
    s
}

fn push_comment_changes(
    b: &TokenLayout,
    a: &TokenLayout,
    prev: Option<&TokenLayout>,
    token: &String,
    original: &String,
    out: &mut Vec<LayoutChange>,
)
    ensures
        changes_view(final(out)@) == changes_view(old(out)@) + comment_changes(
            *b,
            *a,
            opt_view(prev),
            token@,
            original@,
        ),
{
    let ghost o0 = changes_view(out@);
    let (gb, ga) = (b.gap.as_slice(), a.gap.as_slice());
    let nb = newlines(gb);
    let na = newlines(ga);
    let line = b.line;
    let first_line = if line > nb {
        line - nb
    } else {
        0
    };
    proof {
        reveal_strlit("");
    }
    if let (Some(ob), Some(oa), Some(p)) = (comment_offset(gb), comment_offset(ga), prev) {
        if ob != oa {
            out.push(change(first_line, ChangeKind::CommentColumn, prefixed("CommentColumn:", p.construct.as_str(), ""), None, oa, token, original));
            assert(("CommentColumn:"@ + p.construct@ + ""@) =~= "CommentColumn:"@ + p.construct@);
        }
    }
    let ghost o1 = changes_view(out@);
    if nb > 0 && na > 0 && tail(gb) != tail(ga) {
        let here = here_of(b);
        out.push(change(line, ChangeKind::Indent, prefixed("Indent:", here.as_str(), ""), None, tail(ga), token, original));
        assert(("Indent:"@ + here@ + ""@) =~= "Indent:"@ + here@);
        assert(changes_view(out@) =~= o1.push(changes_view(out@).last()));
    }
    assert(changes_view(out@) =~= o0 + comment_changes(*b, *a, opt_view(prev), token@, original@));
}

fn push_space_changes(
    b: &TokenLayout,
    a: &TokenLayout,
    prev: Option<&TokenLayout>,
    token: &String,
    original: &String,
    out: &mut Vec<LayoutChange>,
)
    ensures
        changes_view(final(out)@) == changes_view(old(out)@) + space_changes(
            *b,
            *a,
            opt_view(prev),
            token@,
            original@,
        ),
{
    let ghost o0 = changes_view(out@);
    let (gb, ga) = (b.gap.as_slice(), a.gap.as_slice());
    let nb = newlines(gb);
    let na = newlines(ga);
    let line = b.line;
    let here = here_of(b);
    proof {
        reveal_strlit("");
    }
    if nb == 0 && na == 0 {
        let previous: &str = match prev {
            Some(p) => p.kind.as_str(),
            None => "Start",
        };
        let mut key = prefixed("Spacing:", b.construct.as_str(), ":");
        key.append(previous);
        key.append(">");
        key.append(b.kind.as_str());
        out.push(change(line, ChangeKind::Spacing, key, None, tail(ga), token, original));
    } else if nb == 0 {
        out.push(change(line, ChangeKind::LineBreak, prefixed("LineBreak:", here.as_str(), ""), None, tail(ga), token, original));
        assert(("LineBreak:"@ + here@ + ""@) =~= "LineBreak:"@ + here@);
    } else if na == 0 {
        out.push(change(line, ChangeKind::Join, prefixed("Join:", here.as_str(), ""), None, 0, token, original));
        assert(("Join:"@ + here@ + ""@) =~= "Join:"@ + here@);
    } else {
        if nb != na {
            out.push(change(line, ChangeKind::BlankLines, prefixed("BlankLines:", here.as_str(), ""), None, na - 1, token, original));
            assert(("BlankLines:"@ + here@ + ""@) =~= "BlankLines:"@ + here@);
        }
        let ghost o1 = changes_view(out@);
        if tail(gb) != tail(ga) {
            out.push(change(line, ChangeKind::Indent, prefixed("Indent:", here.as_str(), ""), None, tail(ga), token, original));
            assert(("Indent:"@ + here@ + ""@) =~= "Indent:"@ + here@);
            assert(changes_view(out@) =~= o1.push(changes_view(out@).last()));
        }
    }
    assert(changes_view(out@) =~= o0 + space_changes(*b, *a, opt_view(prev), token@, original@));
}

/// Append the changes of the token `b` (source) / `a` (formatting) to `out`.
fn push_token_changes(b: &TokenLayout, a: &TokenLayout, prev: Option<&TokenLayout>, out: &mut Vec<LayoutChange>)
    ensures
        changes_view(final(out)@) == changes_view(old(out)@) + token_changes(*b, *a, opt_view(prev)),
{
    let ghost o0 = changes_view(out@);
    let token = utf8_lossy(a.text.as_slice());
    let original = utf8_lossy(b.text.as_slice());
    let line = b.line;
    proof {
        reveal_strlit("");
    }
    if !crate::bytes::bytes_eq(b.text.as_slice(), a.text.as_slice()) && b.keyword {
        out.push(change(line, ChangeKind::KeywordCase, prefixed("KeywordCase:", b.kind.as_str(), ""), b.rule, 0, &token, &original));
        assert(("KeywordCase:"@ + b.kind@ + ""@) =~= "KeywordCase:"@ + b.kind@);
    }
    let ghost o1 = changes_view(out@);
    if crate::bytes::bytes_eq(b.gap.as_slice(), a.gap.as_slice()) {
        assert(changes_view(out@) =~= o0 + token_changes(*b, *a, opt_view(prev)));
        return;
    }
    let (gb, ga) = (b.gap.as_slice(), a.gap.as_slice());
    let nb = newlines(gb);
    let first_line = if line > nb {
        line - nb
    } else {
        0
    };
    if trailing_whitespace(gb) && !trailing_whitespace(ga) {
        let at = if first_line > 1 {
            first_line
        } else {
            1
        };
        out.push(change(at, ChangeKind::Trailing, String::from_str("Trailing"), None, 0, &token, &original));
    }
    let ghost o2 = changes_view(out@);
    if has_comment(gb) || has_comment(ga) {
        push_comment_changes(b, a, prev, &token, &original, out);
        assert(changes_view(out@) =~= o0 + token_changes(*b, *a, opt_view(prev)));
    } else {
        push_space_changes(b, a, prev, &token, &original, out);
        assert(changes_view(out@) =~= o0 + token_changes(*b, *a, opt_view(prev)));
    }
}

/// The layout differences between the tokens of a snapshot (`before`) and those of its
/// formatting (`after`), token by token; none when they do not pair up.
pub fn layout_changes(before: &[TokenLayout], after: &[TokenLayout]) -> (r: Vec<LayoutChange>)
    ensures
        changes_view(r@) == spec_layout_changes(before@, after@),
{
    let mut out: Vec<LayoutChange> = Vec::new();
    if before.len() != after.len() {
        return out;
    }
    let mut i: usize = 0;
    while i < before.len()
        invariant
            0 <= i <= before@.len(),
            before@.len() == after@.len(),
            changes_view(out@) == changes_upto(before@, after@, i as int),
        decreases before@.len() - i,
    {
        let prev = if i == 0 {
            None
        } else {
            Some(&before[i - 1])
        };
        push_token_changes(&before[i], &after[i], prev, &mut out);
        i = i + 1;
    }
    out
}


proof fn lemma_same_tokens_upto(tokens: Seq<TokenLayout>, n: int)
    requires
        0 <= n <= tokens.len(),
    ensures
        changes_upto(tokens, tokens, n) == Seq::<SChange>::empty(),
    decreases n,
{
    if n > 0 {
        lemma_same_tokens_upto(tokens, n - 1);
        let prev = if n - 1 == 0 {
            None
        } else {
            Some(tokens[n - 2])
        };
        assert(token_changes(tokens[n - 1], tokens[n - 1], prev) =~= Seq::<SChange>::empty());
        assert(changes_upto(tokens, tokens, n) =~= Seq::<SChange>::empty());
    }
}

/// A snapshot compared with itself has no layout changes: every change is a difference.
pub proof fn law_unchanged_snapshot_has_no_changes(tokens: Seq<TokenLayout>)
    ensures
        spec_layout_changes(tokens, tokens) == Seq::<SChange>::empty(),
{
    lemma_same_tokens_upto(tokens, tokens.len() as int);
}

/// A token whose case and whitespace before it are unchanged brings no change.
pub proof fn law_a_change_needs_a_difference(b: TokenLayout, a: TokenLayout, prev: Option<TokenLayout>)
    requires
        b.text@ == a.text@ || !b.keyword,
        b.gap@ == a.gap@,
    ensures
        token_changes(b, a, prev) == Seq::<SChange>::empty(),
{
}

} // verus!
