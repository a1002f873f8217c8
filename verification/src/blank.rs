//! Blank-line policy: VSG's `blank_line` rules, applied by the formatter.
//!
//! Each rule names a place ("above the `begin` keyword", "below `end process`") and a style.
//! Where rules disagree, requiring a blank line wins over "no code above", which wins over
//! forbidding blank lines ([`Style::strongest`]); places without a policy keep the blank lines
//! of the source.
use vstd::prelude::*;

use vstd::string::StringExecFns;

use crate::analysis::design::{check_regex, find_spans, regex_error, regex_spans};
use crate::bytes::str_eq;
use crate::lsp::{lossy_text, utf8_lossy};
use crate::rules::RuleInfo;
use crate::config::Severity;

verus! {

/// How blank lines in front of a token are handled.
#[derive(Debug, Clone, Copy, PartialEq, Eq, Structural, PartialOrd, Ord)]
pub enum Style {
    /// No blank line.
    NoBlank,
    /// A blank line unless a comment is directly above.
    NoCode,
    /// Exactly one blank line (above any comments attached to the token).
    Require,
}

/// The rank of a style: where rules disagree, the higher one wins.
pub open spec fn style_rank(s: Style) -> int {
    match s {
        Style::NoBlank => 0,
        Style::NoCode => 1,
        Style::Require => 2,
    }
}

/// What a style option of the configuration names.
pub open spec fn spec_parse_style(text: Seq<char>) -> Option<Style> {
    if text == "require_blank_line"@ || text == "allow_comment"@ {
        Some(Style::Require)
    } else if text == "no_blank_line"@ {
        Some(Style::NoBlank)
    } else if text == "no_code"@ {
        Some(Style::NoCode)
    } else {
        None
    }
}

impl Style {
    pub fn parse(text: &str) -> (r: Option<Style>)
        ensures
            r == spec_parse_style(text@),
    {
        if str_eq(text, "require_blank_line") || str_eq(text, "allow_comment") {
            Some(Style::Require)
        } else if str_eq(text, "no_blank_line") {
            Some(Style::NoBlank)
        } else if str_eq(text, "no_code") {
            Some(Style::NoCode)
        } else {
            None
        }
    }

    /// The style that wins when two rules disagree about one place.
    pub fn strongest(self, other: Style) -> (r: Style)
        ensures
            style_rank(r) == if style_rank(self) >= style_rank(other) {
                style_rank(self)
            } else {
                style_rank(other)
            },
            r == self || r == other,
    {
        match (self, other) {
            (Style::Require, _) | (_, Style::Require) => Style::Require,
            (Style::NoCode, _) | (_, Style::NoCode) => Style::NoCode,
            _ => Style::NoBlank,
        }
    }
}

/// A VSG blank-line rule: which rule, and the style it has when the configuration does not set
/// one (`None` for rules without a `style` option: they always forbid blank lines). Where it
/// applies is a query on the syntax tree, made by the formatter.
pub struct BlankRule {
    pub info: RuleInfo,
    pub style: Option<Style>,
}

/// The description every blank-line rule has.
pub open spec fn blank_description() -> &'static str {
    "Blank line policy (applied by the formatter)."
}

fn rule(id: &'static str, style: Option<Style>, enabled: bool) -> (r: BlankRule)
    ensures
        r.info.id == id,
        r.info.enabled_by_default == enabled,
        r.info.description == blank_description(),
        r.info.severity == Severity::Error,
        r.info.groups@ == seq!["blank_line"],
        r.style == style,
{
    let groups: &'static [&'static str] = &["blank_line"];
    assert(groups@ == seq!["blank_line"]);
    BlankRule {
        info: RuleInfo::formatter(id, groups, enabled, "Blank line policy (applied by the formatter)."),
        style,
    }
}

/// Every blank-line rule as (id, default style, enabled by default), sorted by id.
pub open spec fn spec_blank_rules() -> Seq<(&'static str, Option<Style>, bool)> {
    seq![
        ("architecture_003", Some(Style::Require), true),
        ("architecture_015", Some(Style::Require), true),
        ("architecture_016", Some(Style::Require), true),
        ("architecture_017", Some(Style::Require), true),
        ("architecture_018", Some(Style::Require), true),
        ("architecture_200", Some(Style::Require), true),
        ("block_200", Some(Style::Require), true),
        ("block_201", Some(Style::Require), true),
        ("block_202", Some(Style::Require), true),
        ("block_203", Some(Style::Require), true),
        ("block_204", Some(Style::Require), true),
        ("block_205", Some(Style::Require), true),
        ("case_007", Some(Style::NoCode), true),
        ("case_009", Some(Style::Require), true),
        ("case_010", Some(Style::Require), true),
        ("case_200", Some(Style::Require), true),
        ("case_201", Some(Style::Require), true),
        ("component_003", Some(Style::NoCode), true),
        ("component_016", Some(Style::NoBlank), true),
        ("component_018", Some(Style::Require), true),
        ("constant_200", Some(Style::Require), false),
        ("context_003", Some(Style::NoCode), true),
        ("context_023", Some(Style::Require), true),
        ("context_024", Some(Style::NoCode), true),
        ("context_025", Some(Style::Require), true),
        ("entity_003", Some(Style::Require), true),
        ("entity_016", Some(Style::NoBlank), true),
        ("entity_200", Some(Style::NoBlank), true),
        ("entity_201", None, true),
        ("entity_202", Some(Style::NoBlank), true),
        ("entity_203", Some(Style::Require), true),
        ("function_006", Some(Style::Require), true),
        ("generate_003", Some(Style::Require), true),
        ("generate_004", Some(Style::Require), true),
        ("if_006", None, true),
        ("if_007", None, true),
        ("if_008", None, true),
        ("if_010", None, true),
        ("if_011", None, true),
        ("if_030", Some(Style::Require), true),
        ("if_031", Some(Style::NoCode), true),
        ("instantiation_004", Some(Style::NoCode), true),
        ("instantiation_019", Some(Style::Require), true),
        ("library_003", Some(Style::Require), true),
        ("library_007", Some(Style::NoBlank), true),
        ("loop_statement_200", Some(Style::NoCode), true),
        ("loop_statement_201", Some(Style::Require), true),
        ("loop_statement_202", Some(Style::Require), true),
        ("loop_statement_203", Some(Style::Require), true),
        ("package_003", Some(Style::NoCode), true),
        ("package_011", Some(Style::Require), true),
        ("package_012", Some(Style::Require), true),
        ("package_body_200", Some(Style::Require), true),
        ("package_body_201", Some(Style::Require), true),
        ("package_body_202", Some(Style::Require), true),
        ("package_body_203", Some(Style::Require), true),
        ("package_instantiation_200", Some(Style::NoCode), true),
        ("package_instantiation_201", Some(Style::NoBlank), true),
        ("port_001", Some(Style::NoBlank), true),
        ("port_022", None, true),
        ("port_map_200", Some(Style::NoBlank), true),
        ("procedure_200", Some(Style::Require), true),
        ("process_011", Some(Style::Require), true),
        ("process_015", Some(Style::NoCode), true),
        ("process_021", Some(Style::NoBlank), true),
        ("process_022", Some(Style::Require), true),
        ("process_023", Some(Style::Require), true),
        ("process_026", Some(Style::Require), true),
        ("process_027", Some(Style::Require), true),
        ("record_type_definition_200", Some(Style::NoBlank), true),
        ("record_type_definition_201", Some(Style::NoBlank), true),
        ("signal_200", Some(Style::Require), false),
        ("subprogram_body_201", Some(Style::Require), true),
        ("subprogram_body_202", Some(Style::Require), true),
        ("subprogram_body_203", Some(Style::Require), true),
        ("subprogram_body_204", Some(Style::Require), true),
        ("subprogram_body_205", Some(Style::Require), true),
        ("subtype_200", Some(Style::Require), false),
        ("subtype_201", Some(Style::Require), true),
        ("subtype_202", Some(Style::Require), true),
        ("type_010", Some(Style::Require), true),
        ("type_011", Some(Style::Require), true),
        ("type_200", Some(Style::Require), false)
    ]
}

/// Every blank-line rule, sorted by id.
pub fn rules() -> (r: Vec<BlankRule>)
    ensures
        r@.len() == spec_blank_rules().len(),
        forall|i: int|
            0 <= i < r@.len() ==> (#[trigger] r@[i]).info.id == spec_blank_rules()[i].0
                && r@[i].style == spec_blank_rules()[i].1 && r@[i].info.enabled_by_default
                == spec_blank_rules()[i].2 && r@[i].info.description == blank_description()
                && r@[i].info.severity == Severity::Error && r@[i].info.groups@ == seq!["blank_line"],
{
    let mut v: Vec<BlankRule> = Vec::new();
    v.push(rule("architecture_003", Some(Style::Require), true));
    v.push(rule("architecture_015", Some(Style::Require), true));
    v.push(rule("architecture_016", Some(Style::Require), true));
    v.push(rule("architecture_017", Some(Style::Require), true));
    v.push(rule("architecture_018", Some(Style::Require), true));
    v.push(rule("architecture_200", Some(Style::Require), true));
    v.push(rule("block_200", Some(Style::Require), true));
    v.push(rule("block_201", Some(Style::Require), true));
    v.push(rule("block_202", Some(Style::Require), true));
    v.push(rule("block_203", Some(Style::Require), true));
    v.push(rule("block_204", Some(Style::Require), true));
    v.push(rule("block_205", Some(Style::Require), true));
    v.push(rule("case_007", Some(Style::NoCode), true));
    v.push(rule("case_009", Some(Style::Require), true));
    v.push(rule("case_010", Some(Style::Require), true));
    v.push(rule("case_200", Some(Style::Require), true));
    v.push(rule("case_201", Some(Style::Require), true));
    v.push(rule("component_003", Some(Style::NoCode), true));
    v.push(rule("component_016", Some(Style::NoBlank), true));
    v.push(rule("component_018", Some(Style::Require), true));
    v.push(rule("constant_200", Some(Style::Require), false));
    v.push(rule("context_003", Some(Style::NoCode), true));
    v.push(rule("context_023", Some(Style::Require), true));
    v.push(rule("context_024", Some(Style::NoCode), true));
    v.push(rule("context_025", Some(Style::Require), true));
    v.push(rule("entity_003", Some(Style::Require), true));
    v.push(rule("entity_016", Some(Style::NoBlank), true));
    v.push(rule("entity_200", Some(Style::NoBlank), true));
    v.push(rule("entity_201", None, true));
    v.push(rule("entity_202", Some(Style::NoBlank), true));
    v.push(rule("entity_203", Some(Style::Require), true));
    v.push(rule("function_006", Some(Style::Require), true));
    v.push(rule("generate_003", Some(Style::Require), true));
    v.push(rule("generate_004", Some(Style::Require), true));
    v.push(rule("if_006", None, true));
    v.push(rule("if_007", None, true));
    v.push(rule("if_008", None, true));
    v.push(rule("if_010", None, true));
    v.push(rule("if_011", None, true));
    v.push(rule("if_030", Some(Style::Require), true));
    v.push(rule("if_031", Some(Style::NoCode), true));
    v.push(rule("instantiation_004", Some(Style::NoCode), true));
    v.push(rule("instantiation_019", Some(Style::Require), true));
    v.push(rule("library_003", Some(Style::Require), true));
    v.push(rule("library_007", Some(Style::NoBlank), true));
    v.push(rule("loop_statement_200", Some(Style::NoCode), true));
    v.push(rule("loop_statement_201", Some(Style::Require), true));
    v.push(rule("loop_statement_202", Some(Style::Require), true));
    v.push(rule("loop_statement_203", Some(Style::Require), true));
    v.push(rule("package_003", Some(Style::NoCode), true));
    v.push(rule("package_011", Some(Style::Require), true));
    v.push(rule("package_012", Some(Style::Require), true));
    v.push(rule("package_body_200", Some(Style::Require), true));
    v.push(rule("package_body_201", Some(Style::Require), true));
    v.push(rule("package_body_202", Some(Style::Require), true));
    v.push(rule("package_body_203", Some(Style::Require), true));
    v.push(rule("package_instantiation_200", Some(Style::NoCode), true));
    v.push(rule("package_instantiation_201", Some(Style::NoBlank), true));
    v.push(rule("port_001", Some(Style::NoBlank), true));
    v.push(rule("port_022", None, true));
    v.push(rule("port_map_200", Some(Style::NoBlank), true));
    v.push(rule("procedure_200", Some(Style::Require), true));
    v.push(rule("process_011", Some(Style::Require), true));
    v.push(rule("process_015", Some(Style::NoCode), true));
    v.push(rule("process_021", Some(Style::NoBlank), true));
    v.push(rule("process_022", Some(Style::Require), true));
    v.push(rule("process_023", Some(Style::Require), true));
    v.push(rule("process_026", Some(Style::Require), true));
    v.push(rule("process_027", Some(Style::Require), true));
    v.push(rule("record_type_definition_200", Some(Style::NoBlank), true));
    v.push(rule("record_type_definition_201", Some(Style::NoBlank), true));
    v.push(rule("signal_200", Some(Style::Require), false));
    v.push(rule("subprogram_body_201", Some(Style::Require), true));
    v.push(rule("subprogram_body_202", Some(Style::Require), true));
    v.push(rule("subprogram_body_203", Some(Style::Require), true));
    v.push(rule("subprogram_body_204", Some(Style::Require), true));
    v.push(rule("subprogram_body_205", Some(Style::Require), true));
    v.push(rule("subtype_200", Some(Style::Require), false));
    v.push(rule("subtype_201", Some(Style::Require), true));
    v.push(rule("subtype_202", Some(Style::Require), true));
    v.push(rule("type_010", Some(Style::Require), true));
    v.push(rule("type_011", Some(Style::Require), true));
    v.push(rule("type_200", Some(Style::Require), false));
    v
}


/// The patterns of `ps` that compile, in order.
pub open spec fn compiling(ps: Seq<Seq<char>>) -> Seq<Seq<char>>
    decreases ps.len(),
{
    if ps.len() == 0 {
        Seq::empty()
    } else {
        let before = compiling(ps.drop_last());
        if regex_error(ps.last()) is None {
            before.push(ps.last())
        } else {
            before
        }
    }
}

/// Some pattern of `ps` matches somewhere in `text`.
pub open spec fn any_match(ps: Seq<Seq<char>>, text: Seq<char>) -> bool {
    exists|i: int| 0 <= i < ps.len() && #[trigger] regex_spans(ps[i], text).len() > 0
}

pub open spec fn texts_view(v: Seq<String>) -> Seq<Seq<char>> {
    Seq::new(v.len(), |i: int| v[i]@)
}

pub open spec fn strs_view(v: Seq<&str>) -> Seq<Seq<char>> {
    Seq::new(v.len(), |i: int| v[i]@)
}

/// Pragma comment patterns (`pragma_400` to `pragma_403`): regular expressions of the comments
/// that open and close a pragma region.
#[derive(Debug)]
pub struct Pragmas {
    pub open: Vec<String>,
    pub close: Vec<String>,
}

/// The patterns of `patterns` that compile.
fn compile_all(patterns: &[&str]) -> (r: Vec<String>)
    ensures
        texts_view(r@) == compiling(strs_view(patterns@)),
{
    let ghost ps = strs_view(patterns@);
    let mut out: Vec<String> = Vec::new();
    let mut i: usize = 0;
    assert(ps.take(0) =~= Seq::<Seq<char>>::empty());
    while i < patterns.len()
        invariant
            0 <= i <= patterns@.len(),
            ps == strs_view(patterns@),
            texts_view(out@) == compiling(ps.take(i as int)),
        decreases patterns@.len() - i,
    {
        assert(ps.take(i + 1).drop_last() =~= ps.take(i as int));
        assert(ps.take(i + 1).last() == patterns@[i as int]@);
        if check_regex(patterns[i]).is_ok() {
            let ghost before = texts_view(out@);
            out.push(String::from_str(patterns[i]));
            assert(texts_view(out@) =~= before.push(patterns@[i as int]@));
        }
        i = i + 1;
    }
    assert(ps.take(i as int) =~= ps);
    out
}

/// Whether some pattern of `patterns` matches somewhere in `text`.
fn matches_any(patterns: &Vec<String>, text: &str) -> (r: bool)
    ensures
        r == any_match(texts_view(patterns@), text@),
{
    let ghost ps = texts_view(patterns@);
    let mut i: usize = 0;
    while i < patterns.len()
        invariant
            0 <= i <= patterns@.len(),
            ps == texts_view(patterns@),
            forall|j: int| 0 <= j < i ==> !(#[trigger] regex_spans(ps[j], text@).len() > 0),
        decreases patterns@.len() - i,
    {
        let spans = find_spans(patterns[i].as_str(), text);
        assert(ps[i as int] == patterns@[i as int]@);
        if spans.len() > 0 {
            return true;
        }
        i = i + 1;
    }
    false
}

impl Pragmas {
    /// The patterns that compile; the others are left out.
    pub fn new(open: &[&str], close: &[&str]) -> (r: Pragmas)
        ensures
            texts_view(r.open@) == compiling(strs_view(open@)),
            texts_view(r.close@) == compiling(strs_view(close@)),
    {
        Pragmas { open: compile_all(open), close: compile_all(close) }
    }

    /// Pragma kind of a comment: `Some(true)` opens, `Some(false)` closes a pragma region.
    pub fn pragma(&self, comment: &[u8]) -> (r: Option<bool>)
        ensures
            r == if any_match(texts_view(self.open@), lossy_text(comment@)) {
                Some(true)
            } else if any_match(texts_view(self.close@), lossy_text(comment@)) {
                Some(false)
            } else {
                None
            },
    {
        let text = utf8_lossy(comment);
        if matches_any(&self.open, text.as_str()) {
            Some(true)
        } else if matches_any(&self.close, text.as_str()) {
            Some(false)
        } else {
            None
        }
    }
}

/// The patterns of the comments that open a pragma region, unless configured.
pub open spec fn default_open_patterns() -> Seq<Seq<char>> {
    seq![
        "^\\s*--\\s+synthesis\\s+translate_off\\s*$"@,
        "^\\s*--vhdl_comp_off\\s*$"@,
        "^\\s*--\\s+RTL_SYNTHESIS\\s+OFF\\s*$"@,
    ]
}

/// The patterns of the comments that close a pragma region, unless configured.
pub open spec fn default_close_patterns() -> Seq<Seq<char>> {
    seq![
        "^\\s*--\\s+synthesis\\s+translate_on\\s*$"@,
        "^\\s*--vhdl_comp_on\\s*$"@,
        "^\\s*--\\s+RTL_SYNTHESIS\\s+ON\\s*$"@,
    ]
}

/// Blank-line settings resolved from the configuration.
#[derive(Debug)]
pub struct BlankSettings {
    /// Enabled rules and their styles (`None`: the rule has no style and forbids blank lines),
    /// by id.
    pub rules: Vec<(&'static str, Option<Style>)>,
    /// `library_003`: allow a library clause directly above another one.
    pub allow_library_clause: bool,
    /// `whitespace_200`: the maximum number of consecutive blank lines.
    pub max_blank_lines: usize,
    /// Pragma comment patterns (`pragma_400` to `pragma_403`), if enabled.
    pub pragmas: Option<Pragmas>,
}

impl BlankSettings {
    /// No blank-line rules: blank lines of the source are kept (up to the maximum).
    pub fn preserve() -> (r: BlankSettings)
        ensures
            r.rules@.len() == 0,
            !r.allow_library_clause,
            r.max_blank_lines == 1,
            r.pragmas is None,
    {
        BlankSettings { rules: Vec::new(), allow_library_clause: false, max_blank_lines: 1, pragmas: None }
    }
}

impl Default for Pragmas {
    /// The pragmas VSG knows: `synthesis translate_off`/`on`, `vhdl_comp_off`/`on` and
    /// `RTL_SYNTHESIS OFF`/`ON`.
    fn default() -> (r: Pragmas)
        ensures
            texts_view(r.open@) == compiling(default_open_patterns()),
            texts_view(r.close@) == compiling(default_close_patterns()),
    {
        let open: [&str; 3] = [
            "^\\s*--\\s+synthesis\\s+translate_off\\s*$",
            "^\\s*--vhdl_comp_off\\s*$",
            "^\\s*--\\s+RTL_SYNTHESIS\\s+OFF\\s*$",
        ];
        let close: [&str; 3] = [
            "^\\s*--\\s+synthesis\\s+translate_on\\s*$",
            "^\\s*--vhdl_comp_on\\s*$",
            "^\\s*--\\s+RTL_SYNTHESIS\\s+ON\\s*$",
        ];
        assert(strs_view(open@) =~= seq![
            "^\\s*--\\s+synthesis\\s+translate_off\\s*$"@,
            "^\\s*--vhdl_comp_off\\s*$"@,
            "^\\s*--\\s+RTL_SYNTHESIS\\s+OFF\\s*$"@,
        ]);
        assert(strs_view(close@) =~= seq![
            "^\\s*--\\s+synthesis\\s+translate_on\\s*$"@,
            "^\\s*--vhdl_comp_on\\s*$"@,
            "^\\s*--\\s+RTL_SYNTHESIS\\s+ON\\s*$"@,
        ]);
        Pragmas::new(&open, &close)
    }
}

} // verus!


verus! {

/// `a` comes before `b` when they agree up to position `k` and differ there in that order.
proof fn lemma_less_at(a: Seq<char>, b: Seq<char>, k: int)
    requires
        0 <= k < a.len(),
        k < b.len(),
        forall|m: int| 0 <= m < k ==> a[m] == b[m],
        (a[k] as u32) < (b[k] as u32),
    ensures
        crate::analysis::design::text_less(a, b),
    decreases k,
{
    if k > 0 {
        assert(a[0] == b[0]);
        lemma_less_at(a.skip(1), b.skip(1), k - 1);
    }
}

/// Order by id is transitive.
proof fn lemma_less_transitive(a: Seq<char>, b: Seq<char>, c: Seq<char>)
    requires
        crate::analysis::design::text_less(a, b),
        crate::analysis::design::text_less(b, c),
    ensures
        crate::analysis::design::text_less(a, c),
    decreases a.len(),
{
    if a.len() > 0 && b.len() > 0 && c.len() > 0 && a[0] == b[0] && b[0] == c[0] {
        lemma_less_transitive(a.skip(1), b.skip(1), c.skip(1));
    }
}

/// A sequence in order from each element to the next is in order throughout.
proof fn lemma_in_order(s: Seq<Seq<char>>)
    requires
        forall|i: int| 0 <= i < s.len() - 1 ==> crate::analysis::design::text_less(#[trigger] s[i], s[i + 1]),
    ensures
        forall|i: int, j: int| 0 <= i < j < s.len() ==> crate::analysis::design::text_less(#[trigger] s[i], #[trigger] s[j]),
    decreases s.len(),
{
    if s.len() > 1 {
        let r = s.drop_last();
        assert forall|i: int| 0 <= i < r.len() - 1 implies crate::analysis::design::text_less(#[trigger] r[i], r[i + 1]) by {
            assert(r[i] == s[i] && r[i + 1] == s[i + 1]);
        }
        lemma_in_order(r);
        assert forall|i: int, j: int| 0 <= i < j < s.len() implies crate::analysis::design::text_less(#[trigger] s[i], #[trigger] s[j]) by {
            if j < s.len() - 1 {
                assert(r[i] == s[i] && r[j] == s[j]);
            } else if i < j - 1 {
                assert(r[i] == s[i] && r[j - 1] == s[j - 1]);
                lemma_less_transitive(s[i], s[j - 1], s[j]);
            }
        }
    }
}

/// The ids of the blank-line rules, in the order of the table.
pub open spec fn blank_ids() -> Seq<Seq<char>> {
    Seq::new(spec_blank_rules().len(), |i: int| spec_blank_rules()[i].0@)
}

/// The blank-line rules come in order of id, and so each id once.
pub proof fn law_rules_in_order()
    ensures
        forall|i: int, j: int|
            0 <= i < j < spec_blank_rules().len() ==> crate::analysis::design::text_less(
                #[trigger] spec_blank_rules()[i].0@,
                #[trigger] spec_blank_rules()[j].0@,
            ) && spec_blank_rules()[i].0@ != spec_blank_rules()[j].0@,
{
    let t = spec_blank_rules();
    let s = blank_ids();
    reveal_strlit("architecture_003");
    reveal_strlit("architecture_015");
    reveal_strlit("architecture_016");
    reveal_strlit("architecture_017");
    reveal_strlit("architecture_018");
    reveal_strlit("architecture_200");
    reveal_strlit("block_200");
    reveal_strlit("block_201");
    reveal_strlit("block_202");
    reveal_strlit("block_203");
    reveal_strlit("block_204");
    reveal_strlit("block_205");
    reveal_strlit("case_007");
    reveal_strlit("case_009");
    reveal_strlit("case_010");
    reveal_strlit("case_200");
    reveal_strlit("case_201");
    reveal_strlit("component_003");
    reveal_strlit("component_016");
    reveal_strlit("component_018");
    reveal_strlit("constant_200");
    reveal_strlit("context_003");
    reveal_strlit("context_023");
    reveal_strlit("context_024");
    reveal_strlit("context_025");
    reveal_strlit("entity_003");
    reveal_strlit("entity_016");
    reveal_strlit("entity_200");
    reveal_strlit("entity_201");
    reveal_strlit("entity_202");
    reveal_strlit("entity_203");
    reveal_strlit("function_006");
    reveal_strlit("generate_003");
    reveal_strlit("generate_004");
    reveal_strlit("if_006");
    reveal_strlit("if_007");
    reveal_strlit("if_008");
    reveal_strlit("if_010");
    reveal_strlit("if_011");
    reveal_strlit("if_030");
    reveal_strlit("if_031");
    reveal_strlit("instantiation_004");
    reveal_strlit("instantiation_019");
    reveal_strlit("library_003");
    reveal_strlit("library_007");
    reveal_strlit("loop_statement_200");
    reveal_strlit("loop_statement_201");
    reveal_strlit("loop_statement_202");
    reveal_strlit("loop_statement_203");
    reveal_strlit("package_003");
    reveal_strlit("package_011");
    reveal_strlit("package_012");
    reveal_strlit("package_body_200");
    reveal_strlit("package_body_201");
    reveal_strlit("package_body_202");
    reveal_strlit("package_body_203");
    reveal_strlit("package_instantiation_200");
    reveal_strlit("package_instantiation_201");
    reveal_strlit("port_001");
    reveal_strlit("port_022");
    reveal_strlit("port_map_200");
    reveal_strlit("procedure_200");
    reveal_strlit("process_011");
    reveal_strlit("process_015");
    reveal_strlit("process_021");
    reveal_strlit("process_022");
    reveal_strlit("process_023");
    reveal_strlit("process_026");
    reveal_strlit("process_027");
    reveal_strlit("record_type_definition_200");
    reveal_strlit("record_type_definition_201");
    reveal_strlit("signal_200");
    reveal_strlit("subprogram_body_201");
    reveal_strlit("subprogram_body_202");
    reveal_strlit("subprogram_body_203");
    reveal_strlit("subprogram_body_204");
    reveal_strlit("subprogram_body_205");
    reveal_strlit("subtype_200");
    reveal_strlit("subtype_201");
    reveal_strlit("subtype_202");
    reveal_strlit("type_010");
    reveal_strlit("type_011");
    reveal_strlit("type_200");
    lemma_less_at("architecture_003"@, "architecture_015"@, 14);
    lemma_less_at("architecture_015"@, "architecture_016"@, 15);
    lemma_less_at("architecture_016"@, "architecture_017"@, 15);
    lemma_less_at("architecture_017"@, "architecture_018"@, 15);
    lemma_less_at("architecture_018"@, "architecture_200"@, 13);
    lemma_less_at("architecture_200"@, "block_200"@, 0);
    lemma_less_at("block_200"@, "block_201"@, 8);
    lemma_less_at("block_201"@, "block_202"@, 8);
    lemma_less_at("block_202"@, "block_203"@, 8);
    lemma_less_at("block_203"@, "block_204"@, 8);
    lemma_less_at("block_204"@, "block_205"@, 8);
    lemma_less_at("block_205"@, "case_007"@, 0);
    lemma_less_at("case_007"@, "case_009"@, 7);
    lemma_less_at("case_009"@, "case_010"@, 6);
    lemma_less_at("case_010"@, "case_200"@, 5);
    lemma_less_at("case_200"@, "case_201"@, 7);
    lemma_less_at("case_201"@, "component_003"@, 1);
    lemma_less_at("component_003"@, "component_016"@, 11);
    lemma_less_at("component_016"@, "component_018"@, 12);
    lemma_less_at("component_018"@, "constant_200"@, 2);
    lemma_less_at("constant_200"@, "context_003"@, 3);
    lemma_less_at("context_003"@, "context_023"@, 9);
    lemma_less_at("context_023"@, "context_024"@, 10);
    lemma_less_at("context_024"@, "context_025"@, 10);
    lemma_less_at("context_025"@, "entity_003"@, 0);
    lemma_less_at("entity_003"@, "entity_016"@, 8);
    lemma_less_at("entity_016"@, "entity_200"@, 7);
    lemma_less_at("entity_200"@, "entity_201"@, 9);
    lemma_less_at("entity_201"@, "entity_202"@, 9);
    lemma_less_at("entity_202"@, "entity_203"@, 9);
    lemma_less_at("entity_203"@, "function_006"@, 0);
    lemma_less_at("function_006"@, "generate_003"@, 0);
    lemma_less_at("generate_003"@, "generate_004"@, 11);
    lemma_less_at("generate_004"@, "if_006"@, 0);
    lemma_less_at("if_006"@, "if_007"@, 5);
    lemma_less_at("if_007"@, "if_008"@, 5);
    lemma_less_at("if_008"@, "if_010"@, 4);
    lemma_less_at("if_010"@, "if_011"@, 5);
    lemma_less_at("if_011"@, "if_030"@, 4);
    lemma_less_at("if_030"@, "if_031"@, 5);
    lemma_less_at("if_031"@, "instantiation_004"@, 1);
    lemma_less_at("instantiation_004"@, "instantiation_019"@, 15);
    lemma_less_at("instantiation_019"@, "library_003"@, 0);
    lemma_less_at("library_003"@, "library_007"@, 10);
    lemma_less_at("library_007"@, "loop_statement_200"@, 1);
    lemma_less_at("loop_statement_200"@, "loop_statement_201"@, 17);
    lemma_less_at("loop_statement_201"@, "loop_statement_202"@, 17);
    lemma_less_at("loop_statement_202"@, "loop_statement_203"@, 17);
    lemma_less_at("loop_statement_203"@, "package_003"@, 0);
    lemma_less_at("package_003"@, "package_011"@, 9);
    lemma_less_at("package_011"@, "package_012"@, 10);
    lemma_less_at("package_012"@, "package_body_200"@, 8);
    lemma_less_at("package_body_200"@, "package_body_201"@, 15);
    lemma_less_at("package_body_201"@, "package_body_202"@, 15);
    lemma_less_at("package_body_202"@, "package_body_203"@, 15);
    lemma_less_at("package_body_203"@, "package_instantiation_200"@, 8);
    lemma_less_at("package_instantiation_200"@, "package_instantiation_201"@, 24);
    lemma_less_at("package_instantiation_201"@, "port_001"@, 1);
    lemma_less_at("port_001"@, "port_022"@, 6);
    lemma_less_at("port_022"@, "port_map_200"@, 5);
    lemma_less_at("port_map_200"@, "procedure_200"@, 1);
    lemma_less_at("procedure_200"@, "process_011"@, 5);
    lemma_less_at("process_011"@, "process_015"@, 10);
    lemma_less_at("process_015"@, "process_021"@, 9);
    lemma_less_at("process_021"@, "process_022"@, 10);
    lemma_less_at("process_022"@, "process_023"@, 10);
    lemma_less_at("process_023"@, "process_026"@, 10);
    lemma_less_at("process_026"@, "process_027"@, 10);
    lemma_less_at("process_027"@, "record_type_definition_200"@, 0);
    lemma_less_at("record_type_definition_200"@, "record_type_definition_201"@, 25);
    lemma_less_at("record_type_definition_201"@, "signal_200"@, 0);
    lemma_less_at("signal_200"@, "subprogram_body_201"@, 1);
    lemma_less_at("subprogram_body_201"@, "subprogram_body_202"@, 18);
    lemma_less_at("subprogram_body_202"@, "subprogram_body_203"@, 18);
    lemma_less_at("subprogram_body_203"@, "subprogram_body_204"@, 18);
    lemma_less_at("subprogram_body_204"@, "subprogram_body_205"@, 18);
    lemma_less_at("subprogram_body_205"@, "subtype_200"@, 3);
    lemma_less_at("subtype_200"@, "subtype_201"@, 10);
    lemma_less_at("subtype_201"@, "subtype_202"@, 10);
    lemma_less_at("subtype_202"@, "type_010"@, 0);
    lemma_less_at("type_010"@, "type_011"@, 7);
    lemma_less_at("type_011"@, "type_200"@, 5);
    assert(s[0] == "architecture_003"@);
    assert(s[1] == "architecture_015"@);
    assert(s[2] == "architecture_016"@);
    assert(s[3] == "architecture_017"@);
    assert(s[4] == "architecture_018"@);
    assert(s[5] == "architecture_200"@);
    assert(s[6] == "block_200"@);
    assert(s[7] == "block_201"@);
    assert(s[8] == "block_202"@);
    assert(s[9] == "block_203"@);
    assert(s[10] == "block_204"@);
    assert(s[11] == "block_205"@);
    assert(s[12] == "case_007"@);
    assert(s[13] == "case_009"@);
    assert(s[14] == "case_010"@);
    assert(s[15] == "case_200"@);
    assert(s[16] == "case_201"@);
    assert(s[17] == "component_003"@);
    assert(s[18] == "component_016"@);
    assert(s[19] == "component_018"@);
    assert(s[20] == "constant_200"@);
    assert(s[21] == "context_003"@);
    assert(s[22] == "context_023"@);
    assert(s[23] == "context_024"@);
    assert(s[24] == "context_025"@);
    assert(s[25] == "entity_003"@);
    assert(s[26] == "entity_016"@);
    assert(s[27] == "entity_200"@);
    assert(s[28] == "entity_201"@);
    assert(s[29] == "entity_202"@);
    assert(s[30] == "entity_203"@);
    assert(s[31] == "function_006"@);
    assert(s[32] == "generate_003"@);
    assert(s[33] == "generate_004"@);
    assert(s[34] == "if_006"@);
    assert(s[35] == "if_007"@);
    assert(s[36] == "if_008"@);
    assert(s[37] == "if_010"@);
    assert(s[38] == "if_011"@);
    assert(s[39] == "if_030"@);
    assert(s[40] == "if_031"@);
    assert(s[41] == "instantiation_004"@);
    assert(s[42] == "instantiation_019"@);
    assert(s[43] == "library_003"@);
    assert(s[44] == "library_007"@);
    assert(s[45] == "loop_statement_200"@);
    assert(s[46] == "loop_statement_201"@);
    assert(s[47] == "loop_statement_202"@);
    assert(s[48] == "loop_statement_203"@);
    assert(s[49] == "package_003"@);
    assert(s[50] == "package_011"@);
    assert(s[51] == "package_012"@);
    assert(s[52] == "package_body_200"@);
    assert(s[53] == "package_body_201"@);
    assert(s[54] == "package_body_202"@);
    assert(s[55] == "package_body_203"@);
    assert(s[56] == "package_instantiation_200"@);
    assert(s[57] == "package_instantiation_201"@);
    assert(s[58] == "port_001"@);
    assert(s[59] == "port_022"@);
    assert(s[60] == "port_map_200"@);
    assert(s[61] == "procedure_200"@);
    assert(s[62] == "process_011"@);
    assert(s[63] == "process_015"@);
    assert(s[64] == "process_021"@);
    assert(s[65] == "process_022"@);
    assert(s[66] == "process_023"@);
    assert(s[67] == "process_026"@);
    assert(s[68] == "process_027"@);
    assert(s[69] == "record_type_definition_200"@);
    assert(s[70] == "record_type_definition_201"@);
    assert(s[71] == "signal_200"@);
    assert(s[72] == "subprogram_body_201"@);
    assert(s[73] == "subprogram_body_202"@);
    assert(s[74] == "subprogram_body_203"@);
    assert(s[75] == "subprogram_body_204"@);
    assert(s[76] == "subprogram_body_205"@);
    assert(s[77] == "subtype_200"@);
    assert(s[78] == "subtype_201"@);
    assert(s[79] == "subtype_202"@);
    assert(s[80] == "type_010"@);
    assert(s[81] == "type_011"@);
    assert(s[82] == "type_200"@);
    assert forall|i: int| 0 <= i < s.len() - 1 implies crate::analysis::design::text_less(#[trigger] s[i], s[i + 1]) by {
        if i == 0 {
        } else if i == 1 {
        } else if i == 2 {
        } else if i == 3 {
        } else if i == 4 {
        } else if i == 5 {
        } else if i == 6 {
        } else if i == 7 {
        } else if i == 8 {
        } else if i == 9 {
        } else if i == 10 {
        } else if i == 11 {
        } else if i == 12 {
        } else if i == 13 {
        } else if i == 14 {
        } else if i == 15 {
        } else if i == 16 {
        } else if i == 17 {
        } else if i == 18 {
        } else if i == 19 {
        } else if i == 20 {
        } else if i == 21 {
        } else if i == 22 {
        } else if i == 23 {
        } else if i == 24 {
        } else if i == 25 {
        } else if i == 26 {
        } else if i == 27 {
        } else if i == 28 {
        } else if i == 29 {
        } else if i == 30 {
        } else if i == 31 {
        } else if i == 32 {
        } else if i == 33 {
        } else if i == 34 {
        } else if i == 35 {
        } else if i == 36 {
        } else if i == 37 {
        } else if i == 38 {
        } else if i == 39 {
        } else if i == 40 {
        } else if i == 41 {
        } else if i == 42 {
        } else if i == 43 {
        } else if i == 44 {
        } else if i == 45 {
        } else if i == 46 {
        } else if i == 47 {
        } else if i == 48 {
        } else if i == 49 {
        } else if i == 50 {
        } else if i == 51 {
        } else if i == 52 {
        } else if i == 53 {
        } else if i == 54 {
        } else if i == 55 {
        } else if i == 56 {
        } else if i == 57 {
        } else if i == 58 {
        } else if i == 59 {
        } else if i == 60 {
        } else if i == 61 {
        } else if i == 62 {
        } else if i == 63 {
        } else if i == 64 {
        } else if i == 65 {
        } else if i == 66 {
        } else if i == 67 {
        } else if i == 68 {
        } else if i == 69 {
        } else if i == 70 {
        } else if i == 71 {
        } else if i == 72 {
        } else if i == 73 {
        } else if i == 74 {
        } else if i == 75 {
        } else if i == 76 {
        } else if i == 77 {
        } else if i == 78 {
        } else if i == 79 {
        } else if i == 80 {
        } else if i == 81 {
        }
    }
    lemma_in_order(s);
    assert forall|i: int, j: int| 0 <= i < j < t.len() implies crate::analysis::design::text_less(
        #[trigger] t[i].0@,
        #[trigger] t[j].0@,
    ) && t[i].0@ != t[j].0@ by {
        assert(s[i] == t[i].0@ && s[j] == t[j].0@);
        if t[i].0@ == t[j].0@ {
            lemma_less_irreflexive(s[i]);
        }
    }
}

/// Nothing comes before itself.
proof fn lemma_less_irreflexive(a: Seq<char>)
    ensures
        !crate::analysis::design::text_less(a, a),
    decreases a.len(),
{
    if a.len() > 0 {
        lemma_less_irreflexive(a.skip(1));
    }
}

} // verus!
