//! Alignment policy (VSG `alignment` rules): declaration names, colons and `:=` in declarative
//! parts, `<=`/`:=` in consecutive assignments, and trailing comments.
//!
//! Operators and names are aligned by the layout builder with padding. Trailing comments are
//! aligned after printing, because their column depends on where the printed lines end: that
//! pass only changes the spaces in front of trailing comments.
use vstd::prelude::*;

use crate::bytes::{extend_range, push_repeated, repeated};
use crate::config::Severity;
use crate::doc::{display_width, spec_display_width};
use crate::rules::RuleInfo;
use crate::analysis::syntax::{
    all_tokens, lemma_child_decreases, spec_tokens, tokens_of, tokens_upto, Element, Kind, Node, Token,
};
use vstd::string::StrSliceExecFns;
use crate::format::spec_disabled_at;
use crate::reflow::switch_off;
use crate::text::count_newlines;

verus! {

/// One alignment policy and how its groups are delimited (VSG's yes/no options).
#[derive(Debug, Clone, Copy, PartialEq, Eq, Structural)]
pub struct Family {
    pub enabled: bool,
    /// A blank line starts a new group.
    pub blank_line_ends_group: bool,
    /// A comment line starts a new group.
    pub comment_line_ends_group: bool,
    /// Trailing comments only: lines without a comment also count for the column.
    pub include_lines_without_comments: bool,
}

impl Family {
    pub fn new(blank: bool, comment: bool, all_lines: bool) -> (r: Family)
        ensures
            r == (Family {
                enabled: true,
                blank_line_ends_group: blank,
                comment_line_ends_group: comment,
                include_lines_without_comments: all_lines,
            }),
    {
        Family {
            enabled: true,
            blank_line_ends_group: blank,
            comment_line_ends_group: comment,
            include_lines_without_comments: all_lines,
        }
    }
}

/// Alignment settings resolved from the configuration.
#[derive(Debug, Clone, Copy, PartialEq, Eq, Structural)]
pub struct AlignSettings {
    /// Names after the declaration keywords (`architecture_029`).
    pub declaration_names: Family,
    /// `:` of declarations (`architecture_026`).
    pub declaration_colons: Family,
    /// `:=` of declarations (`declarative_part_400`).
    pub declaration_assignments: Family,
    /// `<=` of consecutive concurrent assignments (`concurrent_006`).
    pub concurrent_assignments: Family,
    /// `<=` and `:=` of consecutive sequential assignments (`process_400`).
    pub sequential_assignments: Family,
    /// Trailing comments in declarative parts (`architecture_027`).
    pub declaration_comments: Family,
    /// Trailing comments in generic and port clauses (`entity_020`).
    pub interface_comments: Family,
    /// Trailing comments in generic and port maps (`instantiation_029`).
    pub map_comments: Family,
    /// Trailing comments of consecutive concurrent statements (`concurrent_008`).
    pub concurrent_comments: Family,
    /// Trailing comments in process bodies (`process_035`).
    pub process_comments: Family,
    /// `:` in the generic and port clauses of entities and blocks (`entity_017`).
    pub interface_colons: bool,
    /// `:` in the generic and port clauses of components (`component_017`).
    pub component_colons: bool,
    /// `:` in subprogram parameter lists (`procedure_410`).
    pub parameter_colons: bool,
    /// `=>` in generic and port maps and other named associations (`instantiation_010`).
    pub map_arrows: bool,
}

/// A family that groups by blank and comment lines: VSG's default for every family but the
/// trailing comments of process bodies.
pub open spec fn grouped() -> Family {
    Family {
        enabled: true,
        blank_line_ends_group: true,
        comment_line_ends_group: true,
        include_lines_without_comments: false,
    }
}

/// VSG's default alignment settings.
pub open spec fn spec_default_align() -> AlignSettings {
    AlignSettings {
        declaration_names: grouped(),
        declaration_colons: grouped(),
        declaration_assignments: grouped(),
        concurrent_assignments: grouped(),
        sequential_assignments: grouped(),
        declaration_comments: grouped(),
        interface_comments: grouped(),
        map_comments: grouped(),
        concurrent_comments: grouped(),
        process_comments: Family {
            enabled: true,
            blank_line_ends_group: false,
            comment_line_ends_group: false,
            include_lines_without_comments: true,
        },
        interface_colons: true,
        component_colons: true,
        parameter_colons: true,
        map_arrows: true,
    }
}

impl Default for AlignSettings {
    fn default() -> (r: Self)
        ensures
            r == spec_default_align(),
    {
        let group = Family::new(true, true, false);
        AlignSettings {
            declaration_names: group,
            declaration_colons: group,
            declaration_assignments: group,
            concurrent_assignments: group,
            sequential_assignments: group,
            declaration_comments: group,
            interface_comments: group,
            map_comments: group,
            concurrent_comments: group,
            process_comments: Family::new(false, false, true),
            interface_colons: true,
            component_colons: true,
            parameter_colons: true,
            map_arrows: true,
        }
    }
}

/// The description every alignment rule has.
pub open spec fn align_description() -> &'static str {
    "Alignment policy (applied by the formatter)."
}

/// The rule that configures one alignment family.
pub fn info(id: &'static str) -> (r: RuleInfo)
    ensures
        r.id == id,
        r.groups@ == seq!["alignment"],
        r.severity == Severity::Error,
        r.enabled_by_default,
        r.description == align_description(),
{
    let groups: &'static [&'static str] = &["alignment"];
    assert(groups@ == seq!["alignment"]);
    RuleInfo {
        id,
        groups,
        severity: Severity::Error,
        enabled_by_default: true,
        description: "Alignment policy (applied by the formatter).",
    }
}

/// The ids of the VSG rules that configure each family, in [`AlignSettings::families`] order.
pub open spec fn spec_rule_ids() -> Seq<&'static str> {
    seq![
        "architecture_029",
        "architecture_026",
        "declarative_part_400",
        "concurrent_006",
        "process_400",
        "architecture_027",
        "entity_020",
        "instantiation_029",
        "concurrent_008",
        "process_035",
    ]
}

/// The VSG rules that configure each family, in [`AlignSettings::families`] order.
pub fn rules() -> (r: Vec<RuleInfo>)
    ensures
        r@.len() == 10,
        forall|i: int|
            0 <= i < 10 ==> (#[trigger] r@[i]).id == spec_rule_ids()[i] && r@[i].groups@ == seq!["alignment"]
                && r@[i].severity == Severity::Error && r@[i].enabled_by_default,
{
    let mut v: Vec<RuleInfo> = Vec::new();
    v.push(info("architecture_029"));
    v.push(info("architecture_026"));
    v.push(info("declarative_part_400"));
    v.push(info("concurrent_006"));
    v.push(info("process_400"));
    v.push(info("architecture_027"));
    v.push(info("entity_020"));
    v.push(info("instantiation_029"));
    v.push(info("concurrent_008"));
    v.push(info("process_035"));
    v
}

/// The families of `a`, in rule order.
pub open spec fn spec_families(a: AlignSettings) -> Seq<Family> {
    seq![
        a.declaration_names,
        a.declaration_colons,
        a.declaration_assignments,
        a.concurrent_assignments,
        a.sequential_assignments,
        a.declaration_comments,
        a.interface_comments,
        a.map_comments,
        a.concurrent_comments,
        a.process_comments,
    ]
}

/// Whether some family of trailing comments is enabled.
pub open spec fn spec_comments_enabled(a: AlignSettings) -> bool {
    a.declaration_comments.enabled || a.interface_comments.enabled || a.map_comments.enabled
        || a.concurrent_comments.enabled || a.process_comments.enabled
}

impl AlignSettings {
    /// The families, in the order of [`rules`].
    pub fn families(&self) -> (r: Vec<Family>)
        ensures
            r@ == spec_families(*self),
    {
        let mut v: Vec<Family> = Vec::new();
        v.push(self.declaration_names);
        v.push(self.declaration_colons);
        v.push(self.declaration_assignments);
        v.push(self.concurrent_assignments);
        v.push(self.sequential_assignments);
        v.push(self.declaration_comments);
        v.push(self.interface_comments);
        v.push(self.map_comments);
        v.push(self.concurrent_comments);
        v.push(self.process_comments);
        assert(v@ =~= spec_families(*self));
        v
    }

    /// Replace the family configured by the rule at position `i` of [`rules`]; the others are
    /// kept.
    pub fn set_family(&mut self, i: usize, family: Family)
        requires
            i < 10,
        ensures
            spec_families(*final(self)) == spec_families(*old(self)).update(i as int, family),
            final(self).interface_colons == old(self).interface_colons,
            final(self).component_colons == old(self).component_colons,
            final(self).parameter_colons == old(self).parameter_colons,
            final(self).map_arrows == old(self).map_arrows,
    {
        match i {
            0 => self.declaration_names = family,
            1 => self.declaration_colons = family,
            2 => self.declaration_assignments = family,
            3 => self.concurrent_assignments = family,
            4 => self.sequential_assignments = family,
            5 => self.declaration_comments = family,
            6 => self.interface_comments = family,
            7 => self.map_comments = family,
            8 => self.concurrent_comments = family,
            _ => self.process_comments = family,
        }
        assert(spec_families(*self) =~= spec_families(*old(self)).update(i as int, family));
    }

    /// Whether any trailing comments are aligned at all.
    pub fn comments_enabled(&self) -> (r: bool)
        ensures
            r == spec_comments_enabled(*self),
    {
        self.declaration_comments.enabled || self.interface_comments.enabled
            || self.map_comments.enabled || self.concurrent_comments.enabled
            || self.process_comments.enabled
    }
}

/// The number of tabs `text` starts with.
pub open spec fn leading_tabs(text: Seq<u8>) -> int
    decreases text.len(),
{
    if text.len() > 0 && text[0] == 9u8 {
        1 + leading_tabs(text.skip(1))
    } else {
        0
    }
}

/// Width of `text`, with leading tabs (smart-tab indentation) counted as `tab` columns.
pub open spec fn spec_width(text: Seq<u8>, utf8: bool, tab: int) -> int {
    let tabs = leading_tabs(text);
    spec_display_width(text.skip(tabs), utf8, tabs * tab)
}

/// Width of `text`, with leading tabs (smart-tab indentation) counted as `tab` columns.
pub fn width(text: &[u8], utf8: bool, tab: usize) -> (r: usize)
    requires
        text@.len() * (tab + 4) <= usize::MAX,
    ensures
        r == spec_width(text@, utf8, tab as int),
        r <= text@.len() * (tab + 4),
{
    let mut tabs: usize = 0;
    assert(text@.skip(0) =~= text@);
    while tabs < text.len() && text[tabs] == 9u8
        invariant
            0 <= tabs <= text@.len(),
            leading_tabs(text@) == tabs + leading_tabs(text@.skip(tabs as int)),
        decreases text@.len() - tabs,
    {
        assert(text@.skip(tabs as int).skip(1) =~= text@.skip(tabs + 1));
        tabs = tabs + 1;
    }
    proof {
        assert(tabs * tab <= text@.len() * tab) by (nonlinear_arith)
            requires
                tabs <= text@.len(),
        ;
        assert(text@.len() * (tab + 4) == text@.len() * tab + 4 * text@.len()) by (nonlinear_arith);
    }
    let rest = vstd::slice::slice_subrange(text, tabs, text.len());
    assert(rest@ =~= text@.skip(tabs as int));
    let r = display_width(rest, utf8, tabs * tab);
    assert(r <= text@.len() * (tab + 4)) by (nonlinear_arith)
        requires
            r <= tabs * tab + 4 * rest@.len(),
            rest@.len() == text@.len() - tabs,
            tabs <= text@.len(),
    ;
    r
}


/// The kinds of region trailing comments are aligned within.
#[derive(Debug, Clone, Copy, PartialEq, Eq, Structural)]
pub enum Region {
    Declarations,
    Interface,
    MapAspect,
    Concurrent,
    Process,
}

/// The family of alignment settings for comments in a region.
pub open spec fn spec_comment_family(s: AlignSettings, r: Region) -> Family {
    match r {
        Region::Declarations => s.declaration_comments,
        Region::Interface => s.interface_comments,
        Region::MapAspect => s.map_comments,
        Region::Concurrent => s.concurrent_comments,
        Region::Process => s.process_comments,
    }
}

fn comment_family(s: &AlignSettings, r: Region) -> (f: Family)
    ensures
        f == spec_comment_family(*s, r),
{
    match r {
        Region::Declarations => s.declaration_comments,
        Region::Interface => s.interface_comments,
        Region::MapAspect => s.map_comments,
        Region::Concurrent => s.concurrent_comments,
        Region::Process => s.process_comments,
    }
}

/// A line of printed output as comment alignment sees it (offsets into the output).
#[derive(Debug, Clone, Copy, PartialEq, Eq, Structural)]
pub struct CommentLine {
    pub start: usize,
    /// End of the code (exclusive): before the trailing comment, or the end of the line.
    pub code_end: usize,
    pub blank: bool,
    pub comment_only: bool,
    /// Start of the trailing comment, if any (the spaces before it start at `code_end`).
    pub comment: Option<usize>,
    /// Region (by key) of the first token of the line.
    pub region: Option<usize>,
    /// Region (by key) of the token the trailing comment follows.
    pub comment_region: Option<usize>,
    /// Inside a `fmt off` region.
    pub disabled: bool,
}

/// An alignment region: its key, its kind and the lines `first..=last` it spans.
#[derive(Debug, Clone, Copy, PartialEq, Eq, Structural)]
pub struct RegionSpan {
    pub key: usize,
    pub region: Region,
    pub first: usize,
    pub last: usize,
}

/// Where a line stops: at its trailing comment, or at the end of its code.
pub open spec fn stop(l: CommentLine) -> int {
    match l.comment {
        Some(c) => c as int,
        None => l.code_end as int,
    }
}

/// The lines lie in `source`, in order, each comment after its line's code.
pub open spec fn lines_wf(source: Seq<u8>, lines: Seq<CommentLine>) -> bool {
    &&& forall|i: int|
        0 <= i < lines.len() ==> (#[trigger] lines[i]).start <= lines[i].code_end <= stop(lines[i])
            <= source.len()
    &&& forall|i: int, j: int| 0 <= i < j < lines.len() ==> stop(#[trigger] lines[i]) <= (
    #[trigger] lines[j]).start
}

/// The column a line's code ends at.
pub open spec fn code_column(source: Seq<u8>, l: CommentLine, utf8: bool, tab: int) -> int {
    spec_width(source.subrange(l.start as int, l.code_end as int), utf8, tab)
}

/// The line has a trailing comment that belongs to region `key`.
pub open spec fn mine(l: CommentLine, key: usize) -> bool {
    l.comment is Some && l.comment_region == Some(key)
}

/// The largest code column among the lines of `group` that count: all of them, or only those
/// with a comment of region `key`.
pub open spec fn group_max(
    lines: Seq<CommentLine>,
    cols: Seq<usize>,
    group: Seq<usize>,
    key: usize,
    all_lines: bool,
) -> Option<usize>
    decreases group.len(),
{
    if group.len() == 0 {
        None
    } else {
        let rest = group_max(lines, cols, group.drop_last(), key, all_lines);
        let l = group.last() as int;
        if all_lines || mine(lines[l], key) {
            match rest {
                Some(m) => Some(if m >= cols[l] {
                    m
                } else {
                    cols[l]
                }),
                None => Some(cols[l]),
            }
        } else {
            rest
        }
    }
}

/// `t` lowered to `column`: a line aligned twice keeps the leftmost column.
pub open spec fn lower(t: Option<usize>, column: usize) -> Option<usize> {
    match t {
        Some(x) => Some(if x <= column {
            x
        } else {
            column
        }),
        None => Some(column),
    }
}

/// The comments of region `key` on the lines of `group` are put at `column`.
pub open spec fn mark(
    targets: Seq<Option<usize>>,
    lines: Seq<CommentLine>,
    group: Seq<usize>,
    key: usize,
    column: usize,
) -> Seq<Option<usize>>
    decreases group.len(),
{
    if group.len() == 0 {
        targets
    } else {
        let before = mark(targets, lines, group.drop_last(), key, column);
        let l = group.last() as int;
        if mine(lines[l], key) {
            before.update(l, lower(before[l], column))
        } else {
            before
        }
    }
}

/// A finished group: its comments go one column after its longest code.
pub open spec fn flush(
    targets: Seq<Option<usize>>,
    lines: Seq<CommentLine>,
    cols: Seq<usize>,
    group: Seq<usize>,
    key: usize,
    all_lines: bool,
) -> Seq<Option<usize>> {
    match group_max(lines, cols, group, key, all_lines) {
        Some(m) => mark(targets, lines, group, key, (m + 1) as usize),
        None => targets,
    }
}

/// The groups of region `key` from line `l` to `last`: a blank or comment line (as the family
/// says) or a line in a `fmt off` region ends a group, and so does a line of a nested region;
/// other blank and comment lines are passed over.
pub open spec fn scan(
    lines: Seq<CommentLine>,
    cols: Seq<usize>,
    key: usize,
    fam: Family,
    l: int,
    last: int,
    group: Seq<usize>,
    targets: Seq<Option<usize>>,
) -> Seq<Option<usize>>
    decreases lines.len() - l,
{
    let all = fam.include_lines_without_comments;
    if l < 0 || l > last || l >= lines.len() {
        flush(targets, lines, cols, group, key, all)
    } else {
        let line = lines[l];
        let ends = (line.blank && fam.blank_line_ends_group) || (line.comment_only
            && fam.comment_line_ends_group) || line.disabled;
        if ends {
            scan(lines, cols, key, fam, l + 1, last, Seq::empty(), flush(targets, lines, cols, group, key, all))
        } else if line.blank || line.comment_only {
            scan(lines, cols, key, fam, l + 1, last, group, targets)
        } else if line.region == Some(key) || line.comment_region == Some(key) || all {
            scan(lines, cols, key, fam, l + 1, last, group.push(l as usize), targets)
        } else {
            scan(lines, cols, key, fam, l + 1, last, Seq::empty(), flush(targets, lines, cols, group, key, all))
        }
    }
}

/// The comment columns the regions `0..n` ask for, region by region.
pub open spec fn region_targets(
    lines: Seq<CommentLine>,
    cols: Seq<usize>,
    regions: Seq<RegionSpan>,
    settings: AlignSettings,
    n: int,
) -> Seq<Option<usize>>
    decreases n,
{
    if n <= 0 {
        Seq::new(lines.len(), |i: int| None::<usize>)
    } else {
        let before = region_targets(lines, cols, regions, settings, n - 1);
        let r = regions[n - 1];
        let fam = spec_comment_family(settings, r.region);
        if fam.enabled {
            scan(lines, cols, r.key, fam, r.first as int, r.last as int, Seq::empty(), before)
        } else {
            before
        }
    }
}

/// The spaces that put a comment at `column` after code ending at `code`: at least one.
pub open spec fn spaces_for(column: usize, code: usize) -> int {
    if column > code + 1 {
        column - code
    } else {
        1
    }
}

/// `source` from `pos` on, with the spaces before each aligned comment of lines `i..` replaced.
pub open spec fn rebuild(
    source: Seq<u8>,
    lines: Seq<CommentLine>,
    cols: Seq<usize>,
    targets: Seq<Option<usize>>,
    i: int,
    pos: int,
) -> Seq<u8>
    decreases lines.len() - i,
{
    if i < 0 || i >= lines.len() {
        source.subrange(pos, source.len() as int)
    } else {
        match (targets[i], lines[i].comment) {
            (Some(t), Some(c)) => source.subrange(pos, lines[i].code_end as int) + repeated(
                32u8,
                spaces_for(t, cols[i]),
            ) + rebuild(source, lines, cols, targets, i + 1, c as int),
            _ => rebuild(source, lines, cols, targets, i + 1, pos),
        }
    }
}

/// The code columns of the lines.
pub open spec fn code_columns(source: Seq<u8>, lines: Seq<CommentLine>, utf8: bool, tab: int) -> Seq<usize> {
    Seq::new(lines.len(), |i: int| code_column(source, lines[i], utf8, tab) as usize)
}

/// The printed output with its trailing comments aligned.
pub open spec fn spec_align_lines(
    source: Seq<u8>,
    lines: Seq<CommentLine>,
    regions: Seq<RegionSpan>,
    settings: AlignSettings,
    utf8: bool,
    tab: int,
) -> Seq<u8> {
    if !spec_comments_enabled(settings) {
        source
    } else {
        let cols = code_columns(source, lines, utf8, tab);
        rebuild(source, lines, cols, region_targets(lines, cols, regions, settings, regions.len() as int), 0, 0)
    }
}


/// The code column of each line.
fn code_cols(source: &[u8], lines: &[CommentLine], utf8: bool, tab: usize) -> (r: Vec<usize>)
    requires
        lines_wf(source@, lines@),
        source@.len() * (tab + 4) < usize::MAX,
    ensures
        r@ == code_columns(source@, lines@, utf8, tab as int),
        forall|i: int| 0 <= i < r@.len() ==> #[trigger] r@[i] < usize::MAX,
{
    let mut out: Vec<usize> = Vec::new();
    let mut i: usize = 0;
    while i < lines.len()
        invariant
            0 <= i <= lines@.len(),
            lines_wf(source@, lines@),
            source@.len() * (tab + 4) < usize::MAX,
            out@.len() == i,
            forall|k: int| 0 <= k < i ==> #[trigger] out@[k] == code_column(source@, lines@[k], utf8, tab as int) as usize,
            forall|k: int| 0 <= k < i ==> #[trigger] out@[k] < usize::MAX,
        decreases lines@.len() - i,
    {
        let l = lines[i];
        assert(lines@[i as int] == l);
        let text = vstd::slice::slice_subrange(source, l.start, l.code_end);
        proof {
            let n = text@.len();
            assert(n <= source@.len());
            assert(n * (tab + 4) <= source@.len() * (tab + 4)) by (nonlinear_arith)
                requires
                    n <= source@.len(),
            ;
        }
        let c = width(text, utf8, tab);
        proof {
            assert(text@ =~= source@.subrange(l.start as int, l.code_end as int));
            assert(text@.len() * (tab + 4) <= source@.len() * (tab + 4)) by (nonlinear_arith)
                requires
                    text@.len() <= source@.len(),
            ;
        }
        out.push(c);
        i = i + 1;
    }
    assert(out@ =~= code_columns(source@, lines@, utf8, tab as int));
    out
}

/// Put the comments of region `key` in `group` one column after the group's longest code.
fn flush_group(
    targets: &mut Vec<Option<usize>>,
    lines: &[CommentLine],
    cols: &Vec<usize>,
    group: &Vec<usize>,
    key: usize,
    all_lines: bool,
)
    requires
        old(targets)@.len() == lines@.len(),
        cols@.len() == lines@.len(),
        forall|i: int| 0 <= i < cols@.len() ==> #[trigger] cols@[i] < usize::MAX,
        forall|i: int| 0 <= i < group@.len() ==> #[trigger] group@[i] < lines@.len(),
    ensures
        final(targets)@ == flush(old(targets)@, lines@, cols@, group@, key, all_lines),
        final(targets)@.len() == lines@.len(),
{
    let mut m: Option<usize> = None;
    let mut i: usize = 0;
    assert(group@.take(0) =~= Seq::<usize>::empty());
    while i < group.len()
        invariant
            0 <= i <= group@.len(),
            cols@.len() == lines@.len(),
            forall|k: int| 0 <= k < cols@.len() ==> #[trigger] cols@[k] < usize::MAX,
            forall|k: int| 0 <= k < group@.len() ==> #[trigger] group@[k] < lines@.len(),
            m == group_max(lines@, cols@, group@.take(i as int), key, all_lines),
            m matches Some(v) ==> v < usize::MAX,
        decreases group@.len() - i,
    {
        let l = group[i];
        assert(group@.take(i + 1).drop_last() =~= group@.take(i as int));
        assert(group@.take(i + 1).last() == l);
        let line = lines[l];
        if all_lines || (line.comment.is_some() && line.comment_region == Some(key)) {
            let c = cols[l];
            m = match m {
                Some(v) => Some(if v >= c {
                    v
                } else {
                    c
                }),
                None => Some(c),
            };
        }
        i = i + 1;
    }
    assert(group@.take(group@.len() as int) =~= group@);
    if let Some(v) = m {
        let column = v + 1;
        let ghost t0 = targets@;
        let mut j: usize = 0;
        while j < group.len()
            invariant
                0 <= j <= group@.len(),
                t0.len() == lines@.len(),
                forall|k: int| 0 <= k < group@.len() ==> #[trigger] group@[k] < lines@.len(),
                targets@ == mark(t0, lines@, group@.take(j as int), key, column),
                targets@.len() == lines@.len(),
            decreases group@.len() - j,
        {
            let l = group[j];
            assert(group@.take(j + 1).drop_last() =~= group@.take(j as int));
            assert(group@.take(j + 1).last() == l);
            let line = lines[l];
            if line.comment.is_some() && line.comment_region == Some(key) {
                let lowered = match targets[l] {
                    Some(x) => Some(if x <= column {
                        x
                    } else {
                        column
                    }),
                    None => Some(column),
                };
                targets.set(l, lowered);
            }
            j = j + 1;
        }
        assert(group@.take(group@.len() as int) =~= group@);
    }
}

/// Align the comments of one region, group by group.
fn scan_region(
    targets: &mut Vec<Option<usize>>,
    lines: &[CommentLine],
    cols: &Vec<usize>,
    span: RegionSpan,
    fam: Family,
)
    requires
        old(targets)@.len() == lines@.len(),
        cols@.len() == lines@.len(),
        forall|i: int| 0 <= i < cols@.len() ==> #[trigger] cols@[i] < usize::MAX,
    ensures
        final(targets)@ == scan(
            lines@,
            cols@,
            span.key,
            fam,
            span.first as int,
            span.last as int,
            Seq::empty(),
            old(targets)@,
        ),
        final(targets)@.len() == lines@.len(),
{
    let key = span.key;
    let all = fam.include_lines_without_comments;
    let mut group: Vec<usize> = Vec::new();
    let mut l = span.first;
    while l < lines.len() && l <= span.last
        invariant
            span.first <= l,
            key == span.key,
            all == fam.include_lines_without_comments,
            cols@.len() == lines@.len(),
            forall|i: int| 0 <= i < cols@.len() ==> #[trigger] cols@[i] < usize::MAX,
            forall|i: int| 0 <= i < group@.len() ==> #[trigger] group@[i] < lines@.len(),
            targets@.len() == lines@.len(),
            scan(lines@, cols@, key, fam, l as int, span.last as int, group@, targets@) == scan(
                lines@,
                cols@,
                key,
                fam,
                span.first as int,
                span.last as int,
                Seq::empty(),
                old(targets)@,
            ),
        decreases lines@.len() - l,
    {
        let line = lines[l];
        assert(lines@[l as int] == line);
        let ghost g0 = group@;
        let ghost t0 = targets@;
        let ends = (line.blank && fam.blank_line_ends_group) || (line.comment_only
            && fam.comment_line_ends_group) || line.disabled;
        let ghost next = scan(lines@, cols@, key, fam, l as int, span.last as int, g0, t0);
        if ends {
            flush_group(targets, lines, cols, &group, key, all);
            group = Vec::new();
            assert(group@ =~= Seq::<usize>::empty());
            assert(next == scan(lines@, cols@, key, fam, l + 1, span.last as int, Seq::empty(), flush(t0, lines@, cols@, g0, key, all)));
        } else if line.blank || line.comment_only {
            assert(next == scan(lines@, cols@, key, fam, l + 1, span.last as int, g0, t0));
        } else if line.region == Some(key) || line.comment_region == Some(key) || all {
            group.push(l);
            assert(next == scan(lines@, cols@, key, fam, l + 1, span.last as int, g0.push(l), t0));
        } else {
            flush_group(targets, lines, cols, &group, key, all);
            group = Vec::new();
            assert(group@ =~= Seq::<usize>::empty());
            assert(next == scan(lines@, cols@, key, fam, l + 1, span.last as int, Seq::empty(), flush(t0, lines@, cols@, g0, key, all)));
        }
        l = l + 1;
    }
    flush_group(targets, lines, cols, &group, key, all);
}

/// Align the trailing comments of printed output (`\n` line endings), given its lines and the
/// regions they belong to: within each group of lines of a region, every trailing comment of
/// the region goes one column after the group's longest code. A line aligned by two regions
/// keeps the leftmost column; at least one space always stays before a comment.
pub fn align_lines(
    source: &[u8],
    lines: &[CommentLine],
    regions: &[RegionSpan],
    settings: &AlignSettings,
    utf8: bool,
    tab: usize,
) -> (r: Vec<u8>)
    requires
        lines_wf(source@, lines@),
        source@.len() * (tab + 4) < usize::MAX,
    ensures
        r@ == spec_align_lines(source@, lines@, regions@, *settings, utf8, tab as int),
{
    let mut out: Vec<u8> = Vec::new();
    if !settings.comments_enabled() {
        extend_range(&mut out, source, 0, source.len());
        assert(source@.subrange(0, source@.len() as int) =~= source@);
        return out;
    }
    let cols = code_cols(source, lines, utf8, tab);
    let mut targets: Vec<Option<usize>> = Vec::new();
    let mut k: usize = 0;
    while k < lines.len()
        invariant
            0 <= k <= lines@.len(),
            targets@ == Seq::new(k as nat, |i: int| None::<usize>),
        decreases lines@.len() - k,
    {
        targets.push(None);
        k = k + 1;
        assert(targets@ =~= Seq::new(k as nat, |i: int| None::<usize>));
    }
    let mut i: usize = 0;
    while i < regions.len()
        invariant
            0 <= i <= regions@.len(),
            cols@ == code_columns(source@, lines@, utf8, tab as int),
            forall|j: int| 0 <= j < cols@.len() ==> #[trigger] cols@[j] < usize::MAX,
            targets@ == region_targets(lines@, cols@, regions@, *settings, i as int),
            targets@.len() == lines@.len(),
        decreases regions@.len() - i,
    {
        let span = regions[i];
        let fam = comment_family(settings, span.region);
        if fam.enabled {
            scan_region(&mut targets, lines, &cols, span, fam);
        }
        i = i + 1;
    }
    // Rebuild the output, replacing the spaces before each aligned comment.
    let ghost whole = rebuild(source@, lines@, cols@, targets@, 0, 0);
    let mut pos: usize = 0;
    let mut l: usize = 0;
    assert(out@ + rebuild(source@, lines@, cols@, targets@, 0, 0) =~= whole);
    while l < lines.len()
        invariant
            0 <= l <= lines@.len(),
            lines_wf(source@, lines@),
            cols@.len() == lines@.len(),
            targets@.len() == lines@.len(),
            pos <= source@.len(),
            l < lines@.len() ==> pos <= lines@[l as int].start,
            out@ + rebuild(source@, lines@, cols@, targets@, l as int, pos as int) == whole,
        decreases lines@.len() - l,
    {
        let line = lines[l];
        assert(lines@[l as int] == line);
        let ghost o0 = out@;
        let ghost rest = rebuild(source@, lines@, cols@, targets@, l as int, pos as int);
        match (targets[l], line.comment) {
            (Some(t), Some(c)) => {
                let code = cols[l];
                let n = if t > code && t - code > 1 {
                    t - code
                } else {
                    1
                };
                extend_range(&mut out, source, pos, line.code_end);
                push_repeated(&mut out, 32u8, n);
                pos = c;
            },
            _ => {},
        }
        proof {
            if l + 1 < lines@.len() {
                assert(stop(lines@[l as int]) <= lines@[l + 1].start);
            }
        }
        l = l + 1;
        assert(out@ + rebuild(source@, lines@, cols@, targets@, l as int, pos as int) =~= o0 + rest);
    }
    assert(rebuild(source@, lines@, cols@, targets@, l as int, pos as int) == source@.subrange(pos as int, source@.len() as int));
    extend_range(&mut out, source, pos, source.len());
    out
}


/// Where the line that starts at `i` ends: at its line feed, or at the end of `s`.
pub open spec fn next_newline(s: Seq<u8>, i: int) -> int
    decreases s.len() - i,
{
    if i < 0 || i >= s.len() {
        s.len() as int
    } else if s[i] == 10u8 {
        i
    } else {
        next_newline(s, i + 1)
    }
}

pub proof fn lemma_next_newline(s: Seq<u8>, i: int)
    requires
        0 <= i <= s.len(),
    ensures
        i <= next_newline(s, i) <= s.len(),
        next_newline(s, i) < s.len() ==> s[next_newline(s, i)] == 10u8,
    decreases s.len() - i,
{
    if i < s.len() && s[i] != 10u8 {
        lemma_next_newline(s, i + 1);
    }
}

/// The first byte of `text` that is neither a space nor a tab.
pub open spec fn first_non_blank(text: Seq<u8>, i: int) -> Option<int>
    decreases text.len() - i,
{
    if i < 0 || i >= text.len() {
        None
    } else if text[i] != 32u8 && text[i] != 9u8 {
        Some(i)
    } else {
        first_non_blank(text, i + 1)
    }
}

/// The line `start..end` of `s`: blank, or starting with a comment, or code.
pub open spec fn line_info(s: Seq<u8>, start: int, end: int) -> CommentLine {
    let text = s.subrange(start, end);
    let first = first_non_blank(text, 0);
    CommentLine {
        start: start as usize,
        code_end: end as usize,
        blank: first is None,
        comment_only: match first {
            Some(p) => p + 1 < text.len() && text[p] == 45u8 && text[p + 1] == 45u8,
            None => false,
        },
        comment: None,
        region: None,
        comment_region: None,
        disabled: false,
    }
}

/// The lines of `s` from offset `start` on; a line feed at the end starts a last, empty line.
pub open spec fn lines_from_offset(s: Seq<u8>, start: int) -> Seq<CommentLine>
    decreases s.len() - start,
{
    if start < 0 || start > s.len() {
        Seq::empty()
    } else {
        let end = next_newline(s, start);
        proof {
            lemma_next_newline(s, start);
        }
        if end >= s.len() {
            seq![line_info(s, start, s.len() as int)]
        } else {
            seq![line_info(s, start, end)] + lines_from_offset(s, end + 1)
        }
    }
}

/// The lines of printed output as comment alignment starts from: where each starts and ends,
/// and whether it is blank or starts with a comment.
pub fn comment_lines(source: &[u8]) -> (r: Vec<CommentLine>)
    ensures
        r@ == lines_from_offset(source@, 0),
{
    let mut out: Vec<CommentLine> = Vec::new();
    let mut start: usize = 0;
    let mut more = true;
    while more
        invariant
            more ==> start <= source@.len(),
            more ==> out@ + lines_from_offset(source@, start as int) == lines_from_offset(source@, 0),
            !more ==> out@ == lines_from_offset(source@, 0),
        decreases source@.len() + 1 - start, if more { 1int } else { 0int },
    {
        let mut end = start;
        while end < source.len() && source[end] != 10u8
            invariant
                start <= end <= source@.len(),
                next_newline(source@, start as int) == next_newline(source@, end as int),
            decreases source@.len() - end,
        {
            end = end + 1;
        }
        let mut first = start;
        while first < end && (source[first] == 32u8 || source[first] == 9u8)
            invariant
                start <= first <= end <= source@.len(),
                first_non_blank(source@.subrange(start as int, end as int), 0) == first_non_blank(
                    source@.subrange(start as int, end as int),
                    first - start,
                ),
            decreases end - first,
        {
            first = first + 1;
        }
        let blank = first == end;
        let comment_only = !blank && first + 1 < end && source[first] == 45u8 && source[first + 1] == 45u8;
        let line = CommentLine {
            start,
            code_end: end,
            blank,
            comment_only,
            comment: None,
            region: None,
            comment_region: None,
            disabled: false,
        };
        proof {
            let text = source@.subrange(start as int, end as int);
            if end < source@.len() {
                assert(source@[end as int] == 10u8);
            }
            assert(next_newline(source@, end as int) == end);
            if first < end {
                assert(text[first - start] == source@[first as int]);
                assert(first_non_blank(text, first - start) == Some(first - start));
                if first + 1 < end {
                    assert(text[first - start + 1] == source@[first + 1]);
                }
            }
            assert(line == line_info(source@, start as int, end as int));
        }
        let ghost rest = lines_from_offset(source@, start as int);
        out.push(line);
        if end >= source.len() {
            more = false;
            assert(rest == seq![line]);
            assert(out@ =~= lines_from_offset(source@, 0));
        } else {
            assert(rest == seq![line] + lines_from_offset(source@, end + 1));
            assert(out@ + lines_from_offset(source@, end + 1) =~= lines_from_offset(source@, 0));
            start = end + 1;
        }
    }
    out
}

/// The lines of `comment_lines` lie in the output, in order.
pub proof fn lemma_comment_lines_wf(s: Seq<u8>, start: int)
    requires
        0 <= start <= s.len(),
        s.len() <= usize::MAX,
    ensures
        lines_wf(s, lines_from_offset(s, start)),
        forall|i: int| 0 <= i < lines_from_offset(s, start).len() ==> start <= #[trigger] lines_from_offset(s, start)[i].start,
    decreases s.len() - start,
{
    lemma_next_newline(s, start);
    let end = next_newline(s, start);
    let first = if end >= s.len() {
        line_info(s, start, s.len() as int)
    } else {
        line_info(s, start, end)
    };
    assert(first.start as int == start);
    assert(first.code_end as int == if end >= s.len() { s.len() as int } else { end });
    if end >= s.len() {
        assert(lines_from_offset(s, start) == seq![first]);
    } else {
        lemma_comment_lines_wf(s, end + 1);
        let rest = lines_from_offset(s, end + 1);
        let all = lines_from_offset(s, start);
        assert(all == seq![line_info(s, start, end)] + rest);
        assert forall|i: int, j: int| 0 <= i < j < all.len() implies stop(#[trigger] all[i]) <= (#[trigger] all[j]).start by {
            if i > 0 {
                assert(all[i] == rest[i - 1]);
            }
            assert(all[j] == rest[j - 1]);
        }
        assert forall|i: int| 0 <= i < all.len() implies (#[trigger] all[i]).start <= all[i].code_end <= stop(all[i]) <= s.len() by {
            if i > 0 {
                assert(all[i] == rest[i - 1]);
            }
        }
        assert forall|i: int| 0 <= i < all.len() implies start <= #[trigger] all[i].start by {
            if i > 0 {
                assert(all[i] == rest[i - 1]);
            }
        }
    }
}

// What aligning changes ---------------------------------------------------------------------------

/// `s` without its spaces and tabs.
pub open spec fn no_blanks(s: Seq<u8>) -> Seq<u8>
    decreases s.len(),
{
    if s.len() == 0 {
        s
    } else {
        no_blanks(s.drop_last()) + if s.last() == 32u8 || s.last() == 9u8 {
            Seq::<u8>::empty()
        } else {
            seq![s.last()]
        }
    }
}

proof fn lemma_no_blanks_add(a: Seq<u8>, b: Seq<u8>)
    ensures
        no_blanks(a + b) == no_blanks(a) + no_blanks(b),
    decreases b.len(),
{
    if b.len() == 0 {
        assert(a + b =~= a);
        assert(no_blanks(a) + no_blanks(b) =~= no_blanks(a));
    } else {
        assert((a + b).drop_last() =~= a + b.drop_last());
        assert((a + b).last() == b.last());
        lemma_no_blanks_add(a, b.drop_last());
        let tail = if b.last() == 32u8 || b.last() == 9u8 {
            Seq::<u8>::empty()
        } else {
            seq![b.last()]
        };
        assert(no_blanks(a) + no_blanks(b.drop_last()) + tail =~= no_blanks(a) + (no_blanks(b.drop_last())
            + tail));
    }
}

proof fn lemma_only_blanks(s: Seq<u8>)
    requires
        forall|k: int| 0 <= k < s.len() ==> s[k] == 32u8 || s[k] == 9u8,
    ensures
        no_blanks(s) == Seq::<u8>::empty(),
    decreases s.len(),
{
    if s.len() > 0 {
        lemma_only_blanks(s.drop_last());
    }
}

/// Between its code and its trailing comment, every line holds only spaces and tabs.
pub open spec fn blank_gaps(source: Seq<u8>, lines: Seq<CommentLine>) -> bool {
    forall|i: int, k: int|
        #![trigger lines[i], source[k]]
        0 <= i < lines.len() && lines[i].comment is Some && lines[i].code_end <= k < stop(lines[i])
            ==> source[k] == 32u8 || source[k] == 9u8
}

proof fn lemma_rebuild_blanks(
    source: Seq<u8>,
    lines: Seq<CommentLine>,
    cols: Seq<usize>,
    targets: Seq<Option<usize>>,
    i: int,
    pos: int,
)
    requires
        lines_wf(source, lines),
        blank_gaps(source, lines),
        0 <= i,
        0 <= pos <= source.len(),
        i < lines.len() ==> pos <= lines[i].start,
    ensures
        no_blanks(rebuild(source, lines, cols, targets, i, pos)) == no_blanks(source.subrange(pos, source.len() as int)),
    decreases lines.len() - i,
{
    if i < lines.len() {
        let l = lines[i];
        if i + 1 < lines.len() {
            assert(stop(lines[i]) <= lines[i + 1].start);
            assert(lines[i].start <= lines[i + 1].start);
        }
        match (targets[i], l.comment) {
            (Some(t), Some(c)) => {
                lemma_rebuild_blanks(source, lines, cols, targets, i + 1, c as int);
                let a = source.subrange(pos, l.code_end as int);
                let g = source.subrange(l.code_end as int, c as int);
                let b = source.subrange(c as int, source.len() as int);
                let sp = repeated(32u8, spaces_for(t, cols[i]));
                assert(source.subrange(pos, source.len() as int) =~= a + g + b);
                lemma_no_blanks_add(a + g, b);
                lemma_no_blanks_add(a, g);
                lemma_only_blanks(g);
                lemma_only_blanks(sp);
                lemma_no_blanks_add(a + sp, rebuild(source, lines, cols, targets, i + 1, c as int));
                lemma_no_blanks_add(a, sp);
                assert(no_blanks(a) + Seq::<u8>::empty() =~= no_blanks(a));
                assert(no_blanks(a) + Seq::<u8>::empty() + no_blanks(b) =~= no_blanks(a) + no_blanks(b));
            },
            _ => {
                lemma_rebuild_blanks(source, lines, cols, targets, i + 1, pos);
            },
        }
    }
}

/// Aligning trailing comments changes nothing but blanks: with the spaces and tabs left out,
/// the output is the input (when each line holds only blanks between its code and its
/// comment, as printed output does).
pub proof fn law_align_changes_only_blanks(
    source: Seq<u8>,
    lines: Seq<CommentLine>,
    regions: Seq<RegionSpan>,
    settings: AlignSettings,
    utf8: bool,
    tab: int,
)
    requires
        lines_wf(source, lines),
        blank_gaps(source, lines),
    ensures
        no_blanks(spec_align_lines(source, lines, regions, settings, utf8, tab)) == no_blanks(source),
{
    if spec_comments_enabled(settings) {
        let cols = code_columns(source, lines, utf8, tab);
        let targets = region_targets(lines, cols, regions, settings, regions.len() as int);
        if lines.len() > 0 {
            assert(0 <= lines[0].start);
        }
        lemma_rebuild_blanks(source, lines, cols, targets, 0, 0);
        assert(source.subrange(0, source.len() as int) =~= source);
    }
}

// Where trailing comments stand and which region they belong to --------------------------------

/// The alignment region a node of kind `kind` is, under a node of kind `parent`.
pub open spec fn spec_region_of(kind: Kind, parent: Option<Kind>) -> Option<Region> {
    match kind {
        Kind::ArchitectureDeclarativePart | Kind::BlockDeclarativePart | Kind::ProcessDeclarativePart
        | Kind::PackageDeclarativePart | Kind::PackageBodyDeclarativePart | Kind::SubprogramDeclarativePart
        | Kind::ProtectedTypeBodyDeclarativePart | Kind::ProtectedTypeDeclarativePart
        | Kind::EntityDeclarativePart => Some(Region::Declarations),
        Kind::InterfaceList => if parent == Some(Kind::GenericClause) || parent == Some(Kind::PortClause) {
            Some(Region::Interface)
        } else {
            None
        },
        Kind::AssociationList => if parent == Some(Kind::GenericMapAspect) || parent == Some(Kind::PortMapAspect) {
            Some(Region::MapAspect)
        } else {
            None
        },
        Kind::ArchitectureStatementPart | Kind::BlockStatementPart => Some(Region::Concurrent),
        Kind::ProcessStatementPart => Some(Region::Process),
        _ => None,
    }
}

/// The alignment region a node of kind `kind` is, under a node of kind `parent`.
pub fn region_of(kind: Kind, parent: Option<Kind>) -> (r: Option<Region>)
    ensures
        r == spec_region_of(kind, parent),
{
    match kind {
        Kind::ArchitectureDeclarativePart | Kind::BlockDeclarativePart | Kind::ProcessDeclarativePart
        | Kind::PackageDeclarativePart | Kind::PackageBodyDeclarativePart | Kind::SubprogramDeclarativePart
        | Kind::ProtectedTypeBodyDeclarativePart | Kind::ProtectedTypeDeclarativePart
        | Kind::EntityDeclarativePart => Some(Region::Declarations),
        Kind::InterfaceList => if parent == Some(Kind::GenericClause) || parent == Some(Kind::PortClause) {
            Some(Region::Interface)
        } else {
            None
        },
        Kind::AssociationList => if parent == Some(Kind::GenericMapAspect) || parent == Some(Kind::PortMapAspect) {
            Some(Region::MapAspect)
        } else {
            None
        },
        Kind::ArchitectureStatementPart | Kind::BlockStatementPart => Some(Region::Concurrent),
        Kind::ProcessStatementPart => Some(Region::Process),
        _ => None,
    }
}

/// Where a token's text ends, as a `usize` can say it.
pub open spec fn token_end(t: Token) -> int {
    if t.offset + t.latin1@.len() <= usize::MAX {
        t.offset + t.latin1@.len()
    } else {
        usize::MAX as int
    }
}

/// A region node: its kind, where its first token starts (which is its key) and where its last
/// token ends.
pub open spec fn region_node(r: Region, n: Node) -> (Region, int, int) {
    let ts = spec_tokens(n);
    if ts.len() == 0 {
        (r, 0, 0)
    } else {
        (r, ts[0].offset as int, token_end(ts.last()))
    }
}

/// For each token under `n`, in order, the innermost region containing it; `here` is the
/// innermost region around `n`, and `parent` the kind of the node holding `n`.
pub open spec fn token_regions(n: Node, parent: Option<Kind>, here: Option<(Region, int, int)>) -> Seq<
    Option<(Region, int, int)>,
>
    decreases n, 1int, 0int,
{
    let inner = match spec_region_of(n.kind, parent) {
        Some(r) => Some(region_node(r, n)),
        None => here,
    };
    regions_upto(n, inner, n.elements@.len() as int)
}

/// [`token_regions`] for the first `i` elements of `n`, inside region `inner`.
pub open spec fn regions_upto(n: Node, inner: Option<(Region, int, int)>, i: int) -> Seq<
    Option<(Region, int, int)>,
>
    decreases n, 0int, i,
{
    if i <= 0 || i > n.elements@.len() {
        Seq::empty()
    } else {
        regions_upto(n, inner, i - 1) + match n.elements@[i - 1] {
            Element::Node(c) => {
                proof {
                    lemma_child_decreases(n, i - 1);
                }
                token_regions(c, Some(n.kind), inner)
            },
            Element::Token(_) => seq![inner],
        }
    }
}

pub proof fn lemma_token_regions_len(n: Node, parent: Option<Kind>, here: Option<(Region, int, int)>)
    ensures
        token_regions(n, parent, here).len() == spec_tokens(n).len(),
    decreases n, 1int, 0int,
{
    let inner = match spec_region_of(n.kind, parent) {
        Some(r) => Some(region_node(r, n)),
        None => here,
    };
    lemma_regions_upto_len(n, inner, n.elements@.len() as int);
}

pub proof fn lemma_regions_upto_len(n: Node, inner: Option<(Region, int, int)>, i: int)
    ensures
        0 <= i <= n.elements@.len() ==> regions_upto(n, inner, i).len() == tokens_upto(n, i).len(),
    decreases n, 0int, i,
{
    if 0 < i <= n.elements@.len() {
        lemma_regions_upto_len(n, inner, i - 1);
        match n.elements@[i - 1] {
            Element::Node(c) => {
                lemma_child_decreases(n, i - 1);
                lemma_token_regions_len(c, Some(n.kind), inner);
            },
            Element::Token(_) => {},
        }
    }
}

/// A region node as [`region_node`] gives it.
fn region_node_of(r: Region, n: &Node) -> (x: (Region, usize, usize))
    ensures
        (x.0, x.1 as int, x.2 as int) == region_node(r, *n),
{
    let ts = all_tokens(n);
    if ts.len() == 0 {
        return (r, 0, 0);
    }
    let t0 = ts[0];
    let tl = ts[ts.len() - 1];
    assert(tokens_of(ts@)[0] == *t0);
    assert(tokens_of(ts@).last() == *tl);
    let len = tl.latin1.as_str().unicode_len();
    let end = if tl.offset <= usize::MAX - len {
        tl.offset + len
    } else {
        usize::MAX
    };
    (r, t0.offset, end)
}

pub open spec fn regions_view(v: Seq<Option<(Region, usize, usize)>>) -> Seq<Option<(Region, int, int)>> {
    v.map_values(|x: Option<(Region, usize, usize)>| match x {
        Some((r, a, b)) => Some((r, a as int, b as int)),
        None => None,
    })
}

pub open spec fn opt_view(x: Option<(Region, usize, usize)>) -> Option<(Region, int, int)> {
    match x {
        Some((r, a, b)) => Some((r, a as int, b as int)),
        None => None,
    }
}

fn regions_into(n: &Node, parent: Option<Kind>, here: Option<(Region, usize, usize)>, out: &mut Vec<
    Option<(Region, usize, usize)>,
>)
    ensures
        regions_view(final(out)@) == regions_view(old(out)@) + token_regions(*n, parent, opt_view(here)),
    decreases n,
{
    let inner = match region_of(n.kind, parent) {
        Some(r) => Some(region_node_of(r, n)),
        None => here,
    };
    let ghost start = regions_view(out@);
    let mut i: usize = 0;
    assert(regions_upto(*n, opt_view(inner), 0) =~= Seq::<Option<(Region, int, int)>>::empty());
    assert(regions_view(out@) =~= start + regions_upto(*n, opt_view(inner), 0));
    while i < n.elements.len()
        invariant
            0 <= i <= n.elements@.len(),
            regions_view(out@) == start + regions_upto(*n, opt_view(inner), i as int),
        decreases n.elements@.len() - i,
    {
        let ghost before = regions_view(out@);
        match &n.elements[i] {
            Element::Node(c) => {
                proof {
                    lemma_child_decreases(*n, i as int);
                }
                regions_into(c, Some(n.kind), inner, out);
            },
            Element::Token(_) => {
                out.push(inner);
                assert(regions_view(out@) =~= before.push(opt_view(inner)));
            },
        }
        assert(regions_view(out@) =~= start + regions_upto(*n, opt_view(inner), i + 1));
        i = i + 1;
    }
}

/// For each token of the tree, in order, the innermost alignment region containing it: its
/// kind, the offset of its first token (its key) and where its last token ends.
pub fn comment_regions(root: &Node) -> (r: Vec<Option<(Region, usize, usize)>>)
    ensures
        regions_view(r@) == token_regions(*root, None, None),
        r@.len() == spec_tokens(*root).len(),
{
    let mut out: Vec<Option<(Region, usize, usize)>> = Vec::new();
    regions_into(root, None, None, &mut out);
    assert(regions_view(out@) =~= token_regions(*root, None, None));
    proof {
        lemma_token_regions_len(*root, None, None);
    }
    out
}

// Comments in the trivia between tokens -----------------------------------------------------------

/// A byte that the lexer reads as a line break: line feed, carriage return, vertical tab or
/// form feed.
pub open spec fn breaks_line(b: u8) -> bool {
    b == 10u8 || b == 13u8 || b == 11u8 || b == 12u8
}

/// Where a block comment whose text goes on at `i` ends: after its `*/`, or at `end`.
pub open spec fn block_end(s: Seq<u8>, i: int, end: int) -> int
    decreases end - i,
{
    if i < 0 || i >= end || end > s.len() {
        end
    } else if s[i] == 42u8 && i + 1 < end && s[i + 1] == 47u8 {
        i + 2
    } else {
        block_end(s, i + 1, end)
    }
}

pub proof fn lemma_block_end(s: Seq<u8>, i: int, end: int)
    requires
        0 <= i <= end,
    ensures
        i <= block_end(s, i, end),
        end <= s.len() ==> block_end(s, i, end) <= end,
        end > s.len() ==> block_end(s, i, end) == end,
    decreases end - i,
{
    if i < end && end <= s.len() && !(s[i] == 42u8 && i + 1 < end && s[i + 1] == 47u8) {
        lemma_block_end(s, i + 1, end);
    }
}

/// Where a line comment whose text goes on at `i` ends: at the next carriage return or line
/// feed, or at `end`.
pub open spec fn comment_end(s: Seq<u8>, i: int, end: int) -> int
    decreases end - i,
{
    if i < 0 || i >= end || end > s.len() {
        end
    } else if s[i] == 10u8 || s[i] == 13u8 {
        i
    } else {
        comment_end(s, i + 1, end)
    }
}

pub proof fn lemma_comment_end(s: Seq<u8>, i: int, end: int)
    requires
        0 <= i <= end,
    ensures
        i <= comment_end(s, i, end) <= end,
    decreases end - i,
{
    if i < end && end <= s.len() && !(s[i] == 10u8 || s[i] == 13u8) {
        lemma_comment_end(s, i + 1, end);
    }
}

/// Where the trivia `s[i..end]` holds a line comment before its first line break, block
/// comments and blanks skipped.
pub open spec fn trailing_comment_from(s: Seq<u8>, i: int, end: int) -> Option<int>
    decreases end - i,
{
    if i < 0 || i >= end || end > s.len() {
        None
    } else if s[i] == 45u8 && i + 1 < end && s[i + 1] == 45u8 {
        Some(i)
    } else if breaks_line(s[i]) {
        None
    } else if s[i] == 47u8 && i + 1 < end && s[i + 1] == 42u8 {
        proof {
            lemma_block_end(s, i + 2, end);
        }
        trailing_comment_from(s, block_end(s, i + 2, end), end)
    } else if s[i] == 32u8 || s[i] == 9u8 || s[i] == 0xA0u8 {
        trailing_comment_from(s, i + 1, end)
    } else {
        None
    }
}

/// The line comments of the trivia `s[i..end]`, as (start, end) offsets.
pub open spec fn comments_from(s: Seq<u8>, i: int, end: int) -> Seq<(int, int)>
    decreases end - i,
{
    if i < 0 || i >= end || end > s.len() {
        Seq::empty()
    } else if s[i] == 45u8 && i + 1 < end && s[i + 1] == 45u8 {
        let e = comment_end(s, i + 2, end);
        proof {
            lemma_comment_end(s, i + 2, end);
        }
        seq![(i, e)] + comments_from(s, e, end)
    } else if s[i] == 47u8 && i + 1 < end && s[i + 1] == 42u8 {
        proof {
            lemma_block_end(s, i + 2, end);
        }
        comments_from(s, block_end(s, i + 2, end), end)
    } else {
        comments_from(s, i + 1, end)
    }
}

fn block_end_at(s: &[u8], i: usize, end: usize) -> (r: usize)
    requires
        i <= end <= s@.len(),
    ensures
        r as int == block_end(s@, i as int, end as int),
        i <= r <= end,
{
    let mut j = i;
    while j < end && !(s[j] == 42u8 && j + 1 < end && s[j + 1] == 47u8)
        invariant
            i <= j <= end <= s@.len(),
            block_end(s@, i as int, end as int) == block_end(s@, j as int, end as int),
        decreases end - j,
    {
        j = j + 1;
    }
    if j < end {
        proof {
            lemma_block_end(s@, i as int, end as int);
        }
        j + 2
    } else {
        end
    }
}

fn comment_end_at(s: &[u8], i: usize, end: usize) -> (r: usize)
    requires
        i <= end <= s@.len(),
    ensures
        r as int == comment_end(s@, i as int, end as int),
        i <= r <= end,
{
    let mut j = i;
    while j < end && !(s[j] == 10u8 || s[j] == 13u8)
        invariant
            i <= j <= end <= s@.len(),
            comment_end(s@, i as int, end as int) == comment_end(s@, j as int, end as int),
        decreases end - j,
    {
        j = j + 1;
    }
    j
}

/// Where the trivia `s[i..end]` holds a trailing line comment: see [`trailing_comment_from`].
fn trailing_comment(s: &[u8], i: usize, end: usize) -> (r: Option<usize>)
    requires
        end <= s@.len(),
    ensures
        match r {
            Some(c) => trailing_comment_from(s@, i as int, end as int) == Some(c as int) && i <= c < end,
            None => trailing_comment_from(s@, i as int, end as int) is None,
        },
{
    let mut j = i;
    while j < end
        invariant
            i <= j,
            end <= s@.len(),
            trailing_comment_from(s@, i as int, end as int) == trailing_comment_from(s@, j as int, end as int),
        decreases end - j,
    {
        let b = s[j];
        if b == 45u8 && j + 1 < end && s[j + 1] == 45u8 {
            return Some(j);
        } else if b == 10u8 || b == 13u8 || b == 11u8 || b == 12u8 {
            return None;
        } else if b == 47u8 && j + 1 < end && s[j + 1] == 42u8 {
            j = block_end_at(s, j + 2, end);
        } else if b == 32u8 || b == 9u8 || b == 0xA0u8 {
            j = j + 1;
        } else {
            return None;
        }
    }
    None
}

pub open spec fn spans_view(v: Seq<(usize, usize)>) -> Seq<(int, int)> {
    v.map_values(|p: (usize, usize)| (p.0 as int, p.1 as int))
}

/// The line comments of the trivia `s[i..end]`: see [`comments_from`].
fn line_comments(s: &[u8], i: usize, end: usize) -> (r: Vec<(usize, usize)>)
    requires
        end <= s@.len(),
    ensures
        spans_view(r@) == comments_from(s@, i as int, end as int),
        forall|k: int| 0 <= k < r@.len() ==> (#[trigger] r@[k]).0 <= r@[k].1 <= end,
{
    let mut out: Vec<(usize, usize)> = Vec::new();
    let mut j = i;
    assert(spans_view(out@) =~= Seq::<(int, int)>::empty());
    while j < end
        invariant
            i <= j,
            end <= s@.len(),
            spans_view(out@) + comments_from(s@, j as int, end as int) == comments_from(s@, i as int, end as int),
            forall|k: int| 0 <= k < out@.len() ==> (#[trigger] out@[k]).0 <= out@[k].1 <= end,
        decreases end - j,
    {
        if s[j] == 45u8 && j + 1 < end && s[j + 1] == 45u8 {
            let e = comment_end_at(s, j + 2, end);
            let ghost before = spans_view(out@);
            out.push((j, e));
            assert(spans_view(out@) =~= before + seq![(j as int, e as int)]);
            assert(spans_view(out@) + comments_from(s@, e as int, end as int) =~= before + comments_from(
                s@,
                j as int,
                end as int,
            ));
            j = e;
        } else if s[j] == 47u8 && j + 1 < end && s[j + 1] == 42u8 {
            j = block_end_at(s, j + 2, end);
        } else {
            j = j + 1;
        }
    }
    assert(spans_view(out@) + Seq::<(int, int)>::empty() =~= spans_view(out@));
    out
}

// Aligning the trailing comments of printed output ------------------------------------------------

/// `Some(true)` for a `fmt on` comment, `Some(false)` for `fmt off`, `None` for any other.
pub open spec fn directive_of(line: Seq<u8>) -> Option<bool> {
    if switch_off(line, false) {
        Some(false)
    } else if !switch_off(line, true) {
        Some(true)
    } else {
        None
    }
}

/// Where the trivia in front of token `i` of `ts` starts: where the token before it ends.
pub open spec fn gap_start(ts: Seq<Token>, i: int) -> int {
    if i <= 0 || i > ts.len() {
        0
    } else {
        token_end(ts[i - 1])
    }
}

/// The directives among the comments `cs`, each at offset `at`.
pub open spec fn directives_in(s: Seq<u8>, cs: Seq<(int, int)>, at: int) -> Seq<(usize, bool)>
    decreases cs.len(),
{
    if cs.len() == 0 {
        Seq::empty()
    } else {
        directives_in(s, cs.drop_last(), at) + match directive_of(s.subrange(cs.last().0, cs.last().1)) {
            Some(on) => seq![(at as usize, on)],
            None => Seq::empty(),
        }
    }
}

/// The `fmt off` / `fmt on` comments in front of the tokens `ts[..k]`, each at the offset of the
/// token that follows it.
pub open spec fn spec_directives(s: Seq<u8>, ts: Seq<Token>, k: int) -> Seq<(usize, bool)>
    decreases k,
{
    if k <= 0 || k > ts.len() {
        Seq::empty()
    } else {
        spec_directives(s, ts, k - 1) + directives_in(
            s,
            comments_from(s, gap_start(ts, k - 1), ts[k - 1].offset as int),
            ts[k - 1].offset as int,
        )
    }
}

/// The index of the first token of `ts` from `i` on that has no text (the end of the input), or
/// the length of `ts`.
pub open spec fn eof_from(ts: Seq<Token>, i: int) -> int
    decreases ts.len() - i,
{
    if i < 0 || i >= ts.len() {
        ts.len() as int
    } else if ts[i].latin1@.len() == 0 {
        i
    } else {
        eof_from(ts, i + 1)
    }
}

/// The index of the line offset `off` is on.
pub open spec fn line_at(s: Seq<u8>, off: int) -> int {
    count_newlines(s.take(if off < s.len() { off } else { s.len() as int })) as int
}

/// What the first pass finds: the lines with their trailing comments and `fmt off` state, the
/// first token of each line, and the (line, token) pairs that have a trailing comment.
pub ghost struct SPass {
    pub lines: Seq<CommentLine>,
    pub firsts: Seq<Option<int>>,
    pub commented: Seq<(int, int)>,
}

/// The first pass over token `i`.
pub open spec fn pass_token(s: Seq<u8>, ts: Seq<Token>, dirs: Seq<(usize, bool)>, st: SPass, i: int) -> SPass {
    let t = ts[i];
    let line = line_at(s, t.offset as int);
    if line >= st.lines.len() || line >= st.firsts.len() {
        st
    } else {
        let l0 = st.lines[line];
        let l1 = CommentLine { disabled: l0.disabled || spec_disabled_at(dirs, t.offset as int), ..l0 };
        let firsts = if st.firsts[line] is None {
            st.firsts.update(line, Some(i))
        } else {
            st.firsts
        };
        let e = token_end(t);
        let found = if i + 1 < ts.len() {
            trailing_comment_from(s, e, ts[i + 1].offset as int)
        } else {
            None
        };
        match found {
            Some(c) => if l1.start <= e && e <= c && c <= stop(l1) {
                SPass {
                    lines: st.lines.update(line, CommentLine { comment: Some(c as usize), code_end: e as usize, ..l1 }),
                    firsts,
                    commented: st.commented.push((line, i)),
                }
            } else {
                SPass { lines: st.lines.update(line, l1), firsts, commented: st.commented }
            },
            None => SPass { lines: st.lines.update(line, l1), firsts, commented: st.commented },
        }
    }
}

/// The first pass over the tokens `ts[..k]`.
pub open spec fn first_pass(s: Seq<u8>, ts: Seq<Token>, dirs: Seq<(usize, bool)>, lines: Seq<CommentLine>, k: int) -> SPass
    decreases k,
{
    if k <= 0 {
        SPass { lines, firsts: Seq::new(lines.len(), |j: int| None::<int>), commented: Seq::empty() }
    } else {
        pass_token(s, ts, dirs, first_pass(s, ts, dirs, lines, k - 1), k - 1)
    }
}

/// The region key of an innermost region, if any.
pub open spec fn key_of(r: Option<(Region, int, int)>) -> Option<usize> {
    match r {
        Some(x) => Some(x.1 as usize),
        None => None,
    }
}

/// `regs` with `reg` added, unless a region with its key is there.
pub open spec fn register(regs: Seq<(Region, int, int)>, reg: Option<(Region, int, int)>) -> Seq<(Region, int, int)> {
    match reg {
        Some(x) => if exists|k: int| 0 <= k < regs.len() && (#[trigger] regs[k]).1 == x.1 {
            regs
        } else {
            regs.push(x)
        },
        None => regs,
    }
}

/// The region of the token at `i`, if `i` is a token.
pub open spec fn region_at(tr: Seq<Option<(Region, int, int)>>, i: int) -> Option<(Region, int, int)> {
    if 0 <= i < tr.len() {
        tr[i]
    } else {
        None
    }
}

/// The second pass over the first `k` commented lines: each gets the region of the token its
/// comment follows, and the regions are gathered in order of appearance.
pub open spec fn second_pass(
    lines: Seq<CommentLine>,
    tr: Seq<Option<(Region, int, int)>>,
    cm: Seq<(int, int)>,
    k: int,
) -> (Seq<CommentLine>, Seq<(Region, int, int)>)
    decreases k,
{
    if k <= 0 || k > cm.len() {
        (lines, Seq::empty())
    } else {
        let (ls, rs) = second_pass(lines, tr, cm, k - 1);
        let (line, i) = cm[k - 1];
        let reg = region_at(tr, i);
        (
            if 0 <= line < ls.len() {
                ls.update(line, CommentLine { comment_region: key_of(reg), ..ls[line] })
            } else {
                ls
            },
            register(rs, reg),
        )
    }
}

/// Line `l` given the region of its first token, unless it has one, is blank, is a comment, or
/// is switched off.
pub open spec fn place_line(lines: Seq<CommentLine>, firsts: Seq<Option<int>>, tr: Seq<Option<(Region, int, int)>>, l: int) -> Seq<
    CommentLine,
> {
    if l < 0 || l >= lines.len() || l >= firsts.len() {
        lines
    } else {
        let line = lines[l];
        if line.region is Some || line.blank || line.comment_only || line.disabled {
            lines
        } else {
            match firsts[l] {
                Some(i) => lines.update(l, CommentLine { region: key_of(region_at(tr, i)), ..line }),
                None => lines,
            }
        }
    }
}

/// [`place_line`] for the lines `l..=last`.
pub open spec fn place_lines(
    lines: Seq<CommentLine>,
    firsts: Seq<Option<int>>,
    tr: Seq<Option<(Region, int, int)>>,
    l: int,
    last: int,
) -> Seq<CommentLine>
    decreases last + 1 - l,
{
    if l > last || l < 0 || l >= lines.len() {
        lines
    } else {
        place_lines(place_line(lines, firsts, tr, l), firsts, tr, l + 1, last)
    }
}

/// The line of the last byte of a region ending at `end`.
pub open spec fn before_end(end: int) -> int {
    if end > 0 {
        end - 1
    } else {
        0
    }
}

/// The lines of the first `k` regions placed.
pub open spec fn place_regions(
    s: Seq<u8>,
    lines: Seq<CommentLine>,
    firsts: Seq<Option<int>>,
    tr: Seq<Option<(Region, int, int)>>,
    regs: Seq<(Region, int, int)>,
    k: int,
) -> Seq<CommentLine>
    decreases k,
{
    if k <= 0 || k > regs.len() {
        lines
    } else {
        let r = regs[k - 1];
        place_lines(place_regions(s, lines, firsts, tr, regs, k - 1), firsts, tr, line_at(s, r.1), line_at(s, before_end(r.2)))
    }
}

/// The regions as spans of lines.
pub open spec fn region_spans(s: Seq<u8>, regs: Seq<(Region, int, int)>) -> Seq<RegionSpan> {
    regs.map_values(|r: (Region, int, int)| RegionSpan {
        key: r.1 as usize,
        region: r.0,
        first: line_at(s, r.1) as usize,
        last: line_at(s, before_end(r.2)) as usize,
    })
}

/// Printed output (`\n` line endings) with its trailing comments aligned: nothing changes when
/// comment alignment is off or the output has syntax errors; otherwise each trailing comment
/// (a line comment after the last token of a line) is found from the tokens and the trivia
/// between them, lines where formatting is switched off are marked, each commented line gets
/// the innermost region of the token its comment follows, the other lines of those regions the
/// region of their first token, and [`align_lines`] aligns them.
pub open spec fn spec_align_comments(root: Node, s: Seq<u8>, no_errors: bool, settings: AlignSettings, tab: int) -> Seq<u8> {
    if !spec_comments_enabled(settings) || !no_errors {
        s
    } else {
        let ts = spec_tokens(root);
        let dirs = spec_directives(s, ts, ts.len() as int);
        let p = first_pass(s, ts, dirs, lines_from_offset(s, 0), eof_from(ts, 0));
        if p.commented.len() == 0 {
            s
        } else {
            let tr = token_regions(root, None, None);
            let (ls, regs) = second_pass(p.lines, tr, p.commented, p.commented.len() as int);
            let ls2 = place_regions(s, ls, p.firsts, tr, regs, regs.len() as int);
            spec_align_lines(s, ls2, region_spans(s, regs), settings, vstd::utf8::valid_utf8(s), tab)
        }
    }
}

proof fn lemma_update_wf(s: Seq<u8>, lines: Seq<CommentLine>, k: int, nl: CommentLine)
    requires
        lines_wf(s, lines),
        0 <= k < lines.len(),
        nl.start == lines[k].start,
        nl.start <= nl.code_end <= stop(nl) <= stop(lines[k]),
    ensures
        lines_wf(s, lines.update(k, nl)),
{
    let u = lines.update(k, nl);
    assert forall|i: int| 0 <= i < u.len() implies (#[trigger] u[i]).start <= u[i].code_end <= stop(u[i]) <= s.len() by {
        if i == k {
            assert(stop(lines[k]) <= s.len());
        }
    }
    assert forall|i: int, j: int| 0 <= i < j < u.len() implies stop(#[trigger] u[i]) <= (#[trigger] u[j]).start by {
        assert(stop(lines[i]) <= lines[j].start);
    }
}

pub open spec fn firsts_view(v: Seq<Option<usize>>) -> Seq<Option<int>> {
    v.map_values(|x: Option<usize>| match x {
        Some(i) => Some(i as int),
        None => None,
    })
}

pub open spec fn regs_view(v: Seq<(Region, usize, usize)>) -> Seq<(Region, int, int)> {
    v.map_values(|r: (Region, usize, usize)| (r.0, r.1 as int, r.2 as int))
}

fn token_end_of(t: &Token) -> (r: usize)
    ensures
        r as int == token_end(*t),
{
    let len = t.latin1.as_str().unicode_len();
    if t.offset <= usize::MAX - len {
        t.offset + len
    } else {
        usize::MAX
    }
}

/// The line offset `off` is on.
fn line_index(s: &[u8], off: usize) -> (r: usize)
    ensures
        r as int == line_at(s@, off as int),
{
    let end = if off < s.len() {
        off
    } else {
        s.len()
    };
    let mut n: usize = 0;
    let mut i: usize = 0;
    assert(s@.take(0) =~= Seq::<u8>::empty());
    while i < end
        invariant
            0 <= i <= end <= s@.len(),
            n as int == count_newlines(s@.take(i as int)),
            n <= i,
        decreases end - i,
    {
        assert(s@.take(i + 1).drop_last() =~= s@.take(i as int));
        if s[i] == 10u8 {
            n = n + 1;
        }
        i = i + 1;
    }
    n
}

/// The `fmt off` / `fmt on` comments in front of the tokens: see [`spec_directives`].
fn directives_of(s: &[u8], ts: &Vec<&Token>) -> (r: Vec<(usize, bool)>)
    ensures
        r@ == spec_directives(s@, tokens_of(ts@), ts@.len() as int),
{
    let ghost tv = tokens_of(ts@);
    let mut out: Vec<(usize, bool)> = Vec::new();
    let mut k: usize = 0;
    while k < ts.len()
        invariant
            0 <= k <= ts@.len(),
            tv == tokens_of(ts@),
            out@ == spec_directives(s@, tv, k as int),
        decreases ts@.len() - k,
    {
        let t = ts[k];
        assert(tv[k as int] == *t);
        let gap = if k == 0 {
            0
        } else {
            assert(tv[k - 1] == *ts@[k - 1]);
            token_end_of(ts[k - 1])
        };
        let at = t.offset;
        let ghost before = out@;
        if at <= s.len() {
            let cs = line_comments(s, gap, at);
            let ghost cv = spans_view(cs@);
            let mut j: usize = 0;
            assert(cv.take(0) =~= Seq::<(int, int)>::empty());
            assert(out@ =~= before + directives_in(s@, cv.take(0), at as int));
            while j < cs.len()
                invariant
                    0 <= j <= cs@.len(),
                    cv == spans_view(cs@),
                    at <= s@.len(),
                    forall|q: int| 0 <= q < cs@.len() ==> (#[trigger] cs@[q]).0 <= cs@[q].1 <= at,
                    out@ == before + directives_in(s@, cv.take(j as int), at as int),
                decreases cs@.len() - j,
            {
                let (a, b) = cs[j];
                assert(cv[j as int] == (a as int, b as int));
                assert(cv.take(j + 1).drop_last() =~= cv.take(j as int));
                let mut piece: Vec<u8> = Vec::new();
                extend_range(&mut piece, s, a, b);
                let off = crate::reflow::switch(piece.as_slice(), false);
                let on = !crate::reflow::switch(piece.as_slice(), true);
                let ghost b0 = out@;
                if off {
                    out.push((at, false));
                } else if on {
                    out.push((at, true));
                }
                assert(out@ =~= before + directives_in(s@, cv.take(j + 1), at as int)) by {
                    assert(b0 == before + directives_in(s@, cv.take(j as int), at as int));
                }
                j = j + 1;
            }
            assert(cv.take(j as int) =~= cv);
        } else {
            assert(comments_from(s@, gap as int, at as int) =~= Seq::<(int, int)>::empty());
            assert(out@ =~= before + directives_in(s@, Seq::<(int, int)>::empty(), at as int));
        }
        k = k + 1;
    }
    out
}

/// Whether formatting is off at `off`: see [`spec_disabled_at`].
fn off_at(dirs: &Vec<(usize, bool)>, off: usize) -> (r: bool)
    ensures
        r == spec_disabled_at(dirs@, off as int),
{
    let mut k = dirs.len();
    assert(dirs@.take(k as int) =~= dirs@);
    while k > 0
        invariant
            0 <= k <= dirs@.len(),
            spec_disabled_at(dirs@, off as int) == spec_disabled_at(dirs@.take(k as int), off as int),
        decreases k,
    {
        assert(dirs@.take(k as int).drop_last() =~= dirs@.take(k - 1));
        assert(dirs@.take(k as int).last() == dirs@[k - 1]);
        if dirs[k - 1].0 <= off {
            return !dirs[k - 1].1;
        }
        k = k - 1;
    }
    false
}

/// A `None` for each of `n` lines.
fn no_firsts(n: usize) -> (r: Vec<Option<usize>>)
    ensures
        r@.len() == n,
        firsts_view(r@) == Seq::new(n as nat, |j: int| None::<int>),
{
    let mut firsts: Vec<Option<usize>> = Vec::new();
    let mut q: usize = 0;
    while q < n
        invariant
            0 <= q <= n,
            firsts@.len() == q,
            forall|j: int| 0 <= j < q ==> firsts@[j] is None,
        decreases n - q,
    {
        firsts.push(None);
        q = q + 1;
    }
    assert(firsts_view(firsts@) =~= Seq::new(n as nat, |j: int| None::<int>));
    firsts
}

/// The first pass over the tokens before `eof`: see [`first_pass`].
fn run_first_pass(
    source: &[u8],
    ts: &Vec<&Token>,
    dirs: &Vec<(usize, bool)>,
    eof: usize,
) -> (r: (Vec<CommentLine>, Vec<Option<usize>>, Vec<(usize, usize)>))
    requires
        eof <= ts@.len(),
    ensures
        r.0@.len() == r.1@.len(),
        lines_wf(source@, r.0@),
        first_pass(source@, tokens_of(ts@), dirs@, lines_from_offset(source@, 0), eof as int) == (SPass {
            lines: r.0@,
            firsts: firsts_view(r.1@),
            commented: spans_view(r.2@),
        }),
{
    let ghost tv = tokens_of(ts@);
    let mut lines = comment_lines(source);
    let ghost lines0 = lines@;
    let size = source.len();
    proof {
        assert(size as int == source@.len());
        lemma_comment_lines_wf(source@, 0);
    }
    let mut firsts = no_firsts(lines.len());
    let mut commented: Vec<(usize, usize)> = Vec::new();
    let mut i: usize = 0;
    assert(spans_view(commented@) =~= Seq::<(int, int)>::empty());
    while i < eof
        invariant
            0 <= i <= eof <= ts@.len(),
            tv == tokens_of(ts@),
            lines0 == lines_from_offset(source@, 0),
            lines@.len() == firsts@.len(),
            lines_wf(source@, lines@),
            forall|q: int| 0 <= q < commented@.len() ==> (#[trigger] commented@[q]).0 < lines@.len(),
            first_pass(source@, tv, dirs@, lines0, i as int) == (SPass {
                lines: lines@,
                firsts: firsts_view(firsts@),
                commented: spans_view(commented@),
            }),
        decreases eof - i,
    {
        let t = ts[i];
        assert(tv[i as int] == *t);
        let line = line_index(source, t.offset);
        if line < lines.len() {
            let l0 = lines[line];
            let l1 = CommentLine { disabled: l0.disabled || off_at(&dirs, t.offset), ..l0 };
            if firsts[line].is_none() {
                let ghost f0 = firsts@;
                firsts.set(line, Some(i));
                assert(firsts_view(firsts@) =~= firsts_view(f0).update(line as int, Some(i as int)));
            }
            let e = token_end_of(t);
            let found = if i + 1 < ts.len() {
                assert(tv[i + 1] == *ts@[i + 1]);
                let next = ts[i + 1].offset;
                if next <= source.len() {
                    trailing_comment(source, e, next)
                } else {
                    None
                }
            } else {
                None
            };
            proof {
                if i + 1 < ts.len() && tv[i + 1].offset > source@.len() {
                    assert(trailing_comment_from(source@, e as int, tv[i + 1].offset as int) is None);
                }
            }
            let ghost lv0 = lines@;
            match found {
                Some(c) => {
                    if l1.start <= e && e <= c && c <= (match l1.comment { Some(x) => x, None => l1.code_end }) {
                        let nl = CommentLine { comment: Some(c), code_end: e, ..l1 };
                        proof {
                            lemma_update_wf(source@, lv0, line as int, nl);
                        }
                        lines.set(line, nl);
                        let ghost c0 = commented@;
                        commented.push((line, i));
                        assert(spans_view(commented@) =~= spans_view(c0).push((line as int, i as int)));
                    } else {
                        proof {
                            lemma_update_wf(source@, lv0, line as int, l1);
                        }
                        lines.set(line, l1);
                    }
                },
                None => {
                    proof {
                        lemma_update_wf(source@, lv0, line as int, l1);
                    }
                    lines.set(line, l1);
                },
            }
        }
        i = i + 1;
    }
    (lines, firsts, commented)
}

/// The second pass: see [`second_pass`]; the regions it gathers are returned.
fn run_second_pass(
    source: &[u8],
    lines: &mut Vec<CommentLine>,
    tr: &Vec<Option<(Region, usize, usize)>>,
    commented: &Vec<(usize, usize)>,
) -> (regs: Vec<(Region, usize, usize)>)
    requires
        lines_wf(source@, old(lines)@),
    ensures
        final(lines)@.len() == old(lines)@.len(),
        lines_wf(source@, final(lines)@),
        second_pass(old(lines)@, regions_view(tr@), spans_view(commented@), commented@.len() as int) == (
            final(lines)@,
            regs_view(regs@),
        ),
{
    let ghost trv = regions_view(tr@);
    let ghost p1 = lines@;
    let ghost n0 = lines@.len();
    let ghost cv = spans_view(commented@);
    let mut regs: Vec<(Region, usize, usize)> = Vec::new();
    let mut k: usize = 0;
    assert(regs_view(regs@) =~= Seq::<(Region, int, int)>::empty());
    while k < commented.len()
        invariant
            0 <= k <= commented@.len(),
            cv == spans_view(commented@),
            trv == regions_view(tr@),
            lines@.len() == n0,
            lines_wf(source@, lines@),
            second_pass(p1, trv, cv, k as int) == (lines@, regs_view(regs@)),
        decreases commented@.len() - k,
    {
        let (line, ti) = commented[k];
        assert(cv[k as int] == (line as int, ti as int));
        let reg: Option<(Region, usize, usize)> = if ti < tr.len() {
            tr[ti]
        } else {
            None
        };
        assert(opt_view(reg) == region_at(trv, ti as int));
        let key: Option<usize> = match reg {
            Some((_, a, _)) => Some(a),
            None => None,
        };
        if line < lines.len() {
            let l0 = lines[line];
            let nl = CommentLine { comment_region: key, ..l0 };
            let ghost lv0 = lines@;
            proof {
                lemma_update_wf(source@, lv0, line as int, nl);
            }
            lines.set(line, nl);
        }
        if let Some((r, a, b)) = reg {
            let mut seen = false;
            let mut j: usize = 0;
            while j < regs.len()
                invariant
                    0 <= j <= regs@.len(),
                    seen == exists|m: int| 0 <= m < j && (#[trigger] regs_view(regs@)[m]).1 == a as int,
                decreases regs@.len() - j,
            {
                assert(regs_view(regs@)[j as int].1 == regs@[j as int].1 as int);
                if regs[j].1 == a {
                    seen = true;
                }
                j = j + 1;
            }
            if !seen {
                let ghost r0 = regs_view(regs@);
                regs.push((r, a, b));
                assert(regs_view(regs@) =~= r0.push((r, a as int, b as int)));
            }
        }
        k = k + 1;
    }
    regs
}

/// [`place_lines`] for the lines `first..=last`.
fn run_place_lines(
    source: &[u8],
    lines: &mut Vec<CommentLine>,
    firsts: &Vec<Option<usize>>,
    tr: &Vec<Option<(Region, usize, usize)>>,
    first: usize,
    last: usize,
)
    requires
        lines_wf(source@, old(lines)@),
        old(lines)@.len() == firsts@.len(),
    ensures
        final(lines)@.len() == old(lines)@.len(),
        lines_wf(source@, final(lines)@),
        final(lines)@ == place_lines(old(lines)@, firsts_view(firsts@), regions_view(tr@), first as int, last as int),
{
    let ghost trv = regions_view(tr@);
    let ghost base = lines@;
    let mut l = first;
    while l <= last && l < lines.len()
        invariant
            first <= l,
            trv == regions_view(tr@),
            lines@.len() == firsts@.len(),
            lines_wf(source@, lines@),
            place_lines(base, firsts_view(firsts@), trv, first as int, last as int) == place_lines(
                lines@,
                firsts_view(firsts@),
                trv,
                l as int,
                last as int,
            ),
        decreases lines@.len() - l,
    {
        let line = lines[l];
        let ghost lv0 = lines@;
        if !(line.region.is_some() || line.blank || line.comment_only || line.disabled) {
            match firsts[l] {
                Some(fi) => {
                    assert(firsts_view(firsts@)[l as int] == Some(fi as int));
                    let reg: Option<(Region, usize, usize)> = if fi < tr.len() {
                        tr[fi]
                    } else {
                        None
                    };
                    assert(opt_view(reg) == region_at(trv, fi as int));
                    let key: Option<usize> = match reg {
                        Some((_, x, _)) => Some(x),
                        None => None,
                    };
                    let nl = CommentLine { region: key, ..line };
                    proof {
                        lemma_update_wf(source@, lv0, l as int, nl);
                    }
                    lines.set(l, nl);
                },
                None => {
                    assert(firsts_view(firsts@)[l as int] == None::<int>);
                },
            }
        }
        assert(lines@ == place_line(lv0, firsts_view(firsts@), trv, l as int));
        l = l + 1;
    }
}

/// [`place_regions`] for all the regions gathered.
fn run_place_regions(
    source: &[u8],
    lines: &mut Vec<CommentLine>,
    firsts: &Vec<Option<usize>>,
    tr: &Vec<Option<(Region, usize, usize)>>,
    regs: &Vec<(Region, usize, usize)>,
)
    requires
        lines_wf(source@, old(lines)@),
        old(lines)@.len() == firsts@.len(),
    ensures
        final(lines)@.len() == old(lines)@.len(),
        lines_wf(source@, final(lines)@),
        final(lines)@ == place_regions(
            source@,
            old(lines)@,
            firsts_view(firsts@),
            regions_view(tr@),
            regs_view(regs@),
            regs@.len() as int,
        ),
{
    let ghost p2 = lines@;
    let ghost rv = regs_view(regs@);
    let ghost trv = regions_view(tr@);
    let mut m: usize = 0;
    while m < regs.len()
        invariant
            0 <= m <= regs@.len(),
            rv == regs_view(regs@),
            trv == regions_view(tr@),
            lines@.len() == firsts@.len(),
            lines_wf(source@, lines@),
            lines@ == place_regions(source@, p2, firsts_view(firsts@), trv, rv, m as int),
        decreases regs@.len() - m,
    {
        let (_, a, b) = regs[m];
        assert(rv[m as int] == (regs@[m as int].0, a as int, b as int));
        let first = line_index(source, a);
        let last = line_index(source, if b > 0 { b - 1 } else { 0 });
        run_place_lines(source, lines, firsts, tr, first, last);
        m = m + 1;
    }
}

/// The regions as spans of lines: see [`region_spans`].
fn spans_of(source: &[u8], regs: &Vec<(Region, usize, usize)>) -> (r: Vec<RegionSpan>)
    ensures
        r@ == region_spans(source@, regs_view(regs@)),
{
    let ghost rv = regs_view(regs@);
    let mut spans: Vec<RegionSpan> = Vec::new();
    let mut n: usize = 0;
    while n < regs.len()
        invariant
            0 <= n <= regs@.len(),
            rv == regs_view(regs@),
            spans@ == region_spans(source@, rv.take(n as int)),
        decreases regs@.len() - n,
    {
        let (r, a, b) = regs[n];
        assert(rv[n as int] == (r, a as int, b as int));
        let first = line_index(source, a);
        let last = line_index(source, if b > 0 { b - 1 } else { 0 });
        let ghost s0 = spans@;
        spans.push(RegionSpan { key: a, region: r, first, last });
        assert(spans@ =~= region_spans(source@, rv.take(n + 1))) by {
            assert(rv.take(n + 1) =~= rv.take(n as int).push(rv[n as int]));
        }
        n = n + 1;
    }
    assert(rv.take(n as int) =~= rv);
    spans
}

/// The trailing comments of printed output (`\n` line endings), aligned: see
/// [`spec_align_comments`]. `root` is the syntax tree of `source`, and `errors` its syntax
/// errors; `tab` is the width of an indentation tab.
pub fn align_comments(
    root: &Node,
    source: &[u8],
    errors: &[crate::text::Diagnostic],
    settings: &AlignSettings,
    tab: usize,
) -> (r: Vec<u8>)
    requires
        source@.len() * (tab + 4) < usize::MAX,
    ensures
        r@ == spec_align_comments(*root, source@, errors@.len() == 0, *settings, tab as int),
{
    let mut copy: Vec<u8> = Vec::new();
    extend_range(&mut copy, source, 0, source.len());
    assert(source@.subrange(0, source@.len() as int) =~= source@);
    if !settings.comments_enabled() || errors.len() > 0 {
        return copy;
    }
    let ts = all_tokens(root);
    let ghost tv = tokens_of(ts@);
    let dirs = directives_of(source, &ts);
    // The end of the input: the first token without text.
    let mut eof: usize = 0;
    while eof < ts.len() && ts[eof].latin1.as_str().unicode_len() > 0
        invariant
            0 <= eof <= ts@.len(),
            tv == tokens_of(ts@),
            eof_from(tv, 0) == eof_from(tv, eof as int),
        decreases ts@.len() - eof,
    {
        assert(tv[eof as int] == *ts@[eof as int]);
        eof = eof + 1;
    }
    if eof < ts.len() {
        assert(tv[eof as int] == *ts@[eof as int]);
    }
    let (mut lines, firsts, commented) = run_first_pass(source, &ts, &dirs, eof);
    if commented.len() == 0 {
        return copy;
    }
    let tr = comment_regions(root);
    let regs = run_second_pass(source, &mut lines, &tr, &commented);
    run_place_regions(source, &mut lines, &firsts, &tr, &regs);
    let spans = spans_of(source, &regs);
    let utf8 = crate::reflow::is_utf8(source);
    align_lines(source, lines.as_slice(), spans.as_slice(), settings, utf8, tab)
}


/// Own-line comments between the lines of a group: where the family does not end groups at
/// comment lines, a comment line (outside a `fmt off` region, and not a blank line that ends
/// the group) is passed over: the lines before and after it stay in one group, and scanning
/// from it is scanning from the line after it with the group and the columns unchanged. Where
/// the family does end groups at comment lines, the group before it is finished there.
pub proof fn law_comment_lines_and_groups(
    lines: Seq<CommentLine>,
    cols: Seq<usize>,
    key: usize,
    fam: Family,
    l: int,
    last: int,
    group: Seq<usize>,
    targets: Seq<Option<usize>>,
)
    requires
        0 <= l <= last,
        l < lines.len(),
        lines[l].comment_only,
        !lines[l].disabled,
        !(lines[l].blank && fam.blank_line_ends_group),
    ensures
        !fam.comment_line_ends_group ==> scan(lines, cols, key, fam, l, last, group, targets) == scan(
            lines,
            cols,
            key,
            fam,
            l + 1,
            last,
            group,
            targets,
        ),
        fam.comment_line_ends_group ==> scan(lines, cols, key, fam, l, last, group, targets) == scan(
            lines,
            cols,
            key,
            fam,
            l + 1,
            last,
            Seq::empty(),
            flush(targets, lines, cols, group, key, fam.include_lines_without_comments),
        ),
{
}


/// Line index `i` after a line is put in at `p`.
pub open spec fn shift_index(i: usize, p: int) -> usize {
    if i >= p {
        (i + 1) as usize
    } else {
        i
    }
}

/// The line indices of `g` after a line is put in at `p`.
pub open spec fn shifted(g: Seq<usize>, p: int) -> Seq<usize> {
    g.map_values(|i: usize| shift_index(i, p))
}

proof fn lemma_group_max_shift(
    lines: Seq<CommentLine>,
    cols: Seq<usize>,
    g: Seq<usize>,
    key: usize,
    all: bool,
    p: int,
    c: CommentLine,
    x: usize,
)
    requires
        0 <= p <= lines.len(),
        lines.len() == cols.len(),
        lines.len() < usize::MAX,
        forall|k: int| 0 <= k < g.len() ==> (#[trigger] g[k]) < lines.len(),
    ensures
        group_max(lines.insert(p, c), cols.insert(p, x), shifted(g, p), key, all) == group_max(lines, cols, g, key, all),
    decreases g.len(),
{
    if g.len() > 0 {
        let gd = g.drop_last();
        assert forall|k: int| 0 <= k < gd.len() implies (#[trigger] gd[k]) < lines.len() by {
            assert(gd[k] == g[k]);
        }
        lemma_group_max_shift(lines, cols, gd, key, all, p, c, x);
        assert(shifted(g, p).drop_last() =~= shifted(gd, p));
        let l = g.last() as int;
        let l2 = shift_index(g.last(), p) as int;
        assert(shifted(g, p).last() == shift_index(g.last(), p));
        assert(g.last() < lines.len());
        assert(lines.insert(p, c)[l2] == lines[l]);
        assert(cols.insert(p, x)[l2] == cols[l]);
    }
}

proof fn lemma_mark_shift(
    targets: Seq<Option<usize>>,
    lines: Seq<CommentLine>,
    g: Seq<usize>,
    key: usize,
    column: usize,
    p: int,
    c: CommentLine,
    t0: Option<usize>,
)
    requires
        0 <= p <= lines.len(),
        targets.len() == lines.len(),
        lines.len() < usize::MAX,
        forall|k: int| 0 <= k < g.len() ==> (#[trigger] g[k]) < lines.len(),
    ensures
        mark(targets.insert(p, t0), lines.insert(p, c), shifted(g, p), key, column) == mark(
            targets,
            lines,
            g,
            key,
            column,
        ).insert(p, t0),
        mark(targets, lines, g, key, column).len() == targets.len(),
    decreases g.len(),
{
    if g.len() > 0 {
        let gd = g.drop_last();
        assert forall|k: int| 0 <= k < gd.len() implies (#[trigger] gd[k]) < lines.len() by {
            assert(gd[k] == g[k]);
        }
        lemma_mark_shift(targets, lines, gd, key, column, p, c, t0);
        assert(shifted(g, p).drop_last() =~= shifted(gd, p));
        let l = g.last() as int;
        let l2 = shift_index(g.last(), p) as int;
        assert(shifted(g, p).last() == shift_index(g.last(), p));
        assert(g.last() < lines.len());
        assert(lines.insert(p, c)[l2] == lines[l]);
        let before = mark(targets, lines, gd, key, column);
        let before2 = mark(targets.insert(p, t0), lines.insert(p, c), shifted(gd, p), key, column);
        assert(before2 == before.insert(p, t0));
        assert(before2[l2] == before[l]);
        if mine(lines[l], key) {
            assert(before2.update(l2, lower(before2[l2], column)) =~= before.update(l, lower(before[l], column)).insert(
                p,
                t0,
            ));
        }
    }
}

proof fn lemma_flush_shift(
    targets: Seq<Option<usize>>,
    lines: Seq<CommentLine>,
    cols: Seq<usize>,
    g: Seq<usize>,
    key: usize,
    all: bool,
    p: int,
    c: CommentLine,
    x: usize,
    t0: Option<usize>,
)
    requires
        0 <= p <= lines.len(),
        lines.len() == cols.len(),
        targets.len() == lines.len(),
        lines.len() < usize::MAX,
        forall|k: int| 0 <= k < g.len() ==> (#[trigger] g[k]) < lines.len(),
    ensures
        flush(targets.insert(p, t0), lines.insert(p, c), cols.insert(p, x), shifted(g, p), key, all) == flush(
            targets,
            lines,
            cols,
            g,
            key,
            all,
        ).insert(p, t0),
        flush(targets, lines, cols, g, key, all).len() == targets.len(),
{
    lemma_group_max_shift(lines, cols, g, key, all, p, c, x);
    match group_max(lines, cols, g, key, all) {
        Some(m) => {
            lemma_mark_shift(targets, lines, g, key, (m + 1) as usize, p, c, t0);
        },
        None => {},
    }
}

proof fn lemma_scan_after_insert(
    lines: Seq<CommentLine>,
    cols: Seq<usize>,
    key: usize,
    fam: Family,
    c: CommentLine,
    x: usize,
    t0: Option<usize>,
    p: int,
    l: int,
    last: int,
    g: Seq<usize>,
    targets: Seq<Option<usize>>,
)
    requires
        0 <= p <= l,
        p <= lines.len(),
        lines.len() == cols.len(),
        targets.len() == lines.len(),
        lines.len() < usize::MAX,
        forall|k: int| 0 <= k < g.len() ==> (#[trigger] g[k]) < lines.len(),
    ensures
        scan(lines.insert(p, c), cols.insert(p, x), key, fam, l + 1, last + 1, shifted(g, p), targets.insert(p, t0))
            == scan(lines, cols, key, fam, l, last, g, targets).insert(p, t0),
    decreases lines.len() - l,
{
    let lines2 = lines.insert(p, c);
    let cols2 = cols.insert(p, x);
    let all = fam.include_lines_without_comments;
    lemma_flush_shift(targets, lines, cols, g, key, all, p, c, x, t0);
    if l > last || l >= lines.len() {
    } else {
        let line = lines[l];
        assert(lines2[l + 1] == line);
        let ends = (line.blank && fam.blank_line_ends_group) || (line.comment_only && fam.comment_line_ends_group)
            || line.disabled;
        let e = Seq::<usize>::empty();
        assert(shifted(e, p) =~= e);
        let f = flush(targets, lines, cols, g, key, all);
        if ends || !(line.blank || line.comment_only || line.region == Some(key) || line.comment_region == Some(key)
            || all) {
            lemma_scan_after_insert(lines, cols, key, fam, c, x, t0, p, l + 1, last, e, f);
        } else if line.blank || line.comment_only {
            lemma_scan_after_insert(lines, cols, key, fam, c, x, t0, p, l + 1, last, g, targets);
        } else {
            let g1 = g.push(l as usize);
            assert forall|k: int| 0 <= k < g1.len() implies (#[trigger] g1[k]) < lines.len() by {
                if k < g.len() {
                    assert(g1[k] == g[k]);
                }
            }
            assert(shifted(g1, p) =~= shifted(g, p).push((l + 1) as usize));
            lemma_scan_after_insert(lines, cols, key, fam, c, x, t0, p, l + 1, last, g1, targets);
        }
    }
}

proof fn lemma_scan_before_insert(
    lines: Seq<CommentLine>,
    cols: Seq<usize>,
    key: usize,
    fam: Family,
    c: CommentLine,
    x: usize,
    t0: Option<usize>,
    p: int,
    l: int,
    last: int,
    g: Seq<usize>,
    targets: Seq<Option<usize>>,
)
    requires
        !fam.comment_line_ends_group,
        c.comment_only,
        !c.disabled,
        !(c.blank && fam.blank_line_ends_group),
        0 <= l <= p <= last,
        p <= lines.len(),
        lines.len() == cols.len(),
        targets.len() == lines.len(),
        lines.len() < usize::MAX,
        forall|k: int| 0 <= k < g.len() ==> (#[trigger] g[k]) < l,
    ensures
        scan(lines.insert(p, c), cols.insert(p, x), key, fam, l, last + 1, g, targets.insert(p, t0)) == scan(
            lines,
            cols,
            key,
            fam,
            l,
            last,
            g,
            targets,
        ).insert(p, t0),
    decreases p - l,
{
    let lines2 = lines.insert(p, c);
    let cols2 = cols.insert(p, x);
    let all = fam.include_lines_without_comments;
    assert(shifted(g, p) =~= g) by {
        assert forall|k: int| 0 <= k < g.len() implies #[trigger] shifted(g, p)[k] == g[k] by {
            assert(g[k] < l);
        }
    }
    if l == p {
        assert(lines2[p] == c);
        assert(scan(lines2, cols2, key, fam, l, last + 1, g, targets.insert(p, t0)) == scan(
            lines2,
            cols2,
            key,
            fam,
            l + 1,
            last + 1,
            g,
            targets.insert(p, t0),
        ));
        lemma_scan_after_insert(lines, cols, key, fam, c, x, t0, p, l, last, g, targets);
    } else {
        let line = lines[l];
        assert(lines2[l] == line);
        lemma_flush_shift(targets, lines, cols, g, key, all, p, c, x, t0);
        let ends = (line.blank && fam.blank_line_ends_group) || (line.comment_only && fam.comment_line_ends_group)
            || line.disabled;
        let e = Seq::<usize>::empty();
        let f = flush(targets, lines, cols, g, key, all);
        if ends || !(line.blank || line.comment_only || line.region == Some(key) || line.comment_region == Some(key)
            || all) {
            lemma_scan_before_insert(lines, cols, key, fam, c, x, t0, p, l + 1, last, e, f);
        } else if line.blank || line.comment_only {
            lemma_scan_before_insert(lines, cols, key, fam, c, x, t0, p, l + 1, last, g, targets);
        } else {
            let g1 = g.push(l as usize);
            assert forall|k: int| 0 <= k < g1.len() implies (#[trigger] g1[k]) < l + 1 by {
                if k < g.len() {
                    assert(g1[k] == g[k]);
                }
            }
            lemma_scan_before_insert(lines, cols, key, fam, c, x, t0, p, l + 1, last, g1, targets);
        }
    }
}

/// Where a family does not end groups at comment lines, putting an own-line comment (outside a
/// `fmt off` region, and not a blank line that ends groups) between the lines a region scans
/// changes no target column: the columns the other lines get are those they get without it.
pub proof fn law_comment_line_changes_no_column(
    lines: Seq<CommentLine>,
    cols: Seq<usize>,
    key: usize,
    fam: Family,
    c: CommentLine,
    x: usize,
    t0: Option<usize>,
    p: int,
    first: int,
    last: int,
    targets: Seq<Option<usize>>,
)
    requires
        !fam.comment_line_ends_group,
        c.comment_only,
        !c.disabled,
        !(c.blank && fam.blank_line_ends_group),
        0 <= first <= p <= last,
        p <= lines.len(),
        lines.len() == cols.len(),
        targets.len() == lines.len(),
        lines.len() < usize::MAX,
    ensures
        scan(lines.insert(p, c), cols.insert(p, x), key, fam, first, last + 1, Seq::empty(), targets.insert(p, t0))
            == scan(lines, cols, key, fam, first, last, Seq::empty(), targets).insert(p, t0),
{
    lemma_scan_before_insert(lines, cols, key, fam, c, x, t0, p, first, last, Seq::empty(), targets);
}

} // verus!
