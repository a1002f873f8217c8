//! Sorting the context clause: library groups in a fixed order, the standard libraries first and
//! `work` last.
use vstd::prelude::*;

use crate::bytes::str_eq;
use crate::chars::{chars_of, lower_all, lowered, string_of, trim_range, trimmed};
use crate::reflow::{lemma_line_end, line_end};
use crate::text::count_newlines;
use crate::analysis::syntax::{
    all_tokens, children_upto, spec_children, spec_text_of, spec_tokens, text_of, tokens_of, Element, Kind, Node,
};
use vstd::string::StrSliceExecFns;
use crate::analysis::design::{less_text, text_less};
use crate::analysis::syntax::{find, nodes_of, spec_find};
use crate::bytes::{bytes_eq, extend_bytes, extend_range};
use crate::reflow::is_utf8;

verus! {

/// Where a library sorts: 0 for `ieee` and `std`, 2 for `work`, 1 for the rest.
pub open spec fn spec_rank(library: Seq<char>) -> u8 {
    if library == "ieee"@ || library == "std"@ {
        0
    } else if library == "work"@ {
        2
    } else {
        1
    }
}

/// Where a library sorts: the standard ones first, `work` last, the rest alphabetically between.
pub fn rank(library: &str) -> (r: (u8, String))
    ensures
        r.0 == spec_rank(library@),
        r.1@ == library@,
{
    let group = if str_eq(library, "ieee") || str_eq(library, "std") {
        0
    } else if str_eq(library, "work") {
        2
    } else {
        1
    };
    (group, library.to_owned())
}

/// Where the first `.` of `s` is, or its length.
pub open spec fn first_dot_at(s: Seq<char>) -> int
    decreases s.len(),
{
    if s.len() == 0 {
        0
    } else if s[0] == '.' {
        0
    } else {
        1 + first_dot_at(s.skip(1))
    }
}

/// The library a name refers to: its first part, trimmed, in lower case.
pub open spec fn spec_library_of(name: Seq<char>) -> Seq<char> {
    lowered(trimmed(name.take(first_dot_at(name))))
}

/// The library a name refers to: `ieee.std_logic_1164.all` is `ieee`.
pub fn library_of(name: &str) -> (r: String)
    ensures
        r@ == spec_library_of(name@),
{
    let v = chars_of(name);
    let mut d: usize = 0;
    assert(v@.skip(0) =~= v@);
    while d < v.len() && v[d] != '.'
        invariant
            0 <= d <= v@.len(),
            first_dot_at(v@) == d + first_dot_at(v@.skip(d as int)),
        decreases v@.len() - d,
    {
        assert(v@.skip(d as int).skip(1) =~= v@.skip(d + 1));
        d = d + 1;
    }
    let (a, b) = trim_range(&v, 0, d);
    assert(v@.subrange(0, d as int) =~= v@.take(d as int));
    let low = lower_all(&v);
    assert(low@.subrange(a as int, b as int) =~= lowered(v@.subrange(a as int, b as int)));
    string_of(&low, a, b)
}

// The lines of a source ---------------------------------------------------------------------------

/// The lines of `s` from offset `i` on, as (start, end) offsets; each line ends after its line
/// feed, the last one at the end of `s` (as `split_inclusive` cuts them).
pub open spec fn source_lines_from(s: Seq<u8>, i: int) -> Seq<(int, int)>
    decreases s.len() - i,
{
    if i < 0 || i >= s.len() {
        Seq::empty()
    } else {
        let e = line_end(s, i);
        proof {
            lemma_line_end(s, i);
        }
        seq![(i, e)] + source_lines_from(s, e)
    }
}

pub open spec fn lines_view(v: Seq<(usize, usize)>) -> Seq<(int, int)> {
    v.map_values(|p: (usize, usize)| (p.0 as int, p.1 as int))
}

/// Every line lies in `s` and starts before it ends.
pub open spec fn lines_ok(s: Seq<u8>, lines: Seq<(int, int)>) -> bool {
    forall|k: int| 0 <= k < lines.len() ==> 0 <= (#[trigger] lines[k]).0 <= lines[k].1 <= s.len()
}

proof fn lemma_lines_ok(s: Seq<u8>, i: int)
    requires
        0 <= i <= s.len(),
    ensures
        lines_ok(s, source_lines_from(s, i)),
    decreases s.len() - i,
{
    if i < s.len() {
        let e = line_end(s, i);
        lemma_line_end(s, i);
        lemma_lines_ok(s, e);
        let rest = source_lines_from(s, e);
        let all = source_lines_from(s, i);
        assert forall|k: int| 0 <= k < all.len() implies 0 <= (#[trigger] all[k]).0 <= all[k].1 <= s.len() by {
            if k > 0 {
                assert(all[k] == rest[k - 1]);
            }
        }
    }
}

/// The lines of `s`.
fn source_lines(s: &[u8]) -> (r: Vec<(usize, usize)>)
    ensures
        lines_view(r@) == source_lines_from(s@, 0),
        lines_ok(s@, lines_view(r@)),
{
    let mut out: Vec<(usize, usize)> = Vec::new();
    let mut i: usize = 0;
    assert(lines_view(out@) =~= Seq::<(int, int)>::empty());
    while i < s.len()
        invariant
            0 <= i <= s@.len(),
            lines_view(out@) + source_lines_from(s@, i as int) == source_lines_from(s@, 0),
        decreases s@.len() - i,
    {
        let mut e = i;
        while e < s.len() && s[e] != 10u8
            invariant
                i <= e <= s@.len(),
                line_end(s@, e as int) == line_end(s@, i as int),
            decreases s@.len() - e,
        {
            e = e + 1;
        }
        if e < s.len() {
            e = e + 1;
        }
        proof {
            lemma_line_end(s@, i as int);
        }
        assert(e as int == line_end(s@, i as int));
        let ghost before = out@;
        out.push((i, e));
        assert(lines_view(out@) =~= lines_view(before) + seq![(i as int, e as int)]);
        assert(lines_view(out@) + source_lines_from(s@, e as int) =~= lines_view(before) + source_lines_from(
            s@,
            i as int,
        ));
        i = e;
    }
    assert(lines_view(out@) + Seq::<(int, int)>::empty() =~= lines_view(out@));
    proof {
        lemma_lines_ok(s@, 0);
    }
    out
}

/// The number of line feeds in `s` before `off` (or the whole of `s`): the index of the line
/// `off` is on.
fn newlines_before(s: &[u8], off: usize) -> (r: usize)
    ensures
        r as int == count_newlines(s@.take(if off < s@.len() { off as int } else { s@.len() as int })),
{
    let end = if off < s.len() {
        off
    } else {
        s.len()
    };
    let mut n: usize = 0;
    let mut i: usize = 0;
    assert(s@.take(0) =~= Seq::<u8>::empty());
    while i < end
        invariant
            0 <= i <= end <= s@.len(),
            n as int == count_newlines(s@.take(i as int)),
            n <= i,
        decreases end - i,
    {
        assert(s@.take(i + 1).drop_last() =~= s@.take(i as int));
        if s[i] == 10u8 {
            n = n + 1;
        }
        i = i + 1;
    }
    n
}

/// A blank byte, as `str::trim` drops them (ASCII).
pub open spec fn blank_byte(b: u8) -> bool {
    b == 32u8 || (9u8 <= b && b <= 13u8)
}

pub open spec fn all_blank(s: Seq<u8>) -> bool {
    forall|k: int| 0 <= k < s.len() ==> blank_byte(#[trigger] s[k])
}

/// Where the first byte of `s` that is not blank is, or the length of `s`.
pub open spec fn first_code_at(s: Seq<u8>, i: int) -> int
    decreases s.len() - i,
{
    if i < 0 || i >= s.len() {
        s.len() as int
    } else if blank_byte(s[i]) {
        first_code_at(s, i + 1)
    } else {
        i
    }
}

/// Whether `s` starts with `--` once its leading blanks are dropped.
pub open spec fn starts_comment(s: Seq<u8>) -> bool {
    let j = first_code_at(s, 0);
    0 <= j && j + 1 < s.len() && s[j] == 45u8 && s[j + 1] == 45u8
}

/// Whether `s[a..b]` is blank.
fn blank_range(s: &[u8], a: usize, b: usize) -> (r: bool)
    requires
        a <= b <= s@.len(),
    ensures
        r == all_blank(s@.subrange(a as int, b as int)),
{
    let mut i = a;
    while i < b
        invariant
            a <= i <= b <= s@.len(),
            forall|k: int| a <= k < i ==> blank_byte(#[trigger] s@[k]),
        decreases b - i,
    {
        let c = s[i];
        if !(c == 32u8 || (9u8 <= c && c <= 13u8)) {
            assert(s@.subrange(a as int, b as int)[i - a] == c);
            return false;
        }
        i = i + 1;
    }
    assert forall|k: int| 0 <= k < b - a implies blank_byte(#[trigger] s@.subrange(a as int, b as int)[k]) by {
        assert(s@.subrange(a as int, b as int)[k] == s@[a + k]);
    }
    true
}

/// Whether `s[a..b]` starts with `--` once its leading blanks are dropped.
fn comment_range(s: &[u8], a: usize, b: usize) -> (r: bool)
    requires
        a <= b <= s@.len(),
    ensures
        r == starts_comment(s@.subrange(a as int, b as int)),
{
    let ghost t = s@.subrange(a as int, b as int);
    let mut i = a;
    while i < b && (s[i] == 32u8 || (9u8 <= s[i] && s[i] <= 13u8))
        invariant
            a <= i <= b <= s@.len(),
            t == s@.subrange(a as int, b as int),
            first_code_at(t, 0) == first_code_at(t, i - a),
        decreases b - i,
    {
        assert(t[i - a] == s@[i as int]);
        i = i + 1;
    }
    if i < b {
        assert(t[i - a] == s@[i as int]);
    }
    assert(first_code_at(t, i - a) == i - a);
    if b - i > 1 {
        assert(t[i - a + 1] == s@[i + 1]);
        s[i] == 45u8 && s[i + 1] == 45u8
    } else {
        false
    }
}

// Clauses as groups -------------------------------------------------------------------------------

/// `t` with every leading `p` dropped (`str::trim_start_matches`).
pub open spec fn strip_leading(t: Seq<char>, p: Seq<char>) -> Seq<char>
    decreases t.len(),
{
    if p.len() > 0 && t.len() >= p.len() && t.take(p.len() as int) == p {
        strip_leading(t.skip(p.len() as int), p)
    } else {
        t
    }
}

/// `t` with every trailing `;` dropped.
pub open spec fn strip_semicolons(t: Seq<char>) -> Seq<char>
    decreases t.len(),
{
    if t.len() > 0 && t.last() == ';' {
        strip_semicolons(t.drop_last())
    } else {
        t
    }
}

/// What a clause names: its text without the keyword `kw` in front and the `;` at the end,
/// trimmed.
pub open spec fn clause_name(text: Seq<char>, kw: Seq<char>) -> Seq<char> {
    trimmed(strip_semicolons(strip_leading(text, kw)))
}

/// Whether `p` stands in `v` at `a`.
fn prefix_at(v: &Vec<char>, a: usize, p: &Vec<char>) -> (r: bool)
    ensures
        r == (a + p@.len() <= v@.len() && v@.subrange(a as int, a + p@.len()) == p@),
{
    if a > v.len() || p.len() > v.len() - a {
        return false;
    }
    let mut k: usize = 0;
    while k < p.len()
        invariant
            0 <= k <= p@.len(),
            a + p@.len() <= v@.len(),
            v@.len() <= usize::MAX,
            forall|j: int| 0 <= j < k ==> v@[a + j] == p@[j],
        decreases p@.len() - k,
    {
        if v[a + k] != p[k] {
            assert(v@.subrange(a as int, a + p@.len())[k as int] != p@[k as int]);
            return false;
        }
        k = k + 1;
    }
    assert(v@.subrange(a as int, a + p@.len()) =~= p@);
    true
}

/// Where `v[a..b]` stands once every leading `p` and every trailing `;` are dropped and it is
/// trimmed.
fn name_range(v: &Vec<char>, p: &Vec<char>) -> (r: (usize, usize))
    requires
        p@.len() > 0,
    ensures
        r.0 <= r.1 <= v@.len(),
        v@.subrange(r.0 as int, r.1 as int) == clause_name(v@, p@),
{
    let mut a: usize = 0;
    let n = v.len();
    let m = p.len();
    assert(v@.subrange(0, n as int) =~= v@);
    while prefix_at(v, a, p)
        invariant
            0 <= a <= n,
            n == v@.len(),
            m == p@.len(),
            m > 0,
            strip_leading(v@.subrange(a as int, n as int), p@) == strip_leading(v@, p@),
        decreases n - a,
    {
        let ghost t = v@.subrange(a as int, n as int);
        assert(t.take(m as int) =~= p@);
        assert(t.skip(m as int) =~= v@.subrange(a + m, n as int));
        a = a + m;
    }
    proof {
        let t = v@.subrange(a as int, n as int);
        if t.len() >= m && t.take(m as int) == p@ {
            assert(v@.subrange(a as int, a + m) =~= t.take(m as int));
        }
    }
    let mut b = n;
    while b > a && v[b - 1] == ';'
        invariant
            a <= b <= n,
            n == v@.len(),
            strip_semicolons(v@.subrange(a as int, b as int)) == strip_semicolons(v@.subrange(a as int, n as int)),
        decreases b,
    {
        assert(v@.subrange(a as int, b as int).drop_last() =~= v@.subrange(a as int, b - 1));
        b = b - 1;
    }
    assert(strip_semicolons(v@.subrange(a as int, b as int)) == v@.subrange(a as int, b as int));
    let (c, d) = trim_range(v, a, b);
    (c, d)
}

// Gathering the clauses ---------------------------------------------------------------------------

pub open spec fn sat_add(a: int, b: int) -> int {
    if a + b <= usize::MAX {
        a + b
    } else {
        usize::MAX as int
    }
}

pub open spec fn clamp(x: int, lo: int, hi: int) -> int {
    if x < lo {
        lo
    } else if x > hi {
        hi
    } else {
        x
    }
}

/// The index of the line offset `off` is on (the end of `s` for an offset past it).
pub open spec fn line_of(s: Seq<u8>, off: int) -> int {
    count_newlines(s.take(if off < s.len() { off } else { s.len() as int })) as int
}

/// The bytes of line `l`.
pub open spec fn line_bytes(s: Seq<u8>, l: (int, int)) -> Seq<u8> {
    s.subrange(l.0, l.1)
}

/// The first line of a block: comment lines directly above line `first`, not yet taken, belong
/// to it.
pub open spec fn comment_start(s: Seq<u8>, lines: Seq<(int, int)>, taken: Seq<bool>, first: int) -> int
    decreases first,
{
    if 0 < first <= lines.len() && first <= taken.len() && !taken[first - 1] && starts_comment(
        line_bytes(s, lines[first - 1]),
    ) {
        comment_start(s, lines, taken, first - 1)
    } else {
        first
    }
}

/// The lines a node occupies, extended to whole lines and to the comment lines directly above
/// it; `None` when it shares its first line with code before it or its last line with
/// anything but a comment after it, or has no token.
pub open spec fn spec_block(s: Seq<u8>, lines: Seq<(int, int)>, item: Node, taken: Seq<bool>) -> Option<(int, int)> {
    let ts = spec_tokens(item);
    if ts.len() == 0 {
        None
    } else {
        let start = ts[0].offset as int;
        let end = sat_add(ts.last().offset as int, ts.last().latin1@.len() as int);
        let first = line_of(s, start);
        let last = line_of(s, if end > 0 { end - 1 } else { 0 });
        if first >= lines.len() || last >= lines.len() {
            None
        } else if !all_blank(s.subrange(lines[first].0, clamp(start, lines[first].0, lines[first].1))) {
            None
        } else {
            let rest = s.subrange(clamp(end, lines[last].0, lines[last].1), lines[last].1);
            if !all_blank(rest) && !starts_comment(rest) {
                None
            } else {
                Some((comment_start(s, lines, taken, first), last))
            }
        }
    }
}

fn clamp_usize(x: usize, lo: usize, hi: usize) -> (r: usize)
    ensures
        r as int == clamp(x as int, lo as int, hi as int),
{
    if x < lo {
        lo
    } else if x > hi {
        hi
    } else {
        x
    }
}

/// The lines `item` occupies: see [`spec_block`].
fn block(s: &[u8], lines: &Vec<(usize, usize)>, item: &Node, taken: &Vec<bool>) -> (r: Option<(usize, usize)>)
    requires
        lines_ok(s@, lines_view(lines@)),
        taken@.len() == lines@.len(),
    ensures
        match r {
            Some((a, b)) => spec_block(s@, lines_view(lines@), *item, taken@) == Some((a as int, b as int)),
            None => spec_block(s@, lines_view(lines@), *item, taken@) is None,
        },
{
    let ghost lv = lines_view(lines@);
    let ts = all_tokens(item);
    if ts.len() == 0 {
        return None;
    }
    let t0 = ts[0];
    let tl = ts[ts.len() - 1];
    assert(tokens_of(ts@)[0] == *t0);
    assert(tokens_of(ts@).last() == *tl);
    let start = t0.offset;
    let len = tl.latin1.as_str().unicode_len();
    let end = if tl.offset <= usize::MAX - len {
        tl.offset + len
    } else {
        usize::MAX
    };
    let first = newlines_before(s, start);
    let last = newlines_before(s, if end > 0 { end - 1 } else { 0 });
    if first >= lines.len() || last >= lines.len() {
        return None;
    }
    let (f0, f1) = lines[first];
    assert(lv[first as int] == (f0 as int, f1 as int));
    let hs = clamp_usize(start, f0, f1);
    if !blank_range(s, f0, hs) {
        return None;
    }
    let (l0, l1) = lines[last];
    assert(lv[last as int] == (l0 as int, l1 as int));
    let rs = clamp_usize(end, l0, l1);
    if !blank_range(s, rs, l1) && !comment_range(s, rs, l1) {
        return None;
    }
    let mut f = first;
    while f > 0 && !taken[f - 1] && comment_range(s, lines[f - 1].0, lines[f - 1].1)
        invariant
            0 <= f <= first < lines@.len(),
            taken@.len() == lines@.len(),
            lv == lines_view(lines@),
            lines_ok(s@, lv),
            comment_start(s@, lv, taken@, first as int) == comment_start(s@, lv, taken@, f as int),
        decreases f,
    {
        assert(lv[f - 1] == (lines@[f - 1].0 as int, lines@[f - 1].1 as int));
        f = f - 1;
    }
    if f > 0 {
        assert(lv[f - 1] == (lines@[f - 1].0 as int, lines@[f - 1].1 as int));
    }
    Some((f, last))
}

/// One library and the clauses belonging to it, as line ranges.
pub struct Group {
    pub library: String,
    /// The `library` clause, when the group has one.
    pub clause: Option<(usize, usize)>,
    /// Each `use` clause, by the name it uses and the lines it occupies.
    pub uses: Vec<(String, (usize, usize))>,
}

pub ghost struct SGroup {
    pub library: Seq<char>,
    pub clause: Option<(int, int)>,
    pub uses: Seq<(Seq<char>, (int, int))>,
}

pub open spec fn uses_view(v: Seq<(String, (usize, usize))>) -> Seq<(Seq<char>, (int, int))> {
    v.map_values(|u: (String, (usize, usize))| (u.0@, (u.1.0 as int, u.1.1 as int)))
}

pub open spec fn group_view(g: Group) -> SGroup {
    SGroup {
        library: g.library@,
        clause: match g.clause {
            Some((a, b)) => Some((a as int, b as int)),
            None => None,
        },
        uses: uses_view(g.uses@),
    }
}

pub open spec fn groups_view(v: Seq<Group>) -> Seq<SGroup> {
    v.map_values(|g: Group| group_view(g))
}

/// What gathering the clauses has found: the lines taken, the first and last of them, and the
/// groups in order of appearance.
pub ghost struct SGather {
    pub taken: Seq<bool>,
    pub first: int,
    pub last: int,
    pub groups: Seq<SGroup>,
}

/// The first group of library `lib`.
pub open spec fn library_index(gs: Seq<SGroup>, lib: Seq<char>) -> Option<int>
    decreases gs.len(),
{
    if gs.len() == 0 {
        None
    } else if gs[0].library == lib {
        Some(0)
    } else {
        match library_index(gs.skip(1), lib) {
            Some(i) => Some(i + 1),
            None => None,
        }
    }
}

pub open spec fn mark(taken: Seq<bool>, from: int, to: int) -> Seq<bool> {
    Seq::new(taken.len(), |k: int| if from <= k <= to { true } else { taken[k] })
}

/// One clause gathered: its lines taken, and it joins the group of its library (a `library`
/// clause always starts one); `None` when it cannot be moved, names two libraries, or is not a
/// `library` or `use` clause.
pub open spec fn gather_item(s: Seq<u8>, lines: Seq<(int, int)>, st: SGather, item: Node) -> Option<SGather> {
    match spec_block(s, lines, item, st.taken) {
        None => None,
        Some((from, to)) => {
            let taken = mark(st.taken, from, to);
            let first = if from < st.first { from } else { st.first };
            let last = if to > st.last { to } else { st.last };
            let text = spec_text_of(item);
            if item.kind == Kind::LibraryClause {
                let named = clause_name(text, "library"@);
                if named.contains(',') {
                    None
                } else {
                    Some(
                        SGather {
                            taken,
                            first,
                            last,
                            groups: st.groups.push(
                                SGroup { library: lowered(named), clause: Some((from, to)), uses: Seq::empty() },
                            ),
                        },
                    )
                }
            } else if item.kind == Kind::UseClauseContextItem {
                let used = clause_name(text, "use"@);
                if used.contains(',') {
                    None
                } else {
                    let lib = spec_library_of(used);
                    let groups = match library_index(st.groups, lib) {
                        Some(g) => st.groups.update(
                            g,
                            SGroup { uses: st.groups[g].uses.push((used, (from, to))), ..st.groups[g] },
                        ),
                        None => st.groups.push(SGroup { library: lib, clause: None, uses: seq![(used, (from, to))] }),
                    };
                    Some(SGather { taken, first, last, groups })
                }
            } else {
                None
            }
        },
    }
}

/// The clauses `items` gathered in order.
pub open spec fn gather(s: Seq<u8>, lines: Seq<(int, int)>, items: Seq<Node>) -> Option<SGather>
    decreases items.len(),
{
    if items.len() == 0 {
        Some(
            SGather {
                taken: Seq::new(lines.len(), |k: int| false),
                first: usize::MAX as int,
                last: 0,
                groups: Seq::empty(),
            },
        )
    } else {
        match gather(s, lines, items.drop_last()) {
            None => None,
            Some(st) => gather_item(s, lines, st, items.last()),
        }
    }
}

fn find_library(groups: &Vec<Group>, lib: &str) -> (r: Option<usize>)
    ensures
        match r {
            Some(i) => library_index(groups_view(groups@), lib@) == Some(i as int) && i < groups@.len(),
            None => library_index(groups_view(groups@), lib@) is None,
        },
{
    let ghost gv = groups_view(groups@);
    let mut i: usize = 0;
    assert(gv.skip(0) =~= gv);
    while i < groups.len()
        invariant
            0 <= i <= groups@.len(),
            gv == groups_view(groups@),
            forall|j: int| 0 <= j < i ==> (#[trigger] gv[j]).library != lib@,
            library_index(gv, lib@) == match library_index(gv.skip(i as int), lib@) {
                Some(k) => Some(k + i),
                None => None,
            },
        decreases groups@.len() - i,
    {
        assert(gv[i as int].library == groups@[i as int].library@);
        assert(gv.skip(i as int)[0] == gv[i as int]);
        if str_eq(groups[i].library.as_str(), lib) {
            return Some(i);
        }
        assert(gv.skip(i as int).skip(1) =~= gv.skip(i + 1));
        i = i + 1;
    }
    assert(gv.skip(i as int).len() == 0);
    None
}

/// Add a use clause to group `g`.
fn add_use(groups: &mut Vec<Group>, g: usize, name: String, at: (usize, usize))
    requires
        g < old(groups)@.len(),
    ensures
        groups_view(final(groups)@) == groups_view(old(groups)@).update(
            g as int,
            SGroup {
                uses: groups_view(old(groups)@)[g as int].uses.push((name@, (at.0 as int, at.1 as int))),
                ..groups_view(old(groups)@)[g as int]
            },
        ),
{
    let ghost before = groups@;
    let mut grp = groups.remove(g);
    let ghost u0 = grp.uses@;
    grp.uses.push((name, at));
    assert(uses_view(grp.uses@) =~= uses_view(u0).push((name@, (at.0 as int, at.1 as int))));
    groups.insert(g, grp);
    assert(groups_view(groups@) =~= groups_view(before).update(
        g as int,
        SGroup {
            uses: groups_view(before)[g as int].uses.push((name@, (at.0 as int, at.1 as int))),
            ..groups_view(before)[g as int]
        },
    ));
}

/// Whether `v[c..d]` holds a comma.
fn has_comma(v: &Vec<char>, c: usize, d: usize) -> (r: bool)
    requires
        c <= d <= v@.len(),
    ensures
        r == v@.subrange(c as int, d as int).contains(','),
{
    let mut i = c;
    while i < d
        invariant
            c <= i <= d <= v@.len(),
            forall|k: int| c <= k < i ==> v@[k] != ',',
        decreases d - i,
    {
        if v[i] == ',' {
            assert(v@.subrange(c as int, d as int)[i - c] == ',');
            return true;
        }
        i = i + 1;
    }
    assert forall|k: int| 0 <= k < d - c implies v@.subrange(c as int, d as int)[k] != ',' by {
        assert(v@.subrange(c as int, d as int)[k] == v@[c + k]);
    }
    false
}

proof fn lemma_gather_stays_none(s: Seq<u8>, lines: Seq<(int, int)>, ctx: Node, i: int, j: int)
    requires
        0 <= i <= j <= ctx.elements@.len(),
        gather(s, lines, children_upto(ctx, i)) is None,
    ensures
        gather(s, lines, children_upto(ctx, j)) is None,
    decreases j - i,
{
    if j > i {
        lemma_gather_stays_none(s, lines, ctx, i, j - 1);
        match ctx.elements@[j - 1] {
            Element::Node(c) => {
                assert(children_upto(ctx, j).drop_last() =~= children_upto(ctx, j - 1));
            },
            Element::Token(_) => {},
        }
    }
}

proof fn lemma_gather_taken(s: Seq<u8>, lines: Seq<(int, int)>, items: Seq<Node>)
    ensures
        gather(s, lines, items) matches Some(st) ==> st.taken.len() == lines.len(),
    decreases items.len(),
{
    if items.len() > 0 {
        lemma_gather_taken(s, lines, items.drop_last());
    }
}

/// The clauses of `context` gathered: see [`gather`].
fn gather_clauses(s: &[u8], lines: &Vec<(usize, usize)>, context: &Node) -> (r: Option<
    (Vec<bool>, usize, usize, Vec<Group>),
>)
    requires
        lines_ok(s@, lines_view(lines@)),
    ensures
        match r {
            Some((taken, first, last, groups)) => gather(s@, lines_view(lines@), spec_children(*context))
                == Some(SGather { taken: taken@, first: first as int, last: last as int, groups: groups_view(groups@) }),
            None => gather(s@, lines_view(lines@), spec_children(*context)) is None,
        },
{
    let ghost lv = lines_view(lines@);
    let mut taken: Vec<bool> = Vec::new();
    let mut k: usize = 0;
    while k < lines.len()
        invariant
            0 <= k <= lines@.len(),
            taken@ == Seq::new(k as nat, |j: int| false),
        decreases lines@.len() - k,
    {
        taken.push(false);
        k = k + 1;
        assert(taken@ =~= Seq::new(k as nat, |j: int| false));
    }
    let mut first: usize = usize::MAX;
    let mut last: usize = 0;
    let mut groups: Vec<Group> = Vec::new();
    let mut i: usize = 0;
    assert(groups_view(groups@) =~= Seq::<SGroup>::empty());
    assert(children_upto(*context, 0) =~= Seq::<Node>::empty());
    assert(taken@ =~= Seq::new(lv.len(), |j: int| false));
    while i < context.elements.len()
        invariant
            0 <= i <= context.elements@.len(),
            lv == lines_view(lines@),
            lines_ok(s@, lv),
            taken@.len() == lines@.len(),
            gather(s@, lv, children_upto(*context, i as int)) == Some(
                SGather { taken: taken@, first: first as int, last: last as int, groups: groups_view(groups@) },
            ),
        decreases context.elements@.len() - i,
    {
        proof {
            if gather(s@, lv, children_upto(*context, i + 1)) is None {
                lemma_gather_stays_none(s@, lv, *context, i + 1, context.elements@.len() as int);
            }
        }
        match &context.elements[i] {
            Element::Token(_) => {
                assert(children_upto(*context, i + 1) == children_upto(*context, i as int));
            },
            Element::Node(item) => {
                let ghost st = SGather {
                    taken: taken@,
                    first: first as int,
                    last: last as int,
                    groups: groups_view(groups@),
                };
                assert(children_upto(*context, i + 1).drop_last() =~= children_upto(*context, i as int));
                assert(children_upto(*context, i + 1).last() == *item);
                let (from, to) = match block(s, lines, item, &taken) {
                    None => {
                        return None;
                    },
                    Some(b) => b,
                };
                let ghost old_taken = taken@;
                let mut m = from;
                while m < taken.len() && m <= to
                    invariant
                        from <= m,
                        m == from || m <= to + 1,
                        taken@.len() == old_taken.len(),
                        forall|j: int| 0 <= j < taken@.len() ==> #[trigger] taken@[j] == if from <= j < m {
                            true
                        } else {
                            old_taken[j]
                        },
                    decreases taken@.len() - m,
                {
                    taken.set(m, true);
                    m = m + 1;
                }
                assert(taken@ =~= mark(old_taken, from as int, to as int));
                if from < first {
                    first = from;
                }
                if to > last {
                    last = to;
                }
                let text = text_of(item);
                if item.kind == Kind::LibraryClause {
                    let p = chars_of("library");
                    proof {
                        reveal_strlit("library");
                    }
                    let (c, d) = name_range(&text, &p);
                    if has_comma(&text, c, d) {
                        return None;
                    }
                    let low = lower_all(&text);
                    assert(low@.subrange(c as int, d as int) =~= lowered(text@.subrange(c as int, d as int)));
                    let library = string_of(&low, c, d);
                    let ghost g0 = groups@;
                    let none: Vec<(String, (usize, usize))> = Vec::new();
                    assert(uses_view(none@) =~= Seq::<(Seq<char>, (int, int))>::empty());
                    groups.push(Group { library, clause: Some((from, to)), uses: none });
                    assert(groups_view(groups@) =~= groups_view(g0).push(
                        SGroup { library: lowered(clause_name(text@, "library"@)), clause: Some((from as int, to as int)), uses: Seq::empty() },
                    ));
                } else if item.kind == Kind::UseClauseContextItem {
                    let p = chars_of("use");
                    proof {
                        reveal_strlit("use");
                    }
                    let (c, d) = name_range(&text, &p);
                    if has_comma(&text, c, d) {
                        return None;
                    }
                    let used = string_of(&text, c, d);
                    let lib = library_of(used.as_str());
                    match find_library(&groups, lib.as_str()) {
                        Some(g) => {
                            add_use(&mut groups, g, used, (from, to));
                        },
                        None => {
                            let ghost g0 = groups@;
                            let mut uses: Vec<(String, (usize, usize))> = Vec::new();
                            let ghost uname = used@;
                            uses.push((used, (from, to)));
                            assert(uses_view(uses@) =~= seq![(uname, (from as int, to as int))]);
                            groups.push(Group { library: lib, clause: None, uses });
                            assert(groups_view(groups@) =~= groups_view(g0).push(
                                SGroup { library: lib@, clause: None, uses: seq![(uname, (from as int, to as int))] },
                            ));
                        },
                    }
                } else {
                    return None;
                }
            },
        }
        i = i + 1;
    }
    Some((taken, first, last, groups))
}

// Sorting and writing the clauses back ------------------------------------------------------------

/// `x` put into `sorted` ahead of the first element it goes `before`, after all others: one
/// step of a stable insertion sort.
pub open spec fn insert_by<T>(sorted: Seq<T>, x: T, before: spec_fn(T, T) -> bool) -> Seq<T>
    decreases sorted.len(),
{
    if sorted.len() == 0 {
        seq![x]
    } else if before(x, sorted[0]) {
        seq![x] + sorted
    } else {
        seq![sorted[0]] + insert_by(sorted.skip(1), x, before)
    }
}

/// `s` sorted by `before`, elements that neither goes before keeping their order (a stable
/// sort).
pub open spec fn sort_by<T>(s: Seq<T>, before: spec_fn(T, T) -> bool) -> Seq<T>
    decreases s.len(),
{
    if s.len() == 0 {
        Seq::empty()
    } else {
        insert_by(sort_by(s.drop_last(), before), s.last(), before)
    }
}

proof fn lemma_insert_at<T>(sorted: Seq<T>, x: T, before: spec_fn(T, T) -> bool, k: int)
    requires
        0 <= k <= sorted.len(),
        forall|j: int| 0 <= j < k ==> !before(x, #[trigger] sorted[j]),
        k < sorted.len() ==> before(x, sorted[k]),
    ensures
        insert_by(sorted, x, before) == sorted.take(k).push(x) + sorted.skip(k),
    decreases k,
{
    if k == 0 {
        if sorted.len() == 0 {
            assert(sorted.take(0).push(x) + sorted.skip(0) =~= seq![x]);
        } else {
            assert(sorted.take(0).push(x) + sorted.skip(0) =~= seq![x] + sorted);
        }
    } else {
        let rest = sorted.skip(1);
        assert forall|j: int| 0 <= j < k - 1 implies !before(x, #[trigger] rest[j]) by {
            assert(rest[j] == sorted[j + 1]);
        }
        if k - 1 < rest.len() {
            assert(rest[k - 1] == sorted[k]);
        }
        lemma_insert_at(rest, x, before, k - 1);
        assert(!before(x, sorted[0]));
        assert(seq![sorted[0]] + (rest.take(k - 1).push(x) + rest.skip(k - 1)) =~= sorted.take(k).push(x)
            + sorted.skip(k));
    }
}

/// Where a group sorts: by the rank of its library, then by the library's name.
pub open spec fn group_before(a: SGroup, b: SGroup) -> bool {
    spec_rank(a.library) < spec_rank(b.library) || (spec_rank(a.library) == spec_rank(b.library)
        && text_less(a.library, b.library))
}

/// Where a use clause sorts: by the name it uses.
pub open spec fn use_before(a: (Seq<char>, (int, int)), b: (Seq<char>, (int, int))) -> bool {
    text_less(a.0, b.0)
}

pub open spec fn by_group() -> spec_fn(SGroup, SGroup) -> bool {
    |a: SGroup, b: SGroup| group_before(a, b)
}

pub open spec fn by_use() -> spec_fn((Seq<char>, (int, int)), (Seq<char>, (int, int))) -> bool {
    |a: (Seq<char>, (int, int)), b: (Seq<char>, (int, int))| use_before(a, b)
}

/// The groups sorted.
fn sort_groups(groups: Vec<Group>) -> (r: Vec<Group>)
    ensures
        groups_view(r@) == sort_by(groups_view(groups@), by_group()),
        groups_in_library_order(groups_view(r@)),
        groups_view(r@).to_multiset() == groups_view(groups@).to_multiset(),
{
    proof {
        law_groups_sorted_by_rank_then_name(groups_view(groups@));
    }
    let ghost gv = groups_view(groups@);
    let total = groups.len();
    assert(gv.len() == total);
    let mut rest = groups;
    let mut out: Vec<Group> = Vec::new();
    let mut n: usize = 0;
    assert(gv.take(0) =~= Seq::<SGroup>::empty());
    assert(groups_view(out@) =~= Seq::<SGroup>::empty());
    while rest.len() > 0
        invariant
            n + rest@.len() == gv.len(),
            gv.len() <= usize::MAX,
            groups_view(rest@) == gv.skip(n as int),
            groups_view(out@) == sort_by(gv.take(n as int), by_group()),
        decreases rest@.len(),
    {
        let ghost r0 = rest@;
        let g = rest.remove(0);
        assert(group_view(g) == gv[n as int]) by {
            assert(groups_view(r0)[0] == group_view(r0[0]));
        }
        assert(groups_view(rest@) =~= gv.skip(n + 1)) by {
            assert(rest@ =~= r0.subrange(1, r0.len() as int));
            assert forall|j: int| 0 <= j < rest@.len() implies #[trigger] groups_view(rest@)[j] == gv.skip(n + 1)[j] by {
                assert(groups_view(rest@)[j] == group_view(r0[j + 1]));
                assert(groups_view(r0)[j + 1] == gv.skip(n as int)[j + 1]);
            }
        }
        let ghost sorted = groups_view(out@);
        let mut k: usize = 0;
        while k < out.len() && !(group_rank(&g) < group_rank(&out[k]) || (group_rank(&g) == group_rank(&out[k])
            && less_text(g.library.as_str(), out[k].library.as_str())))
            invariant
                0 <= k <= out@.len(),
                sorted == groups_view(out@),
                forall|j: int| 0 <= j < k ==> !group_before(group_view(g), #[trigger] sorted[j]),
            decreases out@.len() - k,
        {
            assert(sorted[k as int] == group_view(out@[k as int]));
            k = k + 1;
        }
        if k < out.len() {
            assert(sorted[k as int] == group_view(out@[k as int]));
        }
        proof {
            lemma_insert_at(sorted, group_view(g), by_group(), k as int);
        }
        let ghost o0 = out@;
        out.insert(k, g);
        assert(groups_view(out@) =~= sorted.take(k as int).push(group_view(g)) + sorted.skip(k as int));
        assert(gv.take(n + 1).drop_last() =~= gv.take(n as int));
        n = n + 1;
    }
    assert(gv.take(n as int) =~= gv);
    out
}

/// The rank of a group's library.
fn group_rank(g: &Group) -> (r: u8)
    ensures
        r == spec_rank(g.library@),
{
    rank(g.library.as_str()).0
}

/// The use clauses sorted by name.
fn sort_uses(uses: Vec<(String, (usize, usize))>) -> (r: Vec<(String, (usize, usize))>)
    ensures
        uses_view(r@) == sort_by(uses_view(uses@), by_use()),
{
    let ghost uv = uses_view(uses@);
    let total = uses.len();
    assert(uv.len() == total);
    let mut rest = uses;
    let mut out: Vec<(String, (usize, usize))> = Vec::new();
    let mut n: usize = 0;
    assert(uv.take(0) =~= Seq::<(Seq<char>, (int, int))>::empty());
    assert(uses_view(out@) =~= Seq::<(Seq<char>, (int, int))>::empty());
    while rest.len() > 0
        invariant
            n + rest@.len() == uv.len(),
            uv.len() <= usize::MAX,
            uses_view(rest@) == uv.skip(n as int),
            uses_view(out@) == sort_by(uv.take(n as int), by_use()),
        decreases rest@.len(),
    {
        let ghost r0 = rest@;
        let u = rest.remove(0);
        let ghost uu = (u.0@, (u.1.0 as int, u.1.1 as int));
        assert(uu == uv[n as int]) by {
            assert(uses_view(r0)[0] == uu);
        }
        assert(uses_view(rest@) =~= uv.skip(n + 1)) by {
            assert(rest@ =~= r0.subrange(1, r0.len() as int));
            assert forall|j: int| 0 <= j < rest@.len() implies #[trigger] uses_view(rest@)[j] == uv.skip(n + 1)[j] by {
                assert(uses_view(rest@)[j] == uses_view(r0)[j + 1]);
                assert(uses_view(r0)[j + 1] == uv.skip(n as int)[j + 1]);
            }
        }
        let ghost sorted = uses_view(out@);
        let mut k: usize = 0;
        while k < out.len() && !less_text(u.0.as_str(), out[k].0.as_str())
            invariant
                0 <= k <= out@.len(),
                sorted == uses_view(out@),
                uu == (u.0@, (u.1.0 as int, u.1.1 as int)),
                forall|j: int| 0 <= j < k ==> !use_before(uu, #[trigger] sorted[j]),
            decreases out@.len() - k,
        {
            assert(sorted[k as int].0 == out@[k as int].0@);
            k = k + 1;
        }
        if k < out.len() {
            assert(sorted[k as int].0 == out@[k as int].0@);
        }
        proof {
            lemma_insert_at(sorted, uu, by_use(), k as int);
        }
        out.insert(k, u);
        assert(uses_view(out@) =~= sorted.take(k as int).push(uu) + sorted.skip(k as int));
        assert(uv.take(n + 1).drop_last() =~= uv.take(n as int));
        n = n + 1;
    }
    assert(uv.take(n as int) =~= uv);
    out
}

/// Lines `from..=to` of `s`, one after the other.
pub open spec fn lines_text(s: Seq<u8>, lines: Seq<(int, int)>, from: int, to: int) -> Seq<u8>
    decreases to - from + 1,
{
    if to < from || to < 0 || to >= lines.len() {
        Seq::empty()
    } else {
        lines_text(s, lines, from, to - 1) + line_bytes(s, lines[to])
    }
}

/// The lines of each use clause of `us`, in order.
pub open spec fn uses_text(s: Seq<u8>, lines: Seq<(int, int)>, us: Seq<(Seq<char>, (int, int))>) -> Seq<u8>
    decreases us.len(),
{
    if us.len() == 0 {
        Seq::empty()
    } else {
        uses_text(s, lines, us.drop_last()) + lines_text(s, lines, us.last().1.0, us.last().1.1)
    }
}

/// A group written out: its `library` clause, then its use clauses sorted by name.
pub open spec fn group_text(s: Seq<u8>, lines: Seq<(int, int)>, g: SGroup) -> Seq<u8> {
    (match g.clause {
        Some((a, b)) => lines_text(s, lines, a, b),
        None => Seq::empty(),
    }) + uses_text(s, lines, sort_by(g.uses, by_use()))
}

/// The groups written out, a blank line between two.
pub open spec fn render(s: Seq<u8>, lines: Seq<(int, int)>, gs: Seq<SGroup>) -> Seq<u8>
    decreases gs.len(),
{
    if gs.len() == 0 {
        Seq::empty()
    } else {
        render(s, lines, gs.drop_last()) + (if gs.len() > 1 {
            seq![10u8]
        } else {
            Seq::<u8>::empty()
        }) + group_text(s, lines, gs.last())
    }
}

/// One context clause as the lines it covers and the text they should become; `None` when a
/// clause cannot be moved, there is nothing to order, or a line of the region belongs to no
/// clause.
pub open spec fn spec_sort_one(s: Seq<u8>, lines: Seq<(int, int)>, ctx: Node) -> Option<(int, int, Seq<u8>)> {
    match gather(s, lines, spec_children(ctx)) {
        None => None,
        Some(st) => if st.groups.len() < 2 && forall|g: int|
            0 <= g < st.groups.len() ==> (#[trigger] st.groups[g]).uses.len() < 2 {
            None
        } else if exists|l: int|
            st.first <= l <= st.last && l < lines.len() && !st.taken[l] && !all_blank(
                line_bytes(s, #[trigger] lines[l]),
            ) {
            None
        } else {
            Some((st.first, st.last, render(s, lines, sort_by(st.groups, by_group()))))
        },
    }
}

/// Append lines `from..=to` of `s`.
fn push_lines(out: &mut Vec<u8>, s: &[u8], lines: &Vec<(usize, usize)>, from: usize, to: usize)
    requires
        lines_ok(s@, lines_view(lines@)),
    ensures
        final(out)@ == old(out)@ + lines_text(s@, lines_view(lines@), from as int, to as int),
{
    let ghost lv = lines_view(lines@);
    if to < from || to >= lines.len() {
        assert(old(out)@ + Seq::<u8>::empty() =~= old(out)@);
        return;
    }
    let total = lines.len();
    let mut k = from;
    assert(lines_text(s@, lv, from as int, from - 1) =~= Seq::<u8>::empty());
    assert(out@ =~= old(out)@ + lines_text(s@, lv, from as int, from - 1));
    while k <= to
        invariant
            from <= k <= to + 1,
            to < lines@.len(),
            total == lines@.len(),
            lv == lines_view(lines@),
            lines_ok(s@, lv),
            out@ == old(out)@ + lines_text(s@, lv, from as int, k - 1),
        decreases to + 1 - k,
    {
        assert(lv[k as int] == (lines@[k as int].0 as int, lines@[k as int].1 as int));
        extend_range(out, s, lines[k].0, lines[k].1);
        assert(out@ =~= old(out)@ + lines_text(s@, lv, from as int, k as int));
        k = k + 1;
    }
}

/// The groups written out: see [`render`].
fn render_groups(s: &[u8], lines: &Vec<(usize, usize)>, groups: Vec<Group>) -> (r: Vec<u8>)
    requires
        lines_ok(s@, lines_view(lines@)),
    ensures
        r@ == render(s@, lines_view(lines@), groups_view(groups@)),
{
    let ghost lv = lines_view(lines@);
    let ghost gv = groups_view(groups@);
    let total = groups.len();
    assert(gv.len() == total);
    let mut rest = groups;
    let mut out: Vec<u8> = Vec::new();
    let mut n: usize = 0;
    assert(gv.take(0) =~= Seq::<SGroup>::empty());
    while rest.len() > 0
        invariant
            n + rest@.len() == gv.len(),
            gv.len() <= usize::MAX,
            lv == lines_view(lines@),
            lines_ok(s@, lv),
            groups_view(rest@) == gv.skip(n as int),
            out@ == render(s@, lv, gv.take(n as int)),
        decreases rest@.len(),
    {
        let ghost r0 = rest@;
        let g = rest.remove(0);
        assert(group_view(g) == gv[n as int]) by {
            assert(groups_view(r0)[0] == group_view(r0[0]));
        }
        assert(groups_view(rest@) =~= gv.skip(n + 1)) by {
            assert(rest@ =~= r0.subrange(1, r0.len() as int));
            assert forall|j: int| 0 <= j < rest@.len() implies #[trigger] groups_view(rest@)[j] == gv.skip(n + 1)[j] by {
                assert(groups_view(rest@)[j] == group_view(r0[j + 1]));
                assert(groups_view(r0)[j + 1] == gv.skip(n as int)[j + 1]);
            }
        }
        let ghost before = out@;
        if n > 0 {
            out.push(10u8);
        }
        let ghost mid = out@;
        match g.clause {
            Some((a, b)) => push_lines(&mut out, s, lines, a, b),
            None => {},
        }
        let ghost after_clause = out@;
        let sorted = sort_uses(g.uses);
        let ghost sv = uses_view(sorted@);
        let mut k: usize = 0;
        assert(sv.take(0) =~= Seq::<(Seq<char>, (int, int))>::empty());
        assert(out@ =~= after_clause + uses_text(s@, lv, sv.take(0)));
        while k < sorted.len()
            invariant
                0 <= k <= sorted@.len(),
                sv == uses_view(sorted@),
                lv == lines_view(lines@),
                lines_ok(s@, lv),
                out@ == after_clause + uses_text(s@, lv, sv.take(k as int)),
            decreases sorted@.len() - k,
        {
            assert(sv.take(k + 1).drop_last() =~= sv.take(k as int));
            assert(sv[k as int] == (sorted@[k as int].0@, (sorted@[k as int].1.0 as int, sorted@[k as int].1.1 as int)));
            push_lines(&mut out, s, lines, sorted[k].1.0, sorted[k].1.1);
            assert(out@ =~= after_clause + uses_text(s@, lv, sv.take(k + 1)));
            k = k + 1;
        }
        assert(sv.take(k as int) =~= sv);
        assert(gv.take(n + 1).drop_last() =~= gv.take(n as int));
        assert(gv.take(n + 1).last() == gv[n as int]);
        assert(out@ =~= before + (if n + 1 > 1 { seq![10u8] } else { Seq::<u8>::empty() }) + group_text(s@, lv, gv[n as int]));
        n = n + 1;
    }
    assert(gv.take(n as int) =~= gv);
    out
}

/// One context clause: see [`spec_sort_one`].
fn sort_one(s: &[u8], lines: &Vec<(usize, usize)>, context: &Node) -> (r: Option<(usize, usize, Vec<u8>)>)
    requires
        lines_ok(s@, lines_view(lines@)),
    ensures
        match r {
            Some((a, b, t)) => spec_sort_one(s@, lines_view(lines@), *context) == Some((a as int, b as int, t@)),
            None => spec_sort_one(s@, lines_view(lines@), *context) is None,
        },
{
    let ghost lv = lines_view(lines@);
    let (taken, first, last, groups) = match gather_clauses(s, lines, context) {
        None => {
            return None;
        },
        Some(st) => st,
    };
    let ghost gv = groups_view(groups@);
    proof {
        lemma_gather_taken(s@, lv, spec_children(*context));
    }
    if groups.len() < 2 {
        let mut few = true;
        let mut g: usize = 0;
        while g < groups.len()
            invariant
                0 <= g <= groups@.len(),
                gv == groups_view(groups@),
                few == forall|j: int| 0 <= j < g ==> (#[trigger] gv[j]).uses.len() < 2,
            decreases groups@.len() - g,
        {
            assert(gv[g as int].uses.len() == groups@[g as int].uses@.len());
            if groups[g].uses.len() >= 2 {
                few = false;
            }
            g = g + 1;
        }
        if few {
            return None;
        }
    }
    let mut l = first;
    while l <= last && l < lines.len()
        invariant
            first <= l,
            lv == lines_view(lines@),
            lines_ok(s@, lv),
            taken@.len() == lines@.len(),
            gather(s@, lv, spec_children(*context)) == Some(
                SGather { taken: taken@, first: first as int, last: last as int, groups: gv },
            ),
            forall|j: int| first <= j < l && j < lines@.len() ==> taken@[j] || all_blank(line_bytes(s@, #[trigger] lv[j])),
        decreases lines@.len() - l,
    {
        assert(lv[l as int] == (lines@[l as int].0 as int, lines@[l as int].1 as int));
        if !taken[l] && !blank_range(s, lines[l].0, lines[l].1) {
            assert(first <= l <= last && l < lv.len() && !taken@[l as int] && !all_blank(line_bytes(s@, lv[l as int])));
            return None;
        }
        l = l + 1;
    }
    let sorted = sort_groups(groups);
    let text = render_groups(s, lines, sorted);
    Some((first, last, text))
}

/// The source after sorting context clauses `cs[k..]`, last first, and whether anything moved.
pub open spec fn apply_sorted(s: Seq<u8>, lines: Seq<(int, int)>, cs: Seq<Node>, k: int) -> (Seq<u8>, bool)
    decreases cs.len() - k,
{
    if k < 0 || k >= cs.len() {
        (s, false)
    } else {
        let (out, changed) = apply_sorted(s, lines, cs, k + 1);
        match spec_sort_one(s, lines, cs[k]) {
            None => (out, changed),
            Some((from, to, text)) => if 0 <= from < lines.len() && 0 <= to < lines.len() && 0 <= lines[from].0
                <= lines[to].1 <= out.len() && out.subrange(lines[from].0, lines[to].1) != text {
                (out.take(lines[from].0) + text + out.skip(lines[to].1), true)
            } else {
                (out, changed)
            },
        }
    }
}

/// Every context clause of a source sorted: see [`sort_context_clauses`].
pub open spec fn spec_sort_context_clauses(root: Node, s: Seq<u8>) -> Option<Seq<u8>> {
    if !vstd::utf8::valid_utf8(s) {
        None
    } else {
        let (out, changed) = apply_sorted(s, source_lines_from(s, 0), spec_find(root, Kind::ContextClause), 0);
        if changed {
            Some(out)
        } else {
            None
        }
    }
}

/// Every context clause in a source, sorted: `ieee` and `std` first, then the other libraries
/// alphabetically, then `work`, each `library` clause followed by its `use` clauses sorted by
/// name, the groups a blank line apart. Only whole lines move, comment lines directly above a
/// clause with it; `None` when the source is not UTF-8 or nothing changes. A context clause is
/// left alone where a clause shares a line with something else, names two libraries, is not a
/// `library` or `use` clause, or a line among the clauses belongs to none of them, and where
/// there is nothing to order (one library with at most one use clause).
pub fn sort_context_clauses(root: &Node, source: &[u8]) -> (r: Option<Vec<u8>>)
    ensures
        match r {
            Some(v) => spec_sort_context_clauses(*root, source@) == Some(v@),
            None => spec_sort_context_clauses(*root, source@) is None,
        },
{
    if !is_utf8(source) {
        return None;
    }
    let lines = source_lines(source);
    let ghost lv = lines_view(lines@);
    let cs = find(root, Kind::ContextClause);
    let ghost cv = nodes_of(cs@);
    let mut out: Vec<u8> = Vec::new();
    extend_range(&mut out, source, 0, source.len());
    assert(source@.subrange(0, source@.len() as int) =~= source@);
    let mut changed = false;
    let mut k = cs.len();
    while k > 0
        invariant
            0 <= k <= cs@.len(),
            cv == nodes_of(cs@),
            lv == lines_view(lines@),
            lines_ok(source@, lv),
            (out@, changed) == apply_sorted(source@, lv, cv, k as int),
        decreases k,
    {
        k = k - 1;
        assert(cv[k as int] == *cs@[k as int]);
        match sort_one(source, &lines, cs[k]) {
            None => {},
            Some((from, to, text)) => {
                if from < lines.len() && to < lines.len() {
                    let start = lines[from].0;
                    let end = lines[to].1;
                    assert(lv[from as int] == (start as int, lines@[from as int].1 as int));
                    assert(lv[to as int] == (lines@[to as int].0 as int, end as int));
                    if start <= end && end <= out.len() {
                        let mut piece: Vec<u8> = Vec::new();
                        extend_range(&mut piece, &out, start, end);
                        if !bytes_eq(piece.as_slice(), text.as_slice()) {
                            let mut next: Vec<u8> = Vec::new();
                            extend_range(&mut next, &out, 0, start);
                            extend_bytes(&mut next, text.as_slice());
                            extend_range(&mut next, &out, end, out.len());
                            assert(next@ =~= out@.take(start as int) + text@ + out@.skip(end as int));
                            out = next;
                            changed = true;
                        }
                    }
                }
            },
        }
    }
    if changed {
        Some(out)
    } else {
        None
    }
}


/// `a` may come before `b` in a sorted context clause: a lower rank, or the same rank and a
/// name that is not greater.
pub open spec fn in_library_order(a: SGroup, b: SGroup) -> bool {
    spec_rank(a.library) < spec_rank(b.library) || (spec_rank(a.library) == spec_rank(b.library)
        && !text_less(b.library, a.library))
}

/// Each group may come before the next.
pub open spec fn groups_in_library_order(gs: Seq<SGroup>) -> bool {
    forall|i: int| 0 <= i < gs.len() - 1 ==> #[trigger] in_library_order(gs[i], gs[i + 1])
}

proof fn lemma_text_less_asymmetric(a: Seq<char>, b: Seq<char>)
    ensures
        text_less(a, b) ==> !text_less(b, a),
    decreases a.len(),
{
    if a.len() > 0 && b.len() > 0 && a[0] == b[0] {
        lemma_text_less_asymmetric(a.skip(1), b.skip(1));
    }
}

proof fn lemma_insert_group_ordered(sorted: Seq<SGroup>, x: SGroup)
    requires
        groups_in_library_order(sorted),
    ensures
        groups_in_library_order(insert_by(sorted, x, by_group())),
        insert_by(sorted, x, by_group()).len() == sorted.len() + 1,
        insert_by(sorted, x, by_group())[0] == x || (sorted.len() > 0 && insert_by(sorted, x, by_group())[0]
            == sorted[0]),
        insert_by(sorted, x, by_group()).to_multiset() == sorted.to_multiset().insert(x),
    decreases sorted.len(),
{
    broadcast use vstd::seq_lib::group_to_multiset_ensures;

    let r = insert_by(sorted, x, by_group());
    if sorted.len() == 0 {
        assert(r =~= Seq::<SGroup>::empty().insert(0, x));
    } else if group_before(x, sorted[0]) {
        lemma_text_less_asymmetric(x.library, sorted[0].library);
        assert(r =~= sorted.insert(0, x));
        assert forall|i: int| 0 <= i < r.len() - 1 implies #[trigger] in_library_order(r[i], r[i + 1]) by {
            if i > 0 {
                let j = i - 1;
                assert(r[i] == sorted[j] && r[i + 1] == sorted[j + 1]);
                assert(in_library_order(sorted[j], sorted[j + 1]));
            } else {
                assert(r[0] == x && r[1] == sorted[0]);
            }
        }
    } else {
        let rest = sorted.skip(1);
        assert forall|i: int| 0 <= i < rest.len() - 1 implies #[trigger] in_library_order(rest[i], rest[i + 1]) by {
            assert(rest[i] == sorted[i + 1] && rest[i + 1] == sorted[i + 2]);
            assert(in_library_order(sorted[i + 1], sorted[i + 2]));
        }
        lemma_insert_group_ordered(rest, x);
        let t = insert_by(rest, x, by_group());
        assert(r =~= seq![sorted[0]] + t);
        if rest.len() > 0 {
            assert(in_library_order(sorted[0], sorted[1]));
            assert(rest[0] == sorted[1]);
        }
        assert forall|i: int| 0 <= i < r.len() - 1 implies #[trigger] in_library_order(r[i], r[i + 1]) by {
            if i > 0 {
                let j = i - 1;
                assert(r[i] == t[j] && r[i + 1] == t[j + 1]);
                assert(in_library_order(t[j], t[j + 1]));
            } else {
                assert(r[1] == t[0]);
            }
        }
        assert(r =~= t.insert(0, sorted[0]));
        assert(sorted =~= rest.insert(0, sorted[0]));
        assert(r.to_multiset() =~= sorted.to_multiset().insert(x));
    }
}

/// Organising imports orders the library groups by rank (`ieee` and `std` first, `work` last,
/// the others between) and, within a rank, alphabetically by library name, whatever their
/// order in the source; no group is lost or added.
pub proof fn law_groups_sorted_by_rank_then_name(gs: Seq<SGroup>)
    ensures
        groups_in_library_order(sort_by(gs, by_group())),
        sort_by(gs, by_group()).to_multiset() == gs.to_multiset(),
    decreases gs.len(),
{
    broadcast use vstd::seq_lib::group_to_multiset_ensures;

    if gs.len() > 0 {
        law_groups_sorted_by_rank_then_name(gs.drop_last());
        lemma_insert_group_ordered(sort_by(gs.drop_last(), by_group()), gs.last());
        assert(gs =~= gs.drop_last().push(gs.last()));
    } else {
        assert(gs.to_multiset() =~= vstd::multiset::Multiset::<SGroup>::empty());
        assert(sort_by(gs, by_group()) =~= Seq::<SGroup>::empty());
    }
}


/// The standard libraries `ieee` and `std` rank before every other library, and `work` after
/// every other library.
pub proof fn law_standard_first_work_last(a: Seq<char>, b: Seq<char>)
    ensures
        (a == "ieee"@ || a == "std"@) && !(b == "ieee"@ || b == "std"@) ==> spec_rank(a) < spec_rank(b),
        b == "work"@ && a != "work"@ ==> spec_rank(a) < spec_rank(b),
{
    reveal_strlit("ieee");
    reveal_strlit("std");
    reveal_strlit("work");
    assert("work"@[0] != "ieee"@[0]);
    assert("work"@ != "ieee"@);
    assert("work"@.len() != "std"@.len());
}

} // verus!
