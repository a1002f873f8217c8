//! `lint_740`: a vector assigned to one of a different width. The widths come from ranges
//! whose bounds are integer literals; anything else is not known and not reported.
use vstd::prelude::*;
use vstd::string::StringExecFns;

use crate::chars::{
    chars_of, find_from, find_seq, lower_all, lowered, parse_i64, spec_parse_i64, trim_range,
    trimmed,
};

use std::path::PathBuf;

use crate::analysis::choices::{keep, keep_words, token_words, words_of};
use crate::analysis::design::{
    assignments, named_views, path, put_finding, reads, sort_findings, spec_assignments, spec_path,
    spec_reads, strings_view,
};
use crate::analysis::lint::{finding_view, finding_views, Finding, SFinding};
use crate::analysis::syntax::{find, nodes_of, spec_find, spec_tokens, Kind, Node};
use crate::bytes::str_eq;
use crate::text::{line_col, spec_line_col};

verus! {

/// `downto`.
pub open spec fn downto_word() -> Seq<char> {
    seq!['d', 'o', 'w', 'n', 't', 'o']
}

/// `to`.
pub open spec fn to_word() -> Seq<char> {
    seq!['t', 'o']
}

/// The two sides of a range and whether it descends: split at the first `downto`, or else at
/// the first `to`.
pub open spec fn range_sides(range: Seq<char>) -> Option<(Seq<char>, Seq<char>, bool)> {
    let lower = lowered(range);
    match find_from(lower, downto_word(), 0) {
        Some(k) => Some((lower.take(k), lower.skip(k + 6), true)),
        None => match find_from(lower, to_word(), 0) {
            Some(k) => Some((lower.take(k), lower.skip(k + 2), false)),
            None => None,
        },
    }
}

/// The span of a range with integer literal bounds: the number of its elements less one.
pub open spec fn range_span(range: Seq<char>) -> Option<int> {
    match range_sides(range) {
        Some((left, right, descending)) => match (
            spec_parse_i64(trimmed(left)),
            spec_parse_i64(trimmed(right)),
        ) {
            (Some(l), Some(r)) => Some(
                if descending {
                    l - r
                } else {
                    r - l
                },
            ),
            _ => None,
        },
        None => None,
    }
}

/// The width of a range, when its bounds are integer literals, it is not empty, and the width
/// is a `u64`.
pub open spec fn spec_width_of(range: Seq<char>) -> Option<int> {
    match range_span(range) {
        Some(span) => if 0 <= span + 1 <= u64::MAX {
            Some(span + 1)
        } else {
            None
        },
        None => None,
    }
}

/// The width of a range such as `7downto0` -- the text of a range joins its tokens without
/// spaces, so the keyword is not surrounded by any. `None` unless both bounds are integer
/// literals.
pub fn width_of(range: &str) -> (r: Option<u64>)
    ensures
        match r {
            Some(w) => spec_width_of(range@) == Some(w as int),
            None => spec_width_of(range@) is None,
        },
{
    let text = lower_all(&chars_of(range));
    let downto = chars_of("downto");
    let to = chars_of("to");
    proof {
        reveal_strlit("downto");
        reveal_strlit("to");
        assert(downto@ =~= downto_word());
        assert(to@ =~= to_word());
    }
    let (split, len, descending) = match find_seq(&text, &downto) {
        Some(k) => (k, 6usize, true),
        None => match find_seq(&text, &to) {
            Some(k) => (k, 2usize, false),
            None => {
                return None;
            },
        },
    };
    proof {
        assert(crate::chars::occurs_at(text@, if descending { downto_word() } else { to_word() }, split as int)) by {
            lemma_found_occurs(text@, if descending { downto_word() } else { to_word() }, 0);
        }
    }
    let (l0, l1) = trim_range(&text, 0, split);
    let (r0, r1) = trim_range(&text, split + len, text.len());
    proof {
        assert(text@.subrange(0, split as int) =~= text@.take(split as int));
        assert(text@.subrange(split + len, text@.len() as int) =~= text@.skip(split + len));
    }
    let left = match parse_i64(&text, l0, l1) {
        Some(n) => n,
        None => {
            return None;
        },
    };
    let right = match parse_i64(&text, r0, r1) {
        Some(n) => n,
        None => {
            return None;
        },
    };
    let (l, r) = (left as i128, right as i128);
    let width: i128 = if descending {
        l - r + 1
    } else {
        r - l + 1
    };
    if 0 <= width && width <= u64::MAX as i128 {
        Some(width as u64)
    } else {
        None
    }
}

/// A position that [`find_from`] finds is one where the pattern occurs.
pub proof fn lemma_found_occurs(s: Seq<char>, pat: Seq<char>, i: int)
    ensures
        find_from(s, pat, i) matches Some(k) ==> crate::chars::occurs_at(s, pat, k) && k >= i,
    decreases s.len() + 1 - i,
{
    if !(i < 0 || i + pat.len() > s.len()) && !crate::chars::occurs_at(s, pat, i) {
        lemma_found_occurs(s, pat, i + 1);
    }
}


// Which objects have which width -----------------------------------------------------------------

/// Where `w` first stands in `s`.
pub open spec fn index_of_word(s: Seq<Seq<char>>, w: Seq<char>) -> Option<int>
    decreases s.len(),
{
    if s.len() == 0 {
        None
    } else if s[0] == w {
        Some(0)
    } else {
        match index_of_word(s.skip(1), w) {
            Some(i) => Some(i + 1),
            None => None,
        }
    }
}

/// Where `w` last stands in `s`.
pub open spec fn last_index_of_word(s: Seq<Seq<char>>, w: Seq<char>) -> Option<int>
    decreases s.len(),
{
    if s.len() == 0 {
        None
    } else if s.last() == w {
        Some(s.len() - 1)
    } else {
        last_index_of_word(s.drop_last(), w)
    }
}

/// The words of `s` written one after the other.
pub open spec fn joined_words(s: Seq<Seq<char>>) -> Seq<char>
    decreases s.len(),
{
    if s.len() == 0 {
        Seq::empty()
    } else {
        joined_words(s.drop_last()) + s.last()
    }
}

/// The width a declaration's words give its objects: the one range between the first `(`
/// and the last `)` after the `:` and before any `:=`, when its bounds are integer literals and
/// it has no nested parenthesis and no comma.
pub open spec fn declared_width(words: Seq<Seq<char>>) -> Option<u64> {
    match index_of_word(words, ":"@) {
        None => None,
        Some(c) => {
            let rest = words.skip(c + 1);
            let part = match index_of_word(rest, ":="@) {
                Some(e) => rest.take(e),
                None => rest,
            };
            match (index_of_word(part, "("@), last_index_of_word(part, ")"@)) {
                (Some(o), Some(cl)) => if o + 1 <= cl {
                    let range = part.subrange(o + 1, cl);
                    if range.contains("("@) || range.contains(","@) {
                        None
                    } else {
                        match spec_width_of(joined_words(range)) {
                            Some(w) => Some(w as u64),
                            None => None,
                        }
                    }
                } else {
                    None
                },
                _ => None,
            }
        },
    }
}

/// What can stand before the names in a declaration, and is not one, with the commas.
pub open spec fn not_names() -> Seq<Seq<char>> {
    seq![","@, "signal"@, "variable"@, "constant"@, "shared"@, "file"@]
}

/// Where `name` stands among the entries of `m`.
pub open spec fn entry_index(m: Seq<(Seq<char>, u64)>, name: Seq<char>) -> Option<int>
    decreases m.len(),
{
    if m.len() == 0 {
        None
    } else if m.last().0 == name {
        Some(m.len() - 1)
    } else {
        entry_index(m.drop_last(), name)
    }
}

/// The width `m` knows for `name`.
pub open spec fn width_in(m: Seq<(Seq<char>, u64)>, name: Seq<char>) -> Option<u64> {
    match entry_index(m, name) {
        Some(i) => Some(m[i].1),
        None => None,
    }
}

/// `m` with `name` declared `w` wide: a name declared twice at two widths is forgotten.
pub open spec fn put_width(m: Seq<(Seq<char>, u64)>, name: Seq<char>, w: u64) -> Seq<(Seq<char>, u64)> {
    match entry_index(m, name) {
        None => m.push((name, w)),
        Some(i) => if m[i].1 != w {
            m.remove(i)
        } else {
            m
        },
    }
}

/// `m` with each of `names` declared `w` wide, in order.
pub open spec fn put_widths(m: Seq<(Seq<char>, u64)>, names: Seq<Seq<char>>, w: u64) -> Seq<(Seq<char>, u64)>
    decreases names.len(),
{
    if names.len() == 0 {
        m
    } else {
        put_width(put_widths(m, names.drop_last(), w), names.last(), w)
    }
}

/// `m` with what the declarations `ds` say.
pub open spec fn declarations_widths(m: Seq<(Seq<char>, u64)>, ds: Seq<Node>) -> Seq<(Seq<char>, u64)>
    decreases ds.len(),
{
    if ds.len() == 0 {
        m
    } else {
        let before = declarations_widths(m, ds.drop_last());
        let words = token_words(spec_tokens(ds.last()));
        match declared_width(words) {
            None => before,
            Some(w) => put_widths(
                before,
                keep_words(words.take(index_of_word(words, ":"@)->0), not_names()),
                w,
            ),
        }
    }
}

/// `m` with the widths the signal and interface declarations under `n` give.
pub open spec fn node_widths(m: Seq<(Seq<char>, u64)>, n: Node) -> Seq<(Seq<char>, u64)> {
    declarations_widths(
        declarations_widths(m, spec_find(n, Kind::SignalDeclaration)),
        spec_find(n, Kind::InterfaceObjectDeclaration),
    )
}

/// The widths the entities `es` give their ports.
pub open spec fn entities_widths(es: Seq<Node>) -> Seq<(Seq<char>, u64)>
    decreases es.len(),
{
    if es.len() == 0 {
        Seq::empty()
    } else {
        node_widths(entities_widths(es.drop_last()), es.last())
    }
}

/// `'source' is right bits wide and is assigned to 'target', which is left`.
pub open spec fn width_message(source: Seq<char>, right: u64, target: Seq<char>, left: u64) -> Seq<char> {
    "'"@ + source + "' is "@ + crate::layout::decimal(right as nat) + " bits wide and is assigned to '"@
        + target + "', which is "@ + crate::layout::decimal(left as nat)
}

/// What a statement `a <= b;` reports when `a` and `b` have known, different widths.
pub open spec fn statement_finding(st: Node, known: Seq<(Seq<char>, u64)>, source: Seq<u8>, utf8: bool) -> Seq<SFinding> {
    let w = crate::analysis::clockdomain::spec_words(st);
    let ts = spec_assignments(st);
    let rs = spec_reads(st);
    if w.len() != 3 || w[1] != "<="@ || ts.len() != 1 {
        Seq::empty()
    } else {
        match width_in(known, spec_path(ts[0].0).0) {
            None => Seq::empty(),
            Some(left) => if rs.len() == 0 || exists|i: int| 0 <= i < rs.len() && #[trigger] rs[i] != rs[0] {
                Seq::empty()
            } else {
                match width_in(known, rs[0].0) {
                    None => Seq::empty(),
                    Some(right) => if left == right {
                        Seq::empty()
                    } else {
                        seq![
                            SFinding {
                                rule: "lint_740"@,
                                line: spec_line_col(source, utf8, rs[0].1 as int).0,
                                column: spec_line_col(source, utf8, rs[0].1 as int).1,
                                message: width_message(rs[0].0, right, ts[0].0, left),
                                related: Seq::empty(),
                            },
                        ]
                    },
                }
            },
        }
    }
}

/// What the statements `sts` report.
pub open spec fn statements_findings(sts: Seq<Node>, known: Seq<(Seq<char>, u64)>, source: Seq<u8>, utf8: bool) -> Seq<SFinding>
    decreases sts.len(),
{
    if sts.len() == 0 {
        Seq::empty()
    } else {
        statements_findings(sts.drop_last(), known, source, utf8) + statement_finding(sts.last(), known, source, utf8)
    }
}

/// What one architecture reports, with the ports' widths `ports`.
pub open spec fn architecture_widths(arch: Node, ports: Seq<(Seq<char>, u64)>, source: Seq<u8>, utf8: bool) -> Seq<SFinding> {
    let known = node_widths(ports, arch);
    if known.len() == 0 {
        Seq::empty()
    } else {
        statements_findings(spec_find(arch, Kind::ConcurrentSimpleSignalAssignment), known, source, utf8)
            + statements_findings(spec_find(arch, Kind::SimpleWaveformAssignment), known, source, utf8)
    }
}

/// What the architectures `archs` report.
pub open spec fn architectures_widths(archs: Seq<Node>, ports: Seq<(Seq<char>, u64)>, source: Seq<u8>, utf8: bool) -> Seq<SFinding>
    decreases archs.len(),
{
    if archs.len() == 0 {
        Seq::empty()
    } else {
        architectures_widths(archs.drop_last(), ports, source, utf8) + architecture_widths(archs.last(), ports, source, utf8)
    }
}

/// What `lint_740` reports of a file, sorted by place.
pub open spec fn spec_check(root: Node, source: Seq<u8>) -> Seq<SFinding> {
    sort_findings(
        architectures_widths(
            spec_find(root, Kind::ArchitectureBody),
            entities_widths(spec_find(root, Kind::EntityDeclaration)),
            source,
            vstd::utf8::valid_utf8(source),
        ),
    )
}


proof fn lemma_index_of_word(s: Seq<Seq<char>>, w: Seq<char>)
    ensures
        match index_of_word(s, w) {
            Some(i) => 0 <= i < s.len() && s[i] == w && forall|j: int| 0 <= j < i ==> s[j] != w,
            None => forall|j: int| 0 <= j < s.len() ==> s[j] != w,
        },
    decreases s.len(),
{
    if s.len() > 0 && s[0] != w {
        lemma_index_of_word(s.skip(1), w);
        assert forall|j: int| 1 <= j < s.len() implies s[j] == s.skip(1)[j - 1] by {}
    }
}

proof fn lemma_last_index_of_word(s: Seq<Seq<char>>, w: Seq<char>)
    ensures
        match last_index_of_word(s, w) {
            Some(i) => 0 <= i < s.len() && s[i] == w && forall|j: int| i < j < s.len() ==> s[j] != w,
            None => forall|j: int| 0 <= j < s.len() ==> s[j] != w,
        },
    decreases s.len(),
{
    if s.len() > 0 && s.last() != w {
        lemma_last_index_of_word(s.drop_last(), w);
        assert forall|j: int| 0 <= j < s.len() - 1 implies s.drop_last()[j] == s[j] by {}
    }
}

proof fn lemma_entry_index(m: Seq<(Seq<char>, u64)>, name: Seq<char>)
    ensures
        match entry_index(m, name) {
            Some(i) => 0 <= i < m.len() && m[i].0 == name && forall|j: int| i < j < m.len() ==> m[j].0 != name,
            None => forall|j: int| 0 <= j < m.len() ==> m[j].0 != name,
        },
    decreases m.len(),
{
    if m.len() > 0 && m.last().0 != name {
        lemma_entry_index(m.drop_last(), name);
        assert forall|j: int| 0 <= j < m.len() - 1 implies m.drop_last()[j] == m[j] by {}
    }
}

/// Where `w` first stands in `ws[from..to]`.
fn first_word_at(ws: &Vec<String>, from: usize, to: usize, w: &str) -> (r: Option<usize>)
    requires
        from <= to <= ws@.len(),
    ensures
        match r {
            Some(k) => from <= k < to && index_of_word(strings_view(ws@).subrange(from as int, to as int), w@) == Some(k - from),
            None => index_of_word(strings_view(ws@).subrange(from as int, to as int), w@) is None,
        },
{
    let ghost sub = strings_view(ws@).subrange(from as int, to as int);
    proof {
        lemma_index_of_word(sub, w@);
    }
    let mut k = from;
    while k < to
        invariant
            from <= k <= to <= ws@.len(),
            sub == strings_view(ws@).subrange(from as int, to as int),
            forall|j: int| 0 <= j < k - from ==> sub[j] != w@,
        decreases to - k,
    {
        assert(sub[k - from] == ws@[k as int]@);
        if str_eq(ws[k].as_str(), w) {
            proof {
                lemma_index_of_word(sub, w@);
                assert(sub[k - from] == w@);
            }
            return Some(k);
        }
        k = k + 1;
    }
    proof {
        lemma_index_of_word(sub, w@);
    }
    None
}

/// Where `w` last stands in `ws[from..to]`.
fn last_word_at(ws: &Vec<String>, from: usize, to: usize, w: &str) -> (r: Option<usize>)
    requires
        from <= to <= ws@.len(),
    ensures
        match r {
            Some(k) => from <= k < to && last_index_of_word(strings_view(ws@).subrange(from as int, to as int), w@) == Some(k - from),
            None => last_index_of_word(strings_view(ws@).subrange(from as int, to as int), w@) is None,
        },
{
    let ghost sub = strings_view(ws@).subrange(from as int, to as int);
    proof {
        lemma_last_index_of_word(sub, w@);
    }
    let mut k = to;
    while k > from
        invariant
            from <= k <= to <= ws@.len(),
            sub == strings_view(ws@).subrange(from as int, to as int),
            forall|j: int| k - from <= j < to - from ==> sub[j] != w@,
        decreases k - from,
    {
        assert(sub[k - 1 - from] == ws@[k - 1]@);
        if str_eq(ws[k - 1].as_str(), w) {
            proof {
                lemma_last_index_of_word(sub, w@);
                assert(sub[k - 1 - from] == w@);
            }
            return Some(k - 1);
        }
        k = k - 1;
    }
    proof {
        lemma_last_index_of_word(sub, w@);
    }
    None
}

/// Widths as plain values.
pub open spec fn widths_view(v: Seq<(String, u64)>) -> Seq<(Seq<char>, u64)> {
    v.map_values(|e: (String, u64)| (e.0@, e.1))
}

/// Gives `name` the width `w`, forgetting it when it had another.
fn put_width_into(m: &mut Vec<(String, u64)>, name: String, w: u64)
    ensures
        widths_view(final(m)@) == put_width(widths_view(old(m)@), name@, w),
{
    let ghost mv = widths_view(m@);
    proof {
        lemma_entry_index(mv, name@);
    }
    let mut k = m.len();
    while k > 0
        invariant
            k <= m@.len(),
            mv == widths_view(m@),
            mv == widths_view(old(m)@),
            forall|j: int| k <= j < m@.len() ==> mv[j].0 != name@,
        decreases k,
    {
        assert(mv[k - 1] == (m@[k - 1].0@, m@[k - 1].1));
        if str_eq(m[k - 1].0.as_str(), name.as_str()) {
            proof {
                lemma_entry_index(mv, name@);
                assert(mv[k - 1].0 == name@);
                assert(entry_index(mv, name@) == Some(k - 1));
            }
            if m[k - 1].1 != w {
                let ghost before = m@;
                m.remove(k - 1);
                assert(widths_view(m@) =~= mv.remove(k - 1));
            }
            return;
        }
        k = k - 1;
    }
    proof {
        lemma_entry_index(mv, name@);
    }
    let ghost before = m@;
    m.push((name, w));
    assert(widths_view(m@) =~= mv.push((name@, w)));
}

/// The words `ws[from..to]` written one after the other.
fn join_words(ws: &Vec<String>, from: usize, to: usize) -> (r: String)
    requires
        from <= to <= ws@.len(),
    ensures
        r@ == joined_words(strings_view(ws@).subrange(from as int, to as int)),
{
    let ghost sv = strings_view(ws@);
    let mut out = String::new();
    let mut k = from;
    assert(sv.subrange(from as int, from as int) =~= Seq::<Seq<char>>::empty());
    assert(out@ =~= Seq::<char>::empty());
    while k < to
        invariant
            from <= k <= to <= ws@.len(),
            sv == strings_view(ws@),
            out@ == joined_words(sv.subrange(from as int, k as int)),
        decreases to - k,
    {
        out.append(ws[k].as_str());
        assert(sv.subrange(from as int, k + 1).drop_last() =~= sv.subrange(from as int, k as int));
        assert(sv.subrange(from as int, k + 1).last() == ws@[k as int]@);
        k = k + 1;
    }
    out
}

/// Whether `ws[from..to]` holds `w`.
fn holds_word(ws: &Vec<String>, from: usize, to: usize, w: &str) -> (r: bool)
    requires
        from <= to <= ws@.len(),
    ensures
        r == strings_view(ws@).subrange(from as int, to as int).contains(w@),
{
    let ghost sub = strings_view(ws@).subrange(from as int, to as int);
    match first_word_at(ws, from, to, w) {
        Some(k) => {
            proof {
                lemma_index_of_word(sub, w@);
            }
            true
        },
        None => {
            proof {
                lemma_index_of_word(sub, w@);
            }
            false
        },
    }
}

/// The width a declaration gives its objects, and where its `:` is.
fn declaration_width(ws: &Vec<String>) -> (r: Option<(u64, usize)>)
    ensures
        match r {
            Some((w, c)) => declared_width(strings_view(ws@)) == Some(w) && index_of_word(strings_view(ws@), ":"@) == Some(c as int) && c < ws@.len(),
            None => declared_width(strings_view(ws@)) is None,
        },
{
    let ghost sv = strings_view(ws@);
    let n = ws.len();
    assert(sv.subrange(0, n as int) =~= sv);
    proof {
        reveal_strlit(":");
        reveal_strlit(":=");
        reveal_strlit("(");
        reveal_strlit(")");
        reveal_strlit(",");
    }
    let c = match first_word_at(ws, 0, n, ":") {
        None => {
            return None;
        },
        Some(c) => c,
    };
    let ghost rest = sv.skip(c + 1);
    assert(sv.subrange(c + 1, n as int) =~= rest);
    let end = match first_word_at(ws, c + 1, n, ":=") {
        Some(e) => e,
        None => n,
    };
    let ghost part = sv.subrange(c + 1, end as int);
    proof {
        match index_of_word(rest, ":="@) {
            Some(e) => {
                assert(rest.take(e) =~= part);
            },
            None => {
                assert(rest =~= part);
            },
        }
    }
    let open = first_word_at(ws, c + 1, end, "(");
    let close = last_word_at(ws, c + 1, end, ")");
    let (o, cl) = match (open, close) {
        (Some(o), Some(cl)) => (o, cl),
        _ => {
            return None;
        },
    };
    if o + 1 > cl {
        return None;
    }
    let ghost range = part.subrange(o + 1 - (c + 1), cl - (c + 1));
    assert(sv.subrange(o + 1, cl as int) =~= range);
    if holds_word(ws, o + 1, cl, "(") || holds_word(ws, o + 1, cl, ",") {
        return None;
    }
    let text = join_words(ws, o + 1, cl);
    match width_of(text.as_str()) {
        Some(w) => Some((w, c)),
        None => None,
    }
}

/// Adds to `m` what the declarations `ds` say.
fn declarations_into(m: &mut Vec<(String, u64)>, ds: &Vec<&Node>)
    ensures
        widths_view(final(m)@) == declarations_widths(widths_view(old(m)@), nodes_of(ds@)),
{
    let ghost dv = nodes_of(ds@);
    let ghost start = widths_view(m@);
    let mut i: usize = 0;
    assert(dv.take(0) =~= Seq::<Node>::empty());
    while i < ds.len()
        invariant
            0 <= i <= ds@.len(),
            dv == nodes_of(ds@),
            widths_view(m@) == declarations_widths(start, dv.take(i as int)),
        decreases ds@.len() - i,
    {
        let d = ds[i];
        assert(dv.take(i + 1).drop_last() =~= dv.take(i as int));
        assert(dv.take(i + 1).last() == *d);
        let ws = words_of(d);
        if let Some((w, c)) = declaration_width(&ws) {
            let before = vec![",", "signal", "variable", "constant", "shared", "file"];
            proof {
                reveal_strlit(",");
                reveal_strlit("signal");
                reveal_strlit("variable");
                reveal_strlit("constant");
                reveal_strlit("shared");
                reveal_strlit("file");
                assert(before@.map_values(|x: &str| x@) =~= not_names());
            }
            let mut head: Vec<String> = Vec::new();
            let mut q: usize = 0;
            while q < c
                invariant
                    0 <= q <= c,
                    c < ws@.len(),
                    strings_view(head@) == strings_view(ws@).take(q as int),
                decreases c - q,
            {
                let ghost hb = head@;
                head.push(ws[q].clone());
                assert(strings_view(ws@).take(q + 1) =~= strings_view(ws@).take(q as int).push(ws@[q as int]@));
                assert(strings_view(head@) =~= strings_view(hb).push(ws@[q as int]@));
                q = q + 1;
                assert(strings_view(head@) =~= strings_view(ws@).take(q as int));
            }
            let names = keep(&head, &before);
            let ghost nv = strings_view(names@);
            let ghost base = widths_view(m@);
            let mut k: usize = 0;
            assert(nv.take(0) =~= Seq::<Seq<char>>::empty());
            while k < names.len()
                invariant
                    0 <= k <= names@.len(),
                    nv == strings_view(names@),
                    widths_view(m@) == put_widths(base, nv.take(k as int), w),
                decreases names@.len() - k,
            {
                assert(nv.take(k + 1).drop_last() =~= nv.take(k as int));
                assert(nv.take(k + 1).last() == names@[k as int]@);
                put_width_into(m, names[k].clone(), w);
                k = k + 1;
            }
            assert(nv.take(k as int) =~= nv);
        }
        i = i + 1;
    }
    assert(dv.take(i as int) =~= dv);
}

/// Adds to `m` the widths the declarations under `n` give.
fn node_widths_into(m: &mut Vec<(String, u64)>, n: &Node)
    ensures
        widths_view(final(m)@) == node_widths(widths_view(old(m)@), *n),
{
    let signals = find(n, Kind::SignalDeclaration);
    declarations_into(m, &signals);
    let interfaces = find(n, Kind::InterfaceObjectDeclaration);
    declarations_into(m, &interfaces);
}


/// The decimal digits of `n`.
fn decimal_u64(n: u64) -> (r: String)
    ensures
        r@ == crate::layout::decimal(n as nat),
    decreases n,
{
    let digit = (n % 10) as u8;
    let c = (digit + 48) as char;
    if n < 10 {
        let mut s = String::new();
        s.push(c);
        assert(s@ =~= crate::layout::decimal(n as nat));
        s
    } else {
        let mut s = decimal_u64(n / 10);
        s.push(c);
        s
    }
}

/// The width `m` knows for `name`.
fn width_for(m: &Vec<(String, u64)>, name: &str) -> (r: Option<u64>)
    ensures
        r == width_in(widths_view(m@), name@),
{
    let ghost mv = widths_view(m@);
    let mut k = m.len();
    while k > 0
        invariant
            k <= m@.len(),
            mv == widths_view(m@),
            forall|j: int| k <= j < m@.len() ==> mv[j].0 != name@,
        decreases k,
    {
        assert(mv[k - 1] == (m@[k - 1].0@, m@[k - 1].1));
        if str_eq(m[k - 1].0.as_str(), name) {
            proof {
                lemma_entry_index(mv, name@);
                assert(mv[k - 1].0 == name@);
            }
            return Some(m[k - 1].1);
        }
        k = k - 1;
    }
    proof {
        lemma_entry_index(mv, name@);
    }
    None
}

/// Appends what the statements `sts` report.
fn statements_into(
    sts: &Vec<&Node>,
    known: &Vec<(String, u64)>,
    source: &[u8],
    utf8: bool,
    file: &PathBuf,
    raw: &mut Vec<Finding>,
)
    requires
        4 * source@.len() < usize::MAX,
    ensures
        finding_views(final(raw)@) == finding_views(old(raw)@) + statements_findings(
            nodes_of(sts@),
            widths_view(known@),
            source@,
            utf8,
        ),
{
    let ghost sv = nodes_of(sts@);
    let ghost kv = widths_view(known@);
    let ghost start = finding_views(raw@);
    let mut i: usize = 0;
    assert(sv.take(0) =~= Seq::<Node>::empty());
    assert(finding_views(raw@) =~= start + Seq::<SFinding>::empty());
    proof {
        reveal_strlit("<=");
    }
    while i < sts.len()
        invariant
            0 <= i <= sts@.len(),
            4 * source@.len() < usize::MAX,
            sv == nodes_of(sts@),
            kv == widths_view(known@),
            finding_views(raw@) == start + statements_findings(sv.take(i as int), kv, source@, utf8),
        decreases sts@.len() - i,
    {
        let st = sts[i];
        assert(sv.take(i + 1).drop_last() =~= sv.take(i as int));
        assert(sv.take(i + 1).last() == *st);
        let ghost before = finding_views(raw@);
        let ghost want = statement_finding(*st, kv, source@, utf8);
        let w = crate::analysis::clockdomain::words(st);
        let ts = assignments(st);
        let mut rs: Vec<(String, usize)> = Vec::new();
        reads(st, &mut rs);
        assert(named_views(rs@) =~= spec_reads(*st));
        let ghost rv = spec_reads(*st);
        let mut pushed = false;
        if w.len() == 3 && str_eq(w[1].as_str(), "<=") && ts.len() == 1 {
            assert(strings_view(w@)[1] == w@[1]@);
            assert(named_views(ts@)[0] == (ts@[0].0@, ts@[0].1));
            let (base, _) = path(ts[0].0.as_str());
            if let Some(left) = width_for(known, base.as_str()) {
                // One read, possibly named more than once.
                let mut same = rs.len() > 0;
                let mut q: usize = 0;
                while q < rs.len() && same
                    invariant
                        0 <= q <= rs@.len(),
                        rv == named_views(rs@),
                        same ==> rs@.len() > 0 && forall|j: int| 0 <= j < q ==> #[trigger] rv[j] == rv[0],
                        !same ==> rv.len() == 0 || exists|j: int| 0 <= j < rv.len() && #[trigger] rv[j] != rv[0],
                    decreases rs@.len() - q,
                {
                    assert(rv[q as int] == (rs@[q as int].0@, rs@[q as int].1));
                    assert(rv[0] == (rs@[0].0@, rs@[0].1));
                    if !(str_eq(rs[q].0.as_str(), rs[0].0.as_str()) && rs[q].1 == rs[0].1) {
                        same = false;
                    }
                    q = q + 1;
                }
                if same {
                    assert(rv[0] == (rs@[0].0@, rs@[0].1));
                    if let Some(right) = width_for(known, rs[0].0.as_str()) {
                        if left != right {
                            let (line, column) = line_col(source, utf8, rs[0].1);
                            let mut m = String::from_str("'");
                            m.append(rs[0].0.as_str());
                            m.append("' is ");
                            m.append(decimal_u64(right).as_str());
                            m.append(" bits wide and is assigned to '");
                            m.append(ts[0].0.as_str());
                            m.append("', which is ");
                            m.append(decimal_u64(left).as_str());
                            proof {
                                reveal_strlit("'");
                                reveal_strlit("' is ");
                                reveal_strlit(" bits wide and is assigned to '");
                                reveal_strlit("', which is ");
                                reveal_strlit("lint_740");
                                assert(m@ =~= width_message(rv[0].0, right, ts@[0].0@, left));
                            }
                            let f = Finding {
                                file: file.clone(),
                                rule: "lint_740",
                                line,
                                column,
                                message: m,
                                related: Vec::new(),
                            };
                            assert(f.related@.map_values(|r: crate::analysis::lint::Related| crate::analysis::lint::related_view(r)) =~= Seq::<(int, int, Seq<char>)>::empty());
                            raw.push(f);
                            pushed = true;
                            assert(want == seq![finding_view(f)]);
                            assert(finding_views(raw@) =~= before + want);
                        }
                    }
                }
            }
        }
        if !pushed {
            assert(want =~= Seq::<SFinding>::empty());
            assert(finding_views(raw@) =~= before + want);
        }
        i = i + 1;
        assert(finding_views(raw@) =~= start + statements_findings(sv.take(i as int), kv, source@, utf8));
    }
    assert(sv.take(i as int) =~= sv);
}

/// `lint_740`: `a <= b;` where `a` and `b` are declared with ranges of different, known widths
/// (ports of the file's entities included), at the read of `b`. Sorted by place.
pub fn check(root: &Node, source: &[u8], file: &PathBuf) -> (r: Vec<Finding>)
    requires
        4 * source@.len() < usize::MAX,
    ensures
        finding_views(r@) == spec_check(*root, source@),
{
    let utf8 = crate::reflow::is_utf8(source);
    let entities = find(root, Kind::EntityDeclaration);
    let ghost ev = nodes_of(entities@);
    let mut ports: Vec<(String, u64)> = Vec::new();
    let mut e: usize = 0;
    assert(ev.take(0) =~= Seq::<Node>::empty());
    assert(widths_view(ports@) =~= Seq::<(Seq<char>, u64)>::empty());
    while e < entities.len()
        invariant
            0 <= e <= entities@.len(),
            ev == nodes_of(entities@),
            widths_view(ports@) == entities_widths(ev.take(e as int)),
        decreases entities@.len() - e,
    {
        assert(ev.take(e + 1).drop_last() =~= ev.take(e as int));
        assert(ev.take(e + 1).last() == *entities@[e as int]);
        node_widths_into(&mut ports, entities[e]);
        e = e + 1;
    }
    assert(ev.take(e as int) =~= ev);
    let ghost pv = widths_view(ports@);
    let archs = find(root, Kind::ArchitectureBody);
    let ghost av = nodes_of(archs@);
    let mut raw: Vec<Finding> = Vec::new();
    let mut i: usize = 0;
    assert(av.take(0) =~= Seq::<Node>::empty());
    assert(finding_views(raw@) =~= Seq::<SFinding>::empty());
    while i < archs.len()
        invariant
            0 <= i <= archs@.len(),
            4 * source@.len() < usize::MAX,
            av == nodes_of(archs@),
            pv == widths_view(ports@),
            finding_views(raw@) == architectures_widths(av.take(i as int), pv, source@, utf8),
        decreases archs@.len() - i,
    {
        let arch = archs[i];
        assert(av.take(i + 1).drop_last() =~= av.take(i as int));
        assert(av.take(i + 1).last() == *arch);
        let ghost before = finding_views(raw@);
        let mut known: Vec<(String, u64)> = Vec::new();
        let mut k: usize = 0;
        while k < ports.len()
            invariant
                0 <= k <= ports@.len(),
                pv == widths_view(ports@),
                widths_view(known@) == pv.take(k as int),
            decreases ports@.len() - k,
        {
            let ghost kb = known@;
            known.push((ports[k].0.clone(), ports[k].1));
            assert(widths_view(known@) =~= widths_view(kb).push(pv[k as int]));
            assert(pv.take(k + 1) =~= pv.take(k as int).push(pv[k as int]));
            k = k + 1;
        }
        assert(pv.take(k as int) =~= pv);
        node_widths_into(&mut known, arch);
        if known.len() > 0 {
            let a = find(arch, Kind::ConcurrentSimpleSignalAssignment);
            statements_into(&a, &known, source, utf8, file, &mut raw);
            let b = find(arch, Kind::SimpleWaveformAssignment);
            statements_into(&b, &known, source, utf8, file, &mut raw);
        }
        assert(finding_views(raw@) =~= before + architecture_widths(*arch, pv, source@, utf8));
        i = i + 1;
    }
    assert(av.take(i as int) =~= av);
    let ghost rv = finding_views(raw@);
    let total = raw.len();
    let mut sorted: Vec<Finding> = Vec::new();
    let mut k: usize = 0;
    assert(rv.take(0) =~= Seq::<SFinding>::empty());
    assert(finding_views(sorted@) =~= sort_findings(rv.take(0)));
    while raw.len() > 0
        invariant
            k + raw@.len() == rv.len(),
            rv.len() == total,
            finding_views(raw@) == rv.skip(k as int),
            finding_views(sorted@) == sort_findings(rv.take(k as int)),
        decreases raw@.len(),
    {
        let ghost rest = raw@;
        let f = raw.remove(0);
        assert(finding_view(f) == rv[k as int]) by {
            assert(finding_views(rest)[0] == finding_view(rest[0]));
        }
        assert(finding_views(raw@) =~= rv.skip(k + 1)) by {
            assert(raw@ =~= rest.subrange(1, rest.len() as int));
            assert(finding_views(raw@) =~= finding_views(rest).skip(1));
            assert(rv.skip(k + 1) =~= rv.skip(k as int).skip(1));
        }
        put_finding(&mut sorted, f);
        assert(rv.take(k + 1).drop_last() =~= rv.take(k as int));
        k = k + 1;
    }
    assert(rv.take(k as int) =~= rv);
    sorted
}

} // verus!



