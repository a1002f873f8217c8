//! `lint_700`: a signal registered on one clock and used in logic on another, with no
//! synchroniser in the way.
//!
//! A register's clock is read from its process: the signal inside `rising_edge(..)` or
//! `falling_edge(..)`, or the prefix of `'event`. A signal registered on exactly one clock
//! belongs to that clock's domain. Capturing it into a flip-flop of its own (`b_sync <= a_data;`)
//! is the first stage of a synchroniser and is not reported; neither is anything that passes
//! through an instance of an entity the configuration names as a synchroniser.
use vstd::prelude::*;

use std::path::PathBuf;

use crate::analysis::design::{
    assignments, named_views, path, put_finding, reads, sort_findings, spec_assignments,
    spec_path, spec_reads, strings_view,
};
use crate::analysis::elaborate::{entity_of, spec_entity_of};
use crate::analysis::lint::{finding_view, finding_views, Finding, SFinding};
use crate::analysis::syntax::{
    all_tokens, find, lower_text, nodes_of, spec_find, spec_tokens, tokens_of, Kind, Node, Token,
};
use crate::bytes::str_eq;
use crate::chars::lowered;
use crate::config::{glob, spec_glob};
use crate::text::{line_col, spec_line_col};
use vstd::string::StringSliceAdditionalSpecFns;

verus! {

/// The lower-case texts of tokens, the `;` left out.
pub open spec fn words_of(ts: Seq<Token>) -> Seq<Seq<char>>
    decreases ts.len(),
{
    if ts.len() == 0 {
        Seq::empty()
    } else {
        words_of(ts.drop_last()) + if lowered(ts.last().text@) == ";"@ {
            Seq::empty()
        } else {
            seq![lowered(ts.last().text@)]
        }
    }
}

/// The words of a node.
pub open spec fn spec_words(n: Node) -> Seq<Seq<char>> {
    words_of(spec_tokens(n))
}

/// The clock named at or after word `at`: the second word after `rising_edge` or
/// `falling_edge`, or the word before `'event` (or before `'` then `event`), whichever comes
/// first; nothing when that word is missing.
pub open spec fn clock_from(w: Seq<Seq<char>>, at: int) -> Option<Seq<char>>
    decreases w.len() - at,
{
    if at < 0 || at >= w.len() {
        None
    } else if w[at] == "rising_edge"@ || w[at] == "falling_edge"@ {
        if at + 2 < w.len() {
            Some(w[at + 2])
        } else {
            None
        }
    } else if w[at] == "'event"@ || (w[at] == "'"@ && at + 1 < w.len() && w[at + 1] == "event"@) {
        if at >= 1 {
            Some(w[at - 1])
        } else {
            None
        }
    } else {
        clock_from(w, at + 1)
    }
}

/// The clock of a process, if it is clocked.
pub open spec fn spec_clock_of(p: Node) -> Option<Seq<char>> {
    clock_from(spec_words(p), 0)
}

/// `target <= source` and nothing else: the first flip-flop of a synchroniser.
pub open spec fn spec_is_plain_capture(st: Node, source: Seq<char>) -> bool {
    let w = spec_words(st);
    w.len() == 3 && w[1] == "<="@ && w[2] == source
}

/// The entity an instance instantiates, or nothing.
pub open spec fn entity_or_empty(inst: Node) -> Seq<char> {
    match spec_entity_of(inst) {
        Some(e) => e,
        None => Seq::empty(),
    }
}

/// Whether one of the patterns matches the entity name.
pub open spec fn matches_any(patterns: Seq<Seq<char>>, entity: Seq<char>) -> bool {
    exists|i: int|
        0 <= i < patterns.len() && spec_glob(
            vstd::utf8::encode_utf8(#[trigger] patterns[i]),
            vstd::utf8::encode_utf8(entity),
        )
}

/// The names an instance reads or drives.
pub open spec fn instance_names(inst: Node) -> Set<Seq<char>> {
    Set::new(
        |x: Seq<char>|
            (exists|k: int| 0 <= k < spec_reads(inst).len() && #[trigger] spec_reads(inst)[k].0 == x)
                || (exists|k: int|
                0 <= k < spec_assignments(inst).len() && spec_path(#[trigger] spec_assignments(inst)[k].0).0
                    == x),
    )
}

/// The signals that pass through an instance of a synchroniser.
pub open spec fn synchronised(arch: Node, patterns: Seq<Seq<char>>) -> Set<Seq<char>> {
    let insts = spec_find(arch, Kind::ComponentInstantiationStatement);
    Set::new(
        |x: Seq<char>|
            exists|i: int|
                0 <= i < insts.len() && matches_any(patterns, entity_or_empty(#[trigger] insts[i]))
                    && instance_names(insts[i]).contains(x),
    )
}

/// Whether process `p` is clocked on `c` and drives `name`.
pub open spec fn registers_on(p: Node, name: Seq<char>, c: Seq<char>) -> bool {
    spec_clock_of(p) == Some(c) && exists|k: int|
        0 <= k < spec_assignments(p).len() && spec_path(#[trigger] spec_assignments(p)[k].0).0 == name
}

/// The clocks a signal is registered on.
pub open spec fn clocks_of(ps: Seq<Node>, name: Seq<char>) -> Set<Seq<char>> {
    Set::new(|c: Seq<char>| exists|i: int| 0 <= i < ps.len() && registers_on(#[trigger] ps[i], name, c))
}

/// The domain of a signal: its clock when it is registered on exactly one.
pub open spec fn domain_of(ps: Seq<Node>, name: Seq<char>) -> Option<Seq<char>> {
    if exists|c: Seq<char>| clocks_of(ps, name) == set![c] {
        Some(choose|c: Seq<char>| clocks_of(ps, name) == set![c])
    } else {
        None
    }
}

/// Whether there are two domains at all.
pub open spec fn two_domains(ps: Seq<Node>) -> bool {
    exists|a: Seq<char>, b: Seq<char>|
        #[trigger] domain_of(ps, a) is Some && #[trigger] domain_of(ps, b) is Some && domain_of(ps, a)->0
            != domain_of(ps, b)->0
}

/// `Signal 'name' is registered on 'other' and used in logic on 'clock': ...`.
pub open spec fn crossing_message(name: Seq<char>, other: Seq<char>, clock: Seq<char>) -> Seq<char> {
    "Signal '"@ + name + "' is registered on '"@ + other + "' and used in logic on '"@ + clock
        + "': an unsynchronised clock domain crossing"@
}

/// What the reads `rs` of statement `st`, in logic on `clock`, report.
pub open spec fn reads_findings(
    rs: Seq<(Seq<char>, usize)>,
    st: Node,
    clock: Seq<char>,
    ps: Seq<Node>,
    safe: Set<Seq<char>>,
    source: Seq<u8>,
    utf8: bool,
) -> Seq<SFinding>
    decreases rs.len(),
{
    if rs.len() == 0 {
        Seq::empty()
    } else {
        let (name, offset) = rs.last();
        reads_findings(rs.drop_last(), st, clock, ps, safe, source, utf8) + if name == clock
            || safe.contains(name) {
            Seq::empty()
        } else {
            match domain_of(ps, name) {
                Some(other) => if other == clock || spec_is_plain_capture(st, name) {
                    Seq::empty()
                } else {
                    seq![
                        SFinding {
                            rule: "lint_700"@,
                            line: spec_line_col(source, utf8, offset as int).0,
                            column: spec_line_col(source, utf8, offset as int).1,
                            message: crossing_message(name, other, clock),
                            related: Seq::empty(),
                        },
                    ]
                },
                None => Seq::empty(),
            }
        }
    }
}

/// What the statements `sts`, in logic on `clock`, report.
pub open spec fn statements_findings(
    sts: Seq<Node>,
    clock: Seq<char>,
    ps: Seq<Node>,
    safe: Set<Seq<char>>,
    source: Seq<u8>,
    utf8: bool,
) -> Seq<SFinding>
    decreases sts.len(),
{
    if sts.len() == 0 {
        Seq::empty()
    } else {
        statements_findings(sts.drop_last(), clock, ps, safe, source, utf8) + reads_findings(
            spec_reads(sts.last()),
            sts.last(),
            clock,
            ps,
            safe,
            source,
            utf8,
        )
    }
}

/// The statement kinds whose reads count as logic on the process's clock, in the order they
/// are looked at.
pub open spec fn logic_kinds() -> Seq<Kind> {
    seq![Kind::SimpleWaveformAssignment, Kind::ConditionalWaveformAssignment, Kind::SelectedWaveformAssignment]
}

/// What one process reports: nothing unless it is clocked.
pub open spec fn process_findings(p: Node, ps: Seq<Node>, safe: Set<Seq<char>>, source: Seq<u8>, utf8: bool) -> Seq<
    SFinding,
> {
    match spec_clock_of(p) {
        Some(c) => statements_findings(spec_find(p, logic_kinds()[0]), c, ps, safe, source, utf8)
            + statements_findings(spec_find(p, logic_kinds()[1]), c, ps, safe, source, utf8)
            + statements_findings(spec_find(p, logic_kinds()[2]), c, ps, safe, source, utf8),
        None => Seq::empty(),
    }
}

/// What the processes `qs` report.
pub open spec fn processes_findings(qs: Seq<Node>, ps: Seq<Node>, safe: Set<Seq<char>>, source: Seq<u8>, utf8: bool) -> Seq<
    SFinding,
>
    decreases qs.len(),
{
    if qs.len() == 0 {
        Seq::empty()
    } else {
        processes_findings(qs.drop_last(), ps, safe, source, utf8) + process_findings(qs.last(), ps, safe, source, utf8)
    }
}

/// What one architecture reports: nothing unless it has two domains.
pub open spec fn architecture_crossings(arch: Node, patterns: Seq<Seq<char>>, source: Seq<u8>, utf8: bool) -> Seq<
    SFinding,
> {
    let ps = spec_find(arch, Kind::ProcessStatement);
    if two_domains(ps) {
        processes_findings(ps, ps, synchronised(arch, patterns), source, utf8)
    } else {
        Seq::empty()
    }
}

/// What the architectures `archs` report, in their order.
pub open spec fn architectures_crossings(archs: Seq<Node>, patterns: Seq<Seq<char>>, source: Seq<u8>, utf8: bool) -> Seq<
    SFinding,
>
    decreases archs.len(),
{
    if archs.len() == 0 {
        Seq::empty()
    } else {
        architectures_crossings(archs.drop_last(), patterns, source, utf8) + architecture_crossings(
            archs.last(),
            patterns,
            source,
            utf8,
        )
    }
}

/// `s` without each finding that repeats the line and message of the one before it.
pub open spec fn dedup_places(s: Seq<SFinding>) -> Seq<SFinding>
    decreases s.len(),
{
    if s.len() <= 1 {
        s
    } else {
        let r = dedup_places(s.drop_last());
        if s[s.len() - 2].line == s.last().line && s[s.len() - 2].message == s.last().message {
            r
        } else {
            r.push(s.last())
        }
    }
}

/// What `lint_700` reports of a file: sorted by place, one finding per line and message.
pub open spec fn spec_check(root: Node, source: Seq<u8>, patterns: Seq<Seq<char>>) -> Seq<SFinding> {
    dedup_places(
        sort_findings(
            architectures_crossings(
                spec_find(root, Kind::ArchitectureBody),
                patterns,
                source,
                vstd::utf8::valid_utf8(source),
            ),
        ),
    )
}


// Executable code --------------------------------------------------------------------------------

/// The words of a node.
pub(crate) fn words(n: &Node) -> (r: Vec<String>)
    ensures
        strings_view(r@) == spec_words(*n),
{
    let ts = all_tokens(n);
    let ghost tv = tokens_of(ts@);
    let mut out: Vec<String> = Vec::new();
    let mut i: usize = 0;
    assert(tv.take(0) =~= Seq::<Token>::empty());
    assert(strings_view(out@) =~= Seq::<Seq<char>>::empty());
    while i < ts.len()
        invariant
            0 <= i <= ts@.len(),
            tv == tokens_of(ts@),
            tv == spec_tokens(*n),
            strings_view(out@) == words_of(tv.take(i as int)),
        decreases ts@.len() - i,
    {
        assert(tv.take(i + 1).drop_last() =~= tv.take(i as int));
        assert(tv.take(i + 1).last() == *ts@[i as int]);
        let low = lower_text(ts[i]);
        let w = crate::chars::string_of(&low, 0, low.len());
        assert(low@.subrange(0, low@.len() as int) =~= low@);
        proof {
            reveal_strlit(";");
        }
        if !str_eq(w.as_str(), ";") {
            let ghost before = out@;
            out.push(w);
            assert(strings_view(out@) =~= strings_view(before).push(w@));
        } else {
            assert(strings_view(out@) =~= strings_view(out@) + Seq::<Seq<char>>::empty());
        }
        i = i + 1;
    }
    assert(tv.take(i as int) =~= tv);
    out
}

/// The clock of a process, if it is clocked.
fn clock_of(p: &Node) -> (r: Option<String>)
    ensures
        match r {
            Some(c) => spec_clock_of(*p) == Some(c@),
            None => spec_clock_of(*p) is None,
        },
{
    let w = words(p);
    let ghost wv = strings_view(w@);
    let mut at: usize = 0;
    proof {
        reveal_strlit("rising_edge");
        reveal_strlit("falling_edge");
        reveal_strlit("'event");
        reveal_strlit("'");
        reveal_strlit("event");
    }
    while at < w.len()
        invariant
            0 <= at <= w@.len(),
            wv == strings_view(w@),
            wv == spec_words(*p),
            clock_from(wv, 0) == clock_from(wv, at as int),
        decreases w@.len() - at,
    {
        assert(wv[at as int] == w@[at as int]@);
        if str_eq(w[at].as_str(), "rising_edge") || str_eq(w[at].as_str(), "falling_edge") {
            if w.len() - at > 2 {
                assert(wv[at + 2] == w@[at + 2]@);
                return Some(w[at + 2].clone());
            }
            return None;
        }
        let tick = str_eq(w[at].as_str(), "'event") || (str_eq(w[at].as_str(), "'") && at + 1 < w.len()
            && str_eq(w[at + 1].as_str(), "event"));
        if at + 1 < w.len() {
            assert(wv[at + 1] == w@[at + 1]@);
        }
        if tick {
            if at >= 1 {
                assert(wv[at - 1] == w@[at - 1]@);
                return Some(w[at - 1].clone());
            }
            return None;
        }
        at = at + 1;
    }
    None
}

/// `target <= source` and nothing else.
fn is_plain_capture(st: &Node, source: &str) -> (r: bool)
    ensures
        r == spec_is_plain_capture(*st, source@),
{
    let w = words(st);
    proof {
        reveal_strlit("<=");
    }
    if w.len() != 3 {
        return false;
    }
    assert(strings_view(w@)[1] == w@[1]@ && strings_view(w@)[2] == w@[2]@);
    str_eq(w[1].as_str(), "<=") && str_eq(w[2].as_str(), source)
}

/// Whether one of the patterns matches the entity name.
fn any_matches(patterns: &Vec<String>, entity: &str) -> (r: bool)
    ensures
        r == matches_any(strings_view(patterns@), entity@),
{
    let ghost pv = strings_view(patterns@);
    let mut i: usize = 0;
    while i < patterns.len()
        invariant
            0 <= i <= patterns@.len(),
            pv == strings_view(patterns@),
            forall|j: int|
                0 <= j < i ==> !spec_glob(vstd::utf8::encode_utf8(#[trigger] pv[j]), vstd::utf8::encode_utf8(entity@)),
        decreases patterns@.len() - i,
    {
        assert(pv[i as int] == patterns@[i as int]@);
        if glob(patterns[i].as_str().as_bytes(), entity.as_bytes()) {
            return true;
        }
        i = i + 1;
    }
    false
}

/// The signals that pass through an instance of a synchroniser.
fn synchronised_names(arch: &Node, patterns: &Vec<String>) -> (r: Vec<String>)
    ensures
        crate::analysis::design::names(r@) == synchronised(*arch, strings_view(patterns@)),
{
    let insts = find(arch, Kind::ComponentInstantiationStatement);
    let ghost iv = nodes_of(insts@);
    let ghost pv = strings_view(patterns@);
    let mut out: Vec<String> = Vec::new();
    let mut i: usize = 0;
    while i < insts.len()
        invariant
            0 <= i <= insts@.len(),
            iv == nodes_of(insts@),
            iv == spec_find(*arch, Kind::ComponentInstantiationStatement),
            pv == strings_view(patterns@),
            crate::analysis::design::names(out@) == Set::new(
                |x: Seq<char>|
                    exists|j: int|
                        0 <= j < i && matches_any(pv, entity_or_empty(#[trigger] iv[j]))
                            && instance_names(iv[j]).contains(x),
            ),
        decreases insts@.len() - i,
    {
        let inst = insts[i];
        assert(iv[i as int] == *inst);
        let entity = match entity_of(inst) {
            Some(e) => e,
            None => String::new(),
        };
        assert(entity@ == entity_or_empty(*inst));
        let ghost before = crate::analysis::design::names(out@);
        if any_matches(patterns, entity.as_str()) {
            let mut rs: Vec<(String, usize)> = Vec::new();
            reads(inst, &mut rs);
            assert(named_views(rs@) =~= spec_reads(*inst));
            let ts = assignments(inst);
            let mut add: Vec<String> = Vec::new();
            let mut k: usize = 0;
            while k < rs.len()
                invariant
                    0 <= k <= rs@.len(),
                    named_views(rs@) == spec_reads(*inst),
                    crate::analysis::design::names(add@) == Set::new(
                        |x: Seq<char>| exists|q: int| 0 <= q < k && #[trigger] spec_reads(*inst)[q].0 == x,
                    ),
                decreases rs@.len() - k,
            {
                assert(spec_reads(*inst)[k as int].0 == rs@[k as int].0@);
                crate::analysis::design::add_name(&mut add, rs[k].0.clone());
                k = k + 1;
                assert(crate::analysis::design::names(add@) =~= Set::new(
                    |x: Seq<char>| exists|q: int| 0 <= q < k && #[trigger] spec_reads(*inst)[q].0 == x,
                ));
            }
            let ghost read_set = crate::analysis::design::names(add@);
            let mut m: usize = 0;
            while m < ts.len()
                invariant
                    0 <= m <= ts@.len(),
                    named_views(ts@) == spec_assignments(*inst),
                    crate::analysis::design::names(add@) == read_set.union(Set::new(
                        |x: Seq<char>|
                            exists|q: int| 0 <= q < m && spec_path(#[trigger] spec_assignments(*inst)[q].0).0 == x,
                    )),
                decreases ts@.len() - m,
            {
                assert(spec_assignments(*inst)[m as int].0 == ts@[m as int].0@);
                let (base, _) = path(ts[m].0.as_str());
                crate::analysis::design::add_name(&mut add, base);
                m = m + 1;
                assert(crate::analysis::design::names(add@) =~= read_set.union(Set::new(
                    |x: Seq<char>|
                        exists|q: int| 0 <= q < m && spec_path(#[trigger] spec_assignments(*inst)[q].0).0 == x,
                )));
            }
            assert(crate::analysis::design::names(add@) =~= instance_names(*inst));
            crate::analysis::design::add_names(&mut out, &add);
        }
        i = i + 1;
        assert(crate::analysis::design::names(out@) =~= Set::new(
            |x: Seq<char>|
                exists|j: int|
                    0 <= j < i && matches_any(pv, entity_or_empty(#[trigger] iv[j])) && instance_names(iv[j]).contains(x),
        )) by {
            assert forall|x: Seq<char>|
                crate::analysis::design::names(out@).contains(x) implies exists|j: int|
                    0 <= j < i && matches_any(pv, entity_or_empty(#[trigger] iv[j])) && instance_names(iv[j]).contains(x) by {
                if !before.contains(x) {
                    assert(iv[i - 1] == *inst);
                }
            }
        }
    }
    assert(crate::analysis::design::names(out@) =~= synchronised(*arch, pv));
    out
}


/// Register pairs as plain values.
pub open spec fn pairs_view(v: Seq<(String, String)>) -> Seq<(Seq<char>, Seq<char>)> {
    v.map_values(|p: (String, String)| (p.0@, p.1@))
}

/// Whether `name` is registered on `c` by one of the pairs.
pub open spec fn has_pair(pv: Seq<(Seq<char>, Seq<char>)>, name: Seq<char>, c: Seq<char>) -> bool {
    exists|k: int| 0 <= k < pv.len() && #[trigger] pv[k] == (name, c)
}

/// Each signal a clocked process drives, with the process's clock.
fn register_pairs(ps: &Vec<&Node>) -> (r: Vec<(String, String)>)
    ensures
        forall|name: Seq<char>, c: Seq<char>|
            has_pair(pairs_view(r@), name, c) == #[trigger] clocks_of(nodes_of(ps@), name).contains(c),
{
    let ghost pv = nodes_of(ps@);
    let mut out: Vec<(String, String)> = Vec::new();
    let mut i: usize = 0;
    while i < ps.len()
        invariant
            0 <= i <= ps@.len(),
            pv == nodes_of(ps@),
            forall|name: Seq<char>, c: Seq<char>|
                #[trigger] has_pair(pairs_view(out@), name, c) == exists|j: int| 0 <= j < i && registers_on(#[trigger] pv[j], name, c),
        decreases ps@.len() - i,
    {
        let p = ps[i];
        assert(pv[i as int] == *p);
        if let Some(clock) = clock_of(p) {
            let ts = assignments(p);
            let ghost tv = named_views(ts@);
            let mut m: usize = 0;
            while m < ts.len()
                invariant
                    0 <= m <= ts@.len(),
                    i < ps@.len(),
                    pv == nodes_of(ps@),
                    pv[i as int] == *p,
                    tv == named_views(ts@),
                    tv == spec_assignments(*p),
                    spec_clock_of(*p) == Some(clock@),
                    forall|name: Seq<char>, c: Seq<char>|
                        #[trigger] has_pair(pairs_view(out@), name, c) == ((exists|j: int| 0 <= j < i && registers_on(#[trigger] pv[j], name, c))
                            || (c == clock@ && exists|q: int| 0 <= q < m && spec_path(#[trigger] tv[q].0).0 == name)),
                decreases ts@.len() - m,
            {
                assert(tv[m as int].0 == ts@[m as int].0@);
                let (base, _) = path(ts[m].0.as_str());
                let ghost before = pairs_view(out@);
                let ghost added = (base@, clock@);
                out.push((base, clock.clone()));
                assert(pairs_view(out@) =~= before.push(added));
                m = m + 1;
                assert forall|name: Seq<char>, c: Seq<char>|
                    #[trigger] has_pair(pairs_view(out@), name, c) == ((exists|j: int| 0 <= j < i && registers_on(#[trigger] pv[j], name, c))
                        || (c == clock@ && exists|q: int| 0 <= q < m && spec_path(#[trigger] tv[q].0).0 == name)) by {
                    let now = pairs_view(out@);
                    if has_pair(now, name, c) {
                        let k = choose|k: int| 0 <= k < now.len() && #[trigger] now[k] == (name, c);
                        if k < before.len() {
                            assert(before[k] == (name, c));
                            assert(has_pair(before, name, c));
                        } else {
                            assert(spec_path(tv[m - 1].0).0 == name);
                        }
                    }
                    if has_pair(before, name, c) {
                        let k = choose|k: int| 0 <= k < before.len() && #[trigger] before[k] == (name, c);
                        assert(now[k] == (name, c));
                    }
                    if c == clock@ && exists|q: int| 0 <= q < m && spec_path(#[trigger] tv[q].0).0 == name {
                        let q = choose|q: int| 0 <= q < m && spec_path(#[trigger] tv[q].0).0 == name;
                        if q == m - 1 {
                            assert(now[before.len() as int] == (name, c));
                        } else {
                            assert(has_pair(before, name, c));
                            let k = choose|k: int| 0 <= k < before.len() && #[trigger] before[k] == (name, c);
                            assert(now[k] == (name, c));
                        }
                    }
                }
            }
            assert forall|name: Seq<char>, c: Seq<char>|
                #[trigger] has_pair(pairs_view(out@), name, c) == exists|j: int| 0 <= j < i + 1 && registers_on(#[trigger] pv[j], name, c) by {
                if registers_on(pv[i as int], name, c) {
                    let q = choose|q: int| 0 <= q < spec_assignments(pv[i as int]).len() && spec_path(#[trigger] spec_assignments(pv[i as int])[q].0).0 == name;
                    assert(spec_path(tv[q].0).0 == name);
                }
                if exists|j: int| 0 <= j < i + 1 && registers_on(#[trigger] pv[j], name, c) {
                    let j = choose|j: int| 0 <= j < i + 1 && registers_on(#[trigger] pv[j], name, c);
                    if j == i {
                        let q = choose|q: int| 0 <= q < spec_assignments(pv[i as int]).len() && spec_path(#[trigger] spec_assignments(pv[i as int])[q].0).0 == name;
                        assert(spec_path(tv[q].0).0 == name);
                    }
                }
            }
        } else {
            assert forall|name: Seq<char>, c: Seq<char>|
                #[trigger] has_pair(pairs_view(out@), name, c) == exists|j: int| 0 <= j < i + 1 && registers_on(#[trigger] pv[j], name, c) by {
                if exists|j: int| 0 <= j < i + 1 && registers_on(#[trigger] pv[j], name, c) {
                    let j = choose|j: int| 0 <= j < i + 1 && registers_on(#[trigger] pv[j], name, c);
                    assert(j != i);
                }
            }
        }
        i = i + 1;
    }
    out
}

/// The domain of a signal, from the register pairs.
fn domain(pairs: &Vec<(String, String)>, name: &str, Ghost(ps): Ghost<Seq<Node>>) -> (r: Option<String>)
    requires
        forall|n: Seq<char>, c: Seq<char>| has_pair(pairs_view(pairs@), n, c) == #[trigger] clocks_of(ps, n).contains(c),
    ensures
        match r {
            Some(c) => domain_of(ps, name@) == Some(c@),
            None => domain_of(ps, name@) is None,
        },
{
    let ghost pv = pairs_view(pairs@);
    let mut first: Option<usize> = None;
    let mut k: usize = 0;
    while k < pairs.len()
        invariant
            0 <= k <= pairs@.len(),
            pv == pairs_view(pairs@),
            forall|n: Seq<char>, c: Seq<char>| has_pair(pv, n, c) == #[trigger] clocks_of(ps, n).contains(c),
            match first {
                Some(f) => f < k && pv[f as int].0 == name@ && forall|q: int|
                    0 <= q < k && pv[q].0 == name@ ==> #[trigger] pv[q].1 == pv[f as int].1,
                None => forall|q: int| 0 <= q < k ==> #[trigger] pv[q].0 != name@,
            },
        decreases pairs@.len() - k,
    {
        assert(pv[k as int] == (pairs@[k as int].0@, pairs@[k as int].1@));
        if str_eq(pairs[k].0.as_str(), name) {
            match first {
                None => {
                    first = Some(k);
                },
                Some(f) => {
                    assert(pv[f as int] == (pairs@[f as int].0@, pairs@[f as int].1@));
                    if !str_eq(pairs[k].1.as_str(), pairs[f].1.as_str()) {
                        proof {
                            let c0 = pv[f as int].1;
                            let c1 = pv[k as int].1;
                            assert(has_pair(pv, name@, c0));
                            assert(has_pair(pv, name@, c1));
                            assert(clocks_of(ps, name@).contains(c0) && clocks_of(ps, name@).contains(c1));
                            assert forall|c: Seq<char>| clocks_of(ps, name@) != set![c] by {
                                if clocks_of(ps, name@) == set![c] {
                                    assert(set![c].contains(c0) && set![c].contains(c1));
                                }
                            }
                        }
                        return None;
                    }
                },
            }
        }
        k = k + 1;
    }
    match first {
        None => {
            proof {
                assert forall|c: Seq<char>| clocks_of(ps, name@) != set![c] by {
                    if clocks_of(ps, name@) == set![c] {
                        assert(set![c].contains(c));
                        assert(has_pair(pv, name@, c));
                        let q = choose|q: int| 0 <= q < pv.len() && #[trigger] pv[q] == (name@, c);
                        assert(k == pairs@.len() && pv.len() == pairs@.len());
                        assert(pv[q].0 == name@);
                    }
                }
            }
            None
        },
        Some(f) => {
            assert(pv[f as int] == (pairs@[f as int].0@, pairs@[f as int].1@));
            let c = pairs[f].1.clone();
            proof {
                assert(clocks_of(ps, name@) =~= set![c@]) by {
                    assert forall|x: Seq<char>| clocks_of(ps, name@).contains(x) implies x == c@ by {
                        assert(has_pair(pv, name@, x));
                        let q = choose|q: int| 0 <= q < pv.len() && #[trigger] pv[q] == (name@, x);
                        assert(k == pairs@.len() && pv.len() == pairs@.len());
                        assert(pv[q].0 == name@);
                        assert(pv[q].1 == pv[f as int].1);
                    }
                    assert(has_pair(pv, name@, c@));
                }
                let d = choose|d: Seq<char>| clocks_of(ps, name@) == set![d];
                assert(set![d].contains(d));
            }
            Some(c)
        },
    }
}


/// Whether signals `a` and `b` are in two different domains.
pub open spec fn differ(ps: Seq<Node>, a: Seq<char>, b: Seq<char>) -> bool {
    domain_of(ps, a) is Some && domain_of(ps, b) is Some && domain_of(ps, a)->0 != domain_of(ps, b)->0
}

/// Whether the signals of the register pairs fall into two domains.
fn has_two_domains(pairs: &Vec<(String, String)>, Ghost(ps): Ghost<Seq<Node>>) -> (r: bool)
    requires
        forall|n: Seq<char>, c: Seq<char>| has_pair(pairs_view(pairs@), n, c) == #[trigger] clocks_of(ps, n).contains(c),
    ensures
        r == two_domains(ps),
{
    let ghost pv = pairs_view(pairs@);
    let n = pairs.len();
    let mut i: usize = 0;
    while i < n
        invariant
            0 <= i <= n,
            n == pairs@.len(),
            pv == pairs_view(pairs@),
            forall|x: Seq<char>, c: Seq<char>| has_pair(pv, x, c) == #[trigger] clocks_of(ps, x).contains(c),
            forall|p: int, q: int| 0 <= p < i && 0 <= q < n ==> !differ(ps, #[trigger] pv[p].0, #[trigger] pv[q].0),
        decreases n - i,
    {
        assert(pv[i as int] == (pairs@[i as int].0@, pairs@[i as int].1@));
        let a = domain(pairs, pairs[i].0.as_str(), Ghost(ps));
        let mut j: usize = 0;
        while j < n
            invariant
                0 <= j <= n,
                i < n,
                n == pairs@.len(),
                pv == pairs_view(pairs@),
                pv[i as int].0 == pairs@[i as int].0@,
                forall|x: Seq<char>, c: Seq<char>| has_pair(pv, x, c) == #[trigger] clocks_of(ps, x).contains(c),
                match a {
                    Some(c) => domain_of(ps, pv[i as int].0) == Some(c@),
                    None => domain_of(ps, pv[i as int].0) is None,
                },
                forall|q: int| 0 <= q < j ==> !differ(ps, pv[i as int].0, #[trigger] pv[q].0),
            decreases n - j,
        {
            assert(pv[j as int] == (pairs@[j as int].0@, pairs@[j as int].1@));
            let b = domain(pairs, pairs[j].0.as_str(), Ghost(ps));
            match (&a, &b) {
                (Some(x), Some(y)) => {
                    if !str_eq(x.as_str(), y.as_str()) {
                        assert(differ(ps, pv[i as int].0, pv[j as int].0));
                        assert(domain_of(ps, pv[i as int].0) is Some && domain_of(ps, pv[j as int].0) is Some);
                        return true;
                    }
                },
                _ => {},
            }
            j = j + 1;
        }
        i = i + 1;
    }
    proof {
        assert forall|x: Seq<char>, y: Seq<char>| !(#[trigger] domain_of(ps, x) is Some && #[trigger] domain_of(ps, y) is Some
            && domain_of(ps, x)->0 != domain_of(ps, y)->0) by {
            if domain_of(ps, x) is Some && domain_of(ps, y) is Some && domain_of(ps, x)->0 != domain_of(ps, y)->0 {
                let cx = choose|c: Seq<char>| clocks_of(ps, x) == set![c];
                let cy = choose|c: Seq<char>| clocks_of(ps, y) == set![c];
                assert(set![cx].contains(cx) && set![cy].contains(cy));
                assert(has_pair(pv, x, cx) && has_pair(pv, y, cy));
                let p = choose|k: int| 0 <= k < pv.len() && #[trigger] pv[k] == (x, cx);
                let q = choose|k: int| 0 <= k < pv.len() && #[trigger] pv[k] == (y, cy);
                assert(pv[p].0 == x && pv[q].0 == y);
                assert(!differ(ps, pv[p].0, pv[q].0));
            }
        }
    }
    false
}

/// `Signal 'name' is registered on 'other' and used in logic on 'clock': ...`.
fn crossing_message_of(name: &str, other: &str, clock: &str) -> (r: String)
    ensures
        r@ == crossing_message(name@, other@, clock@),
{
    let mut m = String::from_str("Signal '");
    m.append(name);
    m.append("' is registered on '");
    m.append(other);
    m.append("' and used in logic on '");
    m.append(clock);
    m.append("': an unsynchronised clock domain crossing");
    proof {
        reveal_strlit("Signal '");
        reveal_strlit("' is registered on '");
        reveal_strlit("' and used in logic on '");
        reveal_strlit("': an unsynchronised clock domain crossing");
    }
    m
}

/// Appends what the reads of statement `st`, in logic on `clock`, report.
fn statement_findings_into(
    st: &Node,
    clock: &str,
    pairs: &Vec<(String, String)>,
    Ghost(ps): Ghost<Seq<Node>>,
    safe: &Vec<String>,
    Ghost(safe_set): Ghost<Set<Seq<char>>>,
    source: &[u8],
    utf8: bool,
    file: &PathBuf,
    raw: &mut Vec<Finding>,
)
    requires
        forall|n: Seq<char>, c: Seq<char>| has_pair(pairs_view(pairs@), n, c) == #[trigger] clocks_of(ps, n).contains(c),
        crate::analysis::design::names(safe@) == safe_set,
        4 * source@.len() < usize::MAX,
    ensures
        finding_views(final(raw)@) == finding_views(old(raw)@) + reads_findings(
            spec_reads(*st),
            *st,
            clock@,
            ps,
            safe_set,
            source@,
            utf8,
        ),
{
    let mut rs: Vec<(String, usize)> = Vec::new();
    reads(st, &mut rs);
    assert(named_views(rs@) =~= spec_reads(*st));
    let ghost rv = spec_reads(*st);
    let ghost start = finding_views(raw@);
    let mut k: usize = 0;
    assert(rv.take(0) =~= Seq::<(Seq<char>, usize)>::empty());
    assert(finding_views(raw@) =~= start + Seq::<SFinding>::empty());
    while k < rs.len()
        invariant
            0 <= k <= rs@.len(),
            named_views(rs@) == rv,
            rv == spec_reads(*st),
            forall|n: Seq<char>, c: Seq<char>| has_pair(pairs_view(pairs@), n, c) == #[trigger] clocks_of(ps, n).contains(c),
            crate::analysis::design::names(safe@) == safe_set,
            4 * source@.len() < usize::MAX,
            finding_views(raw@) == start + reads_findings(rv.take(k as int), *st, clock@, ps, safe_set, source@, utf8),
        decreases rs@.len() - k,
    {
        assert(rv.take(k + 1).drop_last() =~= rv.take(k as int));
        assert(rv.take(k + 1).last() == (rs@[k as int].0@, rs@[k as int].1));
        let name = rs[k].0.as_str();
        let offset = rs[k].1;
        let ghost before = finding_views(raw@);
        if !str_eq(name, clock) && !crate::analysis::design::has_name(safe, name) {
            if let Some(other) = domain(pairs, name, Ghost(ps)) {
                if !str_eq(other.as_str(), clock) && !is_plain_capture(st, name) {
                    let (line, column) = line_col(source, utf8, offset);
                    let f = Finding {
                        file: file.clone(),
                        rule: "lint_700",
                        line,
                        column,
                        message: crossing_message_of(name, other.as_str(), clock),
                        related: Vec::new(),
                    };
                    proof {
                        reveal_strlit("lint_700");
                        assert(f.related@.map_values(|r: crate::analysis::lint::Related| crate::analysis::lint::related_view(r)) =~= Seq::<(int, int, Seq<char>)>::empty());
                    }
                    raw.push(f);
                    assert(finding_views(raw@) =~= before.push(finding_view(f)));
                } else {
                    assert(finding_views(raw@) =~= before + Seq::<SFinding>::empty());
                }
            } else {
                assert(finding_views(raw@) =~= before + Seq::<SFinding>::empty());
            }
        } else {
            assert(finding_views(raw@) =~= before + Seq::<SFinding>::empty());
        }
        k = k + 1;
    }
    assert(rv.take(k as int) =~= rv);
}

/// Appends what the statements `sts`, in logic on `clock`, report.
fn statements_findings_into(
    sts: &Vec<&Node>,
    clock: &str,
    pairs: &Vec<(String, String)>,
    Ghost(ps): Ghost<Seq<Node>>,
    safe: &Vec<String>,
    Ghost(safe_set): Ghost<Set<Seq<char>>>,
    source: &[u8],
    utf8: bool,
    file: &PathBuf,
    raw: &mut Vec<Finding>,
)
    requires
        forall|n: Seq<char>, c: Seq<char>| has_pair(pairs_view(pairs@), n, c) == #[trigger] clocks_of(ps, n).contains(c),
        crate::analysis::design::names(safe@) == safe_set,
        4 * source@.len() < usize::MAX,
    ensures
        finding_views(final(raw)@) == finding_views(old(raw)@) + statements_findings(
            nodes_of(sts@),
            clock@,
            ps,
            safe_set,
            source@,
            utf8,
        ),
{
    let ghost sv = nodes_of(sts@);
    let ghost start = finding_views(raw@);
    let mut i: usize = 0;
    assert(sv.take(0) =~= Seq::<Node>::empty());
    assert(finding_views(raw@) =~= start + Seq::<SFinding>::empty());
    while i < sts.len()
        invariant
            0 <= i <= sts@.len(),
            sv == nodes_of(sts@),
            forall|n: Seq<char>, c: Seq<char>| has_pair(pairs_view(pairs@), n, c) == #[trigger] clocks_of(ps, n).contains(c),
            crate::analysis::design::names(safe@) == safe_set,
            4 * source@.len() < usize::MAX,
            finding_views(raw@) == start + statements_findings(sv.take(i as int), clock@, ps, safe_set, source@, utf8),
        decreases sts@.len() - i,
    {
        assert(sv.take(i + 1).drop_last() =~= sv.take(i as int));
        assert(sv.take(i + 1).last() == *sts@[i as int]);
        let ghost before = finding_views(raw@);
        statement_findings_into(sts[i], clock, pairs, Ghost(ps), safe, Ghost(safe_set), source, utf8, file, raw);
        i = i + 1;
        assert(finding_views(raw@) =~= start + statements_findings(sv.take(i as int), clock@, ps, safe_set, source@, utf8));
    }
    assert(sv.take(i as int) =~= sv);
}

/// Whether two findings share a line and a message.
fn same_place(a: &Finding, b: &Finding) -> (r: bool)
    ensures
        r == (finding_view(*a).line == finding_view(*b).line && finding_view(*a).message == finding_view(*b).message),
{
    a.line == b.line && str_eq(a.message.as_str(), b.message.as_str())
}

/// `lint_700`: a signal registered on one clock and used in logic on another without a
/// synchroniser, at each such read; sorted by place, one finding per line and message.
/// `synchronizers` are the entity name patterns that make a crossing safe.
#[verifier::spinoff_prover]
#[verifier::rlimit(40)]
pub fn check(root: &Node, source: &[u8], file: &PathBuf, synchronizers: &Vec<String>) -> (r: Vec<Finding>)
    requires
        4 * source@.len() < usize::MAX,
    ensures
        finding_views(r@) == spec_check(*root, source@, strings_view(synchronizers@)),
{
    let utf8 = crate::reflow::is_utf8(source);
    let ghost patterns = strings_view(synchronizers@);
    let archs = find(root, Kind::ArchitectureBody);
    let ghost av = nodes_of(archs@);
    let mut raw: Vec<Finding> = Vec::new();
    let mut i: usize = 0;
    assert(av.take(0) =~= Seq::<Node>::empty());
    assert(finding_views(raw@) =~= Seq::<SFinding>::empty());
    while i < archs.len()
        invariant
            0 <= i <= archs@.len(),
            4 * source@.len() < usize::MAX,
            av == nodes_of(archs@),
            patterns == strings_view(synchronizers@),
            finding_views(raw@) == architectures_crossings(av.take(i as int), patterns, source@, utf8),
        decreases archs@.len() - i,
    {
        let arch = archs[i];
        assert(av.take(i + 1).drop_last() =~= av.take(i as int));
        assert(av.take(i + 1).last() == *arch);
        let ghost before = finding_views(raw@);
        let processes = find(arch, Kind::ProcessStatement);
        let ghost ps = nodes_of(processes@);
        let pairs = register_pairs(&processes);
        if has_two_domains(&pairs, Ghost(ps)) {
            let safe = synchronised_names(arch, synchronizers);
            let ghost safe_set = synchronised(*arch, patterns);
            let mut q: usize = 0;
            assert(ps.take(0) =~= Seq::<Node>::empty());
            assert(finding_views(raw@) =~= before + Seq::<SFinding>::empty());
            while q < processes.len()
                invariant
                    0 <= q <= processes@.len(),
                    ps == nodes_of(processes@),
                    forall|n: Seq<char>, c: Seq<char>| has_pair(pairs_view(pairs@), n, c) == #[trigger] clocks_of(ps, n).contains(c),
                    crate::analysis::design::names(safe@) == safe_set,
                    4 * source@.len() < usize::MAX,
                    finding_views(raw@) == before + processes_findings(ps.take(q as int), ps, safe_set, source@, utf8),
                decreases processes@.len() - q,
            {
                let p = processes[q];
                assert(ps.take(q + 1).drop_last() =~= ps.take(q as int));
                assert(ps.take(q + 1).last() == *p);
                let ghost mid = finding_views(raw@);
                if let Some(clock) = clock_of(p) {
                    let k1 = find(p, Kind::SimpleWaveformAssignment);
                    statements_findings_into(&k1, clock.as_str(), &pairs, Ghost(ps), &safe, Ghost(safe_set), source, utf8, file, &mut raw);
                    let k2 = find(p, Kind::ConditionalWaveformAssignment);
                    statements_findings_into(&k2, clock.as_str(), &pairs, Ghost(ps), &safe, Ghost(safe_set), source, utf8, file, &mut raw);
                    let k3 = find(p, Kind::SelectedWaveformAssignment);
                    statements_findings_into(&k3, clock.as_str(), &pairs, Ghost(ps), &safe, Ghost(safe_set), source, utf8, file, &mut raw);
                    assert(finding_views(raw@) =~= mid + process_findings(*p, ps, safe_set, source@, utf8));
                } else {
                    assert(finding_views(raw@) =~= mid + process_findings(*p, ps, safe_set, source@, utf8));
                }
                q = q + 1;
                assert(finding_views(raw@) =~= before + processes_findings(ps.take(q as int), ps, safe_set, source@, utf8));
            }
            assert(ps.take(q as int) =~= ps);
        } else {
            assert(finding_views(raw@) =~= before + architecture_crossings(*arch, patterns, source@, utf8));
        }
        i = i + 1;
    }
    assert(av.take(i as int) =~= av);
    // Sorted by place, ties in the order found.
    let ghost rv = finding_views(raw@);
    let total = raw.len();
    let mut sorted: Vec<Finding> = Vec::new();
    let mut k: usize = 0;
    assert(rv.take(0) =~= Seq::<SFinding>::empty());
    assert(finding_views(sorted@) =~= sort_findings(rv.take(0)));
    while raw.len() > 0
        invariant
            k + raw@.len() == rv.len(),
            rv.len() == total,
            finding_views(raw@) == rv.skip(k as int),
            finding_views(sorted@) == sort_findings(rv.take(k as int)),
        decreases raw@.len(),
    {
        let ghost rest = raw@;
        let f = raw.remove(0);
        assert(finding_view(f) == rv[k as int]) by {
            assert(finding_views(rest)[0] == finding_view(rest[0]));
        }
        assert(finding_views(raw@) =~= rv.skip(k + 1)) by {
            assert(raw@ =~= rest.subrange(1, rest.len() as int));
            assert(finding_views(raw@) =~= finding_views(rest).skip(1));
            assert(rv.skip(k + 1) =~= rv.skip(k as int).skip(1));
        }
        put_finding(&mut sorted, f);
        assert(rv.take(k + 1).drop_last() =~= rv.take(k as int));
        k = k + 1;
    }
    assert(rv.take(k as int) =~= rv);
    // One finding per line and message.
    let ghost sv = finding_views(sorted@);
    let count = sorted.len();
    let mut out: Vec<Finding> = Vec::new();
    let mut prev: Option<Finding> = None;
    let mut m: usize = 0;
    assert(sv.take(0) =~= Seq::<SFinding>::empty());
    while sorted.len() > 0
        invariant
            m + sorted@.len() == sv.len(),
            sv.len() == count,
            finding_views(sorted@) == sv.skip(m as int),
            finding_views(out@) == dedup_places(sv.take(m as int)),
            match prev {
                Some(p) => m > 0 && finding_view(p).line == sv[m - 1].line && finding_view(p).message == sv[m - 1].message,
                None => m == 0,
            },
        decreases sorted@.len(),
    {
        let ghost rest = sorted@;
        let f = sorted.remove(0);
        assert(finding_view(f) == sv[m as int]) by {
            assert(finding_views(rest)[0] == finding_view(rest[0]));
        }
        assert(finding_views(sorted@) =~= sv.skip(m + 1)) by {
            assert(sorted@ =~= rest.subrange(1, rest.len() as int));
            assert(finding_views(sorted@) =~= finding_views(rest).skip(1));
            assert(sv.skip(m + 1) =~= sv.skip(m as int).skip(1));
        }
        let repeat = match &prev {
            Some(p) => same_place(p, &f),
            None => false,
        };
        let keep = Finding {
            file: file.clone(),
            rule: f.rule,
            line: f.line,
            column: f.column,
            message: f.message.clone(),
            related: Vec::new(),
        };
        proof {
            assert(keep.related@.map_values(|r: crate::analysis::lint::Related| crate::analysis::lint::related_view(r)) =~= Seq::<(int, int, Seq<char>)>::empty());
        }
        assert(sv.take(m + 1).drop_last() =~= sv.take(m as int));
        if !repeat {
            let ghost before = finding_views(out@);
            out.push(f);
            assert(finding_views(out@) =~= before.push(sv[m as int]));
        }
        prev = Some(keep);
        m = m + 1;
    }
    assert(sv.take(m as int) =~= sv);
    out
}


/// Word `j` of `w` names a clock: `rising_edge`, `falling_edge`, `'event`, or `'` then `event`.
pub open spec fn clock_marker(w: Seq<Seq<char>>, j: int) -> bool {
    ||| w[j] == "rising_edge"@
    ||| w[j] == "falling_edge"@
    ||| w[j] == "'event"@
    ||| (w[j] == "'"@ && j + 1 < w.len() && w[j + 1] == "event"@)
}

proof fn lemma_clock_from_skips(w: Seq<Seq<char>>, at: int, k: int)
    requires
        0 <= at <= k < w.len(),
        forall|j: int| 0 <= j < k ==> !clock_marker(w, j),
    ensures
        clock_from(w, at) == clock_from(w, k),
    decreases k - at,
{
    if at < k {
        assert(!clock_marker(w, at));
        lemma_clock_from_skips(w, at + 1, k);
    }
}

/// A process is clocked by the signal whose `'event` it tests first: when the first word that
/// names a clock is `'event` (however the tick is split from `event`), the process's clock is
/// the word before it.
pub proof fn law_event_names_the_clock(p: Node, k: int)
    requires
        1 <= k < spec_words(p).len(),
        spec_words(p)[k] == "'event"@ || (spec_words(p)[k] == "'"@ && k + 1 < spec_words(p).len()
            && spec_words(p)[k + 1] == "event"@),
        forall|j: int| 0 <= j < k ==> !clock_marker(spec_words(p), j),
    ensures
        spec_clock_of(p) == Some(spec_words(p)[k - 1]),
{
    let w = spec_words(p);
    lemma_clock_from_skips(w, 0, k);
    assert(w[k] != "rising_edge"@ && w[k] != "falling_edge"@) by {
        reveal_strlit("rising_edge");
        reveal_strlit("falling_edge");
        reveal_strlit("'event");
        reveal_strlit("'");
        assert("rising_edge"@.len() == 11);
        assert("falling_edge"@.len() == 12);
    }
}

/// A process is clocked by the signal of its first `rising_edge (c)` or `falling_edge (c)`
/// when that comes before any other word that names a clock.
pub proof fn law_edge_names_the_clock(p: Node, k: int)
    requires
        0 <= k,
        k + 2 < spec_words(p).len(),
        spec_words(p)[k] == "rising_edge"@ || spec_words(p)[k] == "falling_edge"@,
        forall|j: int| 0 <= j < k ==> !clock_marker(spec_words(p), j),
    ensures
        spec_clock_of(p) == Some(spec_words(p)[k + 2]),
{
    lemma_clock_from_skips(spec_words(p), 0, k);
}

} // verus!



