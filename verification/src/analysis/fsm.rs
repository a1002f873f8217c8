//! State machines, read out of the source rather than out of a netlist.
//!
//! A synthesis tool finds an FSM by recognising a register whose type is an enumeration and
//! whose next value is chosen by a `case` on itself. That much is visible in the syntax:
//!
//! * `lint_710`: a value of the state type that is never assigned.
//! * `lint_711`: a state whose `case` alternative never assigns a different state.
//!
//! Both are refused unless the machine can be read with certainty: every assignment to the
//! state has to be a plain value of the type. Every signal of the state type is considered
//! together, so one- and two-process styles both work.
use vstd::prelude::*;

use std::path::PathBuf;

use crate::analysis::choices::{ascii_letter, keep, keep_words, skip_word, token_words, trim_end_char, before_any, trim_start_word, words_of};
use crate::analysis::design::{
    assignments, has_text, contains_text, is_clocked, named_views, path, put_finding, sort_findings,
    spec_assignments, spec_is_clocked, spec_path, split_commas, strings_view, text_less, less_text,
};
use crate::analysis::lint::{finding_view, finding_views, Finding, SFinding};
use crate::analysis::syntax::{
    all_tokens, find, lower_text, nodes_of, spec_find, spec_text_of, spec_tokens, text_of, tokens_of,
    Kind, Node, Token,
};
use crate::bytes::str_eq;
use crate::chars::{find_from, lowered, string_of, trim_range, trimmed};
use crate::text::{line_col, spec_line_col};

verus! {

/// A word that can be an enumeration value: its first character a letter or `_`.
pub open spec fn is_value_word(t: Seq<char>) -> bool {
    t.len() > 0 && (ascii_letter(t[0]) || t[0] == '_')
}

/// The words of `ws` that can be values, in order.
pub open spec fn value_words(ws: Seq<Seq<char>>) -> Seq<Seq<char>>
    decreases ws.len(),
{
    if ws.len() == 0 {
        Seq::empty()
    } else {
        value_words(ws.drop_last()) + if is_value_word(ws.last()) {
            seq![ws.last()]
        } else {
            Seq::empty()
        }
    }
}

/// `m`, in order of name, with `name` given `values` (replacing an entry for it, as
/// `BTreeMap::insert` does).
pub open spec fn put_state(m: Seq<(Seq<char>, Seq<Seq<char>>)>, name: Seq<char>, values: Seq<Seq<char>>) -> Seq<
    (Seq<char>, Seq<Seq<char>>),
>
    decreases m.len(),
{
    if m.len() == 0 {
        seq![(name, values)]
    } else if m[0].0 == name {
        m.update(0, (name, values))
    } else if text_less(name, m[0].0) {
        seq![(name, values)] + m
    } else {
        seq![m[0]] + put_state(m.skip(1), name, values)
    }
}

/// The enumeration types of three values or more that `decls` declare, in order of name.
pub open spec fn add_states(decls: Seq<Node>) -> Seq<(Seq<char>, Seq<Seq<char>>)>
    decreases decls.len(),
{
    if decls.len() == 0 {
        Seq::empty()
    } else {
        let before = add_states(decls.drop_last());
        let d = decls.last();
        let enumerations = spec_find(d, Kind::EnumerationTypeDefinition);
        let names = keep_words(token_words(spec_tokens(d)), seq!["type"@]);
        if enumerations.len() == 0 || names.len() == 0 {
            before
        } else {
            let values = value_words(token_words(spec_tokens(enumerations[0])));
            if values.len() < 3 {
                before
            } else {
                put_state(before, names[0], values)
            }
        }
    }
}

/// The type mark of a signal declaration, from what follows its `:`.
pub open spec fn state_mark(rest: Seq<char>) -> Seq<char> {
    trimmed(before_any(trim_end_char(rest, ';'), ':', '('))
}

/// A signal's name from its piece of a declaration's name list.
pub open spec fn signal_name(piece: Seq<char>) -> Seq<char> {
    trimmed(trim_start_word(trimmed(piece), "signal"@))
}

/// Whether declaration `d` declares signal `n` with the type `mark`.
pub open spec fn declares(d: Node, mark: Seq<char>, n: Seq<char>) -> bool {
    let t = spec_text_of(d);
    match find_from(t, ":"@, 0) {
        None => false,
        Some(at) => state_mark(t.skip(at + 1)) == mark && n.len() > 0 && exists|k: int|
            0 <= k < split_commas(t.take(at)).len() && signal_name(#[trigger] split_commas(t.take(at))[k]) == n,
    }
}

/// The signals `decls` declare with the type `mark`.
pub open spec fn state_signals(decls: Seq<Node>, mark: Seq<char>) -> Set<Seq<char>> {
    Set::new(|n: Seq<char>| exists|i: int| 0 <= i < decls.len() && declares(#[trigger] decls[i], mark, n))
}

/// `ts` from the first token after `offset` on.
pub open spec fn tokens_after(ts: Seq<Token>, offset: usize) -> Seq<Token>
    decreases ts.len(),
{
    if ts.len() == 0 {
        ts
    } else if ts[0].offset <= offset {
        tokens_after(ts.skip(1), offset)
    } else {
        ts
    }
}

/// `ws` from its first `<=` or `:=` on.
pub open spec fn from_arrow(ws: Seq<Seq<char>>) -> Seq<Seq<char>>
    decreases ws.len(),
{
    if ws.len() == 0 {
        ws
    } else if ws[0] == "<="@ || ws[0] == ":="@ {
        ws
    } else {
        from_arrow(ws.skip(1))
    }
}

/// The value an assignment at `offset` in `node` gives the state: one value of the type and
/// then the end of the statement, or nothing readable.
pub open spec fn assigned_value(node: Node, offset: usize, values: Seq<Seq<char>>) -> Option<Seq<char>> {
    let after = from_arrow(token_words(tokens_after(spec_tokens(node), offset)));
    if after.len() > 1 && (after.len() <= 2 || after[2] == ";"@) && values.contains(after[1]) {
        Some(after[1])
    } else {
        None
    }
}

/// The values the assignments `ts` of `node` give the state signals `s`.
pub open spec fn assigned_from(
    ts: Seq<(Seq<char>, usize)>,
    node: Node,
    values: Seq<Seq<char>>,
    s: Set<Seq<char>>,
) -> Seq<Option<Seq<char>>>
    decreases ts.len(),
{
    if ts.len() == 0 {
        Seq::empty()
    } else {
        assigned_from(ts.drop_last(), node, values, s) + if s.contains(spec_path(ts.last().0).0) {
            seq![assigned_value(node, ts.last().1, values)]
        } else {
            Seq::empty()
        }
    }
}

/// The values assignments inside `node` give the state signals `s`.
pub open spec fn spec_assigned(node: Node, values: Seq<Seq<char>>, s: Set<Seq<char>>) -> Seq<Option<Seq<char>>> {
    assigned_from(spec_assignments(node), node, values, s)
}

/// Whether some clocked process assigns a state signal.
pub open spec fn has_register(ps: Seq<Node>, s: Set<Seq<char>>) -> bool {
    exists|i: int|
        0 <= i < ps.len() && spec_is_clocked(#[trigger] ps[i]) && exists|k: int|
            0 <= k < spec_assignments(ps[i]).len() && s.contains(spec_path(#[trigger] spec_assignments(ps[i])[k].0).0)
}

/// Whether every assignment to the state can be read, and there is one.
pub open spec fn readable(vals: Seq<Option<Seq<char>>>) -> bool {
    vals.len() > 0 && forall|i: int| 0 <= i < vals.len() ==> (#[trigger] vals[i]) is Some
}

/// Where the first token of `ts` that reads `w` is.
pub open spec fn first_offset_of(ts: Seq<Token>, w: Seq<char>) -> Option<usize>
    decreases ts.len(),
{
    if ts.len() == 0 {
        None
    } else if lowered(ts[0].text@) == w {
        Some(ts[0].offset)
    } else {
        first_offset_of(ts.skip(1), w)
    }
}

/// `State 'value' of 'name' is never entered: nothing assigns it`.
pub open spec fn unentered_message(value: Seq<char>, name: Seq<char>) -> Seq<char> {
    "State '"@ + value + "' of '"@ + name + "' is never entered: nothing assigns it"@
}

/// `State 'here' of 'name' has no exit: its alternative never assigns another state`.
pub open spec fn no_exit_message(here: Seq<char>, name: Seq<char>) -> Seq<char> {
    "State '"@ + here + "' of '"@ + name + "' has no exit: its alternative never assigns another state"@
}

/// A finding of `rule` at `offset`.
pub open spec fn finding_at(rule: Seq<char>, offset: usize, message: Seq<char>, source: Seq<u8>, utf8: bool) -> SFinding {
    SFinding {
        rule,
        line: spec_line_col(source, utf8, offset as int).0,
        column: spec_line_col(source, utf8, offset as int).1,
        message,
        related: Seq::empty(),
    }
}

/// `lint_710` for the values `vs` of type `name`: each one nothing assigns, where it is first
/// written in the architecture.
pub open spec fn unentered(
    vs: Seq<Seq<char>>,
    name: Seq<char>,
    vals: Seq<Option<Seq<char>>>,
    arch: Node,
    source: Seq<u8>,
    utf8: bool,
) -> Seq<SFinding>
    decreases vs.len(),
{
    if vs.len() == 0 {
        Seq::empty()
    } else {
        let v = vs.last();
        unentered(vs.drop_last(), name, vals, arch, source, utf8) + if vals.contains(Some(v)) {
            Seq::empty()
        } else {
            match first_offset_of(spec_tokens(arch), v) {
                Some(o) => seq![finding_at("lint_710"@, o, unentered_message(v, name), source, utf8)],
                None => Seq::empty(),
            }
        }
    }
}

/// The name a case selects on, as the state rules read it: the first word of its preamble
/// that is neither `case` nor `is`, or nothing.
pub open spec fn case_selector(case: Node) -> Seq<char> {
    let preambles = spec_find(case, Kind::CaseStatementPreamble);
    if preambles.len() == 0 {
        Seq::empty()
    } else {
        let names = keep_words(token_words(spec_tokens(preambles[0])), seq!["case"@, "is"@]);
        if names.len() == 0 {
            Seq::empty()
        } else {
            names[0]
        }
    }
}

/// The values of the type among the words of `ws`, in order.
pub open spec fn listed_values(ws: Seq<Seq<char>>, values: Seq<Seq<char>>) -> Seq<Seq<char>>
    decreases ws.len(),
{
    if ws.len() == 0 {
        Seq::empty()
    } else {
        listed_values(ws.drop_last(), values) + if values.contains(ws.last()) {
            seq![ws.last()]
        } else {
            Seq::empty()
        }
    }
}

/// `lint_711` for one alternative: when it names one state, and never assigns another, at the
/// start of its choices.
pub open spec fn alternative_finding(
    alt: Node,
    name: Seq<char>,
    values: Seq<Seq<char>>,
    s: Set<Seq<char>>,
    source: Seq<u8>,
    utf8: bool,
) -> Seq<SFinding> {
    let preambles = spec_find(alt, Kind::CaseStatementAlternativePreamble);
    if preambles.len() == 0 {
        Seq::empty()
    } else {
        let p = preambles[0];
        let choices = listed_values(token_words(spec_tokens(p)), values);
        if choices.len() != 1 || has_text(spec_text_of(p), "others"@) {
            Seq::empty()
        } else {
            let here = choices[0];
            let vals = spec_assigned(alt, values, s);
            if exists|i: int| 0 <= i < vals.len() && #[trigger] vals[i] is Some && vals[i]->0 != here {
                Seq::empty()
            } else {
                let o: usize = if spec_tokens(p).len() > 0 {
                    spec_tokens(p)[0].offset
                } else {
                    0
                };
                seq![finding_at("lint_711"@, o, no_exit_message(here, name), source, utf8)]
            }
        }
    }
}

/// `lint_711` for the alternatives `alts`.
pub open spec fn alternatives_findings(
    alts: Seq<Node>,
    name: Seq<char>,
    values: Seq<Seq<char>>,
    s: Set<Seq<char>>,
    source: Seq<u8>,
    utf8: bool,
) -> Seq<SFinding>
    decreases alts.len(),
{
    if alts.len() == 0 {
        Seq::empty()
    } else {
        alternatives_findings(alts.drop_last(), name, values, s, source, utf8) + alternative_finding(
            alts.last(),
            name,
            values,
            s,
            source,
            utf8,
        )
    }
}

/// `lint_711` for the cases `cases`: those on the state that assign it.
pub open spec fn cases_findings(
    cases: Seq<Node>,
    name: Seq<char>,
    values: Seq<Seq<char>>,
    s: Set<Seq<char>>,
    source: Seq<u8>,
    utf8: bool,
) -> Seq<SFinding>
    decreases cases.len(),
{
    if cases.len() == 0 {
        Seq::empty()
    } else {
        let c = cases.last();
        cases_findings(cases.drop_last(), name, values, s, source, utf8) + if !s.contains(case_selector(c))
            || spec_assigned(c, values, s).len() == 0 {
            Seq::empty()
        } else {
            alternatives_findings(spec_find(c, Kind::CaseStatementAlternative), name, values, s, source, utf8)
        }
    }
}

/// What one state type reports.
pub open spec fn machine_findings(arch: Node, name: Seq<char>, values: Seq<Seq<char>>, source: Seq<u8>, utf8: bool) -> Seq<
    SFinding,
> {
    let s = state_signals(spec_find(arch, Kind::SignalDeclaration), name);
    let vals = spec_assigned(arch, values, s);
    if s == Set::<Seq<char>>::empty() || !has_register(spec_find(arch, Kind::ProcessStatement), s) || !readable(vals) {
        Seq::empty()
    } else {
        unentered(values, name, vals, arch, source, utf8) + cases_findings(
            spec_find(arch, Kind::CaseStatement),
            name,
            values,
            s,
            source,
            utf8,
        )
    }
}

/// What the state types `types` of an architecture report, in order.
pub open spec fn machines_findings(arch: Node, types: Seq<(Seq<char>, Seq<Seq<char>>)>, source: Seq<u8>, utf8: bool) -> Seq<
    SFinding,
>
    decreases types.len(),
{
    if types.len() == 0 {
        Seq::empty()
    } else {
        machines_findings(arch, types.drop_last(), source, utf8) + machine_findings(
            arch,
            types.last().0,
            types.last().1,
            source,
            utf8,
        )
    }
}

/// What the architectures `archs` report.
pub open spec fn architectures_machines(archs: Seq<Node>, source: Seq<u8>, utf8: bool) -> Seq<SFinding>
    decreases archs.len(),
{
    if archs.len() == 0 {
        Seq::empty()
    } else {
        architectures_machines(archs.drop_last(), source, utf8) + machines_findings(
            archs.last(),
            add_states(spec_find(archs.last(), Kind::FullTypeDeclaration)),
            source,
            utf8,
        )
    }
}

/// What `lint_710` and `lint_711` report of a file, sorted by line, column and rule.
pub open spec fn spec_check(root: Node, source: Seq<u8>) -> Seq<SFinding> {
    sort_findings(
        architectures_machines(spec_find(root, Kind::ArchitectureBody), source, vstd::utf8::valid_utf8(source)),
    )
}


// Executable code --------------------------------------------------------------------------------

use crate::analysis::choices::types_view;

/// Whether a word can be an enumeration value.
fn value_word(w: &str) -> (r: bool)
    ensures
        r == is_value_word(w@),
{
    let v = crate::chars::chars_of(w);
    if v.len() == 0 {
        return false;
    }
    let c = v[0];
    ('a' <= c && c <= 'z') || ('A' <= c && c <= 'Z') || c == '_'
}

/// The words of an enumeration type definition that can be values, in order.
fn values_in(enumeration: &Node) -> (r: Vec<String>)
    ensures
        strings_view(r@) == value_words(token_words(spec_tokens(*enumeration))),
{
    let ws = words_of(enumeration);
    let ghost wv = strings_view(ws@);
    let mut out: Vec<String> = Vec::new();
    let mut i: usize = 0;
    assert(wv.take(0) =~= Seq::<Seq<char>>::empty());
    assert(strings_view(out@) =~= Seq::<Seq<char>>::empty());
    while i < ws.len()
        invariant
            0 <= i <= ws@.len(),
            wv == strings_view(ws@),
            strings_view(out@) == value_words(wv.take(i as int)),
        decreases ws@.len() - i,
    {
        assert(wv.take(i + 1).drop_last() =~= wv.take(i as int));
        assert(wv.take(i + 1).last() == ws@[i as int]@);
        if value_word(ws[i].as_str()) {
            let ghost before = out@;
            out.push(ws[i].clone());
            assert(strings_view(out@) =~= strings_view(before).push(ws@[i as int]@));
        } else {
            assert(strings_view(out@) =~= strings_view(out@) + Seq::<Seq<char>>::empty());
        }
        i = i + 1;
    }
    assert(wv.take(i as int) =~= wv);
    out
}

/// Gives state type `name` the values `values`, keeping `m` in order of name.
fn put_state_into(m: &mut Vec<(String, Vec<String>)>, name: String, values: Vec<String>)
    ensures
        types_view(final(m)@) == put_state(types_view(old(m)@), name@, strings_view(values@)),
{
    let ghost whole = types_view(m@);
    let ghost v = strings_view(values@);
    let mut i: usize = 0;
    assert(whole.skip(0) =~= whole);
    assert(whole.take(0) + put_state(whole.skip(0), name@, v) =~= put_state(whole, name@, v));
    while i < m.len()
        invariant
            0 <= i <= m@.len(),
            types_view(m@) == whole,
            whole == types_view(old(m)@),
            v == strings_view(values@),
            put_state(whole, name@, v) == whole.take(i as int) + put_state(whole.skip(i as int), name@, v),
        decreases m@.len() - i,
    {
        assert(whole.skip(i as int)[0] == whole[i as int]);
        assert(whole[i as int].0 == m@[i as int].0@);
        if str_eq(m[i].0.as_str(), name.as_str()) {
            let ghost before = m@;
            m.set(i, (name, values));
            proof {
                assert(put_state(whole.skip(i as int), name@, v) == whole.skip(i as int).update(0, (name@, v)));
                assert(types_view(m@) =~= whole.update(i as int, (name@, v)));
                assert(whole.update(i as int, (name@, v)) =~= whole.take(i as int) + whole.skip(i as int).update(0, (name@, v)));
            }
            return;
        }
        if less_text(name.as_str(), m[i].0.as_str()) {
            let ghost before = m@;
            m.insert(i, (name, values));
            proof {
                assert(put_state(whole.skip(i as int), name@, v) == seq![(name@, v)] + whole.skip(i as int));
                assert(m@ == before.insert(i as int, (name, values)));
                assert(types_view(m@) =~= whole.take(i as int) + (seq![(name@, v)] + whole.skip(i as int)));
            }
            return;
        }
        proof {
            assert(whole.skip(i as int).skip(1) =~= whole.skip(i + 1));
            assert(whole.take(i + 1) =~= whole.take(i as int) + seq![whole[i as int]]);
        }
        i = i + 1;
    }
    let ghost before = m@;
    m.push((name, values));
    assert(whole.skip(i as int) =~= Seq::<(Seq<char>, Seq<Seq<char>>)>::empty());
    assert(whole.take(i as int) =~= whole);
    assert(types_view(m@) =~= whole + seq![(name@, v)]);
}

/// The enumeration types of three values or more an architecture declares, in order of name.
fn states(arch: &Node) -> (r: Vec<(String, Vec<String>)>)
    ensures
        types_view(r@) == add_states(spec_find(*arch, Kind::FullTypeDeclaration)),
{
    let decls = find(arch, Kind::FullTypeDeclaration);
    let ghost dv = nodes_of(decls@);
    let mut out: Vec<(String, Vec<String>)> = Vec::new();
    let mut i: usize = 0;
    assert(dv.take(0) =~= Seq::<Node>::empty());
    assert(types_view(out@) =~= Seq::<(Seq<char>, Seq<Seq<char>>)>::empty());
    proof {
        reveal_strlit("type");
    }
    while i < decls.len()
        invariant
            0 <= i <= decls@.len(),
            dv == nodes_of(decls@),
            dv == spec_find(*arch, Kind::FullTypeDeclaration),
            types_view(out@) == add_states(dv.take(i as int)),
        decreases decls@.len() - i,
    {
        let d = decls[i];
        assert(dv.take(i + 1).drop_last() =~= dv.take(i as int));
        assert(dv.take(i + 1).last() == *d);
        let enums = find(d, Kind::EnumerationTypeDefinition);
        let ws = words_of(d);
        let drop = vec!["type"];
        assert(drop@.map_values(|x: &str| x@) =~= seq!["type"@]);
        let names = keep(&ws, &drop);
        if enums.len() > 0 && names.len() > 0 {
            assert(nodes_of(enums@)[0] == *enums@[0]);
            let values = values_in(enums[0]);
            if values.len() >= 3 {
                assert(strings_view(names@)[0] == names@[0]@);
                put_state_into(&mut out, names[0].clone(), values);
            }
        }
        i = i + 1;
    }
    assert(dv.take(i as int) =~= dv);
    out
}

/// The type mark of a signal declaration, from what follows its `:` in `text[from..]`.
fn state_mark_of(text: &Vec<char>, from: usize) -> (r: String)
    requires
        from <= text@.len(),
    ensures
        r@ == state_mark(text@.skip(from as int)),
{
    let n = text.len();
    let mut end = n;
    assert(text@.subrange(from as int, n as int) =~= text@.skip(from as int));
    while end > from && text[end - 1] == ';'
        invariant
            from <= end <= n == text@.len(),
            trim_end_char(text@.skip(from as int), ';') == trim_end_char(text@.subrange(from as int, end as int), ';'),
        decreases end - from,
    {
        assert(text@.subrange(from as int, end as int).drop_last() =~= text@.subrange(from as int, end - 1));
        end = end - 1;
    }
    proof {
        let u = text@.subrange(from as int, end as int);
        if end > from {
            assert(u.last() == text@[end - 1]);
        } else {
            assert(u =~= Seq::<char>::empty());
        }
        assert(trim_end_char(u, ';') == u);
    }
    let mut k = from;
    assert(text@.subrange(from as int, from as int) =~= Seq::<char>::empty());
    assert(text@.subrange(from as int, end as int) =~= text@.subrange(from as int, from as int) + text@.subrange(from as int, end as int));
    while k < end && text[k] != ':' && text[k] != '('
        invariant
            from <= k <= end <= text@.len(),
            before_any(text@.subrange(from as int, end as int), ':', '(') == text@.subrange(from as int, k as int)
                + before_any(text@.subrange(k as int, end as int), ':', '('),
        decreases end - k,
    {
        assert(text@.subrange(k as int, end as int).skip(1) =~= text@.subrange(k + 1, end as int));
        assert(text@.subrange(from as int, k + 1) =~= text@.subrange(from as int, k as int) + seq![text@[k as int]]);
        k = k + 1;
    }
    proof {
        let t = text@.subrange(k as int, end as int);
        if k < end {
            assert(t[0] == text@[k as int]);
        } else {
            assert(t =~= Seq::<char>::empty());
        }
        assert(before_any(t, ':', '(') =~= Seq::<char>::empty());
        assert(text@.subrange(from as int, k as int) + Seq::<char>::empty() =~= text@.subrange(from as int, k as int));
    }
    let (f, g) = trim_range(text, from, k);
    string_of(text, f, g)
}

/// A signal's name from its piece of a declaration's name list.
fn signal_name_of(piece: &Vec<char>) -> (r: String)
    ensures
        r@ == signal_name(piece@),
{
    let n = piece.len();
    let (a, b) = trim_range(piece, 0, n);
    assert(piece@.subrange(0, n as int) =~= piece@);
    let c = skip_word(piece, a, b, "signal");
    let (f, g) = trim_range(piece, c, b);
    string_of(piece, f, g)
}

/// The signals `decls` declare with the type `mark`.
fn signals_of(decls: &Vec<&Node>, mark: &str) -> (r: Vec<String>)
    ensures
        crate::analysis::design::names(r@) == state_signals(nodes_of(decls@), mark@),
{
    let ghost dv = nodes_of(decls@);
    let mut out: Vec<String> = Vec::new();
    let mut i: usize = 0;
    while i < decls.len()
        invariant
            0 <= i <= decls@.len(),
            dv == nodes_of(decls@),
            crate::analysis::design::names(out@) == Set::new(
                |x: Seq<char>| exists|j: int| 0 <= j < i && declares(#[trigger] dv[j], mark@, x),
            ),
        decreases decls@.len() - i,
    {
        let d = decls[i];
        assert(dv[i as int] == *d);
        let ghost before = crate::analysis::design::names(out@);
        let text = text_of(d);
        let colon = vec![':'];
        assert(colon@ =~= ":"@) by {
            reveal_strlit(":");
        }
        match crate::chars::find_seq(&text, &colon) {
            None => {
                assert forall|x: Seq<char>| !declares(*d, mark@, x) by {}
            },
            Some(at) => {
                proof {
                    crate::analysis::width::lemma_found_occurs(text@, colon@, 0);
                    assert(colon@.len() == 1);
                }
                let len = text.len();
                assert(at + 1 <= len);
                let m = state_mark_of(&text, at + 1);
                if str_eq(m.as_str(), mark) {
                    let pieces = crate::analysis::elaborate::comma_pieces(&text, 0, at);
                    assert(text@.subrange(0, at as int) =~= text@.take(at as int));
                    let ghost pv = pieces@.map_values(|q: Vec<char>| q@);
                    let mut k: usize = 0;
                    while k < pieces.len()
                        invariant
                            0 <= k <= pieces@.len(),
                            pv == pieces@.map_values(|q: Vec<char>| q@),
                            pv == split_commas(text@.take(at as int)),
                            crate::analysis::design::names(out@) == before.union(Set::new(
                                |x: Seq<char>| x.len() > 0 && exists|q: int| 0 <= q < k && signal_name(#[trigger] pv[q]) == x,
                            )),
                        decreases pieces@.len() - k,
                    {
                        assert(pv[k as int] == pieces@[k as int]@);
                        let name = signal_name_of(&pieces[k]);
                        if name.as_str().unicode_len() > 0 {
                            crate::analysis::design::add_name(&mut out, name);
                        }
                        k = k + 1;
                        assert(crate::analysis::design::names(out@) =~= before.union(Set::new(
                            |x: Seq<char>| x.len() > 0 && exists|q: int| 0 <= q < k && signal_name(#[trigger] pv[q]) == x,
                        )));
                    }
                    assert forall|x: Seq<char>| declares(*d, mark@, x) == (x.len() > 0 && exists|q: int| 0 <= q < pv.len() && signal_name(#[trigger] pv[q]) == x) by {}
                } else {
                    assert forall|x: Seq<char>| !declares(*d, mark@, x) by {}
                }
            },
        }
        i = i + 1;
        assert(crate::analysis::design::names(out@) =~= Set::new(
            |x: Seq<char>| exists|j: int| 0 <= j < i && declares(#[trigger] dv[j], mark@, x),
        )) by {
            assert forall|x: Seq<char>| crate::analysis::design::names(out@).contains(x) implies exists|j: int| 0 <= j < i && declares(#[trigger] dv[j], mark@, x) by {
                if !before.contains(x) {
                    assert(declares(dv[i - 1], mark@, x));
                }
            }
        }
    }
    assert(crate::analysis::design::names(out@) =~= state_signals(dv, mark@));
    out
}


/// Optional words as plain values.
pub open spec fn opts_view(v: Seq<Option<String>>) -> Seq<Option<Seq<char>>> {
    v.map_values(|o: Option<String>| match o {
        Some(x) => Some(x@),
        None => None,
    })
}

/// Whether `values` holds `w`.
fn in_values(values: &Vec<String>, w: &str) -> (r: bool)
    ensures
        r == strings_view(values@).contains(w@),
{
    let ghost vv = strings_view(values@);
    let mut k: usize = 0;
    while k < values.len()
        invariant
            0 <= k <= values@.len(),
            vv == strings_view(values@),
            forall|q: int| 0 <= q < k ==> vv[q] != w@,
        decreases values@.len() - k,
    {
        assert(vv[k as int] == values@[k as int]@);
        if str_eq(values[k].as_str(), w) {
            return true;
        }
        k = k + 1;
    }
    false
}

/// The value an assignment at `offset` gives the state, read from the tokens `ts` and their
/// words `ws`.
fn value_after(
    node: &Node,
    ts: &Vec<&Token>,
    ws: &Vec<String>,
    offset: usize,
    values: &Vec<String>,
) -> (r: Option<String>)
    requires
        tokens_of(ts@) == spec_tokens(*node),
        strings_view(ws@) == token_words(spec_tokens(*node)),
    ensures
        match r {
            Some(v) => assigned_value(*node, offset, strings_view(values@)) == Some(v@),
            None => assigned_value(*node, offset, strings_view(values@)) is None,
        },
{
    let ghost tv = tokens_of(ts@);
    let ghost wv = strings_view(ws@);
    let n = ts.len();
    assert(wv.len() == tv.len());
    let mut j: usize = 0;
    assert(tv.skip(0) =~= tv);
    while j < n && ts[j].offset <= offset
        invariant
            0 <= j <= n,
            n == ts@.len(),
            tv == tokens_of(ts@),
            tokens_after(tv, offset) == tokens_after(tv.skip(j as int), offset),
        decreases n - j,
    {
        assert(tv.skip(j as int)[0] == *ts@[j as int]);
        assert(tv.skip(j as int).skip(1) =~= tv.skip(j + 1));
        j = j + 1;
    }
    proof {
        if j < n {
            assert(tv.skip(j as int)[0] == *ts@[j as int]);
        } else {
            assert(tv.skip(j as int) =~= Seq::<Token>::empty());
        }
        assert(token_words(tv.skip(j as int)) =~= wv.skip(j as int));
    }
    let mut a = j;
    proof {
        reveal_strlit("<=");
        reveal_strlit(":=");
        reveal_strlit(";");
    }
    while a < n && !str_eq(ws[a].as_str(), "<=") && !str_eq(ws[a].as_str(), ":=")
        invariant
            j <= a <= n,
            n == ws@.len(),
            wv == strings_view(ws@),
            from_arrow(wv.skip(j as int)) == from_arrow(wv.skip(a as int)),
        decreases n - a,
    {
        assert(wv.skip(a as int)[0] == ws@[a as int]@);
        assert(wv.skip(a as int).skip(1) =~= wv.skip(a + 1));
        a = a + 1;
    }
    proof {
        if a < n {
            assert(wv.skip(a as int)[0] == ws@[a as int]@);
        } else {
            assert(wv.skip(a as int) =~= Seq::<Seq<char>>::empty());
        }
    }
    let ghost after = wv.skip(a as int);
    assert(from_arrow(token_words(tokens_after(spec_tokens(*node), offset))) == after);
    if n - a > 1 {
        assert(after[1] == ws@[a + 1]@);
        let alone = n - a <= 2 || str_eq(ws[a + 2].as_str(), ";");
        if n - a > 2 {
            assert(after[2] == ws@[a + 2]@);
        }
        if alone && in_values(values, ws[a + 1].as_str()) {
            return Some(ws[a + 1].clone());
        }
    }
    None
}

/// The values assignments inside `node` give the state signals `s`.
fn assigned(node: &Node, values: &Vec<String>, s: &Vec<String>) -> (r: Vec<Option<String>>)
    ensures
        opts_view(r@) == spec_assigned(*node, strings_view(values@), crate::analysis::design::names(s@)),
{
    let targets = assignments(node);
    let ghost tv = named_views(targets@);
    let ts = all_tokens(node);
    let ws = words_of(node);
    let ghost sset = crate::analysis::design::names(s@);
    let ghost vv = strings_view(values@);
    let mut out: Vec<Option<String>> = Vec::new();
    let mut k: usize = 0;
    assert(tv.take(0) =~= Seq::<(Seq<char>, usize)>::empty());
    assert(opts_view(out@) =~= Seq::<Option<Seq<char>>>::empty());
    while k < targets.len()
        invariant
            0 <= k <= targets@.len(),
            tv == named_views(targets@),
            tv == spec_assignments(*node),
            tokens_of(ts@) == spec_tokens(*node),
            strings_view(ws@) == token_words(spec_tokens(*node)),
            sset == crate::analysis::design::names(s@),
            vv == strings_view(values@),
            opts_view(out@) == assigned_from(tv.take(k as int), *node, vv, sset),
        decreases targets@.len() - k,
    {
        assert(tv.take(k + 1).drop_last() =~= tv.take(k as int));
        assert(tv.take(k + 1).last() == (targets@[k as int].0@, targets@[k as int].1));
        let (base, _) = path(targets[k].0.as_str());
        if crate::analysis::design::has_name(s, base.as_str()) {
            let v = value_after(node, &ts, &ws, targets[k].1, values);
            let ghost before = out@;
            out.push(v);
            assert(opts_view(out@) =~= opts_view(before).push(assigned_value(*node, targets@[k as int].1, vv)));
        } else {
            assert(opts_view(out@) =~= opts_view(out@) + Seq::<Option<Seq<char>>>::empty());
        }
        k = k + 1;
    }
    assert(tv.take(k as int) =~= tv);
    out
}

/// Whether some clocked process assigns a state signal.
fn registered(ps: &Vec<&Node>, s: &Vec<String>) -> (r: bool)
    ensures
        r == has_register(nodes_of(ps@), crate::analysis::design::names(s@)),
{
    let ghost pv = nodes_of(ps@);
    let ghost sset = crate::analysis::design::names(s@);
    let mut i: usize = 0;
    while i < ps.len()
        invariant
            0 <= i <= ps@.len(),
            pv == nodes_of(ps@),
            sset == crate::analysis::design::names(s@),
            forall|j: int|
                0 <= j < i ==> !(spec_is_clocked(#[trigger] pv[j]) && exists|k: int|
                    0 <= k < spec_assignments(pv[j]).len() && sset.contains(spec_path(#[trigger] spec_assignments(pv[j])[k].0).0)),
        decreases ps@.len() - i,
    {
        let p = ps[i];
        assert(pv[i as int] == *p);
        if is_clocked(p) {
            let ts = assignments(p);
            let ghost tv = named_views(ts@);
            let mut k: usize = 0;
            while k < ts.len()
                invariant
                    0 <= k <= ts@.len(),
                    i < ps@.len(),
                    pv == nodes_of(ps@),
                    pv[i as int] == *p,
                    spec_is_clocked(*p),
                    tv == named_views(ts@),
                    tv == spec_assignments(*p),
                    sset == crate::analysis::design::names(s@),
                    forall|q: int| 0 <= q < k ==> !sset.contains(spec_path(#[trigger] tv[q].0).0),
                decreases ts@.len() - k,
            {
                assert(tv[k as int].0 == ts@[k as int].0@);
                let (base, _) = path(ts[k].0.as_str());
                if crate::analysis::design::has_name(s, base.as_str()) {
                    assert(spec_is_clocked(pv[i as int]) && sset.contains(spec_path(spec_assignments(pv[i as int])[k as int].0).0));
                    return true;
                }
                k = k + 1;
            }
        }
        i = i + 1;
    }
    false
}

/// Whether every value is readable, and there is one.
fn all_readable(vals: &Vec<Option<String>>) -> (r: bool)
    ensures
        r == readable(opts_view(vals@)),
{
    if vals.len() == 0 {
        return false;
    }
    let mut k: usize = 0;
    while k < vals.len()
        invariant
            0 <= k <= vals@.len(),
            forall|q: int| 0 <= q < k ==> (#[trigger] opts_view(vals@)[q]) is Some,
        decreases vals@.len() - k,
    {
        if vals[k].is_none() {
            assert(opts_view(vals@)[k as int] is None);
            return false;
        }
        k = k + 1;
    }
    true
}

/// Whether some value is `w`.
fn reaches(vals: &Vec<Option<String>>, w: &str) -> (r: bool)
    ensures
        r == opts_view(vals@).contains(Some(w@)),
{
    let ghost ov = opts_view(vals@);
    let mut k: usize = 0;
    while k < vals.len()
        invariant
            0 <= k <= vals@.len(),
            ov == opts_view(vals@),
            forall|q: int| 0 <= q < k ==> ov[q] != Some(w@),
        decreases vals@.len() - k,
    {
        match &vals[k] {
            Some(x) => {
                if str_eq(x.as_str(), w) {
                    assert(ov[k as int] == Some(w@));
                    return true;
                }
            },
            None => {},
        }
        k = k + 1;
    }
    false
}

/// Whether some value is readable and other than `w`.
fn leaves(vals: &Vec<Option<String>>, w: &str) -> (r: bool)
    ensures
        r == exists|i: int| 0 <= i < opts_view(vals@).len() && #[trigger] opts_view(vals@)[i] is Some && opts_view(vals@)[i]->0 != w@,
{
    let ghost ov = opts_view(vals@);
    let mut k: usize = 0;
    while k < vals.len()
        invariant
            0 <= k <= vals@.len(),
            ov == opts_view(vals@),
            forall|q: int| 0 <= q < k ==> !(#[trigger] ov[q] is Some && ov[q]->0 != w@),
        decreases vals@.len() - k,
    {
        match &vals[k] {
            Some(x) => {
                if !str_eq(x.as_str(), w) {
                    assert(ov[k as int] is Some && ov[k as int]->0 != w@);
                    return true;
                }
            },
            None => {},
        }
        k = k + 1;
    }
    false
}

/// Where the first token that reads `w` is.
fn first_offset(ts: &Vec<&Token>, ws: &Vec<String>, w: &str, Ghost(all): Ghost<Seq<Token>>) -> (r: Option<usize>)
    requires
        tokens_of(ts@) == all,
        strings_view(ws@) == token_words(all),
    ensures
        r == first_offset_of(all, w@),
{
    let ghost wv = strings_view(ws@);
    let mut k: usize = 0;
    assert(all.skip(0) =~= all);
    assert(wv.len() == all.len() && all.len() == ts@.len());
    while k < ts.len()
        invariant
            0 <= k <= ts@.len(),
            ws@.len() == ts@.len(),
            tokens_of(ts@) == all,
            wv == strings_view(ws@),
            wv == token_words(all),
            first_offset_of(all, w@) == first_offset_of(all.skip(k as int), w@),
        decreases ts@.len() - k,
    {
        assert(all.skip(k as int)[0] == *ts@[k as int]);
        assert(wv[k as int] == ws@[k as int]@);
        if str_eq(ws[k].as_str(), w) {
            return Some(ts[k].offset);
        }
        assert(all.skip(k as int).skip(1) =~= all.skip(k + 1));
        k = k + 1;
    }
    assert(all.skip(k as int) =~= Seq::<Token>::empty());
    None
}

/// `State 'value' of 'name' ...`.
fn state_message(value: &str, name: &str, tail: &str) -> (r: String)
    ensures
        r@ == "State '"@ + value@ + "' of '"@ + name@ + tail@,
{
    let mut m = String::from_str("State '");
    m.append(value);
    m.append("' of '");
    m.append(name);
    m.append(tail);
    proof {
        reveal_strlit("State '");
        reveal_strlit("' of '");
    }
    m
}

/// A finding with no related places.
fn finding_of(rule: &'static str, offset: usize, message: String, source: &[u8], utf8: bool, file: &PathBuf) -> (r: Finding)
    requires
        4 * source@.len() < usize::MAX,
    ensures
        finding_view(r) == finding_at(rule@, offset, message@, source@, utf8),
{
    let (line, column) = line_col(source, utf8, offset);
    let f = Finding { file: file.clone(), rule, line, column, message, related: Vec::new() };
    assert(f.related@.map_values(|r: crate::analysis::lint::Related| crate::analysis::lint::related_view(r)) =~= Seq::<(int, int, Seq<char>)>::empty());
    f
}


/// Appends `lint_710` for the values of type `name`.
fn unentered_into(
    arch: &Node,
    name: &str,
    values: &Vec<String>,
    vals: &Vec<Option<String>>,
    source: &[u8],
    utf8: bool,
    file: &PathBuf,
    raw: &mut Vec<Finding>,
)
    requires
        4 * source@.len() < usize::MAX,
    ensures
        finding_views(final(raw)@) == finding_views(old(raw)@) + unentered(
            strings_view(values@),
            name@,
            opts_view(vals@),
            *arch,
            source@,
            utf8,
        ),
{
    let ts = all_tokens(arch);
    let ws = words_of(arch);
    let ghost vv = strings_view(values@);
    let ghost start = finding_views(raw@);
    let mut k: usize = 0;
    assert(vv.take(0) =~= Seq::<Seq<char>>::empty());
    assert(finding_views(raw@) =~= start + Seq::<SFinding>::empty());
    while k < values.len()
        invariant
            0 <= k <= values@.len(),
            4 * source@.len() < usize::MAX,
            vv == strings_view(values@),
            tokens_of(ts@) == spec_tokens(*arch),
            strings_view(ws@) == token_words(spec_tokens(*arch)),
            finding_views(raw@) == start + unentered(vv.take(k as int), name@, opts_view(vals@), *arch, source@, utf8),
        decreases values@.len() - k,
    {
        assert(vv.take(k + 1).drop_last() =~= vv.take(k as int));
        assert(vv.take(k + 1).last() == values@[k as int]@);
        let v = values[k].as_str();
        let ghost before = finding_views(raw@);
        if !reaches(vals, v) {
            if let Some(o) = first_offset(&ts, &ws, v, Ghost(spec_tokens(*arch))) {
                let message = state_message(v, name, "' is never entered: nothing assigns it");
                proof {
                    reveal_strlit("' is never entered: nothing assigns it");
                    reveal_strlit("lint_710");
                    assert(message@ =~= unentered_message(v@, name@));
                }
                let f = finding_of("lint_710", o, message, source, utf8, file);
                raw.push(f);
                assert(finding_views(raw@) =~= before.push(finding_view(f)));
            } else {
                assert(finding_views(raw@) =~= before + Seq::<SFinding>::empty());
            }
        } else {
            assert(finding_views(raw@) =~= before + Seq::<SFinding>::empty());
        }
        k = k + 1;
    }
    assert(vv.take(k as int) =~= vv);
}

/// Appends `lint_711` for one alternative.
fn alternative_into(
    alt: &Node,
    name: &str,
    values: &Vec<String>,
    s: &Vec<String>,
    source: &[u8],
    utf8: bool,
    file: &PathBuf,
    raw: &mut Vec<Finding>,
)
    requires
        4 * source@.len() < usize::MAX,
    ensures
        finding_views(final(raw)@) == finding_views(old(raw)@) + alternative_finding(
            *alt,
            name@,
            strings_view(values@),
            crate::analysis::design::names(s@),
            source@,
            utf8,
        ),
{
    let ghost before = finding_views(raw@);
    let ghost vv = strings_view(values@);
    let preambles = find(alt, Kind::CaseStatementAlternativePreamble);
    if preambles.len() == 0 {
        assert(finding_views(raw@) =~= before + Seq::<SFinding>::empty());
        return;
    }
    assert(nodes_of(preambles@)[0] == *preambles@[0]);
    let p = preambles[0];
    let ws = words_of(p);
    let ghost wv = strings_view(ws@);
    let mut choices: Vec<String> = Vec::new();
    let mut k: usize = 0;
    assert(wv.take(0) =~= Seq::<Seq<char>>::empty());
    assert(strings_view(choices@) =~= Seq::<Seq<char>>::empty());
    while k < ws.len()
        invariant
            0 <= k <= ws@.len(),
            wv == strings_view(ws@),
            vv == strings_view(values@),
            strings_view(choices@) == listed_values(wv.take(k as int), vv),
        decreases ws@.len() - k,
    {
        assert(wv.take(k + 1).drop_last() =~= wv.take(k as int));
        assert(wv.take(k + 1).last() == ws@[k as int]@);
        if in_values(values, ws[k].as_str()) {
            let ghost b = choices@;
            choices.push(ws[k].clone());
            assert(strings_view(choices@) =~= strings_view(b).push(ws@[k as int]@));
        } else {
            assert(strings_view(choices@) =~= strings_view(choices@) + Seq::<Seq<char>>::empty());
        }
        k = k + 1;
    }
    assert(wv.take(k as int) =~= wv);
    let text = text_of(p);
    proof {
        reveal_strlit("others");
    }
    if choices.len() != 1 || contains_text(&text, "others") {
        assert(finding_views(raw@) =~= before + Seq::<SFinding>::empty());
        return;
    }
    assert(strings_view(choices@)[0] == choices@[0]@);
    let here = choices[0].as_str();
    let vals = assigned(alt, values, s);
    if leaves(&vals, here) {
        assert(finding_views(raw@) =~= before + Seq::<SFinding>::empty());
        return;
    }
    let ts = all_tokens(p);
    let o: usize = if ts.len() > 0 {
        assert(tokens_of(ts@)[0] == *ts@[0]);
        ts[0].offset
    } else {
        0
    };
    let message = state_message(here, name, "' has no exit: its alternative never assigns another state");
    proof {
        reveal_strlit("' has no exit: its alternative never assigns another state");
        reveal_strlit("lint_711");
        assert(message@ =~= no_exit_message(here@, name@));
    }
    let f = finding_of("lint_711", o, message, source, utf8, file);
    raw.push(f);
    assert(finding_views(raw@) =~= before.push(finding_view(f)));
}

/// Appends `lint_711` for the cases of an architecture.
fn cases_into(
    arch: &Node,
    name: &str,
    values: &Vec<String>,
    s: &Vec<String>,
    source: &[u8],
    utf8: bool,
    file: &PathBuf,
    raw: &mut Vec<Finding>,
)
    requires
        4 * source@.len() < usize::MAX,
    ensures
        finding_views(final(raw)@) == finding_views(old(raw)@) + cases_findings(
            spec_find(*arch, Kind::CaseStatement),
            name@,
            strings_view(values@),
            crate::analysis::design::names(s@),
            source@,
            utf8,
        ),
{
    let cases = find(arch, Kind::CaseStatement);
    let ghost cv = nodes_of(cases@);
    let ghost vv = strings_view(values@);
    let ghost sset = crate::analysis::design::names(s@);
    let ghost start = finding_views(raw@);
    let mut i: usize = 0;
    assert(cv.take(0) =~= Seq::<Node>::empty());
    assert(finding_views(raw@) =~= start + Seq::<SFinding>::empty());
    proof {
        reveal_strlit("case");
        reveal_strlit("is");
    }
    while i < cases.len()
        invariant
            0 <= i <= cases@.len(),
            4 * source@.len() < usize::MAX,
            cv == nodes_of(cases@),
            vv == strings_view(values@),
            sset == crate::analysis::design::names(s@),
            finding_views(raw@) == start + cases_findings(cv.take(i as int), name@, vv, sset, source@, utf8),
        decreases cases@.len() - i,
    {
        let c = cases[i];
        assert(cv.take(i + 1).drop_last() =~= cv.take(i as int));
        assert(cv.take(i + 1).last() == *c);
        let ghost before = finding_views(raw@);
        let preambles = find(c, Kind::CaseStatementPreamble);
        let selector = if preambles.len() == 0 {
            String::new()
        } else {
            assert(nodes_of(preambles@)[0] == *preambles@[0]);
            let ws = words_of(preambles[0]);
            let drop = vec!["case", "is"];
            assert(drop@.map_values(|x: &str| x@) =~= seq!["case"@, "is"@]);
            let names = keep(&ws, &drop);
            if names.len() == 0 {
                String::new()
            } else {
                assert(strings_view(names@)[0] == names@[0]@);
                names[0].clone()
            }
        };
        assert(selector@ == case_selector(*c));
        if crate::analysis::design::has_name(s, selector.as_str()) {
            let vals = assigned(c, values, s);
            if vals.len() > 0 {
                let alts = find(c, Kind::CaseStatementAlternative);
                let ghost av = nodes_of(alts@);
                let mut q: usize = 0;
                assert(av.take(0) =~= Seq::<Node>::empty());
                assert(finding_views(raw@) =~= before + Seq::<SFinding>::empty());
                while q < alts.len()
                    invariant
                        0 <= q <= alts@.len(),
                        4 * source@.len() < usize::MAX,
                        av == nodes_of(alts@),
                        vv == strings_view(values@),
                        sset == crate::analysis::design::names(s@),
                        finding_views(raw@) == before + alternatives_findings(av.take(q as int), name@, vv, sset, source@, utf8),
                    decreases alts@.len() - q,
                {
                    assert(av.take(q + 1).drop_last() =~= av.take(q as int));
                    assert(av.take(q + 1).last() == *alts@[q as int]);
                    alternative_into(alts[q], name, values, s, source, utf8, file, raw);
                    q = q + 1;
                    assert(finding_views(raw@) =~= before + alternatives_findings(av.take(q as int), name@, vv, sset, source@, utf8));
                }
                assert(av.take(q as int) =~= av);
            } else {
                assert(finding_views(raw@) =~= before + Seq::<SFinding>::empty());
            }
        } else {
            assert(finding_views(raw@) =~= before + Seq::<SFinding>::empty());
        }
        i = i + 1;
        assert(finding_views(raw@) =~= start + cases_findings(cv.take(i as int), name@, vv, sset, source@, utf8));
    }
    assert(cv.take(i as int) =~= cv);
}

/// Appends what one state type reports.
fn machine_into(
    arch: &Node,
    name: &str,
    values: &Vec<String>,
    source: &[u8],
    utf8: bool,
    file: &PathBuf,
    raw: &mut Vec<Finding>,
)
    requires
        4 * source@.len() < usize::MAX,
    ensures
        finding_views(final(raw)@) == finding_views(old(raw)@) + machine_findings(
            *arch,
            name@,
            strings_view(values@),
            source@,
            utf8,
        ),
{
    let ghost before = finding_views(raw@);
    let decls = find(arch, Kind::SignalDeclaration);
    let s = signals_of(&decls, name);
    let ghost sset = crate::analysis::design::names(s@);
    if s.len() == 0 {
        assert(sset =~= Set::<Seq<char>>::empty());
        assert(finding_views(raw@) =~= before + Seq::<SFinding>::empty());
        return;
    }
    assert(sset.contains(s@[0]@));
    assert(sset != Set::<Seq<char>>::empty()) by {
        assert(!Set::<Seq<char>>::empty().contains(s@[0]@));
    }
    let processes = find(arch, Kind::ProcessStatement);
    if !registered(&processes, &s) {
        assert(finding_views(raw@) =~= before + Seq::<SFinding>::empty());
        return;
    }
    let vals = assigned(arch, values, &s);
    if !all_readable(&vals) {
        assert(finding_views(raw@) =~= before + Seq::<SFinding>::empty());
        return;
    }
    unentered_into(arch, name, values, &vals, source, utf8, file, raw);
    cases_into(arch, name, values, &s, source, utf8, file, raw);
}

/// `lint_710` and `lint_711`: a state of an enumerated state machine that nothing enters, and
/// one whose alternative never leaves it. Only machines whose every assignment can be read are
/// judged. Sorted by line, column and rule.
pub fn check(root: &Node, source: &[u8], file: &PathBuf) -> (r: Vec<Finding>)
    requires
        4 * source@.len() < usize::MAX,
    ensures
        finding_views(r@) == spec_check(*root, source@),
{
    let utf8 = crate::reflow::is_utf8(source);
    let archs = find(root, Kind::ArchitectureBody);
    let ghost av = nodes_of(archs@);
    let mut raw: Vec<Finding> = Vec::new();
    let mut i: usize = 0;
    assert(av.take(0) =~= Seq::<Node>::empty());
    assert(finding_views(raw@) =~= Seq::<SFinding>::empty());
    while i < archs.len()
        invariant
            0 <= i <= archs@.len(),
            4 * source@.len() < usize::MAX,
            av == nodes_of(archs@),
            finding_views(raw@) == architectures_machines(av.take(i as int), source@, utf8),
        decreases archs@.len() - i,
    {
        let arch = archs[i];
        assert(av.take(i + 1).drop_last() =~= av.take(i as int));
        assert(av.take(i + 1).last() == *arch);
        let ghost before = finding_views(raw@);
        let types = states(arch);
        let ghost tv = types_view(types@);
        let mut k: usize = 0;
        assert(tv.take(0) =~= Seq::<(Seq<char>, Seq<Seq<char>>)>::empty());
        assert(finding_views(raw@) =~= before + Seq::<SFinding>::empty());
        while k < types.len()
            invariant
                0 <= k <= types@.len(),
                4 * source@.len() < usize::MAX,
                tv == types_view(types@),
                finding_views(raw@) == before + machines_findings(*arch, tv.take(k as int), source@, utf8),
            decreases types@.len() - k,
        {
            assert(tv.take(k + 1).drop_last() =~= tv.take(k as int));
            assert(tv.take(k + 1).last() == (types@[k as int].0@, strings_view(types@[k as int].1@)));
            machine_into(arch, types[k].0.as_str(), &types[k].1, source, utf8, file, &mut raw);
            k = k + 1;
            assert(finding_views(raw@) =~= before + machines_findings(*arch, tv.take(k as int), source@, utf8));
        }
        assert(tv.take(k as int) =~= tv);
        i = i + 1;
    }
    assert(av.take(i as int) =~= av);
    let ghost rv = finding_views(raw@);
    let total = raw.len();
    let mut sorted: Vec<Finding> = Vec::new();
    let mut k: usize = 0;
    assert(rv.take(0) =~= Seq::<SFinding>::empty());
    assert(finding_views(sorted@) =~= sort_findings(rv.take(0)));
    while raw.len() > 0
        invariant
            k + raw@.len() == rv.len(),
            rv.len() == total,
            finding_views(raw@) == rv.skip(k as int),
            finding_views(sorted@) == sort_findings(rv.take(k as int)),
        decreases raw@.len(),
    {
        let ghost rest = raw@;
        let f = raw.remove(0);
        assert(finding_view(f) == rv[k as int]) by {
            assert(finding_views(rest)[0] == finding_view(rest[0]));
        }
        assert(finding_views(raw@) =~= rv.skip(k + 1)) by {
            assert(raw@ =~= rest.subrange(1, rest.len() as int));
            assert(finding_views(raw@) =~= finding_views(rest).skip(1));
            assert(rv.skip(k + 1) =~= rv.skip(k as int).skip(1));
        }
        put_finding(&mut sorted, f);
        assert(rv.take(k + 1).drop_last() =~= rv.take(k as int));
        k = k + 1;
    }
    assert(rv.take(k as int) =~= rv);
    sorted
}

} // verus!



