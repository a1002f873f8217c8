//! `when others` on a case that has already named every value.
//!
//! A case statement over an enumeration must be exhaustive, and a front end reports it when it
//! is not. What VHDL does not say is anything about an `others` alternative that follows a
//! complete list of choices: it is legal, it compiles, and it can never be taken. Add a value to
//! the enumeration and the case is exhaustive again for the wrong reason: the new value falls
//! into `others`. Without the `others` the same edit is a compile error naming the choice that
//! is missing.
//!
//! `lint_712` reports only where the branch is provably dead: the selector is a plain name of an
//! object declared with an enumeration the architecture declares, every value of that
//! enumeration is a plain identifier, and every choice in every other alternative is one of
//! those values. `lint_713` takes the `others` alternatives that do hide values. Anything this
//! module cannot read disqualifies the whole case rather than being guessed at.
use vstd::prelude::*;

use crate::analysis::design::{
    add_names, first_offset, has_name, has_text, less_text, names, put_finding, sort_findings,
    split_commas,
    starts_with_text, strings_view, text_starts_with,
};
use crate::analysis::elaborate::{declared_name, joined, name_after};
use crate::analysis::lint::{finding_view, finding_views, related_view, Finding, Related, SFinding};
use crate::analysis::syntax::{
    all_tokens, find, nodes_of, spec_find, spec_text_of, spec_tokens, text_of, tokens_of, Kind,
    Node, Token,
};
use crate::bytes::str_eq;
use crate::chars::{chars_of, lowered, string_of, trim_range, trimmed};
use crate::config::{entry_of, with_entry};
use crate::text::{line_col, spec_line_col};
use std::path::PathBuf;
use vstd::string::StringExecFns;

verus! {

/// The tokens' texts, in lower case.
pub open spec fn token_words(ts: Seq<Token>) -> Seq<Seq<char>> {
    ts.map_values(|t: Token| lowered(t.text@))
}

/// Those of `ws` that are none of `drop`, in order.
pub open spec fn keep_words(ws: Seq<Seq<char>>, drop: Seq<Seq<char>>) -> Seq<Seq<char>>
    decreases ws.len(),
{
    if ws.len() == 0 {
        Seq::empty()
    } else {
        keep_words(ws.drop_last(), drop) + if drop.contains(ws.last()) {
            Seq::empty()
        } else {
            seq![ws.last()]
        }
    }
}

/// `s` without every leading `c`.
pub open spec fn trim_start_char(s: Seq<char>, c: char) -> Seq<char>
    decreases s.len(),
{
    if s.len() > 0 && s[0] == c {
        trim_start_char(s.skip(1), c)
    } else {
        s
    }
}

/// `s` without every trailing `c`.
pub open spec fn trim_end_char(s: Seq<char>, c: char) -> Seq<char>
    decreases s.len(),
{
    if s.len() > 0 && s.last() == c {
        trim_end_char(s.drop_last(), c)
    } else {
        s
    }
}

/// An ASCII letter.
pub open spec fn ascii_letter(c: char) -> bool {
    ('a' <= c <= 'z') || ('A' <= c <= 'Z')
}

/// Whether `v` is a plain identifier: an ASCII letter, then letters, digits and `_`.
pub open spec fn plain_value(v: Seq<char>) -> bool {
    &&& v.len() > 0
    &&& ascii_letter(v[0])
    &&& forall|k: int|
        0 <= k < v.len() ==> ascii_letter(#[trigger] v[k]) || ('0' <= v[k] <= '9') || v[k] == '_'
}

/// Each of `pieces`, trimmed and in lower case, if every one is a plain identifier.
pub open spec fn plain_values(pieces: Seq<Seq<char>>) -> Option<Seq<Seq<char>>>
    decreases pieces.len(),
{
    if pieces.len() == 0 {
        Some(Seq::empty())
    } else {
        match plain_values(pieces.drop_last()) {
            None => None,
            Some(vs) => {
                let v = lowered(trimmed(pieces.last()));
                if plain_value(v) {
                    Some(vs.push(v))
                } else {
                    None
                }
            },
        }
    }
}

/// The values of an enumeration type definition, in declaration order, or `None` if any of
/// them is not a plain identifier (a character literal is readable VHDL but not readable
/// here, and a partial value set would make the exhaustiveness test a guess).
pub open spec fn spec_values_of(enumeration: Node) -> Option<Seq<Seq<char>>> {
    match plain_values(
        split_commas(trim_end_char(trim_start_char(trimmed(spec_text_of(enumeration)), '('), ')')),
    ) {
        Some(vs) => if vs.len() > 0 {
            Some(vs)
        } else {
            None
        },
        None => None,
    }
}

/// `types` with the enumeration types `declarations` declare, by name.
pub open spec fn add_types(types: Seq<(Seq<char>, Seq<Seq<char>>)>, declarations: Seq<Node>) -> Seq<
    (Seq<char>, Seq<Seq<char>>),
>
    decreases declarations.len(),
{
    if declarations.len() == 0 {
        types
    } else {
        let before = add_types(types, declarations.drop_last());
        let d = declarations.last();
        let enumerations = spec_find(d, Kind::EnumerationTypeDefinition);
        if enumerations.len() == 0 {
            before
        } else {
            match declared_name(spec_tokens(d), "type"@, "type"@) {
                None => before,
                Some(name) => match spec_values_of(enumerations[0]) {
                    None => before,
                    Some(vs) => with_entry(before, name, vs),
                },
            }
        }
    }
}

/// `s` without every leading `w`.
pub open spec fn trim_start_word(s: Seq<char>, w: Seq<char>) -> Seq<char>
    decreases s.len(),
{
    if w.len() > 0 && starts_with_text(s, w) {
        trim_start_word(s.skip(w.len() as int), w)
    } else {
        s
    }
}

/// An object's name from its piece of a declaration's name list: trimmed, without the class
/// keyword, in lower case.
pub open spec fn object_name(piece: Seq<char>) -> Seq<char> {
    lowered(
        trimmed(
            trim_start_word(
                trim_start_word(trim_start_word(trimmed(piece), "signal"@), "variable"@),
                "constant"@,
            ),
        ),
    )
}

/// `s` up to its first `a` or `b`.
pub open spec fn before_any(s: Seq<char>, a: char, b: char) -> Seq<char>
    decreases s.len(),
{
    if s.len() == 0 {
        s
    } else if s[0] == a || s[0] == b {
        Seq::empty()
    } else {
        seq![s[0]] + before_any(s.skip(1), a, b)
    }
}

/// The type mark of a declaration, from what follows its `:`: what precedes a default or a
/// constraint.
pub open spec fn type_mark(rest: Seq<char>) -> Seq<char> {
    lowered(trimmed(before_any(trim_end_char(rest, ';'), ':', '(')))
}

/// `objects` with `name` declared with the type `mark`: two declarations of one name with
/// different types leave the name ambiguous (`None`) rather than let the last one win.
pub open spec fn object_entry(
    objects: Seq<(Seq<char>, Option<Seq<char>>)>,
    name: Seq<char>,
    mark: Seq<char>,
) -> Seq<(Seq<char>, Option<Seq<char>>)> {
    match entry_of(objects, name) {
        None => with_entry(objects, name, Some(mark)),
        Some(slot) => if slot != Some(mark) {
            with_entry(objects, name, None)
        } else {
            objects
        },
    }
}

/// `objects` with the names among `pieces` declared with the type `mark`.
pub open spec fn add_objects_named(
    objects: Seq<(Seq<char>, Option<Seq<char>>)>,
    pieces: Seq<Seq<char>>,
    mark: Seq<char>,
) -> Seq<(Seq<char>, Option<Seq<char>>)>
    decreases pieces.len(),
{
    if pieces.len() == 0 {
        objects
    } else {
        let before = add_objects_named(objects, pieces.drop_last(), mark);
        let name = object_name(pieces.last());
        if name.len() == 0 {
            before
        } else {
            object_entry(before, name, mark)
        }
    }
}

/// `objects` with the objects `declarations` declare with one of `types`.
pub open spec fn add_objects(
    objects: Seq<(Seq<char>, Option<Seq<char>>)>,
    declarations: Seq<Node>,
    types: Seq<(Seq<char>, Seq<Seq<char>>)>,
) -> Seq<(Seq<char>, Option<Seq<char>>)>
    decreases declarations.len(),
{
    if declarations.len() == 0 {
        objects
    } else {
        let before = add_objects(objects, declarations.drop_last(), types);
        let text = spec_text_of(declarations.last());
        match crate::chars::find_from(text, ":"@, 0) {
            None => before,
            Some(at) => {
                let mark = type_mark(text.skip(at + 1));
                if entry_of(types, mark) is None {
                    before
                } else {
                    add_objects_named(before, split_commas(text.take(at)), mark)
                }
            },
        }
    }
}

/// Every enumeration an architecture declares, by type name, and the signals, variables and
/// constants declared with one, by name (`None` for a name declared with two types).
pub open spec fn spec_enumerations(architecture: Node) -> (
    Seq<(Seq<char>, Seq<Seq<char>>)>,
    Seq<(Seq<char>, Option<Seq<char>>)>,
) {
    let types = add_types(Seq::empty(), spec_find(architecture, Kind::FullTypeDeclaration));
    let objects = add_objects(
        add_objects(
            add_objects(Seq::empty(), spec_find(architecture, Kind::SignalDeclaration), types),
            spec_find(architecture, Kind::VariableDeclaration),
            types,
        ),
        spec_find(architecture, Kind::ConstantDeclaration),
        types,
    );
    (types, objects)
}

/// The name a case selects on, if it is a plain name and nothing else: `case state is` gives
/// `state`; `case to_integer(count) is` gives `None`.
pub open spec fn spec_selector_of(case: Node) -> Option<Seq<char>> {
    let preambles = spec_find(case, Kind::CaseStatementPreamble);
    if preambles.len() == 0 {
        None
    } else {
        let names = keep_words(token_words(spec_tokens(preambles[0])), seq!["case"@, "is"@]);
        if names.len() == 1 {
            Some(names[0])
        } else {
            None
        }
    }
}

/// The values of the enumeration a case selects on, if that can be read.
pub open spec fn case_values(
    case: Node,
    types: Seq<(Seq<char>, Seq<Seq<char>>)>,
    objects: Seq<(Seq<char>, Option<Seq<char>>)>,
) -> Option<Seq<Seq<char>>> {
    match spec_selector_of(case) {
        None => None,
        Some(selector) => match entry_of(objects, selector) {
            Some(Some(mark)) => entry_of(types, mark),
            _ => None,
        },
    }
}

/// The choices of an alternative's preamble.
pub open spec fn choices_of(preamble: Node) -> Seq<Seq<char>> {
    keep_words(token_words(spec_tokens(preamble)), seq!["when"@, "=>"@, "|"@])
}

/// Reading `alternatives` in order: the values named so far (`listed`), where the last
/// `when others` starts (`others`), and whether every alternative could be read; an
/// alternative naming something that is not one of `values` stops the reading.
pub open spec fn scan_alternatives(
    alternatives: Seq<Node>,
    values: Seq<Seq<char>>,
    listed: Set<Seq<char>>,
    others: Option<usize>,
) -> (Set<Seq<char>>, Option<usize>, bool)
    decreases alternatives.len(),
{
    if alternatives.len() == 0 {
        (listed, others, true)
    } else {
        let preambles = spec_find(alternatives[0], Kind::CaseStatementAlternativePreamble);
        if preambles.len() == 0 {
            scan_alternatives(alternatives.skip(1), values, listed, others)
        } else {
            let choices = choices_of(preambles[0]);
            if choices.contains("others"@) {
                scan_alternatives(alternatives.skip(1), values, listed, Some(first_offset(preambles[0])))
            } else if choices.len() == 0 || !(forall|k: int|
                0 <= k < choices.len() ==> values.contains(#[trigger] choices[k])) {
                (listed, others, false)
            } else {
                scan_alternatives(alternatives.skip(1), values, listed.union(choices.to_set()), others)
            }
        }
    }
}

/// Those of `values` not in `listed`, in order.
pub open spec fn hidden_values(values: Seq<Seq<char>>, listed: Set<Seq<char>>) -> Seq<Seq<char>>
    decreases values.len(),
{
    if values.len() == 0 {
        Seq::empty()
    } else {
        hidden_values(values.drop_last(), listed) + if listed.contains(values.last()) {
            Seq::empty()
        } else {
            seq![values.last()]
        }
    }
}

/// What `lint_712` says of a `when others` no value reaches.
pub open spec fn dead_others_message(n: nat, selector: Seq<char>) -> Seq<char> {
    "'when others' can never be taken: the other alternatives already name all "@
        + crate::layout::decimal(n) + " values of '"@ + selector
        + "'. Removing it makes adding a value a compile error instead of a silent fall-through."@
}

/// What `lint_713` says of a `when others` that hides values.
pub open spec fn hiding_others_message(hidden: Seq<Seq<char>>, selector: Seq<char>) -> Seq<char> {
    "'when others' covers "@ + crate::layout::decimal(hidden.len()) + " of the values of '"@
        + selector + "' ("@ + joined(hidden, ", "@)
        + "). Naming each one makes adding a value a compile error rather than a silent fall-through."@
}

/// What is reported of one case statement: its `when others`, if every alternative can be
/// read; `lint_712` when the other alternatives name every value, `lint_713` when it hides
/// some. The two partition the `others` alternatives between them.
pub open spec fn case_finding(
    case: Node,
    types: Seq<(Seq<char>, Seq<Seq<char>>)>,
    objects: Seq<(Seq<char>, Option<Seq<char>>)>,
    source: Seq<u8>,
    utf8: bool,
) -> Option<SFinding> {
    match case_values(case, types, objects) {
        None => None,
        Some(values) => {
            let (listed, others, readable) = scan_alternatives(
                spec_find(case, Kind::CaseStatementAlternative),
                values,
                Set::empty(),
                None,
            );
            match others {
                Some(offset) => if readable {
                    let selector = match spec_selector_of(case) {
                        Some(s) => s,
                        None => Seq::empty(),
                    };
                    let hidden = hidden_values(values, listed);
                    let (line, column) = spec_line_col(source, utf8, offset as int);
                    Some(
                        if hidden.len() == 0 {
                            SFinding {
                                rule: "lint_712"@,
                                line,
                                column,
                                message: dead_others_message(values.len(), selector),
                                related: Seq::empty(),
                            }
                        } else {
                            SFinding {
                                rule: "lint_713"@,
                                line,
                                column,
                                message: hiding_others_message(hidden, selector),
                                related: Seq::empty(),
                            }
                        },
                    )
                } else {
                    None
                },
                None => None,
            }
        },
    }
}

/// What is reported of `cases`, in order.
pub open spec fn cases_findings(
    cases: Seq<Node>,
    types: Seq<(Seq<char>, Seq<Seq<char>>)>,
    objects: Seq<(Seq<char>, Option<Seq<char>>)>,
    source: Seq<u8>,
    utf8: bool,
) -> Seq<SFinding>
    decreases cases.len(),
{
    if cases.len() == 0 {
        Seq::empty()
    } else {
        cases_findings(cases.drop_last(), types, objects, source, utf8) + match case_finding(
            cases.last(),
            types,
            objects,
            source,
            utf8,
        ) {
            Some(f) => seq![f],
            None => Seq::empty(),
        }
    }
}

/// What is reported of one architecture.
pub open spec fn architecture_choices(architecture: Node, source: Seq<u8>, utf8: bool) -> Seq<SFinding> {
    let (types, objects) = spec_enumerations(architecture);
    if types.len() == 0 || objects.len() == 0 {
        Seq::empty()
    } else {
        cases_findings(spec_find(architecture, Kind::CaseStatement), types, objects, source, utf8)
    }
}

/// What is reported of `architectures`, before sorting.
pub open spec fn architectures_choices(architectures: Seq<Node>, source: Seq<u8>, utf8: bool) -> Seq<
    SFinding,
>
    decreases architectures.len(),
{
    if architectures.len() == 0 {
        Seq::empty()
    } else {
        architectures_choices(architectures.drop_last(), source, utf8) + architecture_choices(
            architectures.last(),
            source,
            utf8,
        )
    }
}

/// `lint_712` and `lint_713` of a file: its syntax tree `root` and its `source`, in order of
/// place.
pub open spec fn spec_check(root: Node, source: Seq<u8>) -> Seq<SFinding> {
    sort_findings(
        architectures_choices(
            spec_find(root, Kind::ArchitectureBody),
            source,
            vstd::utf8::valid_utf8(source),
        ),
    )
}


/// The texts of the tokens under `n`, in lower case.
pub(crate) fn words_of(n: &Node) -> (r: Vec<String>)
    ensures
        strings_view(r@) == token_words(spec_tokens(*n)),
{
    let toks = all_tokens(n);
    let ghost ts = tokens_of(toks@);
    let mut out: Vec<String> = Vec::new();
    let mut i: usize = 0;
    while i < toks.len()
        invariant
            0 <= i <= toks@.len(),
            ts == tokens_of(toks@),
            strings_view(out@) == token_words(ts.take(i as int)),
        decreases toks@.len() - i,
    {
        let low = crate::analysis::syntax::lower_text(toks[i]);
        let w = string_of(&low, 0, low.len());
        assert(low@.subrange(0, low@.len() as int) =~= low@);
        let ghost prev = out@;
        out.push(w);
        assert(ts[i as int] == *toks@[i as int]);
        assert(out@ == prev.push(w));
        assert(strings_view(out@) =~= strings_view(prev).push(w@));
        assert(token_words(ts.take(i + 1)) =~= token_words(ts.take(i as int)).push(lowered(ts[i as int].text@)));
        assert(strings_view(out@) =~= token_words(ts.take(i + 1)));
        i = i + 1;
    }
    assert(ts.take(i as int) =~= ts);
    out
}

/// Those of `ws` that are none of `drop`, in order.
pub(crate) fn keep(ws: &Vec<String>, drop: &Vec<&str>) -> (r: Vec<String>)
    ensures
        strings_view(r@) == keep_words(strings_view(ws@), drop@.map_values(|d: &str| d@)),
{
    let ghost wv = strings_view(ws@);
    let ghost dv = drop@.map_values(|d: &str| d@);
    let mut out: Vec<String> = Vec::new();
    let mut i: usize = 0;
    assert(strings_view(out@) =~= keep_words(wv.take(0), dv));
    while i < ws.len()
        invariant
            0 <= i <= ws@.len(),
            wv == strings_view(ws@),
            dv == drop@.map_values(|d: &str| d@),
            strings_view(out@) == keep_words(wv.take(i as int), dv),
        decreases ws@.len() - i,
    {
        let mut dropped = false;
        let mut k: usize = 0;
        while k < drop.len()
            invariant
                0 <= k <= drop@.len(),
                i < ws@.len(),
                dv == drop@.map_values(|d: &str| d@),
                dropped == exists|q: int| 0 <= q < k && dv[q] == ws@[i as int]@,
            decreases drop@.len() - k,
        {
            assert(dv[k as int] == drop@[k as int]@);
            if str_eq(drop[k], ws[i].as_str()) {
                dropped = true;
            }
            k = k + 1;
        }
        assert(dropped == dv.contains(ws@[i as int]@));
        assert(wv.take(i + 1).drop_last() =~= wv.take(i as int));
        assert(wv.take(i + 1).last() == ws@[i as int]@);
        if !dropped {
            let ghost prev = out@;
            out.push(ws[i].clone());
            assert(strings_view(out@) =~= strings_view(prev).push(ws@[i as int]@));
        }
        assert(strings_view(out@) =~= keep_words(wv.take(i + 1), dv));
        i = i + 1;
    }
    assert(wv.take(i as int) =~= wv);
    out
}

/// Whether `v` is a plain identifier.
fn is_plain(v: &Vec<char>) -> (r: bool)
    ensures
        r == plain_value(v@),
{
    if v.len() == 0 {
        return false;
    }
    let c = v[0];
    if !(('a' <= c && c <= 'z') || ('A' <= c && c <= 'Z')) {
        return false;
    }
    let mut i: usize = 0;
    while i < v.len()
        invariant
            0 <= i <= v@.len(),
            forall|k: int| 0 <= k < i ==> ascii_letter(#[trigger] v@[k]) || ('0' <= v@[k] <= '9') || v@[k] == '_',
        decreases v@.len() - i,
    {
        let d = v[i];
        if !(('a' <= d && d <= 'z') || ('A' <= d && d <= 'Z') || ('0' <= d && d <= '9') || d == '_') {
            return false;
        }
        i = i + 1;
    }
    true
}

proof fn lemma_plain_none(s: Seq<Seq<char>>, j: int)
    requires
        0 <= j <= s.len(),
        plain_values(s.take(j)) is None,
    ensures
        plain_values(s) is None,
    decreases s.len() - j,
{
    if j < s.len() {
        assert(s.take(j + 1).drop_last() =~= s.take(j));
        lemma_plain_none(s, j + 1);
    } else {
        assert(s.take(j) =~= s);
    }
}

/// The values of an enumeration type definition, in declaration order, if every one is a
/// plain identifier.
pub fn values_of(enumeration: &Node) -> (r: Option<Vec<String>>)
    ensures
        match r {
            Some(v) => spec_values_of(*enumeration) == Some(strings_view(v@)),
            None => spec_values_of(*enumeration) is None,
        },
{
    let text = text_of(enumeration);
    let (a, b) = trim_range(&text, 0, text.len());
    assert(text@.subrange(0, text@.len() as int) =~= text@);
    let mut from = a;
    while from < b && text[from] == '('
        invariant
            a <= from <= b <= text@.len(),
            trim_start_char(trimmed(text@), '(') == trim_start_char(text@.subrange(from as int, b as int), '('),
        decreases b - from,
    {
        assert(text@.subrange(from as int, b as int).skip(1) =~= text@.subrange(from + 1, b as int));
        from = from + 1;
    }
    proof {
        let t = text@.subrange(from as int, b as int);
        if from < b {
            assert(t[0] == text@[from as int]);
        } else {
            assert(t =~= Seq::<char>::empty());
        }
        assert(trim_start_char(t, '(') == t);
    }
    let mut to = b;
    while to > from && text[to - 1] == ')'
        invariant
            from <= to <= b <= text@.len(),
            trim_end_char(trim_start_char(trimmed(text@), '('), ')') == trim_end_char(text@.subrange(from as int, to as int), ')'),
            from < b ==> text@[from as int] != '(',
        decreases to - from,
    {
        assert(text@.subrange(from as int, to as int).drop_last() =~= text@.subrange(from as int, to - 1));
        to = to - 1;
    }
    proof {
        let u = text@.subrange(from as int, to as int);
        if to > from {
            assert(u.last() == text@[to - 1]);
        } else {
            assert(u =~= Seq::<char>::empty());
        }
        assert(trim_end_char(u, ')') == u);
    }
    let pieces = crate::analysis::elaborate::comma_pieces(&text, from, to);
    let ghost pv = pieces@.map_values(|p: Vec<char>| p@);
    assert(pv == split_commas(trim_end_char(trim_start_char(trimmed(spec_text_of(*enumeration)), '('), ')')));
    let mut values: Vec<String> = Vec::new();
    let mut i: usize = 0;
    assert(plain_values(pv.take(0)) == Some(strings_view(values@))) by {
        assert(pv.take(0) =~= Seq::<Seq<char>>::empty());
        assert(strings_view(values@) =~= Seq::<Seq<char>>::empty());
    }
    while i < pieces.len()
        invariant
            0 <= i <= pieces@.len(),
            pv == pieces@.map_values(|p: Vec<char>| p@),
            pv == split_commas(trim_end_char(trim_start_char(trimmed(spec_text_of(*enumeration)), '('), ')')),
            plain_values(pv.take(i as int)) == Some(strings_view(values@)),
        decreases pieces@.len() - i,
    {
        let piece = string_of(&pieces[i], 0, pieces[i].len());
        assert(pieces@[i as int]@.subrange(0, pieces@[i as int]@.len() as int) =~= pv[i as int]);
        let value = crate::analysis::elaborate::trimmed(piece.as_str());
        let chars = chars_of(value.as_str());
        assert(pv.take(i + 1).drop_last() =~= pv.take(i as int));
        assert(pv.take(i + 1).last() == pv[i as int]);
        if !is_plain(&chars) {
            proof {
                lemma_plain_none(pv, i + 1);
            }
            return None;
        }
        let ghost prev = values@;
        values.push(value);
        assert(strings_view(values@) =~= strings_view(prev).push(chars@));
        i = i + 1;
    }
    assert(pv.take(i as int) =~= pv);
    if values.len() == 0 {
        return None;
    }
    Some(values)
}


pub open spec fn types_view(m: Seq<(String, Vec<String>)>) -> Seq<(Seq<char>, Seq<Seq<char>>)> {
    m.map_values(|e: (String, Vec<String>)| (e.0@, strings_view(e.1@)))
}

pub open spec fn opt_text(o: Option<String>) -> Option<Seq<char>> {
    match o {
        Some(s) => Some(s@),
        None => None,
    }
}

pub open spec fn objects_view(m: Seq<(String, Option<String>)>) -> Seq<(Seq<char>, Option<Seq<char>>)> {
    m.map_values(|e: (String, Option<String>)| (e.0@, opt_text(e.1)))
}

/// Where the entry of `m` for `name` is, if it has one.
fn type_index(m: &Vec<(String, Vec<String>)>, name: &str) -> (r: Option<usize>)
    ensures
        match r {
            Some(i) => i < m@.len() && entry_of(types_view(m@), name@) == Some(types_view(m@)[i as int].1),
            None => entry_of(types_view(m@), name@) is None,
        },
{
    let ghost o = types_view(m@);
    let mut i: usize = 0;
    assert(o.skip(0) =~= o);
    while i < m.len()
        invariant
            0 <= i <= m@.len(),
            o == types_view(m@),
            entry_of(o, name@) == entry_of(o.skip(i as int), name@),
        decreases m@.len() - i,
    {
        assert(o.skip(i as int)[0] == o[i as int]);
        if str_eq(m[i].0.as_str(), name) {
            return Some(i);
        }
        assert(o.skip(i as int).skip(1) =~= o.skip(i + 1));
        i = i + 1;
    }
    None
}

/// Gives the type `name` the values `values`.
fn put_type(m: &mut Vec<(String, Vec<String>)>, name: String, values: Vec<String>)
    ensures
        types_view(final(m)@) == with_entry(types_view(old(m)@), name@, strings_view(values@)),
{
    let ghost o = types_view(m@);
    let ghost v = strings_view(values@);
    let mut i: usize = 0;
    assert(o.skip(0) =~= o);
    assert(o.take(0) + with_entry(o.skip(0), name@, v) =~= with_entry(o, name@, v));
    while i < m.len()
        invariant
            0 <= i <= m@.len(),
            o == types_view(m@),
            o == types_view(old(m)@),
            v == strings_view(values@),
            o.take(i as int) + with_entry(o.skip(i as int), name@, v) == with_entry(o, name@, v),
        decreases m@.len() - i,
    {
        assert(o.skip(i as int)[0] == o[i as int]);
        if str_eq(m[i].0.as_str(), name.as_str()) {
            m.set(i, (name, values));
            proof {
                assert(with_entry(o.skip(i as int), name@, v) == o.skip(i as int).update(0, (name@, v)));
                assert(types_view(m@) =~= o.update(i as int, (name@, v)));
                assert(o.update(i as int, (name@, v)) =~= o.take(i as int) + o.skip(i as int).update(0, (name@, v)));
            }
            return;
        }
        proof {
            assert(o.skip(i as int).skip(1) =~= o.skip(i + 1));
            assert(o.take(i + 1) =~= o.take(i as int) + seq![o[i as int]]);
        }
        i = i + 1;
    }
    m.push((name, values));
    assert(o.skip(i as int) =~= Seq::<(Seq<char>, Seq<Seq<char>>)>::empty());
    assert(o.take(i as int) =~= o);
    assert(types_view(m@) =~= o + seq![(name@, v)]);
}

/// Where the entry of `m` for `name` is, if it has one.
fn object_index(m: &Vec<(String, Option<String>)>, name: &str) -> (r: Option<usize>)
    ensures
        match r {
            Some(i) => i < m@.len() && entry_of(objects_view(m@), name@) == Some(objects_view(m@)[i as int].1),
            None => entry_of(objects_view(m@), name@) is None,
        },
{
    let ghost o = objects_view(m@);
    let mut i: usize = 0;
    assert(o.skip(0) =~= o);
    while i < m.len()
        invariant
            0 <= i <= m@.len(),
            o == objects_view(m@),
            entry_of(o, name@) == entry_of(o.skip(i as int), name@),
        decreases m@.len() - i,
    {
        assert(o.skip(i as int)[0] == o[i as int]);
        if str_eq(m[i].0.as_str(), name) {
            return Some(i);
        }
        assert(o.skip(i as int).skip(1) =~= o.skip(i + 1));
        i = i + 1;
    }
    None
}

/// Gives the object `name` the type `mark` (or none: `None`).
fn put_object(m: &mut Vec<(String, Option<String>)>, name: String, mark: Option<String>)
    ensures
        objects_view(final(m)@) == with_entry(objects_view(old(m)@), name@, opt_text(mark)),
{
    let ghost o = objects_view(m@);
    let ghost v = opt_text(mark);
    let mut i: usize = 0;
    assert(o.skip(0) =~= o);
    assert(o.take(0) + with_entry(o.skip(0), name@, v) =~= with_entry(o, name@, v));
    while i < m.len()
        invariant
            0 <= i <= m@.len(),
            o == objects_view(m@),
            o == objects_view(old(m)@),
            v == opt_text(mark),
            o.take(i as int) + with_entry(o.skip(i as int), name@, v) == with_entry(o, name@, v),
        decreases m@.len() - i,
    {
        assert(o.skip(i as int)[0] == o[i as int]);
        if str_eq(m[i].0.as_str(), name.as_str()) {
            m.set(i, (name, mark));
            proof {
                assert(with_entry(o.skip(i as int), name@, v) == o.skip(i as int).update(0, (name@, v)));
                assert(objects_view(m@) =~= o.update(i as int, (name@, v)));
                assert(o.update(i as int, (name@, v)) =~= o.take(i as int) + o.skip(i as int).update(0, (name@, v)));
            }
            return;
        }
        proof {
            assert(o.skip(i as int).skip(1) =~= o.skip(i + 1));
            assert(o.take(i + 1) =~= o.take(i as int) + seq![o[i as int]]);
        }
        i = i + 1;
    }
    m.push((name, mark));
    assert(o.skip(i as int) =~= Seq::<(Seq<char>, Option<Seq<char>>)>::empty());
    assert(o.take(i as int) =~= o);
    assert(objects_view(m@) =~= o + seq![(name@, v)]);
}


/// Whether `v[at..to]` starts with `w`.
fn word_at(v: &Vec<char>, at: usize, to: usize, w: &Vec<char>) -> (r: bool)
    requires
        at <= to <= v@.len(),
    ensures
        r == starts_with_text(v@.subrange(at as int, to as int), w@),
{
    if w.len() > to - at {
        return false;
    }
    let mut k: usize = 0;
    while k < w.len()
        invariant
            0 <= k <= w@.len(),
            at + w@.len() <= to <= v@.len(),
            forall|q: int| 0 <= q < k ==> v@[at + q] == w@[q],
        decreases w@.len() - k,
    {
        if v[at + k] != w[k] {
            assert(v@.subrange(at as int, to as int).take(w@.len() as int)[k as int] != w@[k as int]);
            return false;
        }
        k = k + 1;
    }
    assert(v@.subrange(at as int, to as int).take(w@.len() as int) =~= w@);
    true
}

/// Where `trim_start_word` leaves `v[from..to]`.
pub(crate) fn skip_word(v: &Vec<char>, from: usize, to: usize, w: &str) -> (r: usize)
    requires
        from <= to <= v@.len(),
    ensures
        from <= r <= to,
        v@.subrange(r as int, to as int) == trim_start_word(v@.subrange(from as int, to as int), w@),
{
    let wv = chars_of(w);
    if wv.len() == 0 {
        return from;
    }
    let mut at = from;
    while word_at(v, at, to, &wv)
        invariant
            from <= at <= to <= v@.len(),
            wv@ == w@,
            wv@.len() > 0,
            trim_start_word(v@.subrange(from as int, to as int), w@) == trim_start_word(
                v@.subrange(at as int, to as int),
                w@,
            ),
        decreases to - at,
    {
        assert(v@.subrange(at as int, to as int).skip(wv@.len() as int) =~= v@.subrange(at + wv@.len(), to as int));
        at = at + wv.len();
    }
    at
}


/// `v[from..to]` in lower case, as a string.
pub(crate) fn lower_string(v: &Vec<char>, from: usize, to: usize) -> (r: String)
    requires
        from <= to <= v@.len(),
    ensures
        r@ == lowered(v@.subrange(from as int, to as int)),
{
    let low = crate::chars::lower_all(v);
    assert(low@.subrange(from as int, to as int) =~= lowered(v@.subrange(from as int, to as int)));
    string_of(&low, from, to)
}

/// An object's name from its piece of a declaration's name list.
pub(crate) fn object_name_of(piece: &Vec<char>) -> (r: String)
    ensures
        r@ == object_name(piece@),
{
    let n = piece.len();
    let (a, b) = trim_range(piece, 0, n);
    assert(piece@.subrange(0, n as int) =~= piece@);
    let c = skip_word(piece, a, b, "signal");
    let d = skip_word(piece, c, b, "variable");
    let e = skip_word(piece, d, b, "constant");
    let (f, g) = trim_range(piece, e, b);
    lower_string(piece, f, g)
}

/// The type mark of a declaration, from what follows its `:` in `text` (`text[from..]`).
fn type_mark_of(text: &Vec<char>, from: usize) -> (r: String)
    requires
        from <= text@.len(),
    ensures
        r@ == type_mark(text@.skip(from as int)),
{
    let n = text.len();
    let mut end = n;
    assert(text@.subrange(from as int, n as int) =~= text@.skip(from as int));
    while end > from && text[end - 1] == ';'
        invariant
            from <= end <= n == text@.len(),
            trim_end_char(text@.skip(from as int), ';') == trim_end_char(text@.subrange(from as int, end as int), ';'),
        decreases end - from,
    {
        assert(text@.subrange(from as int, end as int).drop_last() =~= text@.subrange(from as int, end - 1));
        end = end - 1;
    }
    proof {
        let u = text@.subrange(from as int, end as int);
        if end > from {
            assert(u.last() == text@[end - 1]);
        } else {
            assert(u =~= Seq::<char>::empty());
        }
        assert(trim_end_char(u, ';') == u);
    }
    let mut k = from;
    assert(text@.subrange(from as int, from as int) =~= Seq::<char>::empty());
    assert(text@.subrange(from as int, end as int) =~= text@.subrange(from as int, from as int) + text@.subrange(from as int, end as int));
    while k < end && text[k] != ':' && text[k] != '('
        invariant
            from <= k <= end <= text@.len(),
            before_any(text@.subrange(from as int, end as int), ':', '(') == text@.subrange(from as int, k as int)
                + before_any(text@.subrange(k as int, end as int), ':', '('),
        decreases end - k,
    {
        assert(text@.subrange(k as int, end as int).skip(1) =~= text@.subrange(k + 1, end as int));
        assert(text@.subrange(from as int, k + 1) =~= text@.subrange(from as int, k as int) + seq![text@[k as int]]);
        k = k + 1;
    }
    proof {
        let t = text@.subrange(k as int, end as int);
        if k < end {
            assert(t[0] == text@[k as int]);
        } else {
            assert(t =~= Seq::<char>::empty());
        }
        assert(before_any(t, ':', '(') =~= Seq::<char>::empty());
        assert(text@.subrange(from as int, k as int) + Seq::<char>::empty() =~= text@.subrange(from as int, k as int));
    }
    let (f, g) = trim_range(text, from, k);
    lower_string(text, f, g)
}


/// Adds the enumeration types `declarations` declare to `types`.
fn types_into(types: &mut Vec<(String, Vec<String>)>, declarations: &Vec<&Node>)
    ensures
        types_view(final(types)@) == add_types(types_view(old(types)@), nodes_of(declarations@)),
{
    let ghost ds = nodes_of(declarations@);
    let ghost start = types_view(types@);
    let mut i: usize = 0;
    while i < declarations.len()
        invariant
            0 <= i <= declarations@.len(),
            ds == nodes_of(declarations@),
            types_view(types@) == add_types(start, ds.take(i as int)),
        decreases declarations@.len() - i,
    {
        let d = declarations[i];
        assert(ds.take(i + 1).drop_last() =~= ds.take(i as int));
        assert(ds.take(i + 1).last() == *d);
        let enumerations = find(d, Kind::EnumerationTypeDefinition);
        if enumerations.len() > 0 {
            match name_after(d, "type", "type") {
                None => {},
                Some(name) => {
                    assert(nodes_of(enumerations@)[0] == *enumerations@[0]);
                    match values_of(enumerations[0]) {
                        None => {},
                        Some(values) => {
                            put_type(types, name, values);
                        },
                    }
                },
            }
        }
        i = i + 1;
    }
    assert(ds.take(i as int) =~= ds);
}

/// Adds the objects `declarations` declare with one of `types` to `objects`.
fn objects_into(
    objects: &mut Vec<(String, Option<String>)>,
    declarations: &Vec<&Node>,
    types: &Vec<(String, Vec<String>)>,
)
    ensures
        objects_view(final(objects)@) == add_objects(
            objects_view(old(objects)@),
            nodes_of(declarations@),
            types_view(types@),
        ),
{
    let ghost ds = nodes_of(declarations@);
    let ghost tv = types_view(types@);
    let ghost start = objects_view(objects@);
    let mut i: usize = 0;
    while i < declarations.len()
        invariant
            0 <= i <= declarations@.len(),
            ds == nodes_of(declarations@),
            tv == types_view(types@),
            objects_view(objects@) == add_objects(start, ds.take(i as int), tv),
        decreases declarations@.len() - i,
    {
        let d = declarations[i];
        assert(ds.take(i + 1).drop_last() =~= ds.take(i as int));
        assert(ds.take(i + 1).last() == *d);
        let text = text_of(d);
        let colon = vec![':'];
        assert(colon@ =~= ":"@) by {
            reveal_strlit(":");
        }
        match crate::chars::find_seq(&text, &colon) {
            None => {},
            Some(at) => {
                proof {
                    crate::analysis::width::lemma_found_occurs(text@, colon@, 0);
                    assert(colon@.len() == 1);
                }
                let n = text.len();
                let mark = type_mark_of(&text, at + 1);
                if type_index(types, mark.as_str()).is_some() {
                    let pieces = crate::analysis::elaborate::comma_pieces(&text, 0, at);
                    assert(text@.subrange(0, at as int) =~= text@.take(at as int));
                    let ghost pv = pieces@.map_values(|q: Vec<char>| q@);
                    let ghost before = objects_view(objects@);
                    let mut k: usize = 0;
                    assert(pv.take(0) =~= Seq::<Seq<char>>::empty());
                    while k < pieces.len()
                        invariant
                            0 <= k <= pieces@.len(),
                            pv == pieces@.map_values(|q: Vec<char>| q@),
                            objects_view(objects@) == add_objects_named(before, pv.take(k as int), mark@),
                        decreases pieces@.len() - k,
                    {
                        assert(pv.take(k + 1).drop_last() =~= pv.take(k as int));
                        assert(pv.take(k + 1).last() == pieces@[k as int]@);
                        let name = object_name_of(&pieces[k]);
                        if name.as_str().unicode_len() > 0 {
                            match object_index(objects, name.as_str()) {
                                None => {
                                    put_object(objects, name, Some(mark.clone()));
                                },
                                Some(x) => {
                                    let same = match &objects[x].1 {
                                        Some(m) => str_eq(m.as_str(), mark.as_str()),
                                        None => false,
                                    };
                                    if !same {
                                        put_object(objects, name, None);
                                    }
                                },
                            }
                        }
                        k = k + 1;
                    }
                    assert(pv.take(k as int) =~= pv);
                }
            },
        }
        i = i + 1;
    }
    assert(ds.take(i as int) =~= ds);
}

/// Every enumeration an architecture declares, and the objects declared with one.
fn enumerations(architecture: &Node) -> (r: (Vec<(String, Vec<String>)>, Vec<(String, Option<String>)>))
    ensures
        (types_view(r.0@), objects_view(r.1@)) == spec_enumerations(*architecture),
{
    let mut types: Vec<(String, Vec<String>)> = Vec::new();
    assert(types_view(types@) =~= Seq::<(Seq<char>, Seq<Seq<char>>)>::empty());
    let declarations = find(architecture, Kind::FullTypeDeclaration);
    types_into(&mut types, &declarations);
    let mut objects: Vec<(String, Option<String>)> = Vec::new();
    assert(objects_view(objects@) =~= Seq::<(Seq<char>, Option<Seq<char>>)>::empty());
    let signals = find(architecture, Kind::SignalDeclaration);
    objects_into(&mut objects, &signals, &types);
    let variables = find(architecture, Kind::VariableDeclaration);
    objects_into(&mut objects, &variables, &types);
    let constants = find(architecture, Kind::ConstantDeclaration);
    objects_into(&mut objects, &constants, &types);
    (types, objects)
}


proof fn lemma_names_view(v: Seq<String>)
    ensures
        names(v) == strings_view(v).to_set(),
{
    assert forall|x: Seq<char>| names(v).contains(x) implies strings_view(v).to_set().contains(x) by {
        let i = choose|i: int| 0 <= i < v.len() && (#[trigger] v[i])@ == x;
        assert(strings_view(v)[i] == x);
    }
    assert forall|x: Seq<char>| strings_view(v).to_set().contains(x) implies names(v).contains(x) by {
        let i = choose|i: int| 0 <= i < strings_view(v).len() && strings_view(v)[i] == x;
        assert(v[i]@ == x);
    }
    assert(names(v) =~= strings_view(v).to_set());
}

/// The name a case selects on, if it is a plain name and nothing else.
pub fn selector_of(case: &Node) -> (r: Option<String>)
    ensures
        opt_text(r) == spec_selector_of(*case),
{
    let preambles = find(case, Kind::CaseStatementPreamble);
    if preambles.len() == 0 {
        return None;
    }
    assert(nodes_of(preambles@)[0] == *preambles@[0]);
    let words = words_of(preambles[0]);
    let drop = vec!["case", "is"];
    assert(drop@.map_values(|d: &str| d@) =~= seq!["case"@, "is"@]);
    let names = keep(&words, &drop);
    if names.len() == 1 {
        Some(names[0].clone())
    } else {
        None
    }
}

/// The choices of an alternative's preamble.
fn choices_in(preamble: &Node) -> (r: Vec<String>)
    ensures
        strings_view(r@) == choices_of(*preamble),
{
    let words = words_of(preamble);
    let drop = vec!["when", "=>", "|"];
    assert(drop@.map_values(|d: &str| d@) =~= seq!["when"@, "=>"@, "|"@]);
    keep(&words, &drop)
}

/// Reads the alternatives of a case: the values named, where `when others` starts, and whether
/// every alternative could be read.
fn scan(case: &Node, values: &Vec<String>) -> (r: (Vec<String>, Option<usize>, bool))
    ensures
        (names(r.0@), r.1, r.2) == scan_alternatives(
            spec_find(*case, Kind::CaseStatementAlternative),
            strings_view(values@),
            Set::empty(),
            None,
        ),
{
    let alternatives = find(case, Kind::CaseStatementAlternative);
    let ghost alts = nodes_of(alternatives@);
    let ghost vv = strings_view(values@);
    let ghost goal = scan_alternatives(alts, vv, Set::empty(), None);
    let mut listed: Vec<String> = Vec::new();
    let mut others: Option<usize> = None;
    let mut readable = true;
    let mut i: usize = 0;
    assert(names(listed@) =~= Set::<Seq<char>>::empty());
    assert(alts.skip(0) =~= alts);
    while i < alternatives.len() && readable
        invariant
            0 <= i <= alternatives@.len(),
            alts == nodes_of(alternatives@),
            vv == strings_view(values@),
            readable ==> goal == scan_alternatives(alts.skip(i as int), vv, names(listed@), others),
            !readable ==> goal == (names(listed@), others, false),
        decreases alternatives@.len() - i + if readable { 1int } else { 0int },
    {
        let ghost rest = alts.skip(i as int);
        assert(rest.skip(1) =~= alts.skip(i + 1));
        assert(rest[0] == *alternatives@[i as int]);
        let preambles = find(alternatives[i], Kind::CaseStatementAlternativePreamble);
        if preambles.len() == 0 {
            i = i + 1;
        } else {
            assert(nodes_of(preambles@)[0] == *preambles@[0]);
            let p = preambles[0];
            let choices = choices_in(p);
            proof {
                lemma_names_view(choices@);
            }
            if has_name(&choices, "others") {
                let toks = all_tokens(p);
                let offset = if toks.len() > 0 {
                    assert(tokens_of(toks@)[0] == *toks@[0]);
                    toks[0].offset
                } else {
                    0
                };
                others = Some(offset);
                i = i + 1;
            } else {
                let mut all_values = true;
                let mut k: usize = 0;
                while k < choices.len()
                    invariant
                        0 <= k <= choices@.len(),
                        vv == strings_view(values@),
                        all_values == forall|q: int| 0 <= q < k ==> vv.contains(#[trigger] strings_view(choices@)[q]),
                    decreases choices@.len() - k,
                {
                    proof {
                        lemma_names_view(values@);
                    }
                    let h = has_name(values, choices[k].as_str());
                    assert(strings_view(choices@)[k as int] == choices@[k as int]@);
                    assert(vv.to_set().contains(choices@[k as int]@) == vv.contains(choices@[k as int]@));
                    assert(h == vv.contains(choices@[k as int]@));
                    if !h {
                        all_values = false;
                    }
                    k = k + 1;
                }
                if choices.len() == 0 || !all_values {
                    readable = false;
                } else {
                    add_names(&mut listed, &choices);
                    i = i + 1;
                }
            }
        }
    }
    if readable {
        assert(alts.skip(i as int) =~= Seq::<Node>::empty());
    }
    (listed, others, readable)
}

/// Those of `values` not among `listed`, in order.
fn hidden_of(values: &Vec<String>, listed: &Vec<String>) -> (r: Vec<String>)
    ensures
        strings_view(r@) == hidden_values(strings_view(values@), names(listed@)),
{
    let ghost vv = strings_view(values@);
    let mut out: Vec<String> = Vec::new();
    let mut i: usize = 0;
    assert(strings_view(out@) =~= hidden_values(vv.take(0), names(listed@)));
    while i < values.len()
        invariant
            0 <= i <= values@.len(),
            vv == strings_view(values@),
            strings_view(out@) == hidden_values(vv.take(i as int), names(listed@)),
        decreases values@.len() - i,
    {
        assert(vv.take(i + 1).drop_last() =~= vv.take(i as int));
        assert(vv.take(i + 1).last() == values@[i as int]@);
        if !has_name(listed, values[i].as_str()) {
            let ghost prev = out@;
            out.push(values[i].clone());
            assert(strings_view(out@) =~= strings_view(prev).push(values@[i as int]@));
        }
        assert(strings_view(out@) =~= hidden_values(vv.take(i + 1), names(listed@)));
        i = i + 1;
    }
    assert(vv.take(i as int) =~= vv);
    out
}

/// What is reported of one case statement, if anything.
fn finding_of(
    case: &Node,
    types: &Vec<(String, Vec<String>)>,
    objects: &Vec<(String, Option<String>)>,
    source: &[u8],
    utf8: bool,
    file: &PathBuf,
) -> (r: Option<Finding>)
    requires
        4 * source@.len() < usize::MAX,
    ensures
        match r {
            Some(f) => case_finding(*case, types_view(types@), objects_view(objects@), source@, utf8)
                == Some(finding_view(f)),
            None => case_finding(*case, types_view(types@), objects_view(objects@), source@, utf8) is None,
        },
{
    let selector = match selector_of(case) {
        Some(s) => s,
        None => return None,
    };
    let x = match object_index(objects, selector.as_str()) {
        Some(x) => x,
        None => return None,
    };
    assert(objects_view(objects@)[x as int].1 == opt_text(objects@[x as int].1));
    let mark = match &objects[x].1 {
        Some(m) => m,
        None => return None,
    };
    let t = match type_index(types, mark.as_str()) {
        Some(t) => t,
        None => return None,
    };
    let values = &types[t].1;
    assert(types_view(types@)[t as int].1 == strings_view(values@));
    let (listed, others, readable) = scan(case, values);
    let offset = match others {
        Some(o) => o,
        None => return None,
    };
    if !readable {
        return None;
    }
    let hidden = hidden_of(values, &listed);
    let (line, column) = line_col(source, utf8, offset);
    let f = if hidden.len() == 0 {
        let mut message = String::from_str("'when others' can never be taken: the other alternatives already name all ");
        let n = crate::layout::decimal_string(values.len());
        message.append(n.as_str());
        message.append(" values of '");
        message.append(selector.as_str());
        message.append("'. Removing it makes adding a value a compile error instead of a silent fall-through.");
        Finding { file: file.clone(), rule: "lint_712", line, column, message, related: Vec::new() }
    } else {
        let mut message = String::from_str("'when others' covers ");
        let n = crate::layout::decimal_string(hidden.len());
        message.append(n.as_str());
        message.append(" of the values of '");
        message.append(selector.as_str());
        message.append("' (");
        let list = crate::analysis::elaborate::join(&hidden, ", ");
        message.append(list.as_str());
        message.append("). Naming each one makes adding a value a compile error rather than a silent fall-through.");
        Finding { file: file.clone(), rule: "lint_713", line, column, message, related: Vec::new() }
    };
    proof {
        assert(f.related@.map_values(|r: Related| related_view(r)) =~= Seq::<(int, int, Seq<char>)>::empty());
    }
    Some(f)
}

/// `lint_712` and `lint_713` of a file: every `when others` that no value of the selector's
/// type can reach, and every one that hides values, for the syntax tree `root` of `source`;
/// in order of place.
pub fn check(root: &Node, source: &[u8], file: &PathBuf) -> (r: Vec<Finding>)
    requires
        4 * source@.len() < usize::MAX,
    ensures
        finding_views(r@) == spec_check(*root, source@),
{
    let utf8 = crate::reflow::is_utf8(source);
    let architectures = find(root, Kind::ArchitectureBody);
    let ghost archs = nodes_of(architectures@);
    let mut out: Vec<Finding> = Vec::new();
    let ghost mut gen = Seq::<SFinding>::empty();
    assert(finding_views(out@) =~= sort_findings(gen));
    let mut a: usize = 0;
    assert(archs.take(0) =~= Seq::<Node>::empty());
    while a < architectures.len()
        invariant
            0 <= a <= architectures@.len(),
            4 * source@.len() < usize::MAX,
            archs == nodes_of(architectures@),
            gen == architectures_choices(archs.take(a as int), source@, utf8),
            finding_views(out@) == sort_findings(gen),
        decreases architectures@.len() - a,
    {
        let arch = architectures[a];
        assert(archs.take(a + 1).drop_last() =~= archs.take(a as int));
        assert(archs.take(a + 1).last() == *arch);
        let ghost start = gen;
        let (types, objects) = enumerations(arch);
        if types.len() > 0 && objects.len() > 0 {
            let cases = find(arch, Kind::CaseStatement);
            let ghost cs = nodes_of(cases@);
            let ghost tv = types_view(types@);
            let ghost ov = objects_view(objects@);
            let mut c: usize = 0;
            assert(start + cases_findings(cs.take(0), tv, ov, source@, utf8) =~= start);
            while c < cases.len()
                invariant
                    0 <= c <= cases@.len(),
                    4 * source@.len() < usize::MAX,
                    cs == nodes_of(cases@),
                    tv == types_view(types@),
                    ov == objects_view(objects@),
                    gen == start + cases_findings(cs.take(c as int), tv, ov, source@, utf8),
                    finding_views(out@) == sort_findings(gen),
                decreases cases@.len() - c,
            {
                assert(cs.take(c + 1).drop_last() =~= cs.take(c as int));
                assert(cs.take(c + 1).last() == *cases@[c as int]);
                match finding_of(cases[c], &types, &objects, source, utf8, file) {
                    Some(f) => {
                        put_finding(&mut out, f);
                        proof {
                            crate::analysis::design::lemma_sort_append(gen, finding_view(f));
                            gen = gen.push(finding_view(f));
                        }
                    },
                    None => {},
                }
                assert(gen =~= start + cases_findings(cs.take(c + 1), tv, ov, source@, utf8));
                c = c + 1;
            }
            assert(cs.take(c as int) =~= cs);
        } else {
            assert(gen =~= gen + Seq::<SFinding>::empty());
        }
        assert(gen =~= architectures_choices(archs.take(a + 1), source@, utf8));
        a = a + 1;
    }
    assert(archs.take(a as int) =~= archs);
    out
}

} // verus!
