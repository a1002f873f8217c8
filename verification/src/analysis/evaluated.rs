//! Expressions evaluated where every operand is a literal: indices outside the declared range of
//! an array (`lint_780`) and divisions by a literal zero (`lint_781`).
use vstd::prelude::*;

use crate::analysis::design::{both_bounds, bounds_around};
use crate::analysis::width::{downto_word, lemma_found_occurs, to_word};
use crate::analysis::choices::{object_name, trim_end_char, trim_start_char};
use crate::analysis::design::{put_finding, sort_findings, split_commas};
use crate::analysis::lint::{finding_view, finding_views, related_view, Finding, Related, SFinding};
use crate::analysis::syntax::{
    all_tokens, children, find, nodes_of, spec_children, spec_find, spec_text_of, spec_tokens,
    text_of, tokens_of, Kind, Node, Token,
};
use crate::bytes::str_eq;
use crate::chars::{
    chars_of, find_from, find_seq, lower_all, lowered, parse_i64, spec_parse_i64, string_of,
    trim_range, trimmed,
};
use crate::config::{entry_of, with_entry};
use crate::text::{line_col, spec_line_col};
use std::path::PathBuf;
use vstd::string::StringExecFns;

verus! {

/// Where `s` starts once its leading `(` are skipped.
pub open spec fn open_parens(s: Seq<char>) -> int
    decreases s.len(),
{
    if s.len() > 0 && s[0] == '(' {
        1 + open_parens(s.skip(1))
    } else {
        0
    }
}

/// Where `s` ends once its trailing `)` are dropped.
pub open spec fn close_parens_at(s: Seq<char>) -> int
    decreases s.len(),
{
    if s.len() > 0 && s.last() == ')' {
        close_parens_at(s.drop_last())
    } else {
        s.len() as int
    }
}

/// `s` trimmed, then without its leading `(` and its trailing `)`.
pub open spec fn unwrapped(s: Seq<char>) -> Seq<char> {
    let t = trimmed(s);
    let u = t.skip(open_parens(t));
    u.take(close_parens_at(u))
}

/// The bounds of a range written as two integer literals, smaller first.
pub open spec fn spec_literal_bounds(text: Seq<char>) -> Option<(int, int)> {
    let lower = lowered(unwrapped(text));
    match find_from(lower, downto_word(), 0) {
        Some(k) => both_bounds(lower.take(k), lower.skip(k + 6)),
        None => match find_from(lower, to_word(), 0) {
            Some(k) => both_bounds(lower.take(k), lower.skip(k + 2)),
            None => None,
        },
    }
}

proof fn lemma_paren_bounds(s: Seq<char>)
    ensures
        0 <= open_parens(s) <= s.len(),
        0 <= close_parens_at(s) <= s.len(),
    decreases s.len(),
{
    if s.len() > 0 {
        lemma_paren_bounds(s.skip(1));
        lemma_paren_bounds(s.drop_last());
    }
}

/// The bounds of a range written as two integer literals: `7 downto 0` is `(0, 7)`.
///
/// The text of a range joins its tokens without white space, so the keyword has nothing
/// around it.
#[verifier::spinoff_prover]
#[verifier::rlimit(30)]
pub fn literal_bounds(text: &str) -> (r: Option<(i64, i64)>)
    ensures
        match r {
            Some((a, b)) => spec_literal_bounds(text@) == Some((a as int, b as int)),
            None => spec_literal_bounds(text@) is None,
        },
{
    let v = chars_of(text);
    let (t0, t1) = trim_range(&v, 0, v.len());
    assert(v@.subrange(0, v@.len() as int) =~= v@);
    let ghost t = trimmed(v@);
    let mut a = t0;
    assert(v@.subrange(t0 as int, t1 as int).skip(0) =~= v@.subrange(t0 as int, t1 as int));
    while a < t1 && v[a] == '('
        invariant
            t0 <= a <= t1 <= v@.len(),
            t == v@.subrange(t0 as int, t1 as int),
            open_parens(t) == (a - t0) + open_parens(v@.subrange(a as int, t1 as int)),
        decreases t1 - a,
    {
        assert(v@.subrange(a as int, t1 as int).skip(1) =~= v@.subrange(a + 1, t1 as int));
        a = a + 1;
    }
    let ghost u = t.skip(open_parens(t));
    assert(u =~= v@.subrange(a as int, t1 as int));
    let mut b = t1;
    while b > a && v[b - 1] == ')'
        invariant
            a <= b <= t1 <= v@.len(),
            u == v@.subrange(a as int, t1 as int),
            close_parens_at(u) == close_parens_at(v@.subrange(a as int, b as int)) ,
        decreases b,
    {
        assert(v@.subrange(a as int, b as int).drop_last() =~= v@.subrange(a as int, b - 1));
        b = b - 1;
    }
    proof {
        lemma_paren_bounds(v@.subrange(a as int, b as int));
        assert(u.take(close_parens_at(u)) =~= v@.subrange(a as int, b as int));
    }
    let inner = vstd::slice::slice_subrange(v.as_slice(), a, b);
    let mut piece: Vec<char> = Vec::new();
    let mut i: usize = 0;
    while i < inner.len()
        invariant
            0 <= i <= inner@.len(),
            piece@ == inner@.take(i as int),
        decreases inner@.len() - i,
    {
        piece.push(inner[i]);
        i = i + 1;
        assert(piece@ =~= inner@.take(i as int));
    }
    assert(inner@.take(inner@.len() as int) =~= inner@);
    let lower = lower_all(&piece);
    let downto = chars_of("downto");
    let to = chars_of("to");
    proof {
        reveal_strlit("downto");
        reveal_strlit("to");
        assert(downto@ =~= downto_word());
        assert(to@ =~= to_word());
    }
    if let Some(k) = find_seq(&lower, &downto) {
        proof {
            lemma_found_occurs(lower@, downto_word(), 0);
        }
        return bounds_around(&lower, k, 6);
    }
    if let Some(k) = find_seq(&lower, &to) {
        proof {
            lemma_found_occurs(lower@, to_word(), 0);
        }
        return bounds_around(&lower, k, 2);
    }
    None
}


/// The bounds a declaration's text gives after its `:`: the literal range in its first
/// parentheses.
pub open spec fn declared_bounds(rest: Seq<char>) -> Option<(int, int)> {
    match find_from(rest, "("@, 0) {
        Some(p) => {
            let tail = rest.skip(p + 1);
            match find_from(tail, ")"@, 0) {
                Some(q) => spec_literal_bounds(tail.take(q)),
                None => None,
            }
        },
        None => None,
    }
}

/// `found` with `name` declared with `bounds`: a name declared twice with different bounds is
/// left alone (`None`) rather than let one declaration win.
pub open spec fn range_entry(
    found: Seq<(Seq<char>, Option<(int, int)>)>,
    name: Seq<char>,
    bounds: (int, int),
) -> Seq<(Seq<char>, Option<(int, int)>)> {
    match entry_of(found, name) {
        Some(Some(known)) => if known != bounds {
            with_entry(found, name, None)
        } else {
            found
        },
        Some(None) => found,
        None => with_entry(found, name, Some(bounds)),
    }
}

/// `found` with the names among `pieces` declared with `bounds`.
pub open spec fn add_ranges_named(
    found: Seq<(Seq<char>, Option<(int, int)>)>,
    pieces: Seq<Seq<char>>,
    bounds: (int, int),
) -> Seq<(Seq<char>, Option<(int, int)>)>
    decreases pieces.len(),
{
    if pieces.len() == 0 {
        found
    } else {
        let before = add_ranges_named(found, pieces.drop_last(), bounds);
        let name = object_name(pieces.last());
        if name.len() == 0 {
            before
        } else {
            range_entry(before, name, bounds)
        }
    }
}

/// `found` with the objects `declarations` declare with a literal range.
pub open spec fn add_ranges(found: Seq<(Seq<char>, Option<(int, int)>)>, declarations: Seq<Node>) -> Seq<
    (Seq<char>, Option<(int, int)>),
>
    decreases declarations.len(),
{
    if declarations.len() == 0 {
        found
    } else {
        let before = add_ranges(found, declarations.drop_last());
        let text = spec_text_of(declarations.last());
        match find_from(text, ":"@, 0) {
            None => before,
            Some(at) => match declared_bounds(text.skip(at + 1)) {
                None => before,
                Some(bounds) => add_ranges_named(before, split_commas(text.take(at)), bounds),
            },
        }
    }
}

/// Every object a file declares with a range of two integer literals, by name (`None` for a
/// name declared twice with different ranges): signals, variables, constants and ports.
pub open spec fn spec_declared_ranges(root: Node) -> Seq<(Seq<char>, Option<(int, int)>)> {
    add_ranges(
        add_ranges(
            add_ranges(
                add_ranges(Seq::empty(), spec_find(root, Kind::SignalDeclaration)),
                spec_find(root, Kind::VariableDeclaration),
            ),
            spec_find(root, Kind::ConstantDeclaration),
        ),
        spec_find(root, Kind::InterfaceObjectDeclaration),
    )
}

/// An integer as `i64`'s `Display` writes it.
pub open spec fn signed_decimal(n: int) -> Seq<char> {
    if n < 0 {
        "-"@ + crate::layout::decimal((-n) as nat)
    } else {
        crate::layout::decimal(n as nat)
    }
}

/// What `lint_780` says of an index outside its array's range.
pub open spec fn index_message(at: int, low: int, high: int, object: Seq<char>) -> Seq<char> {
    "Index "@ + signed_decimal(at) + " is outside the range "@ + signed_decimal(low) + " to "@
        + signed_decimal(high) + " of '"@ + object
        + "'. Evaluating this raises an error: an index has to be within the array's range."@
}

/// What `lint_780` reports of one name: a literal index into an object declared with a literal
/// range, outside that range; at the name's first token.
pub open spec fn index_finding(
    name: Node,
    ranges: Seq<(Seq<char>, Option<(int, int)>)>,
    source: Seq<u8>,
    utf8: bool,
) -> Option<SFinding> {
    let parts = spec_children(name);
    if parts.len() != 2 || parts[0].kind != Kind::NameDesignatorPrefix || parts[1].kind
        != Kind::ParenthesizedName {
        None
    } else {
        let object = lowered(trimmed(spec_text_of(parts[0])));
        match entry_of(ranges, object) {
            Some(Some((low, high))) => match spec_parse_i64(
                trimmed(trim_end_char(trim_start_char(trimmed(spec_text_of(parts[1])), '('), ')')),
            ) {
                Some(at) => if (at >= low && at <= high) || spec_tokens(name).len() == 0 {
                    None
                } else {
                    let (line, column) = spec_line_col(source, utf8, spec_tokens(name)[0].offset as int);
                    Some(
                        SFinding {
                            rule: "lint_780"@,
                            line,
                            column,
                            message: index_message(at, low, high, object),
                            related: Seq::empty(),
                        },
                    )
                },
                None => None,
            },
            _ => None,
        }
    }
}

/// What `lint_780` reports of `names`, in order.
pub open spec fn index_findings(
    names: Seq<Node>,
    ranges: Seq<(Seq<char>, Option<(int, int)>)>,
    source: Seq<u8>,
    utf8: bool,
) -> Seq<SFinding>
    decreases names.len(),
{
    if names.len() == 0 {
        Seq::empty()
    } else {
        index_findings(names.drop_last(), ranges, source, utf8) + match index_finding(
            names.last(),
            ranges,
            source,
            utf8,
        ) {
            Some(f) => seq![f],
            None => Seq::empty(),
        }
    }
}

/// How `lint_781` names the operator of a token, if it divides.
pub open spec fn division_word(t: Seq<char>) -> Option<Seq<char>> {
    if t == "/"@ {
        Some("Division"@)
    } else if t == "mod"@ {
        Some("`mod`"@)
    } else if t == "rem"@ {
        Some("`rem`"@)
    } else {
        None
    }
}

/// What `lint_781` says of a division by zero.
pub open spec fn division_message(name: Seq<char>) -> Seq<char> {
    name
        + " by zero. Evaluating this raises an error: the right operand of `/`, `mod` and `rem` may not be zero."@
}

/// What `lint_781` reports of the pairs of adjacent tokens among the first `k` of `ts`: a `/`,
/// `mod` or `rem` followed by a token whose text reads as a zero (`zero` says which do), at
/// the zero.
pub open spec fn division_findings(ts: Seq<Token>, zero: Seq<bool>, k: int, source: Seq<u8>, utf8: bool) -> Seq<
    SFinding,
>
    decreases k,
{
    if k <= 1 || k > ts.len() {
        Seq::empty()
    } else {
        division_findings(ts, zero, k - 1, source, utf8) + match division_word(
            lowered(ts[k - 2].text@),
        ) {
            Some(name) => if zero[k - 1] {
                let (line, column) = spec_line_col(source, utf8, ts[k - 1].offset as int);
                seq![
                    SFinding {
                        rule: "lint_781"@,
                        line,
                        column,
                        message: division_message(name),
                        related: Seq::empty(),
                    },
                ]
            } else {
                Seq::empty()
            },
            None => Seq::empty(),
        }
    }
}

/// `lint_780` and `lint_781` of a file: its syntax tree `root` and its `source`, `zero` saying
/// of each token of the file, in order, whether its text reads as a number equal to zero; in
/// order of place.
pub open spec fn spec_check(root: Node, source: Seq<u8>, zero: Seq<bool>) -> Seq<SFinding> {
    let utf8 = vstd::utf8::valid_utf8(source);
    let ts = spec_tokens(root);
    sort_findings(
        index_findings(spec_find(root, Kind::Name), spec_declared_ranges(root), source, utf8)
            + division_findings(ts, zero, ts.len() as int, source, utf8),
    )
}


pub open spec fn ranges_view(v: Seq<(String, Option<(i64, i64)>)>) -> Seq<(Seq<char>, Option<(int, int)>)> {
    v.map_values(
        |e: (String, Option<(i64, i64)>)|
            (
                e.0@,
                match e.1 {
                    Some((a, b)) => Some((a as int, b as int)),
                    None => None,
                },
            ),
    )
}

/// Where the entry of `m` for `name` is, if it has one.
fn range_index(m: &Vec<(String, Option<(i64, i64)>)>, name: &str) -> (r: Option<usize>)
    ensures
        match r {
            Some(i) => i < m@.len() && entry_of(ranges_view(m@), name@) == Some(ranges_view(m@)[i as int].1),
            None => entry_of(ranges_view(m@), name@) is None,
        },
{
    let ghost o = ranges_view(m@);
    let mut i: usize = 0;
    assert(o.skip(0) =~= o);
    while i < m.len()
        invariant
            0 <= i <= m@.len(),
            o == ranges_view(m@),
            entry_of(o, name@) == entry_of(o.skip(i as int), name@),
        decreases m@.len() - i,
    {
        assert(o.skip(i as int)[0] == o[i as int]);
        if str_eq(m[i].0.as_str(), name) {
            return Some(i);
        }
        assert(o.skip(i as int).skip(1) =~= o.skip(i + 1));
        i = i + 1;
    }
    None
}

/// Gives `name` the range `bounds` (or none) in `m`.
fn put_range(m: &mut Vec<(String, Option<(i64, i64)>)>, name: String, bounds: Option<(i64, i64)>)
    ensures
        ranges_view(final(m)@) == with_entry(
            ranges_view(old(m)@),
            name@,
            match bounds {
                Some((a, b)) => Some((a as int, b as int)),
                None => None,
            },
        ),
{
    let ghost o = ranges_view(m@);
    let ghost v = match bounds {
        Some((a, b)) => Some((a as int, b as int)),
        None => None,
    };
    let mut i: usize = 0;
    assert(o.skip(0) =~= o);
    assert(o.take(0) + with_entry(o.skip(0), name@, v) =~= with_entry(o, name@, v));
    while i < m.len()
        invariant
            0 <= i <= m@.len(),
            o == ranges_view(m@),
            o == ranges_view(old(m)@),
            v == match bounds {
                Some((a, b)) => Some((a as int, b as int)),
                None => None,
            },
            o.take(i as int) + with_entry(o.skip(i as int), name@, v) == with_entry(o, name@, v),
        decreases m@.len() - i,
    {
        assert(o.skip(i as int)[0] == o[i as int]);
        if str_eq(m[i].0.as_str(), name.as_str()) {
            m.set(i, (name, bounds));
            proof {
                assert(with_entry(o.skip(i as int), name@, v) == o.skip(i as int).update(0, (name@, v)));
                assert(ranges_view(m@) =~= o.update(i as int, (name@, v)));
                assert(o.update(i as int, (name@, v)) =~= o.take(i as int) + o.skip(i as int).update(0, (name@, v)));
            }
            return;
        }
        proof {
            assert(o.skip(i as int).skip(1) =~= o.skip(i + 1));
            assert(o.take(i + 1) =~= o.take(i as int) + seq![o[i as int]]);
        }
        i = i + 1;
    }
    m.push((name, bounds));
    assert(o.skip(i as int) =~= Seq::<(Seq<char>, Option<(int, int)>)>::empty());
    assert(o.take(i as int) =~= o);
    assert(ranges_view(m@) =~= o + seq![(name@, v)]);
}

/// `v[from..]`, as a vector of its own.
fn tail_of(v: &Vec<char>, from: usize) -> (r: Vec<char>)
    requires
        from <= v@.len(),
    ensures
        r@ == v@.skip(from as int),
{
    let mut out: Vec<char> = Vec::new();
    let mut i = from;
    while i < v.len()
        invariant
            from <= i <= v@.len(),
            out@ == v@.subrange(from as int, i as int),
        decreases v@.len() - i,
    {
        out.push(v[i]);
        i = i + 1;
        assert(out@ =~= v@.subrange(from as int, i as int));
    }
    assert(v@.subrange(from as int, i as int) =~= v@.skip(from as int));
    out
}

/// The position of `c` in `v`, as `find_from` sees it.
fn find_char(v: &Vec<char>, c: char) -> (r: Option<usize>)
    ensures
        match r {
            Some(k) => find_from(v@, seq![c], 0) == Some(k as int) && k < v@.len(),
            None => find_from(v@, seq![c], 0) is None,
        },
{
    let pat = vec![c];
    assert(pat@ =~= seq![c]);
    let r = find_seq(v, &pat);
    proof {
        lemma_found_occurs(v@, seq![c], 0);
    }
    r
}

/// The bounds a declaration's text gives after its `:` (`rest`).
fn bounds_after(rest: &Vec<char>) -> (r: Option<(i64, i64)>)
    ensures
        match r {
            Some((a, b)) => declared_bounds(rest@) == Some((a as int, b as int)),
            None => declared_bounds(rest@) is None,
        },
{
    assert(seq!['('] =~= "("@) by {
        reveal_strlit("(");
    }
    assert(seq![')'] =~= ")"@) by {
        reveal_strlit(")");
    }
    let p = match find_char(rest, '(') {
        Some(p) => p,
        None => return None,
    };
    let n = rest.len();
    assert(p < n);
    let tail = tail_of(rest, p + 1);
    let q = match find_char(&tail, ')') {
        Some(q) => q,
        None => return None,
    };
    let range = string_of(&tail, 0, q);
    assert(tail@.subrange(0, q as int) =~= tail@.take(q as int));
    literal_bounds(range.as_str())
}

/// Every object a file declares with a range of two integer literals, by name.
fn declared_ranges(root: &Node) -> (r: Vec<(String, Option<(i64, i64)>)>)
    ensures
        ranges_view(r@) == spec_declared_ranges(*root),
{
    let mut found: Vec<(String, Option<(i64, i64)>)> = Vec::new();
    assert(ranges_view(found@) =~= Seq::<(Seq<char>, Option<(int, int)>)>::empty());
    let kinds = vec![
        Kind::SignalDeclaration,
        Kind::VariableDeclaration,
        Kind::ConstantDeclaration,
        Kind::InterfaceObjectDeclaration,
    ];
    let ghost mut done = Seq::<(Seq<char>, Option<(int, int)>)>::empty();
    let mut kk: usize = 0;
    while kk < kinds.len()
        invariant
            0 <= kk <= kinds@.len(),
            kinds@ == seq![
                Kind::SignalDeclaration,
                Kind::VariableDeclaration,
                Kind::ConstantDeclaration,
                Kind::InterfaceObjectDeclaration,
            ],
            kk == 0 ==> ranges_view(found@) == Seq::<(Seq<char>, Option<(int, int)>)>::empty(),
            kk == 1 ==> ranges_view(found@) == add_ranges(Seq::empty(), spec_find(*root, Kind::SignalDeclaration)),
            kk == 2 ==> ranges_view(found@) == add_ranges(
                add_ranges(Seq::empty(), spec_find(*root, Kind::SignalDeclaration)),
                spec_find(*root, Kind::VariableDeclaration),
            ),
            kk == 3 ==> ranges_view(found@) == add_ranges(
                add_ranges(
                    add_ranges(Seq::empty(), spec_find(*root, Kind::SignalDeclaration)),
                    spec_find(*root, Kind::VariableDeclaration),
                ),
                spec_find(*root, Kind::ConstantDeclaration),
            ),
            kk == 4 ==> ranges_view(found@) == spec_declared_ranges(*root),
        decreases kinds@.len() - kk,
    {
        let declarations = find(root, kinds[kk]);
        let ghost ds = nodes_of(declarations@);
        let ghost start = ranges_view(found@);
        let mut i: usize = 0;
        while i < declarations.len()
            invariant
                0 <= i <= declarations@.len(),
                ds == nodes_of(declarations@),
                ranges_view(found@) == add_ranges(start, ds.take(i as int)),
            decreases declarations@.len() - i,
        {
            let d = declarations[i];
            assert(ds.take(i + 1).drop_last() =~= ds.take(i as int));
            assert(ds.take(i + 1).last() == *d);
            let text = text_of(d);
            assert(seq![':'] =~= ":"@) by {
                reveal_strlit(":");
            }
            match find_char(&text, ':') {
                None => {},
                Some(at) => {
                    let n = text.len();
                    assert(at < n);
                    let rest = tail_of(&text, at + 1);
                    match bounds_after(&rest) {
                        None => {},
                        Some(bounds) => {
                            let pieces = crate::analysis::elaborate::comma_pieces(&text, 0, at);
                            assert(text@.subrange(0, at as int) =~= text@.take(at as int));
                            let ghost pv = pieces@.map_values(|q: Vec<char>| q@);
                            let ghost before = ranges_view(found@);
                            let ghost bv = (bounds.0 as int, bounds.1 as int);
                            let mut k: usize = 0;
                            assert(pv.take(0) =~= Seq::<Seq<char>>::empty());
                            while k < pieces.len()
                                invariant
                                    0 <= k <= pieces@.len(),
                                    pv == pieces@.map_values(|q: Vec<char>| q@),
                                    bv == (bounds.0 as int, bounds.1 as int),
                                    ranges_view(found@) == add_ranges_named(before, pv.take(k as int), bv),
                                decreases pieces@.len() - k,
                            {
                                assert(pv.take(k + 1).drop_last() =~= pv.take(k as int));
                                assert(pv.take(k + 1).last() == pieces@[k as int]@);
                                let name = crate::analysis::choices::object_name_of(&pieces[k]);
                                if name.as_str().unicode_len() > 0 {
                                    match range_index(&found, name.as_str()) {
                                        None => {
                                            put_range(&mut found, name, Some(bounds));
                                        },
                                        Some(x) => {
                                            assert(ranges_view(found@)[x as int].1 == match found@[x as int].1 {
                                                Some((a, b)) => Some((a as int, b as int)),
                                                None => None::<(int, int)>,
                                            });
                                            match found[x].1 {
                                                Some(known) => {
                                                    if known.0 != bounds.0 || known.1 != bounds.1 {
                                                        put_range(&mut found, name, None);
                                                    }
                                                },
                                                None => {},
                                            }
                                        },
                                    }
                                }
                                k = k + 1;
                            }
                            assert(pv.take(k as int) =~= pv);
                        },
                    }
                },
            }
            i = i + 1;
        }
        assert(ds.take(i as int) =~= ds);
        kk = kk + 1;
    }
    found
}


/// The decimal digits of `n`.
fn decimal_u64(n: u64) -> (r: String)
    ensures
        r@ == crate::layout::decimal(n as nat),
    decreases n,
{
    let digit = (n % 10) as u8;
    let c = (digit + 48) as char;
    if n < 10 {
        let mut s = String::new();
        s.push(c);
        assert(s@ =~= crate::layout::decimal(n as nat));
        s
    } else {
        let mut s = decimal_u64(n / 10);
        s.push(c);
        s
    }
}

/// An integer as `i64`'s `Display` writes it.
fn signed_decimal_string(n: i64) -> (r: String)
    ensures
        r@ == signed_decimal(n as int),
{
    if n < 0 {
        let wide: i128 = 0i128 - (n as i128);
        assert(0 < wide <= 0x8000_0000_0000_0000);
        let m = wide as u64;
        let mut s = String::from_str("-");
        let digits = decimal_u64(m);
        s.append(digits.as_str());
        s
    } else {
        decimal_u64(n as u64)
    }
}

/// What `lint_780` reports of one name, if anything.
fn index_finding_of(
    name: &Node,
    ranges: &Vec<(String, Option<(i64, i64)>)>,
    source: &[u8],
    utf8: bool,
    file: &PathBuf,
) -> (r: Option<Finding>)
    requires
        4 * source@.len() < usize::MAX,
    ensures
        match r {
            Some(f) => index_finding(*name, ranges_view(ranges@), source@, utf8) == Some(finding_view(f)),
            None => index_finding(*name, ranges_view(ranges@), source@, utf8) is None,
        },
{
    let parts = children(name);
    if parts.len() != 2 {
        return None;
    }
    assert(nodes_of(parts@)[0] == *parts@[0]);
    assert(nodes_of(parts@)[1] == *parts@[1]);
    if parts[0].kind != Kind::NameDesignatorPrefix || parts[1].kind != Kind::ParenthesizedName {
        return None;
    }
    let prefix = text_of(parts[0]);
    let (pa, pb) = trim_range(&prefix, 0, prefix.len());
    assert(prefix@.subrange(0, prefix@.len() as int) =~= prefix@);
    let object = crate::analysis::choices::lower_string(&prefix, pa, pb);
    let x = match range_index(ranges, object.as_str()) {
        Some(x) => x,
        None => return None,
    };
    assert(ranges_view(ranges@)[x as int].1 == match ranges@[x as int].1 {
        Some((a, b)) => Some((a as int, b as int)),
        None => None::<(int, int)>,
    });
    let (low, high) = match ranges[x].1 {
        Some(b) => b,
        None => return None,
    };
    let t = text_of(parts[1]);
    let (a, b) = trim_range(&t, 0, t.len());
    assert(t@.subrange(0, t@.len() as int) =~= t@);
    let mut from = a;
    while from < b && t[from] == '('
        invariant
            a <= from <= b <= t@.len(),
            trim_start_char(trimmed(t@), '(') == trim_start_char(t@.subrange(from as int, b as int), '('),
        decreases b - from,
    {
        assert(t@.subrange(from as int, b as int).skip(1) =~= t@.subrange(from + 1, b as int));
        from = from + 1;
    }
    proof {
        let u = t@.subrange(from as int, b as int);
        if from < b {
            assert(u[0] == t@[from as int]);
        } else {
            assert(u =~= Seq::<char>::empty());
        }
        assert(trim_start_char(u, '(') == u);
    }
    let mut to = b;
    while to > from && t[to - 1] == ')'
        invariant
            from <= to <= b <= t@.len(),
            trim_end_char(trim_start_char(trimmed(t@), '('), ')') == trim_end_char(t@.subrange(from as int, to as int), ')'),
        decreases to - from,
    {
        assert(t@.subrange(from as int, to as int).drop_last() =~= t@.subrange(from as int, to - 1));
        to = to - 1;
    }
    proof {
        let u = t@.subrange(from as int, to as int);
        if to > from {
            assert(u.last() == t@[to - 1]);
        } else {
            assert(u =~= Seq::<char>::empty());
        }
        assert(trim_end_char(u, ')') == u);
    }
    let (f0, f1) = trim_range(&t, from, to);
    let at = match parse_i64(&t, f0, f1) {
        Some(n) => n,
        None => return None,
    };
    if at >= low && at <= high {
        return None;
    }
    let toks = all_tokens(name);
    if toks.len() == 0 {
        return None;
    }
    assert(tokens_of(toks@)[0] == *toks@[0]);
    let (line, column) = line_col(source, utf8, toks[0].offset);
    let mut message = String::from_str("Index ");
    let s_at = signed_decimal_string(at);
    message.append(s_at.as_str());
    message.append(" is outside the range ");
    let s_low = signed_decimal_string(low);
    message.append(s_low.as_str());
    message.append(" to ");
    let s_high = signed_decimal_string(high);
    message.append(s_high.as_str());
    message.append(" of '");
    message.append(object.as_str());
    message.append("'. Evaluating this raises an error: an index has to be within the array's range.");
    let f = Finding { file: file.clone(), rule: "lint_780", line, column, message, related: Vec::new() };
    proof {
        assert(f.related@.map_values(|r: Related| related_view(r)) =~= Seq::<(int, int, Seq<char>)>::empty());
    }
    Some(f)
}

/// How `lint_781` names the operator of a token text (in lower case), if it divides.
fn division_name(t: &str) -> (r: Option<&'static str>)
    ensures
        match r {
            Some(n) => division_word(t@) == Some(n@),
            None => division_word(t@) is None,
        },
{
    if str_eq(t, "/") {
        Some("Division")
    } else if str_eq(t, "mod") {
        Some("`mod`")
    } else if str_eq(t, "rem") {
        Some("`rem`")
    } else {
        None
    }
}

/// `lint_780` and `lint_781` of a file: an index outside the declared range of the array it
/// selects from, and a division, `mod` or `rem` whose divisor is written as zero, for the
/// syntax tree `root` of `source`; `zero` says of each token of the file, in order, whether its
/// text reads as a number equal to zero. In order of place.
pub fn check(root: &Node, source: &[u8], file: &PathBuf, zero: &Vec<bool>) -> (r: Vec<Finding>)
    requires
        4 * source@.len() < usize::MAX,
        zero@.len() == spec_tokens(*root).len(),
    ensures
        finding_views(r@) == spec_check(*root, source@, zero@),
{
    let utf8 = crate::reflow::is_utf8(source);
    let ranges = declared_ranges(root);
    let ghost rv = ranges_view(ranges@);
    let names = find(root, Kind::Name);
    let ghost ns = nodes_of(names@);
    let mut out: Vec<Finding> = Vec::new();
    let ghost mut gen = Seq::<SFinding>::empty();
    assert(finding_views(out@) =~= sort_findings(gen));
    let mut i: usize = 0;
    assert(ns.take(0) =~= Seq::<Node>::empty());
    while i < names.len()
        invariant
            0 <= i <= names@.len(),
            4 * source@.len() < usize::MAX,
            ns == nodes_of(names@),
            rv == ranges_view(ranges@),
            gen == index_findings(ns.take(i as int), rv, source@, utf8),
            finding_views(out@) == sort_findings(gen),
        decreases names@.len() - i,
    {
        assert(ns.take(i + 1).drop_last() =~= ns.take(i as int));
        assert(ns.take(i + 1).last() == *names@[i as int]);
        match index_finding_of(names[i], &ranges, source, utf8, file) {
            Some(f) => {
                put_finding(&mut out, f);
                proof {
                    crate::analysis::design::lemma_sort_append(gen, finding_view(f));
                    gen = gen.push(finding_view(f));
                }
            },
            None => {},
        }
        assert(gen =~= index_findings(ns.take(i + 1), rv, source@, utf8));
        i = i + 1;
    }
    assert(ns.take(i as int) =~= ns);
    let ghost start = gen;
    let toks = all_tokens(root);
    let ghost ts = tokens_of(toks@);
    let mut k: usize = 1;
    assert(start + division_findings(ts, zero@, 1, source@, utf8) =~= start);
    while k < toks.len()
        invariant
            1 <= k,
            k <= toks@.len() || toks@.len() == 0,
            4 * source@.len() < usize::MAX,
            ts == tokens_of(toks@),
            ts == spec_tokens(*root),
            zero@.len() == ts.len(),
            gen == start + division_findings(ts, zero@, k as int, source@, utf8),
            finding_views(out@) == sort_findings(gen),
        decreases toks@.len() - k,
    {
        assert(ts[k - 1] == *toks@[k - 1]);
        assert(ts[k as int] == *toks@[k as int]);
        let low = crate::analysis::syntax::lower_text(toks[k - 1]);
        let op = string_of(&low, 0, low.len());
        assert(low@.subrange(0, low@.len() as int) =~= low@);
        match division_name(op.as_str()) {
            Some(word) => {
                if zero[k] {
                    let (line, column) = line_col(source, utf8, toks[k].offset);
                    let mut message = String::from_str(word);
                    message.append(" by zero. Evaluating this raises an error: the right operand of `/`, `mod` and `rem` may not be zero.");
                    let f = Finding { file: file.clone(), rule: "lint_781", line, column, message, related: Vec::new() };
                    proof {
                        assert(f.related@.map_values(|r: Related| related_view(r)) =~= Seq::<(int, int, Seq<char>)>::empty());
                    }
                    put_finding(&mut out, f);
                    proof {
                        crate::analysis::design::lemma_sort_append(gen, finding_view(f));
                        gen = gen.push(finding_view(f));
                    }
                }
            },
            None => {},
        }
        assert(gen =~= start + division_findings(ts, zero@, k + 1, source@, utf8));
        k = k + 1;
    }
    proof {
        if ts.len() == 0 {
            assert(division_findings(ts, zero@, k as int, source@, utf8) =~= division_findings(ts, zero@, 0, source@, utf8));
        }
    }
    out
}

} // verus!
