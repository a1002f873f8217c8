//! Design checks the analyser does not do. `lint_601` — a signal assigned by more than one
//! concurrent statement — compares assignment targets as designator paths: `q(3)` and `q(4)`,
//! `rec.a` and `rec.b`, and `a(0)(1)` and `a(0)(2)` are different things to drive, while `q`
//! and `q(3)` are not.
use vstd::prelude::*;
use vstd::string::{StrSliceExecFns, StringExecFns};

use crate::analysis::syntax::{
    all_tokens, children, children_upto, find, lemma_child_decreases, nodes_of, spec_children, spec_find,
    spec_text_of, spec_tokens, text_of, tokens_of, Element, Kind, Node, Token,
};
use crate::analysis::lint::{finding_view, finding_views, related_view, Finding, Related, SFinding};
use crate::bytes::str_eq;
use crate::text::{line_col, spec_line_col};
use std::path::PathBuf;
use crate::chars::{
    all_digits, chars_of, find_from, find_seq, is_ws, lower_all, lowered, occurs_at, parse_i64,
    spec_parse_i64, trim_end_at, trim_range, trim_start_at, trimmed,
};

verus! {

/// One step of a designator path after its base name.
#[derive(Debug, Clone, PartialEq, Eq)]
pub enum Selector {
    Field(String),
    Index(Vec<String>),
}

/// The mathematical form of a [`Selector`].
pub ghost enum SSelector {
    Field(Seq<char>),
    Index(Seq<Seq<char>>),
}

pub open spec fn strings_view(v: Seq<String>) -> Seq<Seq<char>> {
    Seq::new(v.len(), |i: int| v[i]@)
}

pub open spec fn selector_view(s: Selector) -> SSelector {
    match s {
        Selector::Field(f) => SSelector::Field(f@),
        Selector::Index(v) => SSelector::Index(strings_view(v@)),
    }
}

pub open spec fn selectors_view(v: Seq<Selector>) -> Seq<SSelector> {
    Seq::new(v.len(), |i: int| selector_view(v[i]))
}

/// Where the first `.` or `(` at or after `i` is, or the length of `s`.
pub open spec fn next_step(s: Seq<char>, i: int) -> int
    decreases s.len() - i,
{
    if i >= s.len() {
        s.len() as int
    } else if s[i] == '.' || s[i] == '(' {
        i
    } else {
        next_step(s, i + 1)
    }
}

/// Where the parenthesis opened at or before `i` closes, with `depth` open so far, or the
/// length of `s`.
pub open spec fn closing(s: Seq<char>, i: int, depth: int) -> int
    decreases s.len() - i,
{
    if i < 0 || i >= s.len() {
        s.len() as int
    } else if s[i] == '(' {
        closing(s, i + 1, depth + 1)
    } else if s[i] == ')' && depth <= 1 {
        i
    } else if s[i] == ')' {
        closing(s, i + 1, depth - 1)
    } else {
        closing(s, i + 1, depth)
    }
}

/// `t` split at every `,`, each piece trimmed.
pub open spec fn split_commas(t: Seq<char>) -> Seq<Seq<char>>
    decreases t.len(),
{
    if t.len() == 0 {
        seq![Seq::empty()]
    } else {
        let rest = split_commas(t.drop_last());
        if t.last() == ',' {
            rest.push(Seq::empty())
        } else {
            rest.update(rest.len() - 1, rest.last().push(t.last()))
        }
    }
}

/// [`split_commas`] with each piece trimmed.
pub open spec fn index_parts(t: Seq<char>) -> Seq<Seq<char>> {
    split_commas(t).map_values(|p: Seq<char>| trimmed(p))
}

/// The base name and the steps of the designator path `s[pos..]`, given the base and the steps
/// read so far.
pub open spec fn path_from(s: Seq<char>, pos: int, base: Seq<char>, steps: Seq<SSelector>) -> (
    Seq<char>,
    Seq<SSelector>,
)
    decreases s.len() - pos,
{
    if pos < 0 || pos > s.len() {
        (base, steps)
    } else {
        let stop = next_step(s, pos);
        proof {
            lemma_next_step(s, pos);
            if stop < s.len() {
                lemma_closing(s, stop, 0);
            }
        }
        let word = s.subrange(pos, stop);
        let (base1, steps1) = if base.len() == 0 && steps.len() == 0 {
            (base + word, steps)
        } else if word.len() > 0 {
            (base, steps.push(SSelector::Field(word)))
        } else {
            (base, steps)
        };
        if stop >= s.len() {
            (base1, steps1)
        } else if s[stop] == '.' {
            if stop + 1 >= s.len() {
                (base1, steps1)
            } else {
                path_from(s, stop + 1, base1, steps1)
            }
        } else {
            let end = closing(s, stop, 0);
            let inside = if stop + 1 <= end {
                s.subrange(stop + 1, end)
            } else {
                Seq::empty()
            };
            let steps2 = steps1.push(SSelector::Index(index_parts(inside)));
            if end + 1 >= s.len() {
                (base1, steps2)
            } else {
                path_from(s, end + 1, base1, steps2)
            }
        }
    }
}

/// Split a designator such as `rec.arr(3)(1, 2).f` into its base name and the steps that follow
/// it.
pub open spec fn spec_path(s: Seq<char>) -> (Seq<char>, Seq<SSelector>) {
    if s.len() == 0 {
        (Seq::empty(), Seq::empty())
    } else {
        path_from(s, 0, Seq::empty(), Seq::empty())
    }
}

pub proof fn lemma_next_step(s: Seq<char>, i: int)
    requires
        0 <= i <= s.len(),
    ensures
        i <= next_step(s, i) <= s.len(),
        next_step(s, i) < s.len() ==> (s[next_step(s, i)] == '.' || s[next_step(s, i)] == '('),
    decreases s.len() - i,
{
    if i < s.len() && !(s[i] == '.' || s[i] == '(') {
        lemma_next_step(s, i + 1);
    }
}

pub proof fn lemma_closing(s: Seq<char>, i: int, depth: int)
    requires
        0 <= i <= s.len(),
    ensures
        i <= closing(s, i, depth) <= s.len(),
    decreases s.len() - i,
{
    if i < s.len() {
        if s[i] == '(' {
            lemma_closing(s, i + 1, depth + 1);
        } else if s[i] == ')' && depth <= 1 {
        } else if s[i] == ')' {
            lemma_closing(s, i + 1, depth - 1);
        } else {
            lemma_closing(s, i + 1, depth);
        }
    }
}

/// The text of `chars[from..to]` as a string.
fn piece(text: &str, chars: &Vec<char>, from: usize, to: usize) -> (r: String)
    requires
        chars@ == text@,
        from <= to <= chars@.len(),
    ensures
        r@ == chars@.subrange(from as int, to as int),
{
    text.substring_char(from, to).to_owned()
}

/// The trimmed pieces between commas of `chars[from..to]`, as strings.
fn index_strings(text: &str, chars: &Vec<char>, from: usize, to: usize) -> (r: Vec<String>)
    requires
        chars@ == text@,
        from <= to <= chars@.len(),
    ensures
        strings_view(r@) == index_parts(chars@.subrange(from as int, to as int)),
{
    let ghost t = chars@.subrange(from as int, to as int);
    let mut out: Vec<String> = Vec::new();
    let mut start = from;
    let mut i = from;
    while i < to
        invariant
            from <= start <= i <= to <= chars@.len(),
            chars@ == text@,
            t == chars@.subrange(from as int, to as int),
            ({
                let parts = split_commas(chars@.subrange(from as int, i as int));
                &&& parts.len() == out@.len() + 1
                &&& forall|k: int| 0 <= k < out@.len() ==> out@[k]@ == #[trigger] trimmed(parts[k])
                &&& parts.last() == chars@.subrange(start as int, i as int)
            }),
        decreases to - i,
    {
        proof {
            assert(chars@.subrange(from as int, i + 1).drop_last() =~= chars@.subrange(
                from as int,
                i as int,
            ));
        }
        if chars[i] == ',' {
            let (a, b) = trim_range(chars, start, i);
            out.push(piece(text, chars, a, b));
            start = i + 1;
            proof {
                assert(chars@.subrange(start as int, i + 1) =~= Seq::<char>::empty());
            }
        } else {
            proof {
                assert(chars@.subrange(start as int, i + 1) =~= chars@.subrange(
                    start as int,
                    i as int,
                ).push(chars@[i as int]));
            }
        }
        i = i + 1;
    }
    let (a, b) = trim_range(chars, start, to);
    out.push(piece(text, chars, a, b));
    proof {
        assert(strings_view(out@) =~= index_parts(t));
    }
    out
}

/// Split `rec.arr(3)(1, 2).f` into its base name and the steps that follow it.
pub fn path(target: &str) -> (r: (String, Vec<Selector>))
    ensures
        r.0@ == spec_path(target@).0,
        selectors_view(r.1@) == spec_path(target@).1,
{
    let s = chars_of(target);
    let mut base = String::new();
    let mut selectors: Vec<Selector> = Vec::new();
    if s.len() == 0 {
        proof {
            assert(selectors_view(selectors@) =~= Seq::<SSelector>::empty());
        }
        return (base, selectors);
    }
    let mut pos: usize = 0;
    proof {
        assert(selectors_view(selectors@) =~= Seq::<SSelector>::empty());
    }
    loop
        invariant
            s@ == target@,
            0 <= pos < s@.len(),
            spec_path(target@) == path_from(s@, pos as int, base@, selectors_view(selectors@)),
        decreases s@.len() - pos,
    {
        let ghost sv = s@;
        let ghost before = selectors_view(selectors@);
        let ghost base0 = base@;
        let mut stop = pos;
        while stop < s.len() && s[stop] != '.' && s[stop] != '('
            invariant
                pos <= stop <= s@.len(),
                next_step(s@, pos as int) == next_step(s@, stop as int),
            decreases s@.len() - stop,
        {
            stop = stop + 1;
        }
        proof {
            lemma_next_step(s@, pos as int);
        }
        if base.as_str().is_empty() && selectors.len() == 0 {
            let word = piece(target, &s, pos, stop);
            base.append(word.as_str());
            proof {
                assert(selectors_view(selectors@) =~= before);
            }
        } else if stop > pos {
            let word = piece(target, &s, pos, stop);
            selectors.push(Selector::Field(word));
            proof {
                assert(selectors_view(selectors@) =~= before.push(SSelector::Field(sv.subrange(pos as int, stop as int))));
            }
        } else {
            proof {
                assert(sv.subrange(pos as int, stop as int) =~= Seq::<char>::empty());
            }
        }
        if stop >= s.len() {
            return (base, selectors);
        }
        if s[stop] == '.' {
            if stop + 1 >= s.len() {
                return (base, selectors);
            }
            pos = stop + 1;
        } else {
            // Find the parenthesis this one closes, so nested parentheses travel with it.
            let mut depth: usize = 0;
            let mut end = s.len();
            let mut at = stop;
            while at < s.len()
                invariant_except_break
                    end == s@.len(),
                    closing(sv, stop as int, 0) == closing(sv, at as int, depth as int),
                invariant
                    stop <= at <= s@.len(),
                    s@ == sv,
                    depth <= at - stop,
                ensures
                    end == closing(sv, stop as int, 0),
                decreases s@.len() - at,
            {
                let c = s[at];
                if c == '(' {
                    depth = depth + 1;
                } else if c == ')' {
                    if depth <= 1 {
                        end = at;
                        break;
                    }
                    depth = depth - 1;
                }
                at = at + 1;
            }
            proof {
                lemma_closing(sv, stop as int, 0);
            }
            let parts = if stop + 1 <= end {
                index_strings(target, &s, stop + 1, end)
            } else {
                let mut empty: Vec<String> = Vec::new();
                empty.push(String::new());
                proof {
                    assert(trimmed(Seq::<char>::empty()) =~= Seq::<char>::empty());
                    assert(strings_view(empty@) =~= index_parts(Seq::<char>::empty()));
                }
                empty
            };
            let ghost mid = selectors_view(selectors@);
            selectors.push(Selector::Index(parts));
            proof {
                assert(selectors_view(selectors@) =~= mid.push(SSelector::Index(strings_view(parts@))));
            }
            if end >= s.len() - 1 {
                return (base, selectors);
            }
            pos = end + 1;
        }
    }
}


/// `downto`.
pub open spec fn downto_word() -> Seq<char> {
    seq!['d', 'o', 'w', 'n', 't', 'o']
}

/// `to`.
pub open spec fn to_word() -> Seq<char> {
    seq!['t', 'o']
}

/// The bounds of a range read from two sides, smaller first, when both are integers.
pub open spec fn both_bounds(left: Seq<char>, right: Seq<char>) -> Option<(int, int)> {
    match (spec_parse_i64(trimmed(left)), spec_parse_i64(trimmed(right))) {
        (Some(a), Some(b)) => Some(
            (
                if a <= b {
                    a
                } else {
                    b
                },
                if a <= b {
                    b
                } else {
                    a
                },
            ),
        ),
        _ => None,
    }
}

/// The bounds of an index or a range whose bounds are integer literals: `3`, `7 downto 0`, or
/// `7downto0` as a target's text (which drops the blanks between tokens) spells it.
pub open spec fn spec_static_range(s: Seq<char>) -> Option<(int, int)> {
    match spec_parse_i64(trimmed(s)) {
        Some(n) => Some((n, n)),
        None => {
            let lower = lowered(s);
            match find_from(lower, downto_word(), 0) {
                Some(k) => both_bounds(lower.take(k), lower.skip(k + 6)),
                None => match find_from(lower, to_word(), 0) {
                    Some(k) => both_bounds(lower.take(k), lower.skip(k + 2)),
                    None => None,
                },
            }
        },
    }
}

/// [`both_bounds`] of `v[..k]` and `v[k + len..]`.
pub fn bounds_around(v: &Vec<char>, k: usize, len: usize) -> (r: Option<(i64, i64)>)
    requires
        k + len <= v@.len(),
    ensures
        match r {
            Some((a, b)) => both_bounds(v@.take(k as int), v@.skip(k + len)) == Some((a as int, b as int)),
            None => both_bounds(v@.take(k as int), v@.skip(k + len)) is None,
        },
{
    let n = v.len();
    let (l0, l1) = trim_range(v, 0, k);
    let (r0, r1) = trim_range(v, k + len, n);
    proof {
        assert(v@.subrange(0, k as int) =~= v@.take(k as int));
        assert(v@.subrange(k + len, v@.len() as int) =~= v@.skip(k + len));
    }
    let a = match parse_i64(v, l0, l1) {
        Some(n) => n,
        None => {
            return None;
        },
    };
    let b = match parse_i64(v, r0, r1) {
        Some(n) => n,
        None => {
            return None;
        },
    };
    if a <= b {
        Some((a, b))
    } else {
        Some((b, a))
    }
}

/// The bounds of an index or a range whose bounds are integer literals.
fn static_range(text: &str) -> (r: Option<(i64, i64)>)
    ensures
        match r {
            Some((a, b)) => spec_static_range(text@) == Some((a as int, b as int)),
            None => spec_static_range(text@) is None,
        },
{
    let v = chars_of(text);
    let (t0, t1) = trim_range(&v, 0, v.len());
    proof {
        assert(v@.subrange(0, v@.len() as int) =~= v@);
    }
    if let Some(n) = parse_i64(&v, t0, t1) {
        return Some((n, n));
    }
    let lower = lower_all(&v);
    let downto = chars_of("downto");
    let to = chars_of("to");
    proof {
        reveal_strlit("downto");
        reveal_strlit("to");
        assert(downto@ =~= downto_word());
        assert(to@ =~= to_word());
    }
    if let Some(k) = find_seq(&lower, &downto) {
        proof {
            crate::analysis::width::lemma_found_occurs(lower@, downto_word(), 0);
        }
        return bounds_around(&lower, k, 6);
    }
    if let Some(k) = find_seq(&lower, &to) {
        proof {
            crate::analysis::width::lemma_found_occurs(lower@, to_word(), 0);
        }
        return bounds_around(&lower, k, 2);
    }
    None
}

// Ranges with and without blanks around their keyword -------------------------------------------

/// `l`, the range keyword (`downto` when `descending`, else `to`) and `r`, written together as a
/// target's text writes them.
pub open spec fn tight_range(l: Seq<char>, r: Seq<char>, descending: bool) -> Seq<char> {
    l + (if descending { downto_word() } else { to_word() }) + r
}

/// `l`, the range keyword and `r` with a blank on each side of the keyword, as source text
/// writes them.
pub open spec fn spaced_range(l: Seq<char>, r: Seq<char>, descending: bool) -> Seq<char> {
    l + seq![' '] + (if descending { downto_word() } else { to_word() }) + seq![' '] + r
}

proof fn lemma_find_at(s: Seq<char>, pat: Seq<char>, i: int, k: int)
    requires
        0 <= i <= k,
        occurs_at(s, pat, k),
        forall|j: int| i <= j < k ==> !occurs_at(s, pat, j),
    ensures
        find_from(s, pat, i) == Some(k),
    decreases k - i,
{
    if i < k {
        lemma_find_at(s, pat, i + 1, k);
    }
}

proof fn lemma_find_none(s: Seq<char>, pat: Seq<char>, i: int)
    requires
        0 <= i,
        forall|j: int| i <= j ==> !occurs_at(s, pat, j),
    ensures
        find_from(s, pat, i) is None,
    decreases s.len() + 1 - i,
{
    if !(i + pat.len() > s.len()) {
        lemma_find_none(s, pat, i + 1);
    }
}

proof fn lemma_trimmed_digits(l: Seq<char>)
    requires
        all_digits(l),
    ensures
        trimmed(l) == l,
        trimmed(l + seq![' ']) == l,
        trimmed(seq![' '] + l) == l,
{
    let a = l + seq![' '];
    let b = seq![' '] + l;
    assert(!is_ws(l.last()) && !is_ws(l[0]));
    assert(trim_end_at(l) == l.len());
    assert(l.take(l.len() as int) =~= l);
    assert(trim_start_at(l) == 0);
    assert(l.skip(0) =~= l);
    assert(a.drop_last() =~= l);
    assert(is_ws(a.last()));
    assert(trim_end_at(a) == l.len());
    assert(a.take(l.len() as int) =~= l);
    assert(b.last() == l.last());
    assert(trim_end_at(b) == b.len());
    assert(b.take(b.len() as int) =~= b);
    assert(b.skip(1) =~= l);
    assert(is_ws(b[0]));
    assert(trim_start_at(b) == 1);
    assert(b.skip(1) =~= l);
}

proof fn lemma_no_upper_lowered(s: Seq<char>)
    requires
        forall|i: int| 0 <= i < s.len() ==> !('A' <= #[trigger] s[i] <= 'Z'),
    ensures
        lowered(s) == s,
{
    assert(lowered(s) =~= s);
}

proof fn lemma_trim_whole(x: Seq<char>)
    requires
        x.len() > 0,
        !is_ws(x[0]),
        !is_ws(x.last()),
    ensures
        trimmed(x) == x,
{
    assert(trim_end_at(x) == x.len());
    assert(x.take(x.len() as int) =~= x);
    assert(trim_start_at(x) == 0);
    assert(x.skip(0) =~= x);
}

proof fn lemma_not_a_number(x: Seq<char>, i: int)
    requires
        0 < i < x.len(),
        '0' <= x[0] <= '9',
        !('0' <= x[i] <= '9'),
    ensures
        spec_parse_i64(x) is None,
{
    assert(!all_digits(x));
}

/// Where `kw` first stands in `x`: at `k`, when `x[k..]` starts with it and no earlier position
/// holds its first character.
proof fn lemma_keyword_at(x: Seq<char>, kw: Seq<char>, k: int)
    requires
        kw.len() > 0,
        0 <= k,
        k + kw.len() <= x.len(),
        x.subrange(k, k + kw.len()) == kw,
        forall|j: int| 0 <= j < k ==> x[j] != kw[0],
    ensures
        find_from(x, kw, 0) == Some(k),
{
    assert forall|j: int| 0 <= j < k implies !occurs_at(x, kw, j) by {
        if occurs_at(x, kw, j) {
            assert(x.subrange(j, j + kw.len())[0] == x[j]);
        }
    }
    lemma_find_at(x, kw, 0, k);
}

/// `downto` stands nowhere in a text without a `d`.
proof fn lemma_no_downto(x: Seq<char>)
    requires
        forall|j: int| 0 <= j < x.len() ==> x[j] != 'd',
    ensures
        find_from(x, downto_word(), 0) is None,
{
    assert forall|j: int| 0 <= j implies !occurs_at(x, downto_word(), j) by {
        if occurs_at(x, downto_word(), j) {
            assert(x.subrange(j, j + 6)[0] == x[j]);
        }
    }
    lemma_find_none(x, downto_word(), 0);
}

/// The bounds of `l`, the range keyword and `r` run together.
#[verifier::rlimit(40)]
proof fn lemma_tight_range(l: Seq<char>, r: Seq<char>, descending: bool)
    requires
        all_digits(l),
        all_digits(r),
    ensures
        spec_static_range(tight_range(l, r, descending)) == both_bounds(l, r),
{
    let kw = if descending { downto_word() } else { to_word() };
    let t = tight_range(l, r, descending);
    let n = l.len() as int;
    let kl = kw.len() as int;
    assert(t =~= l + kw + r);
    assert(forall|i: int| 0 <= i < n ==> t[i] == l[i]);
    assert(forall|i: int| 0 <= i < kl ==> t[n + i] == kw[i]);
    assert(forall|i: int| 0 <= i < r.len() ==> t[n + kl + i] == r[i]);
    assert(t[n] == kw[0]);
    lemma_not_a_number(t, n);
    assert(t.last() == r.last());
    lemma_trim_whole(t);
    assert forall|i: int| 0 <= i < t.len() implies !('A' <= #[trigger] t[i] <= 'Z') by {
        if i < n {
        } else if i < n + kl {
            assert(t[i] == kw[i - n]);
        } else {
            assert(t[i] == r[i - n - kl]);
        }
    }
    lemma_no_upper_lowered(t);
    lemma_trimmed_digits(l);
    lemma_trimmed_digits(r);
    assert(t.subrange(n, n + kl) =~= kw);
    assert(t.take(n) =~= l);
    assert(t.skip(n + kl) =~= r);
    if descending {
        lemma_keyword_at(t, downto_word(), n);
    } else {
        assert forall|j: int| 0 <= j < t.len() implies t[j] != 'd' by {
            if j < n {
            } else if j < n + kl {
                assert(t[j] == kw[j - n]);
            } else {
                assert(t[j] == r[j - n - kl]);
            }
        }
        lemma_no_downto(t);
        lemma_keyword_at(t, to_word(), n);
    }
}

/// The bounds of `l`, the range keyword and `r` with a blank on each side of the keyword.
#[verifier::rlimit(40)]
proof fn lemma_spaced_range(l: Seq<char>, r: Seq<char>, descending: bool)
    requires
        all_digits(l),
        all_digits(r),
    ensures
        spec_static_range(spaced_range(l, r, descending)) == both_bounds(l, r),
{
    let kw = if descending { downto_word() } else { to_word() };
    let s = spaced_range(l, r, descending);
    let n = l.len() as int;
    let kl = kw.len() as int;
    assert(s =~= l + seq![' '] + kw + seq![' '] + r);
    assert(forall|i: int| 0 <= i < n ==> s[i] == l[i]);
    assert(forall|i: int| 0 <= i < kl ==> s[n + 1 + i] == kw[i]);
    assert(forall|i: int| 0 <= i < r.len() ==> s[n + kl + 2 + i] == r[i]);
    assert(s[n] == ' ' && s[n + kl + 1] == ' ');
    lemma_not_a_number(s, n);
    assert(s.last() == r.last());
    lemma_trim_whole(s);
    assert forall|i: int| 0 <= i < s.len() implies !('A' <= #[trigger] s[i] <= 'Z') by {
        if i < n {
        } else if i == n || i == n + kl + 1 {
        } else if i < n + kl + 1 {
            assert(s[i] == kw[i - n - 1]);
        } else {
            assert(s[i] == r[i - n - kl - 2]);
        }
    }
    lemma_no_upper_lowered(s);
    lemma_trimmed_digits(l);
    lemma_trimmed_digits(r);
    assert(s.subrange(n + 1, n + 1 + kl) =~= kw);
    assert(s.take(n + 1) =~= l + seq![' ']);
    assert(s.skip(n + 1 + kl) =~= seq![' '] + r);
    if descending {
        lemma_keyword_at(s, downto_word(), n + 1);
    } else {
        assert forall|j: int| 0 <= j < s.len() implies s[j] != 'd' by {
            if j < n {
            } else if j == n || j == n + kl + 1 {
            } else if j < n + kl + 1 {
                assert(s[j] == kw[j - n - 1]);
            } else {
                assert(s[j] == r[j - n - kl - 2]);
            }
        }
        lemma_no_downto(s);
        lemma_keyword_at(s, to_word(), n + 1);
    }
}

/// A range whose bounds are integer literals reads the same with or without blanks around its
/// keyword: `7 downto 0` and `7downto0` have the same bounds, and so do `0 to 3` and `0to3`.
pub proof fn law_range_ignores_blanks(l: Seq<char>, r: Seq<char>, descending: bool)
    requires
        all_digits(l),
        all_digits(r),
    ensures
        spec_static_range(spaced_range(l, r, descending)) == spec_static_range(tight_range(l, r, descending)),
        spec_static_range(tight_range(l, r, descending)) == both_bounds(l, r),
{
    lemma_tight_range(l, r, descending);
    lemma_spaced_range(l, r, descending);
}

/// What the law above gives an index: `7 downto 0` can name the same element as some index
/// exactly when `7downto0` can (for bounds that are `i64` values).
pub proof fn law_index_ignores_blanks(l: Seq<char>, r: Seq<char>, descending: bool, other: Seq<char>)
    requires
        all_digits(l),
        all_digits(r),
        both_bounds(l, r) is Some,
    ensures
        index_meets(spaced_range(l, r, descending), other) == index_meets(tight_range(l, r, descending), other),
{
    law_range_ignores_blanks(l, r, descending);
    let t = tight_range(l, r, descending);
    let s = spaced_range(l, r, descending);
    lemma_trimmed_digits(l);
    lemma_trimmed_digits(r);
    assert(s.len() == t.len() + 2);
    let (a, b) = both_bounds(l, r)->0;
    assert(a <= b);
}

/// Whether two index expressions can name the same element: the same text, or ranges with
/// integer literal bounds that meet.
pub open spec fn index_meets(a: Seq<char>, b: Seq<char>) -> bool {
    a == b || match (spec_static_range(a), spec_static_range(b)) {
        (Some((a0, a1)), Some((b0, b1))) => a0 <= b1 && b0 <= a1,
        _ => false,
    }
}

/// Whether two index selectors can name the same element: every dimension has to meet.
pub open spec fn spec_indices_overlap(left: Seq<Seq<char>>, right: Seq<Seq<char>>) -> bool {
    left.len() == right.len() && forall|i: int|
        0 <= i < left.len() ==> #[trigger] index_meets(left[i], right[i])
}

/// Whether two index selectors can name the same element. Unknown means "not proven to overlap"
/// and nothing is reported then: `q(i)` and `q(j)` are usually two branches of a generate, and a
/// false accusation of a double driver is worse than a missed one.
fn indices_overlap(left: &Vec<String>, right: &Vec<String>) -> (r: bool)
    ensures
        r == spec_indices_overlap(strings_view(left@), strings_view(right@)),
{
    if left.len() != right.len() {
        return false;
    }
    let ghost lv = strings_view(left@);
    let ghost rv = strings_view(right@);
    let mut i: usize = 0;
    while i < left.len()
        invariant
            0 <= i <= left@.len(),
            left@.len() == right@.len(),
            lv == strings_view(left@),
            rv == strings_view(right@),
            forall|j: int| 0 <= j < i ==> #[trigger] index_meets(lv[j], rv[j]),
        decreases left@.len() - i,
    {
        let a = left[i].as_str();
        let b = right[i].as_str();
        assert(lv[i as int] == a@ && rv[i as int] == b@);
        if !crate::bytes::str_eq(a, b) {
            let meets = match (static_range(a), static_range(b)) {
                (Some((a0, a1)), Some((b0, b1))) => a0 <= b1 && b0 <= a1,
                _ => false,
            };
            if !meets {
                assert(!index_meets(lv[i as int], rv[i as int]));
                return false;
            }
        }
        i = i + 1;
    }
    true
}

/// Whether two steps of designator paths can name the same thing.
pub open spec fn steps_meet(a: SSelector, b: SSelector) -> bool {
    match (a, b) {
        (SSelector::Field(x), SSelector::Field(y)) => x == y,
        (SSelector::Index(x), SSelector::Index(y)) => spec_indices_overlap(x, y),
        _ => false,
    }
}

/// Whether two assignment targets can drive the same bit: the same base name, and every step
/// that both have meets.
pub open spec fn spec_targets_overlap(left: Seq<char>, right: Seq<char>) -> bool {
    let (lb, lp) = spec_path(left);
    let (rb, rp) = spec_path(right);
    lb == rb && forall|i: int|
        0 <= i < lp.len() && i < rp.len() ==> #[trigger] steps_meet(lp[i], rp[i])
}

/// Whether two assignment targets can drive the same bit.
pub fn targets_overlap(left: &str, right: &str) -> (r: bool)
    ensures
        r == spec_targets_overlap(left@, right@),
{
    let (left_base, left_path) = path(left);
    let (right_base, right_path) = path(right);
    if !crate::bytes::str_eq(left_base.as_str(), right_base.as_str()) {
        return false;
    }
    let ghost lp = selectors_view(left_path@);
    let ghost rp = selectors_view(right_path@);
    let mut i: usize = 0;
    while i < left_path.len() && i < right_path.len()
        invariant
            0 <= i <= left_path@.len(),
            lp == selectors_view(left_path@),
            rp == selectors_view(right_path@),
            lp == spec_path(left@).1,
            rp == spec_path(right@).1,
            spec_path(left@).0 == spec_path(right@).0,
            forall|j: int| 0 <= j < i && j < rp.len() ==> #[trigger] steps_meet(lp[j], rp[j]),
        decreases left_path@.len() - i,
    {
        let ok = match (&left_path[i], &right_path[i]) {
            (Selector::Field(x), Selector::Field(y)) => crate::bytes::str_eq(x.as_str(), y.as_str()),
            (Selector::Index(x), Selector::Index(y)) => indices_overlap(x, y),
            _ => false,
        };
        assert(lp[i as int] == selector_view(left_path@[i as int]));
        assert(rp[i as int] == selector_view(right_path@[i as int]));
        if !ok {
            assert(!steps_meet(lp[i as int], rp[i as int]));
            return false;
        }
        i = i + 1;
    }
    true
}


/// Where the first `/` of `s` at or after `i` is, or the length of `s`.
pub open spec fn next_slash_char(s: Seq<char>, i: int) -> int
    decreases s.len() - i,
{
    if i >= s.len() {
        s.len() as int
    } else if s[i] == '/' {
        i
    } else {
        next_slash_char(s, i + 1)
    }
}

pub proof fn lemma_next_slash_char(s: Seq<char>, i: int)
    requires
        0 <= i <= s.len(),
    ensures
        i <= next_slash_char(s, i) <= s.len(),
        next_slash_char(s, i) < s.len() ==> s[next_slash_char(s, i)] == '/',
    decreases s.len() - i,
{
    if i < s.len() && s[i] != '/' {
        lemma_next_slash_char(s, i + 1);
    }
}


/// Whether `x` is in each of `sets`.
pub open spec fn in_all(x: Seq<char>, sets: Seq<Seq<Seq<char>>>) -> bool {
    forall|k: int| 0 <= k < sets.len() ==> #[trigger] sets[k].contains(x)
}

/// The names of `first`, in its order, that each of `others` holds too.
pub open spec fn common(first: Seq<Seq<char>>, others: Seq<Seq<Seq<char>>>) -> Seq<Seq<char>>
    decreases first.len(),
{
    if first.len() == 0 {
        Seq::empty()
    } else {
        let before = common(first.drop_last(), others);
        if in_all(first.last(), others) {
            before.push(first.last())
        } else {
            before
        }
    }
}

pub open spec fn sets_view(sets: Seq<Vec<String>>) -> Seq<Seq<Seq<char>>> {
    Seq::new(sets.len(), |i: int| strings_view(sets[i]@))
}

/// The names all of `sets` hold, in the order of the first; none when there are no sets.
pub fn intersection(sets: Vec<Vec<String>>) -> (r: Vec<String>)
    ensures
        sets@.len() == 0 ==> r@.len() == 0,
        sets@.len() > 0 ==> strings_view(r@) == common(
            strings_view(sets@[0]@),
            sets_view(sets@).skip(1),
        ),
{
    if sets.len() == 0 {
        return Vec::new();
    }
    let ghost first = strings_view(sets@[0]@);
    let ghost others = sets_view(sets@).skip(1);
    let mut out: Vec<String> = Vec::new();
    let mut i: usize = 0;
    while i < sets[0].len()
        invariant
            sets@.len() > 0,
            0 <= i <= first.len(),
            first == strings_view(sets@[0]@),
            others == sets_view(sets@).skip(1),
            strings_view(out@) == common(first.take(i as int), others),
        decreases first.len() - i,
    {
        let name = &sets[0][i];
        let mut everywhere = true;
        let mut k: usize = 1;
        while k < sets.len()
            invariant
                1 <= k <= sets@.len(),
                others == sets_view(sets@).skip(1),
                name@ == first[i as int],
                0 <= i < first.len(),
                first == strings_view(sets@[0]@),
                everywhere == (forall|m: int| 0 <= m < k - 1 ==> #[trigger] others[m].contains(name@)),
            decreases sets@.len() - k,
        {
            let mut found = false;
            let mut j: usize = 0;
            while j < sets[k].len()
                invariant
                    1 <= k < sets@.len(),
                    0 <= j <= sets@[k as int]@.len(),
                    found == (exists|m: int| 0 <= m < j && #[trigger] sets@[k as int]@[m]@ == name@),
                decreases sets@[k as int]@.len() - j,
            {
                if str_eq(sets[k][j].as_str(), name.as_str()) {
                    found = true;
                }
                j = j + 1;
            }
            proof {
                let set = others[k - 1];
                assert(set == strings_view(sets@[k as int]@));
                if found {
                    let m = choose|m: int| 0 <= m < j && #[trigger] sets@[k as int]@[m]@ == name@;
                    assert(set[m] == name@);
                    assert(set.contains(name@));
                } else {
                    assert forall|m: int| 0 <= m < set.len() implies set[m] != name@ by {
                        assert(set[m] == sets@[k as int]@[m]@);
                    }
                    assert(!set.contains(name@));
                }
                assert(found == others[k - 1].contains(name@));
            }
            everywhere = everywhere && found;
            k = k + 1;
        }
        proof {
            assert(first.take(i + 1).drop_last() =~= first.take(i as int));
            assert(first.take(i + 1).last() == first[i as int]);
        }
        if everywhere {
            out.push(name.clone());
            assert(strings_view(out@) =~= common(first.take(i as int), others).push(name@));
        }
        i = i + 1;
    }
    assert(first.take(first.len() as int) =~= first);
    out
}


/// What `regex::Regex::new(pattern)` says of a pattern: nothing when it compiles, else the
/// error's text.
pub uninterp spec fn regex_error(pattern: Seq<char>) -> Option<Seq<char>>;

/// `regex::Regex::new(pattern)`. Claimed: the outcome, and the error's text, are a function of
/// the pattern alone.
#[verifier::external_body]
pub(crate) fn check_regex(pattern: &str) -> (r: Result<(), String>)
    ensures
        match r {
            Ok(()) => regex_error(pattern@) is None,
            Err(m) => regex_error(pattern@) == Some(m@),
        },
{
    match regex::Regex::new(pattern) {
        Ok(_) => Ok(()),
        Err(e) => Err(e.to_string()),
    }
}

/// The byte spans of the matches `regex::Regex::new(pattern)?.find_iter(text)` yields, in order
/// (none for a pattern that does not compile).
pub uninterp spec fn regex_spans(pattern: Seq<char>, text: Seq<char>) -> Seq<(usize, usize)>;

/// `regex::Regex::new(pattern)?.find_iter(text)`, each match as its byte span. Claimed: the spans
/// are a function of the pattern and the text alone.
#[verifier::external_body]
pub(crate) fn find_spans(pattern: &str, text: &str) -> (r: Vec<(usize, usize)>)
    ensures
        r@ == regex_spans(pattern@, text@),
{
    match regex::Regex::new(pattern) {
        Ok(re) => re.find_iter(text).map(|m| (m.start(), m.end())).collect(),
        Err(_) => Vec::new(),
    }
}

/// One accepted prefix or suffix. Plain text matches itself; `*` and `?` are wildcards, so `_p?`
/// accepts `_p1` through `_p9`; and `re:` takes a regular expression for anything finer, such as
/// `re:_p[0-9]+`.
#[derive(Debug)]
pub struct Affix {
    text: String,
    /// The regular expression of a `re:` affix.
    pattern: Option<String>,
}

/// `text` without a leading `re:`, if it has one.
pub open spec fn regex_of(text: Seq<char>) -> Option<Seq<char>> {
    if text.len() >= 3 && text[0] == 'r' && text[1] == 'e' && text[2] == ':' {
        Some(text.skip(3))
    } else {
        None
    }
}

/// A match span starts the text (`at_start`) or ends a text of `len` bytes.
pub open spec fn anchored(span: (usize, usize), at_start: bool, len: nat) -> bool {
    if at_start {
        span.0 == 0
    } else {
        span.1 == len
    }
}

/// Some match of regular expression `p` in `name` starts it (`at_start`) or ends it.
pub open spec fn regex_anchored(p: Seq<char>, name: Seq<char>, at_start: bool) -> bool {
    exists|k: int|
        0 <= k < regex_spans(p, name).len() && #[trigger] anchored(
            regex_spans(p, name)[k],
            at_start,
            vstd::utf8::encode_utf8(name).len(),
        )
}

/// Whether a name carries an affix: a regular expression matches at the start (for a prefix) or
/// at the end (for a suffix); other text matches as a glob anchored at that end.
pub open spec fn affix_matches(text: Seq<char>, name: Seq<char>, as_prefix: bool) -> bool {
    let bytes = vstd::utf8::encode_utf8(name);
    match regex_of(text) {
        Some(p) => regex_anchored(p, name, as_prefix),
        None => if as_prefix {
            crate::config::spec_glob(vstd::utf8::encode_utf8(text) + seq![42u8], bytes)
        } else {
            crate::config::spec_glob(seq![42u8] + vstd::utf8::encode_utf8(text), bytes)
        },
    }
}

/// The message for an affix whose regular expression does not compile.
pub open spec fn affix_error(text: Seq<char>, e: Seq<char>) -> Seq<char> {
    "`"@ + text + "` is not a regular expression: "@ + e
}

impl Affix {
    pub closed spec fn spec_text(&self) -> Seq<char> {
        self.text@
    }

    /// The pattern is the text's regular expression, if it has one.
    pub closed spec fn wf(&self) -> bool {
        match (self.pattern, regex_of(self.text@)) {
            (Some(p), Some(q)) => p@ == q,
            (None, None) => true,
            _ => false,
        }
    }

    /// The affix written `text`; an error when it is a `re:` affix whose regular expression does
    /// not compile.
    pub fn new(text: &str) -> (r: Result<Affix, String>)
        ensures
            match r {
                Ok(a) => a.wf() && a.spec_text() == text@ && (regex_of(text@) matches Some(p)
                    ==> regex_error(p) is None),
                Err(m) => regex_of(text@) matches Some(p) && regex_error(p) matches Some(e) && m@
                    == affix_error(text@, e),
            },
    {
        let c = chars_of(text);
        if c.len() >= 3 && c[0] == 'r' && c[1] == 'e' && c[2] == ':' {
            let expression = crate::chars::string_of(&c, 3, c.len());
            assert(expression@ =~= text@.skip(3));
            match check_regex(expression.as_str()) {
                Ok(()) => Ok(Affix { text: String::from_str(text), pattern: Some(expression) }),
                Err(e) => {
                    let mut m = String::from_str("`");
                    m.append(text);
                    m.append("` is not a regular expression: ");
                    m.append(e.as_str());
                    Err(m)
                },
            }
        } else {
            Ok(Affix { text: String::from_str(text), pattern: None })
        }
    }

    /// Whether `name` carries this affix, at its start (`as_prefix`) or at its end.
    pub fn matches(&self, name: &str, as_prefix: bool) -> (r: bool)
        requires
            self.wf(),
        ensures
            r == affix_matches(self.spec_text(), name@, as_prefix),
    {
        match &self.pattern {
            Some(pattern) => {
                let spans = find_spans(pattern.as_str(), name);
                let ghost sv = regex_spans(pattern@, name@);
                let bytes = name.as_bytes();
                let len = bytes.len();
                assert(regex_of(self.spec_text()) == Some(pattern@));
                assert(len == vstd::utf8::encode_utf8(name@).len());
                let mut k: usize = 0;
                while k < spans.len()
                    invariant
                        0 <= k <= spans@.len(),
                        spans@ == sv,
                        sv == regex_spans(pattern@, name@),
                        regex_of(self.spec_text()) == Some(pattern@),
                        len == vstd::utf8::encode_utf8(name@).len(),
                        forall|j: int| 0 <= j < k ==> !#[trigger] anchored(sv[j], as_prefix, len as nat),
                    decreases spans@.len() - k,
                {
                    let (start, end) = spans[k];
                    assert(sv[k as int] == (start, end));
                    if (as_prefix && start == 0) || (!as_prefix && end == len) {
                        assert(anchored(
                            regex_spans(pattern@, name@)[k as int],
                            as_prefix,
                            vstd::utf8::encode_utf8(name@).len(),
                        ));
                        assert(regex_anchored(pattern@, name@, as_prefix));
                        return true;
                    }
                    k = k + 1;
                }
                proof {
                    assert forall|j: int|
                        0 <= j < regex_spans(pattern@, name@).len() implies !#[trigger] anchored(
                        regex_spans(pattern@, name@)[j],
                        as_prefix,
                        vstd::utf8::encode_utf8(name@).len(),
                    ) by {
                        assert(!anchored(sv[j], as_prefix, len as nat));
                    }
                    assert(!regex_anchored(pattern@, name@, as_prefix));
                }
                false
            },
            None => {
                let mut glob_pattern: Vec<u8> = Vec::new();
                if as_prefix {
                    crate::bytes::extend_bytes(&mut glob_pattern, self.text.as_str().as_bytes());
                    glob_pattern.push(42u8);
                } else {
                    glob_pattern.push(42u8);
                    crate::bytes::extend_bytes(&mut glob_pattern, self.text.as_str().as_bytes());
                }
                proof {
                    assert(regex_of(self.spec_text()) is None);
                    if !as_prefix {
                        assert(glob_pattern@ =~= seq![42u8] + vstd::utf8::encode_utf8(self.text@));
                    } else {
                        assert(glob_pattern@ =~= vstd::utf8::encode_utf8(self.text@) + seq![42u8]);
                    }
                }
                crate::config::glob(glob_pattern.as_slice(), name.as_bytes())
            },
        }
    }
}

/// How registered signals are expected to be named: `lint_602` for the suffix and `lint_603` for
/// the prefix, each off unless its list is set, so a project can ask for either or both.
#[derive(Debug)]
pub struct Naming {
    /// `lint_603`.
    pub prefixes: Vec<Affix>,
    /// `lint_602`.
    pub suffixes: Vec<Affix>,
}

/// `items` as a list in prose: `a`, `a or b`, `a, b or c`.
pub open spec fn prose_list(items: Seq<Seq<char>>) -> Seq<char> {
    if items.len() == 0 {
        Seq::empty()
    } else if items.len() == 1 {
        items[0]
    } else {
        crate::indent::joined(items.drop_last()) + " or "@ + items.last()
    }
}

/// Each affix quoted.
pub open spec fn quoted_texts(list: Seq<Affix>) -> Seq<Seq<char>> {
    Seq::new(list.len(), |i: int| "'"@ + list[i].spec_text() + "'"@)
}

impl Naming {
    /// The affixes of `list` quoted, as a list in prose.
    pub fn quoted(list: &[Affix]) -> (r: String)
        ensures
            r@ == prose_list(quoted_texts(list@)),
    {
        let ghost q = quoted_texts(list@);
        let n = list.len();
        let mut out = String::new();
        if n == 0 {
            return out;
        }
        let mut i: usize = 0;
        assert(q.take(0) =~= Seq::<Seq<char>>::empty());
        // All but the last, separated by `, `.
        while i + 1 < n
            invariant
                0 <= i < n,
                n == list@.len(),
                q == quoted_texts(list@),
                out@ == crate::indent::joined(q.take(i as int)),
            decreases n - i,
        {
            assert(q.take(i + 1).drop_last() =~= q.take(i as int));
            assert(q.take(i + 1).last() == q[i as int]);
            if i > 0 {
                out.append(", ");
            } else {
                assert(q.take(1)[0] == q[0]);
                assert(out@ + q[0] =~= q[0]);
            }
            out.append("'");
            out.append(list[i].text.as_str());
            out.append("'");
            assert(q[i as int] == "'"@ + list@[i as int].spec_text() + "'"@);
            i = i + 1;
        }
        assert(q.take(i as int) =~= q.drop_last());
        if n > 1 {
            out.append(" or ");
        } else {
            assert(out@ =~= Seq::<char>::empty());
        }
        out.append("'");
        out.append(list[n - 1].text.as_str());
        out.append("'");
        assert(q.last() == "'"@ + list@[n - 1].spec_text() + "'"@);
        out
    }
}


/// The affixes of `list`, each as written.
pub open spec fn affix_texts(list: Seq<Affix>) -> Seq<Seq<char>> {
    Seq::new(list.len(), |i: int| list[i].spec_text())
}

/// Some affix of `list` is carried by `name` at the start (`as_prefix`) or at the end.
pub open spec fn any_affix(list: Seq<Affix>, name: Seq<char>, as_prefix: bool) -> bool {
    exists|i: int| 0 <= i < list.len() && #[trigger] affix_matches(list[i].spec_text(), name, as_prefix)
}

/// The message for a registered signal without an accepted affix (`what`: `suffix`, `prefix`).
pub open spec fn naming_message(name: Seq<char>, what: Seq<char>, list: Seq<Affix>) -> Seq<char> {
    "Registered signal '"@ + name + "' does not have the "@ + what + " "@ + prose_list(quoted_texts(list))
}

/// What `lint_602` (suffixes) and `lint_603` (prefixes) report of a registered signal `name`:
/// each rule whose list is set and none of whose affixes the name carries.
pub open spec fn spec_naming_findings(n: Naming, name: Seq<char>) -> Seq<(&'static str, Seq<char>)> {
    let suffix = if n.suffixes@.len() > 0 && !any_affix(n.suffixes@, name, false) {
        seq![("lint_602", naming_message(name, "suffix"@, n.suffixes@))]
    } else {
        Seq::empty()
    };
    let prefix = if n.prefixes@.len() > 0 && !any_affix(n.prefixes@, name, true) {
        seq![("lint_603", naming_message(name, "prefix"@, n.prefixes@))]
    } else {
        Seq::empty()
    };
    suffix + prefix
}

pub open spec fn findings_view(v: Seq<(&'static str, String)>) -> Seq<(&'static str, Seq<char>)> {
    Seq::new(v.len(), |i: int| (v[i].0, v[i].1@))
}

/// Whether some affix of `list` is carried by `name`.
fn carries(list: &Vec<Affix>, name: &str, as_prefix: bool) -> (r: bool)
    requires
        forall|i: int| 0 <= i < list@.len() ==> (#[trigger] list@[i]).wf(),
    ensures
        r == any_affix(list@, name@, as_prefix),
{
    let mut i: usize = 0;
    while i < list.len()
        invariant
            0 <= i <= list@.len(),
            forall|j: int| 0 <= j < list@.len() ==> (#[trigger] list@[j]).wf(),
            forall|j: int| 0 <= j < i ==> !#[trigger] affix_matches(list@[j].spec_text(), name@, as_prefix),
        decreases list@.len() - i,
    {
        if list[i].matches(name, as_prefix) {
            return true;
        }
        i = i + 1;
    }
    false
}

fn naming_finding(name: &str, what: &str, list: &Vec<Affix>) -> (r: String)
    ensures
        r@ == naming_message(name@, what@, list@),
{
    let mut m = String::from_str("Registered signal '");
    m.append(name);
    m.append("' does not have the ");
    m.append(what);
    m.append(" ");
    let q = Naming::quoted(list.as_slice());
    m.append(q.as_str());
    m
}

impl Naming {
    /// The affixes are as [`Affix::new`] makes them.
    pub open spec fn wf(&self) -> bool {
        &&& forall|i: int| 0 <= i < self.prefixes@.len() ==> (#[trigger] self.prefixes@[i]).wf()
        &&& forall|i: int| 0 <= i < self.suffixes@.len() ==> (#[trigger] self.suffixes@[i]).wf()
    }

    /// What `lint_602` and `lint_603` report of a signal `name` that a clocked process assigns.
    pub fn findings(&self, name: &str) -> (r: Vec<(&'static str, String)>)
        requires
            self.wf(),
        ensures
            findings_view(r@) == spec_naming_findings(*self, name@),
    {
        let mut out: Vec<(&'static str, String)> = Vec::new();
        if self.suffixes.len() > 0 && !carries(&self.suffixes, name, false) {
            out.push(("lint_602", naming_finding(name, "suffix", &self.suffixes)));
        }
        let ghost first = findings_view(out@);
        if self.prefixes.len() > 0 && !carries(&self.prefixes, name, true) {
            out.push(("lint_603", naming_finding(name, "prefix", &self.prefixes)));
            assert(findings_view(out@) =~= first.push(("lint_603", naming_message(name@, "prefix"@, self.prefixes@))));
        }
        assert(findings_view(out@) =~= spec_naming_findings(*self, name@));
        out
    }
}


/// The kinds of node that assign a signal.
pub open spec fn signal_assignment_kinds() -> Seq<Kind> {
    seq![
        Kind::ConcurrentSimpleSignalAssignment,
        Kind::ConcurrentConditionalSignalAssignment,
        Kind::ConcurrentSelectedSignalAssignment,
        Kind::SimpleWaveformAssignment,
        Kind::ConditionalWaveformAssignment,
        Kind::SelectedWaveformAssignment,
        Kind::SimpleForceAssignment,
        Kind::ConditionalForceAssignment,
    ]
}

/// The kinds of node that assign a variable. A variable holds its value between runs of a
/// process, so the question for them is not "assigned on every path" but "read before it was
/// assigned".
pub open spec fn variable_assignment_kinds() -> Seq<Kind> {
    seq![
        Kind::SimpleVariableAssignment,
        Kind::ConditionalVariableAssignment,
        Kind::SelectedVariableAssignment,
    ]
}

/// The kinds of node that assign a signal.
pub fn signal_assignments() -> (r: Vec<Kind>)
    ensures
        r@ == signal_assignment_kinds(),
{
    let r = vec![
        Kind::ConcurrentSimpleSignalAssignment,
        Kind::ConcurrentConditionalSignalAssignment,
        Kind::ConcurrentSelectedSignalAssignment,
        Kind::SimpleWaveformAssignment,
        Kind::ConditionalWaveformAssignment,
        Kind::SelectedWaveformAssignment,
        Kind::SimpleForceAssignment,
        Kind::ConditionalForceAssignment,
    ];
    assert(r@ =~= signal_assignment_kinds());
    r
}

/// The kinds of node that assign a variable.
pub fn variable_assignments() -> (r: Vec<Kind>)
    ensures
        r@ == variable_assignment_kinds(),
{
    let r = vec![
        Kind::SimpleVariableAssignment,
        Kind::ConditionalVariableAssignment,
        Kind::SelectedVariableAssignment,
    ];
    assert(r@ =~= variable_assignment_kinds());
    r
}

/// Whether `k` is one of `kinds`.
pub fn has_kind(kinds: &Vec<Kind>, k: Kind) -> (r: bool)
    ensures
        r == kinds@.contains(k),
{
    let mut i: usize = 0;
    while i < kinds.len()
        invariant
            0 <= i <= kinds@.len(),
            forall|j: int| 0 <= j < i ==> kinds@[j] != k,
        decreases kinds@.len() - i,
    {
        if kinds[i] == k {
            return true;
        }
        i = i + 1;
    }
    false
}

/// The first of `s` of kind `k`.
pub open spec fn first_of_kind(s: Seq<Node>, k: Kind) -> Option<Node>
    decreases s.len(),
{
    if s.len() == 0 {
        None
    } else if s[0].kind == k {
        Some(s[0])
    } else {
        first_of_kind(s.skip(1), k)
    }
}

/// What a reference to a node, if any, points to.
pub open spec fn node_of(o: Option<&Node>) -> Option<Node> {
    match o {
        Some(n) => Some(*n),
        None => None,
    }
}

/// The first of `s` of kind `k`.
pub fn first_child<'a>(s: &Vec<&'a Node>, k: Kind) -> (r: Option<&'a Node>)
    ensures
        node_of(r) == first_of_kind(nodes_of(s@), k),
{
    let mut i: usize = 0;
    assert(nodes_of(s@).skip(0) =~= nodes_of(s@));
    while i < s.len()
        invariant
            0 <= i <= s@.len(),
            first_of_kind(nodes_of(s@), k) == first_of_kind(nodes_of(s@).skip(i as int), k),
        decreases s@.len() - i,
    {
        assert(nodes_of(s@).skip(i as int).skip(1) =~= nodes_of(s@).skip(i + 1));
        if s[i].kind == k {
            return Some(s[i]);
        }
        i = i + 1;
    }
    None
}

/// The name a signal assignment writes to, as written (lower case, without trivia), and the
/// offset of its first token: `q(3)`, `q(4)`, `rec.a` and `rec` are four different things to
/// drive.
pub open spec fn spec_target(a: Node) -> Option<(Seq<char>, usize)> {
    match first_of_kind(spec_children(a), Kind::NameTarget) {
        Some(t) => if spec_tokens(t).len() > 0 && spec_text_of(t).len() > 0 {
            Some((spec_text_of(t), spec_tokens(t)[0].offset))
        } else {
            None
        },
        None => None,
    }
}

/// A name and an offset, as plain values.
pub open spec fn named_view(p: (String, usize)) -> (Seq<char>, usize) {
    (p.0@, p.1)
}

pub open spec fn named_views(v: Seq<(String, usize)>) -> Seq<(Seq<char>, usize)> {
    v.map_values(|p: (String, usize)| named_view(p))
}

/// The name a signal assignment writes to, as written, and where it starts.
pub fn target(assignment: &Node) -> (r: Option<(String, usize)>)
    ensures
        r matches Some(p) ==> spec_target(*assignment) == Some(named_view(p)),
        r is None ==> spec_target(*assignment) is None,
{
    let kids = children(assignment);
    let t = match first_child(&kids, Kind::NameTarget) {
        Some(t) => t,
        None => return None,
    };
    let toks = all_tokens(t);
    if toks.len() == 0 {
        return None;
    }
    assert(tokens_of(toks@)[0] == *toks@[0]);
    let offset = toks[0].offset;
    let text = text_of(t);
    if text.len() == 0 {
        return None;
    }
    Some((crate::chars::string_of(&text, 0, text.len()), offset))
}

/// The targets of those of `s` that assign something.
pub open spec fn targets_of(s: Seq<Node>) -> Seq<(Seq<char>, usize)>
    decreases s.len(),
{
    if s.len() == 0 {
        Seq::empty()
    } else {
        targets_of(s.drop_last()) + match spec_target(s.last()) {
            Some(p) => seq![p],
            None => Seq::empty(),
        }
    }
}

/// The targets of the assignments of each kind of `kinds` below `n`, kind by kind.
pub open spec fn assignments_by(n: Node, kinds: Seq<Kind>) -> Seq<(Seq<char>, usize)>
    decreases kinds.len(),
{
    if kinds.len() == 0 {
        Seq::empty()
    } else {
        assignments_by(n, kinds.drop_last()) + targets_of(spec_find(n, kinds.last()))
    }
}

/// Every signal assignment in `n`, `n` itself first if it is one, then those below it kind by
/// kind, as (signal, offset).
pub open spec fn spec_assignments(n: Node) -> Seq<(Seq<char>, usize)> {
    (if signal_assignment_kinds().contains(n.kind) {
        match spec_target(n) {
            Some(p) => seq![p],
            None => Seq::empty(),
        }
    } else {
        Seq::empty()
    }) + assignments_by(n, signal_assignment_kinds())
}

/// Appends the targets of `nodes` to `out`.
fn push_targets(nodes: &Vec<&Node>, out: &mut Vec<(String, usize)>)
    ensures
        named_views(final(out)@) == named_views(old(out)@) + targets_of(nodes_of(nodes@)),
{
    let ghost start = named_views(out@);
    let mut i: usize = 0;
    while i < nodes.len()
        invariant
            0 <= i <= nodes@.len(),
            named_views(out@) == start + targets_of(nodes_of(nodes@).take(i as int)),
        decreases nodes@.len() - i,
    {
        let ghost before = named_views(out@);
        assert(nodes_of(nodes@).take(i + 1).drop_last() =~= nodes_of(nodes@).take(i as int));
        match target(nodes[i]) {
            Some(p) => {
                out.push(p);
                assert(named_views(out@) =~= before.push(named_view(p)));
            },
            None => {},
        }
        assert(named_views(out@) =~= start + targets_of(nodes_of(nodes@).take(i + 1)));
        i = i + 1;
    }
    assert(nodes_of(nodes@).take(nodes@.len() as int) =~= nodes_of(nodes@));
}

/// Every signal assignment in `n`, `n` itself included, as (signal, offset).
pub fn assignments(n: &Node) -> (r: Vec<(String, usize)>)
    ensures
        named_views(r@) == spec_assignments(*n),
{
    let kinds = signal_assignments();
    let mut out: Vec<(String, usize)> = Vec::new();
    if has_kind(&kinds, n.kind) {
        match target(n) {
            Some(p) => out.push(p),
            None => {},
        }
    }
    let ghost head = named_views(out@);
    assert(head == (if signal_assignment_kinds().contains(n.kind) {
        match spec_target(*n) {
            Some(p) => seq![p],
            None => Seq::<(Seq<char>, usize)>::empty(),
        }
    } else {
        Seq::<(Seq<char>, usize)>::empty()
    })) by {
        if signal_assignment_kinds().contains(n.kind) && spec_target(*n) is Some {
            assert(named_views(out@) =~= seq![named_view(out@[0])]);
        } else {
            assert(named_views(out@) =~= Seq::<(Seq<char>, usize)>::empty());
        }
    }
    let mut i: usize = 0;
    while i < kinds.len()
        invariant
            0 <= i <= kinds@.len(),
            kinds@ == signal_assignment_kinds(),
            named_views(out@) == head + assignments_by(*n, kinds@.take(i as int)),
        decreases kinds@.len() - i,
    {
        let found = find(n, kinds[i]);
        push_targets(&found, &mut out);
        assert(kinds@.take(i + 1).drop_last() =~= kinds@.take(i as int));
        i = i + 1;
    }
    assert(kinds@.take(kinds@.len() as int) =~= kinds@);
    out
}


/// The names `v` holds, as a set.
pub open spec fn names(v: Seq<String>) -> Set<Seq<char>> {
    Set::new(|x: Seq<char>| exists|i: int| 0 <= i < v.len() && (#[trigger] v[i])@ == x)
}

/// Whether `v` holds `name`.
pub fn has_name(v: &Vec<String>, name: &str) -> (r: bool)
    ensures
        r == names(v@).contains(name@),
{
    let mut i: usize = 0;
    while i < v.len()
        invariant
            0 <= i <= v@.len(),
            forall|j: int| 0 <= j < i ==> (#[trigger] v@[j])@ != name@,
        decreases v@.len() - i,
    {
        if str_eq(v[i].as_str(), name) {
            return true;
        }
        i = i + 1;
    }
    false
}

/// Adds `name` to the names `v` holds.
pub fn add_name(v: &mut Vec<String>, name: String)
    ensures
        names(final(v)@) == names(old(v)@).insert(name@),
{
    if !has_name(v, name.as_str()) {
        let ghost before = v@;
        v.push(name);
        assert(names(v@) =~= names(before).insert(name@)) by {
            assert forall|x: Seq<char>| names(before).insert(name@).contains(x) implies names(v@).contains(x) by {
                if x == name@ {
                    assert(v@[before.len() as int]@ == x);
                } else {
                    let i = choose|i: int| 0 <= i < before.len() && (#[trigger] before[i])@ == x;
                    assert(v@[i]@ == x);
                }
            }
            assert forall|x: Seq<char>| names(v@).contains(x) implies names(before).insert(name@).contains(x) by {
                let i = choose|i: int| 0 <= i < v@.len() && (#[trigger] v@[i])@ == x;
                if i < before.len() {
                    assert(before[i]@ == x);
                }
            }
        }
    } else {
        assert(names(v@) =~= names(v@).insert(name@));
    }
}

/// Adds the names of `w` to those `v` holds.
pub fn add_names(v: &mut Vec<String>, w: &Vec<String>)
    ensures
        names(final(v)@) == names(old(v)@).union(names(w@)),
{
    let ghost start = names(v@);
    let mut i: usize = 0;
    while i < w.len()
        invariant
            0 <= i <= w@.len(),
            names(v@) == start.union(names(w@.take(i as int))),
        decreases w@.len() - i,
    {
        add_name(v, w[i].clone());
        proof {
            assert(names(w@.take(i + 1)) =~= names(w@.take(i as int)).insert(w@[i as int]@)) by {
                assert forall|x: Seq<char>| names(w@.take(i + 1)).contains(x) implies names(w@.take(i as int)).insert(w@[i as int]@).contains(x) by {
                    let j = choose|j: int| 0 <= j < w@.take(i + 1).len() && (#[trigger] w@.take(i + 1)[j])@ == x;
                    if j < i {
                        assert(w@.take(i as int)[j]@ == x);
                    }
                }
                assert forall|x: Seq<char>| names(w@.take(i as int)).insert(w@[i as int]@).contains(x) implies names(w@.take(i + 1)).contains(x) by {
                    if x == w@[i as int]@ {
                        assert(w@.take(i + 1)[i as int]@ == x);
                    } else {
                        let j = choose|j: int| 0 <= j < w@.take(i as int).len() && (#[trigger] w@.take(i as int)[j])@ == x;
                        assert(w@.take(i + 1)[j]@ == x);
                    }
                }
            }
            assert(names(v@) =~= start.union(names(w@.take(i + 1))));
        }
        i = i + 1;
    }
    assert(w@.take(w@.len() as int) =~= w@);
}

/// The names both `a` and `b` hold.
pub fn common_names(a: &Vec<String>, b: &Vec<String>) -> (r: Vec<String>)
    ensures
        names(r@) == names(a@).intersect(names(b@)),
{
    let mut out: Vec<String> = Vec::new();
    let mut i: usize = 0;
    while i < a.len()
        invariant
            0 <= i <= a@.len(),
            names(out@) == names(a@.take(i as int)).intersect(names(b@)),
        decreases a@.len() - i,
    {
        let ghost before = out@;
        let keep = has_name(b, a[i].as_str());
        if keep {
            out.push(a[i].clone());
        }
        proof {
            assert(names(out@) =~= names(a@.take(i + 1)).intersect(names(b@))) by {
                assert forall|x: Seq<char>| names(out@).contains(x) implies names(a@.take(i + 1)).intersect(names(b@)).contains(x) by {
                    let j = choose|j: int| 0 <= j < out@.len() && (#[trigger] out@[j])@ == x;
                    if j < before.len() {
                        assert(names(before).contains(x));
                        let k = choose|k: int| 0 <= k < a@.take(i as int).len() && (#[trigger] a@.take(i as int)[k])@ == x;
                        assert(a@.take(i + 1)[k]@ == x);
                    } else {
                        assert(a@.take(i + 1)[i as int]@ == x);
                    }
                }
                assert forall|x: Seq<char>| names(a@.take(i + 1)).intersect(names(b@)).contains(x) implies names(out@).contains(x) by {
                    let k = choose|k: int| 0 <= k < a@.take(i + 1).len() && (#[trigger] a@.take(i + 1)[k])@ == x;
                    if k < i {
                        assert(a@.take(i as int)[k]@ == x);
                        assert(names(before).contains(x));
                        let j = choose|j: int| 0 <= j < before.len() && (#[trigger] before[j])@ == x;
                        assert(out@[j]@ == x);
                    } else {
                        assert(out@[before.len() as int]@ == x);
                    }
                }
            }
        }
        i = i + 1;
    }
    assert(a@.take(a@.len() as int) =~= a@);
    out
}

/// Whether `pat` occurs in `s`.
pub open spec fn has_text(s: Seq<char>, pat: Seq<char>) -> bool {
    find_from(s, pat, 0) is Some
}

/// Whether `pat` occurs in `s`.
pub fn contains_text(s: &Vec<char>, pat: &str) -> (r: bool)
    ensures
        r == has_text(s@, pat@),
{
    let p = chars_of(pat);
    find_seq(s, &p).is_some()
}

/// Whether `s` starts with `pat`.
pub open spec fn starts_with_text(s: Seq<char>, pat: Seq<char>) -> bool {
    pat.len() <= s.len() && s.take(pat.len() as int) == pat
}

/// Whether `s` starts with `pat`.
pub fn text_starts_with(s: &Vec<char>, pat: &str) -> (r: bool)
    ensures
        r == starts_with_text(s@, pat@),
{
    let p = chars_of(pat);
    if p.len() > s.len() {
        return false;
    }
    let mut i: usize = 0;
    while i < p.len()
        invariant
            0 <= i <= p@.len() <= s@.len(),
            p@ == pat@,
            forall|j: int| 0 <= j < i ==> s@[j] == p@[j],
        decreases p@.len() - i,
    {
        if s[i] != p[i] {
            assert(s@.take(p@.len() as int)[i as int] != p@[i as int]);
            return false;
        }
        i = i + 1;
    }
    assert(s@.take(p@.len() as int) =~= p@);
    true
}

/// Whether the text of a process tests a clock edge.
pub open spec fn edge_tested(t: Seq<char>) -> bool {
    has_text(t, "rising_edge("@) || has_text(t, "falling_edge("@) || has_text(t, "'event"@)
}

/// Whether a process is clocked: it tests a clock edge, so what it assigns becomes a register.
pub open spec fn spec_is_clocked(process: Node) -> bool {
    edge_tested(spec_text_of(process))
}

/// Whether a process is clocked: it tests a clock edge, so what it assigns becomes a register.
pub fn is_clocked(process: &Node) -> (r: bool)
    ensures
        r == spec_is_clocked(*process),
{
    let text = text_of(process);
    contains_text(&text, "rising_edge(") || contains_text(&text, "falling_edge(")
        || contains_text(&text, "'event")
}

/// Whether a process describes something other than combinational logic, and so cannot infer
/// a latch: it suspends on `wait`, it has no sensitivity list (a process without one runs
/// forever unless it waits, which is how testbench mains are written), or it is clocked.
pub open spec fn spec_is_not_combinational(process: Node) -> bool {
    ||| spec_find(process, Kind::WaitStatement).len() > 0
    ||| (spec_find(process, Kind::ParenthesizedProcessSensitivityList).len() == 0 && spec_find(
        process,
        Kind::AllSensitivityList,
    ).len() == 0)
    ||| spec_is_clocked(process)
}

/// Whether a process describes something other than combinational logic, and so cannot infer
/// a latch.
pub fn is_not_combinational(process: &Node) -> (r: bool)
    ensures
        r == spec_is_not_combinational(*process),
{
    if find(process, Kind::WaitStatement).len() > 0 {
        return true;
    }
    if find(process, Kind::ParenthesizedProcessSensitivityList).len() == 0 && find(
        process,
        Kind::AllSensitivityList,
    ).len() == 0 {
        return true;
    }
    is_clocked(process)
}

/// Those of `s` of kind `k`, in order.
pub open spec fn of_kind(s: Seq<Node>, k: Kind) -> Seq<Node>
    decreases s.len(),
{
    if s.len() == 0 {
        Seq::empty()
    } else {
        of_kind(s.drop_last(), k) + if s.last().kind == k {
            seq![s.last()]
        } else {
            Seq::empty()
        }
    }
}

/// The children of each of `s`, one after the other.
pub open spec fn all_children(s: Seq<Node>) -> Seq<Node>
    decreases s.len(),
{
    if s.len() == 0 {
        Seq::empty()
    } else {
        all_children(s.drop_last()) + spec_children(s.last())
    }
}

/// The statements a node holds: those of its `SequenceOfStatements`, or its own children when
/// it keeps them directly, as a process does.
pub open spec fn spec_body(n: Node) -> Seq<Node> {
    let sequences = of_kind(spec_children(n), Kind::SequenceOfStatements);
    if sequences.len() == 0 {
        spec_children(n)
    } else {
        all_children(sequences)
    }
}

/// Those of `s` of kind `k`, in order.
pub fn nodes_of_kind<'a>(s: &Vec<&'a Node>, k: Kind) -> (r: Vec<&'a Node>)
    ensures
        nodes_of(r@) == of_kind(nodes_of(s@), k),
{
    let mut out: Vec<&'a Node> = Vec::new();
    let mut i: usize = 0;
    while i < s.len()
        invariant
            0 <= i <= s@.len(),
            nodes_of(out@) == of_kind(nodes_of(s@).take(i as int), k),
        decreases s@.len() - i,
    {
        let ghost before = nodes_of(out@);
        assert(nodes_of(s@).take(i + 1).drop_last() =~= nodes_of(s@).take(i as int));
        if s[i].kind == k {
            out.push(s[i]);
            assert(nodes_of(out@) =~= before.push(*s@[i as int]));
        }
        assert(nodes_of(out@) =~= of_kind(nodes_of(s@).take(i + 1), k));
        i = i + 1;
    }
    assert(nodes_of(s@).take(s@.len() as int) =~= nodes_of(s@));
    out
}

/// The statements a node holds.
pub fn body<'a>(n: &'a Node) -> (r: Vec<&'a Node>)
    ensures
        nodes_of(r@) == spec_body(*n),
{
    let kids = children(n);
    let sequences = nodes_of_kind(&kids, Kind::SequenceOfStatements);
    if sequences.len() == 0 {
        return kids;
    }
    let mut out: Vec<&'a Node> = Vec::new();
    let mut i: usize = 0;
    while i < sequences.len()
        invariant
            0 <= i <= sequences@.len(),
            nodes_of(out@) == all_children(nodes_of(sequences@).take(i as int)),
        decreases sequences@.len() - i,
    {
        let inner = children(sequences[i]);
        let ghost before = nodes_of(out@);
        let mut j: usize = 0;
        while j < inner.len()
            invariant
                0 <= j <= inner@.len(),
                nodes_of(out@) == before + nodes_of(inner@).take(j as int),
            decreases inner@.len() - j,
        {
            let ghost prev = out@;
            out.push(inner[j]);
            assert(out@ =~= prev.push(inner@[j as int]));
            assert(nodes_of(out@) =~= nodes_of(prev).push(*inner@[j as int]));
            assert(nodes_of(inner@).take(j + 1) =~= nodes_of(inner@).take(j as int).push(*inner@[j as int]));
            assert(nodes_of(out@) =~= before + nodes_of(inner@).take(j + 1));
            j = j + 1;
        }
        assert(nodes_of(inner@).take(inner@.len() as int) =~= nodes_of(inner@));
        assert(nodes_of(sequences@).take(i + 1).drop_last() =~= nodes_of(sequences@).take(i as int));
        i = i + 1;
    }
    assert(nodes_of(sequences@).take(sequences@.len() as int) =~= nodes_of(sequences@));
    out
}


/// The name a statement of one of `kinds` assigns, as a set of at most one.
pub open spec fn target_name(st: Node, kinds: Seq<Kind>) -> Set<Seq<char>> {
    if kinds.contains(st.kind) {
        match spec_target(st) {
            Some(p) => set![p.0],
            None => Set::empty(),
        }
    } else {
        Set::empty()
    }
}

/// The signals (or variables: the assignments are those of `kinds`) that statement `st`
/// assigns on every path through it. A branch that cannot be shown to assign contributes
/// nothing: an `if` without `else`, a `case` without `others`, a loop that may run zero times
/// (anything but a `for` loop, which synthesis unrolls).
pub open spec fn assigned_one(st: Node, kinds: Seq<Kind>) -> Set<Seq<char>>
    decreases st, 3int, 0int,
{
    if st.kind == Kind::IfStatement {
        match else_branch(st, kinds, 0) {
            Some(otherwise) => body_assigned(st, kinds).intersect(
                elsif_meet(st, kinds, st.elements@.len() as int),
            ).intersect(otherwise),
            None => Set::empty(),
        }
    } else if st.kind == Kind::CaseStatement {
        let alternatives = of_kind(spec_children(st), Kind::CaseStatementAlternative);
        if alternatives.len() > 0 && exists|i: int|
            0 <= i < alternatives.len() && starts_with_text(
                spec_text_of(#[trigger] alternatives[i]),
                "whenothers"@,
            ) {
            alternative_meet(st, kinds, st.elements@.len() as int)
        } else {
            Set::empty()
        }
    } else if st.kind == Kind::LoopStatement && (match first_of_kind(
        spec_children(st),
        Kind::LoopStatementPreamble,
    ) {
        Some(p) => starts_with_text(spec_text_of(p), "for"@),
        None => false,
    }) {
        body_assigned(st, kinds)
    } else {
        target_name(st, kinds)
    }
}

/// What the first `else` branch among the elements of `st` from `i` on assigns on every path,
/// if there is such a branch.
pub open spec fn else_branch(st: Node, kinds: Seq<Kind>, i: int) -> Option<Set<Seq<char>>>
    decreases st, 1int, st.elements@.len() - i,
{
    if i < 0 || i >= st.elements@.len() {
        None
    } else {
        match st.elements@[i] {
            Element::Node(c) => if c.kind == Kind::IfStatementElse {
                proof {
                    lemma_child_decreases(st, i);
                }
                Some(body_assigned(c, kinds))
            } else {
                else_branch(st, kinds, i + 1)
            },
            Element::Token(_) => else_branch(st, kinds, i + 1),
        }
    }
}

/// What every `elsif` branch among the first `i` elements of `st` assigns on every path.
pub open spec fn elsif_meet(st: Node, kinds: Seq<Kind>, i: int) -> Set<Seq<char>>
    decreases st, 1int, i,
{
    if i <= 0 || i > st.elements@.len() {
        Set::full()
    } else {
        match st.elements@[i - 1] {
            Element::Node(c) => if c.kind == Kind::IfStatementElsif {
                proof {
                    lemma_child_decreases(st, i - 1);
                }
                elsif_meet(st, kinds, i - 1).intersect(body_assigned(c, kinds))
            } else {
                elsif_meet(st, kinds, i - 1)
            },
            Element::Token(_) => elsif_meet(st, kinds, i - 1),
        }
    }
}

/// What every `case` alternative among the first `i` elements of `st` assigns on every path.
pub open spec fn alternative_meet(st: Node, kinds: Seq<Kind>, i: int) -> Set<Seq<char>>
    decreases st, 1int, i,
{
    if i <= 0 || i > st.elements@.len() {
        Set::full()
    } else {
        match st.elements@[i - 1] {
            Element::Node(c) => if c.kind == Kind::CaseStatementAlternative {
                proof {
                    lemma_child_decreases(st, i - 1);
                }
                alternative_meet(st, kinds, i - 1).intersect(body_assigned(c, kinds))
            } else {
                alternative_meet(st, kinds, i - 1)
            },
            Element::Token(_) => alternative_meet(st, kinds, i - 1),
        }
    }
}

/// What the statements `n` holds (see [`spec_body`]) assign on every path.
pub open spec fn body_assigned(n: Node, kinds: Seq<Kind>) -> Set<Seq<char>>
    decreases n, 2int, 0int,
{
    if of_kind(spec_children(n), Kind::SequenceOfStatements).len() == 0 {
        children_assigned(n, kinds, n.elements@.len() as int)
    } else {
        sequences_assigned(n, kinds, n.elements@.len() as int)
    }
}

/// What the child nodes among the first `i` elements of `n` assign on every path, one after
/// the other.
pub open spec fn children_assigned(n: Node, kinds: Seq<Kind>, i: int) -> Set<Seq<char>>
    decreases n, 0int, i,
{
    if i <= 0 || i > n.elements@.len() {
        Set::empty()
    } else {
        match n.elements@[i - 1] {
            Element::Node(c) => {
                proof {
                    lemma_child_decreases(n, i - 1);
                }
                children_assigned(n, kinds, i - 1).union(assigned_one(c, kinds))
            },
            Element::Token(_) => children_assigned(n, kinds, i - 1),
        }
    }
}

/// What the statements of the `SequenceOfStatements` among the first `i` elements of `n`
/// assign on every path.
pub open spec fn sequences_assigned(n: Node, kinds: Seq<Kind>, i: int) -> Set<Seq<char>>
    decreases n, 0int, i,
{
    if i <= 0 || i > n.elements@.len() {
        Set::empty()
    } else {
        match n.elements@[i - 1] {
            Element::Node(c) => if c.kind == Kind::SequenceOfStatements {
                proof {
                    lemma_child_decreases(n, i - 1);
                }
                sequences_assigned(n, kinds, i - 1).union(
                    children_assigned(c, kinds, c.elements@.len() as int),
                )
            } else {
                sequences_assigned(n, kinds, i - 1)
            },
            Element::Token(_) => sequences_assigned(n, kinds, i - 1),
        }
    }
}


/// A meet of sets, `None` standing for the full set (the meet of none).
pub open spec fn meet_view(m: Option<Vec<String>>) -> Set<Seq<char>> {
    match m {
        Some(v) => names(v@),
        None => Set::full(),
    }
}

fn meet_with(m: Option<Vec<String>>, v: Vec<String>) -> (r: Option<Vec<String>>)
    ensures
        r is Some,
        meet_view(r) == meet_view(m).intersect(names(v@)),
{
    match m {
        Some(w) => Some(common_names(&w, &v)),
        None => {
            assert(Set::<Seq<char>>::full().intersect(names(v@)) =~= names(v@));
            Some(v)
        },
    }
}

/// What statement `st` assigns on every path, assignments being the kinds of `kinds`.
fn always_in_statement(st: &Node, kinds: &Vec<Kind>) -> (r: Vec<String>)
    ensures
        names(r@) == assigned_one(*st, kinds@),
    decreases st, 3int, 0int,
{
    if st.kind == Kind::IfStatement {
        match always_in_else(st, kinds) {
            Some(otherwise) => {
                let own = always_in_body(st, kinds);
                let m = always_in_elsifs(st, kinds);
                let m = meet_with(m, own);
                let m = meet_with(m, otherwise);
                let ghost a = body_assigned(*st, kinds@);
                let ghost b = elsif_meet(*st, kinds@, st.elements@.len() as int);
                let ghost c = else_branch(*st, kinds@, 0)->Some_0;
                assert(b.intersect(a).intersect(c) =~= a.intersect(b).intersect(c));
                match m {
                    Some(v) => v,
                    None => Vec::new(),
                }
            },
            None => {
                assert(names(Seq::<String>::empty()) =~= Set::<Seq<char>>::empty());
                Vec::new()
            },
        }
    } else if st.kind == Kind::CaseStatement {
        let kids = children(st);
        let alternatives = nodes_of_kind(&kids, Kind::CaseStatementAlternative);
        let mut covers = false;
        let mut i: usize = 0;
        while i < alternatives.len()
            invariant
                0 <= i <= alternatives@.len(),
                covers == exists|j: int|
                    0 <= j < i && starts_with_text(
                        spec_text_of(#[trigger] nodes_of(alternatives@)[j]),
                        "whenothers"@,
                    ),
            decreases alternatives@.len() - i,
        {
            let t = text_of(alternatives[i]);
            if text_starts_with(&t, "whenothers") {
                covers = true;
                assert(starts_with_text(spec_text_of(nodes_of(alternatives@)[i as int]), "whenothers"@));
            }
            i = i + 1;
        }
        if covers && alternatives.len() > 0 {
            assert(nodes_of(alternatives@).len() > 0);
            match always_in_alternatives(st, kinds) {
                Some(v) => v,
                None => Vec::new(),
            }
        } else {
            assert(names(Seq::<String>::empty()) =~= Set::<Seq<char>>::empty());
            Vec::new()
        }
    } else if st.kind == Kind::LoopStatement && {
        let kids = children(st);
        match first_child(&kids, Kind::LoopStatementPreamble) {
            Some(p) => {
                let t = text_of(p);
                text_starts_with(&t, "for")
            },
            None => false,
        }
    } {
        always_in_body(st, kinds)
    } else {
        let mut out: Vec<String> = Vec::new();
        if has_kind(kinds, st.kind) {
            match target(st) {
                Some(p) => {
                    out.push(p.0);
                    assert(names(out@) =~= set![p.0@]) by {
                        assert(out@[0]@ == p.0@);
                    }
                },
                None => {
                    assert(names(out@) =~= Set::<Seq<char>>::empty());
                },
            }
        } else {
            assert(names(out@) =~= Set::<Seq<char>>::empty());
        }
        out
    }
}

/// What the first `else` branch of `st` assigns on every path, if it has one.
fn always_in_else(st: &Node, kinds: &Vec<Kind>) -> (r: Option<Vec<String>>)
    ensures
        r matches Some(v) ==> else_branch(*st, kinds@, 0) == Some(names(v@)),
        r is None ==> else_branch(*st, kinds@, 0) is None,
    decreases st, 1int, 0int,
{
    let mut i: usize = 0;
    while i < st.elements.len()
        invariant
            0 <= i <= st.elements@.len(),
            else_branch(*st, kinds@, 0) == else_branch(*st, kinds@, i as int),
        decreases st.elements@.len() - i,
    {
        match &st.elements[i] {
            Element::Node(c) => {
                if c.kind == Kind::IfStatementElse {
                    proof {
                        lemma_child_decreases(*st, i as int);
                    }
                    return Some(always_in_body(c, kinds));
                }
            },
            Element::Token(_) => {},
        }
        i = i + 1;
    }
    None
}

/// What every `elsif` branch of `st` assigns on every path; `None` when there is none.
fn always_in_elsifs(st: &Node, kinds: &Vec<Kind>) -> (r: Option<Vec<String>>)
    ensures
        meet_view(r) == elsif_meet(*st, kinds@, st.elements@.len() as int),
    decreases st, 1int, 0int,
{
    let mut m: Option<Vec<String>> = None;
    let mut i: usize = 0;
    while i < st.elements.len()
        invariant
            0 <= i <= st.elements@.len(),
            meet_view(m) == elsif_meet(*st, kinds@, i as int),
        decreases st.elements@.len() - i,
    {
        match &st.elements[i] {
            Element::Node(c) => {
                if c.kind == Kind::IfStatementElsif {
                    proof {
                        lemma_child_decreases(*st, i as int);
                    }
                    let v = always_in_body(c, kinds);
                    m = meet_with(m, v);
                }
            },
            Element::Token(_) => {},
        }
        i = i + 1;
    }
    m
}

/// What every `case` alternative of `st` assigns on every path; `None` when there is none.
fn always_in_alternatives(st: &Node, kinds: &Vec<Kind>) -> (r: Option<Vec<String>>)
    ensures
        meet_view(r) == alternative_meet(*st, kinds@, st.elements@.len() as int),
        r is None ==> of_kind(spec_children(*st), Kind::CaseStatementAlternative).len() == 0,
    decreases st, 1int, 0int,
{
    let mut m: Option<Vec<String>> = None;
    let mut i: usize = 0;
    while i < st.elements.len()
        invariant
            0 <= i <= st.elements@.len(),
            meet_view(m) == alternative_meet(*st, kinds@, i as int),
            m is None ==> of_kind(children_upto(*st, i as int), Kind::CaseStatementAlternative).len() == 0,
        decreases st.elements@.len() - i,
    {
        match &st.elements[i] {
            Element::Node(c) => {
                if c.kind == Kind::CaseStatementAlternative {
                    proof {
                        lemma_child_decreases(*st, i as int);
                    }
                    let v = always_in_body(c, kinds);
                    m = meet_with(m, v);
                } else {
                    proof {
                        lemma_of_kind_push(children_upto(*st, i as int), *c, Kind::CaseStatementAlternative);
                    }
                }
            },
            Element::Token(_) => {},
        }
        i = i + 1;
    }
    m
}

proof fn lemma_of_kind_push(s: Seq<Node>, c: Node, k: Kind)
    ensures
        of_kind(s + seq![c], k) == of_kind(s, k) + if c.kind == k {
            seq![c]
        } else {
            Seq::<Node>::empty()
        },
{
    assert((s + seq![c]).drop_last() =~= s);
}

/// What the statements `n` holds assign on every path.
fn always_in_body(n: &Node, kinds: &Vec<Kind>) -> (r: Vec<String>)
    ensures
        names(r@) == body_assigned(*n, kinds@),
    decreases n, 2int, 0int,
{
    let kids = children(n);
    let sequences = nodes_of_kind(&kids, Kind::SequenceOfStatements);
    if sequences.len() == 0 {
        always_in_children(n, kinds)
    } else {
        let mut out: Vec<String> = Vec::new();
        assert(names(out@) =~= Set::<Seq<char>>::empty());
        let mut i: usize = 0;
        while i < n.elements.len()
            invariant
                0 <= i <= n.elements@.len(),
                names(out@) == sequences_assigned(*n, kinds@, i as int),
            decreases n.elements@.len() - i,
        {
            match &n.elements[i] {
                Element::Node(c) => {
                    if c.kind == Kind::SequenceOfStatements {
                        proof {
                            lemma_child_decreases(*n, i as int);
                        }
                        let v = always_in_children(c, kinds);
                        add_names(&mut out, &v);
                    }
                },
                Element::Token(_) => {},
            }
            i = i + 1;
        }
        out
    }
}

/// What the child nodes of `n` assign on every path, one after the other.
fn always_in_children(n: &Node, kinds: &Vec<Kind>) -> (r: Vec<String>)
    ensures
        names(r@) == children_assigned(*n, kinds@, n.elements@.len() as int),
    decreases n, 0int, 0int,
{
    let mut out: Vec<String> = Vec::new();
    assert(names(out@) =~= Set::<Seq<char>>::empty());
    let mut i: usize = 0;
    while i < n.elements.len()
        invariant
            0 <= i <= n.elements@.len(),
            names(out@) == children_assigned(*n, kinds@, i as int),
        decreases n.elements@.len() - i,
    {
        match &n.elements[i] {
            Element::Node(c) => {
                proof {
                    lemma_child_decreases(*n, i as int);
                }
                let v = always_in_statement(c, kinds);
                add_names(&mut out, &v);
            },
            Element::Token(_) => {},
        }
        i = i + 1;
    }
    out
}


/// Whether `a` comes before `b` in the order of `str`: character by character, a prefix first.
pub open spec fn text_less(a: Seq<char>, b: Seq<char>) -> bool
    decreases a.len(),
{
    if a.len() == 0 {
        b.len() > 0
    } else if b.len() == 0 {
        false
    } else if a[0] != b[0] {
        (a[0] as u32) < (b[0] as u32)
    } else {
        text_less(a.skip(1), b.skip(1))
    }
}

/// Whether `a` comes before `b` in the order of `str`.
pub fn less_text(a: &str, b: &str) -> (r: bool)
    ensures
        r == text_less(a@, b@),
{
    let x = chars_of(a);
    let y = chars_of(b);
    let mut i: usize = 0;
    assert(x@.skip(0) =~= x@);
    assert(y@.skip(0) =~= y@);
    while i < x.len() && i < y.len()
        invariant
            0 <= i <= x@.len(),
            i <= y@.len(),
            x@ == a@,
            y@ == b@,
            text_less(x@, y@) == text_less(x@.skip(i as int), y@.skip(i as int)),
        decreases x@.len() - i,
    {
        if x[i] != y[i] {
            assert(x@.skip(i as int)[0] == x@[i as int]);
            assert(y@.skip(i as int)[0] == y@[i as int]);
            return (x[i] as u32) < (y[i] as u32);
        }
        assert(x@.skip(i as int).skip(1) =~= x@.skip(i + 1));
        assert(y@.skip(i as int).skip(1) =~= y@.skip(i + 1));
        i = i + 1;
    }
    assert(x@.skip(i as int).len() == x@.len() - i);
    assert(y@.skip(i as int).len() == y@.len() - i);
    i == x.len() && i < y.len()
}

/// `m` with `name` given `offset` unless it has an entry for `name` already, kept in order of
/// name (what `BTreeMap::entry(..).or_insert(..)` does, seen in iteration order).
pub open spec fn or_insert(m: Seq<(Seq<char>, usize)>, name: Seq<char>, offset: usize) -> Seq<
    (Seq<char>, usize),
>
    decreases m.len(),
{
    if m.len() == 0 {
        seq![(name, offset)]
    } else if m[0].0 == name {
        m
    } else if text_less(name, m[0].0) {
        seq![(name, offset)] + m
    } else {
        seq![m[0]] + or_insert(m.skip(1), name, offset)
    }
}

/// Gives `name` the offset `offset` unless `m` has an entry for it already, keeping `m` in
/// order of name.
pub fn entry_or_insert(m: &mut Vec<(String, usize)>, name: String, offset: usize)
    ensures
        named_views(final(m)@) == or_insert(named_views(old(m)@), name@, offset),
{
    let ghost whole = named_views(m@);
    let mut i: usize = 0;
    assert(whole.skip(0) =~= whole);
    assert(whole.take(0) + or_insert(whole.skip(0), name@, offset) =~= or_insert(whole, name@, offset));
    while i < m.len()
        invariant
            0 <= i <= m@.len(),
            named_views(m@) == whole,
            whole == named_views(old(m)@),
            or_insert(whole, name@, offset) == whole.take(i as int) + or_insert(whole.skip(i as int), name@, offset),
        decreases m@.len() - i,
    {
        assert(whole.skip(i as int)[0] == named_view(m@[i as int]));
        if str_eq(m[i].0.as_str(), name.as_str()) {
            assert(or_insert(whole.skip(i as int), name@, offset) == whole.skip(i as int));
            assert(whole.take(i as int) + whole.skip(i as int) =~= whole);
            return;
        }
        if less_text(name.as_str(), m[i].0.as_str()) {
            assert(or_insert(whole.skip(i as int), name@, offset) == seq![(name@, offset)] + whole.skip(i as int));
            let ghost before = m@;
            m.insert(i, (name, offset));
            assert(m@ == before.insert(i as int, (name, offset)));
            assert(named_views(m@) =~= whole.take(i as int) + (seq![(name@, offset)] + whole.skip(i as int)));
            return;
        }
        assert(whole.skip(i as int).skip(1) =~= whole.skip(i + 1));
        assert(whole.take(i + 1) =~= whole.take(i as int) + seq![whole.skip(i as int)[0]]);
        i = i + 1;
    }
    m.push((name, offset));
    assert(whole.skip(i as int) =~= Seq::<(Seq<char>, usize)>::empty());
    assert(whole.take(i as int) =~= whole);
    assert(named_views(m@) =~= whole + seq![(name@, offset)]);
}

/// Whether a lower-case token text reads as a name: it starts with a letter or `_`.
pub open spec fn is_name_text(t: Seq<char>) -> bool {
    t.len() > 0 && (('a' <= t[0] <= 'z') || ('A' <= t[0] <= 'Z') || t[0] == '_')
}

/// The names a variable declaration's tokens declare: those before the `:`, but for the
/// keywords `variable` and `shared` and the commas.
pub open spec fn declared_names(ts: Seq<Token>) -> Set<Seq<char>>
    decreases ts.len(),
{
    if ts.len() == 0 {
        Set::empty()
    } else {
        let t = lowered(ts[0].text@);
        if t == ":"@ {
            Set::empty()
        } else if is_name_text(t) && t != "variable"@ && t != "shared"@ {
            declared_names(ts.skip(1)).insert(t)
        } else {
            declared_names(ts.skip(1))
        }
    }
}

/// The names the declarations among `ds` declare, skipping those with an initial value:
/// `variable v : t := x;` has a value from elaboration, so reading it is not a latch.
pub open spec fn declarations_names(ds: Seq<Node>) -> Set<Seq<char>>
    decreases ds.len(),
{
    if ds.len() == 0 {
        Set::empty()
    } else if has_text(spec_text_of(ds.last()), ":="@) {
        declarations_names(ds.drop_last())
    } else {
        declarations_names(ds.drop_last()).union(declared_names(spec_tokens(ds.last())))
    }
}

/// The variables a process declares without an initial value.
pub open spec fn spec_declared_variables(process: Node) -> Set<Seq<char>> {
    declarations_names(spec_find(process, Kind::VariableDeclaration))
}

/// The variables a process declares without an initial value.
pub fn declared_variables(process: &Node) -> (r: Vec<String>)
    ensures
        names(r@) == spec_declared_variables(*process),
{
    let ds = find(process, Kind::VariableDeclaration);
    let mut out: Vec<String> = Vec::new();
    assert(names(out@) =~= Set::<Seq<char>>::empty());
    let mut i: usize = 0;
    while i < ds.len()
        invariant
            0 <= i <= ds@.len(),
            names(out@) == declarations_names(nodes_of(ds@).take(i as int)),
        decreases ds@.len() - i,
    {
        let d = ds[i];
        assert(nodes_of(ds@).take(i + 1).drop_last() =~= nodes_of(ds@).take(i as int));
        assert(nodes_of(ds@).take(i + 1).last() == *d);
        let t = text_of(d);
        let ghost before_d = names(out@);
        if !contains_text(&t, ":=") {
            let toks = all_tokens(d);
            let ghost start = names(out@);
            let mut j: usize = 0;
            let mut stop = false;
            assert(tokens_of(toks@).skip(0) =~= tokens_of(toks@));
            while j < toks.len() && !stop
                invariant
                    0 <= j <= toks@.len(),
                    tokens_of(toks@) == spec_tokens(*d),
                    stop ==> declared_names(tokens_of(toks@).skip(j as int)) == Set::<Seq<char>>::empty(),
                    start.union(declared_names(tokens_of(toks@))) == names(out@).union(
                        declared_names(tokens_of(toks@).skip(j as int)),
                    ),
                decreases toks@.len() - j + if stop { 0int } else { 1int },
            {
                let ghost rest = tokens_of(toks@).skip(j as int);
                assert(rest.skip(1) =~= tokens_of(toks@).skip(j + 1));
                assert(rest[0] == *toks@[j as int]);
                let low = crate::analysis::syntax::lower_text(toks[j]);
                let text = crate::chars::string_of(&low, 0, low.len());
                assert(low@.subrange(0, low@.len() as int) =~= low@);
                if str_eq(text.as_str(), ":") {
                    assert(declared_names(rest) =~= Set::<Seq<char>>::empty());
                    stop = true;
                } else {
                let first_ok = low.len() > 0 && (('a' <= low[0] && low[0] <= 'z') || ('A' <= low[0]
                    && low[0] <= 'Z') || low[0] == '_');
                if first_ok && !str_eq(text.as_str(), "variable") && !str_eq(text.as_str(), "shared") {
                    let ghost before = names(out@);
                    add_name(&mut out, text);
                    assert(before.union(declared_names(rest)) =~= names(out@).union(
                        declared_names(tokens_of(toks@).skip(j + 1)),
                    ));
                }
                j = j + 1;
                }
            }
            proof {
                if stop {
                    assert(names(out@).union(Set::<Seq<char>>::empty()) =~= names(out@));
                } else {
                    assert(tokens_of(toks@).skip(j as int) =~= Seq::<Token>::empty());
                    assert(names(out@).union(Set::<Seq<char>>::empty()) =~= names(out@));
                }
                assert(names(out@) == before_d.union(declared_names(spec_tokens(*d))));
            }
            assert(declarations_names(nodes_of(ds@).take(i + 1)) == declarations_names(nodes_of(ds@).take(i as int)).union(declared_names(spec_tokens(*d))));
        } else {
            assert(declarations_names(nodes_of(ds@).take(i + 1)) == declarations_names(nodes_of(ds@).take(i as int)));
        }
        i = i + 1;
    }
    assert(nodes_of(ds@).take(ds@.len() as int) =~= nodes_of(ds@));
    out
}


/// Whether a node of kind `k` assigns a signal or a variable.
pub open spec fn is_assigning(k: Kind) -> bool {
    signal_assignment_kinds().contains(k) || variable_assignment_kinds().contains(k)
}

/// The names a node reads, which is everything it names except the targets it assigns, as
/// (name, offset), in the order `reads` finds them: each node's after those of its children.
pub open spec fn spec_reads(n: Node) -> Seq<(Seq<char>, usize)>
    decreases n, 2int, 0int,
{
    reads_upto(n, n.elements@.len() as int) + if (n.kind == Kind::Name || n.kind
        == Kind::NameDesignatorPrefix) && spec_tokens(n).len() > 0 {
        seq![(lowered(spec_tokens(n)[0].text@), spec_tokens(n)[0].offset)]
    } else {
        Seq::empty()
    }
}

/// The names the child nodes among the first `i` elements of `n` read. The left-hand side of
/// an assignment is written, not read; anything else in it, such as the index expressions
/// inside `q(i)`, is read.
pub open spec fn reads_upto(n: Node, i: int) -> Seq<(Seq<char>, usize)>
    decreases n, 0int, i,
{
    if i <= 0 || i > n.elements@.len() {
        Seq::empty()
    } else {
        reads_upto(n, i - 1) + match n.elements@[i - 1] {
            Element::Node(c) => {
                proof {
                    lemma_child_decreases(n, i - 1);
                }
                if is_assigning(n.kind) && c.kind == Kind::NameTarget {
                    target_reads(c, c.elements@.len() as int)
                } else {
                    spec_reads(c)
                }
            },
            Element::Token(_) => Seq::empty(),
        }
    }
}

/// The names the child nodes of an assignment target among its first `j` elements read, the
/// target's own `Name` left out.
pub open spec fn target_reads(c: Node, j: int) -> Seq<(Seq<char>, usize)>
    decreases c, 1int, j,
{
    if j <= 0 || j > c.elements@.len() {
        Seq::empty()
    } else {
        target_reads(c, j - 1) + match c.elements@[j - 1] {
            Element::Node(g) => if g.kind != Kind::Name {
                proof {
                    lemma_child_decreases(c, j - 1);
                }
                spec_reads(g)
            } else {
                Seq::empty()
            },
            Element::Token(_) => Seq::empty(),
        }
    }
}

/// Appends the names `node` reads to `out`.
pub fn reads(node: &Node, out: &mut Vec<(String, usize)>)
    ensures
        named_views(final(out)@) == named_views(old(out)@) + spec_reads(*node),
    decreases node, 2int, 0int,
{
    let signal_kinds = signal_assignments();
    let variable_kinds = variable_assignments();
    let assigning = has_kind(&signal_kinds, node.kind) || has_kind(&variable_kinds, node.kind);
    let ghost start = named_views(out@);
    let mut i: usize = 0;
    while i < node.elements.len()
        invariant
            0 <= i <= node.elements@.len(),
            assigning == is_assigning(node.kind),
            named_views(out@) == start + reads_upto(*node, i as int),
        decreases node.elements@.len() - i,
    {
        match &node.elements[i] {
            Element::Node(c) => {
                proof {
                    lemma_child_decreases(*node, i as int);
                }
                if assigning && c.kind == Kind::NameTarget {
                    reads_in_target(c, out);
                } else {
                    reads(c, out);
                }
            },
            Element::Token(_) => {},
        }
        i = i + 1;
    }
    if node.kind == Kind::Name || node.kind == Kind::NameDesignatorPrefix {
        let toks = all_tokens(node);
        if toks.len() > 0 {
            assert(tokens_of(toks@)[0] == *toks@[0]);
            let low = crate::analysis::syntax::lower_text(toks[0]);
            let text = crate::chars::string_of(&low, 0, low.len());
            assert(low@.subrange(0, low@.len() as int) =~= low@);
            let ghost before = named_views(out@);
            out.push((text, toks[0].offset));
            assert(named_views(out@) =~= before.push((low@, toks@[0].offset)));
        } else {
            assert(named_views(out@) =~= start + spec_reads(*node));
        }
    } else {
        assert(named_views(out@) =~= start + spec_reads(*node));
    }
}

/// Appends the names the parts of an assignment target other than its `Name` read.
fn reads_in_target(c: &Node, out: &mut Vec<(String, usize)>)
    ensures
        named_views(final(out)@) == named_views(old(out)@) + target_reads(*c, c.elements@.len() as int),
    decreases c, 1int, 0int,
{
    let ghost start = named_views(out@);
    let mut j: usize = 0;
    assert(named_views(out@) =~= start + Seq::<(Seq<char>, usize)>::empty());
    while j < c.elements.len()
        invariant
            0 <= j <= c.elements@.len(),
            named_views(out@) == start + target_reads(*c, j as int),
        decreases c.elements@.len() - j,
    {
        match &c.elements[j] {
            Element::Node(g) => {
                if g.kind != Kind::Name {
                    proof {
                        lemma_child_decreases(*c, j as int);
                    }
                    reads(g, out);
                }
            },
            Element::Token(_) => {},
        }
        j = j + 1;
    }
}


/// `m` given each of `named` that is declared and not yet assigned, in turn.
pub open spec fn insert_reads(
    m: Seq<(Seq<char>, usize)>,
    named: Seq<(Seq<char>, usize)>,
    declared: Set<Seq<char>>,
    assigned: Set<Seq<char>>,
) -> Seq<(Seq<char>, usize)>
    decreases named.len(),
{
    if named.len() == 0 {
        m
    } else {
        let m2 = if declared.contains(named[0].0) && !assigned.contains(named[0].0) {
            or_insert(m, named[0].0, named[0].1)
        } else {
            m
        };
        insert_reads(m2, named.skip(1), declared, assigned)
    }
}

/// The objects the names of `s` belong to: each name up to its first `.` or `(`.
pub open spec fn bases(s: Set<Seq<char>>) -> Set<Seq<char>> {
    Set::new(|x: Seq<char>| exists|y: Seq<char>| #[trigger] s.contains(y) && spec_path(y).0 == x)
}

/// The variables read before they are assigned in the first `k` of `stmts`, and the variables
/// assigned on every path through them, by the object rather than the element.
pub open spec fn variable_scan(declared: Set<Seq<char>>, stmts: Seq<Node>, k: int) -> (
    Seq<(Seq<char>, usize)>,
    Set<Seq<char>>,
)
    decreases k,
{
    if k <= 0 || k > stmts.len() {
        (Seq::empty(), Set::empty())
    } else {
        let (m, a) = variable_scan(declared, stmts, k - 1);
        let st = stmts[k - 1];
        (
            insert_reads(m, spec_reads(st), declared, a),
            a.union(bases(assigned_one(st, variable_assignment_kinds()))),
        )
    }
}

/// Variables of `process` read on a path through `statements` that has not assigned them yet:
/// the value has to survive from the previous run of the process, which is a latch just as
/// much as an unassigned signal is. In order of name, each at its first such read.
pub open spec fn spec_variable_latches(process: Node, statements: Seq<Node>) -> Seq<
    (Seq<char>, usize),
> {
    variable_scan(spec_declared_variables(process), statements, statements.len() as int).0
}

proof fn lemma_names_take(v: Seq<String>, i: int)
    requires
        0 <= i < v.len(),
    ensures
        names(v.take(i + 1)) == names(v.take(i)).insert(v[i]@),
{
    assert forall|x: Seq<char>| names(v.take(i + 1)).contains(x) implies names(v.take(i)).insert(v[i]@).contains(x) by {
        let j = choose|j: int| 0 <= j < v.take(i + 1).len() && (#[trigger] v.take(i + 1)[j])@ == x;
        if j < i {
            assert(v.take(i)[j]@ == x);
        }
    }
    assert forall|x: Seq<char>| names(v.take(i)).insert(v[i]@).contains(x) implies names(v.take(i + 1)).contains(x) by {
        if x == v[i]@ {
            assert(v.take(i + 1)[i]@ == x);
        } else {
            let j = choose|j: int| 0 <= j < v.take(i).len() && (#[trigger] v.take(i)[j])@ == x;
            assert(v.take(i + 1)[j]@ == x);
        }
    }
    assert(names(v.take(i + 1)) =~= names(v.take(i)).insert(v[i]@));
}

proof fn lemma_bases_insert(s: Set<Seq<char>>, y: Seq<char>)
    ensures
        bases(s.insert(y)) == bases(s).insert(spec_path(y).0),
{
    assert forall|x: Seq<char>| bases(s.insert(y)).contains(x) implies bases(s).insert(spec_path(y).0).contains(x) by {
        let z = choose|z: Seq<char>| #[trigger] s.insert(y).contains(z) && spec_path(z).0 == x;
        if z != y {
            assert(s.contains(z));
        }
    }
    assert forall|x: Seq<char>| bases(s).insert(spec_path(y).0).contains(x) implies bases(s.insert(y)).contains(x) by {
        if x == spec_path(y).0 {
            assert(s.insert(y).contains(y));
        } else {
            let z = choose|z: Seq<char>| #[trigger] s.contains(z) && spec_path(z).0 == x;
            assert(s.insert(y).contains(z));
        }
    }
    assert(bases(s.insert(y)) =~= bases(s).insert(spec_path(y).0));
}

/// Adds the objects the names of `v` belong to to `assigned`.
fn add_bases(assigned: &mut Vec<String>, v: &Vec<String>)
    ensures
        names(final(assigned)@) == names(old(assigned)@).union(bases(names(v@))),
{
    let ghost start = names(assigned@);
    let mut i: usize = 0;
    assert(names(v@.take(0)) =~= Set::<Seq<char>>::empty());
    assert(bases(Set::<Seq<char>>::empty()) =~= Set::<Seq<char>>::empty());
    assert(start.union(Set::<Seq<char>>::empty()) =~= start);
    while i < v.len()
        invariant
            0 <= i <= v@.len(),
            names(assigned@) == start.union(bases(names(v@.take(i as int)))),
        decreases v@.len() - i,
    {
        let (base, _) = path(v[i].as_str());
        add_name(assigned, base);
        proof {
            lemma_names_take(v@, i as int);
            lemma_bases_insert(names(v@.take(i as int)), v@[i as int]@);
            assert(names(assigned@) =~= start.union(bases(names(v@.take(i + 1)))));
        }
        i = i + 1;
    }
    assert(v@.take(v@.len() as int) =~= v@);
}

/// Variables of `process` read on a path through `statements` that has not assigned them yet,
/// in order of name, each at its first such read.
pub fn variable_latches(process: &Node, statements: &Vec<&Node>) -> (r: Vec<(String, usize)>)
    ensures
        named_views(r@) == spec_variable_latches(*process, nodes_of(statements@)),
{
    let declared = declared_variables(process);
    let ghost dset = names(declared@);
    let ghost stmts = nodes_of(statements@);
    let variable_kinds = variable_assignments();
    let mut out: Vec<(String, usize)> = Vec::new();
    let mut assigned: Vec<String> = Vec::new();
    assert(named_views(out@) =~= Seq::<(Seq<char>, usize)>::empty());
    assert(names(assigned@) =~= Set::<Seq<char>>::empty());
    let mut k: usize = 0;
    while k < statements.len()
        invariant
            0 <= k <= statements@.len(),
            stmts == nodes_of(statements@),
            dset == names(declared@),
            dset == spec_declared_variables(*process),
            variable_kinds@ == variable_assignment_kinds(),
            (named_views(out@), names(assigned@)) == variable_scan(dset, stmts, k as int),
        decreases statements@.len() - k,
    {
        let st = statements[k];
        let mut named: Vec<(String, usize)> = Vec::new();
        reads(st, &mut named);
        assert(named_views(named@) =~= Seq::<(Seq<char>, usize)>::empty() + spec_reads(*st));
        let ghost m0 = named_views(out@);
        let ghost a0 = names(assigned@);
        let mut j: usize = 0;
        assert(named_views(named@).skip(0) =~= named_views(named@));
        while j < named.len()
            invariant
                0 <= j <= named@.len(),
                dset == names(declared@),
                a0 == names(assigned@),
                insert_reads(named_views(out@), named_views(named@).skip(j as int), dset, a0)
                    == insert_reads(m0, named_views(named@), dset, a0),
            decreases named@.len() - j,
        {
            let ghost rest = named_views(named@).skip(j as int);
            assert(rest.skip(1) =~= named_views(named@).skip(j + 1));
            assert(rest[0] == named_view(named@[j as int]));
            if has_name(&declared, named[j].0.as_str()) && !has_name(&assigned, named[j].0.as_str()) {
                entry_or_insert(&mut out, named[j].0.clone(), named[j].1);
            }
            j = j + 1;
        }
        assert(named_views(named@).skip(j as int) =~= Seq::<(Seq<char>, usize)>::empty());
        let always = always_in_statement(st, &variable_kinds);
        add_bases(&mut assigned, &always);
        proof {
            assert(stmts[k as int] == *st);
        }
        k = k + 1;
    }
    out
}

/// The statements of a process: those of each of its statement parts.
pub open spec fn all_bodies(parts: Seq<Node>) -> Seq<Node>
    decreases parts.len(),
{
    if parts.len() == 0 {
        Seq::empty()
    } else {
        all_bodies(parts.drop_last()) + spec_body(parts.last())
    }
}

/// The statements of a process.
pub open spec fn process_statements(process: Node) -> Seq<Node> {
    all_bodies(spec_find(process, Kind::ProcessStatementPart))
}

/// What `statements` assign on every path, one after the other.
pub open spec fn statements_assigned(statements: Seq<Node>, kinds: Seq<Kind>) -> Set<Seq<char>>
    decreases statements.len(),
{
    if statements.len() == 0 {
        Set::empty()
    } else {
        statements_assigned(statements.drop_last(), kinds).union(
            assigned_one(statements.last(), kinds),
        )
    }
}

/// Whether a value is given to `name` on every path, by assigning it or a whole it is part of:
/// `rec` covers `rec.a` and `q` covers `q(3)`.
pub open spec fn covered(always: Set<Seq<char>>, name: Seq<char>) -> bool {
    always.contains(name) || exists|at: int|
        0 <= at < name.len() && (name[at] == '.' || name[at] == '(') && always.contains(
            #[trigger] name.take(at),
        )
}

/// `m` given each of `named` that is not covered, in turn.
pub open spec fn insert_uncovered(
    m: Seq<(Seq<char>, usize)>,
    named: Seq<(Seq<char>, usize)>,
    always: Set<Seq<char>>,
) -> Seq<(Seq<char>, usize)>
    decreases named.len(),
{
    if named.len() == 0 {
        m
    } else {
        let m2 = if !covered(always, named[0].0) {
            or_insert(m, named[0].0, named[0].1)
        } else {
            m
        };
        insert_uncovered(m2, named.skip(1), always)
    }
}

/// `m` given each of `named`, in turn.
pub open spec fn insert_all(m: Seq<(Seq<char>, usize)>, named: Seq<(Seq<char>, usize)>) -> Seq<
    (Seq<char>, usize),
>
    decreases named.len(),
{
    if named.len() == 0 {
        m
    } else {
        insert_all(or_insert(m, named[0].0, named[0].1), named.skip(1))
    }
}

/// Signals a process assigns somewhere but not on every path, each of which has to remember
/// its value, then the variables it reads before assigning them; in order of name, each at its
/// first place.
pub open spec fn spec_latches(process: Node) -> Seq<(Seq<char>, usize)> {
    let statements = process_statements(process);
    let always = statements_assigned(statements, signal_assignment_kinds());
    insert_all(
        insert_uncovered(Seq::empty(), spec_assignments(process), always),
        spec_variable_latches(process, statements),
    )
}

/// Whether `name`, or a whole it is part of, is among `always`.
fn is_covered(always: &Vec<String>, name: &str) -> (r: bool)
    ensures
        r == covered(names(always@), name@),
{
    if has_name(always, name) {
        return true;
    }
    let v = chars_of(name);
    let mut at: usize = 0;
    while at < v.len()
        invariant
            0 <= at <= v@.len(),
            v@ == name@,
            forall|k: int|
                0 <= k < at ==> !((v@[k] == '.' || v@[k] == '(') && names(always@).contains(
                    #[trigger] name@.take(k),
                )),
        decreases v@.len() - at,
    {
        if v[at] == '.' || v[at] == '(' {
            let head = crate::chars::string_of(&v, 0, at);
            assert(v@.subrange(0, at as int) =~= name@.take(at as int));
            if has_name(always, head.as_str()) {
                return true;
            }
        }
        at = at + 1;
    }
    false
}

/// The statements of a process.
pub fn statements_of<'a>(process: &'a Node) -> (r: Vec<&'a Node>)
    ensures
        nodes_of(r@) == process_statements(*process),
{
    let parts = find(process, Kind::ProcessStatementPart);
    let mut out: Vec<&'a Node> = Vec::new();
    let mut i: usize = 0;
    while i < parts.len()
        invariant
            0 <= i <= parts@.len(),
            nodes_of(out@) == all_bodies(nodes_of(parts@).take(i as int)),
        decreases parts@.len() - i,
    {
        let b = body(parts[i]);
        let ghost before = nodes_of(out@);
        let mut j: usize = 0;
        while j < b.len()
            invariant
                0 <= j <= b@.len(),
                nodes_of(out@) == before + nodes_of(b@).take(j as int),
            decreases b@.len() - j,
        {
            let ghost prev = out@;
            out.push(b[j]);
            assert(nodes_of(out@) =~= nodes_of(prev).push(*b@[j as int]));
            assert(nodes_of(b@).take(j + 1) =~= nodes_of(b@).take(j as int).push(*b@[j as int]));
            j = j + 1;
        }
        assert(nodes_of(b@).take(b@.len() as int) =~= nodes_of(b@));
        assert(nodes_of(parts@).take(i + 1).drop_last() =~= nodes_of(parts@).take(i as int));
        i = i + 1;
    }
    assert(nodes_of(parts@).take(parts@.len() as int) =~= nodes_of(parts@));
    out
}

/// Signals a process assigns somewhere but not on every path, then the variables it reads
/// before assigning them; in order of name, each at its first place.
pub fn latches(process: &Node) -> (r: Vec<(String, usize)>)
    ensures
        named_views(r@) == spec_latches(*process),
{
    let statements = statements_of(process);
    let ghost stmts = nodes_of(statements@);
    let signal_kinds = signal_assignments();
    let mut always: Vec<String> = Vec::new();
    assert(names(always@) =~= Set::<Seq<char>>::empty());
    let mut i: usize = 0;
    while i < statements.len()
        invariant
            0 <= i <= statements@.len(),
            stmts == nodes_of(statements@),
            signal_kinds@ == signal_assignment_kinds(),
            names(always@) == statements_assigned(stmts.take(i as int), signal_assignment_kinds()),
        decreases statements@.len() - i,
    {
        let v = always_in_statement(statements[i], &signal_kinds);
        add_names(&mut always, &v);
        assert(stmts.take(i + 1).drop_last() =~= stmts.take(i as int));
        i = i + 1;
    }
    assert(stmts.take(stmts.len() as int) =~= stmts);
    let ghost aset = names(always@);
    let assigned = assignments(process);
    let mut out: Vec<(String, usize)> = Vec::new();
    let ghost target = insert_uncovered(Seq::empty(), spec_assignments(*process), aset);
    let mut j: usize = 0;
    assert(named_views(assigned@).skip(0) =~= named_views(assigned@));
    assert(named_views(out@) =~= Seq::<(Seq<char>, usize)>::empty());
    while j < assigned.len()
        invariant
            0 <= j <= assigned@.len(),
            aset == names(always@),
            named_views(assigned@) == spec_assignments(*process),
            insert_uncovered(named_views(out@), named_views(assigned@).skip(j as int), aset) == target,
        decreases assigned@.len() - j,
    {
        let ghost rest = named_views(assigned@).skip(j as int);
        assert(rest.skip(1) =~= named_views(assigned@).skip(j + 1));
        assert(rest[0] == named_view(assigned@[j as int]));
        if !is_covered(&always, assigned[j].0.as_str()) {
            entry_or_insert(&mut out, assigned[j].0.clone(), assigned[j].1);
        }
        j = j + 1;
    }
    assert(named_views(assigned@).skip(j as int) =~= Seq::<(Seq<char>, usize)>::empty());
    let vars = variable_latches(process, &statements);
    let ghost target2 = insert_all(target, named_views(vars@));
    let mut k: usize = 0;
    assert(named_views(vars@).skip(0) =~= named_views(vars@));
    while k < vars.len()
        invariant
            0 <= k <= vars@.len(),
            insert_all(named_views(out@), named_views(vars@).skip(k as int)) == target2,
        decreases vars@.len() - k,
    {
        let ghost rest = named_views(vars@).skip(k as int);
        assert(rest.skip(1) =~= named_views(vars@).skip(k + 1));
        assert(rest[0] == named_view(vars@[k as int]));
        entry_or_insert(&mut out, vars[k].0.clone(), vars[k].1);
        k = k + 1;
    }
    assert(named_views(vars@).skip(k as int) =~= Seq::<(Seq<char>, usize)>::empty());
    out
}


/// Whether a node of kind `k` is a generate statement.
pub open spec fn is_generate(k: Kind) -> bool {
    k == Kind::IfGenerateStatement || k == Kind::CaseGenerateStatement || k
        == Kind::ForGenerateStatement
}

/// Where the first token of `n` starts, 0 when it has none.
pub open spec fn first_offset(n: Node) -> usize {
    if spec_tokens(n).len() > 0 {
        spec_tokens(n)[0].offset
    } else {
        0
    }
}

/// A driver: the target as written, where it is assigned, and the generate body it is in (the
/// offset where that body starts, 0 outside any).
pub type Driver = (Seq<char>, usize, usize);

/// Each of `named` not overlapping one before it (or one of `seen`), as a driver in `scope`:
/// within one statement a signal is driven once, however often and through whatever parts it
/// is assigned.
pub open spec fn dedup_targets(named: Seq<(Seq<char>, usize)>, seen: Seq<Seq<char>>, scope: usize) -> Seq<
    Driver,
>
    decreases named.len(),
{
    if named.len() == 0 {
        Seq::empty()
    } else if exists|k: int| 0 <= k < seen.len() && spec_targets_overlap(named[0].0, #[trigger] seen[k]) {
        dedup_targets(named.skip(1), seen, scope)
    } else {
        seq![(named[0].0, named[0].1, scope)] + dedup_targets(named.skip(1), seen.push(named[0].0), scope)
    }
}

/// The drivers of a statement, or of the statements in the bodies of a generate statement
/// (each body a scope of its own, as two bodies never elaborate together), last first.
pub open spec fn node_drivers(st: Node, scope: usize) -> Seq<Driver>
    decreases st, 3int, 0int,
{
    if is_generate(st.kind) {
        generate_drivers(st, st.elements@.len() as int)
    } else {
        dedup_targets(spec_assignments(st), Seq::empty(), scope)
    }
}

/// The drivers in the generate bodies among the first `i` elements of a generate statement,
/// last first: a branch is a body itself or holds bodies.
pub open spec fn generate_drivers(st: Node, i: int) -> Seq<Driver>
    decreases st, 2int, i,
{
    if i <= 0 || i > st.elements@.len() {
        Seq::empty()
    } else {
        (match st.elements@[i - 1] {
            Element::Node(b) => {
                proof {
                    lemma_child_decreases(st, i - 1);
                }
                if b.kind == Kind::GenerateStatementBody {
                    body_drivers(b)
                } else {
                    branch_drivers(b, b.elements@.len() as int)
                }
            },
            Element::Token(_) => Seq::empty(),
        }) + generate_drivers(st, i - 1)
    }
}

/// The drivers in the generate bodies among the first `j` elements of a branch, last first.
pub open spec fn branch_drivers(b: Node, j: int) -> Seq<Driver>
    decreases b, 2int, j,
{
    if j <= 0 || j > b.elements@.len() {
        Seq::empty()
    } else {
        (match b.elements@[j - 1] {
            Element::Node(g) => if g.kind == Kind::GenerateStatementBody {
                proof {
                    lemma_child_decreases(b, j - 1);
                }
                body_drivers(g)
            } else {
                Seq::empty()
            },
            Element::Token(_) => Seq::empty(),
        }) + branch_drivers(b, j - 1)
    }
}

/// The drivers of the statements of a generate body, last first, in the scope of the body.
pub open spec fn body_drivers(b: Node) -> Seq<Driver>
    decreases b, 1int, 0int,
{
    statement_list_drivers(b, b.elements@.len() as int, first_offset(b))
}

/// The drivers of the child statements among the first `j` elements of `b`, last first.
pub open spec fn statement_list_drivers(b: Node, j: int, scope: usize) -> Seq<Driver>
    decreases b, 0int, j,
{
    if j <= 0 || j > b.elements@.len() {
        Seq::empty()
    } else {
        (match b.elements@[j - 1] {
            Element::Node(c) => {
                proof {
                    lemma_child_decreases(b, j - 1);
                }
                node_drivers(c, scope)
            },
            Element::Token(_) => Seq::empty(),
        }) + statement_list_drivers(b, j - 1, scope)
    }
}

/// The drivers of `s`, last first.
pub open spec fn list_drivers(s: Seq<Node>) -> Seq<Driver>
    decreases s.len(),
{
    if s.len() == 0 {
        Seq::empty()
    } else {
        node_drivers(s.last(), 0) + list_drivers(s.drop_last())
    }
}

/// Every driver of an architecture's concurrent statements, in the order a stack of
/// statements yields them: the last statement first, and a generate statement's bodies in
/// its place.
pub open spec fn spec_drivers(architecture: Node) -> Seq<Driver> {
    list_drivers(all_children(spec_find(architecture, Kind::ArchitectureStatementPart)))
}

/// A driver as plain values.
pub open spec fn driver_view(d: (String, usize, usize)) -> Driver {
    (d.0@, d.1, d.2)
}

pub open spec fn drivers_view(v: Seq<(String, usize, usize)>) -> Seq<Driver> {
    v.map_values(|d: (String, usize, usize)| driver_view(d))
}

/// Appends the drivers of one statement.
fn statement_drivers(st: &Node, scope: usize, out: &mut Vec<(String, usize, usize)>)
    ensures
        drivers_view(final(out)@) == drivers_view(old(out)@) + dedup_targets(spec_assignments(*st), Seq::empty(), scope),
{
    let named = assignments(st);
    let ghost all = named_views(named@);
    let ghost start = drivers_view(out@);
    let mut seen: Vec<String> = Vec::new();
    let mut i: usize = 0;
    assert(all.skip(0) =~= all);
    assert(strings_view(seen@) =~= Seq::<Seq<char>>::empty());
    assert(drivers_view(out@) =~= start + Seq::<Driver>::empty());
    while i < named.len()
        invariant
            0 <= i <= named@.len(),
            all == named_views(named@),
            all == spec_assignments(*st),
            start + dedup_targets(all, Seq::empty(), scope) == drivers_view(out@) + dedup_targets(
                all.skip(i as int),
                strings_view(seen@),
                scope,
            ),
        decreases named@.len() - i,
    {
        let ghost rest = all.skip(i as int);
        let ghost before = drivers_view(out@);
        let ghost sv = strings_view(seen@);
        assert(rest.skip(1) =~= all.skip(i + 1));
        assert(rest[0] == named_view(named@[i as int]));
        let mut hit = false;
        let mut k: usize = 0;
        while k < seen.len()
            invariant
                0 <= k <= seen@.len(),
                sv == strings_view(seen@),
                hit == exists|q: int| 0 <= q < k && spec_targets_overlap(rest[0].0, #[trigger] sv[q]),
                i < named@.len(),
                rest[0] == named_view(named@[i as int]),
            decreases seen@.len() - k,
        {
            if targets_overlap(named[i].0.as_str(), seen[k].as_str()) {
                hit = true;
                assert(spec_targets_overlap(rest[0].0, sv[k as int]));
            }
            k = k + 1;
        }
        if !hit {
            let name = named[i].0.clone();
            out.push((named[i].0.clone(), named[i].1, scope));
            seen.push(name);
            assert(strings_view(seen@) =~= sv.push(rest[0].0));
            assert(drivers_view(out@) =~= before + seq![(rest[0].0, rest[0].1, scope)]);
        }
        i = i + 1;
    }
    assert(all.skip(i as int) =~= Seq::<(Seq<char>, usize)>::empty());
    assert(drivers_view(out@) + Seq::<Driver>::empty() =~= drivers_view(out@));
}

/// Appends the drivers of a statement, or of the statements in a generate statement's bodies.
fn node_drivers_into(st: &Node, scope: usize, out: &mut Vec<(String, usize, usize)>)
    ensures
        drivers_view(final(out)@) == drivers_view(old(out)@) + node_drivers(*st, scope),
    decreases st, 3int, 0int,
{
    if st.kind == Kind::IfGenerateStatement || st.kind == Kind::CaseGenerateStatement || st.kind
        == Kind::ForGenerateStatement {
        let ghost start = drivers_view(out@);
        let mut i: usize = st.elements.len();
        assert(drivers_view(out@) =~= start + Seq::<Driver>::empty());
        while i > 0
            invariant
                0 <= i <= st.elements@.len(),
                drivers_view(out@) + generate_drivers(*st, i as int) == start + generate_drivers(*st, st.elements@.len() as int),
            decreases i,
        {
            let ghost before = drivers_view(out@);
            match &st.elements[i - 1] {
                Element::Node(b) => {
                    proof {
                        lemma_child_decreases(*st, i - 1);
                    }
                    if b.kind == Kind::GenerateStatementBody {
                        body_drivers_into(b, out);
                    } else {
                        branch_drivers_into(b, out);
                    }
                },
                Element::Token(_) => {},
            }
            assert(drivers_view(out@) + generate_drivers(*st, i - 1) =~= before + generate_drivers(*st, i as int));
            i = i - 1;
        }
        assert(drivers_view(out@) + Seq::<Driver>::empty() =~= drivers_view(out@));
    } else {
        statement_drivers(st, scope, out);
    }
}

/// Appends the drivers in the generate bodies a branch holds, last first.
fn branch_drivers_into(b: &Node, out: &mut Vec<(String, usize, usize)>)
    ensures
        drivers_view(final(out)@) == drivers_view(old(out)@) + branch_drivers(*b, b.elements@.len() as int),
    decreases b, 2int, 0int,
{
    let ghost start = drivers_view(out@);
    let mut j: usize = b.elements.len();
    assert(drivers_view(out@) =~= start + Seq::<Driver>::empty());
    while j > 0
        invariant
            0 <= j <= b.elements@.len(),
            drivers_view(out@) + branch_drivers(*b, j as int) == start + branch_drivers(*b, b.elements@.len() as int),
        decreases j,
    {
        let ghost before = drivers_view(out@);
        match &b.elements[j - 1] {
            Element::Node(g) => {
                if g.kind == Kind::GenerateStatementBody {
                    proof {
                        lemma_child_decreases(*b, j - 1);
                    }
                    body_drivers_into(g, out);
                }
            },
            Element::Token(_) => {},
        }
        assert(drivers_view(out@) + branch_drivers(*b, j - 1) =~= before + branch_drivers(*b, j as int));
        j = j - 1;
    }
    assert(drivers_view(out@) + Seq::<Driver>::empty() =~= drivers_view(out@));
}

/// Appends the drivers of the statements of a generate body, last first.
fn body_drivers_into(b: &Node, out: &mut Vec<(String, usize, usize)>)
    ensures
        drivers_view(final(out)@) == drivers_view(old(out)@) + body_drivers(*b),
    decreases b, 1int, 0int,
{
    let toks = all_tokens(b);
    let key: usize = if toks.len() > 0 {
        assert(tokens_of(toks@)[0] == *toks@[0]);
        toks[0].offset
    } else {
        0
    };
    let ghost start = drivers_view(out@);
    let mut j: usize = b.elements.len();
    assert(drivers_view(out@) =~= start + Seq::<Driver>::empty());
    while j > 0
        invariant
            0 <= j <= b.elements@.len(),
            key == first_offset(*b),
            drivers_view(out@) + statement_list_drivers(*b, j as int, key) == start + statement_list_drivers(*b, b.elements@.len() as int, key),
        decreases j,
    {
        let ghost before = drivers_view(out@);
        match &b.elements[j - 1] {
            Element::Node(c) => {
                proof {
                    lemma_child_decreases(*b, j - 1);
                }
                node_drivers_into(c, key, out);
            },
            Element::Token(_) => {},
        }
        assert(drivers_view(out@) + statement_list_drivers(*b, j - 1, key) =~= before + statement_list_drivers(*b, j as int, key));
        j = j - 1;
    }
    assert(drivers_view(out@) + Seq::<Driver>::empty() =~= drivers_view(out@));
}

/// Every driver of an architecture's concurrent statements: the last statement first, and a
/// generate statement's bodies in its place.
pub fn drivers(architecture: &Node) -> (r: Vec<(String, usize, usize)>)
    ensures
        drivers_view(r@) == spec_drivers(*architecture),
{
    let parts = find(architecture, Kind::ArchitectureStatementPart);
    let mut statements: Vec<&Node> = Vec::new();
    let mut i: usize = 0;
    while i < parts.len()
        invariant
            0 <= i <= parts@.len(),
            nodes_of(statements@) == all_children(nodes_of(parts@).take(i as int)),
        decreases parts@.len() - i,
    {
        let kids = children(parts[i]);
        let ghost before = nodes_of(statements@);
        let mut j: usize = 0;
        while j < kids.len()
            invariant
                0 <= j <= kids@.len(),
                nodes_of(statements@) == before + nodes_of(kids@).take(j as int),
            decreases kids@.len() - j,
        {
            let ghost prev = statements@;
            statements.push(kids[j]);
            assert(nodes_of(statements@) =~= nodes_of(prev).push(*kids@[j as int]));
            assert(nodes_of(kids@).take(j + 1) =~= nodes_of(kids@).take(j as int).push(*kids@[j as int]));
            j = j + 1;
        }
        assert(nodes_of(kids@).take(kids@.len() as int) =~= nodes_of(kids@));
        assert(nodes_of(parts@).take(i + 1).drop_last() =~= nodes_of(parts@).take(i as int));
        i = i + 1;
    }
    assert(nodes_of(parts@).take(parts@.len() as int) =~= nodes_of(parts@));
    let ghost all = nodes_of(statements@);
    let mut out: Vec<(String, usize, usize)> = Vec::new();
    let mut k: usize = statements.len();
    assert(drivers_view(out@) =~= Seq::<Driver>::empty());
    assert(all.take(k as int) =~= all);
    while k > 0
        invariant
            0 <= k <= statements@.len(),
            all == nodes_of(statements@),
            drivers_view(out@) + list_drivers(all.take(k as int)) == list_drivers(all),
        decreases k,
    {
        let ghost before = drivers_view(out@);
        node_drivers_into(statements[k - 1], 0, &mut out);
        assert(all.take(k as int).drop_last() =~= all.take(k - 1));
        assert(all.take(k as int).last() == *statements@[k - 1]);
        assert(drivers_view(out@) + list_drivers(all.take(k - 1)) =~= before + list_drivers(all.take(k as int)));
        k = k - 1;
    }
    assert(all.take(0) =~= Seq::<Node>::empty());
    assert(drivers_view(out@) + Seq::<Driver>::empty() =~= drivers_view(out@));
    out
}


/// Whether finding `a` goes before `b`: by line, then column, then rule.
pub open spec fn finding_before(a: SFinding, b: SFinding) -> bool {
    a.line < b.line || (a.line == b.line && (a.column < b.column || (a.column == b.column
        && text_less(a.rule, b.rule))))
}

/// `s` with `f` put before the first finding `f` goes before, so after every one it ties with.
pub open spec fn insert_finding(s: Seq<SFinding>, f: SFinding) -> Seq<SFinding>
    decreases s.len(),
{
    if s.len() == 0 {
        seq![f]
    } else if finding_before(f, s[0]) {
        seq![f] + s
    } else {
        seq![s[0]] + insert_finding(s.skip(1), f)
    }
}

/// `s` sorted by line, column and rule, findings that tie keeping their order.
pub open spec fn sort_findings(s: Seq<SFinding>) -> Seq<SFinding>
    decreases s.len(),
{
    if s.len() == 0 {
        Seq::empty()
    } else {
        insert_finding(sort_findings(s.drop_last()), s.last())
    }
}

/// Whether `a` goes before `b`: by line, then column, then rule.
fn goes_before(a: &Finding, b: &Finding) -> (r: bool)
    ensures
        r == finding_before(finding_view(*a), finding_view(*b)),
{
    a.line < b.line || (a.line == b.line && (a.column < b.column || (a.column == b.column
        && less_text(a.rule, b.rule))))
}

/// Puts `f` into `out`, which is in order, where [`insert_finding`] puts it.
pub(crate) fn put_finding(out: &mut Vec<Finding>, f: Finding)
    ensures
        finding_views(final(out)@) == insert_finding(finding_views(old(out)@), finding_view(f)),
{
    let ghost whole = finding_views(out@);
    let ghost fv = finding_view(f);
    let mut i: usize = 0;
    assert(whole.skip(0) =~= whole);
    assert(whole.take(0) + insert_finding(whole.skip(0), fv) =~= insert_finding(whole, fv));
    while i < out.len()
        invariant
            0 <= i <= out@.len(),
            finding_views(out@) == whole,
            whole == finding_views(old(out)@),
            fv == finding_view(f),
            insert_finding(whole, fv) == whole.take(i as int) + insert_finding(whole.skip(i as int), fv),
        decreases out@.len() - i,
    {
        assert(whole.skip(i as int)[0] == finding_view(out@[i as int]));
        if goes_before(&f, &out[i]) {
            assert(insert_finding(whole.skip(i as int), fv) == seq![fv] + whole.skip(i as int));
            let ghost before = out@;
            out.insert(i, f);
            assert(out@ == before.insert(i as int, f));
            assert(finding_views(out@) =~= whole.take(i as int) + (seq![fv] + whole.skip(i as int)));
            return;
        }
        assert(whole.skip(i as int).skip(1) =~= whole.skip(i + 1));
        assert(whole.take(i + 1) =~= whole.take(i as int) + seq![whole.skip(i as int)[0]]);
        i = i + 1;
    }
    out.push(f);
    assert(whole.skip(i as int) =~= Seq::<SFinding>::empty());
    assert(whole.take(i as int) =~= whole);
    assert(finding_views(out@) =~= whole + seq![fv]);
}

/// The offsets of the drivers among the first `j` of `d` other than the `i`th that are in its
/// scope and overlap its target.
pub open spec fn others_upto(d: Seq<Driver>, i: int, j: int) -> Seq<usize>
    decreases j,
{
    if j <= 0 || j > d.len() {
        Seq::empty()
    } else {
        others_upto(d, i, j - 1) + if j - 1 != i && d[j - 1].2 == d[i].2 && spec_targets_overlap(
            d[i].0,
            d[j - 1].0,
        ) {
            seq![d[j - 1].1]
        } else {
            Seq::empty()
        }
    }
}

/// `s`, in ascending order without repeats, with `x` put in its place.
pub open spec fn insert_ascending(s: Seq<usize>, x: usize) -> Seq<usize>
    decreases s.len(),
{
    if s.len() == 0 {
        seq![x]
    } else if s[0] == x {
        s
    } else if x < s[0] {
        seq![x] + s
    } else {
        seq![s[0]] + insert_ascending(s.skip(1), x)
    }
}

/// The values of `s` in ascending order, each once.
pub open spec fn ascending(s: Seq<usize>) -> Seq<usize>
    decreases s.len(),
{
    if s.len() == 0 {
        Seq::empty()
    } else {
        insert_ascending(ascending(s.drop_last()), s.last())
    }
}

/// Puts `x` into `v`, which is ascending without repeats, where [`insert_ascending`] puts it.
fn put_ascending(v: &mut Vec<usize>, x: usize)
    ensures
        final(v)@ == insert_ascending(old(v)@, x),
{
    let ghost whole = v@;
    let mut i: usize = 0;
    assert(whole.skip(0) =~= whole);
    assert(whole.take(0) + insert_ascending(whole.skip(0), x) =~= insert_ascending(whole, x));
    while i < v.len()
        invariant
            0 <= i <= v@.len(),
            v@ == whole,
            whole == old(v)@,
            insert_ascending(whole, x) == whole.take(i as int) + insert_ascending(whole.skip(i as int), x),
        decreases v@.len() - i,
    {
        assert(whole.skip(i as int)[0] == v@[i as int]);
        if v[i] == x {
            assert(whole.take(i as int) + whole.skip(i as int) =~= whole);
            return;
        }
        if x < v[i] {
            v.insert(i, x);
            assert(v@ =~= whole.take(i as int) + (seq![x] + whole.skip(i as int)));
            return;
        }
        assert(whole.skip(i as int).skip(1) =~= whole.skip(i + 1));
        assert(whole.take(i + 1) =~= whole.take(i as int) + seq![whole.skip(i as int)[0]]);
        i = i + 1;
    }
    v.push(x);
    assert(whole.skip(i as int) =~= Seq::<usize>::empty());
    assert(whole.take(i as int) =~= whole);
}

/// `'name' is driven here`.
pub open spec fn driven_here(name: Seq<char>) -> Seq<char> {
    "'"@ + name + "' is driven here"@
}

/// `Signal 'name' is assigned by n concurrent statements`.
pub open spec fn assigned_by(name: Seq<char>, n: nat) -> Seq<char> {
    "Signal '"@ + name + "' is assigned by "@ + crate::layout::decimal(n)
        + " concurrent statements"@
}

/// Each offset of `all` as a related place: another driver of `name`.
pub open spec fn driver_places(source: Seq<u8>, utf8: bool, name: Seq<char>, all: Seq<usize>) -> Seq<
    (int, int, Seq<char>),
> {
    all.map_values(
        |o: usize|
            (
                spec_line_col(source, utf8, o as int).0,
                spec_line_col(source, utf8, o as int).1,
                driven_here(name),
            ),
    )
}

/// What `lint_601` reports of the `i`th driver: nothing unless other drivers in its scope
/// overlap it and it is the earliest of them all (one conflict, one finding), and then every
/// driver of the group as a related place.
pub open spec fn conflict_finding(d: Seq<Driver>, i: int, source: Seq<u8>, utf8: bool) -> Option<
    SFinding,
> {
    let others = others_upto(d, i, d.len() as int);
    let all = ascending(others.push(d[i].1));
    if others.len() == 0 || all.len() < 2 || all[0] != d[i].1 {
        None
    } else {
        Some(
            SFinding {
                rule: "lint_601"@,
                line: spec_line_col(source, utf8, d[i].1 as int).0,
                column: spec_line_col(source, utf8, d[i].1 as int).1,
                message: assigned_by(d[i].0, all.len()),
                related: driver_places(source, utf8, d[i].0, all),
            },
        )
    }
}

/// What `lint_601` reports of the first `k` drivers of `d`, in their order.
pub open spec fn conflict_findings(d: Seq<Driver>, k: int, source: Seq<u8>, utf8: bool) -> Seq<
    SFinding,
>
    decreases k,
{
    if k <= 0 || k > d.len() {
        Seq::empty()
    } else {
        conflict_findings(d, k - 1, source, utf8) + match conflict_finding(d, k - 1, source, utf8) {
            Some(f) => seq![f],
            None => Seq::empty(),
        }
    }
}


/// `Signal 'name' is assigned by n concurrent statements`.
fn assigned_by_message(name: &str, n: usize) -> (r: String)
    ensures
        r@ == assigned_by(name@, n as nat),
{
    let mut m = String::from_str("Signal '");
    m.append(name);
    m.append("' is assigned by ");
    let digits = crate::layout::decimal_string(n);
    m.append(digits.as_str());
    m.append(" concurrent statements");
    m
}

/// `'name' is driven here`.
pub(crate) fn driven_here_message(name: &str) -> (r: String)
    ensures
        r@ == driven_here(name@),
{
    let mut m = String::from_str("'");
    m.append(name);
    m.append("' is driven here");
    m
}

/// Puts what `lint_601` reports of the drivers `d` into `out`, which is in order.
fn conflicts_into(
    d: &Vec<(String, usize, usize)>,
    source: &[u8],
    utf8: bool,
    file: &PathBuf,
    out: &mut Vec<Finding>,
    Ghost(g0): Ghost<Seq<SFinding>>,
)
    requires
        4 * source@.len() < usize::MAX,
        finding_views(old(out)@) == sort_findings(g0),
    ensures
        finding_views(final(out)@) == sort_findings(
            g0 + conflict_findings(drivers_view(d@), d@.len() as int, source@, utf8),
        ),
{
    let ghost dv = drivers_view(d@);
    let mut i: usize = 0;
    assert(g0 + conflict_findings(dv, 0, source@, utf8) =~= g0);
    while i < d.len()
        invariant
            0 <= i <= d@.len(),
            dv == drivers_view(d@),
            4 * source@.len() < usize::MAX,
            finding_views(out@) == sort_findings(g0 + conflict_findings(dv, i as int, source@, utf8)),
        decreases d@.len() - i,
    {
        let ghost gen = g0 + conflict_findings(dv, i as int, source@, utf8);
        let mut others: Vec<usize> = Vec::new();
        let mut j: usize = 0;
        while j < d.len()
            invariant
                0 <= j <= d@.len(),
                i < d@.len(),
                dv == drivers_view(d@),
                others@ == others_upto(dv, i as int, j as int),
            decreases d@.len() - j,
        {
            assert(dv[j as int] == driver_view(d@[j as int]));
            assert(dv[i as int] == driver_view(d@[i as int]));
            if j != i && d[j].2 == d[i].2 && targets_overlap(d[i].0.as_str(), d[j].0.as_str()) {
                others.push(d[j].1);
            }
            j = j + 1;
        }
        let own = d[i].1;
        assert(dv[i as int] == driver_view(d@[i as int]));
        let ghost found = conflict_finding(dv, i as int, source@, utf8);
        if others.len() > 0 {
            let mut all: Vec<usize> = Vec::new();
            let mut k: usize = 0;
            assert(others@.take(0) =~= Seq::<usize>::empty());
            while k < others.len()
                invariant
                    0 <= k <= others@.len(),
                    all@ == ascending(others@.take(k as int)),
                decreases others@.len() - k,
            {
                put_ascending(&mut all, others[k]);
                assert(others@.take(k + 1).drop_last() =~= others@.take(k as int));
                k = k + 1;
            }
            assert(others@.take(k as int) =~= others@);
            put_ascending(&mut all, own);
            assert(others@.push(own).drop_last() =~= others@);
            assert(all@ == ascending(others@.push(own)));
            if all.len() >= 2 && all[0] == own {
                let (line, column) = line_col(source, utf8, own);
                let name = d[i].0.as_str();
                let mut related: Vec<Related> = Vec::new();
                let mut q: usize = 0;
                while q < all.len()
                    invariant
                        0 <= q <= all@.len(),
                        4 * source@.len() < usize::MAX,
                        name@ == dv[i as int].0,
                        related@.map_values(|r: Related| related_view(r)) == driver_places(
                            source@,
                            utf8,
                            name@,
                            all@,
                        ).take(q as int),
                    decreases all@.len() - q,
                {
                    let (l, c) = line_col(source, utf8, all[q]);
                    let ghost before = related@;
                    let r = Related { file: file.clone(), line: l, column: c, message: driven_here_message(name) };
                    assert(driver_places(source@, utf8, name@, all@)[q as int] == related_view(r));
                    related.push(r);
                    assert(related@ =~= before.push(r));
                    assert(related@.map_values(|r: Related| related_view(r)) =~= before.map_values(|r: Related| related_view(r)).push(related_view(r)));
                    assert(related@.map_values(|r: Related| related_view(r)) =~= driver_places(
                        source@,
                        utf8,
                        name@,
                        all@,
                    ).take(q + 1));
                    q = q + 1;
                }
                assert(driver_places(source@, utf8, name@, all@).take(q as int) =~= driver_places(source@, utf8, name@, all@));
                let f = Finding {
                    file: file.clone(),
                    rule: "lint_601",
                    line,
                    column,
                    message: assigned_by_message(name, all.len()),
                    related,
                };
                assert(found == Some(finding_view(f)));
                put_finding(out, f);
                assert((gen.push(finding_view(f))).drop_last() =~= gen);
                assert(g0 + conflict_findings(dv, i + 1, source@, utf8) =~= gen.push(finding_view(f)));
            } else {
                assert(found is None);
                assert(g0 + conflict_findings(dv, i + 1, source@, utf8) =~= gen);
            }
        } else {
            assert(found is None);
            assert(g0 + conflict_findings(dv, i + 1, source@, utf8) =~= gen);
        }
        i = i + 1;
    }
}


/// Findings at one place, from (rule, message) pairs.
pub open spec fn findings_at(fs: Seq<(&'static str, Seq<char>)>, line: int, column: int) -> Seq<
    SFinding,
> {
    fs.map_values(
        |p: (&'static str, Seq<char>)|
            SFinding { rule: p.0@, line, column, message: p.1, related: Seq::empty() },
    )
}

/// What `lint_602` and `lint_603` report of the assignments `assigns` of a clocked process:
/// each signal once, at its first assignment, `seen` holding the signals already reported on.
pub open spec fn register_scan(
    assigns: Seq<(Seq<char>, usize)>,
    seen: Set<Seq<char>>,
    naming: Naming,
    source: Seq<u8>,
    utf8: bool,
) -> Seq<SFinding>
    decreases assigns.len(),
{
    if assigns.len() == 0 {
        Seq::empty()
    } else {
        let name = spec_path(assigns[0].0).0;
        if name.len() == 0 || seen.contains(name) {
            register_scan(assigns.skip(1), seen, naming, source, utf8)
        } else {
            findings_at(
                spec_naming_findings(naming, name),
                spec_line_col(source, utf8, assigns[0].1 as int).0,
                spec_line_col(source, utf8, assigns[0].1 as int).1,
            ) + register_scan(assigns.skip(1), seen.insert(name), naming, source, utf8)
        }
    }
}

/// What `lint_602` and `lint_603` report of `processes`: a signal a clocked process assigns
/// becomes a register, and a project may want to see that in its name.
pub open spec fn register_findings(processes: Seq<Node>, naming: Naming, source: Seq<u8>, utf8: bool) -> Seq<
    SFinding,
>
    decreases processes.len(),
{
    if processes.len() == 0 {
        Seq::empty()
    } else {
        register_findings(processes.drop_last(), naming, source, utf8) + if spec_is_clocked(
            processes.last(),
        ) {
            register_scan(spec_assignments(processes.last()), Set::empty(), naming, source, utf8)
        } else {
            Seq::empty()
        }
    }
}

/// `Signal 'name' is not assigned on every path of this combinational process, which infers a
/// latch`.
pub open spec fn latch_message(name: Seq<char>) -> Seq<char> {
    "Signal '"@ + name
        + "' is not assigned on every path of this combinational process, which infers a latch"@
}

/// What `lint_600` reports of the latches of a process.
pub open spec fn latch_places(latches: Seq<(Seq<char>, usize)>, source: Seq<u8>, utf8: bool) -> Seq<
    SFinding,
> {
    latches.map_values(
        |l: (Seq<char>, usize)|
            SFinding {
                rule: "lint_600"@,
                line: spec_line_col(source, utf8, l.1 as int).0,
                column: spec_line_col(source, utf8, l.1 as int).1,
                message: latch_message(l.0),
                related: Seq::empty(),
            },
    )
}

/// What `lint_600` reports of `processes`: a combinational process that does not assign on
/// every path.
pub open spec fn latch_findings(processes: Seq<Node>, source: Seq<u8>, utf8: bool) -> Seq<SFinding>
    decreases processes.len(),
{
    if processes.len() == 0 {
        Seq::empty()
    } else {
        latch_findings(processes.drop_last(), source, utf8) + if !spec_is_not_combinational(
            processes.last(),
        ) {
            latch_places(spec_latches(processes.last()), source, utf8)
        } else {
            Seq::empty()
        }
    }
}

/// What the design checks report of one architecture, before sorting: `lint_601`, then
/// `lint_602` and `lint_603`, then `lint_600`.
pub open spec fn architecture_findings(architecture: Node, naming: Naming, source: Seq<u8>, utf8: bool) -> Seq<
    SFinding,
> {
    let d = spec_drivers(architecture);
    let processes = spec_find(architecture, Kind::ProcessStatement);
    conflict_findings(d, d.len() as int, source, utf8) + register_findings(
        processes,
        naming,
        source,
        utf8,
    ) + latch_findings(processes, source, utf8)
}

/// What the design checks report of `architectures`, before sorting.
pub open spec fn architectures_findings(
    architectures: Seq<Node>,
    naming: Naming,
    source: Seq<u8>,
    utf8: bool,
) -> Seq<SFinding>
    decreases architectures.len(),
{
    if architectures.len() == 0 {
        Seq::empty()
    } else {
        architectures_findings(architectures.drop_last(), naming, source, utf8)
            + architecture_findings(architectures.last(), naming, source, utf8)
    }
}

/// What the design checks report of a file: its syntax tree `root` and its `source`, ordered
/// by line, column and rule.
pub open spec fn spec_check(root: Node, naming: Naming, source: Seq<u8>) -> Seq<SFinding> {
    sort_findings(
        architectures_findings(
            spec_find(root, Kind::ArchitectureBody),
            naming,
            source,
            vstd::utf8::valid_utf8(source),
        ),
    )
}

pub(crate) proof fn lemma_sort_append(g: Seq<SFinding>, f: SFinding)
    ensures
        sort_findings(g.push(f)) == insert_finding(sort_findings(g), f),
{
    assert(g.push(f).drop_last() =~= g);
}

/// Puts the findings `fs` into `out`, which is in order.
pub(crate) fn put_all(out: &mut Vec<Finding>, fs: Vec<Finding>, Ghost(g0): Ghost<Seq<SFinding>>)
    requires
        finding_views(old(out)@) == sort_findings(g0),
    ensures
        finding_views(final(out)@) == sort_findings(g0 + finding_views(fs@)),
{
    let ghost all = finding_views(fs@);
    let ghost n = fs@.len();
    let mut rest = fs;
    assert(g0 + all.take(0) =~= g0);
    assert(all.skip(0) =~= all);
    while rest.len() > 0
        invariant
            0 <= rest@.len() <= n,
            all.len() == n,
            finding_views(rest@) == all.skip(n - rest@.len()),
            finding_views(out@) == sort_findings(g0 + all.take(n - rest@.len())),
        decreases rest@.len(),
    {
        let ghost k = n - rest@.len();
        let ghost before = rest@;
        let f = rest.remove(0);
        proof {
            assert(f == before[0]);
            assert(all.skip(k)[0] == all[k]);
            assert(finding_views(before)[0] == finding_view(f));
            assert(rest@ =~= before.skip(1));
            assert(finding_views(before.skip(1)) =~= finding_views(before).skip(1));
            assert(all.skip(k).skip(1) =~= all.skip(k + 1));
            assert(finding_views(rest@) =~= all.skip(k + 1));
            lemma_sort_append(g0 + all.take(k), finding_view(f));
            assert((g0 + all.take(k)).push(finding_view(f)) =~= g0 + all.take(k + 1));
        }
        put_finding(out, f);
    }
    assert(all.take(n as int) =~= all);
}


/// Findings at one place, from (rule, message) pairs.
fn findings_here(
    fs: Vec<(&'static str, String)>,
    line: usize,
    column: usize,
    file: &PathBuf,
) -> (r: Vec<Finding>)
    ensures
        finding_views(r@) == findings_at(findings_view(fs@), line as int, column as int),
{
    let ghost want = findings_at(findings_view(fs@), line as int, column as int);
    let mut out: Vec<Finding> = Vec::new();
    let mut rest = fs;
    let ghost all = rest@;
    let ghost n = rest@.len();
    assert(all.skip(0) =~= all);
    while rest.len() > 0
        invariant
            0 <= rest@.len() <= n,
            all.len() == n,
            rest@ == all.skip(n - rest@.len()),
            want == findings_at(findings_view(all), line as int, column as int),
            finding_views(out@) == want.take(n - rest@.len()),
        decreases rest@.len(),
    {
        let ghost k = n - rest@.len();
        let ghost before = rest@;
        let (rule, message) = rest.remove(0);
        let f = Finding { file: file.clone(), rule, line, column, message, related: Vec::new() };
        proof {
            assert(before[0] == all[k]);
            assert(rest@ =~= before.skip(1));
            assert(all.skip(k).skip(1) =~= all.skip(k + 1));
            assert(f.related@.map_values(|r: Related| related_view(r)) =~= Seq::<(int, int, Seq<char>)>::empty());
            assert(finding_view(f) == want[k]);
        }
        let ghost prev = out@;
        out.push(f);
        proof {
            assert(out@ == prev.push(f));
            assert(finding_views(out@) =~= finding_views(prev).push(finding_view(f)));
            assert(want.take(k + 1) =~= want.take(k).push(want[k]));
        }
    }
    assert(want.take(n as int) =~= want);
    out
}

/// Puts what `lint_602` and `lint_603` report of a clocked process into `out`.
fn registers_into(
    process: &Node,
    naming: &Naming,
    source: &[u8],
    utf8: bool,
    file: &PathBuf,
    out: &mut Vec<Finding>,
    Ghost(g0): Ghost<Seq<SFinding>>,
)
    requires
        naming.wf(),
        4 * source@.len() < usize::MAX,
        finding_views(old(out)@) == sort_findings(g0),
    ensures
        finding_views(final(out)@) == sort_findings(
            g0 + register_scan(spec_assignments(*process), Set::empty(), *naming, source@, utf8),
        ),
{
    let assigns = assignments(process);
    let ghost all = named_views(assigns@);
    let ghost goal = g0 + register_scan(all, Set::empty(), *naming, source@, utf8);
    let mut seen: Vec<String> = Vec::new();
    let ghost mut gen = g0;
    assert(names(seen@) =~= Set::<Seq<char>>::empty());
    assert(all.skip(0) =~= all);
    assert(goal == gen + register_scan(all.skip(0), names(seen@), *naming, source@, utf8));
    let mut i: usize = 0;
    while i < assigns.len()
        invariant
            0 <= i <= assigns@.len(),
            naming.wf(),
            4 * source@.len() < usize::MAX,
            all == named_views(assigns@),
            goal == gen + register_scan(all.skip(i as int), names(seen@), *naming, source@, utf8),
            finding_views(out@) == sort_findings(gen),
        decreases assigns@.len() - i,
    {
        let ghost rest = all.skip(i as int);
        assert(rest.skip(1) =~= all.skip(i + 1));
        assert(rest[0] == named_view(assigns@[i as int]));
        let (name, _) = path(assigns[i].0.as_str());
        if name.as_str().unicode_len() == 0 || has_name(&seen, name.as_str()) {
        } else {
            let fs = naming.findings(name.as_str());
            let (line, column) = line_col(source, utf8, assigns[i].1);
            let here = findings_here(fs, line, column, file);
            put_all(out, here, Ghost(gen));
            let ghost before_seen = names(seen@);
            add_name(&mut seen, name);
            proof {
                assert(goal == (gen + finding_views(here@)) + register_scan(all.skip(i + 1), names(seen@), *naming, source@, utf8));
                gen = gen + finding_views(here@);
            }
        }
        i = i + 1;
    }
    assert(all.skip(i as int) =~= Seq::<(Seq<char>, usize)>::empty());
    assert(gen + Seq::<SFinding>::empty() =~= gen);
}

/// What `lint_600` reports of a process's latches.
fn latch_findings_of(ls: Vec<(String, usize)>, source: &[u8], utf8: bool, file: &PathBuf) -> (r: Vec<Finding>)
    requires
        4 * source@.len() < usize::MAX,
    ensures
        finding_views(r@) == latch_places(named_views(ls@), source@, utf8),
{
    let ghost want = latch_places(named_views(ls@), source@, utf8);
    let mut out: Vec<Finding> = Vec::new();
    let mut i: usize = 0;
    while i < ls.len()
        invariant
            0 <= i <= ls@.len(),
            4 * source@.len() < usize::MAX,
            want == latch_places(named_views(ls@), source@, utf8),
            finding_views(out@) == want.take(i as int),
        decreases ls@.len() - i,
    {
        let (line, column) = line_col(source, utf8, ls[i].1);
        let mut message = String::from_str("Signal '");
        message.append(ls[i].0.as_str());
        message.append("' is not assigned on every path of this combinational process, which infers a latch");
        let f = Finding { file: file.clone(), rule: "lint_600", line, column, message, related: Vec::new() };
        proof {
            assert(f.related@.map_values(|r: Related| related_view(r)) =~= Seq::<(int, int, Seq<char>)>::empty());
            assert(finding_view(f) == want[i as int]);
        }
        let ghost prev = out@;
        out.push(f);
        proof {
            assert(out@ == prev.push(f));
            assert(finding_views(out@) =~= finding_views(prev).push(finding_view(f)));
            assert(want.take(i + 1) =~= want.take(i as int).push(want[i as int]));
        }
        i = i + 1;
    }
    assert(want.take(i as int) =~= want);
    out
}

/// Puts what `lint_602` and `lint_603` report of `processes` into `out`.
fn all_registers_into(
    processes: &Vec<&Node>,
    naming: &Naming,
    source: &[u8],
    utf8: bool,
    file: &PathBuf,
    out: &mut Vec<Finding>,
    Ghost(g0): Ghost<Seq<SFinding>>,
)
    requires
        naming.wf(),
        4 * source@.len() < usize::MAX,
        finding_views(old(out)@) == sort_findings(g0),
    ensures
        finding_views(final(out)@) == sort_findings(
            g0 + register_findings(nodes_of(processes@), *naming, source@, utf8),
        ),
{
    let ghost procs = nodes_of(processes@);
    let ghost mut gen = g0;
    let mut p: usize = 0;
    assert(g0 + register_findings(procs.take(0), *naming, source@, utf8) =~= g0);
    while p < processes.len()
        invariant
            0 <= p <= processes@.len(),
            naming.wf(),
            4 * source@.len() < usize::MAX,
            procs == nodes_of(processes@),
            gen == g0 + register_findings(procs.take(p as int), *naming, source@, utf8),
            finding_views(out@) == sort_findings(gen),
        decreases processes@.len() - p,
    {
        assert(procs.take(p + 1).drop_last() =~= procs.take(p as int));
        assert(procs.take(p + 1).last() == *processes@[p as int]);
        let ghost before = gen;
        if is_clocked(processes[p]) {
            registers_into(processes[p], naming, source, utf8, file, out, Ghost(gen));
            proof {
                gen = gen + register_scan(spec_assignments(*processes@[p as int]), Set::empty(), *naming, source@, utf8);
            }
        }
        assert(gen =~= g0 + register_findings(procs.take(p + 1), *naming, source@, utf8));
        p = p + 1;
    }
    assert(procs.take(p as int) =~= procs);
}

/// Puts what `lint_600` reports of `processes` into `out`.
fn all_latches_into(
    processes: &Vec<&Node>,
    source: &[u8],
    utf8: bool,
    file: &PathBuf,
    out: &mut Vec<Finding>,
    Ghost(g0): Ghost<Seq<SFinding>>,
)
    requires
        4 * source@.len() < usize::MAX,
        finding_views(old(out)@) == sort_findings(g0),
    ensures
        finding_views(final(out)@) == sort_findings(
            g0 + latch_findings(nodes_of(processes@), source@, utf8),
        ),
{
    let ghost procs = nodes_of(processes@);
    let ghost mut gen = g0;
    let mut q: usize = 0;
    assert(g0 + latch_findings(procs.take(0), source@, utf8) =~= g0);
    while q < processes.len()
        invariant
            0 <= q <= processes@.len(),
            4 * source@.len() < usize::MAX,
            procs == nodes_of(processes@),
            gen == g0 + latch_findings(procs.take(q as int), source@, utf8),
            finding_views(out@) == sort_findings(gen),
        decreases processes@.len() - q,
    {
        assert(procs.take(q + 1).drop_last() =~= procs.take(q as int));
        assert(procs.take(q + 1).last() == *processes@[q as int]);
        if !is_not_combinational(processes[q]) {
            let ls = latches(processes[q]);
            let fs = latch_findings_of(ls, source, utf8, file);
            put_all(out, fs, Ghost(gen));
            proof {
                gen = gen + finding_views(fs@);
            }
        }
        assert(gen =~= g0 + latch_findings(procs.take(q + 1), source@, utf8));
        q = q + 1;
    }
    assert(procs.take(q as int) =~= procs);
}

/// Puts what the design checks report of one architecture into `out`.
fn architecture_into(
    architecture: &Node,
    naming: &Naming,
    source: &[u8],
    utf8: bool,
    file: &PathBuf,
    out: &mut Vec<Finding>,
    Ghost(g0): Ghost<Seq<SFinding>>,
)
    requires
        naming.wf(),
        4 * source@.len() < usize::MAX,
        finding_views(old(out)@) == sort_findings(g0),
    ensures
        finding_views(final(out)@) == sort_findings(
            g0 + architecture_findings(*architecture, *naming, source@, utf8),
        ),
{
    let d = drivers(architecture);
    conflicts_into(&d, source, utf8, file, out, Ghost(g0));
    let ghost g1 = g0 + conflict_findings(drivers_view(d@), d@.len() as int, source@, utf8);
    let processes = find(architecture, Kind::ProcessStatement);
    all_registers_into(&processes, naming, source, utf8, file, out, Ghost(g1));
    let ghost g2 = g1 + register_findings(nodes_of(processes@), *naming, source@, utf8);
    all_latches_into(&processes, source, utf8, file, out, Ghost(g2));
    let ghost g3 = g2 + latch_findings(nodes_of(processes@), source@, utf8);
    assert(g3 =~= g0 + architecture_findings(*architecture, *naming, source@, utf8));
}

/// The design checks of one file: `lint_601` (a signal assigned by more than one concurrent
/// statement), `lint_602`/`lint_603` (a register without its suffix or prefix, when the
/// project asks for one) and `lint_600` (a latch), for the syntax tree `root` of `source`,
/// ordered by line, column and rule.
pub fn check(root: &Node, source: &[u8], file: &PathBuf, naming: &Naming) -> (r: Vec<Finding>)
    requires
        naming.wf(),
        4 * source@.len() < usize::MAX,
    ensures
        finding_views(r@) == spec_check(*root, *naming, source@),
{
    let utf8 = crate::reflow::is_utf8(source);
    let architectures = find(root, Kind::ArchitectureBody);
    let ghost archs = nodes_of(architectures@);
    let mut out: Vec<Finding> = Vec::new();
    let ghost mut gen = Seq::<SFinding>::empty();
    assert(finding_views(out@) =~= sort_findings(gen));
    let mut a: usize = 0;
    assert(archs.take(0) =~= Seq::<Node>::empty());
    while a < architectures.len()
        invariant
            0 <= a <= architectures@.len(),
            naming.wf(),
            4 * source@.len() < usize::MAX,
            archs == nodes_of(architectures@),
            gen == architectures_findings(archs.take(a as int), *naming, source@, utf8),
            finding_views(out@) == sort_findings(gen),
        decreases architectures@.len() - a,
    {
        architecture_into(architectures[a], naming, source, utf8, file, &mut out, Ghost(gen));
        proof {
            gen = gen + architecture_findings(*architectures@[a as int], *naming, source@, utf8);
            assert(archs.take(a + 1).drop_last() =~= archs.take(a as int));
        }
        a = a + 1;
    }
    assert(archs.take(a as int) =~= archs);
    out
}

} // verus!
