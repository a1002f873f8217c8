//! Verified operations on text as a sequence of characters: white space, case, searching and
//! reading integers, as Rust's `str` does them.
use vstd::prelude::*;
use vstd::string::StrSliceExecFns;

verus! {

/// `String::push`: appends the character to the end of the string, as its documentation says.
pub assume_specification[ String::push ](s: &mut String, ch: char)
    ensures
        final(s)@ == old(s)@.push(ch),
;

/// A string holding the characters `v[from..to]`.
pub fn string_of(v: &Vec<char>, from: usize, to: usize) -> (r: String)
    requires
        from <= to <= v@.len(),
    ensures
        r@ == v@.subrange(from as int, to as int),
{
    let mut out = String::new();
    let mut i = from;
    while i < to
        invariant
            from <= i <= to <= v@.len(),
            out@ == v@.subrange(from as int, i as int),
        decreases to - i,
    {
        out.push(v[i]);
        i = i + 1;
        assert(out@ =~= v@.subrange(from as int, i as int));
    }
    out
}

/// The characters of `s`.
pub fn chars_of(s: &str) -> (r: Vec<char>)
    ensures
        r@ == s@,
{
    let n = s.unicode_len();
    let mut v: Vec<char> = Vec::new();
    let mut i: usize = 0;
    while i < n
        invariant
            0 <= i <= n,
            n == s@.len(),
            v@ == s@.take(i as int),
        decreases n - i,
    {
        v.push(s.get_char(i));
        i = i + 1;
        assert(v@ =~= s@.take(i as int));
    }
    assert(s@.take(n as int) =~= s@);
    v
}

/// Unicode white space (the `White_Space` property), as `char::is_whitespace` and `str::trim`
/// read it.
pub open spec fn is_ws(c: char) -> bool {
    let u = c as u32;
    (9 <= u <= 13) || u == 32 || u == 0x85 || u == 0xA0 || u == 0x1680 || (0x2000 <= u <= 0x200A)
        || u == 0x2028 || u == 0x2029 || u == 0x202F || u == 0x205F || u == 0x3000
}

pub fn ws(c: char) -> (r: bool)
    ensures
        r == is_ws(c),
{
    let u = c as u32;
    (9 <= u && u <= 13) || u == 32 || u == 0x85 || u == 0xA0 || u == 0x1680 || (0x2000 <= u && u
        <= 0x200A) || u == 0x2028 || u == 0x2029 || u == 0x202F || u == 0x205F || u == 0x3000
}

/// Where `s` starts once its leading white space is skipped.
pub open spec fn trim_start_at(s: Seq<char>) -> int
    decreases s.len(),
{
    if s.len() > 0 && is_ws(s[0]) {
        1 + trim_start_at(s.skip(1))
    } else {
        0
    }
}

/// Where `s` ends once its trailing white space is dropped.
pub open spec fn trim_end_at(s: Seq<char>) -> int
    decreases s.len(),
{
    if s.len() > 0 && is_ws(s.last()) {
        trim_end_at(s.drop_last())
    } else {
        s.len() as int
    }
}

/// `s` without leading and trailing white space (`str::trim`).
pub open spec fn trimmed(s: Seq<char>) -> Seq<char> {
    let e = trim_end_at(s);
    let t = s.take(e);
    t.skip(trim_start_at(t))
}

pub proof fn lemma_trim_bounds(s: Seq<char>)
    ensures
        0 <= trim_start_at(s) <= s.len(),
        0 <= trim_end_at(s) <= s.len(),
    decreases s.len(),
{
    if s.len() > 0 {
        lemma_trim_bounds(s.skip(1));
        lemma_trim_bounds(s.drop_last());
    }
}

/// The bounds of `v[from..to]` once trimmed: `trimmed(v[from..to]) == v[a..b]`.
pub fn trim_range(v: &Vec<char>, from: usize, to: usize) -> (r: (usize, usize))
    requires
        from <= to <= v@.len(),
    ensures
        from <= r.0 <= r.1 <= to,
        v@.subrange(r.0 as int, r.1 as int) == trimmed(v@.subrange(from as int, to as int)),
{
    let ghost s = v@.subrange(from as int, to as int);
    let mut e = to;
    while e > from && ws(v[e - 1])
        invariant
            from <= e <= to <= v@.len(),
            s == v@.subrange(from as int, to as int),
            trim_end_at(s) == trim_end_at(v@.subrange(from as int, e as int)),
        decreases e,
    {
        assert(v@.subrange(from as int, e as int).drop_last() =~= v@.subrange(
            from as int,
            e - 1,
        ));
        e = e - 1;
    }
    let ghost t = s.take(trim_end_at(s));
    assert(t =~= v@.subrange(from as int, e as int));
    let mut b = from;
    while b < e && ws(v[b])
        invariant
            from <= b <= e,
            e <= v@.len(),
            trim_start_at(t) == (b - from) + trim_start_at(v@.subrange(b as int, e as int)),
            t == v@.subrange(from as int, e as int),
        decreases e - b,
    {
        assert(v@.subrange(b as int, e as int).skip(1) =~= v@.subrange(b + 1, e as int));
        b = b + 1;
    }
    proof {
        assert(v@.subrange(from as int, e as int).skip(b - from) =~= v@.subrange(b as int, e as int));
    }
    (b, e)
}

/// An ASCII letter in lower case, anything else unchanged (`to_ascii_lowercase`).
pub open spec fn lower_char(c: char) -> char {
    if 'A' <= c <= 'Z' {
        ((c as u32) + 32) as char
    } else {
        c
    }
}

pub open spec fn lowered(s: Seq<char>) -> Seq<char> {
    s.map_values(|c: char| lower_char(c))
}

pub fn to_lower(c: char) -> (r: char)
    ensures
        r == lower_char(c),
{
    if 'A' <= c && c <= 'Z' {
        let u = (c as u32) + 32;
        proof {
            assert(0x61 <= u <= 0x7A);
        }
        char_of(u)
    } else {
        c
    }
}

/// The character with code point `u` (an ASCII one).
fn char_of(u: u32) -> (r: char)
    requires
        u < 128,
    ensures
        r == u as char,
{
    let b = u as u8;
    (b as char)
}

/// `v` with ASCII letters in lower case.
pub fn lower_all(v: &Vec<char>) -> (r: Vec<char>)
    ensures
        r@ == lowered(v@),
{
    let mut out: Vec<char> = Vec::new();
    let mut i: usize = 0;
    while i < v.len()
        invariant
            0 <= i <= v@.len(),
            out@ == lowered(v@.take(i as int)),
        decreases v@.len() - i,
    {
        out.push(to_lower(v[i]));
        i = i + 1;
        assert(out@ =~= lowered(v@.take(i as int)));
    }
    assert(v@.take(v@.len() as int) =~= v@);
    out
}

/// Whether `pat` occurs in `s` at position `i`.
pub open spec fn occurs_at(s: Seq<char>, pat: Seq<char>, i: int) -> bool {
    0 <= i && i + pat.len() <= s.len() && s.subrange(i, i + pat.len()) == pat
}

/// The first position at or after `i` where `pat` occurs in `s`.
pub open spec fn find_from(s: Seq<char>, pat: Seq<char>, i: int) -> Option<int>
    decreases s.len() + 1 - i,
{
    if i < 0 || i + pat.len() > s.len() {
        None
    } else if occurs_at(s, pat, i) {
        Some(i)
    } else {
        find_from(s, pat, i + 1)
    }
}

/// The first position of `pat` in `s` (as `str::find`, `str::split_once` use it).
pub fn find_seq(s: &Vec<char>, pat: &Vec<char>) -> (r: Option<usize>)
    ensures
        r matches Some(i) ==> Some(i as int) == find_from(s@, pat@, 0),
        r is None ==> find_from(s@, pat@, 0) is None,
{
    if pat.len() > s.len() {
        return None;
    }
    let mut i: usize = 0;
    let last = s.len() - pat.len();
    while i <= last
        invariant
            s@.len() <= usize::MAX,
            0 <= i <= last + 1,
            last == s@.len() - pat@.len(),
            pat@.len() <= s@.len(),
            find_from(s@, pat@, 0) == find_from(s@, pat@, i as int),
        decreases s@.len() - i,
    {
        let mut k: usize = 0;
        while k < pat.len()
            invariant
                0 <= k <= pat@.len(),
                i + pat@.len() <= s@.len(),
                s@.len() <= usize::MAX,
                forall|j: int| 0 <= j < k ==> s@[i + j] == pat@[j],
            ensures
                0 <= k <= pat@.len(),
                forall|j: int| 0 <= j < k ==> s@[i + j] == pat@[j],
                k == pat@.len() || s@[i + k] != pat@[k as int],
            decreases pat@.len() - k,
        {
            if s[i + k] != pat[k] {
                break;
            }
            k = k + 1;
        }
        if k == pat.len() {
            assert(s@.subrange(i as int, i + pat@.len()) =~= pat@);
            return Some(i);
        }
        assert(s@.subrange(i as int, i + pat@.len())[k as int] != pat@[k as int]);
        if i == last {
            assert(find_from(s@, pat@, i + 1) is None);
            return None;
        }
        i = i + 1;
    }
    None
}

/// The value of a non-empty run of ASCII digits.
pub open spec fn digits_value(s: Seq<char>) -> int
    decreases s.len(),
{
    if s.len() == 0 {
        0
    } else {
        digits_value(s.drop_last()) * 10 + ((s.last() as u32) - 48)
    }
}

pub open spec fn all_digits(s: Seq<char>) -> bool {
    s.len() > 0 && forall|i: int| 0 <= i < s.len() ==> '0' <= #[trigger] s[i] <= '9'
}

/// An integer as Rust's `i64::from_str` reads it: an optional `+` or `-`, then at least one
/// ASCII digit, and nothing else.
pub open spec fn spec_parse_int(s: Seq<char>) -> Option<int> {
    if s.len() > 0 && (s[0] == '+' || s[0] == '-') {
        if all_digits(s.skip(1)) {
            Some(
                if s[0] == '-' {
                    -digits_value(s.skip(1))
                } else {
                    digits_value(s.skip(1))
                },
            )
        } else {
            None
        }
    } else if all_digits(s) {
        Some(digits_value(s))
    } else {
        None
    }
}

/// [`spec_parse_int`], when the value fits in an `i64`.
pub open spec fn spec_parse_i64(s: Seq<char>) -> Option<int> {
    match spec_parse_int(s) {
        Some(v) => if i64::MIN <= v <= i64::MAX {
            Some(v)
        } else {
            None
        },
        None => None,
    }
}

proof fn lemma_digits_value_grows(s: Seq<char>, k: int)
    requires
        0 <= k <= s.len(),
        forall|i: int| 0 <= i < s.len() ==> '0' <= #[trigger] s[i] <= '9',
    ensures
        digits_value(s.take(k)) <= digits_value(s),
        digits_value(s.take(k)) >= 0,
    decreases s.len(),
{
    if s.len() > 0 {
        if k == s.len() {
            assert(s.take(k) =~= s);
            lemma_digits_value_grows(s.drop_last(), 0);
        } else {
            lemma_digits_value_grows(s.drop_last(), k);
            assert(s.drop_last().take(k) =~= s.take(k));
        }
        lemma_digits_value_grows(s.drop_last(), s.len() - 1);
        assert(s.drop_last().take(s.len() - 1) =~= s.drop_last());
    } else {
        assert(s.take(k) =~= s);
    }
}

/// An unsigned integer as Rust's `u64::from_str` reads it: an optional `+`, then at least one
/// ASCII digit, and nothing else, with a value that fits.
pub open spec fn spec_parse_u64(s: Seq<char>) -> Option<int> {
    let d = if s.len() > 0 && s[0] == '+' {
        s.skip(1)
    } else {
        s
    };
    if all_digits(d) && digits_value(d) <= u64::MAX {
        Some(digits_value(d))
    } else {
        None
    }
}

/// Read a `u64` from `v[from..to]` as `str::parse::<u64>` does.
pub fn parse_u64(v: &Vec<char>, from: usize, to: usize) -> (r: Option<u64>)
    requires
        from <= to <= v@.len(),
    ensures
        match r {
            Some(n) => spec_parse_u64(v@.subrange(from as int, to as int)) == Some(n as int),
            None => spec_parse_u64(v@.subrange(from as int, to as int)) is None,
        },
{
    let ghost s = v@.subrange(from as int, to as int);
    let signed = from < to && v[from] == '+';
    let start = if signed {
        from + 1
    } else {
        from
    };
    let ghost d = v@.subrange(start as int, to as int);
    assert(d =~= if s.len() > 0 && s[0] == '+' { s.skip(1) } else { s });
    if start == to {
        return None;
    }
    let mut acc: u64 = 0;
    let mut i = start;
    while i < to
        invariant
            start <= i <= to <= v@.len(),
            d == v@.subrange(start as int, to as int),
            s == v@.subrange(from as int, to as int),
            d == (if s.len() > 0 && s[0] == '+' { s.skip(1) } else { s }),
            d.len() > 0,
            forall|j: int| start <= j < i ==> '0' <= #[trigger] v@[j] <= '9',
            acc as int == digits_value(v@.subrange(start as int, i as int)),
        decreases to - i,
    {
        let c = v[i];
        if !('0' <= c && c <= '9') {
            assert(d[i - start] == c);
            return None;
        }
        let digit = (c as u32 - 48) as u64;
        assert(v@.subrange(start as int, i + 1).drop_last() =~= v@.subrange(start as int, i as int));
        if acc > (u64::MAX - digit) / 10 {
            // The value is beyond every `u64`, whatever follows.
            proof {
                assert(acc * 10 + digit > u64::MAX) by (nonlinear_arith)
                    requires
                        acc > (u64::MAX - digit) / 10,
                        digit <= 9,
                ;
                if all_digits(d) {
                    lemma_digits_value_grows(d, i + 1 - start);
                    assert(d.take(i + 1 - start) =~= v@.subrange(start as int, i + 1));
                }
            }
            return None;
        }
        acc = acc * 10 + digit;
        i = i + 1;
    }
    assert(d =~= v@.subrange(start as int, i as int));
    Some(acc)
}

/// Read an `i64` from `v[from..to]` as `str::parse::<i64>` does.
pub fn parse_i64(v: &Vec<char>, from: usize, to: usize) -> (r: Option<i64>)
    requires
        from <= to <= v@.len(),
    ensures
        match r {
            Some(n) => spec_parse_i64(v@.subrange(from as int, to as int)) == Some(n as int),
            None => spec_parse_i64(v@.subrange(from as int, to as int)) is None,
        },
{
    let ghost s = v@.subrange(from as int, to as int);
    if from == to {
        return None;
    }
    let negative = v[from] == '-';
    let signed = v[from] == '+' || negative;
    let start = if signed {
        from + 1
    } else {
        from
    };
    let ghost d = v@.subrange(start as int, to as int);
    assert(d =~= if signed { s.skip(1) } else { s });
    if start == to {
        return None;
    }
    // The magnitude, which may reach 2^63 for the most negative value.
    let limit: u64 = 0x8000_0000_0000_0000;
    let mut acc: u64 = 0;
    let mut i = start;
    while i < to
        invariant
            start <= i <= to <= v@.len(),
            d == v@.subrange(start as int, to as int),
            s == v@.subrange(from as int, to as int),
            s.len() > 0,
            start == (if signed { from + 1 } else { from as int }),
            signed == (s[0] == '+' || s[0] == '-'),
            negative == (s[0] == '-'),
            d == (if signed { s.skip(1) } else { s }),
            limit == 0x8000_0000_0000_0000u64,
            forall|j: int| start <= j < i ==> '0' <= #[trigger] v@[j] <= '9',
            acc as int == digits_value(v@.subrange(start as int, i as int)),
            acc <= limit,
        decreases to - i,
    {
        let c = v[i];
        if !('0' <= c && c <= '9') {
            assert(d[i - start] == c);
            return None;
        }
        let digit = (c as u32 - 48) as u64;
        assert(v@.subrange(start as int, i + 1).drop_last() =~= v@.subrange(start as int, i as int));
        if acc > (limit - digit) / 10 {
            // The magnitude is beyond every `i64`, whatever follows.
            proof {
                assert(acc * 10 + digit > limit) by (nonlinear_arith)
                    requires
                        acc > (limit - digit) / 10,
                        digit <= 9,
                        limit == 0x8000_0000_0000_0000u64,
                ;
                let all = v@.subrange(start as int, to as int);
                if all_digits(all) {
                    lemma_digits_value_grows(all, i + 1 - start);
                    assert(all.take(i + 1 - start) =~= v@.subrange(start as int, i + 1));
                }
            }
            return None;
        }
        acc = acc * 10 + digit;
        i = i + 1;
    }
    assert(d =~= v@.subrange(start as int, i as int));
    if negative {
        if acc == limit {
            Some(-0x7fff_ffff_ffff_ffffi64 - 1)
        } else {
            Some(-(acc as i64))
        }
    } else if acc == limit {
        None
    } else {
        Some(acc as i64)
    }
}

} // verus!
