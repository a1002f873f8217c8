//! Configuration: the parts of VSG-compatible configuration that are plain values, and path
//! patterns.
use vstd::prelude::*;
use vstd::string::{StringExecFns, StringSliceAdditionalSpecFns};

use crate::bytes::str_eq;
use crate::chars::{chars_of, lowered, parse_u64, spec_parse_u64, trim_range, trimmed};
use crate::rules::RuleInfo;
use crate::align::{spec_default_align, spec_families, spec_rule_ids, AlignSettings, Family};
use crate::blank::{
    compiling, default_close_patterns, default_open_patterns, spec_blank_rules, spec_parse_style, BlankSettings,
    Pragmas, Style,
};

verus! {

#[derive(Debug, Clone, Copy, PartialEq, Eq, Structural)]
pub enum KeywordCase {
    Lower,
    Upper,
    Preserve,
}

#[derive(Debug, Clone, Copy, PartialEq, Eq, Structural)]
pub enum LineEnding {
    Lf,
    CrLf,
}

#[derive(Debug, Clone, Copy, PartialEq, Eq, Structural, PartialOrd, Ord)]
pub enum Severity {
    Warning,
    Error,
}

/// How a severity is written in a report.
pub open spec fn spec_severity_text(s: Severity) -> &'static str {
    match s {
        Severity::Warning => "warning",
        Severity::Error => "error",
    }
}

impl Severity {
    /// How the severity is written in a report.
    pub fn as_str(self) -> (r: &'static str)
        ensures
            r == spec_severity_text(self),
    {
        match self {
            Severity::Warning => "warning",
            Severity::Error => "error",
        }
    }
}

/// A configuration file that could not be used, and why.
#[derive(Debug)]
pub struct ConfigError {
    pub path: std::path::PathBuf,
    pub message: String,
}

/// The description of a blank-line rule that the formatter applies.
pub fn formatter_rule(id: &'static str) -> (r: RuleInfo)
    ensures
        r.id == id,
        r.groups@.len() == 1,
        r.groups@[0]@ == "blank_line"@,
        r.severity == Severity::Error,
        r.enabled_by_default,
        r.description@ == "Blank line policy (applied by the formatter)."@,
{
    let groups: &'static [&'static str] = &["blank_line"];
    let r = RuleInfo::formatter(id, groups, true, "Blank line policy (applied by the formatter).");
    proof {
        reveal_strlit("blank_line");
        reveal_strlit("Blank line policy (applied by the formatter).");
    }
    r
}

/// Whether `text` matches the VSG-style pattern `p`: `?` one character, `*` one path segment,
/// `**` any number of segments (with the `/` after it). Both sides use `/` separators.
pub open spec fn spec_glob(p: Seq<u8>, t: Seq<u8>) -> bool
    decreases p.len(), 1nat, 0int,
{
    if p.len() == 0 {
        t.len() == 0
    } else if p.len() >= 2 && p[0] == 42u8 && p[1] == 42u8 {
        let rest = if p.len() >= 3 && p[2] == 47u8 {
            p.skip(3)
        } else {
            p.skip(2)
        };
        spec_glob_any(rest, t, 0)
    } else if p[0] == 42u8 {
        spec_glob_segment(p.skip(1), t, 0)
    } else if p[0] == 63u8 {
        t.len() > 0 && t[0] != 47u8 && spec_glob(p.skip(1), t.skip(1))
    } else {
        t.len() > 0 && t[0] == p[0] && spec_glob(p.skip(1), t.skip(1))
    }
}

/// Whether `rest` matches `t` from some position at or after `i` (what `**` leaves to match).
pub open spec fn spec_glob_any(rest: Seq<u8>, t: Seq<u8>, i: int) -> bool
    decreases rest.len(), 2nat, t.len() - i,
{
    if 0 <= i < t.len() {
        spec_glob(rest, t.skip(i)) || spec_glob_any(rest, t, i + 1)
    } else if i == t.len() {
        spec_glob(rest, t.skip(i))
    } else {
        false
    }
}

/// Whether `rest` matches `t` from some position at or after `i` that no `/` precedes from `i`
/// on (what `*` leaves to match).
pub open spec fn spec_glob_segment(rest: Seq<u8>, t: Seq<u8>, i: int) -> bool
    decreases rest.len(), 2nat, t.len() - i,
{
    if 0 <= i <= t.len() {
        spec_glob(rest, t.skip(i)) || (i < t.len() && t[i] != 47u8 && spec_glob_segment(
            rest,
            t,
            i + 1,
        ))
    } else {
        false
    }
}

/// `text[i..]`.
fn tail_of(text: &[u8], i: usize) -> (r: &[u8])
    requires
        i <= text@.len(),
    ensures
        r@ == text@.skip(i as int),
{
    let r = vstd::slice::slice_subrange(text, i, text.len());
    assert(r@ =~= text@.skip(i as int));
    r
}

fn glob_any(rest: &[u8], text: &[u8]) -> (r: bool)
    ensures
        r == spec_glob_any(rest@, text@, 0),
    decreases rest@.len(), 2nat, 0int,
{
    let mut i: usize = 0;
    loop
        invariant
            0 <= i <= text@.len(),
            spec_glob_any(rest@, text@, 0) == spec_glob_any(rest@, text@, i as int),
        decreases text@.len() - i,
    {
        if glob(rest, tail_of(text, i)) {
            return true;
        }
        if i == text.len() {
            return false;
        }
        i = i + 1;
    }
}

fn glob_segment(rest: &[u8], text: &[u8]) -> (r: bool)
    ensures
        r == spec_glob_segment(rest@, text@, 0),
    decreases rest@.len(), 2nat, 0int,
{
    let mut i: usize = 0;
    loop
        invariant
            0 <= i <= text@.len(),
            spec_glob_segment(rest@, text@, 0) == spec_glob_segment(rest@, text@, i as int),
        decreases text@.len() - i,
    {
        if glob(rest, tail_of(text, i)) {
            return true;
        }
        if i == text.len() || text[i] == 47u8 {
            return false;
        }
        i = i + 1;
    }
}

/// Match a path against a VSG-style pattern: `?` one character, `*` one path segment, `**` any
/// number of segments. Both sides use `/` separators.
pub fn glob(pattern: &[u8], text: &[u8]) -> (r: bool)
    ensures
        r == spec_glob(pattern@, text@),
    decreases pattern@.len(), 1nat, 0int,
{
    if pattern.len() == 0 {
        return text.len() == 0;
    }
    if pattern.len() >= 2 && pattern[0] == 42u8 && pattern[1] == 42u8 {
        let rest = if pattern.len() >= 3 && pattern[2] == 47u8 {
            tail_of(pattern, 3)
        } else {
            tail_of(pattern, 2)
        };
        return glob_any(rest, text);
    }
    let rest = tail_of(pattern, 1);
    if pattern[0] == 42u8 {
        return glob_segment(rest, text);
    }
    if text.len() == 0 {
        return false;
    }
    if pattern[0] == 63u8 {
        text[0] != 47u8 && glob(rest, tail_of(text, 1))
    } else {
        text[0] == pattern[0] && glob(rest, tail_of(text, 1))
    }
}

/// Whether `path` matches `pattern`, or, for a relative pattern, some part of `path` after a
/// `/` does.
pub open spec fn spec_path_matches(pattern: Seq<u8>, path: Seq<u8>) -> bool {
    spec_glob(pattern, path) || (!(pattern.len() > 0 && pattern[0] == 47u8) && exists|i: int|
        0 <= i < path.len() && path[i] == 47u8 && #[trigger] spec_glob(pattern, path.skip(i + 1)))
}

/// Whether `path` matches `pattern` (`*` and `?` within a path component, `**` across
/// components). Relative patterns also match any path that ends with them.
pub fn path_matches(pattern: &str, path: &str) -> (r: bool)
    ensures
        r == spec_path_matches(pattern.spec_bytes(), path.spec_bytes()),
{
    let p = pattern.as_bytes();
    let t = path.as_bytes();
    if glob(p, t) {
        return true;
    }
    if p.len() > 0 && p[0] == 47u8 {
        return false;
    }
    let mut i: usize = 0;
    while i < t.len()
        invariant
            0 <= i <= t@.len(),
            p@ == pattern.spec_bytes(),
            t@ == path.spec_bytes(),
            !(p@.len() > 0 && p@[0] == 47u8),
            forall|j: int| 0 <= j < i && t@[j] == 47u8 ==> !#[trigger] spec_glob(p@, t@.skip(j + 1)),
        decreases t@.len() - i,
    {
        if t[i] == 47u8 && glob(p, tail_of(t, i + 1)) {
            return true;
        }
        i = i + 1;
    }
    false
}


/// File names looked up by `discover`, in order of preference.
pub open spec fn spec_config_file_names() -> Seq<&'static str> {
    seq!["vsg-rs.yaml", ".vsg-rs.yaml", "vsg-rs.json", ".vsg-rs.json"]
}

/// File names looked up when searching a directory and its ancestors for a configuration, in
/// order of preference.
pub fn config_file_names() -> (r: Vec<&'static str>)
    ensures
        r@ == spec_config_file_names(),
{
    let mut v: Vec<&'static str> = Vec::new();
    v.push("vsg-rs.yaml");
    v.push(".vsg-rs.yaml");
    v.push("vsg-rs.json");
    v.push(".vsg-rs.json");
    assert(v@ =~= spec_config_file_names());
    v
}

/// Whether a pattern has a wildcard (`*` or `?`).
pub open spec fn spec_has_wildcard(p: Seq<char>) -> bool {
    p.contains('*') || p.contains('?')
}

fn has_wildcard_in(v: &Vec<char>, from: usize, to: usize) -> (r: bool)
    requires
        from <= to <= v@.len(),
    ensures
        r == spec_has_wildcard(v@.subrange(from as int, to as int)),
{
    let ghost s = v@.subrange(from as int, to as int);
    let mut i = from;
    while i < to
        invariant
            from <= i <= to <= v@.len(),
            s == v@.subrange(from as int, to as int),
            forall|k: int| from <= k < i ==> v@[k] != '*' && v@[k] != '?',
        decreases to - i,
    {
        if v[i] == '*' || v[i] == '?' {
            assert(s[i - from] == v@[i as int]);
            return true;
        }
        i = i + 1;
    }
    proof {
        if s.contains('*') || s.contains('?') {
            let k = choose|k: int| 0 <= k < s.len() && (s[k] == '*' || s[k] == '?');
            assert(v@[from + k] == s[k]);
        }
    }
    false
}

/// Whether a `file_list` pattern has a wildcard.
pub fn has_wildcard(pattern: &str) -> (r: bool)
    ensures
        r == spec_has_wildcard(pattern@),
{
    let v = crate::chars::chars_of(pattern);
    assert(v@.subrange(0, v@.len() as int) =~= v@);
    has_wildcard_in(&v, 0, v.len())
}

/// Where the first component of `p` from `i` on that holds a wildcard starts, or just past the
/// end of `p` when none does: components are separated by `/`.
pub open spec fn first_wild_component(p: Seq<char>, i: int) -> int
    decreases p.len() - i,
{
    if i < 0 || i > p.len() {
        p.len() as int
    } else {
        let e = crate::analysis::design::next_slash_char(p, i);
        proof {
            crate::analysis::design::lemma_next_slash_char(p, i);
        }
        if spec_has_wildcard(p.subrange(i, e)) {
            i
        } else if e >= p.len() {
            p.len() as int + 1
        } else {
            first_wild_component(p, e + 1)
        }
    }
}

/// The directory a wildcard pattern is searched from: its components before the first one with a
/// wildcard, joined by `/`, or `.` when there are none.
pub open spec fn spec_search_base(p: Seq<char>) -> Seq<char> {
    let w = first_wild_component(p, 0);
    if w <= 0 {
        "."@
    } else if w > p.len() {
        p
    } else {
        p.take(w - 1)
    }
}

/// The directory a wildcard pattern of `file_list` is searched from.
pub fn search_base(pattern: &str) -> (r: String)
    ensures
        r@ == spec_search_base(pattern@),
{
    let v = crate::chars::chars_of(pattern);
    let mut i: usize = 0;
    loop
        invariant
            0 <= i <= v@.len(),
            v@ == pattern@,
            first_wild_component(v@, 0) == first_wild_component(v@, i as int),
            i > 0 ==> v@[i - 1] == '/',
        decreases v@.len() - i,
    {
        let mut e = i;
        while e < v.len() && v[e] != '/'
            invariant
                i <= e <= v@.len(),
                crate::analysis::design::next_slash_char(v@, i as int) == crate::analysis::design::next_slash_char(v@, e as int),
            decreases v@.len() - e,
        {
            e = e + 1;
        }
        proof {
            crate::analysis::design::lemma_next_slash_char(v@, i as int);
        }
        if has_wildcard_in(&v, i, e) {
            if i == 0 {
                proof {
                    reveal_strlit(".");
                }
                return String::from_str(".");
            }
            return crate::chars::string_of(&v, 0, i - 1);
        }
        if e >= v.len() {
            let r = crate::chars::string_of(&v, 0, v.len());
            assert(v@.subrange(0, v@.len() as int) =~= v@);
            return r;
        }
        i = e + 1;
    }
}

/// The extension of a file name as `Path::extension` reads it: what follows its last `.`,
/// unless that `.` starts the name.
pub open spec fn extension_of(name: Seq<char>) -> Option<Seq<char>> {
    let d = last_dot(name, name.len() as int);
    if d <= 1 {
        None
    } else {
        Some(name.skip(d))
    }
}

/// Just after the last `.` of `name[..i]`, or 0.
pub open spec fn last_dot(name: Seq<char>, i: int) -> int
    decreases i,
{
    if i <= 0 || i > name.len() {
        0
    } else if name[i - 1] == '.' {
        i
    } else {
        last_dot(name, i - 1)
    }
}

/// Whether a file name is a VHDL file's: its extension is `vhd` or `vhdl`, in any case.
pub open spec fn spec_is_vhdl_name(name: Seq<char>) -> bool {
    match extension_of(name) {
        Some(e) => crate::chars::lowered(e) == "vhd"@ || crate::chars::lowered(e) == "vhdl"@,
        None => false,
    }
}

/// Whether a file name is a VHDL file's (`.vhd`, `.vhdl`, in any case).
pub fn is_vhdl_name(name: &str) -> (r: bool)
    ensures
        r == spec_is_vhdl_name(name@),
{
    let v = crate::chars::chars_of(name);
    let mut i = v.len();
    while i > 0 && v[i - 1] != '.'
        invariant
            0 <= i <= v@.len(),
            last_dot(v@, v@.len() as int) == last_dot(v@, i as int),
        decreases i,
    {
        i = i - 1;
    }
    if i <= 1 {
        return false;
    }
    let lower = crate::chars::lower_all(&v);
    let ext = vstd::slice::slice_subrange(lower.as_slice(), i, lower.len());
    assert(ext@ =~= crate::chars::lowered(v@.skip(i as int)));
    let mut e: Vec<char> = Vec::new();
    let mut k: usize = 0;
    while k < ext.len()
        invariant
            0 <= k <= ext@.len(),
            e@ == ext@.take(k as int),
        decreases ext@.len() - k,
    {
        e.push(ext[k]);
        k = k + 1;
        assert(e@ =~= ext@.take(k as int));
    }
    assert(ext@.take(ext@.len() as int) =~= ext@);
    let vhd = crate::chars::chars_of("vhd");
    let vhdl = crate::chars::chars_of("vhdl");
    let r = chars_eq(&e, &vhd) || chars_eq(&e, &vhdl);
    r
}

/// Once an entry does not fit, the merge stays failed whatever follows.
proof fn lemma_merge_stays_failed(l: SLayer, s: Seq<(Seq<char>, SValue, Seq<char>)>, k: int, name: Seq<char>)
    requires
        0 <= k <= s.len(),
        merge_entries(l, s.take(k), name) is Err,
    ensures
        merge_entries(l, s, name) == merge_entries(l, s.take(k), name),
    decreases s.len() - k,
{
    if k < s.len() {
        assert(s.take(k + 1).drop_last() =~= s.take(k));
        lemma_merge_stays_failed(l, s, k + 1, name);
    } else {
        assert(s.take(k) =~= s);
    }
}

/// Whether two character sequences are equal.
fn chars_eq(a: &Vec<char>, b: &Vec<char>) -> (r: bool)
    ensures
        r == (a@ == b@),
{
    if a.len() != b.len() {
        return false;
    }
    let mut i: usize = 0;
    while i < a.len()
        invariant
            0 <= i <= a@.len(),
            a@.len() == b@.len(),
            forall|k: int| 0 <= k < i ==> a@[k] == b@[k],
        decreases a@.len() - i,
    {
        if a[i] != b[i] {
            return false;
        }
        i = i + 1;
    }
    assert(a@ =~= b@);
    true
}


/// `t` with `\` read as `/`.
pub open spec fn forward_slashes(t: Seq<u8>) -> Seq<u8> {
    t.map_values(|b: u8| if b == 92u8 { 47u8 } else { b })
}

/// `t` without its leading `./` prefixes.
pub open spec fn without_dot_slash(t: Seq<u8>) -> Seq<u8>
    decreases t.len(),
{
    if t.len() >= 2 && t[0] == 46u8 && t[1] == 47u8 {
        without_dot_slash(t.skip(2))
    } else {
        t
    }
}

/// Whether a file found by searching matches a `file_list` pattern: its path, with `/`
/// separators and without a leading `./`, matches the pattern.
pub open spec fn spec_file_list_matches(pattern: Seq<u8>, path: Seq<u8>) -> bool {
    spec_glob(pattern, without_dot_slash(forward_slashes(path)))
}

/// Whether a file found by searching matches a `file_list` pattern.
pub fn file_list_matches(pattern: &str, path: &str) -> (r: bool)
    ensures
        r == spec_file_list_matches(pattern.spec_bytes(), path.spec_bytes()),
{
    let raw = path.as_bytes();
    let mut text: Vec<u8> = Vec::new();
    let mut i: usize = 0;
    while i < raw.len()
        invariant
            0 <= i <= raw@.len(),
            text@ == forward_slashes(raw@.take(i as int)),
        decreases raw@.len() - i,
    {
        text.push(if raw[i] == 92u8 { 47u8 } else { raw[i] });
        i = i + 1;
        assert(text@ =~= forward_slashes(raw@.take(i as int)));
    }
    assert(raw@.take(raw@.len() as int) =~= raw@);
    let t = text.as_slice();
    let mut from: usize = 0;
    assert(t@.skip(0) =~= t@);
    while t.len() - from >= 2 && t[from] == 46u8 && t[from + 1] == 47u8
        invariant
            0 <= from <= t@.len(),
            without_dot_slash(t@) == without_dot_slash(t@.skip(from as int)),
        decreases t@.len() - from,
    {
        assert(t@.skip(from as int).skip(2) =~= t@.skip(from + 2));
        from = from + 2;
    }
    let rest = tail_of(t, from);
    glob(pattern.as_bytes(), rest)
}


/// A configuration value, as the rule settings read it.
#[derive(Debug)]
pub enum ConfigValue {
    Null,
    Bool(bool),
    /// A number that is a non-negative integer of at most 64 bits.
    Unsigned(u64),
    Text(String),
    List(Vec<ConfigValue>),
    /// The entries: each key (empty unless the key is a string), value, and how the value is
    /// shown in messages.
    Mapping(Vec<(String, ConfigValue, String)>),
    /// Anything else (other numbers, tagged values).
    Other,
}

/// The mathematical form of a [`ConfigValue`].
pub ghost enum SValue {
    Null,
    Bool(bool),
    Unsigned(u64),
    Text(Seq<char>),
    List(Seq<SValue>),
    Mapping(Seq<(Seq<char>, SValue, Seq<char>)>),
    Other,
}

pub open spec fn value_view(v: ConfigValue) -> SValue
    decreases v,
{
    match v {
        ConfigValue::Null => SValue::Null,
        ConfigValue::Bool(b) => SValue::Bool(b),
        ConfigValue::Unsigned(n) => SValue::Unsigned(n),
        ConfigValue::Text(t) => SValue::Text(t@),
        ConfigValue::List(items) => SValue::List(
            Seq::new(items@.len(), |i: int| if 0 <= i < items@.len() { value_view(items@[i]) } else { SValue::Null }),
        ),
        ConfigValue::Mapping(entries) => SValue::Mapping(
            Seq::new(
                entries@.len(),
                |i: int|
                    if 0 <= i < entries@.len() {
                        (entries@[i].0@, value_view(entries@[i].1), entries@[i].2@)
                    } else {
                        (Seq::empty(), SValue::Null, Seq::empty())
                    },
            ),
        ),
        ConfigValue::Other => SValue::Other,
    }
}

/// A copy of `v`.
pub fn copy_value(v: &ConfigValue) -> (r: ConfigValue)
    ensures
        value_view(r) == value_view(*v),
    decreases v,
{
    match v {
        ConfigValue::Null => ConfigValue::Null,
        ConfigValue::Bool(b) => ConfigValue::Bool(*b),
        ConfigValue::Unsigned(n) => ConfigValue::Unsigned(*n),
        ConfigValue::Text(t) => ConfigValue::Text(t.clone()),
        ConfigValue::List(items) => {
            let mut out: Vec<ConfigValue> = Vec::new();
            let mut i: usize = 0;
            while i < items.len()
                invariant
                    *v == ConfigValue::List(*items),
                    0 <= i <= items@.len(),
                    out@.len() == i,
                    forall|k: int| 0 <= k < i ==> value_view(#[trigger] out@[k]) == value_view(items@[k]),
                decreases items@.len() - i,
            {
                proof {
                    assert(*v == ConfigValue::List(*items));
                    assert(decreases_to!(*v => (*v)->List_0));
                    assert(decreases_to!(*items => items@));
                    assert(decreases_to!(items@ => items@[i as int]));
                }
                out.push(copy_value(&items[i]));
                i = i + 1;
            }
            let r = ConfigValue::List(out);
            assert(value_view(r) == value_view(*v)) by {
                assert(value_view(r)->List_0 =~= value_view(*v)->List_0);
            }
            r
        },
        ConfigValue::Mapping(entries) => {
            let mut out: Vec<(String, ConfigValue, String)> = Vec::new();
            let mut i: usize = 0;
            while i < entries.len()
                invariant
                    *v == ConfigValue::Mapping(*entries),
                    0 <= i <= entries@.len(),
                    out@.len() == i,
                    forall|k: int|
                        0 <= k < i ==> (#[trigger] out@[k]).0@ == entries@[k].0@ && value_view(out@[k].1)
                            == value_view(entries@[k].1) && out@[k].2@ == entries@[k].2@,
                decreases entries@.len() - i,
            {
                let e = &entries[i];
                proof {
                    assert(*v == ConfigValue::Mapping(*entries));
                    assert(decreases_to!(*v => (*v)->Mapping_0));
                    assert(decreases_to!(*entries => entries@));
                    assert(decreases_to!(entries@ => entries@[i as int]));
                    assert(decreases_to!(entries@[i as int] => entries@[i as int].1));
                }
                out.push((e.0.clone(), copy_value(&e.1), e.2.clone()));
                i = i + 1;
            }
            let r = ConfigValue::Mapping(out);
            assert(value_view(r) == value_view(*v)) by {
                assert(value_view(r)->Mapping_0 =~= value_view(*v)->Mapping_0);
            }
            r
        },
        ConfigValue::Other => ConfigValue::Other,
    }
}


/// The value kept for `key` in `entries`: the first entry with that key.
pub open spec fn entry_of<T>(entries: Seq<(Seq<char>, T)>, key: Seq<char>) -> Option<T>
    decreases entries.len(),
{
    if entries.len() == 0 {
        None
    } else if entries[0].0 == key {
        Some(entries[0].1)
    } else {
        entry_of(entries.skip(1), key)
    }
}

/// `entries` with `key` set to `value`: the first entry with that key replaced, or a new entry
/// at the end.
pub open spec fn with_entry<T>(entries: Seq<(Seq<char>, T)>, key: Seq<char>, value: T) -> Seq<
    (Seq<char>, T),
>
    decreases entries.len(),
{
    if entries.len() == 0 {
        seq![(key, value)]
    } else if entries[0].0 == key {
        entries.update(0, (key, value))
    } else {
        seq![entries[0]] + with_entry(entries.skip(1), key, value)
    }
}

/// Setting a key gives it the value and leaves the other keys alone.
pub proof fn lemma_with_entry<T>(entries: Seq<(Seq<char>, T)>, key: Seq<char>, value: T, other: Seq<char>)
    ensures
        entry_of(with_entry(entries, key, value), key) == Some(value),
        other != key ==> entry_of(with_entry(entries, key, value), other) == entry_of(entries, other),
    decreases entries.len(),
{
    if entries.len() > 0 && entries[0].0 != key {
        lemma_with_entry(entries.skip(1), key, value, other);
        let w = seq![entries[0]] + with_entry(entries.skip(1), key, value);
        assert(w[0] == entries[0]);
        assert(w.skip(1) =~= with_entry(entries.skip(1), key, value));
        assert(with_entry(entries, key, value) == w);
        if other != key {
            if entries[0].0 == other {
                assert(entry_of(w, other) == Some(entries[0].1));
            } else {
                assert(entry_of(w, other) == entry_of(w.skip(1), other));
            }
        }
    } else if entries.len() > 0 {
        let w = entries.update(0, (key, value));
        assert(w[0] == (key, value));
        assert(w.skip(1) =~= entries.skip(1));
        assert(with_entry(entries, key, value) == w);
        if other != key {
            assert(entry_of(w, other) == entry_of(w.skip(1), other));
            assert(entry_of(entries, other) == entry_of(entries.skip(1), other));
        }
    } else {
        let w = seq![(key, value)];
        assert(w[0] == (key, value));
        assert(w.skip(1) =~= Seq::<(Seq<char>, T)>::empty());
        assert(with_entry(entries, key, value) == w);
        if other != key {
            assert(entry_of(w, other) == entry_of(w.skip(1), other));
        }
    }
}

/// Settings of one rule as written in a configuration file (`None`: not set at this level).
#[derive(Debug)]
pub struct RuleLayer {
    pub disable: Option<bool>,
    pub severity: Option<Severity>,
    pub fixable: Option<bool>,
    pub options: Vec<(String, ConfigValue)>,
}

/// The mathematical form of option entries.
pub open spec fn options_view(v: Seq<(String, ConfigValue)>) -> Seq<(Seq<char>, SValue)> {
    Seq::new(v.len(), |i: int| (v[i].0@, value_view(v[i].1)))
}

/// The mathematical form of a [`RuleLayer`].
pub ghost struct SLayer {
    pub disable: Option<bool>,
    pub severity: Option<Severity>,
    pub fixable: Option<bool>,
    pub options: Seq<(Seq<char>, SValue)>,
}

pub open spec fn layer_view(l: RuleLayer) -> SLayer {
    SLayer { disable: l.disable, severity: l.severity, fixable: l.fixable, options: options_view(l.options@) }
}

/// A layer that sets nothing.
pub open spec fn empty_layer() -> SLayer {
    SLayer { disable: None, severity: None, fixable: None, options: Seq::empty() }
}

impl Default for RuleLayer {
    fn default() -> (r: RuleLayer)
        ensures
            layer_view(r) == empty_layer(),
    {
        let r = RuleLayer { disable: None, severity: None, fixable: None, options: Vec::new() };
        assert(layer_view(r).options =~= Seq::<(Seq<char>, SValue)>::empty());
        r
    }
}

/// The message for a setting whose value does not fit it.
pub open spec fn invalid_value(name: Seq<char>, key: Seq<char>, shown: Seq<char>) -> Seq<char> {
    "`"@ + name + "."@ + key + "` has an invalid value "@ + shown
}

/// One entry of a rule's settings applied to a layer: `disable` and `fixable` take a boolean,
/// `severity` `error` or `warning` in any case, VSG's `phase` and `user_error_message` are
/// ignored, and anything else is an option of the rule.
pub open spec fn merge_entry(l: SLayer, e: (Seq<char>, SValue, Seq<char>), name: Seq<char>) -> Result<SLayer, Seq<char>> {
    let (key, v, shown) = e;
    if key == "disable"@ {
        match v {
            SValue::Bool(b) => Ok(SLayer { disable: Some(b), ..l }),
            _ => Err(invalid_value(name, key, shown)),
        }
    } else if key == "fixable"@ {
        match v {
            SValue::Bool(b) => Ok(SLayer { fixable: Some(b), ..l }),
            _ => Err(invalid_value(name, key, shown)),
        }
    } else if key == "severity"@ {
        match v {
            SValue::Text(t) => if lowered(t) == "error"@ {
                Ok(SLayer { severity: Some(Severity::Error), ..l })
            } else if lowered(t) == "warning"@ {
                Ok(SLayer { severity: Some(Severity::Warning), ..l })
            } else {
                Err(invalid_value(name, key, shown))
            },
            _ => Err(invalid_value(name, key, shown)),
        }
    } else if key == "phase"@ || key == "user_error_message"@ {
        Ok(l)
    } else {
        Ok(SLayer { options: with_entry(l.options, key, v), ..l })
    }
}

/// The entries applied in order; the first that does not fit stops the merge.
pub open spec fn merge_entries(l: SLayer, entries: Seq<(Seq<char>, SValue, Seq<char>)>, name: Seq<char>) -> Result<
    SLayer,
    Seq<char>,
>
    decreases entries.len(),
{
    if entries.len() == 0 {
        Ok(l)
    } else {
        match merge_entries(l, entries.drop_last(), name) {
            Ok(before) => merge_entry(before, entries.last(), name),
            Err(e) => Err(e),
        }
    }
}

/// A rule's settings (which must be a mapping) applied to a layer.
pub open spec fn spec_merge_layer(l: SLayer, settings: SValue, name: Seq<char>) -> Result<SLayer, Seq<char>> {
    match settings {
        SValue::Mapping(entries) => merge_entries(l, entries, name),
        _ => Err("settings of `"@ + name + "` must be a mapping"@),
    }
}

fn invalid_message(name: &str, key: &str, shown: &str) -> (r: String)
    ensures
        r@ == invalid_value(name@, key@, shown@),
{
    let mut m = String::from_str("`");
    m.append(name);
    m.append(".");
    m.append(key);
    m.append("` has an invalid value ");
    m.append(shown);
    m
}

/// Set `key` to `value` in `options`.
fn put_option(options: &mut Vec<(String, ConfigValue)>, key: String, value: ConfigValue)
    ensures
        options_view(final(options)@) == with_entry(options_view(old(options)@), key@, value_view(value)),
{
    let ghost o = options_view(options@);
    let mut i: usize = 0;
    assert(o.skip(0) =~= o);
    assert(o.take(0) =~= Seq::<(Seq<char>, SValue)>::empty());
    assert(o.take(0) + with_entry(o.skip(0), key@, value_view(value)) =~= with_entry(o, key@, value_view(value)));
    while i < options.len()
        invariant
            0 <= i <= options@.len(),
            o == options_view(options@),
            o == options_view(old(options)@),
            o.take(i as int) + with_entry(o.skip(i as int), key@, value_view(value)) == with_entry(
                o,
                key@,
                value_view(value),
            ),
        decreases options@.len() - i,
    {
        assert(o.skip(i as int)[0] == o[i as int]);
        if str_eq(options[i].0.as_str(), key.as_str()) {
            let ghost v = value_view(value);
            options.set(i, (key, value));
            proof {
                assert(o.skip(i as int)[0].0 == key@);
                assert(with_entry(o.skip(i as int), key@, v) == o.skip(i as int).update(0, (key@, v)));
                assert(options_view(options@) =~= o.update(i as int, (key@, v)));
                assert(o.update(i as int, (key@, v)) =~= o.take(i as int) + o.skip(i as int).update(0, (key@, v)));
                assert(options_view(options@) == with_entry(o, key@, v));
                assert(o == options_view(old(options)@));
            }
            return;
        }
        proof {
            assert(o.skip(i as int).skip(1) =~= o.skip(i + 1));
            assert(o.take(i + 1) =~= o.take(i as int) + seq![o[i as int]]);
        }
        i = i + 1;
    }
    let ghost v = value_view(value);
    options.push((key, value));
    assert(o.skip(i as int) =~= Seq::<(Seq<char>, SValue)>::empty());
    assert(o.take(i as int) =~= o);
    assert(options_view(options@) =~= o + seq![(key@, v)]);
}

/// Apply a rule's settings (a mapping) to a layer.
pub fn merge_layer(layer: &mut RuleLayer, settings: &ConfigValue, name: &str) -> (r: Result<(), String>)
    ensures
        match spec_merge_layer(layer_view(*old(layer)), value_view(*settings), name@) {
            Ok(l) => r is Ok && layer_view(*final(layer)) == l,
            Err(e) => r matches Err(m) && m@ == e,
        },
{
    let entries = match settings {
        ConfigValue::Mapping(entries) => entries,
        _ => {
            let mut m = String::from_str("settings of `");
            m.append(name);
            m.append("` must be a mapping");
            return Err(m);
        },
    };
    let ghost sv = value_view(*settings)->Mapping_0;
    let ghost l0 = layer_view(*layer);
    let mut i: usize = 0;
    assert(sv.take(0) =~= Seq::<(Seq<char>, SValue, Seq<char>)>::empty());
    while i < entries.len()
        invariant
            0 <= i <= entries@.len(),
            *settings == ConfigValue::Mapping(*entries),
            sv == value_view(*settings)->Mapping_0,
            l0 == layer_view(*old(layer)),
            sv.len() == entries@.len(),
            merge_entries(l0, sv.take(i as int), name@) == Ok::<SLayer, Seq<char>>(layer_view(*layer)),
        decreases entries@.len() - i,
    {
        let (key, value, shown) = (&entries[i].0, &entries[i].1, &entries[i].2);
        assert(sv[i as int] == (key@, value_view(*value), shown@));
        assert(sv.take(i + 1).drop_last() =~= sv.take(i as int));
        assert(sv.take(i + 1).last() == sv[i as int]);
        let ghost before = layer_view(*layer);
        let k = key.as_str();
        if str_eq(k, "disable") || str_eq(k, "fixable") {
            let flag = match value {
                ConfigValue::Bool(b) => *b,
                _ => {
                    proof {
                        assert(merge_entries(l0, sv.take(i + 1), name@) == merge_entry(before, sv[i as int], name@));
                        lemma_merge_stays_failed(l0, sv, i + 1, name@);
                    }
                    return Err(invalid_message(name, k, shown.as_str()));
                },
            };
            if str_eq(k, "disable") {
                layer.disable = Some(flag);
            } else {
                layer.fixable = Some(flag);
            }
        } else if str_eq(k, "severity") {
            let text = match value {
                ConfigValue::Text(t) => t,
                _ => {
                    proof {
                        assert(merge_entries(l0, sv.take(i + 1), name@) == merge_entry(before, sv[i as int], name@));
                        lemma_merge_stays_failed(l0, sv, i + 1, name@);
                    }
                    return Err(invalid_message(name, k, shown.as_str()));
                },
            };
            let low = crate::chars::lower_all(&crate::chars::chars_of(text.as_str()));
            let error_word = crate::chars::chars_of("error");
            let warning_word = crate::chars::chars_of("warning");
            if chars_eq(&low, &error_word) {
                layer.severity = Some(Severity::Error);
            } else if chars_eq(&low, &warning_word) {
                layer.severity = Some(Severity::Warning);
            } else {
                proof {
                        assert(merge_entries(l0, sv.take(i + 1), name@) == merge_entry(before, sv[i as int], name@));
                        lemma_merge_stays_failed(l0, sv, i + 1, name@);
                    }
                    return Err(invalid_message(name, k, shown.as_str()));
            }
        } else if str_eq(k, "phase") || str_eq(k, "user_error_message") {
        } else {
            put_option(&mut layer.options, key.clone(), copy_value(value));
        }
        proof {
            assert(merge_entries(l0, sv.take(i + 1), name@) == merge_entry(before, sv[i as int], name@));
        }
        i = i + 1;
    }
    assert(sv.take(i as int) =~= sv);
    Ok(())
}



/// The first entry of `entries` with key `key` is at `i`.
pub proof fn lemma_first_entry<T>(entries: Seq<(Seq<char>, T)>, key: Seq<char>, i: int, value: T)
    requires
        0 <= i < entries.len(),
        entries[i].0 == key,
        forall|j: int| 0 <= j < i ==> (#[trigger] entries[j]).0 != key,
    ensures
        entry_of(entries, key) == Some(entries[i].1),
        with_entry(entries, key, value) == entries.update(i, (key, value)),
    decreases i,
{
    if i > 0 {
        let rest = entries.skip(1);
        assert forall|j: int| 0 <= j < i - 1 implies (#[trigger] rest[j]).0 != key by {
            assert(rest[j] == entries[j + 1]);
        }
        lemma_first_entry(rest, key, i - 1, value);
        assert(seq![entries[0]] + rest.update(i - 1, (key, value)) =~= entries.update(i, (key, value)));
    }
}

/// No entry of `entries` has key `key`.
pub proof fn lemma_no_entry<T>(entries: Seq<(Seq<char>, T)>, key: Seq<char>, value: T)
    requires
        forall|j: int| 0 <= j < entries.len() ==> (#[trigger] entries[j]).0 != key,
    ensures
        entry_of(entries, key) is None,
        with_entry(entries, key, value) == entries.push((key, value)),
    decreases entries.len(),
{
    if entries.len() > 0 {
        let rest = entries.skip(1);
        assert forall|j: int| 0 <= j < rest.len() implies (#[trigger] rest[j]).0 != key by {
            assert(rest[j] == entries[j + 1]);
        }
        lemma_no_entry(rest, key, value);
        assert(seq![entries[0]] + rest.push((key, value)) =~= entries.push((key, value)));
    }
}

/// The layers of a configuration: `global`, the groups by name, and the rules by id.
#[derive(Debug)]
pub struct RuleLayers {
    pub global: RuleLayer,
    pub groups: Vec<(String, RuleLayer)>,
    pub rules: Vec<(String, RuleLayer)>,
}

pub open spec fn named_view(v: Seq<(String, RuleLayer)>) -> Seq<(Seq<char>, SLayer)> {
    Seq::new(v.len(), |i: int| (v[i].0@, layer_view(v[i].1)))
}

/// The mathematical form of [`RuleLayers`].
pub ghost struct SLayers {
    pub global: SLayer,
    pub groups: Seq<(Seq<char>, SLayer)>,
    pub rules: Seq<(Seq<char>, SLayer)>,
}

pub open spec fn layers_view(l: RuleLayers) -> SLayers {
    SLayers { global: layer_view(l.global), groups: named_view(l.groups@), rules: named_view(l.rules@) }
}

/// The layer named `name`, or one that sets nothing.
pub open spec fn layer_or_empty(layers: Seq<(Seq<char>, SLayer)>, name: Seq<char>) -> SLayer {
    match entry_of(layers, name) {
        Some(l) => l,
        None => empty_layer(),
    }
}

/// Settings merged into the layer named `name` (created when there is none).
pub open spec fn merge_named(layers: Seq<(Seq<char>, SLayer)>, name: Seq<char>, settings: SValue) -> Result<
    Seq<(Seq<char>, SLayer)>,
    Seq<char>,
> {
    match spec_merge_layer(layer_or_empty(layers, name), settings, name) {
        Ok(l) => Ok(with_entry(layers, name, l)),
        Err(e) => Err(e),
    }
}

/// The groups of a `rule.group` mapping merged in order; the first error stops.
pub open spec fn merge_groups(layers: Seq<(Seq<char>, SLayer)>, groups: Seq<(Seq<char>, SValue, Seq<char>)>) -> Result<
    Seq<(Seq<char>, SLayer)>,
    Seq<char>,
>
    decreases groups.len(),
{
    if groups.len() == 0 {
        Ok(layers)
    } else {
        match merge_groups(layers, groups.drop_last()) {
            Ok(before) => merge_named(before, groups.last().0, groups.last().1),
            Err(e) => Err(e),
        }
    }
}

/// One entry of a `rule` mapping: `global`, `group`, or the settings of one rule.
pub open spec fn merge_rule_entry(st: SLayers, e: (Seq<char>, SValue, Seq<char>)) -> Result<SLayers, Seq<char>> {
    let (key, v, _) = e;
    if key == "global"@ {
        match spec_merge_layer(st.global, v, key) {
            Ok(g) => Ok(SLayers { global: g, ..st }),
            Err(m) => Err(m),
        }
    } else if key == "group"@ {
        match v {
            SValue::Mapping(groups) => match merge_groups(st.groups, groups) {
                Ok(g) => Ok(SLayers { groups: g, ..st }),
                Err(m) => Err(m),
            },
            _ => Err("`rule.group` must be a mapping"@),
        }
    } else {
        match merge_named(st.rules, key, v) {
            Ok(r) => Ok(SLayers { rules: r, ..st }),
            Err(m) => Err(m),
        }
    }
}

/// The entries of a `rule` mapping merged in order; the first error stops.
pub open spec fn merge_rule_entries(st: SLayers, entries: Seq<(Seq<char>, SValue, Seq<char>)>) -> Result<
    SLayers,
    Seq<char>,
>
    decreases entries.len(),
{
    if entries.len() == 0 {
        Ok(st)
    } else {
        match merge_rule_entries(st, entries.drop_last()) {
            Ok(before) => merge_rule_entry(before, entries.last()),
            Err(e) => Err(e),
        }
    }
}

/// A `rule` block (which must be a mapping) merged into the layers.
pub open spec fn spec_merge_rules(st: SLayers, value: SValue) -> Result<SLayers, Seq<char>> {
    match value {
        SValue::Mapping(entries) => merge_rule_entries(st, entries),
        _ => Err("`rule` must be a mapping"@),
    }
}

/// Merge `settings` into the layer named `name` of `layers`, creating it if needed.
fn merge_into(layers: &mut Vec<(String, RuleLayer)>, name: &String, settings: &ConfigValue) -> (r: Result<(), String>)
    ensures
        match merge_named(named_view(old(layers)@), name@, value_view(*settings)) {
            Ok(l) => r is Ok && named_view(final(layers)@) == l,
            Err(e) => r matches Err(m) && m@ == e,
        },
{
    let ghost v0 = named_view(layers@);
    let mut i: usize = 0;
    while i < layers.len()
        invariant
            0 <= i <= layers@.len(),
            v0 == named_view(layers@),
            v0 == named_view(old(layers)@),
            forall|j: int| 0 <= j < i ==> (#[trigger] v0[j]).0 != name@,
        ensures
            0 <= i <= layers@.len(),
            v0 == named_view(layers@),
            forall|j: int| 0 <= j < i ==> (#[trigger] v0[j]).0 != name@,
            i < layers@.len() ==> v0[i as int].0 == name@,
        decreases layers@.len() - i,
    {
        if str_eq(layers[i].0.as_str(), name.as_str()) {
            assert(v0[i as int].0 == layers@[i as int].0@);
            break;
        }
        assert(v0[i as int].0 == layers@[i as int].0@);
        i = i + 1;
    }
    if i < layers.len() {
        assert(v0[i as int].0 == name@);
        let (n, mut layer) = layers.remove(i);
        let ghost current = layer_view(layer);
        proof {
            lemma_first_entry(v0, name@, i as int, current);
            assert(current == v0[i as int].1);
        }
        let r = merge_layer(&mut layer, settings, name.as_str());
        let ghost merged = layer_view(layer);
        layers.insert(i, (n, layer));
        proof {
            lemma_first_entry(v0, name@, i as int, merged);
            if r is Ok {
                assert(named_view(layers@) =~= v0.update(i as int, (name@, merged)));
            }
        }
        r
    } else {
        let mut layer = RuleLayer::default();
        proof {
            lemma_no_entry(v0, name@, empty_layer());
        }
        let r = merge_layer(&mut layer, settings, name.as_str());
        let ghost merged = layer_view(layer);
        layers.push((name.clone(), layer));
        proof {
            lemma_no_entry(v0, name@, merged);
            if r is Ok {
                assert(named_view(layers@) =~= v0.push((name@, merged)));
            }
        }
        r
    }
}

impl RuleLayers {
    /// Layers that set nothing.
    pub fn new() -> (r: RuleLayers)
        ensures
            layers_view(r) == (SLayers { global: empty_layer(), groups: Seq::empty(), rules: Seq::empty() }),
    {
        let r = RuleLayers { global: RuleLayer::default(), groups: Vec::new(), rules: Vec::new() };
        assert(named_view(r.groups@) =~= Seq::<(Seq<char>, SLayer)>::empty());
        assert(named_view(r.rules@) =~= Seq::<(Seq<char>, SLayer)>::empty());
        r
    }

    /// Merge a `rule` block: `global`, `group` (a mapping of group names) and rule ids, each with
    /// its settings. An error leaves the layers unusable: the whole configuration is refused.
    pub fn merge_rules(&mut self, value: &ConfigValue) -> (r: Result<(), String>)
        ensures
            match spec_merge_rules(layers_view(*old(self)), value_view(*value)) {
                Ok(st) => r is Ok && layers_view(*final(self)) == st,
                Err(e) => r matches Err(m) && m@ == e,
            },
    {
        let entries = match value {
            ConfigValue::Mapping(entries) => entries,
            _ => {
                return Err(String::from_str("`rule` must be a mapping"));
            },
        };
        let ghost sv = value_view(*value)->Mapping_0;
        let ghost st0 = layers_view(*self);
        let mut i: usize = 0;
        assert(sv.take(0) =~= Seq::<(Seq<char>, SValue, Seq<char>)>::empty());
        while i < entries.len()
            invariant
                0 <= i <= entries@.len(),
                *value == ConfigValue::Mapping(*entries),
                sv == value_view(*value)->Mapping_0,
                sv.len() == entries@.len(),
                st0 == layers_view(*old(self)),
                merge_rule_entries(st0, sv.take(i as int)) == Ok::<SLayers, Seq<char>>(layers_view(*self)),
            decreases entries@.len() - i,
        {
            let (key, settings) = (&entries[i].0, &entries[i].1);
            assert(sv[i as int] == (key@, value_view(*settings), entries@[i as int].2@));
            assert(sv.take(i + 1).drop_last() =~= sv.take(i as int));
            assert(sv.take(i + 1).last() == sv[i as int]);
            let ghost before = layers_view(*self);
            let r = if str_eq(key.as_str(), "global") {
                merge_layer(&mut self.global, settings, key.as_str())
            } else if str_eq(key.as_str(), "group") {
                self.merge_groups(settings)
            } else {
                merge_into(&mut self.rules, key, settings)
            };
            proof {
                assert(merge_rule_entries(st0, sv.take(i + 1)) == merge_rule_entry(before, sv[i as int]));
            }
            if let Err(m) = r {
                proof {
                    lemma_rules_stay_failed(st0, sv, i + 1);
                }
                return Err(m);
            }
            i = i + 1;
        }
        assert(sv.take(i as int) =~= sv);
        Ok(())
    }

    /// Merge a `rule.group` mapping.
    fn merge_groups(&mut self, value: &ConfigValue) -> (r: Result<(), String>)
        ensures
            final(self).global == old(self).global,
            final(self).rules == old(self).rules,
            match value_view(*value) {
                SValue::Mapping(groups) => match merge_groups(named_view(old(self).groups@), groups) {
                    Ok(g) => r is Ok && named_view(final(self).groups@) == g,
                    Err(e) => r matches Err(m) && m@ == e,
                },
                _ => r matches Err(m) && m@ == "`rule.group` must be a mapping"@,
            },
    {
        let groups = match value {
            ConfigValue::Mapping(groups) => groups,
            _ => {
                return Err(String::from_str("`rule.group` must be a mapping"));
            },
        };
        let ghost sv = value_view(*value)->Mapping_0;
        let ghost g0 = named_view(self.groups@);
        let mut i: usize = 0;
        assert(sv.take(0) =~= Seq::<(Seq<char>, SValue, Seq<char>)>::empty());
        while i < groups.len()
            invariant
                0 <= i <= groups@.len(),
                *value == ConfigValue::Mapping(*groups),
                sv == value_view(*value)->Mapping_0,
                sv.len() == groups@.len(),
                g0 == named_view(old(self).groups@),
                self.global == old(self).global,
                self.rules == old(self).rules,
                merge_groups(g0, sv.take(i as int)) == Ok::<Seq<(Seq<char>, SLayer)>, Seq<char>>(named_view(self.groups@)),
            decreases groups@.len() - i,
        {
            let (name, settings) = (&groups[i].0, &groups[i].1);
            assert(sv[i as int] == (name@, value_view(*settings), groups@[i as int].2@));
            assert(sv.take(i + 1).drop_last() =~= sv.take(i as int));
            assert(sv.take(i + 1).last() == sv[i as int]);
            let r = merge_into(&mut self.groups, name, settings);
            if let Err(m) = r {
                proof {
                    lemma_groups_stay_failed(g0, sv, i + 1);
                }
                return Err(m);
            }
            i = i + 1;
        }
        assert(sv.take(i as int) =~= sv);
        Ok(())
    }
}

proof fn lemma_rules_stay_failed(st: SLayers, s: Seq<(Seq<char>, SValue, Seq<char>)>, k: int)
    requires
        0 <= k <= s.len(),
        merge_rule_entries(st, s.take(k)) is Err,
    ensures
        merge_rule_entries(st, s) == merge_rule_entries(st, s.take(k)),
    decreases s.len() - k,
{
    if k < s.len() {
        assert(s.take(k + 1).drop_last() =~= s.take(k));
        lemma_rules_stay_failed(st, s, k + 1);
    } else {
        assert(s.take(k) =~= s);
    }
}

proof fn lemma_groups_stay_failed(g: Seq<(Seq<char>, SLayer)>, s: Seq<(Seq<char>, SValue, Seq<char>)>, k: int)
    requires
        0 <= k <= s.len(),
        merge_groups(g, s.take(k)) is Err,
    ensures
        merge_groups(g, s) == merge_groups(g, s.take(k)),
    decreases s.len() - k,
{
    if k < s.len() {
        assert(s.take(k + 1).drop_last() =~= s.take(k));
        lemma_groups_stay_failed(g, s, k + 1);
    } else {
        assert(s.take(k) =~= s);
    }
}


/// Effective settings of one rule.
#[derive(Debug)]
pub struct RuleSettings {
    pub enabled: bool,
    pub severity: Severity,
    /// Whether `vsg-rs fix` applies the rule's fixes: the rule's default unless the configuration
    /// sets `fixable`.
    pub fixable: bool,
    /// The configuration sets `fixable` (as opposed to the rule's default).
    pub fixable_configured: bool,
    pub options: Vec<(String, ConfigValue)>,
}

/// The mathematical form of [`RuleSettings`].
pub ghost struct SSettings {
    pub enabled: bool,
    pub severity: Severity,
    pub fixable: bool,
    pub fixable_configured: bool,
    pub options: Seq<(Seq<char>, SValue)>,
}

impl RuleSettings {
    pub open spec fn spec_options(&self) -> Seq<(Seq<char>, SValue)> {
        options_view(self.options@)
    }
}

pub open spec fn settings_view(s: RuleSettings) -> SSettings {
    SSettings {
        enabled: s.enabled,
        severity: s.severity,
        fixable: s.fixable,
        fixable_configured: s.fixable_configured,
        options: s.spec_options(),
    }
}

/// The entries `more` set in `options`, in order.
pub open spec fn with_entries(options: Seq<(Seq<char>, SValue)>, more: Seq<(Seq<char>, SValue)>) -> Seq<
    (Seq<char>, SValue),
>
    decreases more.len(),
{
    if more.len() == 0 {
        options
    } else {
        with_entry(with_entries(options, more.drop_last()), more.last().0, more.last().1)
    }
}

/// A layer applied over settings: whatever it sets replaces what was there.
pub open spec fn apply_layer(s: SSettings, l: SLayer) -> SSettings {
    SSettings {
        enabled: match l.disable {
            Some(d) => !d,
            None => s.enabled,
        },
        severity: match l.severity {
            Some(v) => v,
            None => s.severity,
        },
        fixable: match l.fixable {
            Some(f) => f,
            None => s.fixable,
        },
        fixable_configured: s.fixable_configured || l.fixable is Some,
        options: with_entries(s.options, l.options),
    }
}

/// The layers applied in order.
pub open spec fn apply_layers(s: SSettings, ls: Seq<SLayer>) -> SSettings
    decreases ls.len(),
{
    if ls.len() == 0 {
        s
    } else {
        apply_layer(apply_layers(s, ls.drop_last()), ls.last())
    }
}

/// The layers of the groups named in `names` that exist, in that order.
pub open spec fn group_layers(groups: Seq<(Seq<char>, SLayer)>, names: Seq<Seq<char>>) -> Seq<SLayer>
    decreases names.len(),
{
    if names.len() == 0 {
        Seq::empty()
    } else {
        let before = group_layers(groups, names.drop_last());
        match entry_of(groups, names.last()) {
            Some(l) => before.push(l),
            None => before,
        }
    }
}

/// The layers that apply to rule `id` of groups `names`: `global`, its groups, then its own.
pub open spec fn rule_layers(st: SLayers, id: Seq<char>, names: Seq<Seq<char>>) -> Seq<SLayer> {
    seq![st.global] + group_layers(st.groups, names) + match entry_of(st.rules, id) {
        Some(l) => seq![l],
        None => Seq::empty(),
    }
}

pub open spec fn strs_view(v: Seq<&str>) -> Seq<Seq<char>> {
    Seq::new(v.len(), |i: int| v[i]@)
}

/// Copy the entries of `from` into `options`, each replacing an entry with its key.
fn put_options(options: &mut Vec<(String, ConfigValue)>, from: &Vec<(String, ConfigValue)>)
    ensures
        options_view(final(options)@) == with_entries(options_view(old(options)@), options_view(from@)),
{
    let ghost f = options_view(from@);
    let mut i: usize = 0;
    assert(f.take(0) =~= Seq::<(Seq<char>, SValue)>::empty());
    while i < from.len()
        invariant
            0 <= i <= from@.len(),
            f == options_view(from@),
            options_view(options@) == with_entries(options_view(old(options)@), f.take(i as int)),
        decreases from@.len() - i,
    {
        assert(f.take(i + 1).drop_last() =~= f.take(i as int));
        assert(f.take(i + 1).last() == f[i as int]);
        put_option(options, from[i].0.clone(), copy_value(&from[i].1));
        i = i + 1;
    }
    assert(f.take(i as int) =~= f);
}

impl RuleLayers {
    /// The layer named `name` among `layers`, if any.
    fn find(layers: &Vec<(String, RuleLayer)>, name: &str) -> (r: Option<usize>)
        ensures
            match r {
                Some(i) => i < layers@.len() && entry_of(named_view(layers@), name@) == Some(
                    layer_view(layers@[i as int].1),
                ),
                None => entry_of(named_view(layers@), name@) is None,
            },
    {
        let ghost v = named_view(layers@);
        let mut i: usize = 0;
        while i < layers.len()
            invariant
                0 <= i <= layers@.len(),
                v == named_view(layers@),
                forall|j: int| 0 <= j < i ==> (#[trigger] v[j]).0 != name@,
            decreases layers@.len() - i,
        {
            assert(v[i as int].0 == layers@[i as int].0@);
            if str_eq(layers[i].0.as_str(), name) {
                proof {
                    lemma_first_entry(v, name@, i as int, v[i as int].1);
                }
                return Some(i);
            }
            i = i + 1;
        }
        proof {
            lemma_no_entry(v, name@, empty_layer());
        }
        None
    }

    /// Apply one layer to `s`.
    fn apply(s: &mut RuleSettings, layer: &RuleLayer)
        ensures
            settings_view(*final(s)) == apply_layer(settings_view(*old(s)), layer_view(*layer)),
    {
        if let Some(disable) = layer.disable {
            s.enabled = !disable;
        }
        if let Some(severity) = layer.severity {
            s.severity = severity;
        }
        if let Some(fixable) = layer.fixable {
            s.fixable = fixable;
            s.fixable_configured = true;
        }
        put_options(&mut s.options, &layer.options);
    }

    /// The effective settings of rule `id` (in groups `groups`): its settings override its
    /// groups', which override `global`, which override the rule's defaults (`enabled`,
    /// `severity`, `fixable`, `options`).
    pub fn layered(
        &self,
        id: &str,
        groups: &[&str],
        enabled: bool,
        severity: Severity,
        fixable: bool,
        options: Vec<(String, ConfigValue)>,
    ) -> (r: RuleSettings)
        ensures
            settings_view(r) == apply_layers(
                SSettings { enabled, severity, fixable, fixable_configured: false, options: options_view(options@) },
                rule_layers(layers_view(*self), id@, strs_view(groups@)),
            ),
    {
        let ghost st = layers_view(*self);
        let ghost base = SSettings {
            enabled,
            severity,
            fixable,
            fixable_configured: false,
            options: options_view(options@),
        };
        let mut s = RuleSettings { enabled, severity, fixable, fixable_configured: false, options };
        assert(settings_view(s) == base);
        Self::apply(&mut s, &self.global);
        assert(apply_layers(base, Seq::<SLayer>::empty()) == base);
        assert(seq![st.global].drop_last() =~= Seq::<SLayer>::empty());
        assert(settings_view(s) == apply_layers(base, seq![st.global]));
        let ghost names = strs_view(groups@);
        let mut i: usize = 0;
        assert(names.take(0) =~= Seq::<Seq<char>>::empty());
        assert(seq![st.global] + group_layers(st.groups, names.take(0)) =~= seq![st.global]);
        while i < groups.len()
            invariant
                0 <= i <= groups@.len(),
                st == layers_view(*self),
                names == strs_view(groups@),
                settings_view(s) == apply_layers(base, seq![st.global] + group_layers(st.groups, names.take(i as int))),
            decreases groups@.len() - i,
        {
            let ghost before = seq![st.global] + group_layers(st.groups, names.take(i as int));
            assert(names.take(i + 1).drop_last() =~= names.take(i as int));
            assert(names.take(i + 1).last() == groups@[i as int]@);
            if let Some(k) = Self::find(&self.groups, groups[i]) {
                Self::apply(&mut s, &self.groups[k].1);
                assert((before.push(layer_view(self.groups@[k as int].1))).drop_last() =~= before);
                assert(before.push(layer_view(self.groups@[k as int].1)) =~= seq![st.global] + group_layers(st.groups, names.take(i + 1)));
            } else {
                assert(before =~= seq![st.global] + group_layers(st.groups, names.take(i + 1)));
            }
            i = i + 1;
        }
        assert(names.take(i as int) =~= names);
        let ghost before = seq![st.global] + group_layers(st.groups, names);
        if let Some(k) = Self::find(&self.rules, id) {
            Self::apply(&mut s, &self.rules[k].1);
            assert(before.push(layer_view(self.rules@[k as int].1)).drop_last() =~= before);
            assert(rule_layers(st, id@, names) =~= before.push(layer_view(self.rules@[k as int].1)));
        } else {
            assert(rule_layers(st, id@, names) =~= before);
        }
        s
    }

    /// Settings of a lint rule (`lint_…`): enabled and an error unless configured otherwise, except
    /// house style and the experimental rules, which start off; the layers of group `lint` and
    /// of the rule apply over that.
    pub fn lint_rule(&self, id: &str) -> (r: RuleSettings)
        ensures
            settings_view(r) == lint_settings(layers_view(*self), id@),
    {
        let on_by_default = !(str_eq(id, "lint_602") || str_eq(id, "lint_603") || str_eq(id, "lint_700")
            || str_eq(id, "lint_713"));
        let groups: [&str; 1] = ["lint"];
        assert(strs_view(groups@) =~= seq!["lint"@]);
        let options: Vec<(String, ConfigValue)> = Vec::new();
        assert(options_view(options@) =~= Seq::<(Seq<char>, SValue)>::empty());
        self.layered(id, &groups, on_by_default, Severity::Error, true, options)
    }
}


/// The strings among `items`.
pub open spec fn texts_of(items: Seq<SValue>) -> Seq<Seq<char>>
    decreases items.len(),
{
    if items.len() == 0 {
        Seq::empty()
    } else {
        let before = texts_of(items.drop_last());
        match items.last() {
            SValue::Text(t) => before.push(t),
            _ => before,
        }
    }
}

impl RuleSettings {
    fn find_option(&self, key: &str) -> (r: Option<usize>)
        ensures
            match r {
                Some(i) => i < self.options@.len() && entry_of(self.spec_options(), key@) == Some(
                    value_view(self.options@[i as int].1),
                ),
                None => entry_of(self.spec_options(), key@) is None,
            },
    {
        let ghost v = self.spec_options();
        let mut i: usize = 0;
        while i < self.options.len()
            invariant
                0 <= i <= self.options@.len(),
                v == self.spec_options(),
                forall|j: int| 0 <= j < i ==> (#[trigger] v[j]).0 != key@,
            decreases self.options@.len() - i,
        {
            assert(v[i as int] == (self.options@[i as int].0@, value_view(self.options@[i as int].1)));
            if str_eq(self.options[i].0.as_str(), key) {
                proof {
                    lemma_first_entry(v, key@, i as int, v[i as int].1);
                }
                return Some(i);
            }
            i = i + 1;
        }
        proof {
            lemma_no_entry(v, key@, SValue::Null);
        }
        None
    }

    pub fn option_str(&self, key: &str) -> (r: Option<&str>)
        ensures
            match entry_of(self.spec_options(), key@) {
                Some(SValue::Text(t)) => r matches Some(x) && x@ == t,
                _ => r is None,
            },
    {
        match self.find_option(key) {
            Some(i) => match &self.options[i].1 {
                ConfigValue::Text(t) => Some(t.as_str()),
                _ => None,
            },
            None => None,
        }
    }

    pub fn option_usize(&self, key: &str) -> (r: Option<usize>)
        ensures
            match entry_of(self.spec_options(), key@) {
                Some(SValue::Unsigned(n)) => if n <= usize::MAX {
                    r == Some(n as usize)
                } else {
                    r is None
                },
                _ => r is None,
            },
    {
        match self.find_option(key) {
            Some(i) => match &self.options[i].1 {
                ConfigValue::Unsigned(n) => {
                    if *n <= usize::MAX as u64 {
                        Some(*n as usize)
                    } else {
                        None
                    }
                },
                _ => None,
            },
            None => None,
        }
    }

    pub fn has_option(&self, key: &str) -> (r: bool)
        ensures
            r == entry_of(self.spec_options(), key@) is Some,
    {
        self.find_option(key).is_some()
    }

    pub fn option_bool(&self, key: &str) -> (r: Option<bool>)
        ensures
            match entry_of(self.spec_options(), key@) {
                Some(SValue::Bool(b)) => r == Some(b),
                _ => r is None,
            },
    {
        match self.find_option(key) {
            Some(i) => match &self.options[i].1 {
                ConfigValue::Bool(b) => Some(*b),
                _ => None,
            },
            None => None,
        }
    }

    /// A list of strings; a single string counts as a one-element list.
    pub fn option_list(&self, key: &str) -> (r: Vec<&str>)
        ensures
            strs_view(r@) == match entry_of(self.spec_options(), key@) {
                Some(SValue::List(items)) => texts_of(items),
                Some(SValue::Text(t)) => seq![t],
                _ => Seq::<Seq<char>>::empty(),
            },
    {
        let mut out: Vec<&str> = Vec::new();
        match self.find_option(key) {
            Some(i) => match &self.options[i].1 {
                ConfigValue::List(items) => {
                    let ghost iv = value_view(self.options@[i as int].1)->List_0;
                    let mut k: usize = 0;
                    assert(iv.take(0) =~= Seq::<SValue>::empty());
                    assert(strs_view(out@) =~= Seq::<Seq<char>>::empty());
                    while k < items.len()
                        invariant
                            0 <= k <= items@.len(),
                            iv.len() == items@.len(),
                            forall|j: int| 0 <= j < items@.len() ==> iv[j] == value_view(#[trigger] items@[j]),
                            strs_view(out@) == texts_of(iv.take(k as int)),
                        decreases items@.len() - k,
                    {
                        assert(iv.take(k + 1).drop_last() =~= iv.take(k as int));
                        assert(iv.take(k + 1).last() == value_view(items@[k as int]));
                        if let ConfigValue::Text(t) = &items[k] {
                            let ghost o0 = strs_view(out@);
                            out.push(t.as_str());
                            assert(strs_view(out@) =~= o0.push(t@));
                        }
                        k = k + 1;
                    }
                    assert(iv.take(k as int) =~= iv);
                },
                ConfigValue::Text(t) => {
                    out.push(t.as_str());
                    assert(strs_view(out@) =~= seq![t@]);
                },
                _ => {
                    assert(strs_view(out@) =~= Seq::<Seq<char>>::empty());
                },
            },
            None => {
                assert(strs_view(out@) =~= Seq::<Seq<char>>::empty());
            },
        }
        out
    }
}

/// The last of `ls` that sets `disable`, and what it sets.
pub open spec fn last_disable(ls: Seq<SLayer>) -> Option<bool>
    decreases ls.len(),
{
    if ls.len() == 0 {
        None
    } else {
        match ls.last().disable {
            Some(d) => Some(d),
            None => last_disable(ls.drop_last()),
        }
    }
}

/// The last of `ls` that sets the severity, and what it sets.
pub open spec fn last_severity(ls: Seq<SLayer>) -> Option<Severity>
    decreases ls.len(),
{
    if ls.len() == 0 {
        None
    } else {
        match ls.last().severity {
            Some(v) => Some(v),
            None => last_severity(ls.drop_last()),
        }
    }
}

proof fn lemma_apply_layers_decided(base: SSettings, ls: Seq<SLayer>)
    ensures
        apply_layers(base, ls).enabled == match last_disable(ls) {
            Some(d) => !d,
            None => base.enabled,
        },
        apply_layers(base, ls).severity == match last_severity(ls) {
            Some(v) => v,
            None => base.severity,
        },
    decreases ls.len(),
{
    if ls.len() > 0 {
        lemma_apply_layers_decided(base, ls.drop_last());
    }
}

proof fn lemma_last_concat(a: Seq<SLayer>, b: Seq<SLayer>)
    ensures
        last_disable(a + b) == match last_disable(b) {
            Some(d) => Some(d),
            None => last_disable(a),
        },
        last_severity(a + b) == match last_severity(b) {
            Some(v) => Some(v),
            None => last_severity(a),
        },
    decreases b.len(),
{
    if b.len() == 0 {
        assert(a + b =~= a);
    } else {
        lemma_last_concat(a, b.drop_last());
        assert((a + b).drop_last() =~= a + b.drop_last());
        assert((a + b).last() == b.last());
    }
}

/// Whether the rule is enabled after its layers: its own setting, else the last of its groups
/// that sets one, else `global`'s, else its default.
pub open spec fn decided_enabled(st: SLayers, id: Seq<char>, names: Seq<Seq<char>>, default: bool) -> bool {
    let own = match entry_of(st.rules, id) {
        Some(l) => l.disable,
        None => None,
    };
    match own {
        Some(d) => !d,
        None => match last_disable(group_layers(st.groups, names)) {
            Some(d) => !d,
            None => match st.global.disable {
                Some(d) => !d,
                None => default,
            },
        },
    }
}

/// The rule's severity after its layers, decided the same way.
pub open spec fn decided_severity(st: SLayers, id: Seq<char>, names: Seq<Seq<char>>, default: Severity) -> Severity {
    let own = match entry_of(st.rules, id) {
        Some(l) => l.severity,
        None => None,
    };
    match own {
        Some(v) => v,
        None => match last_severity(group_layers(st.groups, names)) {
            Some(v) => v,
            None => match st.global.severity {
                Some(v) => v,
                None => default,
            },
        },
    }
}

/// Rule-specific settings override the rule's groups, which override `global`, which override
/// the rule's defaults: whether the rule is enabled, and its severity, are what the most
/// specific layer that sets them says.
pub proof fn law_rule_over_groups_over_global(st: SLayers, id: Seq<char>, names: Seq<Seq<char>>, base: SSettings)
    ensures
        apply_layers(base, rule_layers(st, id, names)).enabled == decided_enabled(st, id, names, base.enabled),
        apply_layers(base, rule_layers(st, id, names)).severity == decided_severity(st, id, names, base.severity),
{
    let g = group_layers(st.groups, names);
    let own = match entry_of(st.rules, id) {
        Some(l) => seq![l],
        None => Seq::<SLayer>::empty(),
    };
    lemma_apply_layers_decided(base, rule_layers(st, id, names));
    lemma_last_concat(seq![st.global] + g, own);
    lemma_last_concat(seq![st.global], g);
    let one = seq![st.global];
    assert(rule_layers(st, id, names) == one + g + own);
    assert(one.drop_last() =~= Seq::<SLayer>::empty());
    assert(last_disable(one) == st.global.disable);
    assert(last_severity(one) == st.global.severity);
    if own.len() == 1 {
        assert(own.drop_last() =~= Seq::<SLayer>::empty());
        assert(own.last() == own[0]);
        assert(last_disable(Seq::<SLayer>::empty()) is None);
        assert(last_severity(Seq::<SLayer>::empty()) is None);
        assert(last_disable(own) == own[0].disable);
        assert(last_severity(own) == own[0].severity);
    } else {
        assert(last_disable(own) is None);
        assert(last_severity(own) is None);
    }
}


/// The effective settings of lint rule `id`: see [`RuleLayers::lint_rule`].
pub open spec fn lint_settings(st: SLayers, id: Seq<char>) -> SSettings {
    apply_layers(
        SSettings {
            enabled: !(id == "lint_602"@ || id == "lint_603"@ || id == "lint_700"@ || id == "lint_713"@),
            severity: Severity::Error,
            fixable: true,
            fixable_configured: false,
            options: Seq::empty(),
        },
        rule_layers(st, id, seq!["lint"@]),
    )
}

/// What [`RuleSettings::option_list`] reads of an option's value.
pub open spec fn list_value(v: Option<SValue>) -> Seq<Seq<char>> {
    match v {
        Some(SValue::List(items)) => texts_of(items),
        Some(SValue::Text(t)) => seq![t],
        _ => Seq::empty(),
    }
}


// Rule defaults and the settings the formatter resolves from the layers -------------------------

/// What the defaults table says of one rule: the groups it belongs to, whether it is disabled,
/// its severity, whether its fixes apply, and its options (which may include `disable`,
/// `severity` and `fixable` entries, which are not options).
pub struct RuleDefaults {
    pub groups: Vec<String>,
    pub disable: bool,
    pub severity: Severity,
    pub fixable: bool,
    pub options: Vec<(String, ConfigValue)>,
}

/// The mathematical form of [`RuleDefaults`].
pub ghost struct SDefaults {
    pub groups: Seq<Seq<char>>,
    pub disable: bool,
    pub severity: Severity,
    pub fixable: bool,
    pub options: Seq<(Seq<char>, SValue)>,
}

pub open spec fn strings_of(v: Seq<String>) -> Seq<Seq<char>> {
    Seq::new(v.len(), |i: int| v[i]@)
}

pub open spec fn defaults_view(d: RuleDefaults) -> SDefaults {
    SDefaults {
        groups: strings_of(d.groups@),
        disable: d.disable,
        severity: d.severity,
        fixable: d.fixable,
        options: options_view(d.options@),
    }
}

pub open spec fn table_view(t: Seq<(String, RuleDefaults)>) -> Seq<(Seq<char>, SDefaults)> {
    Seq::new(t.len(), |i: int| (t[i].0@, defaults_view(t[i].1)))
}

/// Whether `k` names a setting of the rule rather than an option.
pub open spec fn is_setting_key(k: Seq<char>) -> bool {
    k == "disable"@ || k == "severity"@ || k == "fixable"@
}

/// The entries of `o` that are options, in order.
pub open spec fn plain_options(o: Seq<(Seq<char>, SValue)>) -> Seq<(Seq<char>, SValue)>
    decreases o.len(),
{
    if o.len() == 0 {
        Seq::empty()
    } else {
        plain_options(o.drop_last()) + if is_setting_key(o.last().0) {
            Seq::empty()
        } else {
            seq![o.last()]
        }
    }
}

/// Whether `id` names a rule of the lint layer (`lint_…`).
pub open spec fn is_lint_id(id: Seq<char>) -> bool {
    id.len() >= 5 && id.take(5) == "lint_"@
}

/// The settings of a rule from its defaults and the layers: see [`RuleLayers::rule`].
pub open spec fn spec_rule(
    st: SLayers,
    id: Seq<char>,
    groups: Seq<Seq<char>>,
    enabled: bool,
    severity: Severity,
    fixable: bool,
) -> SSettings {
    apply_layers(
        SSettings { enabled, severity, fixable, fixable_configured: false, options: Seq::empty() },
        rule_layers(st, id, groups),
    )
}

/// Whether the defaults say a rule's fixes apply (they do when the table does not know it).
pub open spec fn fixable_in(d: Option<SDefaults>) -> bool {
    match d {
        Some(d) => d.fixable,
        None => true,
    }
}

/// The settings of any rule by id: see [`RuleLayers::rule_by_id`].
pub open spec fn spec_rule_by_id(st: SLayers, id: Seq<char>, d: Option<SDefaults>) -> Option<SSettings> {
    if is_lint_id(id) {
        Some(lint_settings(st, id))
    } else {
        match d {
            None => None,
            Some(d) => Some(
                apply_layers(
                    SSettings {
                        enabled: !d.disable,
                        severity: d.severity,
                        fixable: d.fixable,
                        fixable_configured: false,
                        options: plain_options(d.options),
                    },
                    rule_layers(st, id, d.groups),
                ),
            ),
        }
    }
}

/// The strings of `v`, borrowed.
fn as_strs<'a>(v: &'a Vec<String>) -> (r: Vec<&'a str>)
    ensures
        strs_view(r@) == strings_of(v@),
{
    let mut out: Vec<&'a str> = Vec::new();
    let mut i: usize = 0;
    while i < v.len()
        invariant
            0 <= i <= v@.len(),
            out@.len() == i,
            strs_view(out@) == strings_of(v@).take(i as int),
        decreases v@.len() - i,
    {
        let ghost before = out@;
        let s = v[i].as_str();
        assert(s@ == v@[i as int]@);
        out.push(s);
        assert forall|k: int| 0 <= k < i + 1 implies #[trigger] strs_view(out@)[k] == strings_of(v@).take(i + 1)[k] by {
            if k < i {
                assert(strs_view(before)[k] == strings_of(v@).take(i as int)[k]);
            }
        }
        assert(strs_view(out@) =~= strings_of(v@).take(i + 1));
        i = i + 1;
    }
    assert(strings_of(v@).take(i as int) =~= strings_of(v@));
    out
}

/// The entries of `o` that are options.
fn plain_option_list(o: &Vec<(String, ConfigValue)>) -> (r: Vec<(String, ConfigValue)>)
    ensures
        options_view(r@) == plain_options(options_view(o@)),
{
    let ghost ov = options_view(o@);
    let mut out: Vec<(String, ConfigValue)> = Vec::new();
    let mut i: usize = 0;
    assert(ov.take(0) =~= Seq::<(Seq<char>, SValue)>::empty());
    assert(options_view(out@) =~= Seq::<(Seq<char>, SValue)>::empty());
    while i < o.len()
        invariant
            0 <= i <= o@.len(),
            ov == options_view(o@),
            options_view(out@) == plain_options(ov.take(i as int)),
        decreases o@.len() - i,
    {
        assert(ov.take(i + 1).drop_last() =~= ov.take(i as int));
        assert(ov.take(i + 1).last() == ov[i as int]);
        assert(ov[i as int] == (o@[i as int].0@, value_view(o@[i as int].1)));
        let k = o[i].0.as_str();
        if !(str_eq(k, "disable") || str_eq(k, "severity") || str_eq(k, "fixable")) {
            proof {
                reveal_strlit("disable");
                reveal_strlit("severity");
                reveal_strlit("fixable");
            }
            let ghost before = options_view(out@);
            out.push((o[i].0.clone(), copy_value(&o[i].1)));
            assert(options_view(out@) =~= before + seq![ov[i as int]]);
        } else {
            proof {
                reveal_strlit("disable");
                reveal_strlit("severity");
                reveal_strlit("fixable");
            }
            assert(options_view(out@) =~= options_view(out@) + Seq::<(Seq<char>, SValue)>::empty());
        }
        i = i + 1;
    }
    assert(ov.take(i as int) =~= ov);
    out
}

/// Whether `id` starts with `lint_`.
fn lint_id(id: &str) -> (r: bool)
    ensures
        r == is_lint_id(id@),
{
    let c = crate::chars::chars_of(id);
    proof {
        reveal_strlit("lint_");
    }
    if c.len() < 5 {
        return false;
    }
    let r = c[0] == 'l' && c[1] == 'i' && c[2] == 'n' && c[3] == 't' && c[4] == '_';
    proof {
        let w = seq!['l', 'i', 'n', 't', '_'];
        assert("lint_"@ =~= w);
        if r {
            assert(c@.take(5) =~= w);
        } else {
            assert(c@.take(5) != w) by {
                if c@.take(5) == w {
                    assert(c@.take(5)[0] == w[0] && c@.take(5)[1] == w[1] && c@.take(5)[2] == w[2]
                        && c@.take(5)[3] == w[3] && c@.take(5)[4] == w[4]);
                }
            }
        }
    }
    r
}

/// The defaults `table` has for `id`.
pub fn defaults_for<'a>(table: &'a Vec<(String, RuleDefaults)>, id: &str) -> (r: Option<&'a RuleDefaults>)
    ensures
        match r {
            Some(d) => entry_of(table_view(table@), id@) == Some(defaults_view(*d)),
            None => entry_of(table_view(table@), id@) is None,
        },
{
    let ghost tv = table_view(table@);
    let mut i: usize = 0;
    while i < table.len()
        invariant
            0 <= i <= table@.len(),
            tv == table_view(table@),
            forall|j: int| 0 <= j < i ==> (#[trigger] tv[j]).0 != id@,
        decreases table@.len() - i,
    {
        assert(tv[i as int] == (table@[i as int].0@, defaults_view(table@[i as int].1)));
        if str_eq(table[i].0.as_str(), id) {
            proof {
                lemma_first_entry(tv, id@, i as int, tv[i as int].1);
            }
            return Some(&table[i].1);
        }
        i = i + 1;
    }
    proof {
        lemma_no_entry(tv, id@, SDefaults {
            groups: Seq::empty(),
            disable: false,
            severity: Severity::Error,
            fixable: true,
            options: Seq::empty(),
        });
    }
    None
}

pub open spec fn defaults_opt(d: Option<&RuleDefaults>) -> Option<SDefaults> {
    match d {
        Some(d) => Some(defaults_view(*d)),
        None => None,
    }
}

impl RuleLayers {
    /// The effective settings of the rule `info`: its settings override its groups', which
    /// override `global`, which override the rule's defaults. Its fixes apply by default unless
    /// `defaults` says otherwise.
    pub fn rule(&self, info: &RuleInfo, defaults: Option<&RuleDefaults>) -> (r: RuleSettings)
        ensures
            settings_view(r) == spec_rule(
                layers_view(*self),
                info.id@,
                strs_view(info.groups@),
                info.enabled_by_default,
                info.severity,
                fixable_in(defaults_opt(defaults)),
            ),
    {
        let fixable = match defaults {
            Some(d) => d.fixable,
            None => true,
        };
        let options: Vec<(String, ConfigValue)> = Vec::new();
        assert(options_view(options@) =~= Seq::<(Seq<char>, SValue)>::empty());
        self.layered(info.id, info.groups, info.enabled_by_default, info.severity, fixable, options)
    }

    /// The settings of any rule by id: a lint rule as [`RuleLayers::lint_rule`] says, any other
    /// from its `defaults` (the groups, severity, whether it is disabled or fixable, and the
    /// options, without the `disable`, `severity` and `fixable` entries) with the layers over
    /// them. `None` for a rule that is not a lint rule and has no defaults.
    pub fn rule_by_id(&self, id: &str, defaults: Option<&RuleDefaults>) -> (r: Option<RuleSettings>)
        ensures
            match r {
                Some(s) => spec_rule_by_id(layers_view(*self), id@, defaults_opt(defaults)) == Some(
                    settings_view(s),
                ),
                None => spec_rule_by_id(layers_view(*self), id@, defaults_opt(defaults)) is None,
            },
    {
        if lint_id(id) {
            return Some(self.lint_rule(id));
        }
        match defaults {
            None => None,
            Some(d) => {
                let options = plain_option_list(&d.options);
                let groups = as_strs(&d.groups);
                Some(self.layered(id, groups.as_slice(), !d.disable, d.severity, d.fixable, options))
            },
        }
    }
}

/// Option `key` of `o` read as yes or no: the text `yes` (any other text is no), or a boolean;
/// `default` when it is neither.
pub open spec fn yes_option(o: Seq<(Seq<char>, SValue)>, key: Seq<char>, default: bool) -> bool {
    match entry_of(o, key) {
        Some(SValue::Text(t)) => t == "yes"@,
        Some(SValue::Bool(b)) => b,
        _ => default,
    }
}

/// An alignment family as the settings of its rule configure it, starting from `f`.
pub open spec fn family_from(s: SSettings, f: Family) -> Family {
    Family {
        enabled: s.enabled,
        blank_line_ends_group: yes_option(s.options, "blank_line_ends_group"@, f.blank_line_ends_group),
        comment_line_ends_group: yes_option(s.options, "comment_line_ends_group"@, f.comment_line_ends_group),
        include_lines_without_comments: yes_option(
            s.options,
            "include_lines_without_comments"@,
            f.include_lines_without_comments,
        ),
    }
}

/// The family at position `i` of [`crate::align::rules`], as configured.
pub open spec fn resolved_family(st: SLayers, table: Seq<(Seq<char>, SDefaults)>, i: int) -> Family {
    let id = spec_rule_ids()[i]@;
    family_from(
        spec_rule(st, id, seq!["alignment"@], true, Severity::Error, fixable_in(entry_of(table, id))),
        spec_families(spec_default_align())[i],
    )
}

/// Whether rule `id` is enabled; a rule nobody knows counts as enabled.
pub open spec fn enabled_or_unknown(st: SLayers, table: Seq<(Seq<char>, SDefaults)>, id: Seq<char>) -> bool {
    match spec_rule_by_id(st, id, entry_of(table, id)) {
        Some(s) => s.enabled,
        None => true,
    }
}

/// The alignment settings the layers configure: see [`RuleLayers::resolve_alignment`].
pub open spec fn spec_resolve_alignment(st: SLayers, table: Seq<(Seq<char>, SDefaults)>) -> AlignSettings {
    AlignSettings {
        declaration_names: resolved_family(st, table, 0),
        declaration_colons: resolved_family(st, table, 1),
        declaration_assignments: resolved_family(st, table, 2),
        concurrent_assignments: resolved_family(st, table, 3),
        sequential_assignments: resolved_family(st, table, 4),
        declaration_comments: resolved_family(st, table, 5),
        interface_comments: resolved_family(st, table, 6),
        map_comments: resolved_family(st, table, 7),
        concurrent_comments: resolved_family(st, table, 8),
        process_comments: resolved_family(st, table, 9),
        interface_colons: enabled_or_unknown(st, table, "entity_017"@),
        component_colons: enabled_or_unknown(st, table, "component_017"@),
        parameter_colons: enabled_or_unknown(st, table, "procedure_410"@),
        map_arrows: enabled_or_unknown(st, table, "instantiation_010"@),
    }
}

impl RuleLayers {
    /// Option `key` of `settings` read as yes or no.
    fn yes(settings: &RuleSettings, key: &str, default: bool) -> (r: bool)
        ensures
            r == yes_option(settings.spec_options(), key@, default),
    {
        proof {
            reveal_strlit("yes");
        }
        match settings.option_str(key) {
            Some(v) => str_eq(v, "yes"),
            None => match settings.option_bool(key) {
                Some(b) => b,
                None => default,
            },
        }
    }

    /// Whether rule `id` is enabled, by the defaults of `table`; a rule nobody knows counts as
    /// enabled.
    fn enabled_or_unknown(&self, id: &str, table: &Vec<(String, RuleDefaults)>) -> (r: bool)
        ensures
            r == enabled_or_unknown(layers_view(*self), table_view(table@), id@),
    {
        match self.rule_by_id(id, defaults_for(table, id)) {
            Some(s) => s.enabled,
            None => true,
        }
    }

    /// The alignment settings: each family from its rule (whether it is enabled, and its
    /// `blank_line_ends_group`, `comment_line_ends_group` and `include_lines_without_comments`
    /// options over the family's default), and the colons and arrows aligned unless
    /// `entity_017`, `component_017`, `procedure_410` or `instantiation_010` is disabled.
    /// `table` holds the rules' defaults.
    pub fn resolve_alignment(&self, table: &Vec<(String, RuleDefaults)>) -> (r: AlignSettings)
        ensures
            r == spec_resolve_alignment(layers_view(*self), table_view(table@)),
    {
        let ghost st = layers_view(*self);
        let ghost tv = table_view(table@);
        let mut align = AlignSettings::default();
        let infos = crate::align::rules();
        proof {
            reveal_strlit("alignment");
            reveal_strlit("blank_line_ends_group");
            reveal_strlit("comment_line_ends_group");
            reveal_strlit("include_lines_without_comments");
        }
        let mut i: usize = 0;
        while i < 10
            invariant
                0 <= i <= 10,
                infos@.len() == 10,
                forall|j: int|
                    0 <= j < 10 ==> (#[trigger] infos@[j]).id == spec_rule_ids()[j] && infos@[j].groups@
                        == seq!["alignment"] && infos@[j].severity == Severity::Error
                        && infos@[j].enabled_by_default,
                st == layers_view(*self),
                tv == table_view(table@),
                forall|j: int|
                    0 <= j < 10 ==> #[trigger] spec_families(align)[j] == if j < i {
                        resolved_family(st, tv, j)
                    } else {
                        spec_families(spec_default_align())[j]
                    },
            decreases 10 - i,
        {
            let info = &infos[i];
            let settings = self.rule(info, defaults_for(table, info.id));
            let fams = align.families();
            let old = fams[i];
            assert(strs_view(info.groups@) =~= seq!["alignment"@]);
            let f = Family {
                enabled: settings.enabled,
                blank_line_ends_group: Self::yes(&settings, "blank_line_ends_group", old.blank_line_ends_group),
                comment_line_ends_group: Self::yes(
                    &settings,
                    "comment_line_ends_group",
                    old.comment_line_ends_group,
                ),
                include_lines_without_comments: Self::yes(
                    &settings,
                    "include_lines_without_comments",
                    old.include_lines_without_comments,
                ),
            };
            assert(f == resolved_family(st, tv, i as int));
            let ghost before = spec_families(align);
            align.set_family(i, f);
            assert forall|j: int| 0 <= j < 10 implies #[trigger] spec_families(align)[j] == if j < i + 1 {
                resolved_family(st, tv, j)
            } else {
                spec_families(spec_default_align())[j]
            } by {
                assert(spec_families(align)[j] == before.update(i as int, f)[j]);
            }
            i = i + 1;
        }
        let ghost fam = spec_families(align);
        assert(forall|j: int| 0 <= j < 10 ==> fam[j] == resolved_family(st, tv, j));
        assert(align.declaration_names == fam[0] && align.declaration_colons == fam[1]
            && align.declaration_assignments == fam[2] && align.concurrent_assignments == fam[3]
            && align.sequential_assignments == fam[4] && align.declaration_comments == fam[5]
            && align.interface_comments == fam[6] && align.map_comments == fam[7]
            && align.concurrent_comments == fam[8] && align.process_comments == fam[9]);
        align.interface_colons = self.enabled_or_unknown("entity_017", table);
        align.component_colons = self.enabled_or_unknown("component_017", table);
        align.parameter_colons = self.enabled_or_unknown("procedure_410", table);
        align.map_arrows = self.enabled_or_unknown("instantiation_010", table);
        proof {
            reveal_strlit("entity_017");
            reveal_strlit("component_017");
            reveal_strlit("procedure_410");
            reveal_strlit("instantiation_010");
            assert(fam[0] == resolved_family(st, tv, 0));
            assert(fam[1] == resolved_family(st, tv, 1));
            assert(fam[2] == resolved_family(st, tv, 2));
            assert(fam[3] == resolved_family(st, tv, 3));
            assert(fam[4] == resolved_family(st, tv, 4));
            assert(fam[5] == resolved_family(st, tv, 5));
            assert(fam[6] == resolved_family(st, tv, 6));
            assert(fam[7] == resolved_family(st, tv, 7));
            assert(fam[8] == resolved_family(st, tv, 8));
            assert(fam[9] == resolved_family(st, tv, 9));
        }
        align
    }
}

/// The style a blank-line rule has: its `style` option when that names a style, else its
/// default `dflt`.
pub open spec fn style_setting(s: SSettings, dflt: Option<Style>) -> Option<Style> {
    match entry_of(s.options, "style"@) {
        Some(SValue::Text(t)) => match spec_parse_style(t) {
            Some(x) => Some(x),
            None => dflt,
        },
        _ => dflt,
    }
}

/// The settings of the blank-line rule `r` (id, default style, enabled by default).
pub open spec fn blank_rule_settings(
    st: SLayers,
    table: Seq<(Seq<char>, SDefaults)>,
    r: (&'static str, Option<Style>, bool),
) -> SSettings {
    spec_rule(st, r.0@, seq!["blank_line"@], r.2, Severity::Error, fixable_in(entry_of(table, r.0@)))
}

/// The enabled rules among `rs` with their styles, in order.
pub open spec fn blank_styles(
    st: SLayers,
    table: Seq<(Seq<char>, SDefaults)>,
    rs: Seq<(&'static str, Option<Style>, bool)>,
) -> Seq<(&'static str, Option<Style>)>
    decreases rs.len(),
{
    if rs.len() == 0 {
        Seq::empty()
    } else {
        let before = blank_styles(st, table, rs.drop_last());
        let s = blank_rule_settings(st, table, rs.last());
        if s.enabled {
            before.push((rs.last().0, style_setting(s, rs.last().1)))
        } else {
            before
        }
    }
}

/// `id: unsupported style `text``.
pub open spec fn unsupported_style(id: Seq<char>, text: Seq<char>) -> Seq<char> {
    id + ": unsupported style `"@ + text + "`"@
}

/// What is said of the enabled rules among `rs` whose `style` is a text that names no style.
pub open spec fn blank_warnings(
    st: SLayers,
    table: Seq<(Seq<char>, SDefaults)>,
    rs: Seq<(&'static str, Option<Style>, bool)>,
) -> Seq<Seq<char>>
    decreases rs.len(),
{
    if rs.len() == 0 {
        Seq::empty()
    } else {
        let before = blank_warnings(st, table, rs.drop_last());
        let s = blank_rule_settings(st, table, rs.last());
        if s.enabled {
            match entry_of(s.options, "style"@) {
                Some(SValue::Text(t)) => if spec_parse_style(t) is None {
                    before.push(unsupported_style(rs.last().0@, t))
                } else {
                    before
                },
                _ => before,
            }
        } else {
            before
        }
    }
}

/// Whether a library clause may stand directly above another: `library_003` (the last of `rs`
/// with that id that is enabled) has `allow_library_clause` set to `yes`.
pub open spec fn library_clause(
    st: SLayers,
    table: Seq<(Seq<char>, SDefaults)>,
    rs: Seq<(&'static str, Option<Style>, bool)>,
) -> bool
    decreases rs.len(),
{
    if rs.len() == 0 {
        false
    } else {
        let s = blank_rule_settings(st, table, rs.last());
        if s.enabled && rs.last().0@ == "library_003"@ {
            entry_of(s.options, "allow_library_clause"@) == Some(SValue::Text("yes"@))
        } else {
            library_clause(st, table, rs.drop_last())
        }
    }
}

/// The most consecutive blank lines: `whitespace_200`'s `blank_lines_allowed` (1 unless set),
/// or 255 when that rule is disabled.
pub open spec fn spec_max_blank_lines(st: SLayers, table: Seq<(Seq<char>, SDefaults)>) -> int {
    let limit = spec_rule(
        st,
        "whitespace_200"@,
        seq!["whitespace"@],
        true,
        Severity::Error,
        fixable_in(entry_of(table, "whitespace_200"@)),
    );
    if limit.enabled {
        match entry_of(limit.options, "blank_lines_allowed"@) {
            Some(SValue::Unsigned(n)) => if n <= usize::MAX {
                n as int
            } else {
                1
            },
            _ => 1,
        }
    } else {
        255
    }
}

/// Whether the pragma rule `id` is enabled.
pub open spec fn pragma_on(st: SLayers, table: Seq<(Seq<char>, SDefaults)>, id: Seq<char>) -> bool {
    spec_rule(st, id, seq!["blank_line"@], true, Severity::Error, fixable_in(entry_of(table, id))).enabled
}

/// Whether some pragma rule (`pragma_400` to `pragma_403`) is enabled.
pub open spec fn pragmas_enabled(st: SLayers, table: Seq<(Seq<char>, SDefaults)>) -> bool {
    pragma_on(st, table, "pragma_400"@) || pragma_on(st, table, "pragma_401"@) || pragma_on(
        st,
        table,
        "pragma_402"@,
    ) || pragma_on(st, table, "pragma_403"@)
}

/// The configured pragma patterns (open, close), as text.
pub open spec fn patterns_view(p: Option<(&[&str], &[&str])>) -> Option<(Seq<Seq<char>>, Seq<Seq<char>>)> {
    match p {
        Some((o, c)) => Some((crate::blank::strs_view(o@), crate::blank::strs_view(c@))),
        None => None,
    }
}

/// The patterns that open pragma regions: the configured ones, or the default ones.
pub open spec fn open_patterns(p: Option<(Seq<Seq<char>>, Seq<Seq<char>>)>) -> Seq<Seq<char>> {
    match p {
        Some((o, _)) => o,
        None => default_open_patterns(),
    }
}

/// The patterns that close pragma regions: the configured ones, or the default ones.
pub open spec fn close_patterns(p: Option<(Seq<Seq<char>>, Seq<Seq<char>>)>) -> Seq<Seq<char>> {
    match p {
        Some((_, c)) => c,
        None => default_close_patterns(),
    }
}

/// The warning for rule `id`, whose `style` is `text`.
fn unsupported_style_text(id: &str, text: &str) -> (r: String)
    ensures
        r@ == unsupported_style(id@, text@),
{
    let mut m = String::from_str(id);
    m.append(": unsupported style `");
    m.append(text);
    m.append("`");
    proof {
        reveal_strlit(": unsupported style `");
        reveal_strlit("`");
    }
    m
}

impl RuleLayers {
    /// Whether `rule`, a formatter rule in group `blank_line`, is enabled.
    fn pragma_rule_on(&self, id: &'static str, table: &Vec<(String, RuleDefaults)>) -> (r: bool)
        ensures
            r == pragma_on(layers_view(*self), table_view(table@), id@),
    {
        let info = formatter_rule(id);
        assert(strs_view(info.groups@) =~= seq!["blank_line"@]);
        self.rule(&info, defaults_for(table, id)).enabled
    }

    /// The blank-line settings: each enabled blank-line rule with its `style` option (its
    /// default style when the option is missing or names no style, with a warning in the
    /// latter case), `library_003`'s `allow_library_clause`, the most blank lines that
    /// `whitespace_200` allows (255 when it is disabled), and the pragma patterns (`patterns`,
    /// or the default ones) when a pragma rule is enabled. `table` holds the rules' defaults.
    /// Returns the settings and the warnings.
    pub fn resolve_blank_lines(
        &self,
        table: &Vec<(String, RuleDefaults)>,
        patterns: Option<(&[&str], &[&str])>,
    ) -> (r: (BlankSettings, Vec<String>))
        ensures
            r.0.rules@ == blank_styles(layers_view(*self), table_view(table@), spec_blank_rules()),
            r.0.allow_library_clause == library_clause(
                layers_view(*self),
                table_view(table@),
                spec_blank_rules(),
            ),
            r.0.max_blank_lines == spec_max_blank_lines(layers_view(*self), table_view(table@)),
            match r.0.pragmas {
                Some(p) => pragmas_enabled(layers_view(*self), table_view(table@))
                    && crate::blank::texts_view(p.open@) == compiling(open_patterns(patterns_view(patterns)))
                    && crate::blank::texts_view(p.close@) == compiling(close_patterns(patterns_view(patterns))),
                None => !pragmas_enabled(layers_view(*self), table_view(table@)),
            },
            strings_of(r.1@) == blank_warnings(layers_view(*self), table_view(table@), spec_blank_rules()),
    {
        let ghost st = layers_view(*self);
        let ghost tv = table_view(table@);
        let ghost rs = spec_blank_rules();
        let mut blank = BlankSettings::preserve();
        let mut warnings: Vec<String> = Vec::new();
        let rules = crate::blank::rules();
        proof {
            reveal_strlit("style");
            reveal_strlit("library_003");
            reveal_strlit("allow_library_clause");
            reveal_strlit("yes");
        }
        let mut i: usize = 0;
        assert(rs.take(0) =~= Seq::<(&'static str, Option<Style>, bool)>::empty());
        assert(blank.rules@ =~= Seq::<(&'static str, Option<Style>)>::empty());
        assert(strings_of(warnings@) =~= Seq::<Seq<char>>::empty());
        while i < rules.len()
            invariant
                0 <= i <= rules@.len(),
                rules@.len() == rs.len(),
                rs == spec_blank_rules(),
                st == layers_view(*self),
                tv == table_view(table@),
                forall|j: int|
                    0 <= j < rules@.len() ==> (#[trigger] rules@[j]).info.id == rs[j].0 && rules@[j].style == rs[j].1
                        && rules@[j].info.enabled_by_default == rs[j].2 && rules@[j].info.severity
                        == Severity::Error && rules@[j].info.groups@ == seq!["blank_line"],
                blank.rules@ == blank_styles(st, tv, rs.take(i as int)),
                blank.allow_library_clause == library_clause(st, tv, rs.take(i as int)),
                blank.pragmas is None,
                strings_of(warnings@) == blank_warnings(st, tv, rs.take(i as int)),
            decreases rules@.len() - i,
        {
            let rule = &rules[i];
            assert(rs.take(i + 1).drop_last() =~= rs.take(i as int));
            assert(rs.take(i + 1).last() == rs[i as int]);
            assert(strs_view(rule.info.groups@) =~= seq!["blank_line"@]);
            let settings = self.rule(&rule.info, defaults_for(table, rule.info.id));
            assert(settings_view(settings) == blank_rule_settings(st, tv, rs[i as int]));
            if settings.enabled {
                let ghost w0 = warnings@;
                let style = match settings.option_str("style") {
                    Some(text) => match Style::parse(text) {
                        Some(s) => Some(s),
                        None => {
                            warnings.push(unsupported_style_text(rule.info.id, text));
                            assert(strings_of(warnings@) =~= strings_of(w0).push(
                                unsupported_style(rs[i as int].0@, text@),
                            ));
                            rule.style
                        },
                    },
                    None => rule.style,
                };
                if str_eq(rule.info.id, "library_003") {
                    blank.allow_library_clause = match settings.option_str("allow_library_clause") {
                        Some(v) => str_eq(v, "yes"),
                        None => false,
                    };
                }
                blank.rules.push((rule.info.id, style));
            }
            i = i + 1;
        }
        assert(rs.take(i as int) =~= rs);
        let limit_info = RuleInfo::formatter(
            "whitespace_200",
            &["whitespace"],
            true,
            "Blank line policy (applied by the formatter).",
        );
        proof {
            reveal_strlit("whitespace");
            reveal_strlit("whitespace_200");
            reveal_strlit("blank_lines_allowed");
            assert(strs_view(limit_info.groups@) =~= seq!["whitespace"@]);
        }
        let limit = self.rule(&limit_info, defaults_for(table, "whitespace_200"));
        blank.max_blank_lines = if limit.enabled {
            match limit.option_usize("blank_lines_allowed") {
                Some(n) => n,
                None => 1,
            }
        } else {
            255
        };
        let on = self.pragma_rule_on("pragma_400", table) || self.pragma_rule_on("pragma_401", table)
            || self.pragma_rule_on("pragma_402", table) || self.pragma_rule_on("pragma_403", table);
        proof {
            reveal_strlit("pragma_400");
            reveal_strlit("pragma_401");
            reveal_strlit("pragma_402");
            reveal_strlit("pragma_403");
        }
        if on {
            blank.pragmas = Some(
                match patterns {
                    Some((open, close)) => Pragmas::new(open, close),
                    None => Pragmas::default(),
                },
            );
        }
        (blank, warnings)
    }
}

// Spacing settings -------------------------------------------------------------------------------

/// A construct whose closing parenthesis can stay on its last element's line.
#[derive(Debug, Clone, Copy, PartialEq, Eq, Structural)]
pub enum ParenConstruct {
    GenericClause,
    PortClause,
    GenericMapAspect,
    PortMapAspect,
}

/// The spacing settings that the configuration gives without a table of token pairs: spaces
/// before and after the port modes `in`, `out` and `inout`, the constructs whose `)` stays on
/// the last element's line, the spaces before a trailing comment, and whether continuation
/// lines are indented rather than aligned.
#[derive(Debug)]
pub struct SpacingSettings {
    pub mode_spacing: Vec<(usize, usize)>,
    pub close_paren_same_line: Vec<ParenConstruct>,
    pub comment_spaces: usize,
    pub indent_continuations: bool,
}

/// A number option: an unsigned integer, or a text that reads as one, that fits in a `usize`.
pub open spec fn number_option(o: Seq<(Seq<char>, SValue)>, key: Seq<char>) -> Option<int> {
    let n = match entry_of(o, key) {
        Some(SValue::Unsigned(n)) => Some(n as int),
        Some(SValue::Text(t)) => spec_parse_u64(trimmed(t)),
        _ => None,
    };
    match n {
        Some(v) => if v <= usize::MAX {
            Some(v)
        } else {
            None
        },
        None => None,
    }
}

/// The settings of rule `id` when it is known and enabled.
pub open spec fn enabled_rule(st: SLayers, table: Seq<(Seq<char>, SDefaults)>, id: Seq<char>) -> Option<SSettings> {
    match spec_rule_by_id(st, id, entry_of(table, id)) {
        Some(s) => if s.enabled {
            Some(s)
        } else {
            None
        },
        None => None,
    }
}

pub open spec fn at_least_one(n: int) -> int {
    if n < 1 {
        1
    } else {
        n
    }
}

/// The spaces before and after a port mode: rule `id`'s `spaces_before` and `spaces_after`
/// (at least one each) over the defaults `before` and `after`, when the rule is enabled.
pub open spec fn mode_pair(st: SLayers, table: Seq<(Seq<char>, SDefaults)>, id: Seq<char>, before: int, after: int) -> (int, int) {
    match enabled_rule(st, table, id) {
        Some(s) => (
            at_least_one(
                match number_option(s.options, "spaces_before"@) {
                    Some(n) => n,
                    None => before,
                },
            ),
            at_least_one(
                match number_option(s.options, "spaces_after"@) {
                    Some(n) => n,
                    None => after,
                },
            ),
        ),
        None => (before, after),
    }
}

/// Whether option `key` of `s` is the text `value`.
pub open spec fn text_option_is(s: SSettings, key: Seq<char>, value: Seq<char>) -> bool {
    entry_of(s.options, key) == Some(SValue::Text(value))
}

/// Whether rule `id` is enabled with `action: same_line`.
pub open spec fn same_line(st: SLayers, table: Seq<(Seq<char>, SDefaults)>, id: Seq<char>) -> bool {
    match enabled_rule(st, table, id) {
        Some(s) => text_option_is(s, "action"@, "same_line"@),
        None => false,
    }
}

/// The constructs of `cs` whose rule keeps the `)` on the last element's line, in order.
pub open spec fn same_line_constructs(
    st: SLayers,
    table: Seq<(Seq<char>, SDefaults)>,
    cs: Seq<(Seq<char>, ParenConstruct)>,
) -> Seq<ParenConstruct>
    decreases cs.len(),
{
    if cs.len() == 0 {
        Seq::empty()
    } else {
        let before = same_line_constructs(st, table, cs.drop_last());
        if same_line(st, table, cs.last().0) {
            before.push(cs.last().1)
        } else {
            before
        }
    }
}

/// The rules that keep a construct's `)` on its last element's line.
pub open spec fn paren_rules() -> Seq<(Seq<char>, ParenConstruct)> {
    seq![
        ("generic_010"@, ParenConstruct::GenericClause),
        ("port_014"@, ParenConstruct::PortClause),
        ("generic_map_004"@, ParenConstruct::GenericMapAspect),
        ("port_map_004"@, ParenConstruct::PortMapAspect),
    ]
}

/// `t` without a leading `>=`.
pub open spec fn without_at_least(t: Seq<char>) -> Seq<char> {
    if t.len() >= 2 && t[0] == '>' && t[1] == '=' {
        t.skip(2)
    } else {
        t
    }
}

/// The spaces before a trailing comment: `comment_004`'s `number_of_spaces` (a number, or a
/// text such as `2` or `>=2`, whose number is taken as the least), at least one; one when the
/// rule is disabled or the option reads as no number.
pub open spec fn spec_comment_spaces(st: SLayers, table: Seq<(Seq<char>, SDefaults)>) -> int {
    match enabled_rule(st, table, "comment_004"@) {
        Some(s) => match entry_of(s.options, "number_of_spaces"@) {
            Some(SValue::Text(t)) => match spec_parse_u64(trimmed(without_at_least(trimmed(t)))) {
                Some(n) => if n <= usize::MAX {
                    at_least_one(n)
                } else {
                    1
                },
                None => 1,
            },
            Some(SValue::Unsigned(n)) => if n <= usize::MAX {
                at_least_one(n as int)
            } else {
                1
            },
            _ => 1,
        },
        None => 1,
    }
}

/// Whether rule `id` is enabled with `align_left: yes` and `align_paren: no`.
pub open spec fn indents_continuations(st: SLayers, table: Seq<(Seq<char>, SDefaults)>, id: Seq<char>) -> bool {
    match enabled_rule(st, table, id) {
        Some(s) => text_option_is(s, "align_left"@, "yes"@) && text_option_is(s, "align_paren"@, "no"@),
        None => false,
    }
}

impl RuleLayers {
    /// The settings of rule `id` when it is known and enabled.
    fn enabled_rule(&self, id: &str, table: &Vec<(String, RuleDefaults)>) -> (r: Option<RuleSettings>)
        ensures
            match r {
                Some(s) => enabled_rule(layers_view(*self), table_view(table@), id@) == Some(settings_view(s)),
                None => enabled_rule(layers_view(*self), table_view(table@), id@) is None,
            },
    {
        match self.rule_by_id(id, defaults_for(table, id)) {
            Some(s) => if s.enabled {
                Some(s)
            } else {
                None
            },
            None => None,
        }
    }

    /// Whether option `key` of `s` is the text `value`.
    fn text_option_is(s: &RuleSettings, key: &str, value: &str) -> (r: bool)
        ensures
            r == text_option_is(settings_view(*s), key@, value@),
    {
        match s.option_str(key) {
            Some(t) => str_eq(t, value),
            None => false,
        }
    }

    /// A number option of `s`.
    fn number_option(s: &RuleSettings, key: &str) -> (r: Option<usize>)
        ensures
            match r {
                Some(n) => number_option(s.spec_options(), key@) == Some(n as int),
                None => number_option(s.spec_options(), key@) is None,
            },
    {
        let n: Option<u64> = match s.option_usize(key) {
            Some(n) => {
                return Some(n);
            },
            None => match s.option_str(key) {
                Some(t) => {
                    let v = chars_of(t);
                    let (a, b) = trim_range(&v, 0, v.len());
                    assert(v@.subrange(0, v@.len() as int) =~= v@);
                    parse_u64(&v, a, b)
                },
                None => None,
            },
        };
        match n {
            Some(v) => if v <= usize::MAX as u64 {
                Some(v as usize)
            } else {
                None
            },
            None => None,
        }
    }

    /// The spaces before and after a port mode for rule `id`.
    fn mode_pair(&self, id: &str, table: &Vec<(String, RuleDefaults)>, before: usize, after: usize) -> (r: (usize, usize))
        ensures
            (r.0 as int, r.1 as int) == mode_pair(layers_view(*self), table_view(table@), id@, before as int, after as int),
    {
        proof {
            reveal_strlit("spaces_before");
            reveal_strlit("spaces_after");
        }
        match self.enabled_rule(id, table) {
            Some(s) => {
                let b = match Self::number_option(&s, "spaces_before") {
                    Some(n) => n,
                    None => before,
                };
                let a = match Self::number_option(&s, "spaces_after") {
                    Some(n) => n,
                    None => after,
                };
                (if b < 1 { 1 } else { b }, if a < 1 { 1 } else { a })
            },
            None => (before, after),
        }
    }

    /// Whether rule `id` is enabled with `action: same_line`.
    fn same_line(&self, id: &str, table: &Vec<(String, RuleDefaults)>) -> (r: bool)
        ensures
            r == same_line(layers_view(*self), table_view(table@), id@),
    {
        proof {
            reveal_strlit("action");
            reveal_strlit("same_line");
        }
        match self.enabled_rule(id, table) {
            Some(s) => Self::text_option_is(&s, "action", "same_line"),
            None => false,
        }
    }

    /// Whether rule `id` is enabled with `align_left: yes` and `align_paren: no`.
    fn indents_continuations(&self, id: &str, table: &Vec<(String, RuleDefaults)>) -> (r: bool)
        ensures
            r == indents_continuations(layers_view(*self), table_view(table@), id@),
    {
        proof {
            reveal_strlit("align_left");
            reveal_strlit("align_paren");
            reveal_strlit("yes");
            reveal_strlit("no");
        }
        match self.enabled_rule(id, table) {
            Some(s) => Self::text_option_is(&s, "align_left", "yes") && Self::text_option_is(&s, "align_paren", "no"),
            None => false,
        }
    }

    /// The spaces before a trailing comment (`comment_004`).
    fn comment_spaces(&self, table: &Vec<(String, RuleDefaults)>) -> (r: usize)
        ensures
            r as int == spec_comment_spaces(layers_view(*self), table_view(table@)),
    {
        proof {
            reveal_strlit("comment_004");
            reveal_strlit("number_of_spaces");
        }
        match self.enabled_rule("comment_004", table) {
            Some(s) => match s.option_str("number_of_spaces") {
                Some(t) => {
                    let v = chars_of(t);
                    let (a, b) = trim_range(&v, 0, v.len());
                    assert(v@.subrange(0, v@.len() as int) =~= v@);
                    let a2 = if b - a >= 2 && v[a] == '>' && v[a + 1] == '=' {
                        a + 2
                    } else {
                        a
                    };
                    let (c, d) = trim_range(&v, a2, b);
                    proof {
                        let tt = v@.subrange(a as int, b as int);
                        assert(v@.subrange(a2 as int, b as int) =~= without_at_least(tt));
                    }
                    match parse_u64(&v, c, d) {
                        Some(n) => if n <= usize::MAX as u64 {
                            if n < 1 {
                                1
                            } else {
                                n as usize
                            }
                        } else {
                            1
                        },
                        None => 1,
                    }
                },
                None => match s.option_usize("number_of_spaces") {
                    Some(n) => if n < 1 {
                        1
                    } else {
                        n
                    },
                    None => 1,
                },
            },
            None => 1,
        }
    }

    /// The spacing settings: the spaces around the port modes (`port_007` to `port_009`, one
    /// before and four, three and one after unless configured), the constructs whose `)` stays
    /// on the last element's line (`generic_010`, `port_014`, `generic_map_004`,
    /// `port_map_004` with `action: same_line`), the spaces before a trailing comment
    /// (`comment_004`) and whether continuation lines are indented (`concurrent_003` or
    /// `sequential_004` with `align_left: yes` and `align_paren: no`). `table` holds the
    /// rules' defaults.
    pub fn resolve_spacing(&self, table: &Vec<(String, RuleDefaults)>) -> (r: SpacingSettings)
        ensures
            r.mode_spacing@.len() == 3,
            (r.mode_spacing@[0].0 as int, r.mode_spacing@[0].1 as int) == mode_pair(
                layers_view(*self),
                table_view(table@),
                "port_007"@,
                1,
                4,
            ),
            (r.mode_spacing@[1].0 as int, r.mode_spacing@[1].1 as int) == mode_pair(
                layers_view(*self),
                table_view(table@),
                "port_008"@,
                1,
                3,
            ),
            (r.mode_spacing@[2].0 as int, r.mode_spacing@[2].1 as int) == mode_pair(
                layers_view(*self),
                table_view(table@),
                "port_009"@,
                1,
                1,
            ),
            r.close_paren_same_line@ == same_line_constructs(layers_view(*self), table_view(table@), paren_rules()),
            r.comment_spaces as int == spec_comment_spaces(layers_view(*self), table_view(table@)),
            r.indent_continuations == (indents_continuations(
                layers_view(*self),
                table_view(table@),
                "concurrent_003"@,
            ) || indents_continuations(layers_view(*self), table_view(table@), "sequential_004"@)),
    {
        let ghost st = layers_view(*self);
        let ghost tv = table_view(table@);
        let mut mode_spacing: Vec<(usize, usize)> = Vec::new();
        mode_spacing.push(self.mode_pair("port_007", table, 1, 4));
        mode_spacing.push(self.mode_pair("port_008", table, 1, 3));
        mode_spacing.push(self.mode_pair("port_009", table, 1, 1));
        let mut close: Vec<ParenConstruct> = Vec::new();
        proof {
            reveal_strlit("generic_010");
            reveal_strlit("port_014");
            reveal_strlit("generic_map_004");
            reveal_strlit("port_map_004");
            let cs = paren_rules();
            assert(cs.take(0) =~= Seq::<(Seq<char>, ParenConstruct)>::empty());
            assert(cs.take(1).drop_last() =~= cs.take(0));
            assert(cs.take(2).drop_last() =~= cs.take(1));
            assert(cs.take(3).drop_last() =~= cs.take(2));
            assert(cs.take(4).drop_last() =~= cs.take(3));
            assert(cs.take(4) =~= cs);
            assert(cs.take(1).last() == cs[0] && cs.take(2).last() == cs[1] && cs.take(3).last() == cs[2]
                && cs.take(4).last() == cs[3]);
            assert(same_line_constructs(st, tv, cs.take(0)) =~= Seq::<ParenConstruct>::empty());
        }
        if self.same_line("generic_010", table) {
            close.push(ParenConstruct::GenericClause);
        }
        assert(close@ =~= same_line_constructs(st, tv, paren_rules().take(1)));
        if self.same_line("port_014", table) {
            close.push(ParenConstruct::PortClause);
        }
        assert(close@ =~= same_line_constructs(st, tv, paren_rules().take(2)));
        if self.same_line("generic_map_004", table) {
            close.push(ParenConstruct::GenericMapAspect);
        }
        assert(close@ =~= same_line_constructs(st, tv, paren_rules().take(3)));
        if self.same_line("port_map_004", table) {
            close.push(ParenConstruct::PortMapAspect);
        }
        assert(close@ =~= same_line_constructs(st, tv, paren_rules().take(4)));
        let comment_spaces = self.comment_spaces(table);
        let indent_continuations = self.indents_continuations("concurrent_003", table)
            || self.indents_continuations("sequential_004", table);
        SpacingSettings { mode_spacing, close_paren_same_line: close, comment_spaces, indent_continuations }
    }
}

} // verus!
