//! Telling testbench code from synthesisable code, so that each can be given its own rules.
//!
//! A latch or a second driver means nothing in a testbench: it drives a signal from two places
//! on purpose and holds values between `wait`s by design. Rules about *code* — unused
//! declarations, sensitivity lists, types — still apply. Rather than guess which is which,
//! the file is classified and the `rtl:` or `testbench:` rule block of the configuration
//! applies; what those blocks contain is the project's decision.
//!
//! Three ways to decide, most authoritative first: `vsg_rs: testbench_files` (globs naming the
//! testbenches, see [`matches`]), `vsg_rs: testbench_libraries`, a `-- vsg-rs: testbench`
//! directive near the top of a file; otherwise the shape of the code and, last, the conventions
//! of names (see [`named_like_a_testbench`]).
use vstd::prelude::*;
use vstd::string::StringSliceAdditionalSpecFns;

use crate::bytes::bytes_eq;
use crate::config::{glob, spec_glob};

verus! {

/// Where the last segment of a `/`-separated path starts: just after its last `/`, or 0.
pub open spec fn name_start(t: Seq<u8>) -> int
    decreases t.len(),
{
    if t.len() == 0 {
        0
    } else if t.last() == 47u8 {
        t.len() as int
    } else {
        name_start(t.drop_last())
    }
}

proof fn lemma_name_start(t: Seq<u8>)
    ensures
        0 <= name_start(t) <= t.len(),
        forall|k: int| name_start(t) <= k < t.len() ==> t[k] != 47u8,
    decreases t.len(),
{
    if t.len() > 0 && t.last() != 47u8 {
        lemma_name_start(t.drop_last());
        assert forall|k: int| name_start(t) <= k < t.len() implies t[k] != 47u8 by {
            if k < t.len() - 1 {
                assert(t.drop_last()[k] == t[k]);
            }
        }
    }
}

/// Where the last segment of `t` starts.
fn last_segment_start(t: &[u8]) -> (r: usize)
    ensures
        r == name_start(t@),
{
    let mut i = t.len();
    assert(t@.take(i as int) =~= t@);
    while i > 0
        invariant
            0 <= i <= t@.len(),
            forall|k: int| i <= k < t@.len() ==> t@[k] != 47u8,
            name_start(t@) == name_start(t@.take(i as int)),
        decreases i,
    {
        if t[i - 1] == 47u8 {
            assert(t@.take(i as int).last() == 47u8);
            return i;
        }
        assert(t@.take(i as int).drop_last() =~= t@.take(i - 1));
        i = i - 1;
    }
    0
}

/// `p` without its leading `./` prefixes.
pub open spec fn trim_dot_slash(p: Seq<u8>) -> Seq<u8>
    decreases p.len(),
{
    if p.len() >= 2 && p[0] == 46u8 && p[1] == 47u8 {
        trim_dot_slash(p.skip(2))
    } else {
        p
    }
}

/// Whether `path` matches a `testbench_files` pattern: a pattern without `/` is about the file
/// name, one with `/` about the path, from the root or from any directory below it.
pub open spec fn spec_matches(pattern: Seq<u8>, path: Seq<u8>) -> bool {
    if !pattern.contains(47u8) {
        spec_glob(pattern, path.skip(name_start(path)))
    } else {
        spec_glob(pattern, path) || spec_glob(seq![42u8, 42u8, 47u8] + trim_dot_slash(pattern), path)
    }
}

/// Match a path against one `testbench_files` pattern. A pattern with no `/` is about the file
/// name wherever it lives (`tb_*.vhd`), one with a `/` is about the path (`test/**`, and a
/// relative pattern also matches deeper, so `test/**` covers `modules/fifo/test/tb.vhd`).
pub fn matches(pattern: &str, path: &str) -> (r: bool)
    ensures
        r == spec_matches(pattern.spec_bytes(), path.spec_bytes()),
{
    matches_bytes(pattern.as_bytes(), path.as_bytes())
}

/// [`matches`], on the bytes of the pattern and the path.
pub(crate) fn matches_bytes(p: &[u8], t: &[u8]) -> (r: bool)
    ensures
        r == spec_matches(p@, t@),
{
    if !crate::bytes::contains_byte(p, 47u8) {
        let start = last_segment_start(t);
        proof {
            lemma_name_start(t@);
        }
        let name = vstd::slice::slice_subrange(t, start, t.len());
        assert(name@ =~= t@.skip(start as int));
        return glob(p, name);
    }
    if glob(p, t) {
        return true;
    }
    // `**/` in front of the pattern without its leading `./`.
    let mut from: usize = 0;
    assert(p@.skip(0) =~= p@);
    while p.len() - from >= 2 && p[from] == 46u8 && p[from + 1] == 47u8
        invariant
            0 <= from <= p@.len(),
            trim_dot_slash(p@) == trim_dot_slash(p@.skip(from as int)),
        decreases p@.len() - from,
    {
        assert(p@.skip(from as int).skip(2) =~= p@.skip(from + 2));
        from = from + 2;
    }
    let mut deep: Vec<u8> = Vec::new();
    deep.push(42u8);
    deep.push(42u8);
    deep.push(47u8);
    crate::bytes::extend_range(&mut deep, p, from, p.len());
    proof {
        assert(p@.skip(from as int) =~= p@.subrange(from as int, p@.len() as int));
        assert(deep@ =~= seq![42u8, 42u8, 47u8] + trim_dot_slash(p@));
    }
    glob(deep.as_slice(), t)
}

/// A path byte as it is compared: `\` read as `/`, ASCII letters in lower case.
pub open spec fn norm(b: u8) -> u8 {
    if b == 92u8 {
        47u8
    } else if 65u8 <= b <= 90u8 {
        (b + 32) as u8
    } else {
        b
    }
}

pub open spec fn normalized(t: Seq<u8>) -> Seq<u8> {
    t.map_values(|b: u8| norm(b))
}

/// Where the first `.` of `t` is, or its length.
pub open spec fn first_dot(t: Seq<u8>) -> int
    decreases t.len(),
{
    if t.len() == 0 {
        0
    } else if t[0] == 46u8 {
        0
    } else {
        1 + first_dot(t.skip(1))
    }
}

/// Where the first `/` of `t` at or after `i` is, or the length of `t`.
pub open spec fn next_slash(t: Seq<u8>, i: int) -> int
    decreases t.len() - i,
{
    if i >= t.len() {
        t.len() as int
    } else if t[i] == 47u8 {
        i
    } else {
        next_slash(t, i + 1)
    }
}

/// Directory and file names that say "testbench" by convention.
pub open spec fn is_tb_word(w: Seq<u8>) -> bool {
    ||| w == seq![116u8, 101u8, 115u8, 116u8]
    ||| w == seq![116u8, 101u8, 115u8, 116u8, 115u8]
    ||| w == seq![116u8, 98u8]
    ||| w == seq![116u8, 101u8, 115u8, 116u8, 98u8, 101u8, 110u8, 99u8, 104u8]
    ||| w == seq![116u8, 101u8, 115u8, 116u8, 98u8, 101u8, 110u8, 99u8, 104u8, 101u8, 115u8]
    ||| w == seq![115u8, 105u8, 109u8]
    ||| w == seq![98u8, 101u8, 110u8, 99u8, 104u8]
    ||| w == seq![118u8, 101u8, 114u8, 105u8, 102u8, 105u8, 99u8, 97u8, 116u8, 105u8, 111u8, 110u8]
}

/// Whether one of the `/`-separated parts of `t` that start at or after `i` (at a part
/// boundary) is a testbench word.
pub open spec fn has_tb_part(t: Seq<u8>, i: int) -> bool
    decreases t.len() - i,
{
    if i < 0 || i > t.len() {
        false
    } else {
        let e = next_slash(t, i);
        proof {
            lemma_next_slash(t, i);
        }
        is_tb_word(t.subrange(i, e)) || (e < t.len() && has_tb_part(t, e + 1))
    }
}

pub proof fn lemma_next_slash(t: Seq<u8>, i: int)
    requires
        0 <= i <= t.len(),
    ensures
        i <= next_slash(t, i) <= t.len(),
        next_slash(t, i) < t.len() ==> t[next_slash(t, i)] == 47u8,
        forall|k: int| i <= k < next_slash(t, i) ==> t[k] != 47u8,
    decreases t.len() - i,
{
    if i < t.len() && t[i] != 47u8 {
        lemma_next_slash(t, i + 1);
    }
}

/// Whether a file name, cut before its first `.`, says testbench: `tb_…` or `…_tb`.
pub open spec fn tb_stem(stem: Seq<u8>) -> bool {
    (stem.len() >= 3 && stem.take(3) == seq![116u8, 98u8, 95u8]) || (stem.len() >= 3 && stem.skip(
        stem.len() - 3,
    ) == seq![95u8, 116u8, 98u8])
}

/// Whether a path says "testbench" by convention: its file name starts with `tb_` or ends with
/// `_tb` before the first `.`, or one of its directories or its file name is `test`, `tests`,
/// `tb`, `testbench`, `testbenches`, `sim`, `bench` or `verification`; compared without case and
/// with `\` read as `/`.
pub open spec fn spec_named_like_a_testbench(path: Seq<u8>) -> bool {
    let text = normalized(path);
    let name = text.skip(name_start(text));
    let stem = name.take(first_dot(name));
    tb_stem(stem) || has_tb_part(text, 0)
}

fn tb_word(w: &[u8]) -> (r: bool)
    ensures
        r == is_tb_word(w@),
{
    let test: [u8; 4] = [116u8, 101, 115, 116];
    let tests: [u8; 5] = [116u8, 101, 115, 116, 115];
    let tb: [u8; 2] = [116u8, 98];
    let testbench: [u8; 9] = [116u8, 101, 115, 116, 98, 101, 110, 99, 104];
    let testbenches: [u8; 11] = [116u8, 101, 115, 116, 98, 101, 110, 99, 104, 101, 115];
    let sim: [u8; 3] = [115u8, 105, 109];
    let bench: [u8; 5] = [98u8, 101, 110, 99, 104];
    let verification: [u8; 12] = [118u8, 101, 114, 105, 102, 105, 99, 97, 116, 105, 111, 110];
    proof {
        assert(test@ =~= seq![116u8, 101u8, 115u8, 116u8]);
        assert(tests@ =~= seq![116u8, 101u8, 115u8, 116u8, 115u8]);
        assert(tb@ =~= seq![116u8, 98u8]);
        assert(testbench@ =~= seq![116u8, 101u8, 115u8, 116u8, 98u8, 101u8, 110u8, 99u8, 104u8]);
        assert(testbenches@ =~= seq![116u8, 101u8, 115u8, 116u8, 98u8, 101u8, 110u8, 99u8, 104u8, 101u8, 115u8]);
        assert(sim@ =~= seq![115u8, 105u8, 109u8]);
        assert(bench@ =~= seq![98u8, 101u8, 110u8, 99u8, 104u8]);
        assert(verification@ =~= seq![118u8, 101u8, 114u8, 105u8, 102u8, 105u8, 99u8, 97u8, 116u8, 105u8, 111u8, 110u8]);
    }
    bytes_eq(w, &test) || bytes_eq(w, &tests) || bytes_eq(w, &tb) || bytes_eq(w, &testbench)
        || bytes_eq(w, &testbenches) || bytes_eq(w, &sim) || bytes_eq(w, &bench) || bytes_eq(
        w,
        &verification,
    )
}

fn norm_byte(b: u8) -> (r: u8)
    ensures
        r == norm(b),
{
    if b == 92u8 {
        47u8
    } else if 65u8 <= b && b <= 90u8 {
        b + 32
    } else {
        b
    }
}

/// `path` compared as [`norm`] reads it.
fn normalize_path(raw: &[u8]) -> (r: Vec<u8>)
    ensures
        r@ == normalized(raw@),
{
    let mut text: Vec<u8> = Vec::new();
    let mut i: usize = 0;
    while i < raw.len()
        invariant
            0 <= i <= raw@.len(),
            text@ == normalized(raw@.take(i as int)),
        decreases raw@.len() - i,
    {
        text.push(norm_byte(raw[i]));
        i = i + 1;
        assert(text@ =~= normalized(raw@.take(i as int)));
    }
    assert(raw@.take(raw@.len() as int) =~= raw@);
    text
}

/// The file name of `t`, cut before its first `.`.
pub open spec fn stem_of(t: Seq<u8>) -> Seq<u8> {
    let name = t.skip(name_start(t));
    name.take(first_dot(name))
}

/// Whether the file name of `t` says testbench.
fn stem_says_testbench(t: &[u8]) -> (r: bool)
    ensures
        r == tb_stem(stem_of(t@)),
{
    let start = last_segment_start(t);
    proof {
        lemma_name_start(t@);
    }
    let name = vstd::slice::slice_subrange(t, start, t.len());
    assert(name@ =~= t@.skip(start as int));
    let mut d: usize = 0;
    assert(name@.skip(0) =~= name@);
    while d < name.len() && name[d] != 46u8
        invariant
            0 <= d <= name@.len(),
            first_dot(name@) == d + first_dot(name@.skip(d as int)),
        decreases name@.len() - d,
    {
        assert(name@.skip(d as int).skip(1) =~= name@.skip(d + 1));
        d = d + 1;
    }
    let stem = vstd::slice::slice_subrange(name, 0, d);
    assert(stem@ =~= name@.take(first_dot(name@)));
    if stem.len() < 3 {
        return false;
    }
    let prefix: [u8; 3] = [116u8, 98, 95];
    let suffix: [u8; 3] = [95u8, 116, 98];
    assert(prefix@ =~= seq![116u8, 98u8, 95u8]);
    assert(suffix@ =~= seq![95u8, 116u8, 98u8]);
    let head = vstd::slice::slice_subrange(stem, 0, 3);
    let tail = vstd::slice::slice_subrange(stem, stem.len() - 3, stem.len());
    assert(head@ =~= stem@.take(3));
    assert(tail@ =~= stem@.skip(stem@.len() - 3));
    bytes_eq(head, &prefix) || bytes_eq(tail, &suffix)
}

/// Whether one of the `/`-separated parts of `t` is a testbench word.
fn parts_say_testbench(t: &[u8]) -> (r: bool)
    ensures
        r == has_tb_part(t@, 0),
{
    let mut s: usize = 0;
    loop
        invariant
            0 <= s <= t@.len(),
            has_tb_part(t@, 0) == has_tb_part(t@, s as int),
        decreases t@.len() - s,
    {
        let mut e = s;
        while e < t.len() && t[e] != 47u8
            invariant
                s <= e <= t@.len(),
                next_slash(t@, s as int) == next_slash(t@, e as int),
            decreases t@.len() - e,
        {
            e = e + 1;
        }
        let part = vstd::slice::slice_subrange(t, s, e);
        proof {
            lemma_next_slash(t@, s as int);
            assert(next_slash(t@, e as int) == e);
        }
        if tb_word(part) {
            return true;
        }
        if e == t.len() {
            return false;
        }
        s = e + 1;
    }
}

/// Directories and file names that say "testbench" by convention.
pub fn named_like_a_testbench(path: &str) -> (r: bool)
    ensures
        r == spec_named_like_a_testbench(path.spec_bytes()),
{
    let text = normalize_path(path.as_bytes());
    stem_says_testbench(text.as_slice()) || parts_say_testbench(text.as_slice())
}


// Classifying a file -----------------------------------------------------------------------------

/// The path the `testbench_files` patterns are matched against: `\` read as `/`, leading `./`
/// dropped.
pub open spec fn pattern_name(path: Seq<u8>) -> Seq<u8> {
    trim_dot_slash(path.map_values(|b: u8| if b == 92u8 { 47u8 } else { b }))
}

/// Whether one of the patterns lists the path.
pub open spec fn listed(patterns: Seq<Seq<char>>, path: Seq<u8>) -> bool {
    exists|i: int|
        0 <= i < patterns.len() && spec_matches(vstd::utf8::encode_utf8(#[trigger] patterns[i]), pattern_name(path))
}

/// Whether the file belongs to one of the test libraries.
pub open spec fn in_test_library(libraries: Seq<Seq<char>>, belongs: Option<Seq<Seq<char>>>) -> bool {
    libraries.len() > 0 && belongs is Some && shares(belongs->0, libraries)
}

/// Whether some name is in both lists.
pub open spec fn shares(a: Seq<Seq<char>>, b: Seq<Seq<char>>) -> bool {
    exists|i: int, j: int| 0 <= i < a.len() && 0 <= j < b.len() && #[trigger] a[i] == #[trigger] b[j]
}

/// Whether the top of the file (its first 2000 bytes, read as text, in lower case) carries the
/// directive.
pub open spec fn marked(source: Seq<u8>) -> bool {
    let n = if source.len() < 2000 {
        source.len() as int
    } else {
        2000
    };
    crate::analysis::design::has_text(
        crate::chars::lowered(crate::lsp::lossy_text(source.take(n))),
        "vsg-rs: testbench"@,
    )
}

/// The names whose presence in the code (comments are not code) shows a verification framework.
pub open spec fn verification_words() -> Seq<Seq<char>> {
    seq!["vunit_lib"@, "osvvm"@, "uvvm_util"@, "runner_cfg"@, "bitvis"@]
}

/// Whether the code uses a verification framework.
pub open spec fn uses_verification_library(root: crate::analysis::syntax::Node) -> bool {
    exists|i: int|
        0 <= i < verification_words().len() && crate::analysis::design::has_text(
            crate::analysis::syntax::spec_text_of(root),
            #[trigger] verification_words()[i],
        )
}

/// Whether the file declares an entity with no ports.
pub open spec fn entity_without_ports(root: crate::analysis::syntax::Node) -> bool {
    let es = crate::analysis::syntax::spec_find(root, crate::analysis::syntax::Kind::EntityDeclaration);
    exists|i: int|
        0 <= i < es.len() && crate::analysis::syntax::spec_find(#[trigger] es[i], crate::analysis::syntax::Kind::PortClause).len() == 0
}

/// Why a file is treated as a testbench, most authoritative reason first, or nothing.
pub open spec fn spec_classify(
    root: crate::analysis::syntax::Node,
    source: Seq<u8>,
    path: Seq<u8>,
    patterns: Seq<Seq<char>>,
    libraries: Seq<Seq<char>>,
    belongs: Option<Seq<Seq<char>>>,
) -> Option<Seq<char>> {
    if listed(patterns, path) {
        Some("listed in `vsg_rs: testbench_files`"@)
    } else if in_test_library(libraries, belongs) {
        Some("in a library listed in `vsg_rs: testbench_libraries`"@)
    } else if marked(source) {
        Some("marked with `-- vsg-rs: testbench`"@)
    } else if uses_verification_library(root) {
        Some("uses a verification library"@)
    } else if entity_without_ports(root) {
        Some("declares an entity with no ports"@)
    } else if spec_named_like_a_testbench(path) {
        Some("named like a testbench"@)
    } else {
        None
    }
}

/// The libraries a file belongs to, as plain values.
pub open spec fn belongs_view(b: Option<Vec<String>>) -> Option<Seq<Seq<char>>> {
    match b {
        Some(ls) => Some(crate::analysis::design::strings_view(ls@)),
        None => None,
    }
}

/// The path the patterns are matched against.
fn name_for_patterns(path: &[u8]) -> (r: Vec<u8>)
    ensures
        r@ == pattern_name(path@),
{
    let mut v: Vec<u8> = Vec::new();
    let mut i: usize = 0;
    let ghost m = path@.map_values(|b: u8| if b == 92u8 { 47u8 } else { b });
    while i < path.len()
        invariant
            0 <= i <= path@.len(),
            m == path@.map_values(|b: u8| if b == 92u8 { 47u8 } else { b }),
            v@ == m.take(i as int),
        decreases path@.len() - i,
    {
        let b = path[i];
        v.push(if b == 92u8 { 47u8 } else { b });
        i = i + 1;
        assert(v@ =~= m.take(i as int));
    }
    assert(m.take(i as int) =~= m);
    let mut from: usize = 0;
    assert(m.skip(0) =~= m);
    while v.len() - from >= 2 && v[from] == 46u8 && v[from + 1] == 47u8
        invariant
            0 <= from <= v@.len(),
            v@ == m,
            trim_dot_slash(m) == trim_dot_slash(m.skip(from as int)),
        decreases v@.len() - from,
    {
        assert(m.skip(from as int).skip(2) =~= m.skip(from + 2));
        from = from + 2;
    }
    proof {
        let t = m.skip(from as int);
        if t.len() >= 2 {
            assert(t[0] == v@[from as int] && t[1] == v@[from + 1]);
        }
    }
    let mut out: Vec<u8> = Vec::new();
    let mut k = from;
    while k < v.len()
        invariant
            from <= k <= v@.len(),
            v@ == m,
            out@ == m.subrange(from as int, k as int),
        decreases v@.len() - k,
    {
        out.push(v[k]);
        k = k + 1;
        assert(out@ =~= m.subrange(from as int, k as int));
    }
    assert(out@ =~= m.skip(from as int));
    out
}

/// Why a file is treated as a testbench, or `None` when it is synthesisable code. `path` is the
/// file's path as given; `belongs_to` the libraries the project's library map puts it in, if
/// it has one.
pub fn classify(
    root: &crate::analysis::syntax::Node,
    source: &[u8],
    path: &str,
    patterns: &Vec<String>,
    libraries: &Vec<String>,
    belongs_to: &Option<Vec<String>>,
) -> (r: Option<&'static str>)
    ensures
        match r {
            Some(why) => spec_classify(
                *root,
                source@,
                path.spec_bytes(),
                crate::analysis::design::strings_view(patterns@),
                crate::analysis::design::strings_view(libraries@),
                belongs_view(*belongs_to),
            ) == Some(why@),
            None => spec_classify(
                *root,
                source@,
                path.spec_bytes(),
                crate::analysis::design::strings_view(patterns@),
                crate::analysis::design::strings_view(libraries@),
                belongs_view(*belongs_to),
            ) is None,
        },
{
    let ghost pv = crate::analysis::design::strings_view(patterns@);
    let ghost lv = crate::analysis::design::strings_view(libraries@);
    let name = name_for_patterns(path.as_bytes());
    let mut i: usize = 0;
    while i < patterns.len()
        invariant
            0 <= i <= patterns@.len(),
            pv == crate::analysis::design::strings_view(patterns@),
            name@ == pattern_name(path.spec_bytes()),
            forall|j: int| 0 <= j < i ==> !spec_matches(vstd::utf8::encode_utf8(#[trigger] pv[j]), pattern_name(path.spec_bytes())),
        decreases patterns@.len() - i,
    {
        assert(pv[i as int] == patterns@[i as int]@);
        if matches_bytes(patterns[i].as_str().as_bytes(), name.as_slice()) {
            proof {
                reveal_strlit("listed in `vsg_rs: testbench_files`");
            }
            return Some("listed in `vsg_rs: testbench_files`");
        }
        i = i + 1;
    }
    assert(!listed(pv, path.spec_bytes()));
    if libraries.len() > 0 {
        if let Some(ls) = belongs_to {
            let ghost bv = crate::analysis::design::strings_view(ls@);
            let ghost bview = belongs_view(*belongs_to);
            assert(bview == Some(bv));
            let mut a: usize = 0;
            while a < ls.len()
                invariant
                    0 <= a <= ls@.len(),
                    bview == Some(bv),
                    bview == belongs_view(*belongs_to),
                    lv.len() > 0,
                    !listed(pv, path.spec_bytes()),
                    pv == crate::analysis::design::strings_view(patterns@),
                    bv == crate::analysis::design::strings_view(ls@),
                    lv == crate::analysis::design::strings_view(libraries@),
                    forall|x: int, y: int| 0 <= x < a && 0 <= y < lv.len() ==> #[trigger] bv[x] != #[trigger] lv[y],
                decreases ls@.len() - a,
            {
                let mut b: usize = 0;
                while b < libraries.len()
                    invariant
                        0 <= b <= libraries@.len(),
                        a < ls@.len(),
                        bview == Some(bv),
                        bview == belongs_view(*belongs_to),
                        lv.len() > 0,
                        !listed(pv, path.spec_bytes()),
                        pv == crate::analysis::design::strings_view(patterns@),
                        bv == crate::analysis::design::strings_view(ls@),
                        lv == crate::analysis::design::strings_view(libraries@),
                        forall|x: int, y: int| 0 <= x < a && 0 <= y < lv.len() ==> #[trigger] bv[x] != #[trigger] lv[y],
                        forall|y: int| 0 <= y < b ==> bv[a as int] != #[trigger] lv[y],
                    decreases libraries@.len() - b,
                {
                    assert(bv[a as int] == ls@[a as int]@ && lv[b as int] == libraries@[b as int]@);
                    if crate::bytes::str_eq(libraries[b].as_str(), ls[a].as_str()) {
                        proof {
                            reveal_strlit("in a library listed in `vsg_rs: testbench_libraries`");
                            assert(bv[a as int] == lv[b as int]);
                            assert(shares(bv, lv));
                            assert(in_test_library(lv, belongs_view(*belongs_to)));
                        }
                        let why: &'static str = "in a library listed in `vsg_rs: testbench_libraries`";
            proof {
                reveal_strlit("in a library listed in `vsg_rs: testbench_libraries`");
                assert(spec_classify(*root, source@, path.spec_bytes(), pv, lv, belongs_view(*belongs_to)) == Some(why@));
            }
            return Some(why);
                    }
                    b = b + 1;
                }
                a = a + 1;
            }
            assert(bview == Some(bv));
        }
    }
    assert(!in_test_library(lv, belongs_view(*belongs_to)));
    let n: usize = if source.len() < 2000 {
        source.len()
    } else {
        2000
    };
    let head = vstd::slice::slice_subrange(source, 0, n);
    assert(head@ =~= source@.take(n as int));
    let text = crate::lsp::utf8_lossy(head);
    let low = crate::chars::lower_all(&crate::chars::chars_of(text.as_str()));
    if crate::analysis::design::contains_text(&low, "vsg-rs: testbench") {
        proof {
            reveal_strlit("marked with `-- vsg-rs: testbench`");
        }
        return Some("marked with `-- vsg-rs: testbench`");
    }
    assert(!marked(source@));
    let code = crate::analysis::syntax::text_of(root);
    let words = vec!["vunit_lib", "osvvm", "uvvm_util", "runner_cfg", "bitvis"];
    proof {
        reveal_strlit("vunit_lib");
        reveal_strlit("osvvm");
        reveal_strlit("uvvm_util");
        reveal_strlit("runner_cfg");
        reveal_strlit("bitvis");
        assert(words@.map_values(|w: &str| w@) =~= verification_words());
    }
    let mut w: usize = 0;
    while w < words.len()
        invariant
            0 <= w <= words@.len(),
            words@.map_values(|x: &str| x@) == verification_words(),
            code@ == crate::analysis::syntax::spec_text_of(*root),
            !listed(pv, path.spec_bytes()),
            !in_test_library(lv, belongs_view(*belongs_to)),
            !marked(source@),
            pv == crate::analysis::design::strings_view(patterns@),
            lv == crate::analysis::design::strings_view(libraries@),
            forall|j: int| 0 <= j < w ==> !crate::analysis::design::has_text(code@, #[trigger] verification_words()[j]),
        decreases words@.len() - w,
    {
        assert(verification_words()[w as int] == words@[w as int]@);
        if crate::analysis::design::contains_text(&code, words[w]) {
            proof {
                reveal_strlit("uses a verification library");
                assert(crate::analysis::design::has_text(crate::analysis::syntax::spec_text_of(*root), verification_words()[w as int]));
                assert(uses_verification_library(*root));
            }
            let why: &'static str = "uses a verification library";
            proof {
                reveal_strlit("uses a verification library");
                assert(spec_classify(*root, source@, path.spec_bytes(), pv, lv, belongs_view(*belongs_to)) == Some(why@));
            }
            return Some(why);
        }
        w = w + 1;
    }
    assert(!uses_verification_library(*root));
    let entities = crate::analysis::syntax::find(root, crate::analysis::syntax::Kind::EntityDeclaration);
    let ghost ev = crate::analysis::syntax::nodes_of(entities@);
    let mut e: usize = 0;
    while e < entities.len()
        invariant
            0 <= e <= entities@.len(),
            ev == crate::analysis::syntax::nodes_of(entities@),
            ev == crate::analysis::syntax::spec_find(*root, crate::analysis::syntax::Kind::EntityDeclaration),
            !listed(pv, path.spec_bytes()),
            !in_test_library(lv, belongs_view(*belongs_to)),
            !marked(source@),
            !uses_verification_library(*root),
            pv == crate::analysis::design::strings_view(patterns@),
            lv == crate::analysis::design::strings_view(libraries@),
            forall|j: int| 0 <= j < e ==> crate::analysis::syntax::spec_find(#[trigger] ev[j], crate::analysis::syntax::Kind::PortClause).len() != 0,
        decreases entities@.len() - e,
    {
        assert(ev[e as int] == *entities@[e as int]);
        let ports = crate::analysis::syntax::find(entities[e], crate::analysis::syntax::Kind::PortClause);
        if ports.len() == 0 {
            proof {
                reveal_strlit("declares an entity with no ports");
                assert(crate::analysis::syntax::nodes_of(ports@).len() == 0);
                assert(crate::analysis::syntax::spec_find(ev[e as int], crate::analysis::syntax::Kind::PortClause).len() == 0);
                assert(ev == crate::analysis::syntax::spec_find(*root, crate::analysis::syntax::Kind::EntityDeclaration));
                assert(entity_without_ports(*root));
            }
            let why: &'static str = "declares an entity with no ports";
            proof {
                reveal_strlit("declares an entity with no ports");
                assert(spec_classify(*root, source@, path.spec_bytes(), pv, lv, belongs_view(*belongs_to)) == Some(why@));
            }
            return Some(why);
        }
        proof {
            assert(crate::analysis::syntax::nodes_of(ports@).len() == ports@.len());
        }
        e = e + 1;
    }
    assert(!entity_without_ports(*root));
    if named_like_a_testbench(path) {
        proof {
            reveal_strlit("named like a testbench");
        }
        return Some("named like a testbench");
    }
    None
}


proof fn lemma_next_slash_after_word(t: Seq<u8>, j: int, n: int)
    requires
        0 <= j,
        j + n < t.len(),
        0 <= n,
        forall|k: int| j <= k < j + n ==> t[k] != 47u8,
        t[j + n] == 47u8,
    ensures
        next_slash(t, j) == j + n,
    decreases n,
{
    if n > 0 {
        lemma_next_slash_after_word(t, j + 1, n - 1);
    }
}

proof fn lemma_part_reached(t: Seq<u8>, i: int, j: int)
    requires
        0 <= i <= j <= t.len(),
        j == i || t[j - 1] == 47u8,
        is_tb_word(t.subrange(j, next_slash(t, j))),
    ensures
        has_tb_part(t, i),
    decreases j - i,
{
    if i < j {
        lemma_next_slash(t, i);
        let e = next_slash(t, i);
        assert(e <= j - 1) by {
            if e > j - 1 {
                assert(t[j - 1] != 47u8);
            }
        }
        lemma_part_reached(t, e + 1, j);
    }
}

/// A file under a directory named `test`, `tests`, `tb`, `testbench`, `testbenches`, `sim`,
/// `bench` or `verification` is named like a testbench, whatever directories lead to it and
/// whatever the file is called.
pub proof fn law_testbench_directories(dir: Seq<u8>, w: Seq<u8>, file: Seq<u8>)
    requires
        w == seq![116u8, 101u8, 115u8, 116u8] || w == seq![116u8, 101u8, 115u8, 116u8, 115u8] || w == seq![
            116u8,
            98u8,
        ] || w == seq![116u8, 101u8, 115u8, 116u8, 98u8, 101u8, 110u8, 99u8, 104u8] || w == seq![
            116u8,
            101u8,
            115u8,
            116u8,
            98u8,
            101u8,
            110u8,
            99u8,
            104u8,
            101u8,
            115u8,
        ] || w == seq![115u8, 105u8, 109u8] || w == seq![98u8, 101u8, 110u8, 99u8, 104u8] || w == seq![
            118u8,
            101u8,
            114u8,
            105u8,
            102u8,
            105u8,
            99u8,
            97u8,
            116u8,
            105u8,
            111u8,
            110u8,
        ],
    ensures
        spec_named_like_a_testbench(dir + seq![47u8] + w + seq![47u8] + file),
{
    let path = dir + seq![47u8] + w + seq![47u8] + file;
    let t = normalized(path);
    let j: int = dir.len() as int + 1;
    let n = w.len() as int;
    assert(forall|k: int| 0 <= k < n ==> 97u8 <= #[trigger] w[k] <= 122u8);
    assert forall|k: int| j <= k < j + n implies t[k] == w[k - j] && t[k] != 47u8 by {
        assert(path[k] == w[k - j]);
    }
    assert(path[j - 1] == 47u8);
    assert(path[j + n] == 47u8);
    assert(t[j - 1] == 47u8);
    assert(t[j + n] == 47u8);
    lemma_next_slash_after_word(t, j, n);
    assert(t.subrange(j, j + n) =~= w);
    lemma_part_reached(t, 0, j);
}

} // verus!

