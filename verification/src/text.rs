//! Edits, line endings and positions in a source snapshot.
use vstd::prelude::*;

use crate::bytes::{all_ws, extend_bytes, extend_range, is_all_ws, bytes_eq};
use crate::doc::{display_width, spec_display_width};

verus! {

/// A located message about the source.
#[derive(Debug, Clone, PartialEq, Eq)]
pub struct Diagnostic {
    pub offset: usize,
    pub message: String,
}

#[derive(Debug)]
pub enum FormatError {
    /// The source does not parse; it is left untouched.
    Syntax(Vec<Diagnostic>),
    /// The source uses a construct the formatter does not handle safely yet.
    Unsupported(Diagnostic),
    /// The formatter produced output that is not equivalent to the input (a formatter bug).
    /// The source is left untouched.
    Internal(String),
}

/// Replace `start..end` (byte offsets into the original source) with `text`.
#[derive(Debug, Clone, PartialEq, Eq)]
pub struct TextEdit {
    pub start: usize,
    pub end: usize,
    pub text: Vec<u8>,
}

/// Where the source is taken up again after the edits `edits` (the end of the last one).
pub open spec fn resume_at(edits: Seq<TextEdit>) -> int {
    if edits.len() == 0 {
        0
    } else {
        edits.last().end as int
    }
}

/// The edits can be applied in order to a source of `len` bytes: each starts at or after the
/// end of the one before and within the source, and the last one ends within the source.
pub open spec fn edits_apply(len: int, edits: Seq<TextEdit>) -> bool {
    &&& forall|i: int|
        0 <= i < edits.len() ==> resume_at(edits.take(i)) <= #[trigger] edits[i].start <= len
    &&& resume_at(edits) <= len
}

/// The output up to the end of the last edit: for each edit, the source between the previous
/// edit and this one, then the edit's text.
pub open spec fn edited_prefix(source: Seq<u8>, edits: Seq<TextEdit>) -> Seq<u8>
    decreases edits.len(),
{
    if edits.len() == 0 {
        Seq::empty()
    } else {
        edited_prefix(source, edits.drop_last()) + source.subrange(
            resume_at(edits.drop_last()),
            edits.last().start as int,
        ) + edits.last().text@
    }
}

/// The source with the edits applied.
pub open spec fn spec_apply_edits(source: Seq<u8>, edits: Seq<TextEdit>) -> Seq<u8> {
    edited_prefix(source, edits) + source.subrange(resume_at(edits), source.len() as int)
}

/// Apply sorted, non-overlapping edits to `source`.
pub fn apply_edits(source: &[u8], edits: &[TextEdit]) -> (out: Vec<u8>)
    requires
        edits_apply(source@.len() as int, edits@),
    ensures
        out@ == spec_apply_edits(source@, edits@),
{
    let mut out: Vec<u8> = Vec::new();
    let mut pos: usize = 0;
    let mut k: usize = 0;
    while k < edits.len()
        invariant
            0 <= k <= edits@.len(),
            edits_apply(source@.len() as int, edits@),
            pos == resume_at(edits@.take(k as int)),
            out@ == edited_prefix(source@, edits@.take(k as int)),
        decreases edits.len() - k,
    {
        let e = &edits[k];
        proof {
            assert(resume_at(edits@.take(k as int)) <= edits@[k as int].start);
            assert(edits@.take(k as int + 1).drop_last() =~= edits@.take(k as int));
        }
        extend_range(&mut out, source, pos, e.start);
        extend_bytes(&mut out, e.text.as_slice());
        pos = e.end;
        k = k + 1;
    }
    proof {
        assert(edits@.take(edits@.len() as int) =~= edits@);
    }
    extend_range(&mut out, source, pos, source.len());
    out
}

/// `text` with every line feed preceded by a carriage return.
pub open spec fn spec_to_crlf(text: Seq<u8>) -> Seq<u8>
    decreases text.len(),
{
    if text.len() == 0 {
        Seq::empty()
    } else {
        spec_to_crlf(text.drop_last()) + if text.last() == 10u8 {
            seq![13u8, 10u8]
        } else {
            seq![text.last()]
        }
    }
}

proof fn lemma_to_crlf_len(text: Seq<u8>)
    ensures
        spec_to_crlf(text).len() <= 2 * text.len(),
    decreases text.len(),
{
    if text.len() > 0 {
        lemma_to_crlf_len(text.drop_last());
    }
}

/// Convert `\n` line endings to `\r\n`.
pub fn to_crlf(text: &[u8]) -> (out: Vec<u8>)
    ensures
        out@ == spec_to_crlf(text@),
{
    let mut out: Vec<u8> = Vec::new();
    let mut i: usize = 0;
    while i < text.len()
        invariant
            0 <= i <= text.len(),
            out@ == spec_to_crlf(text@.take(i as int)),
        decreases text.len() - i,
    {
        proof {
            assert(text@.take(i as int + 1).drop_last() =~= text@.take(i as int));
        }
        let b = text[i];
        if b == 10u8 {
            out.push(13u8);
        }
        out.push(b);
        i = i + 1;
        proof {
            let prev = spec_to_crlf(text@.take(i as int - 1));
            if b == 10u8 {
                assert(out@ =~= prev + seq![13u8, 10u8]);
            } else {
                assert(out@ =~= prev + seq![b]);
            }
        }
    }
    proof {
        assert(text@.take(text.len() as int) =~= text@);
    }
    out
}

/// `\r\n` and lone `\r` turned into `\n`.
pub open spec fn spec_normalize_newlines(text: Seq<u8>) -> Seq<u8>
    decreases text.len(),
{
    if text.len() == 0 {
        Seq::empty()
    } else if text[0] == 13u8 {
        let rest = if text.len() > 1 && text[1] == 10u8 {
            text.skip(2)
        } else {
            text.skip(1)
        };
        seq![10u8] + spec_normalize_newlines(rest)
    } else {
        seq![text[0]] + spec_normalize_newlines(text.skip(1))
    }
}

/// Convert `\r\n` and lone `\r` to `\n`.
pub fn normalize_newlines(text: &[u8]) -> (out: Vec<u8>)
    ensures
        out@ == spec_normalize_newlines(text@),
{
    let mut out: Vec<u8> = Vec::new();
    let mut i: usize = 0;
    proof {
        assert(text@.skip(0) =~= text@);
        assert(out@ + spec_normalize_newlines(text@) =~= spec_normalize_newlines(text@));
    }
    while i < text.len()
        invariant
            0 <= i <= text.len(),
            out@ + spec_normalize_newlines(text@.skip(i as int)) == spec_normalize_newlines(text@),
        decreases text.len() - i,
    {
        let ghost before = out@;
        let ghost tail = text@.skip(i as int);
        let b = text[i];
        if b == 13u8 {
            if i + 1 < text.len() && text[i + 1] == 10u8 {
                i = i + 2;
                proof {
                    assert(tail.skip(2) =~= text@.skip(i as int));
                }
            } else {
                i = i + 1;
                proof {
                    assert(tail.skip(1) =~= text@.skip(i as int));
                }
            }
            out.push(10u8);
        } else {
            out.push(b);
            i = i + 1;
            proof {
                assert(tail.skip(1) =~= text@.skip(i as int));
            }
        }
        proof {
            assert(out@ + spec_normalize_newlines(text@.skip(i as int)) =~= before
                + spec_normalize_newlines(tail));
        }
    }
    proof {
        assert(text@.skip(text.len() as int) =~= Seq::<u8>::empty());
        assert(out@ + Seq::<u8>::empty() =~= out@);
    }
    out
}

/// Line endings converted to `\r\n` read back as the same text: for text without carriage
/// returns, normalizing what [`to_crlf`] produced gives the text back.
pub proof fn lemma_crlf_round_trip(text: Seq<u8>)
    requires
        !text.contains(13u8),
    ensures
        spec_normalize_newlines(spec_to_crlf(text)) == text,
    decreases text.len(),
{
    if text.len() > 0 {
        let rest = text.skip(1);
        assert(!rest.contains(13u8)) by {
            if rest.contains(13u8) {
                let k = choose|k: int| 0 <= k < rest.len() && rest[k] == 13u8;
                assert(text[k + 1] == 13u8);
            }
        }
        lemma_crlf_round_trip(rest);
        lemma_to_crlf_first(text);
        let head = if text[0] == 10u8 { seq![13u8, 10u8] } else { seq![text[0]] };
        let whole = head + spec_to_crlf(rest);
        assert(text[0] != 13u8) by {
            if text[0] == 13u8 {
                assert(text.contains(13u8));
            }
        }
        if text[0] == 10u8 {
            assert(whole[0] == 13u8 && whole[1] == 10u8);
            assert(whole.skip(2) =~= spec_to_crlf(rest));
        } else {
            assert(whole[0] == text[0]);
            assert(whole.skip(1) =~= spec_to_crlf(rest));
        }
        assert(seq![text[0]] + rest =~= text);
    }
}

/// [`spec_to_crlf`] taken from the front: the first byte, then the rest.
proof fn lemma_to_crlf_first(text: Seq<u8>)
    requires
        text.len() > 0,
    ensures
        spec_to_crlf(text) == (if text[0] == 10u8 {
            seq![13u8, 10u8]
        } else {
            seq![text[0]]
        }) + spec_to_crlf(text.skip(1)),
    decreases text.len(),
{
    let head = if text[0] == 10u8 { seq![13u8, 10u8] } else { seq![text[0]] };
    if text.len() == 1 {
        assert(text.skip(1) =~= Seq::<u8>::empty());
        assert(text.drop_last() =~= Seq::<u8>::empty());
        assert(head + Seq::<u8>::empty() =~= head);
    } else {
        lemma_to_crlf_first(text.drop_last());
        assert(text.drop_last().skip(1) =~= text.skip(1).drop_last());
        assert(text.skip(1).last() == text.last());
        let tailpart = if text.last() == 10u8 { seq![13u8, 10u8] } else { seq![text.last()] };
        assert(spec_to_crlf(text.skip(1)) == spec_to_crlf(text.skip(1).drop_last()) + tailpart);
        assert(head + spec_to_crlf(text.skip(1)) =~= head + spec_to_crlf(
            text.drop_last().skip(1),
        ) + tailpart);
    }
}

/// Whether a line holds nothing but whitespace.
pub fn is_blank_line(line: &[u8]) -> (r: bool)
    ensures
        r == all_ws(line@),
{
    is_all_ws(line)
}

/// Whether the source uses CRLF line endings (decided by its first line break).
pub open spec fn spec_uses_crlf(s: Seq<u8>) -> bool {
    exists|i: int|
        #![trigger s[i]]
        0 < i < s.len() && s[i] == 10u8 && s[i - 1] == 13u8 && forall|j: int|
            0 <= j < i ==> s[j] != 10u8
}

/// Whether the source uses CRLF line endings (decided by its first line break).
pub fn uses_crlf(source: &[u8]) -> (r: bool)
    ensures
        r == spec_uses_crlf(source@),
{
    let mut i: usize = 0;
    while i < source.len()
        invariant
            0 <= i <= source.len(),
            forall|j: int| 0 <= j < i ==> source@[j] != 10u8,
        decreases source.len() - i,
    {
        if source[i] == 10u8 {
            let r = i > 0 && source[i - 1] == 13u8;
            proof {
                if spec_uses_crlf(source@) {
                    let k = choose|k: int|
                        #![trigger source@[k]]
                        0 < k < source@.len() && source@[k] == 10u8 && source@[k - 1] == 13u8
                            && forall|j: int| 0 <= j < k ==> source@[j] != 10u8;
                    if k > i {
                        assert(source@[i as int] == 10u8);
                    }
                }
                if r {
                    assert(source@[i as int] == 10u8);
                }
            }
            return r;
        }
        i = i + 1;
    }
    false
}

/// The number of line feeds in `s`.
pub open spec fn count_newlines(s: Seq<u8>) -> nat
    decreases s.len(),
{
    if s.len() == 0 {
        0
    } else {
        count_newlines(s.drop_last()) + if s.last() == 10u8 {
            1nat
        } else {
            0nat
        }
    }
}

/// Where the line that contains position `p` of `s` starts: just after the last line feed
/// before `p`, or 0.
pub open spec fn line_start(s: Seq<u8>, p: int) -> int
    decreases p,
{
    if p <= 0 {
        0
    } else if s[p - 1] == 10u8 {
        p
    } else {
        line_start(s, p - 1)
    }
}

proof fn lemma_line_start_bounds(s: Seq<u8>, p: int)
    requires
        0 <= p <= s.len(),
    ensures
        0 <= line_start(s, p) <= p,
    decreases p,
{
    if p > 0 && s[p - 1] != 10u8 {
        lemma_line_start_bounds(s, p - 1);
    }
}

proof fn lemma_count_newlines_bound(s: Seq<u8>)
    ensures
        count_newlines(s) <= s.len(),
    decreases s.len(),
{
    if s.len() > 0 {
        lemma_count_newlines_bound(s.drop_last());
    }
}

/// 1-based line and column (in characters) of byte offset `offset` (clamped to the source).
pub open spec fn spec_line_col(source: Seq<u8>, utf8: bool, offset: int) -> (int, int) {
    let o = if offset < source.len() {
        offset
    } else {
        source.len() as int
    };
    let start = line_start(source, o);
    (
        count_newlines(source.take(o)) + 1int,
        spec_display_width(source.subrange(start, o), utf8, 0) + 1,
    )
}

/// 1-based line and column (in characters) of a byte offset.
pub fn line_col(source: &[u8], utf8: bool, offset: usize) -> (r: (usize, usize))
    requires
        4 * source@.len() < usize::MAX,
    ensures
        r.0 == spec_line_col(source@, utf8, offset as int).0,
        r.1 == spec_line_col(source@, utf8, offset as int).1,
{
    let o = if offset < source.len() {
        offset
    } else {
        source.len()
    };
    let mut line: usize = 1;
    let mut start: usize = 0;
    let mut i: usize = 0;
    while i < o
        invariant
            0 <= i <= o <= source@.len(),
            4 * source@.len() < usize::MAX,
            line == count_newlines(source@.take(i as int)) + 1,
            start == line_start(source@, i as int),
        decreases o - i,
    {
        proof {
            assert(source@.take(i as int + 1).drop_last() =~= source@.take(i as int));
            lemma_count_newlines_bound(source@.take(i as int));
        }
        if source[i] == 10u8 {
            line = line + 1;
            start = i + 1;
        }
        i = i + 1;
    }
    proof {
        lemma_line_start_bounds(source@, o as int);
    }
    let slice = vstd::slice::slice_subrange(source, start, o);
    let w = display_width(slice, utf8, 0);
    (line, w + 1)
}

/// A line range `(start, end)` of old lines and one of new lines.
pub type Hunk = (std::ops::Range<usize>, std::ops::Range<usize>);

/// The positions in `start..end` of the lines of `lines` that are not blank, ascending.
pub open spec fn code_lines(lines: Seq<Seq<u8>>, start: int, end: int) -> Seq<int>
    decreases end - start,
{
    if end <= start {
        Seq::empty()
    } else if all_ws(lines[end - 1]) {
        code_lines(lines, start, end - 1)
    } else {
        code_lines(lines, start, end - 1).push(end - 1)
    }
}

/// A hunk as four line numbers: old start and end, new start and end.
pub type SHunk = (int, int, int, int);

/// The pieces produced by the first `k` pairs of corresponding lines (the last pair being the
/// ends of the hunk): the blank lines in front of each pair when their counts differ, then the
/// pair itself when the two lines differ.
pub open spec fn hunk_pieces(
    old: Seq<Seq<u8>>,
    new: Seq<Seq<u8>>,
    o: (int, int),
    n: (int, int),
    oc: Seq<int>,
    nc: Seq<int>,
    k: int,
) -> Seq<SHunk>
    decreases k,
{
    if k <= 0 {
        Seq::empty()
    } else {
        let p = k - 1;
        let (i, j) = if p < oc.len() {
            (oc[p], nc[p])
        } else {
            (o.1, n.1)
        };
        let (oi, nj) = if p == 0 {
            (o.0, n.0)
        } else {
            (oc[p - 1] + 1, nc[p - 1] + 1)
        };
        let blanks = if i - oi != j - nj {
            seq![(oi, i, nj, j)]
        } else {
            Seq::empty()
        };
        let change = if i < o.1 && old[i] != new[j] {
            seq![(i, i + 1, j, j + 1)]
        } else {
            Seq::empty()
        };
        hunk_pieces(old, new, o, n, oc, nc, k - 1) + blanks + change
    }
}

/// A changed hunk split into single-line changes and blank-line insertions and removals when
/// its non-blank lines correspond one to one; otherwise the hunk whole.
pub open spec fn spec_split_hunk(
    old: Seq<Seq<u8>>,
    new: Seq<Seq<u8>>,
    o: (int, int),
    n: (int, int),
) -> Seq<SHunk> {
    let oc = code_lines(old, o.0, o.1);
    let nc = code_lines(new, n.0, n.1);
    if oc.len() != nc.len() {
        seq![(o.0, o.1, n.0, n.1)]
    } else {
        hunk_pieces(old, new, o, n, oc, nc, oc.len() + 1int)
    }
}

/// The lines of a list of byte strings.
pub open spec fn lines_view(lines: Seq<&[u8]>) -> Seq<Seq<u8>> {
    Seq::new(lines.len(), |i: int| lines[i]@)
}

pub open spec fn hunk_view(h: Hunk) -> SHunk {
    (h.0.start as int, h.0.end as int, h.1.start as int, h.1.end as int)
}

pub open spec fn hunks_view(hs: Seq<Hunk>) -> Seq<SHunk> {
    Seq::new(hs.len(), |i: int| hunk_view(hs[i]))
}

proof fn lemma_code_lines_props(lines: Seq<Seq<u8>>, start: int, end: int)
    requires
        start <= end,
    ensures
        forall|a: int| 0 <= a < code_lines(lines, start, end).len() ==> start <= #[trigger] code_lines(lines, start, end)[a] < end,
        forall|a: int, b: int| 0 <= a < b < code_lines(lines, start, end).len() ==> code_lines(lines, start, end)[a] < code_lines(lines, start, end)[b],
        code_lines(lines, start, end).len() <= end - start,
    decreases end - start,
{
    if end > start {
        lemma_code_lines_props(lines, start, end - 1);
    }
}

/// The non-blank lines of `lines[start..end]`, by position.
fn code_positions(lines: &[&[u8]], start: usize, end: usize) -> (r: Vec<usize>)
    requires
        start <= end <= lines@.len(),
    ensures
        r@.len() == code_lines(lines_view(lines@), start as int, end as int).len(),
        forall|a: int| 0 <= a < r@.len() ==> r@[a] as int == #[trigger] code_lines(lines_view(lines@), start as int, end as int)[a],
{
    let ghost lv = lines_view(lines@);
    let mut r: Vec<usize> = Vec::new();
    let mut i = start;
    while i < end
        invariant
            start <= i <= end <= lines@.len(),
            lv == lines_view(lines@),
            r@.len() == code_lines(lv, start as int, i as int).len(),
            forall|a: int| 0 <= a < r@.len() ==> r@[a] as int == #[trigger] code_lines(lv, start as int, i as int)[a],
        decreases end - i,
    {
        assert(lv[i as int] == lines@[i as int]@);
        if !is_blank_line(lines[i]) {
            r.push(i);
        }
        i = i + 1;
    }
    r
}

/// Split a changed hunk into single-line changes and blank-line insertions/removals when its
/// non-blank lines correspond one to one; otherwise keep it whole.
pub fn split_hunk(
    old: &[&[u8]],
    new: &[&[u8]],
    o: &std::ops::Range<usize>,
    n: &std::ops::Range<usize>,
) -> (r: Vec<Hunk>)
    requires
        o.start <= o.end <= old@.len(),
        n.start <= n.end <= new@.len(),
    ensures
        hunks_view(r@) == spec_split_hunk(
            lines_view(old@),
            lines_view(new@),
            (o.start as int, o.end as int),
            (n.start as int, n.end as int),
        ),
{
    let ghost ov = lines_view(old@);
    let ghost nv = lines_view(new@);
    let ghost os = (o.start as int, o.end as int);
    let ghost ns = (n.start as int, n.end as int);
    let old_code = code_positions(old, o.start, o.end);
    let new_code = code_positions(new, n.start, n.end);
    let ghost oc = code_lines(ov, os.0, os.1);
    let ghost nc = code_lines(nv, ns.0, ns.1);
    proof {
        lemma_code_lines_props(ov, os.0, os.1);
        lemma_code_lines_props(nv, ns.0, ns.1);
    }
    if old_code.len() != new_code.len() {
        let mut whole: Vec<Hunk> = Vec::new();
        whole.push((o.start..o.end, n.start..n.end));
        proof {
            assert(hunks_view(whole@) =~= seq![(os.0, os.1, ns.0, ns.1)]);
        }
        return whole;
    }
    let m = old_code.len();
    let mut out: Vec<Hunk> = Vec::new();
    let mut oi = o.start;
    let mut nj = n.start;
    let mut k: usize = 0;
    loop
        invariant_except_break
            hunks_view(out@) == hunk_pieces(ov, nv, os, ns, oc, nc, k as int),
        invariant
            0 <= k <= m,
            m == old_code@.len(),
            m == new_code@.len(),
            oc.len() == m,
            nc.len() == m,
            ov == lines_view(old@),
            nv == lines_view(new@),
            os == (o.start as int, o.end as int),
            ns == (n.start as int, n.end as int),
            oc == code_lines(ov, os.0, os.1),
            nc == code_lines(nv, ns.0, ns.1),
            o.start <= o.end <= old@.len(),
            n.start <= n.end <= new@.len(),
            forall|a: int| 0 <= a < m ==> old_code@[a] as int == #[trigger] oc[a],
            forall|a: int| 0 <= a < m ==> new_code@[a] as int == #[trigger] nc[a],
            forall|a: int| 0 <= a < m ==> os.0 <= #[trigger] oc[a] < os.1,
            forall|a: int| 0 <= a < m ==> ns.0 <= #[trigger] nc[a] < ns.1,
            forall|a: int, b: int| 0 <= a < b < m ==> oc[a] < oc[b],
            forall|a: int, b: int| 0 <= a < b < m ==> nc[a] < nc[b],
            (oi as int, nj as int) == (if k == 0 {
                (os.0, ns.0)
            } else {
                (oc[k - 1] + 1, nc[k - 1] + 1)
            }),
        ensures
            hunks_view(out@) == hunk_pieces(ov, nv, os, ns, oc, nc, m + 1),
        decreases m - k,
    {
        let (i, j) = if k < m {
            (old_code[k], new_code[k])
        } else {
            (o.end, n.end)
        };
        proof {
            if k < m {
                assert(old_code@[k as int] as int == oc[k as int]);
                assert(new_code@[k as int] as int == nc[k as int]);
            }
            if k > 0 {
                assert(old_code@[k - 1] as int == oc[k - 1]);
                assert(new_code@[k - 1] as int == nc[k - 1]);
            }
            if k > 0 && k < m {
                assert(oc[k - 1] < oc[k as int]);
                assert(nc[k - 1] < nc[k as int]);
            }
            if k > 0 {
                assert(oc[k - 1] < os.1);
                assert(nc[k - 1] < ns.1);
            }
        }
        let ghost before = out@;
        // Blank lines in front of this pair of lines.
        if i - oi != j - nj {
            out.push((oi..i, nj..j));
        }
        let ghost mid = out@;
        if i < o.end && !bytes_eq(old[i], new[j]) {
            out.push((i..i + 1, j..j + 1));
        }
        proof {
            if i < o.end {
                assert(ov[i as int] == old@[i as int]@);
                assert(nv[j as int] == new@[j as int]@);
            }
            let blanks = if i - oi != j - nj {
                seq![(oi as int, i as int, nj as int, j as int)]
            } else {
                Seq::<SHunk>::empty()
            };
            let change = if (i as int) < os.1 && ov[i as int] != nv[j as int] {
                seq![(i as int, i as int + 1, j as int, j as int + 1)]
            } else {
                Seq::<SHunk>::empty()
            };
            assert(hunks_view(out@) =~= hunks_view(before) + blanks + change);
        }
        if k == m {
            break;
        }
        oi = i + 1;
        nj = j + 1;
        k = k + 1;
    }
    out
}


/// A step of a line diff: whether the lines differ, then the old lines `start..end` and the new
/// lines `start..end` it covers.
pub type DiffStep = (bool, usize, usize, usize, usize);

/// The steps of `similar`'s Myers diff of two line sequences.
pub uninterp spec fn myers_diff(old: Seq<Seq<u8>>, new: Seq<Seq<u8>>) -> Seq<DiffStep>;

/// Every step's line ranges lie within the two sequences.
pub open spec fn steps_in(steps: Seq<DiffStep>, old_len: int, new_len: int) -> bool {
    forall|k: int|
        0 <= k < steps.len() ==> (#[trigger] steps[k]).1 <= steps[k].2 <= old_len && steps[k].3
            <= steps[k].4 <= new_len
}

/// `similar::capture_diff_slices(Algorithm::Myers, old, new)`, each operation as
/// `as_tag_tuple` gives it. Claimed: the steps are a function of the two sequences alone, and
/// their ranges index into them, as `similar` documents (`a[i1..i2]`, `b[j1..j2]`).
#[verifier::external_body]
fn line_diff(old: &[&[u8]], new: &[&[u8]]) -> (r: Vec<DiffStep>)
    ensures
        r@ == myers_diff(lines_view(old@), lines_view(new@)),
        steps_in(r@, old@.len() as int, new@.len() as int),
{
    similar::capture_diff_slices(similar::Algorithm::Myers, old, new)
        .iter()
        .map(|op| {
            let (tag, o, n) = op.as_tag_tuple();
            let changed = match tag {
                similar::DiffTag::Equal => false,
                similar::DiffTag::Delete => true,
                similar::DiffTag::Insert => true,
                similar::DiffTag::Replace => true,
            };
            (changed, o.start, o.end, n.start, n.end)
        })
        .collect()
}

/// The changed steps, adjacent ones merged into one hunk.
pub open spec fn merged(steps: Seq<DiffStep>) -> Seq<SHunk>
    decreases steps.len(),
{
    if steps.len() == 0 {
        Seq::empty()
    } else {
        let before = merged(steps.drop_last());
        let st = steps.last();
        if !st.0 {
            before
        } else if before.len() > 0 && before.last().1 == st.1 && before.last().3 == st.3 {
            before.update(before.len() - 1, (before.last().0, st.2 as int, before.last().2, st.4 as int))
        } else {
            before.push((st.1 as int, st.2 as int, st.3 as int, st.4 as int))
        }
    }
}

/// Every hunk's line ranges lie within the two sequences.
pub open spec fn hunks_in(hs: Seq<SHunk>, old_len: int, new_len: int) -> bool {
    forall|k: int|
        0 <= k < hs.len() ==> 0 <= (#[trigger] hs[k]).0 <= hs[k].1 <= old_len && 0 <= hs[k].2
            <= hs[k].3 <= new_len
}

/// Each hunk of `hs` split as [`split_hunk`] does, in order.
pub open spec fn fine_hunks(old: Seq<Seq<u8>>, new: Seq<Seq<u8>>, hs: Seq<SHunk>) -> Seq<SHunk>
    decreases hs.len(),
{
    if hs.len() == 0 {
        Seq::empty()
    } else {
        let h = hs.last();
        fine_hunks(old, new, hs.drop_last()) + spec_split_hunk(old, new, (h.0, h.1), (h.2, h.3))
    }
}

/// The offset of each line of `src`; a final line feed (or an empty source) starts one more,
/// empty line.
pub open spec fn line_offsets(src: Seq<u8>) -> Seq<int> {
    let old = crate::reflow::lines_from(src, 0);
    Seq::new(old.len(), |k: int| crate::reflow::lens(old, 0, k)) + if src.len() == 0 || src.last()
        == 10u8 {
        seq![src.len() as int]
    } else {
        Seq::empty()
    }
}

/// How many of `starts` are at most `x`.
pub open spec fn count_at_most(starts: Seq<int>, x: int) -> int
    decreases starts.len(),
{
    if starts.len() == 0 {
        0
    } else {
        count_at_most(starts.drop_last(), x) + if starts.last() <= x {
            1int
        } else {
            0int
        }
    }
}

/// The line holding offset `x` (clamped to the source).
pub open spec fn line_holding(starts: Seq<int>, x: int, len: int) -> int {
    let c = count_at_most(starts, if x < len {
        x
    } else {
        len
    });
    if c > 0 {
        c - 1
    } else {
        0
    }
}

/// The offset where line `line` starts, or the end of the source.
pub open spec fn offset_of_line(starts: Seq<int>, line: int, len: int) -> int {
    if 0 <= line < starts.len() {
        starts[line]
    } else {
        len
    }
}

/// New lines `a..b`, one after the other.
pub open spec fn joined_lines(new: Seq<Seq<u8>>, a: int, b: int) -> Seq<u8>
    decreases b - a,
{
    if a < 0 || a >= b || a >= new.len() {
        Seq::empty()
    } else {
        new[a] + joined_lines(new, a + 1, b)
    }
}

/// The edit a hunk makes.
pub open spec fn hunk_edit(h: SHunk, starts: Seq<int>, len: int, new: Seq<Seq<u8>>) -> (int, int, Seq<u8>) {
    (offset_of_line(starts, h.0, len), offset_of_line(starts, h.1, len), joined_lines(new, h.2, h.3))
}

/// Whether a hunk touches the lines `first..=last`: an insertion at one of them, or a change
/// of one of them.
pub open spec fn touches(h: SHunk, first: int, last: int) -> bool {
    if h.0 == h.1 {
        first <= h.0 <= last
    } else {
        h.0 <= last && h.1 > first
    }
}

/// The edits of the hunks of `hs`, only of those that touch `first..=last` when `only_touched`.
pub open spec fn hunk_edits(
    hs: Seq<SHunk>,
    starts: Seq<int>,
    len: int,
    new: Seq<Seq<u8>>,
    only_touched: bool,
    first: int,
    last: int,
) -> Seq<(int, int, Seq<u8>)>
    decreases hs.len(),
{
    if hs.len() == 0 {
        Seq::empty()
    } else {
        let before = hunk_edits(hs.drop_last(), starts, len, new, only_touched, first, last);
        if !only_touched || touches(hs.last(), first, last) {
            before.push(hunk_edit(hs.last(), starts, len, new))
        } else {
            before
        }
    }
}

pub open spec fn edit_view(e: TextEdit) -> (int, int, Seq<u8>) {
    (e.start as int, e.end as int, e.text@)
}

pub open spec fn edits_view(v: Seq<TextEdit>) -> Seq<(int, int, Seq<u8>)> {
    Seq::new(v.len(), |i: int| edit_view(v[i]))
}

/// The candidate edits for changing `range` of `src` to match `new`, given the diff `steps`
/// of their lines: the fine hunks that touch the range, the merged hunks that touch it, and all
/// merged hunks.
pub open spec fn spec_edit_candidates(
    src: Seq<u8>,
    new: Seq<u8>,
    range: (int, int),
    steps: Seq<DiffStep>,
) -> (Seq<(int, int, Seq<u8>)>, Seq<(int, int, Seq<u8>)>, Seq<(int, int, Seq<u8>)>) {
    let old_lines = crate::reflow::lines_from(src, 0);
    let new_lines = crate::reflow::lines_from(new, 0);
    let starts = line_offsets(src);
    let len = src.len() as int;
    let first = line_holding(starts, range.0, len);
    let end_line = line_holding(starts, if range.1 > 0 { range.1 - 1 } else { 0 }, len);
    let last = if end_line >= first {
        end_line
    } else {
        first
    };
    let hunks = merged(steps);
    let fine = fine_hunks(old_lines, new_lines, hunks);
    (
        hunk_edits(fine, starts, len, new_lines, true, first, last),
        hunk_edits(hunks, starts, len, new_lines, true, first, last),
        hunk_edits(hunks, starts, len, new_lines, false, first, last),
    )
}


/// Merge the changed steps into hunks.
fn merge_steps(steps: &Vec<DiffStep>, old_len: usize, new_len: usize) -> (r: Vec<Hunk>)
    requires
        steps_in(steps@, old_len as int, new_len as int),
    ensures
        hunks_view(r@) == merged(steps@),
        hunks_in(merged(steps@), old_len as int, new_len as int),
{
    let mut out: Vec<Hunk> = Vec::new();
    let mut k: usize = 0;
    assert(steps@.take(0) =~= Seq::<DiffStep>::empty());
    while k < steps.len()
        invariant
            0 <= k <= steps@.len(),
            steps_in(steps@, old_len as int, new_len as int),
            hunks_view(out@) == merged(steps@.take(k as int)),
            hunks_in(merged(steps@.take(k as int)), old_len as int, new_len as int),
        decreases steps@.len() - k,
    {
        let ghost before = merged(steps@.take(k as int));
        assert(steps@.take(k + 1).drop_last() =~= steps@.take(k as int));
        assert(steps@.take(k + 1).last() == steps@[k as int]);
        let st = steps[k];
        assert(steps@[k as int] == st);
        if st.0 {
            let n = out.len();
            if n > 0 && out[n - 1].0.end == st.1 && out[n - 1].1.end == st.3 {
                let o_start = out[n - 1].0.start;
                let n_start = out[n - 1].1.start;
                out.set(n - 1, (o_start..st.2, n_start..st.4));
                assert(hunks_view(out@) =~= before.update(before.len() - 1, (before.last().0, st.2 as int, before.last().2, st.4 as int)));
            } else {
                out.push((st.1..st.2, st.3..st.4));
                assert(hunks_view(out@) =~= before.push((st.1 as int, st.2 as int, st.3 as int, st.4 as int)));
            }
        }
        k = k + 1;
    }
    assert(steps@.take(k as int) =~= steps@);
    out
}

/// Each hunk split as [`split_hunk`] does.
fn split_all(old: &[&[u8]], new: &[&[u8]], hunks: &Vec<Hunk>) -> (r: Vec<Hunk>)
    requires
        hunks_in(hunks_view(hunks@), old@.len() as int, new@.len() as int),
    ensures
        hunks_view(r@) == fine_hunks(lines_view(old@), lines_view(new@), hunks_view(hunks@)),
{
    let ghost hv = hunks_view(hunks@);
    let mut out: Vec<Hunk> = Vec::new();
    let mut k: usize = 0;
    assert(hv.take(0) =~= Seq::<SHunk>::empty());
    while k < hunks.len()
        invariant
            0 <= k <= hunks@.len(),
            hv == hunks_view(hunks@),
            hunks_in(hv, old@.len() as int, new@.len() as int),
            hunks_view(out@) == fine_hunks(lines_view(old@), lines_view(new@), hv.take(k as int)),
        decreases hunks@.len() - k,
    {
        assert(hv.take(k + 1).drop_last() =~= hv.take(k as int));
        assert(hv.take(k + 1).last() == hv[k as int]);
        assert(hv[k as int] == hunk_view(hunks@[k as int]));
        let pieces = split_hunk(old, new, &hunks[k].0, &hunks[k].1);
        let ghost before = hunks_view(out@);
        let mut j: usize = 0;
        while j < pieces.len()
            invariant
                0 <= j <= pieces@.len(),
                hunks_view(out@) == before + hunks_view(pieces@).take(j as int),
            decreases pieces@.len() - j,
        {
            let (os, oe, ns, ne) = (pieces[j].0.start, pieces[j].0.end, pieces[j].1.start, pieces[j].1.end);
            assert(hunks_view(pieces@)[j as int] == (os as int, oe as int, ns as int, ne as int));
            let ghost o0 = hunks_view(out@);
            out.push((os..oe, ns..ne));
            assert(hunks_view(out@) =~= o0.push((os as int, oe as int, ns as int, ne as int)));
            j = j + 1;
            assert(hunks_view(out@) =~= before + hunks_view(pieces@).take(j as int));
        }
        assert(hunks_view(pieces@).take(j as int) =~= hunks_view(pieces@));
        k = k + 1;
    }
    assert(hv.take(k as int) =~= hv);
    out
}

pub open spec fn offsets_view(v: Seq<usize>) -> Seq<int> {
    Seq::new(v.len(), |i: int| v[i] as int)
}

/// The offset of each line of `src`.
fn line_offsets_of(src: &[u8], old: &Vec<&[u8]>) -> (r: Vec<usize>)
    requires
        lines_view(old@) == crate::reflow::lines_from(src@, 0),
    ensures
        offsets_view(r@) == line_offsets(src@),
{
    let ghost lv = lines_view(old@);
    proof {
        crate::reflow::lemma_lens_lines(src@, 0);
    }
    let mut out: Vec<usize> = Vec::new();
    let mut pos: usize = 0;
    let mut k: usize = 0;
    let n = src.len();
    while k < old.len()
        invariant
            0 <= k <= old@.len(),
            n == src@.len(),
            lv == lines_view(old@),
            crate::reflow::lens(lv, 0, lv.len() as int) == src@.len(),
            pos == crate::reflow::lens(lv, 0, k as int),
            offsets_view(out@) == Seq::new(k as nat, |j: int| crate::reflow::lens(lv, 0, j)),
        decreases old@.len() - k,
    {
        proof {
            crate::reflow::lemma_lens_split(lv, 0, k as int, k + 1);
            crate::reflow::lemma_lens_split(lv, 0, k + 1, lv.len() as int);
            crate::reflow::lemma_lens_nonneg(lv, k + 1, lv.len() as int);
            assert(crate::reflow::lens(lv, k + 1, k + 1) == 0);
            assert(crate::reflow::lens(lv, k as int, k + 1) == lv[k as int].len());
            assert(lv[k as int] == old@[k as int]@);
        }
        let ghost o0 = offsets_view(out@);
        out.push(pos);
        assert(offsets_view(out@) =~= o0.push(pos as int));
        assert(offsets_view(out@) =~= Seq::new((k + 1) as nat, |j: int| crate::reflow::lens(lv, 0, j)));
        let line_len = old[k].len();
        assert(pos + line_len <= n);
        pos = pos + line_len;
        k = k + 1;
    }
    if src.len() == 0 || src[src.len() - 1] == 10u8 {
        out.push(src.len());
    }
    assert(offsets_view(out@) =~= line_offsets(src@));
    out
}

/// The line holding offset `x` (clamped to `len`).
fn line_holding_of(starts: &Vec<usize>, x: usize, len: usize) -> (r: usize)
    ensures
        r == line_holding(offsets_view(starts@), x as int, len as int),
{
    let at = if x < len {
        x
    } else {
        len
    };
    let ghost sv = offsets_view(starts@);
    let mut c: usize = 0;
    let mut k: usize = 0;
    assert(sv.take(0) =~= Seq::<int>::empty());
    while k < starts.len()
        invariant
            0 <= k <= starts@.len(),
            sv == offsets_view(starts@),
            c == count_at_most(sv.take(k as int), at as int),
            c <= k,
        decreases starts@.len() - k,
    {
        assert(sv.take(k + 1).drop_last() =~= sv.take(k as int));
        assert(sv.take(k + 1).last() == starts@[k as int] as int);
        if starts[k] <= at {
            c = c + 1;
        }
        k = k + 1;
    }
    assert(sv.take(k as int) =~= sv);
    if c > 0 {
        c - 1
    } else {
        0
    }
}

/// New lines `a..b`, one after the other.
fn joined_lines_of(new: &[&[u8]], a: usize, b: usize) -> (r: Vec<u8>)
    ensures
        r@ == joined_lines(lines_view(new@), a as int, b as int),
{
    let ghost nv = lines_view(new@);
    let mut out: Vec<u8> = Vec::new();
    let mut j = a;
    while j < b && j < new.len()
        invariant
            a <= j,
            nv == lines_view(new@),
            out@ + joined_lines(nv, j as int, b as int) == joined_lines(nv, a as int, b as int),
        decreases new@.len() - j,
    {
        let ghost o0 = out@;
        assert(nv[j as int] == new@[j as int]@);
        extend_bytes(&mut out, new[j]);
        assert(out@ + joined_lines(nv, j + 1, b as int) =~= o0 + joined_lines(nv, j as int, b as int));
        j = j + 1;
    }
    assert(joined_lines(nv, j as int, b as int) =~= Seq::<u8>::empty());
    assert(out@ + Seq::<u8>::empty() =~= out@);
    out
}

/// The edits of `hunks`, only those touching `first..=last` when `only_touched`.
fn edits_of(
    hunks: &Vec<Hunk>,
    starts: &Vec<usize>,
    len: usize,
    new: &[&[u8]],
    only_touched: bool,
    first: usize,
    last: usize,
) -> (r: Vec<TextEdit>)
    ensures
        edits_view(r@) == hunk_edits(
            hunks_view(hunks@),
            offsets_view(starts@),
            len as int,
            lines_view(new@),
            only_touched,
            first as int,
            last as int,
        ),
{
    let ghost hv = hunks_view(hunks@);
    let ghost sv = offsets_view(starts@);
    let mut out: Vec<TextEdit> = Vec::new();
    let mut k: usize = 0;
    assert(hv.take(0) =~= Seq::<SHunk>::empty());
    while k < hunks.len()
        invariant
            0 <= k <= hunks@.len(),
            hv == hunks_view(hunks@),
            sv == offsets_view(starts@),
            edits_view(out@) == hunk_edits(hv.take(k as int), sv, len as int, lines_view(new@), only_touched, first as int, last as int),
        decreases hunks@.len() - k,
    {
        assert(hv.take(k + 1).drop_last() =~= hv.take(k as int));
        assert(hv.take(k + 1).last() == hv[k as int]);
        let (os, oe, ns, ne) = (hunks[k].0.start, hunks[k].0.end, hunks[k].1.start, hunks[k].1.end);
        assert(hv[k as int] == (os as int, oe as int, ns as int, ne as int));
        let touched = if os == oe {
            first <= os && os <= last
        } else {
            os <= last && oe > first
        };
        if !only_touched || touched {
            let start = if os < starts.len() {
                starts[os]
            } else {
                len
            };
            let end = if oe < starts.len() {
                starts[oe]
            } else {
                len
            };
            let text = joined_lines_of(new, ns, ne);
            let ghost o0 = edits_view(out@);
            out.push(TextEdit { start, end, text });
            assert(edits_view(out@) =~= o0.push(hunk_edit(hv[k as int], sv, len as int, lines_view(new@))));
        }
        k = k + 1;
    }
    assert(hv.take(k as int) =~= hv);
    out
}

/// The candidate edits for changing `range` of `src` to match `new`, given the diff `steps` of
/// their lines: the fine hunks that touch the range, the merged hunks that touch it, and all
/// merged hunks, each in source order. The caller takes the first candidate that is empty or
/// that it accepts, else the last.
pub fn edit_candidates(src: &[u8], new: &[u8], range: std::ops::Range<usize>, steps: &Vec<DiffStep>) -> (r: (
    Vec<TextEdit>,
    Vec<TextEdit>,
    Vec<TextEdit>,
))
    requires
        steps_in(
            steps@,
            crate::reflow::lines_from(src@, 0).len() as int,
            crate::reflow::lines_from(new@, 0).len() as int,
        ),
    ensures
        (edits_view(r.0@), edits_view(r.1@), edits_view(r.2@)) == spec_edit_candidates(
            src@,
            new@,
            (range.start as int, range.end as int),
            steps@,
        ),
{
    let old_lines = crate::reflow::split_lines(src);
    let new_lines = crate::reflow::split_lines(new);
    let starts = line_offsets_of(src, &old_lines);
    let len = src.len();
    let first = line_holding_of(&starts, range.start, len);
    let end_at = if range.end > 0 {
        range.end - 1
    } else {
        0
    };
    let end_line = line_holding_of(&starts, end_at, len);
    let last = if end_line >= first {
        end_line
    } else {
        first
    };
    let hunks = merge_steps(steps, old_lines.len(), new_lines.len());
    let fine = split_all(old_lines.as_slice(), new_lines.as_slice(), &hunks);
    let touched_fine = edits_of(&fine, &starts, len, new_lines.as_slice(), true, first, last);
    let touched = edits_of(&hunks, &starts, len, new_lines.as_slice(), true, first, last);
    let all = edits_of(&hunks, &starts, len, new_lines.as_slice(), false, first, last);
    (touched_fine, touched, all)
}

/// [`edit_candidates`] for the line diff of `src` and `new`.
pub fn range_edit_candidates(src: &[u8], new: &[u8], range: std::ops::Range<usize>) -> (r: (
    Vec<TextEdit>,
    Vec<TextEdit>,
    Vec<TextEdit>,
))
    ensures
        (edits_view(r.0@), edits_view(r.1@), edits_view(r.2@)) == spec_edit_candidates(
            src@,
            new@,
            (range.start as int, range.end as int),
            myers_diff(crate::reflow::lines_from(src@, 0), crate::reflow::lines_from(new@, 0)),
        ),
{
    let old_lines = crate::reflow::split_lines(src);
    let new_lines = crate::reflow::split_lines(new);
    let steps = line_diff(old_lines.as_slice(), new_lines.as_slice());
    edit_candidates(src, new, range, &steps)
}

} // verus!
