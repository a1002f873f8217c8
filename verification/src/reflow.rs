//! Re-wrapping comment paragraphs to the line length (`vsg_rs: reflow_comments`), an extension:
//! VSG has no such rule, so this is off unless the configuration asks for it.
//!
//! It runs on the formatted bytes, where the indentation is already decided, and only touches
//! runs of own-line `-- ` comments that read as prose: same indentation, no pragma, no marker,
//! no list or table structure. Everything else is copied through, because a comment's line
//! breaks are often the only thing holding its meaning.
use vstd::prelude::*;

use crate::bytes::{all_ws, ascii_ws, bytes_eq, contains_byte, extend_bytes, is_ascii_ws};
use crate::doc::{display_width, spec_display_width};
use crate::chars::{chars_of, lowered, trim_range, trimmed};
use crate::lsp::{lossy_text, utf8_lossy};
use crate::text::lines_view;

verus! {

/// Where the first byte of `line` that is not white space is.
pub open spec fn first_code(line: Seq<u8>) -> int
    decreases line.len(),
{
    if line.len() > 0 && is_ascii_ws(line[0]) {
        1 + first_code(line.skip(1))
    } else {
        0
    }
}

/// `s` without one trailing `b`, if it ends with one.
pub open spec fn strip_last(s: Seq<u8>, b: u8) -> Seq<u8> {
    if s.len() > 0 && s.last() == b {
        s.drop_last()
    } else {
        s
    }
}

/// The first word of `t`: what comes before its first space.
pub open spec fn first_word(t: Seq<u8>) -> Seq<u8>
    decreases t.len(),
{
    if t.len() == 0 || t[0] == 32u8 {
        Seq::empty()
    } else {
        seq![t[0]] + first_word(t.skip(1))
    }
}

/// An ASCII letter in lower case, anything else unchanged.
pub open spec fn lower_byte(b: u8) -> u8 {
    if 65u8 <= b <= 90u8 {
        (b + 32) as u8
    } else {
        b
    }
}

/// Whether `w` starts, ignoring ASCII case, with the ASCII text `d`.
pub open spec fn starts_with_lower(w: Seq<u8>, d: Seq<u8>) -> bool {
    d.len() <= w.len() && forall|k: int| 0 <= k < d.len() ==> lower_byte(#[trigger] w[k]) == d[k]
}

/// Markers that make a comment an instruction to some tool rather than prose: `vsg_off`,
/// `vsg_on`, `vsg-rs:`, `pragma`, `synthesis`, `synopsys`, `translate_off`, `translate_on`,
/// `psl`, `coverage`, `rtl_synthesis`, as bytes.
pub open spec fn directives() -> Seq<Seq<u8>> {
    seq![
        seq![118u8, 115u8, 103u8, 95u8, 111u8, 102u8, 102u8],
        seq![118u8, 115u8, 103u8, 95u8, 111u8, 110u8],
        seq![118u8, 115u8, 103u8, 45u8, 114u8, 115u8, 58u8],
        seq![112u8, 114u8, 97u8, 103u8, 109u8, 97u8],
        seq![115u8, 121u8, 110u8, 116u8, 104u8, 101u8, 115u8, 105u8, 115u8],
        seq![115u8, 121u8, 110u8, 111u8, 112u8, 115u8, 121u8, 115u8],
        seq![116u8, 114u8, 97u8, 110u8, 115u8, 108u8, 97u8, 116u8, 101u8, 95u8, 111u8, 102u8, 102u8],
        seq![116u8, 114u8, 97u8, 110u8, 115u8, 108u8, 97u8, 116u8, 101u8, 95u8, 111u8, 110u8],
        seq![112u8, 115u8, 108u8],
        seq![99u8, 111u8, 118u8, 101u8, 114u8, 97u8, 103u8, 101u8],
        seq![114u8, 116u8, 108u8, 95u8, 115u8, 121u8, 110u8, 116u8, 104u8, 101u8, 115u8, 105u8, 115u8],
    ]
}

/// Whether a comment's text keeps its line breaks: empty, indented, a table (`|`), a tab, a
/// block comment marker, a list item (`*`, `-`, `+`, a digit), or a tool directive.
pub open spec fn keeps_breaks(text: Seq<u8>) -> bool {
    ||| text.len() == 0
    ||| is_ascii_ws(text[0])
    ||| text.contains(124u8)
    ||| text.contains(9u8)
    ||| (exists|k: int|
        #![trigger text[k]]
        0 <= k && k + 1 < text.len() && ((text[k] == 42u8 && text[k + 1] == 47u8) || (text[k]
            == 47u8 && text[k + 1] == 42u8)))
    ||| text[0] == 42u8
    ||| text[0] == 45u8
    ||| text[0] == 43u8
    ||| (48u8 <= text[0] <= 57u8)
    ||| (exists|d: int| 0 <= d < directives().len() && #[trigger] starts_with_lower(first_word(text), directives()[d]))
}

/// The indentation and the prose of `line`, if it is a comment line that may be re-wrapped:
/// `-- ` after the indentation (`---`, `--!` and `--=` start banners and documentation
/// comments), the line break dropped, and text that reads as prose.
pub open spec fn spec_prose(line: Seq<u8>) -> Option<(Seq<u8>, Seq<u8>)> {
    if all_ws(line) {
        None
    } else {
        let code = first_code(line);
        let indent = line.take(code);
        let rest = line.skip(code);
        if rest.len() >= 3 && rest[0] == 45u8 && rest[1] == 45u8 && rest[2] == 32u8 {
            let text = strip_last(strip_last(rest.skip(3), 10u8), 13u8);
            if keeps_breaks(text) {
                None
            } else {
                Some((indent, text))
            }
        } else {
            None
        }
    }
}

proof fn lemma_first_code(line: Seq<u8>)
    ensures
        0 <= first_code(line) <= line.len(),
        forall|k: int| 0 <= k < first_code(line) ==> is_ascii_ws(#[trigger] line[k]),
        first_code(line) < line.len() ==> !is_ascii_ws(line[first_code(line)]),
    decreases line.len(),
{
    if line.len() > 0 && is_ascii_ws(line[0]) {
        lemma_first_code(line.skip(1));
        assert forall|k: int| 0 <= k < first_code(line) implies is_ascii_ws(#[trigger] line[k]) by {
            if k > 0 {
                assert(line.skip(1)[k - 1] == line[k]);
            }
        }
    }
}

/// The first word of `t` ends at its first space.
fn first_word_end(t: &[u8]) -> (r: usize)
    ensures
        r <= t@.len(),
        first_word(t@) == t@.take(r as int),
{
    let mut i: usize = 0;
    assert(t@.skip(0) =~= t@);
    assert(t@.take(0) + first_word(t@) =~= first_word(t@));
    while i < t.len() && t[i] != 32u8
        invariant
            0 <= i <= t@.len(),
            first_word(t@) == t@.take(i as int) + first_word(t@.skip(i as int)),
        decreases t@.len() - i,
    {
        assert(t@.skip(i as int).skip(1) =~= t@.skip(i + 1));
        assert(t@.take(i + 1) =~= t@.take(i as int) + seq![t@[i as int]]);
        i = i + 1;
    }
    assert(t@.skip(i as int) =~= Seq::<u8>::empty() || t@.skip(i as int)[0] == 32u8);
    assert(t@.take(i as int) + Seq::<u8>::empty() =~= t@.take(i as int));
    i
}

fn lower(b: u8) -> (r: u8)
    ensures
        r == lower_byte(b),
{
    if 65u8 <= b && b <= 90u8 {
        b + 32
    } else {
        b
    }
}

fn starts_with_directive(w: &[u8], d: &[u8]) -> (r: bool)
    ensures
        r == starts_with_lower(w@, d@),
{
    if d.len() > w.len() {
        return false;
    }
    let mut k: usize = 0;
    while k < d.len()
        invariant
            0 <= k <= d@.len(),
            d@.len() <= w@.len(),
            forall|j: int| 0 <= j < k ==> lower_byte(#[trigger] w@[j]) == d@[j],
        decreases d@.len() - k,
    {
        if lower(w[k]) != d[k] {
            return false;
        }
        k = k + 1;
    }
    true
}

/// Whether the first word of a comment is a tool directive.
fn is_directive(word: &[u8]) -> (r: bool)
    ensures
        r == exists|d: int| 0 <= d < directives().len() && #[trigger] starts_with_lower(word@, directives()[d]),
{
    let d0: [u8; 7] = [118u8, 115, 103, 95, 111, 102, 102];
    let d1: [u8; 6] = [118u8, 115, 103, 95, 111, 110];
    let d2: [u8; 7] = [118u8, 115, 103, 45, 114, 115, 58];
    let d3: [u8; 6] = [112u8, 114, 97, 103, 109, 97];
    let d4: [u8; 9] = [115u8, 121, 110, 116, 104, 101, 115, 105, 115];
    let d5: [u8; 8] = [115u8, 121, 110, 111, 112, 115, 121, 115];
    let d6: [u8; 13] = [116u8, 114, 97, 110, 115, 108, 97, 116, 101, 95, 111, 102, 102];
    let d7: [u8; 12] = [116u8, 114, 97, 110, 115, 108, 97, 116, 101, 95, 111, 110];
    let d8: [u8; 3] = [112u8, 115, 108];
    let d9: [u8; 8] = [99u8, 111, 118, 101, 114, 97, 103, 101];
    let d10: [u8; 13] = [114u8, 116, 108, 95, 115, 121, 110, 116, 104, 101, 115, 105, 115];
    proof {
        assert(d0@ =~= directives()[0]);
        assert(d1@ =~= directives()[1]);
        assert(d2@ =~= directives()[2]);
        assert(d3@ =~= directives()[3]);
        assert(d4@ =~= directives()[4]);
        assert(d5@ =~= directives()[5]);
        assert(d6@ =~= directives()[6]);
        assert(d7@ =~= directives()[7]);
        assert(d8@ =~= directives()[8]);
        assert(d9@ =~= directives()[9]);
        assert(d10@ =~= directives()[10]);
    }
    let r = starts_with_directive(word, &d0) || starts_with_directive(word, &d1)
        || starts_with_directive(word, &d2) || starts_with_directive(word, &d3)
        || starts_with_directive(word, &d4) || starts_with_directive(word, &d5)
        || starts_with_directive(word, &d6) || starts_with_directive(word, &d7)
        || starts_with_directive(word, &d8) || starts_with_directive(word, &d9)
        || starts_with_directive(word, &d10);
    proof {
        if !r {
            assert forall|d: int| 0 <= d < directives().len() implies !#[trigger] starts_with_lower(word@, directives()[d]) by {
                if d == 0 { assert(directives()[d] == d0@); }
                if d == 1 { assert(directives()[d] == d1@); }
                if d == 2 { assert(directives()[d] == d2@); }
                if d == 3 { assert(directives()[d] == d3@); }
                if d == 4 { assert(directives()[d] == d4@); }
                if d == 5 { assert(directives()[d] == d5@); }
                if d == 6 { assert(directives()[d] == d6@); }
                if d == 7 { assert(directives()[d] == d7@); }
                if d == 8 { assert(directives()[d] == d8@); }
                if d == 9 { assert(directives()[d] == d9@); }
                if d == 10 { assert(directives()[d] == d10@); }
            }
        } else {
            if starts_with_lower(word@, d0@) { assert(starts_with_lower(word@, directives()[0])); }
            if starts_with_lower(word@, d1@) { assert(starts_with_lower(word@, directives()[1])); }
            if starts_with_lower(word@, d2@) { assert(starts_with_lower(word@, directives()[2])); }
            if starts_with_lower(word@, d3@) { assert(starts_with_lower(word@, directives()[3])); }
            if starts_with_lower(word@, d4@) { assert(starts_with_lower(word@, directives()[4])); }
            if starts_with_lower(word@, d5@) { assert(starts_with_lower(word@, directives()[5])); }
            if starts_with_lower(word@, d6@) { assert(starts_with_lower(word@, directives()[6])); }
            if starts_with_lower(word@, d7@) { assert(starts_with_lower(word@, directives()[7])); }
            if starts_with_lower(word@, d8@) { assert(starts_with_lower(word@, directives()[8])); }
            if starts_with_lower(word@, d9@) { assert(starts_with_lower(word@, directives()[9])); }
            if starts_with_lower(word@, d10@) { assert(starts_with_lower(word@, directives()[10])); }
        }
    }
    r
}

/// Whether `text` holds `*/` or `/*`.
fn has_block_marker(text: &[u8]) -> (r: bool)
    ensures
        r == exists|k: int|
            #![trigger text@[k]]
            0 <= k && k + 1 < text@.len() && ((text@[k] == 42u8 && text@[k + 1] == 47u8) || (
            text@[k] == 47u8 && text@[k + 1] == 42u8)),
{
    if text.len() < 2 {
        return false;
    }
    let mut k: usize = 0;
    while k < text.len() - 1
        invariant
            0 <= k <= text@.len() - 1,
            text@.len() >= 2,
            forall|j: int|
                #![trigger text@[j]]
                0 <= j < k ==> !((text@[j] == 42u8 && text@[j + 1] == 47u8) || (text@[j] == 47u8
                    && text@[j + 1] == 42u8)),
        decreases text@.len() - k,
    {
        if (text[k] == 42u8 && text[k + 1] == 47u8) || (text[k] == 47u8 && text[k + 1] == 42u8) {
            return true;
        }
        k = k + 1;
    }
    false
}

/// The indentation and the prose of `line`, if it is a comment line that may be re-wrapped.
pub fn prose(line: &[u8]) -> (r: Option<(&[u8], &[u8])>)
    ensures
        match r {
            Some((indent, text)) => spec_prose(line@) == Some((indent@, text@)),
            None => spec_prose(line@) is None,
        },
{
    let mut code: usize = 0;
    assert(line@.skip(0) =~= line@);
    while code < line.len() && ascii_ws(line[code])
        invariant
            0 <= code <= line@.len(),
            first_code(line@) == code + first_code(line@.skip(code as int)),
            forall|k: int| 0 <= k < code ==> is_ascii_ws(#[trigger] line@[k]),
        decreases line@.len() - code,
    {
        assert(line@.skip(code as int).skip(1) =~= line@.skip(code + 1));
        code = code + 1;
    }
    if code == line.len() {
        return None;
    }
    proof {
        lemma_first_code(line@);
        assert(first_code(line@.skip(code as int)) == 0);
    }
    let indent = vstd::slice::slice_subrange(line, 0, code);
    let rest = vstd::slice::slice_subrange(line, code, line.len());
    assert(indent@ =~= line@.take(code as int));
    assert(rest@ =~= line@.skip(code as int));
    if !(rest.len() >= 3 && rest[0] == 45u8 && rest[1] == 45u8 && rest[2] == 32u8) {
        return None;
    }
    let mut end = rest.len();
    if end > 3 && rest[end - 1] == 10u8 {
        end = end - 1;
    }
    if end > 3 && rest[end - 1] == 13u8 {
        end = end - 1;
    }
    let text = vstd::slice::slice_subrange(rest, 3, end);
    proof {
        let t0 = rest@.skip(3);
        let t1 = strip_last(t0, 10u8);
        assert(t1 =~= rest@.subrange(3, if rest@.len() > 3 && rest@.last() == 10u8 {
            rest@.len() - 1
        } else {
            rest@.len() as int
        }));
        assert(text@ =~= strip_last(t1, 13u8));
    }
    if text.len() == 0 {
        return None;
    }
    let w = first_word_end(text);
    let word = vstd::slice::slice_subrange(text, 0, w);
    let t0 = text[0];
    if ascii_ws(t0) || contains_byte(text, 124u8) || contains_byte(text, 9u8) || has_block_marker(
        text,
    ) || t0 == 42u8 || t0 == 45u8 || t0 == 43u8 || (48u8 <= t0 && t0 <= 57u8) || is_directive(
        word,
    ) {
        return None;
    }
    Some((indent, text))
}

/// `--`.
pub open spec fn dashes() -> Seq<u8> {
    seq![45u8, 45u8]
}

/// The rest of the filled output from word `i` on, the current line being at column `col`:
/// a word goes on the current line unless the line already holds a word and the word would
/// pass `width`, in which case a new `--` line is started for it.
pub open spec fn fill_rest(
    indent: Seq<u8>,
    words: Seq<Seq<u8>>,
    width: int,
    utf8: bool,
    i: int,
    col: int,
) -> Seq<u8>
    decreases words.len() - i,
{
    if i < 0 || i >= words.len() {
        seq![10u8]
    } else {
        let head = spec_display_width(indent, utf8, 0) + 2;
        let w = 1 + spec_display_width(words[i], utf8, 0);
        if col > head && col + w > width {
            seq![10u8] + indent + dashes() + seq![32u8] + words[i] + fill_rest(
                indent,
                words,
                width,
                utf8,
                i + 1,
                head + w,
            )
        } else {
            seq![32u8] + words[i] + fill_rest(indent, words, width, utf8, i + 1, col + w)
        }
    }
}

/// `words` filled greedily into `-- ` lines of at most `width` columns.
pub open spec fn spec_fill(indent: Seq<u8>, words: Seq<Seq<u8>>, width: int, utf8: bool) -> Seq<u8> {
    indent + dashes() + fill_rest(
        indent,
        words,
        width,
        utf8,
        0,
        spec_display_width(indent, utf8, 0) + 2,
    )
}

/// The columns a fill can reach stay within machine integers.
pub open spec fn fill_fits(indent: Seq<u8>, words: Seq<Seq<u8>>) -> bool {
    4 * indent.len() + 2 + total_width(words) <= usize::MAX
}

/// Each word with the space in front of it, at four columns a byte at most.
pub open spec fn total_width(words: Seq<Seq<u8>>) -> nat
    decreases words.len(),
{
    if words.len() == 0 {
        0
    } else {
        total_width(words.drop_last()) + 1 + 4 * words.last().len()
    }
}

proof fn lemma_total_width(words: Seq<Seq<u8>>, i: int)
    requires
        0 <= i <= words.len(),
    ensures
        total_width(words.take(i)) <= total_width(words),
        i < words.len() ==> total_width(words.take(i + 1)) == total_width(words.take(i)) + 1 + 4
            * words[i].len(),
    decreases words.len(),
{
    if words.len() > 0 {
        if i == words.len() {
            assert(words.take(i) =~= words);
        } else {
            lemma_total_width(words.drop_last(), i);
            assert(words.drop_last().take(i) =~= words.take(i));
            if i + 1 < words.len() {
                assert(words.drop_last().take(i + 1) =~= words.take(i + 1));
            } else {
                assert(words.take(i + 1) =~= words);
                assert(words.take(i + 1).drop_last() =~= words.take(i));
            }
            lemma_total_width(words.drop_last(), words.len() - 1);
            assert(words.drop_last().take(words.len() - 1) =~= words.drop_last());
        }
    } else {
        assert(words.take(i) =~= words);
    }
}

// Filling keeps the words -------------------------------------------------------------------------

/// The words `ws`, each after one space or, where its flag in `breaks` holds, after a line
/// break, `indent`, `--` and one space; then a line feed.
pub open spec fn broken_words(indent: Seq<u8>, ws: Seq<Seq<u8>>, breaks: Seq<bool>) -> Seq<u8>
    decreases ws.len(),
{
    if ws.len() == 0 {
        seq![10u8]
    } else {
        (if breaks.len() > 0 && breaks[0] {
            seq![10u8] + indent + dashes()
        } else {
            Seq::empty()
        }) + seq![32u8] + ws[0] + broken_words(indent, ws.skip(1), breaks.skip(1))
    }
}

/// Before which of the words `words[i..]` the fill starts a new line, the current line being
/// at column `col`.
pub open spec fn fill_breaks(
    indent: Seq<u8>,
    words: Seq<Seq<u8>>,
    width: int,
    utf8: bool,
    i: int,
    col: int,
) -> Seq<bool>
    decreases words.len() - i,
{
    if i < 0 || i >= words.len() {
        Seq::empty()
    } else {
        let head = spec_display_width(indent, utf8, 0) + 2;
        let w = 1 + spec_display_width(words[i], utf8, 0);
        let b = col > head && col + w > width;
        seq![b] + fill_breaks(
            indent,
            words,
            width,
            utf8,
            i + 1,
            if b {
                head + w
            } else {
                col + w
            },
        )
    }
}

proof fn lemma_fill_rest_words(indent: Seq<u8>, words: Seq<Seq<u8>>, width: int, utf8: bool, i: int, col: int)
    requires
        0 <= i <= words.len(),
    ensures
        fill_rest(indent, words, width, utf8, i, col) == broken_words(
            indent,
            words.skip(i),
            fill_breaks(indent, words, width, utf8, i, col),
        ),
        fill_breaks(indent, words, width, utf8, i, col).len() == words.len() - i,
    decreases words.len() - i,
{
    let ws = words.skip(i);
    let bs = fill_breaks(indent, words, width, utf8, i, col);
    if i < words.len() {
        let head = spec_display_width(indent, utf8, 0) + 2;
        let w = 1 + spec_display_width(words[i], utf8, 0);
        let b = col > head && col + w > width;
        let next = if b {
            head + w
        } else {
            col + w
        };
        lemma_fill_rest_words(indent, words, width, utf8, i + 1, next);
        assert(ws.skip(1) =~= words.skip(i + 1));
        assert(bs.skip(1) =~= fill_breaks(indent, words, width, utf8, i + 1, next));
        assert(ws[0] == words[i]);
        assert(bs[0] == b);
        if b {
            assert(seq![10u8] + indent + dashes() + seq![32u8] + words[i] + fill_rest(indent, words, width, utf8, i + 1, next)
                =~= (seq![10u8] + indent + dashes()) + seq![32u8] + words[i] + fill_rest(indent, words, width, utf8, i + 1, next));
        } else {
            assert(Seq::<u8>::empty() + seq![32u8] + words[i] =~= seq![32u8] + words[i]);
        }
    } else {
        assert(ws.len() == 0);
    }
}

/// Filling keeps the words and their order: the output is `indent` and `--`, then each word
/// after one space, some of them on a new `indent --` line, then a line feed; the first word
/// never starts a new line.
pub proof fn law_fill_keeps_words(indent: Seq<u8>, words: Seq<Seq<u8>>, width: int, utf8: bool)
    ensures
        exists|breaks: Seq<bool>|
            breaks.len() == words.len() && (words.len() > 0 ==> !breaks[0]) && spec_fill(
                indent,
                words,
                width,
                utf8,
            ) == indent + dashes() + broken_words(indent, words, breaks),
{
    let head = spec_display_width(indent, utf8, 0) + 2;
    lemma_fill_rest_words(indent, words, width, utf8, 0, head);
    assert(words.skip(0) =~= words);
    let breaks = fill_breaks(indent, words, width, utf8, 0, head);
    if words.len() > 0 {
        assert(!breaks[0]);
    }
    assert(breaks.len() == words.len() && (words.len() > 0 ==> !breaks[0]) && spec_fill(indent, words, width, utf8)
        == indent + dashes() + broken_words(indent, words, breaks));
}

/// Greedily fill `words` into `-- ` lines of at most `width` columns.
#[verifier::spinoff_prover]
#[verifier::rlimit(30)]
pub fn fill(indent: &[u8], words: &[&[u8]], width: usize, utf8: bool, out: &mut Vec<u8>)
    requires
        fill_fits(indent@, lines_view(words@)),
    ensures
        final(out)@ == old(out)@ + spec_fill(indent@, lines_view(words@), width as int, utf8),
{
    let ghost wv = lines_view(words@);
    proof {
        lemma_total_width(wv, 0);
        assert(wv.take(0) =~= Seq::<Seq<u8>>::empty());
    }
    let head = display_width(indent, utf8, 0) + 2;
    extend_bytes(out, indent);
    out.push(45u8);
    out.push(45u8);
    let ghost prefix = out@;
    assert(prefix =~= old(out)@ + indent@ + dashes());
    let mut col = head;
    let mut i: usize = 0;
    while i < words.len()
        invariant
            0 <= i <= words@.len(),
            wv == lines_view(words@),
            head == spec_display_width(indent@, utf8, 0) + 2,
            head <= 4 * indent@.len() + 2,
            fill_fits(indent@, wv),
            head <= col,
            col <= 4 * indent@.len() + 2 + total_width(wv.take(i as int)),
            prefix + fill_rest(indent@, wv, width as int, utf8, 0, head as int) == out@
                + fill_rest(indent@, wv, width as int, utf8, i as int, col as int),
        decreases words@.len() - i,
    {
        let word = words[i];
        proof {
            lemma_total_width(wv, i as int);
            lemma_total_width(wv, i + 1);
            assert(wv[i as int] == word@);
        }
        let w = 1 + display_width(word, utf8, 0);
        let ghost before = out@;
        let ghost c0 = col;
        let ghost i0 = i as int;
        let broke = col > head && col + w > width;
        if broke {
            out.push(10u8);
            extend_bytes(out, indent);
            out.push(45u8);
            out.push(45u8);
            col = head;
        }
        out.push(32u8);
        extend_bytes(out, word);
        col = col + w;
        i = i + 1;
        proof {
            let rest = fill_rest(indent@, wv, width as int, utf8, i as int, col as int);
            if broke {
                assert(out@ =~= before + seq![10u8] + indent@ + dashes() + seq![32u8] + word@);
                assert(fill_rest(indent@, wv, width as int, utf8, i0, c0 as int) =~= seq![10u8]
                    + indent@ + dashes() + seq![32u8] + word@ + rest);
            } else {
                assert(out@ =~= before + seq![32u8] + word@);
                assert(fill_rest(indent@, wv, width as int, utf8, i0, c0 as int) =~= seq![32u8]
                    + word@ + rest);
            }
            assert(out@ + rest =~= before + fill_rest(indent@, wv, width as int, utf8, i0, c0 as int));
        }
    }
    let ghost last = out@;
    out.push(10u8);
    proof {
        assert(fill_rest(indent@, wv, width as int, utf8, i as int, col as int) =~= seq![10u8]);
        assert(out@ =~= last + seq![10u8]);
        assert(old(out)@ + spec_fill(indent@, wv, width as int, utf8) =~= prefix + fill_rest(indent@, wv, width as int, utf8, 0, head as int));
    }
}


/// Whether `bytes` is valid UTF-8 (`std::str::from_utf8(bytes).is_ok()`), as the standard
/// library documents it.
#[verifier::external_body]
pub(crate) fn is_utf8(bytes: &[u8]) -> (r: bool)
    ensures
        r == vstd::utf8::valid_utf8(bytes@),
{
    std::str::from_utf8(bytes).is_ok()
}

/// Where the first line feed of `s` at or after `i` ends its line, or the length of `s`.
pub open spec fn line_end(s: Seq<u8>, i: int) -> int
    decreases s.len() - i,
{
    if i >= s.len() {
        s.len() as int
    } else if s[i] == 10u8 {
        i + 1
    } else {
        line_end(s, i + 1)
    }
}

pub proof fn lemma_line_end(s: Seq<u8>, i: int)
    requires
        0 <= i <= s.len(),
    ensures
        i <= line_end(s, i) <= s.len(),
        i < s.len() ==> i < line_end(s, i),
    decreases s.len() - i,
{
    if i < s.len() && s[i] != 10u8 {
        lemma_line_end(s, i + 1);
    }
}

/// The lines of `s[i..]`, each with its line feed (`split_inclusive`).
pub open spec fn lines_from(s: Seq<u8>, i: int) -> Seq<Seq<u8>>
    decreases s.len() - i,
{
    if i < 0 || i >= s.len() {
        Seq::empty()
    } else {
        let e = line_end(s, i);
        proof {
            lemma_line_end(s, i);
        }
        seq![s.subrange(i, e)] + lines_from(s, e)
    }
}

/// The lines of `source`, each with its line feed.
pub(crate) fn split_lines(source: &[u8]) -> (r: Vec<&[u8]>)
    ensures
        lines_view(r@) == lines_from(source@, 0),
{
    let mut out: Vec<&[u8]> = Vec::new();
    let mut i: usize = 0;
    assert(lines_view(out@) + lines_from(source@, 0) =~= lines_from(source@, 0));
    while i < source.len()
        invariant
            0 <= i <= source@.len(),
            lines_view(out@) + lines_from(source@, i as int) == lines_from(source@, 0),
        decreases source@.len() - i,
    {
        let mut e = i;
        while e < source.len() && source[e] != 10u8
            invariant
                i <= e <= source@.len(),
                line_end(source@, i as int) == line_end(source@, e as int),
            decreases source@.len() - e,
        {
            e = e + 1;
        }
        if e < source.len() {
            e = e + 1;
        }
        proof {
            lemma_line_end(source@, i as int);
        }
        let line = vstd::slice::slice_subrange(source, i, e);
        let ghost before = lines_view(out@);
        out.push(line);
        proof {
            assert(lines_view(out@) =~= before.push(line@));
            assert(lines_from(source@, i as int) == seq![line@] + lines_from(source@, e as int));
            assert(lines_view(out@) + lines_from(source@, e as int) =~= before + lines_from(source@, i as int));
        }
        i = e;
    }
    assert(lines_from(source@, i as int) =~= Seq::<Seq<u8>>::empty());
    assert(lines_view(out@) + Seq::<Seq<u8>>::empty() =~= lines_view(out@));
    out
}

/// The words of `t`: its runs of bytes between spaces, empty ones left out.
pub open spec fn words_of(t: Seq<u8>) -> Seq<Seq<u8>>
    decreases t.len(),
{
    if t.len() == 0 {
        Seq::empty()
    } else {
        let w = first_word(t);
        proof {
            lemma_first_word_len(t);
        }
        let rest = if w.len() < t.len() {
            words_of(t.skip(w.len() + 1int))
        } else {
            Seq::empty()
        };
        if w.len() > 0 {
            seq![w] + rest
        } else {
            rest
        }
    }
}

pub proof fn lemma_first_word_len(t: Seq<u8>)
    ensures
        first_word(t).len() <= t.len(),
        first_word(t).len() < t.len() ==> t[first_word(t).len() as int] == 32u8,
        first_word(t) == t.take(first_word(t).len() as int),
    decreases t.len(),
{
    if t.len() > 0 && t[0] != 32u8 {
        lemma_first_word_len(t.skip(1));
        assert(first_word(t) =~= t.take(first_word(t).len() as int));
    } else {
        assert(first_word(t) =~= t.take(0));
    }
}

/// What `-- vsg-rs: fmt off` and friends leave of a line to compare: its text, trimmed, in
/// lower case, without leading `-`, trimmed again.
pub open spec fn directive_body(line: Seq<u8>) -> Seq<char> {
    trimmed(without_dashes(lowered(trimmed(lossy_text(line)))))
}

/// `s` without its leading `-`.
pub open spec fn without_dashes(s: Seq<char>) -> Seq<char>
    decreases s.len(),
{
    if s.len() > 0 && s[0] == '-' {
        without_dashes(s.skip(1))
    } else {
        s
    }
}

/// Whether formatting is off after `line`, given whether it was off before.
pub open spec fn switch_off(line: Seq<u8>, off: bool) -> bool {
    let body = directive_body(line);
    if body == "vsg-rs: fmt off"@ || body == "vsg_off"@ {
        true
    } else if body == "vsg-rs: fmt on"@ || body == "vsg_on"@ {
        false
    } else {
        off
    }
}

/// Where the run of prose lines with indentation `indent` that starts at line `j` ends.
pub open spec fn paragraph_end(lines: Seq<Seq<u8>>, j: int, indent: Seq<u8>) -> int
    decreases lines.len() - j,
{
    if j < 0 || j >= lines.len() {
        lines.len() as int
    } else {
        match spec_prose(lines[j]) {
            Some((ind, _)) => if ind == indent {
                paragraph_end(lines, j + 1, indent)
            } else {
                j
            },
            None => j,
        }
    }
}

pub proof fn lemma_paragraph_end(lines: Seq<Seq<u8>>, j: int, indent: Seq<u8>)
    requires
        0 <= j <= lines.len(),
    ensures
        j <= paragraph_end(lines, j, indent) <= lines.len(),
        forall|k: int| j <= k < paragraph_end(lines, j, indent) ==> ((#[trigger] spec_prose(lines[k])) matches Some((ind, _)) && ind == indent),
    decreases lines.len() - j,
{
    if j < lines.len() {
        if let Some((ind, _)) = spec_prose(lines[j]) {
            if ind == indent {
                lemma_paragraph_end(lines, j + 1, indent);
            }
        }
    }
}

/// The words of the prose of lines `j..end`.
pub open spec fn paragraph_words(lines: Seq<Seq<u8>>, j: int, end: int) -> Seq<Seq<u8>>
    decreases end - j,
{
    if j < 0 || j >= end || j >= lines.len() {
        Seq::empty()
    } else {
        let text = match spec_prose(lines[j]) {
            Some((_, t)) => t,
            None => Seq::empty(),
        };
        words_of(text) + paragraph_words(lines, j + 1, end)
    }
}

/// The re-wrapped text of lines `i..`, formatting being off before line `i` when `off`.
pub open spec fn reflow_from(lines: Seq<Seq<u8>>, i: int, off: bool, width: int, utf8: bool) -> Seq<u8>
    decreases lines.len() - i,
{
    if i < 0 || i >= lines.len() {
        Seq::empty()
    } else {
        let off2 = switch_off(lines[i], off);
        if off2 {
            lines[i] + reflow_from(lines, i + 1, off2, width, utf8)
        } else {
            match spec_prose(lines[i]) {
                None => lines[i] + reflow_from(lines, i + 1, off2, width, utf8),
                Some((indent, first)) => {
                    let end = paragraph_end(lines, i + 1, indent);
                    proof {
                        lemma_paragraph_end(lines, i + 1, indent);
                    }
                    spec_fill(indent, words_of(first) + paragraph_words(lines, i + 1, end), width, utf8)
                        + reflow_from(lines, end, off2, width, utf8)
                },
            }
        }
    }
}

/// `s` with `\r` put back before each line feed that lacks one.
pub open spec fn restore_crlf(s: Seq<u8>) -> Seq<u8>
    decreases s.len(),
{
    if s.len() == 0 {
        Seq::empty()
    } else {
        restore_crlf(s.drop_last()) + if s.last() == 10u8 && !(s.len() >= 2 && s[s.len() - 2]
            == 13u8) {
            seq![13u8, 10u8]
        } else {
            seq![s.last()]
        }
    }
}

/// What re-wrapping the comment paragraphs of `source` gives.
pub open spec fn spec_comments(source: Seq<u8>, reflow: bool, width: int) -> Seq<u8> {
    if !reflow {
        source
    } else {
        let out = reflow_from(lines_from(source, 0), 0, false, width, vstd::utf8::valid_utf8(source));
        if source.contains(13u8) {
            restore_crlf(out)
        } else {
            out
        }
    }
}


/// The paragraph that prose line `i` starts: its indentation, its words (those of line `i`,
/// then those of the following prose lines of the same indentation, in order), and the line
/// after it.
pub open spec fn paragraph_at(lines: Seq<Seq<u8>>, i: int) -> (Seq<u8>, Seq<Seq<u8>>, int) {
    let (indent, first) = spec_prose(lines[i]).unwrap();
    let end = paragraph_end(lines, i + 1, indent);
    (indent, words_of(first) + paragraph_words(lines, i + 1, end), end)
}

/// Re-wrapping keeps the words of each comment paragraph and their order, and every other line
/// as it is: from line `i`, a line where formatting is off, or that is not prose, is kept; a
/// prose line starts a paragraph (see [`paragraph_at`]) whose words come out after its
/// indentation and `--`, each after one space, some of them on a new `indent --` line (never
/// the first), and the lines after the paragraph follow.
pub proof fn law_reflow_keeps_words(lines: Seq<Seq<u8>>, i: int, off: bool, width: int, utf8: bool)
    requires
        0 <= i < lines.len(),
    ensures
        (switch_off(lines[i], off) || spec_prose(lines[i]) is None) ==> reflow_from(lines, i, off, width, utf8)
            == lines[i] + reflow_from(lines, i + 1, switch_off(lines[i], off), width, utf8),
        (!switch_off(lines[i], off) && spec_prose(lines[i]) is Some) ==> exists|breaks: Seq<bool>|
            breaks.len() == paragraph_at(lines, i).1.len() && (paragraph_at(lines, i).1.len() > 0 ==> !breaks[0])
                && reflow_from(lines, i, off, width, utf8) == paragraph_at(lines, i).0 + dashes()
                + #[trigger] broken_words(paragraph_at(lines, i).0, paragraph_at(lines, i).1, breaks)
                + reflow_from(lines, paragraph_at(lines, i).2, false, width, utf8),
{
    if !switch_off(lines[i], off) && spec_prose(lines[i]) is Some {
        let (indent, words, end) = paragraph_at(lines, i);
        law_fill_keeps_words(indent, words, width, utf8);
        let breaks = choose|breaks: Seq<bool>|
            breaks.len() == words.len() && (words.len() > 0 ==> !breaks[0]) && spec_fill(indent, words, width, utf8)
                == indent + dashes() + broken_words(indent, words, breaks);
        assert(reflow_from(lines, i, off, width, utf8) == spec_fill(indent, words, width, utf8) + reflow_from(
            lines,
            end,
            false,
            width,
            utf8,
        ));
        assert(reflow_from(lines, i, off, width, utf8) == indent + dashes() + broken_words(indent, words, breaks)
            + reflow_from(lines, end, false, width, utf8));
    }
}

/// The total length of lines `j..end`.
pub open spec fn lens(lines: Seq<Seq<u8>>, j: int, end: int) -> int
    decreases end - j,
{
    if j < 0 || j >= end || j >= lines.len() {
        0
    } else {
        lines[j].len() + lens(lines, j + 1, end)
    }
}

proof fn lemma_total_width_append(a: Seq<Seq<u8>>, b: Seq<Seq<u8>>)
    ensures
        total_width(a + b) == total_width(a) + total_width(b),
    decreases b.len(),
{
    if b.len() == 0 {
        assert(a + b =~= a);
    } else {
        lemma_total_width_append(a, b.drop_last());
        assert((a + b).drop_last() =~= a + b.drop_last());
    }
}

proof fn lemma_words_width(t: Seq<u8>)
    ensures
        total_width(words_of(t)) <= 5 * t.len(),
    decreases t.len(),
{
    if t.len() > 0 {
        let w = first_word(t);
        lemma_first_word_len(t);
        let rest = if w.len() < t.len() {
            words_of(t.skip(w.len() + 1int))
        } else {
            Seq::empty()
        };
        if w.len() < t.len() {
            lemma_words_width(t.skip(w.len() + 1int));
        }
        if w.len() > 0 {
            lemma_total_width_append(seq![w], rest);
            assert(seq![w].drop_last() =~= Seq::<Seq<u8>>::empty());
            assert(total_width(Seq::<Seq<u8>>::empty()) == 0);
            assert(seq![w].last() == w);
            assert(total_width(seq![w]) == total_width(seq![w].drop_last()) + 1 + 4 * seq![w].last().len());
        }
    }
}

proof fn lemma_paragraph_width(lines: Seq<Seq<u8>>, j: int, end: int)
    requires
        0 <= j,
    ensures
        total_width(paragraph_words(lines, j, end)) <= 5 * lens(lines, j, end),
        lens(lines, j, end) >= 0,
    decreases end - j,
{
    if !(j >= end || j >= lines.len()) {
        lemma_paragraph_width(lines, j + 1, end);
        let text = match spec_prose(lines[j]) {
            Some((_, t)) => t,
            None => Seq::empty(),
        };
        lemma_words_width(text);
        lemma_total_width_append(words_of(text), paragraph_words(lines, j + 1, end));
        assert(text.len() <= lines[j].len()) by {
            lemma_prose_text_len(lines[j]);
        }
    }
}

pub proof fn lemma_prose_text_len(line: Seq<u8>)
    ensures
        spec_prose(line) matches Some((indent, text)) ==> text.len() <= line.len() && indent.len()
            <= line.len(),
{
    if !all_ws(line) {
        let code = first_code(line);
        lemma_first_code(line);
    }
}

pub(crate) proof fn lemma_lens_lines(s: Seq<u8>, i: int)
    requires
        0 <= i <= s.len(),
    ensures
        lens(lines_from(s, i), 0, lines_from(s, i).len() as int) == s.len() - i,
    decreases s.len() - i,
{
    if i < s.len() {
        let e = line_end(s, i);
        lemma_line_end(s, i);
        lemma_lens_lines(s, e);
        let rest = lines_from(s, e);
        let all = lines_from(s, i);
        assert(all == seq![s.subrange(i, e)] + rest);
        lemma_lens_shift(all, rest, 0, rest.len() as int);
    }
}

/// The lengths of the lines after the first are those of the rest.
proof fn lemma_lens_shift(all: Seq<Seq<u8>>, rest: Seq<Seq<u8>>, j: int, end: int)
    requires
        all.len() == rest.len() + 1,
        forall|k: int| 0 <= k < rest.len() ==> all[k + 1] == rest[k],
        0 <= j,
        end == rest.len(),
    ensures
        lens(all, j + 1, end + 1) == lens(rest, j, end),
    decreases end - j,
{
    if j < end {
        lemma_lens_shift(all, rest, j + 1, end);
    }
}

pub(crate) proof fn lemma_lens_split(lines: Seq<Seq<u8>>, a: int, b: int, c: int)
    requires
        0 <= a <= b <= c <= lines.len(),
    ensures
        lens(lines, a, c) == lens(lines, a, b) + lens(lines, b, c),
    decreases b - a,
{
    if a < b {
        lemma_lens_split(lines, a + 1, b, c);
    }
}

pub(crate) proof fn lemma_lens_nonneg(lines: Seq<Seq<u8>>, a: int, b: int)
    requires
        0 <= a,
    ensures
        lens(lines, a, b) >= 0,
    decreases b - a,
{
    if !(a >= b || a >= lines.len()) {
        lemma_lens_nonneg(lines, a + 1, b);
    }
}


/// A paragraph of a source of `n` bytes, `9 * n + 2` fitting in `usize`, can be filled.
proof fn lemma_paragraph_fits(lv: Seq<Seq<u8>>, i: int, end: int, indent: Seq<u8>, first: Seq<u8>)
    requires
        0 <= i < end <= lv.len(),
        spec_prose(lv[i]) == Some((indent, first)),
        9 * lens(lv, 0, lv.len() as int) + 2 <= usize::MAX,
    ensures
        fill_fits(indent, words_of(first) + paragraph_words(lv, i + 1, end)),
{
    lemma_paragraph_width(lv, i + 1, end);
    lemma_words_width(first);
    lemma_total_width_append(words_of(first), paragraph_words(lv, i + 1, end));
    lemma_prose_text_len(lv[i]);
    lemma_lens_split(lv, 0, i, lv.len() as int);
    lemma_lens_split(lv, i, end, lv.len() as int);
    lemma_lens_nonneg(lv, 0, i);
    lemma_lens_nonneg(lv, end, lv.len() as int);
    assert(lens(lv, i, end) == lv[i].len() + lens(lv, i + 1, end));
}

/// Whether two character sequences are equal.
fn same_chars(a: &Vec<char>, from: usize, to: usize, b: &Vec<char>) -> (r: bool)
    requires
        from <= to <= a@.len(),
    ensures
        r == (a@.subrange(from as int, to as int) == b@),
{
    if to - from != b.len() {
        return false;
    }
    let mut i: usize = 0;
    while i < b.len()
        invariant
            0 <= i <= b@.len(),
            to - from == b@.len(),
            from <= to <= a@.len(),
            forall|k: int| 0 <= k < i ==> a@[from + k] == b@[k],
        decreases b@.len() - i,
    {
        if a[from + i] != b[i] {
            return false;
        }
        i = i + 1;
    }
    assert(a@.subrange(from as int, to as int) =~= b@);
    true
}

/// Whether formatting is off after `line`, given whether it was off before.
pub(crate) fn switch(line: &[u8], off: bool) -> (r: bool)
    ensures
        r == switch_off(line@, off),
{
    let text = utf8_lossy(line);
    let v = chars_of(text.as_str());
    let (a, b) = trim_range(&v, 0, v.len());
    assert(v@.subrange(0, v@.len() as int) =~= v@);
    let low = crate::chars::lower_all(&v);
    let ghost t = lowered(trimmed(lossy_text(line@)));
    assert(low@.subrange(a as int, b as int) =~= t);
    let mut d = a;
    assert(t.skip(0) =~= t);
    while d < b && low[d] == '-'
        invariant
            a <= d <= b <= low@.len(),
            t == low@.subrange(a as int, b as int),
            without_dashes(t) == without_dashes(low@.subrange(d as int, b as int)),
        decreases b - d,
    {
        assert(low@.subrange(d as int, b as int).skip(1) =~= low@.subrange(d + 1, b as int));
        d = d + 1;
    }
    assert(without_dashes(low@.subrange(d as int, b as int)) == low@.subrange(d as int, b as int));
    let (x, y) = trim_range(&low, d, b);
    let off_long = chars_of("vsg-rs: fmt off");
    let off_short = chars_of("vsg_off");
    let on_long = chars_of("vsg-rs: fmt on");
    let on_short = chars_of("vsg_on");
    if same_chars(&low, x, y, &off_long) || same_chars(&low, x, y, &off_short) {
        true
    } else if same_chars(&low, x, y, &on_long) || same_chars(&low, x, y, &on_short) {
        false
    } else {
        off
    }
}

/// Append the words of `t` to `out`.
fn push_words<'a>(t: &'a [u8], out: &mut Vec<&'a [u8]>)
    ensures
        lines_view(final(out)@) == lines_view(old(out)@) + words_of(t@),
{
    let mut i: usize = 0;
    assert(t@.skip(0) =~= t@);
    assert(lines_view(out@) + words_of(t@.skip(0)) =~= lines_view(old(out)@) + words_of(t@));
    while i < t.len()
        invariant
            0 <= i <= t@.len(),
            lines_view(out@) + words_of(t@.skip(i as int)) == lines_view(old(out)@) + words_of(t@),
        decreases t@.len() - i,
    {
        let ghost rest = t@.skip(i as int);
        let mut e = i;
        assert(first_word(rest) =~= t@.subrange(i as int, e as int) + first_word(t@.skip(e as int)));
        while e < t.len() && t[e] != 32u8
            invariant
                i <= e <= t@.len(),
                rest == t@.skip(i as int),
                first_word(rest) == t@.subrange(i as int, e as int) + first_word(t@.skip(e as int)),
            decreases t@.len() - e,
        {
            assert(t@.skip(e as int).skip(1) =~= t@.skip(e + 1));
            assert(t@.subrange(i as int, e + 1) =~= t@.subrange(i as int, e as int) + seq![t@[e as int]]);
            e = e + 1;
        }
        assert(first_word(t@.skip(e as int)) =~= Seq::<u8>::empty());
        assert(first_word(rest) =~= t@.subrange(i as int, e as int));
        let ghost before = lines_view(out@);
        if e > i {
            let w = vstd::slice::slice_subrange(t, i, e);
            out.push(w);
            assert(lines_view(out@) =~= before.push(w@));
        }
        let next = if e < t.len() {
            e + 1
        } else {
            e
        };
        proof {
            let w = first_word(rest);
            lemma_first_word_len(rest);
            if e < t@.len() {
                assert(rest.skip(w.len() + 1int) =~= t@.skip(next as int));
            } else {
                assert(t@.skip(next as int) =~= Seq::<u8>::empty());
            }
            assert(lines_view(out@) + words_of(t@.skip(next as int)) =~= before + words_of(rest));
        }
        i = next;
    }
    assert(t@.skip(i as int) =~= Seq::<u8>::empty());
    assert(lines_view(out@) + Seq::<Seq<u8>>::empty() =~= lines_view(out@));
}

/// Append to `words` the words of the paragraph that goes on at line `start`: the run of
/// prose lines with indentation `indent`. Returns the line where the run ends.
fn gather<'a>(lines: &Vec<&'a [u8]>, start: usize, indent: &[u8], words: &mut Vec<&'a [u8]>) -> (end: usize)
    requires
        start <= lines@.len(),
    ensures
        end == paragraph_end(lines_view(lines@), start as int, indent@),
        start <= end <= lines@.len(),
        lines_view(final(words)@) == lines_view(old(words)@) + paragraph_words(
            lines_view(lines@),
            start as int,
            end as int,
        ),
{
    let ghost lv = lines_view(lines@);
    let mut j = start;
    assert(paragraph_words(lv, start as int, start as int) =~= Seq::<Seq<u8>>::empty());
    assert(lines_view(words@) =~= lines_view(old(words)@) + paragraph_words(lv, start as int, start as int));
    while j < lines.len()
        invariant
            start <= j <= lines@.len(),
            lv == lines_view(lines@),
            paragraph_end(lv, start as int, indent@) == paragraph_end(lv, j as int, indent@),
            lines_view(words@) == lines_view(old(words)@) + paragraph_words(lv, start as int, j as int),
        ensures
            start <= j <= lines@.len(),
            paragraph_end(lv, start as int, indent@) == j,
            lines_view(words@) == lines_view(old(words)@) + paragraph_words(lv, start as int, j as int),
        decreases lines@.len() - j,
    {
        assert(lv[j as int] == lines@[j as int]@);
        match prose(lines[j]) {
            Some((ind, text)) => {
                if !bytes_eq(ind, indent) {
                    break;
                }
                let ghost wb = lines_view(words@);
                push_words(text, words);
                proof {
                    lemma_paragraph_words_split(lv, start as int, j as int);
                    assert(paragraph_words(lv, j + 1, j + 1) =~= Seq::<Seq<u8>>::empty());
                    assert(paragraph_words(lv, j as int, j + 1) =~= words_of(text@));
                    assert(lines_view(words@) =~= lines_view(old(words)@) + paragraph_words(lv, start as int, j + 1));
                }
                j = j + 1;
            },
            None => {
                break;
            },
        }
    }
    j
}

/// `s` with `\r` put back before each line feed that lacks one.
fn with_crlf(s: &[u8]) -> (r: Vec<u8>)
    ensures
        r@ == restore_crlf(s@),
{
    let mut out: Vec<u8> = Vec::new();
    let mut i: usize = 0;
    while i < s.len()
        invariant
            0 <= i <= s@.len(),
            out@ == restore_crlf(s@.take(i as int)),
        decreases s@.len() - i,
    {
        let ghost before = out@;
        assert(s@.take(i + 1).drop_last() =~= s@.take(i as int));
        let b = s[i];
        if b == 10u8 && !(i >= 1 && s[i - 1] == 13u8) {
            out.push(13u8);
        }
        out.push(b);
        proof {
            let p = s@.take(i + 1);
            if b == 10u8 && !(i >= 1 && s@[i - 1] == 13u8) {
                assert(out@ =~= before + seq![13u8, 10u8]);
            } else {
                assert(out@ =~= before + seq![b]);
            }
            if i >= 1 {
                assert(p[p.len() - 2] == s@[i - 1]);
            }
        }
        i = i + 1;
    }
    assert(s@.take(s@.len() as int) =~= s@);
    out
}

/// Re-wrap what starts at line `i` (one line, or the paragraph that starts there) onto `out`.
/// Returns the next line and whether formatting is off after what was consumed.
#[verifier::rlimit(40)]
#[verifier::spinoff_prover]
fn reflow_step<'a>(
    lines: &Vec<&'a [u8]>,
    i: usize,
    off: bool,
    width: usize,
    utf8: bool,
    out: &mut Vec<u8>,
) -> (r: (usize, bool))
    requires
        i < lines@.len(),
        9 * lens(lines_view(lines@), 0, lines@.len() as int) + 2 <= usize::MAX,
    ensures
        i < r.0 <= lines@.len(),
        final(out)@ + reflow_from(lines_view(lines@), r.0 as int, r.1, width as int, utf8) == old(
            out,
        )@ + reflow_from(lines_view(lines@), i as int, off, width as int, utf8),
{
    let ghost lv = lines_view(lines@);
    let count = lines.len();
    let line = lines[i];
    assert(lv[i as int] == line@ && i < count);
    let next_off = switch(line, off);
    if next_off {
        extend_bytes(out, line);
        assert(final(out)@ + reflow_from(lv, i + 1, next_off, width as int, utf8) =~= old(out)@ + reflow_from(lv, i as int, off, width as int, utf8));
        return (i + 1, next_off);
    }
    match prose(line) {
        None => {
            extend_bytes(out, line);
            assert(final(out)@ + reflow_from(lv, i + 1, next_off, width as int, utf8) =~= old(out)@ + reflow_from(lv, i as int, off, width as int, utf8));
            (i + 1, next_off)
        },
        Some((indent, first)) => {
            // A paragraph is the run of prose comment lines that share the first line's
            // indentation.
            let mut words: Vec<&[u8]> = Vec::new();
            push_words(first, &mut words);
            let end = gather(lines, i + 1, indent, &mut words);
            proof {
                lemma_paragraph_fits(lv, i as int, end as int, indent@, first@);
            }
            let ghost filled = spec_fill(
                indent@,
                words_of(first@) + paragraph_words(lv, i + 1, end as int),
                width as int,
                utf8,
            );
            fill(indent, words.as_slice(), width, utf8, out);
            assert(reflow_from(lv, i as int, off, width as int, utf8) == filled + reflow_from(lv, end as int, next_off, width as int, utf8));
            assert(final(out)@ + reflow_from(lv, end as int, next_off, width as int, utf8) =~= old(out)@ + (filled + reflow_from(lv, end as int, next_off, width as int, utf8)));
            (end, next_off)
        },
    }
}

/// Re-wrap the comment paragraphs of formatted `source` to `width` columns, when `reflow`
/// (`vsg_rs: reflow_comments`) asks for it.
pub fn comments(source: Vec<u8>, reflow: bool, width: usize) -> (r: Vec<u8>)
    requires
        9 * source@.len() + 2 <= usize::MAX,
    ensures
        r@ == spec_comments(source@, reflow, width as int),
{
    if !reflow {
        return source;
    }
    let utf8 = is_utf8(source.as_slice());
    let crlf = contains_byte(source.as_slice(), 13u8);
    let lines = split_lines(source.as_slice());
    let ghost lv = lines_view(lines@);
    proof {
        lemma_lens_lines(source@, 0);
    }
    let mut out: Vec<u8> = Vec::new();
    let mut i: usize = 0;
    let mut off = false;
    assert(out@ + reflow_from(lv, 0, false, width as int, utf8) =~= reflow_from(lv, 0, false, width as int, utf8));
    while i < lines.len()
        invariant
            0 <= i <= lines@.len(),
            lv == lines_view(lines@),
            lens(lv, 0, lv.len() as int) == source@.len(),
            9 * source@.len() + 2 <= usize::MAX,
            out@ + reflow_from(lv, i as int, off, width as int, utf8) == reflow_from(lv, 0, false, width as int, utf8),
        decreases lines@.len() - i,
    {
        let (next, next_off) = reflow_step(&lines, i, off, width, utf8, &mut out);
        i = next;
        off = next_off;
    }
    assert(reflow_from(lv, i as int, off, width as int, utf8) =~= Seq::<u8>::empty());
    assert(out@ + Seq::<u8>::empty() =~= out@);
    if crlf {
        // `fill` writes LF, so restore the line ending the rest of the file already uses.
        return with_crlf(out.as_slice());
    }
    out
}

proof fn lemma_paragraph_words_split(lines: Seq<Seq<u8>>, a: int, j: int)
    requires
        0 <= a <= j < lines.len(),
    ensures
        paragraph_words(lines, a, j + 1) == paragraph_words(lines, a, j) + paragraph_words(lines, j, j + 1),
    decreases j - a,
{
    if a < j {
        lemma_paragraph_words_split(lines, a + 1, j);
        assert(paragraph_words(lines, a, j + 1) =~= paragraph_words(lines, a, j) + paragraph_words(lines, j, j + 1));
    } else {
        assert(paragraph_words(lines, a, a) =~= Seq::<Seq<u8>>::empty());
        assert(paragraph_words(lines, a + 1, a + 1) =~= Seq::<Seq<u8>>::empty());
    }
}

} // verus!
