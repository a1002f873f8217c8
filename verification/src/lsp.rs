//! What the language server computes from plain values: file paths from the path component of
//! a `file:` URI, and positions.
use vstd::prelude::*;
use vstd::string::StringSliceAdditionalSpecFns;

verus! {

/// The value of an ASCII hexadecimal digit.
pub open spec fn hex_value(b: u8) -> Option<u8> {
    if 48u8 <= b <= 57u8 {
        Some((b - 48) as u8)
    } else if 97u8 <= b <= 102u8 {
        Some((b - 87) as u8)
    } else if 65u8 <= b <= 70u8 {
        Some((b - 55) as u8)
    } else {
        None
    }
}

fn hex(b: u8) -> (r: Option<u8>)
    ensures
        r == hex_value(b),
{
    if 48u8 <= b && b <= 57u8 {
        Some(b - 48)
    } else if 97u8 <= b && b <= 102u8 {
        Some(b - 87)
    } else if 65u8 <= b && b <= 70u8 {
        Some(b - 55)
    } else {
        None
    }
}

/// The byte an escape `%XY` at position `i` stands for: `X` and `Y` are both hexadecimal
/// digits. A `%` followed by anything else is no escape.
pub open spec fn escape_at(b: Seq<u8>, i: int) -> Option<u8> {
    if 0 <= i && i + 3 <= b.len() && b[i] == 37u8 {
        match (hex_value(b[i + 1]), hex_value(b[i + 2])) {
            (Some(h), Some(l)) => Some((h * 16 + l) as u8),
            _ => None,
        }
    } else {
        None
    }
}

/// `b[i..]` with its escapes decoded.
pub open spec fn decoded_from(b: Seq<u8>, i: int) -> Seq<u8>
    decreases b.len() - i,
{
    if i < 0 || i >= b.len() {
        Seq::empty()
    } else {
        match escape_at(b, i) {
            Some(v) => seq![v] + decoded_from(b, i + 3),
            None => seq![b[i]] + decoded_from(b, i + 1),
        }
    }
}

/// `%20` and friends, decoded in a byte string. Anything that is not a valid escape is left as
/// it was.
pub fn percent_decode_bytes(bytes: &[u8]) -> (r: Vec<u8>)
    ensures
        r@ == decoded_from(bytes@, 0),
{
    let mut out: Vec<u8> = Vec::new();
    let mut at: usize = 0;
    assert(out@ + decoded_from(bytes@, 0) =~= decoded_from(bytes@, 0));
    while at < bytes.len()
        invariant
            0 <= at <= bytes@.len(),
            out@ + decoded_from(bytes@, at as int) == decoded_from(bytes@, 0),
        decreases bytes@.len() - at,
    {
        let ghost before = out@;
        let mut decoded: Option<u8> = None;
        if bytes[at] == 37u8 && bytes.len() - at >= 3 {
            let high = hex(bytes[at + 1]);
            let low = hex(bytes[at + 2]);
            decoded = match (high, low) {
                (Some(h), Some(l)) => Some(h * 16 + l),
                _ => None,
            };
        }
        assert(decoded == escape_at(bytes@, at as int));
        match decoded {
            Some(v) => {
                out.push(v);
                at = at + 3;
            },
            None => {
                out.push(bytes[at]);
                at = at + 1;
            },
        }
        assert(out@ + decoded_from(bytes@, at as int) =~= before + decoded_from(
            bytes@,
            at as int - (if decoded is Some { 3int } else { 1int }),
        ));
    }
    assert(decoded_from(bytes@, at as int) =~= Seq::<u8>::empty());
    assert(out@ + Seq::<u8>::empty() =~= out@);
    out
}

/// What `String::from_utf8_lossy` makes of a byte string: the text it encodes, with each
/// invalid sequence replaced by U+FFFD.
pub uninterp spec fn lossy_text(bytes: Seq<u8>) -> Seq<char>;

/// `String::from_utf8_lossy(bytes).into_owned()`. Claimed: the result is a function of the
/// bytes alone, and valid UTF-8 is decoded unchanged, as the standard library documents. How
/// invalid sequences are replaced is left unsaid.
#[verifier::external_body]
pub(crate) fn utf8_lossy(bytes: &[u8]) -> (r: String)
    ensures
        r@ == lossy_text(bytes@),
        vstd::utf8::valid_utf8(bytes@) ==> r@ == vstd::utf8::decode_utf8(bytes@),
{
    String::from_utf8_lossy(bytes).into_owned()
}

/// `%20` and friends, decoded. Anything that is not a valid escape is left as it was.
pub fn percent_decode(text: &str) -> (r: String)
    ensures
        r@ == lossy_text(decoded_from(text.spec_bytes(), 0)),
        vstd::utf8::valid_utf8(decoded_from(text.spec_bytes(), 0)) ==> r@ == vstd::utf8::decode_utf8(
            decoded_from(text.spec_bytes(), 0),
        ),
{
    let bytes = percent_decode_bytes(text.as_bytes());
    utf8_lossy(bytes.as_slice())
}

/// Whether `p` starts with a drive letter, `C:` then `/` or nothing.
pub open spec fn is_drive(p: Seq<char>) -> bool {
    p.len() >= 2 && (('a' <= p[0] <= 'z') || ('A' <= p[0] <= 'Z')) && p[1] == ':' && (p.len() == 2
        || p[2] == '/')
}

/// The path of a `file:` URI's path component: a Windows URI is `file:///C:/dir/x.vhd`, whose
/// path component `/C:/dir/x.vhd` loses its first `/`.
pub open spec fn spec_file_path(path: Seq<char>) -> Seq<char> {
    if path.len() > 0 && path[0] == '/' && is_drive(path.skip(1)) {
        path.skip(1)
    } else {
        path
    }
}

/// The file path an editor URI's path component stands for, percent-escapes decoded.
pub fn file_path(uri_path: &str) -> (r: String)
    ensures
        r@ == lossy_text(decoded_from(vstd::utf8::encode_utf8(spec_file_path(uri_path@)), 0)),
{
    let v = crate::chars::chars_of(uri_path);
    let n = v.len();
    let drive = n >= 3 && v[0] == '/' && (('a' <= v[1] && v[1] <= 'z') || ('A' <= v[1] && v[1]
        <= 'Z')) && v[2] == ':' && (n == 3 || v[3] == '/');
    let start: usize = if drive {
        1
    } else {
        0
    };
    proof {
        if drive {
            assert(v@.skip(1)[0] == v@[1] && v@.skip(1)[1] == v@[2]);
            if n > 3 {
                assert(v@.skip(1)[2] == v@[3]);
            }
        } else if v@.len() > 0 && v@[0] == '/' && is_drive(v@.skip(1)) {
            assert(v@.skip(1)[0] == v@[1] && v@.skip(1)[1] == v@[2]);
            if n > 3 {
                assert(v@.skip(1)[2] == v@[3]);
            }
        }
    }
    let path = crate::chars::string_of(&v, start, n);
    assert(v@.subrange(start as int, n as int) =~= spec_file_path(uri_path@));
    percent_decode(path.as_str())
}

/// A one-based line and column, as a zero-based LSP position.
pub fn position_at(line: usize, column: usize) -> (r: (u32, u32))
    ensures
        r.0 == (if 1 <= line <= u32::MAX + 1 {
            line - 1
        } else {
            0
        }),
        r.1 == (if 1 <= column <= u32::MAX + 1 {
            column - 1
        } else {
            0
        }),
{
    let l = line.saturating_sub(1);
    let c = column.saturating_sub(1);
    let lu: u32 = if l <= u32::MAX as usize {
        l as u32
    } else {
        0
    };
    let cu: u32 = if c <= u32::MAX as usize {
        c as u32
    } else {
        0
    };
    (lu, cu)
}

} // verus!
