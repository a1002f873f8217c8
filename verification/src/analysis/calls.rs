//! `lint_760`: a subprogram whose body calls itself.
//!
//! Recursion is legal VHDL and simulates, but no synthesis tool accepts it: the hardware for a
//! subprogram is inlined at each call, and a call that reaches itself has no bottom to inline
//! from. Only direct recursion is reported, and only from the resolved symbol table: a body that
//! names itself nearly always calls a different overload of the same name. What this module
//! decides, from the bodies and the resolved references the analysis found, is which calls are
//! a subprogram's own: a call belongs to the innermost body it is written in.
use vstd::prelude::*;

use vstd::string::StringExecFns;

verus! {

/// A place in a file: line and character, both counted from zero.
#[derive(Clone, Copy, Debug, PartialEq, Eq)]
pub struct Place {
    pub line: u32,
    pub character: u32,
}

/// A stretch of a file: which file (by number), from where to where.
#[derive(Clone, Copy, Debug, PartialEq, Eq)]
pub struct Span {
    pub file: usize,
    pub start: Place,
    pub end: Place,
}

/// Whether `a` is at or before `b`: by line, then character.
pub open spec fn at_or_before(a: Place, b: Place) -> bool {
    a.line < b.line || (a.line == b.line && a.character <= b.character)
}

/// Whether `inner` falls inside `outer`, in the same file.
pub open spec fn spec_contains(outer: Span, inner: Span) -> bool {
    outer.file == inner.file && at_or_before(outer.start, inner.start) && at_or_before(inner.end, outer.end)
}

/// The number of lines a span runs over, less one.
pub open spec fn height(s: Span) -> int {
    s.end.line - s.start.line
}

/// Which of the first `j` bodies a call at `pos` is written in: among those that contain it,
/// the first of the fewest lines.
pub open spec fn innermost_upto(bodies: Seq<Span>, pos: Span, j: int) -> Option<int>
    decreases j,
{
    if j <= 0 || j > bodies.len() {
        None
    } else {
        let before = innermost_upto(bodies, pos, j - 1);
        if spec_contains(bodies[j - 1], pos) && match before {
            None => true,
            Some(b) => height(bodies[j - 1]) < height(bodies[b]),
        } {
            Some(j - 1)
        } else {
            before
        }
    }
}

/// Which body a call at `pos` is written in.
pub open spec fn innermost(bodies: Seq<Span>, pos: Span) -> Option<int> {
    innermost_upto(bodies, pos, bodies.len() as int)
}

/// Whether body `b` calls itself: some call to it is written in it, innermost.
pub open spec fn calls_itself(bodies: Seq<Span>, calls: Seq<(Span, usize)>, b: int) -> bool {
    exists|k: int| 0 <= k < calls.len() && #[trigger] calls[k].1 == b && innermost(bodies, calls[k].0) == Some(b)
}

/// Every body's span runs forwards.
pub open spec fn spans_ok(bodies: Seq<Span>) -> bool {
    forall|i: int| 0 <= i < bodies.len() ==> (#[trigger] bodies[i]).start.line <= bodies[i].end.line
}

fn contains(outer: &Span, inner: &Span) -> (r: bool)
    ensures
        r == spec_contains(*outer, *inner),
{
    outer.file == inner.file && (outer.start.line < inner.start.line || (outer.start.line == inner.start.line
        && outer.start.character <= inner.start.character)) && (inner.end.line < outer.end.line || (
    inner.end.line == outer.end.line && inner.end.character <= outer.end.character))
}

/// Which body a call at `pos` is written in.
pub fn innermost_body(bodies: &Vec<Span>, pos: &Span) -> (r: Option<usize>)
    requires
        spans_ok(bodies@),
    ensures
        match r {
            Some(b) => b < bodies@.len() && innermost(bodies@, *pos) == Some(b as int),
            None => innermost(bodies@, *pos) is None,
        },
{
    let mut best: Option<usize> = None;
    let mut j: usize = 0;
    while j < bodies.len()
        invariant
            0 <= j <= bodies@.len(),
            spans_ok(bodies@),
            match best {
                Some(b) => b < j && innermost_upto(bodies@, *pos, j as int) == Some(b as int),
                None => innermost_upto(bodies@, *pos, j as int) is None,
            },
        decreases bodies@.len() - j,
    {
        let s = &bodies[j];
        assert(bodies@[j as int] == *s);
        if contains(s, pos) {
            let smaller = match best {
                None => true,
                Some(b) => {
                    assert(bodies@[b as int].start.line <= bodies@[b as int].end.line);
                    s.end.line - s.start.line < bodies[b].end.line - bodies[b].start.line
                },
            };
            if smaller {
                best = Some(j);
            }
        }
        j = j + 1;
    }
    best
}

/// For each body, whether it calls itself. `calls` are the resolved references: where each is
/// written, and the body it refers to.
pub fn recursive(bodies: &Vec<Span>, calls: &Vec<(Span, usize)>) -> (r: Vec<bool>)
    requires
        spans_ok(bodies@),
    ensures
        r@.len() == bodies@.len(),
        forall|b: int| 0 <= b < bodies@.len() ==> #[trigger] r@[b] == calls_itself(bodies@, calls@, b),
{
    let mut out: Vec<bool> = Vec::new();
    let mut i: usize = 0;
    while i < bodies.len()
        invariant
            0 <= i <= bodies@.len(),
            out@.len() == i,
            forall|b: int| 0 <= b < i ==> !#[trigger] out@[b],
        decreases bodies@.len() - i,
    {
        out.push(false);
        i = i + 1;
    }
    let mut k: usize = 0;
    while k < calls.len()
        invariant
            0 <= k <= calls@.len(),
            spans_ok(bodies@),
            out@.len() == bodies@.len(),
            forall|b: int|
                0 <= b < bodies@.len() ==> #[trigger] out@[b] == exists|q: int|
                    0 <= q < k && #[trigger] calls@[q].1 == b && innermost(bodies@, calls@[q].0) == Some(b),
        decreases calls@.len() - k,
    {
        let (pos, callee) = calls[k];
        assert(calls@[k as int] == (pos, callee));
        let ghost before = out@;
        let found = innermost_body(bodies, &pos);
        if let Some(caller) = found {
            if caller == callee {
                out.set(callee, true);
            }
        }
        proof {
            assert forall|b: int| 0 <= b < bodies@.len() && out@[b] && !before[b] implies calls@[k as int].1 == b
                && innermost(bodies@, calls@[k as int].0) == Some(b) by {
                assert(found == Some(callee) && b == callee as int);
            }
        }
        k = k + 1;
        assert forall|b: int| 0 <= b < bodies@.len() implies #[trigger] out@[b] == exists|q: int|
            0 <= q < k && #[trigger] calls@[q].1 == b && innermost(bodies@, calls@[q].0) == Some(b) by {
            if out@[b] && !before[b] {
                assert(calls@[k - 1].1 == b && innermost(bodies@, calls@[k - 1].0) == Some(b));
            }
            if exists|q: int| 0 <= q < k && #[trigger] calls@[q].1 == b && innermost(bodies@, calls@[q].0) == Some(b) {
                let q = choose|q: int| 0 <= q < k && #[trigger] calls@[q].1 == b && innermost(bodies@, calls@[q].0) == Some(b);
                if q < k - 1 {
                    assert(before[b]);
                }
            }
        }
    }
    out
}

/// `Subprogram 'name' calls itself. ...`.
pub open spec fn recursion_message(name: Seq<char>) -> Seq<char> {
    "Subprogram '"@ + name + "' calls itself. Recursion is legal VHDL and simulates, but no synthesis tool accepts it: the hardware for a call is inlined, and a call that reaches itself has no bottom to inline from."@
}

/// What `lint_760` says of a subprogram that calls itself.
pub fn message(name: &str) -> (r: String)
    ensures
        r@ == recursion_message(name@),
{
    let mut m = String::from_str("Subprogram '");
    m.append(name);
    m.append("' calls itself. Recursion is legal VHDL and simulates, but no synthesis tool accepts it: the hardware for a call is inlined, and a call that reaches itself has no bottom to inline from.");
    proof {
        reveal_strlit("Subprogram '");
        reveal_strlit("' calls itself. Recursion is legal VHDL and simulates, but no synthesis tool accepts it: the hardware for a call is inlined, and a call that reaches itself has no bottom to inline from.");
    }
    m
}

} // verus!
