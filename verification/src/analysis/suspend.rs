//! A process that can never suspend (`lint_770`): no sensitivity list and no wait statement, so
//! it restarts without ever letting simulation time advance. A procedure call may hold the
//! missing `wait`, and resolving it is the only way to know, so a process that calls one is
//! left alone.
use vstd::prelude::*;

use crate::analysis::design::{contains_text, has_text, put_finding, sort_findings};
use crate::analysis::lint::{finding_view, finding_views, related_view, Finding, Related, SFinding};
use crate::analysis::syntax::{
    all_tokens, find, nodes_of, spec_find, spec_text_of, spec_tokens, text_of, tokens_of, Kind,
    Node,
};
use crate::bytes::str_eq;
use crate::chars::{chars_of, lowered};
use crate::text::{line_col, spec_line_col};
use std::path::PathBuf;
use vstd::string::StringExecFns;

verus! {

/// Whether a process has a sensitivity list in any form, `process (all)` included: a
/// sensitivity list is a `wait` at the end of the body, spelled differently.
pub open spec fn has_sensitivity(process: Node) -> bool {
    ||| spec_find(process, Kind::SensitivityList).len() > 0
    ||| spec_find(process, Kind::SensitivityClause).len() > 0
    ||| (spec_find(process, Kind::ProcessPreamble).len() > 0 && has_text(
        spec_text_of(spec_find(process, Kind::ProcessPreamble)[0]),
        "("@,
    ))
}

/// How the message names a process: ` 'p'` for `p : process`, nothing for an unlabelled one.
pub open spec fn label_of(process: Node) -> Seq<char> {
    let ts = spec_tokens(process);
    if ts.len() >= 2 && ts[1].latin1@ == ":"@ {
        " '"@ + lowered(ts[0].latin1@) + "'"@
    } else {
        Seq::empty()
    }
}

/// What `lint_770` reports of one process: one with no sensitivity list, no `wait` (reachable
/// or not) and no procedure call, at its first token.
pub open spec fn process_finding(process: Node, source: Seq<u8>, utf8: bool) -> Option<SFinding> {
    if has_sensitivity(process) || spec_find(process, Kind::WaitStatement).len() > 0 || spec_find(
        process,
        Kind::ProcedureCallStatement,
    ).len() > 0 || spec_tokens(process).len() == 0 {
        None
    } else {
        let (line, column) = spec_line_col(source, utf8, spec_tokens(process)[0].offset as int);
        Some(
            SFinding {
                rule: "lint_770"@,
                line,
                column,
                message: "Process"@ + label_of(process)
                    + " can never suspend: it has no sensitivity list and no wait statement, so it restarts without ever letting simulation time advance."@,
                related: Seq::empty(),
            },
        )
    }
}

/// What `lint_770` reports of `processes`, in order.
pub open spec fn processes_findings(processes: Seq<Node>, source: Seq<u8>, utf8: bool) -> Seq<SFinding>
    decreases processes.len(),
{
    if processes.len() == 0 {
        Seq::empty()
    } else {
        processes_findings(processes.drop_last(), source, utf8) + match process_finding(
            processes.last(),
            source,
            utf8,
        ) {
            Some(f) => seq![f],
            None => Seq::empty(),
        }
    }
}

/// `lint_770` of a file: its syntax tree `root` and its `source`, in order of place.
pub open spec fn spec_check(root: Node, source: Seq<u8>) -> Seq<SFinding> {
    sort_findings(
        processes_findings(
            spec_find(root, Kind::ProcessStatement),
            source,
            vstd::utf8::valid_utf8(source),
        ),
    )
}

/// How the message names a process.
fn label(process: &Node) -> (r: String)
    ensures
        r@ == label_of(*process),
{
    let toks = all_tokens(process);
    let ghost ts = tokens_of(toks@);
    if toks.len() < 2 {
        let e = String::new();
        assert(e@ =~= Seq::<char>::empty());
        return e;
    }
    assert(ts[0] == *toks@[0]);
    assert(ts[1] == *toks@[1]);
    if !str_eq(toks[1].latin1.as_str(), ":") {
        let e = String::new();
        assert(e@ =~= Seq::<char>::empty());
        return e;
    }
    let first = chars_of(toks[0].latin1.as_str());
    let lower = crate::chars::lower_all(&first);
    let mut s = String::from_str(" '");
    let name = crate::chars::string_of(&lower, 0, lower.len());
    assert(lower@.subrange(0, lower@.len() as int) =~= lower@);
    s.append(name.as_str());
    s.append("'");
    s
}

/// `lint_770` of a file: every process that can never suspend, for the syntax tree `root` of
/// `source`; in order of place.
pub fn check(root: &Node, source: &[u8], file: &PathBuf) -> (r: Vec<Finding>)
    requires
        4 * source@.len() < usize::MAX,
    ensures
        finding_views(r@) == spec_check(*root, source@),
{
    let utf8 = crate::reflow::is_utf8(source);
    let processes = find(root, Kind::ProcessStatement);
    let ghost ps = nodes_of(processes@);
    let mut out: Vec<Finding> = Vec::new();
    let ghost mut gen = Seq::<SFinding>::empty();
    assert(finding_views(out@) =~= sort_findings(gen));
    let mut i: usize = 0;
    assert(ps.take(0) =~= Seq::<Node>::empty());
    while i < processes.len()
        invariant
            0 <= i <= processes@.len(),
            4 * source@.len() < usize::MAX,
            ps == nodes_of(processes@),
            gen == processes_findings(ps.take(i as int), source@, utf8),
            finding_views(out@) == sort_findings(gen),
        decreases processes@.len() - i,
    {
        let p = processes[i];
        assert(ps.take(i + 1).drop_last() =~= ps.take(i as int));
        assert(ps.take(i + 1).last() == *p);
        let preamble = find(p, Kind::ProcessPreamble);
        let sensitive = find(p, Kind::SensitivityList).len() > 0 || find(p, Kind::SensitivityClause).len() > 0
            || (preamble.len() > 0 && {
            assert(nodes_of(preamble@)[0] == *preamble@[0]);
            let t = text_of(preamble[0]);
            contains_text(&t, "(")
        });
        if !sensitive && find(p, Kind::WaitStatement).len() == 0 && find(p, Kind::ProcedureCallStatement).len() == 0 {
            let toks = all_tokens(p);
            if toks.len() > 0 {
                assert(tokens_of(toks@)[0] == *toks@[0]);
                let (line, column) = line_col(source, utf8, toks[0].offset);
                let mut message = String::from_str("Process");
                let named = label(p);
                message.append(named.as_str());
                message.append(" can never suspend: it has no sensitivity list and no wait statement, so it restarts without ever letting simulation time advance.");
                let f = Finding { file: file.clone(), rule: "lint_770", line, column, message, related: Vec::new() };
                proof {
                    assert(f.related@.map_values(|r: Related| related_view(r)) =~= Seq::<(int, int, Seq<char>)>::empty());
                    assert(process_finding(*p, source@, utf8) == Some(finding_view(f)));
                }
                put_finding(&mut out, f);
                proof {
                    crate::analysis::design::lemma_sort_append(gen, finding_view(f));
                    gen = gen.push(finding_view(f));
                }
            }
        }
        assert(gen =~= processes_findings(ps.take(i + 1), source@, utf8));
        i = i + 1;
    }
    assert(ps.take(i as int) =~= ps);
    out
}

} // verus!
