//! Combinational loops: logic that feeds itself without a register in the way.
//!
//! `lint_720` builds the dependency graph of one architecture — every signal a combinational
//! source reads, pointing at every signal it drives — and looks for a cycle. A clocked process
//! contributes no edges, because the register is exactly what breaks the loop.
//!
//! Here the graph is over signal numbers: `graph[s]` holds the signals `s` depends on, in the
//! order of their names, and every number in it names a signal of the graph.
//!
//! Deliberately left out, so that a reported cycle is a real one: assignments to part of an
//! object (`q(0) <= q(1)`), where the whole object would look as though it fed itself;
//! anything through an instance, whose entity may well register the path; variables, which are
//! sequential within their process; and assignments with a delay (`after`), which is how a
//! testbench writes a clock generator.
use vstd::prelude::*;

use std::path::PathBuf;

use crate::analysis::design::{
    assignments, driven_here, is_not_combinational, named_views, names, or_insert, path,
    put_finding, reads, sort_findings, spec_assignments, spec_is_not_combinational, spec_path,
    spec_reads, entry_or_insert, has_name, add_name, has_text, contains_text,
};
use crate::analysis::elaborate::{join, joined};
use crate::analysis::lint::{finding_view, finding_views, related_view, Finding, Related, SFinding};
use crate::analysis::syntax::{
    all_tokens, find, lemma_child_decreases, nodes_of, spec_find, spec_text_of, spec_tokens, text_of,
    tokens_of, Element, Kind, Node,
};
use crate::text::{line_col, spec_line_col};

verus! {

/// The mathematical form of a graph.
pub open spec fn graph_view(graph: Seq<Vec<usize>>) -> Seq<Seq<usize>> {
    Seq::new(graph.len(), |i: int| graph[i]@)
}

/// Every signal number in the graph names one of its signals.
pub open spec fn well_formed(g: Seq<Seq<usize>>) -> bool {
    forall|a: int, k: int| 0 <= a < g.len() && 0 <= k < g[a].len() ==> #[trigger] g[a][k] < g.len()
}

/// `b` is one of the signals `a` depends on.
pub open spec fn edge(g: Seq<Seq<usize>>, a: int, b: usize) -> bool {
    0 <= a < g.len() && g[a].contains(b)
}

/// Each signal of `p` depends on the next one.
pub open spec fn is_walk(g: Seq<Seq<usize>>, p: Seq<usize>) -> bool {
    forall|k: int| 0 <= k < p.len() - 1 ==> #[trigger] edge(g, p[k] as int, p[k + 1])
}

/// `p` is a cycle: a walk of at least one step that ends where it starts.
pub open spec fn is_cycle(g: Seq<Seq<usize>>, p: Seq<usize>) -> bool {
    p.len() >= 2 && p[0] == p.last() && is_walk(g, p)
}

/// `b` can be reached from `a` by a walk.
pub open spec fn reaches(g: Seq<Seq<usize>>, a: usize, b: usize) -> bool {
    exists|q: Seq<usize>| q.len() >= 1 && q[0] == a && q.last() == b && #[trigger] is_walk(g, q)
}

/// The number of `true` in `s`.
pub open spec fn count_true(s: Seq<bool>) -> nat
    decreases s.len(),
{
    if s.len() == 0 {
        0
    } else {
        count_true(s.drop_last()) + if s.last() {
            1nat
        } else {
            0nat
        }
    }
}

pub proof fn lemma_count_true_bound(s: Seq<bool>)
    ensures
        count_true(s) <= s.len(),
    decreases s.len(),
{
    if s.len() > 0 {
        lemma_count_true_bound(s.drop_last());
    }
}

pub proof fn lemma_count_true_set(s: Seq<bool>, i: int)
    requires
        0 <= i < s.len(),
        !s[i],
    ensures
        count_true(s.update(i, true)) == count_true(s) + 1,
    decreases s.len(),
{
    if i < s.len() - 1 {
        lemma_count_true_set(s.drop_last(), i);
        assert(s.update(i, true).drop_last() =~= s.drop_last().update(i, true));
    } else {
        assert(s.update(i, true).drop_last() =~= s.drop_last());
    }
}

/// The children still to be explored by the frames of the search.
pub open spec fn pending(g: Seq<Seq<usize>>, frames: Seq<(usize, usize)>) -> nat
    decreases frames.len(),
{
    if frames.len() == 0 {
        0
    } else {
        let (n, at) = frames.last();
        pending(g, frames.drop_last()) + if 0 <= n < g.len() && at <= g[n as int].len() {
            (g[n as int].len() - at) as nat
        } else {
            0nat
        }
    }
}

/// All `false`, `n` times.
pub open spec fn none(n: nat) -> Seq<bool> {
    Seq::new(n, |_i: int| false)
}

fn all_false(n: usize) -> (r: Vec<bool>)
    ensures
        r@ == none(n as nat),
{
    let mut v: Vec<bool> = Vec::new();
    let mut i: usize = 0;
    while i < n
        invariant
            0 <= i <= n,
            v@ == none(i as nat),
        decreases n - i,
    {
        v.push(false);
        i = i + 1;
        assert(v@ =~= none(i as nat));
    }
    v
}

/// What the depth-first search needs of its state to make progress: every frame names a signal
/// of the graph and a position among its children.
pub open spec fn search_ok(g: Seq<Seq<usize>>, next: Seq<(usize, usize)>, visited: Seq<bool>) -> bool {
    &&& well_formed(g)
    &&& visited.len() == g.len()
    &&& forall|k: int|
        0 <= k < next.len() ==> (#[trigger] next[k]).0 < g.len() && next[k].1 <= g[next[k].0 as int].len()
            <= usize::MAX
}

/// Where `x` stands in a path that holds it once.
pub open spec fn place_of(path: Seq<usize>, x: usize) -> int {
    choose|k: int| 0 <= k < path.len() && path[k] == x
}

/// The depth-first search for a cycle, from the state it has reached: `stack` is the path from
/// the start, `next` holds for each signal on it the position of its next child to look at, and
/// `visited` the signals entered so far. Children are taken in order; a child on the path closes
/// a cycle, which is the path from that child on, and the child again; a child entered before is
/// passed over. `None` when the search runs out of signals.
pub open spec fn search(
    g: Seq<Seq<usize>>,
    stack: Seq<usize>,
    next: Seq<(usize, usize)>,
    visited: Seq<bool>,
) -> Option<Seq<usize>>
    decreases g.len() - count_true(visited), pending(g, next) + next.len(),
    when search_ok(g, next, visited)
{
    if next.len() == 0 {
        None
    } else {
        let top = next.len() - 1;
        let node = next[top].0;
        let at = next[top].1;
        if at >= g[node as int].len() {
            search(g, stack.drop_last(), next.drop_last(), visited)
        } else {
            let child = g[node as int][at as int];
            let advanced = next.update(top, (node, (at + 1) as usize));
            proof {
                lemma_pending_advance(g, next, top);
                lemma_count_true_bound(visited);
            }
            if stack.contains(child) {
                Some(stack.skip(place_of(stack, child)).push(child))
            } else if visited[child as int] {
                search(g, stack, advanced, visited)
            } else {
                proof {
                    lemma_count_true_set(visited, child as int);
                    lemma_count_true_bound(visited.update(child as int, true));
                }
                search(g, stack.push(child), advanced.push((child, 0usize)), visited.update(child as int, true))
            }
        }
    }
}

/// Once every child of the signal on top has been looked at, the search goes on from the one
/// below it.
proof fn lemma_search_pop(g: Seq<Seq<usize>>, stack: Seq<usize>, next: Seq<(usize, usize)>, visited: Seq<bool>)
    requires
        search_ok(g, next, visited),
        next.len() > 0,
        next.last().1 >= g[next.last().0 as int].len(),
    ensures
        search(g, stack, next, visited) == search(g, stack.drop_last(), next.drop_last(), visited),
{
}

/// One child of the signal on top, looked at: a cycle closed, a signal passed over, or a signal
/// entered.
proof fn lemma_search_step(g: Seq<Seq<usize>>, stack: Seq<usize>, next: Seq<(usize, usize)>, visited: Seq<bool>)
    requires
        search_ok(g, next, visited),
        next.len() > 0,
        next.last().1 < g[next.last().0 as int].len(),
        g[g[next.last().0 as int][next.last().1 as int] as int].len() <= usize::MAX,
    ensures
        ({
            let top = next.len() - 1;
            let node = next[top].0;
            let at = next[top].1;
            let child = g[node as int][at as int];
            let advanced = next.update(top, (node, (at + 1) as usize));
            search(g, stack, next, visited) == if stack.contains(child) {
                Some(stack.skip(place_of(stack, child)).push(child))
            } else if visited[child as int] {
                search(g, stack, advanced, visited)
            } else {
                search(g, stack.push(child), advanced.push((child, 0usize)), visited.update(child as int, true))
            }
        }),
{
}

/// The cycle the depth-first search from `start` closes first, if any.
pub open spec fn first_cycle(g: Seq<Seq<usize>>, start: usize) -> Option<Seq<usize>> {
    search(g, seq![start], seq![(start, 0usize)], none(g.len()))
}

/// The first cycle reachable from `start`, as the signals on it, by a depth-first search that
/// keeps its path so that the cycle can be named in the finding: [`first_cycle`]. The cycle
/// closes on the signal it starts with, names every other signal on it once, and that signal is
/// reachable from `start`; `None` means that no cycle is reachable from `start`.
pub fn cycle_from(start: usize, graph: &Vec<Vec<usize>>) -> (r: Option<Vec<usize>>)
    requires
        start < graph@.len(),
        well_formed(graph_view(graph@)),
    ensures
        match r {
            Some(p) => first_cycle(graph_view(graph@), start) == Some(p@),
            None => first_cycle(graph_view(graph@), start) is None,
        },
        match r {
            Some(p) => is_cycle(graph_view(graph@), p@) && reaches(
                graph_view(graph@),
                start,
                p@[0],
            ) && forall|i: int, j: int| 0 <= i < j < p@.len() - 1 ==> p@[i] != p@[j],
            None => forall|p: Seq<usize>|
                #[trigger] is_cycle(graph_view(graph@), p) ==> !reaches(
                    graph_view(graph@),
                    start,
                    p[0],
                ),
        },
{
    let ghost g = graph_view(graph@);
    let n = graph.len();
    // The signals whose search is over, and the order in which they were done.
    let ghost mut finished = none(n as nat);
    let ghost mut fin: Seq<int> = Seq::new(n as nat, |i: int| 0);
    let ghost mut clock: int = 0;
    let mut stack: Vec<usize> = Vec::new();
    stack.push(start);
    let mut on_stack = all_false(n);
    on_stack.set(start, true);
    let mut visited = all_false(n);
    // Depth first: for each signal on the path, the position of the next child to look at.
    let mut next: Vec<(usize, usize)> = Vec::new();
    next.push((start, 0));
    proof {
        lemma_count_true_bound(visited@);
        assert(count_true(none(n as nat)) == 0) by {
            lemma_count_none(n as nat);
        }
        assert(is_walk(g, stack@));
        assert(stack@ =~= seq![start]);
        assert(next@ =~= seq![(start, 0usize)]);
        assert(g[start as int].len() == graph@[start as int].len());
        assert forall|v: int| 0 <= v < n implies (on_stack@[v] <==> stack@.contains(v as usize)) by {
            if v == start as int {
                assert(stack@[0] == start);
            }
            if stack@.contains(v as usize) {
                assert(stack@[0] == v as usize);
            }
        }
    }
    while next.len() > 0
        invariant
            g == graph_view(graph@),
            n == graph@.len(),
            well_formed(g),
            start < n,
            on_stack@.len() == n,
            visited@.len() == n,
            stack@.len() == next@.len(),
            stack@.len() > 0 ==> stack@[0] == start,
            forall|k: int| 0 <= k < stack@.len() ==> #[trigger] stack@[k] < n,
            forall|k: int| 0 <= k < next@.len() ==> (#[trigger] next@[k]).0 == stack@[k],
            forall|k: int|
                0 <= k < next@.len() ==> (#[trigger] next@[k]).1 <= graph@[next@[k].0 as int]@.len(),
            forall|v: int| 0 <= v < n ==> (on_stack@[v] <==> stack@.contains(v as usize)),
            is_walk(g, stack@),
            forall|i: int, j: int| 0 <= i < j < stack@.len() ==> stack@[i] != stack@[j],
            search(g, stack@, next@, visited@) == first_cycle(g, start),
            forall|k: int| 0 <= k < next@.len() ==> g[(#[trigger] next@[k]).0 as int].len() <= usize::MAX,
            count_true(visited@) <= n,
            closed(g, finished, fin),
            finished.len() == n,
            fin.len() == n,
            forall|v: int| 0 <= v < n && #[trigger] finished[v] ==> !on_stack@[v] && fin[v] < clock,
            forall|v: int| 0 <= v < n && #[trigger] visited@[v] ==> on_stack@[v] || finished[v],
            forall|v: int| 0 <= v < n && #[trigger] on_stack@[v] && v != start ==> visited@[v],
            forall|v: int| 0 <= v < n && #[trigger] finished[v] && v != start ==> visited@[v],
            stack@.len() == 0 ==> finished[start as int],
            forall|k: int, j: int|
                0 <= k < stack@.len() && 0 <= j < next@[k].1 ==> finished[#[trigger] g[stack@[k] as int][j] as int]
                    || (k + 1 < stack@.len() && j == next@[k].1 - 1 && g[stack@[k] as int][j] == stack@[k + 1]),
        decreases n - count_true(visited@), pending(g, next@) + next@.len(),
    {
        let top = next.len() - 1;
        let (node, at) = next[top];
        let children = &graph[node];
        let degree = children.len();
        proof {
            assert(next@[top as int].0 == stack@[top as int]);
            assert(g[node as int] == children@);
            assert(search_ok(g, next@, visited@));
        }
        if at >= degree {
            // Every child of the signal on top has been looked at.
            let ghost before = next@;
            let ghost before_stack = stack@;
            proof {
                assert(before_stack[top as int] == node);
                assert(before_stack.contains(node));
                assert(on_stack@[node as int]);
            }
            next.pop();
            let done = stack.pop().unwrap();
            on_stack.set(done, false);
            proof {
                assert(done == node);
                assert forall|j: int| 0 <= j < g[node as int].len() implies finished[#[trigger] g[node as int][j] as int] && fin[g[node as int][j] as int] < clock by {
                    assert(g[node as int].len() == children@.len());
                    assert(j < before[top as int].1);
                }
                finished = finished.update(node as int, true);
                fin = fin.update(node as int, clock);
                clock = clock + 1;
                assert forall|k: int, j: int|
                    0 <= k < stack@.len() && 0 <= j < next@[k].1 implies finished[#[trigger] g[stack@[k] as int][j] as int]
                        || (k + 1 < stack@.len() && j == next@[k].1 - 1 && g[stack@[k] as int][j] == stack@[k + 1]) by {
                    assert(before_stack[k] == stack@[k] && before[k] == next@[k]);
                    if k + 1 == stack@.len() && j == next@[k].1 - 1 && g[stack@[k] as int][j] == before_stack[k + 1] {
                        assert(before_stack[k + 1] == node);
                    }
                }
                assert(before.drop_last() =~= next@);
                assert(pending(g, before) == pending(g, next@) + 0);
                assert(before_stack.drop_last() =~= stack@);
                assert(search_ok(g, before, visited@));
                assert(before[top as int] == (node, at));
                assert(before.len() - 1 == top);
                assert(at >= g[node as int].len());
                lemma_search_pop(g, before_stack, before, visited@);
                assert(search(g, before_stack, before, visited@) == search(g, stack@, next@, visited@));
                assert forall|v: int| 0 <= v < n implies (on_stack@[v] <==> stack@.contains(v as usize)) by {
                    if stack@.contains(v as usize) {
                        let w = choose|w: int| 0 <= w < stack@.len() && stack@[w] == v as usize;
                        assert(before_stack[w] == v as usize);
                        assert(w != before_stack.len() - 1);
                        if v == done as int {
                            assert(before_stack[before_stack.len() - 1] == done);
                        }
                    }
                    if v != done as int && before_stack.contains(v as usize) {
                        let w = choose|w: int| 0 <= w < before_stack.len() && before_stack[w] == v as usize;
                        assert(w != before_stack.len() - 1);
                        assert(stack@[w] == v as usize);
                    }
                }
                assert(is_walk(g, stack@)) by {
                    assert forall|k: int| 0 <= k < stack@.len() - 1 implies #[trigger] edge(g, stack@[k] as int, stack@[k + 1]) by {
                        assert(stack@.push(done)[k] == stack@[k]);
                        assert(stack@.push(done)[k + 1] == stack@[k + 1]);
                    }
                }
            }
            continue;
        }
        let child = children[at];
        let ghost before = next@;
        next.set(top, (node, at + 1));
        proof {
            assert(g[node as int] == graph@[node as int]@);
            assert(edge(g, node as int, child)) by {
                assert(g[node as int][at as int] == child);
            }
            assert(children@.len() <= usize::MAX);
            lemma_pending_advance(g, before, top as int);
        }
        if on_stack[child] {
            let mut k: usize = 0;
            while k < stack.len() && stack[k] != child
                invariant
                    0 <= k <= stack@.len(),
                    stack@.contains(child),
                    forall|j: int| 0 <= j < k ==> stack@[j] != child,
                decreases stack@.len() - k,
            {
                k = k + 1;
            }
            proof {
                let w = choose|w: int| 0 <= w < stack@.len() && stack@[w] == child;
                if k == stack@.len() {
                    assert(stack@[w] != child);
                }
            }
            let mut found: Vec<usize> = Vec::new();
            let mut j = k;
            while j < stack.len()
                invariant
                    k <= j <= stack@.len(),
                    found@ == stack@.subrange(k as int, j as int),
                decreases stack@.len() - j,
            {
                found.push(stack[j]);
                j = j + 1;
                assert(found@ =~= stack@.subrange(k as int, j as int));
            }
            found.push(child);
            proof {
                let p = found@;
                assert(p =~= stack@.subrange(k as int, stack@.len() as int).push(child));
                assert(stack@.last() == node);
                assert forall|m: int| 0 <= m < p.len() - 1 implies #[trigger] edge(g, p[m] as int, p[m + 1]) by {
                    if k + m + 1 < stack@.len() {
                        assert(edge(g, stack@[k + m] as int, stack@[k + m + 1]));
                    }
                }
                let q = stack@.take(k + 1);
                assert(q[0] == start);
                assert(q.last() == p[0]);
                assert forall|m: int| 0 <= m < q.len() - 1 implies #[trigger] edge(g, q[m] as int, q[m + 1]) by {
                    assert(edge(g, stack@[m] as int, stack@[m + 1]));
                }
                assert(is_walk(g, q));
                assert(place_of(stack@, child) == k) by {
                    let w = place_of(stack@, child);
                    assert(0 <= w < stack@.len() && stack@[w] == child);
                    if w != k as int {
                        assert(stack@[k as int] == child);
                    }
                }
                assert(stack@.skip(k as int) =~= stack@.subrange(k as int, stack@.len() as int));
                assert(search_ok(g, before, visited@));
                assert(before[top as int] == (node, at));
                assert(g[child as int].len() == graph@[child as int].len());
                lemma_search_step(g, stack@, before, visited@);
                assert(search(g, stack@, before, visited@) == Some(p));
                assert forall|i: int, j: int| 0 <= i < j < p.len() - 1 implies p[i] != p[j] by {
                    assert(p[i] == stack@[k + i] && p[j] == stack@[k + j]);
                }
            }
            return Some(found);
        }
        if visited[child] {
            proof {
                assert(next@ =~= before.update(top as int, (node, (at + 1) as usize)));
                assert(search_ok(g, before, visited@));
                assert(!stack@.contains(child));
                assert(before[top as int] == (node, at));
                assert(g[child as int].len() == graph@[child as int].len());
                lemma_search_step(g, stack@, before, visited@);
                assert(search(g, stack@, before, visited@) == search(g, stack@, next@, visited@));
                assert(finished[child as int]);
                assert forall|k: int, j: int|
                    0 <= k < stack@.len() && 0 <= j < next@[k].1 implies finished[#[trigger] g[stack@[k] as int][j] as int]
                        || (k + 1 < stack@.len() && j == next@[k].1 - 1 && g[stack@[k] as int][j] == stack@[k + 1]) by {
                    if k == top as int {
                        if j < at as int {
                            assert(j < before[k].1);
                        } else {
                            assert(g[stack@[k] as int][j] == child);
                        }
                    } else {
                        assert(next@[k] == before[k]);
                    }
                }
            }
            continue;
        }
        proof {
            lemma_count_true_set(visited@, child as int);
            lemma_count_true_bound(visited@.update(child as int, true));
        }
        let ghost before_visited = visited@;
        visited.set(child, true);
        let ghost before_stack = stack@;
        let ghost before_next = next@;
        next.push((child, 0));
        on_stack.set(child, true);
        stack.push(child);
        proof {
            assert(child != start) by {
                assert(stack@[0] == start);
                assert(before_stack.contains(start));
            }
            assert(before_next =~= before.update(top as int, (node, (at + 1) as usize)));
            assert(search_ok(g, before, before_visited));
            assert(before[top as int] == (node, at));
            assert(before.len() - 1 == top);
            assert(g[node as int][at as int] == child);
            assert(!before_visited[child as int]);
            assert(!before_stack.contains(child));
            assert(g[child as int].len() == graph@[child as int].len());
            lemma_search_step(g, before_stack, before, before_visited);
            assert(stack@ =~= before_stack.push(child));
            assert(next@ =~= before_next.push((child, 0usize)));
            assert(visited@ =~= before_visited.update(child as int, true));
            assert(search(g, before_stack, before, before_visited) == search(g, stack@, next@, visited@));
            assert forall|k: int, j: int|
                0 <= k < stack@.len() && 0 <= j < next@[k].1 implies finished[#[trigger] g[stack@[k] as int][j] as int]
                    || (k + 1 < stack@.len() && j == next@[k].1 - 1 && g[stack@[k] as int][j] == stack@[k + 1]) by {
                if k < stack@.len() - 1 {
                    assert(stack@[k] == before_stack[k]);
                    assert(next@[k] == before_next[k]);
                    if k == top as int {
                        if j < at as int {
                            assert(j < before[k].1);
                        } else {
                            assert(g[stack@[k] as int][j] == child);
                            assert(stack@[k + 1] == child);
                        }
                    } else {
                        assert(before_next[k] == before[k]);
                        assert(stack@[k + 1] == before_stack[k + 1]);
                    }
                }
            }
            assert forall|v: int| 0 <= v < n implies (on_stack@[v] <==> stack@.contains(v as usize)) by {
                if v == child as int {
                    assert(stack@[stack@.len() - 1] == child);
                } else {
                    if before_stack.contains(v as usize) {
                        let w = choose|w: int| 0 <= w < before_stack.len() && before_stack[w] == v as usize;
                        assert(stack@[w] == v as usize);
                    }
                    if stack@.contains(v as usize) {
                        let w = choose|w: int| 0 <= w < stack@.len() && stack@[w] == v as usize;
                        assert(w < before_stack.len());
                        assert(before_stack[w] == v as usize);
                    }
                }
            }
            assert forall|i: int, j: int| 0 <= i < j < stack@.len() implies stack@[i] != stack@[j] by {
                if j == stack@.len() - 1 {
                    assert(before_stack[i] == stack@[i]);
                    assert(before_stack.contains(stack@[i]));
                } else {
                    assert(before_stack[i] == stack@[i] && before_stack[j] == stack@[j]);
                }
            }
            assert forall|m: int| 0 <= m < stack@.len() - 1 implies #[trigger] edge(g, stack@[m] as int, stack@[m + 1]) by {
                if m < before_stack.len() - 1 {
                    assert(edge(g, before_stack[m] as int, before_stack[m + 1]));
                } else {
                    assert(stack@[m] == node);
                }
            }
        }
    }
    proof {
        assert forall|p: Seq<usize>| #[trigger] is_cycle(g, p) implies !reaches(g, start, p[0]) by {
            lemma_finished_cycle(g, finished, fin, start, p);
        }
        assert(search_ok(g, next@, visited@));
    }
    None
}

/// Every signal a finished signal depends on is finished, and finished before it.
pub open spec fn closed(g: Seq<Seq<usize>>, finished: Seq<bool>, fin: Seq<int>) -> bool {
    forall|u: int, j: int|
        0 <= u < g.len() && finished[u] && 0 <= j < g[u].len() ==> finished[#[trigger] g[u][j] as int]
            && fin[g[u][j] as int] < fin[u]
}

/// Along a walk from a finished signal, every signal is finished, and before the first.
proof fn lemma_finished_walk(g: Seq<Seq<usize>>, finished: Seq<bool>, fin: Seq<int>, q: Seq<usize>)
    requires
        well_formed(g),
        closed(g, finished, fin),
        q.len() >= 1,
        q[0] < g.len(),
        finished[q[0] as int],
        is_walk(g, q),
    ensures
        forall|k: int| 0 <= k < q.len() ==> #[trigger] q[k] < g.len() && finished[q[k] as int],
        forall|k: int| 1 <= k < q.len() ==> fin[#[trigger] q[k] as int] < fin[q[0] as int],
    decreases q.len(),
{
    if q.len() > 1 {
        let r = q.drop_last();
        assert(is_walk(g, r)) by {
            assert forall|k: int| 0 <= k < r.len() - 1 implies #[trigger] edge(g, r[k] as int, r[k + 1]) by {
                assert(edge(g, q[k] as int, q[k + 1]));
            }
        }
        lemma_finished_walk(g, finished, fin, r);
        let m = q.len() - 2;
        assert(edge(g, q[m] as int, q[m + 1]));
        assert(r[m] == q[m]);
        let u = q[m] as int;
        let j = choose|j: int| 0 <= j < g[u].len() && g[u][j] == q[m + 1];
        assert(finished[g[u][j] as int] && fin[g[u][j] as int] < fin[u]);
        assert(g[u][j] < g.len());
        assert forall|k: int| 0 <= k < q.len() implies #[trigger] q[k] < g.len() && finished[q[k] as int] by {
            if k < q.len() - 1 {
                assert(r[k] == q[k]);
            }
        }
        assert forall|k: int| 1 <= k < q.len() implies fin[#[trigger] q[k] as int] < fin[q[0] as int] by {
            if k < q.len() - 1 {
                assert(r[k] == q[k]);
            } else if m >= 1 {
                assert(fin[r[m] as int] < fin[r[0] as int]);
            }
        }
    }
}

/// No cycle is reachable from a finished signal.
proof fn lemma_finished_cycle(g: Seq<Seq<usize>>, finished: Seq<bool>, fin: Seq<int>, start: usize, p: Seq<usize>)
    requires
        well_formed(g),
        closed(g, finished, fin),
        start < g.len(),
        finished[start as int],
        is_cycle(g, p),
    ensures
        !reaches(g, start, p[0]),
{
    if reaches(g, start, p[0]) {
        let q = choose|q: Seq<usize>| q.len() >= 1 && q[0] == start && q.last() == p[0] && #[trigger] is_walk(g, q);
        lemma_finished_walk(g, finished, fin, q);
        assert(q[q.len() - 1] == p[0]);
        lemma_finished_walk(g, finished, fin, p);
        assert(p[p.len() - 1] == p[0]);
    }
}

proof fn lemma_count_none(n: nat)
    ensures
        count_true(none(n)) == 0,
    decreases n,
{
    if n > 0 {
        lemma_count_none((n - 1) as nat);
        assert(none(n).drop_last() =~= none((n - 1) as nat));
    }
}

pub proof fn lemma_pending_advance(g: Seq<Seq<usize>>, frames: Seq<(usize, usize)>, top: int)
    requires
        frames.len() > 0,
        top == frames.len() - 1,
        0 <= frames[top].0 < g.len(),
        frames[top].1 < g[frames[top].0 as int].len(),
        g[frames[top].0 as int].len() <= usize::MAX,
    ensures
        pending(g, frames.update(top, (frames[top].0, (frames[top].1 + 1) as usize))) + 1 == pending(
            g,
            frames,
        ),
{
    let f2 = frames.update(top, (frames[top].0, (frames[top].1 + 1) as usize));
    assert(f2.drop_last() =~= frames.drop_last());
}


/// No signal is on both paths.
pub open spec fn disjoint(a: Seq<usize>, b: Seq<usize>) -> bool {
    forall|i: int, j: int| 0 <= i < a.len() && 0 <= j < b.len() ==> a[i] != b[j]
}

/// Whether `s` is on one of the loops of `found`.
pub open spec fn on_a_loop(found: Seq<Seq<usize>>, s: usize) -> bool {
    exists|i: int, k: int| 0 <= i < found.len() && 0 <= k < found[i].len() && #[trigger] found[i][k] == s
}

/// Whether some signal of `cycle` is on one of the loops of `found`.
pub open spec fn meets_a_loop(found: Seq<Seq<usize>>, cycle: Seq<usize>) -> bool {
    exists|k: int| 0 <= k < cycle.len() && #[trigger] on_a_loop(found, cycle[k])
}

/// The loops found by walking the first `m` signals in order: a signal already on a loop is
/// passed over; otherwise the first cycle reachable from it is a new loop unless it meets one.
pub open spec fn loops_upto(g: Seq<Seq<usize>>, m: nat) -> Seq<Seq<usize>>
    decreases m,
{
    if m == 0 {
        Seq::empty()
    } else {
        let found = loops_upto(g, (m - 1) as nat);
        let s = (m - 1) as usize;
        if on_a_loop(found, s) {
            found
        } else {
            match first_cycle(g, s) {
                Some(c) => if meets_a_loop(found, c) {
                    found
                } else {
                    found.push(c)
                },
                None => found,
            }
        }
    }
}

/// The loops as sequences.
pub open spec fn loops_view(r: Seq<Vec<usize>>) -> Seq<Seq<usize>> {
    Seq::new(r.len(), |i: int| r[i]@)
}

/// The combinational loops of a graph, one per cycle: for each signal in turn that is not on a
/// loop found before, the first cycle reachable from it, unless it runs through a signal of a
/// loop found before ([`loops_upto`]). None are found exactly when the graph has no cycle.
pub fn loops(graph: &Vec<Vec<usize>>) -> (r: Vec<Vec<usize>>)
    requires
        well_formed(graph_view(graph@)),
    ensures
        loops_view(r@) == loops_upto(graph_view(graph@), graph@.len() as nat),
        forall|i: int| 0 <= i < r@.len() ==> is_cycle(graph_view(graph@), #[trigger] r@[i]@),
        forall|i: int, j: int| 0 <= i < j < r@.len() ==> disjoint(#[trigger] r@[i]@, #[trigger] r@[j]@),
        r@.len() == 0 <==> forall|p: Seq<usize>| !#[trigger] is_cycle(graph_view(graph@), p),
{
    let ghost g = graph_view(graph@);
    let n = graph.len();
    let mut reported = all_false(n);
    let mut out: Vec<Vec<usize>> = Vec::new();
    let mut signal: usize = 0;
    while signal < n
        invariant
            g == graph_view(graph@),
            n == graph@.len(),
            well_formed(g),
            reported@.len() == n,
            forall|i: int| 0 <= i < out@.len() ==> is_cycle(g, #[trigger] out@[i]@),
            forall|i: int, j: int| 0 <= i < j < out@.len() ==> disjoint(#[trigger] out@[i]@, #[trigger] out@[j]@),
            forall|i: int, k: int|
                0 <= i < out@.len() && 0 <= k < out@[i]@.len() ==> #[trigger] out@[i]@[k] < n
                    && reported@[out@[i]@[k] as int],
            signal <= n,
            loops_view(out@) == loops_upto(g, signal as nat),
            forall|v: int| 0 <= v < n ==> (#[trigger] reported@[v] <==> on_a_loop(loops_view(out@), v as usize)),
            out@.len() == 0 ==> forall|v: int| 0 <= v < n ==> !#[trigger] reported@[v],
            out@.len() == 0 ==> forall|p: Seq<usize>| #[trigger] is_cycle(g, p) ==> p[0] >= signal,
        decreases n - signal,
    {
        if reported[signal] {
            proof {
                assert(on_a_loop(loops_view(out@), signal));
            }
            signal = signal + 1;
            continue;
        }
        proof {
            assert(!on_a_loop(loops_view(out@), signal));
        }
        let found = cycle_from(signal, graph);
        proof {
            if found is None {
                assert forall|p: Seq<usize>| #[trigger] is_cycle(g, p) && p[0] == signal implies false by {
                    let q = seq![signal];
                    assert(is_walk(g, q));
                    assert(reaches(g, signal, p[0]));
                }
            }
        }
        if let Some(cycle) = found {
            proof {
                assert forall|j: int| 0 <= j < cycle@.len() implies #[trigger] cycle@[j] < n by {
                    if j < cycle@.len() - 1 {
                        assert(edge(g, cycle@[j] as int, cycle@[j + 1]));
                    } else {
                        let z: int = 0;
                        assert(edge(g, cycle@[z] as int, cycle@[z + 1]));
                    }
                }
            }
            let mut clash = false;
            let mut k: usize = 0;
            while k < cycle.len()
                invariant
                    0 <= k <= cycle@.len(),
                    reported@.len() == n,
                    well_formed(g),
                    is_cycle(g, cycle@),
                    g == graph_view(graph@),
                    n == graph@.len(),
                    !clash ==> forall|j: int| 0 <= j < k ==> !reported@[#[trigger] cycle@[j] as int],
                    clash ==> exists|v: int| 0 <= v < n && #[trigger] reported@[v],
                    clash ==> exists|j: int| 0 <= j < k && reported@[#[trigger] cycle@[j] as int],
                    forall|j: int| 0 <= j < cycle@.len() ==> #[trigger] cycle@[j] < n,
                decreases cycle@.len() - k,
            {
                if reported[cycle[k]] {
                    clash = true;
                    assert(reported@[cycle@[k as int] as int]);
                }
                k = k + 1;
            }
            proof {
                let found_so_far = loops_view(out@);
                if clash {
                    let j = choose|j: int| 0 <= j < k && reported@[#[trigger] cycle@[j] as int];
                    assert(on_a_loop(found_so_far, cycle@[j]));
                    assert(meets_a_loop(found_so_far, cycle@));
                } else {
                    assert forall|j: int| 0 <= j < cycle@.len() implies !#[trigger] on_a_loop(found_so_far, cycle@[j]) by {
                        assert(!reported@[cycle@[j] as int]);
                    }
                    assert(!meets_a_loop(found_so_far, cycle@));
                }
            }
            if !clash {
                let ghost before = reported@;
                let mut k: usize = 0;
                while k < cycle.len()
                    invariant
                        0 <= k <= cycle@.len(),
                        reported@.len() == n,
                        forall|j: int| 0 <= j < cycle@.len() ==> #[trigger] cycle@[j] < n,
                        forall|j: int| 0 <= j < k ==> reported@[#[trigger] cycle@[j] as int],
                        forall|v: int| 0 <= v < n && before[v] ==> reported@[v],
                        forall|v: int|
                            0 <= v < n && #[trigger] reported@[v] ==> before[v] || exists|j: int|
                                0 <= j < k && cycle@[j] == v as usize,
                    decreases cycle@.len() - k,
                {
                    reported.set(cycle[k], true);
                    k = k + 1;
                }
                let ghost prev = out@;
                let ghost cyc = cycle@;
                out.push(cycle);
                proof {
                    assert(loops_view(out@) =~= loops_view(prev).push(cyc));
                    assert forall|v: int| 0 <= v < n implies (#[trigger] reported@[v] <==> on_a_loop(loops_view(out@), v as usize)) by {
                        let lv = loops_view(out@);
                        if reported@[v] {
                            if before[v] {
                                assert(on_a_loop(loops_view(prev), v as usize));
                                let (i, k2) = choose|i: int, k2: int| 0 <= i < loops_view(prev).len() && 0 <= k2 < loops_view(prev)[i].len() && #[trigger] loops_view(prev)[i][k2] == v as usize;
                                assert(lv[i][k2] == v as usize);
                            } else {
                                let j = choose|j: int| 0 <= j < cyc.len() && cyc[j] == v as usize;
                                assert(lv[prev.len() as int][j] == v as usize);
                            }
                        }
                        if on_a_loop(lv, v as usize) {
                            let (i, k2) = choose|i: int, k2: int| 0 <= i < lv.len() && 0 <= k2 < lv[i].len() && #[trigger] lv[i][k2] == v as usize;
                            if i < prev.len() {
                                assert(loops_view(prev)[i][k2] == v as usize);
                                assert(on_a_loop(loops_view(prev), v as usize));
                                assert(before[v]);
                            } else {
                                assert(cyc[k2] == v as usize);
                                assert(reported@[cyc[k2] as int]);
                            }
                        }
                    }
                    assert forall|i: int, j: int| 0 <= i < j < out@.len() implies disjoint(#[trigger] out@[i]@, #[trigger] out@[j]@) by {
                        if j == out@.len() - 1 {
                            assert forall|a: int, b: int| 0 <= a < out@[i]@.len() && 0 <= b < out@[j]@.len() implies out@[i]@[a] != out@[j]@[b] by {
                                assert(before[prev[i]@[a] as int]);
                                assert(!before[out@[j]@[b] as int]);
                            }
                        }
                    }
                }
            }
        }
        signal = signal + 1;
    }
    proof {
        if out@.len() == 0 {
            assert forall|p: Seq<usize>| !#[trigger] is_cycle(g, p) by {
                if is_cycle(g, p) {
                    let z: int = 0;
                    assert(edge(g, p[z] as int, p[z + 1]));
                }
            }
        } else {
            assert(is_cycle(g, out@[0]@));
        }
    }
    out
}

} // verus!

verus! {

// The graph of one architecture ------------------------------------------------------------------

/// Where the tick of each attribute name among `attrs` is: its first token.
pub open spec fn ticks_of(attrs: Seq<Node>) -> Seq<usize>
    decreases attrs.len(),
{
    if attrs.len() == 0 {
        Seq::empty()
    } else {
        ticks_of(attrs.drop_last()) + if spec_tokens(attrs.last()).len() > 0 {
            seq![spec_tokens(attrs.last())[0].offset]
        } else {
            Seq::empty()
        }
    }
}

/// Whether the read at `at` is the prefix of an attribute (`q` in `q'length`): the last read
/// before some tick. It names a property of the signal, not its value.
pub open spec fn is_prefix_read(rs: Seq<(Seq<char>, usize)>, ticks: Seq<usize>, at: usize) -> bool {
    exists|t: int|
        0 <= t < ticks.len() && at < #[trigger] ticks[t] && forall|k: int|
            0 <= k < rs.len() ==> !(at < #[trigger] rs[k].1 && rs[k].1 < ticks[t])
}

/// The names read, except at the places that are attribute prefixes.
pub open spec fn read_sources(rs: Seq<(Seq<char>, usize)>, ticks: Seq<usize>) -> Set<Seq<char>> {
    Set::new(
        |x: Seq<char>|
            exists|k: int| 0 <= k < rs.len() && #[trigger] rs[k].0 == x && !is_prefix_read(rs, ticks, rs[k].1),
    )
}

/// What a statement reads that its targets depend on.
pub open spec fn statement_sources(st: Node) -> Set<Seq<char>> {
    read_sources(spec_reads(st), ticks_of(spec_find(st, Kind::AttributeName)))
}

/// A target that is a whole object: no index and no field.
pub open spec fn is_whole(t: Seq<char>) -> bool {
    !t.contains('(') && !t.contains('.')
}

/// `after`.
pub open spec fn after_word() -> Seq<char> {
    seq!['a', 'f', 't', 'e', 'r']
}

/// What the targets `ts` add to the graph, each with the sources `src`: the whole objects only,
/// by base name.
pub open spec fn target_edges(ts: Seq<(Seq<char>, usize)>, src: Set<Seq<char>>) -> Seq<
    (Seq<char>, usize, Set<Seq<char>>),
>
    decreases ts.len(),
{
    if ts.len() == 0 {
        Seq::empty()
    } else {
        target_edges(ts.drop_last(), src) + if is_whole(ts.last().0) {
            seq![(spec_path(ts.last().0).0, ts.last().1, src)]
        } else {
            Seq::empty()
        }
    }
}

/// What an assignment statement adds to the graph: for each whole-object target, the signal it
/// drives, where, and what it depends on; nothing for an assignment with a delay.
pub open spec fn statement_edges(st: Node) -> Seq<(Seq<char>, usize, Set<Seq<char>>)> {
    if has_text(spec_text_of(st), after_word()) {
        Seq::empty()
    } else {
        target_edges(spec_assignments(st), statement_sources(st))
    }
}

/// The assignment kinds that make a combinational edge.
pub open spec fn edge_kinds() -> Seq<Kind> {
    seq![
        Kind::ConcurrentSimpleSignalAssignment,
        Kind::ConcurrentConditionalSignalAssignment,
        Kind::ConcurrentSelectedSignalAssignment,
        Kind::SimpleWaveformAssignment,
        Kind::ConditionalWaveformAssignment,
        Kind::SelectedWaveformAssignment,
    ]
}

/// An instance, whose entity may register the path.
pub open spec fn is_instance(k: Kind) -> bool {
    k == Kind::ComponentInstantiationStatement || k
        == Kind::ConcurrentProcedureCallOrComponentInstantiationStatement
}

/// What the statements below `n` add to the graph, in order: a process that is clocked or waits
/// and an instance add nothing, an assignment adds its edges, and anything else is descended
/// into.
pub open spec fn collected(n: Node) -> Seq<(Seq<char>, usize, Set<Seq<char>>)>
    decreases n, 1int, 0int,
{
    collected_upto(n, n.elements@.len() as int)
}

/// What the first `i` elements of `n` add to the graph.
pub open spec fn collected_upto(n: Node, i: int) -> Seq<(Seq<char>, usize, Set<Seq<char>>)>
    decreases n, 0int, i,
{
    if i <= 0 || i > n.elements@.len() {
        Seq::empty()
    } else {
        collected_upto(n, i - 1) + match n.elements@[i - 1] {
            Element::Node(c) => {
                proof {
                    lemma_child_decreases(n, i - 1);
                }
                if c.kind == Kind::ProcessStatement && spec_is_not_combinational(c) {
                    Seq::empty()
                } else if is_instance(c.kind) {
                    Seq::empty()
                } else if edge_kinds().contains(c.kind) {
                    statement_edges(c)
                } else {
                    collected(c)
                }
            },
            Element::Token(_) => Seq::empty(),
        }
    }
}

/// An edge as plain values.
pub open spec fn edge_view(e: (String, usize, Vec<String>)) -> (Seq<char>, usize, Set<Seq<char>>) {
    (e.0@, e.1, names(e.2@))
}

/// Edges as plain values.
pub open spec fn edges_view(v: Seq<(String, usize, Vec<String>)>) -> Seq<(Seq<char>, usize, Set<Seq<char>>)> {
    v.map_values(|e: (String, usize, Vec<String>)| edge_view(e))
}

/// Where the ticks of the attribute names in `st` are.
fn ticks(st: &Node) -> (r: Vec<usize>)
    ensures
        r@ == ticks_of(spec_find(*st, Kind::AttributeName)),
{
    let attrs = find(st, Kind::AttributeName);
    let ghost av = nodes_of(attrs@);
    let mut out: Vec<usize> = Vec::new();
    let mut i: usize = 0;
    assert(av.take(0) =~= Seq::<Node>::empty());
    while i < attrs.len()
        invariant
            0 <= i <= attrs@.len(),
            av == nodes_of(attrs@),
            out@ == ticks_of(av.take(i as int)),
        decreases attrs@.len() - i,
    {
        let toks = all_tokens(attrs[i]);
        assert(av.take(i + 1).drop_last() =~= av.take(i as int));
        assert(av.take(i + 1).last() == *attrs@[i as int]);
        if toks.len() > 0 {
            assert(tokens_of(toks@)[0] == *toks@[0]);
            out.push(toks[0].offset);
        } else {
            assert(out@ =~= out@ + Seq::<usize>::empty());
        }
        i = i + 1;
    }
    assert(av.take(i as int) =~= av);
    out
}

/// Whether the read at `at` is an attribute prefix.
fn prefix_read(rs: &Vec<(String, usize)>, ticks: &Vec<usize>, at: usize) -> (r: bool)
    ensures
        r == is_prefix_read(named_views(rs@), ticks@, at),
{
    let ghost rv = named_views(rs@);
    let mut t: usize = 0;
    while t < ticks.len()
        invariant
            0 <= t <= ticks@.len(),
            rv == named_views(rs@),
            forall|u: int|
                0 <= u < t ==> !(at < #[trigger] ticks@[u] && forall|k: int|
                    0 <= k < rv.len() ==> !(at < #[trigger] rv[k].1 && rv[k].1 < ticks@[u])),
        decreases ticks@.len() - t,
    {
        if at < ticks[t] {
            let mut between = false;
            let mut k: usize = 0;
            while k < rs.len()
                invariant
                    0 <= k <= rs@.len(),
                    t < ticks@.len(),
                    rv == named_views(rs@),
                    !between ==> forall|j: int| 0 <= j < k ==> !(at < #[trigger] rv[j].1 && rv[j].1 < ticks@[t as int]),
                    between ==> exists|j: int| 0 <= j < rs@.len() && at < #[trigger] rv[j].1 && rv[j].1 < ticks@[t as int],
                decreases rs@.len() - k,
            {
                assert(rv[k as int].1 == rs@[k as int].1);
                if at < rs[k].1 && rs[k].1 < ticks[t] {
                    between = true;
                }
                k = k + 1;
            }
            if !between {
                assert(is_prefix_read(rv, ticks@, at)) by {
                    assert(at < ticks@[t as int]);
                }
                return true;
            }
        }
        t = t + 1;
    }
    false
}

/// What a statement reads that its targets depend on.
fn sources(st: &Node) -> (r: Vec<String>)
    ensures
        names(r@) == statement_sources(*st),
{
    let mut rs: Vec<(String, usize)> = Vec::new();
    reads(st, &mut rs);
    assert(named_views(rs@) =~= named_views(Seq::<(String, usize)>::empty()) + spec_reads(*st));
    let ts = ticks(st);
    let ghost rv = named_views(rs@);
    let ghost want = read_sources(rv, ts@);
    let mut out: Vec<String> = Vec::new();
    let mut k: usize = 0;
    while k < rs.len()
        invariant
            0 <= k <= rs@.len(),
            rv == named_views(rs@),
            want == read_sources(rv, ts@),
            names(out@) == Set::new(
                |x: Seq<char>| exists|j: int| 0 <= j < k && #[trigger] rv[j].0 == x && !is_prefix_read(rv, ts@, rv[j].1),
            ),
        decreases rs@.len() - k,
    {
        let ghost before = names(out@);
        assert(rv[k as int] == (rs@[k as int].0@, rs@[k as int].1));
        if !prefix_read(&rs, &ts, rs[k].1) {
            add_name(&mut out, rs[k].0.clone());
        }
        k = k + 1;
        assert(names(out@) =~= Set::new(
            |x: Seq<char>| exists|j: int| 0 <= j < k && #[trigger] rv[j].0 == x && !is_prefix_read(rv, ts@, rv[j].1),
        )) by {
            assert forall|x: Seq<char>| names(out@).contains(x) implies exists|j: int| 0 <= j < k && #[trigger] rv[j].0 == x && !is_prefix_read(rv, ts@, rv[j].1) by {
                if !before.contains(x) {
                    assert(rv[k - 1].0 == x);
                }
            }
        }
    }
    assert(names(out@) =~= want);
    out
}

/// Whether a target is a whole object.
fn whole(t: &str) -> (r: bool)
    ensures
        r == is_whole(t@),
{
    let v = crate::chars::chars_of(t);
    let mut i: usize = 0;
    while i < v.len()
        invariant
            0 <= i <= v@.len(),
            v@ == t@,
            forall|j: int| 0 <= j < i ==> v@[j] != '(' && v@[j] != '.',
        decreases v@.len() - i,
    {
        if v[i] == '(' || v[i] == '.' {
            assert(t@.contains(v@[i as int]));
            return false;
        }
        i = i + 1;
    }
    true
}

/// A copy of a list of names.
fn copy_names(v: &Vec<String>) -> (r: Vec<String>)
    ensures
        names(r@) == names(v@),
{
    let mut out: Vec<String> = Vec::new();
    let mut i: usize = 0;
    while i < v.len()
        invariant
            0 <= i <= v@.len(),
            forall|j: int| 0 <= j < i ==> (#[trigger] out@[j])@ == v@[j]@,
            out@.len() == i,
        decreases v@.len() - i,
    {
        out.push(v[i].clone());
        i = i + 1;
    }
    assert(names(out@) =~= names(v@)) by {
        assert forall|x: Seq<char>| names(v@).contains(x) implies names(out@).contains(x) by {
            let j = choose|j: int| 0 <= j < v@.len() && (#[trigger] v@[j])@ == x;
            assert(out@[j]@ == x);
        }
    }
    out
}

/// Appends what an assignment statement adds to the graph.
fn statement_edges_into(st: &Node, out: &mut Vec<(String, usize, Vec<String>)>)
    ensures
        edges_view(final(out)@) == edges_view(old(out)@) + statement_edges(*st),
{
    let text = text_of(st);
    if contains_text(&text, "after") {
        proof {
            reveal_strlit("after");
            assert("after"@ =~= after_word());
        }
        assert(edges_view(out@) =~= edges_view(out@) + Seq::<(Seq<char>, usize, Set<Seq<char>>)>::empty());
        return;
    }
    proof {
        reveal_strlit("after");
        assert("after"@ =~= after_word());
    }
    let src = sources(st);
    let targets = assignments(st);
    let ghost tv = named_views(targets@);
    let ghost start = edges_view(out@);
    let mut i: usize = 0;
    assert(tv.take(0) =~= Seq::<(Seq<char>, usize)>::empty());
    while i < targets.len()
        invariant
            0 <= i <= targets@.len(),
            tv == named_views(targets@),
            tv == spec_assignments(*st),
            names(src@) == statement_sources(*st),
            edges_view(out@) == start + target_edges(tv.take(i as int), statement_sources(*st)),
        decreases targets@.len() - i,
    {
        assert(tv.take(i + 1).drop_last() =~= tv.take(i as int));
        assert(tv.take(i + 1).last() == (targets@[i as int].0@, targets@[i as int].1));
        if whole(targets[i].0.as_str()) {
            let (base, _) = path(targets[i].0.as_str());
            let e = (base, targets[i].1, copy_names(&src));
            let ghost before = out@;
            out.push(e);
            assert(edges_view(out@) =~= edges_view(before).push(edge_view(e)));
        } else {
            assert(edges_view(out@) =~= edges_view(out@) + Seq::<(Seq<char>, usize, Set<Seq<char>>)>::empty());
        }
        i = i + 1;
    }
    assert(tv.take(i as int) =~= tv);
}

/// Whether a statement kind makes a combinational edge.
fn is_edge_kind(k: Kind) -> (r: bool)
    ensures
        r == edge_kinds().contains(k),
{
    let r = k == Kind::ConcurrentSimpleSignalAssignment || k == Kind::ConcurrentConditionalSignalAssignment
        || k == Kind::ConcurrentSelectedSignalAssignment || k == Kind::SimpleWaveformAssignment || k
        == Kind::ConditionalWaveformAssignment || k == Kind::SelectedWaveformAssignment;
    proof {
        let e = edge_kinds();
        if r {
            if k == Kind::ConcurrentSimpleSignalAssignment {
                assert(e[0] == k);
            } else if k == Kind::ConcurrentConditionalSignalAssignment {
                assert(e[1] == k);
            } else if k == Kind::ConcurrentSelectedSignalAssignment {
                assert(e[2] == k);
            } else if k == Kind::SimpleWaveformAssignment {
                assert(e[3] == k);
            } else if k == Kind::ConditionalWaveformAssignment {
                assert(e[4] == k);
            } else {
                assert(e[5] == k);
            }
        } else {
            assert forall|j: int| 0 <= j < e.len() implies e[j] != k by {}
        }
    }
    r
}

/// Appends what the statements below `n` add to the graph.
fn collect_into(n: &Node, out: &mut Vec<(String, usize, Vec<String>)>)
    ensures
        edges_view(final(out)@) == edges_view(old(out)@) + collected(*n),
    decreases n, 1int, 0int,
{
    let ghost start = edges_view(out@);
    let mut i: usize = 0;
    while i < n.elements.len()
        invariant
            0 <= i <= n.elements@.len(),
            edges_view(out@) == start + collected_upto(*n, i as int),
        decreases n.elements@.len() - i,
    {
        let ghost before = edges_view(out@);
        match &n.elements[i] {
            Element::Node(c) => {
                proof {
                    lemma_child_decreases(*n, i as int);
                }
                if c.kind == Kind::ProcessStatement && is_not_combinational(c) {
                } else if c.kind == Kind::ComponentInstantiationStatement || c.kind
                    == Kind::ConcurrentProcedureCallOrComponentInstantiationStatement {
                } else if is_edge_kind(c.kind) {
                    statement_edges_into(c, out);
                } else {
                    collect_into(c, out);
                }
            },
            Element::Token(_) => {},
        }
        i = i + 1;
        assert(edges_view(out@) =~= start + collected_upto(*n, i as int));
    }
}


/// What the statement parts `parts` add to the graph, in order.
pub open spec fn parts_edges(parts: Seq<Node>) -> Seq<(Seq<char>, usize, Set<Seq<char>>)>
    decreases parts.len(),
{
    if parts.len() == 0 {
        Seq::empty()
    } else {
        parts_edges(parts.drop_last()) + collected(parts.last())
    }
}

/// What the statements of an architecture add to its graph.
pub open spec fn architecture_edges(arch: Node) -> Seq<(Seq<char>, usize, Set<Seq<char>>)> {
    parts_edges(spec_find(arch, Kind::ArchitectureStatementPart))
}

/// The signals of the graph, in order of name, each with the place of its first assignment.
pub open spec fn signals_of(edges: Seq<(Seq<char>, usize, Set<Seq<char>>)>) -> Seq<(Seq<char>, usize)>
    decreases edges.len(),
{
    if edges.len() == 0 {
        Seq::empty()
    } else {
        or_insert(signals_of(edges.drop_last()), edges.last().0, edges.last().1)
    }
}

/// Whether signal `a` depends on signal `b`: some assignment to `a` reads `b`.
pub open spec fn depends(edges: Seq<(Seq<char>, usize, Set<Seq<char>>)>, a: Seq<char>, b: Seq<char>) -> bool {
    exists|k: int| 0 <= k < edges.len() && #[trigger] edges[k].0 == a && edges[k].2.contains(b)
}

/// The numbers among the first `j` signals that signal `i` depends on, in order.
pub open spec fn deps_upto(
    edges: Seq<(Seq<char>, usize, Set<Seq<char>>)>,
    sig: Seq<(Seq<char>, usize)>,
    i: int,
    j: int,
) -> Seq<usize>
    decreases j,
{
    if j <= 0 {
        Seq::empty()
    } else {
        deps_upto(edges, sig, i, j - 1) + if depends(edges, sig[i].0, sig[j - 1].0) {
            seq![(j - 1) as usize]
        } else {
            Seq::empty()
        }
    }
}

/// The graph over signal numbers: each signal with the signals it depends on.
pub open spec fn signal_graph(edges: Seq<(Seq<char>, usize, Set<Seq<char>>)>, sig: Seq<(Seq<char>, usize)>) -> Seq<
    Seq<usize>,
> {
    Seq::new(sig.len(), |i: int| deps_upto(edges, sig, i, sig.len() as int))
}

/// `Combinational loop: a -> b -> a depends on itself with no register in the way`.
pub open spec fn loop_message(names: Seq<Seq<char>>) -> Seq<char> {
    "Combinational loop: "@ + joined(names, " -> "@) + " depends on itself with no register in the way"@
}

/// What `lint_720` reports of a loop `c` over the signals `sig`: at the first assignment of
/// its first signal, every signal on it in order, and each signal but the repeated last as a
/// related place, where it is driven.
pub open spec fn loop_finding(sig: Seq<(Seq<char>, usize)>, c: Seq<usize>, source: Seq<u8>, utf8: bool) -> SFinding {
    SFinding {
        rule: "lint_720"@,
        line: spec_line_col(source, utf8, sig[c[0] as int].1 as int).0,
        column: spec_line_col(source, utf8, sig[c[0] as int].1 as int).1,
        message: loop_message(c.map_values(|x: usize| sig[x as int].0)),
        related: c.take(c.len() - 1).map_values(
            |x: usize|
                (
                    spec_line_col(source, utf8, sig[x as int].1 as int).0,
                    spec_line_col(source, utf8, sig[x as int].1 as int).1,
                    driven_here(sig[x as int].0),
                ),
        ),
    }
}

/// What `lint_720` reports of one architecture: one finding per loop of its graph.
pub open spec fn architecture_loops(arch: Node, source: Seq<u8>, utf8: bool) -> Seq<SFinding> {
    let e = architecture_edges(arch);
    let sig = signals_of(e);
    loops_upto(signal_graph(e, sig), sig.len()).map_values(|c: Seq<usize>| loop_finding(sig, c, source, utf8))
}

/// What `lint_720` reports of the architectures `archs`, in their order.
pub open spec fn architectures_loops(archs: Seq<Node>, source: Seq<u8>, utf8: bool) -> Seq<SFinding>
    decreases archs.len(),
{
    if archs.len() == 0 {
        Seq::empty()
    } else {
        architectures_loops(archs.drop_last(), source, utf8) + architecture_loops(archs.last(), source, utf8)
    }
}

/// What `lint_720` reports of a file: the loops of each architecture, sorted by place.
pub open spec fn spec_check(root: Node, source: Seq<u8>) -> Seq<SFinding> {
    sort_findings(
        architectures_loops(spec_find(root, Kind::ArchitectureBody), source, vstd::utf8::valid_utf8(source)),
    )
}

/// The signals on a cycle are signals of the graph.
pub proof fn lemma_cycle_in_graph(g: Seq<Seq<usize>>, p: Seq<usize>)
    requires
        well_formed(g),
        is_cycle(g, p),
    ensures
        forall|k: int| 0 <= k < p.len() ==> #[trigger] p[k] < g.len(),
{
    assert forall|k: int| 0 <= k < p.len() implies #[trigger] p[k] < g.len() by {
        if k < p.len() - 1 {
            assert(edge(g, p[k] as int, p[k + 1]));
        } else {
            let z: int = 0;
            assert(edge(g, p[z] as int, p[z + 1]));
        }
    }
}

/// The edges of an architecture.
fn edges_of_architecture(arch: &Node) -> (r: Vec<(String, usize, Vec<String>)>)
    ensures
        edges_view(r@) == architecture_edges(*arch),
{
    let parts = find(arch, Kind::ArchitectureStatementPart);
    let ghost pv = nodes_of(parts@);
    let mut out: Vec<(String, usize, Vec<String>)> = Vec::new();
    let mut i: usize = 0;
    assert(pv.take(0) =~= Seq::<Node>::empty());
    assert(edges_view(out@) =~= Seq::<(Seq<char>, usize, Set<Seq<char>>)>::empty());
    while i < parts.len()
        invariant
            0 <= i <= parts@.len(),
            pv == nodes_of(parts@),
            edges_view(out@) == parts_edges(pv.take(i as int)),
        decreases parts@.len() - i,
    {
        assert(pv.take(i + 1).drop_last() =~= pv.take(i as int));
        assert(pv.take(i + 1).last() == *parts@[i as int]);
        collect_into(parts[i], &mut out);
        i = i + 1;
    }
    assert(pv.take(i as int) =~= pv);
    out
}

/// The signals of a graph, in order of name, with the places of their first assignments.
fn signals(edges: &Vec<(String, usize, Vec<String>)>) -> (r: Vec<(String, usize)>)
    ensures
        named_views(r@) == signals_of(edges_view(edges@)),
{
    let ghost ev = edges_view(edges@);
    let mut out: Vec<(String, usize)> = Vec::new();
    let mut k: usize = 0;
    assert(ev.take(0) =~= Seq::<(Seq<char>, usize, Set<Seq<char>>)>::empty());
    assert(named_views(out@) =~= Seq::<(Seq<char>, usize)>::empty());
    while k < edges.len()
        invariant
            0 <= k <= edges@.len(),
            ev == edges_view(edges@),
            named_views(out@) == signals_of(ev.take(k as int)),
        decreases edges@.len() - k,
    {
        assert(ev.take(k + 1).drop_last() =~= ev.take(k as int));
        assert(ev.take(k + 1).last() == edge_view(edges@[k as int]));
        entry_or_insert(&mut out, edges[k].0.clone(), edges[k].1);
        k = k + 1;
    }
    assert(ev.take(k as int) =~= ev);
    out
}

/// Whether signal `a` depends on signal `b`.
fn depends_on(edges: &Vec<(String, usize, Vec<String>)>, a: &str, b: &str) -> (r: bool)
    ensures
        r == depends(edges_view(edges@), a@, b@),
{
    let ghost ev = edges_view(edges@);
    let mut k: usize = 0;
    while k < edges.len()
        invariant
            0 <= k <= edges@.len(),
            ev == edges_view(edges@),
            forall|j: int| 0 <= j < k ==> !(#[trigger] ev[j].0 == a@ && ev[j].2.contains(b@)),
        decreases edges@.len() - k,
    {
        assert(ev[k as int] == edge_view(edges@[k as int]));
        if crate::bytes::str_eq(edges[k].0.as_str(), a) && has_name(&edges[k].2, b) {
            assert(ev[k as int].0 == a@ && ev[k as int].2.contains(b@));
            return true;
        }
        k = k + 1;
    }
    false
}

/// The graph over signal numbers.
fn graph_of(edges: &Vec<(String, usize, Vec<String>)>, sig: &Vec<(String, usize)>) -> (r: Vec<Vec<usize>>)
    ensures
        graph_view(r@) == signal_graph(edges_view(edges@), named_views(sig@)),
        well_formed(graph_view(r@)),
{
    let ghost ev = edges_view(edges@);
    let ghost sv = named_views(sig@);
    let n = sig.len();
    let mut out: Vec<Vec<usize>> = Vec::new();
    let mut i: usize = 0;
    while i < n
        invariant
            0 <= i <= n,
            n == sig@.len(),
            ev == edges_view(edges@),
            sv == named_views(sig@),
            out@.len() == i,
            forall|u: int| 0 <= u < i ==> (#[trigger] out@[u])@ == deps_upto(ev, sv, u, n as int),
            forall|u: int, k: int| 0 <= u < i && 0 <= k < out@[u]@.len() ==> #[trigger] out@[u]@[k] < n,
        decreases n - i,
    {
        let mut row: Vec<usize> = Vec::new();
        let mut j: usize = 0;
        while j < n
            invariant
                0 <= j <= n,
                i < n,
                n == sig@.len(),
                ev == edges_view(edges@),
                sv == named_views(sig@),
                row@ == deps_upto(ev, sv, i as int, j as int),
                forall|k: int| 0 <= k < row@.len() ==> #[trigger] row@[k] < j,
            decreases n - j,
        {
            assert(sv[i as int] == (sig@[i as int].0@, sig@[i as int].1));
            assert(sv[j as int] == (sig@[j as int].0@, sig@[j as int].1));
            if depends_on(edges, sig[i].0.as_str(), sig[j].0.as_str()) {
                row.push(j);
            } else {
                assert(row@ =~= row@ + Seq::<usize>::empty());
            }
            j = j + 1;
        }
        out.push(row);
        i = i + 1;
    }
    assert(graph_view(out@) =~= signal_graph(ev, sv));
    out
}

/// `Combinational loop: ... depends on itself with no register in the way`.
fn loop_message_of(names: &Vec<String>) -> (r: String)
    ensures
        r@ == loop_message(crate::analysis::design::strings_view(names@)),
{
    let mut m = String::from_str("Combinational loop: ");
    let through = join(names, " -> ");
    m.append(through.as_str());
    m.append(" depends on itself with no register in the way");
    proof {
        reveal_strlit("Combinational loop: ");
        reveal_strlit(" -> ");
        reveal_strlit(" depends on itself with no register in the way");
    }
    m
}

/// The finding for a loop `c` over the signals `sig`.
fn loop_finding_of(sig: &Vec<(String, usize)>, c: &Vec<usize>, source: &[u8], utf8: bool, file: &PathBuf) -> (r: Finding)
    requires
        c@.len() >= 1,
        forall|k: int| 0 <= k < c@.len() ==> #[trigger] c@[k] < sig@.len(),
        4 * source@.len() < usize::MAX,
    ensures
        finding_view(r) == loop_finding(named_views(sig@), c@, source@, utf8),
{
    let ghost sv = named_views(sig@);
    let mut through: Vec<String> = Vec::new();
    let mut k: usize = 0;
    while k < c.len()
        invariant
            0 <= k <= c@.len(),
            sv == named_views(sig@),
            forall|q: int| 0 <= q < c@.len() ==> #[trigger] c@[q] < sig@.len(),
            crate::analysis::design::strings_view(through@) == c@.take(k as int).map_values(|x: usize| sv[x as int].0),
        decreases c@.len() - k,
    {
        let ghost before = through@;
        assert(sv[c@[k as int] as int] == (sig@[c@[k as int] as int].0@, sig@[c@[k as int] as int].1));
        through.push(sig[c[k]].0.clone());
        assert(c@.take(k + 1) =~= c@.take(k as int).push(c@[k as int]));
        assert(crate::analysis::design::strings_view(through@) =~= crate::analysis::design::strings_view(before).push(sv[c@[k as int] as int].0));
        k = k + 1;
    }
    assert(c@.take(k as int) =~= c@);
    let message = loop_message_of(&through);
    let mut related: Vec<Related> = Vec::new();
    let walk = c.len() - 1;
    let ghost want = c@.take(c@.len() - 1).map_values(
        |x: usize|
            (
                spec_line_col(source@, utf8, sv[x as int].1 as int).0,
                spec_line_col(source@, utf8, sv[x as int].1 as int).1,
                driven_here(sv[x as int].0),
            ),
    );
    let mut q: usize = 0;
    while q < walk
        invariant
            0 <= q <= walk,
            walk == c@.len() - 1,
            sv == named_views(sig@),
            4 * source@.len() < usize::MAX,
            forall|z: int| 0 <= z < c@.len() ==> #[trigger] c@[z] < sig@.len(),
            want.len() == walk,
            want == c@.take(c@.len() - 1).map_values(
                |x: usize|
                    (
                        spec_line_col(source@, utf8, sv[x as int].1 as int).0,
                        spec_line_col(source@, utf8, sv[x as int].1 as int).1,
                        driven_here(sv[x as int].0),
                    ),
            ),
            related@.map_values(|r: Related| related_view(r)) == want.take(q as int),
        decreases walk - q,
    {
        let s = c[q];
        assert(sv[s as int] == (sig@[s as int].0@, sig@[s as int].1));
        let (l, col) = line_col(source, utf8, sig[s].1);
        let r = Related {
            file: file.clone(),
            line: l,
            column: col,
            message: crate::analysis::design::driven_here_message(sig[s].0.as_str()),
        };
        let ghost before = related@;
        related.push(r);
        assert(want[q as int] == related_view(r));
        assert(related@.map_values(|r: Related| related_view(r)) =~= before.map_values(|r: Related| related_view(r)).push(related_view(r)));
        assert(want.take(q + 1) =~= want.take(q as int).push(want[q as int]));
        q = q + 1;
    }
    assert(want.take(q as int) =~= want);
    let first = c[0];
    assert(sv[first as int] == (sig@[first as int].0@, sig@[first as int].1));
    let (line, column) = line_col(source, utf8, sig[first].1);
    proof {
        reveal_strlit("lint_720");
    }
    Finding { file: file.clone(), rule: "lint_720", line, column, message, related }
}

/// `lint_720`: a combinational loop, reported once per loop, at the first assignment of the
/// loop's first signal, with every signal on it and where each is driven. Sorted by place.
pub fn check(root: &Node, source: &[u8], file: &PathBuf) -> (r: Vec<Finding>)
    requires
        4 * source@.len() < usize::MAX,
    ensures
        finding_views(r@) == spec_check(*root, source@),
{
    let utf8 = crate::reflow::is_utf8(source);
    let archs = find(root, Kind::ArchitectureBody);
    let ghost av = nodes_of(archs@);
    let mut out: Vec<Finding> = Vec::new();
    let ghost mut gen = Seq::<SFinding>::empty();
    assert(finding_views(out@) =~= sort_findings(gen));
    let mut i: usize = 0;
    assert(av.take(0) =~= Seq::<Node>::empty());
    while i < archs.len()
        invariant
            0 <= i <= archs@.len(),
            4 * source@.len() < usize::MAX,
            av == nodes_of(archs@),
            gen == architectures_loops(av.take(i as int), source@, utf8),
            finding_views(out@) == sort_findings(gen),
        decreases archs@.len() - i,
    {
        let arch = archs[i];
        assert(av.take(i + 1).drop_last() =~= av.take(i as int));
        assert(av.take(i + 1).last() == *arch);
        let edges = edges_of_architecture(arch);
        let sig = signals(&edges);
        let graph = graph_of(&edges, &sig);
        let found = loops(&graph);
        let ghost g = graph_view(graph@);
        let ghost sv = named_views(sig@);
        let ghost fv = loops_view(found@);
        let ghost all = fv.map_values(|c: Seq<usize>| loop_finding(sv, c, source@, utf8));
        let ghost base = gen;
        assert(graph@.len() == sig@.len()) by {
            assert(g.len() == sv.len());
        }
        let mut k: usize = 0;
        assert(all.take(0) =~= Seq::<SFinding>::empty());
        assert(base + all.take(0) =~= base);
        while k < found.len()
            invariant
                0 <= k <= found@.len(),
                4 * source@.len() < usize::MAX,
                fv == loops_view(found@),
                g == graph_view(graph@),
                well_formed(g),
                g.len() == sv.len(),
                sv == named_views(sig@),
                sig@.len() == sv.len(),
                all == fv.map_values(|c: Seq<usize>| loop_finding(sv, c, source@, utf8)),
                forall|j: int| 0 <= j < found@.len() ==> is_cycle(g, #[trigger] found@[j]@),
                gen == base + all.take(k as int),
                finding_views(out@) == sort_findings(gen),
            decreases found@.len() - k,
        {
            proof {
                lemma_cycle_in_graph(g, found@[k as int]@);
            }
            let f = loop_finding_of(&sig, &found[k], source, utf8, file);
            assert(all[k as int] == finding_view(f));
            put_finding(&mut out, f);
            proof {
                let next = gen.push(finding_view(f));
                assert(next.drop_last() =~= gen);
                gen = next;
                assert(base + all.take(k + 1) =~= gen);
            }
            k = k + 1;
        }
        proof {
            assert(all.take(k as int) =~= all);
            assert(fv == loops_upto(g, graph@.len() as nat));
            assert(g == signal_graph(edges_view(edges@), sv));
            assert(all == architecture_loops(*arch, source@, utf8));
        }
        i = i + 1;
    }
    assert(av.take(i as int) =~= av);
    out
}
} // verus!
