//! Strongly connected components by Kosaraju's two passes, labelled by their smallest vertex.
use crate::error::Error;
use crate::execution::{bytes_for, ExecutionContext};
use crate::graph::Graph;
use crate::transpose::lemma_reverse_transposes;
use crate::topology::{has_arc, is_path, is_transpose, row_slice, rows_of, topology_valid};
use crate::traversal::{lemma_reach_refl, lemma_reach_step, lemma_reach_trans, reachable};
use vstd::prelude::*;

verus! {

/// `x` and `y` reach each other.
pub open spec fn strongly_connected(rows: Seq<Seq<u64>>, x: int, y: int) -> bool {
    reachable(rows, x, y) && reachable(rows, y, x)
}

/// `labels` names the strongly connected components of `rows`: two vertices share a label
/// exactly when they reach each other, and each label is the smallest vertex of its
/// component.
pub open spec fn strong_component_labels(rows: Seq<Seq<u64>>, labels: Seq<u64>) -> bool {
    &&& labels.len() == rows.len()
    &&& forall|x: int, y: int|
        #![trigger labels[x], labels[y]]
        0 <= x < labels.len() && 0 <= y < labels.len() ==> (labels[x] == labels[y] <==> strongly_connected(
            rows,
            x,
            y,
        ))
    &&& forall|x: int|
        #![trigger labels[x]]
        0 <= x < labels.len() ==> labels[x] <= x && labels[labels[x] as int] == labels[x]
}

/// Every arc of `rows` ends at one of its vertices.
pub open spec fn arcs_in_range(rows: Seq<Seq<u64>>) -> bool {
    forall|u: int, w: u64| 0 <= u < rows.len() && #[trigger] rows[u].contains(w) ==> w < rows.len()
}

/// `order` lists every vertex once, and whenever `order[i]` reaches `order[j]` but not
/// back, some vertex strongly connected to `order[i]` comes after `order[j]`: a finishing
/// order of depth-first search.
pub open spec fn finishing_order(rows: Seq<Seq<u64>>, order: Seq<usize>) -> bool {
    &&& forall|i: int| 0 <= i < order.len() ==> #[trigger] order[i] < rows.len()
    &&& forall|i: int, j: int| 0 <= i < j < order.len() ==> #[trigger] order[i] != #[trigger] order[j]
    &&& forall|v: int| 0 <= v < rows.len() ==> #[trigger] listed(order, v)
    &&& forall|i: int, j: int|
        0 <= i < order.len() && 0 <= j < order.len() && #[trigger] reachable(rows, order[i] as int, order[j] as int)
            && !reachable(rows, order[j] as int, order[i] as int) ==> exists|k: int|
            j < k < order.len() && #[trigger] strongly_connected(rows, order[k] as int, order[i] as int)
}

/// `v` occurs in `order`.
pub open spec fn listed(order: Seq<usize>, v: int) -> bool {
    exists|i: int| 0 <= i < order.len() && #[trigger] order[i] == v
}

/// Vertices not yet seen.
spec fn unseen(seen: Seq<bool>) -> nat
    decreases seen.len(),
{
    if seen.len() == 0 {
        0
    } else {
        unseen(seen.drop_last()) + if seen.last() { 0nat } else { 1nat }
    }
}

proof fn lemma_unseen_mark(seen: Seq<bool>, v: int)
    requires
        0 <= v < seen.len(),
        !seen[v],
    ensures
        unseen(seen.update(v, true)) + 1 == unseen(seen),
    decreases seen.len(),
{
    let e = seen.update(v, true);
    if v == seen.len() - 1 {
        assert(e.drop_last() == seen.drop_last());
    } else {
        assert(e.drop_last() == seen.drop_last().update(v, true));
        lemma_unseen_mark(seen.drop_last(), v);
    }
}

/// Arcs still to scan on the stack, plus one per frame.
spec fn pending(rows: Seq<Seq<u64>>, stack: Seq<(usize, usize)>) -> int
    decreases stack.len(),
{
    if stack.len() == 0 {
        0
    } else {
        pending(rows, stack.drop_last()) + rows[stack.last().0 as int].len() - stack.last().1 + 1
    }
}

proof fn lemma_pending_nonnegative(rows: Seq<Seq<u64>>, stack: Seq<(usize, usize)>)
    requires
        forall|i: int| 0 <= i < stack.len() ==> #[trigger] stack[i].1 <= rows[stack[i].0 as int].len(),
    ensures
        pending(rows, stack) >= 0,
    decreases stack.len(),
{
    if stack.len() > 0 {
        let s = stack.drop_last();
        assert forall|i: int| 0 <= i < s.len() implies #[trigger] s[i].1 <= rows[s[i].0 as int].len() by {
            assert(s[i] == stack[i]);
        }
        lemma_pending_nonnegative(rows, s);
        assert(stack[stack.len() - 1] == stack.last());
    }
}

/// The colours of a depth-first search: black vertices have a finishing position,
/// grey ones are seen but unfinished, white ones unseen.
spec fn coloured(n: int, seen: Seq<bool>, pos: Seq<int>, order: Seq<usize>) -> bool {
    &&& seen.len() == n
    &&& pos.len() == n
    &&& forall|v: int| 0 <= v < n ==> -1 <= #[trigger] pos[v] < order.len()
    &&& forall|v: int| 0 <= v < n && #[trigger] pos[v] >= 0 ==> seen[v] && order[pos[v]] == v
    &&& forall|i: int| 0 <= i < order.len() ==> #[trigger] order[i] < n && pos[order[i] as int] == i
}

/// The grey vertices are exactly the stack, once each, each reaching those above it.
spec fn grey_stack(rows: Seq<Seq<u64>>, seen: Seq<bool>, pos: Seq<int>, stack: Seq<(usize, usize)>) -> bool {
    &&& forall|i: int|
        0 <= i < stack.len() ==> #[trigger] stack[i].0 < rows.len() && seen[stack[i].0 as int] && pos[stack[i].0 as int]
            < 0 && stack[i].1 <= rows[stack[i].0 as int].len()
    &&& forall|v: int|
        0 <= v < rows.len() && #[trigger] seen[v] && pos[v] < 0 ==> exists|i: int|
            0 <= i < stack.len() && #[trigger] stack[i].0 == v
    &&& forall|i: int, j: int| 0 <= i < j < stack.len() ==> #[trigger] stack[i].0 != #[trigger] stack[j].0
    &&& forall|i: int, j: int|
        0 <= i < j < stack.len() ==> #[trigger] reachable(rows, stack[i].0 as int, stack[j].0 as int)
    &&& forall|i: int, k: int|
        0 <= i < stack.len() && 0 <= k < stack[i].1 ==> #[trigger] seen[#[trigger] rows[stack[i].0 as int][k] as int]
}

/// Finished vertices have no unseen successor.
spec fn black_closed(rows: Seq<Seq<u64>>, seen: Seq<bool>, pos: Seq<int>) -> bool {
    forall|b: int, w: u64| 0 <= b < rows.len() && pos[b] >= 0 && #[trigger] rows[b].contains(w) ==> seen[w as int]
}

/// A finished vertex `a` that reaches `v` without being reached back either still has a grey
/// vertex strongly connected to it, or `v` finished before some finished vertex strongly
/// connected to `a`.
spec fn finish_invariant(rows: Seq<Seq<u64>>, seen: Seq<bool>, pos: Seq<int>) -> bool {
    forall|a: int, v: int|
        0 <= a < rows.len() && 0 <= v < rows.len() && pos[a] >= 0 && #[trigger] reachable(rows, a, v) && !reachable(
            rows,
            v,
            a,
        ) ==> (exists|g: int|
            0 <= g < rows.len() && seen[g] && pos[g] < 0 && #[trigger] strongly_connected(rows, g, a)) || (pos[v] >= 0
            && exists|t: int| 0 <= t < rows.len() && pos[t] > pos[v] && #[trigger] strongly_connected(rows, t, a))
}

/// From a finished vertex, any path to an unfinished vertex passes a grey vertex.
proof fn lemma_frontier(rows: Seq<Seq<u64>>, seen: Seq<bool>, pos: Seq<int>, a: int, v: int, p: Seq<int>)
    requires
        seen.len() == rows.len(),
        pos.len() == rows.len(),
        arcs_in_range(rows),
        black_closed(rows, seen, pos),
        0 <= a < rows.len(),
        pos[a] >= 0,
        pos[v] < 0,
        0 <= v < rows.len(),
        is_path(rows, p, a, v),
    ensures
        exists|g: int|
            0 <= g < rows.len() && seen[g] && pos[g] < 0 && reachable(rows, a, g) && reachable(rows, g, v),
    decreases p.len(),
{
    let q = p.drop_last();
    let y = p[p.len() - 2];
    assert(has_arc(rows, p[p.len() - 2], p[p.len() - 1]));
    assert(is_path(rows, q, a, y)) by {
        assert forall|i: int| 0 <= i < q.len() - 1 implies has_arc(rows, #[trigger] q[i], q[i + 1]) by {
            assert(has_arc(rows, p[i], p[i + 1]));
        }
    }
    if pos[y] >= 0 {
        assert(rows[y].contains(v as u64));
        assert(seen[v]);
        assert(reachable(rows, a, v));
        lemma_reach_refl(rows, v);
    } else {
        assert(0 <= y < rows.len());
        lemma_frontier(rows, seen, pos, a, y, q);
        let g = choose|g: int|
            0 <= g < rows.len() && seen[g] && pos[g] < 0 && reachable(rows, a, g) && reachable(rows, g, y);
        lemma_reach_step(rows, g, y, v);
    }
}

/// Finishing the top of the stack keeps the search invariants.
proof fn lemma_finish(rows: Seq<Seq<u64>>, seen: Seq<bool>, pos: Seq<int>, stack: Seq<(usize, usize)>, u: int, at: int)
    requires
        arcs_in_range(rows),
        seen.len() == rows.len(),
        pos.len() == rows.len(),
        at >= 0,
        forall|x: int| 0 <= x < rows.len() ==> #[trigger] pos[x] < at,
        grey_stack(rows, seen, pos, stack),
        stack.len() >= 1,
        stack.last().0 == u,
        stack.last().1 == rows[u].len(),
        black_closed(rows, seen, pos),
        finish_invariant(rows, seen, pos),
    ensures
        black_closed(rows, seen, pos.update(u, at)),
        finish_invariant(rows, seen, pos.update(u, at)),
        grey_stack(rows, seen, pos.update(u, at), stack.drop_last()),
{
    let pos2 = pos.update(u, at);
    let top = stack.len() - 1;
    let stack2 = stack.drop_last();
    assert(stack[top] == stack.last());
    assert(0 <= u < rows.len());
    assert(seen[u] && pos[u] < 0);
    assert forall|b: int, w: u64| 0 <= b < rows.len() && pos2[b] >= 0 && #[trigger] rows[b].contains(w) implies seen[
        w as int
    ] by {
        if b == u {
            let k = choose|k: int| 0 <= k < rows[u].len() && rows[u][k] == w;
            assert(seen[rows[stack[top].0 as int][k] as int]);
        }
    }
    assert(black_closed(rows, seen, pos2));
    assert forall|i: int| 0 <= i < stack2.len() implies #[trigger] stack2[i].0 != u by {
        assert(stack2[i] == stack[i]);
        assert(stack[i].0 != stack[top].0);
    }
    assert(grey_stack(rows, seen, pos2, stack2)) by {
        assert forall|i: int|
            0 <= i < stack2.len() implies #[trigger] stack2[i].0 < rows.len() && seen[stack2[i].0 as int] && pos2[
                stack2[i].0 as int
            ] < 0 && stack2[i].1 <= rows[stack2[i].0 as int].len() by {
            assert(stack2[i] == stack[i]);
        }
        assert forall|v: int| 0 <= v < rows.len() && #[trigger] seen[v] && pos2[v] < 0 implies exists|i: int|
            0 <= i < stack2.len() && #[trigger] stack2[i].0 == v by {
            assert(v != u);
            let i = choose|i: int| 0 <= i < stack.len() && #[trigger] stack[i].0 == v;
            assert(i != top);
            assert(stack2[i] == stack[i]);
        }
        assert forall|i: int, j: int| 0 <= i < j < stack2.len() implies #[trigger] stack2[i].0 != #[trigger] stack2[j].0 by {
            assert(stack2[i] == stack[i] && stack2[j] == stack[j]);
        }
        assert forall|i: int, j: int|
            0 <= i < j < stack2.len() implies #[trigger] reachable(rows, stack2[i].0 as int, stack2[j].0 as int) by {
            assert(stack2[i] == stack[i] && stack2[j] == stack[j]);
        }
        assert forall|i: int, k: int|
            0 <= i < stack2.len() && 0 <= k < stack2[i].1 implies #[trigger] seen[#[trigger] rows[stack2[i].0 as int][k] as int] by {
            assert(stack2[i] == stack[i]);
        }
    }
    assert forall|a: int, v: int|
        0 <= a < rows.len() && 0 <= v < rows.len() && pos2[a] >= 0 && #[trigger] reachable(rows, a, v) && !reachable(
            rows,
            v,
            a,
        ) implies (exists|g: int|
        0 <= g < rows.len() && seen[g] && pos2[g] < 0 && #[trigger] strongly_connected(rows, g, a)) || (pos2[v] >= 0
        && exists|t: int| 0 <= t < rows.len() && pos2[t] > pos2[v] && #[trigger] strongly_connected(rows, t, a)) by {
        if exists|g: int| 0 <= g < rows.len() && seen[g] && pos2[g] < 0 && #[trigger] strongly_connected(rows, g, a) {
        } else if a == u || strongly_connected(rows, u, a) {
            if a == u {
                lemma_reach_refl(rows, u);
            }
            assert(reachable(rows, u, a));
            if pos2[v] < 0 {
                let p = choose|p: Seq<int>| #[trigger] is_path(rows, p, a, v);
                lemma_frontier(rows, seen, pos2, a, v, p);
                let g = choose|g: int|
                    0 <= g < rows.len() && seen[g] && pos2[g] < 0 && reachable(rows, a, g) && reachable(rows, g, v);
                let i = choose|i: int| 0 <= i < stack2.len() && #[trigger] stack2[i].0 == g;
                assert(stack2[i] == stack[i]);
                assert(reachable(rows, stack[i].0 as int, stack[top].0 as int));
                lemma_reach_trans(rows, g, u, a);
                assert(strongly_connected(rows, g, a));
                assert(false);
            }
            if v == u {
                assert(reachable(rows, v, a));
            }
            assert(pos2[u] > pos2[v]);
            assert(strongly_connected(rows, u, a));
        } else {
            assert(pos[a] >= 0);
            if exists|g: int| 0 <= g < rows.len() && seen[g] && pos[g] < 0 && #[trigger] strongly_connected(rows, g, a) {
                let g = choose|g: int| 0 <= g < rows.len() && seen[g] && pos[g] < 0 && #[trigger] strongly_connected(rows, g, a);
                assert(g != u);
                assert(pos2[g] < 0);
                assert(false);
            } else {
                assert(pos[v] >= 0);
                let t = choose|t: int| 0 <= t < rows.len() && pos[t] > pos[v] && #[trigger] strongly_connected(rows, t, a);
                assert(v != u);
                assert(pos2[t] > pos2[v]);
            }
        }
    }
}

/// Seeing more vertices keeps the finished vertices' invariants.
proof fn lemma_seen_grows(rows: Seq<Seq<u64>>, seen: Seq<bool>, seen2: Seq<bool>, pos: Seq<int>)
    requires
        seen.len() == rows.len(),
        seen2.len() == rows.len(),
        pos.len() == rows.len(),
        forall|x: int| 0 <= x < rows.len() && #[trigger] seen[x] ==> seen2[x],
        arcs_in_range(rows),
        black_closed(rows, seen, pos),
        finish_invariant(rows, seen, pos),
    ensures
        black_closed(rows, seen2, pos),
        finish_invariant(rows, seen2, pos),
{
    assert forall|b: int, w: u64| 0 <= b < rows.len() && pos[b] >= 0 && #[trigger] rows[b].contains(w) implies seen2[
        w as int
    ] by {
        assert(seen[w as int]);
        assert(w < rows.len());
    }
    assert forall|a: int, v: int|
        0 <= a < rows.len() && 0 <= v < rows.len() && pos[a] >= 0 && #[trigger] reachable(rows, a, v) && !reachable(
            rows,
            v,
            a,
        ) implies (exists|g: int|
        0 <= g < rows.len() && seen2[g] && pos[g] < 0 && #[trigger] strongly_connected(rows, g, a)) || (pos[v] >= 0
        && exists|t: int| 0 <= t < rows.len() && pos[t] > pos[v] && #[trigger] strongly_connected(rows, t, a)) by {
        if exists|g: int| 0 <= g < rows.len() && seen[g] && pos[g] < 0 && #[trigger] strongly_connected(rows, g, a) {
            let g = choose|g: int| 0 <= g < rows.len() && seen[g] && pos[g] < 0 && #[trigger] strongly_connected(rows, g, a);
            assert(seen2[g]);
        }
    }
}

/// Scanning the next arc of the top frame towards an already seen vertex keeps the stack valid.
proof fn lemma_advance(rows: Seq<Seq<u64>>, seen: Seq<bool>, pos: Seq<int>, stack: Seq<(usize, usize)>)
    requires
        grey_stack(rows, seen, pos, stack),
        stack.len() >= 1,
        stack.last().1 < rows[stack.last().0 as int].len(),
        seen[rows[stack.last().0 as int][stack.last().1 as int] as int],
    ensures
        grey_stack(
            rows,
            seen,
            pos,
            stack.update(stack.len() - 1, (stack.last().0, (stack.last().1 + 1) as usize)),
        ),
{
    let top = stack.len() - 1;
    let s2 = stack.update(top, (stack.last().0, (stack.last().1 + 1) as usize));
    assert(stack[top] == stack.last());
    assert forall|i: int| 0 <= i < s2.len() implies #[trigger] s2[i].0 == stack[i].0 by {}
    assert forall|i: int|
        0 <= i < s2.len() implies #[trigger] s2[i].0 < rows.len() && seen[s2[i].0 as int] && pos[s2[i].0 as int] < 0
            && s2[i].1 <= rows[s2[i].0 as int].len() by {
        assert(s2[i].0 == stack[i].0);
    }
    assert forall|v: int| 0 <= v < rows.len() && #[trigger] seen[v] && pos[v] < 0 implies exists|i: int|
        0 <= i < s2.len() && #[trigger] s2[i].0 == v by {
        let i = choose|i: int| 0 <= i < stack.len() && #[trigger] stack[i].0 == v;
        assert(s2[i].0 == stack[i].0);
    }
    assert forall|i: int, j: int| 0 <= i < j < s2.len() implies #[trigger] s2[i].0 != #[trigger] s2[j].0 by {
        assert(s2[i].0 == stack[i].0 && s2[j].0 == stack[j].0);
    }
    assert forall|i: int, j: int| 0 <= i < j < s2.len() implies #[trigger] reachable(rows, s2[i].0 as int, s2[j].0 as int) by {
        assert(s2[i].0 == stack[i].0 && s2[j].0 == stack[j].0);
    }
    assert forall|i: int, k: int|
        0 <= i < s2.len() && 0 <= k < s2[i].1 implies #[trigger] seen[#[trigger] rows[s2[i].0 as int][k] as int] by {
        assert(s2[i].0 == stack[i].0);
        if i != top {
            assert(s2[i] == stack[i]);
        }
    }
}

/// Pushing a newly seen vertex `v` that the top frame reaches (or any vertex onto an empty
/// stack) keeps the stack valid.
proof fn lemma_push(rows: Seq<Seq<u64>>, seen: Seq<bool>, pos: Seq<int>, stack: Seq<(usize, usize)>, v: usize)
    requires
        grey_stack(rows, seen, pos, stack),
        arcs_in_range(rows),
        seen.len() == rows.len(),
        pos.len() == rows.len(),
        v < rows.len(),
        !seen[v as int],
        pos[v as int] < 0,
        stack.len() >= 1 ==> has_arc(rows, stack.last().0 as int, v as int),
    ensures
        grey_stack(rows, seen.update(v as int, true), pos, stack.push((v, 0usize))),
{
    let seen2 = seen.update(v as int, true);
    let s2 = stack.push((v, 0usize));
    let top = stack.len() - 1;
    assert forall|i: int| 0 <= i < stack.len() implies #[trigger] stack[i].0 != v by {
        assert(seen[stack[i].0 as int]);
    }
    assert forall|i: int|
        0 <= i < s2.len() implies #[trigger] s2[i].0 < rows.len() && seen2[s2[i].0 as int] && pos[s2[i].0 as int] < 0
            && s2[i].1 <= rows[s2[i].0 as int].len() by {
        if i < stack.len() {
            assert(s2[i] == stack[i]);
        }
    }
    assert forall|x: int| 0 <= x < rows.len() && #[trigger] seen2[x] && pos[x] < 0 implies exists|i: int|
        0 <= i < s2.len() && #[trigger] s2[i].0 == x by {
        if x == v {
            assert(s2[stack.len() as int].0 == x);
        } else {
            assert(seen[x]);
            let i = choose|i: int| 0 <= i < stack.len() && #[trigger] stack[i].0 == x;
            assert(s2[i] == stack[i]);
        }
    }
    assert forall|i: int, j: int| 0 <= i < j < s2.len() implies #[trigger] s2[i].0 != #[trigger] s2[j].0 by {
        assert(s2[i] == stack[i]);
        if j < stack.len() {
            assert(s2[j] == stack[j]);
        }
    }
    assert forall|i: int, j: int| 0 <= i < j < s2.len() implies #[trigger] reachable(rows, s2[i].0 as int, s2[j].0 as int) by {
        assert(s2[i] == stack[i]);
        if j < stack.len() {
            assert(s2[j] == stack[j]);
        } else {
            assert(stack[top] == stack.last());
            if i < top {
                assert(reachable(rows, stack[i].0 as int, stack[top].0 as int));
            } else {
                lemma_reach_refl(rows, stack[top].0 as int);
            }
            lemma_reach_step(rows, stack[i].0 as int, stack[top].0 as int, v as int);
        }
    }
    assert forall|i: int, k: int|
        0 <= i < s2.len() && 0 <= k < s2[i].1 implies #[trigger] seen2[#[trigger] rows[s2[i].0 as int][k] as int] by {
        assert(s2[i] == stack[i]);
        let u = stack[i].0 as int;
        assert(seen[rows[u][k] as int]);
        assert(rows[u].contains(rows[u][k]));
        assert(rows[u][k] < rows.len());
    }
}

/// Scanning the next arc of the top frame towards an unseen vertex `v`, then pushing `v`,
/// keeps the stack valid.
proof fn lemma_advance_push(rows: Seq<Seq<u64>>, seen: Seq<bool>, pos: Seq<int>, stack: Seq<(usize, usize)>, v: usize)
    requires
        grey_stack(rows, seen, pos, stack),
        arcs_in_range(rows),
        seen.len() == rows.len(),
        pos.len() == rows.len(),
        stack.len() >= 1,
        stack.last().1 < rows[stack.last().0 as int].len(),
        rows[stack.last().0 as int][stack.last().1 as int] == v,
        !seen[v as int],
        pos[v as int] < 0,
    ensures
        grey_stack(
            rows,
            seen.update(v as int, true),
            pos,
            stack.update(stack.len() - 1, (stack.last().0, (stack.last().1 + 1) as usize)).push((v, 0usize)),
        ),
{
    let top = stack.len() - 1;
    let u = stack.last().0 as int;
    let seen2 = seen.update(v as int, true);
    let s1 = stack.update(top, (stack.last().0, (stack.last().1 + 1) as usize));
    let s2 = s1.push((v, 0usize));
    assert(stack[top] == stack.last());
    assert(rows[u].contains(v as u64)) by {
        assert(rows[u][stack.last().1 as int] == v);
    }
    assert(v < rows.len());
    assert forall|i: int| 0 <= i < stack.len() implies #[trigger] stack[i].0 != v by {
        assert(seen[stack[i].0 as int]);
    }
    assert forall|i: int| 0 <= i < stack.len() implies #[trigger] s2[i].0 == stack[i].0 by {}
    assert forall|i: int|
        0 <= i < s2.len() implies #[trigger] s2[i].0 < rows.len() && seen2[s2[i].0 as int] && pos[s2[i].0 as int] < 0
            && s2[i].1 <= rows[s2[i].0 as int].len() by {
        if i < stack.len() {
            assert(s2[i].0 == stack[i].0);
        }
    }
    assert forall|x: int| 0 <= x < rows.len() && #[trigger] seen2[x] && pos[x] < 0 implies exists|i: int|
        0 <= i < s2.len() && #[trigger] s2[i].0 == x by {
        if x == v {
            assert(s2[stack.len() as int].0 == x);
        } else {
            assert(seen[x]);
            let i = choose|i: int| 0 <= i < stack.len() && #[trigger] stack[i].0 == x;
            assert(s2[i].0 == stack[i].0);
        }
    }
    assert forall|i: int, j: int| 0 <= i < j < s2.len() implies #[trigger] s2[i].0 != #[trigger] s2[j].0 by {
        assert(s2[i].0 == stack[i].0);
        if j < stack.len() {
            assert(s2[j].0 == stack[j].0);
        }
    }
    assert forall|i: int, j: int| 0 <= i < j < s2.len() implies #[trigger] reachable(rows, s2[i].0 as int, s2[j].0 as int) by {
        assert(s2[i].0 == stack[i].0);
        if j < stack.len() {
            assert(s2[j].0 == stack[j].0);
        } else {
            if i < top {
                assert(reachable(rows, stack[i].0 as int, stack[top].0 as int));
            } else {
                lemma_reach_refl(rows, u);
            }
            assert(has_arc(rows, u, v as int));
            lemma_reach_step(rows, stack[i].0 as int, u, v as int);
        }
    }
    assert forall|i: int, k: int|
        0 <= i < s2.len() && 0 <= k < s2[i].1 implies #[trigger] seen2[#[trigger] rows[s2[i].0 as int][k] as int] by {
        if i < stack.len() {
            let w = stack[i].0 as int;
            assert(s2[i].0 == w);
            if i == top && k == stack.last().1 {
                assert(rows[w][k] == v);
            } else {
                if i != top {
                    assert(s2[i] == stack[i]);
                }
                assert(seen[rows[w][k] as int]);
                assert(rows[w].contains(rows[w][k]));
            }
        }
    }
}

/// Every arc of validated rows stays among their vertices.
proof fn lemma_arcs_in_range(offsets: Seq<u64>, targets: Seq<u64>)
    requires
        topology_valid(offsets, targets),
    ensures
        arcs_in_range(rows_of(offsets, targets)),
{
    let rows = rows_of(offsets, targets);
    assert forall|u: int, w: u64| 0 <= u < rows.len() && #[trigger] rows[u].contains(w) implies w < rows.len() by {
        let k = choose|k: int| 0 <= k < rows[u].len() && rows[u][k] == w;
        let last = offsets.len() - 1;
        assert(offsets[u] <= offsets[u + 1] <= offsets[last]);
        assert(offsets[last] == offsets.last());
        assert(rows[u][k] == targets[offsets[u] + k]);
    }
}

/// Vertices in the order in which depth-first search over outgoing arcs finishes them.
fn finish_order(offsets: &[u64], targets: &[u64], ctx: &ExecutionContext, Ghost(rows): Ghost<Seq<Seq<u64>>>) -> (r: Result<
    Vec<usize>,
    Error,
>)
    requires
        topology_valid(offsets@, targets@),
        rows == rows_of(offsets@, targets@),
    ensures
        r matches Ok(order) ==> finishing_order(rows, order@),
        r matches Err(e) ==> e == Error::Cancelled,
{
    let n = offsets.len() - 1;
    proof {
        lemma_arcs_in_range(offsets@, targets@);
    }
    let mut seen: Vec<bool> = Vec::new();
    let mut i: usize = 0;
    while i < n
        invariant
            i <= n,
            seen.len() == i,
            forall|k: int| 0 <= k < i ==> !#[trigger] seen@[k],
        decreases n - i,
    {
        seen.push(false);
        i = i + 1;
    }
    let ghost mut pos: Seq<int> = Seq::new(n as nat, |v: int| -1int);
    let mut order: Vec<usize> = Vec::new();
    let mut stack: Vec<(usize, usize)> = Vec::new();
    let mut root: usize = 0;
    while root < n
        invariant
            n == rows.len(),
            rows == rows_of(offsets@, targets@),
            topology_valid(offsets@, targets@),
            offsets@.len() == n + 1,
            arcs_in_range(rows),
            root <= n,
            stack@.len() == 0,
            coloured(n as int, seen@, pos, order@),
            forall|v: int| 0 <= v < n && #[trigger] seen@[v] ==> pos[v] >= 0,
            forall|v: int| 0 <= v < root ==> #[trigger] seen@[v],
            black_closed(rows, seen@, pos),
            finish_invariant(rows, seen@, pos),
        decreases n - root,
    {
        if let Err(e) = ctx.check() {
            return Err(e);
        }
        if !seen[root] {
            proof {
                lemma_push(rows, seen@, pos, stack@, root);
                lemma_seen_grows(rows, seen@, seen@.update(root as int, true), pos);
            }
            seen.set(root, true);
            stack.push((root, 0));
            while stack.len() > 0
                invariant
                    n == rows.len(),
                    rows == rows_of(offsets@, targets@),
                    topology_valid(offsets@, targets@),
                    offsets@.len() == n + 1,
                    arcs_in_range(rows),
                    root < n,
                    coloured(n as int, seen@, pos, order@),
                    grey_stack(rows, seen@, pos, stack@),
                    forall|v: int| 0 <= v <= root ==> #[trigger] seen@[v],
                    black_closed(rows, seen@, pos),
                    finish_invariant(rows, seen@, pos),
                decreases unseen(seen@), pending(rows, stack@),
            {
                if let Err(e) = ctx.check() {
                    return Err(e);
                }
                let top = stack.len() - 1;
                let (u, next) = stack[top];
                proof {
                    assert(stack@[top as int] == stack@.last());
                    lemma_pending_nonnegative(rows, stack@);
                }
                let row = row_slice(offsets, targets, u);
                if next == row.len() {
                    let ghost at = order@.len() as int;
                    let ghost old_stack = stack@;
                    proof {
                        lemma_finish(rows, seen@, pos, stack@, u as int, at);
                    }
                    order.push(u);
                    proof {
                        pos = pos.update(u as int, at);
                    }
                    stack.pop();
                    proof {
                        assert(stack@ == old_stack.drop_last());
                        lemma_pending_nonnegative(rows, stack@);
                    }
                } else {
                    let v = row[next] as usize;
                    let ghost old_stack = stack@;
                    proof {
                        assert(rows[u as int].contains(row@[next as int]));
                    }
                    if seen[v] {
                        proof {
                            lemma_advance(rows, seen@, pos, stack@);
                        }
                        stack.set(top, (u, next + 1));
                        proof {
                            assert(stack@.drop_last() == old_stack.drop_last());
                            lemma_pending_nonnegative(rows, stack@);
                        }
                    } else {
                        proof {
                            lemma_advance_push(rows, seen@, pos, stack@, v);
                            lemma_unseen_mark(seen@, v as int);
                            lemma_seen_grows(rows, seen@, seen@.update(v as int, true), pos);
                        }
                        seen.set(v, true);
                        stack.set(top, (u, next + 1));
                        stack.push((v, 0));
                    }
                }
            }
            proof {
                assert forall|v: int| 0 <= v < n && #[trigger] seen@[v] implies pos[v] >= 0 by {
                    if pos[v] < 0 {
                        let i = choose|i: int| 0 <= i < stack@.len() && #[trigger] stack@[i].0 == v;
                    }
                }
            }
        }
        root = root + 1;
    }
    proof {
        let o = order@;
        assert forall|v: int| 0 <= v < rows.len() implies #[trigger] listed(o, v) by {
            assert(seen@[v]);
            assert(o[pos[v]] == v);
        }
        assert forall|i: int, j: int| 0 <= i < j < o.len() implies #[trigger] o[i] != #[trigger] o[j] by {
            assert(pos[o[i] as int] == i && pos[o[j] as int] == j);
        }
        assert forall|i: int, j: int|
            0 <= i < o.len() && 0 <= j < o.len() && #[trigger] reachable(rows, o[i] as int, o[j] as int) && !reachable(
                rows,
                o[j] as int,
                o[i] as int,
            ) implies exists|k: int| j < k < o.len() && #[trigger] strongly_connected(rows, o[k] as int, o[i] as int) by {
            let a = o[i] as int;
            let v = o[j] as int;
            assert(pos[a] == i && pos[v] == j);
            if exists|g: int| 0 <= g < rows.len() && seen@[g] && pos[g] < 0 && #[trigger] strongly_connected(rows, g, a) {
                let g = choose|g: int| 0 <= g < rows.len() && seen@[g] && pos[g] < 0 && #[trigger] strongly_connected(rows, g, a);
                assert(false);
            }
            let t = choose|t: int| 0 <= t < rows.len() && pos[t] > pos[v] && #[trigger] strongly_connected(rows, t, a);
            assert(o[pos[t]] == t);
        }
    }
    Ok(order)
}

/// `x` was unlabelled in `before` and carries the provisional label `start` in `after`.
spec fn claimed(before: Seq<u64>, after: Seq<u64>, start: int, x: int) -> bool {
    before[x] == u64::MAX && after[x] == start
}

/// Every incoming neighbour of a claimed vertex was labelled before or is claimed too.
spec fn claim_closed(irows: Seq<Seq<u64>>, before: Seq<u64>, after: Seq<u64>, start: int) -> bool {
    forall|x: int, y: u64|
        0 <= x < irows.len() && claimed(before, after, start, x) && #[trigger] irows[x].contains(y) ==> before[y as int]
            != u64::MAX || claimed(before, after, start, y as int)
}

/// What `claim_component` leaves: `after` differs from `before` only on claimed vertices,
/// which include `start`, all reach `start`, are closed under unlabelled incoming
/// neighbours, are all listed in `members`, and have `minimum` as their smallest.
spec fn claim_result(
    rows: Seq<Seq<u64>>,
    irows: Seq<Seq<u64>>,
    before: Seq<u64>,
    after: Seq<u64>,
    start: int,
    members: Seq<usize>,
    minimum: int,
) -> bool {
    &&& after.len() == before.len()
    &&& forall|x: int| 0 <= x < after.len() ==> #[trigger] after[x] == before[x] || claimed(before, after, start, x)
    &&& claimed(before, after, start, start)
    &&& forall|x: int|
        0 <= x < after.len() && claimed(before, after, start, x) ==> #[trigger] reachable(rows, x, start)
    &&& claim_closed(irows, before, after, start)
    &&& forall|i: int|
        0 <= i < members.len() ==> #[trigger] members[i] < after.len() && claimed(before, after, start, members[i] as int)
    &&& 0 <= minimum < after.len()
    &&& forall|x: int|
        0 <= x < after.len() && claimed(before, after, start, x) ==> exists|i: int|
            0 <= i < members.len() && #[trigger] members[i] == x
    &&& claimed(before, after, start, minimum)
    &&& forall|x: int| 0 <= x < after.len() && #[trigger] claimed(before, after, start, x) ==> minimum <= x
}

/// Claim, with the provisional label `start`, every unlabelled vertex that reaches `start`
/// through unlabelled vertices, following incoming arcs. Returns the claimed vertices and
/// the smallest of them.
fn claim_component(
    in_offsets: &[u64],
    in_targets: &[u64],
    labels: &mut Vec<u64>,
    start: usize,
    ctx: &ExecutionContext,
    Ghost(rows): Ghost<Seq<Seq<u64>>>,
    Ghost(irows): Ghost<Seq<Seq<u64>>>,
) -> (r: Result<(Vec<usize>, usize), Error>)
    requires
        topology_valid(in_offsets@, in_targets@),
        irows == rows_of(in_offsets@, in_targets@),
        is_transpose(rows, irows),
        arcs_in_range(irows),
        old(labels)@.len() == rows.len(),
        start < rows.len(),
        old(labels)@[start as int] == u64::MAX,
    ensures
        r matches Ok((members, minimum)) ==> claim_result(
            rows,
            irows,
            old(labels)@,
            final(labels)@,
            start as int,
            members@,
            minimum as int,
        ),
        r matches Err(e) ==> e == Error::Cancelled,
{
    let n = labels.len();
    let ghost before = labels@;
    let mut work: Vec<usize> = Vec::new();
    let mut members: Vec<usize> = Vec::new();
    work.push(start);
    labels.set(start, start as u64);
    let mut minimum = start;
    proof {
        lemma_reach_refl(rows, start as int);
        assert(work@[0] == start);
    }
    while work.len() > 0
        invariant
            n == rows.len(),
            n == irows.len(),
            topology_valid(in_offsets@, in_targets@),
            irows == rows_of(in_offsets@, in_targets@),
            is_transpose(rows, irows),
            arcs_in_range(irows),
            start < n,
            labels@.len() == n,
            before.len() == n,
            before[start as int] == u64::MAX,
            forall|x: int| 0 <= x < n ==> #[trigger] labels@[x] == before[x] || claimed(before, labels@, start as int, x),
            claimed(before, labels@, start as int, start as int),
            forall|x: int| 0 <= x < n && claimed(before, labels@, start as int, x) ==> #[trigger] reachable(rows, x, start as int),
            forall|i: int| 0 <= i < work@.len() ==> #[trigger] work@[i] < n && claimed(before, labels@, start as int, work@[i] as int),
            forall|i: int| 0 <= i < members@.len() ==> #[trigger] members@[i] < n && claimed(before, labels@, start as int, members@[i] as int),
            forall|x: int|
                0 <= x < n && claimed(before, labels@, start as int, x) ==> (exists|i: int|
                    0 <= i < members@.len() && #[trigger] members@[i] == x) || (exists|i: int|
                    0 <= i < work@.len() && #[trigger] work@[i] == x),
            forall|i: int, y: u64|
                0 <= i < members@.len() && #[trigger] irows[members@[i] as int].contains(y) ==> before[y as int] != u64::MAX
                    || claimed(before, labels@, start as int, y as int),
            claimed(before, labels@, start as int, minimum as int),
            forall|i: int| 0 <= i < members@.len() ==> minimum <= #[trigger] members@[i],
            minimum <= start,
            minimum < n,
        decreases undiscovered_labels(labels@), work@.len(),
    {
        if let Err(e) = ctx.check() {
            return Err(e);
        }
        let ghost old_work_all = work@;
        let u = match work.pop() {
            Some(u) => u,
            None => start,
        };
        proof {
            assert(u == old_work_all.last());
            assert(work@ == old_work_all.drop_last());
        }
        let ghost popped_work = work@;
        let ghost old_members = members@;
        members.push(u);
        if u < minimum {
            minimum = u;
        }
        proof {
            assert forall|x: int| 0 <= x < n && claimed(before, labels@, start as int, x) implies (exists|i: int|
                0 <= i < members@.len() && #[trigger] members@[i] == x) || (exists|i: int|
                0 <= i < work@.len() && #[trigger] work@[i] == x) by {
                if x == u {
                    assert(members@[old_members.len() as int] == x);
                } else if exists|i: int| 0 <= i < old_members.len() && #[trigger] old_members[i] == x {
                    let i = choose|i: int| 0 <= i < old_members.len() && #[trigger] old_members[i] == x;
                    assert(members@[i] == x);
                } else {
                    let i = choose|i: int| 0 <= i < old_work_all.len() && #[trigger] old_work_all[i] == x;
                    assert(i < work@.len());
                    assert(work@[i] == x);
                }
            }
        }
        let ghost u0 = undiscovered_labels(labels@);
        let ghost w0 = work@.len();
        let row = row_slice(in_offsets, in_targets, u);
        proof {
            assert forall|k: int| 0 <= k < row@.len() implies #[trigger] row@[k] < n by {
                assert(irows[u as int].contains(row@[k]));
            }
        }
        let mut j: usize = 0;
        while j < row.len()
            invariant
                undiscovered_labels(labels@) + work@.len() == u0 + w0,
                undiscovered_labels(labels@) <= u0,
                n == rows.len(),
                n == irows.len(),
                is_transpose(rows, irows),
                arcs_in_range(irows),
                start < n,
                u < n,
                row@ == irows[u as int],
                forall|k: int| 0 <= k < row@.len() ==> #[trigger] row@[k] < n,
                j <= row@.len(),
                labels@.len() == n,
                before.len() == n,
                before[start as int] == u64::MAX,
                members@.len() >= 1,
                members@.last() == u,
                forall|x: int| 0 <= x < n ==> #[trigger] labels@[x] == before[x] || claimed(before, labels@, start as int, x),
                claimed(before, labels@, start as int, start as int),
                claimed(before, labels@, start as int, u as int),
                forall|x: int| 0 <= x < n && claimed(before, labels@, start as int, x) ==> #[trigger] reachable(rows, x, start as int),
                forall|i: int| 0 <= i < work@.len() ==> #[trigger] work@[i] < n && claimed(before, labels@, start as int, work@[i] as int),
                forall|i: int| 0 <= i < members@.len() ==> #[trigger] members@[i] < n && claimed(before, labels@, start as int, members@[i] as int),
                forall|x: int|
                    0 <= x < n && claimed(before, labels@, start as int, x) ==> (exists|i: int|
                        0 <= i < members@.len() && #[trigger] members@[i] == x) || (exists|i: int|
                        0 <= i < work@.len() && #[trigger] work@[i] == x),
                forall|i: int, y: u64|
                    0 <= i < members@.len() - 1 && #[trigger] irows[members@[i] as int].contains(y) ==> before[y as int] != u64::MAX
                        || claimed(before, labels@, start as int, y as int),
                forall|k: int|
                    0 <= k < j ==> before[#[trigger] row@[k] as int] != u64::MAX || claimed(before, labels@, start as int, row@[k] as int),
                claimed(before, labels@, start as int, minimum as int),
                forall|i: int| 0 <= i < members@.len() ==> minimum <= #[trigger] members@[i],
                minimum <= start,
                minimum < n,
            decreases row@.len() - j,
        {
            if j % 4096 == 0 {
                if let Err(e) = ctx.check() {
                    return Err(e);
                }
            }
            let v = row[j] as usize;
            proof {
                assert(irows[u as int].contains(row@[j as int]));
            }
            if labels[v] == u64::MAX {
                let ghost old_labels = labels@;
                let ghost old_work = work@;
                proof {
                    assert(has_arc(irows, u as int, v as int));
                    assert(has_arc(rows, v as int, u as int));
                    lemma_reach_refl(rows, v as int);
                    lemma_reach_step(rows, v as int, v as int, u as int);
                    lemma_reach_trans(rows, v as int, u as int, start as int);
                    lemma_claim_count(old_labels, v as int, start as u64);
                }
                labels.set(v, start as u64);
                work.push(v);
                proof {
                    assert(before[v as int] == u64::MAX);
                    assert forall|x: int| 0 <= x < n && claimed(before, labels@, start as int, x) implies (exists|i: int|
                        0 <= i < members@.len() && #[trigger] members@[i] == x) || (exists|i: int|
                        0 <= i < work@.len() && #[trigger] work@[i] == x) by {
                        if x == v {
                            assert(work@[old_work.len() as int] == x);
                        } else {
                            assert(claimed(before, old_labels, start as int, x));
                            if exists|i: int| 0 <= i < old_work.len() && #[trigger] old_work[i] == x {
                                let i = choose|i: int| 0 <= i < old_work.len() && #[trigger] old_work[i] == x;
                                assert(work@[i] == x);
                            }
                        }
                    }
                    assert forall|i: int| 0 <= i < work@.len() implies #[trigger] work@[i] < n && claimed(before, labels@, start as int, work@[i] as int) by {
                        if i < old_work.len() {
                            assert(work@[i] == old_work[i]);
                        }
                    }
                    assert forall|k: int|
                        0 <= k < j + 1 implies before[#[trigger] row@[k] as int] != u64::MAX || claimed(before, labels@, start as int, row@[k] as int) by {
                        if k < j {
                            assert(before[row@[k] as int] != u64::MAX || claimed(before, old_labels, start as int, row@[k] as int));
                        } else {
                            assert(row@[k] as int == v as int);
                            assert(claimed(before, labels@, start as int, v as int));
                        }
                    }
                }
            } else {
                proof {
                    assert(labels@[v as int] == before[v as int] || claimed(before, labels@, start as int, v as int));
                }
            }
            j = j + 1;
        }
        proof {
            assert forall|i: int, y: u64|
                0 <= i < members@.len() && #[trigger] irows[members@[i] as int].contains(y) implies before[y as int] != u64::MAX
                    || claimed(before, labels@, start as int, y as int) by {
                if i == members@.len() - 1 {
                    let k = choose|k: int| 0 <= k < row@.len() && row@[k] == y;
                    assert(before[row@[k] as int] != u64::MAX || claimed(before, labels@, start as int, row@[k] as int));
                }
            }
        }
    }
    proof {
        assert forall|x: int, y: u64|
            0 <= x < irows.len() && claimed(before, labels@, start as int, x) && #[trigger] irows[x].contains(y) implies before[
                y as int
            ] != u64::MAX || claimed(before, labels@, start as int, y as int) by {
            let i = choose|i: int| 0 <= i < members@.len() && #[trigger] members@[i] == x;
        }
        assert forall|x: int| 0 <= x < n && #[trigger] claimed(before, labels@, start as int, x) implies minimum <= x by {
            let i = choose|i: int| 0 <= i < members@.len() && #[trigger] members@[i] == x;
        }
        let after = labels@;
        assert(after.len() == before.len());
        assert(claimed(before, after, start as int, start as int));
        assert(claim_closed(irows, before, after, start as int));
        assert(forall|x: int|
                0 <= x < after.len() && claimed(before, after, start as int, x) ==> exists|i: int|
                    0 <= i < members@.len() && #[trigger] members@[i] == x);
        assert(forall|x: int|
                0 <= x < after.len() ==> #[trigger] after[x] == before[x] || claimed(before, after, start as int, x));
        assert(forall|x: int|
                0 <= x < after.len() && claimed(before, after, start as int, x) ==> #[trigger] reachable(
                    rows,
                    x,
                    start as int,
                ));
        assert(forall|i: int| 0 <= i < members@.len() ==> #[trigger] members@[i] < after.len() && claimed(before, after, start as int, members@[i] as int));
        assert(claimed(before, after, start as int, minimum as int));
        assert(claim_result(rows, irows, before, after, start as int, members@, minimum as int));
    }
    Ok((members, minimum))
}

/// Entries still carrying the unlabelled marker.
spec fn undiscovered_labels(labels: Seq<u64>) -> nat
    decreases labels.len(),
{
    if labels.len() == 0 {
        0
    } else {
        undiscovered_labels(labels.drop_last()) + if labels.last() == u64::MAX { 1nat } else { 0nat }
    }
}

proof fn lemma_claim_count(labels: Seq<u64>, v: int, x: u64)
    requires
        0 <= v < labels.len(),
        labels[v] == u64::MAX,
        x != u64::MAX,
    ensures
        undiscovered_labels(labels.update(v, x)) + 1 == undiscovered_labels(labels),
    decreases labels.len(),
{
    let e = labels.update(v, x);
    if v == labels.len() - 1 {
        assert(e.drop_last() == labels.drop_last());
    } else {
        assert(e.drop_last() == labels.drop_last().update(v, x));
        lemma_claim_count(labels.drop_last(), v, x);
    }
}

/// Labelled vertices carry their final component labels, and components are labelled
/// entirely or not at all.
spec fn settled(rows: Seq<Seq<u64>>, labels: Seq<u64>) -> bool {
    &&& labels.len() == rows.len()
    &&& forall|x: int, y: int|
        0 <= x < labels.len() && 0 <= y < labels.len() && #[trigger] strongly_connected(rows, x, y) ==> (labels[x]
            == u64::MAX <==> labels[y] == u64::MAX)
    &&& forall|x: int, y: int|
        #![trigger labels[x], labels[y]]
        0 <= x < labels.len() && 0 <= y < labels.len() && labels[x] != u64::MAX && labels[y] != u64::MAX ==> (labels[x]
            == labels[y] <==> strongly_connected(rows, x, y))
    &&& forall|x: int|
        #![trigger labels[x]]
        0 <= x < labels.len() && labels[x] != u64::MAX ==> labels[x] <= x && strongly_connected(rows, labels[x] as int, x)
}

proof fn lemma_sc_trans(rows: Seq<Seq<u64>>, x: int, y: int, z: int)
    requires
        strongly_connected(rows, x, y),
        strongly_connected(rows, y, z),
    ensures
        strongly_connected(rows, x, z),
{
    lemma_reach_trans(rows, x, y, z);
    lemma_reach_trans(rows, z, y, x);
}

/// A vertex that reaches a claimed vertex inside its unlabelled component is claimed.
proof fn lemma_claims_path(
    rows: Seq<Seq<u64>>,
    irows: Seq<Seq<u64>>,
    before: Seq<u64>,
    after: Seq<u64>,
    start: int,
    y: int,
    p: Seq<int>,
)
    requires
        is_transpose(rows, irows),
        settled(rows, before),
        after.len() == before.len(),
        claim_closed(irows, before, after, start),
        claimed(before, after, start, start),
        0 <= start < rows.len(),
        is_path(rows, p, y, start),
        reachable(rows, start, y),
    ensures
        claimed(before, after, start, y),
    decreases p.len(),
{
    lemma_reach_refl(rows, start);
    if p.len() > 1 {
        let q = p.drop_first();
        let z = p[1];
        assert(has_arc(rows, p[0], p[1]));
        assert(is_path(rows, q, z, start)) by {
            assert forall|i: int| 0 <= i < q.len() - 1 implies has_arc(rows, #[trigger] q[i], q[i + 1]) by {
                assert(has_arc(rows, p[i + 1], p[i + 2]));
            }
        }
        lemma_reach_step(rows, start, y, z);
        lemma_claims_path(rows, irows, before, after, start, z, q);
        assert(has_arc(irows, z, y));
        assert(irows[z].contains(y as u64));
        assert(reachable(rows, y, start));
        assert(strongly_connected(rows, y, start));
    }
}

/// Relabelling the claimed vertices of the next start with their minimum settles one more
/// component.
proof fn lemma_settle(
    rows: Seq<Seq<u64>>,
    irows: Seq<Seq<u64>>,
    order: Seq<usize>,
    idx: int,
    before: Seq<u64>,
    after: Seq<u64>,
    fin: Seq<u64>,
    members: Seq<usize>,
    minimum: int,
)
    requires
        is_transpose(rows, irows),
        arcs_in_range(rows),
        finishing_order(rows, order),
        settled(rows, before),
        0 <= idx < order.len(),
        forall|k: int| idx < k < order.len() ==> before[#[trigger] order[k] as int] != u64::MAX,
        before[order[idx] as int] == u64::MAX,
        claim_result(rows, irows, before, after, order[idx] as int, members, minimum),
        minimum < u64::MAX,
        fin.len() == before.len(),
        forall|x: int|
            0 <= x < fin.len() ==> #[trigger] fin[x] == if claimed(before, after, order[idx] as int, x) {
                minimum as u64
            } else {
                before[x]
            },
    ensures
        settled(rows, fin),
        forall|k: int| idx <= k < order.len() ==> fin[#[trigger] order[k] as int] != u64::MAX,
{
    let start = order[idx] as int;
    let n = rows.len();
    assert(0 <= minimum < n);
    assert forall|x: int| 0 <= x < n implies #[trigger] claimed(before, after, start, x) == (before[x] == u64::MAX
        && strongly_connected(rows, x, start)) by {
        if claimed(before, after, start, x) {
            assert(reachable(rows, x, start));
            if !reachable(rows, start, x) {
                assert(listed(order, x));
                let i = choose|i: int| 0 <= i < order.len() && #[trigger] order[i] == x;
                assert(reachable(rows, order[i] as int, order[idx] as int));
                let k = choose|k: int| idx < k < order.len() && #[trigger] strongly_connected(rows, order[k] as int, order[i] as int);
                assert(before[order[k] as int] != u64::MAX);
                assert(false);
            }
        }
        if before[x] == u64::MAX && strongly_connected(rows, x, start) {
            let p = choose|p: Seq<int>| #[trigger] is_path(rows, p, x, start);
            lemma_claims_path(rows, irows, before, after, start, x, p);
        }
    }
    assert(strongly_connected(rows, minimum, start));
    assert forall|x: int, y: int|
        0 <= x < fin.len() && 0 <= y < fin.len() && #[trigger] strongly_connected(rows, x, y) implies (fin[x]
        == u64::MAX <==> fin[y] == u64::MAX) by {
        assert(strongly_connected(rows, y, x));
        if claimed(before, after, start, x) {
            lemma_sc_trans(rows, y, x, start);
            assert(claimed(before, after, start, y));
        } else if claimed(before, after, start, y) {
            lemma_sc_trans(rows, x, y, start);
            assert(claimed(before, after, start, x));
        }
    }
    assert forall|x: int, y: int|
        #![trigger fin[x], fin[y]]
        0 <= x < fin.len() && 0 <= y < fin.len() && fin[x] != u64::MAX && fin[y] != u64::MAX implies (fin[x]
        == fin[y] <==> strongly_connected(rows, x, y)) by {
        let cx = claimed(before, after, start, x);
        let cy = claimed(before, after, start, y);
        if cx && cy {
            assert(strongly_connected(rows, start, y));
            lemma_sc_trans(rows, x, start, y);
        } else if cx && !cy {
            let c = before[y] as int;
            assert(strongly_connected(rows, c, y));
            assert(before[c] != u64::MAX);
            if strongly_connected(rows, x, y) {
                assert(before[x] != u64::MAX);
            }
        } else if !cx && cy {
            let c = before[x] as int;
            assert(strongly_connected(rows, c, x));
            assert(before[c] != u64::MAX);
            if strongly_connected(rows, x, y) {
                assert(strongly_connected(rows, y, x));
                assert(before[y] != u64::MAX);
            }
        }
    }
    assert forall|x: int|
        #![trigger fin[x]]
        0 <= x < fin.len() && fin[x] != u64::MAX implies fin[x] <= x && strongly_connected(rows, fin[x] as int, x) by {
        if claimed(before, after, start, x) {
            assert(strongly_connected(rows, start, x));
            lemma_sc_trans(rows, minimum, start, x);
        }
    }
    assert forall|k: int| idx <= k < order.len() implies fin[#[trigger] order[k] as int] != u64::MAX by {
        assert(order[k] < n);
        if k == idx {
            assert(claimed(before, after, start, start));
        }
    }
}

/// Label every vertex with the smallest vertex of its strongly connected component, taking
/// starts in reverse finishing order and claiming along incoming arcs.
fn label_strong(
    in_offsets: &[u64],
    in_targets: &[u64],
    order: &Vec<usize>,
    ctx: &ExecutionContext,
    Ghost(rows): Ghost<Seq<Seq<u64>>>,
    Ghost(irows): Ghost<Seq<Seq<u64>>>,
) -> (r: Result<Vec<u64>, Error>)
    requires
        topology_valid(in_offsets@, in_targets@),
        irows == rows_of(in_offsets@, in_targets@),
        is_transpose(rows, irows),
        arcs_in_range(rows),
        arcs_in_range(irows),
        finishing_order(rows, order@),
    ensures
        r matches Ok(labels) ==> strong_component_labels(rows, labels@),
        r matches Err(e) ==> e == Error::Cancelled,
{
    let n = in_offsets.len() - 1;
    let mut labels: Vec<u64> = Vec::new();
    let mut i: usize = 0;
    while i < n
        invariant
            i <= n,
            labels.len() == i,
            forall|k: int| 0 <= k < i ==> #[trigger] labels@[k] == u64::MAX,
        decreases n - i,
    {
        labels.push(u64::MAX);
        i = i + 1;
    }
    proof {
        assert(settled(rows, labels@));
    }
    let mut idx = order.len();
    while idx > 0
        invariant
            n == rows.len(),
            n == irows.len(),
            topology_valid(in_offsets@, in_targets@),
            irows == rows_of(in_offsets@, in_targets@),
            is_transpose(rows, irows),
            arcs_in_range(rows),
            arcs_in_range(irows),
            finishing_order(rows, order@),
            idx <= order@.len(),
            settled(rows, labels@),
            forall|k: int| idx <= k < order@.len() ==> labels@[#[trigger] order@[k] as int] != u64::MAX,
        decreases idx,
    {
        idx = idx - 1;
        let start = order[idx];
        if labels[start] == u64::MAX {
            let ghost before = labels@;
            let (members, minimum) = match claim_component(
                in_offsets,
                in_targets,
                &mut labels,
                start,
                ctx,
                Ghost(rows),
                Ghost(irows),
            ) {
                Ok(x) => x,
                Err(e) => return Err(e),
            };
            let ghost after = labels@;
            let mut i: usize = 0;
            while i < members.len()
                invariant
                    labels@.len() == n,
                    after.len() == n,
                    before.len() == n,
                    claim_result(rows, irows, before, after, start as int, members@, minimum as int),
                    i <= members@.len(),
                    forall|x: int|
                        0 <= x < n ==> #[trigger] labels@[x] == after[x] || (claimed(before, after, start as int, x)
                            && labels@[x] == minimum),
                    forall|k: int| 0 <= k < i ==> #[trigger] labels@[members@[k] as int] == minimum,
                decreases members@.len() - i,
            {
                let m = members[i];
                labels.set(m, minimum as u64);
                i = i + 1;
            }
            proof {
                assert forall|x: int| 0 <= x < n implies #[trigger] labels@[x] == if claimed(before, after, start as int, x) {
                    minimum as u64
                } else {
                    before[x]
                } by {
                    if claimed(before, after, start as int, x) {
                        let k = choose|k: int| 0 <= k < members@.len() && #[trigger] members@[k] == x;
                        assert(labels@[members@[k] as int] == minimum);
                    } else {
                        assert(labels@[x] == after[x]);
                        assert(after[x] == before[x]);
                    }
                }
                lemma_settle(rows, irows, order@, idx as int, before, after, labels@, members@, minimum as int);
            }
        }
    }
    proof {
        let l = labels@;
        assert forall|x: int| 0 <= x < l.len() implies #[trigger] l[x] != u64::MAX by {
            assert(listed(order@, x));
            let k = choose|k: int| 0 <= k < order@.len() && #[trigger] order@[k] == x;
            assert(l[order@[k] as int] != u64::MAX);
        }
        assert forall|x: int|
            #![trigger l[x]]
            0 <= x < l.len() implies l[x] <= x && l[l[x] as int] == l[x] by {
            let c = l[x] as int;
            assert(strongly_connected(rows, c, x));
            assert(l[c] != u64::MAX);
        }
    }
    Ok(labels)
}

/// Strongly connected components of the rows described by `out_offsets`/`out_targets`,
/// given their transpose; each vertex is labelled by the smallest vertex of its component.
pub fn kosaraju_labels(
    out_offsets: &[u64],
    out_targets: &[u64],
    in_offsets: &[u64],
    in_targets: &[u64],
    ctx: &ExecutionContext,
) -> (r: Result<Vec<u64>, Error>)
    requires
        topology_valid(out_offsets@, out_targets@),
        topology_valid(in_offsets@, in_targets@),
        is_transpose(rows_of(out_offsets@, out_targets@), rows_of(in_offsets@, in_targets@)),
    ensures
        r matches Ok(labels) ==> strong_component_labels(rows_of(out_offsets@, out_targets@), labels@),
        r matches Err(e) ==> e == Error::Cancelled,
{
    let ghost rows = rows_of(out_offsets@, out_targets@);
    let ghost irows = rows_of(in_offsets@, in_targets@);
    proof {
        lemma_arcs_in_range(out_offsets@, out_targets@);
        lemma_arcs_in_range(in_offsets@, in_targets@);
    }
    let order = match finish_order(out_offsets, out_targets, ctx, Ghost(rows)) {
        Ok(order) => order,
        Err(e) => return Err(e),
    };
    label_strong(in_offsets, in_targets, &order, ctx, Ghost(rows), Ghost(irows))
}

/// Strongly connected components by iterative Kosaraju, labelled by their smallest vertex.
/// A directed graph needs its incoming adjacency prepared.
pub fn strongly_connected_components(graph: &Graph, ctx: &ExecutionContext) -> (r: Result<Vec<u64>, Error>)
    ensures
        graph.spec_usable_incoming() is None ==> r matches Err(Error::MissingIncoming),
        graph.spec_usable_incoming() is Some && graph.spec_n() * 80 > usize::MAX ==> r matches Err(
            Error::Overflow,
        ),
        r matches Ok(labels) ==> strong_component_labels(graph.spec_outgoing()@, labels@) && graph.spec_n() * 80 <= ctx.limit(),
        graph.spec_usable_incoming() is Some && graph.spec_n() * 80 <= usize::MAX ==> (r matches Err(e) ==> (e
            == Error::Cancelled || e == Error::Overflow || e matches Error::MemoryLimit { .. })),
{
    let incoming = match graph.incoming() {
        Ok(a) => a,
        Err(e) => return Err(e),
    };
    let out = graph.outgoing();
    let n = graph.node_count();
    let bytes = bytes_for(n, 80)?;
    let _memory = match ctx.reserve(bytes) {
        Ok(m) => m,
        Err(e) => return Err(e),
    };
    proof {
        use_type_invariant(graph);
        use_type_invariant(out);
        use_type_invariant(incoming);
        lemma_reverse_transposes(
            out.spec_offsets(),
            out.spec_targets(),
            incoming.spec_offsets(),
            incoming.spec_targets(),
            out.spec_n(),
        );
    }
    kosaraju_labels(out.offsets(), out.targets(), incoming.offsets(), incoming.targets(), ctx)
}

} // verus!
