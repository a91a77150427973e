//! Breadth-first distances and unweighted degrees over validated adjacency.
use crate::csr::{CsrAdjacency, NodeId};
use crate::error::Error;
use crate::execution::{bytes_for, ExecutionContext};
use crate::graph::Graph;
use crate::topology::{has_arc, is_path, row_of, row_slice, rows_of, topology_valid};
use vstd::prelude::*;

verus! {

/// `v` can be reached from `s` by following arcs of `rows`.
pub open spec fn reachable(rows: Seq<Seq<u64>>, s: int, v: int) -> bool {
    exists|p: Seq<int>| #[trigger] is_path(rows, p, s, v)
}

/// The fewest arcs on any path from `s` to `v` is `k`.
pub open spec fn shortest_distance(rows: Seq<Seq<u64>>, s: int, v: int, k: int) -> bool {
    &&& exists|p: Seq<int>| #[trigger] is_path(rows, p, s, v) && p.len() == k + 1
    &&& forall|p: Seq<int>| #[trigger] is_path(rows, p, s, v) ==> p.len() >= k + 1
}

/// `d` holds, for every vertex, its hop distance from `s`, or `None` when it is unreachable.
pub open spec fn hop_distances(rows: Seq<Seq<u64>>, s: int, d: Seq<Option<u64>>) -> bool {
    &&& d.len() == rows.len()
    &&& forall|v: int|
        #![trigger d[v]]
        0 <= v < d.len() ==> match d[v] {
            Some(k) => shortest_distance(rows, s, v, k as int),
            None => !reachable(rows, s, v),
        }
}

/// A path of one vertex reaches itself.
pub proof fn lemma_reach_refl(rows: Seq<Seq<u64>>, x: int)
    requires
        0 <= x < rows.len(),
    ensures
        reachable(rows, x, x),
{
    assert(is_path(rows, seq![x], x, x));
}

/// A path extended by one arc is a path.
pub proof fn lemma_reach_step(rows: Seq<Seq<u64>>, x: int, y: int, z: int)
    requires
        reachable(rows, x, y),
        has_arc(rows, y, z),
    ensures
        reachable(rows, x, z),
{
    let p = choose|p: Seq<int>| #[trigger] is_path(rows, p, x, y);
    let q = p.push(z);
    assert forall|i: int| 0 <= i < q.len() - 1 implies has_arc(rows, #[trigger] q[i], q[i + 1]) by {
        if i < q.len() - 2 {
            assert(q[i] == p[i] && q[i + 1] == p[i + 1]);
        }
    }
    assert(is_path(rows, q, x, z));
}

/// Reachability is transitive.
pub proof fn lemma_reach_trans(rows: Seq<Seq<u64>>, x: int, y: int, z: int)
    requires
        reachable(rows, x, y),
        reachable(rows, y, z),
    ensures
        reachable(rows, x, z),
{
    let q = choose|q: Seq<int>| #[trigger] is_path(rows, q, y, z);
    lemma_reach_along(rows, x, y, z, q);
}

proof fn lemma_reach_along(rows: Seq<Seq<u64>>, x: int, y: int, z: int, q: Seq<int>)
    requires
        reachable(rows, x, y),
        is_path(rows, q, y, z),
    ensures
        reachable(rows, x, z),
    decreases q.len(),
{
    if q.len() > 1 {
        let r = q.drop_last();
        let w = q[q.len() - 2];
        assert(is_path(rows, r, y, w)) by {
            assert forall|i: int| 0 <= i < r.len() - 1 implies has_arc(rows, #[trigger] r[i], r[i + 1]) by {
                assert(has_arc(rows, q[i], q[i + 1]));
            }
        }
        lemma_reach_along(rows, x, y, w, r);
        assert(has_arc(rows, q[q.len() - 2], q[q.len() - 1]));
        lemma_reach_step(rows, x, w, z);
    }
}

/// Number of vertices not reached yet.
pub open spec fn undiscovered(d: Seq<Option<u64>>) -> nat
    decreases d.len(),
{
    if d.len() == 0 {
        0
    } else {
        undiscovered(d.drop_last()) + if d.last() is None { 1nat } else { 0nat }
    }
}

proof fn lemma_undiscovered_full(d: Seq<Option<u64>>)
    requires
        forall|i: int| 0 <= i < d.len() ==> #[trigger] d[i] is None,
    ensures
        undiscovered(d) == d.len(),
    decreases d.len(),
{
    if d.len() > 0 {
        lemma_undiscovered_full(d.drop_last());
    }
}

proof fn lemma_undiscovered_update(d: Seq<Option<u64>>, v: int, k: u64)
    requires
        0 <= v < d.len(),
        d[v] is None,
    ensures
        undiscovered(d.update(v, Some(k))) + 1 == undiscovered(d),
    decreases d.len(),
{
    let e = d.update(v, Some(k));
    if v == d.len() - 1 {
        assert(e.drop_last() == d.drop_last());
    } else {
        assert(e.drop_last() == d.drop_last().update(v, Some(k)));
        lemma_undiscovered_update(d.drop_last(), v, k);
    }
}

/// Every reached vertex has a path of its recorded length.
spec fn witnessed(rows: Seq<Seq<u64>>, s: int, d: Seq<Option<u64>>) -> bool {
    forall|v: int|
        #![trigger d[v]]
        0 <= v < d.len() && d[v] is Some ==> exists|p: Seq<int>|
            #[trigger] is_path(rows, p, s, v) && p.len() == d[v]->0 + 1
}

/// Every arc leaving a reached vertex leads to a vertex at most one hop further.
spec fn relaxed(rows: Seq<Seq<u64>>, d: Seq<Option<u64>>) -> bool {
    forall|u: int, w: u64|
        #![trigger d[u], rows[u].contains(w)]
        0 <= u < d.len() && d[u] is Some && rows[u].contains(w) ==> (w < d.len() && d[w as int] is Some
            && d[w as int]->0 <= d[u]->0 + 1)
}

proof fn lemma_path_bound(rows: Seq<Seq<u64>>, d: Seq<Option<u64>>, s: int, v: int, p: Seq<int>)
    requires
        d.len() == rows.len(),
        0 <= s < d.len(),
        d[s] == Some(0u64),
        relaxed(rows, d),
        is_path(rows, p, s, v),
    ensures
        0 <= v < d.len(),
        d[v] is Some,
        d[v]->0 <= p.len() - 1,
    decreases p.len(),
{
    if p.len() > 1 {
        let q = p.drop_last();
        let u = p[p.len() - 2];
        assert(is_path(rows, q, s, u)) by {
            assert forall|i: int| 0 <= i < q.len() - 1 implies has_arc(rows, #[trigger] q[i], q[i + 1]) by {
                assert(has_arc(rows, p[i], p[i + 1]));
            }
        }
        lemma_path_bound(rows, d, s, u, q);
        assert(has_arc(rows, p[p.len() - 2], p[p.len() - 1]));
        assert(rows[u].contains(v as u64));
        assert(d[u] is Some);
    }
}

proof fn lemma_discover_witness(rows: Seq<Seq<u64>>, s: int, old_d: Seq<Option<u64>>, d: Seq<Option<u64>>, u: int, v: int)
    requires
        witnessed(rows, s, old_d),
        0 <= u < old_d.len(),
        0 <= v < old_d.len(),
        old_d[u] is Some,
        old_d[v] is None,
        has_arc(rows, u, v),
        old_d[u]->0 + 1 <= u64::MAX,
        d == old_d.update(v, Some((old_d[u]->0 + 1) as u64)),
    ensures
        witnessed(rows, s, d),
{
    let du = old_d[u]->0;
    let pu = choose|p: Seq<int>| #[trigger] is_path(rows, p, s, u) && p.len() == du + 1;
    let pv = pu.push(v);
    assert(is_path(rows, pv, s, v)) by {
        assert forall|i: int| 0 <= i < pv.len() - 1 implies has_arc(rows, #[trigger] pv[i], pv[i + 1]) by {
            if i < pv.len() - 2 {
                assert(pv[i] == pu[i] && pv[i + 1] == pu[i + 1]);
            }
        }
    }
    assert forall|x: int| 0 <= x < d.len() && #[trigger] d[x] is Some implies exists|p: Seq<int>|
        #[trigger] is_path(rows, p, s, x) && p.len() == d[x]->0 + 1 by {
        if x == v {
            assert(is_path(rows, pv, s, x) && pv.len() == d[x]->0 + 1);
        } else {
            assert(old_d[x] is Some);
        }
    }
}

proof fn lemma_discover_member(old_d: Seq<Option<u64>>, d: Seq<Option<u64>>, old_q: Seq<u64>, q: Seq<u64>, v: u64, n: int)
    requires
        forall|x: int| 0 <= x < n && #[trigger] old_d[x] is Some ==> exists|i: int|
            0 <= i < old_q.len() && #[trigger] old_q[i] == x,
        0 <= v < old_d.len(),
        old_d.len() == n,
        d.len() == old_d.len(),
        forall|x: int| 0 <= x < d.len() && x != v ==> d[x] == old_d[x],
        q == old_q.push(v),
    ensures
        forall|x: int| 0 <= x < n && #[trigger] d[x] is Some ==> exists|i: int|
            0 <= i < q.len() && #[trigger] q[i] == x,
{
    assert forall|x: int| 0 <= x < n && #[trigger] d[x] is Some implies exists|i: int|
        0 <= i < q.len() && #[trigger] q[i] == x by {
        if x == v as int {
            assert(q[old_q.len() as int] == x);
        } else {
            assert(old_d[x] is Some);
            let i = choose|i: int| 0 <= i < old_q.len() && #[trigger] old_q[i] == x;
            assert(q[i] == x);
        }
    }
}

/// Hop distances from `source` over the rows described by `offsets` and `targets`,
/// with cooperative cancellation.
pub fn hop_search(offsets: &[u64], targets: &[u64], source: u64, ctx: &ExecutionContext) -> (r: Result<
    Vec<Option<u64>>,
    Error,
>)
    requires
        topology_valid(offsets@, targets@),
        source < offsets@.len() - 1,
    ensures
        r matches Ok(d) ==> hop_distances(rows_of(offsets@, targets@), source as int, d@),
        r matches Err(e) ==> e == Error::Cancelled,
{
    search_rows(offsets, targets, source, ctx, Ghost(rows_of(offsets@, targets@)))
}

fn search_rows(
    offsets: &[u64],
    targets: &[u64],
    source: u64,
    ctx: &ExecutionContext,
    Ghost(rows): Ghost<Seq<Seq<u64>>>,
) -> (r: Result<Vec<Option<u64>>, Error>)
    requires
        topology_valid(offsets@, targets@),
        source < offsets@.len() - 1,
        rows == rows_of(offsets@, targets@),
    ensures
        r matches Ok(d) ==> hop_distances(rows, source as int, d@),
        r matches Err(e) ==> e == Error::Cancelled,
{
    let n = offsets.len() - 1;
    let mut d: Vec<Option<u64>> = Vec::new();
    let mut i: usize = 0;
    while i < n
        invariant
            i <= n,
            d.len() == i,
            forall|k: int| 0 <= k < i ==> #[trigger] d@[k] is None,
        decreases n - i,
    {
        d.push(None);
        i = i + 1;
    }
    proof {
        lemma_undiscovered_full(d@);
        lemma_undiscovered_update(d@, source as int, 0);
    }
    d.set(source as usize, Some(0));
    let mut queue: Vec<u64> = Vec::new();
    queue.push(source);
    proof {
        let p = seq![source as int];
        assert(is_path(rows, p, source as int, source as int));
        assert(queue@[0] == source);
    }
    let mut head: usize = 0;
    while head < queue.len()
        invariant
            n == rows.len(),
            rows == rows_of(offsets@, targets@),
            topology_valid(offsets@, targets@),
            offsets@.len() == n + 1,
            source < n,
            d.len() == n,
            d@[source as int] == Some(0u64),
            queue.len() >= 1,
            head <= queue.len(),
            queue.len() + undiscovered(d@) == n,
            forall|i: int|
                0 <= i < queue.len() ==> #[trigger] queue@[i] < n && d@[queue@[i] as int] is Some && d@[
                    queue@[i] as int
                ]->0 <= i,
            forall|i: int, j: int|
                0 <= i <= j < queue.len() ==> d@[#[trigger] queue@[i] as int]->0 <= d@[
                    #[trigger] queue@[j] as int
                ]->0,
            head < queue.len() ==> d@[queue@[queue.len() - 1] as int]->0 <= d@[queue@[head as int] as int]->0
                + 1,
            forall|v: int|
                0 <= v < n && #[trigger] d@[v] is Some ==> exists|i: int|
                    0 <= i < queue.len() && #[trigger] queue@[i] == v,
            forall|i: int, w: u64|
                0 <= i < head && #[trigger] rows[queue@[i] as int].contains(w) ==> (w < n && d@[w as int] is Some
                    && d@[w as int]->0 <= d@[queue@[i] as int]->0 + 1),
            witnessed(rows, source as int, d@),
        decreases n - head,
    {
        if let Err(e) = ctx.check() {
            return Err(e);
        }
        let u = queue[head];
        let du = match d[u as usize] {
            Some(x) => x,
            None => 0,
        };
        assert(du <= head);
        let row = row_slice(offsets, targets, u as usize);
        proof {
        }
        let mut j: usize = 0;
        while j < row.len()
            invariant
                n == rows.len(),
                source < n,
                d.len() == n,
                d@[source as int] == Some(0u64),
                queue.len() >= 1,
                head < queue.len(),
                topology_valid(offsets@, targets@),
                offsets@.len() == n + 1,
                row@ == row_of(offsets@, targets@, u as int),
                queue@[head as int] == u,
                d@[u as int] == Some(du),
                du <= head,
                u < n,
                row@ == rows[u as int],
                j <= row.len(),
                queue.len() + undiscovered(d@) == n,
                forall|i: int|
                    0 <= i < queue.len() ==> #[trigger] queue@[i] < n && d@[queue@[i] as int] is Some && d@[
                        queue@[i] as int
                    ]->0 <= i,
                forall|i: int, j: int|
                    0 <= i <= j < queue.len() ==> d@[#[trigger] queue@[i] as int]->0 <= d@[
                        #[trigger] queue@[j] as int
                    ]->0,
                d@[queue@[queue.len() - 1] as int]->0 <= du + 1,
                forall|v: int|
                    0 <= v < n && #[trigger] d@[v] is Some ==> exists|i: int|
                        0 <= i < queue.len() && #[trigger] queue@[i] == v,
                forall|i: int, w: u64|
                    0 <= i < head && #[trigger] rows[queue@[i] as int].contains(w) ==> (w < n && d@[
                        w as int
                    ] is Some && d@[w as int]->0 <= d@[queue@[i] as int]->0 + 1),
                forall|k: int|
                    0 <= k < j ==> d@[#[trigger] row@[k] as int] is Some && d@[row@[k] as int]->0 <= du + 1,
                witnessed(rows, source as int, d@),
            decreases row.len() - j,
        {
            if j % 4096 == 0 {
                if let Err(e) = ctx.check() {
                    return Err(e);
                }
            }
            let v = row[j];
            proof {
                let lo = offsets@[u as int] as int;
                assert(row@[j as int] == targets@[lo + j]);
            }
            assert(v < n);
            assert(rows[u as int].contains(v)) by {
                assert(rows[u as int][j as int] == v);
            }
            assert(v < n);
            if d[v as usize].is_none() {
                let ghost old_d = d@;
                let ghost old_q = queue@;
                proof {
                    lemma_undiscovered_update(d@, v as int, (du + 1) as u64);
                }
                d.set(v as usize, Some(du + 1));
                queue.push(v);
                proof {
                    assert(has_arc(rows, u as int, v as int));
                    lemma_discover_witness(rows, source as int, old_d, d@, u as int, v as int);
                    lemma_discover_member(old_d, d@, old_q, queue@, v, n as int);
                    assert forall|k: int| 0 <= k < j + 1 implies d@[#[trigger] row@[k] as int] is Some && d@[
                        row@[k] as int
                    ]->0 <= du + 1 by {
                        if k < j {
                            assert(old_d[row@[k] as int] is Some);
                        }
                    }
                }
            } else {
                proof {
                    let x = v as int;
                    assert(d@[x] is Some);
                    let i = choose|i: int| 0 <= i < queue.len() && #[trigger] queue@[i] == x;
                    assert(d@[queue@[i] as int]->0 <= d@[queue@[queue.len() - 1] as int]->0);
                }
            }
            j = j + 1;
        }
        proof {
            assert forall|i: int, w: u64|
                0 <= i < head + 1 && #[trigger] rows[queue@[i] as int].contains(w) implies (w < n && d@[
                    w as int
                ] is Some && d@[w as int]->0 <= d@[queue@[i] as int]->0 + 1) by {
                if i == head {
                    let k = choose|k: int| 0 <= k < row@.len() && row@[k] == w;
                    assert(d@[row@[k] as int] is Some);
                }
            }
            if head + 1 < queue.len() {
                assert(d@[queue@[head as int] as int]->0 <= d@[queue@[head + 1] as int]->0);
            }
        }
        head = head + 1;
    }
    proof {
        let dd = d@;
        assert(relaxed(rows, dd)) by {
            assert forall|u: int, w: u64|
                0 <= u < dd.len() && dd[u] is Some && #[trigger] rows[u].contains(w) implies (w < dd.len()
                    && dd[w as int] is Some && dd[w as int]->0 <= dd[u]->0 + 1) by {
                let i = choose|i: int| 0 <= i < queue.len() && #[trigger] queue@[i] == u;
                assert(rows[queue@[i] as int].contains(w));
            }
        }
        assert forall|v: int| 0 <= v < dd.len() implies match #[trigger] dd[v] {
            Some(k) => shortest_distance(rows, source as int, v, k as int),
            None => !reachable(rows, source as int, v),
        } by {
            assert forall|p: Seq<int>| #[trigger] is_path(rows, p, source as int, v) implies dd[v] is Some
                && dd[v]->0 <= p.len() - 1 by {
                lemma_path_bound(rows, dd, source as int, v, p);
            }
        }
    }
    Ok(d)
}

/// Unweighted shortest-path hop distances from `source`; unreachable vertices get `None`.
pub fn bfs(graph: &Graph, source: NodeId, ctx: &ExecutionContext) -> (r: Result<Vec<Option<u64>>, Error>)
    ensures
        source.0 >= graph.spec_n() ==> (r matches Err(Error::InvalidNode(x)) && x == source.0),
        source.0 < graph.spec_n() && graph.spec_n() * 32 > usize::MAX ==> r matches Err(Error::Overflow),
        r matches Ok(d) ==> hop_distances(graph.spec_outgoing()@, source.0 as int, d@) && graph.spec_n() * 32 <= ctx.limit(),
        source.0 < graph.spec_n() && graph.spec_n() * 32 <= usize::MAX ==> (r matches Err(e) ==> (e
            == Error::Cancelled || e == Error::Overflow || e matches Error::MemoryLimit { .. })),
{
    let adj = graph.outgoing();
    if let Err(e) = adj.range(source) {
        return Err(e);
    }
    let bytes = bytes_for(graph.node_count(), 32)?;
    let _memory = match ctx.reserve(bytes) {
        Ok(m) => m,
        Err(e) => return Err(e),
    };
    proof {
        use_type_invariant(adj);
    }
    hop_search(adj.offsets(), adj.targets(), source.0, ctx)
}

/// The adjacency whose row lengths `degrees` reports.
pub open spec fn degree_rows(graph: Graph, incoming: bool) -> Option<Seq<Seq<u64>>> {
    if !incoming {
        Some(graph.spec_outgoing()@)
    } else {
        match graph.spec_usable_incoming() {
            Some(a) => Some(a@),
            None => None,
        }
    }
}

/// Unweighted in- or out-degree of every vertex. Incoming degree of a directed graph
/// needs the prepared incoming adjacency.
pub fn degrees(graph: &Graph, incoming: bool, ctx: &ExecutionContext) -> (r: Result<Vec<u64>, Error>)
    ensures
        graph.spec_n() * 24 > usize::MAX ==> r matches Err(Error::Overflow),
        r matches Ok(v) ==> graph.spec_n() * 24 <= ctx.limit() && (degree_rows(*graph, incoming) matches Some(rows) && v.len() == rows.len()
            && forall|u: int| 0 <= u < v.len() ==> #[trigger] v@[u] == rows[u].len()),
        graph.spec_n() * 24 <= usize::MAX ==> (r matches Err(e) ==> (e == Error::Cancelled || e
            == Error::Overflow || e matches Error::MemoryLimit { .. } || (e == Error::MissingIncoming
            && degree_rows(*graph, incoming) is None))),
{
    let n = graph.node_count();
    let bytes = bytes_for(n, 24)?;
    let _memory = match ctx.reserve(bytes) {
        Ok(m) => m,
        Err(e) => return Err(e),
    };
    let adj = if incoming {
        match graph.incoming() {
            Ok(a) => a,
            Err(e) => return Err(e),
        }
    } else {
        graph.outgoing()
    };
    proof {
        use_type_invariant(graph);
        use_type_invariant(adj);
    }
    let ghost rows = adj@;
    assert(adj.spec_n() == n);
    let mut values: Vec<u64> = Vec::new();
    let mut u: usize = 0;
    while u < n
        invariant
            u <= n,
            n * 24 <= usize::MAX,
            n == graph.spec_n(),
            n == adj.spec_n(),
            rows == adj@,
            values.len() == u,
            forall|k: int| 0 <= k < u ==> #[trigger] values@[k] == rows[k].len(),
        decreases n - u,
    {
        if let Err(e) = ctx.check() {
            return Err(e);
        }
        let row = match adj.neighbors(NodeId(u as u64)) {
            Ok(row) => row,
            Err(e) => return Err(e),
        };
        values.push(row.len() as u64);
        u = u + 1;
    }
    Ok(values)
}

/// The vertex reached from `x` after `k` steps along `parents`; a vertex with no entry stays put.
pub open spec fn chain(parents: Seq<u64>, x: u64, k: int) -> u64
    decreases k,
{
    if k <= 0 {
        x
    } else {
        let y = chain(parents, x, k - 1);
        if y < parents.len() {
            parents[y as int]
        } else {
            y
        }
    }
}

/// `path` runs from `source` to `target`, each later vertex names the one before it as its
/// parent, and only the first vertex is `source`.
pub open spec fn parent_path_of(parents: Seq<u64>, source: u64, target: u64, path: Seq<u64>) -> bool {
    &&& path.len() >= 1
    &&& path[0] == source
    &&& path.last() == target
    &&& forall|i: int|
        1 <= i < path.len() ==> #[trigger] path[i] < parents.len() && parents[path[i] as int] == path[i - 1]
            && path[i] != source
}

proof fn lemma_chain_stays(parents: Seq<u64>, x: u64, k0: int, k: int)
    requires
        0 <= k0 <= k,
        chain(parents, x, k0) >= parents.len(),
    ensures
        chain(parents, x, k) == chain(parents, x, k0),
    decreases k - k0,
{
    if k > k0 {
        lemma_chain_stays(parents, x, k0, k - 1);
    }
}

/// The source-first path that the parent links give from `source` to `target`: follow
/// parents back from `target` until `source`, then read the vertices in reverse. `None` when
/// the chain from `target` does not reach `source` within `parents.len()` steps.
pub fn parent_path(parents: &[u64], source: u64, target: u64) -> (r: Option<Vec<u64>>)
    ensures
        r matches Some(path) ==> parent_path_of(parents@, source, target, path@),
        r is None ==> forall|k: int| 0 <= k <= parents@.len() ==> #[trigger] chain(parents@, target, k) != source,
{
    let mut back: Vec<u64> = Vec::new();
    let mut u = target;
    let mut steps: usize = 0;
    loop
        invariant
            steps <= parents@.len(),
            back@.len() == steps,
            u == chain(parents@, target, steps as int),
            forall|j: int| 0 <= j < steps ==> #[trigger] back@[j] == chain(parents@, target, j) && back@[j] != source
                && back@[j] < parents@.len(),
        decreases parents@.len() - steps,
    {
        back.push(u);
        if u == source {
            let ghost b = back@;
            let mut path: Vec<u64> = Vec::new();
            let mut i: usize = back.len();
            while i > 0
                invariant
                    i <= back@.len(),
                    back@ == b,
                    path@.len() == b.len() - i,
                    forall|q: int| 0 <= q < path@.len() ==> #[trigger] path@[q] == b[b.len() - 1 - q],
                decreases i,
            {
                i = i - 1;
                path.push(back[i]);
            }
            proof {
                assert forall|q: int| 1 <= q < path@.len() implies #[trigger] path@[q] < parents@.len() && parents@[path@[q] as int]
                    == path@[q - 1] && path@[q] != source by {
                    let j = steps - q;
                    assert(path@[q] == b[j]);
                    assert(path@[q - 1] == b[j + 1]);
                    assert(b[j] == chain(parents@, target, j));
                    assert(b[j + 1] == chain(parents@, target, j + 1));
                }
            }
            return Some(path);
        }
        if u >= parents.len() as u64 || steps == parents.len() {
            proof {
                assert forall|k: int| 0 <= k <= parents@.len() implies #[trigger] chain(parents@, target, k) != source by {
                    if k < steps {
                        assert(back@[k] == chain(parents@, target, k));
                    } else if k > steps {
                        lemma_chain_stays(parents@, target, steps as int, k);
                    }
                }
            }
            return None;
        }
        u = parents[u as usize];
        steps += 1;
        proof {
            assert(back@[steps - 1] == chain(parents@, target, steps - 1));
        }
    }
}

} // verus!
