//! Deterministic simple-graph construction from edge lists.
use crate::buckets::{
    bucket_offsets, bucket_order, count_below, keys_below, lemma_buckets_disjoint,
    lemma_count_below_all, lemma_count_below_monotone, lemma_count_below_zero,
    lemma_order_sorted, lemma_position_in_bucket, position,
};
use crate::csr::{valid_csr, CsrAdjacency};
use crate::error::Error;
use crate::graph::{
    canonical_slot, graph_parts_valid, is_reverse_slot, loop_count, logical_edges, names_edge, reverses,
    valid_slot_edges, Graph,
};
use crate::topology::{has_arc, lemma_strict, row_of, rows_of, strictly_increasing};
use crate::transpose::{lemma_row_index, lemma_row_index_bounds, monotone, row_index};
use vstd::prelude::*;

verus! {

/// An edge with dense internal endpoints; any weight travels with the edge's position.
#[derive(Clone, Copy, Debug, PartialEq, Eq, Structural)]
pub struct Edge {
    pub source: u64,
    pub target: u64,
}

/// The (source, target) pair stored for an edge: forward, or reversed.
pub open spec fn slot_pair(e: Edge, rev: bool) -> (u64, u64) {
    if rev { (e.target, e.source) } else { (e.source, e.target) }
}

/// Every edge stores its forward slot; an undirected non-loop edge also stores its reverse.
pub open spec fn has_slot(e: Edge, directed: bool, rev: bool) -> bool {
    !rev || (!directed && e.source != e.target)
}

/// Every endpoint names one of `n` vertices.
pub open spec fn endpoints_in_range(edges: Seq<Edge>, n: int) -> bool {
    forall|k: int| 0 <= k < edges.len() ==> #[trigger] edges[k].source < n && edges[k].target < n
}

/// No two stored slots share a (source, target) pair: the edges form a simple graph.
pub open spec fn simple_edges(edges: Seq<Edge>, directed: bool) -> bool {
    forall|j: int, k: int, a: bool, b: bool|
        0 <= j < edges.len() && 0 <= k < edges.len() && (j != k || a != b) && has_slot(edges[j], directed, a)
            && has_slot(edges[k], directed, b) ==> #[trigger] slot_pair(edges[j], a) != #[trigger] slot_pair(edges[k], b)
}

/// Some edge stores the slot `u -> v`.
pub open spec fn edge_arc(edges: Seq<Edge>, directed: bool, u: int, v: int) -> bool {
    0 <= u <= u64::MAX && 0 <= v <= u64::MAX && exists|k: int, rev: bool|
        0 <= k < edges.len() && has_slot(edges[k], directed, rev) && #[trigger] slot_pair(edges[k], rev) == (u as u64, v as u64)
}

/// The slot `src -> tgt` is one that edge `e` stores.
pub open spec fn slot_of_edge(e: Edge, directed: bool, src: u64, tgt: u64) -> bool {
    slot_pair(e, false) == (src, tgt) || (has_slot(e, directed, true) && slot_pair(e, true) == (src, tgt))
}

proof fn lemma_loop_count_bounded(rows: Seq<Seq<u64>>, k: int)
    requires
        k >= 0,
    ensures
        loop_count(rows, k) <= k,
    decreases k,
{
    if k > 0 {
        lemma_loop_count_bounded(rows, k - 1);
    }
}

/// Number of self-loop edges among the first `k`.
pub open spec fn loop_edges(edges: Seq<Edge>, k: int) -> nat
    decreases k,
{
    if k <= 0 {
        0
    } else {
        loop_edges(edges, k - 1) + if edges[k - 1].source == edges[k - 1].target { 1nat } else { 0nat }
    }
}

/// The vertices below `k` whose row holds a self-loop.
pub open spec fn loop_vertices(rows: Seq<Seq<u64>>, k: int) -> Set<int> {
    Set::new(|u: int| 0 <= u < k && rows[u].contains(u as u64))
}

/// The positions below `k` of self-loop edges.
spec fn loop_positions(edges: Seq<Edge>, k: int) -> Set<int> {
    Set::new(|j: int| 0 <= j < k && edges[j].source == edges[j].target)
}

pub proof fn lemma_loop_vertices(rows: Seq<Seq<u64>>, k: int)
    requires
        k >= 0,
    ensures
        loop_vertices(rows, k).finite(),
        loop_vertices(rows, k).len() == loop_count(rows, k),
    decreases k,
{
    if k == 0 {
        assert(loop_vertices(rows, 0) =~= Set::empty());
    } else {
        lemma_loop_vertices(rows, k - 1);
        let prev = loop_vertices(rows, k - 1);
        if rows[k - 1].contains((k - 1) as u64) {
            assert(loop_vertices(rows, k) =~= prev.insert(k - 1));
            assert(!prev.contains(k - 1));
        } else {
            assert(loop_vertices(rows, k) =~= prev);
        }
    }
}

proof fn lemma_loop_positions(edges: Seq<Edge>, k: int)
    requires
        k >= 0,
    ensures
        loop_positions(edges, k).finite(),
        loop_positions(edges, k).len() == loop_edges(edges, k),
    decreases k,
{
    if k == 0 {
        assert(loop_positions(edges, 0) =~= Set::empty());
    } else {
        lemma_loop_positions(edges, k - 1);
        let prev = loop_positions(edges, k - 1);
        if edges[k - 1].source == edges[k - 1].target {
            assert(loop_positions(edges, k) =~= prev.insert(k - 1));
            assert(!prev.contains(k - 1));
        } else {
            assert(loop_positions(edges, k) =~= prev);
        }
    }
}

/// In a simple graph built from `edges`, the vertices with a self-loop correspond one to one
/// with the self-loop edges.
proof fn lemma_loop_count_matches(edges: Seq<Edge>, directed: bool, rows: Seq<Seq<u64>>)
    requires
        simple_edges(edges, directed),
        rows.len() <= u64::MAX,
        forall|u: int, v: int| #[trigger] has_arc(rows, u, v) <==> edge_arc(edges, directed, u, v),
    ensures
        loop_count(rows, rows.len() as int) == loop_edges(edges, edges.len() as int),
{
    let n = rows.len() as int;
    let m = edges.len() as int;
    lemma_loop_vertices(rows, n);
    lemma_loop_positions(edges, m);
    let x = loop_positions(edges, m);
    let y = loop_vertices(rows, n);
    let f = |j: int| edges[j].source as int;
    assert forall|a: int, b: int| x.contains(a) && x.contains(b) && #[trigger] f(a) == #[trigger] f(b) implies a == b by {
        if a != b {
            assert(has_slot(edges[a], directed, false) && has_slot(edges[b], directed, false));
            assert(slot_pair(edges[a], false) == slot_pair(edges[b], false));
        }
    }
    assert(vstd::relations::injective_on(f, x));
    assert forall|u: int| y.contains(u) <==> x.map(f).contains(u) by {
        if y.contains(u) {
            assert(has_arc(rows, u, u));
            assert(edge_arc(edges, directed, u, u));
            let (k, rev) = choose|k: int, rev: bool|
                0 <= k < m && has_slot(edges[k], directed, rev) && #[trigger] slot_pair(edges[k], rev) == (u as u64, u as u64);
            assert(edges[k].source == edges[k].target);
            assert(x.contains(k));
            assert(f(k) == u);
        }
        if x.map(f).contains(u) {
            let j = choose|j: int| x.contains(j) && f(j) == u;
            assert(has_slot(edges[j], directed, false));
            assert(slot_pair(edges[j], false) == (u as u64, u as u64));
            assert(edge_arc(edges, directed, u, u));
            assert(has_arc(rows, u, u));
        }
    }
    assert(x.map(f) =~= y);
    vstd::set_lib::lemma_map_size(x, y, f);
}

/// Two distinct slots of a valid CSR that lie in the same row hold different targets.
pub proof fn lemma_row_slots_differ(offs: Seq<u64>, tgts: Seq<u64>, n: int, s: int, t: int)
    requires
        valid_csr(n, tgts, offs),
        0 <= s < tgts.len(),
        0 <= t < tgts.len(),
        s != t,
        row_index(offs, s, n) == row_index(offs, t, n),
    ensures
        tgts[s] != tgts[t],
{
    assert(monotone(offs));
    lemma_row_index_bounds(offs, n, s);
    lemma_row_index_bounds(offs, n, t);
    let u = row_index(offs, s, n);
    let row = row_of(offs, tgts, u);
    assert(strictly_increasing(row));
    assert(row[s - offs[u]] == tgts[s]);
    assert(row[t - offs[u]] == tgts[t]);
    if s < t {
        assert(row[s - offs[u]] < row[t - offs[u]]);
    } else {
        assert(row[t - offs[u]] < row[s - offs[u]]);
    }
}

/// The slot that holds an arc of a valid CSR.
pub proof fn lemma_arc_slot(offs: Seq<u64>, tgts: Seq<u64>, n: int, u: int, v: int) -> (s: int)
    requires
        valid_csr(n, tgts, offs),
        has_arc(rows_of(offs, tgts), u, v),
    ensures
        0 <= s < tgts.len(),
        offs[u] <= s < offs[u + 1],
        row_index(offs, s, n) == u,
        tgts[s] == v,
{
    assert(monotone(offs));
    let row = rows_of(offs, tgts)[u];
    assert(row == row_of(offs, tgts, u));
    let kk = choose|kk: int| 0 <= kk < row.len() && row[kk] == v as u64;
    assert(offs[u] <= offs[u + 1] <= offs[n]);
    let s = offs[u] + kk;
    assert(row[kk] == tgts[s]);
    lemma_row_index(offs, n, s, u);
    s
}

/// Each outgoing slot of a simple graph built from `edges` names the edge that stored it, so
/// the slot-to-edge mapping is a valid property association with one row per edge.
proof fn lemma_slot_edges_valid(edges: Seq<Edge>, directed: bool, out: CsrAdjacency, ids: Seq<u64>)
    requires
        out.valid(),
        out.spec_n() <= u64::MAX,
        simple_edges(edges, directed),
        forall|u: int, v: int| #[trigger] has_arc(out@, u, v) <==> edge_arc(edges, directed, u, v),
        ids.len() == out.spec_targets().len(),
        forall|p: int| 0 <= p < ids.len() ==> #[trigger] ids[p] < edges.len() && slot_of_edge(
            edges[ids[p] as int],
            directed,
            row_index(out.spec_offsets(), p, out.spec_n()) as u64,
            out.spec_targets()[p],
        ),
    ensures
        valid_slot_edges(directed, out, edges.len() as int, ids),
{
    let offs = out.spec_offsets();
    let tgts = out.spec_targets();
    let n = out.spec_n();
    let m = edges.len() as int;
    assert forall|s: int, t: int|
        0 <= s < t < ids.len() && canonical_slot(directed, out, s) && canonical_slot(directed, out, t)
            implies #[trigger] ids[s] != #[trigger] ids[t] by {
        if ids[s] == ids[t] {
            let k = ids[s] as int;
            lemma_row_index_bounds(offs, n, s);
            lemma_row_index_bounds(offs, n, t);
            let us = row_index(offs, s, n);
            let ut = row_index(offs, t, n);
            let os = !(slot_pair(edges[k], false) == (us as u64, tgts[s]));
            let ot = !(slot_pair(edges[k], false) == (ut as u64, tgts[t]));
            assert(has_slot(edges[k], directed, os) && slot_pair(edges[k], os) == (us as u64, tgts[s]));
            assert(has_slot(edges[k], directed, ot) && slot_pair(edges[k], ot) == (ut as u64, tgts[t]));
            assert(os == ot);
            assert(us == ut && tgts[s] == tgts[t]);
            lemma_row_slots_differ(offs, tgts, n, s, t);
        }
    }
    assert forall|e: int| 0 <= e < m implies #[trigger] names_edge(directed, out, ids, ids.len() as int, e) by {
        let rev0 = !directed && edges[e].source > edges[e].target;
        let p = slot_pair(edges[e], rev0);
        assert(has_slot(edges[e], directed, rev0));
        assert(edge_arc(edges, directed, p.0 as int, p.1 as int));
        assert(has_arc(out@, p.0 as int, p.1 as int));
        assert(out@ == rows_of(offs, tgts));
        let s = lemma_arc_slot(offs, tgts, n, p.0 as int, p.1 as int);
        let k = ids[s] as int;
        let o = !(slot_pair(edges[k], false) == (p.0, p.1));
        assert(has_slot(edges[k], directed, o) && slot_pair(edges[k], o) == p);
        if k != e || o != rev0 {
            assert(slot_pair(edges[k], o) != slot_pair(edges[e], rev0));
        }
        assert(canonical_slot(directed, out, s));
        assert(0 <= s < ids.len() && canonical_slot(directed, out, s) && ids[s] == e);
    }
    assert forall|s: int, t: int|
        0 <= s < ids.len() && !canonical_slot(directed, out, s) && #[trigger] is_reverse_slot(out, s, t)
            implies ids[s] == ids[t] by {
        lemma_row_index_bounds(offs, n, s);
        let u = row_index(offs, s, n);
        let v = tgts[s] as int;
        assert(v < n);
        lemma_row_index(offs, n, t, v);
        let k = ids[s] as int;
        let o = !(slot_pair(edges[k], false) == (u as u64, v as u64));
        assert(has_slot(edges[k], directed, o) && slot_pair(edges[k], o) == (u as u64, v as u64));
        assert(has_slot(edges[k], directed, !o) && slot_pair(edges[k], !o) == (v as u64, u as u64));
        let k2 = ids[t] as int;
        let o2 = !(slot_pair(edges[k2], false) == (v as u64, u as u64));
        assert(has_slot(edges[k2], directed, o2) && slot_pair(edges[k2], o2) == (v as u64, u as u64));
        if k != k2 {
            assert(slot_pair(edges[k], !o) != slot_pair(edges[k2], o2));
        }
    }
}

/// The pushed slot list: entry `i` is a stored slot of edge `pid[i]` (its reverse when
/// `prev[i]`), no stored slot appears twice, and every stored slot of every edge appears,
/// at `fwd_pos` or `rev_pos`.
pub open spec fn pushed_slots(
    edges: Seq<Edge>,
    directed: bool,
    n: int,
    psrc: Seq<u64>,
    ptgt: Seq<u64>,
    pid: Seq<u64>,
    prev: Seq<bool>,
    fwd_pos: Seq<int>,
    rev_pos: Seq<int>,
) -> bool {
    &&& psrc.len() == ptgt.len() == pid.len() == prev.len()
    &&& endpoints_in_range(edges, n)
    &&& fwd_pos.len() == edges.len()
    &&& rev_pos.len() == edges.len()
    &&& forall|i: int| 0 <= i < psrc.len() ==> #[trigger] pid[i] < edges.len() && has_slot(edges[pid[i] as int], directed, prev[i])
        && slot_pair(edges[pid[i] as int], prev[i]) == (psrc[i], ptgt[i])
    &&& forall|i: int, j: int| 0 <= i < j < psrc.len() ==> (#[trigger] pid[i], prev[i]) != (#[trigger] pid[j], prev[j])
    &&& forall|j: int| 0 <= j < edges.len() ==> 0 <= #[trigger] fwd_pos[j] < psrc.len() && pid[fwd_pos[j]] == j && !prev[fwd_pos[j]]
    &&& forall|j: int| 0 <= j < edges.len() && has_slot(edges[j], directed, true) ==> 0 <= #[trigger] rev_pos[j] < psrc.len() && pid[rev_pos[j]] == j && prev[rev_pos[j]]
}

/// Two entries of the pushed list that hold the same (source, target) pair, if any.
fn find_repeated_pair(psrc: &Vec<u64>, ptgt: &Vec<u64>) -> (r: Option<(usize, usize)>)
    requires
        psrc@.len() == ptgt@.len(),
    ensures
        r matches Some((i, j)) ==> i < j < psrc@.len() && psrc@[i as int] == psrc@[j as int] && ptgt@[i as int]
            == ptgt@[j as int],
        r is None ==> forall|i: int, j: int|
            0 <= i < j < psrc@.len() ==> !(#[trigger] psrc@[i] == #[trigger] psrc@[j] && ptgt@[i] == ptgt@[j]),
{
    let mut j: usize = 0;
    while j < psrc.len()
        invariant
            psrc@.len() == ptgt@.len(),
            j <= psrc@.len(),
            forall|a: int, b: int| 0 <= a < b < j ==> !(#[trigger] psrc@[a] == #[trigger] psrc@[b] && ptgt@[a] == ptgt@[b]),
        decreases psrc@.len() - j,
    {
        let mut i: usize = 0;
        while i < j
            invariant
                psrc@.len() == ptgt@.len(),
                j < psrc@.len(),
                i <= j,
                forall|a: int, b: int| 0 <= a < b < j ==> !(#[trigger] psrc@[a] == #[trigger] psrc@[b] && ptgt@[a] == ptgt@[b]),
                forall|a: int| 0 <= a < i ==> !(#[trigger] psrc@[a] == psrc@[j as int] && ptgt@[a] == ptgt@[j as int]),
            decreases j - i,
        {
            if psrc[i] == psrc[j] && ptgt[i] == ptgt[j] {
                return Some((i, j));
            }
            i += 1;
        }
        j += 1;
    }
    None
}

/// Whether the pushed slot list repeats a pair decides whether the edges are simple.
proof fn lemma_pushed_repeats(
    edges: Seq<Edge>,
    directed: bool,
    n: int,
    psrc: Seq<u64>,
    ptgt: Seq<u64>,
    pid: Seq<u64>,
    prev: Seq<bool>,
    fwd_pos: Seq<int>,
    rev_pos: Seq<int>,
)
    requires
        pushed_slots(edges, directed, n, psrc, ptgt, pid, prev, fwd_pos, rev_pos),
    ensures
        simple_edges(edges, directed) <==> forall|i: int, j: int|
            0 <= i < j < psrc.len() ==> !(#[trigger] psrc[i] == #[trigger] psrc[j] && ptgt[i] == ptgt[j]),
{
    if simple_edges(edges, directed) {
        assert forall|i: int, j: int| 0 <= i < j < psrc.len() implies !(#[trigger] psrc[i] == #[trigger] psrc[j] && ptgt[i]
            == ptgt[j]) by {
            assert((pid[i], prev[i]) != (pid[j], prev[j]));
            assert(slot_pair(edges[pid[i] as int], prev[i]) != slot_pair(edges[pid[j] as int], prev[j]));
        }
    }
    if forall|i: int, j: int| 0 <= i < j < psrc.len() ==> !(#[trigger] psrc[i] == #[trigger] psrc[j] && ptgt[i] == ptgt[j]) {
        assert forall|j: int, k: int, a: bool, b: bool|
            0 <= j < edges.len() && 0 <= k < edges.len() && (j != k || a != b) && has_slot(edges[j], directed, a)
                && has_slot(edges[k], directed, b) implies #[trigger] slot_pair(edges[j], a) != #[trigger] slot_pair(edges[k], b) by {
            let i1 = if a { rev_pos[j] } else { fwd_pos[j] };
            let i2 = if b { rev_pos[k] } else { fwd_pos[k] };
            assert(pid[i1] == j && prev[i1] == a);
            assert(pid[i2] == k && prev[i2] == b);
            assert(i1 != i2);
            assert((psrc[i1], ptgt[i1]) == slot_pair(edges[j], a));
            assert((psrc[i2], ptgt[i2]) == slot_pair(edges[k], b));
            if i1 < i2 {
                assert(!(psrc[i1] == psrc[i2] && ptgt[i1] == ptgt[i2]));
            } else {
                assert(!(psrc[i2] == psrc[i1] && ptgt[i2] == ptgt[i1]));
            }
        }
    }
}

/// `order` is the stable bucketing of `keys` into `n` buckets.
pub open spec fn bucketed(keys: Seq<u64>, n: int, order: Seq<usize>) -> bool {
    &&& keys_below(keys, n)
    &&& order.len() == keys.len()
    &&& forall|i: int| 0 <= i < keys.len() ==> 0 <= #[trigger] position(keys, i) < keys.len() && order[position(keys, i)] == i
    &&& forall|x: int| 0 <= x < keys.len() ==> #[trigger] order[x] < keys.len() && position(keys, order[x] as int) == x
}

/// The two bucketing passes and the slots they produce.
pub open spec fn sorted_slots(
    n: int,
    psrc: Seq<u64>,
    ptgt: Seq<u64>,
    qsrc: Seq<u64>,
    order1: Seq<usize>,
    order2: Seq<usize>,
    rsrc: Seq<u64>,
    rtgt: Seq<u64>,
) -> bool {
    &&& bucketed(ptgt, n, order1)
    &&& bucketed(qsrc, n, order2)
    &&& psrc.len() == ptgt.len() == qsrc.len() == rsrc.len() == rtgt.len()
    &&& forall|x: int| 0 <= x < qsrc.len() ==> #[trigger] qsrc[x] == psrc[order1[x] as int]
    &&& forall|x: int| 0 <= x < rsrc.len() ==> #[trigger] rsrc[x] == psrc[order1[order2[x] as int] as int]
    &&& forall|x: int| 0 <= x < rtgt.len() ==> #[trigger] rtgt[x] == ptgt[order1[order2[x] as int] as int]
}

/// No two neighboring slots share a (source, target) pair.
pub open spec fn no_adjacent_duplicates(rsrc: Seq<u64>, rtgt: Seq<u64>) -> bool {
    forall|x: int| 0 <= x && x + 1 < rsrc.len() ==> !(#[trigger] rsrc[x] == rsrc[x + 1] && rtgt[x] == rtgt[x + 1])
}

/// The two passes sort the slots by (source, target).
proof fn lemma_lexicographic(
    n: int,
    psrc: Seq<u64>,
    ptgt: Seq<u64>,
    qsrc: Seq<u64>,
    order1: Seq<usize>,
    order2: Seq<usize>,
    rsrc: Seq<u64>,
    rtgt: Seq<u64>,
    x: int,
    y: int,
)
    requires
        sorted_slots(n, psrc, ptgt, qsrc, order1, order2, rsrc, rtgt),
        0 <= x < y < rsrc.len(),
    ensures
        rsrc[x] <= rsrc[y],
        rsrc[x] == rsrc[y] ==> rtgt[x] <= rtgt[y],
{
    lemma_order_sorted(qsrc, n, order2, x, y);
    if rsrc[x] == rsrc[y] {
        lemma_order_sorted(ptgt, n, order1, order2[x] as int, order2[y] as int);
    }
}

/// Where entry `i` of the pushed list lands after both passes.
pub open spec fn final_position(ptgt: Seq<u64>, qsrc: Seq<u64>, i: int) -> int {
    position(qsrc, position(ptgt, i))
}

proof fn lemma_final_position(
    n: int,
    psrc: Seq<u64>,
    ptgt: Seq<u64>,
    qsrc: Seq<u64>,
    order1: Seq<usize>,
    order2: Seq<usize>,
    rsrc: Seq<u64>,
    rtgt: Seq<u64>,
    i: int,
)
    requires
        sorted_slots(n, psrc, ptgt, qsrc, order1, order2, rsrc, rtgt),
        0 <= i < psrc.len(),
    ensures
        0 <= final_position(ptgt, qsrc, i) < psrc.len(),
        order1[order2[final_position(ptgt, qsrc, i)] as int] == i,
{
    let y = position(ptgt, i);
    assert(0 <= y < ptgt.len() && order1[y] == i);
    assert(0 <= position(qsrc, y) < qsrc.len() && order2[position(qsrc, y)] == y);
}

/// Two distinct stored slots never share a (source, target) pair after sorting.
#[verifier::spinoff_prover]
#[verifier::rlimit(30)]
proof fn lemma_simple_pair(
    edges: Seq<Edge>,
    directed: bool,
    n: int,
    psrc: Seq<u64>,
    ptgt: Seq<u64>,
    pid: Seq<u64>,
    prev: Seq<bool>,
    fwd_pos: Seq<int>,
    rev_pos: Seq<int>,
    qsrc: Seq<u64>,
    order1: Seq<usize>,
    order2: Seq<usize>,
    rsrc: Seq<u64>,
    rtgt: Seq<u64>,
    j: int,
    k: int,
    a: bool,
    b: bool,
)
    requires
        pushed_slots(edges, directed, n, psrc, ptgt, pid, prev, fwd_pos, rev_pos),
        sorted_slots(n, psrc, ptgt, qsrc, order1, order2, rsrc, rtgt),
        no_adjacent_duplicates(rsrc, rtgt),
        0 <= j < edges.len(),
        0 <= k < edges.len(),
        j != k || a != b,
        has_slot(edges[j], directed, a),
        has_slot(edges[k], directed, b),
    ensures
        slot_pair(edges[j], a) != slot_pair(edges[k], b),
{
    if slot_pair(edges[j], a) == slot_pair(edges[k], b) {
        let i1 = if a { rev_pos[j] } else { fwd_pos[j] };
        let i2 = if b { rev_pos[k] } else { fwd_pos[k] };
        assert(pid[i1] == j && prev[i1] == a);
        assert(pid[i2] == k && prev[i2] == b);
        assert(i1 != i2);
        assert((psrc[i1], ptgt[i1]) == slot_pair(edges[j], a));
        assert((psrc[i2], ptgt[i2]) == slot_pair(edges[k], b));
        lemma_final_position(n, psrc, ptgt, qsrc, order1, order2, rsrc, rtgt, i1);
        lemma_final_position(n, psrc, ptgt, qsrc, order1, order2, rsrc, rtgt, i2);
        let x1 = final_position(ptgt, qsrc, i1);
        let x2 = final_position(ptgt, qsrc, i2);
        assert(x1 != x2);
        let lo = if x1 < x2 { x1 } else { x2 };
        let hi = if x1 < x2 { x2 } else { x1 };
        assert(rsrc[lo] == rsrc[hi] && rtgt[lo] == rtgt[hi]);
        lemma_lexicographic(n, psrc, ptgt, qsrc, order1, order2, rsrc, rtgt, lo, lo + 1);
        if lo + 1 < hi {
            lemma_lexicographic(n, psrc, ptgt, qsrc, order1, order2, rsrc, rtgt, lo + 1, hi);
        }
        assert(rsrc[lo] == rsrc[lo + 1] && rtgt[lo] == rtgt[lo + 1]);
    }
}

/// The sorted slots hold every stored slot exactly once, so the edges are simple.
proof fn lemma_simple(
    edges: Seq<Edge>,
    directed: bool,
    n: int,
    psrc: Seq<u64>,
    ptgt: Seq<u64>,
    pid: Seq<u64>,
    prev: Seq<bool>,
    fwd_pos: Seq<int>,
    rev_pos: Seq<int>,
    qsrc: Seq<u64>,
    order1: Seq<usize>,
    order2: Seq<usize>,
    rsrc: Seq<u64>,
    rtgt: Seq<u64>,
)
    requires
        pushed_slots(edges, directed, n, psrc, ptgt, pid, prev, fwd_pos, rev_pos),
        sorted_slots(n, psrc, ptgt, qsrc, order1, order2, rsrc, rtgt),
        no_adjacent_duplicates(rsrc, rtgt),
    ensures
        simple_edges(edges, directed),
{
    assert forall|j: int, k: int, a: bool, b: bool|
        0 <= j < edges.len() && 0 <= k < edges.len() && (j != k || a != b) && has_slot(edges[j], directed, a)
            && has_slot(edges[k], directed, b) implies #[trigger] slot_pair(edges[j], a) != #[trigger] slot_pair(edges[k], b) by {
        lemma_simple_pair(edges, directed, n, psrc, ptgt, pid, prev, fwd_pos, rev_pos, qsrc, order1, order2, rsrc, rtgt, j, k, a, b);
    }
}

/// Each sorted slot lies in the bucket of its source.
proof fn lemma_slot_bucket(
    n: int,
    psrc: Seq<u64>,
    ptgt: Seq<u64>,
    qsrc: Seq<u64>,
    order1: Seq<usize>,
    order2: Seq<usize>,
    rsrc: Seq<u64>,
    rtgt: Seq<u64>,
    x: int,
    v: int,
)
    requires
        sorted_slots(n, psrc, ptgt, qsrc, order1, order2, rsrc, rtgt),
        0 <= x < rsrc.len(),
        0 <= v < n,
        count_below(qsrc, v) <= x < count_below(qsrc, v + 1),
    ensures
        rsrc[x] == v,
{
    lemma_position_in_bucket(qsrc, order2[x] as int);
    assert(qsrc[order2[x] as int] < n);
    if rsrc[x] != v {
        lemma_buckets_disjoint(qsrc, v, rsrc[x] as int, x);
    }
}

/// Offsets of the source buckets and the sorted targets form a valid CSR.
proof fn lemma_build_csr(
    n: int,
    psrc: Seq<u64>,
    ptgt: Seq<u64>,
    qsrc: Seq<u64>,
    order1: Seq<usize>,
    order2: Seq<usize>,
    rsrc: Seq<u64>,
    rtgt: Seq<u64>,
    offs: Seq<u64>,
)
    requires
        sorted_slots(n, psrc, ptgt, qsrc, order1, order2, rsrc, rtgt),
        no_adjacent_duplicates(rsrc, rtgt),
        n >= 0,
        keys_below(ptgt, n),
        offs.len() == n + 1,
        forall|v: int| 0 <= v <= n ==> #[trigger] offs[v] == count_below(qsrc, v),
    ensures
        valid_csr(n, rtgt, offs),
        forall|x: int| 0 <= x < rsrc.len() ==> #[trigger] row_index(offs, x, n) == rsrc[x],
{
    lemma_count_below_zero(qsrc);
    lemma_count_below_all(qsrc, n);
    assert forall|i: int, j: int| 0 <= i <= j < offs.len() implies offs[i] <= offs[j] by {
        lemma_count_below_monotone(qsrc, i, j);
    }
    assert forall|v: int| 0 <= v < n implies strictly_increasing(#[trigger] row_of(offs, rtgt, v)) by {
        let row = row_of(offs, rtgt, v);
        let base = offs[v] as int;
        assert(offs[v] <= offs[v + 1] <= offs[n]);
        assert forall|x: int| 0 <= x < row.len() - 1 implies #[trigger] row[x] < row[x + 1] by {
            let a = base + x;
            assert(row[x] == rtgt[a]);
            assert(row[x + 1] == rtgt[a + 1]);
            lemma_slot_bucket(n, psrc, ptgt, qsrc, order1, order2, rsrc, rtgt, a, v);
            lemma_slot_bucket(n, psrc, ptgt, qsrc, order1, order2, rsrc, rtgt, a + 1, v);
            lemma_lexicographic(n, psrc, ptgt, qsrc, order1, order2, rsrc, rtgt, a, a + 1);
        }
        lemma_strict(row);
    }
    assert forall|x: int| 0 <= x < rtgt.len() implies #[trigger] rtgt[x] < n by {
        let i = order1[order2[x] as int] as int;
        assert(ptgt[i] < n);
    }
    assert(monotone(offs));
    assert forall|x: int| 0 <= x < rsrc.len() implies #[trigger] row_index(offs, x, n) == rsrc[x] by {
        let y = order2[x] as int;
        lemma_position_in_bucket(qsrc, y);
        assert(qsrc[y] < n);
        lemma_count_below_monotone(qsrc, qsrc[y] + 1, n);
        lemma_row_index(offs, n, x, rsrc[x] as int);
    }
}

/// The built rows hold exactly the stored slots of the edges.
proof fn lemma_build_arcs(
    edges: Seq<Edge>,
    directed: bool,
    n: int,
    psrc: Seq<u64>,
    ptgt: Seq<u64>,
    pid: Seq<u64>,
    prev: Seq<bool>,
    fwd_pos: Seq<int>,
    rev_pos: Seq<int>,
    qsrc: Seq<u64>,
    order1: Seq<usize>,
    order2: Seq<usize>,
    rsrc: Seq<u64>,
    rtgt: Seq<u64>,
    offs: Seq<u64>,
)
    requires
        pushed_slots(edges, directed, n, psrc, ptgt, pid, prev, fwd_pos, rev_pos),
        sorted_slots(n, psrc, ptgt, qsrc, order1, order2, rsrc, rtgt),
        valid_csr(n, rtgt, offs),
        forall|v: int| 0 <= v <= n ==> #[trigger] offs[v] == count_below(qsrc, v),
        forall|x: int| 0 <= x < rsrc.len() ==> #[trigger] row_index(offs, x, n) == rsrc[x],
    ensures
        forall|u: int, v: int| #[trigger] has_arc(rows_of(offs, rtgt), u, v) <==> edge_arc(edges, directed, u, v),
{
    let rows = rows_of(offs, rtgt);
    assert forall|u: int, v: int| #[trigger] has_arc(rows, u, v) <==> edge_arc(edges, directed, u, v) by {
        if has_arc(rows, u, v) {
            let kk = choose|kk: int| 0 <= kk < rows[u].len() && rows[u][kk] == v as u64;
            let x = offs[u] + kk;
            assert(offs[u] <= offs[u + 1] <= offs[n]);
            assert(rows[u][kk] == rtgt[x]);
            lemma_slot_bucket(n, psrc, ptgt, qsrc, order1, order2, rsrc, rtgt, x, u);
            let i = order1[order2[x] as int] as int;
            assert(slot_pair(edges[pid[i] as int], prev[i]) == (u as u64, v as u64));
        }
        if edge_arc(edges, directed, u, v) {
            let (kk, rev) = choose|kk: int, rev: bool| 0 <= kk < edges.len() && has_slot(edges[kk], directed, rev) && #[trigger] slot_pair(edges[kk], rev) == (u as u64, v as u64);
            let i = if rev { rev_pos[kk] } else { fwd_pos[kk] };
            lemma_final_position(n, psrc, ptgt, qsrc, order1, order2, rsrc, rtgt, i);
            let x = final_position(ptgt, qsrc, i);
            assert(pid[i] == kk && prev[i] == rev);
            assert((psrc[i], ptgt[i]) == slot_pair(edges[kk], rev));
            assert(rsrc[x] == psrc[i]);
            assert(rtgt[x] == ptgt[i]);
            assert(rsrc[x] == u && rtgt[x] == v);
            assert(row_index(offs, x, n) == u);
            assert(monotone(offs));
            lemma_count_below_all(qsrc, n);
            crate::transpose::lemma_row_index_bounds(offs, n, x);
            assert(rows[u][x - offs[u]] == v as u64);
        }
    }
}

/// Build sorted simple CSR, rejecting duplicate logical edges, and report for each outgoing
/// slot the position of the edge that stored it.
#[verifier::loop_isolation(false)]
#[verifier::spinoff_prover]
#[verifier::rlimit(100)]
pub fn build(n: usize, directed: bool, weighted: bool, edges: &[Edge]) -> (r: Result<(Graph, Vec<u64>), Error>)
    ensures
        !endpoints_in_range(edges@, n as int) ==> r matches Err(Error::InvalidGraph(_)),
        endpoints_in_range(edges@, n as int) && !simple_edges(edges@, directed) ==> r matches Err(
            Error::InvalidGraph(_),
        ),
        endpoints_in_range(edges@, n as int) && simple_edges(edges@, directed) && n == usize::MAX ==> r matches Err(
            Error::Overflow,
        ),
        endpoints_in_range(edges@, n as int) && n < usize::MAX && simple_edges(edges@, directed) ==> (r is Ok || (r matches Err(Error::Overflow)
            && !directed && 2 * edges@.len() > usize::MAX)),
        r matches Ok((g, ids)) ==> {
            &&& g.spec_directed() == directed
            &&& g.spec_outgoing().spec_weighted() == weighted
            &&& g.spec_n() == n
            &&& g.spec_incoming() is None
            &&& g.spec_slot_edges() is None
            &&& g.spec_node_rows() is None
            &&& g.spec_edge_rows() is None
            &&& forall|u: int, v: int| #[trigger] has_arc(g.spec_outgoing()@, u, v) <==> edge_arc(edges@, directed, u, v)
            &&& g.spec_edge_count() == edges@.len()
            &&& g.spec_loop_count() == loop_edges(edges@, edges@.len() as int)
            &&& valid_slot_edges(directed, g.spec_outgoing(), edges@.len() as int, ids@)
            &&& ids@.len() == g.spec_outgoing().spec_targets().len()
            &&& forall|p: int| 0 <= p < ids@.len() ==> #[trigger] ids@[p] < edges@.len() && slot_of_edge(
                edges@[ids@[p] as int],
                directed,
                row_index(g.spec_outgoing().spec_offsets(), p, n as int) as u64,
                g.spec_outgoing().spec_targets()[p],
            )
        },
{
    let m = edges.len();
    let mut psrc: Vec<u64> = Vec::new();
    let mut ptgt: Vec<u64> = Vec::new();
    let mut pid: Vec<u64> = Vec::new();
    let ghost mut prev: Seq<bool> = Seq::empty();
    let ghost mut fwd_pos: Seq<int> = Seq::empty();
    let ghost mut rev_pos: Seq<int> = Seq::empty();
    let mut k: usize = 0;
    while k < m
        invariant
            m == edges@.len(),
            k <= m,
            psrc@.len() == ptgt@.len() == pid@.len() == prev.len(),
            psrc@.len() <= 2 * k,
            directed ==> psrc@.len() == k,
            !directed ==> psrc@.len() + loop_edges(edges@, k as int) == 2 * k,
            fwd_pos.len() == k,
            rev_pos.len() == k,
            forall|j: int| 0 <= j < k ==> #[trigger] edges@[j].source < n && edges@[j].target < n,
            forall|i: int| 0 <= i < psrc@.len() ==> #[trigger] pid@[i] < k && has_slot(edges@[pid@[i] as int], directed, prev[i])
                && slot_pair(edges@[pid@[i] as int], prev[i]) == (psrc@[i], ptgt@[i]),
            forall|i: int, j: int| 0 <= i < j < psrc@.len() ==> (#[trigger] pid@[i], prev[i]) != (#[trigger] pid@[j], prev[j]),
            forall|j: int| 0 <= j < k ==> 0 <= #[trigger] fwd_pos[j] < psrc@.len() && pid@[fwd_pos[j]] == j && !prev[fwd_pos[j]],
            forall|j: int| 0 <= j < k && has_slot(edges@[j], directed, true) ==> 0 <= #[trigger] rev_pos[j] < psrc@.len() && pid@[rev_pos[j]] == j && prev[rev_pos[j]],
        decreases m - k,
    {
        let e = edges[k];
        if e.source >= n as u64 || e.target >= n as u64 {
            proof {
                assert(edges@[k as int] == e);
            }
            return Err(Error::InvalidGraph("edge endpoint or weight is invalid".to_string()));
        }
        proof {
            assert(edges@[k as int] == e);
            assert(edges@[k as int].source < n && edges@[k as int].target < n);
            fwd_pos = fwd_pos.push(psrc@.len() as int);
        }
        psrc.push(e.source);
        ptgt.push(e.target);
        pid.push(k as u64);
        proof {
            prev = prev.push(false);
        }
        if !directed && e.source != e.target {
            proof {
                rev_pos = rev_pos.push(psrc@.len() as int);
            }
            psrc.push(e.target);
            ptgt.push(e.source);
            pid.push(k as u64);
            proof {
                prev = prev.push(true);
            }
        } else {
            proof {
                rev_pos = rev_pos.push(0);
            }
        }
        proof {
            assert forall|j: int| 0 <= j < k + 1 implies #[trigger] edges@[j].source < n && edges@[j].target < n by {
                if j == k {
                    assert(edges@[k as int] == e);
                }
            }
        }
        k += 1;
    }
    if n == usize::MAX {
        // The bucket offsets need n + 1 entries; duplicates are still refused first.
        let repeated = find_repeated_pair(&psrc, &ptgt);
        proof {
            assert(pushed_slots(edges@, directed, n as int, psrc@, ptgt@, pid@, prev, fwd_pos, rev_pos));
            lemma_pushed_repeats(edges@, directed, n as int, psrc@, ptgt@, pid@, prev, fwd_pos, rev_pos);
        }
        if repeated.is_some() {
            return Err(Error::InvalidGraph("duplicate logical edge; normalize explicitly before building".to_string()));
        }
        return Err(Error::Overflow);
    }
    let total = psrc.len();
    proof {
        assert(pushed_slots(edges@, directed, n as int, psrc@, ptgt@, pid@, prev, fwd_pos, rev_pos));
        assert forall|i: int| 0 <= i < ptgt@.len() implies #[trigger] ptgt@[i] < n by {
            let j = pid@[i] as int;
            assert(edges@[j].source < n && edges@[j].target < n);
        }
        assert(keys_below(ptgt@, n as int));
    }
    // Stable bucketing by target, then by source, sorts the slots by (source, target).
    let offs1 = bucket_offsets(n, ptgt.as_slice(), None)?;
    let order1 = bucket_order(n, ptgt.as_slice(), offs1.as_slice(), None)?;
    let mut qsrc: Vec<u64> = Vec::new();
    let mut p: usize = 0;
    while p < total
        invariant
            p <= total,
            qsrc@.len() == p,
            forall|x: int| 0 <= x < p ==> #[trigger] qsrc@[x] == psrc@[order1@[x] as int],
        decreases total - p,
    {
        qsrc.push(psrc[order1[p]]);
        p += 1;
    }
    proof {
        assert forall|x: int| 0 <= x < qsrc@.len() implies #[trigger] qsrc@[x] < n by {
            let i = order1@[x] as int;
            let j = pid@[i] as int;
            assert(edges@[j].source < n && edges@[j].target < n);
        }
        assert(keys_below(qsrc@, n as int));
    }
    let offs2 = bucket_offsets(n, qsrc.as_slice(), None)?;
    let order2 = bucket_order(n, qsrc.as_slice(), offs2.as_slice(), None)?;
    let mut rsrc: Vec<u64> = Vec::new();
    let mut rtgt: Vec<u64> = Vec::new();
    let mut rid: Vec<u64> = Vec::new();
    let mut p: usize = 0;
    while p < total
        invariant
            p <= total,
            rsrc@.len() == p,
            rtgt@.len() == p,
            rid@.len() == p,
            forall|x: int| 0 <= x < p ==> #[trigger] rsrc@[x] == psrc@[order1@[order2@[x] as int] as int],
            forall|x: int| 0 <= x < p ==> #[trigger] rtgt@[x] == ptgt@[order1@[order2@[x] as int] as int],
            forall|x: int| 0 <= x < p ==> #[trigger] rid@[x] == pid@[order1@[order2@[x] as int] as int],
        decreases total - p,
    {
        let i = order1[order2[p]];
        rsrc.push(psrc[i]);
        rtgt.push(ptgt[i]);
        rid.push(pid[i]);
        p += 1;
    }
    proof {
        assert(bucketed(ptgt@, n as int, order1@));
        assert(bucketed(qsrc@, n as int, order2@));
        assert(sorted_slots(n as int, psrc@, ptgt@, qsrc@, order1@, order2@, rsrc@, rtgt@));
    }
    let mut p: usize = 0;
    while p < total
        invariant
            p <= total,
            forall|x: int| 0 <= x < p && x + 1 < total ==> !(#[trigger] rsrc@[x] == rsrc@[x + 1] && rtgt@[x] == rtgt@[x + 1]),
        decreases total - p,
    {
        if p + 1 < total && rsrc[p] == rsrc[p + 1] && rtgt[p] == rtgt[p + 1] {
            proof {
                let i = order1@[order2@[p as int] as int] as int;
                let j = order1@[order2@[p + 1] as int] as int;
                assert(position(qsrc@, order2@[p as int] as int) == p);
                assert(position(qsrc@, order2@[p + 1] as int) == p + 1);
                assert(position(ptgt@, i) == order2@[p as int]);
                assert(position(ptgt@, j) == order2@[p + 1]);
                assert(i != j);
                if i < j {
                    assert((pid@[i], prev[i]) != (pid@[j], prev[j]));
                } else {
                    assert((pid@[j], prev[j]) != (pid@[i], prev[i]));
                }
                assert(slot_pair(edges@[pid@[i] as int], prev[i]) == slot_pair(edges@[pid@[j] as int], prev[j]));
            }
            return Err(
                Error::InvalidGraph("duplicate logical edge; normalize explicitly before building".to_string()),
            );
        }
        p += 1;
    }
    proof {
        assert(no_adjacent_duplicates(rsrc@, rtgt@));
        lemma_simple(edges@, directed, n as int, psrc@, ptgt@, pid@, prev, fwd_pos, rev_pos, qsrc@, order1@, order2@, rsrc@, rtgt@);
        lemma_build_csr(n as int, psrc@, ptgt@, qsrc@, order1@, order2@, rsrc@, rtgt@, offs2@);
        lemma_build_arcs(edges@, directed, n as int, psrc@, ptgt@, pid@, prev, fwd_pos, rev_pos, qsrc@, order1@, order2@, rsrc@, rtgt@, offs2@);
    }
    let csr = CsrAdjacency::from_parts(offs2, rtgt, weighted);
    proof {
        let rows = csr@;
        if !directed {
            assert forall|u: int, v: int| #[trigger] has_arc(rows, u, v) implies has_arc(rows, v, u) by {
                let (kk, rev) = choose|kk: int, rev: bool| 0 <= kk < edges@.len() && has_slot(edges@[kk], directed, rev) && #[trigger] slot_pair(edges@[kk], rev) == (u as u64, v as u64);
                if u != v {
                    assert(slot_pair(edges@[kk], !rev) == (v as u64, u as u64));
                    assert(edge_arc(edges@, directed, v, u));
                }
            }
            assert(reverses(csr, csr));
        }
        assert(graph_parts_valid(directed, csr, None));
        lemma_loop_count_bounded(rows, n as int);
        lemma_loop_count_matches(edges@, directed, rows);
        assert(!directed ==> total + loop_count(rows, n as int) == 2 * edges@.len());
    }
    let graph = Graph::try_new(directed, csr, None)?;
    proof {
        use_type_invariant(&graph);
        assert(graph.spec_outgoing().spec_targets().len() == total);
        assert(directed ==> total == edges@.len());
        lemma_loop_count_matches(edges@, directed, csr@);
        assert(graph.spec_edge_count() == edges@.len());
        assert(graph.spec_n() == n);
        lemma_slot_edges_valid(edges@, directed, graph.spec_outgoing(), rid@);
        assert forall|x: int| 0 <= x < total implies #[trigger] rid@[x] < edges@.len() && slot_of_edge(
            edges@[rid@[x] as int],
            directed,
            row_index(graph.spec_outgoing().spec_offsets(), x, n as int) as u64,
            graph.spec_outgoing().spec_targets()[x],
        ) by {
            let i = order1@[order2@[x] as int] as int;
            assert(slot_pair(edges@[pid@[i] as int], prev[i]) == (rsrc@[x], rtgt@[x]));
        }
    }
    Ok((graph, rid))
}

/// Build sorted simple CSR, rejecting duplicate logical edges.
pub fn from_edges(n: usize, directed: bool, weighted: bool, edges: &[Edge]) -> (r: Result<Graph, Error>)
    ensures
        !endpoints_in_range(edges@, n as int) ==> r matches Err(Error::InvalidGraph(_)),
        endpoints_in_range(edges@, n as int) && !simple_edges(edges@, directed) ==> r matches Err(
            Error::InvalidGraph(_),
        ),
        endpoints_in_range(edges@, n as int) && simple_edges(edges@, directed) && n == usize::MAX ==> r matches Err(
            Error::Overflow,
        ),
        endpoints_in_range(edges@, n as int) && n < usize::MAX && simple_edges(edges@, directed) ==> (r is Ok || (r matches Err(Error::Overflow)
            && !directed && 2 * edges@.len() > usize::MAX)),
        r matches Ok(g) ==> {
            &&& g.spec_directed() == directed
            &&& g.spec_outgoing().spec_weighted() == weighted
            &&& g.spec_n() == n
            &&& g.spec_incoming() is None
            &&& g.spec_slot_edges() is None
            &&& forall|u: int, v: int| #[trigger] has_arc(g.spec_outgoing()@, u, v) <==> edge_arc(edges@, directed, u, v)
            &&& g.spec_edge_count() == edges@.len()
            &&& g.spec_loop_count() == loop_edges(edges@, edges@.len() as int)
        },
{
    let (graph, _ids) = build(n, directed, weighted, edges)?;
    Ok(graph)
}

} // verus!
