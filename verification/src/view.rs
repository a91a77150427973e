//! Immutable node-induced selections with explicit compact materialization.
use crate::builder::{
    build, edge_arc, has_slot, lemma_arc_slot, lemma_loop_vertices, lemma_row_slots_differ, loop_vertices, simple_edges,
    slot_of_edge, slot_pair, Edge,
};
use crate::csr::{CsrAdjacency, NodeId};
use crate::error::Error;
use crate::graph::{graph_parts_valid, loop_count, mirror_of, opt_view, properties_valid, reverses, Graph};
use crate::topology::{has_arc, rows_of, search_sorted, strictly_increasing};
use crate::transpose::{lemma_row_index, lemma_row_index_bounds, monotone, row_index};
use vstd::prelude::*;

verus! {

broadcast use vstd::seq_lib::to_multiset_contains;

/// Sort ascending (`slice::sort_unstable`): the same values, in nondecreasing order.
#[verifier::external_body]
fn sort_ascending(v: &mut Vec<u64>)
    ensures
        final(v)@.to_multiset() == old(v)@.to_multiset(),
        forall|i: int, j: int| 0 <= i <= j < final(v)@.len() ==> final(v)@[i] <= final(v)@[j],
{
    v.sort_unstable();
}

/// The first entry of `s` that is not a vertex below `n`, if any.
pub open spec fn first_out_of_range(s: Seq<u64>, n: int) -> Option<u64>
    decreases s.len(),
{
    if s.len() == 0 {
        None
    } else if s[0] >= n {
        Some(s[0])
    } else {
        first_out_of_range(s.drop_first(), n)
    }
}

/// Some entry of `s` before index `k` equals `w`.
pub open spec fn in_prefix(s: Seq<u64>, k: int, w: u64) -> bool {
    exists|q: int| 0 <= q < k && #[trigger] s[q] == w
}

/// A compact graph with the associations that let callers carry weights and property rows over.
#[derive(Debug)]
pub struct Materialized {
    /// The compact graph, with property row counts and slot mapping attached as in the base.
    pub graph: Graph,
    /// The compact logical edges, in canonical (source, target) order.
    pub edges: Vec<Edge>,
    /// For each compact outgoing slot, the compact logical edge that stored it.
    pub slot_edges: Vec<u64>,
    /// For each compact logical edge, the base outgoing slot it came from.
    pub edge_base_slots: Vec<usize>,
    /// For each compact logical edge, its base edge-property row, when the base maps slots to rows.
    pub property_rows: Option<Vec<u64>>,
}

/// Slot `t` of `out` lies in the row of vertex `u`.
pub open spec fn slot_in_row(out: CsrAdjacency, t: int, u: int) -> bool {
    0 <= u < out.spec_n() && out.spec_offsets()[u] <= t < out.spec_offsets()[u + 1]
}

/// The edges collected so far are the induced arcs of the finished rows and of the scanned
/// prefix (slots below `s`) of row `u`.
pub open spec fn collected(
    out: CsrAdjacency,
    directed: bool,
    members: Seq<u64>,
    edges: Seq<Edge>,
    base_slots: Seq<usize>,
    u: int,
    s: int,
) -> bool {
    &&& edges.len() == base_slots.len()
    &&& forall|e: int| 0 <= e < edges.len() ==> {
        &&& #[trigger] edges[e].source < members.len()
        &&& edges[e].target < members.len()
        &&& (directed || edges[e].source <= edges[e].target)
        &&& slot_in_row(out, base_slots[e] as int, members[edges[e].source as int] as int)
        &&& out.spec_targets()[base_slots[e] as int] == members[edges[e].target as int]
    }
    &&& forall|e: int, f: int| 0 <= e < f < edges.len() ==> #[trigger] base_slots[e] < #[trigger] base_slots[f]
    &&& forall|a: int, t: int|
        #![trigger members[a], out.spec_targets()[t]]
        0 <= a < members.len() && 0 <= t < out.spec_targets().len() && (a < u || (a == u && t < s))
            && slot_in_row(out, t, members[a] as int) && members.contains(out.spec_targets()[t])
            && (directed || a <= index_in(members, out.spec_targets()[t]))
            ==> exists|e: int| 0 <= e < edges.len() && #[trigger] base_slots[e] == t
}

/// The position of `v` in `members`.
pub open spec fn index_in(members: Seq<u64>, v: u64) -> int {
    choose|i: int| 0 <= i < members.len() && members[i] == v
}

/// A strictly increasing sequence of naturals is at least its index.
proof fn lemma_members_grow(members: Seq<u64>, i: int)
    requires
        strictly_increasing(members),
        0 <= i < members.len(),
    ensures
        members[i] >= i,
    decreases i,
{
    if i > 0 {
        lemma_members_grow(members, i - 1);
        assert(members[i - 1] < members[i]);
    }
}

/// The collected edges form a simple graph: each comes from its own base slot, distinct
/// slots hold distinct arcs, and undirected edges are collected in one orientation only.
proof fn lemma_collected_simple(
    out: CsrAdjacency,
    directed: bool,
    members: Seq<u64>,
    edges: Seq<Edge>,
    base_slots: Seq<usize>,
)
    requires
        out.valid(),
        strictly_increasing(members),
        collected(out, directed, members, edges, base_slots, members.len() as int, 0),
    ensures
        simple_edges(edges, directed),
{
    let offs = out.spec_offsets();
    let tgts = out.spec_targets();
    let n = out.spec_n();
    assert(monotone(offs));
    assert forall|j: int, k: int, a: bool, b: bool|
        0 <= j < edges.len() && 0 <= k < edges.len() && (j != k || a != b) && has_slot(edges[j], directed, a)
            && has_slot(edges[k], directed, b) implies #[trigger] slot_pair(edges[j], a) != #[trigger] slot_pair(edges[k], b) by {
        if slot_pair(edges[j], a) == slot_pair(edges[k], b) {
            let ej = edges[j];
            let ek = edges[k];
            if a == b {
                assert(ej.source == ek.source && ej.target == ek.target);
                let sj = base_slots[j] as int;
                let sk = base_slots[k] as int;
                if j < k {
                    assert(base_slots[j] < base_slots[k]);
                } else {
                    assert(base_slots[k] < base_slots[j]);
                }
                let u = members[ej.source as int] as int;
                assert(slot_in_row(out, sj, u) && slot_in_row(out, sk, u));
                assert(offs[u + 1] <= offs[n]);
                lemma_row_index(offs, n, sj, u);
                lemma_row_index(offs, n, sk, u);
                assert(tgts[sj] == tgts[sk]);
                lemma_row_slots_differ(offs, tgts, n, sj, sk);
            } else {
                assert(ej.source <= ej.target && ek.source <= ek.target);
            }
        }
    }
}

/// The base vertex a collected edge starts from.
spec fn edge_from(members: Seq<u64>, edges: Seq<Edge>, e: int) -> int {
    members[edges[e].source as int] as int
}

/// The base vertex a collected edge ends at.
spec fn edge_to(members: Seq<u64>, edges: Seq<Edge>, e: int) -> int {
    members[edges[e].target as int] as int
}

/// A base slot holding the reverse of collected edge `e`.
spec fn reverse_slot(out: CsrAdjacency, members: Seq<u64>, edges: Seq<Edge>, e: int) -> int {
    choose|t: int|
        0 <= t < out.spec_targets().len() && out.spec_offsets()[edge_to(members, edges, e)] <= t
            < out.spec_offsets()[edge_to(members, edges, e) + 1] && out.spec_targets()[t] == edge_from(members, edges, e)
}

/// The slot that collected edge `x` owns, then (for `x >= m`) the reverse slot of edge
/// `x - m`, or past the slots the vertex of a self-loop.
spec fn edge_token(out: CsrAdjacency, members: Seq<u64>, edges: Seq<Edge>, base_slots: Seq<usize>, x: int) -> int {
    let m = edges.len() as int;
    if x < m {
        base_slots[x] as int
    } else if edge_from(members, edges, x - m) != edge_to(members, edges, x - m) {
        reverse_slot(out, members, edges, x - m)
    } else {
        out.spec_targets().len() + edge_from(members, edges, x - m)
    }
}

/// Where collected undirected edge `e` lies in the base, and its reverse slot.
proof fn lemma_edge_slots(out: CsrAdjacency, members: Seq<u64>, edges: Seq<Edge>, base_slots: Seq<usize>, e: int)
    requires
        out.valid(),
        reverses(out, out),
        strictly_increasing(members),
        collected(out, false, members, edges, base_slots, members.len() as int, 0),
        0 <= e < edges.len(),
    ensures
        0 <= base_slots[e] < out.spec_targets().len(),
        row_index(out.spec_offsets(), base_slots[e] as int, out.spec_n()) == edge_from(members, edges, e),
        out.spec_targets()[base_slots[e] as int] == edge_to(members, edges, e),
        0 <= edge_from(members, edges, e) <= edge_to(members, edges, e) < out.spec_n(),
        edge_from(members, edges, e) == edge_to(members, edges, e) ==> loop_vertices(out@, out.spec_n()).contains(
            edge_from(members, edges, e),
        ),
        edge_from(members, edges, e) != edge_to(members, edges, e) ==> {
            let t = reverse_slot(out, members, edges, e);
            &&& 0 <= t < out.spec_targets().len()
            &&& row_index(out.spec_offsets(), t, out.spec_n()) == edge_to(members, edges, e)
            &&& out.spec_targets()[t] == edge_from(members, edges, e)
        },
{
    let offs = out.spec_offsets();
    let tgts = out.spec_targets();
    let n = out.spec_n();
    assert(monotone(offs));
    let u = edge_from(members, edges, e);
    let v = edge_to(members, edges, e);
    let b = base_slots[e] as int;
    assert(slot_in_row(out, b, u));
    assert(offs[u + 1] <= offs[n]);
    lemma_row_index(offs, n, b, u);
    if edges[e].source < edges[e].target {
        assert(members[edges[e].source as int] < members[edges[e].target as int]);
    }
    assert(tgts[b] < n);
    out.lemma_row_bounds(u);
    assert(out@[u][b - offs[u]] == tgts[b]);
    assert(has_arc(out@, u, v));
    if u == v {
        assert(out@[u].contains(u as u64));
    } else {
        assert(has_arc(out@, v, u));
        assert(out@ == rows_of(offs, tgts));
        let t0 = lemma_arc_slot(offs, tgts, n, v, u);
        let t = reverse_slot(out, members, edges, e);
        assert(0 <= t < tgts.len() && offs[v] <= t < offs[v + 1] && tgts[t] == u);
        lemma_row_index(offs, n, t, v);
    }
}

/// Twice the number of collected undirected edges is at most the base's slots plus its
/// self-loops: each edge owns its slot and, unless it is a loop, the reverse slot.
proof fn lemma_collected_count(out: CsrAdjacency, members: Seq<u64>, edges: Seq<Edge>, base_slots: Seq<usize>)
    requires
        out.valid(),
        reverses(out, out),
        strictly_increasing(members),
        collected(out, false, members, edges, base_slots, members.len() as int, 0),
    ensures
        2 * edges.len() <= out.spec_targets().len() + loop_count(out@, out.spec_n()),
{
    let offs = out.spec_offsets();
    let tgts = out.spec_targets();
    let n = out.spec_n();
    let slots = tgts.len() as int;
    let m = edges.len() as int;
    let f = |x: int| edge_token(out, members, edges, base_slots, x);
    let dom = vstd::set_lib::set_int_range(0, 2 * m);
    let loops = loop_vertices(out@, n);
    let high = loops.map(|u: int| slots + u);
    let target = vstd::set_lib::set_int_range(0, slots) + high;
    assert forall|x1: int, x2: int| dom.contains(x1) && dom.contains(x2) && #[trigger] f(x1) == #[trigger] f(x2) implies x1
        == x2 by {
        let e1 = if x1 < m { x1 } else { x1 - m };
        let e2 = if x2 < m { x2 } else { x2 - m };
        lemma_edge_slots(out, members, edges, base_slots, e1);
        lemma_edge_slots(out, members, edges, base_slots, e2);
        let b1 = base_slots[e1] as int;
        let b2 = base_slots[e2] as int;
        if x1 != x2 {
            if x1 < m && x2 < m {
                if x1 < x2 {
                    assert(base_slots[x1] < base_slots[x2]);
                } else {
                    assert(base_slots[x2] < base_slots[x1]);
                }
            } else if x1 < m || x2 < m {
                // an owned slot never holds the reverse of an edge, whose target is below its row
                let (own, other) = if x1 < m { (e1, e2) } else { (e2, e1) };
                if edge_from(members, edges, other) != edge_to(members, edges, other) {
                    assert(edge_from(members, edges, own) <= edge_to(members, edges, own));
                }
            } else {
                let l1 = edge_from(members, edges, e1) == edge_to(members, edges, e1);
                let l2 = edge_from(members, edges, e2) == edge_to(members, edges, e2);
                if !l1 && !l2 {
                    assert(edge_from(members, edges, e1) == edge_from(members, edges, e2));
                    assert(edge_to(members, edges, e1) == edge_to(members, edges, e2));
                    if b1 != b2 {
                        lemma_row_slots_differ(offs, tgts, n, b1, b2);
                    }
                    if e1 < e2 {
                        assert(base_slots[e1] < base_slots[e2]);
                    } else if e2 < e1 {
                        assert(base_slots[e2] < base_slots[e1]);
                    }
                } else if l1 && l2 {
                    if b1 != b2 {
                        lemma_row_slots_differ(offs, tgts, n, b1, b2);
                    }
                    if e1 < e2 {
                        assert(base_slots[e1] < base_slots[e2]);
                    } else if e2 < e1 {
                        assert(base_slots[e2] < base_slots[e1]);
                    }
                }
            }
        }
    }
    assert(vstd::relations::injective_on(f, dom));
    vstd::set_lib::lemma_int_range(0, 2 * m);
    vstd::set_lib::lemma_map_size(dom, dom.map(f), f);
    vstd::set_lib::lemma_int_range(0, slots);
    lemma_loop_vertices(out@, n);
    let g = |u: int| slots + u;
    assert(vstd::relations::injective_on(g, loops));
    vstd::set_lib::lemma_map_size(loops, high, g);
    assert(vstd::set_lib::set_int_range(0, slots).disjoint(high));
    vstd::set_lib::lemma_set_disjoint_lens(vstd::set_lib::set_int_range(0, slots), high);
    assert forall|y: int| dom.map(f).contains(y) implies target.contains(y) by {
        let x = choose|x: int| dom.contains(x) && f(x) == y;
        let e = if x < m { x } else { x - m };
        lemma_edge_slots(out, members, edges, base_slots, e);
        if x >= m && edge_from(members, edges, e) == edge_to(members, edges, e) {
            assert(loops.contains(edge_from(members, edges, e)));
            assert(high.contains(g(edge_from(members, edges, e))));
        }
    }
    assert(target.finite());
    vstd::set_lib::lemma_len_subset(dom.map(f), target);
    lemma_loop_vertices(out@, n);
}

/// The collected edges store exactly the induced arcs.
proof fn lemma_collected_arcs(
    out: CsrAdjacency,
    directed: bool,
    members: Seq<u64>,
    edges: Seq<Edge>,
    base_slots: Seq<usize>,
    a: int,
    b: int,
)
    requires
        out.valid(),
        strictly_increasing(members),
        forall|i: int| 0 <= i < members.len() ==> #[trigger] members[i] < out.spec_n(),
        collected(out, directed, members, edges, base_slots, members.len() as int, 0),
        !directed ==> reverses(out, out),
    ensures
        edge_arc(edges, directed, a, b) <==> 0 <= a < members.len() && 0 <= b < members.len()
            && has_arc(out@, members[a] as int, members[b] as int),
{
    let offs = out.spec_offsets();
    let n = out.spec_n();
    assert(monotone(offs));
    if edge_arc(edges, directed, a, b) {
        let (e, rev) = choose|e: int, rev: bool| 0 <= e < edges.len() && has_slot(edges[e], directed, rev) && #[trigger] slot_pair(edges[e], rev) == (a as u64, b as u64);
        let t = base_slots[e] as int;
        let src = edges[e].source as int;
        let tgt = edges[e].target as int;
        assert(slot_in_row(out, t, members[src] as int));
        out.lemma_row_bounds(members[src] as int);
        assert(out@[members[src] as int][t - offs[members[src] as int]] == members[tgt]);
        assert(has_arc(out@, members[src] as int, members[tgt] as int));
        if rev {
            assert(has_arc(out@, members[tgt] as int, members[src] as int));
        }
    }
    if 0 <= a < members.len() && 0 <= b < members.len() && has_arc(out@, members[a] as int, members[b] as int) {
        let (x, y) = if directed || a <= b { (a, b) } else { (b, a) };
        assert(has_arc(out@, members[x] as int, members[y] as int));
        let row = out@[members[x] as int];
        let q = choose|q: int| 0 <= q < row.len() && row[q] == members[y];
        out.lemma_row_bounds(members[x] as int);
        let t = offs[members[x] as int] + q;
        assert(out.spec_targets()[t] == members[y]);
        assert(members.contains(out.spec_targets()[t]));
        assert(index_in(members, members[y]) == y) by {
            let w = index_in(members, members[y]);
            if w < y {
                assert(members[w] < members[y]);
            } else if w > y {
                assert(members[y] < members[w]);
            }
        }
        assert(slot_in_row(out, t, members[x] as int));
        let e = choose|e: int| 0 <= e < edges.len() && #[trigger] base_slots[e] == t;
        let src = edges[e].source as int;
        let tgt = edges[e].target as int;
        lemma_row_index(offs, n, t, members[x] as int);
        lemma_row_index(offs, n, t, members[src] as int);
        if src < x {
            assert(members[src] < members[x]);
        } else if src > x {
            assert(members[x] < members[src]);
        }
        if tgt < y {
            assert(members[tgt] < members[y]);
        } else if tgt > y {
            assert(members[y] < members[tgt]);
        }
        if directed || a <= b {
            assert(slot_pair(edges[e], false) == (a as u64, b as u64));
        } else {
            assert(has_slot(edges[e], directed, true));
            assert(slot_pair(edges[e], true) == (a as u64, b as u64));
        }
    }
}

/// A fixed selection retaining its base; IDs are compact ranks in ascending base-ID order.
#[derive(Debug)]
pub struct InducedView {
    base: Graph,
    members: Vec<u64>,
}

impl InducedView {
    pub closed spec fn spec_base(&self) -> Graph {
        self.base
    }

    pub closed spec fn spec_members(&self) -> Seq<u64> {
        self.members@
    }

    /// Members are distinct base vertices in ascending order.
    #[verifier::type_invariant]
    pub open spec fn wf(&self) -> bool {
        &&& strictly_increasing(self.spec_members())
        &&& forall|i: int| 0 <= i < self.spec_members().len() ==> #[trigger] self.spec_members()[i] < self.spec_base().spec_n()
    }

    /// Create a selection. Repeated IDs are ignored; unknown IDs fail.
    pub fn new(base: Graph, members: Vec<u64>) -> (r: Result<Self, Error>)
        ensures
            first_out_of_range(members@, base.spec_n()) matches Some(bad) ==> (r matches Err(Error::InvalidNode(x)) && x == bad),
            first_out_of_range(members@, base.spec_n()) is None ==> (r matches Ok(view) && view.spec_base() == base
                && (forall|v: u64| #[trigger] view.spec_members().contains(v) <==> members@.contains(v))),
    {
        let n = base.node_count();
        proof {
            assert(members@.subrange(0, members@.len() as int) =~= members@);
        }
        let mut i: usize = 0;
        while i < members.len()
            invariant
                n == base.spec_n(),
                i <= members@.len(),
                first_out_of_range(members@, n as int) == first_out_of_range(members@.subrange(i as int, members@.len() as int), n as int),
                forall|k: int| 0 <= k < i ==> #[trigger] members@[k] < n,
            decreases members@.len() - i,
        {
            let ghost rest = members@.subrange(i as int, members@.len() as int);
            proof {
                assert(rest[0] == members@[i as int]);
                assert(rest.drop_first() =~= members@.subrange(i + 1, members@.len() as int));
            }
            if members[i] >= n as u64 {
                return Err(Error::InvalidNode(members[i]));
            }
            i += 1;
        }
        let ghost given = members@;
        let mut sorted = members;
        sort_ascending(&mut sorted);
        let mut unique: Vec<u64> = Vec::new();
        let mut k: usize = 0;
        while k < sorted.len()
            invariant
                n == base.spec_n(),
                k <= sorted@.len(),
                forall|a: int, b: int| 0 <= a <= b < sorted@.len() ==> sorted@[a] <= sorted@[b],
                strictly_increasing(unique@),
                unique@.len() > 0 <==> k > 0,
                k > 0 ==> unique@.last() == sorted@[k - 1],
                forall|v: u64| #[trigger] unique@.contains(v) <==> in_prefix(sorted@, k as int, v),
            decreases sorted@.len() - k,
        {
            let x = sorted[k];
            let ghost old_unique = unique@;
            proof {
                assert forall|w: u64| #[trigger] in_prefix(sorted@, k + 1, w) <==> in_prefix(sorted@, k as int, w) || w == x by {
                    if in_prefix(sorted@, k + 1, w) {
                        let q = choose|q: int| 0 <= q < k + 1 && sorted@[q] == w;
                        if q < k {
                            assert(in_prefix(sorted@, k as int, w));
                        }
                    }
                    if in_prefix(sorted@, k as int, w) {
                        let q = choose|q: int| 0 <= q < k && sorted@[q] == w;
                        assert(in_prefix(sorted@, k + 1, w));
                    }
                    if w == x {
                        assert(sorted@[k as int] == w);
                    }
                }
            }
            if unique.len() == 0 || unique[unique.len() - 1] != x {
                proof {
                    if k > 0 {
                        assert(sorted@[k - 1] <= x);
                    }
                }
                unique.push(x);
                proof {
                    assert forall|a: int, b: int| 0 <= a < b < unique@.len() implies unique@[a] < unique@[b] by {
                        if b < unique@.len() - 1 {
                            assert(old_unique[a] < old_unique[b]);
                        } else if a < old_unique.len() - 1 {
                            assert(old_unique[a] < old_unique.last());
                        }
                    }
                    assert forall|v: u64| #[trigger] unique@.contains(v) <==> in_prefix(sorted@, k + 1, v) by {
                        if unique@.contains(v) && v != x {
                            let j = choose|j: int| 0 <= j < unique@.len() && unique@[j] == v;
                            assert(old_unique[j] == v);
                            assert(old_unique.contains(v));
                        }
                        if in_prefix(sorted@, k as int, v) {
                            assert(old_unique.contains(v));
                            let j = choose|j: int| 0 <= j < old_unique.len() && old_unique[j] == v;
                            assert(unique@[j] == v);
                        }
                        if v == x {
                            assert(unique@[unique@.len() - 1] == v);
                        }
                    }
                }
            }
            k += 1;
        }
        proof {
            assert forall|v: u64| #[trigger] unique@.contains(v) <==> members@.contains(v) by {
                if in_prefix(sorted@, sorted@.len() as int, v) {
                    let q = choose|q: int| 0 <= q < sorted@.len() && sorted@[q] == v;
                    assert(sorted@.contains(v));
                }
                if sorted@.contains(v) {
                    let q = choose|q: int| 0 <= q < sorted@.len() && sorted@[q] == v;
                    assert(in_prefix(sorted@, sorted@.len() as int, v));
                }
                assert(sorted@.contains(v) <==> sorted@.to_multiset().count(v) > 0);
                assert(given.contains(v) <==> given.to_multiset().count(v) > 0);
            }
            assert forall|a: int| 0 <= a < unique@.len() implies #[trigger] unique@[a] < n by {
                assert(unique@.contains(unique@[a]));
                assert(members@.contains(unique@[a]));
                let q = choose|q: int| 0 <= q < members@.len() && members@[q] == unique@[a];
            }
        }
        Ok(InducedView { base, members: unique })
    }

    /// Build compact CSR with matching node and logical-edge property associations.
    pub fn materialize(&self) -> (r: Result<Materialized, Error>)
        ensures
            r is Ok,
            r matches Ok(mat) ==> {
                let g = mat.graph;
                let members = self.spec_members();
                let base = self.spec_base();
                &&& g.spec_n() == members.len()
                &&& g.spec_directed() == base.spec_directed()
                &&& g.spec_outgoing().spec_weighted() == base.spec_outgoing().spec_weighted()
                &&& g.spec_incoming() is None
                &&& forall|a: int, b: int| #[trigger] has_arc(g.spec_outgoing()@, a, b) <==> 0 <= a < members.len() && 0 <= b < members.len()
                    && has_arc(base.spec_outgoing()@, members[a] as int, members[b] as int)
                &&& mat.edge_base_slots@.len() == mat.edges@.len()
                &&& forall|e: int| 0 <= e < mat.edges@.len() ==> {
                    &&& #[trigger] mat.edges@[e].source < members.len()
                    &&& mat.edges@[e].target < members.len()
                    &&& slot_in_row(base.spec_outgoing(), mat.edge_base_slots@[e] as int, members[mat.edges@[e].source as int] as int)
                    &&& base.spec_outgoing().spec_targets()[mat.edge_base_slots@[e] as int] == members[mat.edges@[e].target as int]
                }
                &&& mat.slot_edges@.len() == g.spec_outgoing().spec_targets().len()
                &&& forall|p: int| 0 <= p < mat.slot_edges@.len() ==> #[trigger] mat.slot_edges@[p] < mat.edges@.len() && slot_of_edge(
                    mat.edges@[mat.slot_edges@[p] as int],
                    g.spec_directed(),
                    row_index(g.spec_outgoing().spec_offsets(), p, members.len() as int) as u64,
                    g.spec_outgoing().spec_targets()[p],
                )
                &&& g.spec_node_rows() == if base.spec_node_rows() is Some { Some(members.len() as usize) } else { None }
                &&& g.spec_edge_rows() == if base.spec_edge_rows() is Some { Some(mat.edges@.len() as usize) } else { None }
                &&& base.spec_edge_rows() is Some ==> g.spec_slot_edges() == Some(mat.slot_edges@)
                &&& base.spec_edge_rows() is None ==> g.spec_slot_edges() is None
                &&& match base.spec_slot_edges() {
                    Some(ids) => mat.property_rows matches Some(rows) && rows@.len() == mat.edges@.len()
                        && forall|e: int| 0 <= e < rows@.len() ==> #[trigger] rows@[e] == ids[mat.edge_base_slots@[e] as int],
                    None => mat.property_rows is None,
                }
            },
    {
        proof {
            use_type_invariant(self);
            use_type_invariant(&self.base);
        }
        let base = &self.base;
        let out: &CsrAdjacency = base.outgoing();
        proof {
            use_type_invariant(out);
        }
        let directed = base.is_directed();
        let n = out.node_count();
        let offsets = out.offsets();
        let targets = out.targets();
        let slots = out.slot_count();
        let base_ids = base.slot_edge_ids();
        let k = self.members.len();
        let ghost members = self.spec_members();
        let mut edges: Vec<Edge> = Vec::new();
        let mut base_slots: Vec<usize> = Vec::new();
        let mut property_rows: Vec<u64> = Vec::new();
        let mut u: usize = 0;
        while u < k
            invariant
                self.wf(),
                out.valid(),
                members == self.spec_members(),
                self.spec_base() == *base,
                *out == base.spec_outgoing(),
                directed == base.spec_directed(),
                n == out.spec_n(),
                offsets@ == out.spec_offsets(),
                targets@ == out.spec_targets(),
                slots == targets@.len(),
                k == members.len(),
                u <= k,
                collected(*out, directed, members, edges@, base_slots@, u as int, 0),
                u < k ==> forall|e: int| 0 <= e < base_slots@.len() ==> #[trigger] base_slots@[e] < offsets@[members[u as int] as int],
                match base_ids {
                    Some(ids) => property_rows@.len() == edges@.len() && forall|e: int| 0 <= e < edges@.len() ==> #[trigger] property_rows@[e] == ids@[base_slots@[e] as int],
                    None => true,
                },
                base_ids matches Some(ids) ==> ids@.len() == slots,
            decreases k - u,
        {
            let bu = self.members[u];
            proof {
                assert(self.spec_members()[u as int] < self.spec_base().spec_n());
                out.lemma_row_bounds(bu as int);
            }
            let start = offsets[bu as usize] as usize;
            let end = offsets[bu as usize + 1] as usize;
            let mut s = start;
            while s < end
                invariant
                    self.wf(),
                    out.valid(),
                    members == self.spec_members(),
                    directed == base.spec_directed(),
                    n == out.spec_n(),
                    offsets@ == out.spec_offsets(),
                    targets@ == out.spec_targets(),
                    slots == targets@.len(),
                    k == members.len(),
                    u < k,
                    bu == members[u as int],
                    bu < n,
                    start == offsets@[bu as int],
                    end == offsets@[bu + 1],
                    start <= s <= end <= slots,
                    collected(*out, directed, members, edges@, base_slots@, u as int, s as int),
                    forall|e: int| 0 <= e < base_slots@.len() ==> #[trigger] base_slots@[e] < s,
                    match base_ids {
                        Some(ids) => property_rows@.len() == edges@.len() && forall|e: int| 0 <= e < edges@.len() ==> #[trigger] property_rows@[e] == ids@[base_slots@[e] as int],
                        None => true,
                    },
                    base_ids matches Some(ids) ==> ids@.len() == slots,
                decreases end - s,
            {
                let bv = targets[s];
                let ghost old_edges = edges@;
                let ghost old_slots = base_slots@;
                let ghost old_rows = property_rows@;
                let rank = self.rank_of(bv);
                proof {
                    if let Some(v) = rank {
                        assert(index_in(members, bv) == v) by {
                            let w = index_in(members, bv);
                            assert(members.contains(bv));
                            if w < v as int {
                                assert(members[w] < members[v as int]);
                            } else if w > v as int {
                                assert(members[v as int] < members[w]);
                            }
                        }
                    }
                }
                if let Some(v) = rank {
                    if directed || v >= u {
                        edges.push(Edge { source: u as u64, target: v as u64 });
                        base_slots.push(s);
                        if let Some(ids) = base_ids {
                            property_rows.push(ids[s]);
                        }
                    }
                }
                proof {
                    let pushed = edges@.len() > old_edges.len();
                    assert(pushed ==> edges@ == old_edges.push(Edge { source: u as u64, target: rank->0 as u64 }));
                    assert(!pushed ==> edges@ == old_edges && base_slots@ == old_slots);
                    assert forall|e: int| 0 <= e < edges@.len() implies {
                        &&& #[trigger] edges@[e].source < members.len()
                        &&& edges@[e].target < members.len()
                        &&& (directed || edges@[e].source <= edges@[e].target)
                        &&& slot_in_row(*out, base_slots@[e] as int, members[edges@[e].source as int] as int)
                        &&& out.spec_targets()[base_slots@[e] as int] == members[edges@[e].target as int]
                    } by {
                        if e < old_edges.len() {
                            assert(edges@[e] == old_edges[e]);
                            assert(base_slots@[e] == old_slots[e]);
                        }
                    }
                    assert forall|e: int, f: int| 0 <= e < f < edges@.len() implies #[trigger] base_slots@[e] < #[trigger] base_slots@[f] by {
                        if f < old_slots.len() {
                            assert(old_slots[e] < old_slots[f]);
                        }
                    }
                    assert forall|a: int, t: int|
                        #![trigger members[a], out.spec_targets()[t]]
                        0 <= a < members.len() && 0 <= t < out.spec_targets().len() && (a < u || (a == u && t < s + 1))
                            && slot_in_row(*out, t, members[a] as int) && members.contains(out.spec_targets()[t])
                            && (directed || a <= index_in(members, out.spec_targets()[t]))
                            implies exists|e: int| 0 <= e < edges@.len() && #[trigger] base_slots@[e] == t by {
                        if a < u || t < s {
                            let e = choose|e: int| 0 <= e < old_edges.len() && #[trigger] old_slots[e] == t;
                            assert(base_slots@[e] == t);
                        } else {
                            assert(t == s);
                            assert(rank is Some);
                            assert(base_slots@[old_slots.len() as int] == t);
                        }
                    }
                    match base_ids {
                        Some(ids) => {
                            assert forall|e: int| 0 <= e < edges@.len() implies #[trigger] property_rows@[e] == ids@[base_slots@[e] as int] by {
                                if e < old_edges.len() {
                                    assert(property_rows@[e] == old_rows[e]);
                                }
                            }
                        },
                        None => {},
                    }
                }
                s += 1;
            }
            proof {
                if u + 1 < k {
                    assert(members[u as int] < members[u + 1]);
                    assert(self.spec_members()[u + 1] < self.spec_base().spec_n());
                    assert(offsets@[bu + 1] <= offsets@[members[u + 1] as int]);
                }
                assert forall|a: int, t: int|
                    #![trigger members[a], out.spec_targets()[t]]
                    0 <= a < members.len() && 0 <= t < out.spec_targets().len() && (a < u + 1 || (a == u + 1 && t < 0))
                        && slot_in_row(*out, t, members[a] as int) && members.contains(out.spec_targets()[t])
                        && (directed || a <= index_in(members, out.spec_targets()[t]))
                        implies exists|e: int| 0 <= e < edges@.len() && #[trigger] base_slots@[e] == t by {
                    if a == u {
                        assert(t < end);
                    }
                }
            }
            u += 1;
        }
        proof {
            assert(graph_parts_valid(directed, *out, base.spec_incoming()));
            if !directed {
                assert(mirror_of(directed, *out, base.spec_incoming()) == Some(*out));
            }
        }
        proof {
            if !directed {
                assert(mirror_of(directed, *out, base.spec_incoming()) == Some(*out));
                assert(reverses(*out, *out));
                lemma_collected_count(*out, members, edges@, base_slots@);
                assert(base.spec_edge_count() == (out.spec_targets().len() + base.spec_loop_count()) / 2);
                assert(2 * edges@.len() <= 2 * base.spec_edge_count() + 1);
                assert(edges@.len() <= base.spec_edge_count());
                assert(out.spec_targets().len() + base.spec_loop_count() <= usize::MAX);
            }
            lemma_collected_simple(*out, directed, members, edges@, base_slots@);
            out.lemma_sizes_fit();
            if k > n {
                assert(members[n as int] < n);
                assert forall|i: int| 0 <= i <= n implies #[trigger] members[i] >= i by {
                    lemma_members_grow(members, i);
                }
                assert(members[n as int] >= n);
            }
        }
        let (graph, rid) = build(k, directed, out.is_weighted(), edges.as_slice())?;
        proof {
            assert forall|a: int, b: int| #[trigger] has_arc(graph.spec_outgoing()@, a, b) <==> 0 <= a < members.len() && 0 <= b < members.len()
                && has_arc(out@, members[a] as int, members[b] as int) by {
                lemma_collected_arcs(*out, directed, members, edges@, base_slots@, a, b);
            }
        }
        let node_rows = match base.node_property_rows() {
            Some(_) => Some(k),
            None => None,
        };
        let (edge_rows, mapping) = match base.edge_property_rows() {
            Some(_) => (Some(edges.len()), Some(rid.clone())),
            None => (None, None),
        };
        proof {
            assert(properties_valid(graph, node_rows, edge_rows, opt_view(mapping)));
        }
        let graph = graph.with_properties(node_rows, edge_rows, mapping)?;
        let property_rows = match base_ids {
            Some(_) => Some(property_rows),
            None => None,
        };
        Ok(Materialized { graph, edges, slot_edges: rid, edge_base_slots: base_slots, property_rows })
    }

    /// Mapping from compact IDs to base IDs.
    pub fn members(&self) -> (r: &[u64])
        ensures
            r@ == self.spec_members(),
    {
        self.members.as_slice()
    }

    /// Retained base snapshot.
    pub fn base(&self) -> (r: &Graph)
        ensures
            *r == self.spec_base(),
    {
        &self.base
    }

    /// The compact rank of base vertex `v`, if it is a member.
    fn rank_of(&self, v: u64) -> (r: Option<usize>)
        ensures
            r matches Some(i) ==> i < self.spec_members().len() && self.spec_members()[i as int] == v,
            r is None ==> !self.spec_members().contains(v),
    {
        proof {
            use_type_invariant(self);
            assert(self.members@.subrange(0, self.members@.len() as int) =~= self.members@);
        }
        search_sorted(self.members.as_slice(), 0, self.members.len(), v)
    }

    /// Filter outgoing neighbors, returning compact IDs in ascending order. This scans the base row.
    pub fn neighbors(&self, u: NodeId) -> (r: Result<Vec<u64>, Error>)
        ensures
            u.0 >= self.spec_members().len() ==> (r matches Err(Error::InvalidNode(x)) && x == u.0),
            u.0 < self.spec_members().len() ==> (r matches Ok(row) && strictly_increasing(row@)
                && forall|i: int| #[trigger] row@.contains(i as u64) && 0 <= i <= u64::MAX <==> 0 <= i < self.spec_members().len()
                    && has_arc(self.spec_base().spec_outgoing()@, self.spec_members()[u.0 as int] as int, self.spec_members()[i] as int)),
    {
        proof {
            use_type_invariant(self);
        }
        if u.0 >= self.members.len() as u64 {
            return Err(Error::InvalidNode(u.0));
        }
        let base_u = self.members[u.0 as usize];
        let out: &CsrAdjacency = self.base.outgoing();
        let row = match out.neighbors(NodeId(base_u)) {
            Ok(row) => row,
            Err(e) => return Err(e),
        };
        proof {
            use_type_invariant(out);
            out.lemma_row_bounds(base_u as int);
            assert(strictly_increasing(row@));
        }
        let ghost members = self.spec_members();
        let ghost brow = out@[base_u as int];
        let mut result: Vec<u64> = Vec::new();
        let mut k: usize = 0;
        while k < row.len()
            invariant
                row@ == brow,
                strictly_increasing(brow),
                strictly_increasing(members),
                members == self.spec_members(),
                members.len() == self.members@.len(),
                k <= row@.len(),
                strictly_increasing(result@),
                forall|j: int| 0 <= j < result@.len() ==> #[trigger] result@[j] < members.len()
                    && in_prefix(brow, k as int, members[result@[j] as int]),
                forall|i: int| 0 <= i < members.len() && #[trigger] in_prefix(brow, k as int, members[i]) ==> result@.contains(i as u64),
                result@.len() > 0 && k < brow.len() ==> members[result@.last() as int] < brow[k as int],
            decreases row@.len() - k,
        {
            let v = row[k];
            let ghost old_result = result@;
            proof {
                assert forall|w: u64| #[trigger] in_prefix(brow, k + 1, w) <==> in_prefix(brow, k as int, w) || w == v by {
                    if in_prefix(brow, k + 1, w) {
                        let q = choose|q: int| 0 <= q < k + 1 && brow[q] == w;
                        if q < k {
                            assert(in_prefix(brow, k as int, w));
                        }
                    }
                    if in_prefix(brow, k as int, w) {
                        let q = choose|q: int| 0 <= q < k && brow[q] == w;
                        assert(in_prefix(brow, k + 1, w));
                    }
                    if w == v {
                        assert(brow[k as int] == w);
                    }
                }
            }
            if let Some(i) = self.rank_of(v) {
                proof {
                    if result@.len() > 0 {
                        let last = result@.last() as int;
                        if last >= i as int {
                            if last > i as int {
                                assert(members[i as int] < members[last]);
                            }
                        }
                    }
                }
                result.push(i as u64);
                proof {
                    assert forall|x: int, y: int| 0 <= x < y < result@.len() implies result@[x] < result@[y] by {
                        if y < result@.len() - 1 {
                            assert(old_result[x] < old_result[y]);
                        }
                    }
                    assert forall|i2: int| 0 <= i2 < members.len() && #[trigger] in_prefix(brow, k + 1, members[i2]) implies result@.contains(i2 as u64) by {
                        if in_prefix(brow, k as int, members[i2]) {
                            assert(old_result.contains(i2 as u64));
                            let j = choose|j: int| 0 <= j < old_result.len() && old_result[j] == i2 as u64;
                            assert(result@[j] == i2 as u64);
                        } else {
                            if i2 < i as int {
                                assert(members[i2] < members[i as int]);
                            } else if i2 > i as int {
                                assert(members[i as int] < members[i2]);
                            }
                            assert(result@[result@.len() - 1] == i2 as u64);
                        }
                    }
                }
            } else {
                proof {
                    assert forall|i2: int| 0 <= i2 < members.len() && #[trigger] in_prefix(brow, k + 1, members[i2]) implies result@.contains(i2 as u64) by {
                        if !in_prefix(brow, k as int, members[i2]) {
                            assert(members[i2] == v);
                            assert(members.contains(v));
                        }
                    }
                }
            }
            proof {
                if k + 1 < brow.len() {
                    assert(brow[k as int] < brow[k + 1]);
                }
            }
            k += 1;
        }
        proof {
            assert forall|i: int| #[trigger] result@.contains(i as u64) && 0 <= i <= u64::MAX <==> 0 <= i < members.len()
                && has_arc(out@, members[u.0 as int] as int, members[i] as int) by {
                if result@.contains(i as u64) && 0 <= i <= u64::MAX {
                    let j = choose|j: int| 0 <= j < result@.len() && result@[j] == i as u64;
                    let q = choose|q: int| 0 <= q < brow.len() && brow[q] == members[result@[j] as int];
                    assert(brow.contains(members[i]));
                }
                if 0 <= i < members.len() && has_arc(out@, members[u.0 as int] as int, members[i] as int) {
                    let q = choose|q: int| 0 <= q < brow.len() && brow[q] == members[i];
                    assert(in_prefix(brow, brow.len() as int, members[i]));
                }
            }
        }
        Ok(result)
    }
}

} // verus!
