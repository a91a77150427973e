//! Immutable validated graphs: outgoing CSR, optional incoming CSR and logical-edge counts.
use crate::csr::{CsrAdjacency, NodeId};
use crate::error::Error;
use crate::execution::{share, Reservation, ExecutionContext};
use crate::execution::bytes_for;
use crate::topology::{has_arc, is_transpose};
use crate::transpose::{lemma_row_index, lemma_row_index_bounds, monotone, row_index, slot_sources, transpose};
use std::sync::Arc;
use vstd::prelude::*;

verus! {

/// The number of vertices below `k` whose row holds a self-loop.
pub open spec fn loop_count(rows: Seq<Seq<u64>>, k: int) -> nat
    decreases k,
{
    if k <= 0 {
        0
    } else {
        loop_count(rows, k - 1) + if rows[k - 1].contains((k - 1) as u64) { 1nat } else { 0nat }
    }
}

/// `reverse` has the shape of `out` and holds the reversal of every arc of `out`.
pub open spec fn reverses(out: CsrAdjacency, reverse: CsrAdjacency) -> bool {
    &&& reverse.spec_n() == out.spec_n()
    &&& reverse.spec_targets().len() == out.spec_targets().len()
    &&& reverse.spec_weighted() == out.spec_weighted()
    &&& forall|u: int, v: int| #[trigger] has_arc(out@, u, v) ==> has_arc(reverse@, v, u)
}

/// The adjacency that must mirror `out`: itself when undirected, the supplied transpose when directed.
pub open spec fn mirror_of(directed: bool, out: CsrAdjacency, incoming: Option<CsrAdjacency>) -> Option<CsrAdjacency> {
    if directed { incoming } else { Some(out) }
}

/// Logical edges: one per slot when directed; reciprocal slots pair up and loops count once otherwise.
pub open spec fn logical_edges(directed: bool, slots: int, loops: int) -> int {
    if directed { slots } else { (slots + loops) / 2 }
}

/// Whether `try_new` accepts the parts.
pub open spec fn graph_parts_valid(directed: bool, out: CsrAdjacency, incoming: Option<CsrAdjacency>) -> bool {
    &&& (directed || incoming is None)
    &&& match mirror_of(directed, out, incoming) {
        Some(reverse) => reverses(out, reverse),
        None => true,
    }
}

/// Sorted with no repeated value (rows of a valid CSR).
pub open spec fn strictly_increasing_row(s: Seq<u64>) -> bool {
    forall|i: int, j: int| 0 <= i < j < s.len() ==> s[i] < s[j]
}

/// Whether slot `s` of `out` is the one that names its logical edge: every slot when
/// directed; the slot stored at the smaller endpoint when undirected.
pub open spec fn canonical_slot(directed: bool, out: CsrAdjacency, s: int) -> bool {
    directed || out.spec_targets()[s] >= row_index(out.spec_offsets(), s, out.spec_n())
}

/// The slot in the row of `out.spec_targets()[s]` that points back at the row of `s`.
pub open spec fn is_reverse_slot(out: CsrAdjacency, s: int, t: int) -> bool {
    let v = out.spec_targets()[s] as int;
    &&& 0 <= t < out.spec_targets().len()
    &&& out.spec_offsets()[v] <= t < out.spec_offsets()[v + 1]
    &&& out.spec_targets()[t] == row_index(out.spec_offsets(), s, out.spec_n())
}

/// Some canonical slot below `p` names logical edge `e`.
pub open spec fn names_edge(directed: bool, out: CsrAdjacency, ids: Seq<u64>, p: int, e: int) -> bool {
    exists|s: int| 0 <= s < p && canonical_slot(directed, out, s) && #[trigger] ids[s] == e
}

/// `ids` maps every slot of `out` to a logical edge row in `0..edges`: canonical slots name
/// distinct rows that together cover `0..edges`, and every other slot shares the row of its reverse.
pub open spec fn valid_slot_edges(directed: bool, out: CsrAdjacency, edges: int, ids: Seq<u64>) -> bool {
    &&& ids.len() == out.spec_targets().len()
    &&& forall|s: int| 0 <= s < ids.len() ==> #[trigger] ids[s] < edges
    &&& forall|s: int, t: int|
        0 <= s < t < ids.len() && canonical_slot(directed, out, s) && canonical_slot(directed, out, t)
            ==> #[trigger] ids[s] != #[trigger] ids[t]
    &&& forall|e: int| 0 <= e < edges ==> #[trigger] names_edge(directed, out, ids, ids.len() as int, e)
    &&& forall|s: int, t: int|
        0 <= s < ids.len() && !canonical_slot(directed, out, s) && #[trigger] is_reverse_slot(out, s, t)
            ==> ids[s] == ids[t]
}

/// The contents of an optional vector.
pub open spec fn opt_view(o: Option<Vec<u64>>) -> Option<Seq<u64>> {
    match o {
        Some(v) => Some(v@),
        None => None,
    }
}

/// Whether `with_properties` accepts the property shapes for `g`.
pub open spec fn properties_valid(g: Graph, node_rows: Option<usize>, edge_rows: Option<usize>, ids: Option<Seq<u64>>) -> bool {
    &&& node_rows matches Some(r) ==> r == g.spec_n()
    &&& edge_rows matches Some(r) ==> r == g.spec_edge_count()
    &&& edge_rows is Some ==> ids is Some
    &&& ids matches Some(ids) ==> valid_slot_edges(g.spec_directed(), g.spec_outgoing(), g.spec_edge_count(), ids)
}

#[derive(Debug)]
struct Snapshot {
    directed: bool,
    edges: usize,
    loops: usize,
    out: Arc<CsrAdjacency>,
    incoming: Option<Arc<CsrAdjacency>>,
    slot_edges: Option<Vec<u64>>,
    node_rows: Option<usize>,
    edge_rows: Option<usize>,
    reservations: Vec<Arc<Reservation>>,
}

/// The bytes a prepared incoming adjacency keeps: its offsets, and a target (and weight,
/// when weighted) per slot.
pub open spec fn incoming_bytes(g: Graph) -> int {
    (g.spec_n() + 1) * 8 + g.spec_outgoing().spec_targets().len() * if g.spec_outgoing().spec_weighted() {
        16int
    } else {
        8int
    }
}

/// An immutable graph. Clones share topology, property associations and reservations.
#[derive(Debug)]
pub struct Graph(Arc<Snapshot>);


impl Graph {
    pub closed spec fn spec_directed(&self) -> bool {
        self.0.directed
    }

    pub closed spec fn spec_outgoing(&self) -> CsrAdjacency {
        *self.0.out
    }

    pub closed spec fn spec_incoming(&self) -> Option<CsrAdjacency> {
        match self.0.incoming {
            Some(a) => Some(*a),
            None => None,
        }
    }

    pub closed spec fn spec_edge_count(&self) -> int {
        self.0.edges as int
    }

    pub closed spec fn spec_loop_count(&self) -> int {
        self.0.loops as int
    }

    pub closed spec fn spec_slot_edges(&self) -> Option<Seq<u64>> {
        match self.0.slot_edges {
            Some(ids) => Some(ids@),
            None => None,
        }
    }

    pub closed spec fn spec_node_rows(&self) -> Option<usize> {
        self.0.node_rows
    }

    pub closed spec fn spec_edge_rows(&self) -> Option<usize> {
        self.0.edge_rows
    }

    /// Vertex count.
    pub open spec fn spec_n(&self) -> int {
        self.spec_outgoing().spec_n()
    }

    /// The snapshot's topology is consistent with its counts.
    #[verifier::type_invariant]
    pub open spec fn wf(&self) -> bool {
        &&& graph_parts_valid(self.spec_directed(), self.spec_outgoing(), self.spec_incoming())
        &&& self.spec_loop_count() == loop_count(self.spec_outgoing()@, self.spec_n())
        &&& self.spec_edge_count() == logical_edges(
            self.spec_directed(),
            self.spec_outgoing().spec_targets().len() as int,
            self.spec_loop_count(),
        )
        &&& self.spec_slot_edges() matches Some(ids) ==> ids.len() == self.spec_outgoing().spec_targets().len()
        &&& self.spec_directed() || self.spec_outgoing().spec_targets().len() + self.spec_loop_count() <= usize::MAX
    }

    /// The stored counts are machine integers.
    pub proof fn lemma_counts_fit(&self)
        ensures
            self.spec_edge_count() <= usize::MAX,
            self.spec_loop_count() <= usize::MAX,
    {
    }

    /// Number of dense internal vertices.
    pub fn node_count(&self) -> (r: usize)
        ensures
            r == self.spec_n(),
    {
        self.0.out.node_count()
    }

    /// Number of logical edges, not adjacency slots.
    pub fn edge_count(&self) -> (r: usize)
        ensures
            r == self.spec_edge_count(),
    {
        self.0.edges
    }

    /// Number of self-loops.
    pub fn self_loop_count(&self) -> (r: usize)
        ensures
            r == self.spec_loop_count(),
    {
        self.0.loops
    }

    /// Whether edges are directed.
    pub fn is_directed(&self) -> (r: bool)
        ensures
            r == self.spec_directed(),
    {
        self.0.directed
    }

    /// Whether explicit weights exist, including for empty graphs.
    pub fn is_weighted(&self) -> (r: bool)
        ensures
            r == self.spec_outgoing().spec_weighted(),
    {
        self.0.out.is_weighted()
    }

    /// Outgoing topology.
    pub fn outgoing(&self) -> (r: &CsrAdjacency)
        ensures
            *r == self.spec_outgoing(),
    {
        &self.0.out
    }

    /// The incoming adjacency that algorithms can use: the outgoing one when undirected.
    pub open spec fn spec_usable_incoming(&self) -> Option<CsrAdjacency> {
        if self.spec_directed() { self.spec_incoming() } else { Some(self.spec_outgoing()) }
    }

    /// Incoming topology, or a clear capability error instead of an empty neighborhood.
    pub fn incoming(&self) -> (r: Result<&CsrAdjacency, Error>)
        ensures
            self.spec_usable_incoming() matches Some(a) ==> (r matches Ok(b) && *b == a),
            self.spec_usable_incoming() is None ==> r matches Err(Error::MissingIncoming),
    {
        if !self.0.directed {
            Ok(&self.0.out)
        } else {
            match &self.0.incoming {
                Some(a) => Ok(&**a),
                None => Err(Error::MissingIncoming),
            }
        }
    }

    /// Outgoing slot to logical edge property row mapping.
    pub fn slot_edge_ids(&self) -> (r: Option<&[u64]>)
        ensures
            match self.spec_slot_edges() {
                Some(ids) => r matches Some(x) && x@ == ids,
                None => r is None,
            },
    {
        match &self.0.slot_edges {
            Some(ids) => Some(ids.as_slice()),
            None => None,
        }
    }

    /// Rows of the attached node property table, if any.
    pub fn node_property_rows(&self) -> (r: Option<usize>)
        ensures
            r == self.spec_node_rows(),
    {
        self.0.node_rows
    }

    /// Rows of the attached edge property table, if any.
    pub fn edge_property_rows(&self) -> (r: Option<usize>)
        ensures
            r == self.spec_edge_rows(),
    {
        self.0.edge_rows
    }

    /// Check whether an edge exists; missing vertices are errors.
    pub fn has_edge(&self, u: NodeId, v: NodeId) -> (r: Result<bool, Error>)
        ensures
            v.0 >= self.spec_n() ==> (r matches Err(Error::InvalidNode(x)) && x == v.0),
            v.0 < self.spec_n() && u.0 >= self.spec_n() ==> (r matches Err(Error::InvalidNode(x)) && x == u.0),
            v.0 < self.spec_n() && u.0 < self.spec_n() ==> r == Ok::<bool, Error>(has_arc(self.spec_outgoing()@, u.0 as int, v.0 as int)),
    {
        let out: &CsrAdjacency = &self.0.out;
        out.range(v)?;
        let _ = out.neighbors(u)?;
        proof {
            use_type_invariant(out);
        }
        let _n = out.node_count();
        let found = out.slot(u.0 as usize, v.0);
        Ok(found.is_some())
    }

    /// Build incoming CSR once per returned handle, charging its retained and scratch buffers.
    /// A freshly built transpose comes with, for each incoming slot, the outgoing slot it mirrors.
    pub fn prepare_incoming(&self, ctx: &ExecutionContext) -> (r: Result<(Graph, Option<Vec<usize>>), Error>)
        ensures
            r matches Err(e) ==> e == Error::Cancelled || e == Error::Overflow || e is MemoryLimit,
            self.spec_usable_incoming() is Some ==> (r == Ok::<(Graph, Option<Vec<usize>>), Error>((*self, None))
                || r == Err::<(Graph, Option<Vec<usize>>), Error>(Error::Cancelled)),
            self.spec_usable_incoming() is None && incoming_bytes(*self) > usize::MAX ==> (r
                == Err::<(Graph, Option<Vec<usize>>), Error>(Error::Overflow) || r == Err::<
                (Graph, Option<Vec<usize>>),
                Error,
            >(Error::Cancelled)),
            self.spec_usable_incoming() is None && r is Ok ==> incoming_bytes(*self) <= ctx.limit() && self.spec_n()
                * 8 <= ctx.limit(),
            r matches Ok((g, order)) ==> {
                &&& self.spec_usable_incoming() is Some ==> g == *self && order is None
                &&& self.spec_usable_incoming() is None ==> {
                    &&& g.spec_directed()
                    &&& g.spec_outgoing() == self.spec_outgoing()
                    &&& g.spec_incoming() matches Some(inc) && is_transpose(self.spec_outgoing()@, inc@)
                        && (order matches Some(o) && o@.len() == inc.spec_targets().len()
                        && forall|p: int| 0 <= p < o@.len() ==> #[trigger] o@[p] < o@.len()
                        && inc.spec_targets()[p] == row_index(self.spec_outgoing().spec_offsets(), o@[p] as int, self.spec_n())
                        && self.spec_outgoing().spec_targets()[o@[p] as int] == row_index(inc.spec_offsets(), p, self.spec_n()))
                    &&& g.spec_edge_count() == self.spec_edge_count()
                    &&& g.spec_loop_count() == self.spec_loop_count()
                    &&& g.spec_slot_edges() == self.spec_slot_edges()
                    &&& g.spec_node_rows() == self.spec_node_rows()
                    &&& g.spec_edge_rows() == self.spec_edge_rows()
                }
            },
    {
        proof {
            use_type_invariant(self);
        }
        ctx.check()?;
        if self.incoming().is_ok() {
            return Ok((self.clone(), None));
        }
        let out: &CsrAdjacency = &self.0.out;
        let n = out.node_count();
        let a = out.slot_count();
        let n1 = match n.checked_add(1) {
            Some(x) => x,
            None => return Err(Error::Overflow),
        };
        let width: usize = if out.is_weighted() { 16 } else { 8 };
        proof {
            assert(n1 * 8 + a * width == incoming_bytes(*self)) by (nonlinear_arith)
                requires
                    n1 == self.spec_n() + 1,
                    a == self.spec_outgoing().spec_targets().len(),
                    width == if self.spec_outgoing().spec_weighted() { 16int } else { 8int },
                    incoming_bytes(*self) == (self.spec_n() + 1) * 8 + self.spec_outgoing().spec_targets().len() * if self.spec_outgoing().spec_weighted() {
                        16int
                    } else {
                        8int
                    },
            ;
        }
        let size = match bytes_for(n1, 8)?.checked_add(bytes_for(a, width)?) {
            Some(x) => x,
            None => return Err(Error::Overflow),
        };
        let reservation = Arc::new(ctx.reserve(size)?);
        let _scratch = ctx.reserve(bytes_for(n, 8)?)?;
        let (incoming, order) = transpose(out, ctx)?;
        let mut reservations = self.share_reservations();
        reservations.push(reservation);
        let slot_edges = match &self.0.slot_edges {
            Some(ids) => Some(ids.clone()),
            None => None,
        };
        proof {
            use_type_invariant(out);
            assert(self.spec_directed());
            assert(reverses(*out, incoming));
        }
        Ok(
            (
                Graph(
                    Arc::new(
                        Snapshot {
                            directed: true,
                            edges: self.0.edges,
                            loops: self.0.loops,
                            out: share(&self.0.out),
                            incoming: Some(Arc::new(incoming)),
                            slot_edges,
                            node_rows: self.0.node_rows,
                            edge_rows: self.0.edge_rows,
                            reservations,
                        },
                    ),
                ),
                Some(order),
            ),
        )
    }

    /// Attach property tables, given their row counts, after validating lengths and the
    /// slot-to-logical-edge association.
    pub fn with_properties(&self, node_rows: Option<usize>, edge_rows: Option<usize>, slot_edges: Option<Vec<u64>>) -> (r: Result<Self, Error>)
        ensures
            r is Ok <==> properties_valid(*self, node_rows, edge_rows, opt_view(slot_edges)),
            r is Err ==> r matches Err(Error::InvalidGraph(_)),
            r matches Ok(g) ==> {
                &&& g.spec_directed() == self.spec_directed()
                &&& g.spec_outgoing() == self.spec_outgoing()
                &&& g.spec_incoming() == self.spec_incoming()
                &&& g.spec_edge_count() == self.spec_edge_count()
                &&& g.spec_loop_count() == self.spec_loop_count()
                &&& g.spec_node_rows() == node_rows
                &&& g.spec_edge_rows() == edge_rows
                &&& g.spec_slot_edges() == opt_view(slot_edges)
            },
    {
        proof {
            use_type_invariant(self);
        }
        let n = self.node_count();
        let edges = self.0.edges;
        let bad_nodes = match node_rows { Some(r) => r != n, None => false };
        let bad_edges = match edge_rows { Some(r) => r != edges, None => false };
        if bad_nodes || bad_edges {
            return Err(Error::InvalidGraph("property row counts differ from graph".to_string()));
        }
        if edge_rows.is_some() && slot_edges.is_none() {
            return Err(Error::InvalidGraph("edge properties require slot mapping".to_string()));
        }
        if let Some(ids) = &slot_edges {
            let out: &CsrAdjacency = &self.0.out;
            proof {
                use_type_invariant(out);
                assert(opt_view(slot_edges) == Some(ids@));
            }
            let a = out.slot_count();
            if ids.len() != a {
                return Err(Error::InvalidGraph("invalid slot mapping shape".to_string()));
            }
            let targets = out.targets();
            let sources = slot_sources(out);
            let directed = self.0.directed;
            let ghost g = *self;
            let mut seen: Vec<bool> = vec![false; edges];
            let mut p: usize = 0;
            while p < a
                invariant
                    g == *self,
                    opt_view(slot_edges) == Some(ids@),
                    out == &self.0.out,
                    out.valid(),
                    g.wf(),
                    directed == g.spec_directed(),
                    edges == g.spec_edge_count(),
                    n == out.spec_n(),
                    a == out.spec_targets().len(),
                    targets@ == out.spec_targets(),
                    ids@.len() == a,
                    sources@.len() == a,
                    forall|s: int| 0 <= s < a ==> #[trigger] sources@[s] == row_index(out.spec_offsets(), s, n as int) && sources@[s] < n,
                    seen@.len() == edges,
                    p <= a,
                    forall|s: int| 0 <= s < p ==> #[trigger] ids@[s] < edges,
                    forall|s: int, t: int|
                        0 <= s < t < p && canonical_slot(directed, *out, s) && canonical_slot(directed, *out, t)
                            ==> #[trigger] ids@[s] != #[trigger] ids@[t],
                    forall|e: int| 0 <= e < edges ==> (#[trigger] seen@[e] <==> names_edge(directed, *out, ids@, p as int, e)),
                    forall|s: int, t: int|
                        0 <= s < p && !canonical_slot(directed, *out, s) && #[trigger] is_reverse_slot(*out, s, t)
                            ==> ids@[s] == ids@[t],
                decreases a - p,
            {
                let id = ids[p];
                if id >= edges as u64 {
                    proof {
                        assert(ids@[p as int] >= edges);
                    }
                    return Err(Error::InvalidGraph("edge mapping out of range".to_string()));
                }
                let u = sources[p];
                let v = targets[p];
                proof {
                    assert(monotone(out.spec_offsets()));
                    lemma_row_index_bounds(out.spec_offsets(), n as int, p as int);
                    out.lemma_row_bounds(u as int);
                    assert(out@[u as int][p - out.spec_offsets()[u as int]] == v);
                    assert(has_arc(out@, u as int, v as int));
                    assert(v < n);
                }
                if !directed && v < u {
                    proof {
                        assert(mirror_of(directed, *out, g.spec_incoming()) == Some(*out));
                        assert(has_arc(out@, v as int, u as int));
                    }
                    let reverse = match out.slot(v as usize, u) {
                        Some(t) => t,
                        None => {
                            proof {
                                assert(false);
                            }
                            return Err(Error::InvalidGraph("missing reciprocal edge".to_string()));
                        }
                    };
                    proof {
                        assert(is_reverse_slot(*out, p as int, reverse as int));
                        assert(!canonical_slot(directed, *out, p as int));
                        assert forall|t: int| #[trigger] is_reverse_slot(*out, p as int, t) implies t == reverse by {
                            out.lemma_row_bounds(v as int);
                            let row = out@[v as int];
                            let base = out.spec_offsets()[v as int];
                            assert(strictly_increasing_row(row));
                            if t < reverse {
                                assert(row[t - base] < row[reverse - base]);
                            } else if t > reverse {
                                assert(row[reverse - base] < row[t - base]);
                            }
                        }
                    }
                    if ids[reverse] != id {
                        return Err(Error::InvalidGraph("reciprocal edge property IDs differ".to_string()));
                    }
                    proof {
                        assert forall|e: int| 0 <= e < edges implies (#[trigger] seen@[e] <==> names_edge(directed, *out, ids@, p + 1, e)) by {
                            if names_edge(directed, *out, ids@, p + 1, e) {
                                let s0 = choose|s0: int| 0 <= s0 < p + 1 && canonical_slot(directed, *out, s0) && #[trigger] ids@[s0] == e;
                                assert(names_edge(directed, *out, ids@, p as int, e));
                            }
                            if names_edge(directed, *out, ids@, p as int, e) {
                                let s0 = choose|s0: int| 0 <= s0 < p && canonical_slot(directed, *out, s0) && #[trigger] ids@[s0] == e;
                                assert(names_edge(directed, *out, ids@, p + 1, e));
                            }
                        }
                    }
                } else {
                    proof {
                        assert(canonical_slot(directed, *out, p as int));
                    }
                    if seen[id as usize] {
                        proof {
                            let s0 = choose|s0: int| 0 <= s0 < p && canonical_slot(directed, *out, s0) && #[trigger] ids@[s0] == id;
                            assert(ids@[s0] == ids@[p as int]);
                        }
                        return Err(Error::InvalidGraph("logical edges share a property row".to_string()));
                    }
                    let ghost old_seen = seen@;
                    seen.set(id as usize, true);
                    proof {
                        assert forall|e: int| 0 <= e < edges implies (#[trigger] seen@[e] <==> names_edge(directed, *out, ids@, p + 1, e)) by {
                            if e == id {
                                assert(ids@[p as int] == e);
                                assert(names_edge(directed, *out, ids@, p + 1, e));
                            } else {
                                assert(seen@[e] == old_seen[e]);
                                if names_edge(directed, *out, ids@, p + 1, e) {
                                    let s0 = choose|s0: int| 0 <= s0 < p + 1 && canonical_slot(directed, *out, s0) && #[trigger] ids@[s0] == e;
                                    assert(names_edge(directed, *out, ids@, p as int, e));
                                }
                                if names_edge(directed, *out, ids@, p as int, e) {
                                    let s0 = choose|s0: int| 0 <= s0 < p && canonical_slot(directed, *out, s0) && #[trigger] ids@[s0] == e;
                                    assert(names_edge(directed, *out, ids@, p + 1, e));
                                }
                            }
                        }
                    }
                }
                p += 1;
            }
            let mut e: usize = 0;
            while e < edges
                invariant
                    seen@.len() == edges,
                    e <= edges,
                    forall|f: int| 0 <= f < e ==> #[trigger] seen@[f],
                    forall|f: int| 0 <= f < edges ==> (#[trigger] seen@[f] <==> names_edge(directed, *out, ids@, a as int, f)),
                    opt_view(slot_edges) == Some(ids@),
                    g == *self,
                    directed == g.spec_directed(),
                    edges == g.spec_edge_count(),
                    ids@.len() == a,
                    out == &self.0.out,
                    a == out.spec_targets().len(),
                    forall|s: int| 0 <= s < a ==> #[trigger] ids@[s] < edges,
                    forall|s: int, t: int|
                        0 <= s < t < a && canonical_slot(directed, *out, s) && canonical_slot(directed, *out, t)
                            ==> #[trigger] ids@[s] != #[trigger] ids@[t],
                    forall|s: int, t: int|
                        0 <= s < a && !canonical_slot(directed, *out, s) && #[trigger] is_reverse_slot(*out, s, t)
                            ==> ids@[s] == ids@[t],
                decreases edges - e,
            {
                if !seen[e] {
                    proof {
                        assert(!names_edge(directed, *out, ids@, a as int, e as int));
                    }
                    return Err(Error::InvalidGraph("unused edge property row".to_string()));
                }
                e += 1;
            }
            proof {
                assert forall|f: int| 0 <= f < edges implies #[trigger] names_edge(directed, *out, ids@, ids@.len() as int, f) by {
                    assert(seen@[f]);
                }
                assert(valid_slot_edges(directed, *out, edges as int, ids@));
            }
        }
        Ok(
            Graph(
                Arc::new(
                    Snapshot {
                        directed: self.0.directed,
                        edges: self.0.edges,
                        loops: self.0.loops,
                        out: share(&self.0.out),
                        incoming: match &self.0.incoming {
                            Some(a) => Some(share(a)),
                            None => None,
                        },
                        slot_edges,
                        node_rows,
                        edge_rows,
                        reservations: self.share_reservations(),
                    },
                ),
            ),
        )
    }

    /// Another owner of each reservation this snapshot keeps alive, in the same order.
    fn share_reservations(&self) -> (r: Vec<Arc<Reservation>>)
        ensures
            r@.len() == self.0.reservations@.len(),
            forall|k: int| 0 <= k < r@.len() ==> *#[trigger] r@[k] == *self.0.reservations@[k],
    {
        let mut reservations: Vec<Arc<Reservation>> = Vec::new();
        let mut i: usize = 0;
        while i < self.0.reservations.len()
            invariant
                i <= self.0.reservations.len(),
                reservations@.len() == i,
                forall|k: int| 0 <= k < i ==> *#[trigger] reservations@[k] == *self.0.reservations@[k],
            decreases self.0.reservations.len() - i,
        {
            reservations.push(share(&self.0.reservations[i]));
            i += 1;
        }
        reservations
    }

    /// Construct a graph; validate reciprocal undirected edges or a supplied transpose.
    pub fn try_new(directed: bool, out: CsrAdjacency, incoming: Option<CsrAdjacency>) -> (r: Result<Self, Error>)
        ensures
            !graph_parts_valid(directed, out, incoming) ==> r matches Err(Error::InvalidGraph(_)),
            graph_parts_valid(directed, out, incoming) ==> (r is Ok <==> logical_edges(
                directed,
                out.spec_targets().len() as int,
                loop_count(out@, out.spec_n()) as int,
            ) <= usize::MAX && (directed || out.spec_targets().len() + loop_count(out@, out.spec_n()) <= usize::MAX)),
            r is Err && graph_parts_valid(directed, out, incoming) ==> r matches Err(Error::Overflow),
            r matches Ok(g) ==> {
                &&& g.spec_directed() == directed
                &&& g.spec_outgoing() == out
                &&& g.spec_incoming() == incoming
                &&& g.spec_loop_count() == loop_count(out@, out.spec_n())
                &&& g.spec_slot_edges() is None
                &&& g.spec_node_rows() is None
                &&& g.spec_edge_rows() is None
            },
    {
        if !directed && incoming.is_some() {
            return Err(
                Error::InvalidGraph("undirected graphs share outgoing adjacency; omit incoming".to_string()),
            );
        }
        proof {
            use_type_invariant(&out);
        }
        let n = out.node_count();
        {
            let reverse = if directed {
                incoming.as_ref()
            } else {
                Some(&out)
            };
            if let Some(reverse) = reverse {
                proof {
                    use_type_invariant(reverse);
                }
                if reverse.node_count() != n || reverse.slot_count() != out.slot_count()
                    || reverse.is_weighted() != out.is_weighted() {
                    return Err(
                        Error::InvalidGraph("incoming adjacency shape or weightedness differs".to_string()),
                    );
                }
                let mut u: usize = 0;
                while u < n
                    invariant
                        out.valid(),
                        mirror_of(directed, out, incoming) == Some(*reverse),
                        n == out.spec_n(),
                        reverse.spec_n() == n,
                        u <= n,
                        forall|a: int, b: int| 0 <= a < u ==> #[trigger] has_arc(out@, a, b) ==> has_arc(reverse@, b, a),
                    decreases n - u,
                {
                    let row = out.neighbors(NodeId(u as u64)).unwrap();
                    proof {
                        out.lemma_row_bounds(u as int);
                        assert forall|j: int| 0 <= j < row@.len() implies #[trigger] row@[j] < n by {
                            assert(row@[j] == out.spec_targets()[out.spec_offsets()[u as int] + j]);
                        }
                    }
                    let mut k: usize = 0;
                    while k < row.len()
                        invariant
                            n == out.spec_n(),
                            mirror_of(directed, out, incoming) == Some(*reverse),
                            reverse.spec_n() == n,
                            u < n,
                            row@ == out@[u as int],
                            forall|j: int| 0 <= j < row@.len() ==> #[trigger] row@[j] < n,
                            k <= row@.len(),
                            forall|a: int, b: int| 0 <= a < u ==> #[trigger] has_arc(out@, a, b) ==> has_arc(reverse@, b, a),
                            forall|j: int| 0 <= j < k ==> has_arc(reverse@, #[trigger] row@[j] as int, u as int),
                        decreases row@.len() - k,
                    {
                        let v = row[k];
                        if reverse.slot(v as usize, u as u64).is_none() {
                            proof {
                                assert(out@[u as int][k as int] == v);
                                assert(has_arc(out@, u as int, v as int));
                                assert(!has_arc(reverse@, v as int, u as int));
                                assert(mirror_of(directed, out, incoming) == Some(*reverse));
                            }
                            return Err(Error::InvalidGraph("missing reciprocal/transpose edge".to_string()));
                        }
                        k += 1;
                    }
                    proof {
                        assert forall|a: int, b: int| 0 <= a < u + 1 && #[trigger] has_arc(out@, a, b) implies has_arc(reverse@, b, a) by {
                            if a == u {
                                let j = choose|j: int| 0 <= j < row@.len() && #[trigger] row@[j] == b as u64;
                                assert(has_arc(reverse@, row@[j] as int, u as int));
                            }
                        }
                    }
                    u += 1;
                }
            }
        }
        let mut loops: usize = 0;
        let mut u: usize = 0;
        while u < n
            invariant
                out.valid(),
                n == out.spec_n(),
                u <= n,
                loops == loop_count(out@, u as int),
                loops <= u,
            decreases n - u,
        {
            if out.slot(u, u as u64).is_some() {
                loops += 1;
            }
            u += 1;
        }
        let slots = out.slot_count();
        let edges = if directed {
            slots
        } else {
            match slots.checked_add(loops) {
                Some(total) => total / 2,
                None => return Err(Error::Overflow),
            }
        };
        Ok(
            Graph(
                Arc::new(
                    Snapshot {
                        directed,
                        edges,
                        loops,
                        out: Arc::new(out),
                        incoming: match incoming {
                            Some(a) => Some(Arc::new(a)),
                            None => None,
                        },
                        slot_edges: None,
                        node_rows: None,
                        edge_rows: None,
                        reservations: Vec::new(),
                    },
                ),
            ),
        )
    }
}



impl Clone for Graph {
    fn clone(&self) -> (r: Self)
        ensures
            r == *self,
    {
        proof {
            use_type_invariant(self);
        }
        Graph(share(&self.0))
    }
}

} // verus!
