//! Packed adjacency projected once from a validated endpoint list, and the kernels over it.
//! Row order follows edge order; parallel edges remain separate slots.
use crate::buckets::{
    bucket_offsets, bucket_order, count_below, keys_below, lemma_buckets_disjoint,
    lemma_count_below_all, lemma_count_below_monotone, lemma_count_below_zero,
    lemma_position_in_bucket, position,
};
use crate::components::{union_find_labels, weak_component_labels};
use crate::error::Error;
use crate::execution::ExecutionContext;
use crate::strong::{kosaraju_labels, strong_component_labels};
use crate::topology::{has_arc, is_transpose, row_of, rows_of, topology_valid};
use crate::text::{text_chars, text_from_chars};
use crate::traversal::{hop_distances, hop_search};
use vstd::prelude::*;

verus! {

/// Some edge runs from `u` to `v`.
pub open spec fn endpoint_arc(ends: Seq<(usize, usize)>, u: int, v: int) -> bool {
    exists|e: int| #![trigger ends[e]] 0 <= e < ends.len() && ends[e].0 == u && ends[e].1 == v
}

/// Every endpoint names one of `n` vertices.
pub open spec fn endpoints_below(ends: Seq<(usize, usize)>, n: int) -> bool {
    forall|e: int| #![trigger ends[e]] 0 <= e < ends.len() ==> ends[e].0 < n && ends[e].1 < n
}

/// Source of every edge.
pub open spec fn sources_of(ends: Seq<(usize, usize)>) -> Seq<u64> {
    Seq::new(ends.len(), |e: int| ends[e].0 as u64)
}

/// Target of every edge.
pub open spec fn targets_of(ends: Seq<(usize, usize)>) -> Seq<u64> {
    Seq::new(ends.len(), |e: int| ends[e].1 as u64)
}

/// Rows that hold `vals[e]` in bucket `keys[e]`, bucket by bucket and in edge order within a
/// bucket; `edges[p]` is the edge stored in slot `p`.
pub open spec fn grouped(keys: Seq<u64>, vals: Seq<u64>, offsets: Seq<u64>, targets: Seq<u64>, edges: Seq<usize>) -> bool {
    &&& targets.len() == keys.len()
    &&& edges.len() == keys.len()
    &&& forall|v: int| 0 <= v < offsets.len() ==> #[trigger] offsets[v] == count_below(keys, v)
    &&& forall|p: int|
        0 <= p < edges.len() ==> #[trigger] edges[p] < keys.len() && position(keys, edges[p] as int) == p
            && targets[p] == vals[edges[p] as int]
}

/// Immutable packed adjacency: CSR rows, plus the edge that each slot came from.
#[derive(Debug)]
pub struct Adjacency {
    offsets: Vec<u64>,
    targets: Vec<u64>,
    edges: Vec<usize>,
}

impl View for Adjacency {
    type V = Seq<Seq<u64>>;

    /// The neighbors of each vertex, in row order.
    open spec fn view(&self) -> Seq<Seq<u64>> {
        rows_of(self.spec_offsets(), self.spec_targets())
    }
}

impl Adjacency {
    /// Row boundaries into the slot array.
    pub closed spec fn spec_offsets(&self) -> Seq<u64> {
        self.offsets@
    }

    /// Neighbor stored in each slot.
    pub closed spec fn spec_targets(&self) -> Seq<u64> {
        self.targets@
    }

    /// Edge that each slot came from.
    pub closed spec fn spec_edges(&self) -> Seq<usize> {
        self.edges@
    }

    /// Offsets and targets form a CSR topology with one edge per slot.
    #[verifier::type_invariant]
    pub open spec fn valid(&self) -> bool {
        &&& topology_valid(self.spec_offsets(), self.spec_targets())
        &&& self.spec_edges().len() == self.spec_targets().len()
    }

    /// Number of vertices.
    pub fn node_count(&self) -> (r: usize)
        ensures
            r == self@.len(),
    {
        proof {
            use_type_invariant(self);
        }
        self.offsets.len() - 1
    }

    /// CSR offsets.
    pub fn offsets(&self) -> (r: &[u64])
        ensures
            r@ == self.spec_offsets(),
    {
        self.offsets.as_slice()
    }

    /// Neighbor IDs, slot by slot.
    pub fn targets(&self) -> (r: &[u64])
        ensures
            r@ == self.spec_targets(),
    {
        self.targets.as_slice()
    }

    /// The edge, as an index into the endpoint list, behind each slot.
    pub fn slot_edges(&self) -> (r: &[usize])
        ensures
            r@ == self.spec_edges(),
    {
        self.edges.as_slice()
    }

    /// Slot range of vertex `u`.
    pub fn range(&self, u: usize) -> (r: std::ops::Range<usize>)
        requires
            u < self@.len(),
        ensures
            r.start == self.spec_offsets()[u as int],
            r.end == self.spec_offsets()[u + 1],
    {
        proof {
            use_type_invariant(self);
            let last = self.spec_offsets().len() - 1;
            assert(self.spec_offsets()[u as int] <= self.spec_offsets()[u + 1] <= self.spec_offsets()[last]);
            assert(self.spec_offsets()[last] == self.spec_offsets().last());
        }
        let slots = self.targets.len();
        let rows = self.offsets.len();
        self.offsets[u] as usize..self.offsets[u + 1] as usize
    }

    /// Neighbors of vertex `u`.
    pub fn neighbors(&self, u: usize) -> (r: &[u64])
        requires
            u < self@.len(),
        ensures
            r@ == self@[u as int],
    {
        proof {
            use_type_invariant(self);
        }
        crate::topology::row_slice(self.offsets.as_slice(), self.targets.as_slice(), u)
    }

    /// Build both orientations together from the endpoint list. Prefix sums retain edge order.
    pub fn pair(n: usize, endpoints: &[(usize, usize)]) -> (r: (Self, Self))
        requires
            n < usize::MAX,
            endpoints_below(endpoints@, n as int),
        ensures
            r.0@.len() == n && r.1@.len() == n,
            grouped(
                sources_of(endpoints@),
                targets_of(endpoints@),
                r.0.spec_offsets(),
                r.0.spec_targets(),
                r.0.spec_edges(),
            ),
            grouped(
                targets_of(endpoints@),
                sources_of(endpoints@),
                r.1.spec_offsets(),
                r.1.spec_targets(),
                r.1.spec_edges(),
            ),
            forall|u: int, v: int| has_arc(r.0@, u, v) <==> endpoint_arc(endpoints@, u, v),
            forall|u: int, v: int| has_arc(r.1@, v, u) <==> endpoint_arc(endpoints@, u, v),
            is_transpose(r.0@, r.1@),
    {
        let m = endpoints.len();
        let mut srcs: Vec<u64> = Vec::new();
        let mut tgts: Vec<u64> = Vec::new();
        let mut e: usize = 0;
        while e < m
            invariant
                m == endpoints@.len(),
                e <= m,
                srcs@.len() == e,
                tgts@.len() == e,
                forall|i: int| 0 <= i < e ==> #[trigger] srcs@[i] == endpoints@[i].0 as u64,
                forall|i: int| 0 <= i < e ==> #[trigger] tgts@[i] == endpoints@[i].1 as u64,
            decreases m - e,
        {
            let (u, v) = endpoints[e];
            srcs.push(u as u64);
            tgts.push(v as u64);
            e = e + 1;
        }
        proof {
            assert(srcs@ == sources_of(endpoints@));
            assert(tgts@ == targets_of(endpoints@));
            assert forall|i: int| 0 <= i < srcs@.len() implies #[trigger] srcs@[i] < n by {
                assert(endpoints@[i].0 < n);
            }
            assert forall|i: int| 0 <= i < tgts@.len() implies #[trigger] tgts@[i] < n by {
                assert(endpoints@[i].1 < n);
            }
        }
        let out = Self::grouping(n, srcs.as_slice(), tgts.as_slice());
        let inc = Self::grouping(n, tgts.as_slice(), srcs.as_slice());
        proof {
            let ends = endpoints@;
            assert forall|u: int, v: int| has_arc(out@, u, v) <==> endpoint_arc(ends, u, v) by {
                if has_arc(out@, u, v) {
                    let e = choose|e: int| 0 <= e < srcs@.len() && srcs@[e] == u && tgts@[e] == v;
                    assert(ends[e].0 == u && ends[e].1 == v);
                }
                if endpoint_arc(ends, u, v) {
                    let e = choose|e: int| #![trigger ends[e]] 0 <= e < ends.len() && ends[e].0 == u && ends[e].1 == v;
                    assert(srcs@[e] == u && tgts@[e] == v);
                }
            }
            assert forall|u: int, v: int| has_arc(inc@, v, u) <==> endpoint_arc(ends, u, v) by {
                if has_arc(inc@, v, u) {
                    let e = choose|e: int| 0 <= e < tgts@.len() && tgts@[e] == v && srcs@[e] == u;
                    assert(ends[e].0 == u && ends[e].1 == v);
                }
                if endpoint_arc(ends, u, v) {
                    let e = choose|e: int| #![trigger ends[e]] 0 <= e < ends.len() && ends[e].0 == u && ends[e].1 == v;
                    assert(tgts@[e] == v && srcs@[e] == u);
                }
            }
        }
        (out, inc)
    }

    /// Rows holding `vals[e]` under `keys[e]`, in edge order within each row.
    fn grouping(n: usize, keys: &[u64], vals: &[u64]) -> (r: Self)
        requires
            n < usize::MAX,
            keys_below(keys@, n as int),
            keys@.len() == vals@.len(),
            keys_below(vals@, n as int),
        ensures
            r@.len() == n,
            grouped(keys@, vals@, r.spec_offsets(), r.spec_targets(), r.spec_edges()),
            forall|u: int, v: int|
                has_arc(r@, u, v) <==> exists|e: int| 0 <= e < keys@.len() && keys@[e] == u && vals@[e] == v,
    {
        let m = keys.len();
        let offsets = match bucket_offsets(n, keys, None) {
            Ok(o) => o,
            Err(_) => Vec::new(),
        };
        let order = match bucket_order(n, keys, offsets.as_slice(), None) {
            Ok(o) => o,
            Err(_) => Vec::new(),
        };
        let mut targets: Vec<u64> = Vec::new();
        let mut p: usize = 0;
        while p < m
            invariant
                m == keys@.len(),
                m == vals@.len(),
                order@.len() == m,
                forall|q: int| 0 <= q < m ==> #[trigger] order@[q] < m,
                p <= m,
                targets@.len() == p,
                forall|q: int| 0 <= q < p ==> #[trigger] targets@[q] == vals@[order@[q] as int],
            decreases m - p,
        {
            targets.push(vals[order[p]]);
            p += 1;
        }
        proof {
            lemma_count_below_zero(keys@);
            lemma_count_below_all(keys@, n as int);
            assert forall|i: int, j: int| 0 <= i <= j < offsets@.len() implies offsets@[i] <= offsets@[j] by {
                lemma_count_below_monotone(keys@, i, j);
            }
            assert(offsets@.last() == offsets@[n as int]);
            assert forall|s: int| 0 <= s < targets@.len() implies targets@[s] < n by {
                assert(vals@[order@[s] as int] < n);
            }
            assert(topology_valid(offsets@, targets@));
        }
        let r = Adjacency { offsets, targets, edges: order };
        proof {
            let rows = r@;
            let o = offsets@;
            assert forall|u: int, v: int|
                has_arc(rows, u, v) <==> exists|e: int| 0 <= e < keys@.len() && keys@[e] == u && vals@[e] == v by {
                if has_arc(rows, u, v) {
                    let row = rows[u];
                    assert(row == row_of(o, r.targets@, u));
                    let k = choose|k: int| 0 <= k < row.len() && row[k] == v as u64;
                    lemma_count_below_monotone(keys@, u, u + 1);
                    lemma_count_below_monotone(keys@, u + 1, n as int);
                    let q = o[u] + k;
                    let e = order@[q] as int;
                    lemma_position_in_bucket(keys@, e);
                    if keys@[e] != u {
                        lemma_buckets_disjoint(keys@, u, keys@[e] as int, q);
                    }
                    assert(keys@[e] == u && vals@[e] == v);
                }
                if exists|e: int| 0 <= e < keys@.len() && keys@[e] == u && vals@[e] == v {
                    let e = choose|e: int| 0 <= e < keys@.len() && keys@[e] == u && vals@[e] == v;
                    let q = position(keys@, e);
                    lemma_position_in_bucket(keys@, e);
                    assert(order@[q] == e);
                    lemma_count_below_monotone(keys@, u + 1, n as int);
                    let row = rows[u];
                    assert(row == row_of(o, r.targets@, u));
                    assert(row[q - o[u]] == v as u64);
                }
            }
        }
        r
    }
}

/// An analytics graph over packed adjacency in both directions.
#[derive(Debug)]
pub struct GrustcatGraph {
    nodes: usize,
    outgoing: Adjacency,
    incoming: Adjacency,
    negative_weights: bool,
}

impl GrustcatGraph {
    /// Outgoing rows.
    pub closed spec fn spec_outgoing(&self) -> Adjacency {
        self.outgoing
    }

    /// Incoming rows.
    pub closed spec fn spec_incoming(&self) -> Adjacency {
        self.incoming
    }

    /// Whether some edge weight is negative.
    pub closed spec fn spec_negative_weights(&self) -> bool {
        self.negative_weights
    }

    /// Both directions describe the same vertices, one the transpose of the other.
    #[verifier::type_invariant]
    pub open spec fn wf(&self) -> bool {
        &&& self.spec_outgoing()@.len() == self.spec_incoming()@.len()
        &&& is_transpose(self.spec_outgoing()@, self.spec_incoming()@)
    }

    /// Build the packed projection of `n` vertices and the validated edge endpoints;
    /// `negative_weights` records whether the chosen weights include a negative one.
    pub fn new(n: usize, endpoints: &[(usize, usize)], negative_weights: bool) -> (r: Self)
        requires
            n < usize::MAX,
            endpoints_below(endpoints@, n as int),
        ensures
            r.spec_outgoing()@.len() == n,
            r.spec_negative_weights() == negative_weights,
            grouped(
                sources_of(endpoints@),
                targets_of(endpoints@),
                r.spec_outgoing().spec_offsets(),
                r.spec_outgoing().spec_targets(),
                r.spec_outgoing().spec_edges(),
            ),
            grouped(
                targets_of(endpoints@),
                sources_of(endpoints@),
                r.spec_incoming().spec_offsets(),
                r.spec_incoming().spec_targets(),
                r.spec_incoming().spec_edges(),
            ),
            forall|u: int, v: int| has_arc(r.spec_outgoing()@, u, v) <==> endpoint_arc(endpoints@, u, v),
    {
        let (outgoing, incoming) = Adjacency::pair(n, endpoints);
        GrustcatGraph { nodes: n, outgoing, incoming, negative_weights }
    }

    /// Number of vertices.
    pub fn node_count(&self) -> (r: usize)
        ensures
            r == self.spec_outgoing()@.len(),
    {
        self.outgoing.node_count()
    }

    /// Outgoing rows.
    pub fn outgoing(&self) -> (r: &Adjacency)
        ensures
            *r == self.spec_outgoing(),
    {
        &self.outgoing
    }

    /// Incoming rows.
    pub fn incoming(&self) -> (r: &Adjacency)
        ensures
            *r == self.spec_incoming(),
    {
        &self.incoming
    }

    /// Whether some edge weight is negative.
    pub fn has_negative_weights(&self) -> (r: bool)
        ensures
            r == self.spec_negative_weights(),
    {
        self.negative_weights
    }

    /// Refuse a source outside the vertex range.
    pub fn check_source(&self, source: usize) -> (r: Result<(), Error>)
        ensures
            source < self.spec_outgoing()@.len() <==> r is Ok,
            r is Err ==> r == Err::<(), Error>(Error::InvalidNode(source as u64)),
    {
        if source >= self.node_count() {
            Err(Error::InvalidNode(source as u64))
        } else {
            Ok(())
        }
    }

    /// Unweighted hop distances from `source`; unreachable vertices get `None`.
    pub fn bfs(&self, source: usize, ctx: &ExecutionContext) -> (r: Result<Vec<Option<u64>>, Error>)
        ensures
            r matches Ok(d) ==> source < self.spec_outgoing()@.len() && hop_distances(
                self.spec_outgoing()@,
                source as int,
                d@,
            ),
            r matches Err(e) ==> e == Error::Cancelled || (e == Error::InvalidNode(source as u64) && source
                >= self.spec_outgoing()@.len()),
    {
        if let Err(e) = ctx.check() {
            return Err(e);
        }
        if let Err(e) = self.check_source(source) {
            return Err(e);
        }
        proof {
            use_type_invariant(&self.outgoing);
        }
        hop_search(self.outgoing.offsets(), self.outgoing.targets(), source as u64, ctx)
    }

    /// Weak components, labelled by their smallest vertex.
    pub fn weakly_connected_components(&self, ctx: &ExecutionContext) -> (r: Result<Vec<u64>, Error>)
        ensures
            r matches Ok(labels) ==> weak_component_labels(self.spec_outgoing()@, labels@),
            r matches Err(e) ==> e == Error::Cancelled,
    {
        if let Err(e) = ctx.check() {
            return Err(e);
        }
        proof {
            use_type_invariant(&self.outgoing);
        }
        union_find_labels(self.outgoing.offsets(), self.outgoing.targets(), ctx)
    }

    /// Strong components, labelled by their smallest vertex.
    pub fn strongly_connected_components(&self, ctx: &ExecutionContext) -> (r: Result<Vec<u64>, Error>)
        ensures
            r matches Ok(labels) ==> strong_component_labels(self.spec_outgoing()@, labels@),
            r matches Err(e) ==> e == Error::Cancelled,
    {
        if let Err(e) = ctx.check() {
            return Err(e);
        }
        proof {
            use_type_invariant(self);
            use_type_invariant(&self.outgoing);
            use_type_invariant(&self.incoming);
        }
        kosaraju_labels(
            self.outgoing.offsets(),
            self.outgoing.targets(),
            self.incoming.offsets(),
            self.incoming.targets(),
            ctx,
        )
    }
}

/// The edge-table column of the shared Arrow layout that holds the Grust edge property
/// `property`: its name behind the `property.` prefix.
pub fn property_column(property: &str) -> (r: String)
    ensures
        r@ == "property."@ + property@,
{
    let mut chars = text_chars("property.");
    let rest = text_chars(property);
    let ghost prefix = chars@;
    let mut i: usize = 0;
    while i < rest.len()
        invariant
            i <= rest@.len(),
            chars@ == prefix + rest@.subrange(0, i as int),
        decreases rest@.len() - i,
    {
        chars.push(rest[i]);
        i = i + 1;
    }
    proof {
        assert(rest@.subrange(0, rest@.len() as int) == rest@);
    }
    text_from_chars(chars)
}

} // verus!
