//! Properties that relate several operations of the library.
use crate::builder::{edge_arc, has_slot, slot_pair, Edge};
use crate::cypher::{
    admission, aggregate_columns, aggregate_index, function_args, is_count_star, plan_columns, variable_columns, Algorithm,
    Clause, Expr, ProjectionItem, Query,
};
use crate::snapshot::known_section;
use crate::text::{folded, same_ignoring_case};
use crate::components::{finest, respects_arcs, weak_component_labels};
use crate::grustcat::endpoint_arc;
use crate::csr::{valid_csr, CsrAdjacency};
use crate::graph::{graph_parts_valid, logical_edges, loop_count, reverses, Graph};
use crate::strong::{arcs_in_range, strong_component_labels, strongly_connected};
use crate::topology::{has_arc, is_path, is_transpose, rows_of, strictly_increasing};
use crate::transpose::lemma_reverse_transposes;
use crate::traversal::{hop_distances, reachable, shortest_distance};
use vstd::prelude::*;

verus! {

/// An arc of `rows` in either direction.
pub open spec fn linked(rows: Seq<Seq<u64>>, u: int, v: int) -> bool {
    has_arc(rows, u, v) || has_arc(rows, v, u)
}

/// A walk from `u` to `v` that may follow arcs against their direction.
pub open spec fn is_walk(rows: Seq<Seq<u64>>, walk: Seq<int>, u: int, v: int) -> bool {
    &&& walk.len() >= 1
    &&& walk[0] == u
    &&& walk.last() == v
    &&& 0 <= u < rows.len()
    &&& forall|i: int| 0 <= i < walk.len() - 1 ==> linked(rows, #[trigger] walk[i], walk[i + 1])
}

/// `u` and `v` are joined by a walk that ignores arc directions.
pub open spec fn joined(rows: Seq<Seq<u64>>, u: int, v: int) -> bool {
    exists|walk: Seq<int>| #[trigger] is_walk(rows, walk, u, v)
}

proof fn lemma_joined_refl(rows: Seq<Seq<u64>>, x: int)
    requires
        0 <= x < rows.len(),
    ensures
        joined(rows, x, x),
{
    assert(is_walk(rows, seq![x], x, x));
}

proof fn lemma_joined_step(rows: Seq<Seq<u64>>, x: int, u: int, w: int)
    requires
        joined(rows, x, u),
        linked(rows, u, w),
    ensures
        joined(rows, x, w),
{
    let p = choose|p: Seq<int>| #[trigger] is_walk(rows, p, x, u);
    let q = p.push(w);
    assert forall|i: int| 0 <= i < q.len() - 1 implies linked(rows, #[trigger] q[i], q[i + 1]) by {
        if i < q.len() - 2 {
            assert(q[i] == p[i] && q[i + 1] == p[i + 1]);
        }
    }
    assert(is_walk(rows, q, x, w));
}

proof fn lemma_walk_labels(rows: Seq<Seq<u64>>, labels: Seq<u64>, x: int, y: int, p: Seq<int>)
    requires
        labels.len() == rows.len(),
        respects_arcs(rows, labels),
        is_walk(rows, p, x, y),
    ensures
        0 <= y < labels.len(),
        labels[x] == labels[y],
    decreases p.len(),
{
    if p.len() > 1 {
        let q = p.drop_last();
        let z = p[p.len() - 2];
        assert(is_walk(rows, q, x, z)) by {
            assert forall|i: int| 0 <= i < q.len() - 1 implies linked(rows, #[trigger] q[i], q[i + 1]) by {
                assert(linked(rows, p[i], p[i + 1]));
            }
        }
        lemma_walk_labels(rows, labels, x, z, q);
        assert(linked(rows, p[p.len() - 2], p[p.len() - 1]));
        if has_arc(rows, z, y) {
            assert(rows[z].contains(y as u64));
        } else {
            assert(rows[y].contains(z as u64));
        }
    }
}

/// Weak component labels are exactly undirected connectivity: two vertices share a label
/// if and only if a walk that ignores arc directions joins them.
pub proof fn law_weak_labels_are_connectivity(rows: Seq<Seq<u64>>, labels: Seq<u64>, x: int, y: int)
    requires
        arcs_in_range(rows),
        weak_component_labels(rows, labels),
        0 <= x < rows.len(),
        0 <= y < rows.len(),
    ensures
        labels[x] == labels[y] <==> joined(rows, x, y),
{
    if joined(rows, x, y) {
        let p = choose|p: Seq<int>| #[trigger] is_walk(rows, p, x, y);
        lemma_walk_labels(rows, labels, x, y, p);
    }
    if labels[x] == labels[y] {
        let n = rows.len();
        let m = Seq::new(n, |z: int| if joined(rows, x, z) { 0u64 } else { 1u64 });
        assert(respects_arcs(rows, m)) by {
            assert forall|u: int, w: u64| 0 <= u < rows.len() && #[trigger] rows[u].contains(w) implies w < m.len()
                && m[u] == m[w as int] by {
                assert(w < rows.len());
                assert(has_arc(rows, u, w as int));
                if joined(rows, x, u) {
                    lemma_joined_step(rows, x, u, w as int);
                }
                if joined(rows, x, w as int) {
                    assert(linked(rows, w as int, u));
                    lemma_joined_step(rows, x, w as int, u);
                }
            }
        }
        assert(finest(rows, labels));
        lemma_joined_refl(rows, x);
        assert(m[x] == 0);
        assert(m[x] == m[y]);
    }
}

/// The incoming adjacency of a graph (its outgoing one when undirected) is exactly the
/// transpose of the outgoing adjacency: `u -> v` is stored out of `u` exactly when `u` is
/// stored into `v`.
pub proof fn law_incoming_is_transpose(out: CsrAdjacency, incoming: CsrAdjacency)
    requires
        out.valid(),
        incoming.valid(),
        reverses(out, incoming),
    ensures
        is_transpose(out@, incoming@),
{
    assert(out@ == rows_of(out.spec_offsets(), out.spec_targets()));
    assert(incoming@ == rows_of(incoming.spec_offsets(), incoming.spec_targets()));
    assert forall|u: int, v: int| #[trigger] has_arc(rows_of(out.spec_offsets(), out.spec_targets()), u, v) implies has_arc(
        rows_of(incoming.spec_offsets(), incoming.spec_targets()),
        v,
        u,
    ) by {
        assert(has_arc(out@, u, v));
    }
    lemma_reverse_transposes(
        out.spec_offsets(),
        out.spec_targets(),
        incoming.spec_offsets(),
        incoming.spec_targets(),
        out.spec_n(),
    );
}

proof fn lemma_sorted_same(a: Seq<u64>, b: Seq<u64>)
    requires
        strictly_increasing(a),
        strictly_increasing(b),
        forall|x: u64| a.contains(x) <==> b.contains(x),
    ensures
        a == b,
    decreases a.len(),
{
    if a.len() == 0 {
        if b.len() > 0 {
            assert(b.contains(b[0]));
        }
    } else {
        assert(a.contains(a[0]));
        assert(b.contains(a[0]));
        assert(b.len() > 0);
        assert(b.contains(b[0]));
        assert(a.contains(b[0]));
        let i = choose|i: int| 0 <= i < a.len() && a[i] == b[0];
        let j = choose|j: int| 0 <= j < b.len() && b[j] == a[0];
        if i > 0 {
            assert(a[0] < a[i]);
        }
        if j > 0 {
            assert(b[0] < b[j]);
        }
        assert(a[0] == b[0]);
        let a1 = a.drop_first();
        let b1 = b.drop_first();
        assert forall|x: u64| a1.contains(x) <==> b1.contains(x) by {
            if a1.contains(x) {
                let k = choose|k: int| 0 <= k < a1.len() && a1[k] == x;
                assert(a[k + 1] == x);
                assert(a[0] < a[k + 1]);
                assert(b.contains(x));
                let l = choose|l: int| 0 <= l < b.len() && b[l] == x;
                assert(l != 0);
                assert(b1[l - 1] == x);
            }
            if b1.contains(x) {
                let k = choose|k: int| 0 <= k < b1.len() && b1[k] == x;
                assert(b[k + 1] == x);
                assert(b[0] < b[k + 1]);
                assert(a.contains(x));
                let l = choose|l: int| 0 <= l < a.len() && a[l] == x;
                assert(l != 0);
                assert(a1[l - 1] == x);
            }
        }
        lemma_sorted_same(a1, b1);
        assert(a == seq![a[0]] + a1);
        assert(b == seq![b[0]] + b1);
    }
}

/// An induced view and the compact graph it materializes agree row by row: the neighbors the
/// view reports for compact vertex `u` are exactly the compact graph's row `u`.
pub proof fn law_view_rows_match_materialized(
    base: CsrAdjacency,
    members: Seq<u64>,
    compact: CsrAdjacency,
    u: int,
    row: Seq<u64>,
)
    requires
        compact.valid(),
        compact.spec_n() == members.len(),
        forall|a: int, b: int| #[trigger] has_arc(compact@, a, b) <==> 0 <= a < members.len() && 0 <= b < members.len()
            && has_arc(base@, members[a] as int, members[b] as int),
        0 <= u < members.len(),
        strictly_increasing(row),
        forall|i: int| #[trigger] row.contains(i as u64) && 0 <= i <= u64::MAX <==> 0 <= i < members.len() && has_arc(
            base@,
            members[u] as int,
            members[i] as int,
        ),
    ensures
        compact@[u] == row,
{
    compact.lemma_row_bounds(u);
    let crow = compact@[u];
    assert(strictly_increasing(crow)) by {
        assert(crow == crate::topology::row_of(compact.spec_offsets(), compact.spec_targets(), u));
    }
    assert forall|x: u64| crow.contains(x) <==> row.contains(x) by {
        let i = x as int;
        assert((x as int) as u64 == x);
        if crow.contains(x) {
            assert(has_arc(compact@, u, i));
        }
        if row.contains(x) {
            assert(row.contains(i as u64) && 0 <= i <= u64::MAX);
            assert(has_arc(compact@, u, i));
        }
    }
    lemma_sorted_same(crow, row);
}

/// What a snapshot records of a graph is accepted when it is read back, and the graph rebuilt
/// from it has the recorded counts: each stored adjacency is a valid CSR over the graph's
/// vertices, the parts form a valid graph whose counts fit, and the self-loop and
/// logical-edge counts recomputed from the outgoing rows are the graph's own.
pub proof fn law_snapshot_topology_roundtrip(g: Graph)
    requires
        g.wf(),
        g.spec_outgoing().valid(),
        g.spec_incoming() matches Some(i) ==> i.valid(),
    ensures
        g.spec_n() < usize::MAX,
        valid_csr(g.spec_n(), g.spec_outgoing().spec_targets(), g.spec_outgoing().spec_offsets()),
        g.spec_incoming() matches Some(i) ==> valid_csr(g.spec_n(), i.spec_targets(), i.spec_offsets()),
        graph_parts_valid(g.spec_directed(), g.spec_outgoing(), g.spec_incoming()),
        loop_count(g.spec_outgoing()@, g.spec_n()) == g.spec_loop_count(),
        logical_edges(g.spec_directed(), g.spec_outgoing().spec_targets().len() as int, g.spec_loop_count())
            == g.spec_edge_count(),
        logical_edges(g.spec_directed(), g.spec_outgoing().spec_targets().len() as int, g.spec_loop_count())
            <= usize::MAX,
        g.spec_directed() || g.spec_outgoing().spec_targets().len() + g.spec_loop_count() <= usize::MAX,
{
    g.spec_outgoing().lemma_sizes_fit();
    if let Some(i) = g.spec_incoming() {
        assert(g.spec_directed());
        assert(reverses(g.spec_outgoing(), i));
    }
    assert(g.spec_edge_count() <= usize::MAX) by {
        g.lemma_counts_fit();
    }
}

/// The same arcs over the same vertices.
pub open spec fn same_arcs(a: Seq<Seq<u64>>, b: Seq<Seq<u64>>) -> bool {
    &&& a.len() == b.len()
    &&& forall|u: int, v: int| #[trigger] has_arc(a, u, v) <==> #[trigger] has_arc(b, u, v)
}

proof fn lemma_same_paths(a: Seq<Seq<u64>>, b: Seq<Seq<u64>>, p: Seq<int>, u: int, v: int)
    requires
        same_arcs(a, b),
    ensures
        is_path(a, p, u, v) <==> is_path(b, p, u, v),
{
    if is_path(a, p, u, v) {
        assert forall|i: int| 0 <= i < p.len() - 1 implies has_arc(b, #[trigger] p[i], p[i + 1]) by {
            assert(has_arc(a, p[i], p[i + 1]));
        }
    }
    if is_path(b, p, u, v) {
        assert forall|i: int| 0 <= i < p.len() - 1 implies has_arc(a, #[trigger] p[i], p[i + 1]) by {
            assert(has_arc(b, p[i], p[i + 1]));
        }
    }
}

proof fn lemma_same_reach(a: Seq<Seq<u64>>, b: Seq<Seq<u64>>, u: int, v: int)
    requires
        same_arcs(a, b),
    ensures
        reachable(a, u, v) <==> reachable(b, u, v),
{
    if reachable(a, u, v) {
        let p = choose|p: Seq<int>| #[trigger] is_path(a, p, u, v);
        lemma_same_paths(a, b, p, u, v);
    }
    if reachable(b, u, v) {
        let p = choose|p: Seq<int>| #[trigger] is_path(b, p, u, v);
        lemma_same_paths(a, b, p, u, v);
    }
}

/// Hop distances depend on the arcs alone: two adjacencies with the same arcs (such as a
/// packed Grust projection and a CSR graph of the same simple edges) give the same distances
/// from every source.
pub proof fn law_hop_distances_are_determined(
    a: Seq<Seq<u64>>,
    b: Seq<Seq<u64>>,
    s: int,
    da: Seq<Option<u64>>,
    db: Seq<Option<u64>>,
)
    requires
        same_arcs(a, b),
        hop_distances(a, s, da),
        hop_distances(b, s, db),
    ensures
        da == db,
{
    assert forall|v: int| 0 <= v < da.len() implies da[v] == db[v] by {
        lemma_same_reach(a, b, s, v);
        match (da[v], db[v]) {
            (Some(x), Some(y)) => {
                let pa = choose|p: Seq<int>| #[trigger] is_path(a, p, s, v) && p.len() == x + 1;
                let pb = choose|p: Seq<int>| #[trigger] is_path(b, p, s, v) && p.len() == y + 1;
                lemma_same_paths(a, b, pa, s, v);
                lemma_same_paths(a, b, pb, s, v);
                assert(shortest_distance(a, s, v, x as int));
                assert(shortest_distance(b, s, v, y as int));
                assert(pb.len() >= x + 1);
                assert(pa.len() >= y + 1);
            },
            (Some(x), None) => {
                let pa = choose|p: Seq<int>| #[trigger] is_path(a, p, s, v) && p.len() == x + 1;
                assert(reachable(a, s, v));
            },
            (None, Some(y)) => {
                let pb = choose|p: Seq<int>| #[trigger] is_path(b, p, s, v) && p.len() == y + 1;
                assert(reachable(b, s, v));
            },
            (None, None) => {},
        }
    }
    assert(da =~= db);
}

/// Weak component labels depend on the arcs alone: two adjacencies with the same arcs get
/// the same labels.
pub proof fn law_weak_labels_are_determined(a: Seq<Seq<u64>>, b: Seq<Seq<u64>>, la: Seq<u64>, lb: Seq<u64>)
    requires
        same_arcs(a, b),
        weak_component_labels(a, la),
        weak_component_labels(b, lb),
    ensures
        la == lb,
{
    assert(respects_arcs(a, lb)) by {
        assert forall|u: int, w: u64| 0 <= u < a.len() && #[trigger] a[u].contains(w) implies w < lb.len() && lb[u]
            == lb[w as int] by {
            assert(has_arc(a, u, w as int));
            assert(has_arc(b, u, w as int));
        }
    }
    assert(respects_arcs(b, la)) by {
        assert forall|u: int, w: u64| 0 <= u < b.len() && #[trigger] b[u].contains(w) implies w < la.len() && la[u]
            == la[w as int] by {
            assert(has_arc(b, u, w as int));
            assert(has_arc(a, u, w as int));
        }
    }
    assert forall|x: int| 0 <= x < la.len() implies la[x] == lb[x] by {
        let l1 = la[x] as int;
        let l2 = lb[x] as int;
        assert(la[l1] == la[x]);
        assert(lb[l2] == lb[x]);
        assert(lb[l1] == lb[x]) by {
            assert(respects_arcs(a, lb));
        }
        assert(la[l2] == la[x]) by {
            assert(respects_arcs(b, la));
        }
        assert(lb[l1] <= l1);
        assert(la[l2] <= l2);
    }
    assert(la =~= lb);
}

/// Strong component labels depend on the arcs alone: two adjacencies with the same arcs get
/// the same labels.
pub proof fn law_strong_labels_are_determined(a: Seq<Seq<u64>>, b: Seq<Seq<u64>>, la: Seq<u64>, lb: Seq<u64>)
    requires
        same_arcs(a, b),
        strong_component_labels(a, la),
        strong_component_labels(b, lb),
    ensures
        la == lb,
{
    assert forall|x: int| 0 <= x < la.len() implies la[x] == lb[x] by {
        let l1 = la[x] as int;
        let l2 = lb[x] as int;
        assert(la[l1] == la[x]);
        assert(lb[l2] == lb[x]);
        lemma_same_reach(a, b, l1, x);
        lemma_same_reach(a, b, x, l1);
        lemma_same_reach(a, b, l2, x);
        lemma_same_reach(a, b, x, l2);
        assert(strongly_connected(a, l1, x));
        assert(strongly_connected(b, l1, x));
        assert(lb[l1] == lb[x]);
        assert(strongly_connected(b, l2, x));
        assert(strongly_connected(a, l2, x));
        assert(la[l2] == la[x]);
        assert(lb[l1] <= l1);
        assert(la[l2] <= l2);
    }
    assert(la =~= lb);
}

/// A packed Grust projection and a directed CSR graph built from the same edge list store the
/// same arcs; with the laws above, their distances and component labels agree.
pub proof fn law_projection_arcs_match_edges(endpoints: Seq<(usize, usize)>, edges: Seq<Edge>, u: int, v: int)
    requires
        endpoints.len() == edges.len(),
        forall|i: int|
            0 <= i < edges.len() ==> #[trigger] endpoints[i].0 == edges[i].source && endpoints[i].1 == edges[i].target,
        0 <= u <= u64::MAX,
        0 <= v <= u64::MAX,
    ensures
        endpoint_arc(endpoints, u, v) <==> edge_arc(edges, true, u, v),
{
    if endpoint_arc(endpoints, u, v) {
        let e = choose|e: int| #![trigger endpoints[e]] 0 <= e < endpoints.len() && endpoints[e].0 == u && endpoints[e].1 == v;
        assert(has_slot(edges[e], true, false) && slot_pair(edges[e], false) == (u as u64, v as u64));
    }
    if edge_arc(edges, true, u, v) {
        let (e, rev) = choose|e: int, rev: bool|
            0 <= e < edges.len() && has_slot(edges[e], true, rev) && #[trigger] slot_pair(edges[e], rev) == (u as u64, v as u64);
        assert(!rev);
        assert(edges[e].source == u as u64 && edges[e].target == v as u64);
        assert(endpoints[e].0 == edges[e].source && endpoints[e].1 == edges[e].target);
        assert(endpoints[e].0 == u && endpoints[e].1 == v);
    }
}

/// Every section a snapshot writer can record passes the reader's name check: the outgoing
/// and incoming CSR sections, the node and edge property tables and the slot mapping.
pub proof fn law_written_sections_are_accepted()
    ensures
        known_section("out_offsets.arrow"@),
        known_section("out_arcs.arrow"@),
        known_section("in_offsets.arrow"@),
        known_section("in_arcs.arrow"@),
        known_section("nodes.arrow"@),
        known_section("edges.arrow"@),
        known_section("slot_edges.arrow"@),
{
}

/// Two characters that are equal, or the upper- and lower-case forms of one ASCII letter.
pub open spec fn ascii_case_variants(c: char, d: char) -> bool {
    ||| c == d
    ||| 'A' <= c <= 'Z' && d as u32 == c as u32 + 32
    ||| 'A' <= d <= 'Z' && c as u32 == d as u32 + 32
}

proof fn lemma_fold_variants(c: char, d: char)
    ensures
        folded(c) == folded(d) <==> ascii_case_variants(c, d),
{
    assert(c as u32 == d as u32 ==> c == d);
}

/// Names match ignoring case exactly when they have the same length and each position holds
/// the same character or the two cases of one ASCII letter (`A`..`Z` with `a`..`z`); no other
/// character is folded.
pub proof fn law_case_insensitive_match(a: Seq<char>, b: Seq<char>)
    ensures
        same_ignoring_case(a, b) <==> a.len() == b.len() && forall|i: int|
            0 <= i < a.len() ==> #[trigger] ascii_case_variants(a[i], b[i]),
{
    if same_ignoring_case(a, b) {
        assert forall|i: int| 0 <= i < a.len() implies #[trigger] ascii_case_variants(a[i], b[i]) by {
            assert(folded(a[i]) == folded(b[i]));
            lemma_fold_variants(a[i], b[i]);
        }
    }
    if a.len() == b.len() && forall|i: int| 0 <= i < a.len() ==> #[trigger] ascii_case_variants(a[i], b[i]) {
        assert forall|i: int| 0 <= i < a.len() implies #[trigger] folded(a[i]) == folded(b[i]) by {
            assert(ascii_case_variants(a[i], b[i]));
            lemma_fold_variants(a[i], b[i]);
        }
    }
}

/// Every upper-case ASCII letter matches its lower-case letter.
pub proof fn law_upper_case_letters_fold()
    ensures
        forall|c: char| 'A' <= c <= 'Z' ==> #[trigger] same_ignoring_case(seq![c], seq![(c as u32 + 32) as char]),
{
    assert forall|c: char| 'A' <= c <= 'Z' implies #[trigger] same_ignoring_case(seq![c], seq![(c as u32 + 32) as char]) by {
        let d = (c as u32 + 32) as char;
        assert(d as u32 == c as u32 + 32);
        law_case_insensitive_match(seq![c], seq![d]);
        assert(ascii_case_variants(seq![c][0], seq![d][0]));
    }
}

/// `count(*)`, or a call of `sum` on one argument; neither with DISTINCT.
pub open spec fn plain_aggregate(e: Expr) -> bool {
    match e {
        Expr::Function { name, distinct, star, args } => {
            &&& !distinct
            &&& star ==> same_ignoring_case(name@, "count"@) && args.len() == 0
            &&& !star ==> same_ignoring_case(name@, "sum"@) && args.len() == 1
        },
        _ => false,
    }
}

proof fn lemma_variable_items(bs: Seq<(String, usize)>, items: Seq<ProjectionItem>)
    requires
        variable_columns(bs, items) is Ok,
    ensures
        variable_columns(bs, items)->Ok_0.len() == items.len(),
        forall|i: int| 0 <= i < items.len() ==> #[trigger] items[i].expr is Variable,
    decreases items.len(),
{
    if items.len() > 0 {
        lemma_variable_items(bs, items.drop_last());
        assert forall|i: int| 0 <= i < items.len() implies #[trigger] items[i].expr is Variable by {
            if i < items.len() - 1 {
                assert(items.drop_last()[i] == items[i]);
            }
        }
    }
}

proof fn lemma_aggregate_items(bs: Seq<(String, usize)>, alias: Seq<char>, items: Seq<ProjectionItem>)
    requires
        aggregate_columns(bs, alias, items) is Ok,
    ensures
        aggregate_columns(bs, alias, items)->Ok_0.len() == items.len(),
        forall|i: int|
            0 <= i < items.len() ==> plain_aggregate((#[trigger] items[i]).expr),
    decreases items.len(),
{
    if items.len() > 0 {
        lemma_aggregate_items(bs, alias, items.drop_last());
        let e = items.last().expr;
        assert(aggregate_index(bs, alias, e) is Ok);
        if !is_count_star(e) {
            assert(function_args(e, "sum"@) is Some);
        }
        assert forall|i: int| 0 <= i < items.len() implies plain_aggregate((#[trigger] items[i]).expr) by {
            if i < items.len() - 1 {
                assert(items.drop_last()[i] == items[i]);
            }
        }
    }
}

/// An admitted query is one part with no UNION: a CALL, then (for fullPaths only) an UNWIND,
/// then a RETURN, and nothing else. The RETURN has no `*`, DISTINCT, ORDER BY, SKIP or LIMIT
/// and one output column per item. Its items are plain variables, or for fullPaths `count(*)`
/// and single-argument `sum` calls, none of them DISTINCT.
pub proof fn law_admitted_query_shape(q: Query)
    requires
        admission(q) is Ok,
    ensures
        q.parts.len() == 1,
        !q.parts[0].has_union,
        q.parts[0].clauses@.len() == if admission(q)->Ok_0.0 == Algorithm::FullPaths { 3int } else { 2int },
        q.parts[0].clauses@[0] is Call,
        admission(q)->Ok_0.0 == Algorithm::FullPaths ==> q.parts[0].clauses@[1] is Unwind,
        (q.parts[0].clauses@.last() matches Clause::Return(p) && !p.star && !p.distinct && !p.has_order_by && !p.has_skip
            && !p.has_limit && p.items@.len() > 0 && admission(q)->Ok_0.2.len() == p.items@.len() && (admission(q)->Ok_0.0
            != Algorithm::FullPaths ==> forall|i: int| 0 <= i < p.items@.len() ==> (#[trigger] p.items@[i]).expr is Variable)
            && (admission(q)->Ok_0.0 == Algorithm::FullPaths ==> forall|i: int|
            0 <= i < p.items@.len() ==> plain_aggregate((#[trigger] p.items@[i]).expr))),
{
    let clauses = q.parts[0].clauses@;
    let a = admission(q)->Ok_0.0;
    let call = clauses[0]->Call_0;
    let bs = crate::cypher::bind_yields(a, call.yields@)->Ok_0;
    assert(plan_columns(a, bs, clauses) is Ok);
    if a == Algorithm::FullPaths {
        let u = clauses[1]->Unwind_0;
        let p = clauses[2]->Return_0;
        lemma_aggregate_items(bs, u.alias@, p.items@);
    } else {
        let p = clauses[1]->Return_0;
        lemma_variable_items(bs, p.items@);
    }
}

} // verus!
