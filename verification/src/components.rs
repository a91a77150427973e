//! Weakly connected components by union-find, labelled by their smallest vertex.
use crate::csr::{CsrAdjacency, NodeId};
use crate::error::Error;
use crate::execution::{bytes_for, ExecutionContext};
use crate::graph::Graph;
use crate::topology::{row_slice, rows_of, topology_valid};
use vstd::prelude::*;

verus! {

/// `labels` gives both ends of every arc of `rows` the same value.
pub open spec fn respects_arcs(rows: Seq<Seq<u64>>, labels: Seq<u64>) -> bool {
    forall|u: int, w: u64|
        #![trigger rows[u].contains(w)]
        0 <= u < rows.len() && rows[u].contains(w) ==> w < labels.len() && labels[u] == labels[w as int]
}

/// Vertices that share a label in `labels` share one in every labelling of the same length
/// that is constant along arcs: the label classes are no coarser than the weak components.
pub open spec fn finest(rows: Seq<Seq<u64>>, labels: Seq<u64>) -> bool {
    forall|m: Seq<u64>|
        #![trigger respects_arcs(rows, m)]
        m.len() == labels.len() && respects_arcs(rows, m) ==> forall|x: int, y: int|
            #![trigger m[x], m[y]]
            0 <= x < labels.len() && 0 <= y < labels.len() && labels[x] == labels[y] ==> m[x] == m[y]
}

/// `labels` names the weakly connected components of `rows`: two vertices share a label
/// exactly when an undirected path joins them, and each label is the smallest vertex of
/// its component.
pub open spec fn weak_component_labels(rows: Seq<Seq<u64>>, labels: Seq<u64>) -> bool {
    &&& labels.len() == rows.len()
    &&& respects_arcs(rows, labels)
    &&& finest(rows, labels)
    &&& forall|x: int|
        #![trigger labels[x]]
        0 <= x < labels.len() ==> labels[x] <= x && labels[labels[x] as int] == labels[x]
}

/// The root reached from `x` by following `parent` while it points lower.
pub open spec fn root_of(parent: Seq<u64>, x: int) -> int
    decreases x,
{
    if 0 <= x < parent.len() && parent[x] < x {
        root_of(parent, parent[x] as int)
    } else {
        x
    }
}

/// `parent` is a forest whose trees are the classes of `comp`, each rooted at its
/// smallest member.
pub open spec fn forest(parent: Seq<u64>, comp: Seq<u64>) -> bool {
    &&& parent.len() == comp.len()
    &&& forall|x: int|
        #![trigger parent[x]]
        0 <= x < parent.len() ==> parent[x] <= x && comp[parent[x] as int] == comp[x]
    &&& forall|x: int|
        #![trigger comp[x]]
        0 <= x < parent.len() ==> comp[x] <= x && parent[comp[x] as int] == comp[x]
    &&& forall|x: int| 0 <= x < parent.len() && #[trigger] parent[x] == x ==> comp[x] == x
}

/// The root reached from every vertex.
pub open spec fn roots(parent: Seq<u64>) -> Seq<u64> {
    Seq::new(parent.len(), |x: int| root_of(parent, x) as u64)
}

proof fn lemma_root_of_bounds(parent: Seq<u64>, x: int)
    requires
        0 <= x < parent.len(),
        forall|y: int| 0 <= y < parent.len() ==> #[trigger] parent[y] <= y,
    ensures
        0 <= root_of(parent, x) <= x,
        parent[root_of(parent, x)] == root_of(parent, x),
    decreases x,
{
    if parent[x] < x {
        lemma_root_of_bounds(parent, parent[x] as int);
    }
}

/// Parents that never point higher form a forest whose classes are the trees, each rooted
/// at the vertex its members reach; so `find_root` applies to any such parent array.
pub proof fn lemma_forest_of_roots(parent: Seq<u64>)
    requires
        forall|y: int| 0 <= y < parent.len() ==> #[trigger] parent[y] <= y,
    ensures
        forest(parent, roots(parent)),
{
    let comp = roots(parent);
    assert forall|x: int| 0 <= x < parent.len() implies #[trigger] parent[x] <= x && comp[parent[x] as int] == comp[x] by {
        lemma_root_of_bounds(parent, x);
    }
    assert forall|x: int| 0 <= x < parent.len() implies #[trigger] comp[x] <= x && parent[comp[x] as int] == comp[x] by {
        lemma_root_of_bounds(parent, x);
    }
}

/// In a forest, the root reached from each vertex is the root of its class.
proof fn lemma_root_of_forest(parent: Seq<u64>, comp: Seq<u64>, x: int)
    requires
        forest(parent, comp),
        0 <= x < parent.len(),
    ensures
        root_of(parent, x) == comp[x],
    decreases x,
{
    if parent[x] < x {
        lemma_root_of_forest(parent, comp, parent[x] as int);
    }
}

/// Follow parents from `u` to its root, halving the path on the way. The result is the
/// root reached from `u`, every vertex keeps its root, and parents still point no higher.
pub fn find_root(parent: &mut Vec<u64>, u: usize, Ghost(comp): Ghost<Seq<u64>>) -> (r: usize)
    requires
        forest(old(parent)@, comp),
        u < old(parent)@.len(),
    ensures
        forest(final(parent)@, comp),
        r == comp[u as int],
        forall|x: int|
            0 <= x < comp.len() && #[trigger] old(parent)@[x] == comp[x] ==> final(parent)@[x] == comp[x],
        r == root_of(old(parent)@, u as int),
        r <= u,
        final(parent)@[r as int] == r,
        final(parent)@.len() == old(parent)@.len(),
        forall|x: int|
            0 <= x < final(parent)@.len() ==> #[trigger] root_of(final(parent)@, x) == root_of(old(parent)@, x)
                && final(parent)@[x] <= x,
{
    let ghost start = parent@;
    let mut w = u;
    while parent[w] as usize != w
        invariant
            forest(parent@, comp),
            w < parent@.len(),
            comp[w as int] == comp[u as int],
            forall|x: int|
                0 <= x < comp.len() && #[trigger] start[x] == comp[x] ==> parent@[x] == comp[x],
        decreases w,
    {
        let p = parent[w] as usize;
        let gp = parent[p];
        let ghost before = parent@;
        parent.set(w, gp);
        proof {
            assert(before[w as int] == p);
            assert(comp[gp as int] == comp[p as int]);
            assert(before[comp[w as int] as int] == comp[w as int]);
            assert forall|x: int|
                #![trigger parent@[x]]
                0 <= x < parent@.len() implies parent@[x] <= x && comp[parent@[x] as int] == comp[x] by {
                if x == w {
                    assert(before[p as int] <= p);
                }
            }
            assert forall|x: int|
                #![trigger comp[x]]
                0 <= x < parent@.len() implies comp[x] <= x && parent@[comp[x] as int] == comp[x] by {
                assert(before[comp[x] as int] == comp[x]);
                if comp[x] == w {
                    assert(before[w as int] == w);
                }
            }
            assert forall|x: int| 0 <= x < parent@.len() && #[trigger] parent@[x] == x implies comp[x] == x by {
                if x == w {
                    assert(before[p as int] <= p);
                } else {
                    assert(before[x] == x);
                }
            }
            assert forall|x: int|
                0 <= x < comp.len() && #[trigger] start[x] == comp[x] implies parent@[x] == comp[x] by {
                if x == w {
                    assert(before[w as int] == comp[w as int]);
                    assert(before[comp[w as int] as int] == comp[w as int]);
                }
            }
        }
        w = gp as usize;
    }
    proof {
        lemma_root_of_forest(start, comp, u as int);
        assert forall|x: int| 0 <= x < parent@.len() implies #[trigger] root_of(parent@, x) == root_of(start, x)
            && parent@[x] <= x by {
            lemma_root_of_forest(start, comp, x);
            lemma_root_of_forest(parent@, comp, x);
        }
    }
    w
}

/// Label every vertex with the smallest vertex of its weakly connected component,
/// following the arcs of the rows described by `offsets` and `targets`.
pub fn union_find_labels(offsets: &[u64], targets: &[u64], ctx: &ExecutionContext) -> (r: Result<Vec<u64>, Error>)
    requires
        topology_valid(offsets@, targets@),
    ensures
        r matches Ok(labels) ==> weak_component_labels(rows_of(offsets@, targets@), labels@),
        r matches Err(e) ==> e == Error::Cancelled,
{
    let n = offsets.len() - 1;
    let ghost rows = rows_of(offsets@, targets@);
    let mut parent: Vec<u64> = Vec::new();
    let mut i: usize = 0;
    while i < n
        invariant
            i <= n,
            n == rows.len(),
            parent.len() == i,
            forall|k: int| 0 <= k < i ==> #[trigger] parent@[k] == k,
        decreases n - i,
    {
        parent.push(i as u64);
        i = i + 1;
    }
    let ghost mut comp: Seq<u64> = parent@;
    proof {
        assert(forest(parent@, comp));
        assert forall|m: Seq<u64>| #[trigger] respects_arcs(rows, m) && m.len() == comp.len() implies forall|x: int, y: int|
            #![trigger m[x], m[y]]
            0 <= x < comp.len() && 0 <= y < comp.len() && comp[x] == comp[y] ==> m[x] == m[y] by {
            assert forall|x: int, y: int|
                #![trigger m[x], m[y]]
                0 <= x < comp.len() && 0 <= y < comp.len() && comp[x] == comp[y] implies m[x] == m[y] by {
                assert(comp[x] == x && comp[y] == y);
            }
        }
    }
    let mut u: usize = 0;
    while u < n
        invariant
            u <= n,
            n == rows.len(),
            rows == rows_of(offsets@, targets@),
            topology_valid(offsets@, targets@),
            offsets@.len() == n + 1,
            forest(parent@, comp),
            comp.len() == n,
            finest(rows, comp),
            forall|a: int, w: u64|
                0 <= a < u && #[trigger] rows[a].contains(w) ==> w < n && comp[a] == comp[w as int],
        decreases n - u,
    {
        if let Err(e) = ctx.check() {
            return Err(e);
        }
        let row = row_slice(offsets, targets, u);
        let mut j: usize = 0;
        while j < row.len()
            invariant
                u < n,
                n == rows.len(),
                rows == rows_of(offsets@, targets@),
                topology_valid(offsets@, targets@),
                offsets@.len() == n + 1,
                row@ == rows[u as int],
                j <= row.len(),
                forest(parent@, comp),
                comp.len() == n,
                finest(rows, comp),
                forall|a: int, w: u64|
                    0 <= a < u && #[trigger] rows[a].contains(w) ==> w < n && comp[a] == comp[w as int],
                forall|k: int| 0 <= k < j ==> #[trigger] row@[k] < n && comp[u as int] == comp[row@[k] as int],
            decreases row.len() - j,
        {
            if j % 4096 == 0 {
                if let Err(e) = ctx.check() {
                    return Err(e);
                }
            }
            let v = row[j];
            proof {
                assert(rows[u as int].contains(v)) by {
                    assert(rows[u as int][j as int] == v);
                }
                let lo = offsets@[u as int] as int;
                assert(row@[j as int] == targets@[lo + j]);
                assert(v < n);
            }
            let a = find_root(&mut parent, u, Ghost(comp));
            let b = find_root(&mut parent, v as usize, Ghost(comp));
            let hi = if a < b { b } else { a };
            let lo = if a < b { a } else { b };
            let ghost before = parent@;
            let ghost old_comp = comp;
            parent.set(hi, lo as u64);
            proof {
                comp = Seq::new(n as nat, |x: int| if old_comp[x] == hi { lo as u64 } else { old_comp[x] });
                assert(old_comp[hi as int] == hi && old_comp[lo as int] == lo);
                assert(before[hi as int] == hi && before[lo as int] == lo);
                assert forall|x: int|
                    #![trigger parent@[x]]
                    0 <= x < parent@.len() implies parent@[x] <= x && comp[parent@[x] as int] == comp[x] by {
                    if x != hi {
                        assert(old_comp[before[x] as int] == old_comp[x]);
                    }
                }
                assert forall|x: int|
                    #![trigger comp[x]]
                    0 <= x < parent@.len() implies comp[x] <= x && parent@[comp[x] as int] == comp[x] by {
                    assert(old_comp[x] <= x && before[old_comp[x] as int] == old_comp[x]);
                }
                assert forall|x: int| 0 <= x < parent@.len() && #[trigger] parent@[x] == x implies comp[x] == x by {
                    if x != hi {
                        assert(before[x] == x);
                        assert(old_comp[x] == x);
                    }
                }
                assert(forest(parent@, comp));
                assert forall|m: Seq<u64>| #[trigger] respects_arcs(rows, m) && m.len() == comp.len() implies forall|x: int, y: int|
                    #![trigger m[x], m[y]]
                    0 <= x < comp.len() && 0 <= y < comp.len() && comp[x] == comp[y] ==> m[x] == m[y] by {
                    assert(m[u as int] == m[v as int]);
                    assert(old_comp[u as int] == a && old_comp[v as int] == b);
                    assert forall|x: int, y: int|
                        #![trigger m[x], m[y]]
                        0 <= x < comp.len() && 0 <= y < comp.len() && comp[x] == comp[y] implies m[x] == m[y] by {
                        assert(m[x] == m[u as int] || m[x] == m[v as int] || old_comp[x] == comp[x]) by {
                            if old_comp[x] == a {
                                assert(m[x] == m[u as int]);
                            } else if old_comp[x] == b {
                                assert(m[x] == m[v as int]);
                            }
                        }
                        if old_comp[x] == old_comp[y] {
                        } else if (old_comp[x] == a || old_comp[x] == b) && (old_comp[y] == a || old_comp[y] == b) {
                            if old_comp[x] == a {
                                assert(m[x] == m[u as int]);
                            } else {
                                assert(m[x] == m[v as int]);
                            }
                            if old_comp[y] == a {
                                assert(m[y] == m[u as int]);
                            } else {
                                assert(m[y] == m[v as int]);
                            }
                        }
                    }
                }
                assert forall|c: int, w: u64|
                    0 <= c < u && #[trigger] rows[c].contains(w) implies w < n && comp[c] == comp[w as int] by {
                    assert(old_comp[c] == old_comp[w as int]);
                }
                assert forall|k: int| 0 <= k < j + 1 implies #[trigger] row@[k] < n && comp[u as int] == comp[
                    row@[k] as int
                ] by {
                    if k < j {
                        assert(old_comp[u as int] == old_comp[row@[k] as int]);
                    }
                }
            }
            j = j + 1;
        }
        proof {
            assert forall|c: int, w: u64|
                0 <= c < u + 1 && #[trigger] rows[c].contains(w) implies w < n && comp[c] == comp[w as int] by {
                if c == u {
                    let k = choose|k: int| 0 <= k < row@.len() && row@[k] == w;
                    assert(row@[k] < n);
                }
            }
        }
        u = u + 1;
    }
    let mut x: usize = 0;
    while x < n
        invariant
            x <= n,
            n == rows.len(),
            forest(parent@, comp),
            comp.len() == n,
            forall|k: int| 0 <= k < x ==> #[trigger] parent@[k] == comp[k],
        decreases n - x,
    {
        let ghost before = parent@;
        let r = find_root(&mut parent, x, Ghost(comp));
        proof {
            assert(comp[comp[x as int] as int] == comp[x as int]) by {
                assert(parent@[comp[x as int] as int] == comp[x as int]);
            }
        }
        let ghost mid = parent@;
        parent.set(x, r as u64);
        proof {
            assert forall|k: int| 0 <= k < x + 1 implies #[trigger] parent@[k] == comp[k] by {
                if k < x {
                    assert(before[k] == comp[k]);
                }
            }
            assert forall|y: int|
                #![trigger parent@[y]]
                0 <= y < parent@.len() implies parent@[y] <= y && comp[parent@[y] as int] == comp[y] by {
                if y != x {
                    assert(mid[y] <= y);
                }
            }
            assert forall|y: int|
                #![trigger comp[y]]
                0 <= y < parent@.len() implies comp[y] <= y && parent@[comp[y] as int] == comp[y] by {
                assert(mid[comp[y] as int] == comp[y]);
                if comp[y] == x {
                    assert(comp[x as int] == x);
                }
            }
            assert forall|y: int| 0 <= y < parent@.len() && #[trigger] parent@[y] == y implies comp[y] == y by {
                if y != x {
                    assert(mid[y] == y);
                }
            }
        }
        x = x + 1;
    }
    proof {
        assert(parent@ == comp);
        assert forall|y: int|
            #![trigger comp[y]]
            0 <= y < comp.len() implies comp[y] <= y && comp[comp[y] as int] == comp[y] by {
            assert(parent@[comp[y] as int] == comp[y]);
        }
    }
    Ok(parent)
}

/// Weak components from outgoing edges, labelled by their smallest vertex; no transpose is
/// needed.
pub fn weakly_connected_components(graph: &Graph, ctx: &ExecutionContext) -> (r: Result<Vec<u64>, Error>)
    ensures
        graph.spec_n() * 24 > usize::MAX ==> r matches Err(Error::Overflow),
        r matches Ok(labels) ==> weak_component_labels(graph.spec_outgoing()@, labels@) && graph.spec_n() * 24 <= ctx.limit(),
        graph.spec_n() * 24 <= usize::MAX ==> (r matches Err(e) ==> (e == Error::Cancelled || e
            == Error::Overflow || e matches Error::MemoryLimit { .. })),
{
    let bytes = bytes_for(graph.node_count(), 24)?;
    let _memory = match ctx.reserve(bytes) {
        Ok(m) => m,
        Err(e) => return Err(e),
    };
    let adj = graph.outgoing();
    proof {
        use_type_invariant(adj);
    }
    union_find_labels(adj.offsets(), adj.targets(), ctx)
}

/// Undirected components, labelled by their smallest vertex; directed graphs are refused.
pub fn connected_components(graph: &Graph, ctx: &ExecutionContext) -> (r: Result<Vec<u64>, Error>)
    ensures
        graph.spec_directed() ==> r matches Err(Error::InvalidOption(_)),
        !graph.spec_directed() && graph.spec_n() * 24 > usize::MAX ==> r matches Err(Error::Overflow),
        r matches Ok(labels) ==> weak_component_labels(graph.spec_outgoing()@, labels@) && graph.spec_n() * 24 <= ctx.limit(),
        !graph.spec_directed() && graph.spec_n() * 24 <= usize::MAX ==> (r matches Err(e) ==> (e
            == Error::Cancelled || e == Error::Overflow || e matches Error::MemoryLimit { .. })),
{
    if graph.is_directed() {
        return Err(
            Error::InvalidOption(
                "use weakly/strongly_connected_components for directed graphs".to_string(),
            ),
        );
    }
    weakly_connected_components(graph, ctx)
}

} // verus!
