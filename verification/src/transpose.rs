//! Building the incoming adjacency: the exact transpose of a validated CSR.
use crate::buckets::{
    bucket_offsets, bucket_order, count_below, keys_below, lemma_buckets_disjoint,
    lemma_count_below_all, lemma_count_below_monotone, lemma_count_below_zero,
    lemma_position_in_bucket, lemma_rank_monotone, position,
};
use crate::csr::{valid_csr, CsrAdjacency, NodeId};
use crate::error::Error;
use crate::execution::ExecutionContext;
use crate::topology::{has_arc, is_transpose, row_of, rows_of, strictly_increasing};
use vstd::prelude::*;

verus! {

/// The row, below `n`, whose slot range holds `s`.
pub open spec fn row_index(offsets: Seq<u64>, s: int, n: int) -> int
    decreases n,
{
    if n <= 1 {
        0
    } else if offsets[n - 1] <= s {
        n - 1
    } else {
        row_index(offsets, s, n - 1)
    }
}

/// Offsets that never decrease.
pub open spec fn monotone(offsets: Seq<u64>) -> bool {
    forall|i: int, j: int| 0 <= i <= j < offsets.len() ==> offsets[i] <= offsets[j]
}

/// The row index of a slot is the row whose range holds it.
pub proof fn lemma_row_index(offsets: Seq<u64>, n: int, s: int, u: int)
    requires
        monotone(offsets),
        offsets.len() >= n + 1,
        0 <= u < n,
        offsets[u] <= s < offsets[u + 1],
    ensures
        row_index(offsets, s, n) == u,
    decreases n,
{
    if n > 1 {
        if offsets[n - 1] <= s {
            if u < n - 1 {
                assert(offsets[u + 1] <= offsets[n - 1]);
            }
        } else {
            if u == n - 1 {
                assert(false);
            }
            lemma_row_index(offsets, n - 1, s, u);
        }
    }
}

/// Every slot below `offsets[n]` lies in the row that `row_index` names.
pub proof fn lemma_row_index_bounds(offsets: Seq<u64>, n: int, s: int)
    requires
        monotone(offsets),
        offsets.len() >= n + 1,
        n >= 1,
        offsets[0] == 0,
        0 <= s < offsets[n],
    ensures
        0 <= row_index(offsets, s, n) < n,
        offsets[row_index(offsets, s, n)] <= s < offsets[row_index(offsets, s, n) + 1],
    decreases n,
{
    if n > 1 && offsets[n - 1] > s {
        lemma_row_index_bounds(offsets, n - 1, s);
    }
}

/// For each slot, the vertex whose row holds it.
pub fn slot_sources(adj: &CsrAdjacency) -> (r: Vec<u64>)
    ensures
        r@.len() == adj.spec_targets().len(),
        forall|s: int| 0 <= s < r@.len() ==> #[trigger] r@[s] == row_index(adj.spec_offsets(), s, adj.spec_n()) && r@[s] < adj.spec_n(),
{
    proof {
        use_type_invariant(adj);
    }
    let n = adj.node_count();
    let offsets = adj.offsets();
    let slots = adj.slot_count();
    let mut r: Vec<u64> = Vec::new();
    let mut u: usize = 0;
    while u < n
        invariant
            adj.valid(),
            n == adj.spec_n(),
            offsets@ == adj.spec_offsets(),
            slots == adj.spec_targets().len(),
            u <= n,
            r@.len() == offsets@[u as int],
            forall|s: int| 0 <= s < r@.len() ==> #[trigger] r@[s] == row_index(offsets@, s, n as int) && r@[s] < n,
        decreases n - u,
    {
        proof {
            adj.lemma_row_bounds(u as int);
        }
        let end = offsets[u + 1] as usize;
        while r.len() < end
            invariant
                adj.valid(),
                n == adj.spec_n(),
                offsets@ == adj.spec_offsets(),
                u < n,
                end == offsets@[u + 1],
                offsets@[u as int] <= r@.len() <= end,
                forall|s: int| 0 <= s < r@.len() ==> #[trigger] r@[s] == row_index(offsets@, s, n as int) && r@[s] < n,
            decreases end - r@.len(),
        {
            proof {
                lemma_row_index(offsets@, n as int, r@.len() as int, u as int);
            }
            r.push(u as u64);
        }
        u += 1;
    }
    r
}

/// The transpose of `adj`, and for each incoming slot the outgoing slot it mirrors.
pub fn transpose(adj: &CsrAdjacency, ctx: &ExecutionContext) -> (r: Result<(CsrAdjacency, Vec<usize>), Error>)
    ensures
        r is Err ==> r == Err::<(CsrAdjacency, Vec<usize>), Error>(Error::Cancelled),
        r matches Ok((inc, order)) ==> {
            &&& inc.spec_n() == adj.spec_n()
            &&& inc.spec_targets().len() == adj.spec_targets().len()
            &&& inc.spec_weighted() == adj.spec_weighted()
            &&& is_transpose(adj@, inc@)
            &&& order@.len() == adj.spec_targets().len()
            &&& forall|p: int| 0 <= p < order@.len() ==> #[trigger] order@[p] < order@.len()
                && inc.spec_targets()[p] == row_index(adj.spec_offsets(), order@[p] as int, adj.spec_n())
                && adj.spec_targets()[order@[p] as int] == row_index(inc.spec_offsets(), p, inc.spec_n())
        },
{
    proof {
        use_type_invariant(adj);
    }
    let n = adj.node_count();
    let rows = adj.offsets().len();
    let keys = adj.targets();
    let a = keys.len();
    let ghost out_offsets = adj.spec_offsets();
    assert(keys_below(keys@, n as int)) by {
        assert forall|i: int| 0 <= i < keys@.len() implies #[trigger] keys@[i] < n by {}
    }
    let offsets = bucket_offsets(n, keys, Some(ctx))?;
    let order = bucket_order(n, keys, offsets.as_slice(), Some(ctx))?;
    let sources = slot_sources(adj);
    let mut targets: Vec<u64> = Vec::new();
    let mut p: usize = 0;
    while p < a
        invariant
            a == keys@.len(),
            order@.len() == a,
            sources@.len() == a,
            forall|q: int| 0 <= q < a ==> #[trigger] order@[q] < a,
            p <= a,
            targets@.len() == p,
            forall|q: int| 0 <= q < p ==> #[trigger] targets@[q] == sources@[order@[q] as int],
        decreases a - p,
    {
        targets.push(sources[order[p]]);
        p += 1;
    }
    proof {
        lemma_count_below_zero(keys@);
        lemma_count_below_all(keys@, n as int);
        assert forall|i: int, j: int| 0 <= i <= j < offsets@.len() implies offsets@[i] <= offsets@[j] by {
            lemma_count_below_monotone(keys@, i, j);
        }
        assert(monotone(out_offsets));
        // sources never decrease along the slot array
        assert forall|s: int, t: int| 0 <= s < t < a implies sources@[s] <= sources@[t] by {
            lemma_row_index_bounds(out_offsets, n as int, s);
            lemma_row_index_bounds(out_offsets, n as int, t);
            let us = row_index(out_offsets, s, n as int);
            let ut = row_index(out_offsets, t, n as int);
            if us > ut {
                assert(out_offsets[ut + 1] <= out_offsets[us]);
            }
        }
        // rows of the transpose are strictly increasing
        assert forall|v: int| 0 <= v < n implies strictly_increasing(#[trigger] row_of(offsets@, targets@, v)) by {
            let row = row_of(offsets@, targets@, v);
            assert(offsets@[v] <= offsets@[v + 1] <= offsets@[n as int]);
            assert forall|x: int, y: int| 0 <= x < y < row.len() implies row[x] < row[y] by {
                let px = offsets@[v] + x;
                let py = offsets@[v] + y;
                let sx = order@[px] as int;
                let sy = order@[py] as int;
                assert(row[x] == targets@[px]);
                assert(row[y] == targets@[py]);
                lemma_count_below_monotone(keys@, v, v + 1);
                lemma_count_below_monotone(keys@, v + 1, n as int);
                lemma_position_in_bucket(keys@, sx);
                lemma_position_in_bucket(keys@, sy);
                assert(keys@[sx] < n);
                assert(keys@[sy] < n);
                if keys@[sx] != v {
                    lemma_buckets_disjoint(keys@, v, keys@[sx] as int, px);
                }
                if keys@[sy] != v {
                    lemma_buckets_disjoint(keys@, v, keys@[sy] as int, py);
                }
                if sx > sy {
                    lemma_rank_monotone(keys@, sy, sx);
                }
                assert(sx != sy);
                assert(sx < sy);
                // the two slots come from different rows
                lemma_row_index_bounds(out_offsets, n as int, sx);
                lemma_row_index_bounds(out_offsets, n as int, sy);
                let ux = row_index(out_offsets, sx, n as int);
                if sources@[sx] == sources@[sy] {
                    adj.lemma_row_bounds(ux);
                    let orow = row_of(out_offsets, keys@, ux);
                    assert(strictly_increasing(orow));
                    assert(orow[sx - out_offsets[ux]] == keys@[sx]);
                    assert(orow[sy - out_offsets[ux]] == keys@[sy]);
                }
            }
        }
    }
    let inc = CsrAdjacency::from_parts(offsets, targets, adj.is_weighted());
    proof {
        let out_rows = adj@;
        let in_rows = inc@;
        assert forall|u: int, v: int| has_arc(out_rows, u, v) <==> has_arc(in_rows, v, u) by {
            if has_arc(out_rows, u, v) {
                let k = choose|k: int| 0 <= k < out_rows[u].len() && out_rows[u][k] == v as u64;
                adj.lemma_row_bounds(u);
                let s = out_offsets[u] + k;
                assert(keys@[s] == v);
                lemma_row_index(out_offsets, n as int, s, u);
                let q = position(keys@, s);
                lemma_position_in_bucket(keys@, s);
                assert(order@[q] == s);
                assert(inc.spec_targets()[q] == u);
                lemma_count_below_monotone(keys@, v, v + 1);
                assert(in_rows[v][q - offsets@[v]] == u as u64);
            }
            if has_arc(in_rows, v, u) {
                let k = choose|k: int| 0 <= k < in_rows[v].len() && in_rows[v][k] == u as u64;
                lemma_count_below_monotone(keys@, v, v + 1);
                lemma_count_below_monotone(keys@, v + 1, n as int);
                let q = offsets@[v] + k;
                let s = order@[q] as int;
                lemma_position_in_bucket(keys@, s);
                assert(keys@[s] < n);
                if keys@[s] != v {
                    lemma_buckets_disjoint(keys@, v, keys@[s] as int, q);
                }
                lemma_row_index_bounds(out_offsets, n as int, s);
                assert(sources@[s] == u);
                adj.lemma_row_bounds(u);
                assert(out_rows[u][s - out_offsets[u]] == v as u64);
            }
        }
        assert forall|q: int| 0 <= q < order@.len() implies #[trigger] order@[q] < order@.len()
            && inc.spec_targets()[q] == row_index(adj.spec_offsets(), order@[q] as int, adj.spec_n())
            && adj.spec_targets()[order@[q] as int] == row_index(inc.spec_offsets(), q, inc.spec_n()) by {
            let s = order@[q] as int;
            lemma_position_in_bucket(keys@, s);
            let v = keys@[s] as int;
            assert(keys@[s] < n);
            lemma_count_below_monotone(keys@, v + 1, n as int);
            lemma_row_index(offsets@, n as int, q, v);
        }
    }
    Ok((inc, order))
}

/// The slot of the reverse rows that mirrors slot `s` of the forward rows.
spec fn partner(o: Seq<u64>, t: Seq<u64>, ro: Seq<u64>, rt: Seq<u64>, n: int, s: int) -> int {
    choose|x: int| 0 <= x < rt.len() && row_index(ro, x, n) == t[s] && rt[x] == row_index(o, s, n)
}

proof fn lemma_partner(o: Seq<u64>, t: Seq<u64>, ro: Seq<u64>, rt: Seq<u64>, n: int, s: int)
    requires
        valid_csr(n, t, o),
        valid_csr(n, rt, ro),
        forall|u: int, v: int| #[trigger] has_arc(rows_of(o, t), u, v) ==> has_arc(rows_of(ro, rt), v, u),
        0 <= s < t.len(),
    ensures
        0 <= partner(o, t, ro, rt, n, s) < rt.len(),
        row_index(ro, partner(o, t, ro, rt, n, s), n) == t[s],
        rt[partner(o, t, ro, rt, n, s)] == row_index(o, s, n),
{
    assert(o[n] == o.last());
    lemma_row_index_bounds(o, n, s);
    let u = row_index(o, s, n);
    let v = t[s];
    let row = rows_of(o, t)[u];
    assert(row == row_of(o, t, u));
    assert(row[s - o[u]] == v);
    assert(has_arc(rows_of(o, t), u, v as int));
    assert(has_arc(rows_of(ro, rt), v as int, u));
    let rrow = rows_of(ro, rt)[v as int];
    assert(rrow == row_of(ro, rt, v as int));
    let k = choose|k: int| 0 <= k < rrow.len() && rrow[k] == u as u64;
    let x = ro[v as int] + k;
    assert(ro[v as int] <= ro[v + 1] <= ro[n]);
    assert(ro[n] == ro.last());
    assert(rt[x] == rrow[k]);
    lemma_row_index(ro, n, x, v as int);
}

/// Validated rows whose every arc appears reversed in other validated rows with the same
/// number of slots are exactly transposed by them.
pub proof fn lemma_reverse_transposes(o: Seq<u64>, t: Seq<u64>, ro: Seq<u64>, rt: Seq<u64>, n: int)
    requires
        valid_csr(n, t, o),
        valid_csr(n, rt, ro),
        t.len() == rt.len(),
        forall|u: int, v: int| #[trigger] has_arc(rows_of(o, t), u, v) ==> has_arc(rows_of(ro, rt), v, u),
    ensures
        is_transpose(rows_of(o, t), rows_of(ro, rt)),
{
    let m = t.len() as int;
    let f = |s: int| partner(o, t, ro, rt, n, s);
    let dom = vstd::set_lib::set_int_range(0, m);
    assert forall|s: int| 0 <= s < m implies 0 <= #[trigger] f(s) < m && row_index(ro, f(s), n) == t[s]
        && rt[f(s)] == row_index(o, s, n) by {
        lemma_partner(o, t, ro, rt, n, s);
    }
    assert(vstd::relations::injective_on(f, dom)) by {
        assert forall|s1: int, s2: int| dom.contains(s1) && dom.contains(s2) && #[trigger] f(s1) == #[trigger] f(s2) implies s1 == s2 by {
            assert(o[n] == o.last());
            lemma_row_index_bounds(o, n, s1);
            lemma_row_index_bounds(o, n, s2);
            let u = row_index(o, s1, n);
            assert(row_index(o, s2, n) == u);
            let row = row_of(o, t, u);
            assert(strictly_increasing(row));
            let i1 = s1 - o[u];
            let i2 = s2 - o[u];
            assert(row[i1] == t[s1] && row[i2] == t[s2]);
            if i1 < i2 {
                assert(row[i1] < row[i2]);
            } else if i2 < i1 {
                assert(row[i2] < row[i1]);
            }
        }
    }
    vstd::set_lib::lemma_int_range(0, m);
    let image = dom.map(f);
    vstd::set_lib::lemma_map_size(dom, image, f);
    assert(image.subset_of(dom));
    vstd::set_lib::lemma_subset_equality(image, dom);
    let rows = rows_of(o, t);
    let rrows = rows_of(ro, rt);
    assert forall|u: int, v: int| has_arc(rows, u, v) <==> has_arc(rrows, v, u) by {
        if has_arc(rrows, v, u) {
            let rrow = rrows[v];
            assert(rrow == row_of(ro, rt, v));
            let k = choose|k: int| 0 <= k < rrow.len() && rrow[k] == u as u64;
            let x = ro[v] + k;
            assert(ro[v] <= ro[v + 1] <= ro[n]);
            assert(ro[n] == ro.last());
            assert(rt[x] == rrow[k]);
            lemma_row_index(ro, n, x, v);
            assert(dom.contains(x));
            assert(image.contains(x));
            let s = choose|s: int| dom.contains(s) && x == f(s);
            assert(o[n] == o.last());
            lemma_row_index_bounds(o, n, s);
            let w = row_index(o, s, n);
            assert(w == u);
            assert(t[s] == v);
            let row = rows[u];
            assert(row == row_of(o, t, u));
            assert(row[s - o[u]] == v);
        }
    }
}

} // verus!
