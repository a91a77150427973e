//! The mathematical model of compressed sparse rows shared by every adjacency type.
use vstd::prelude::*;

verus! {

/// Offsets start at zero, never decrease, and end at the number of slots.
pub open spec fn offsets_valid(offsets: Seq<u64>, slots: int) -> bool {
    &&& offsets.len() >= 1
    &&& offsets[0] == 0
    &&& offsets.last() == slots
    &&& forall|i: int, j: int| 0 <= i <= j < offsets.len() ==> offsets[i] <= offsets[j]
}

/// Every slot names one of the `n` vertices.
pub open spec fn targets_in_range(targets: Seq<u64>, n: int) -> bool {
    forall|s: int| 0 <= s < targets.len() ==> targets[s] < n
}

/// Offsets and targets form a CSR topology over `offsets.len() - 1` vertices.
pub open spec fn topology_valid(offsets: Seq<u64>, targets: Seq<u64>) -> bool {
    &&& offsets_valid(offsets, targets.len() as int)
    &&& targets_in_range(targets, offsets.len() - 1)
}

/// The neighbors stored for vertex `u`.
pub open spec fn row_of(offsets: Seq<u64>, targets: Seq<u64>, u: int) -> Seq<u64> {
    targets.subrange(offsets[u] as int, offsets[u + 1] as int)
}

/// All rows, indexed by vertex.
pub open spec fn rows_of(offsets: Seq<u64>, targets: Seq<u64>) -> Seq<Seq<u64>> {
    Seq::new((offsets.len() - 1) as nat, |u: int| row_of(offsets, targets, u))
}

/// Sorted with no repeated value.
pub open spec fn strictly_increasing(s: Seq<u64>) -> bool {
    forall|i: int, j: int| 0 <= i < j < s.len() ==> s[i] < s[j]
}

/// Every row is sorted and free of duplicates.
pub open spec fn rows_sorted(offsets: Seq<u64>, targets: Seq<u64>) -> bool {
    forall|u: int|
        #![trigger row_of(offsets, targets, u)]
        0 <= u < offsets.len() - 1 ==> strictly_increasing(row_of(offsets, targets, u))
}

/// Whether `rows` holds the directed edge `u -> v`.
pub open spec fn has_arc(rows: Seq<Seq<u64>>, u: int, v: int) -> bool {
    0 <= u < rows.len() && 0 <= v <= u64::MAX && rows[u].contains(v as u64)
}

/// `rows_in` is exactly the transpose of `rows_out` over the same vertices.
pub open spec fn is_transpose(rows_out: Seq<Seq<u64>>, rows_in: Seq<Seq<u64>>) -> bool {
    &&& rows_out.len() == rows_in.len()
    &&& forall|u: int, v: int| has_arc(rows_out, u, v) <==> has_arc(rows_in, v, u)
}

/// A directed path from `u` to `v` through `rows`.
pub open spec fn is_path(rows: Seq<Seq<u64>>, path: Seq<int>, u: int, v: int) -> bool {
    &&& path.len() >= 1
    &&& path[0] == u
    &&& path.last() == v
    &&& 0 <= u < rows.len()
    &&& forall|i: int| 0 <= i < path.len() - 1 ==> has_arc(rows, #[trigger] path[i], path[i + 1])
}

/// Adjacent entries that never decrease make the whole sequence ordered.
pub proof fn lemma_monotone(offsets: Seq<u64>)
    requires
        forall|i: int| 0 <= i < offsets.len() - 1 ==> #[trigger] offsets[i] <= offsets[i + 1],
    ensures
        forall|i: int, j: int| 0 <= i <= j < offsets.len() ==> offsets[i] <= offsets[j],
{
    assert forall|i: int, j: int| 0 <= i <= j < offsets.len() implies offsets[i] <= offsets[j] by {
        lemma_monotone_pair(offsets, i, j);
    }
}

proof fn lemma_monotone_pair(offsets: Seq<u64>, i: int, j: int)
    requires
        forall|k: int| 0 <= k < offsets.len() - 1 ==> #[trigger] offsets[k] <= offsets[k + 1],
        0 <= i <= j < offsets.len(),
    ensures
        offsets[i] <= offsets[j],
    decreases j - i,
{
    if i < j {
        lemma_monotone_pair(offsets, i, j - 1);
        assert(offsets[j - 1] <= offsets[j]);
    }
}

/// Adjacent entries that strictly increase make the whole sequence strictly increasing.
pub proof fn lemma_strict(s: Seq<u64>)
    requires
        forall|i: int| 0 <= i < s.len() - 1 ==> #[trigger] s[i] < s[i + 1],
    ensures
        strictly_increasing(s),
{
    assert forall|i: int, j: int| 0 <= i < j < s.len() implies s[i] < s[j] by {
        lemma_strict_pair(s, i, j);
    }
}

proof fn lemma_strict_pair(s: Seq<u64>, i: int, j: int)
    requires
        forall|k: int| 0 <= k < s.len() - 1 ==> #[trigger] s[k] < s[k + 1],
        0 <= i < j < s.len(),
    ensures
        s[i] < s[j],
    decreases j - i,
{
    if i + 1 < j {
        lemma_strict_pair(s, i, j - 1);
        assert(s[j - 1] < s[j]);
    }
}

/// Search a strictly increasing range of `s` for `v`.
pub fn search_sorted(s: &[u64], lo: usize, hi: usize, v: u64) -> (r: Option<usize>)
    requires
        lo <= hi <= s@.len(),
        strictly_increasing(s@.subrange(lo as int, hi as int)),
    ensures
        r matches Some(k) ==> lo <= k < hi && s@[k as int] == v,
        r is None ==> forall|k: int| lo <= k < hi ==> s@[k] != v,
{
    let ghost sub = s@.subrange(lo as int, hi as int);
    let mut a = lo;
    let mut b = hi;
    while a < b
        invariant
            lo <= a <= b <= hi <= s@.len(),
            sub == s@.subrange(lo as int, hi as int),
            strictly_increasing(sub),
            forall|k: int| lo <= k < a ==> s@[k] < v,
            forall|k: int| b <= k < hi ==> s@[k] > v,
        decreases b - a,
    {
        let mid = a + (b - a) / 2;
        let x = s[mid];
        if x == v {
            return Some(mid);
        } else if x < v {
            assert forall|k: int| lo <= k < mid + 1 implies s@[k] < v by {
                if k < mid {
                    assert(sub[k - lo] < sub[mid - lo]);
                }
            }
            a = mid + 1;
        } else {
            assert forall|k: int| mid <= k < hi implies s@[k] > v by {
                if k > mid {
                    assert(sub[mid - lo] < sub[k - lo]);
                }
            }
            b = mid;
        }
    }
    None
}

/// The neighbors of vertex `u` as a borrowed slice of `targets`.
pub fn row_slice<'a>(offsets: &[u64], targets: &'a [u64], u: usize) -> (r: &'a [u64])
    requires
        topology_valid(offsets@, targets@),
        u + 1 < offsets@.len(),
    ensures
        r@ == row_of(offsets@, targets@, u as int),
        r@ == rows_of(offsets@, targets@)[u as int],
{
    let ghost last = offsets@.len() - 1;
    assert(offsets@[u as int] <= offsets@[u + 1] <= offsets@[last]);
    assert(offsets@[last] == offsets@.last());
    let slots = targets.len();
    let lo = offsets[u] as usize;
    let hi = offsets[u + 1] as usize;
    vstd::slice::slice_subrange(targets, lo, hi)
}

} // verus!
