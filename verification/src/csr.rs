//! Validated CSR storage: sorted, duplicate-free rows with in-range neighbors.
use crate::error::Error;
use crate::topology::{lemma_monotone, lemma_strict, row_of, rows_of, rows_sorted, search_sorted, strictly_increasing, targets_in_range, topology_valid};
use vstd::prelude::*;

verus! {

/// Dense internal vertex ID; external labels live in a node property table.
#[derive(Clone, Copy, Debug, PartialEq, Eq, Hash, PartialOrd, Ord, Structural)]
pub struct NodeId(pub u64);

/// `offsets` and `targets` describe `n` vertices whose rows are sorted, unique and in range.
pub open spec fn valid_csr(n: int, targets: Seq<u64>, offsets: Seq<u64>) -> bool {
    &&& offsets.len() == n + 1
    &&& topology_valid(offsets, targets)
    &&& rows_sorted(offsets, targets)
}

/// One sorted, unique adjacency direction.
#[derive(Debug)]
pub struct CsrAdjacency {
    offsets: Vec<u64>,
    targets: Vec<u64>,
    weighted: bool,
}

impl View for CsrAdjacency {
    type V = Seq<Seq<u64>>;

    /// The neighbors of each vertex, in row order.
    open spec fn view(&self) -> Seq<Seq<u64>> {
        rows_of(self.spec_offsets(), self.spec_targets())
    }
}

impl CsrAdjacency {
    /// Row boundaries into the slot array.
    pub closed spec fn spec_offsets(&self) -> Seq<u64> {
        self.offsets@
    }

    /// Neighbor stored in each slot.
    pub closed spec fn spec_targets(&self) -> Seq<u64> {
        self.targets@
    }

    /// Whether a weight accompanies every slot.
    pub closed spec fn spec_weighted(&self) -> bool {
        self.weighted
    }

    /// Number of vertices.
    pub open spec fn spec_n(&self) -> int {
        self.spec_offsets().len() - 1
    }

    /// Every stored adjacency satisfies the CSR contract.
    #[verifier::type_invariant]
    pub open spec fn valid(&self) -> bool {
        valid_csr(self.spec_n(), self.spec_targets(), self.spec_offsets())
    }

    /// Row `u` lies inside the slot array.
    pub proof fn lemma_row_bounds(&self, u: int)
        requires
            self.valid(),
            0 <= u < self.spec_n(),
        ensures
            self.spec_offsets()[u] <= self.spec_offsets()[u + 1] <= self.spec_targets().len(),
            self.spec_offsets().len() == self.spec_n() + 1,
            self@[u] == self.spec_targets().subrange(self.spec_offsets()[u] as int, self.spec_offsets()[u + 1] as int),
    {
        assert(self.spec_offsets()[u + 1] <= self.spec_offsets()[self.spec_n()]);
    }

    /// The buffers fit in memory: fewer than `usize::MAX` vertices and at most `usize::MAX` slots.
    pub proof fn lemma_sizes_fit(&self)
        ensures
            self.spec_n() < usize::MAX,
            self.spec_targets().len() <= usize::MAX,
    {
        assert(self.offsets.len() == self.offsets@.len());
        assert(self.targets.len() == self.targets@.len());
    }

    /// Validate structure and adopt the buffers; `weighted` records whether a weight
    /// accompanies every slot.
    pub fn try_new(n: usize, targets: Vec<u64>, offsets: Vec<u64>, weighted: bool) -> (r: Result<Self, Error>)
        ensures
            n == usize::MAX ==> r matches Err(Error::Overflow),
            n < usize::MAX ==> (r is Ok <==> valid_csr(n as int, targets@, offsets@)),
            n < usize::MAX && !valid_csr(n as int, targets@, offsets@) ==> r matches Err(
                Error::InvalidGraph(_),
            ),
            r matches Ok(a) ==> a.spec_offsets() == offsets@ && a.spec_targets() == targets@
                && a.spec_weighted() == weighted,
    {
        let n1 = match n.checked_add(1) {
            Some(x) => x,
            None => return Err(Error::Overflow),
        };
        if offsets.len() != n1 {
            return Err(Error::InvalidGraph("offsets must have n+1 entries".to_string()));
        }
        let len = targets.len();
        if offsets[0] != 0 || offsets[n] != len as u64 {
            return Err(
                Error::InvalidGraph("offsets must start at zero and end at target length".to_string()),
            );
        }
        let mut u: usize = 0;
        while u < n
            invariant
                n1 == n + 1,
                offsets.len() == n1,
                targets.len() == len,
                offsets@[0] == 0,
                offsets@[n as int] == len,
                u <= n,
                forall|i: int| 0 <= i < u ==> #[trigger] offsets@[i] <= offsets@[i + 1],
                forall|i: int| 0 <= i <= u ==> #[trigger] offsets@[i] <= len,
                forall|s: int| 0 <= s < offsets@[u as int] ==> #[trigger] targets@[s] < n,
                forall|i: int|
                    0 <= i < u ==> strictly_increasing(
                        #[trigger] row_of(offsets@, targets@, i),
                    ),
            decreases n - u,
        {
            let start = offsets[u];
            let end = offsets[u + 1];
            if start > end || end > len as u64 {
                return Err(
                    Error::InvalidGraph("offsets must be monotone and in bounds".to_string()),
                );
            }
            let lo = start as usize;
            let hi = end as usize;
            let mut s = lo;
            while s < hi
                invariant
                    lo <= s <= hi <= len,
                    n1 == n + 1,
                    targets.len() == len,
                    lo == offsets@[u as int],
                    hi == offsets@[u + 1],
                    u < n,
                    forall|k: int| 0 <= k < s ==> #[trigger] targets@[k] < n,
                    forall|k: int| lo <= k < s && k + 1 < hi ==> #[trigger] targets@[k] < targets@[k + 1],
                decreases hi - s,
            {
                if targets[s] >= n as u64 || (s + 1 < hi && targets[s] >= targets[s + 1]) {
                    proof {
                        if valid_csr(n as int, targets@, offsets@) {
                            let row = row_of(offsets@, targets@, u as int);
                            assert(strictly_increasing(row));
                            if targets@[s as int] >= n {
                                assert(targets_in_range(targets@, n as int));
                            } else {
                                assert(row[s - lo] == targets@[s as int]);
                                assert(row[s + 1 - lo] == targets@[s + 1]);
                            }
                        }
                    }
                    return Err(
                        Error::InvalidGraph(
                            "neighbors must be in range, sorted and unique".to_string(),
                        ),
                    );
                }
                s += 1;
            }
            proof {
                let row = row_of(offsets@, targets@, u as int);
                assert forall|k: int| 0 <= k < row.len() - 1 implies #[trigger] row[k] < row[k + 1] by {
                    assert(row[k] == targets@[lo + k]);
                    assert(row[k + 1] == targets@[lo + k + 1]);
                }
                lemma_strict(row);
            }
            u += 1;
        }
        proof {
            lemma_monotone(offsets@);
        }
        Ok(CsrAdjacency { offsets, targets, weighted })
    }

    /// Adopt parts already known to form a valid CSR.
    pub(crate) fn from_parts(offsets: Vec<u64>, targets: Vec<u64>, weighted: bool) -> (r: Self)
        requires
            valid_csr(offsets@.len() - 1, targets@, offsets@),
        ensures
            r.spec_offsets() == offsets@,
            r.spec_targets() == targets@,
            r.spec_weighted() == weighted,
    {
        CsrAdjacency { offsets, targets, weighted }
    }

    /// Number of vertices.
    pub fn node_count(&self) -> (r: usize)
        ensures
            r == self@.len(),
            r == self.spec_n(),
    {
        proof {
            use_type_invariant(self);
        }
        self.offsets.len() - 1
    }

    /// Whether explicit weights exist, including for empty graphs.
    pub fn is_weighted(&self) -> (r: bool)
        ensures
            r == self.spec_weighted(),
    {
        self.weighted
    }

    /// Number of adjacency slots, including one slot per self-loop.
    pub fn slot_count(&self) -> (r: usize)
        ensures
            r == self.spec_targets().len(),
    {
        self.targets.len()
    }

    /// CSR offsets, relative to the target array.
    pub fn offsets(&self) -> (r: &[u64])
        ensures
            r@ == self.spec_offsets(),
    {
        self.offsets.as_slice()
    }

    /// CSR neighbor IDs.
    pub fn targets(&self) -> (r: &[u64])
        ensures
            r@ == self.spec_targets(),
    {
        self.targets.as_slice()
    }

    /// Checked slot range for a vertex.
    pub fn range(&self, node: NodeId) -> (r: Result<std::ops::Range<usize>, Error>)
        ensures
            node.0 < self.spec_n() ==> (r matches Ok(range) && range.start == self.spec_offsets()[node.0 as int]
                && range.end == self.spec_offsets()[node.0 + 1]),
            node.0 >= self.spec_n() ==> (r matches Err(Error::InvalidNode(x)) && x == node.0),
    {
        proof {
            use_type_invariant(self);
        }
        if node.0 >= (self.offsets.len() - 1) as u64 {
            return Err(Error::InvalidNode(node.0));
        }
        let u = node.0 as usize;
        proof {
            self.lemma_row_bounds(u as int);
        }
        let slots = self.targets.len();
        Ok(self.offsets[u] as usize..self.offsets[u + 1] as usize)
    }

    /// Borrow one neighborhood, checking the vertex ID.
    pub fn neighbors(&self, node: NodeId) -> (r: Result<&[u64], Error>)
        ensures
            node.0 < self.spec_n() ==> (r matches Ok(row) && row@ == self@[node.0 as int]),
            node.0 >= self.spec_n() ==> (r matches Err(Error::InvalidNode(x)) && x == node.0),
    {
        proof {
            use_type_invariant(self);
        }
        let range = self.range(node)?;
        proof {
            assert(self.spec_offsets()[node.0 as int] <= self.spec_offsets()[node.0 + 1]);
            assert(self.spec_offsets()[node.0 + 1] <= self.spec_offsets()[self.spec_n()]);
        }
        Ok(&self.targets.as_slice()[range])
    }

    /// The slot holding `v` in the row of `u`, if any.
    pub fn slot(&self, u: usize, v: u64) -> (r: Option<usize>)
        requires
            u < self.spec_n(),
        ensures
            r is Some <==> self@[u as int].contains(v),
            r matches Some(s) ==> self.spec_offsets()[u as int] <= s < self.spec_offsets()[u + 1]
                && self.spec_targets()[s as int] == v,
    {
        proof {
            use_type_invariant(self);
            self.lemma_row_bounds(u as int);
        }
        let slots = self.targets.len();
        let rows = self.offsets.len();
        let lo = self.offsets[u] as usize;
        let hi = self.offsets[u + 1] as usize;
        proof {
            assert(self.targets@.subrange(lo as int, hi as int) == row_of(self.offsets@, self.targets@, u as int));
        }
        let r = search_sorted(self.targets.as_slice(), lo, hi, v);
        proof {
            let row = self@[u as int];
            if let Some(s) = r {
                assert(row[s - lo] == v);
            } else {
                assert forall|k: int| 0 <= k < row.len() implies row[k] != v by {
                    assert(row[k] == self.targets@[lo + k]);
                }
            }
        }
        r
    }
}

} // verus!
