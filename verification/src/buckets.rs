//! Stable bucketing by a small integer key: the counting sort that builds CSR rows.
use crate::execution::ExecutionContext;
use crate::error::Error;
use vstd::prelude::*;

verus! {

/// How many entries of `s` equal `v`.
pub open spec fn occurrences(s: Seq<u64>, v: int) -> nat
    decreases s.len(),
{
    if s.len() == 0 {
        0
    } else {
        occurrences(s.drop_last(), v) + if s.last() == v { 1nat } else { 0nat }
    }
}

/// How many entries of `s` are below `v`.
pub open spec fn count_below(s: Seq<u64>, v: int) -> nat
    decreases s.len(),
{
    if s.len() == 0 {
        0
    } else {
        count_below(s.drop_last(), v) + if s.last() < v { 1nat } else { 0nat }
    }
}

/// How many entries before index `i` carry the same key as entry `i`.
pub open spec fn rank(s: Seq<u64>, i: int) -> nat {
    occurrences(s.subrange(0, i), s[i] as int)
}

/// Where a stable bucketing by key puts entry `i`.
pub open spec fn position(s: Seq<u64>, i: int) -> int {
    (count_below(s, s[i] as int) + rank(s, i)) as int
}

/// Every key names one of `n` buckets.
pub open spec fn keys_below(s: Seq<u64>, n: int) -> bool {
    forall|i: int| 0 <= i < s.len() ==> #[trigger] s[i] < n
}

pub proof fn lemma_counts_bounded(s: Seq<u64>, v: int)
    ensures
        occurrences(s, v) <= s.len(),
        count_below(s, v) <= s.len(),
    decreases s.len(),
{
    if s.len() > 0 {
        lemma_counts_bounded(s.drop_last(), v);
    }
}

pub proof fn lemma_count_below_zero(s: Seq<u64>)
    ensures
        count_below(s, 0) == 0,
    decreases s.len(),
{
    if s.len() > 0 {
        lemma_count_below_zero(s.drop_last());
    }
}

/// Distinct buckets never share a slot.
pub proof fn lemma_buckets_disjoint(s: Seq<u64>, v: int, w: int, p: int)
    requires
        v != w,
        count_below(s, v) <= p < count_below(s, v + 1),
    ensures
        !(count_below(s, w) <= p < count_below(s, w + 1)),
{
    if v < w {
        lemma_count_below_monotone(s, v + 1, w);
    } else {
        lemma_count_below_monotone(s, w + 1, v);
    }
}

/// Every slot below the total lies in some bucket.
pub proof fn lemma_slot_in_bucket(s: Seq<u64>, n: int, p: int)
    requires
        0 <= p < count_below(s, n),
        0 <= n,
    ensures
        0 <= bucket_index(s, p, n) < n,
        count_below(s, bucket_index(s, p, n)) <= p < count_below(s, bucket_index(s, p, n) + 1),
    decreases n,
{
    lemma_count_below_zero(s);
    if count_below(s, n - 1) > p {
        lemma_slot_in_bucket(s, n - 1, p);
    }
}

/// The bucket below `n` whose slot range holds `p`.
pub open spec fn bucket_index(s: Seq<u64>, p: int, n: int) -> int
    decreases n,
{
    if n <= 1 {
        0
    } else if count_below(s, n - 1) <= p {
        n - 1
    } else {
        bucket_index(s, p, n - 1)
    }
}

pub proof fn lemma_count_below_step(s: Seq<u64>, v: int)
    ensures
        count_below(s, v + 1) == count_below(s, v) + occurrences(s, v),
    decreases s.len(),
{
    if s.len() > 0 {
        lemma_count_below_step(s.drop_last(), v);
    }
}

pub proof fn lemma_count_below_monotone(s: Seq<u64>, v: int, w: int)
    requires
        v <= w,
    ensures
        count_below(s, v) <= count_below(s, w),
    decreases w - v,
{
    if v < w {
        lemma_count_below_monotone(s, v, w - 1);
        lemma_count_below_step(s, w - 1);
    }
}

pub proof fn lemma_count_below_all(s: Seq<u64>, n: int)
    requires
        keys_below(s, n),
    ensures
        count_below(s, n) == s.len(),
    decreases s.len(),
{
    if s.len() > 0 {
        assert(keys_below(s.drop_last(), n)) by {
            assert forall|i: int| 0 <= i < s.drop_last().len() implies #[trigger] s.drop_last()[i] < n by {
                assert(s.drop_last()[i] == s[i]);
            }
        }
        lemma_count_below_all(s.drop_last(), n);
        assert(s[s.len() - 1] < n);
    }
}

pub proof fn lemma_occurrences_extend(s: Seq<u64>, i: int, v: int)
    requires
        0 <= i < s.len(),
    ensures
        occurrences(s.subrange(0, i + 1), v) == occurrences(s.subrange(0, i), v) + if s[i] == v { 1nat } else { 0nat },
{
    assert(s.subrange(0, i + 1).drop_last() =~= s.subrange(0, i));
}

pub proof fn lemma_occurrences_prefix(s: Seq<u64>, i: int, v: int)
    requires
        0 <= i <= s.len(),
    ensures
        occurrences(s.subrange(0, i), v) <= occurrences(s, v),
    decreases s.len() - i,
{
    if i < s.len() {
        lemma_occurrences_prefix(s, i + 1, v);
        lemma_occurrences_extend(s, i, v);
    } else {
        assert(s.subrange(0, i) =~= s);
    }
}

/// Exclusive prefix sums of the key counts: bucket `v` occupies `offsets[v]..offsets[v + 1]`.
pub fn bucket_offsets(n: usize, keys: &[u64], ctx: Option<&ExecutionContext>) -> (r: Result<Vec<u64>, Error>)
    requires
        n < usize::MAX,
        keys_below(keys@, n as int),
    ensures
        r is Err ==> r == Err::<Vec<u64>, Error>(Error::Cancelled) && ctx is Some,
        r matches Ok(offsets) ==> offsets@.len() == n + 1 && (forall|v: int|
            0 <= v <= n ==> #[trigger] offsets@[v] == count_below(keys@, v)),
{
    let m = keys.len();
    let mut offsets: Vec<u64> = vec![0u64; n + 1];
    let mut i: usize = 0;
    while i < m
        invariant
            m == keys@.len(),
            n < usize::MAX,
            keys_below(keys@, n as int),
            i <= m,
            offsets@.len() == n + 1,
            offsets@[0] == 0,
            forall|w: int| 1 <= w <= n ==> #[trigger] offsets@[w] == occurrences(keys@.subrange(0, i as int), w - 1),
        decreases m - i,
    {
        if i % 4096 == 0 {
            if let Some(c) = ctx {
                c.check()?;
            }
        }
        let v = keys[i] as usize;
        proof {
            assert(keys@[i as int] < n);
            lemma_counts_bounded(keys@.subrange(0, i as int), v as int);
            assert forall|w: int| 0 <= w < n implies occurrences(keys@.subrange(0, i + 1), w) == occurrences(keys@.subrange(0, i as int), w) + if keys@[i as int] == w { 1nat } else { 0nat } by {
                lemma_occurrences_extend(keys@, i as int, w);
            }
        }
        offsets.set(v + 1, offsets[v + 1] + 1);
        i += 1;
    }
    proof {
        assert(keys@.subrange(0, m as int) =~= keys@);
        lemma_count_below_zero(keys@);
    }
    let mut u: usize = 0;
    while u < n
        invariant
            m == keys@.len(),
            n < usize::MAX,
            u <= n,
            offsets@.len() == n + 1,
            forall|w: int| 0 <= w <= u ==> #[trigger] offsets@[w] == count_below(keys@, w),
            forall|w: int| u < w <= n ==> #[trigger] offsets@[w] == occurrences(keys@, w - 1),
        decreases n - u,
    {
        proof {
            lemma_count_below_step(keys@, u as int);
            lemma_counts_bounded(keys@, u as int + 1);
        }
        offsets.set(u + 1, offsets[u + 1] + offsets[u]);
        u += 1;
    }
    Ok(offsets)
}

/// Stable placement: `order[p]` is the entry that lands in slot `p`.
pub fn bucket_order(n: usize, keys: &[u64], offsets: &[u64], ctx: Option<&ExecutionContext>) -> (r: Result<Vec<usize>, Error>)
    requires
        n < usize::MAX,
        keys_below(keys@, n as int),
        offsets@.len() == n + 1,
        forall|v: int| 0 <= v <= n ==> #[trigger] offsets@[v] == count_below(keys@, v),
    ensures
        r is Err ==> r == Err::<Vec<usize>, Error>(Error::Cancelled) && ctx is Some,
        r matches Ok(order) ==> {
            &&& order@.len() == keys@.len()
            &&& forall|i: int| 0 <= i < keys@.len() ==> 0 <= #[trigger] position(keys@, i) < keys@.len()
                && order@[position(keys@, i)] == i
            &&& forall|p: int| 0 <= p < keys@.len() ==> #[trigger] order@[p] < keys@.len()
                && position(keys@, order@[p] as int) == p
        },
{
    let m = keys.len();
    proof {
        lemma_count_below_all(keys@, n as int);
    }
    let mut cursor: Vec<u64> = Vec::new();
    let mut k: usize = 0;
    while k < n
        invariant
            k <= n,
            offsets@.len() == n + 1,
            cursor@ == offsets@.subrange(0, k as int),
        decreases n - k,
    {
        cursor.push(offsets[k]);
        k += 1;
    }
    let mut order: Vec<usize> = vec![0usize; m];
    proof {
        assert forall|v: int| 0 <= v < n implies #[trigger] cursor@[v] <= offsets@[v + 1] by {
            lemma_count_below_monotone(keys@, v, v + 1);
        }
        assert forall|v: int| 0 <= v < n implies #[trigger] cursor@[v] == offsets@[v] + occurrences(keys@.subrange(0, 0), v) by {
            assert(keys@.subrange(0, 0).len() == 0);
        }
    }
    let mut i: usize = 0;
    while i < m
        invariant
            m == keys@.len(),
            n < usize::MAX,
            keys_below(keys@, n as int),
            offsets@.len() == n + 1,
            forall|v: int| 0 <= v <= n ==> #[trigger] offsets@[v] == count_below(keys@, v),
            count_below(keys@, n as int) == m,
            i <= m,
            order@.len() == m,
            cursor@.len() == n,
            forall|v: int| 0 <= v < n ==> #[trigger] cursor@[v] == offsets@[v] + occurrences(keys@.subrange(0, i as int), v),
            forall|j: int| 0 <= j < i ==> 0 <= #[trigger] position(keys@, j) < m && order@[position(keys@, j)] == j,
            forall|v: int| 0 <= v < n ==> #[trigger] cursor@[v] <= offsets@[v + 1],
            forall|v: int, p: int|
                #![trigger cursor@[v], order@[p]]
                0 <= v < n && offsets@[v] <= p < cursor@[v] ==> order@[p] < i && keys@[order@[p] as int] == v
                    && position(keys@, order@[p] as int) == p,
        decreases m - i,
    {
        if i % 4096 == 0 {
            if let Some(c) = ctx {
                c.check()?;
            }
        }
        let v = keys[i] as usize;
        proof {
            assert(keys@[i as int] < n);
            lemma_occurrences_extend(keys@, i as int, v as int);
            lemma_occurrences_prefix(keys@, i + 1, v as int);
            lemma_count_below_step(keys@, v as int);
            lemma_count_below_monotone(keys@, v + 1, n as int);
            assert forall|w: int| 0 <= w < n implies occurrences(keys@.subrange(0, i + 1), w) == occurrences(keys@.subrange(0, i as int), w) + if keys@[i as int] == w { 1nat } else { 0nat } by {
                lemma_occurrences_extend(keys@, i as int, w);
            }
        }
        let p = cursor[v] as usize;
        proof {
            assert(p == position(keys@, i as int));
            assert forall|j: int| 0 <= j < i implies position(keys@, j) != p by {
                let w = keys@[j] as int;
                assert(keys@[j] < n);
                lemma_occurrences_prefix(keys@.subrange(0, i as int), j, w);
                assert(keys@.subrange(0, i as int).subrange(0, j) =~= keys@.subrange(0, j));
                lemma_occurrences_extend(keys@.subrange(0, i as int), j, w);
                assert(keys@.subrange(0, i as int).subrange(0, j + 1) =~= keys@.subrange(0, j + 1));
                lemma_occurrences_prefix(keys@.subrange(0, i as int), j + 1, w);
                if w < v {
                    lemma_count_below_step(keys@, w);
                    lemma_count_below_monotone(keys@, w + 1, v as int);
                    lemma_occurrences_prefix(keys@, i as int, w);
                } else if w > v {
                    lemma_count_below_monotone(keys@, v + 1, w);
                }
            }
        }
        let ghost old_order = order@;
        let ghost old_cursor = cursor@;
        order.set(p, i);
        cursor.set(v, cursor[v] + 1);
        proof {
            assert forall|w: int, q: int|
                #![trigger cursor@[w], order@[q]]
                0 <= w < n && offsets@[w] <= q < cursor@[w] implies order@[q] < i + 1 && keys@[order@[q] as int] == w
                    && position(keys@, order@[q] as int) == q by {
                if q == p {
                    if w != v {
                        assert(old_cursor[w] <= offsets@[w + 1]);
                        lemma_buckets_disjoint(keys@, v as int, w, q);
                    }
                } else {
                    assert(old_order[q] == order@[q]);
                    assert(offsets@[w] <= q < old_cursor[w]);
                    assert(old_cursor[w] == old_cursor[w]);
                    assert(old_order[q] < i);
                }
            }
            assert forall|w: int| 0 <= w < n implies #[trigger] cursor@[w] <= offsets@[w + 1] by {
                if w != v {
                    assert(old_cursor[w] <= offsets@[w + 1]);
                }
            }
        }
        i += 1;
    }
    proof {
        assert(keys@.subrange(0, m as int) =~= keys@);
        assert forall|i: int| 0 <= i < m implies 0 <= #[trigger] position(keys@, i) < m by {
            let v = keys@[i] as int;
            assert(keys@[i] < n);
            lemma_occurrences_extend(keys@, i, v);
            lemma_occurrences_prefix(keys@, i + 1, v);
            lemma_count_below_step(keys@, v);
            lemma_count_below_monotone(keys@, v + 1, n as int);
        }
        assert forall|p: int| 0 <= p < m implies #[trigger] order@[p] < m && position(keys@, order@[p] as int) == p by {
            lemma_slot_in_bucket(keys@, n as int, p);
            let v = bucket_index(keys@, p, n as int);
            lemma_count_below_step(keys@, v);
            assert(cursor@[v] == offsets@[v + 1]);
            assert(cursor@[v] == cursor@[v]);
            assert(order@[p] == order@[p]);
        }
    }
    Ok(order)
}

/// Entries with the same key keep their order under bucketing.
pub proof fn lemma_rank_monotone(keys: Seq<u64>, i: int, j: int)
    requires
        0 <= i < j < keys.len(),
        keys[i] == keys[j],
    ensures
        rank(keys, i) < rank(keys, j),
{
    let v = keys[i] as int;
    lemma_occurrences_extend(keys, i, v);
    lemma_occurrences_prefix(keys.subrange(0, j), i + 1, v);
    assert(keys.subrange(0, j).subrange(0, i + 1) =~= keys.subrange(0, i + 1));
}

/// Entry `i` lands inside the bucket of its key.
pub proof fn lemma_position_in_bucket(keys: Seq<u64>, i: int)
    requires
        0 <= i < keys.len(),
    ensures
        count_below(keys, keys[i] as int) <= position(keys, i) < count_below(keys, keys[i] + 1),
{
    let v = keys[i] as int;
    lemma_occurrences_extend(keys, i, v);
    lemma_occurrences_prefix(keys, i + 1, v);
    lemma_count_below_step(keys, v);
}

/// Bucketing orders entries by key, and entries with equal keys by their index in the input.
pub proof fn lemma_order_sorted(keys: Seq<u64>, n: int, order: Seq<usize>, p: int, q: int)
    requires
        keys_below(keys, n),
        order.len() == keys.len(),
        forall|x: int| 0 <= x < keys.len() ==> #[trigger] order[x] < keys.len()
            && position(keys, order[x] as int) == x,
        0 <= p < q < keys.len(),
    ensures
        keys[order[p] as int] <= keys[order[q] as int],
        keys[order[p] as int] == keys[order[q] as int] ==> order[p] < order[q],
{
    let i = order[p] as int;
    let j = order[q] as int;
    assert(position(keys, i) == p);
    assert(position(keys, j) == q);
    lemma_position_in_bucket(keys, i);
    lemma_position_in_bucket(keys, j);
    if keys[i] > keys[j] {
        lemma_count_below_monotone(keys, keys[j] + 1, keys[i] as int);
    }
    if keys[i] == keys[j] && i > j {
        lemma_rank_monotone(keys, j, i);
    }
}

} // verus!
