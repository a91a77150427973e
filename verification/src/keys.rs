//! External node IDs: mapping a node table's ID column to dense vertices, and resolving
//! edge endpoints through that mapping.
use crate::builder::{build, edge_arc, has_slot, simple_edges, slot_of_edge, slot_pair, Edge};
use crate::graph::{opt_view, properties_valid, Graph};
use crate::topology::has_arc;
use crate::transpose::{lemma_row_index_bounds, monotone, row_index};
use crate::error::Error;
use crate::execution::ExecutionContext;
use vstd::hash_map::{HashMapWithView, StringHashMap};
use vstd::prelude::*;

verus! {

broadcast use vstd::std_specs::hash::group_hash_axioms;

/// A column of external node IDs as the table holds it: integers, text, or another type,
/// with `None` for a null entry.
#[derive(Debug)]
pub enum KeyColumn {
    Unsigned(Vec<Option<u64>>),
    Signed(Vec<Option<i64>>),
    Text(Vec<Option<String>>),
    /// A column of a type that cannot hold IDs, with its number of rows.
    Unsupported(usize),
}

/// Number of rows in the column.
pub open spec fn key_rows(c: KeyColumn) -> int {
    match c {
        KeyColumn::Unsigned(v) => v@.len() as int,
        KeyColumn::Signed(v) => v@.len() as int,
        KeyColumn::Text(v) => v@.len() as int,
        KeyColumn::Unsupported(n) => n as int,
    }
}

/// Row `i` holds a usable ID: not null, in a supported column.
pub open spec fn keyed(c: KeyColumn, i: int) -> bool {
    match c {
        KeyColumn::Unsigned(v) => v@[i] is Some,
        KeyColumn::Signed(v) => v@[i] is Some,
        KeyColumn::Text(v) => v@[i] is Some,
        KeyColumn::Unsupported(_) => false,
    }
}

/// Row `i` of `a` and row `j` of `b` hold the same ID.
pub open spec fn same_key(a: KeyColumn, i: int, b: KeyColumn, j: int) -> bool {
    match (a, b) {
        (KeyColumn::Unsigned(x), KeyColumn::Unsigned(y)) => x@[i] is Some && y@[j] is Some && x@[i]->0 == y@[j]->0,
        (KeyColumn::Signed(x), KeyColumn::Signed(y)) => x@[i] is Some && y@[j] is Some && x@[i]->0 == y@[j]->0,
        (KeyColumn::Text(x), KeyColumn::Text(y)) => x@[i] is Some && y@[j] is Some && x@[i]->0@ == y@[j]->0@,
        _ => false,
    }
}

/// Every row holds an ID and no two rows hold the same one.
pub open spec fn unique_keys(c: KeyColumn) -> bool {
    &&& forall|i: int| 0 <= i < key_rows(c) ==> #[trigger] keyed(c, i)
    &&& forall|i: int, j: int| 0 <= i < j < key_rows(c) ==> !#[trigger] same_key(c, i, c, j)
}

/// Some node row holds the ID of row `i` of `c`.
pub open spec fn resolvable(nodes: KeyColumn, c: KeyColumn, i: int) -> bool {
    exists|a: int| 0 <= a < key_rows(nodes) && #[trigger] same_key(nodes, a, c, i)
}

/// The integer used as the map key of a signed ID: its two's-complement bits.
pub open spec fn signed_bits(v: i64) -> u64 {
    v as u64
}

proof fn lemma_signed_bits_injective(a: i64, b: i64)
    ensures
        signed_bits(a) == signed_bits(b) <==> a == b,
{
    assert(a as u64 == b as u64 <==> a == b) by (bit_vector);
}

/// Which kind of ID column a node table has.
#[derive(Debug, Clone, Copy, PartialEq, Eq, Structural)]
enum KeyKind {
    Unsigned,
    Signed,
    Text,
    Unsupported,
}

/// The dense vertex of every external ID of a node table.
pub struct NodeIndex {
    kind: KeyKind,
    count: usize,
    numbers: HashMapWithView<u64, u64>,
    texts: StringHashMap<u64>,
    nodes: Ghost<KeyColumn>,
}

impl NodeIndex {
    /// The node ID column the index was built from.
    pub closed spec fn spec_nodes(&self) -> KeyColumn {
        self.nodes@
    }

    /// Every ID maps to its row, and nothing else is mapped.
    #[verifier::type_invariant]
    spec fn maps_rows(&self) -> bool {
        &&& unique_keys(self.nodes@)
        &&& key_rows(self.nodes@) <= u64::MAX
        &&& self.count == key_rows(self.nodes@)
        &&& self.kind == match self.nodes@ {
            KeyColumn::Unsigned(_) => KeyKind::Unsigned,
            KeyColumn::Signed(_) => KeyKind::Signed,
            KeyColumn::Text(_) => KeyKind::Text,
            KeyColumn::Unsupported(_) => KeyKind::Unsupported,
        }
        &&& match self.nodes@ {
            KeyColumn::Unsigned(v) => {
                &&& forall|i: int| 0 <= i < v@.len() ==> #[trigger] self.numbers@.contains_key(v@[i]->0)
                    && self.numbers@[v@[i]->0] == i
                &&& forall|k: u64| #[trigger] self.numbers@.contains_key(k) ==> 0 <= self.numbers@[k] < v@.len()
                    && v@[self.numbers@[k] as int] == Some(k)
            },
            KeyColumn::Signed(v) => {
                &&& forall|i: int| 0 <= i < v@.len() ==> #[trigger] self.numbers@.contains_key(signed_bits(v@[i]->0))
                    && self.numbers@[signed_bits(v@[i]->0)] == i
                &&& forall|k: u64| #[trigger] self.numbers@.contains_key(k) ==> 0 <= self.numbers@[k] < v@.len()
                    && signed_bits(v@[self.numbers@[k] as int]->0) == k
            },
            KeyColumn::Text(v) => {
                &&& forall|i: int| 0 <= i < v@.len() ==> #[trigger] self.texts@.contains_key(v@[i]->0@)
                    && self.texts@[v@[i]->0@] == i
                &&& forall|k: Seq<char>| #[trigger] self.texts@.contains_key(k) ==> 0 <= self.texts@[k] < v@.len()
                    && v@[self.texts@[k] as int] is Some && v@[self.texts@[k] as int]->0@ == k
            },
            KeyColumn::Unsupported(n) => n == 0,
        }
    }

    /// Number of node rows.
    pub fn node_count(&self) -> (r: usize)
        ensures
            r == key_rows(self.spec_nodes()),
    {
        proof {
            use_type_invariant(self);
        }
        self.count
    }

    /// Map each external ID to its row, refusing null, duplicate and unsupported IDs.
    pub fn build(nodes: KeyColumn, ctx: &ExecutionContext) -> (r: Result<Self, Error>)
        ensures
            r matches Ok(ix) ==> ix.spec_nodes() == nodes,
            r is Ok ==> unique_keys(nodes),
            unique_keys(nodes) ==> (r is Ok || r matches Err(Error::Cancelled)),
            r is Err ==> (r matches Err(Error::Cancelled) || r matches Err(Error::InvalidGraph(_))),
    {
        let mut numbers: HashMapWithView<u64, u64> = HashMapWithView::new();
        let mut texts: StringHashMap<u64> = StringHashMap::new();
        let kind = match &nodes {
            KeyColumn::Unsigned(_) => KeyKind::Unsigned,
            KeyColumn::Signed(_) => KeyKind::Signed,
            KeyColumn::Text(_) => KeyKind::Text,
            KeyColumn::Unsupported(_) => KeyKind::Unsupported,
        };
        let count = match &nodes {
            KeyColumn::Unsigned(v) => v.len(),
            KeyColumn::Signed(v) => v.len(),
            KeyColumn::Text(v) => v.len(),
            KeyColumn::Unsupported(n) => *n,
        };
        match &nodes {
            KeyColumn::Unsigned(v) => {
                let mut i: usize = 0;
                while i < v.len()
                    invariant
                        i <= v@.len(),
                        nodes == KeyColumn::Unsigned(*v),
                        numbers@.dom().finite(),
                        forall|a: int| 0 <= a < i ==> #[trigger] v@[a] is Some,
                        forall|a: int, b: int| #![trigger v@[a], v@[b]] 0 <= a < b < i ==> v@[a]->0 != v@[b]->0,
                        forall|a: int| 0 <= a < i ==> #[trigger] numbers@.contains_key(v@[a]->0) && numbers@[v@[a]->0] == a,
                        forall|k: u64| #[trigger] numbers@.contains_key(k) ==> 0 <= numbers@[k] < i && v@[numbers@[k] as int] == Some(k),
                    decreases v@.len() - i,
                {
                    if i % 4096 == 0 {
                        if let Err(e) = ctx.check() {
                            return Err(e);
                        }
                    }
                    let key = match v[i] {
                        Some(k) => k,
                        None => {
                            proof {
                                assert(!keyed(nodes, i as int));
                            }
                            return Err(Error::InvalidGraph("external IDs cannot be null".to_string()));
                        },
                    };
                    if numbers.contains_key(&key) {
                        proof {
                            let a = numbers@[key] as int;
                            assert(same_key(nodes, a, nodes, i as int));
                        }
                        return Err(Error::InvalidGraph("duplicate external node ID".to_string()));
                    }
                    numbers.insert(key, i as u64);
                    i = i + 1;
                }
            },
            KeyColumn::Signed(v) => {
                let mut i: usize = 0;
                while i < v.len()
                    invariant
                        i <= v@.len(),
                        nodes == KeyColumn::Signed(*v),
                        forall|a: int| 0 <= a < i ==> #[trigger] v@[a] is Some,
                        forall|a: int, b: int| #![trigger v@[a], v@[b]] 0 <= a < b < i ==> v@[a]->0 != v@[b]->0,
                        forall|a: int| 0 <= a < i ==> #[trigger] numbers@.contains_key(signed_bits(v@[a]->0))
                            && numbers@[signed_bits(v@[a]->0)] == a,
                        forall|k: u64| #[trigger] numbers@.contains_key(k) ==> 0 <= numbers@[k] < i && signed_bits(
                            v@[numbers@[k] as int]->0,
                        ) == k,
                    decreases v@.len() - i,
                {
                    if i % 4096 == 0 {
                        if let Err(e) = ctx.check() {
                            return Err(e);
                        }
                    }
                    let key = match v[i] {
                        Some(k) => k,
                        None => {
                            proof {
                                assert(!keyed(nodes, i as int));
                            }
                            return Err(Error::InvalidGraph("external IDs cannot be null".to_string()));
                        },
                    };
                    let bits = key as u64;
                    if numbers.contains_key(&bits) {
                        proof {
                            let a = numbers@[bits] as int;
                            lemma_signed_bits_injective(v@[a]->0, key);
                            assert(same_key(nodes, a, nodes, i as int));
                        }
                        return Err(Error::InvalidGraph("duplicate external node ID".to_string()));
                    }
                    proof {
                        assert forall|a: int| 0 <= a < i implies v@[a]->0 != key by {
                            assert(numbers@.contains_key(signed_bits(v@[a]->0)));
                            assert(bits == signed_bits(key));
                        }
                    }
                    numbers.insert(bits, i as u64);
                    i = i + 1;
                }
            },
            KeyColumn::Text(v) => {
                let mut i: usize = 0;
                while i < v.len()
                    invariant
                        i <= v@.len(),
                        nodes == KeyColumn::Text(*v),
                        forall|a: int| 0 <= a < i ==> #[trigger] v@[a] is Some,
                        forall|a: int, b: int| #![trigger v@[a], v@[b]] 0 <= a < b < i ==> v@[a]->0@ != v@[b]->0@,
                        forall|a: int| 0 <= a < i ==> #[trigger] texts@.contains_key(v@[a]->0@) && texts@[v@[a]->0@] == a,
                        forall|k: Seq<char>| #[trigger] texts@.contains_key(k) ==> 0 <= texts@[k] < i && v@[texts@[k] as int] is Some
                            && v@[texts@[k] as int]->0@ == k,
                    decreases v@.len() - i,
                {
                    if i % 4096 == 0 {
                        if let Err(e) = ctx.check() {
                            return Err(e);
                        }
                    }
                    let key = match &v[i] {
                        Some(k) => k,
                        None => {
                            proof {
                                assert(!keyed(nodes, i as int));
                            }
                            return Err(Error::InvalidGraph("external IDs cannot be null".to_string()));
                        },
                    };
                    if texts.contains_key(key.as_str()) {
                        proof {
                            let a = texts@[key@] as int;
                            assert(same_key(nodes, a, nodes, i as int));
                        }
                        return Err(Error::InvalidGraph("duplicate external node ID".to_string()));
                    }
                    texts.insert(key.clone(), i as u64);
                    i = i + 1;
                }
            },
            KeyColumn::Unsupported(n) => {
                if *n > 0 {
                    proof {
                        assert(!keyed(nodes, 0));
                    }
                    return Err(
                        Error::InvalidGraph(
                            "external IDs must be Int64, UInt64 or Utf8; decode dictionaries first".to_string(),
                        ),
                    );
                }
            },
        }
        Ok(NodeIndex { kind, count, numbers, texts, nodes: Ghost(nodes) })
    }

    /// The node row whose ID row `j` of `c` holds, if any; a null or unsupported ID is an error.
    fn find(&self, c: &KeyColumn, j: usize) -> (r: Result<Option<u64>, Error>)
        requires
            j < key_rows(*c),
        ensures
            r is Err <==> !keyed(*c, j as int),
            r is Err ==> r matches Err(Error::InvalidGraph(_)),
            r matches Ok(Some(a)) ==> a < key_rows(self.spec_nodes()) && same_key(self.spec_nodes(), a as int, *c, j as int),
            r matches Ok(None) ==> forall|a: int| 0 <= a < key_rows(self.spec_nodes()) ==> !#[trigger] same_key(
                self.spec_nodes(),
                a,
                *c,
                j as int,
            ),
    {
        proof {
            use_type_invariant(self);
        }
        match c {
            KeyColumn::Unsigned(v) => {
                let k = match v[j] {
                    Some(k) => k,
                    None => return Err(Error::InvalidGraph("external IDs cannot be null".to_string())),
                };
                if self.kind != KeyKind::Unsigned {
                    return Ok(None);
                }
                match self.numbers.get(&k) {
                    Some(a) => {
                        proof {
                            assert(self.spec_nodes() is Unsigned);
                            let w = self.spec_nodes()->Unsigned_0;
                            assert(self.numbers@.contains_key(k));
                            assert(w@[*a as int] == Some(k));
                            assert(v@[j as int] == Some(k));
                            assert(*c == KeyColumn::Unsigned(*v));
                            assert(same_key(self.spec_nodes(), *a as int, *c, j as int));
                        }
                        Ok(Some(*a))
                    },
                    None => {
                        proof {
                            assert forall|a: int| 0 <= a < key_rows(self.spec_nodes()) && #[trigger] same_key(self.spec_nodes(), a, *c, j as int) implies false by {
                                let w = self.spec_nodes()->Unsigned_0;
                                assert(self.numbers@.contains_key(w@[a]->0));
                            }
                        }
                        Ok(None)
                    },
                }
            },
            KeyColumn::Signed(v) => {
                let k = match v[j] {
                    Some(k) => k,
                    None => return Err(Error::InvalidGraph("external IDs cannot be null".to_string())),
                };
                if self.kind != KeyKind::Signed {
                    return Ok(None);
                }
                let bits = k as u64;
                proof {
                    assert(bits == signed_bits(k));
                    assert forall|a: int| 0 <= a < key_rows(self.spec_nodes()) && #[trigger] same_key(self.spec_nodes(), a, *c, j as int) implies self.numbers@.contains_key(bits) && self.numbers@[bits] == a by {
                        let w = self.spec_nodes()->Signed_0;
                        assert(self.numbers@.contains_key(signed_bits(w@[a]->0)));
                    }
                }
                match self.numbers.get(&bits) {
                    Some(a) => {
                        proof {
                            assert(self.spec_nodes() is Signed);
                            let w = self.spec_nodes()->Signed_0;
                            assert(self.numbers@.contains_key(bits));
                            assert(keyed(self.spec_nodes(), *a as int));
                            assert(signed_bits(w@[*a as int]->0) == signed_bits(k));
                            lemma_signed_bits_injective(w@[*a as int]->0, k);
                            assert(*c == KeyColumn::Signed(*v));
                            assert(same_key(self.spec_nodes(), *a as int, *c, j as int));
                        }
                        Ok(Some(*a))
                    },
                    None => Ok(None),
                }
            },
            KeyColumn::Text(v) => {
                let k = match &v[j] {
                    Some(k) => k,
                    None => return Err(Error::InvalidGraph("external IDs cannot be null".to_string())),
                };
                if self.kind != KeyKind::Text {
                    return Ok(None);
                }
                match self.texts.get(k.as_str()) {
                    Some(a) => {
                        proof {
                            assert(self.texts@.contains_key(k@));
                        }
                        Ok(Some(*a))
                    },
                    None => {
                        proof {
                            assert forall|a: int| 0 <= a < key_rows(self.spec_nodes()) && #[trigger] same_key(self.spec_nodes(), a, *c, j as int) implies false by {
                                let w = self.spec_nodes()->Text_0;
                                assert(self.texts@.contains_key(w@[a]->0@));
                            }
                        }
                        Ok(None)
                    },
                }
            },
            KeyColumn::Unsupported(_) => Err(
                Error::InvalidGraph(
                    "external IDs must be Int64, UInt64 or Utf8; decode dictionaries first".to_string(),
                ),
            ),
        }
    }

    /// Resolve every edge row's endpoints to node rows.
    pub fn resolve(&self, sources: &KeyColumn, targets: &KeyColumn, ctx: &ExecutionContext) -> (r: Result<Vec<Edge>, Error>)
        requires
            key_rows(*sources) == key_rows(*targets),
        ensures
            r matches Ok(edges) ==> edges@.len() == key_rows(*sources) && forall|i: int|
                #![trigger edges@[i]]
                0 <= i < edges@.len() ==> edges@[i].source < key_rows(self.spec_nodes()) && edges@[i].target
                    < key_rows(self.spec_nodes()) && same_key(self.spec_nodes(), edges@[i].source as int, *sources, i)
                    && same_key(self.spec_nodes(), edges@[i].target as int, *targets, i),
            (forall|i: int|
                0 <= i < key_rows(*sources) ==> #[trigger] resolvable(self.spec_nodes(), *sources, i) && resolvable(
                    self.spec_nodes(),
                    *targets,
                    i,
                )) ==> (r is Ok || r matches Err(Error::Cancelled)),
            r is Err ==> (r matches Err(Error::Cancelled) || r matches Err(Error::InvalidGraph(_))),
    {
        let rows = match sources {
            KeyColumn::Unsigned(v) => v.len(),
            KeyColumn::Signed(v) => v.len(),
            KeyColumn::Text(v) => v.len(),
            KeyColumn::Unsupported(n) => *n,
        };
        let mut edges: Vec<Edge> = Vec::new();
        let mut i: usize = 0;
        while i < rows
            invariant
                rows == key_rows(*sources),
                rows == key_rows(*targets),
                i <= rows,
                edges@.len() == i,
                forall|x: int|
                    #![trigger edges@[x]]
                    0 <= x < i ==> edges@[x].source < key_rows(self.spec_nodes()) && edges@[x].target < key_rows(
                        self.spec_nodes(),
                    ) && same_key(self.spec_nodes(), edges@[x].source as int, *sources, x) && same_key(
                        self.spec_nodes(),
                        edges@[x].target as int,
                        *targets,
                        x,
                    ),
            decreases rows - i,
        {
            if i % 4096 == 0 {
                if let Err(e) = ctx.check() {
                    return Err(e);
                }
            }
            let u = match self.find(sources, i) {
                Ok(Some(u)) => u,
                Ok(None) => {
                    proof {
                        assert(!resolvable(self.spec_nodes(), *sources, i as int));
                    }
                    return Err(Error::InvalidGraph("source not in node table".to_string()));
                },
                Err(e) => {
                    proof {
                        assert(!resolvable(self.spec_nodes(), *sources, i as int));
                    }
                    return Err(e);
                },
            };
            let v = match self.find(targets, i) {
                Ok(Some(v)) => v,
                Ok(None) => {
                    proof {
                        assert(resolvable(self.spec_nodes(), *sources, i as int));
                        assert(!resolvable(self.spec_nodes(), *targets, i as int));
                    }
                    return Err(Error::InvalidGraph("target not in node table".to_string()));
                },
                Err(e) => {
                    proof {
                        assert(resolvable(self.spec_nodes(), *sources, i as int));
                        assert(!resolvable(self.spec_nodes(), *targets, i as int));
                    }
                    return Err(e);
                },
            };
            edges.push(Edge { source: u, target: v });
            i = i + 1;
        }
        Ok(edges)
    }
}

/// Edge row `i` runs from the node with ID row `u` to the one with ID row `v` (either way
/// round when undirected).
pub open spec fn table_arc(nodes: KeyColumn, sources: KeyColumn, targets: KeyColumn, directed: bool, u: int, v: int) -> bool {
    &&& 0 <= u < key_rows(nodes)
    &&& 0 <= v < key_rows(nodes)
    &&& exists|i: int| 0 <= i < key_rows(sources) && #[trigger] row_arc(nodes, sources, targets, directed, u, v, i)
}

/// Edge row `i` runs from ID row `u` to ID row `v`, either way round when undirected.
pub open spec fn row_arc(nodes: KeyColumn, sources: KeyColumn, targets: KeyColumn, directed: bool, u: int, v: int, i: int) -> bool {
    (same_key(nodes, u, sources, i) && same_key(nodes, v, targets, i)) || (!directed && same_key(nodes, v, sources, i)
        && same_key(nodes, u, targets, i))
}

/// Every edge row's source and target IDs are IDs of node rows.
pub open spec fn all_resolvable(nodes: KeyColumn, sources: KeyColumn, targets: KeyColumn) -> bool {
    forall|i: int|
        0 <= i < key_rows(sources) ==> #[trigger] resolvable(nodes, sources, i) && resolvable(nodes, targets, i)
}

/// No two edge rows store the same arc between node rows.
pub open spec fn simple_table(nodes: KeyColumn, sources: KeyColumn, targets: KeyColumn, directed: bool) -> bool {
    forall|i: int, j: int, u: int, v: int|
        #![trigger row_arc(nodes, sources, targets, directed, u, v, i), row_arc(nodes, sources, targets, directed, u, v, j)]
        0 <= i < key_rows(sources) && 0 <= j < key_rows(sources) && i != j && 0 <= u < key_rows(nodes) && 0 <= v
            < key_rows(nodes) && row_arc(nodes, sources, targets, directed, u, v, i) ==> !row_arc(
            nodes,
            sources,
            targets,
            directed,
            u,
            v,
            j,
        )
}

/// Edge `e`, resolved from row `i`, stores the arc `u -> v` exactly when row `i` runs from
/// `u` to `v` (either way round when undirected).
proof fn lemma_row_arc_slot(
    nodes: KeyColumn,
    sources: KeyColumn,
    targets: KeyColumn,
    directed: bool,
    e: Edge,
    i: int,
    u: int,
    v: int,
)
    requires
        unique_keys(nodes),
        key_rows(nodes) <= u64::MAX,
        0 <= u < key_rows(nodes),
        0 <= v < key_rows(nodes),
        e.source < key_rows(nodes),
        e.target < key_rows(nodes),
        same_key(nodes, e.source as int, sources, i),
        same_key(nodes, e.target as int, targets, i),
    ensures
        row_arc(nodes, sources, targets, directed, u, v, i) <==> exists|a: bool|
            has_slot(e, directed, a) && #[trigger] slot_pair(e, a) == (u as u64, v as u64),
{
    if row_arc(nodes, sources, targets, directed, u, v, i) {
        if same_key(nodes, u, sources, i) && same_key(nodes, v, targets, i) {
            lemma_same_node(nodes, sources, u, e.source as int, i);
            lemma_same_node(nodes, targets, v, e.target as int, i);
            assert(has_slot(e, directed, false) && slot_pair(e, false) == (u as u64, v as u64));
        } else {
            lemma_same_node(nodes, sources, v, e.source as int, i);
            lemma_same_node(nodes, targets, u, e.target as int, i);
            if e.source == e.target {
                assert(has_slot(e, directed, false) && slot_pair(e, false) == (u as u64, v as u64));
            } else {
                assert(has_slot(e, directed, true) && slot_pair(e, true) == (u as u64, v as u64));
            }
        }
    }
    if exists|a: bool| has_slot(e, directed, a) && #[trigger] slot_pair(e, a) == (u as u64, v as u64) {
        let a = choose|a: bool| has_slot(e, directed, a) && #[trigger] slot_pair(e, a) == (u as u64, v as u64);
        if a {
            assert(same_key(nodes, v, sources, i) && same_key(nodes, u, targets, i));
        } else {
            assert(same_key(nodes, u, sources, i) && same_key(nodes, v, targets, i));
        }
    }
}

/// The resolved edges form a simple graph exactly when no two edge rows store the same arc.
proof fn lemma_simple_table(nodes: KeyColumn, sources: KeyColumn, targets: KeyColumn, directed: bool, edges: Seq<Edge>)
    requires
        unique_keys(nodes),
        key_rows(nodes) <= u64::MAX,
        edges.len() == key_rows(sources),
        forall|x: int|
            0 <= x < edges.len() ==> #[trigger] edges[x].source < key_rows(nodes) && edges[x].target < key_rows(nodes)
                && same_key(nodes, edges[x].source as int, sources, x) && same_key(nodes, edges[x].target as int, targets, x),
    ensures
        simple_table(nodes, sources, targets, directed) <==> simple_edges(edges, directed),
{
    if simple_table(nodes, sources, targets, directed) {
        assert forall|j: int, k: int, a: bool, b: bool|
            0 <= j < edges.len() && 0 <= k < edges.len() && (j != k || a != b) && has_slot(edges[j], directed, a)
                && has_slot(edges[k], directed, b) implies #[trigger] slot_pair(edges[j], a) != #[trigger] slot_pair(edges[k], b) by {
            if slot_pair(edges[j], a) == slot_pair(edges[k], b) && j != k {
                let p = slot_pair(edges[j], a);
                let (u, v) = (p.0 as int, p.1 as int);
                assert(edges[j].source < key_rows(nodes) && edges[k].source < key_rows(nodes));
                assert(0 <= u < key_rows(nodes) && 0 <= v < key_rows(nodes));
                lemma_row_arc_slot(nodes, sources, targets, directed, edges[j], j, u, v);
                lemma_row_arc_slot(nodes, sources, targets, directed, edges[k], k, u, v);
                assert(row_arc(nodes, sources, targets, directed, u, v, j));
                assert(row_arc(nodes, sources, targets, directed, u, v, k));
            }
        }
    }
    if simple_edges(edges, directed) {
        assert forall|i: int, j: int, u: int, v: int|
            0 <= i < key_rows(sources) && 0 <= j < key_rows(sources) && i != j && 0 <= u < key_rows(nodes) && 0 <= v
                < key_rows(nodes) && #[trigger] row_arc(nodes, sources, targets, directed, u, v, i) implies !#[trigger] row_arc(
            nodes,
            sources,
            targets,
            directed,
            u,
            v,
            j,
        ) by {
            lemma_row_arc_slot(nodes, sources, targets, directed, edges[i], i, u, v);
            lemma_row_arc_slot(nodes, sources, targets, directed, edges[j], j, u, v);
            let a = choose|a: bool| has_slot(edges[i], directed, a) && #[trigger] slot_pair(edges[i], a) == (u as u64, v as u64);
            if row_arc(nodes, sources, targets, directed, u, v, j) {
                let b = choose|b: bool| has_slot(edges[j], directed, b) && #[trigger] slot_pair(edges[j], b) == (u as u64, v as u64);
                assert(slot_pair(edges[i], a) != slot_pair(edges[j], b));
            }
        }
    }
}

proof fn lemma_same_node(nodes: KeyColumn, c: KeyColumn, a: int, b: int, i: int)
    requires
        unique_keys(nodes),
        0 <= a < key_rows(nodes),
        0 <= b < key_rows(nodes),
        same_key(nodes, a, c, i),
        same_key(nodes, b, c, i),
    ensures
        a == b,
{
    if a < b {
        assert(same_key(nodes, a, nodes, b));
    } else if b < a {
        assert(same_key(nodes, b, nodes, a));
    }
}

proof fn lemma_table_arcs(
    nodes: KeyColumn,
    sources: KeyColumn,
    targets: KeyColumn,
    directed: bool,
    edges: Seq<Edge>,
    rows: Seq<Seq<u64>>,
)
    requires
        unique_keys(nodes),
        key_rows(nodes) <= u64::MAX,
        edges.len() == key_rows(sources),
        forall|x: int|
            0 <= x < edges.len() ==> #[trigger] edges[x].source < key_rows(nodes) && edges[x].target < key_rows(nodes)
                && same_key(nodes, edges[x].source as int, sources, x) && same_key(nodes, edges[x].target as int, targets, x),
        forall|u: int, v: int| #[trigger] has_arc(rows, u, v) <==> edge_arc(edges, directed, u, v),
    ensures
        forall|u: int, v: int| #[trigger] has_arc(rows, u, v) <==> table_arc(nodes, sources, targets, directed, u, v),
{
    assert forall|u: int, v: int| edge_arc(edges, directed, u, v) implies table_arc(nodes, sources, targets, directed, u, v) by {
        let (k, rev) = choose|k: int, rev: bool|
            0 <= k < edges.len() && has_slot(edges[k], directed, rev) && #[trigger] slot_pair(edges[k], rev) == (
                u as u64,
                v as u64,
            );
        let e = edges[k];
        assert(e.source < key_rows(nodes) && e.target < key_rows(nodes));
        if !rev {
            assert(e.source as int == u && e.target as int == v);
            assert(same_key(nodes, u, sources, k) && same_key(nodes, v, targets, k));
        } else {
            assert(e.target as int == u && e.source as int == v);
            assert(same_key(nodes, v, sources, k) && same_key(nodes, u, targets, k));
            assert(same_key(nodes, u, sources, k) || !same_key(nodes, u, sources, k));
        }
        assert(0 <= u < key_rows(nodes));
        assert(0 <= v < key_rows(nodes));
        assert(0 <= k < key_rows(sources));
        assert(row_arc(nodes, sources, targets, directed, u, v, k));
    }
    assert forall|u: int, v: int| table_arc(nodes, sources, targets, directed, u, v) implies edge_arc(edges, directed, u, v) by {
        let i = choose|i: int| 0 <= i < key_rows(sources) && #[trigger] row_arc(nodes, sources, targets, directed, u, v, i);
        let e = edges[i];
        assert(e.source < key_rows(nodes));
        if same_key(nodes, u, sources, i) && same_key(nodes, v, targets, i) {
            lemma_same_node(nodes, sources, u, e.source as int, i);
            lemma_same_node(nodes, targets, v, e.target as int, i);
            assert(slot_pair(edges[i], false) == (u as u64, v as u64));
        } else {
            lemma_same_node(nodes, sources, v, e.source as int, i);
            lemma_same_node(nodes, targets, u, e.target as int, i);
            if e.source == e.target {
                assert(slot_pair(edges[i], false) == (u as u64, v as u64));
            } else {
                assert(has_slot(edges[i], directed, true));
                assert(slot_pair(edges[i], true) == (u as u64, v as u64));
            }
        }
    }
}

/// Build the graph of a node table and an edge table whose endpoint IDs are resolved
/// through `index`. The graph has one vertex per node row, one property row per node and per
/// edge row, and maps each outgoing slot to the edge row that stored it.
pub fn graph_from_tables(
    index: &NodeIndex,
    sources: &KeyColumn,
    targets: &KeyColumn,
    directed: bool,
    weighted: bool,
    ctx: &ExecutionContext,
) -> (r: Result<Graph, Error>)
    requires
        key_rows(*sources) == key_rows(*targets),
    ensures
        r matches Ok(g) ==> {
            &&& g.spec_n() == key_rows(index.spec_nodes())
            &&& g.spec_directed() == directed
            &&& g.spec_outgoing().spec_weighted() == weighted
            &&& g.spec_node_rows() == Some(key_rows(index.spec_nodes()) as usize)
            &&& g.spec_edge_rows() == Some(key_rows(*sources) as usize)
            &&& g.spec_slot_edges() matches Some(ids) && ids.len() == g.spec_outgoing().spec_targets().len()
                && forall|p: int|
                0 <= p < ids.len() ==> #[trigger] ids[p] < key_rows(*sources) && row_arc(
                    index.spec_nodes(),
                    *sources,
                    *targets,
                    directed,
                    row_index(g.spec_outgoing().spec_offsets(), p, g.spec_n()),
                    g.spec_outgoing().spec_targets()[p] as int,
                    ids[p] as int,
                )
            &&& g.spec_edge_count() == key_rows(*sources)
            &&& forall|u: int, v: int| #[trigger] has_arc(g.spec_outgoing()@, u, v) <==> table_arc(
                index.spec_nodes(),
                *sources,
                *targets,
                directed,
                u,
                v,
            )
        },
        r is Ok ==> simple_table(index.spec_nodes(), *sources, *targets, directed) && all_resolvable(
            index.spec_nodes(),
            *sources,
            *targets,
        ),
        all_resolvable(index.spec_nodes(), *sources, *targets) && simple_table(index.spec_nodes(), *sources, *targets, directed) && key_rows(index.spec_nodes())
            < usize::MAX && (directed || 2 * key_rows(*sources) <= usize::MAX) ==> (r is Ok
            || r matches Err(Error::Cancelled)),
        !all_resolvable(index.spec_nodes(), *sources, *targets) ==> (r matches Err(Error::InvalidGraph(_)) || r matches Err(Error::Cancelled)),
        all_resolvable(index.spec_nodes(), *sources, *targets) && !simple_table(index.spec_nodes(), *sources, *targets, directed) ==> (r matches Err(
            Error::InvalidGraph(_),
        ) || r matches Err(Error::Cancelled)),
        r is Err ==> (r matches Err(Error::Cancelled) || r matches Err(Error::InvalidGraph(_)) || r matches Err(
            Error::Overflow,
        )),
{
    proof {
        use_type_invariant(index);
    }
    let n = index.node_count();
    let edges = match index.resolve(sources, targets, ctx) {
        Ok(edges) => edges,
        Err(e) => return Err(e),
    };
    let ghost nodes = index.spec_nodes();
    assert(forall|x: int|
        0 <= x < edges@.len() ==> #[trigger] edges@[x].source < key_rows(nodes) && edges@[x].target < key_rows(nodes)
            && same_key(nodes, edges@[x].source as int, *sources, x) && same_key(nodes, edges@[x].target as int, *targets, x));
    proof {
        lemma_simple_table(nodes, *sources, *targets, directed, edges@);
        assert forall|i: int| 0 <= i < key_rows(*sources) implies #[trigger] resolvable(nodes, *sources, i) && resolvable(
            nodes,
            *targets,
            i,
        ) by {
            assert(same_key(nodes, edges@[i].source as int, *sources, i));
            assert(same_key(nodes, edges@[i].target as int, *targets, i));
        }
    }
    let (graph, ids) = match build(n, directed, weighted, edges.as_slice()) {
        Ok(x) => x,
        Err(e) => return Err(e),
    };
    if let Err(e) = ctx.check() {
        return Err(e);
    }
    let m = edges.len();
    proof {
        use_type_invariant(&graph);
        assert forall|p: int| 0 <= p < ids@.len() implies #[trigger] ids@[p] < m by {}
    }
    proof {
        assert(properties_valid(graph, Some(n), Some(m), opt_view(Some(ids))));
    }
    let out_adj = graph.outgoing();
    proof {
        let out = graph.spec_outgoing();
        use_type_invariant(out_adj);
        assert(monotone(out.spec_offsets()));
        assert forall|p: int| 0 <= p < ids@.len() implies #[trigger] ids@[p] < key_rows(*sources) && row_arc(
            nodes,
            *sources,
            *targets,
            directed,
            row_index(out.spec_offsets(), p, out.spec_n()),
            out.spec_targets()[p] as int,
            ids@[p] as int,
        ) by {
            lemma_row_index_bounds(out.spec_offsets(), out.spec_n(), p);
            let u = row_index(out.spec_offsets(), p, out.spec_n());
            let v = out.spec_targets()[p] as int;
            let e = edges@[ids@[p] as int];
            assert(slot_of_edge(e, directed, u as u64, v as u64));
            lemma_row_arc_slot(nodes, *sources, *targets, directed, e, ids@[p] as int, u, v);
            if slot_pair(e, false) == (u as u64, v as u64) {
                assert(has_slot(e, directed, false));
            } else {
                assert(has_slot(e, directed, true) && slot_pair(e, true) == (u as u64, v as u64));
            }
        }
    }
    let g = match graph.with_properties(Some(n), Some(m), Some(ids)) {
        Ok(g) => g,
        Err(e) => return Err(e),
    };
    proof {
        lemma_table_arcs(nodes, *sources, *targets, directed, edges@, graph.spec_outgoing()@);
    }
    assert(all_resolvable(index.spec_nodes(), *sources, *targets));
    Ok(g)
}

} // verus!
