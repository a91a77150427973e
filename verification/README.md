# icecat

Immutable, validated graph topology and the integer graph kernels that run over it,
verified with Verus.

## Layout

- `src/` — the verified library.
  - `csr`, `topology`, `graph`: sorted, duplicate-free CSR adjacency, graph snapshots with
    their logical-edge and self-loop counts, property row associations, and the prepared
    incoming adjacency (`transpose`, `buckets`).
  - `builder`, `keys`: simple-graph construction from edge lists, and from node and edge
    tables keyed by external IDs.
  - `view`: node-induced selections and their compact materialization.
  - `traversal`, `components`, `strong`: hop distances, degrees, weak components by
    union-find, strong components by iterative Kosaraju.
  - `grustcat`, `cypher`, `text`: the packed projection of a Grust edge list, its kernels,
    and admission of the narrow Cypher subset that runs them.
  - `snapshot`: the rules of the versioned snapshot directory (section names, size
    admission, SHA-256 section checksums, manifest counts).
  - `execution`: cancellation and byte reservations.
  - `laws`: properties that relate several functions.
- `tests/` — tests of the library on concrete values.
- `app/` — the Arrow, file, DataFusion and Python surfaces. It carries the float weights
  and property tables next to the verified topology, and runs the floating-point kernels
  (weighted degrees, Dijkstra, PageRank).
