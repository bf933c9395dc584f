# vicinity

The graph core of an HNSW approximate-nearest-neighbour index, written in
Verus: every function in `src/` carries a contract that Verus proves.

- `src/` — the verified library. Node ids and counts only; distances are
  floating point and are supplied by the caller. Neighbor lists are plain
  `Vec<u32>` (no inline small-vector storage).
  - `construction`, `documents`, `structure`, `reorder` — building an index:
    admitting documents, linking neighbors both ways, entry points,
    structural validation, tombstones, cache-friendly renumbering.
  - `repair`, `connectivity`, `union_find`, `graph_analysis` — deletion
    repair, reachability after deletions, bridging a graph until every
    node is reachable, connected components, hop counts.
  - `selection` — relative-neighborhood selection of a node's links, with
    the caller's distance verdicts as input.
  - `id_mapping` — external ids over an index that numbers its own slots.
  - `inplace` — an index updated in place: slot reuse, links with bounded
    in-link lists, detaching and releasing deleted nodes, link rebuilding
    during repair.
  - `merge` — graphs being merged and the naive edge-union merge.
  - `snapshot` — checks on saved indexes before they are rebuilt.
  - `filtered`, `visited`, `edge_stats`, `recency`, `stats` — search
    bookkeeping and usage statistics.
  - Public `lemma_*` proof functions state properties that hold across
    calls (for example, that reordering keeps the graph, or that a deleted
    document reads as deleted).
- `tests/` — executable tests of the library.
- `app/` — plain Rust around the library: float rates and distance-based
  decisions (the HNSW build, search, batch search and deletion repair,
  ACORN filtered search, and the search and neighbor choice of the
  in-place index), thread-local scratch space,
  atomic file writes. It draws HNSW layers with the `rand` crate.
