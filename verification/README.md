# hnsw

A Hierarchical Navigable Small World (HNSW) index for approximate
nearest-neighbour search, whose graph logic is verified with Verus.

## Layout

- `src/` — the verified library.
  - `graph.rs`: the index (`Hnsw<V>`): insertion, layer walks, neighbour
    selection and pruning, backlinks, search, and the invariant they keep.
    Vectors are of any `Copy` type; every operation that needs distances
    takes a distance function that returns an order key (`u32`).
  - `link.rs`, `node.rs`: links, nodes, and the heap size of a node array.
  - `sorted.rs`: the sorted buffers that the walks use.
  - `distance.rs`: what a distance function must be, and the name of its
    result.
  - `bench.rs`, `dataset.rs`, `text.rs`: benchmark settings, checks and
    conversions of dataset contents, and the text of their messages.
- `app/` — the benchmark program and the `f32` front end: squared L2
  distance, random layer draws, HDF5 reading, timing, serializable copies of
  nodes and links.
- `tests/` — tests of the library.

## Contracts in brief

- A layer walk is specified step by step (`Hnsw::walk`): it keeps the `ef`
  closest links found, expands the closest link left, and stops when that
  link is further than the furthest kept one. The walk code returns exactly
  that sequence.
- `Hnsw::search` leaves the graph unchanged and returns `search_result`: the
  first `k` links of the bottom-layer walk started where the descent from the
  entry point (walks of width 1) ends. Hence a repeated search returns the
  same links, and a search for fewer links (both within `ef_search`) returns
  the first links of a search for more.
- `Hnsw::insert` keeps the invariant (bounded, duplicate-free neighbour lists
  whose links stay within their layer; the entry point on the top layer),
  appends the vector, and on every layer it shares with the index links the
  new node to what the diversity heuristic chooses from the pool of the walk
  of that layer: a link is kept when it is closer to the new vector than to
  every link kept before it, and the rejected links fill the room left,
  closest first. The walk of each layer starts from the closest neighbour
  found on the layer above, or, on the highest shared layer, where the
  descent ends. Each neighbour links back to the new node: appending it, or
  pruning its overflowing list by the same heuristic. With a symmetric
  distance, every link keeps carrying the exact distance between its two
  nodes.
- Construction is reproducible (`Hnsw::lemma_insert_reproducible`): the same
  insertion into the same index gives the same index, because each walk,
  each neighbour selection and each re-pruning is a function of what it
  reads (`lemma_selection_unique`). Two empty indexes with the same
  parameters are the same index (`lemma_empty_same_index`), and a search
  leaves the index the same (`same_index`).
- `nodes_heap_usage_bytes` returns the saturating sum of capacities times
  element sizes that `heap_bytes_of` computes, on the capacities it read.
