# iqdb-flat

Brute-force exact nearest-neighbour index for the iQDB vector database,
with its bookkeeping and ranking verified by Verus.

## Layout

- `src/` — the verified library.
  - `types.rs`: ids (`VectorKey`), metrics, configuration and errors.
  - `order.rs`: the IEEE-754 total order on distance bit patterns and
    negation of a distance.
  - `topk.rs`: exact top-`k` selection with a bounded max-heap.
  - `slots.rs`: the id-to-slot map, a hash map of buckets keyed by a
    64-bit digest of each id.
  - `model.rs`: the mathematical state of an index and what each
    operation does to it.
  - `flat.rs`: `FlatIndex`, the parallel row stores with insertion stamps.
  - `memory.rs`: the approximate memory footprint.
  - `laws.rs`: properties that span several operations.
- `app/` — the `iqdb_index::Index` adapter: float distances through
  `iqdb_distance` (chunked over rayon for large scans), metadata filters
  through `iqdb_filter`, and the conversions to and from `iqdb_types`.
- `tests/` — the behaviour through the adapter, and the verified store
  used directly.

Distances cross into the library as the bit patterns of `f32` values;
the library orders numbers the way `f32::total_cmp` does and puts every
NaN after them, breaks ties by insertion stamp, and hands back slots and
distance bits.
