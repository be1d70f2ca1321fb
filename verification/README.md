# PADAGONIA

An ontology-native, provenance-rich graph store: nodes, edges, facts, embeddings,
namespaced identities, a transaction journal, an outbox, and snapshots on disk.

## Layout

- `src/` — the library, written in Verus, with contracts that Verus proves for
  the store and its indexes, string interning, queries, paging,
  breadth-first traversal, snapshot layout and restore, the journal's state and
  replay, the outbox, lifecycle records, credentials and quotas, request checks,
  configuration checks and the CSV export format. Laws that relate several
  functions (save then load gives the store back, a cursor continues right after
  its page, breadth-first depths are distances, replay rebuilds the committed
  state, and others) stand as public proof functions.
- `app/` — the program around the library: the command line, the HTTP server,
  file and network I/O, MessagePack framing, JSON, floating-point vector search
  and benchmarks.
- `tests/` — tests of the library on concrete values.

Calls into `ahash`, `crc32fast`, `sha2` and parts of `std` go through small trusted
wrappers whose contracts state what those crates' sources and documentation show;
where a result rests on the clock or on the platform (the time, how a path is
joined), only what holds of every outcome is stated.
