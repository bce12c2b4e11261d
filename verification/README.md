# engram

A storage engine for AI-agent memory, written in Verus: episodic events,
bitemporal semantic beliefs, versioned procedural skills, a bounded working
memory, a causal-provenance DAG, a copy-on-write B-tree with snapshots, a
write-ahead log format, and the Agent Causal Consistency model over vector
clocks. Each of these is executable Rust whose behaviour is stated in
`requires` / `ensures` contracts and proved by Verus.

Layout:

- `src/base` — ids (time-sortable 128-bit `MemoryId`, Crockford base32),
  timestamps and clocks, the SplitMix64 generator, record types, codec tags and
  the order on strings.
- `src/storage` — the copy-on-write B-tree (`btree`), the WAL frame format and
  recovery scan (`wal`), the in-memory indexes of the four stores, and the
  causal DAG with breadth-first provenance and shortest-path search.
- `src/consistency` — vector clocks and the ACC coordinator (read-your-writes,
  monotonic reads, causal delivery, convergence of frontiers).
- `src/query` — consolidation: signal extraction from event payloads and the
  promotion of dominant beliefs with exact provenance.
- `src/cli.rs`, `src/server.rs` — argument parsing and the REST error mapping.
- `app/` — the `engram` command-line program: files, the durable stores over
  the WAL, msgpack encoding, float confidence and decay, and the HTTP router.
- `tests/` — tests of the library through its public API.
