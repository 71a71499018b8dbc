# strata

A distributed vector store whose logic is verified with Verus.

- `src/storage`: the log-structured store, with its files, versions and compaction.
- `src/consensus`: replicas of a log, their messages, and the laws of a cluster.
- `src/sharding`: routes of keys to shards, the state machine of a shard, moves
  of shards between nodes, and a network that loses and delays messages.
- `src/txn`: the hybrid clock, transactions in two phases, and reads that meet locks.
- `src/index`: layered graphs, the graph on disk, and searches in both.
- `src/planner.rs`, `src/bitmap.rs`: the choice of a search, and filters.
- `src/service.rs`, `src/runtime.rs`: what servers and clients make of messages,
  and a simulated world.

`tests/` holds the tests. `app/` is what runs around the library: disks, sockets,
clocks, floating point, and the program that writes the benchmark tables.
