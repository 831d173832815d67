# spacemesh

The control-plane logic of a federated storage mesh, written in Verus: the
functions in `src/` carry contracts, and Verus proves the code meets them.
The exception is `pending::current_millis`, which reads the wall clock and
promises nothing of the value it gives.

## Layout

- `src/` — the verified library.
  - `wire`, `command`, `proto`, `registry`, `pending`, `scheduler`,
    `transport`: the replicated cluster registry, its command encoding and
    the general protocol-buffer reading of commands, pending allocations,
    node placement and the peer registry.
  - `zones`, `bridge`, `transfer`, `digest`: the zone directory, the
    federation bridge's decisions, chunked segment transfer with retries, and
    the digests and MACs they rely on.
  - `mesh`, `gossip`, `orchestrator`, `reconcile`: peers, signed gossip
    messages, heartbeats and liveness, node configuration, and volume
    reconciliation.
  - `nvram`, `capsules`, `raftlog`: the append-only segment log, the capsule
    catalog and its write/read/delete/collect bookkeeping, and the consensus
    log store.
  - `layout`, `block`, `magma`, `foundry`, `replication`, `pipeline`: segment
    layout, block volumes, the log-structured volume map, the volume catalog
    and snapshots, the replica protocol, and the pipeline's defaults.
- `tests/` — tests of the library's public functions.
- `app/` — the I/O around the library: files and sled trees, serde encodings,
  and the clock and environment.

## Trusted items

Calls into outside crates go through small wrappers whose contracts are
trusted: BLAKE3 (`blake3`), SHA-256 and HMAC-SHA-256 (`sha2`, `hmac`), UUID
parsing, formatting and generation (`uuid`), UTF-8 decoding and the wall
clock (std). Each wrapper's doc comment says what its contract claims.
