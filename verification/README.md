# distributed_cache

A distributed in-memory key/value cache node, with its logic verified by
Verus.

- `src/` is the verified library: the expiring store and its eviction
  (`storage`), the consistent-hash ring, circuit breakers and request router
  (`router`), cluster membership and gossip (`cluster`), the write-ahead log's
  format and replay and the snapshot files' naming and selection
  (`persistence`), and how each request of the public and internal APIs is
  answered (`network`). Public functions state their results in their
  contracts; where a result depends on the clock or on chance, the contract
  states what holds of every reading, and an `_at` variant takes the time
  as an argument. The properties that span several calls (a read after a write, a
  log read back, a snapshot restored, a breaker's state machine, a gossip
  merge, a clean-up pass) are proof functions named `lemma_*`.
- `app/` is the node itself: command-line parsing, the axum servers, the
  hyper client, file I/O for the log and snapshots, Prometheus metrics and
  the background loops. Its decisions are calls into the library; what it
  keeps is the sequencing around I/O: whether a request is served here or
  forwarded (the library's `is_local`), the loops' timing, and the order of
  logging and storing.
- `tests/` exercises the library on concrete values.

Calls into outside crates (SHA-256, CRC-32, `DashMap`, random sampling) and
into the clocks go through small trusted wrappers, each documented with what
its contract claims.
