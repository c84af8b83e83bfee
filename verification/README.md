# custom-dmq

A small Kafka-shaped message queue: topics with consumer groups and per-group
partition rings, an append-only partition log with produce / fetch / commit,
idempotent producers, access rules, a static cluster with leader/follower
replication and controller failover, and a binary wire protocol (v1 and v2
frames).

## Layout

- `src/` — the library, verified with Verus: the wire formats and their
  encoders and parsers, the partition log, topic rings and consumer groups,
  the group coordinator, cluster configuration and state, the broker's state
  and its request handling (`dispatch`), the stored forms of logs, metadata and
  topic rings, and what the command-line clients compute. Each public function
  states its result in `ensures`; the laws of the library (read-after-append,
  round trips of every stored and transmitted form, idempotent retries,
  failover, ordering of rings) are public proof functions.
- `app/` — the program around the library: sockets, files, timers, TLS, the
  settings read from the environment, the TOML cluster file, and the load
  generator's report.
- `tests/` — tests of the library on concrete values.
