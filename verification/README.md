# PicoDB

An in-memory key/value cache with strings, hashes, lists and sets, optional TTLs, a hard
RAM cap enforced by LRU eviction, pub/sub, an append-only log, and a small HTTP side with
a dashboard, metrics and a WebSocket feed.

* `src/` is the library, written in Verus: the store, the protocols, the log and what each
  request, frame and record leads to, with contracts and proofs. It does no I/O.
* `app/` is the program around it: sockets, files, threads and signals on tokio and the
  standard library, and the two static pages.
  `picodb loadgen [connections] [total] [batch]` runs the load generator.
* `tests/` exercises the library.

## Settings (environment variables)

| Variable | Meaning | Default |
|---|---|---|
| `PICODB_MAX_BYTES` | RAM cap in bytes | 50 MiB |
| `PICODB_TOKEN` | shared secret | none |
| `PICODB_PASSWORD`, `PICODB_USERNAME` | secret `username:password` if no token is set | none, `default` |
| `PICODB_BIND` | address of both listeners | `127.0.0.1` |
| `PICODB_ENGINE_PORT`, `PICODB_HTTP_PORT` | ports | 7120, 7121 |
| `PICODB_AOF_PATH` | path of the append-only log | none (off) |
| `PICODB_AOF_FSYNC` | `always`, `everysec` or `no` | `everysec` |
| `PICODB_AOF_REWRITE_MIN_BYTES` | log size from which it is compacted by itself | 64 MiB |
| `PICODB_AOF_REWRITE_MIN_INTERVAL_SECS` | seconds between manual compactions | 30 |

## What is trusted

The channels of the standard library and of tokio, the system clock, `String::push`, and
UTF-8 decoding by the standard library. Each is declared, with what is claimed of it, in
`aof.rs`, `pubsub.rs`, `clock.rs` and `text.rs`.
