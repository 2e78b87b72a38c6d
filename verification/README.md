# topics

A verified engine for append-only topics and job queues.

A *topic* is a log of JSON records with consecutive sequence numbers. Records leave it by
retention (age, a cap on their number, a cap on their size) or by deletion; a reader whose
cursor lies below what retention dropped is told of the gap, a deletion is silent. A topic of
type *queue* hands its records out as jobs under leases. *Routers* copy what is written to one
topic to another, in order; a topic has one source at most, unless the engine is told otherwise.

## Layout

- `src/` is the library. Everything in it is verified with Verus: each function has a contract
  over a mathematical view of its data, and the laws that relate several functions are public
  proof functions.
- `tests/` runs the library.
- `app/` is the service around it, in ordinary Rust: the clock, the locks, the log, the segment
  store, error messages and timings.

## How it is put together

The state of everything is an `Engine` (`src/engine.rs`), a registry of topics by name and a
graph of routers. Its view, `EngineView`, is a map of `TopicView`s and a `RouterView`. The
operations are functions on views: an executable function ensures that the view afterwards is
such a function of the view before.

| Part | Modules |
|---|---|
| values, limits, texts | `types`, `config`, `text` |
| sorted maps and sets, lists | `names`, `seqs`, `lists` |
| one topic | `topic_index`, `tag_index`, `topic_state`, `eviction`, `publish`, `topic_laws` |
| the engine and its requests | `registry`, `engine`, `write`, `append`, `read`, `filters`, `delete`, `state`, `listing`, `control`, `engine_laws` |
| routers | `router`, `routing`, `forward` |
| queues | `queue`, `leases`, `deal`, `jobs`, `queue_laws` |
| payloads as JSON texts | `payload` |
| log, snapshots, recovery | `wal`, `snapshot`, `checkpoint`, `recovery`, `walfiles`, `replay`, `replay_laws`, `layout_laws` |
| segments | `segwriter`, `materialize` |
| frames shared by readers | `broadcast` |

Nothing in the library waits or reads a clock. The time is an argument. What has to be logged
before it counts is done in two steps: `begin_..` stages a change, takes a ticket for it and
says which frames are to be logged; `finish_..` makes it readable or takes it back, according to
what the log said, when it is the turn of its ticket. The functions without a prefix do both
steps at once, for an engine without a log.

## What is trusted

`src/payload.rs` holds the calls into `serde_json` and `base64`, `src/registry.rs` those into
`dashmap`. Their contracts are stated there and believed, not proved.
