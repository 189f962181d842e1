# groceries_bmesh_core

A replicated grocery list for peers on a local mesh. Each peer holds a map of
items (a `crdts` map of multi-value registers of booleans), a log of the
operations it has seen, and a clock of the removals it has seen. Peers gossip
operations and heartbeats; a peer answers a heartbeat with the operations that
the sender lacks, or with a snapshot of its state.

The protocol's decisions are written in Verus and proved against their
contracts:

- `src/clock.rs`: vector clocks and the facts of `crdts::VClock` that the
  proofs use.
- `src/op.rs`, `src/groceries.rs`: operations, and the grocery map.
- `src/oplog.rs`: the operation log and `missing_ops`, the answer to a
  heartbeat.
- `src/peer.rs`: the state of a peer, local edits, and `handle_message`,
  which turns a message into the next state and a reply.
- `src/message.rs`: messages, and the gzip frames that carry them.
- `src/setup.rs`: key bytes and the gossip topic.
- `src/listing.rs`, `src/editor.rs`: what the user interface shows (the items
  in order of name) and what each action of the user asks of the peer.
- `src/laws.rs`: properties that relate several operations, such as
  "a peer that applies the anti-entropy response to its heartbeat lacks
  nothing of the sender's log".

`app/` is the networked program around the library: gossip, blobs, files,
serialization, and the commands that a user interface calls.
