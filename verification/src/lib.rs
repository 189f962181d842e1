//! A replicated grocery list: a peer keeps a map of grocery items (a CRDT from
//! the `crdts` crate), a log of the operations it has seen, and a clock of the
//! removals it has seen. Peers exchange operations, heartbeats, anti-entropy
//! responses and snapshots; the decisions of that protocol are verified here.
pub mod clock;
pub mod op;
pub mod groceries;
pub mod oplog;
pub mod message;
pub mod peer;
pub mod setup;
pub mod listing;
pub mod editor;
pub mod laws;
