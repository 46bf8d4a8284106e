//! Layered transactional staging memory with a deterministic block engine.
//!
//! A stack of in-memory overlays sits atop pluggable persistent backends and
//! gives nested transaction semantics — push, commit-top, revert-top,
//! commit-oldest, commit-all — across three container flavors: a key-value
//! map, a single-value cell, and an append-only log. A composite store runs
//! one map, one cell and two logs in lock-step. On top of it, a reducer
//! engine applies batches of actions atomically and records each committed
//! batch as an encoded block, so that replaying the blocks log from a
//! pristine store rebuilds the derived state exactly.
//!
//! Every operation carries a contract over the containers' mathematical
//! models, and the central guarantees are proved: commits never change the
//! effective state, a failed batch leaves the store untouched, the block
//! codec is a total inverse pair, and replay is deterministic.

pub mod actions;
pub mod address;
pub mod applier;
pub mod block;
pub mod btree;
pub mod codec;
pub mod events;
pub mod meta;
pub mod laws;
pub mod log;
pub mod mem;
pub mod overlay;
pub mod reducer;
pub mod store;
pub mod struct_store;
pub mod traits;
