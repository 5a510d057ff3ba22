//! Deferred mutation: commands that other threads stamp and hand over, the
//! log that orders them, and the registry that replays them on its store.

pub mod atomic_indexed_ordered_vec;
pub mod command;
pub mod message;
pub mod replay;
