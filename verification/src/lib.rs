//! Generational slot registry: a dense, position-stable store addressed by
//! versioned handles, with a reservation protocol that lets other threads
//! learn the handle of an insertion before the owner of the store commits it.
//!
//! - [`utils`]: the handle, an index and a version packed into a `u64`.
//! - [`ordered_vec`]: the slot store. Removing a value frees its position for
//!   reuse under a new version and leaves all other positions alone.
//! - [`unversioned_ordered_vec`]: the same store without versions.
//! - [`shareable_ordered_vec`], [`shareable_state`]: the reservation
//!   coordinator. During an epoch the handles of the insertions to come are
//!   fixed, and any thread can draw the next of them without a lock.
//! - [`atomic`]: deferred mutation. Commands are stamped with sequence numbers,
//!   collected in a log and replayed on the store in the order of those
//!   numbers; a commit keeps the promises of its epoch.
//! - [`store_lemmas`]: what the store guarantees about its handles.
//! - [`simple`], [`shareable`]: the stores by the way they are used.

pub mod atomic;
pub mod ordered_vec;
pub mod shareable;
pub mod shareable_ordered_vec;
pub mod shareable_state;
pub mod simple;
pub mod store_lemmas;
pub mod unversioned_ordered_vec;
pub mod utils;
