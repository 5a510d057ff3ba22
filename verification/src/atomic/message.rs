//! What a command asks for.

use vstd::prelude::*;

verus! {

/// A mutation of the store that was asked for and is not applied yet.
#[derive(Debug)]
pub enum AtomicIndexedMessageType<T> {
    /// Put the value under the handle, which a reservation promised.
    Add(T, u64),
    /// Take out the value that the handle resolves to.
    Remove(u64),
}

} // verus!
