//! The store whose handles can be reserved from other threads.

pub use crate::shareable_ordered_vec::ShareableOrderedVec;
pub use crate::shareable_state::ShareableOrderedVecState;
