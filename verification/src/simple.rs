//! The stores for one thread.

pub use crate::ordered_vec::OrderedVec;
pub use crate::unversioned_ordered_vec::UnversionnedOrderedVec;
