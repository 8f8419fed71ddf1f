//! The errors of the store.
use vstd::prelude::*;

verus! {

/// What can go wrong in the store
#[derive(Debug, Clone, Copy, PartialEq, Eq, Structural)]
pub enum StoreError {
    /// A layer or label is missing
    NotFound,
    /// A label of that name exists already
    AlreadyExists,
    /// A label file does not have the expected form
    InvalidFormat,
    /// The builder has already been committed
    BuilderConsumed,
    /// An id triple names an id that the parent chain does not know
    UnresolvedId,
    /// The store has run out of ids or of layer names
    IdsExhausted,
}

} // verus!
