use vstd::prelude::*;

verus! {

/// What can go wrong at a store.
#[derive(Clone, Copy, Debug, PartialEq, Eq, Structural)]
pub enum StoreError {
    /// Nothing is stored under the key that was looked up.
    NotFound,
    /// The store could not be reached or did not answer.
    StoreUnavailable,
    /// The store holds what it must never hold, such as two open sessions of
    /// one device.
    InvariantViolation,
}

} // verus!
