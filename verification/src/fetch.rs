//! What a read of at most one row from a store comes back with, and what the
//! repositories make of it.

use vstd::prelude::*;
use crate::error::StoreError;
use crate::models::ApiKey;

verus! {

/// The outcome of reading at most one row.
#[derive(Debug)]
pub enum Fetched<T> {
    /// The first row that matched.
    Row(T),
    /// No row matched.
    NoRow,
    /// The store could not be read.
    Failed,
}

/// The credential that a lookup by key answers with: the row that was read,
/// `NotFound` where no row matched, `StoreUnavailable` where the read failed.
pub fn credential_of(fetched: Fetched<ApiKey>) -> (credential: Result<ApiKey, StoreError>)
    ensures
        credential == match fetched {
            Fetched::Row(record) => Ok::<ApiKey, StoreError>(record),
            Fetched::NoRow => Err(StoreError::NotFound),
            Fetched::Failed => Err(StoreError::StoreUnavailable),
        },
{
    match fetched {
        Fetched::Row(record) => Ok(record),
        Fetched::NoRow => Err(StoreError::NotFound),
        Fetched::Failed => Err(StoreError::StoreUnavailable),
    }
}

/// The answer to a liveness query, given the outcome of reading one open
/// session of the device: active where a row was read, not active where none
/// matched, `StoreUnavailable` where the read failed.
pub fn liveness_of<T>(fetched: &Fetched<T>) -> (active: Result<bool, StoreError>)
    ensures
        active == match *fetched {
            Fetched::Row(_) => Ok::<bool, StoreError>(true),
            Fetched::NoRow => Ok(false),
            Fetched::Failed => Err(StoreError::StoreUnavailable),
        },
{
    match fetched {
        Fetched::Row(_) => Ok(true),
        Fetched::NoRow => Ok(false),
        Fetched::Failed => Err(StoreError::StoreUnavailable),
    }
}

} // verus!
