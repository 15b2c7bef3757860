//! The credential store: lookup of a credential by its key.

use vstd::prelude::*;
use crate::error::StoreError;
use crate::fetch::{credential_of, Fetched};
use crate::models::{ApiKey, ApiKeyView};

verus! {

/// The views of a sequence of credentials, in the same order.
pub open spec fn api_key_views(records: Seq<ApiKey>) -> Seq<ApiKeyView> {
    Seq::new(records.len(), |i: int| records[i]@)
}

/// Some record is stored under `key`.
pub open spec fn holds_key(records: Seq<ApiKeyView>, key: Seq<char>) -> bool {
    exists|i: int| 0 <= i < records.len() && (#[trigger] records[i]).key == key
}

/// The record at position `i` is the first that is stored under `key`.
pub open spec fn first_under_key(records: Seq<ApiKeyView>, key: Seq<char>, i: int) -> bool {
    &&& 0 <= i < records.len()
    &&& records[i].key == key
    &&& forall|j: int| 0 <= j < i ==> (#[trigger] records[j]).key != key
}

/// No two records are stored under one key.
pub open spec fn unique_keys(records: Seq<ApiKeyView>) -> bool {
    forall|i: int, j: int|
        0 <= i < j < records.len() ==> (#[trigger] records[i]).key != (#[trigger] records[j]).key
}

/// The credentials, as they were provisioned.
#[derive(Debug)]
pub struct ApiKeyRepository {
    records: Vec<ApiKey>,
}

impl View for ApiKeyRepository {
    type V = Seq<ApiKeyView>;

    closed spec fn view(&self) -> Seq<ApiKeyView> {
        api_key_views(self.records@)
    }
}

impl ApiKeyRepository {
    /// A store of the given credentials.
    pub fn new(records: Vec<ApiKey>) -> (repository: Self)
        ensures
            repository@ == api_key_views(records@),
    {
        ApiKeyRepository { records }
    }

    /// Reads the first record that is stored under `key`.
    fn fetch_one(&self, key: &String) -> (fetched: Fetched<ApiKey>)
        ensures
            match fetched {
                Fetched::Row(record) => exists|i: int|
                    first_under_key(self@, key@, i) && record@ == #[trigger] self@[i],
                Fetched::NoRow => !holds_key(self@, key@),
                Fetched::Failed => false,
            },
    {
        let mut i: usize = 0;
        while i < self.records.len()
            invariant
                i <= self.records.len(),
                forall|j: int| 0 <= j < i ==> (#[trigger] self@[j]).key != key@,
            decreases self.records.len() - i,
        {
            if self.records[i].key == *key {
                assert(first_under_key(self@, key@, i as int));
                return Fetched::Row(self.records[i].clone());
            }
            i += 1;
        }
        Fetched::NoRow
    }

    /// The credential that is stored under `key`; `NotFound` where there is
    /// none. Of several records under one key, which provisioning rules out,
    /// the first is returned.
    pub fn get_by_key(&self, key: &str) -> (credential: Result<ApiKey, StoreError>)
        ensures
            match credential {
                Ok(record) => exists|i: int|
                    first_under_key(self@, key@, i) && record@ == #[trigger] self@[i],
                Err(error) => error == StoreError::NotFound && !holds_key(self@, key@),
            },
    {
        let wanted = key.to_owned();
        credential_of(self.fetch_one(&wanted))
    }

    /// Whether a credential is stored under `key`.
    pub fn verify_credential(&self, key: &str) -> (known: bool)
        ensures
            known == holds_key(self@, key@),
    {
        let wanted = key.to_owned();
        match self.fetch_one(&wanted) {
            Fetched::Row(_) => true,
            _ => false,
        }
    }
}

/// Where no two records share a key, a lookup answers with every record
/// under its own key, and with none other.
pub proof fn lemma_unique_key_found(records: Seq<ApiKeyView>, i: int)
    requires
        unique_keys(records),
        0 <= i < records.len(),
    ensures
        first_under_key(records, records[i].key, i),
        forall|j: int| first_under_key(records, records[i].key, j) ==> j == i,
{
}

} // verus!
