//! What the session engine computes on a batch of sightings between its calls
//! to the store.

use vstd::prelude::*;
use crate::error::StoreError;
use crate::lemmas::{lemma_dedupe_distinct, lemma_dedupe_sighted};
use crate::models::{session_views, sighting_views, Session, Sighting, SightingView, UserId};
use crate::timeline::{dedupe, device_repeated, distinct_devices, sighted, unmatched, user_matched};

verus! {

/// Whether the batch holds a sighting of the device `mac`.
pub fn is_sighted(batch: &[Sighting], mac: &String) -> (found: bool)
    ensures
        found == sighted(sighting_views(batch@), mac@),
{
    let mut k: usize = 0;
    while k < batch.len()
        invariant
            k <= batch.len(),
            forall|j: int| 0 <= j < k ==> (#[trigger] sighting_views(batch@)[j]).1 != mac@,
        decreases batch.len() - k,
    {
        if batch[k].1 == *mac {
            assert(sighting_views(batch@)[k as int].1 == mac@);
            return true;
        }
        k += 1;
    }
    false
}

/// The batch without repeated devices: of the sightings of one device, the
/// first stays.
pub fn dedupe_sightings(batch: &[Sighting]) -> (devices: Vec<Sighting>)
    ensures
        sighting_views(devices@) == dedupe(sighting_views(batch@)),
        distinct_devices(sighting_views(devices@)),
{
    let ghost all = sighting_views(batch@);
    let mut devices: Vec<Sighting> = Vec::new();
    let mut k: usize = 0;
    while k < batch.len()
        invariant
            k <= batch.len(),
            all == sighting_views(batch@),
            sighting_views(devices@) == dedupe(all.take(k as int)),
        decreases batch.len() - k,
    {
        proof {
            assert(all.take(k + 1).drop_last() =~= all.take(k as int));
            lemma_dedupe_sighted(all.take(k as int), all[k as int].1);
        }
        if !is_sighted(devices.as_slice(), &batch[k].1) {
            devices.push((batch[k].0, batch[k].1.clone()));
        }
        k += 1;
    }
    proof {
        assert(all.take(k as int) =~= all);
        lemma_dedupe_distinct(all);
    }
    devices
}

/// The hardware addresses of the sightings, in batch order.
pub fn mac_addresses(batch: &[Sighting]) -> (macs: Vec<String>)
    ensures
        macs@.len() == batch@.len(),
        forall|k: int| 0 <= k < batch@.len() ==> (#[trigger] macs@[k])@ == batch@[k].1@,
{
    let mut macs: Vec<String> = Vec::new();
    let mut k: usize = 0;
    while k < batch.len()
        invariant
            k <= batch.len(),
            macs@.len() == k,
            forall|j: int| 0 <= j < k ==> (#[trigger] macs@[j])@ == batch@[j].1@,
        decreases batch.len() - k,
    {
        macs.push(batch[k].1.clone());
        k += 1;
    }
    macs
}

/// The users of the sightings, in batch order.
pub fn user_ids(batch: &[Sighting]) -> (users: Vec<UserId>)
    ensures
        users@.len() == batch@.len(),
        forall|k: int| 0 <= k < batch@.len() ==> (#[trigger] users@[k]) == batch@[k].0,
{
    let mut users: Vec<UserId> = Vec::new();
    let mut k: usize = 0;
    while k < batch.len()
        invariant
            k <= batch.len(),
            users@.len() == k,
            forall|j: int| 0 <= j < k ==> (#[trigger] users@[j]) == batch@[j].0,
        decreases batch.len() - k,
    {
        users.push(batch[k].0);
        k += 1;
    }
    users
}

/// Whether one of the extended sessions belongs to `user`.
pub fn owns_extended(extended: &[Session], user: UserId) -> (found: bool)
    ensures
        found == user_matched(session_views(extended@), user),
{
    let mut j: usize = 0;
    while j < extended.len()
        invariant
            j <= extended.len(),
            forall|i: int| 0 <= i < j ==> (#[trigger] session_views(extended@)[i]).user_id != user,
        decreases extended.len() - j,
    {
        if extended[j].user_id == user {
            assert(session_views(extended@)[j as int].user_id == user);
            return true;
        }
        j += 1;
    }
    false
}

/// The sightings whose user owns none of the extended sessions, in batch
/// order: those for which a session may have to be opened.
pub fn unmatched_sightings(batch: &[Sighting], extended: &[Session]) -> (rest: Vec<Sighting>)
    ensures
        sighting_views(rest@) == unmatched(sighting_views(batch@), session_views(extended@)),
{
    let ghost all = sighting_views(batch@);
    let ghost records = session_views(extended@);
    let ghost keep = |d: SightingView| !user_matched(records, d.0);
    let mut rest: Vec<Sighting> = Vec::new();
    let mut k: usize = 0;
    proof {
        reveal(Seq::filter);
    }
    while k < batch.len()
        invariant
            k <= batch.len(),
            all == sighting_views(batch@),
            records == session_views(extended@),
            keep == |d: SightingView| !user_matched(records, d.0),
            sighting_views(rest@) == all.take(k as int).filter(keep),
        decreases batch.len() - k,
    {
        proof {
            assert(all.take(k + 1) =~= all.take(k as int).push(all[k as int]));
            all.take(k as int).lemma_filter_push(all[k as int], keep);
        }
        if !owns_extended(extended, batch[k].0) {
            rest.push((batch[k].0, batch[k].1.clone()));
        }
        k += 1;
    }
    assert(all.take(k as int) =~= all);
    rest
}

/// Whether two of the records belong to one device.
pub fn has_repeated_device(records: &[Session]) -> (repeated: bool)
    ensures
        repeated == device_repeated(session_views(records@)),
{
    let ghost views = session_views(records@);
    let mut j: usize = 0;
    while j < records.len()
        invariant
            j <= records.len(),
            views == session_views(records@),
            forall|a: int, b: int|
                0 <= a < b < j ==> (#[trigger] views[a]).mac_address != (
                #[trigger] views[b]).mac_address,
        decreases records.len() - j,
    {
        let mut i: usize = 0;
        while i < j
            invariant
                i <= j < records.len(),
                views == session_views(records@),
                forall|a: int| 0 <= a < i ==> (#[trigger] views[a]).mac_address != views[j as int].mac_address,
            decreases j - i,
        {
            if records[i].mac_address == records[j].mac_address {
                assert(views[i as int].mac_address == views[j as int].mac_address);
                return true;
            }
            i += 1;
        }
        j += 1;
    }
    false
}

/// The sightings for which a session may have to be opened, given the
/// records that the store reports as extended.
///
/// Two records of one device mean that the store held two open sessions of
/// it: that is reported, and nothing is planned.
pub fn plan_new_sessions(batch: &[Sighting], extended: &[Session]) -> (plan: Result<
    Vec<Sighting>,
    StoreError,
>)
    ensures
        match plan {
            Ok(rest) => !device_repeated(session_views(extended@)) && sighting_views(rest@)
                == unmatched(sighting_views(batch@), session_views(extended@)),
            Err(error) => error == StoreError::InvariantViolation && device_repeated(
                session_views(extended@),
            ),
        },
{
    if has_repeated_device(extended) {
        Err(StoreError::InvariantViolation)
    } else {
        Ok(unmatched_sightings(batch, extended))
    }
}

} // verus!
