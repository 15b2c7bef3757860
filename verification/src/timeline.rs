//! The mathematical model of the presence store: a sequence of sessions in
//! the order in which they were opened, and what one batch of sightings does
//! to it.

use vstd::prelude::*;
use crate::config::Config;
use crate::models::{SessionView, SightingView};

verus! {

/// A session is open at `now` while its grace window has not lapsed.
pub open spec fn is_open(session: SessionView, now: int, config: Config) -> bool {
    now < session.end_time + config.grace()
}

/// The instants of a session's window: from its start until its grace period
/// has run out.
pub open spec fn in_window(session: SessionView, instant: int, config: Config) -> bool {
    session.start_time <= instant < session.end_time + config.grace()
}

/// Some session of the device `mac` is open at `now`.
pub open spec fn mac_active(store: Seq<SessionView>, mac: Seq<char>, now: int, config: Config) -> bool {
    exists|i: int|
        0 <= i < store.len() && (#[trigger] store[i]).mac_address == mac && is_open(
            store[i],
            now,
            config,
        )
}

/// The batch holds a sighting of the device `mac`.
pub open spec fn sighted(batch: Seq<SightingView>, mac: Seq<char>) -> bool {
    exists|k: int| 0 <= k < batch.len() && (#[trigger] batch[k]).1 == mac
}

/// The batch without repeated devices: of the sightings of one device, the
/// first stays.
pub open spec fn dedupe(batch: Seq<SightingView>) -> Seq<SightingView>
    decreases batch.len(),
{
    if batch.len() == 0 {
        batch
    } else if sighted(batch.drop_last(), batch.last().1) {
        dedupe(batch.drop_last())
    } else {
        dedupe(batch.drop_last()).push(batch.last())
    }
}

/// The sighting at position `k` is the first of its device in the batch.
pub open spec fn first_sighting(batch: Seq<SightingView>, k: int) -> bool {
    &&& 0 <= k < batch.len()
    &&& forall|e: int| 0 <= e < k ==> (#[trigger] batch[e]).1 != batch[k].1
}

/// The sighting is the first of its device in the batch.
pub open spec fn sighted_first(batch: Seq<SightingView>, sighting: SightingView) -> bool {
    exists|k: int| first_sighting(batch, k) && #[trigger] batch[k] == sighting
}

/// No device is sighted twice in the batch.
pub open spec fn distinct_devices(batch: Seq<SightingView>) -> bool {
    forall|i: int, j: int|
        0 <= i < j < batch.len() ==> (#[trigger] batch[i]).1 != (#[trigger] batch[j]).1
}

/// The batch extends this session: its device is sighted and it is open.
pub open spec fn extends(
    session: SessionView,
    batch: Seq<SightingView>,
    now: int,
    config: Config,
) -> bool {
    sighted(batch, session.mac_address) && is_open(session, now, config)
}

/// The session with its end pushed to `now` plus the extension window.
pub open spec fn extended_session(session: SessionView, now: int, config: Config) -> SessionView {
    SessionView { end_time: now + config.extension(), ..session }
}

/// The store after every open session of a sighted device was extended.
pub open spec fn extend_open(
    store: Seq<SessionView>,
    batch: Seq<SightingView>,
    now: int,
    config: Config,
) -> Seq<SessionView> {
    Seq::new(
        store.len(),
        |i: int|
            if extends(store[i], batch, now, config) {
                extended_session(store[i], now, config)
            } else {
                store[i]
            },
    )
}

/// The records of the sessions that the batch extends, as updated, in store
/// order.
pub open spec fn extended_records(
    store: Seq<SessionView>,
    batch: Seq<SightingView>,
    now: int,
    config: Config,
) -> Seq<SessionView> {
    store.filter(|s: SessionView| extends(s, batch, now, config)).map_values(
        |s: SessionView| extended_session(s, now, config),
    )
}

/// One of the extended sessions belongs to `user`.
pub open spec fn user_matched(extended: Seq<SessionView>, user: u128) -> bool {
    exists|j: int| 0 <= j < extended.len() && (#[trigger] extended[j]).user_id == user
}

/// The sightings whose user owns none of the extended sessions, in batch
/// order.
pub open spec fn unmatched(batch: Seq<SightingView>, extended: Seq<SessionView>) -> Seq<
    SightingView,
> {
    batch.filter(|d: SightingView| !user_matched(extended, d.0))
}

/// Two of the records belong to one device.
pub open spec fn device_repeated(records: Seq<SessionView>) -> bool {
    exists|i: int, j: int|
        0 <= i < j < records.len() && (#[trigger] records[i]).mac_address == (
        #[trigger] records[j]).mac_address
}

/// The session that a sighting opens at `now`.
pub open spec fn fresh_session(id: int, sighting: SightingView, now: int, config: Config) -> SessionView {
    SessionView {
        id,
        user_id: sighting.0,
        mac_address: sighting.1,
        start_time: now,
        end_time: now + config.extension(),
    }
}

/// The store after one guarded insert: a session is opened for the sighting
/// unless its device has an open session.
pub open spec fn open_one(
    store: Seq<SessionView>,
    sighting: SightingView,
    now: int,
    config: Config,
) -> Seq<SessionView> {
    if mac_active(store, sighting.1, now, config) {
        store
    } else {
        store.push(fresh_session(store.len() as int, sighting, now, config))
    }
}

/// The store after a guarded insert for each sighting, in batch order.
pub open spec fn open_new(
    store: Seq<SessionView>,
    batch: Seq<SightingView>,
    now: int,
    config: Config,
) -> Seq<SessionView>
    decreases batch.len(),
{
    if batch.len() == 0 {
        store
    } else {
        open_one(open_new(store, batch.drop_last(), now, config), batch.last(), now, config)
    }
}

/// The store after one batch of sightings at `now`: repeated devices are
/// dropped from the batch, the open sessions of the sighted devices are
/// extended, and a session is opened for each sighting whose user owns none
/// of the extended sessions and whose device has no open session.
pub open spec fn apply_batch(
    store: Seq<SessionView>,
    batch: Seq<SightingView>,
    now: int,
    config: Config,
) -> Seq<SessionView> {
    let devices = dedupe(batch);
    let extended = extended_records(store, devices, now, config);
    open_new(
        extend_open(store, devices, now, config),
        unmatched(devices, extended),
        now,
        config,
    )
}

/// The session lies in the past of `clock`: it started by then, and it ends
/// no later than a sighting at `clock` would have it end.
pub open spec fn settled(session: SessionView, clock: int, config: Config) -> bool {
    &&& session.start_time <= session.end_time
    &&& session.start_time <= clock
    &&& session.end_time <= clock + config.extension()
}

/// One of the two windows has run out before the other starts.
pub open spec fn windows_apart(a: SessionView, b: SessionView, config: Config) -> bool {
    a.end_time + config.grace() <= b.start_time || b.end_time + config.grace() <= a.start_time
}

/// The invariant of a store whose latest batch was applied at `clock`:
/// identifiers are positions, every session is settled, and the windows of
/// two sessions of one device never meet.
pub open spec fn well_formed(store: Seq<SessionView>, clock: int, config: Config) -> bool {
    &&& forall|i: int| 0 <= i < store.len() ==> (#[trigger] store[i]).id == i
    &&& forall|i: int| 0 <= i < store.len() ==> settled(#[trigger] store[i], clock, config)
    &&& forall|i: int, j: int|
        0 <= i < store.len() && 0 <= j < store.len() && i != j && (#[trigger] store[i]).mac_address
            == (#[trigger] store[j]).mac_address ==> windows_apart(store[i], store[j], config)
}

} // verus!
