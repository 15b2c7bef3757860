//! Lemmas on the model of the store: what extending, the guarded inserts and
//! the steps between them keep and establish.

use vstd::prelude::*;
use crate::config::Config;
use crate::models::{SessionView, SightingView};
use crate::timeline::{
    dedupe, distinct_devices, extend_open, extended_records, extends, first_sighting,
    fresh_session, is_open, mac_active, open_new, open_one, sighted, sighted_first, unmatched,
    user_matched, well_formed,
};

verus! {

/// A batch and its deduplicated form sight the same devices.
pub proof fn lemma_dedupe_sighted(batch: Seq<SightingView>, mac: Seq<char>)
    ensures
        sighted(dedupe(batch), mac) <==> sighted(batch, mac),
    decreases batch.len(),
{
    if batch.len() > 0 {
        let head = batch.drop_last();
        let last = batch.last();
        let kept = dedupe(batch);
        lemma_dedupe_sighted(head, mac);
        if sighted(batch, mac) {
            let k = choose|k: int| 0 <= k < batch.len() && (#[trigger] batch[k]).1 == mac;
            if k < head.len() {
                assert(head[k].1 == mac);
            }
            if sighted(head, mac) {
                let j = choose|j: int|
                    0 <= j < dedupe(head).len() && (#[trigger] dedupe(head)[j]).1 == mac;
                assert(kept[j].1 == mac);
            } else {
                assert(kept[kept.len() - 1].1 == mac);
            }
        }
        if sighted(kept, mac) {
            let j = choose|j: int| 0 <= j < kept.len() && (#[trigger] kept[j]).1 == mac;
            if j < dedupe(head).len() {
                assert(dedupe(head)[j].1 == mac);
                let k = choose|k: int| 0 <= k < head.len() && (#[trigger] head[k]).1 == mac;
                assert(batch[k].1 == mac);
            } else {
                assert(batch[batch.len() - 1].1 == mac);
            }
        }
    }
}

/// A deduplicated batch sights no device twice, and each of its sightings is
/// the first sighting of its device in the batch it was made from.
pub proof fn lemma_dedupe_distinct(batch: Seq<SightingView>)
    ensures
        distinct_devices(dedupe(batch)),
        dedupe(batch).len() <= batch.len(),
        forall|j: int|
            0 <= j < dedupe(batch).len() ==> sighted_first(batch, #[trigger] dedupe(batch)[j]),
    decreases batch.len(),
{
    if batch.len() > 0 {
        let head = batch.drop_last();
        let last = batch.last();
        let kept = dedupe(batch);
        lemma_dedupe_distinct(head);
        lemma_dedupe_sighted(head, last.1);
        assert forall|j: int| 0 <= j < kept.len() implies sighted_first(batch, #[trigger] kept[j]) by {
            let k = if j < dedupe(head).len() {
                choose|k: int| first_sighting(head, k) && #[trigger] head[k] == dedupe(head)[j]
            } else {
                batch.len() - 1
            };
            assert forall|e: int| 0 <= e < k implies (#[trigger] batch[e]).1 != batch[k].1 by {
                assert(head[e] == batch[e]);
            }
            assert(first_sighting(batch, k) && batch[k] == kept[j]);
        }
    }
}

/// A store that is well formed at one instant is well formed at any later
/// one.
pub proof fn lemma_well_formed_later(store: Seq<SessionView>, clock: int, later: int, config: Config)
    requires
        well_formed(store, clock, config),
        clock <= later,
    ensures
        well_formed(store, later, config),
{
}

/// Extending keeps the store well formed, at the instant of the batch.
///
/// A session that is open at `now` has started by then, so the window of
/// any other session of its device had run out before it started: that
/// other session is not open and stays as it is, before the extended one.
pub proof fn lemma_extend_open_well_formed(
    store: Seq<SessionView>,
    clock: int,
    batch: Seq<SightingView>,
    now: int,
    config: Config,
)
    requires
        well_formed(store, clock, config),
        clock <= now,
    ensures
        well_formed(extend_open(store, batch, now, config), now, config),
{
}

/// A guarded insert keeps the store well formed: the device of a session
/// that is opened has no open session, so every window of it has run out by
/// `now`, when the new one starts.
pub proof fn lemma_open_one_well_formed(
    store: Seq<SessionView>,
    sighting: SightingView,
    now: int,
    config: Config,
)
    requires
        well_formed(store, now, config),
    ensures
        well_formed(open_one(store, sighting, now, config), now, config),
{
}

/// Guarded inserts only append: the sessions that were there stay as they
/// are.
pub proof fn lemma_open_new_keeps(
    store: Seq<SessionView>,
    batch: Seq<SightingView>,
    now: int,
    config: Config,
)
    ensures
        store.len() <= open_new(store, batch, now, config).len(),
        open_new(store, batch, now, config).len() <= store.len() + batch.len(),
        forall|i: int|
            0 <= i < store.len() ==> (#[trigger] open_new(store, batch, now, config)[i]) == store[i],
    decreases batch.len(),
{
    if batch.len() > 0 {
        lemma_open_new_keeps(store, batch.drop_last(), now, config);
    }
}

/// Guarded inserts keep the store well formed.
pub proof fn lemma_open_new_well_formed(
    store: Seq<SessionView>,
    batch: Seq<SightingView>,
    now: int,
    config: Config,
)
    requires
        well_formed(store, now, config),
    ensures
        well_formed(open_new(store, batch, now, config), now, config),
    decreases batch.len(),
{
    if batch.len() > 0 {
        let head = batch.drop_last();
        lemma_open_new_well_formed(store, head, now, config);
        lemma_open_one_well_formed(open_new(store, head, now, config), batch.last(), now, config);
    }
}

/// A device that is active stays active through guarded inserts.
pub proof fn lemma_open_new_stays_active(
    store: Seq<SessionView>,
    batch: Seq<SightingView>,
    now: int,
    config: Config,
    mac: Seq<char>,
)
    requires
        mac_active(store, mac, now, config),
    ensures
        mac_active(open_new(store, batch, now, config), mac, now, config),
{
    lemma_open_new_keeps(store, batch, now, config);
    let i = choose|i: int|
        0 <= i < store.len() && (#[trigger] store[i]).mac_address == mac && is_open(
            store[i],
            now,
            config,
        );
    assert(open_new(store, batch, now, config)[i] == store[i]);
}

/// Each session that guarded inserts append is the fresh session of one of
/// the sightings.
pub proof fn lemma_open_new_appended(
    store: Seq<SessionView>,
    batch: Seq<SightingView>,
    now: int,
    config: Config,
)
    ensures
        forall|j: int|
            store.len() <= j < open_new(store, batch, now, config).len() ==> exists|k: int|
                0 <= k < batch.len() && (#[trigger] open_new(store, batch, now, config)[j])
                    == fresh_session(j, #[trigger] batch[k], now, config),
    decreases batch.len(),
{
    let after = open_new(store, batch, now, config);
    if batch.len() > 0 {
        let head = batch.drop_last();
        let middle = open_new(store, head, now, config);
        lemma_open_new_appended(store, head, now, config);
        assert forall|j: int| store.len() <= j < after.len() implies exists|k: int|
            0 <= k < batch.len() && (#[trigger] after[j]) == fresh_session(
                j,
                #[trigger] batch[k],
                now,
                config,
            ) by {
            if j < middle.len() {
                let k = choose|k: int|
                    0 <= k < head.len() && (#[trigger] middle[j]) == fresh_session(
                        j,
                        #[trigger] head[k],
                        now,
                        config,
                    );
                assert(after[j] == fresh_session(j, batch[k], now, config));
            } else {
                assert(after[j] == fresh_session(j, batch[batch.len() - 1], now, config));
            }
        }
    }
}

/// Guarded inserts for devices that are all active change nothing.
pub proof fn lemma_open_new_absorbed(
    store: Seq<SessionView>,
    batch: Seq<SightingView>,
    now: int,
    config: Config,
)
    requires
        forall|k: int|
            0 <= k < batch.len() ==> mac_active(store, (#[trigger] batch[k]).1, now, config),
    ensures
        open_new(store, batch, now, config) == store,
    decreases batch.len(),
{
    if batch.len() > 0 {
        let head = batch.drop_last();
        assert forall|k: int| 0 <= k < head.len() implies mac_active(
            store,
            (#[trigger] head[k]).1,
            now,
            config,
        ) by {
            assert(head[k] == batch[k]);
        }
        lemma_open_new_absorbed(store, head, now, config);
        assert(mac_active(store, batch[batch.len() - 1].1, now, config));
    }
}

/// Where a session is open at the instant it is created, every device of
/// the batch is active after the guarded inserts.
pub proof fn lemma_open_new_covers(
    store: Seq<SessionView>,
    batch: Seq<SightingView>,
    now: int,
    config: Config,
    k: int,
)
    requires
        config.grace() + config.extension() > 0,
        0 <= k < batch.len(),
    ensures
        mac_active(open_new(store, batch, now, config), batch[k].1, now, config),
    decreases batch.len(),
{
    let head = batch.drop_last();
    let middle = open_new(store, head, now, config);
    let after = open_new(store, batch, now, config);
    if k < batch.len() - 1 {
        lemma_open_new_covers(store, head, now, config, k);
        let i = choose|i: int|
            0 <= i < middle.len() && (#[trigger] middle[i]).mac_address == batch[k].1 && is_open(
                middle[i],
                now,
                config,
            );
        assert(after[i] == middle[i]);
    } else if !mac_active(middle, batch[k].1, now, config) {
        assert(is_open(after[middle.len() as int], now, config));
    }
}

/// Guarded inserts open nothing for a device that is active.
pub proof fn lemma_open_new_skips_active(
    store: Seq<SessionView>,
    batch: Seq<SightingView>,
    now: int,
    config: Config,
    mac: Seq<char>,
)
    requires
        mac_active(store, mac, now, config),
    ensures
        forall|j: int|
            store.len() <= j < open_new(store, batch, now, config).len() ==> (
            #[trigger] open_new(store, batch, now, config)[j]).mac_address != mac,
    decreases batch.len(),
{
    if batch.len() > 0 {
        let head = batch.drop_last();
        lemma_open_new_skips_active(store, head, now, config, mac);
        lemma_open_new_stays_active(store, head, now, config, mac);
    }
}

/// A batch without its last sighting repeats no device if the batch repeats
/// none.
proof fn lemma_distinct_head(batch: Seq<SightingView>)
    requires
        distinct_devices(batch),
        batch.len() > 0,
    ensures
        distinct_devices(batch.drop_last()),
{
    let head = batch.drop_last();
    assert forall|a: int, b: int| 0 <= a < b < head.len() implies (#[trigger] head[a]).1 != (
    #[trigger] head[b]).1 by {
        assert(head[a] == batch[a] && head[b] == batch[b]);
    }
}

/// In a batch without repeated devices, a sighting of a device that is not
/// active opens a session.
pub proof fn lemma_open_new_opens(
    store: Seq<SessionView>,
    batch: Seq<SightingView>,
    now: int,
    config: Config,
    k: int,
)
    requires
        distinct_devices(batch),
        0 <= k < batch.len(),
        !mac_active(store, batch[k].1, now, config),
    ensures
        exists|j: int|
            store.len() <= j < open_new(store, batch, now, config).len() && (#[trigger] open_new(
                store,
                batch,
                now,
                config,
            )[j]) == fresh_session(j, batch[k], now, config),
    decreases batch.len(),
{
    let head = batch.drop_last();
    let middle = open_new(store, head, now, config);
    let after = open_new(store, batch, now, config);
    lemma_open_new_keeps(store, head, now, config);
    if k < batch.len() - 1 {
        lemma_distinct_head(batch);
        lemma_open_new_opens(store, head, now, config, k);
        let j = choose|j: int|
            store.len() <= j < middle.len() && (#[trigger] middle[j]) == fresh_session(
                j,
                batch[k],
                now,
                config,
            );
        assert(after[j] == middle[j]);
    } else {
        lemma_open_new_appended(store, head, now, config);
        assert forall|i: int| 0 <= i < middle.len() implies !((#[trigger] middle[i]).mac_address
            == batch[k].1 && is_open(middle[i], now, config)) by {
            if i >= store.len() {
                let h = choose|h: int|
                    0 <= h < head.len() && (#[trigger] middle[i]) == fresh_session(
                        i,
                        #[trigger] head[h],
                        now,
                        config,
                    );
                assert(batch[h].1 != batch[k].1);
            }
        }
        assert(after[middle.len() as int] == fresh_session(middle.len() as int, batch[k], now, config));
    }
}

/// The sightings that stay unmatched are those of the batch whose user owns
/// none of the extended sessions.
pub proof fn lemma_unmatched_members(batch: Seq<SightingView>, extended: Seq<SessionView>)
    ensures
        forall|k: int|
            0 <= k < unmatched(batch, extended).len() ==> batch.contains(
                #[trigger] unmatched(batch, extended)[k],
            ) && !user_matched(extended, unmatched(batch, extended)[k].0),
        forall|i: int|
            0 <= i < batch.len() && !user_matched(extended, (#[trigger] batch[i]).0) ==> unmatched(
                batch,
                extended,
            ).contains(batch[i]),
{
    let keep = |d: SightingView| !user_matched(extended, d.0);
    let rest = unmatched(batch, extended);
    assert forall|k: int| 0 <= k < rest.len() implies batch.contains(#[trigger] rest[k])
        && !user_matched(extended, rest[k].0) by {
        batch.lemma_filter_pred(keep, k);
        batch.lemma_filter_contains_rev(keep, rest[k]);
    }
    assert forall|i: int|
        0 <= i < batch.len() && !user_matched(extended, (#[trigger] batch[i]).0) implies rest.contains(
        batch[i],
    ) by {
        batch.lemma_filter_contains(keep, i);
    }
}

/// Dropping the matched sightings from a batch without repeated devices
/// leaves a batch without repeated devices.
pub proof fn lemma_unmatched_distinct(batch: Seq<SightingView>, extended: Seq<SessionView>)
    requires
        distinct_devices(batch),
    ensures
        distinct_devices(unmatched(batch, extended)),
    decreases batch.len(),
{
    reveal(Seq::filter);
    if batch.len() > 0 {
        let head = batch.drop_last();
        lemma_distinct_head(batch);
        lemma_unmatched_distinct(head, extended);
        lemma_unmatched_members(head, extended);
        let rest = unmatched(batch, extended);
        let inner = unmatched(head, extended);
        assert forall|a: int, b: int| 0 <= a < b < rest.len() implies (#[trigger] rest[a]).1 != (
        #[trigger] rest[b]).1 by {
            if b >= inner.len() {
                let h = choose|h: int| 0 <= h < head.len() && head[h] == inner[a];
                assert(batch[h].1 != batch[batch.len() - 1].1);
            }
        }
    }
}

/// The users that own an extended session are the owners of the sessions
/// that the batch extends.
pub proof fn lemma_user_matched(
    store: Seq<SessionView>,
    batch: Seq<SightingView>,
    now: int,
    config: Config,
    user: u128,
)
    ensures
        user_matched(extended_records(store, batch, now, config), user) <==> exists|i: int|
            0 <= i < store.len() && extends(#[trigger] store[i], batch, now, config)
                && store[i].user_id == user,
{
    let touched = |s: SessionView| extends(s, batch, now, config);
    let found = store.filter(touched);
    let records = extended_records(store, batch, now, config);
    if user_matched(records, user) {
        let j = choose|j: int| 0 <= j < records.len() && (#[trigger] records[j]).user_id == user;
        store.lemma_filter_pred(touched, j);
        store.lemma_filter_contains_rev(touched, found[j]);
        let i = choose|i: int| 0 <= i < store.len() && store[i] == found[j];
        assert(extends(store[i], batch, now, config) && store[i].user_id == user);
    }
    if exists|i: int|
        0 <= i < store.len() && extends(#[trigger] store[i], batch, now, config) && store[i].user_id
            == user {
        let i = choose|i: int|
            0 <= i < store.len() && extends(#[trigger] store[i], batch, now, config)
                && store[i].user_id == user;
        store.lemma_filter_contains(touched, i);
        let j = choose|j: int| 0 <= j < found.len() && found[j] == store[i];
        assert(records[j].user_id == user);
    }
}

} // verus!
