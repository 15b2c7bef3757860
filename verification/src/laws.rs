//! What holds of every store and every batch of sightings.

use vstd::prelude::*;
use crate::config::Config;
use crate::lemmas::{
    lemma_dedupe_distinct, lemma_dedupe_sighted, lemma_extend_open_well_formed,
    lemma_open_new_absorbed, lemma_open_new_appended, lemma_open_new_covers,
    lemma_open_new_keeps, lemma_open_new_opens, lemma_open_new_skips_active,
    lemma_open_new_well_formed, lemma_unmatched_distinct, lemma_unmatched_members,
    lemma_user_matched,
};
use crate::models::{SessionView, SightingView, UserId};
use crate::timeline::{
    apply_batch, dedupe, device_repeated, extend_open, extended_records, extended_session,
    extends, fresh_session, in_window, is_open, mac_active, open_new, sighted, unmatched,
    user_matched, well_formed, windows_apart,
};

verus! {

/// Applying a batch keeps the store well formed, at the instant of the
/// batch, provided that time has not run backwards.
pub proof fn lemma_apply_batch_well_formed(
    store: Seq<SessionView>,
    clock: int,
    batch: Seq<SightingView>,
    now: int,
    config: Config,
)
    requires
        well_formed(store, clock, config),
        clock <= now,
    ensures
        well_formed(apply_batch(store, batch, now, config), now, config),
{
    let devices = dedupe(batch);
    lemma_extend_open_well_formed(store, clock, devices, now, config);
    lemma_open_new_well_formed(
        extend_open(store, devices, now, config),
        unmatched(devices, extended_records(store, devices, now, config)),
        now,
        config,
    );
}

/// In a well-formed store no instant lies in the windows of two sessions of
/// one device.
pub proof fn lemma_windows_never_meet(
    store: Seq<SessionView>,
    clock: int,
    config: Config,
    i: int,
    j: int,
    instant: int,
)
    requires
        well_formed(store, clock, config),
        0 <= i < store.len(),
        0 <= j < store.len(),
        i != j,
        store[i].mac_address == store[j].mac_address,
    ensures
        !(in_window(store[i], instant, config) && in_window(store[j], instant, config)),
{
    assert(windows_apart(store[i], store[j], config));
}

/// In a well-formed store a device has at most one open session, at the
/// instant of the latest batch and at any later one.
pub proof fn lemma_at_most_one_open(
    store: Seq<SessionView>,
    clock: int,
    config: Config,
    i: int,
    j: int,
    now: int,
)
    requires
        well_formed(store, clock, config),
        clock <= now,
        0 <= i < store.len(),
        0 <= j < store.len(),
        store[i].mac_address == store[j].mac_address,
        is_open(store[i], now, config),
        is_open(store[j], now, config),
    ensures
        i == j,
{
    if i != j {
        assert(windows_apart(store[i], store[j], config));
    }
}

/// The records of the extended sessions come in store order: each holds the
/// identifier of a session of the store, and the identifiers increase.
proof fn lemma_extended_records_ordered(
    store: Seq<SessionView>,
    batch: Seq<SightingView>,
    now: int,
    config: Config,
)
    requires
        forall|i: int| 0 <= i < store.len() ==> (#[trigger] store[i]).id == i,
    ensures
        forall|a: int|
            0 <= a < extended_records(store, batch, now, config).len() ==> 0 <= (
            #[trigger] extended_records(store, batch, now, config)[a]).id < store.len(),
        forall|a: int, b: int|
            0 <= a < b < extended_records(store, batch, now, config).len() ==> (
            #[trigger] extended_records(store, batch, now, config)[a]).id < (
            #[trigger] extended_records(store, batch, now, config)[b]).id,
    decreases store.len(),
{
    reveal(Seq::filter);
    if store.len() > 0 {
        let head = store.drop_last();
        lemma_extended_records_ordered(head, batch, now, config);
        let inner = extended_records(head, batch, now, config);
        let records = extended_records(store, batch, now, config);
        assert forall|a: int| 0 <= a < records.len() implies 0 <= (#[trigger] records[a]).id
            < store.len() by {
            if a < inner.len() {
                assert(records[a] == inner[a]);
            }
        }
        assert forall|a: int, b: int| 0 <= a < b < records.len() implies (#[trigger] records[a]).id
            < (#[trigger] records[b]).id by {
            assert(records[a] == inner[a]);
            if b < inner.len() {
                assert(records[b] == inner[b]);
            }
        }
    }
}

/// A well-formed store never reports two extended sessions of one device.
pub proof fn lemma_extended_one_per_device(
    store: Seq<SessionView>,
    clock: int,
    batch: Seq<SightingView>,
    now: int,
    config: Config,
)
    requires
        well_formed(store, clock, config),
        clock <= now,
    ensures
        !device_repeated(extended_records(store, batch, now, config)),
{
    let touched = |s: SessionView| extends(s, batch, now, config);
    let found = store.filter(touched);
    let records = extended_records(store, batch, now, config);
    lemma_extended_records_ordered(store, batch, now, config);
    assert forall|a: int, b: int| 0 <= a < b < records.len() implies (
    #[trigger] records[a]).mac_address != (#[trigger] records[b]).mac_address by {
        store.lemma_filter_pred(touched, a);
        store.lemma_filter_pred(touched, b);
        assert(found.contains(found[a]));
        assert(found.contains(found[b]));
        store.lemma_filter_contains_rev(touched, found[a]);
        store.lemma_filter_contains_rev(touched, found[b]);
        let i = choose|i: int| 0 <= i < store.len() && store[i] == found[a];
        let j = choose|j: int| 0 <= j < store.len() && store[j] == found[b];
        assert(records[a].id == i && records[b].id == j);
        if store[i].mac_address == store[j].mac_address {
            lemma_at_most_one_open(store, clock, config, i, j, now);
        }
    }
}

/// Applying the same batch twice at the same instant gives the store that
/// applying it once gives, wherever a session is open at the instant it is
/// created: that is, unless grace period and extension window are both zero.
pub proof fn lemma_apply_batch_idempotent(
    store: Seq<SessionView>,
    batch: Seq<SightingView>,
    now: int,
    config: Config,
)
    requires
        config.grace() + config.extension() > 0,
    ensures
        apply_batch(apply_batch(store, batch, now, config), batch, now, config) == apply_batch(
            store,
            batch,
            now,
            config,
        ),
{
    let devices = dedupe(batch);
    let widened = extend_open(store, devices, now, config);
    let first_records = extended_records(store, devices, now, config);
    let first_rest = unmatched(devices, first_records);
    let once = open_new(widened, first_rest, now, config);
    lemma_open_new_keeps(widened, first_rest, now, config);
    lemma_open_new_appended(widened, first_rest, now, config);

    let again = extend_open(once, devices, now, config);
    assert(again =~= once) by {
        assert forall|i: int| 0 <= i < once.len() implies again[i] == once[i] by {
            if i < store.len() {
                assert(once[i] == widened[i]);
            } else {
                let k = choose|k: int|
                    0 <= k < first_rest.len() && (#[trigger] once[i]) == fresh_session(
                        i,
                        #[trigger] first_rest[k],
                        now,
                        config,
                    );
                assert(once[i].end_time == now + config.extension());
            }
        }
    }

    let second_records = extended_records(once, devices, now, config);
    let second_rest = unmatched(devices, second_records);
    lemma_unmatched_members(devices, first_records);
    lemma_unmatched_members(devices, second_records);
    assert forall|k: int| 0 <= k < second_rest.len() implies mac_active(
        once,
        (#[trigger] second_rest[k]).1,
        now,
        config,
    ) by {
        let sighting = second_rest[k];
        let d = choose|d: int| 0 <= d < devices.len() && devices[d] == sighting;
        if user_matched(first_records, sighting.0) {
            lemma_user_matched(store, devices, now, config, sighting.0);
            let i = choose|i: int|
                0 <= i < store.len() && extends(#[trigger] store[i], devices, now, config)
                    && store[i].user_id == sighting.0;
            assert(once[i] == widened[i]);
            assert(extends(once[i], devices, now, config) && once[i].user_id == sighting.0);
            lemma_user_matched(once, devices, now, config, sighting.0);
        }
        assert(first_rest.contains(devices[d]));
        let f = choose|f: int| 0 <= f < first_rest.len() && first_rest[f] == sighting;
        lemma_open_new_covers(widened, first_rest, now, config, f);
    }
    lemma_open_new_absorbed(once, second_rest, now, config);
}

/// A batch leaves every session in place and never moves its end back: only
/// the end of a session changes, and only forwards.
pub proof fn lemma_end_time_never_decreases(
    store: Seq<SessionView>,
    clock: int,
    batch: Seq<SightingView>,
    now: int,
    config: Config,
    i: int,
)
    requires
        well_formed(store, clock, config),
        clock <= now,
        0 <= i < store.len(),
    ensures
        i < apply_batch(store, batch, now, config).len(),
        apply_batch(store, batch, now, config)[i] == (SessionView {
            end_time: apply_batch(store, batch, now, config)[i].end_time,
            ..store[i]
        }),
        store[i].end_time <= apply_batch(store, batch, now, config)[i].end_time,
        i < extend_open(store, batch, now, config).len(),
        extend_open(store, batch, now, config)[i] == (SessionView {
            end_time: extend_open(store, batch, now, config)[i].end_time,
            ..store[i]
        }),
        store[i].end_time <= extend_open(store, batch, now, config)[i].end_time,
        i < open_new(store, batch, now, config).len(),
        open_new(store, batch, now, config)[i] == store[i],
{
    let devices = dedupe(batch);
    lemma_open_new_keeps(
        extend_open(store, devices, now, config),
        unmatched(devices, extended_records(store, devices, now, config)),
        now,
        config,
    );
    lemma_open_new_keeps(store, batch, now, config);
}

/// What a batch does to a session that was there before it: the session is
/// extended where its device is sighted and it is open, and stays as it is
/// otherwise.
pub proof fn lemma_existing_sessions(
    store: Seq<SessionView>,
    batch: Seq<SightingView>,
    now: int,
    config: Config,
    i: int,
)
    requires
        0 <= i < store.len(),
    ensures
        i < apply_batch(store, batch, now, config).len(),
        apply_batch(store, batch, now, config)[i] == if extends(store[i], batch, now, config) {
            extended_session(store[i], now, config)
        } else {
            store[i]
        },
{
    let devices = dedupe(batch);
    lemma_dedupe_sighted(batch, store[i].mac_address);
    lemma_open_new_keeps(
        extend_open(store, devices, now, config),
        unmatched(devices, extended_records(store, devices, now, config)),
        now,
        config,
    );
}

/// A batch leaves the sessions of the devices that it does not sight as they
/// are: they lapse by themselves.
pub proof fn lemma_unsighted_untouched(
    store: Seq<SessionView>,
    batch: Seq<SightingView>,
    now: int,
    config: Config,
    i: int,
)
    requires
        0 <= i < store.len(),
        !sighted(batch, store[i].mac_address),
    ensures
        i < apply_batch(store, batch, now, config).len(),
        apply_batch(store, batch, now, config)[i] == store[i],
{
    lemma_existing_sessions(store, batch, now, config, i);
}

/// A device that is sighted again before the grace period of its session has
/// run out keeps that session: the session now ends an extension window
/// after the new sighting, and no other session is opened for the device.
pub proof fn lemma_resighting_within_grace_extends(
    store: Seq<SessionView>,
    clock: int,
    batch: Seq<SightingView>,
    now: int,
    config: Config,
    i: int,
)
    requires
        well_formed(store, clock, config),
        clock <= now,
        0 <= i < store.len(),
        sighted(batch, store[i].mac_address),
        now < store[i].end_time + config.grace(),
    ensures
        i < apply_batch(store, batch, now, config).len(),
        apply_batch(store, batch, now, config)[i] == extended_session(store[i], now, config),
        forall|j: int|
            store.len() <= j < apply_batch(store, batch, now, config).len() ==> (
            #[trigger] apply_batch(store, batch, now, config)[j]).mac_address
                != store[i].mac_address,
{
    let devices = dedupe(batch);
    let widened = extend_open(store, devices, now, config);
    let rest = unmatched(devices, extended_records(store, devices, now, config));
    lemma_dedupe_sighted(batch, store[i].mac_address);
    lemma_open_new_keeps(widened, rest, now, config);
    assert(widened[i] == extended_session(store[i], now, config));
    assert(is_open(widened[i], now, config));
    lemma_open_new_skips_active(widened, rest, now, config, store[i].mac_address);
}

/// A device that is sighted when the grace period of every session of it has
/// run out gets a new session, from the sighting to an extension window after
/// it, and its earlier sessions stay as they are, provided that its user
/// owns none of the sessions that the batch extends.
pub proof fn lemma_resighting_after_grace_opens(
    store: Seq<SessionView>,
    batch: Seq<SightingView>,
    now: int,
    config: Config,
    user: UserId,
    mac: Seq<char>,
)
    requires
        dedupe(batch).contains((user, mac)),
        !mac_active(store, mac, now, config),
        forall|i: int|
            0 <= i < store.len() && extends(#[trigger] store[i], batch, now, config)
                ==> store[i].user_id != user,
    ensures
        exists|j: int|
            store.len() <= j < apply_batch(store, batch, now, config).len() && (
            #[trigger] apply_batch(store, batch, now, config)[j]) == fresh_session(
                j,
                (user, mac),
                now,
                config,
            ),
        forall|i: int|
            0 <= i < store.len() && (#[trigger] store[i]).mac_address == mac ==> apply_batch(
                store,
                batch,
                now,
                config,
            )[i] == store[i],
{
    let devices = dedupe(batch);
    let widened = extend_open(store, devices, now, config);
    let records = extended_records(store, devices, now, config);
    let rest = unmatched(devices, records);
    let after = open_new(widened, rest, now, config);
    lemma_open_new_keeps(widened, rest, now, config);
    lemma_dedupe_distinct(batch);
    lemma_unmatched_distinct(devices, records);
    lemma_unmatched_members(devices, records);
    let d = choose|d: int| 0 <= d < devices.len() && devices[d] == (user, mac);
    assert(!user_matched(records, user)) by {
        lemma_user_matched(store, devices, now, config, user);
        if exists|i: int|
            0 <= i < store.len() && extends(#[trigger] store[i], devices, now, config)
                && store[i].user_id == user {
            let i = choose|i: int|
                0 <= i < store.len() && extends(#[trigger] store[i], devices, now, config)
                    && store[i].user_id == user;
            lemma_dedupe_sighted(batch, store[i].mac_address);
        }
    }
    assert(rest.contains(devices[d]));
    let k = choose|k: int| 0 <= k < rest.len() && rest[k] == (user, mac);
    assert(!mac_active(widened, mac, now, config)) by {
        assert forall|i: int| 0 <= i < widened.len() implies !((#[trigger] widened[i]).mac_address
            == mac && is_open(widened[i], now, config)) by {
            if store[i].mac_address == mac {
                assert(!is_open(store[i], now, config));
            }
        }
    }
    lemma_open_new_opens(widened, rest, now, config, k);
    let j = choose|j: int|
        widened.len() <= j < after.len() && (#[trigger] after[j]) == fresh_session(
            j,
            rest[k],
            now,
            config,
        );
    assert(apply_batch(store, batch, now, config)[j] == fresh_session(j, (user, mac), now, config));
    assert forall|i: int|
        0 <= i < store.len() && (#[trigger] store[i]).mac_address == mac implies after[i]
        == store[i] by {
        assert(!is_open(store[i], now, config));
        assert(after[i] == widened[i]);
    }
}

/// After a batch, an open session of a device that the batch sights ends an
/// extension window after the batch.
pub proof fn lemma_sighted_open_session_end(
    store: Seq<SessionView>,
    batch: Seq<SightingView>,
    now: int,
    config: Config,
    i: int,
)
    requires
        0 <= i < apply_batch(store, batch, now, config).len(),
        sighted(batch, apply_batch(store, batch, now, config)[i].mac_address),
        is_open(apply_batch(store, batch, now, config)[i], now, config),
    ensures
        apply_batch(store, batch, now, config)[i].end_time == now + config.extension(),
{
    let devices = dedupe(batch);
    let widened = extend_open(store, devices, now, config);
    let rest = unmatched(devices, extended_records(store, devices, now, config));
    let after = open_new(widened, rest, now, config);
    lemma_open_new_keeps(widened, rest, now, config);
    lemma_open_new_appended(widened, rest, now, config);
    if i < store.len() {
        assert(after[i] == widened[i]);
        lemma_dedupe_sighted(batch, store[i].mac_address);
    } else {
        let k = choose|k: int|
            0 <= k < rest.len() && (#[trigger] after[i]) == fresh_session(
                i,
                #[trigger] rest[k],
                now,
                config,
            );
        assert(after[i].end_time == now + config.extension());
    }
}

/// Each session that a batch opens runs from the batch to an extension window
/// after it, for a sighting of the batch without its repeated devices: for a
/// device that was not active, and a user who owns none of the sessions that
/// the batch extends.
pub proof fn lemma_opened_sessions(
    store: Seq<SessionView>,
    clock: int,
    batch: Seq<SightingView>,
    now: int,
    config: Config,
    j: int,
)
    requires
        well_formed(store, clock, config),
        clock <= now,
        store.len() <= j < apply_batch(store, batch, now, config).len(),
    ensures
        exists|d: int|
            0 <= d < dedupe(batch).len() && apply_batch(store, batch, now, config)[j]
                == fresh_session(j, #[trigger] dedupe(batch)[d], now, config),
        sighted(batch, apply_batch(store, batch, now, config)[j].mac_address),
        !mac_active(store, apply_batch(store, batch, now, config)[j].mac_address, now, config),
        forall|i: int|
            0 <= i < store.len() && extends(#[trigger] store[i], batch, now, config)
                ==> store[i].user_id != apply_batch(store, batch, now, config)[j].user_id,
{
    let devices = dedupe(batch);
    let widened = extend_open(store, devices, now, config);
    let records = extended_records(store, devices, now, config);
    let rest = unmatched(devices, records);
    let after = open_new(widened, rest, now, config);
    lemma_open_new_appended(widened, rest, now, config);
    lemma_unmatched_members(devices, records);
    let k = choose|k: int|
        0 <= k < rest.len() && (#[trigger] after[j]) == fresh_session(
            j,
            #[trigger] rest[k],
            now,
            config,
        );
    assert(devices.contains(rest[k]));
    let d = choose|d: int| 0 <= d < devices.len() && devices[d] == rest[k];
    assert(sighted(devices, devices[d].1));
    lemma_dedupe_sighted(batch, after[j].mac_address);
    assert forall|i: int|
        0 <= i < store.len() && extends(#[trigger] store[i], batch, now, config) implies store[i].user_id
        != after[j].user_id by {
        lemma_dedupe_sighted(batch, store[i].mac_address);
        lemma_user_matched(store, devices, now, config, after[j].user_id);
    }
    if mac_active(store, after[j].mac_address, now, config) {
        let i = choose|i: int|
            0 <= i < store.len() && (#[trigger] store[i]).mac_address == after[j].mac_address
                && is_open(store[i], now, config);
        assert(is_open(widened[i], now, config));
        lemma_open_new_skips_active(widened, rest, now, config, after[j].mac_address);
    }
}

/// A device is sighted at `t0`, then not sighted, then sighted again at `t1`,
/// less than an extension window and a grace period after `t0`: the session
/// that the first sighting left open spans both sightings, from its start to
/// an extension window after `t1`, and no other session of the device is
/// recorded since.
pub proof fn lemma_sighted_again_within_grace(
    store: Seq<SessionView>,
    clock: int,
    first: Seq<SightingView>,
    t0: int,
    quiet: Seq<SightingView>,
    tq: int,
    again: Seq<SightingView>,
    t1: int,
    config: Config,
    i: int,
)
    requires
        well_formed(store, clock, config),
        clock <= t0 <= tq <= t1,
        0 <= i < apply_batch(store, first, t0, config).len(),
        sighted(first, apply_batch(store, first, t0, config)[i].mac_address),
        is_open(apply_batch(store, first, t0, config)[i], t0, config),
        !sighted(quiet, apply_batch(store, first, t0, config)[i].mac_address),
        sighted(again, apply_batch(store, first, t0, config)[i].mac_address),
        t1 < t0 + config.extension() + config.grace(),
    ensures
        ({
            let sighted_once = apply_batch(store, first, t0, config);
            let unsighted = apply_batch(sighted_once, quiet, tq, config);
            let sighted_twice = apply_batch(unsighted, again, t1, config);
            &&& sighted_once[i].end_time == t0 + config.extension()
            &&& i < sighted_twice.len()
            &&& sighted_twice[i] == extended_session(sighted_once[i], t1, config)
            &&& forall|j: int|
                sighted_once.len() <= j < sighted_twice.len() ==> (
                #[trigger] sighted_twice[j]).mac_address != sighted_once[i].mac_address
        }),
{
    let sighted_once = apply_batch(store, first, t0, config);
    let unsighted = apply_batch(sighted_once, quiet, tq, config);
    let sighted_twice = apply_batch(unsighted, again, t1, config);
    let mac = sighted_once[i].mac_address;
    lemma_sighted_open_session_end(store, first, t0, config, i);
    lemma_apply_batch_well_formed(store, clock, first, t0, config);
    lemma_apply_batch_well_formed(sighted_once, t0, quiet, tq, config);
    lemma_unsighted_untouched(sighted_once, quiet, tq, config, i);
    lemma_resighting_within_grace_extends(unsighted, tq, again, t1, config, i);
    assert forall|j: int| sighted_once.len() <= j < sighted_twice.len() implies (
    #[trigger] sighted_twice[j]).mac_address != mac by {
        if j < unsighted.len() {
            lemma_opened_sessions(sighted_once, t0, quiet, tq, config, j);
            lemma_end_time_never_decreases(unsighted, tq, again, t1, config, j);
        }
    }
}

/// A device is sighted at `t0`, then not sighted, then sighted again at `t1`,
/// an extension window and a grace period after `t0` or later: the session
/// that the first sighting left open stays as it was, and a second session
/// is recorded for the device, from `t1` to an extension window after it,
/// provided that the user of the sighting owns none of the sessions that the
/// last batch extends.
pub proof fn lemma_sighted_again_after_grace(
    store: Seq<SessionView>,
    clock: int,
    first: Seq<SightingView>,
    t0: int,
    quiet: Seq<SightingView>,
    tq: int,
    again: Seq<SightingView>,
    t1: int,
    config: Config,
    i: int,
    user: UserId,
)
    requires
        well_formed(store, clock, config),
        clock <= t0 <= tq <= t1,
        0 <= i < apply_batch(store, first, t0, config).len(),
        sighted(first, apply_batch(store, first, t0, config)[i].mac_address),
        is_open(apply_batch(store, first, t0, config)[i], t0, config),
        !sighted(quiet, apply_batch(store, first, t0, config)[i].mac_address),
        dedupe(again).contains((user, apply_batch(store, first, t0, config)[i].mac_address)),
        t1 >= t0 + config.extension() + config.grace(),
        forall|k: int|
            0 <= k < apply_batch(apply_batch(store, first, t0, config), quiet, tq, config).len()
                && extends(
                #[trigger] apply_batch(apply_batch(store, first, t0, config), quiet, tq, config)[k],
                again,
                t1,
                config,
            ) ==> apply_batch(apply_batch(store, first, t0, config), quiet, tq, config)[k].user_id
                != user,
    ensures
        ({
            let sighted_once = apply_batch(store, first, t0, config);
            let unsighted = apply_batch(sighted_once, quiet, tq, config);
            let sighted_twice = apply_batch(unsighted, again, t1, config);
            &&& sighted_once[i].end_time == t0 + config.extension()
            &&& i < sighted_twice.len()
            &&& sighted_twice[i] == sighted_once[i]
            &&& exists|j: int|
                unsighted.len() <= j < sighted_twice.len() && (#[trigger] sighted_twice[j])
                    == fresh_session(j, (user, sighted_once[i].mac_address), t1, config)
        }),
{
    let sighted_once = apply_batch(store, first, t0, config);
    let unsighted = apply_batch(sighted_once, quiet, tq, config);
    let sighted_twice = apply_batch(unsighted, again, t1, config);
    let mac = sighted_once[i].mac_address;
    lemma_sighted_open_session_end(store, first, t0, config, i);
    lemma_apply_batch_well_formed(store, clock, first, t0, config);
    lemma_unsighted_untouched(sighted_once, quiet, tq, config, i);
    assert(!mac_active(unsighted, mac, t1, config)) by {
        assert forall|k: int| 0 <= k < unsighted.len() implies !((
        #[trigger] unsighted[k]).mac_address == mac && is_open(unsighted[k], t1, config)) by {
            if k >= sighted_once.len() {
                lemma_opened_sessions(sighted_once, t0, quiet, tq, config, k);
            } else {
                lemma_end_time_never_decreases(sighted_once, t0, quiet, tq, config, k);
                if unsighted[k].mac_address == mac {
                    lemma_unsighted_untouched(sighted_once, quiet, tq, config, k);
                    if k != i && is_open(sighted_once[k], t0, config) {
                        lemma_at_most_one_open(sighted_once, t0, config, i, k, t0);
                    }
                }
            }
        }
    }
    lemma_resighting_after_grace_opens(unsighted, again, t1, config, user, mac);
}

/// A device whose latest session ends at some instant is active strictly
/// before a grace period after that instant, and not at it or later.
pub proof fn lemma_liveness_window(store: Seq<SessionView>, config: Config, i: int, now: int)
    requires
        0 <= i < store.len(),
        forall|j: int|
            0 <= j < store.len() && (#[trigger] store[j]).mac_address == store[i].mac_address
                ==> store[j].end_time <= store[i].end_time,
    ensures
        mac_active(store, store[i].mac_address, now, config) <==> now < store[i].end_time
            + config.grace(),
{
}

} // verus!
