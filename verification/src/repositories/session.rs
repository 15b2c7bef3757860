//! The presence store and the session engine that keeps it up to date.

use vstd::prelude::*;
use crate::batch::{dedupe_sightings, is_sighted, unmatched_sightings};
use crate::config::Config;
use crate::laws::lemma_end_time_never_decreases;
use crate::lemmas::{
    lemma_extend_open_well_formed, lemma_open_new_keeps, lemma_open_new_well_formed,
    lemma_well_formed_later,
};
use crate::models::{
    session_views, sighting_views, Session, SessionId, SessionView, Sighting, Timestamp,
};
use crate::timeline::{
    apply_batch, extend_open, extended_records, extended_session, extends, is_open, mac_active,
    open_new, well_formed,
};

verus! {

/// Whether the session is open at `now`, given the grace period in seconds.
fn session_is_open(session: &Session, now: Timestamp, grace: u64) -> (open: bool)
    ensures
        open == (now < session@.end_time + grace),
{
    if session.end_time > now {
        true
    } else {
        now - session.end_time < grace
    }
}

/// Whether some session of the device is open at `now`.
fn device_active(sessions: &Vec<Session>, mac: &String, now: Timestamp, config: &Config) -> (active:
    bool)
    ensures
        active == mac_active(session_views(sessions@), mac@, now as int, *config),
{
    let ghost store = session_views(sessions@);
    let grace = config.grace_seconds();
    let mut i: usize = 0;
    while i < sessions.len()
        invariant
            i <= sessions.len(),
            store == session_views(sessions@),
            grace == config.grace(),
            forall|j: int|
                0 <= j < i ==> !((#[trigger] store[j]).mac_address == mac@ && is_open(
                    store[j],
                    now as int,
                    *config,
                )),
        decreases sessions.len() - i,
    {
        if sessions[i].mac_address == *mac && session_is_open(&sessions[i], now, grace) {
            assert(store[i as int].mac_address == mac@ && is_open(store[i as int], now as int, *config));
            return true;
        }
        i += 1;
    }
    false
}

/// The sessions of all devices, in the order in which they were opened, with
/// the instant of the latest batch and the timing options.
#[derive(Debug)]
pub struct SessionRepository {
    sessions: Vec<Session>,
    clock: Timestamp,
    config: Config,
}

impl View for SessionRepository {
    type V = Seq<SessionView>;

    closed spec fn view(&self) -> Seq<SessionView> {
        session_views(self.sessions@)
    }
}

impl SessionRepository {
    /// The instant of the latest batch.
    pub closed spec fn spec_clock(&self) -> Timestamp {
        self.clock
    }

    /// The timing options.
    pub closed spec fn spec_config(&self) -> Config {
        self.config
    }

    /// The invariant of the store, which every store has at all times.
    #[verifier::type_invariant]
    pub open spec fn wf(&self) -> bool {
        well_formed(self@, self.spec_clock() as int, self.spec_config())
    }

    /// A batch can be applied at `now`: time has not run backwards since the
    /// latest batch, and the end of an extended session is a `Timestamp`.
    pub open spec fn spec_accepts(&self, now: Timestamp) -> bool {
        self.spec_clock() <= now && now + self.spec_config().extension() <= Timestamp::MAX
    }

    /// An empty store with the given timing options.
    pub fn new(config: Config) -> (repository: Self)
        ensures
            repository@ == Seq::<SessionView>::empty(),
            repository.clock() == 0,
            repository.config() == config,
            repository.wf(),
    {
        SessionRepository { sessions: Vec::new(), clock: 0, config }
    }

    /// The instant of the latest batch; zero before the first.
    #[verifier::when_used_as_spec(spec_clock)]
    pub fn clock(&self) -> (clock: Timestamp)
        ensures
            clock == self.spec_clock(),
    {
        self.clock
    }

    /// The timing options.
    #[verifier::when_used_as_spec(spec_config)]
    pub fn config(&self) -> (config: Config)
        ensures
            config == self.spec_config(),
    {
        self.config
    }

    /// Whether a batch can be applied at `now`.
    #[verifier::when_used_as_spec(spec_accepts)]
    pub fn accepts(&self, now: Timestamp) -> (accepted: bool)
        ensures
            accepted == self.spec_accepts(now),
    {
        self.clock <= now && now <= Timestamp::MAX - self.config.extension_seconds()
    }

    /// All sessions, in the order in which they were opened.
    pub fn sessions(&self) -> (all: &[Session])
        ensures
            session_views(all@) == self@,
    {
        self.sessions.as_slice()
    }

    /// Whether the device counts as present at `now`: true exactly while some
    /// session of it ends less than a grace period before `now`. The store
    /// is left as it is.
    pub fn is_device_active(&self, mac_addr: String, now: Timestamp) -> (active: bool)
        ensures
            active == mac_active(self@, mac_addr@, now as int, self.config()),
            active <==> exists|i: int|
                0 <= i < self@.len() && (#[trigger] self@[i]).mac_address == mac_addr@ && now
                    < self@[i].end_time + self.config().grace(),
    {
        let active = device_active(&self.sessions, &mac_addr, now, &self.config);
        assert(self@ == session_views(self.sessions@));
        active
    }

    /// Extends every open session of a sighted device: its end becomes `now`
    /// plus the extension window. Returns the records of the extended
    /// sessions, as updated, in store order. Sightings of devices without an
    /// open session change nothing.
    pub fn extend_open_sessions(&mut self, sightings: &[Sighting], now: Timestamp) -> (extended: Vec<
        Session,
    >)
        requires
            old(self).accepts(now),
        ensures
            final(self)@ == extend_open(
                old(self)@,
                sighting_views(sightings@),
                now as int,
                old(self).config(),
            ),
            session_views(extended@) == extended_records(
                old(self)@,
                sighting_views(sightings@),
                now as int,
                old(self).config(),
            ),
            forall|i: int|
                0 <= i < old(self)@.len() ==> old(self)@[i].end_time <= (
                #[trigger] final(self)@[i]).end_time,
            final(self).clock() == now,
            final(self).config() == old(self).config(),
            final(self).wf(),
    {
        proof {
            use_type_invariant(&*self);
        }
        let grace = self.config.grace_seconds();
        let end = now + self.config.extension_seconds();
        let ghost before = self@;
        let ghost clock = self.clock as int;
        let ghost batch = sighting_views(sightings@);
        let ghost config = self.config;
        let ghost touched = |s: SessionView| extends(s, batch, now as int, config);
        let ghost pushed = |s: SessionView| extended_session(s, now as int, config);
        let mut sessions: Vec<Session> = Vec::new();
        std::mem::swap(&mut sessions, &mut self.sessions);
        self.clock = now;
        let mut extended: Vec<Session> = Vec::new();
        let mut i: usize = 0;
        proof {
            reveal(Seq::filter);
        }
        while i < sessions.len()
            invariant
                i <= sessions.len(),
                sessions.len() == before.len(),
                grace == config.grace(),
                end == now + config.extension(),
                batch == sighting_views(sightings@),
                touched == |s: SessionView| extends(s, batch, now as int, config),
                pushed == |s: SessionView| extended_session(s, now as int, config),
                forall|j: int|
                    0 <= j < i ==> (#[trigger] session_views(sessions@)[j]) == extend_open(
                        before,
                        batch,
                        now as int,
                        config,
                    )[j],
                forall|j: int|
                    i <= j < before.len() ==> (#[trigger] session_views(sessions@)[j]) == before[j],
                session_views(extended@) == before.take(i as int).filter(touched).map_values(pushed),
            decreases sessions.len() - i,
        {
            let ghost records = session_views(extended@);
            let ghost current = session_views(sessions@);
            proof {
                assert(before.take(i + 1) =~= before.take(i as int).push(before[i as int]));
                before.take(i as int).lemma_filter_push(before[i as int], touched);
                assert(current[i as int] == before[i as int]);
            }
            if session_is_open(&sessions[i], now, grace) && is_sighted(
                sightings,
                &sessions[i].mac_address,
            ) {
                sessions[i].end_time = end;
                extended.push(sessions[i].clone());
                proof {
                    assert(session_views(extended@) =~= records.push(pushed(before[i as int])));
                    assert forall|j: int| 0 <= j < before.len() && j != i implies (
                    #[trigger] session_views(sessions@)[j]) == current[j] by {}
                }
            }
            i += 1;
        }
        proof {
            assert(before.take(i as int) =~= before);
            lemma_extend_open_well_formed(before, clock, batch, now as int, config);
        }
        self.sessions = sessions;
        extended
    }

    /// Opens a session from `now` to `now` plus the extension window for each
    /// sighting, in batch order, unless the device has an open session by
    /// then: of two sightings of one device, the second opens nothing while
    /// the session of the first is open.
    pub fn open_new_sessions(&mut self, sightings: &[Sighting], now: Timestamp)
        requires
            old(self).accepts(now),
        ensures
            final(self)@ == open_new(
                old(self)@,
                sighting_views(sightings@),
                now as int,
                old(self).config(),
            ),
            old(self)@.len() <= final(self)@.len(),
            forall|i: int| 0 <= i < old(self)@.len() ==> (#[trigger] final(self)@[i]) == old(self)@[i],
            final(self).clock() == now,
            final(self).config() == old(self).config(),
            final(self).wf(),
    {
        proof {
            use_type_invariant(&*self);
        }
        let end = now + self.config.extension_seconds();
        let ghost before = self@;
        let ghost clock = self.clock as int;
        let ghost batch = sighting_views(sightings@);
        let ghost config = self.config;
        let mut sessions: Vec<Session> = Vec::new();
        std::mem::swap(&mut sessions, &mut self.sessions);
        self.clock = now;
        let mut k: usize = 0;
        while k < sightings.len()
            invariant
                k <= sightings.len(),
                self.config == config,
                end == now + config.extension(),
                batch == sighting_views(sightings@),
                session_views(sessions@) == open_new(before, batch.take(k as int), now as int, config),
            decreases sightings.len() - k,
        {
            assert(batch.take(k + 1).drop_last() =~= batch.take(k as int));
            if !device_active(&sessions, &sightings[k].1, now, &self.config) {
                let id = sessions.len() as SessionId;
                sessions.push(
                    Session {
                        id,
                        user_id: sightings[k].0,
                        mac_address: sightings[k].1.clone(),
                        start_time: now,
                        end_time: end,
                    },
                );
            }
            k += 1;
        }
        proof {
            assert(batch.take(k as int) =~= batch);
            lemma_open_new_keeps(before, batch, now as int, config);
            lemma_well_formed_later(before, clock, now as int, config);
            lemma_open_new_well_formed(before, batch, now as int, config);
        }
        self.sessions = sessions;
    }

    /// Applies one batch of sightings at `now`.
    ///
    /// Of several sightings of one device the first counts. Every open
    /// session of a sighted device is extended to `now` plus the extension
    /// window. A session from `now` to `now` plus the extension window is
    /// opened for each sighting whose user owns none of the extended sessions
    /// and whose device has no open session. Sessions of devices that the
    /// batch does not sight are left as they are: they lapse by themselves.
    pub fn update_sessions(&mut self, devices: &[Sighting], now: Timestamp)
        requires
            old(self).accepts(now),
        ensures
            final(self)@ == apply_batch(
                old(self)@,
                sighting_views(devices@),
                now as int,
                old(self).config(),
            ),
            old(self)@.len() <= final(self)@.len(),
            forall|i: int|
                0 <= i < old(self)@.len() ==> old(self)@[i].end_time <= (
                #[trigger] final(self)@[i]).end_time,
            final(self).clock() == now,
            final(self).config() == old(self).config(),
            final(self).wf(),
    {
        proof {
            use_type_invariant(&*self);
        }
        let ghost before = self@;
        let ghost clock = self.clock as int;
        let batch = dedupe_sightings(devices);
        let extended = self.extend_open_sessions(batch.as_slice(), now);
        let newcomers = unmatched_sightings(batch.as_slice(), extended.as_slice());
        self.open_new_sessions(newcomers.as_slice(), now);
        proof {
            assert forall|i: int| 0 <= i < before.len() implies before[i].end_time <= (
            #[trigger] self@[i]).end_time by {
                lemma_end_time_never_decreases(
                    before,
                    clock,
                    sighting_views(devices@),
                    now as int,
                    self.config,
                    i,
                );
            }
        }
    }

    /// Applies one batch of sightings at `now` if the store accepts a batch
    /// then, and says whether it did. A batch that is not accepted leaves the
    /// store as it is.
    pub fn submit_sightings(&mut self, devices: &[Sighting], now: Timestamp) -> (applied: bool)
        ensures
            applied == old(self).accepts(now),
            applied ==> final(self)@ == apply_batch(
                old(self)@,
                sighting_views(devices@),
                now as int,
                old(self).config(),
            ) && final(self).clock() == now,
            !applied ==> final(self)@ == old(self)@ && final(self).clock() == old(self).clock(),
            old(self)@.len() <= final(self)@.len(),
            forall|i: int|
                0 <= i < old(self)@.len() ==> old(self)@[i].end_time <= (
                #[trigger] final(self)@[i]).end_time,
            final(self).config() == old(self).config(),
            final(self).wf(),
    {
        proof {
            use_type_invariant(&*self);
        }
        if self.accepts(now) {
            self.update_sessions(devices, now);
            true
        } else {
            false
        }
    }
}

} // verus!
