use presence::config::Config;
use presence::models::{Session, Sighting};
use presence::repositories::session::SessionRepository;

const MINUTE: u64 = 60;

const LAPTOP: &str = "aa:bb:cc:dd:ee:01";

const PHONE: &str = "aa:bb:cc:dd:ee:02";

const ALICE: u128 = 0x1111_0000_0000_0000_0000_0000_0000_0001;

const BOB: u128 = 0x2222_0000_0000_0000_0000_0000_0000_0002;

fn at(hour: u64, minute: u64) -> u64 {
    (hour * 60 + minute) * MINUTE
}

fn sighting(user: u128, mac: &str) -> Sighting {
    (user, mac.to_string())
}

fn session(id: u128, user: u128, mac: &str, start: u64, end: u64) -> Session {
    Session { id, user_id: user, mac_address: mac.to_string(), start_time: start, end_time: end }
}

fn apply(repository: &mut SessionRepository, batch: &[Sighting], now: u64) {
    assert!(repository.accepts(now));
    repository.update_sessions(batch, now);
}

#[test]
fn new_repository_is_empty() {
    let repository = SessionRepository::new(Config::default());
    assert!(repository.sessions().is_empty());
    assert_eq!(repository.clock(), 0);
    assert_eq!(repository.config(), Config::new(15, 5));
}

#[test]
fn first_sighting_opens_a_session() {
    let mut repository = SessionRepository::new(Config::default());
    apply(&mut repository, &[sighting(ALICE, LAPTOP)], at(12, 0));
    assert_eq!(repository.sessions(), &[session(0, ALICE, LAPTOP, at(12, 0), at(12, 5))]);
    assert_eq!(repository.clock(), at(12, 0));
}

#[test]
fn sightings_at_noon_quarter_past_and_quarter_to_one() {
    let mut repository = SessionRepository::new(Config::new(15, 5));
    let batch = [sighting(ALICE, LAPTOP)];

    apply(&mut repository, &batch, at(12, 0));
    assert_eq!(repository.sessions(), &[session(0, ALICE, LAPTOP, at(12, 0), at(12, 5))]);

    apply(&mut repository, &batch, at(12, 15));
    assert_eq!(repository.sessions(), &[session(0, ALICE, LAPTOP, at(12, 0), at(12, 20))]);

    apply(&mut repository, &batch, at(12, 45));
    assert_eq!(
        repository.sessions(),
        &[
            session(0, ALICE, LAPTOP, at(12, 0), at(12, 20)),
            session(1, ALICE, LAPTOP, at(12, 45), at(12, 50)),
        ]
    );
}

#[test]
fn same_batch_twice_at_the_same_instant_changes_nothing_more() {
    let mut once = SessionRepository::new(Config::default());
    let mut twice = SessionRepository::new(Config::default());
    let earlier = [sighting(ALICE, LAPTOP)];
    let batch = [sighting(ALICE, LAPTOP), sighting(BOB, PHONE), sighting(BOB, PHONE)];

    apply(&mut once, &earlier, at(9, 0));
    apply(&mut twice, &earlier, at(9, 0));
    apply(&mut once, &batch, at(9, 10));
    apply(&mut twice, &batch, at(9, 10));
    apply(&mut twice, &batch, at(9, 10));

    assert_eq!(once.sessions(), twice.sessions());
    assert_eq!(
        twice.sessions(),
        &[
            session(0, ALICE, LAPTOP, at(9, 0), at(9, 15)),
            session(1, BOB, PHONE, at(9, 10), at(9, 15)),
        ]
    );
}

#[test]
fn without_grace_and_extension_a_repeated_batch_opens_again() {
    let mut repository = SessionRepository::new(Config::new(0, 0));
    let batch = [sighting(ALICE, LAPTOP)];
    apply(&mut repository, &batch, 100);
    apply(&mut repository, &batch, 100);
    assert_eq!(
        repository.sessions(),
        &[session(0, ALICE, LAPTOP, 100, 100), session(1, ALICE, LAPTOP, 100, 100)]
    );
}

#[test]
fn end_time_never_moves_back() {
    let mut repository = SessionRepository::new(Config::default());
    let batch = [sighting(ALICE, LAPTOP)];
    let other = [sighting(BOB, PHONE)];
    let mut last_end = 0;
    let instants = [at(8, 0), at(8, 0), at(8, 1), at(8, 19), at(8, 20), at(8, 30)];
    for (round, now) in instants.iter().enumerate() {
        let sightings: &[Sighting] = if round % 2 == 0 { &batch } else { &other };
        apply(&mut repository, sightings, *now);
        let first = &repository.sessions()[0];
        assert!(first.end_time >= last_end);
        assert!(first.start_time <= first.end_time);
        assert_eq!(first.start_time, at(8, 0));
        last_end = first.end_time;
    }
    assert_eq!(last_end, at(8, 25));
}

#[test]
fn windows_of_one_device_never_meet() {
    let config = Config::default();
    let grace = config.grace_seconds();
    let mut repository = SessionRepository::new(config);
    let instants = [at(7, 0), at(7, 10), at(7, 29), at(7, 50), at(8, 10), at(8, 11), at(9, 0)];
    for now in instants {
        let batch = [sighting(ALICE, LAPTOP), sighting(BOB, LAPTOP), sighting(BOB, PHONE)];
        apply(&mut repository, &batch, now);
        let sessions = repository.sessions();
        for a in 0..sessions.len() {
            for b in (a + 1)..sessions.len() {
                if sessions[a].mac_address == sessions[b].mac_address {
                    let apart = sessions[a].end_time + grace <= sessions[b].start_time
                        || sessions[b].end_time + grace <= sessions[a].start_time;
                    assert!(apart);
                }
            }
        }
    }
    assert_eq!(
        repository.sessions(),
        &[
            session(0, ALICE, LAPTOP, at(7, 0), at(7, 34)),
            session(1, BOB, PHONE, at(7, 0), at(7, 34)),
            session(2, ALICE, LAPTOP, at(7, 50), at(7, 55)),
            session(3, BOB, PHONE, at(7, 50), at(7, 55)),
            session(4, ALICE, LAPTOP, at(8, 10), at(8, 16)),
            session(5, BOB, PHONE, at(8, 10), at(8, 16)),
            session(6, ALICE, LAPTOP, at(9, 0), at(9, 5)),
            session(7, BOB, PHONE, at(9, 0), at(9, 5)),
        ]
    );
}

#[test]
fn a_shared_address_has_one_open_session() {
    let mut repository = SessionRepository::new(Config::default());
    apply(&mut repository, &[sighting(ALICE, LAPTOP)], at(10, 0));
    apply(&mut repository, &[sighting(BOB, LAPTOP)], at(10, 5));
    assert_eq!(repository.sessions(), &[session(0, ALICE, LAPTOP, at(10, 0), at(10, 10))]);
}

#[test]
fn resighting_one_second_before_the_grace_period_ends_extends() {
    let mut repository = SessionRepository::new(Config::default());
    let batch = [sighting(ALICE, LAPTOP)];
    apply(&mut repository, &batch, at(12, 0));
    apply(&mut repository, &batch, at(12, 20) - 1);
    assert_eq!(
        repository.sessions(),
        &[session(0, ALICE, LAPTOP, at(12, 0), at(12, 25) - 1)]
    );
}

#[test]
fn resighting_when_the_grace_period_ends_opens_a_new_session() {
    let mut repository = SessionRepository::new(Config::default());
    let batch = [sighting(ALICE, LAPTOP)];
    apply(&mut repository, &batch, at(12, 0));
    apply(&mut repository, &batch, at(12, 20));
    assert_eq!(
        repository.sessions(),
        &[
            session(0, ALICE, LAPTOP, at(12, 0), at(12, 5)),
            session(1, ALICE, LAPTOP, at(12, 20), at(12, 25)),
        ]
    );
}

#[test]
fn resighting_after_the_grace_period_opens_a_new_session() {
    let mut repository = SessionRepository::new(Config::default());
    let batch = [sighting(ALICE, LAPTOP)];
    apply(&mut repository, &batch, at(12, 0));
    apply(&mut repository, &[sighting(BOB, PHONE)], at(12, 10));
    apply(&mut repository, &batch, at(12, 20) + 1);
    assert_eq!(
        repository.sessions(),
        &[
            session(0, ALICE, LAPTOP, at(12, 0), at(12, 5)),
            session(1, BOB, PHONE, at(12, 10), at(12, 15)),
            session(2, ALICE, LAPTOP, at(12, 20) + 1, at(12, 25) + 1),
        ]
    );
}

#[test]
fn device_is_active_strictly_before_the_grace_period_ends() {
    let mut repository = SessionRepository::new(Config::default());
    apply(&mut repository, &[sighting(ALICE, LAPTOP)], at(12, 0));
    assert!(repository.is_device_active(LAPTOP.to_string(), at(12, 0)));
    assert!(repository.is_device_active(LAPTOP.to_string(), at(12, 5)));
    assert!(repository.is_device_active(LAPTOP.to_string(), at(12, 20) - 1));
    assert!(!repository.is_device_active(LAPTOP.to_string(), at(12, 20)));
    assert!(!repository.is_device_active(LAPTOP.to_string(), at(12, 20) + 1));
    assert!(!repository.is_device_active(LAPTOP.to_string(), at(23, 0)));
    assert!(!repository.is_device_active(PHONE.to_string(), at(12, 0)));
    assert_eq!(repository.sessions(), &[session(0, ALICE, LAPTOP, at(12, 0), at(12, 5))]);
}

#[test]
fn liveness_query_on_an_empty_store_is_false() {
    let repository = SessionRepository::new(Config::default());
    assert!(!repository.is_device_active(LAPTOP.to_string(), 0));
}

#[test]
fn absent_devices_are_left_to_lapse() {
    let mut repository = SessionRepository::new(Config::default());
    apply(&mut repository, &[sighting(ALICE, LAPTOP), sighting(BOB, PHONE)], at(6, 0));
    apply(&mut repository, &[sighting(BOB, PHONE)], at(6, 4));
    apply(&mut repository, &[], at(6, 8));
    assert_eq!(
        repository.sessions(),
        &[
            session(0, ALICE, LAPTOP, at(6, 0), at(6, 5)),
            session(1, BOB, PHONE, at(6, 0), at(6, 9)),
        ]
    );
    assert_eq!(repository.clock(), at(6, 8));
}

#[test]
fn of_two_sightings_of_one_device_the_first_counts() {
    let mut repository = SessionRepository::new(Config::default());
    apply(&mut repository, &[sighting(BOB, LAPTOP), sighting(ALICE, LAPTOP)], at(6, 0));
    assert_eq!(repository.sessions(), &[session(0, BOB, LAPTOP, at(6, 0), at(6, 5))]);
}

#[test]
fn a_user_with_an_extended_session_opens_none_in_that_batch() {
    let mut repository = SessionRepository::new(Config::default());
    apply(&mut repository, &[sighting(ALICE, LAPTOP)], at(6, 0));
    apply(&mut repository, &[sighting(ALICE, LAPTOP), sighting(ALICE, PHONE)], at(6, 1));
    assert_eq!(repository.sessions(), &[session(0, ALICE, LAPTOP, at(6, 0), at(6, 6))]);
    apply(&mut repository, &[sighting(ALICE, PHONE)], at(6, 2));
    assert_eq!(
        repository.sessions(),
        &[
            session(0, ALICE, LAPTOP, at(6, 0), at(6, 6)),
            session(1, ALICE, PHONE, at(6, 2), at(6, 7)),
        ]
    );
}

#[test]
fn extend_reports_the_updated_records() {
    let mut repository = SessionRepository::new(Config::default());
    apply(&mut repository, &[sighting(ALICE, LAPTOP), sighting(BOB, PHONE)], at(6, 0));
    assert!(repository.accepts(at(6, 3)));
    let extended = repository.extend_open_sessions(
        &[sighting(ALICE, PHONE), sighting(ALICE, "aa:bb:cc:dd:ee:03")],
        at(6, 3),
    );
    assert_eq!(extended, vec![session(1, BOB, PHONE, at(6, 0), at(6, 8))]);
    assert_eq!(
        repository.sessions(),
        &[
            session(0, ALICE, LAPTOP, at(6, 0), at(6, 5)),
            session(1, BOB, PHONE, at(6, 0), at(6, 8)),
        ]
    );
}

#[test]
fn extend_leaves_lapsed_sessions_alone() {
    let mut repository = SessionRepository::new(Config::default());
    apply(&mut repository, &[sighting(ALICE, LAPTOP)], at(6, 0));
    assert!(repository.accepts(at(6, 20)));
    let extended = repository.extend_open_sessions(&[sighting(ALICE, LAPTOP)], at(6, 20));
    assert!(extended.is_empty());
    assert_eq!(repository.sessions(), &[session(0, ALICE, LAPTOP, at(6, 0), at(6, 5))]);
}

#[test]
fn open_is_guarded_by_the_open_session_of_the_device() {
    let mut repository = SessionRepository::new(Config::default());
    let batch = [sighting(ALICE, LAPTOP), sighting(BOB, LAPTOP), sighting(BOB, PHONE)];
    assert!(repository.accepts(at(6, 0)));
    repository.open_new_sessions(&batch, at(6, 0));
    assert!(repository.accepts(at(6, 0)));
    repository.open_new_sessions(&batch, at(6, 0));
    assert_eq!(
        repository.sessions(),
        &[
            session(0, ALICE, LAPTOP, at(6, 0), at(6, 5)),
            session(1, BOB, PHONE, at(6, 0), at(6, 5)),
        ]
    );
}

#[test]
fn retry_after_the_open_step_was_lost_completes_the_batch() {
    let mut repository = SessionRepository::new(Config::default());
    apply(&mut repository, &[sighting(ALICE, LAPTOP)], at(6, 0));
    let batch = [sighting(ALICE, LAPTOP), sighting(BOB, PHONE)];

    assert!(repository.accepts(at(6, 2)));
    let extended = repository.extend_open_sessions(&batch, at(6, 2));
    assert_eq!(extended, vec![session(0, ALICE, LAPTOP, at(6, 0), at(6, 7))]);

    apply(&mut repository, &batch, at(6, 2));
    apply(&mut repository, &batch, at(6, 2));
    assert_eq!(
        repository.sessions(),
        &[
            session(0, ALICE, LAPTOP, at(6, 0), at(6, 7)),
            session(1, BOB, PHONE, at(6, 2), at(6, 7)),
        ]
    );
}

#[test]
fn batches_are_accepted_only_forwards_in_time() {
    let mut repository = SessionRepository::new(Config::default());
    apply(&mut repository, &[sighting(ALICE, LAPTOP)], at(6, 0));
    assert!(repository.accepts(at(6, 0)));
    assert!(repository.accepts(at(6, 0) + 1));
    assert!(!repository.accepts(at(6, 0) - 1));
    assert!(repository.accepts(u64::MAX - 300));
    assert!(!repository.accepts(u64::MAX - 299));
}

#[test]
fn submitting_applies_a_batch_that_is_accepted() {
    let mut repository = SessionRepository::new(Config::default());
    assert!(repository.submit_sightings(&[sighting(ALICE, LAPTOP)], at(6, 0)));
    assert!(repository.submit_sightings(&[sighting(ALICE, LAPTOP)], at(6, 1)));
    assert_eq!(repository.sessions(), &[session(0, ALICE, LAPTOP, at(6, 0), at(6, 6))]);
    assert_eq!(repository.clock(), at(6, 1));
}

#[test]
fn submitting_backwards_in_time_changes_nothing() {
    let mut repository = SessionRepository::new(Config::default());
    assert!(repository.submit_sightings(&[sighting(ALICE, LAPTOP)], at(6, 0)));
    assert!(!repository.submit_sightings(&[sighting(ALICE, LAPTOP), sighting(BOB, PHONE)], at(5, 59)));
    assert!(!repository.submit_sightings(&[sighting(BOB, PHONE)], u64::MAX));
    assert_eq!(repository.sessions(), &[session(0, ALICE, LAPTOP, at(6, 0), at(6, 5))]);
    assert_eq!(repository.clock(), at(6, 0));
}

#[test]
fn options_default_to_fifteen_and_five_minutes() {
    let config = Config::default();
    assert_eq!(config.grace_period_minutes, 15);
    assert_eq!(config.extension_window_minutes, 5);
    assert_eq!(config.grace_seconds(), 900);
    assert_eq!(config.extension_seconds(), 300);
}

#[test]
fn options_in_seconds_do_not_overflow() {
    let config = Config::new(u32::MAX, 1);
    assert_eq!(config.grace_seconds(), 257_698_037_700);
    assert_eq!(config.extension_seconds(), 60);
}

fn next(seed: &mut u64) -> u64 {
    *seed = seed.wrapping_mul(6364136223846793005).wrapping_add(1442695040888963407);
    *seed >> 33
}

#[test]
fn invariants_hold_over_a_long_run() {
    let config = Config::new(3, 2);
    let grace = config.grace_seconds();
    let addresses = [LAPTOP, PHONE, "aa:bb:cc:dd:ee:03", "aa:bb:cc:dd:ee:04"];
    let users = [ALICE, BOB, 3];
    let mut repository = SessionRepository::new(config);
    let mut seed = 20;
    let mut now = 1_000;
    for _ in 0..400 {
        now += next(&mut seed) % 400;
        let size = next(&mut seed) % 5;
        let mut batch = Vec::new();
        for _ in 0..size {
            let user = users[(next(&mut seed) % 3) as usize];
            let address = addresses[(next(&mut seed) % 4) as usize];
            batch.push(sighting(user, address));
        }
        let before: Vec<Session> = repository.sessions().to_vec();

        apply(&mut repository, &batch, now);
        let after: Vec<Session> = repository.sessions().to_vec();
        apply(&mut repository, &batch, now);
        assert_eq!(repository.sessions(), after.as_slice());

        assert!(after.len() >= before.len());
        for (position, session) in after.iter().enumerate() {
            assert_eq!(session.id, position as u128);
            assert!(session.start_time <= session.end_time);
            assert!(session.end_time <= now + config.extension_seconds());
            if position < before.len() {
                let earlier = &before[position];
                assert_eq!(session.user_id, earlier.user_id);
                assert_eq!(session.mac_address, earlier.mac_address);
                assert_eq!(session.start_time, earlier.start_time);
                assert!(session.end_time >= earlier.end_time);
            } else {
                assert_eq!(session.start_time, now);
                assert_eq!(session.end_time, now + config.extension_seconds());
            }
            for other in &after[..position] {
                if other.mac_address == session.mac_address {
                    assert!(other.end_time + grace <= session.start_time);
                }
            }
        }
        for address in addresses {
            let open = after
                .iter()
                .filter(|session| session.mac_address == address && now < session.end_time + grace)
                .count();
            assert!(open <= 1);
            assert_eq!(repository.is_device_active(address.to_string(), now), open == 1);
        }
    }
    assert!(repository.sessions().len() > 4);
}
