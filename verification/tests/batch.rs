use presence::batch::{
    dedupe_sightings, has_repeated_device, is_sighted, mac_addresses, owns_extended,
    plan_new_sessions, unmatched_sightings, user_ids,
};
use presence::error::StoreError;
use presence::models::{Session, Sighting};

fn seen(user: u128, mac: &str) -> Sighting {
    (user, mac.to_string())
}

fn record(id: u128, user: u128, mac: &str) -> Session {
    Session { id, user_id: user, mac_address: mac.to_string(), start_time: 10, end_time: 20 }
}

#[test]
fn dedupe_keeps_the_first_sighting_of_each_device() {
    let batch = [seen(1, "m1"), seen(2, "m2"), seen(3, "m1"), seen(1, "m3"), seen(4, "m2")];
    assert_eq!(dedupe_sightings(&batch), vec![seen(1, "m1"), seen(2, "m2"), seen(1, "m3")]);
}

#[test]
fn dedupe_of_nothing_is_nothing() {
    assert!(dedupe_sightings(&[]).is_empty());
}

#[test]
fn is_sighted_goes_by_the_address() {
    let batch = [seen(1, "m1"), seen(2, "m2")];
    assert!(is_sighted(&batch, &"m2".to_string()));
    assert!(!is_sighted(&batch, &"m3".to_string()));
    assert!(!is_sighted(&[], &"m1".to_string()));
}

#[test]
fn addresses_and_users_come_in_batch_order() {
    let batch = [seen(7, "m1"), seen(8, "m2"), seen(7, "m3")];
    assert_eq!(mac_addresses(&batch), vec!["m1".to_string(), "m2".to_string(), "m3".to_string()]);
    assert_eq!(user_ids(&batch), vec![7, 8, 7]);
}

#[test]
fn unmatched_are_the_sightings_of_users_without_an_extended_session() {
    let batch = [seen(1, "m1"), seen(2, "m2"), seen(1, "m3"), seen(3, "m4")];
    let extended = [record(5, 1, "m1")];
    assert!(owns_extended(&extended, 1));
    assert!(!owns_extended(&extended, 2));
    assert_eq!(unmatched_sightings(&batch, &extended), vec![seen(2, "m2"), seen(3, "m4")]);
    assert_eq!(unmatched_sightings(&batch, &[]), batch.to_vec());
}

#[test]
fn plan_is_the_unmatched_sightings() {
    let batch = [seen(1, "m1"), seen(2, "m2")];
    let extended = [record(0, 1, "m1"), record(3, 9, "m7")];
    assert_eq!(plan_new_sessions(&batch, &extended), Ok(vec![seen(2, "m2")]));
}

#[test]
fn two_extended_sessions_of_one_device_are_an_invariant_violation() {
    let batch = [seen(1, "m1"), seen(2, "m2")];
    let extended = [record(0, 1, "m1"), record(1, 2, "m2"), record(2, 3, "m1")];
    assert!(has_repeated_device(&extended));
    assert!(!has_repeated_device(&extended[..2]));
    assert_eq!(plan_new_sessions(&batch, &extended), Err(StoreError::InvariantViolation));
}
