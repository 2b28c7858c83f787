use furet::clock::{signed_seconds, Clock, FixedClock, SystemClock, Timestamp};

#[test]
fn a_timestamp_keeps_the_seconds_it_was_built_from() {
    assert_eq!(Timestamp::from_unix_seconds(-5).unix_seconds(), -5);
    assert_eq!(Timestamp::from_unix_seconds(0).unix_seconds(), 0);
}

#[test]
fn timestamps_order_on_their_seconds() {
    let older = Timestamp::from_unix_seconds(10);
    let newer = Timestamp::from_unix_seconds(20);
    assert!(newer > older);
    assert_eq!(older, Timestamp::from_unix_seconds(10));
}

#[test]
fn a_fixed_clock_reads_the_same_instant_every_time() {
    let clock = FixedClock::new(Timestamp::from_unix_seconds(1_700_000_000));
    assert_eq!(clock.now(), Timestamp::from_unix_seconds(1_700_000_000));
    assert_eq!(clock.now(), clock.now());
}

#[test]
fn the_system_clock_reads_the_current_wall_time() {
    let before = std::time::SystemTime::now();
    let read = SystemClock::new().now();
    let after = std::time::SystemTime::now();
    let floor = i64::try_from(
        before
            .duration_since(std::time::UNIX_EPOCH)
            .expect("the test runs after 1970")
            .as_secs(),
    )
    .unwrap_or(0);
    let ceiling = i64::try_from(
        after
            .duration_since(std::time::UNIX_EPOCH)
            .expect("the test runs after 1970")
            .as_secs(),
    )
    .unwrap_or(i64::MAX);
    assert!((floor..=ceiling).contains(&read.unix_seconds()));
}

#[test]
fn signed_seconds_negates_before_the_epoch_and_saturates() {
    assert_eq!(signed_seconds(true, 42), 42);
    assert_eq!(signed_seconds(false, 42), -42);
    assert_eq!(signed_seconds(true, u64::MAX), i64::MAX);
    assert_eq!(signed_seconds(false, u64::MAX), -i64::MAX);
}
