use astra::time::Timestamp;

#[test]
fn orders_chronologically() {
    let first = Timestamp::from_unix_nanos(1_000);
    let second = Timestamp::from_unix_nanos(2_000);
    assert!(first < second);
    assert_eq!(second.checked_duration_since(first), Some(1_000));
}

#[test]
fn formats_seconds_and_nanos() {
    assert_eq!(
        Timestamp::from_unix_nanos(1_500_000_000).to_string(),
        "1.500000000"
    );
    assert_eq!(Timestamp::from_unix_nanos(0).to_string(), "0.000000000");
}

#[test]
fn negative_times_keep_their_sign() {
    assert_eq!(Timestamp::from_unix_nanos(-1_500_000_000).to_string(), "-1.500000000");
    assert_eq!(Timestamp::from_unix_nanos(-5).to_string(), "-0.000000005");
}

#[test]
fn durations_do_not_overflow() {
    let early = Timestamp::from_unix_nanos(i64::MIN);
    let late = Timestamp::from_unix_nanos(i64::MAX);
    assert_eq!(late.checked_duration_since(early), None);
    assert_eq!(early.checked_duration_since(late), None);
    assert_eq!(
        Timestamp::from_unix_nanos(10).checked_duration_since(Timestamp::from_unix_nanos(25)),
        Some(-15)
    );
}

#[test]
fn the_clock_reads_after_the_epoch() {
    let now = Timestamp::now();
    assert!(now.unix_nanos() > 0);
}
