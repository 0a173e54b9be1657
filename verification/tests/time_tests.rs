use traceforge::time::{Timestamp, MAX_SECS, MIN_SECS};

#[test]
fn shifting_back_stays_inside_the_representable_range() {
    assert!(Timestamp::new(100, 0).shift_back_ok(50));
    assert!(Timestamp::new(100, 0).shift_back_ok(-50));
    assert!(!Timestamp::new(MIN_SECS, 0).shift_back_ok(1));
    assert!(!Timestamp::new(MAX_SECS, 0).shift_back_ok(-1));
    assert!(!Timestamp::new(100, 0).shift_back_ok(i64::MAX));
}

#[test]
fn leap_second_instants_are_only_valid_in_the_last_second_of_a_minute() {
    assert!(Timestamp::new(59, 1_500_000_000).shift_back_ok(0));
    assert!(Timestamp::new(-1, 1_500_000_000).shift_back_ok(0));
    assert!(!Timestamp::new(58, 1_500_000_000).shift_back_ok(0));
    assert!(!Timestamp::new(59, 2_000_000_000).shift_back_ok(0));
}

#[test]
fn millis_and_order() {
    let a = Timestamp::new(1, 250_000_000);
    let b = Timestamp::new(1, 260_000_000);
    assert_eq!(a.timestamp_millis(), 1250);
    assert!(a.is_before(&b));
    assert!(!b.is_before(&a));
    assert!(!a.is_before(&a));
    let c = Timestamp::new(10, 0).minus_seconds(3);
    assert_eq!((c.secs, c.nanos), (7, 0));
}
