use stratum::time::{Timestamp, MAX_SECS, MIN_SECS};

#[test]
fn timestamps_in_range_are_made() {
    let t = Timestamp::new(1_556_712_000, 500).unwrap();
    assert_eq!(t.secs(), 1_556_712_000);
    assert_eq!(t.nanos(), 500);
    assert!(Timestamp::new(MIN_SECS, 0).is_some());
    assert!(Timestamp::new(MAX_SECS, 999_999_999).is_some());
}

#[test]
fn timestamps_out_of_range_are_refused() {
    assert!(Timestamp::new(MIN_SECS - 1, 0).is_none());
    assert!(Timestamp::new(MAX_SECS + 1, 0).is_none());
    assert!(Timestamp::new(0, 1_000_000_000).is_none());
    assert!(Timestamp::new(59, 1_500_000_000).is_some());
    assert!(Timestamp::new(-1, 1_000_000_000).is_some());
    assert!(Timestamp::new(59, 2_000_000_000).is_none());
}

#[test]
fn timestamps_order_by_second_then_fraction() {
    let a = Timestamp::new(10, 5).unwrap();
    let b = Timestamp::new(10, 6).unwrap();
    let c = Timestamp::new(11, 0).unwrap();
    assert!(a.is_before(&b));
    assert!(b.is_before(&c));
    assert!(!b.is_before(&a));
    assert!(!a.is_before(&a));
}

#[test]
fn timestamps_are_written_as_chrono_does() {
    let t = Timestamp::new(1_556_712_000, 0).unwrap();
    assert_eq!(t.to_text(), "2019-05-01 12:00:00 UTC");
    let t = Timestamp::new(0, 0).unwrap();
    assert_eq!(t.to_text(), "1970-01-01 00:00:00 UTC");
}

#[test]
fn the_whole_range_can_be_written() {
    let first = Timestamp::new(MIN_SECS, 0).unwrap().to_text();
    assert!(first.ends_with(" 00:00:00 UTC"), "{}", first);
    let last = Timestamp::new(MAX_SECS, 999_999_999).unwrap().to_text();
    assert!(last.ends_with(" 23:59:59.999999999 UTC"), "{}", last);
    let leap = Timestamp::new(59, 1_500_000_000).unwrap().to_text();
    assert_eq!(leap, "1970-01-01 00:00:60.500 UTC");
}
