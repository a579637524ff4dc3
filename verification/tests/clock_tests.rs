use session_store::clock::{checked_expiry_date, convert_expiry_date, current_time,
    expiry_date_to_duration, now};

#[test]
fn clock_reports_a_plausible_present() {
    // after 2023-11-14 and before year 2286
    let t = current_time();
    assert!(t > 1_700_000_000);
    assert!(t < 10_000_000_000);
    let n = now();
    assert!(n > 1_700_000_000);
    assert!(n < 10_000_000_000);
}

#[test]
fn representable_expiry_is_kept() {
    assert_eq!(convert_expiry_date(1_000_000_000, 5), 1_000_000_000);
    assert_eq!(convert_expiry_date(0, 5), 0);
    assert_eq!(convert_expiry_date(-1, 5), -1);
}

#[test]
fn unrepresentable_expiry_falls_back_to_now() {
    // far beyond the representable range of calendar dates
    assert_eq!(convert_expiry_date(i64::MAX, 5), 5);
    assert_eq!(convert_expiry_date(i64::MIN, 5), 5);
}

#[test]
fn checked_expiry_surfaces_the_failure() {
    assert_eq!(checked_expiry_date(1_000_000_000), Some(1_000_000_000));
    assert_eq!(checked_expiry_date(i64::MAX), None);
}

#[test]
fn remaining_lifetime_is_zero_once_expired() {
    assert_eq!(expiry_date_to_duration(110, 100), 10);
    assert_eq!(expiry_date_to_duration(100, 100), 0);
    assert_eq!(expiry_date_to_duration(50, 100), 0);
    // the widest possible span fits exactly in an unsigned duration
    assert_eq!(expiry_date_to_duration(i64::MAX, i64::MIN), u64::MAX);
}
