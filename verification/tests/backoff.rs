use bevy_realtime::backoff::Backoff;

#[test]
fn delay_doubles_until_the_cap() {
    let mut b = Backoff::new(1000, 10000, None);
    let mut seen = Vec::new();
    for _ in 0..7 {
        seen.push(b.delay());
        b.record_failure();
    }
    assert_eq!(seen, vec![1000, 2000, 4000, 8000, 10000, 10000, 10000]);
    assert_eq!(b.failures(), 7);
}

#[test]
fn delay_is_never_shorter_after_a_failure() {
    let mut b = Backoff::new(3, 1000, None);
    let mut last = b.delay();
    for _ in 0..40 {
        b.record_failure();
        let now = b.delay();
        assert!(now >= last);
        assert!(now <= 1000);
        last = now;
    }
    assert_eq!(last, 1000);
}

#[test]
fn success_resets_to_the_base_delay() {
    let mut b = Backoff::new(1000, 10000, Some(3));
    b.record_failure();
    b.record_failure();
    assert_eq!(b.delay(), 4000);
    b.record_success();
    assert_eq!(b.delay(), 1000);
    assert_eq!(b.failures(), 0);
    b.record_failure();
    assert_eq!(b.delay(), 2000);
}

#[test]
fn base_above_the_cap_is_held_at_the_cap() {
    let mut b = Backoff::new(500, 200, None);
    assert_eq!(b.delay(), 200);
    b.record_failure();
    assert_eq!(b.delay(), 200);
    b.record_success();
    assert_eq!(b.delay(), 200);
}

#[test]
fn zero_base_stays_zero() {
    let mut b = Backoff::new(0, 100, None);
    b.record_failure();
    b.record_failure();
    assert_eq!(b.delay(), 0);
}

#[test]
fn attempts_are_bounded_when_a_bound_is_set() {
    let mut b = Backoff::new(10, 100, Some(3));
    assert!(b.may_retry());
    b.record_failure();
    assert!(b.may_retry());
    b.record_failure();
    assert!(b.may_retry());
    b.record_failure();
    assert!(!b.may_retry());
    b.record_success();
    assert!(b.may_retry());
    let unbounded = Backoff::new(10, 100, None);
    assert!(unbounded.may_retry());
    let none = Backoff::new(10, 100, Some(0));
    assert!(!none.may_retry());
}

#[test]
fn huge_delays_do_not_overflow() {
    let mut b = Backoff::new(u64::MAX / 2 + 1, u64::MAX, None);
    assert_eq!(b.delay(), u64::MAX / 2 + 1);
    b.record_failure();
    assert_eq!(b.delay(), u64::MAX);
    b.record_failure();
    assert_eq!(b.delay(), u64::MAX);
}
