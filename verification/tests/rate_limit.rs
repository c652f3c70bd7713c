use contact_relay::rate_limit::{Admission, RateLimiter};

const HOUR: u32 = 3600;

#[test]
fn sixth_request_within_the_window_is_denied() {
    let mut limiter = RateLimiter::new();
    for i in 0..5 {
        assert_eq!(limiter.check("10.0.0.1", 1_000 + i, HOUR, 5), Admission::Allowed);
    }
    assert_eq!(limiter.check("10.0.0.1", 1_005, HOUR, 5), Admission::Denied);
    assert_eq!(limiter.check("10.0.0.1", 4_599, HOUR, 5), Admission::Denied);
    assert_eq!(limiter.recorded_for("10.0.0.1"), vec![1_000, 1_001, 1_002, 1_003, 1_004]);
}

#[test]
fn request_is_allowed_once_the_oldest_has_aged_out() {
    let mut limiter = RateLimiter::new();
    for i in 0..5 {
        assert_eq!(limiter.check("client", 1_000 + i * 10, HOUR, 5), Admission::Allowed);
    }
    // 3599 seconds after the oldest: all five still count.
    assert_eq!(limiter.check("client", 4_599, HOUR, 5), Admission::Denied);
    // Exactly 3600 seconds after the oldest: it no longer counts.
    assert_eq!(limiter.check("client", 4_600, HOUR, 5), Admission::Allowed);
    assert_eq!(limiter.recorded_for("client"), vec![1_010, 1_020, 1_030, 1_040, 4_600]);
    assert_eq!(limiter.check("client", 4_601, HOUR, 5), Admission::Denied);
}

#[test]
fn denied_request_is_not_counted() {
    let mut limiter = RateLimiter::new();
    assert_eq!(limiter.check("k", 10, HOUR, 1), Admission::Allowed);
    assert_eq!(limiter.check("k", 11, HOUR, 1), Admission::Denied);
    assert_eq!(limiter.check("k", 12, HOUR, 1), Admission::Denied);
    assert_eq!(limiter.recorded_for("k"), vec![10]);
}

#[test]
fn denied_check_still_prunes_stale_times() {
    let mut limiter = RateLimiter::new();
    assert_eq!(limiter.check("k", 0, 10, 2), Admission::Allowed);
    assert_eq!(limiter.check("k", 8, 10, 2), Admission::Allowed);
    assert_eq!(limiter.check("k", 9, 10, 2), Admission::Denied);
    // With a limit of one, the time 0 is stale at 12 and goes; 8 stays and denies.
    assert_eq!(limiter.check("k", 12, 10, 1), Admission::Denied);
    assert_eq!(limiter.recorded_for("k"), vec![8]);
}

#[test]
fn keys_are_independent() {
    let mut limiter = RateLimiter::new();
    assert_eq!(limiter.check("a", 5, HOUR, 1), Admission::Allowed);
    assert_eq!(limiter.check("b", 5, HOUR, 1), Admission::Allowed);
    assert_eq!(limiter.check("a", 6, HOUR, 1), Admission::Denied);
    assert_eq!(limiter.recorded_for("a"), vec![5]);
    assert_eq!(limiter.recorded_for("b"), vec![5]);
    assert_eq!(limiter.recorded_for("c"), Vec::<i64>::new());
}

#[test]
fn zero_limit_denies_everything() {
    let mut limiter = RateLimiter::new();
    assert_eq!(limiter.check("k", 1, HOUR, 0), Admission::Denied);
    assert_eq!(limiter.recorded_for("k"), Vec::<i64>::new());
}

#[test]
fn extreme_times_do_not_overflow() {
    let mut limiter = RateLimiter::new();
    assert_eq!(limiter.check("k", i64::MIN, HOUR, 2), Admission::Allowed);
    assert_eq!(limiter.check("k", i64::MAX, HOUR, 2), Admission::Allowed);
    assert_eq!(limiter.recorded_for("k"), vec![i64::MAX]);
    // A clock that went back: the later time is still "live".
    assert_eq!(limiter.check("k", i64::MIN, HOUR, 2), Admission::Allowed);
    assert_eq!(limiter.recorded_for("k"), vec![i64::MAX, i64::MIN]);
}
