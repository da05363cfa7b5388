use birdflop_tunnel::limits::{is_at_capacity, IpAddr, RateLimiter};

#[test]
fn sources_are_limited_one_by_one() {
    let mut limiter = RateLimiter::new(2, 1000);
    let a = IpAddr::V4(1);
    let b = IpAddr::V6(1);
    assert!(limiter.allow(a, 0));
    assert!(limiter.allow(a, 500));
    assert!(!limiter.allow(a, 999));
    assert!(limiter.allow(b, 999));
    // The first grant counts no longer; the second still does.
    assert!(limiter.allow(a, 1000));
    assert!(!limiter.allow(a, 1499));
    assert!(limiter.allow(a, 1500));
}

#[test]
fn a_refused_request_does_not_count() {
    let mut limiter = RateLimiter::new(1, 1000);
    let a = IpAddr::V4(1);
    assert!(limiter.allow(a, 0));
    assert!(!limiter.allow(a, 900));
    assert!(limiter.allow(a, 1000));
}

#[test]
fn the_rate_can_be_set() {
    let mut limiter = RateLimiter::new(0, 1000);
    let a = IpAddr::V4(1);
    assert!(!limiter.allow(a, 0));
    limiter.set_rate(1, 10);
    assert!(limiter.allow(a, 0));
    assert!(!limiter.allow(a, 9));
    limiter.set_rate(2, 10);
    assert!(limiter.allow(a, 9));
    assert!(limiter.allow(a, u64::MAX));
}

#[test]
fn capacity_of_zero_is_none() {
    assert!(!is_at_capacity(1_000_000, 0));
    assert!(!is_at_capacity(4, 5));
    assert!(is_at_capacity(5, 5));
    assert!(is_at_capacity(6, 5));
}
