use connector_server::rate_limit::{RateLimitConfig, RateLimiter};

#[test]
fn test_rate_limiter() {
    let mut config = RateLimitConfig::default();
    config.requests_per_minute = 2;
    config.burst = 2;

    let mut limiter = RateLimiter::new(config);

    assert!(limiter.check_rate_limit("client1"));
    assert!(limiter.check_rate_limit("client1"));

    assert!(!limiter.check_rate_limit("client1"));

    assert!(limiter.check_rate_limit("client2"));
}

fn limiter(rpm: u32, burst: u32) -> RateLimiter {
    RateLimiter::new(RateLimitConfig { requests_per_minute: rpm, burst, enabled: true })
}

#[test]
fn burst_then_isolation_at_fixed_time() {
    let mut l = limiter(2, 2);
    assert!(l.check_rate_limit_at("clientA", 1000));
    assert!(l.check_rate_limit_at("clientA", 1000));
    assert!(!l.check_rate_limit_at("clientA", 1000));
    assert!(l.check_rate_limit_at("clientB", 1000));
}

#[test]
fn refill_after_interval() {
    let mut l = limiter(2, 2);
    assert!(l.check_rate_limit_at("c", 0));
    assert!(l.check_rate_limit_at("c", 0));
    assert!(!l.check_rate_limit_at("c", 29));
    assert!(l.check_rate_limit_at("c", 30));
    assert!(!l.check_rate_limit_at("c", 30));
}

#[test]
fn refill_is_capped_at_burst() {
    let mut l = limiter(60, 3);
    assert!(l.check_rate_limit_at("c", 0));
    let s = l.get_status_at("c", 0);
    assert_eq!(s.remaining, 2);
    assert!(l.check_rate_limit_at("c", 1_000_000));
    assert_eq!(l.get_status_at("c", 0).remaining, 2);
}

#[test]
fn clock_going_back_adds_nothing() {
    let mut l = limiter(60, 1);
    assert!(l.check_rate_limit_at("c", 100));
    assert!(!l.check_rate_limit_at("c", 50));
}

#[test]
fn disabled_limiter_admits_everything() {
    let mut l = RateLimiter::new(RateLimitConfig { requests_per_minute: 1, burst: 0, enabled: false });
    for _ in 0..10 {
        assert!(l.check_rate_limit("x"));
    }
    assert_eq!(l.get_status("x").remaining, 0);
}

#[test]
fn zero_burst_rejects() {
    let mut l = limiter(60, 0);
    assert!(!l.check_rate_limit_at("c", 0));
}

#[test]
fn status_of_known_and_unknown_clients() {
    let mut l = limiter(6, 5);
    let s = l.get_status_at("new", 1000);
    assert_eq!((s.remaining, s.limit, s.reset_at), (5, 5, 1060));
    assert!(l.check_rate_limit_at("c", 2000));
    let s = l.get_status_at("c", 9999);
    assert_eq!((s.remaining, s.limit, s.reset_at), (4, 5, 2060));
    let s = l.get_status_at("new", i64::MAX);
    assert_eq!(s.reset_at, i64::MAX);
}

#[test]
fn default_config_values() {
    let c = RateLimitConfig::default();
    assert_eq!((c.requests_per_minute, c.burst, c.enabled), (60, 10, true));
}

#[test]
fn status_of_unknown_client_resets_a_minute_from_now() {
    let l = limiter(6, 5);
    let before = chrono::Utc::now().timestamp();
    let s = l.get_status("nobody");
    let after = chrono::Utc::now().timestamp();
    assert!(s.reset_at >= before + 60 && s.reset_at <= after + 60);
    assert_eq!(s.remaining, 5);
}
