//! Keys, rate limits and the decisions of the middleware.

use ai_graph_engine::middleware::auth::{
    client_ip, extract_key, Admission, ApiKeys, AuthState, Bucket, MasterKey,
    PublicRateLimitState, RateLimiter,
};

const SECOND: u64 = 1_000_000_000;

fn keys(list: &str) -> ApiKeys {
    ApiKeys::new(list.split(',').map(|s| s.trim().to_string()).collect())
}

#[test]
fn valid_key_accepted() {
    let k = keys("secret123,other");
    assert!(k.is_valid("secret123"));
    assert!(k.is_valid("other"));
}

#[test]
fn invalid_key_rejected() {
    let k = keys("secret123");
    assert!(!k.is_valid("wrong"));
    assert!(!k.is_valid(""));
}

#[test]
fn auth_disabled_when_no_keys() {
    let k = ApiKeys::new(vec![]);
    assert!(!k.is_enabled());
    assert!(k.is_valid("anything"));
}

#[test]
fn timing_safe_same_length_wrong_key() {
    let k = keys("abcdef");
    assert!(!k.is_valid("xxxxxx"));
}

#[test]
fn extracts_bearer_token() {
    assert_eq!(extract_key(Some("Bearer mytoken"), None), Some("mytoken".into()));
}

#[test]
fn extracts_x_api_key() {
    assert_eq!(extract_key(None, Some("mykey")), Some("mykey".into()));
}

#[test]
fn bearer_takes_priority() {
    assert_eq!(extract_key(Some("Bearer bearer_val"), Some("xapi_val")), Some("bearer_val".into()));
}

#[test]
fn no_auth_headers_returns_none() {
    assert_eq!(extract_key(None, None), None);
}

#[test]
fn other_schemes_leave_the_key_header() {
    assert_eq!(extract_key(Some("Basic abc"), Some("mykey")), Some("mykey".into()));
    assert_eq!(extract_key(Some("Basic abc"), None), None);
}

#[test]
fn auth_end_to_end_key_validation() {
    let keys = ApiKeys::from_settings(Some("prod-key-abc,dev-key-xyz"), None);

    assert!(keys.is_valid("prod-key-abc"));
    assert!(keys.is_valid("dev-key-xyz"));

    assert!(!keys.is_valid("hacker"));
    assert!(!keys.is_valid("prod-key-ab")); // one char short

    let extracted = extract_key(Some("Bearer prod-key-abc"), None).unwrap();
    assert!(keys.is_valid(&extracted));
}

#[test]
fn keys_are_trimmed_and_blank_ones_dropped() {
    let k = ApiKeys::from_settings(Some(" a , ,b,"), Some("m"));
    assert_eq!(k.keys, vec!["a", "b"]);
    assert!(!k.is_valid(""));
    assert!(!k.is_valid("m"));
    assert!(ApiKeys::from_settings(None, Some("m")).is_valid("m"));
    assert!(!ApiKeys::from_settings(Some(" , "), None).is_enabled());
}

#[test]
fn master_key_is_its_own() {
    let m = MasterKey::from_setting(Some("root"));
    assert!(m.is_enabled());
    assert!(m.is_valid("root"));
    assert!(!m.is_valid("toor"));
    let none = MasterKey::from_setting(None);
    assert!(!none.is_enabled());
    assert!(!MasterKey::from_setting(Some("")).is_enabled());
}

// ── rate limits ──────────────────────────────────────────────────────────────

#[test]
fn allows_within_burst_capacity() {
    let mut limiter = RateLimiter::new(10, 60);
    for _ in 0..10 {
        assert!(limiter.check("u", 0));
    }
}

#[test]
fn blocks_after_burst_exceeded() {
    let mut limiter = RateLimiter::new(3, 60);
    limiter.check("u", 0);
    limiter.check("u", 0);
    limiter.check("u", 0);
    assert!(!limiter.check("u", 0), "4th request must be blocked");
}

#[test]
fn different_keys_independent_buckets() {
    let mut limiter = RateLimiter::new(2, 60);
    limiter.check("alice", 0);
    limiter.check("alice", 0);
    assert!(!limiter.check("alice", 0));
    assert!(limiter.check("bob", 0), "bob should still have tokens");
}

#[test]
fn prune_does_not_panic() {
    let mut limiter = RateLimiter::new(10, 60);
    limiter.check("a", 0);
    limiter.check("b", 0);
    limiter.prune(1);
}

#[test]
fn tokens_come_back_with_time() {
    let mut b = Bucket::new(1, 60, 0);
    assert!(b.consume(0));
    assert!(!b.consume(SECOND / 2));
    assert!(b.consume(SECOND));
    assert!(!b.consume(SECOND));
}

#[test]
fn pruned_keys_start_with_a_full_bucket() {
    let mut limiter = RateLimiter::new(1, 1);
    assert!(limiter.check("u", 0));
    assert!(!limiter.check("u", SECOND));
    limiter.prune(601 * SECOND);
    assert!(!limiter.check("v", 601 * SECOND) || limiter.check("u", 601 * SECOND));
}

// ── decisions ────────────────────────────────────────────────────────────────

#[test]
fn requests_are_let_in_by_key_and_rate() {
    let mut auth = AuthState::from_settings(Some("k1"), None, Some("60"), Some("2"));
    assert!(matches!(auth.decide(None, None, 0), Admission::Unauthorized));
    assert!(matches!(auth.decide(Some("Bearer nope"), None, 0), Admission::Unauthorized));
    assert!(matches!(auth.decide(Some("Bearer k1"), None, 0), Admission::Allowed));
    assert!(matches!(auth.decide(None, Some("k1"), 0), Admission::Allowed));
    assert!(matches!(auth.decide(None, Some("k1"), 0), Admission::TooManyRequests));
}

#[test]
fn without_keys_everyone_is_let_in_at_the_rate() {
    let mut auth = AuthState::from_settings(None, None, None, Some("1"));
    assert!(matches!(auth.decide(None, None, 0), Admission::Allowed));
    assert!(matches!(auth.decide(None, None, 0), Admission::TooManyRequests));
}

#[test]
fn public_requests_are_counted_by_address() {
    assert_eq!(client_ip(Some("1.2.3.4, 5.6.7.8"), "9.9.9.9"), "1.2.3.4");
    assert_eq!(client_ip(None, "9.9.9.9"), "9.9.9.9");
    let mut public = PublicRateLimitState::from_setting(Some("1"));
    assert!(matches!(public.decide(None, "9.9.9.9", 0), Admission::Allowed));
    assert!(matches!(public.decide(None, "9.9.9.9", 0), Admission::TooManyRequests));
    assert!(matches!(public.decide(Some("1.2.3.4"), "9.9.9.9", 0), Admission::Allowed));
}
