use axum::http::header::{HeaderMap, HeaderValue};
use rate_limiter::middleware::{
    next_action, rejection, set_headers, stamp_decision, stamp_unchecked, unavailable,
    Action, KeySource, RateLimitConfig,
};
use rate_limiter::text::decimal_string;
use rate_limiter::{Decision, RateLimiterError};

fn forwarded(value: &str) -> HeaderMap<HeaderValue> {
    let mut headers = HeaderMap::new();
    headers.insert("x-forwarded-for", HeaderValue::from_str(value).unwrap());
    headers
}

fn text<'a>(headers: &'a HeaderMap<HeaderValue>, name: &str) -> &'a str {
    headers.get(name).unwrap().to_str().unwrap()
}

#[test]
fn the_first_forwarded_address_is_the_client() {
    let config = RateLimitConfig::by_ip(100, 60_000);
    assert_eq!((config.limit, config.window_ms), (100, 60_000));
    let peer = Some("10.0.0.1");
    assert_eq!(config.key(&forwarded("203.0.113.7"), peer), "rl:203.0.113.7");
    assert_eq!(config.key(&forwarded("203.0.113.7, 10.0.0.2"), peer), "rl:203.0.113.7");
    assert_eq!(config.key(&forwarded(" \t203.0.113.7 \t, 10.0.0.2"), peer), "rl:203.0.113.7");
    assert_eq!(config.key(&forwarded("a b ,c"), peer), "rl:a b");
    assert_eq!(config.key(&forwarded(""), peer), "rl:");
    assert_eq!(config.key(&forwarded(" \t "), peer), "rl:");
    assert_eq!(config.key(&forwarded(",203.0.113.7"), peer), "rl:");
}

#[test]
fn only_the_first_of_repeated_headers_counts() {
    let config = RateLimitConfig::by_ip(100, 60_000);
    let mut headers = forwarded("203.0.113.7");
    headers.append("x-forwarded-for", HeaderValue::from_static("203.0.113.8"));
    assert_eq!(config.key(&headers, None), "rl:203.0.113.7");
}

#[test]
fn without_a_forwarded_address_the_connection_counts() {
    let config = RateLimitConfig::by_ip(100, 60_000);
    assert_eq!(config.key(&HeaderMap::new(), Some("::1")), "rl:::1");
    assert_eq!(config.key(&HeaderMap::new(), None), "rl:unknown");
}

#[test]
fn one_key_per_client() {
    let config = RateLimitConfig::by_ip(100, 60_000);
    let direct = config.key(&HeaderMap::new(), Some("203.0.113.7"));
    let proxied = config.key(&forwarded("203.0.113.7, 10.0.0.2"), Some("10.0.0.2"));
    assert_eq!(direct, proxied);
    assert_ne!(direct, config.key(&HeaderMap::new(), Some("203.0.113.8")));
}

#[test]
fn a_forwarded_address_that_is_no_text_is_passed_over() {
    let config = RateLimitConfig::by_ip(100, 60_000);
    let mut headers = HeaderMap::new();
    headers.insert("x-forwarded-for", HeaderValue::from_bytes(b"\xff").unwrap());
    assert_eq!(config.key(&headers, Some("10.0.0.1")), "rl:10.0.0.1");
    assert_eq!(config.key(&headers, None), "rl:unknown");
}

#[test]
fn keys_by_header_value() {
    let config = RateLimitConfig::by_header(1_000, 60_000, "x-api-key");
    let mut headers = HeaderMap::new();
    assert_eq!(config.key(&headers, Some("10.0.0.1")), "rl:anonymous");
    headers.insert("x-api-key", HeaderValue::from_static("abc 123"));
    assert_eq!(config.key(&headers, Some("10.0.0.1")), "rl:x-api-key:abc 123");
    headers.insert("x-api-key", HeaderValue::from_bytes(b"\xe9").unwrap());
    assert_eq!(config.key(&headers, None), "rl:anonymous");
}

#[test]
fn the_case_of_a_header_name_does_not_matter() {
    let config = RateLimitConfig::by_header(1_000, 60_000, "X-API-Key");
    let mut headers = HeaderMap::new();
    headers.insert("x-api-key", HeaderValue::from_static("k"));
    assert_eq!(config.key(&headers, None), "rl:X-API-Key:k");
}

#[test]
fn names_that_no_header_can_have() {
    let mut headers = HeaderMap::new();
    headers.insert("x-api-key", HeaderValue::from_static("k"));
    for name in ["", "x api key", "x-api-key:", "clé"] {
        let config = RateLimitConfig::by_header(1, 1, name);
        assert_eq!(config.key(&headers, None), "rl:anonymous");
    }
}

#[test]
fn long_names_are_found_in_any_case() {
    let mut headers = HeaderMap::new();
    let stored = "aaaaaaaaaabbbbbbbbbbccccccccccddddddddddeeeeeeeeeeffffffffffgggggggggg";
    let asked = "AAAAAAAAAABBBBBBBBBBccccccccccddddddddddeeeeeeeeeeffffffffffgggggggggG";
    headers.insert(stored, HeaderValue::from_static("v"));
    let config = RateLimitConfig::by_header(1, 1, asked);
    assert_eq!(config.key(&headers, None), format!("rl:{}:v", asked));
}

#[test]
fn different_values_have_different_keys() {
    let config = RateLimitConfig::by_header(1_000, 60_000, "x-api-key");
    let mut a = HeaderMap::new();
    a.insert("x-api-key", HeaderValue::from_static("a"));
    let mut b = HeaderMap::new();
    b.insert("x-api-key", HeaderValue::from_static("b"));
    assert_ne!(config.key(&a, None), config.key(&b, None));
    assert_ne!(config.key(&a, None), config.key(&HeaderMap::new(), None));
}

#[test]
fn what_becomes_of_a_request() {
    let d = Decision::allowed(1, 10, 0);
    match next_action(Ok(d.clone()), true) {
        Action::Forward(got) => assert_eq!(got, d),
        other => panic!("{:?}", other),
    }
    match next_action(Ok(Decision::denied(10, 10, 250)), true) {
        Action::Reject { retry_after_ms } => assert_eq!(retry_after_ms, 250),
        other => panic!("{:?}", other),
    }
    match next_action(Err(RateLimiterError::Limited { retry_after_ms: 5 }), false) {
        Action::Reject { retry_after_ms } => assert_eq!(retry_after_ms, 5),
        other => panic!("{:?}", other),
    }
    for e in [
        RateLimiterError::Redis("down".to_string()),
        RateLimiterError::Pool("timeout".to_string()),
    ] {
        match next_action(Err(e.clone()), true) {
            Action::FailOpen(got) => assert_eq!(got, e),
            other => panic!("{:?}", other),
        }
        match next_action(Err(e.clone()), false) {
            Action::FailClosed(got) => assert_eq!(got, e),
            other => panic!("{:?}", other),
        }
    }
}

#[test]
fn stamped_headers() {
    let mut headers = HeaderMap::new();
    headers.insert("server", HeaderValue::from_static("axum"));
    headers.insert("x-ratelimit-limit", HeaderValue::from_static("old"));
    headers.append("x-ratelimit-limit", HeaderValue::from_static("older"));
    assert!(set_headers(&mut headers, 3, 10, 7, 60_999, 1_700_000_000));
    assert_eq!(text(&headers, "X-RateLimit-Limit"), "10");
    assert_eq!(text(&headers, "X-RateLimit-Remaining"), "7");
    assert_eq!(text(&headers, "X-RateLimit-Used"), "3");
    assert_eq!(text(&headers, "X-RateLimit-Reset"), "1700000060");
    assert_eq!(text(&headers, "server"), "axum");
    assert!(headers.get("retry-after").is_none());
    assert_eq!(headers.len(), 5);
}

#[test]
fn a_decision_is_reported_to_the_client() {
    let mut headers = HeaderMap::new();
    assert!(stamp_decision(&mut headers, &Decision::allowed(4, 10, 0), 1_000, 99));
    assert_eq!(text(&headers, "x-ratelimit-limit"), "10");
    assert_eq!(text(&headers, "x-ratelimit-remaining"), "6");
    assert_eq!(text(&headers, "x-ratelimit-used"), "4");
    assert_eq!(text(&headers, "x-ratelimit-reset"), "100");
    assert_eq!(headers.len(), 4);
}

#[test]
fn an_unchecked_response_is_stamped_too() {
    let mut headers = HeaderMap::new();
    headers.insert("server", HeaderValue::from_static("axum"));
    assert!(stamp_unchecked(&mut headers, 10, 1_000, 99));
    assert_eq!(text(&headers, "X-RateLimit-Limit"), "10");
    assert_eq!(text(&headers, "X-RateLimit-Remaining"), "10");
    assert_eq!(text(&headers, "X-RateLimit-Used"), "0");
    assert_eq!(text(&headers, "X-RateLimit-Reset"), "100");
    assert_eq!(text(&headers, "server"), "axum");
    assert_eq!(headers.len(), 5);
    assert!(!stamp_unchecked(&mut headers, 10, 1_000, u64::MAX));
    assert_eq!(text(&headers, "X-RateLimit-Reset"), "100");
}

#[test]
fn a_reset_time_that_does_not_fit_is_not_stamped() {
    let mut headers = HeaderMap::new();
    headers.insert("server", HeaderValue::from_static("axum"));
    assert!(!stamp_decision(&mut headers, &Decision::allowed(4, 10, 0), 1_000, u64::MAX));
    assert_eq!(headers.len(), 1);
    assert!(stamp_decision(&mut headers, &Decision::allowed(4, 10, 0), 1_000, u64::MAX - 1));
    assert_eq!(text(&headers, "x-ratelimit-reset"), u64::MAX.to_string());
}

/// A map with `n` names that are none of the rate limit's.
fn crowded(n: u64) -> HeaderMap {
    let mut headers = HeaderMap::new();
    for i in 0..n {
        let name = axum::http::header::HeaderName::from_bytes(format!("x-{}", i).as_bytes());
        assert!(headers.try_insert(name.unwrap(), HeaderValue::from_static("v")).is_ok());
    }
    headers
}

#[test]
fn a_crowded_response_is_stamped() {
    let mut headers = crowded(6_550);
    assert!(stamp_decision(&mut headers, &Decision::allowed(4, 10, 0), 1_000, 0));
    assert_eq!(headers.len(), 6_554);
    let mut headers = crowded(20_000);
    assert!(stamp_decision(&mut headers, &Decision::allowed(4, 10, 0), 1_000, 0));
    assert_eq!(headers.len(), 20_004);
    assert_eq!(text(&headers, "x-ratelimit-used"), "4");
}

#[test]
fn a_full_response_is_stamped_in_part() {
    let mut headers = crowded(24_576);
    assert!(!stamp_decision(&mut headers, &Decision::allowed(4, 10, 0), 1_000, 0));
    assert_eq!(headers.len(), 24_576);
    let mut headers = crowded(24_574);
    assert!(!set_headers(&mut headers, 4, 10, 6, 1_000, 0));
    assert_eq!(headers.len(), 24_576);
    assert_eq!(text(&headers, "x-ratelimit-limit"), "10");
    assert_eq!(text(&headers, "x-ratelimit-remaining"), "6");
    assert!(headers.get("x-ratelimit-reset").is_none());
}

#[test]
fn a_rejection() {
    let r = rejection(10, 60_000, 12_345, 1_700_000_000);
    assert_eq!(r.status, 429);
    assert_eq!(r.body, r#"{"error":"rate_limit_exceeded","retry_after_ms":12345}"#);
    assert_eq!(text(&r.headers, "content-type"), "application/json");
    assert_eq!(text(&r.headers, "X-RateLimit-Limit"), "10");
    assert_eq!(text(&r.headers, "X-RateLimit-Remaining"), "0");
    assert_eq!(text(&r.headers, "X-RateLimit-Used"), "10");
    assert_eq!(text(&r.headers, "X-RateLimit-Reset"), "1700000060");
    assert_eq!(text(&r.headers, "Retry-After"), "12");
    assert_eq!(r.headers.len(), 6);
}

#[test]
fn failing_open_is_a_choice() {
    let config = RateLimitConfig::by_header(10, 60_000, "x-api-key");
    assert!(config.fail_open);
    assert!(RateLimitConfig::by_ip(10, 60_000).fail_open);
    let closed = config.fail_closed();
    assert!(!closed.fail_open);
    assert_eq!((closed.limit, closed.window_ms), (10, 60_000));
    assert!(matches!(closed.key_source, KeySource::Header("x-api-key")));
}

#[test]
fn an_unchecked_request_that_is_turned_away() {
    let r = unavailable(10, 60_000, 1_700_000_000);
    assert_eq!(r.status, 503);
    assert_eq!(r.body, r#"{"error":"rate_limiter_unavailable"}"#);
    assert_eq!(text(&r.headers, "content-type"), "application/json");
    assert_eq!(text(&r.headers, "X-RateLimit-Limit"), "10");
    assert_eq!(text(&r.headers, "X-RateLimit-Remaining"), "10");
    assert_eq!(text(&r.headers, "X-RateLimit-Used"), "0");
    assert_eq!(text(&r.headers, "X-RateLimit-Reset"), "1700000060");
    assert!(r.headers.get("retry-after").is_none());
    assert_eq!(r.headers.len(), 5);
}

#[test]
fn a_wait_below_a_second() {
    let r = rejection(1, 1_000, 999, 0);
    assert_eq!(text(&r.headers, "retry-after"), "0");
    assert_eq!(r.body, r#"{"error":"rate_limit_exceeded","retry_after_ms":999}"#);
}

#[test]
fn error_messages() {
    assert_eq!(
        RateLimiterError::Limited { retry_after_ms: 1_500 }.message(),
        "Rate limit exceeded: retry after 1500ms"
    );
    assert_eq!(RateLimiterError::Redis("gone".to_string()).message(), "Redis error: gone");
    assert_eq!(RateLimiterError::Pool("closed".to_string()).message(), "Pool error: closed");
}

#[test]
fn a_pool_that_could_not_be_built() {
    let e = RateLimiterError::pool_build_failed("Redis: no such host".to_string());
    assert_eq!(
        e,
        RateLimiterError::Redis("pool build failed - IoError: Redis: no such host".to_string())
    );
    assert_eq!(
        e.message(),
        "Redis error: pool build failed - IoError: Redis: no such host"
    );
}

#[test]
fn numerals() {
    for n in [0, 1, 9, 10, 11, 99, 100, 1_234_567_890, u64::MAX] {
        assert_eq!(decimal_string(n), n.to_string());
    }
}
