use rate_limiter::limiter::share_of;
use rate_limiter::local_cache::{Ask, LocalStep};
use rate_limiter::redis_store::{decide_reservation, reserve_call};
use rate_limiter::sliding_window::SlidingWindow;
use rate_limiter::{Builder, Decision, LocalCachedLimiter, RateLimiterError, Reservation};

const MS: u64 = 1_000_000;

/// What request number `ticket` asks the backend for.
fn ask<B>(
    cache: &mut LocalCachedLimiter<B>,
    key: &str,
    limit: u64,
    window_ms: u64,
    now_ns: u64,
    ticket: u64,
) -> Ask {
    match cache.check_local(key, limit, window_ms, now_ns, ticket) {
        LocalStep::AskBackend(ask) => ask,
        other => panic!("{:?}", other),
    }
}

/// A reservation of all that a batch of `batch_size` may have.
fn reservation(count: u64, limit: u64, batch_size: u64) -> Reservation {
    let decision = Decision::allowed(count, limit, 0);
    let tokens = share_of(decision.remaining, batch_size);
    Reservation { decision, tokens }
}

/// Sends a request for `key` at `now_ns`, of which the backend says that it is
/// number `count`.
fn fill<B>(
    cache: &mut LocalCachedLimiter<B>,
    key: &str,
    limit: u64,
    window_ms: u64,
    count: u64,
    now_ns: u64,
) -> Decision {
    let ask = ask(cache, key, limit, window_ms, now_ns, 0);
    let answer = Ok(reservation(count, limit, ask.batch_size));
    cache.check_backend(ask, answer, now_ns).unwrap()
}

/// What the cache answers itself to a request with number 1.
fn local<B>(
    cache: &mut LocalCachedLimiter<B>,
    key: &str,
    limit: u64,
    now_ns: u64,
) -> Option<Decision> {
    match cache.check_local(key, limit, 1_000, now_ns, 1) {
        LocalStep::Answer(d) => Some(d),
        LocalStep::AskBackend(_) => None,
    }
}

#[test]
fn an_empty_cache_asks_the_backend() {
    let mut cache = LocalCachedLimiter::new((), 50);
    assert_eq!(cache.local_tokens("user:42", 0), 0);
    match cache.check_local("user:42", 100, 60_000, 0, 7) {
        LocalStep::AskBackend(ask) => {
            assert_eq!(ask.key, "user:42");
            assert_eq!((ask.limit, ask.window_ms, ask.batch_size), (100, 60_000, 50));
            assert_eq!(ask.ticket, Some(7));
        }
        other => panic!("{:?}", other),
    }
}

#[test]
fn a_fill_hands_out_a_batch_less_one() {
    let mut cache = LocalCachedLimiter::new((), 3);
    let d = fill(&mut cache, "k", 100, 1_000, 1, 0);
    assert_eq!((d.count, d.remaining), (1, 99));
    assert_eq!(cache.local_tokens("k", 0), 2);
    let first = local(&mut cache, "k", 100, 1).unwrap();
    assert!(first.allowed);
    assert_eq!((first.count, first.limit, first.remaining), (99, 100, 1));
    assert_eq!(first.retry_after_ms, 0);
    let second = local(&mut cache, "k", 100, 2).unwrap();
    assert_eq!((second.count, second.remaining), (100, 0));
    assert_eq!(local(&mut cache, "k", 100, 3), None);
}

#[test]
fn a_fill_hands_out_no_more_than_remains() {
    let mut cache = LocalCachedLimiter::new((), 50);
    fill(&mut cache, "a", 10, 1_000, 8, 0);
    assert_eq!(cache.local_tokens("a", 0), 1);
    fill(&mut cache, "b", 10, 1_000, 10, 0);
    assert_eq!(cache.local_tokens("b", 0), 0);
    // Not even if the backend reserved more.
    let more = Reservation { decision: Decision::allowed(8, 10, 0), tokens: 30 };
    let asked = ask(&mut cache, "c", 10, 1_000, 0, 5);
    assert!(cache.check_backend(asked, Ok(more), 0).is_ok());
    assert_eq!(cache.local_tokens("c", 0), 1);
}

#[test]
fn over_allowance_stays_below_a_batch() {
    let mut cache = LocalCachedLimiter::new((), 50);
    fill(&mut cache, "k", 10_000, 60_000, 1, 0);
    let mut extra = 0;
    for now in 0..1_000u64 {
        if local(&mut cache, "k", 10_000, now).is_some() {
            extra += 1;
        }
    }
    assert_eq!(extra, 49);
}

#[test]
fn a_fill_hands_out_no_more_than_was_reserved() {
    let mut cache = LocalCachedLimiter::new((), 50);
    for tokens in [4u64, 0] {
        let few = Reservation { decision: Decision::allowed(1, 100, 0), tokens };
        let asked = ask(&mut cache, "k", 100, 1_000, 0, tokens);
        assert!(cache.check_backend(asked, Ok(few), 0).is_ok());
        assert_eq!(cache.local_tokens("k", 0), tokens);
        cache.reset_local("k");
    }
}

#[test]
fn local_answers_count_down() {
    let mut cache = LocalCachedLimiter::new((), 5);
    fill(&mut cache, "k", 100, 1_000, 10, 0);
    for k in 0..4u64 {
        let d = local(&mut cache, "k", 100, k).unwrap();
        assert_eq!(d, Decision::allowed(97 + k, 100, 0));
        assert_eq!(d.remaining, 3 - k);
        // Requests for other keys change nothing.
        assert!(local(&mut cache, "other", 100, k).is_none());
    }
    assert!(local(&mut cache, "k", 100, 4).is_none());
    // The limit of the request is the one that is reported.
    fill(&mut cache, "l", 100, 1_000, 10, 0);
    let d = local(&mut cache, "l", 3, 0).unwrap();
    assert_eq!((d.count, d.limit, d.remaining), (0, 3, 3));
}

#[test]
fn one_reservation_at_a_time() {
    let mut cache = LocalCachedLimiter::new((), 50);
    let first = ask(&mut cache, "k", 100, 20, 0, 1);
    assert_eq!((first.batch_size, first.ticket), (50, Some(1)));
    // While the backend is asked, others ask it too, for themselves alone.
    let second = ask(&mut cache, "k", 100, 20, 1, 2);
    assert_eq!((second.batch_size, second.ticket), (0, None));
    let alone = Reservation { decision: Decision::allowed(2, 100, 0), tokens: 0 };
    assert_eq!(
        cache.check_backend(second, Ok(alone), 2),
        Ok(Decision::allowed(2, 100, 0))
    );
    assert_eq!(cache.local_tokens("k", 2), 0);
    assert!(cache.check_backend(first, Ok(reservation(1, 100, 50)), 3).is_ok());
    assert_eq!(cache.local_tokens("k", 3), 49);
    // Another key does not wait.
    assert_eq!(ask(&mut cache, "other", 100, 20, 3, 3).ticket, Some(3));
}

#[test]
fn a_late_answer_brings_no_tokens() {
    let mut cache = LocalCachedLimiter::new((), 50);
    let first = ask(&mut cache, "k", 100, 20, 0, 1);
    assert_eq!(ask(&mut cache, "k", 100, 20, 20 * MS - 1, 2).ticket, None);
    let third = ask(&mut cache, "k", 100, 20, 20 * MS, 3);
    assert_eq!(third.ticket, Some(3));
    assert!(cache.check_backend(first, Ok(reservation(1, 100, 50)), 21 * MS).is_ok());
    assert_eq!(cache.local_tokens("k", 21 * MS), 0);
    assert!(cache.check_backend(third, Ok(reservation(1, 100, 30)), 21 * MS).is_ok());
    assert_eq!(cache.local_tokens("k", 21 * MS), 29);
    // Nor does one that was asked for before a reset.
    cache.reset_local("k");
    let fourth = ask(&mut cache, "k", 100, 20, 22 * MS, 4);
    cache.reset_local("k");
    assert!(cache.check_backend(fourth, Ok(reservation(1, 100, 50)), 22 * MS).is_ok());
    assert_eq!(cache.local_tokens("k", 22 * MS), 0);
}

#[test]
fn shares() {
    assert_eq!(share_of(99, 3), 2);
    assert_eq!(share_of(2, 50), 1);
    assert_eq!(share_of(0, 50), 0);
    assert_eq!(share_of(99, 0), 0);
    assert_eq!(share_of(99, 1), 0);
    assert_eq!(share_of(u64::MAX, u64::MAX), u64::MAX - 1);
}

/// Sends a request through a cache over a window, and tells whether it passed.
fn through<B>(
    cache: &mut LocalCachedLimiter<B>,
    window: &mut SlidingWindow,
    limit: u64,
    now_us: u64,
    seq: u64,
) -> bool {
    match cache.check_local("k", limit, 1_000, now_us * 1_000, seq) {
        LocalStep::Answer(d) => d.allowed,
        LocalStep::AskBackend(ask) => {
            let call = reserve_call(ask.limit, ask.window_ms, ask.batch_size, now_us, seq);
            let reply = window.apply(&call);
            let answer = decide_reservation(&reply, &call);
            cache.check_backend(ask, answer, now_us * 1_000).is_ok()
        }
    }
}

#[test]
fn a_cache_over_a_window_uses_the_whole_limit() {
    let mut cache = LocalCachedLimiter::new((), 4);
    let mut window = SlidingWindow::new();
    let passed: u64 =
        (0..30u64).map(|i| through(&mut cache, &mut window, 10, 5_000 + i, i) as u64).sum();
    assert_eq!(passed, 10);
    assert_eq!(window.len(), 10);
}

#[test]
fn over_allowance_is_at_most_a_batch() {
    // Tokens reserved at the start are used just before the reservation leaves
    // the window; just after it the whole limit is there again.
    let mut cache = LocalCachedLimiter::new((), 50);
    let mut window = SlidingWindow::new();
    assert!(through(&mut cache, &mut window, 100, 5_000, 0));
    assert_eq!(window.len(), 50);
    let mut passed = 0u64;
    for i in 0..300u64 {
        let now_us = if i < 60 { 1_004_000 } else { 1_005_000 };
        if through(&mut cache, &mut window, 100, now_us, 1 + i) {
            passed += 1;
        }
    }
    assert_eq!(passed, 149);
}

#[test]
fn the_backend_is_asked_again_once_tokens_are_spent() {
    let mut cache = LocalCachedLimiter::new((), 3);
    let mut window = SlidingWindow::new();
    let mut asked = Vec::new();
    for i in 0..9u64 {
        if cache.local_tokens("k", (5_000 + i) * 1_000) == 0 {
            asked.push(i);
        }
        assert!(through(&mut cache, &mut window, 100, 5_000 + i, i));
    }
    assert_eq!(asked, vec![0, 3, 6]);
}

#[test]
fn tokens_expire_with_the_window() {
    let mut cache = LocalCachedLimiter::new((), 50);
    fill(&mut cache, "k", 100, 20, 1, 5 * MS);
    assert_eq!(cache.local_tokens("k", 25 * MS - 1), 49);
    assert_eq!(cache.local_tokens("k", 25 * MS), 0);
    assert!(local(&mut cache, "k", 100, 25 * MS - 1).is_some());
    assert_eq!(local(&mut cache, "k", 100, 25 * MS), None);
}

#[test]
fn a_fill_replaces_what_was_left() {
    let mut cache = LocalCachedLimiter::new((), 50);
    fill(&mut cache, "k", 100, 20, 1, 0);
    assert_eq!(cache.local_tokens("k", 19 * MS), 49);
    fill(&mut cache, "k", 100, 40, 97, 20 * MS);
    assert_eq!(cache.local_tokens("k", 59 * MS), 2);
    assert_eq!(cache.local_tokens("k", 60 * MS), 0);
}

#[test]
fn a_failed_answer_is_passed_on() {
    for e in [
        RateLimiterError::Limited { retry_after_ms: 7 },
        RateLimiterError::Redis("down".to_string()),
        RateLimiterError::Pool("timeout".to_string()),
    ] {
        let mut cache = LocalCachedLimiter::new((), 50);
        fill(&mut cache, "other", 100, 20, 1, 0);
        let asked = ask(&mut cache, "k", 100, 20, 1, 1);
        assert_eq!(cache.check_backend(asked, Err(e.clone()), 2), Err(e));
        assert_eq!(cache.local_tokens("k", 2), 0);
        assert_eq!(cache.local_tokens("other", 2), 49);
        // The next request may reserve again.
        assert_eq!(ask(&mut cache, "k", 100, 20, 3, 2).ticket, Some(2));
    }
}

#[test]
fn a_failed_answer_takes_no_tokens_away() {
    let mut cache = LocalCachedLimiter::new((), 50);
    let first = ask(&mut cache, "k", 100, 20, 0, 1);
    let second = ask(&mut cache, "k", 100, 20, 0, 2);
    assert!(cache.check_backend(first, Ok(reservation(1, 100, 50)), 1).is_ok());
    let down = RateLimiterError::Redis("down".to_string());
    assert_eq!(cache.check_backend(second, Err(down.clone()), 2), Err(down));
    assert_eq!(cache.local_tokens("k", 2), 49);
}

#[test]
fn a_batch_of_zero_turns_the_cache_off() {
    for batch in 0..2u64 {
        let mut cache = LocalCachedLimiter::new((), batch);
        fill(&mut cache, "k", 100, 20, 1, 0);
        assert_eq!(cache.local_tokens("k", 0), 0);
        assert_eq!(local(&mut cache, "k", 100, 0), None);
    }
}

#[test]
fn keys_do_not_share_tokens() {
    let mut cache = LocalCachedLimiter::new((), 3);
    fill(&mut cache, "a", 100, 20, 1, 0);
    fill(&mut cache, "b", 100, 20, 1, 0);
    assert!(local(&mut cache, "a", 100, 0).is_some());
    assert!(local(&mut cache, "a", 100, 0).is_some());
    assert_eq!(local(&mut cache, "a", 100, 0), None);
    assert_eq!(cache.local_tokens("b", 0), 2);
    assert_eq!(cache.local_tokens("c", 0), 0);
}

#[test]
fn a_reset_forgets_the_tokens_of_its_key() {
    let mut cache = LocalCachedLimiter::new((), 3);
    fill(&mut cache, "a", 100, 20, 1, 0);
    fill(&mut cache, "b", 100, 20, 1, 0);
    cache.reset_local("a");
    assert_eq!(cache.local_tokens("a", 0), 0);
    assert_eq!(cache.local_tokens("b", 0), 2);
}

#[test]
fn the_longest_window_does_not_overflow() {
    let mut cache = LocalCachedLimiter::new((), 3);
    fill(&mut cache, "k", 100, u64::MAX, 1, u64::MAX);
    assert_eq!(cache.local_tokens("k", u64::MAX), 2);
}

#[test]
fn the_builder_has_defaults() {
    let b = Builder::new("redis://127.0.0.1/");
    assert_eq!(b.redis_url(), "redis://127.0.0.1/");
    assert_eq!(b.connections(), 32);
    let mut cache = b.build_cached("backend");
    assert_eq!(**cache.backend(), "backend");
    fill(&mut cache, "k", 1_000, 20, 1, 0);
    assert_eq!(cache.local_tokens("k", 0), 99);
}

#[test]
fn the_builder_keeps_what_it_is_told() {
    let b = Builder::new("redis://redis.example/").pool_size(64).with_local_cache(50);
    assert_eq!(b.redis_url(), "redis://redis.example/");
    assert_eq!(b.connections(), 64);
    let mut cache = b.build_cached(7);
    fill(&mut cache, "k", 1_000, 20, 1, 0);
    assert_eq!(cache.local_tokens("k", 0), 49);
}

#[test]
fn decisions() {
    let d = Decision::allowed(3, 10, 5);
    assert_eq!(
        d,
        Decision { allowed: true, count: 3, limit: 10, remaining: 7, retry_after_ms: 5 }
    );
    assert_eq!(Decision::allowed(11, 10, 0).remaining, 0);
    let d = Decision::denied(10, 10, 250);
    assert_eq!(
        d,
        Decision { allowed: false, count: 10, limit: 10, remaining: 0, retry_after_ms: 250 }
    );
    assert_eq!(Decision::denied(3, 10, 0).remaining, 0);
}
