use rate_limiter::redis_store::{
    decide, decide_reservation, reserve_call, script_call, unique_member,
};
use rate_limiter::sliding_window::{ScriptCall, SlidingWindow, SLIDING_WINDOW_LUA};
use rate_limiter::{Decision, RateLimiterError};

const MINUTE_MS: u64 = 60_000;
const START_US: u64 = 1_700_000_000_000_000;

fn check(
    window: &mut SlidingWindow,
    limit: u64,
    window_ms: u64,
    now_us: u64,
    seq: u64,
) -> Result<Decision, RateLimiterError> {
    let call = script_call(limit, window_ms, now_us, seq);
    let reply = window.apply(&call);
    decide(&reply, &call)
}

#[test]
fn ten_requests_a_minute() {
    let mut window = SlidingWindow::new();
    for i in 0..15u64 {
        let outcome = check(&mut window, 10, MINUTE_MS, START_US + i * 1_000_000, i);
        if i < 10 {
            let d = outcome.unwrap();
            assert!(d.allowed);
            assert_eq!(d.count, i + 1);
            assert_eq!(d.limit, 10);
            assert_eq!(d.remaining, 9 - i);
            // The last place is taken: the first request leaves a minute after it
            // came.
            assert_eq!(d.retry_after_ms, if i < 9 { 0 } else { 51_000 });
        } else {
            assert_eq!(
                outcome,
                Err(RateLimiterError::Limited { retry_after_ms: MINUTE_MS - i * 1_000 })
            );
        }
    }
    assert_eq!(window.len(), 10);
}

#[test]
fn no_burst_at_a_window_boundary() {
    // Ten requests late in the first minute leave no room early in the second.
    let mut window = SlidingWindow::new();
    for i in 0..10u64 {
        assert!(check(&mut window, 10, MINUTE_MS, START_US + 59_000_000 + i, i).is_ok());
    }
    for i in 0..10u64 {
        assert!(check(&mut window, 10, MINUTE_MS, START_US + 61_000_000 + i, 10 + i).is_err());
    }
}

#[test]
fn reply_of_an_admitted_request() {
    let mut window = SlidingWindow::new();
    let call = script_call(2, 1, 5_000, 0);
    assert_eq!(window.apply(&call), vec![1, 1, 5_000]);
    let call = script_call(2, 1, 5_001, 1);
    assert_eq!(window.apply(&call), vec![1, 2, 5_000]);
}

#[test]
fn reply_of_a_refused_request_names_the_oldest() {
    let mut window = SlidingWindow::new();
    window.apply(&script_call(2, 1, 5_000, 0));
    window.apply(&script_call(2, 1, 5_001, 1));
    assert_eq!(window.apply(&script_call(2, 1, 5_500, 2)), vec![0, 2, 5_000]);
    assert_eq!(window.len(), 2);
}

#[test]
fn a_request_leaves_exactly_when_its_window_is_over() {
    let mut window = SlidingWindow::new();
    window.apply(&script_call(1, 1, 5_000, 0));
    assert_eq!(window.apply(&script_call(1, 1, 5_999, 1)), vec![0, 1, 5_000]);
    assert_eq!(window.apply(&script_call(1, 1, 6_000, 2)), vec![1, 1, 6_000]);
    assert_eq!(window.len(), 1);
}

#[test]
fn a_window_longer_than_the_clock_keeps_everything() {
    let mut window = SlidingWindow::new();
    window.apply(&script_call(5, 1_000, 1, 0));
    assert_eq!(window.apply(&script_call(5, 1_000, 500, 1)), vec![1, 2, 1]);
}

#[test]
fn a_repeated_member_is_counted_once() {
    let mut window = SlidingWindow::new();
    let first = ScriptCall {
        now_us: 10,
        window_us: 100,
        limit: 5,
        member: "same".to_string(),
        ttl_ms: 1_000,
        batch_size: 0,
    };
    let second = ScriptCall {
        now_us: 20,
        window_us: 100,
        limit: 5,
        member: "same".to_string(),
        ttl_ms: 1_000,
        batch_size: 0,
    };
    assert_eq!(window.apply(&first), vec![1, 1, 10]);
    assert_eq!(window.apply(&second), vec![1, 2, 20]);
    assert_eq!(window.len(), 1);
    // The later score counts: at 115 the first would be gone, the second is not.
    let third = ScriptCall {
        now_us: 115,
        window_us: 100,
        limit: 1,
        member: "other".to_string(),
        ttl_ms: 1_000,
        batch_size: 0,
    };
    assert_eq!(window.apply(&third), vec![0, 1, 20]);
}

#[test]
fn a_limit_of_zero_lets_nothing_pass() {
    let mut window = SlidingWindow::new();
    let call = script_call(0, MINUTE_MS, START_US, 0);
    let reply = window.apply(&call);
    assert_eq!(reply, vec![0, 0, 0]);
    assert_eq!(window.len(), 0);
    assert_eq!(decide(&reply, &call), Err(RateLimiterError::Limited { retry_after_ms: 0 }));
    // There is nothing to wait for, however long the window.
    let call = script_call(0, u64::MAX / 1_000, 1, 0);
    let reply = window.apply(&call);
    assert_eq!(decide(&reply, &call), Err(RateLimiterError::Limited { retry_after_ms: 0 }));
}

#[test]
fn a_request_at_time_zero_counts() {
    let mut window = SlidingWindow::new();
    assert!(check(&mut window, 1, 1, 0, 0).is_ok());
    assert_eq!(
        check(&mut window, 1, 1, 0, 1),
        Err(RateLimiterError::Limited { retry_after_ms: 1 })
    );
    assert!(check(&mut window, 1, 1, 1_000, 2).is_ok());
}

#[test]
fn the_last_place_tells_the_wait() {
    let mut window = SlidingWindow::new();
    let d = check(&mut window, 1, 1_000, 1_000_000, 0).unwrap();
    assert_eq!((d.remaining, d.retry_after_ms), (0, 1_000));
    let mut window = SlidingWindow::new();
    assert_eq!(check(&mut window, 2, 1_000, 1_000_000, 0).unwrap().retry_after_ms, 0);
    assert_eq!(check(&mut window, 2, 1_000, 1_250_000, 1).unwrap().retry_after_ms, 750);
}

#[test]
fn checks_at_the_same_time_share_the_limit() {
    // Clock readings out of order, all within less than a window.
    let mut window = SlidingWindow::new();
    let offsets = [900_000u64, 100_000, 500_000, 0, 999_999, 250_000, 500_000];
    for (j, offset) in offsets.iter().enumerate() {
        let outcome = check(&mut window, 4, 1_000, START_US + offset, j as u64);
        if j < 4 {
            let d = outcome.unwrap();
            assert_eq!((d.count, d.remaining), (j as u64 + 1, 3 - j as u64));
        } else {
            assert!(outcome.is_err());
        }
    }
    assert_eq!(window.len(), 4);
}

#[test]
fn a_batch_is_recorded_with_its_request() {
    let mut window = SlidingWindow::new();
    let call = reserve_call(100, 1_000, 50, 1_000_000, 7);
    assert_eq!(call.batch_size, 50);
    let reply = window.apply(&call);
    assert_eq!(reply, vec![50, 1, 1_000_000]);
    assert_eq!(window.len(), 50);
    let r = decide_reservation(&reply, &call).unwrap();
    assert_eq!(r.tokens, 49);
    assert_eq!(r.decision, Decision::allowed(1, 100, 0));
    // The next request finds all of them counted.
    let d = check(&mut window, 100, 1_000, 1_000_001, 8).unwrap();
    assert_eq!((d.count, d.remaining), (51, 49));
    // All of them leave together.
    let d = check(&mut window, 100, 1_000, 2_000_000, 9).unwrap();
    assert_eq!(d.count, 2);
}

#[test]
fn a_batch_leaves_a_place_free() {
    let mut window = SlidingWindow::new();
    let call = reserve_call(10, 1_000, 50, 1_000_000, 0);
    let reply = window.apply(&call);
    assert_eq!(reply, vec![9, 1, 1_000_000]);
    assert_eq!(window.len(), 9);
    assert_eq!(decide(&reply, &call).unwrap().retry_after_ms, 0);
    assert!(check(&mut window, 10, 1_000, 1_000_000, 1).is_ok());
    assert!(check(&mut window, 10, 1_000, 1_000_000, 2).is_err());
}

#[test]
fn slots_of_different_requests_do_not_meet() {
    let mut window = SlidingWindow::new();
    for seq in 0..12u64 {
        window.apply(&reserve_call(1_000, 1_000, 12, 1_000_000, seq));
    }
    assert_eq!(window.len(), 144);
}

#[test]
fn a_denied_request_leaves_no_trace() {
    let mut asked = SlidingWindow::new();
    let mut quiet = SlidingWindow::new();
    asked.apply(&script_call(1, 1, 5_000, 0));
    quiet.apply(&script_call(1, 1, 5_000, 0));
    for i in 0..5u64 {
        assert_eq!(asked.apply(&script_call(1, 1, 5_100 + i, 1 + i)), vec![0, 1, 5_000]);
    }
    assert_eq!(
        asked.apply(&script_call(1, 1, 6_000, 9)),
        quiet.apply(&script_call(1, 1, 6_000, 9))
    );
}

#[test]
fn the_reported_wait_is_tight() {
    let mut window = SlidingWindow::new();
    assert!(check(&mut window, 1, MINUTE_MS, START_US, 0).is_ok());
    let now = START_US + 1_500;
    let wait = match check(&mut window, 1, MINUTE_MS, now, 1) {
        Err(RateLimiterError::Limited { retry_after_ms }) => retry_after_ms,
        other => panic!("{:?}", other),
    };
    assert_eq!(wait, 59_998);
    assert!(check(&mut window, 1, MINUTE_MS, now + wait * 1_000 - 1, 2).is_err());
    assert!(check(&mut window, 1, MINUTE_MS, now + (wait + 1) * 1_000, 3).is_ok());
}

#[test]
fn an_idle_key_starts_over() {
    let mut kept = SlidingWindow::new();
    for i in 0..3u64 {
        kept.apply(&script_call(3, MINUTE_MS, START_US + i, i));
    }
    let call = script_call(3, MINUTE_MS, START_US + 2 + (MINUTE_MS + 1_000) * 1_000, 3);
    let mut dropped = SlidingWindow::new();
    assert_eq!(kept.apply(&call), dropped.apply(&call));
    assert_eq!(kept.len(), dropped.len());
}

#[test]
fn a_reset_starts_over() {
    let mut window = SlidingWindow::new();
    for i in 0..3u64 {
        window.apply(&script_call(3, MINUTE_MS, START_US + i, i));
    }
    assert!(check(&mut window, 3, MINUTE_MS, START_US + 3, 3).is_err());
    window.reset();
    assert_eq!(window.len(), 0);
    let d = check(&mut window, 3, MINUTE_MS, START_US + 4, 4).unwrap();
    assert_eq!(d.count, 1);
    assert_eq!(d.remaining, 2);
}

#[test]
fn what_the_script_is_handed() {
    let call = script_call(100, 60_000, 1_700_000_000_123_456, 7);
    assert_eq!(call.now_us, 1_700_000_000_123_456);
    assert_eq!(call.window_us, 60_000_000);
    assert_eq!(call.limit, 100);
    assert_eq!(call.member, "1700000000123456-7");
    assert_eq!(call.ttl_ms, 61_000);
    assert_eq!(call.batch_size, 0);
}

#[test]
fn the_widest_window_that_fits() {
    let call = script_call(1, u64::MAX / 1_000, 1, 0);
    assert_eq!(call.window_us, u64::MAX / 1_000 * 1_000);
}

#[test]
fn members_tell_requests_apart() {
    assert_eq!(unique_member(0, 0), "0-0");
    assert_eq!(unique_member(u64::MAX, 10), "18446744073709551615-10");
    assert_ne!(unique_member(1, 11), unique_member(11, 1));
    assert_ne!(unique_member(1, 0), unique_member(1, 1));
}

#[test]
fn something_recorded_means_allowed() {
    let call = script_call(10, MINUTE_MS, START_US, 0);
    let d = decide(&vec![1, 3, START_US], &call).unwrap();
    assert!(d.allowed);
    assert_eq!((d.count, d.limit, d.remaining, d.retry_after_ms), (3, 10, 7, 0));
    // More than the limit leaves nothing, not less than nothing.
    let d = decide(&vec![1, 12, START_US - 60_000], &call).unwrap();
    assert_eq!((d.count, d.remaining, d.retry_after_ms), (12, 0, 59_940));
}

#[test]
fn nothing_recorded_means_limited() {
    let call = script_call(10, MINUTE_MS, START_US, 0);
    assert_eq!(
        decide(&vec![0, 10, START_US - 30_000_000], &call),
        Err(RateLimiterError::Limited { retry_after_ms: 30_000 })
    );
    // Part of a millisecond is not counted.
    assert_eq!(
        decide(&vec![0, 10, START_US - 30_000_001], &call),
        Err(RateLimiterError::Limited { retry_after_ms: 29_999 })
    );
    // An entry that has left already gives no wait.
    assert_eq!(
        decide(&vec![0, 10, START_US - 90_000_000], &call),
        Err(RateLimiterError::Limited { retry_after_ms: 0 })
    );
    assert_eq!(
        decide_reservation(&vec![0, 10, START_US - 30_000_000], &call),
        Err(RateLimiterError::Limited { retry_after_ms: 30_000 })
    );
}

#[test]
fn a_wait_beyond_the_clock_does_not_overflow() {
    let call = script_call(1, u64::MAX / 1_000, u64::MAX - 10, 0);
    assert_eq!(
        decide(&vec![0, 1, u64::MAX - 10], &call),
        Err(RateLimiterError::Limited { retry_after_ms: u64::MAX / 1_000 })
    );
}

#[test]
fn the_script_uses_every_argument() {
    assert!(SLIDING_WINDOW_LUA.starts_with("\nlocal key       = KEYS[1]\n"));
    for i in 1..=6 {
        assert!(SLIDING_WINDOW_LUA.contains(&format!("ARGV[{}]", i)));
    }
    assert!(!SLIDING_WINDOW_LUA.contains("ARGV[7]"));
    assert!(SLIDING_WINDOW_LUA.contains("return {extra + 1, count + 1, oldest_score()}"));
    assert!(SLIDING_WINDOW_LUA.contains("return {0, count, oldest_score()}"));
}
