# rate_limiter

A distributed sliding window rate limiter, backed by Redis. The rules are
verified with Verus; the wiring around them is ordinary Rust.

## Use

```rust
let limiter = Builder::new("redis://127.0.0.1/")
    .pool_size(64)
    .with_local_cache(50) // reserve up to 50 requests per batch
    .build_cached()?;

// 100 requests per minute, per IP
let layer = RateLimitLayer::new(limiter, RateLimitConfig::by_ip(100, 60_000));
```

## Layout

- `src/` is the verified library. It talks to nothing: clock readings, replies
  and headers come in as values.
  - `sliding_window`: the window rule, as the Lua script that Redis runs and as
    an in-memory log with an exact contract, and what the rule promises over
    many requests.
  - `redis_store`: what a check hands to the script and what the reply means.
  - `local_cache`: token buckets in front of a slower limiter.
  - `over_allowance`: what a cache in front of a window lets pass.
  - `middleware`: keys, responses and headers for HTTP.
  - `headers`: the part of the `http` crate's header map that is relied on.
  - `limiter`, `error`, `text`: decisions, errors, numerals.
- `app/` connects the library to Redis, to async code and to Axum.
- `tests/` runs the library on concrete values.

## What is promised

- In any stretch of one window's length, no more requests pass than the limit,
  as long as requests come in the order of their times and with members of their
  own (`law_checks_keep_limit`). With one limit for all, a request is turned away
  exactly when that many passed within the window before it
  (`law_checks_use_whole_limit`). Of requests at the same time exactly the first
  ones pass, up to the limit, whatever the order of their clock readings
  (`law_close_checks_share_limit`).
- A limit of zero lets nothing pass (`law_zero_limit_denies_all`).
- A refused request leaves no trace, and the wait that it is told, or that the
  request is told which takes the last place, is right to the millisecond
  (`law_denied_request_leaves_no_trace`, `law_retry_after_is_tight`).
- A node with a local cache lets at most a batch more pass than the limit, in any
  stretch of one window's length and however its requests overlap
  (`law_over_allowance_is_at_most_a_batch`). The tokens of the cache are recorded
  in Redis before they are handed out.
- The cache asks Redis only when it has to (`law_backend_is_asked_only_when_needed`),
  what remains by its answers falls by one each time
  (`law_local_answers_count_down`), and keys do not touch each other
  (`law_keys_are_independent`).
- Every response tells its limit, what remains, what is used and when the window
  is over (`law_stamp_reports_limit`, `law_unchecked_reports_limit`,
  `law_rejection_reports_wait`). If Redis cannot be asked, the request goes on
  and its response says that nothing is known to be used; a configuration that
  is `fail_closed` turns it away instead.

## What is relied on

`dashmap` for the buckets, the `http` types of `axum` for headers, and `redis`
for the text of one error. Each call stands behind a function whose doc comment
says what is taken for granted. That Redis runs the script as the in-memory log
does is read, not proved.
