//! A distributed sliding window rate limiter, backed by Redis.
//!
//! The library holds the rules: what counts as inside the window, what a reply
//! of Redis means, how a local cache hands out tokens, and what HTTP clients
//! are told. It talks to nothing itself. Times, replies and headers come in as
//! values, and the functions say exactly what comes out.

use vstd::prelude::*;

pub mod error;
pub mod headers;
pub mod limiter;
pub mod local_cache;
pub mod middleware;
pub mod over_allowance;
pub mod redis_store;
pub mod sliding_window;
pub mod text;

pub use error::RateLimiterError;
pub use limiter::{Decision, Reservation};
pub use local_cache::LocalCachedLimiter;

verus! {

/// Connections in the pool unless another number is asked for.
pub const DEFAULT_POOL_SIZE: usize = 32;

/// Requests reserved per cache fill unless another number is asked for.
pub const DEFAULT_BATCH_SIZE: u64 = 100;

/// Convenience builder.
pub struct Builder {
    redis_url: String,
    pool_size: usize,
    batch_size: Option<u64>,
}

impl Builder {
    /// Where Redis is.
    pub closed spec fn url(&self) -> Seq<char> {
        self.redis_url@
    }

    /// How many connections the pool is to have.
    pub closed spec fn pool(&self) -> usize {
        self.pool_size
    }

    /// The batch size of the local cache, if one was asked for.
    pub closed spec fn batch(&self) -> Option<u64> {
        self.batch_size
    }

    /// A limiter for the Redis at `redis_url`, with a pool of the default size
    /// and no choice made about the local cache.
    pub fn new(redis_url: &str) -> (b: Self)
        ensures
            b.url() == redis_url@,
            b.pool() == DEFAULT_POOL_SIZE,
            b.pool() == 32,
            b.batch() is None,
    {
        Self {
            redis_url: redis_url.to_string(),
            pool_size: DEFAULT_POOL_SIZE,
            batch_size: None,
        }
    }

    /// Number of Redis connections in the pool.
    pub fn pool_size(self, n: usize) -> (b: Self)
        ensures
            b.pool() == n,
            b.url() == self.url(),
            b.batch() == self.batch(),
    {
        Self { pool_size: n, ..self }
    }

    /// Enable the local-cache layer. Up to `batch_size` requests are reserved
    /// from Redis per cache fill. Set to 0 to disable the local cache.
    pub fn with_local_cache(self, batch_size: u64) -> (b: Self)
        ensures
            b.batch() == Some(batch_size),
            b.url() == self.url(),
            b.pool() == self.pool(),
    {
        Self { batch_size: Some(batch_size), ..self }
    }

    /// Where Redis is.
    pub fn redis_url(&self) -> (url: &str)
        ensures
            url@ == self.url(),
    {
        self.redis_url.as_str()
    }

    /// How many connections the pool is to have.
    pub fn connections(&self) -> (n: usize)
        ensures
            n == self.pool(),
    {
        self.pool_size
    }

    /// Wraps a limiter with a local cache of the chosen batch size, or of the
    /// default one.
    pub fn build_cached<B>(self, backend: B) -> (c: LocalCachedLimiter<B>)
        ensures
            *c.source() == backend,
            c.batch() == match self.batch() {
                Some(n) => n,
                None => DEFAULT_BATCH_SIZE,
            },
            self.batch() is None ==> c.batch() == 100,
            c.slots().dom().is_empty(),
            c.within_batch(),
    {
        let batch: u64 = match self.batch_size {
            Some(n) => n,
            None => DEFAULT_BATCH_SIZE,
        };
        LocalCachedLimiter::new(backend, batch)
    }
}

} // verus!
