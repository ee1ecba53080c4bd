//! The decision that every limiter returns.

use vstd::prelude::*;

verus! {

/// Decision returned by a rate limiter.
#[derive(Debug, Clone, PartialEq, Eq)]
pub struct Decision {
    /// Whether the request is allowed.
    pub allowed: bool,
    /// Current count within the window.
    pub count: u64,
    /// Maximum requests allowed per window.
    pub limit: u64,
    /// Remaining requests before hitting the limit.
    pub remaining: u64,
    /// Milliseconds until the oldest request leaves the window.
    /// Zero when `allowed` is true and there's headroom.
    pub retry_after_ms: u64,
}

/// What is left of `limit` once `count` requests are counted; never negative.
pub open spec fn headroom(count: u64, limit: u64) -> u64 {
    if count <= limit {
        (limit - count) as u64
    } else {
        0
    }
}

/// The decision that lets a request pass.
pub open spec fn allowing(count: u64, limit: u64, retry_after_ms: u64) -> Decision {
    Decision { allowed: true, count, limit, remaining: headroom(count, limit), retry_after_ms }
}

/// The decision that turns a request away.
pub open spec fn denying(count: u64, limit: u64, retry_after_ms: u64) -> Decision {
    Decision { allowed: false, count, limit, remaining: 0, retry_after_ms }
}

/// Requests that may be reserved beside one that leaves `remaining` of the
/// limit: at most a batch, at most what remains, and one less for the request
/// itself.
pub open spec fn share(remaining: u64, batch_size: u64) -> u64 {
    let granted = if remaining <= batch_size {
        remaining
    } else {
        batch_size
    };
    if granted >= 1 {
        (granted - 1) as u64
    } else {
        0
    }
}

/// Requests that may be reserved beside one that leaves `remaining` of the
/// limit.
pub fn share_of(remaining: u64, batch_size: u64) -> (n: u64)
    ensures
        n == share(remaining, batch_size),
        remaining >= 1 && batch_size >= 1 ==> n + 1 <= remaining && n + 1 <= batch_size && (n + 1
            == remaining || n + 1 == batch_size),
        remaining == 0 || batch_size == 0 ==> n == 0,
{
    let granted: u64 = if remaining <= batch_size {
        remaining
    } else {
        batch_size
    };
    granted.saturating_sub(1)
}

/// As long as the limit is kept, what is counted and what remains make up the
/// limit.
pub proof fn law_count_and_remaining_make_limit(count: u64, limit: u64, retry_after_ms: u64)
    requires
        count <= limit,
    ensures
        allowing(count, limit, retry_after_ms).count + allowing(
            count,
            limit,
            retry_after_ms,
        ).remaining == limit,
{
}

/// A decision that lets a request pass says so, and carries the count, the limit
/// and the wait that it was made with. What remains is never more than the limit
/// leaves, and less only if the count is over the limit.
pub proof fn law_allowing_carries_its_numbers(count: u64, limit: u64, retry_after_ms: u64)
    ensures
        ({
            let d = allowing(count, limit, retry_after_ms);
            &&& d.allowed
            &&& d.count == count
            &&& d.limit == limit
            &&& d.retry_after_ms == retry_after_ms
            &&& d.remaining > 0 <==> count < limit
            &&& count <= limit ==> count + d.remaining == limit
        }),
{
}

/// A decision that turns a request away says so, and carries the count, the
/// limit and the wait that it was made with. Nothing remains.
pub proof fn law_denying_carries_its_numbers(count: u64, limit: u64, retry_after_ms: u64)
    ensures
        ({
            let d = denying(count, limit, retry_after_ms);
            &&& !d.allowed
            &&& d.count == count
            &&& d.limit == limit
            &&& d.retry_after_ms == retry_after_ms
            &&& d.remaining == 0
        }),
{
}

/// The share is as large as it may be: with the request itself it makes the
/// smaller of what remains and a batch. Without either there is none.
pub proof fn law_share_is_as_large_as_it_may_be(remaining: u64, batch_size: u64)
    ensures
        remaining >= 1 && batch_size >= 1 ==> {
            &&& share(remaining, batch_size) + 1 <= remaining
            &&& share(remaining, batch_size) + 1 <= batch_size
            &&& share(remaining, batch_size) + 1 == remaining || share(remaining, batch_size) + 1
                == batch_size
        },
        remaining == 0 || batch_size == 0 ==> share(remaining, batch_size) == 0,
{
}

impl Decision {
    /// The request passes; what remains is `limit` less `count`, or nothing.
    pub fn allowed(count: u64, limit: u64, retry_after_ms: u64) -> (d: Self)
        ensures
            d == allowing(count, limit, retry_after_ms),
            d.allowed,
            d.count == count,
            d.limit == limit,
            d.retry_after_ms == retry_after_ms,
            count <= limit ==> d.count + d.remaining == limit,
            count > limit ==> d.remaining == 0,
    {
        Self {
            allowed: true,
            count,
            limit,
            remaining: limit.saturating_sub(count),
            retry_after_ms,
        }
    }

    /// The request is turned away; nothing remains.
    pub fn denied(count: u64, limit: u64, retry_after_ms: u64) -> (d: Self)
        ensures
            d == denying(count, limit, retry_after_ms),
            !d.allowed,
            d.count == count,
            d.limit == limit,
            d.retry_after_ms == retry_after_ms,
            d.remaining == 0,
    {
        Self { allowed: false, count, limit, remaining: 0, retry_after_ms }
    }
}

/// A decision, with the further requests that were recorded ahead of time and
/// may be answered without asking again.
#[derive(Debug, Clone, PartialEq, Eq)]
pub struct Reservation {
    /// The decision on the request that asked.
    pub decision: Decision,
    /// Requests recorded beside it.
    pub tokens: u64,
}

} // verus!
