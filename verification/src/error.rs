//! What a check can fail with.

use vstd::prelude::*;

use crate::text::push_decimal;

verus! {

/// Why a check gave no decision. The two backend failures carry the message
/// of the client library that reported them.
#[derive(Debug, Clone, PartialEq, Eq)]
pub enum RateLimiterError {
    /// Redis answered with an error, or could not be asked.
    Redis(String),
    /// The connection pool gave no connection.
    Pool(String),
    /// The limit is reached.
    Limited {
        /// Milliseconds until the oldest request leaves the window.
        retry_after_ms: u64,
    },
}

impl RateLimiterError {
    /// The message of this error.
    pub open spec fn text(self) -> Seq<char> {
        match self {
            RateLimiterError::Redis(detail) => "Redis error: "@ + detail@,
            RateLimiterError::Pool(detail) => "Pool error: "@ + detail@,
            RateLimiterError::Limited { retry_after_ms } => "Rate limit exceeded: retry after "@
                + crate::text::decimal(retry_after_ms as nat) + "ms"@,
        }
    }

    /// The message of this error, for people to read.
    pub fn message(&self) -> (s: String)
        ensures
            s@ == self.text(),
    {
        let mut s = String::new();
        match self {
            RateLimiterError::Redis(detail) => {
                s.append("Redis error: ");
                s.append(detail.as_str());
            },
            RateLimiterError::Pool(detail) => {
                s.append("Pool error: ");
                s.append(detail.as_str());
            },
            RateLimiterError::Limited { retry_after_ms } => {
                s.append("Rate limit exceeded: retry after ");
                push_decimal(&mut s, *retry_after_ms);
                s.append("ms");
            },
        }
        assert(s@ =~= self.text());
        s
    }

    /// The error for a connection pool that could not be set up, with the
    /// reason that the pool library gave.
    pub fn pool_build_failed(detail: String) -> (e: RateLimiterError)
        ensures
            e matches RateLimiterError::Redis(m) && m@ == "pool build failed"@ + " - IoError: "@
                + detail@,
    {
        RateLimiterError::Redis(io_error_text("pool build failed", detail))
    }
}

/// The message of a backend failure is its kind and all of its detail, and that
/// of a reached limit is the whole wait.
pub proof fn law_message_carries_detail(detail: String, retry_after_ms: u64)
    ensures
        RateLimiterError::Redis(detail).text() == "Redis error: "@ + detail@,
        RateLimiterError::Pool(detail).text() == "Pool error: "@ + detail@,
        (RateLimiterError::Limited { retry_after_ms }).text()
            == "Rate limit exceeded: retry after "@ + crate::text::decimal(retry_after_ms as nat)
            + "ms"@,
{
}

/// `redis::RedisError::from` on a kind, a description and a detail, shown with
/// its `Display`. For the kind `IoError` that is the description, a dash, the
/// kind's name, a colon and the detail.
#[verifier::external_body]
fn io_error_text(description: &'static str, detail: String) -> (s: String)
    ensures
        s@ == description@ + " - IoError: "@ + detail@,
{
    redis::RedisError::from((redis::ErrorKind::IoError, description, detail)).to_string()
}

} // verus!
