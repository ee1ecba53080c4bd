//! The two ends of a check against Redis: what is handed to the script, and
//! what its reply means.

use vstd::prelude::*;

use crate::error::RateLimiterError;
use crate::limiter::{Decision, Reservation};
use crate::sliding_window::{Arrival, ScriptCall};
use crate::text::push_decimal;

verus! {

/// How long a key outlives its window, so that Redis does not drop it too
/// early.
pub const TTL_GRACE_MS: u64 = 1_000;

/// The member of request number `seq` of this process, made at `now_us`.
pub open spec fn member_id(now_us: nat, seq: nat) -> Seq<char> {
    crate::text::decimal(now_us) + seq!['-'] + crate::text::decimal(seq)
}

/// A member for request number `seq` of this process, made at `now_us`: the
/// two numbers, with a dash between them.
pub fn unique_member(now_us: u64, seq: u64) -> (s: String)
    ensures
        s@ == member_id(now_us as nat, seq as nat),
        s@ == crate::text::decimal(now_us as nat) + seq!['-'] + crate::text::decimal(seq as nat),
{
    let mut s = String::new();
    push_decimal(&mut s, now_us);
    s.append("-");
    push_decimal(&mut s, seq);
    proof {
        reveal_strlit("-");
    }
    assert(s@ =~= member_id(now_us as nat, seq as nat));
    s
}

/// Members are unique: two requests of a process with different numbers, or
/// made at different times, never share one.
pub proof fn law_members_are_unique(now_a: nat, seq_a: nat, now_b: nat, seq_b: nat)
    requires
        member_id(now_a, seq_a) == member_id(now_b, seq_b),
    ensures
        now_a == now_b,
        seq_a == seq_b,
{
    let a = member_id(now_a, seq_a);
    let b = member_id(now_b, seq_b);
    let m = crate::text::decimal(now_a);
    let n = crate::text::decimal(now_b);
    crate::text::lemma_decimal_digits(now_a);
    crate::text::lemma_decimal_digits(now_b);
    assert(a[m.len() as int] == '-');
    assert(b[n.len() as int] == '-');
    if m.len() < n.len() {
        assert(b[m.len() as int] == n[m.len() as int]);
    }
    if n.len() < m.len() {
        assert(a[n.len() as int] == m[n.len() as int]);
    }
    assert(a.take(m.len() as int) =~= m);
    assert(b.take(n.len() as int) =~= n);
    crate::text::lemma_decimal_injective(now_a, now_b);
    assert(a.skip(m.len() as int + 1) =~= crate::text::decimal(seq_a));
    assert(b.skip(n.len() as int + 1) =~= crate::text::decimal(seq_b));
    crate::text::lemma_decimal_injective(seq_a, seq_b);
}

/// A member has no colon in it, so that the numbered slots of one request are
/// never those of another.
pub proof fn law_members_have_no_colon(now_us: nat, seq: nat)
    ensures
        !member_id(now_us, seq).contains(':'),
{
    let m = member_id(now_us, seq);
    let a = crate::text::decimal(now_us);
    let b = crate::text::decimal(seq);
    crate::text::lemma_decimal_digits(now_us);
    crate::text::lemma_decimal_digits(seq);
    assert forall|i: int| 0 <= i < m.len() implies m[i] != ':' by {
        if i < a.len() {
            assert(m[i] == a[i]);
        } else if i > a.len() {
            assert(m[i] == b[i - a.len() - 1]);
        }
    }
}

/// Requests that a process numbers one by one never share a member, however
/// many they reserve.
pub proof fn law_numbered_requests_keep_apart(arrivals: Seq<Arrival>, seqs: Seq<nat>)
    requires
        seqs.len() == arrivals.len(),
        seqs.no_duplicates(),
        forall|i: int|
            0 <= i < arrivals.len() ==> (#[trigger] arrivals[i]).member == member_id(
                arrivals[i].now as nat,
                seqs[i],
            ),
    ensures
        crate::sliding_window::members_apart(arrivals),
{
    assert forall|i: int, j: int| 0 <= i < j < arrivals.len() implies (
    #[trigger] arrivals[i]).member != (#[trigger] arrivals[j]).member by {
        if arrivals[i].member == arrivals[j].member {
            law_members_are_unique(
                arrivals[i].now as nat,
                seqs[i],
                arrivals[j].now as nat,
                seqs[j],
            );
        }
    }
    assert forall|i: int| 0 <= i < arrivals.len() implies !(
    #[trigger] arrivals[i]).member.contains(':') by {
        law_members_have_no_colon(arrivals[i].now as nat, seqs[i]);
    }
}

/// What request number `seq` of this process hands to the script at `now_us`
/// to be recorded alone. The window in microseconds has to fit 64 bits.
pub fn script_call(limit: u64, window_ms: u64, now_us: u64, seq: u64) -> (call: ScriptCall)
    requires
        window_ms * 1_000 <= u64::MAX,
    ensures
        call.now_us == now_us,
        call.window_us == window_ms * 1_000,
        call.limit == limit,
        call.member@ == member_id(now_us as nat, seq as nat),
        call.ttl_ms == window_ms + TTL_GRACE_MS,
        call.ttl_ms == window_ms + 1_000,
        call.batch_size == 0,
{
    reserve_call(limit, window_ms, 0, now_us, seq)
}

/// What request number `seq` of this process hands to the script at `now_us`
/// to be recorded together with further requests, up to `batch_size` in all. The
/// window in microseconds has to fit 64 bits.
pub fn reserve_call(limit: u64, window_ms: u64, batch_size: u64, now_us: u64, seq: u64) -> (call:
    ScriptCall)
    requires
        window_ms * 1_000 <= u64::MAX,
    ensures
        call.now_us == now_us,
        call.window_us == window_ms * 1_000,
        call.limit == limit,
        call.member@ == member_id(now_us as nat, seq as nat),
        call.ttl_ms == window_ms + TTL_GRACE_MS,
        call.ttl_ms == window_ms + 1_000,
        call.batch_size == batch_size,
{
    ScriptCall {
        now_us,
        window_us: window_ms * 1_000,
        limit,
        member: unique_member(now_us, seq),
        ttl_ms: window_ms + TTL_GRACE_MS,
        batch_size,
    }
}

/// Whole milliseconds from `now` until a request made at `oldest` leaves a
/// window of size `window`, all three in microseconds; zero if it has left.
pub open spec fn retry_after_ms(oldest: u64, window: u64, now: u64) -> u64 {
    if oldest + window >= now {
        ((oldest + window - now) / 1_000) as u64
    } else {
        0
    }
}

/// Whole milliseconds from `now_us` until a request made at `oldest_us` leaves
/// the window.
fn wait_ms(oldest_us: u64, window_us: u64, now_us: u64) -> (ms: u64)
    ensures
        ms == retry_after_ms(oldest_us, window_us, now_us),
{
    let expires_at_us: u128 = oldest_us as u128 + window_us as u128;
    if expires_at_us >= now_us as u128 {
        ((expires_at_us - now_us as u128) / 1_000) as u64
    } else {
        0
    }
}

/// What a reply means. Nothing recorded stands for a reached limit. A request
/// that passes has to wait for the next one only if it took the last place.
/// With no request in the window there is none to wait for.
pub open spec fn verdict(
    taken: nat,
    count: nat,
    oldest: u64,
    limit: u64,
    window: u64,
    now: u64,
) -> Result<Decision, u64> {
    let wait = retry_after_ms(oldest, window, now);
    if taken > 0 {
        let room = crate::limiter::headroom(count as u64, limit) > 0;
        Ok(crate::limiter::allowing(count as u64, limit, if room {
            0
        } else {
            wait
        }))
    } else {
        Err(if count == 0 {
            0
        } else {
            wait
        })
    }
}

/// What the three numbers of a reply to `call` mean.
pub open spec fn reply_verdict(reply: Seq<u64>, call: ScriptCall) -> Result<Decision, u64> {
    verdict(
        reply[0] as nat,
        reply[1] as nat,
        reply[2],
        call.limit,
        call.window_us,
        call.now_us,
    )
}

/// The outcome of a check, from the reply of the script to `call`. The reply
/// has to hold its three numbers.
pub fn decide(reply: &Vec<u64>, call: &ScriptCall) -> (r: Result<Decision, RateLimiterError>)
    requires
        reply@.len() >= 3,
    ensures
        match r {
            Ok(d) => reply_verdict(reply@, *call) == Ok::<Decision, u64>(d),
            Err(RateLimiterError::Limited { retry_after_ms }) => reply_verdict(reply@, *call)
                == Err::<Decision, u64>(retry_after_ms),
            Err(_) => false,
        },
        reply@[0] == 0 ==> (r matches Err(RateLimiterError::Limited { retry_after_ms: wait }) && (
        if reply@[1] == 0 || reply@[2] + call.window_us < call.now_us {
            wait == 0
        } else {
            call.now_us + wait * 1_000 <= reply@[2] + call.window_us < call.now_us + (wait + 1)
                * 1_000
        })),
        reply@[0] > 0 ==> (r matches Ok(decision) && {
            let d = decision;
            &&& d.allowed
            &&& d.count == reply@[1]
            &&& d.limit == call.limit
            &&& reply@[1] <= call.limit ==> d.count + d.remaining == call.limit
            &&& reply@[1] > call.limit ==> d.remaining == 0
            &&& reply@[1] < call.limit || reply@[2] + call.window_us < call.now_us
                ==> d.retry_after_ms == 0
            &&& reply@[1] >= call.limit && reply@[2] + call.window_us >= call.now_us
                ==> call.now_us + d.retry_after_ms * 1_000 <= reply@[2] + call.window_us
                < call.now_us + (d.retry_after_ms + 1) * 1_000
        }),
{
    match decide_reservation(reply, call) {
        Ok(reservation) => Ok(reservation.decision),
        Err(e) => Err(e),
    }
}

/// The outcome of a check that may reserve further requests, from the reply of
/// the script to `call`. The reply has to hold its three numbers.
pub fn decide_reservation(reply: &Vec<u64>, call: &ScriptCall) -> (r: Result<
    Reservation,
    RateLimiterError,
>)
    requires
        reply@.len() >= 3,
    ensures
        match r {
            Ok(g) => {
                &&& reply_verdict(reply@, *call) == Ok::<Decision, u64>(g.decision)
                &&& g.tokens == reply@[0] - 1
            },
            Err(RateLimiterError::Limited { retry_after_ms }) => reply_verdict(reply@, *call)
                == Err::<Decision, u64>(retry_after_ms),
            Err(_) => false,
        },
        reply@[0] == 0 ==> (r matches Err(RateLimiterError::Limited { retry_after_ms: wait }) && (
        if reply@[1] == 0 || reply@[2] + call.window_us < call.now_us {
            wait == 0
        } else {
            call.now_us + wait * 1_000 <= reply@[2] + call.window_us < call.now_us + (wait + 1)
                * 1_000
        })),
        reply@[0] > 0 ==> (r matches Ok(g) && {
            let d = g.decision;
            &&& d.allowed
            &&& d.count == reply@[1]
            &&& d.limit == call.limit
            &&& reply@[1] <= call.limit ==> d.count + d.remaining == call.limit
            &&& reply@[1] > call.limit ==> d.remaining == 0
            &&& reply@[1] < call.limit || reply@[2] + call.window_us < call.now_us
                ==> d.retry_after_ms == 0
            &&& reply@[1] >= call.limit && reply@[2] + call.window_us >= call.now_us
                ==> call.now_us + d.retry_after_ms * 1_000 <= reply@[2] + call.window_us
                < call.now_us + (d.retry_after_ms + 1) * 1_000
        }),
        reply@[0] > 0 ==> (r matches Ok(g) && g.tokens + 1 == reply@[0]),
{
    let taken: u64 = reply[0];
    let count: u64 = reply[1];
    let wait: u64 = wait_ms(reply[2], call.window_us, call.now_us);
    if taken > 0 {
        let retry_after_ms: u64 = if count < call.limit {
            0
        } else {
            wait
        };
        let decision = Decision::allowed(count, call.limit, retry_after_ms);
        Ok(Reservation { decision, tokens: taken - 1 })
    } else {
        let retry_after_ms: u64 = if count == 0 {
            0
        } else {
            wait
        };
        Err(RateLimiterError::Limited { retry_after_ms })
    }
}

/// What a check of `a` returns over `log`.
pub open spec fn check_of(log: Map<Seq<char>, u64>, window: u64, a: Arrival) -> Result<
    Decision,
    u64,
> {
    verdict(
        crate::sliding_window::taken(log, window, a),
        crate::sliding_window::reply_count(log, a.now, window, a.limit),
        crate::sliding_window::reply_oldest(log, window, a),
        a.limit,
        window,
        a.now,
    )
}

/// Whether no request in `log` has one of the members that `a` may use.
pub open spec fn is_new(log: Map<Seq<char>, u64>, a: Arrival) -> bool {
    forall|k: nat| !log.contains_key(#[trigger] crate::sliding_window::slot(a.member, k))
}

/// A check lets a request pass exactly when the window admits it, whatever the
/// limit, and then reports how many are counted and how many are left.
pub proof fn law_check_obeys_window(log: Map<Seq<char>, u64>, window: u64, a: Arrival)
    requires
        log.dom().finite(),
        is_new(log, a),
    ensures
        ({
            let after = crate::sliding_window::log_after(log, window, a);
            let n = crate::sliding_window::taken(log, window, a);
            let v = check_of(log, window, a);
            &&& v is Ok <==> crate::sliding_window::admits(log, a.now, window, a.limit)
            &&& v is Ok <==> after.contains_key(a.member)
            &&& v matches Ok(d) ==> {
                &&& d.allowed
                &&& d.count + n - 1 == after.len()
                &&& d.count + d.remaining == a.limit
                &&& d.limit == a.limit
            }
        }),
{
    crate::sliding_window::law_reply_counts_window(log, window, a);
}

/// A request that passes reserves its whole share of what it leaves.
pub proof fn law_reservation_is_whole_share(log: Map<Seq<char>, u64>, window: u64, a: Arrival)
    ensures
        check_of(log, window, a) matches Ok(d) ==> crate::sliding_window::taken(log, window, a) - 1
            == crate::limiter::share(d.remaining, a.batch_size),
{
}

/// A limit of zero lets nothing pass and records nothing.
pub proof fn law_zero_limit_denies_all(log: Map<Seq<char>, u64>, window: u64, a: Arrival)
    requires
        a.limit == 0,
    ensures
        check_of(log, window, a) is Err,
        crate::sliding_window::log_after(log, window, a) == crate::sliding_window::live(
            log,
            a.now,
            window,
        ),
{
}

/// What the check of arrival `i` returns.
pub open spec fn checked(arrivals: Seq<Arrival>, window: u64, i: int) -> Result<Decision, u64> {
    check_of(crate::sliding_window::replay(arrivals, window, i as nat), window, arrivals[i])
}

/// How many of the first `n` checks let a request pass at a time after `start`
/// and not after `end`.
pub open spec fn allowed_within(
    arrivals: Seq<Arrival>,
    window: u64,
    n: nat,
    start: int,
    end: int,
) -> nat
    decreases n,
{
    if n == 0 {
        0
    } else {
        allowed_within(arrivals, window, (n - 1) as nat, start, end) + if start
            < arrivals[n - 1].now && arrivals[n - 1].now <= end && checked(
            arrivals,
            window,
            n - 1,
        ) is Ok {
            1nat
        } else {
            0
        }
    }
}

/// Checks let pass what the window admits.
proof fn lemma_allowed_are_passed(
    arrivals: Seq<Arrival>,
    window: u64,
    n: nat,
    start: int,
    end: int,
)
    ensures
        allowed_within(arrivals, window, n, start, end)
            == crate::sliding_window::passed_within(arrivals, window, n, start, end),
    decreases n,
{
    if n > 0 {
        lemma_allowed_are_passed(arrivals, window, (n - 1) as nat, start, end);
    }
}

/// The limit holds: whatever stretch of one window's length is looked at, the
/// checks of a key let no more requests pass in it than the limit. Requests
/// come in the order of their times and do not share members.
pub proof fn law_checks_keep_limit(
    arrivals: Seq<Arrival>,
    window: u64,
    limit: u64,
    end: int,
)
    requires
        crate::sliding_window::in_order(arrivals),
        crate::sliding_window::members_apart(arrivals),
        forall|i: int| 0 <= i < arrivals.len() ==> (#[trigger] arrivals[i]).limit <= limit,
    ensures
        allowed_within(arrivals, window, arrivals.len(), end - window, end) <= limit,
{
    let n = arrivals.len();
    lemma_allowed_are_passed(arrivals, window, n, end - window, end);
    crate::sliding_window::law_no_window_exceeds_limit(arrivals, window, limit, n, end);
}

/// The whole limit can be used: with one limit for all, and no batches, a check
/// fails exactly when `limit` earlier checks let a request pass within one
/// window's length before it.
pub proof fn law_checks_use_whole_limit(
    arrivals: Seq<Arrival>,
    window: u64,
    limit: u64,
    j: int,
)
    requires
        crate::sliding_window::in_order(arrivals),
        crate::sliding_window::own_members(arrivals),
        crate::sliding_window::one_by_one(arrivals),
        forall|i: int| 0 <= i < arrivals.len() ==> (#[trigger] arrivals[i]).limit == limit,
        0 <= j < arrivals.len(),
    ensures
        checked(arrivals, window, j) is Err <==> allowed_within(
            arrivals,
            window,
            j as nat,
            arrivals[j].now - window,
            arrivals[j].now as int,
        ) == limit,
{
    let now = arrivals[j].now;
    lemma_allowed_are_passed(arrivals, window, j as nat, now - window, now as int);
    crate::sliding_window::law_denied_exactly_when_full(arrivals, window, limit, j);
}

/// Whether all requests fall within less than one window's length, in whatever
/// order.
pub open spec fn close_together(arrivals: Seq<Arrival>, window: u64) -> bool {
    forall|i: int, j: int|
        0 <= i < arrivals.len() && 0 <= j < arrivals.len() ==> (#[trigger] arrivals[i]).now < (
        #[trigger] arrivals[j]).now + window
}

/// The log that requests leave that fall within less than one window's length:
/// the first `limit` of them, at their times.
proof fn lemma_close_requests_stay(arrivals: Seq<Arrival>, window: u64, limit: u64, n: nat)
    requires
        crate::sliding_window::own_members(arrivals),
        crate::sliding_window::one_by_one(arrivals),
        close_together(arrivals, window),
        forall|i: int| 0 <= i < arrivals.len() ==> (#[trigger] arrivals[i]).limit == limit,
        n <= arrivals.len(),
    ensures
        ({
            let log = crate::sliding_window::replay(arrivals, window, n);
            &&& log.dom().finite()
            &&& log.len() == if n <= limit {
                n
            } else {
                limit as nat
            }
            &&& forall|m: Seq<char>| #[trigger]
                log.contains_key(m) ==> exists|i: int|
                    0 <= i < n && (#[trigger] arrivals[i]).member == m && arrivals[i].now == log[m]
        }),
    decreases n,
{
    if n > 0 {
        let p = (n - 1) as nat;
        lemma_close_requests_stay(arrivals, window, limit, p);
        let a = arrivals[n - 1];
        let log = crate::sliding_window::replay(arrivals, window, p);
        let after = crate::sliding_window::replay(arrivals, window, n);
        lemma_close_requests_are_live(arrivals, window, p, n - 1);
        assert(a.limit == limit && a.batch_size <= 1);
        assert(!log.contains_key(a.member)) by {
            if log.contains_key(a.member) {
                let i = choose|i: int|
                    0 <= i < p && (#[trigger] arrivals[i]).member == a.member && arrivals[i].now
                        == log[a.member];
                assert(arrivals[i].member != arrivals[n - 1].member);
            }
        }
        if log.len() < limit {
            assert(crate::sliding_window::taken(log, window, a) == 1);
            reveal_with_fuel(crate::sliding_window::with_slots, 2);
            assert(after == log.insert(a.member, a.now));
        } else {
            assert(after == log);
        }
        assert forall|m: Seq<char>| #[trigger] after.contains_key(m) implies exists|i: int|
            0 <= i < n && (#[trigger] arrivals[i]).member == m && arrivals[i].now == after[m] by {
            if m == a.member {
                assert(arrivals[n - 1].member == m);
            } else {
                assert(log.contains_key(m));
                let i = choose|i: int|
                    0 <= i < p && (#[trigger] arrivals[i]).member == m && arrivals[i].now == log[m];
                assert(arrivals[i].member == m);
            }
        }
    }
}

/// What such requests record is inside the window of each of them.
proof fn lemma_close_requests_are_live(arrivals: Seq<Arrival>, window: u64, n: nat, j: int)
    requires
        close_together(arrivals, window),
        n <= arrivals.len(),
        0 <= j < arrivals.len(),
        forall|m: Seq<char>| #[trigger]
            crate::sliding_window::replay(arrivals, window, n).contains_key(m) ==> exists|i: int|
                0 <= i < n && (#[trigger] arrivals[i]).member == m && arrivals[i].now
                    == crate::sliding_window::replay(arrivals, window, n)[m],
    ensures
        crate::sliding_window::live(
            crate::sliding_window::replay(arrivals, window, n),
            arrivals[j].now,
            window,
        ) == crate::sliding_window::replay(arrivals, window, n),
{
    let log = crate::sliding_window::replay(arrivals, window, n);
    let inside = crate::sliding_window::live(log, arrivals[j].now, window);
    assert forall|m: Seq<char>| #[trigger] log.contains_key(m) implies inside.contains_key(m) by {
        let i = choose|i: int|
            0 <= i < n && (#[trigger] arrivals[i]).member == m && arrivals[i].now == log[m];
        assert(arrivals[j].now < arrivals[i].now + window);
    }
    assert(inside =~= log);
}

/// Checks at the same time share the limit exactly: where all fall within less
/// than one window's length, with one limit and no batches, the first `limit` of
/// them to reach the window pass, with the counts from one to `limit`, and the
/// others do not, whatever the order of their clock readings.
pub proof fn law_close_checks_share_limit(
    arrivals: Seq<Arrival>,
    window: u64,
    limit: u64,
    j: int,
)
    requires
        crate::sliding_window::own_members(arrivals),
        crate::sliding_window::one_by_one(arrivals),
        close_together(arrivals, window),
        forall|i: int| 0 <= i < arrivals.len() ==> (#[trigger] arrivals[i]).limit == limit,
        0 <= j < arrivals.len(),
    ensures
        checked(arrivals, window, j) is Ok <==> j < limit,
        checked(arrivals, window, j) matches Ok(d) ==> d.count == j + 1 && d.remaining == limit - (j
            + 1),
{
    lemma_close_requests_stay(arrivals, window, limit, j as nat);
    lemma_close_requests_are_live(arrivals, window, j as nat, j);
    assert(arrivals[j].limit == limit);
}

/// How many of the first `n` checks let a request pass.
pub open spec fn allowed_in_all(arrivals: Seq<Arrival>, window: u64, n: nat) -> nat
    decreases n,
{
    if n == 0 {
        0
    } else {
        allowed_in_all(arrivals, window, (n - 1) as nat) + if checked(
            arrivals,
            window,
            n - 1,
        ) is Ok {
            1nat
        } else {
            0
        }
    }
}

/// Of `n` checks at the same time as many pass as the limit allows, or all.
pub proof fn law_close_checks_use_limit(
    arrivals: Seq<Arrival>,
    window: u64,
    limit: u64,
    n: nat,
)
    requires
        crate::sliding_window::own_members(arrivals),
        crate::sliding_window::one_by_one(arrivals),
        close_together(arrivals, window),
        forall|i: int| 0 <= i < arrivals.len() ==> (#[trigger] arrivals[i]).limit == limit,
        n <= arrivals.len(),
    ensures
        allowed_in_all(arrivals, window, n) == if n <= limit {
            n
        } else {
            limit as nat
        },
    decreases n,
{
    if n > 0 {
        law_close_checks_use_limit(arrivals, window, limit, (n - 1) as nat);
        law_close_checks_share_limit(arrivals, window, limit, n - 1);
    }
}

/// The reported wait is right to the millisecond. After a request that is
/// turned away, or that takes the last place, a request that comes before the
/// wait is over is turned away, and one that comes a millisecond after it
/// passes, if the window held no more than the limit and nothing else was
/// recorded meanwhile.
pub proof fn law_retry_after_is_tight(
    log: Map<Seq<char>, u64>,
    window: u64,
    a: Arrival,
    later: u64,
)
    requires
        log.dom().finite(),
        is_new(log, a),
        a.limit >= 1,
        a.now <= later,
        match check_of(log, window, a) {
            Ok(d) => d.remaining == 0 && window > 0,
            Err(_) => true,
        },
    ensures
        ({
            let after = crate::sliding_window::log_after(log, window, a);
            let wait = match check_of(log, window, a) {
                Ok(d) => d.retry_after_ms,
                Err(ms) => ms,
            };
            &&& later < a.now + wait * 1_000 ==> !crate::sliding_window::admits(
                after,
                later,
                window,
                a.limit,
            )
            &&& later >= a.now + (wait + 1) * 1_000 && after.len() <= a.limit
                ==> crate::sliding_window::admits(after, later, window, a.limit)
        }),
{
    crate::sliding_window::law_reply_counts_window(log, window, a);
    crate::sliding_window::law_place_comes_free_with_oldest(log, window, a, later);
}

/// A request that passes with room to spare is told of no wait, and rightly so:
/// the next request passes at once, whatever was reserved.
pub proof fn law_headroom_means_no_wait(log: Map<Seq<char>, u64>, window: u64, a: Arrival)
    requires
        log.dom().finite(),
        is_new(log, a),
        check_of(log, window, a) matches Ok(d) && d.remaining > 0,
    ensures
        check_of(log, window, a)->Ok_0.retry_after_ms == 0,
        crate::sliding_window::admits(
            crate::sliding_window::log_after(log, window, a),
            a.now,
            window,
            a.limit,
        ),
{
    crate::sliding_window::law_reply_counts_window(log, window, a);
    crate::sliding_window::lemma_live_finite(
        crate::sliding_window::log_after(log, window, a),
        a.now,
        window,
    );
}

/// The wait is the whole milliseconds until the oldest request leaves the
/// window: no more than that, and less than one millisecond short of it. Once it
/// has left there is none.
pub proof fn law_wait_lasts_until_the_oldest_leaves(oldest: u64, window: u64, now: u64)
    ensures
        ({
            let wait = retry_after_ms(oldest, window, now);
            &&& oldest + window >= now ==> now + wait * 1_000 <= oldest + window < now + (wait + 1)
                * 1_000
            &&& oldest + window < now ==> wait == 0
        }),
{
}

/// What any reply means. A request of which nothing was recorded is told to wait
/// until the oldest request leaves, however many the window holds, unless it
/// holds none. A request that was recorded passes, with the count of the reply
/// and what that leaves of the limit, and has to be waited after only if it
/// leaves nothing.
pub proof fn law_reply_decides(
    taken: u64,
    count: u64,
    oldest: u64,
    limit: u64,
    window: u64,
    now: u64,
)
    ensures
        match verdict(taken as nat, count as nat, oldest, limit, window, now) {
            Ok(d) => {
                &&& taken > 0
                &&& d.allowed
                &&& d.count == count
                &&& d.limit == limit
                &&& d.remaining > 0 <==> count < limit
                &&& count <= limit ==> count + d.remaining == limit
                &&& count < limit || oldest + window < now ==> d.retry_after_ms == 0
                &&& count >= limit && oldest + window >= now ==> now + d.retry_after_ms * 1_000
                    <= oldest + window < now + (d.retry_after_ms + 1) * 1_000
            },
            Err(wait) => {
                &&& taken == 0
                &&& count == 0 || oldest + window < now ==> wait == 0
                &&& count > 0 && oldest + window >= now ==> now + wait * 1_000 <= oldest + window
                    < now + (wait + 1) * 1_000
            },
        },
{
    law_wait_lasts_until_the_oldest_leaves(oldest, window, now);
}

/// The three numbers of a reply are read in their order, against the limit, the
/// window and the time of the call.
pub proof fn law_reply_is_read_in_order(reply: Seq<u64>, call: ScriptCall)
    ensures
        reply_verdict(reply, call) == verdict(
            reply[0] as nat,
            reply[1] as nat,
            reply[2],
            call.limit,
            call.window_us,
            call.now_us,
        ),
{
}

/// A request that is turned away is told the whole milliseconds until the oldest
/// request inside the window leaves it, however many the window holds. `m` is
/// any request inside the window that no other one there is older than.
pub proof fn law_denied_wait_ends_with_oldest(
    log: Map<Seq<char>, u64>,
    window: u64,
    a: Arrival,
    m: Seq<char>,
)
    requires
        log.dom().finite(),
        log.dom().filter(|k: Seq<char>| log[k] + window > a.now).len() >= a.limit,
        log.contains_key(m),
        log[m] + window > a.now,
        forall|k: Seq<char>| #[trigger]
            log.contains_key(k) && log[k] + window > a.now ==> log[m] <= log[k],
    ensures
        check_of(log, window, a) matches Err(wait) && a.now + wait * 1_000 <= log[m] + window
            < a.now + (wait + 1) * 1_000,
{
    let inside = crate::sliding_window::live(log, a.now, window);
    crate::sliding_window::law_admission_counts_what_is_recent(log, a.now, window, a.limit);
    crate::sliding_window::law_batch_is_as_large_as_it_may_be(log, window, a);
    crate::sliding_window::lemma_live_finite(log, a.now, window);
    let after = crate::sliding_window::log_after(log, window, a);
    assert(after == inside);
    assert(inside.contains_key(m) && inside[m] == log[m]);
    assert(inside.dom().contains(m));
    assert(inside.len() > 0) by {
        if inside.dom().len() == 0 {
            assert(inside.dom() =~= Set::empty());
        }
    }
    crate::sliding_window::law_oldest_is_the_lowest(inside);
    let k = choose|k: Seq<char>| #[trigger]
        inside.contains_key(k) && inside[k] == crate::sliding_window::oldest(inside);
    assert(log.contains_key(k) && log[k] + window > a.now);
    law_wait_lasts_until_the_oldest_leaves(
        crate::sliding_window::reply_oldest(log, window, a),
        window,
        a.now,
    );
}

/// A request that passes reports how many requests were made less than a
/// window's length ago, itself among them, and what that leaves of its limit.
pub proof fn law_passing_check_reports_recent(log: Map<Seq<char>, u64>, window: u64, a: Arrival)
    requires
        log.dom().finite(),
    ensures
        ({
            let recent = log.dom().filter(|k: Seq<char>| log[k] + window > a.now).len();
            &&& check_of(log, window, a) is Ok <==> recent < a.limit
            &&& check_of(log, window, a) matches Ok(d) ==> {
                &&& d.allowed
                &&& d.count == recent + 1
                &&& d.limit == a.limit
                &&& d.remaining == a.limit - recent - 1
            }
        }),
{
    crate::sliding_window::law_admission_counts_what_is_recent(log, a.now, window, a.limit);
    crate::sliding_window::law_batch_is_as_large_as_it_may_be(log, window, a);
}

} // verus!
