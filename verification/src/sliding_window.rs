//! The sliding window: which requests of a key still count, and whether one
//! more may pass.
//!
//! A key's log maps the member of each recorded request to its score, the time
//! of the request in microseconds. [`SLIDING_WINDOW_LUA`] keeps that log in a
//! Redis sorted set; [`SlidingWindow`] keeps it in memory by the same rule.

use vstd::prelude::*;
use vstd::set_lib::*;

use crate::limiter::share_of;
use crate::text::push_decimal;

verus! {

/// Atomic sliding-window check and record, run by Redis.
///
/// `KEYS[1]` is the rate limit key. `ARGV` holds the current time and the
/// window size in microseconds, the limit, the member of this request, the
/// time to live of the key in milliseconds and the batch size: the fields of a
/// [`ScriptCall`] in their order.
///
/// A request that may pass is recorded, and with it as many further requests as
/// a batch and the limit allow. The reply holds three numbers:
///
/// - how many requests were recorded, zero if this one may not pass;
/// - how many requests are in the window, this one among them if it was
///   recorded, but not the further ones;
/// - the score of the oldest request in the window, zero if there is none.
///
/// Redis computes in doubles, which hold whole numbers exactly up to 2^53: every
/// time in microseconds until the year 2255.
pub const SLIDING_WINDOW_LUA: &'static str = r#"
local key       = KEYS[1]
local now       = tonumber(ARGV[1])
local window    = tonumber(ARGV[2])
local limit     = tonumber(ARGV[3])
local member    = ARGV[4]
local ttl_ms    = tonumber(ARGV[5])
local batch     = tonumber(ARGV[6])
local cutoff    = now - window

-- Score of the oldest entry, or zero
local function oldest_score()
    local oldest = redis.call('ZRANGE', key, 0, 0, 'WITHSCORES')
    if #oldest > 0 then
        return tonumber(oldest[2])
    end
    return 0
end

-- Remove expired entries
redis.call('ZREMRANGEBYSCORE', key, '-inf', cutoff)

-- Count current window
local count = redis.call('ZCARD', key)

if count < limit then
    -- Allow: record this request, and reserve what the batch may have
    local remaining = limit - count - 1
    local extra = math.max(math.min(remaining, batch) - 1, 0)
    redis.call('ZADD', key, now, member)
    for i = 1, extra do
        redis.call('ZADD', key, now, member .. ':' .. i)
    end
    redis.call('PEXPIRE', key, ttl_ms)
    return {extra + 1, count + 1, oldest_score()}
else
    -- Denied: the oldest entry tells the caller how long to wait
    return {0, count, oldest_score()}
end
"#;

/// The arguments of one run of the sliding-window rule.
#[derive(Debug)]
pub struct ScriptCall {
    /// Current time, in microseconds.
    pub now_us: u64,
    /// Window size, in microseconds.
    pub window_us: u64,
    /// Most requests that the window may hold.
    pub limit: u64,
    /// Identifies this request among those of the key.
    pub member: String,
    /// Time after which an idle key may be dropped, in milliseconds.
    pub ttl_ms: u64,
    /// Most requests to record at once.
    pub batch_size: u64,
}

impl ScriptCall {
    /// What the rule is asked, apart from the window.
    pub open spec fn arrival(&self) -> Arrival {
        Arrival {
            now: self.now_us,
            limit: self.limit,
            batch_size: self.batch_size,
            member: self.member@,
        }
    }
}

/// One request to a key.
pub struct Arrival {
    pub now: u64,
    pub limit: u64,
    pub batch_size: u64,
    pub member: Seq<char>,
}

/// The part of `log` that is inside the window of size `window` that ends at
/// `now`: the scores above `now - window`.
pub open spec fn live(log: Map<Seq<char>, u64>, now: u64, window: u64) -> Map<Seq<char>, u64> {
    Map::new(|m: Seq<char>| log.contains_key(m) && log[m] > now - window, |m: Seq<char>| log[m])
}

/// Whether `s` is the lowest score in `log`.
pub open spec fn is_oldest(log: Map<Seq<char>, u64>, s: u64) -> bool {
    &&& exists|m: Seq<char>| #[trigger] log.contains_key(m) && log[m] == s
    &&& forall|m: Seq<char>| #[trigger] log.contains_key(m) ==> s <= log[m]
}

/// The lowest score in `log`, or zero if there is none.
pub open spec fn oldest(log: Map<Seq<char>, u64>) -> u64 {
    if log.dom().is_empty() {
        0
    } else {
        choose|s: u64| is_oldest(log, s)
    }
}

/// Whether a request at `now` may pass: fewer than `limit` requests are in the
/// window.
pub open spec fn admits(log: Map<Seq<char>, u64>, now: u64, window: u64, limit: u64) -> bool {
    live(log, now, window).len() < limit
}

/// What a request that may pass leaves of its limit.
pub open spec fn left_over(log: Map<Seq<char>, u64>, now: u64, window: u64, limit: u64) -> u64 {
    (limit - live(log, now, window).len() - 1) as u64
}

/// How many requests `a` records: none if it may not pass, else itself and its
/// share of what it leaves.
pub open spec fn taken(log: Map<Seq<char>, u64>, window: u64, a: Arrival) -> nat {
    if admits(log, a.now, window, a.limit) {
        1 + crate::limiter::share(left_over(log, a.now, window, a.limit), a.batch_size) as nat
    } else {
        0
    }
}

/// The member under which request number `i` of a batch is recorded. The first
/// one has the member itself.
pub open spec fn slot(member: Seq<char>, i: nat) -> Seq<char> {
    if i == 0 {
        member
    } else {
        member + seq![':'] + crate::text::decimal(i)
    }
}

/// `log` with the first `n` requests of a batch recorded at `now`.
pub open spec fn with_slots(
    log: Map<Seq<char>, u64>,
    member: Seq<char>,
    now: u64,
    n: nat,
) -> Map<Seq<char>, u64>
    decreases n,
{
    if n == 0 {
        log
    } else {
        with_slots(log, member, now, (n - 1) as nat).insert(slot(member, (n - 1) as nat), now)
    }
}

/// The log after a request: what is outside the window is dropped, and what the
/// request takes is recorded.
pub open spec fn log_after(log: Map<Seq<char>, u64>, window: u64, a: Arrival) -> Map<
    Seq<char>,
    u64,
> {
    with_slots(live(log, a.now, window), a.member, a.now, taken(log, window, a))
}

/// The second number of the reply: the requests in the window, with this one if
/// it may pass.
pub open spec fn reply_count(log: Map<Seq<char>, u64>, now: u64, window: u64, limit: u64) -> nat {
    if admits(log, now, window, limit) {
        live(log, now, window).len() + 1
    } else {
        live(log, now, window).len()
    }
}

/// The third number of the reply: the lowest score in the window after the
/// request, or zero if there is none.
pub open spec fn reply_oldest(log: Map<Seq<char>, u64>, window: u64, a: Arrival) -> u64 {
    oldest(log_after(log, window, a))
}

/// One recorded request.
struct Entry {
    member: String,
    score: u64,
}

/// The log that a list of entries stands for.
spec fn as_log(entries: Seq<Entry>) -> Map<Seq<char>, u64>
    decreases entries.len(),
{
    if entries.len() == 0 {
        Map::empty()
    } else {
        as_log(entries.drop_last()).insert(entries.last().member@, entries.last().score)
    }
}

/// No member occurs twice.
spec fn distinct(entries: Seq<Entry>) -> bool {
    forall|i: int, j: int|
        0 <= i < j < entries.len() ==> (#[trigger] entries[i]).member@ != (
        #[trigger] entries[j]).member@
}

/// A list without repeated members and its log hold the same entries.
proof fn lemma_as_log(entries: Seq<Entry>)
    requires
        distinct(entries),
    ensures
        as_log(entries).dom().finite(),
        as_log(entries).len() == entries.len(),
        forall|i: int|
            0 <= i < entries.len() ==> as_log(entries).contains_key(
                (#[trigger] entries[i]).member@,
            ) && as_log(entries)[entries[i].member@] == entries[i].score,
        forall|m: Seq<char>| #[trigger]
            as_log(entries).contains_key(m) ==> exists|i: int|
                0 <= i < entries.len() && (#[trigger] entries[i]).member@ == m,
    decreases entries.len(),
{
    if entries.len() > 0 {
        let init = entries.drop_last();
        assert(distinct(init));
        lemma_as_log(init);
        let last = entries.last();
        assert(!as_log(init).contains_key(last.member@)) by {
            if as_log(init).contains_key(last.member@) {
                let i = choose|i: int|
                    0 <= i < init.len() && (#[trigger] init[i]).member@ == last.member@;
                assert(entries[i].member@ != entries[entries.len() - 1].member@);
            }
        }
        assert forall|i: int| 0 <= i < entries.len() implies as_log(entries).contains_key(
            (#[trigger] entries[i]).member@,
        ) && as_log(entries)[entries[i].member@] == entries[i].score by {
            if i < entries.len() - 1 {
                assert(init[i] == entries[i]);
                assert(entries[i].member@ != entries[entries.len() - 1].member@);
            }
        }
        assert forall|m: Seq<char>| #[trigger] as_log(entries).contains_key(m) implies exists|
            i: int,
        |
            0 <= i < entries.len() && (#[trigger] entries[i]).member@ == m by {
            if m == last.member@ {
                assert(entries[entries.len() - 1].member@ == m);
            } else {
                assert(as_log(init).contains_key(m));
                let i = choose|i: int| 0 <= i < init.len() && (#[trigger] init[i]).member@ == m;
                assert(entries[i].member@ == m);
            }
        }
    }
}

/// A lowest score is unique.
proof fn lemma_oldest_is(log: Map<Seq<char>, u64>, s: u64)
    requires
        is_oldest(log, s),
    ensures
        oldest(log) == s,
{
    let m = choose|m: Seq<char>| #[trigger] log.contains_key(m) && log[m] == s;
    assert(log.dom().contains(m));
    let t = oldest(log);
    assert(is_oldest(log, t));
    let n = choose|n: Seq<char>| #[trigger] log.contains_key(n) && log[n] == t;
    assert(log.contains_key(m) && log.contains_key(n));
}

/// Recording a member replaces its entry in place, or adds one at the end.
proof fn lemma_replace_entry(entries: Seq<Entry>, i: int, e: Entry)
    requires
        distinct(entries),
        0 <= i < entries.len(),
        entries[i].member@ == e.member@,
    ensures
        distinct(entries.update(i, e)),
        as_log(entries.update(i, e)) == as_log(entries).insert(e.member@, e.score),
{
    let updated = entries.update(i, e);
    assert(distinct(updated)) by {
        assert forall|a: int, b: int| 0 <= a < b < updated.len() implies (
        #[trigger] updated[a]).member@ != (#[trigger] updated[b]).member@ by {
            assert(entries[a].member@ != entries[b].member@);
        }
    }
    lemma_as_log(entries);
    lemma_as_log(updated);
    let want = as_log(entries).insert(e.member@, e.score);
    assert forall|m: Seq<char>| want.contains_key(m) == as_log(updated).contains_key(m) by {
        if want.contains_key(m) {
            if m == e.member@ {
                assert(updated[i].member@ == m);
            } else {
                let j = choose|j: int|
                    0 <= j < entries.len() && (#[trigger] entries[j]).member@ == m;
                assert(updated[j].member@ == m);
            }
        }
        if as_log(updated).contains_key(m) {
            let j = choose|j: int| 0 <= j < updated.len() && (#[trigger] updated[j]).member@ == m;
            assert(entries[j].member@ == m);
        }
    }
    assert forall|m: Seq<char>| #[trigger] want.contains_key(m) implies want[m] == as_log(
        updated,
    )[m] by {
        assert(as_log(updated).contains_key(m));
        let j = choose|j: int| 0 <= j < updated.len() && (#[trigger] updated[j]).member@ == m;
        assert(entries[j].member@ == m);
    }
    assert(as_log(updated) =~= want);
}

/// The log of one key, kept in memory.
pub struct SlidingWindow {
    entries: Vec<Entry>,
}

impl View for SlidingWindow {
    type V = Map<Seq<char>, u64>;

    closed spec fn view(&self) -> Map<Seq<char>, u64> {
        as_log(self.entries@)
    }
}

impl SlidingWindow {
    #[verifier::type_invariant]
    spec fn no_member_twice(self) -> bool {
        distinct(self.entries@)
    }

    /// A log without requests.
    pub fn new() -> (w: Self)
        ensures
            w@ == Map::<Seq<char>, u64>::empty(),
    {
        SlidingWindow { entries: Vec::new() }
    }

    /// How many requests the log holds.
    pub fn len(&self) -> (n: usize)
        ensures
            self@.dom().finite(),
            n == self@.len(),
    {
        proof {
            use_type_invariant(self);
            lemma_as_log(self.entries@);
        }
        self.entries.len()
    }

    /// Drops every request from the log.
    pub fn reset(&mut self)
        ensures
            final(self)@ == Map::<Seq<char>, u64>::empty(),
    {
        self.entries = Vec::new();
    }

    /// Runs the rule on the log and returns the three numbers of its reply.
    pub fn apply(&mut self, call: &ScriptCall) -> (reply: Vec<u64>)
        ensures
            final(self)@ == log_after(old(self)@, call.window_us, call.arrival()),
            reply@.len() == 3,
            reply@[0] == taken(old(self)@, call.window_us, call.arrival()),
            reply@[1] == reply_count(old(self)@, call.now_us, call.window_us, call.limit),
            reply@[2] == reply_oldest(old(self)@, call.window_us, call.arrival()),
    {
        proof {
            use_type_invariant(&*self);
        }
        let mut entries: Vec<Entry> = Vec::new();
        std::mem::swap(&mut entries, &mut self.entries);
        let mut kept = keep_live(entries, call.now_us, call.window_us);
        let count: u64 = kept.len() as u64;
        proof {
            lemma_as_log(kept@);
        }
        if count < call.limit {
            let taken: u64 = 1 + share_of(call.limit - count - 1, call.batch_size);
            record_slots(&mut kept, call.member.as_str(), call.now_us, taken);
            let score: u64 = lowest_score(&kept);
            self.entries = kept;
            vec![taken, count + 1, score]
        } else {
            let score: u64 = lowest_score(&kept);
            self.entries = kept;
            vec![0, count, score]
        }
    }
}

/// The member under which request number `i` of a batch is recorded.
fn slot_name(member: &str, i: u64) -> (s: String)
    ensures
        s@ == slot(member@, i as nat),
{
    let mut s = String::new();
    s.append(member);
    if i > 0 {
        s.append(":");
        push_decimal(&mut s, i);
        proof {
            reveal_strlit(":");
        }
    }
    assert(s@ =~= slot(member@, i as nat));
    s
}

/// Records the first `n` requests of a batch.
fn record_slots(entries: &mut Vec<Entry>, member: &str, score: u64, n: u64)
    requires
        distinct(old(entries)@),
    ensures
        distinct(final(entries)@),
        as_log(final(entries)@) == with_slots(as_log(old(entries)@), member@, score, n as nat),
{
    let mut i: u64 = 0;
    while i < n
        invariant
            i <= n,
            distinct(entries@),
            as_log(entries@) == with_slots(as_log(old(entries)@), member@, score, i as nat),
        decreases n - i,
    {
        let name = slot_name(member, i);
        record(entries, &name, score);
        i = i + 1;
    }
}

/// Drops the entries outside the window.
fn keep_live(entries: Vec<Entry>, now_us: u64, window_us: u64) -> (kept: Vec<Entry>)
    requires
        distinct(entries@),
    ensures
        distinct(kept@),
        as_log(kept@) == live(as_log(entries@), now_us, window_us),
{
    let ghost log = as_log(entries@);
    let mut rest = entries;
    let mut kept: Vec<Entry> = Vec::new();
    assert(as_log(kept@) =~= Map::<Seq<char>, u64>::empty());
    while rest.len() > 0
        invariant
            distinct(rest@),
            distinct(kept@),
            forall|m: Seq<char>| #[trigger]
                as_log(kept@).contains_key(m) ==> !as_log(rest@).contains_key(m),
            live(log, now_us, window_us) =~= as_log(kept@).union_prefer_right(
                live(as_log(rest@), now_us, window_us),
            ),
        decreases rest.len(),
    {
        let ghost before = rest@;
        let ghost kept_before = kept@;
        let e = rest.pop().unwrap();
        proof {
            assert(rest@ =~= before.drop_last());
            assert(distinct(rest@));
            lemma_as_log(before);
            lemma_as_log(rest@);
            lemma_as_log(kept@);
            assert(as_log(before) == as_log(rest@).insert(e.member@, e.score));
            assert(!as_log(rest@).contains_key(e.member@)) by {
                if as_log(rest@).contains_key(e.member@) {
                    let i = choose|i: int|
                        0 <= i < rest@.len() && (#[trigger] rest@[i]).member@ == e.member@;
                    assert(before[i].member@ != before[before.len() - 1].member@);
                }
            }
            assert(as_log(before).contains_key(e.member@));
        }
        if now_us < window_us || e.score > now_us - window_us {
            kept.push(e);
            proof {
                assert(kept@.drop_last() =~= kept_before);
                assert(distinct(kept@)) by {
                    assert forall|i: int, j: int| 0 <= i < j < kept@.len() implies (
                    #[trigger] kept@[i]).member@ != (#[trigger] kept@[j]).member@ by {
                        if j == kept@.len() - 1 {
                            assert(kept_before[i] == kept@[i]);
                            assert(as_log(kept_before).contains_key(kept_before[i].member@));
                        } else {
                            assert(kept_before[i] == kept@[i] && kept_before[j] == kept@[j]);
                        }
                    }
                }
            }
        }
    }
    assert(live(as_log(rest@), now_us, window_us) =~= Map::<Seq<char>, u64>::empty());
    assert(as_log(kept@) =~= live(log, now_us, window_us));
    kept
}

/// Sets the score of `member`.
fn record(entries: &mut Vec<Entry>, member: &String, score: u64)
    requires
        distinct(old(entries)@),
    ensures
        distinct(final(entries)@),
        as_log(final(entries)@) == as_log(old(entries)@).insert(member@, score),
{
    let e = Entry { member: member.clone(), score };
    let mut i: usize = 0;
    while i < entries.len()
        invariant
            entries@ == old(entries)@,
            distinct(entries@),
            e.member@ == member@,
            e.score == score,
            i <= entries.len(),
            forall|j: int| 0 <= j < i ==> (#[trigger] entries@[j]).member@ != member@,
        decreases entries.len() - i,
    {
        if entries[i].member == *member {
            proof {
                lemma_replace_entry(entries@, i as int, e);
            }
            entries.set(i, e);
            return;
        }
        i = i + 1;
    }
    entries.push(e);
    proof {
        assert(entries@.drop_last() =~= old(entries)@);
        assert(distinct(entries@)) by {
            assert forall|a: int, b: int| 0 <= a < b < entries@.len() implies (
            #[trigger] entries@[a]).member@ != (#[trigger] entries@[b]).member@ by {
                assert(old(entries)@[a] == entries@[a]);
                if b < entries@.len() - 1 {
                    assert(old(entries)@[b] == entries@[b]);
                }
            }
        }
    }
}

/// The lowest score, or zero if there is none.
fn lowest_score(entries: &Vec<Entry>) -> (s: u64)
    requires
        distinct(entries@),
    ensures
        s == oldest(as_log(entries@)),
{
    proof {
        lemma_as_log(entries@);
    }
    if entries.len() == 0 {
        return 0;
    }
    let mut s: u64 = entries[0].score;
    let mut i: usize = 1;
    let ghost mut at: int = 0;
    while i < entries.len()
        invariant
            1 <= i <= entries.len(),
            0 <= at < i,
            entries@[at].score == s,
            forall|j: int| 0 <= j < i ==> s <= (#[trigger] entries@[j]).score,
        decreases entries.len() - i,
    {
        if entries[i].score < s {
            s = entries[i].score;
            proof {
                at = i as int;
            }
        }
        i = i + 1;
    }
    proof {
        let log = as_log(entries@);
        assert(log.contains_key(entries@[at].member@));
        assert forall|m: Seq<char>| #[trigger] log.contains_key(m) implies s <= log[m] by {
            let j = choose|j: int| 0 <= j < entries@.len() && (#[trigger] entries@[j]).member@ == m;
            assert(s <= entries@[j].score);
        }
        lemma_oldest_is(log, s);
    }
    s
}

/// The log after the first `n` arrivals, all with the same window.
pub open spec fn replay(arrivals: Seq<Arrival>, window: u64, n: nat) -> Map<Seq<char>, u64>
    decreases n,
{
    if n == 0 {
        Map::empty()
    } else {
        log_after(replay(arrivals, window, (n - 1) as nat), window, arrivals[n - 1])
    }
}

/// Whether arrival `i` passes.
pub open spec fn passes(arrivals: Seq<Arrival>, window: u64, i: int) -> bool {
    admits(replay(arrivals, window, i as nat), arrivals[i].now, window, arrivals[i].limit)
}

/// How many requests arrival `i` records.
pub open spec fn takes(arrivals: Seq<Arrival>, window: u64, i: int) -> nat {
    taken(replay(arrivals, window, i as nat), window, arrivals[i])
}

/// Time does not run backwards.
pub open spec fn in_order(arrivals: Seq<Arrival>) -> bool {
    forall|i: int, j: int|
        0 <= i <= j < arrivals.len() ==> (#[trigger] arrivals[i]).now <= (
        #[trigger] arrivals[j]).now
}

/// Every arrival has a member of its own.
pub open spec fn own_members(arrivals: Seq<Arrival>) -> bool {
    forall|i: int, j: int|
        0 <= i < j < arrivals.len() ==> (#[trigger] arrivals[i]).member != (
        #[trigger] arrivals[j]).member
}

/// No arrival asks for a batch.
pub open spec fn one_by_one(arrivals: Seq<Arrival>) -> bool {
    forall|i: int| 0 <= i < arrivals.len() ==> (#[trigger] arrivals[i]).batch_size <= 1
}

/// No arrival has a member with a colon in it.
pub open spec fn plain_members(arrivals: Seq<Arrival>) -> bool {
    forall|i: int| 0 <= i < arrivals.len() ==> !(#[trigger] arrivals[i]).member.contains(':')
}

/// What the members of arrivals have to be for no two of the requests that they
/// record to share one.
pub open spec fn members_apart(arrivals: Seq<Arrival>) -> bool {
    own_members(arrivals) && (one_by_one(arrivals) || plain_members(arrivals))
}

/// How many requests the first `n` arrivals record at a time after `start` and
/// not after `end`.
pub open spec fn taken_within(
    arrivals: Seq<Arrival>,
    window: u64,
    n: nat,
    start: int,
    end: int,
) -> nat
    decreases n,
{
    if n == 0 {
        0
    } else {
        taken_within(arrivals, window, (n - 1) as nat, start, end) + if start
            < arrivals[n - 1].now && arrivals[n - 1].now <= end {
            takes(arrivals, window, n - 1)
        } else {
            0
        }
    }
}

/// How many of the first `n` arrivals pass at a time after `start` and not after
/// `end`.
pub open spec fn passed_within(
    arrivals: Seq<Arrival>,
    window: u64,
    n: nat,
    start: int,
    end: int,
) -> nat
    decreases n,
{
    if n == 0 {
        0
    } else {
        passed_within(arrivals, window, (n - 1) as nat, start, end) + if start
            < arrivals[n - 1].now && arrivals[n - 1].now <= end && passes(
            arrivals,
            window,
            n - 1,
        ) {
            1nat
        } else {
            0
        }
    }
}

/// A member and its numbered slots differ from each other.
proof fn lemma_slots_differ(member: Seq<char>, a: nat, b: nat)
    requires
        slot(member, a) == slot(member, b),
    ensures
        a == b,
{
    let k = member.len() as int + 1;
    if a > 0 && b > 0 {
        assert(slot(member, a).skip(k) =~= crate::text::decimal(a));
        assert(slot(member, b).skip(k) =~= crate::text::decimal(b));
        crate::text::lemma_decimal_injective(a, b);
    } else if a != b {
        assert(slot(member, a).len() != slot(member, b).len());
    }
}

/// Slots of different members without a colon differ.
proof fn lemma_plain_slots_differ(m: Seq<char>, a: nat, n: Seq<char>, b: nat)
    requires
        m != n,
        !m.contains(':'),
        !n.contains(':'),
    ensures
        slot(m, a) != slot(n, b),
{
    let s = slot(m, a);
    let t = slot(n, b);
    if s == t {
        if a > 0 {
            assert(s[m.len() as int] == ':');
        }
        if b > 0 {
            assert(t[n.len() as int] == ':');
        }
        if a == 0 && b > 0 {
            assert(m[n.len() as int] == ':');
        } else if a > 0 && b == 0 {
            assert(n[m.len() as int] == ':');
        } else if a > 0 && b > 0 {
            if m.len() < n.len() {
                assert(n[m.len() as int] == ':');
            } else if n.len() < m.len() {
                assert(m[n.len() as int] == ':');
            }
            assert(s.take(m.len() as int) =~= m);
            assert(t.take(n.len() as int) =~= n);
        }
    }
}

/// Slots that are not in a log yet come on top of it.
proof fn lemma_with_slots(log: Map<Seq<char>, u64>, member: Seq<char>, now: u64, n: nat)
    requires
        log.dom().finite(),
        forall|k: nat| k < n ==> !log.contains_key(#[trigger] slot(member, k)),
    ensures
        with_slots(log, member, now, n).dom().finite(),
        with_slots(log, member, now, n).len() == log.len() + n,
        forall|m: Seq<char>| #[trigger]
            log.contains_key(m) ==> with_slots(log, member, now, n).contains_key(m)
                && with_slots(log, member, now, n)[m] == log[m],
        forall|k: nat|
            k < n ==> with_slots(log, member, now, n).contains_key(#[trigger] slot(member, k))
                && with_slots(log, member, now, n)[slot(member, k)] == now,
        forall|m: Seq<char>| #[trigger]
            with_slots(log, member, now, n).contains_key(m) ==> log.contains_key(m) || exists|
                k: nat,
            |
                k < n && m == #[trigger] slot(member, k),
    decreases n,
{
    if n > 0 {
        let p = (n - 1) as nat;
        let before = with_slots(log, member, now, p);
        let after = with_slots(log, member, now, n);
        lemma_with_slots(log, member, now, p);
        assert(!before.contains_key(slot(member, p))) by {
            if before.contains_key(slot(member, p)) {
                assert(!log.contains_key(slot(member, p)));
                let k = choose|k: nat| k < p && slot(member, p) == #[trigger] slot(member, k);
                lemma_slots_differ(member, p, k);
            }
        }
        assert forall|m: Seq<char>| #[trigger] log.contains_key(m) implies after.contains_key(m)
            && after[m] == log[m] by {
            assert(m != slot(member, p));
        }
        assert forall|k: nat| k < n implies after.contains_key(#[trigger] slot(member, k))
            && after[slot(member, k)] == now by {
            if k < p {
                assert(before.contains_key(slot(member, k)));
            }
        }
        assert forall|m: Seq<char>| #[trigger] after.contains_key(m) implies log.contains_key(m)
            || exists|k: nat| k < n && m == #[trigger] slot(member, k) by {
            if m != slot(member, p) {
                assert(before.contains_key(m));
                if !log.contains_key(m) {
                    let k = choose|k: nat| k < p && m == #[trigger] slot(member, k);
                    assert(k < n && m == slot(member, k));
                }
            }
        }
    }
}

/// A log holds finitely many requests, each recorded by one of the arrivals.
proof fn lemma_replay_members(arrivals: Seq<Arrival>, window: u64, n: nat)
    requires
        members_apart(arrivals),
        n <= arrivals.len(),
    ensures
        replay(arrivals, window, n).dom().finite(),
        forall|m: Seq<char>| #[trigger]
            replay(arrivals, window, n).contains_key(m) ==> exists|i: int, k: nat|
                0 <= i < n && k < takes(arrivals, window, i) && m == #[trigger] slot(
                    arrivals[i].member,
                    k,
                ),
    decreases n,
{
    if n > 0 {
        let p = (n - 1) as nat;
        let a = arrivals[n - 1];
        let before = replay(arrivals, window, p);
        let inside = live(before, a.now, window);
        let after = replay(arrivals, window, n);
        lemma_replay_members(arrivals, window, p);
        lemma_live_finite(before, a.now, window);
        lemma_fresh_slots(arrivals, window, p);
        lemma_with_slots(inside, a.member, a.now, takes(arrivals, window, n - 1));
        assert forall|m: Seq<char>| #[trigger] after.contains_key(m) implies exists|
            i: int,
            k: nat,
        |
            0 <= i < n && k < takes(arrivals, window, i) && m == #[trigger] slot(
                arrivals[i].member,
                k,
            ) by {
            if inside.contains_key(m) {
                assert(before.contains_key(m));
                let (i, k) = choose|i: int, k: nat|
                    0 <= i < p && k < takes(arrivals, window, i) && m == #[trigger] slot(
                        arrivals[i].member,
                        k,
                    );
                assert(m == slot(arrivals[i].member, k));
            } else {
                let k = choose|k: nat|
                    k < takes(arrivals, window, n - 1) && m == #[trigger] slot(a.member, k);
                assert(m == slot(arrivals[n - 1].member, k));
            }
        }
    }
}

/// What arrival `n` records is not in the log yet.
proof fn lemma_fresh_slots(arrivals: Seq<Arrival>, window: u64, n: nat)
    requires
        members_apart(arrivals),
        n < arrivals.len(),
        forall|m: Seq<char>| #[trigger]
            replay(arrivals, window, n).contains_key(m) ==> exists|i: int, k: nat|
                0 <= i < n && k < takes(arrivals, window, i) && m == #[trigger] slot(
                    arrivals[i].member,
                    k,
                ),
    ensures
        forall|k: nat|
            k < takes(arrivals, window, n as int) ==> !replay(arrivals, window, n).contains_key(
                #[trigger] slot(arrivals[n as int].member, k),
            ),
{
    assert forall|k: nat| k < takes(arrivals, window, n as int) implies !replay(
        arrivals,
        window,
        n,
    ).contains_key(#[trigger] slot(arrivals[n as int].member, k)) by {
        let m = slot(arrivals[n as int].member, k);
        if replay(arrivals, window, n).contains_key(m) {
            let (i, j) = choose|i: int, j: nat|
                0 <= i < n && j < takes(arrivals, window, i) && m == #[trigger] slot(
                    arrivals[i].member,
                    j,
                );
            assert(arrivals[i].member != arrivals[n as int].member);
            if one_by_one(arrivals) {
                assert(arrivals[i].batch_size <= 1 && arrivals[n as int].batch_size <= 1);
                assert(j == 0 && k == 0);
            } else {
                assert(!arrivals[i].member.contains(':'));
                assert(!arrivals[n as int].member.contains(':'));
                lemma_plain_slots_differ(arrivals[i].member, j, arrivals[n as int].member, k);
            }
        }
    }
}

/// The live part of a log has as many entries as were recorded in the window.
proof fn lemma_live_len(arrivals: Seq<Arrival>, window: u64, n: nat, t: u64)
    requires
        in_order(arrivals),
        members_apart(arrivals),
        n <= arrivals.len(),
        forall|i: int| 0 <= i < n ==> (#[trigger] arrivals[i]).now <= t,
    ensures
        live(replay(arrivals, window, n), t, window).dom().finite(),
        live(replay(arrivals, window, n), t, window).len() == taken_within(
            arrivals,
            window,
            n,
            t - window,
            t as int,
        ),
    decreases n,
{
    if n == 0 {
        assert(live(replay(arrivals, window, n), t, window) =~= Map::empty());
    } else {
        let p = (n - 1) as nat;
        let a = arrivals[n - 1];
        let before = replay(arrivals, window, p);
        let inside = live(before, a.now, window);
        let still = live(before, t, window);
        let count = takes(arrivals, window, n - 1);
        assert(a.now <= t);
        lemma_live_len(arrivals, window, p, t);
        lemma_replay_members(arrivals, window, p);
        lemma_fresh_slots(arrivals, window, p);
        lemma_live_finite(before, a.now, window);
        lemma_with_slots(inside, a.member, a.now, count);
        lemma_with_slots(still, a.member, a.now, count);
        let after = live(replay(arrivals, window, n), t, window);
        if a.now > t - window {
            assert(after =~= with_slots(still, a.member, a.now, count)) by {
                lemma_live_with_slots(before, window, a, t, count);
            }
        } else {
            assert(after =~= still) by {
                lemma_live_with_slots(before, window, a, t, count);
            }
        }
    }
}

/// Recording first and dropping what leaves the window afterwards comes to the
/// same as the other way round.
proof fn lemma_live_with_slots(
    log: Map<Seq<char>, u64>,
    window: u64,
    a: Arrival,
    t: u64,
    n: nat,
)
    requires
        a.now <= t,
        forall|k: nat| k < n ==> !log.contains_key(#[trigger] slot(a.member, k)),
    ensures
        live(with_slots(live(log, a.now, window), a.member, a.now, n), t, window) == if a.now > t
            - window {
            with_slots(live(log, t, window), a.member, a.now, n)
        } else {
            live(log, t, window)
        },
    decreases n,
{
    let left = live(with_slots(live(log, a.now, window), a.member, a.now, n), t, window);
    if n == 0 {
        assert(left =~= live(log, t, window));
    } else {
        let p = (n - 1) as nat;
        lemma_live_with_slots(log, window, a, t, p);
        let inner = live(with_slots(live(log, a.now, window), a.member, a.now, p), t, window);
        assert(!log.contains_key(slot(a.member, p)));
        if a.now > t - window {
            assert(left =~= inner.insert(slot(a.member, p), a.now));
        } else {
            assert(left =~= inner.remove(slot(a.member, p)));
            assert(!live(log, t, window).contains_key(slot(a.member, p)));
            assert(left =~= live(log, t, window));
        }
    }
}

/// A request passes exactly when fewer requests than its limit were recorded
/// within one window's length before it.
pub proof fn law_passes_while_below_limit(arrivals: Seq<Arrival>, window: u64, j: int)
    requires
        in_order(arrivals),
        members_apart(arrivals),
        0 <= j < arrivals.len(),
    ensures
        passes(arrivals, window, j) <==> taken_within(
            arrivals,
            window,
            j as nat,
            arrivals[j].now - window,
            arrivals[j].now as int,
        ) < arrivals[j].limit,
{
    lemma_live_len(arrivals, window, j as nat, arrivals[j].now);
}

/// A wider stretch of time holds no fewer requests.
proof fn lemma_taken_monotonic(
    arrivals: Seq<Arrival>,
    window: u64,
    n: nat,
    start: int,
    end: int,
    wider_start: int,
    wider_end: int,
)
    requires
        wider_start <= start,
        end <= wider_end,
    ensures
        taken_within(arrivals, window, n, start, end) <= taken_within(
            arrivals,
            window,
            n,
            wider_start,
            wider_end,
        ),
    decreases n,
{
    if n > 0 {
        lemma_taken_monotonic(
            arrivals,
            window,
            (n - 1) as nat,
            start,
            end,
            wider_start,
            wider_end,
        );
    }
}

/// A request is one of those that it records.
proof fn lemma_passed_are_taken(
    arrivals: Seq<Arrival>,
    window: u64,
    n: nat,
    start: int,
    end: int,
)
    ensures
        passed_within(arrivals, window, n, start, end) <= taken_within(
            arrivals,
            window,
            n,
            start,
            end,
        ),
        one_by_one(arrivals) && n <= arrivals.len() ==> passed_within(
            arrivals,
            window,
            n,
            start,
            end,
        ) == taken_within(arrivals, window, n, start, end),
    decreases n,
{
    if n > 0 {
        lemma_passed_are_taken(arrivals, window, (n - 1) as nat, start, end);
        if one_by_one(arrivals) && n <= arrivals.len() {
            assert(arrivals[n - 1].batch_size <= 1);
        }
    }
}

/// No burst at a window boundary: whatever stretch of one window's length is
/// looked at, no more requests are recorded in it than the limit, and so no more
/// pass. Requests come in the order of their times and do not share members.
pub proof fn law_no_window_exceeds_limit(
    arrivals: Seq<Arrival>,
    window: u64,
    limit: u64,
    n: nat,
    end: int,
)
    requires
        in_order(arrivals),
        members_apart(arrivals),
        n <= arrivals.len(),
        forall|i: int| 0 <= i < arrivals.len() ==> (#[trigger] arrivals[i]).limit <= limit,
    ensures
        taken_within(arrivals, window, n, end - window, end) <= limit,
        passed_within(arrivals, window, n, end - window, end) <= limit,
    decreases n,
{
    lemma_passed_are_taken(arrivals, window, n, end - window, end);
    if n > 0 {
        let p = (n - 1) as nat;
        let a = arrivals[n - 1];
        law_no_window_exceeds_limit(arrivals, window, limit, p, end);
        if passes(arrivals, window, n - 1) && end - window < a.now && a.now <= end {
            lemma_live_len(arrivals, window, p, a.now);
            lemma_taken_to_now(arrivals, window, p, end - window, end, a.now);
            lemma_taken_monotonic(
                arrivals,
                window,
                p,
                end - window,
                a.now as int,
                a.now - window,
                a.now as int,
            );
            assert(a.limit <= limit);
        }
    }
}

/// What was recorded so far was recorded by now.
proof fn lemma_taken_to_now(
    arrivals: Seq<Arrival>,
    window: u64,
    n: nat,
    start: int,
    end: int,
    now: u64,
)
    requires
        n <= arrivals.len(),
        now <= end,
        forall|i: int| 0 <= i < n ==> (#[trigger] arrivals[i]).now <= now,
    ensures
        taken_within(arrivals, window, n, start, end) == taken_within(
            arrivals,
            window,
            n,
            start,
            now as int,
        ),
    decreases n,
{
    if n > 0 {
        lemma_taken_to_now(arrivals, window, (n - 1) as nat, start, end, now);
        assert(arrivals[n - 1].now <= now);
    }
}

/// With one limit for all, and no batches, a request is turned away exactly when
/// `limit` requests passed within one window's length before it.
pub proof fn law_denied_exactly_when_full(
    arrivals: Seq<Arrival>,
    window: u64,
    limit: u64,
    j: int,
)
    requires
        in_order(arrivals),
        own_members(arrivals),
        one_by_one(arrivals),
        forall|i: int| 0 <= i < arrivals.len() ==> (#[trigger] arrivals[i]).limit == limit,
        0 <= j < arrivals.len(),
    ensures
        !passes(arrivals, window, j) <==> passed_within(
            arrivals,
            window,
            j as nat,
            arrivals[j].now - window,
            arrivals[j].now as int,
        ) == limit,
{
    let now = arrivals[j].now;
    law_passes_while_below_limit(arrivals, window, j);
    lemma_passed_are_taken(arrivals, window, j as nat, now - window, now as int);
    law_no_window_exceeds_limit(arrivals, window, limit, j as nat, now as int);
    assert(arrivals[j].limit == limit);
}

/// A log with an entry has a lowest score.
proof fn lemma_oldest_exists(log: Map<Seq<char>, u64>)
    requires
        log.dom().finite(),
        !log.dom().is_empty(),
    ensures
        is_oldest(log, oldest(log)),
    decreases log.dom().len(),
{
    let m = log.dom().choose();
    let rest = log.remove(m);
    let s = if rest.dom().is_empty() || log[m] <= oldest(rest) {
        log[m]
    } else {
        oldest(rest)
    };
    if rest.dom().is_empty() {
        assert forall|n: Seq<char>| #[trigger] log.contains_key(n) implies s <= log[n] by {
            assert(n == m || rest.dom().contains(n));
        }
        assert(log.contains_key(m));
    } else {
        lemma_oldest_exists(rest);
        let k = choose|k: Seq<char>| #[trigger] rest.contains_key(k) && rest[k] == oldest(rest);
        assert(log.contains_key(m) && log.contains_key(k));
        assert forall|n: Seq<char>| #[trigger] log.contains_key(n) implies s <= log[n] by {
            assert(n == m || rest.contains_key(n));
        }
    }
    assert(is_oldest(log, s));
}

/// The live part of a finite log is finite, and no larger.
pub proof fn lemma_live_finite(log: Map<Seq<char>, u64>, now: u64, window: u64)
    requires
        log.dom().finite(),
    ensures
        live(log, now, window).dom().finite(),
        live(log, now, window).len() <= log.len(),
{
    lemma_len_subset(live(log, now, window).dom(), log.dom());
}

/// A request that is turned away leaves no trace: every later request finds
/// the window as if it had never come.
pub proof fn law_denied_request_leaves_no_trace(
    log: Map<Seq<char>, u64>,
    window: u64,
    denied: Arrival,
    later: Arrival,
)
    requires
        !admits(log, denied.now, window, denied.limit),
        denied.now <= later.now,
    ensures
        ({
            let left = log_after(log, window, denied);
            &&& log_after(left, window, later) == log_after(log, window, later)
            &&& taken(left, window, later) == taken(log, window, later)
            &&& reply_count(left, later.now, window, later.limit) == reply_count(
                log,
                later.now,
                window,
                later.limit,
            )
            &&& reply_oldest(left, window, later) == reply_oldest(log, window, later)
        }),
{
    let left = log_after(log, window, denied);
    assert(live(left, later.now, window) =~= live(log, later.now, window));
}

/// What is recorded at `now` is inside a window that ends then, unless the
/// window has no length.
proof fn lemma_log_after_is_live(log: Map<Seq<char>, u64>, window: u64, a: Arrival, n: nat)
    requires
        window > 0 || n == 0,
    ensures
        live(with_slots(live(log, a.now, window), a.member, a.now, n), a.now, window)
            == with_slots(live(log, a.now, window), a.member, a.now, n),
    decreases n,
{
    let inside = live(log, a.now, window);
    if n == 0 {
        assert(live(inside, a.now, window) =~= inside);
    } else {
        let p = (n - 1) as nat;
        lemma_log_after_is_live(log, window, a, p);
        let before = with_slots(inside, a.member, a.now, p);
        let after = with_slots(inside, a.member, a.now, n);
        assert forall|m: Seq<char>| #[trigger] after.contains_key(m) implies after[m] > a.now
            - window by {
            if m != slot(a.member, p) {
                assert(live(before, a.now, window).contains_key(m));
            }
        }
        assert(live(after, a.now, window) =~= after);
    }
}

/// A log to which finitely much is added stays finite.
proof fn lemma_with_slots_finite(log: Map<Seq<char>, u64>, member: Seq<char>, now: u64, n: nat)
    requires
        log.dom().finite(),
    ensures
        with_slots(log, member, now, n).dom().finite(),
    decreases n,
{
    if n > 0 {
        lemma_with_slots_finite(log, member, now, (n - 1) as nat);
    }
}

/// A request that finds the window full, or fills it, is told when a place comes
/// free: until the reported oldest request leaves the window every further
/// request is turned away, and once it has left, with no more than `limit`
/// requests in the window before, the next request passes.
pub proof fn law_place_comes_free_with_oldest(
    log: Map<Seq<char>, u64>,
    window: u64,
    a: Arrival,
    later: u64,
)
    requires
        log.dom().finite(),
        window > 0 || !admits(log, a.now, window, a.limit),
        log_after(log, window, a).len() >= a.limit,
        a.limit >= 1,
        a.now <= later,
    ensures
        ({
            let full = log_after(log, window, a);
            let leaves_at = reply_oldest(log, window, a) + window;
            &&& later < leaves_at ==> !admits(full, later, window, a.limit)
            &&& later >= leaves_at && full.len() == a.limit ==> admits(
                full,
                later,
                window,
                a.limit,
            )
        }),
{
    let full = log_after(log, window, a);
    lemma_live_finite(log, a.now, window);
    lemma_with_slots_finite(
        live(log, a.now, window),
        a.member,
        a.now,
        taken(log, window, a),
    );
    lemma_log_after_is_live(log, window, a, taken(log, window, a));
    assert(!full.dom().is_empty());
    lemma_oldest_exists(full);
    let s = oldest(full);
    let still = live(full, later, window);
    if later < s + window {
        assert(still =~= full);
    } else {
        let m = choose|m: Seq<char>| #[trigger] full.contains_key(m) && full[m] == s;
        assert(full.dom().contains(m));
        lemma_len_subset(still.dom(), full.dom().remove(m));
    }
}

/// The reply tells whether the request may pass, whatever the limit and the
/// times: its first number is zero exactly when it may not. No more is recorded
/// than the limit.
pub proof fn law_reply_tells_admission(log: Map<Seq<char>, u64>, window: u64, a: Arrival)
    ensures
        taken(log, window, a) > 0 <==> admits(log, a.now, window, a.limit),
        taken(log, window, a) <= a.limit,
{
}

/// The reply counts what the window holds after the request, up to what was
/// reserved beside it, and the window holds no more than the limit if the
/// request passes. The request does not share its members.
pub proof fn law_reply_counts_window(log: Map<Seq<char>, u64>, window: u64, a: Arrival)
    requires
        log.dom().finite(),
        forall|k: nat| !log.contains_key(#[trigger] slot(a.member, k)),
    ensures
        ({
            let after = log_after(log, window, a);
            let n = taken(log, window, a);
            &&& after.dom().finite()
            &&& n == 0 ==> after.len() == reply_count(log, a.now, window, a.limit)
            &&& n > 0 ==> after.len() == reply_count(log, a.now, window, a.limit) + n - 1
            &&& n > 0 ==> after.len() <= a.limit && after.contains_key(a.member)
            &&& n == 0 ==> !after.contains_key(a.member)
        }),
{
    let inside = live(log, a.now, window);
    lemma_live_finite(log, a.now, window);
    lemma_with_slots(inside, a.member, a.now, taken(log, window, a));
    assert(slot(a.member, 0) == a.member);
    if taken(log, window, a) > 0 {
        assert(log_after(log, window, a).contains_key(slot(a.member, 0)));
    } else {
        assert(!log.contains_key(slot(a.member, 0)));
    }
}

/// A key may be dropped one second after a window's length without a recorded
/// request: by then nothing that it holds is inside the window, so the next
/// request finds what it would find in an empty log.
pub proof fn law_idle_key_holds_nothing_live(
    log: Map<Seq<char>, u64>,
    last: u64,
    window_ms: u64,
    window: u64,
    a: Arrival,
)
    requires
        forall|m: Seq<char>| #[trigger] log.contains_key(m) ==> log[m] <= last,
        window == window_ms * 1_000,
        a.now >= last + (window_ms + 1_000) * 1_000,
    ensures
        log_after(log, window, a) == log_after(Map::empty(), window, a),
        taken(log, window, a) == taken(Map::empty(), window, a),
        reply_count(log, a.now, window, a.limit) == reply_count(
            Map::empty(),
            a.now,
            window,
            a.limit,
        ),
        reply_oldest(log, window, a) == reply_oldest(Map::empty(), window, a),
{
    assert(live(log, a.now, window) =~= live(Map::empty(), a.now, window));
}

/// The first request after a reset passes, and is the only one counted, unless
/// the limit is zero.
pub proof fn law_reset_starts_over(window: u64, a: Arrival)
    ensures
        admits(Map::empty(), a.now, window, a.limit) <==> a.limit > 0,
        a.limit > 0 ==> reply_count(Map::empty(), a.now, window, a.limit) == 1,
{
    assert(live(Map::empty(), a.now, window) =~= Map::empty());
}

/// What a run of the rule is asked is what the call holds.
pub proof fn law_arrival_is_the_call(call: ScriptCall)
    ensures
        call.arrival().now == call.now_us,
        call.arrival().limit == call.limit,
        call.arrival().batch_size == call.batch_size,
        call.arrival().member == call.member@,
{
}

/// A request is inside the window exactly as long as less than the window's
/// length has passed since it was made. Nothing else changes about it.
pub proof fn law_window_holds_what_is_recent(
    log: Map<Seq<char>, u64>,
    now: u64,
    window: u64,
    m: Seq<char>,
)
    ensures
        live(log, now, window).contains_key(m) <==> log.contains_key(m) && log[m] + window > now,
        live(log, now, window).contains_key(m) ==> live(log, now, window)[m] == log[m],
{
}

/// The oldest score is one that a request has, and no request has a lower one.
/// Without requests it is zero.
pub proof fn law_oldest_is_the_lowest(log: Map<Seq<char>, u64>)
    requires
        log.dom().finite(),
    ensures
        forall|m: Seq<char>| #[trigger] log.contains_key(m) ==> oldest(log) <= log[m],
        (exists|m: Seq<char>| #[trigger] log.contains_key(m)) ==> exists|m: Seq<char>| #[trigger]
            log.contains_key(m) && log[m] == oldest(log),
        (forall|m: Seq<char>| !#[trigger] log.contains_key(m)) ==> oldest(log) == 0,
{
    if exists|m: Seq<char>| #[trigger] log.contains_key(m) {
        let m = choose|m: Seq<char>| #[trigger] log.contains_key(m);
        assert(log.dom().contains(m));
        lemma_oldest_exists(log);
    } else {
        assert(log.dom() =~= Set::empty());
    }
}

/// A request passes exactly when fewer requests than its limit were made less
/// than a window's length ago. The reply counts those, and the request if it
/// passes.
pub proof fn law_admission_counts_what_is_recent(
    log: Map<Seq<char>, u64>,
    now: u64,
    window: u64,
    limit: u64,
)
    requires
        log.dom().finite(),
    ensures
        ({
            let recent = log.dom().filter(|m: Seq<char>| log[m] + window > now).len();
            &&& admits(log, now, window, limit) <==> recent < limit
            &&& recent < limit ==> reply_count(log, now, window, limit) == recent + 1
            &&& recent >= limit ==> reply_count(log, now, window, limit) == recent
        }),
{
    let recent = log.dom().filter(|m: Seq<char>| log[m] + window > now);
    assert(live(log, now, window).dom() =~= recent);
}

/// A batch is as large as it may be. A request that passes is recorded; with it
/// the smaller of a batch and what it leaves of its limit, if there is as much,
/// is recorded in all. A request that does not pass records nothing.
pub proof fn law_batch_is_as_large_as_it_may_be(log: Map<Seq<char>, u64>, window: u64, a: Arrival)
    requires
        log.dom().finite(),
    ensures
        ({
            let recent = log.dom().filter(|m: Seq<char>| log[m] + window > a.now).len();
            let left = a.limit - recent - 1;
            let n = taken(log, window, a);
            &&& recent >= a.limit ==> n == 0
            &&& recent < a.limit && (left == 0 || a.batch_size == 0) ==> n == 1
            &&& recent < a.limit && left >= 1 && a.batch_size >= 1 ==> {
                &&& n <= left
                &&& n <= a.batch_size
                &&& n == left || n == a.batch_size
            }
        }),
{
    let recent = log.dom().filter(|m: Seq<char>| log[m] + window > a.now);
    assert(live(log, a.now, window).dom() =~= recent);
    crate::limiter::law_share_is_as_large_as_it_may_be(
        (a.limit - recent.len() - 1) as u64,
        a.batch_size,
    );
}

/// The first request of a batch has the member of the batch; request number `i`
/// has that member, a colon and the numeral of `i`.
pub proof fn law_slots_are_numbered(member: Seq<char>, i: nat)
    ensures
        slot(member, 0) == member,
        i > 0 ==> slot(member, i) == member + seq![':'] + crate::text::decimal(i),
{
}

/// The log after a request holds what was inside the window, unchanged, and what
/// the request took, at its time, and nothing else.
pub proof fn law_log_after_holds_old_and_new(
    log: Map<Seq<char>, u64>,
    window: u64,
    a: Arrival,
    m: Seq<char>,
)
    ensures
        ({
            let after = log_after(log, window, a);
            let n = taken(log, window, a);
            let new = exists|i: nat| i < n && m == #[trigger] slot(a.member, i);
            &&& after.contains_key(m) <==> new || log.contains_key(m) && log[m] + window > a.now
            &&& new ==> after[m] == a.now
            &&& !new && after.contains_key(m) ==> after[m] == log[m]
        }),
{
    lemma_with_slots_holds(live(log, a.now, window), a.member, a.now, taken(log, window, a), m);
}

/// Recording slots sets them to the time, and leaves the rest alone.
proof fn lemma_with_slots_holds(
    log: Map<Seq<char>, u64>,
    member: Seq<char>,
    now: u64,
    n: nat,
    m: Seq<char>,
)
    ensures
        ({
            let after = with_slots(log, member, now, n);
            let new = exists|i: nat| i < n && m == #[trigger] slot(member, i);
            &&& after.contains_key(m) <==> new || log.contains_key(m)
            &&& new ==> after[m] == now
            &&& !new && after.contains_key(m) ==> after[m] == log[m]
        }),
    decreases n,
{
    if n > 0 {
        let p = (n - 1) as nat;
        lemma_with_slots_holds(log, member, now, p, m);
        if exists|i: nat| i < p && m == #[trigger] slot(member, i) {
            let i = choose|i: nat| i < p && m == #[trigger] slot(member, i);
            assert(i < n && m == slot(member, i));
        }
        if exists|i: nat| i < n && m == #[trigger] slot(member, i) {
            let i = choose|i: nat| i < n && m == #[trigger] slot(member, i);
            if i < p {
                assert(exists|k: nat| k < p && m == #[trigger] slot(member, k));
            }
        }
    }
}

/// The oldest score of a reply is the lowest one in the log that the request
/// leaves, or zero if that log is empty.
pub proof fn law_reply_names_the_oldest(log: Map<Seq<char>, u64>, window: u64, a: Arrival)
    requires
        log.dom().finite(),
    ensures
        ({
            let after = log_after(log, window, a);
            let s = reply_oldest(log, window, a);
            &&& forall|m: Seq<char>| #[trigger] after.contains_key(m) ==> s <= after[m]
            &&& after.dom().len() > 0 ==> exists|m: Seq<char>| #[trigger]
                after.contains_key(m) && after[m] == s
            &&& after.dom().len() == 0 ==> s == 0
        }),
{
    let after = log_after(log, window, a);
    lemma_live_finite(log, a.now, window);
    lemma_with_slots_finite(live(log, a.now, window), a.member, a.now, taken(log, window, a));
    law_oldest_is_the_lowest(after);
    if after.dom().len() > 0 {
        let m = after.dom().choose();
        assert(after.contains_key(m));
    } else {
        assert(after.dom() =~= Set::empty());
    }
}

/// The script, word for word. That its steps are those of
/// [`SlidingWindow::apply`] is for the reader to see.
pub proof fn law_script_is_this_text()
    ensures
        SLIDING_WINDOW_LUA@ == r#"
local key       = KEYS[1]
local now       = tonumber(ARGV[1])
local window    = tonumber(ARGV[2])
local limit     = tonumber(ARGV[3])
local member    = ARGV[4]
local ttl_ms    = tonumber(ARGV[5])
local batch     = tonumber(ARGV[6])
local cutoff    = now - window

-- Score of the oldest entry, or zero
local function oldest_score()
    local oldest = redis.call('ZRANGE', key, 0, 0, 'WITHSCORES')
    if #oldest > 0 then
        return tonumber(oldest[2])
    end
    return 0
end

-- Remove expired entries
redis.call('ZREMRANGEBYSCORE', key, '-inf', cutoff)

-- Count current window
local count = redis.call('ZCARD', key)

if count < limit then
    -- Allow: record this request, and reserve what the batch may have
    local remaining = limit - count - 1
    local extra = math.max(math.min(remaining, batch) - 1, 0)
    redis.call('ZADD', key, now, member)
    for i = 1, extra do
        redis.call('ZADD', key, now, member .. ':' .. i)
    end
    redis.call('PEXPIRE', key, ttl_ms)
    return {extra + 1, count + 1, oldest_score()}
else
    -- Denied: the oldest entry tells the caller how long to wait
    return {0, count, oldest_score()}
end
"#@,
{
}

} // verus!
