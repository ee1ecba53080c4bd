//! Local-cache layer in front of a slower limiter.
//!
//! Each key has a bucket of tokens. When the backend is asked, it records the
//! request and with it, up to a batch in all, further ones, which fill the
//! bucket. While tokens are left and have not expired, requests are answered
//! from the bucket; otherwise the backend is asked again.
//!
//! Requests that find the backend being asked already ask it too, but reserve
//! nothing: a key has one reservation under way at a time. A token may be used
//! up to one window's length after it was reserved, when the backend no longer
//! counts it. A node can thereby allow up to a batch of requests beyond the
//! limit.

use std::sync::Arc;

use dashmap::DashMap;
use vstd::prelude::*;

use crate::error::RateLimiterError;
use crate::limiter::{share_of, Decision, Reservation};

verus! {

/// The tokens of one key.
#[derive(Debug, Clone, Copy)]
pub struct LocalBucket {
    /// Requests that may still be answered locally.
    pub tokens: u64,
    /// Reading of the monotonic clock, in nanoseconds, from which the tokens
    /// are worth nothing.
    pub expires_at_ns: u128,
    /// The limit of the key at its last fill.
    pub limit: u64,
    /// The window of the key at its last fill.
    pub window_ms: u64,
}

/// What the cache knows of one key.
#[derive(Debug, Clone, Copy)]
pub enum Slot {
    /// Tokens that were reserved.
    Filled(LocalBucket),
    /// A reservation is under way.
    Reserving {
        /// The number of the request that asked for it.
        ticket: u64,
        /// Reading of the monotonic clock, in nanoseconds, from which its answer
        /// is no longer waited for.
        until_ns: u128,
    },
}

/// Whether a request at `now_ns` can be answered from `bucket`.
pub open spec fn usable(bucket: LocalBucket, now_ns: u64) -> bool {
    bucket.tokens > 0 && bucket.expires_at_ns > now_ns
}

/// `bucket` with one token less.
pub open spec fn spend(bucket: LocalBucket) -> LocalBucket {
    LocalBucket { tokens: (bucket.tokens - 1) as u64, ..bucket }
}

/// Tokens that a cache takes from a reservation: no more than were reserved, and
/// no more than its share of what the decision leaves.
pub open spec fn granted(reservation: Reservation, batch_size: u64) -> u64 {
    let share = crate::limiter::share(reservation.decision.remaining, batch_size);
    if reservation.tokens <= share {
        reservation.tokens
    } else {
        share
    }
}

/// The bucket filled at `now_ns`, to last for one window.
pub open spec fn filled(
    reservation: Reservation,
    batch_size: u64,
    limit: u64,
    window_ms: u64,
    now_ns: u64,
) -> LocalBucket {
    LocalBucket {
        tokens: granted(reservation, batch_size),
        expires_at_ns: (now_ns + window_ms * 1_000_000) as u128,
        limit,
        window_ms,
    }
}

/// Whether a request for `key` at `now_ns` can be answered from `slots`.
pub open spec fn can_answer(slots: Map<Seq<char>, Slot>, key: Seq<char>, now_ns: u64) -> bool {
    slots.contains_key(key) && match slots[key] {
        Slot::Filled(bucket) => usable(bucket, now_ns),
        Slot::Reserving { .. } => false,
    }
}

/// Whether a reservation for `key` is under way at `now_ns`.
pub open spec fn is_reserving(slots: Map<Seq<char>, Slot>, key: Seq<char>, now_ns: u64) -> bool {
    slots.contains_key(key) && match slots[key] {
        Slot::Filled(_) => false,
        Slot::Reserving { until_ns, .. } => until_ns > now_ns,
    }
}

/// Whether a request for `key` at `now_ns` that has to ask the backend reserves
/// a batch.
pub open spec fn may_reserve(
    slots: Map<Seq<char>, Slot>,
    batch_size: u64,
    key: Seq<char>,
    now_ns: u64,
) -> bool {
    batch_size > 1 && !is_reserving(slots, key, now_ns)
}

/// `slots` after the first step of a check: a token is spent, or a reservation
/// gets under way, or the backend is asked without one.
pub open spec fn after_check(
    slots: Map<Seq<char>, Slot>,
    batch_size: u64,
    key: Seq<char>,
    window_ms: u64,
    now_ns: u64,
    ticket: u64,
) -> Map<Seq<char>, Slot> {
    if can_answer(slots, key, now_ns) {
        slots.insert(key, Slot::Filled(spend(slots[key]->Filled_0)))
    } else if may_reserve(slots, batch_size, key, now_ns) {
        let until_ns = (now_ns + window_ms * 1_000_000) as u128;
        slots.insert(key, Slot::Reserving { ticket, until_ns })
    } else {
        slots
    }
}

/// Whether the answer to `ticket` is waited for.
pub open spec fn awaits(slots: Map<Seq<char>, Slot>, key: Seq<char>, ticket: Option<u64>) -> bool {
    match ticket {
        Some(t) => slots.contains_key(key) && match slots[key] {
            Slot::Filled(_) => false,
            Slot::Reserving { ticket, .. } => ticket == t,
        },
        None => false,
    }
}

/// `slots` after the second step of a check. If the answer is waited for, what
/// it reserves fills the bucket; without a reservation the key is forgotten.
pub open spec fn after_answer(
    slots: Map<Seq<char>, Slot>,
    batch_size: u64,
    key: Seq<char>,
    ticket: Option<u64>,
    reservation: Option<Reservation>,
    limit: u64,
    window_ms: u64,
    now_ns: u64,
) -> Map<Seq<char>, Slot> {
    if awaits(slots, key, ticket) {
        match reservation {
            Some(r) => slots.insert(
                key,
                Slot::Filled(filled(r, batch_size, limit, window_ms, now_ns)),
            ),
            None => slots.remove(key),
        }
    } else {
        slots
    }
}

/// The decision on a request for `limit` that spends a token of `bucket`: the
/// count is what `limit` leaves of the tokens that stay.
pub open spec fn local_decision(bucket: LocalBucket, limit: u64) -> Decision {
    crate::limiter::allowing((limit - (bucket.tokens - 1)) as u64, limit, 0)
}

/// Whether `slot` holds fewer tokens than a batch, or none.
pub open spec fn holds_less_than(slot: Slot, batch_size: u64) -> bool {
    match slot {
        Slot::Filled(bucket) => bucket.tokens == 0 || bucket.tokens < batch_size,
        Slot::Reserving { .. } => true,
    }
}

/// The `dashmap` crate's concurrent map.
#[verifier::external_type_specification]
#[verifier::external_body]
#[verifier::reject_recursive_types(K)]
#[verifier::reject_recursive_types(V)]
#[verifier::reject_recursive_types(S)]
pub struct ExDashMap<K, V, S>(DashMap<K, V, S>);

/// What a map of slots holds.
pub uninterp spec fn slot_contents(slots: DashMap<String, Slot>) -> Map<Seq<char>, Slot>;

/// `DashMap::new`: a map that holds nothing.
#[verifier::external_body]
fn no_slots() -> (slots: DashMap<String, Slot>)
    ensures
        slot_contents(slots).dom().is_empty(),
{
    DashMap::new()
}

/// `DashMap::get`: a copy of what the map holds for `key`, if it holds
/// something.
#[verifier::external_body]
fn get_slot(slots: &DashMap<String, Slot>, key: &str) -> (found: Option<Slot>)
    ensures
        found is Some <==> slot_contents(*slots).contains_key(key@),
        found matches Some(slot) ==> slot == slot_contents(*slots)[key@],
{
    slots.get(key).map(|slot| *slot.value())
}

/// `DashMap::insert`: the map holds `slot` for `key`, in place of what it held
/// for it before; the rest of the map stays as it is. The map is held
/// exclusively, so no other thread changes it during the call.
#[verifier::external_body]
fn put_slot(slots: &mut DashMap<String, Slot>, key: &str, slot: Slot)
    ensures
        slot_contents(*final(slots)) == slot_contents(*old(slots)).insert(key@, slot),
{
    slots.insert(key.to_string(), slot);
}

/// `DashMap::remove`: the map holds nothing for `key`; the rest of the map
/// stays as it is. The map is held exclusively, so no other thread changes it
/// during the call.
#[verifier::external_body]
fn remove_slot(slots: &mut DashMap<String, Slot>, key: &str)
    ensures
        slot_contents(*final(slots)) == slot_contents(*old(slots)).remove(key@),
{
    slots.remove(key);
}

/// What the backend is asked for.
#[derive(Debug)]
pub struct Ask {
    /// The key of the request.
    pub key: String,
    /// The limit of the request.
    pub limit: u64,
    /// The window of the request, in milliseconds.
    pub window_ms: u64,
    /// Most requests to record at once, or zero to reserve nothing.
    pub batch_size: u64,
    /// The number of the request, if it reserves.
    pub ticket: Option<u64>,
}

/// First step of a check.
#[derive(Debug)]
pub enum LocalStep {
    /// The request is answered.
    Answer(Decision),
    /// The backend has to be asked.
    AskBackend(Ask),
}

/// A limiter with a local cache in front.
///
/// A check runs in two steps. [`check_local`](Self::check_local) answers from
/// the cache if it can. If it cannot, the caller asks the backend and hands the
/// answer to [`check_backend`](Self::check_backend), which fills the cache.
pub struct LocalCachedLimiter<B> {
    backend: Arc<B>,
    /// How many requests to reserve at once.
    batch_size: u64,
    /// What is known of each rate limit key.
    slots: DashMap<String, Slot>,
}

impl<B> LocalCachedLimiter<B> {
    /// The limiter behind the cache.
    pub closed spec fn source(&self) -> Arc<B> {
        self.backend
    }

    /// The batch size.
    pub closed spec fn batch(&self) -> u64 {
        self.batch_size
    }

    /// What is known of each key.
    pub closed spec fn slots(&self) -> Map<Seq<char>, Slot> {
        slot_contents(self.slots)
    }

    /// No bucket holds a whole batch.
    pub open spec fn within_batch(&self) -> bool {
        forall|k: Seq<char>| #[trigger]
            self.slots().contains_key(k) ==> holds_less_than(self.slots()[k], self.batch())
    }

    /// Wraps `backend` with a local cache that reserves up to `batch_size`
    /// requests at once.
    pub fn new(backend: B, batch_size: u64) -> (c: Self)
        ensures
            *c.source() == backend,
            c.batch() == batch_size,
            c.slots() == Map::<Seq<char>, Slot>::empty(),
            c.within_batch(),
    {
        let slots = no_slots();
        assert(slot_contents(slots) =~= Map::<Seq<char>, Slot>::empty());
        Self { backend: Arc::new(backend), batch_size, slots }
    }

    /// The limiter behind the cache.
    pub fn backend(&self) -> (b: &Arc<B>)
        ensures
            *b == self.source(),
    {
        &self.backend
    }

    /// How many requests for `key` the cache can answer at `now_ns`.
    pub fn local_tokens(&self, key: &str, now_ns: u64) -> (n: u64)
        ensures
            n == if can_answer(self.slots(), key@, now_ns) {
                self.slots()[key@]->Filled_0.tokens
            } else {
                0
            },
    {
        match get_slot(&self.slots, key) {
            Some(Slot::Filled(bucket)) => if bucket.expires_at_ns > now_ns as u128 {
                bucket.tokens
            } else {
                0
            },
            _ => 0,
        }
    }

    /// First step of a check by the request with number `ticket`: answers from
    /// the cache, if there is a token for `key` that has not expired, or says
    /// what to ask the backend for. The count is what `limit` leaves of the
    /// tokens, so `limit` must not be below the tokens that stay.
    pub fn check_local(
        &mut self,
        key: &str,
        limit: u64,
        window_ms: u64,
        now_ns: u64,
        ticket: u64,
    ) -> (step: LocalStep)
        requires
            can_answer(old(self).slots(), key@, now_ns) ==> old(
                self,
            ).slots()[key@]->Filled_0.tokens - 1 <= limit,
        ensures
            match step {
                LocalStep::Answer(d) => {
                    &&& can_answer(old(self).slots(), key@, now_ns)
                    &&& d == local_decision(old(self).slots()[key@]->Filled_0, limit)
                },
                LocalStep::AskBackend(ask) => {
                    &&& !can_answer(old(self).slots(), key@, now_ns)
                    &&& ask.key@ == key@
                    &&& ask.limit == limit
                    &&& ask.window_ms == window_ms
                    &&& may_reserve(old(self).slots(), old(self).batch(), key@, now_ns)
                        ==> ask.batch_size == old(self).batch() && ask.ticket == Some(ticket)
                    &&& !may_reserve(old(self).slots(), old(self).batch(), key@, now_ns)
                        ==> ask.batch_size == 0 && ask.ticket is None
                },
            },
            final(self).slots() == after_check(
                old(self).slots(),
                old(self).batch(),
                key@,
                window_ms,
                now_ns,
                ticket,
            ),
            final(self).batch() == old(self).batch(),
            final(self).source() == old(self).source(),
            old(self).within_batch() ==> final(self).within_batch(),
    {
        let mut reserves = self.batch_size > 1;
        match get_slot(&self.slots, key) {
            Some(Slot::Filled(bucket)) => {
                if bucket.tokens > 0 && bucket.expires_at_ns > now_ns as u128 {
                    let tokens: u64 = bucket.tokens - 1;
                    put_slot(
                        &mut self.slots,
                        key,
                        Slot::Filled(LocalBucket { tokens, ..bucket }),
                    );
                    let approx_count: u64 = limit - tokens;
                    return LocalStep::Answer(Decision::allowed(approx_count, limit, 0));
                }
            },
            Some(Slot::Reserving { until_ns, .. }) => {
                if until_ns > now_ns as u128 {
                    reserves = false;
                }
            },
            None => {},
        }
        let mut ask = Ask { key: key.to_string(), limit, window_ms, batch_size: 0, ticket: None };
        if reserves {
            let until_ns: u128 = now_ns as u128 + window_ms as u128 * 1_000_000;
            put_slot(&mut self.slots, key, Slot::Reserving { ticket, until_ns });
            ask.batch_size = self.batch_size;
            ask.ticket = Some(ticket);
        }
        LocalStep::AskBackend(ask)
    }

    /// Second step of a check: takes the backend's answer to `ask` and passes
    /// the decision on. A reservation that is waited for fills the bucket of the
    /// key; any other answer leaves no tokens and takes none away.
    pub fn check_backend(
        &mut self,
        ask: Ask,
        answer: Result<Reservation, RateLimiterError>,
        now_ns: u64,
    ) -> (r: Result<Decision, RateLimiterError>)
        ensures
            r == match answer {
                Ok(reservation) => Ok(reservation.decision),
                Err(e) => Err(e),
            },
            final(self).slots() == after_answer(
                old(self).slots(),
                old(self).batch(),
                ask.key@,
                ask.ticket,
                answer.ok(),
                ask.limit,
                ask.window_ms,
                now_ns,
            ),
            final(self).batch() == old(self).batch(),
            final(self).source() == old(self).source(),
            old(self).within_batch() ==> final(self).within_batch(),
    {
        let awaited: bool = match (ask.ticket, get_slot(&self.slots, ask.key.as_str())) {
            (Some(asked), Some(Slot::Reserving { ticket, .. })) => ticket == asked,
            _ => false,
        };
        match answer {
            Ok(reservation) => {
                if awaited {
                    let share: u64 = share_of(reservation.decision.remaining, self.batch_size);
                    let bucket = LocalBucket {
                        tokens: if reservation.tokens <= share {
                            reservation.tokens
                        } else {
                            share
                        },
                        expires_at_ns: now_ns as u128 + ask.window_ms as u128 * 1_000_000,
                        limit: ask.limit,
                        window_ms: ask.window_ms,
                    };
                    put_slot(&mut self.slots, ask.key.as_str(), Slot::Filled(bucket));
                    assert forall|k: Seq<char>| #[trigger]
                        self.slots().contains_key(k) && old(
                            self,
                        ).within_batch() implies holds_less_than(
                        self.slots()[k],
                        self.batch(),
                    ) by {
                        assert(k == ask.key@ || old(self).slots().contains_key(k));
                    }
                }
                Ok(reservation.decision)
            },
            Err(e) => {
                if awaited {
                    remove_slot(&mut self.slots, ask.key.as_str());
                }
                Err(e)
            },
        }
    }

    /// Forgets the tokens of `key`, and the reservation that is under way for
    /// it.
    pub fn reset_local(&mut self, key: &str)
        ensures
            final(self).slots() == old(self).slots().remove(key@),
            final(self).batch() == old(self).batch(),
            final(self).source() == old(self).source(),
            old(self).within_batch() ==> final(self).within_batch(),
    {
        remove_slot(&mut self.slots, key);
    }
}

/// What happens to a cache: a check, with the answer that the backend gives if
/// it is asked, or a reset.
pub enum CacheEvent {
    Check {
        key: Seq<char>,
        limit: u64,
        window_ms: u64,
        now_ns: u64,
        ticket: u64,
        answer: Result<Reservation, RateLimiterError>,
        answered_at_ns: u64,
    },
    Reset { key: Seq<char> },
}

impl CacheEvent {
    /// The key that the event is about.
    pub open spec fn about(self) -> Seq<char> {
        match self {
            CacheEvent::Check { key, .. } => key,
            CacheEvent::Reset { key } => key,
        }
    }
}

/// `slots` after `event`.
pub open spec fn after_event(
    slots: Map<Seq<char>, Slot>,
    batch_size: u64,
    event: CacheEvent,
) -> Map<Seq<char>, Slot> {
    match event {
        CacheEvent::Check { key, limit, window_ms, now_ns, ticket, answer, answered_at_ns } => {
            let asked = after_check(slots, batch_size, key, window_ms, now_ns, ticket);
            if can_answer(slots, key, now_ns) {
                asked
            } else {
                let reserving = if may_reserve(slots, batch_size, key, now_ns) {
                    Some(ticket)
                } else {
                    None
                };
                after_answer(
                    asked,
                    batch_size,
                    key,
                    reserving,
                    answer.ok(),
                    limit,
                    window_ms,
                    answered_at_ns,
                )
            }
        },
        CacheEvent::Reset { key } => slots.remove(key),
    }
}

/// What a check returns; nothing for a reset.
pub open spec fn outcome(slots: Map<Seq<char>, Slot>, event: CacheEvent) -> Option<
    Result<Decision, RateLimiterError>,
> {
    match event {
        CacheEvent::Check { key, limit, now_ns, answer, .. } => Some(
            if can_answer(slots, key, now_ns) {
                Ok(local_decision(slots[key]->Filled_0, limit))
            } else {
                match answer {
                    Ok(reservation) => Ok(reservation.decision),
                    Err(e) => Err(e),
                }
            },
        ),
        CacheEvent::Reset { .. } => None,
    }
}

/// What a check asks the backend to record at most, with itself, if it asks.
pub open spec fn asks(slots: Map<Seq<char>, Slot>, batch_size: u64, event: CacheEvent) -> Option<
    u64,
> {
    match event {
        CacheEvent::Check { key, now_ns, .. } if !can_answer(slots, key, now_ns) => Some(
            if may_reserve(slots, batch_size, key, now_ns) {
                batch_size
            } else {
                0
            },
        ),
        _ => None,
    }
}

/// `slots` after `events`, in turn.
pub open spec fn after_events(
    slots: Map<Seq<char>, Slot>,
    batch_size: u64,
    events: Seq<CacheEvent>,
) -> Map<Seq<char>, Slot>
    decreases events.len(),
{
    if events.len() == 0 {
        slots
    } else {
        let earlier = after_events(slots, batch_size, events.drop_last());
        after_event(earlier, batch_size, events.last())
    }
}

/// The events that are about `key`.
pub open spec fn only(events: Seq<CacheEvent>, key: Seq<char>) -> Seq<CacheEvent>
    decreases events.len(),
{
    if events.len() == 0 {
        events
    } else {
        let earlier = only(events.drop_last(), key);
        if events.last().about() == key {
            earlier.push(events.last())
        } else {
            earlier
        }
    }
}

/// Whether two caches hold the same for `key`.
pub open spec fn same_slot(
    a: Map<Seq<char>, Slot>,
    b: Map<Seq<char>, Slot>,
    key: Seq<char>,
) -> bool {
    a.contains_key(key) == b.contains_key(key) && (a.contains_key(key) ==> a[key] == b[key])
}

/// Keys are independent: whatever happened to other keys, the cache holds for a
/// key, answers to the next request for it and asks the backend what it would if
/// only the events about that key had happened.
pub proof fn law_keys_are_independent(
    slots: Map<Seq<char>, Slot>,
    batch_size: u64,
    events: Seq<CacheEvent>,
    next: CacheEvent,
)
    ensures
        ({
            let key = next.about();
            let all = after_events(slots, batch_size, events);
            let own = after_events(slots, batch_size, only(events, key));
            &&& same_slot(all, own, key)
            &&& outcome(all, next) == outcome(own, next)
            &&& asks(all, batch_size, next) == asks(own, batch_size, next)
            &&& same_slot(
                after_event(all, batch_size, next),
                after_event(own, batch_size, next),
                key,
            )
        }),
    decreases events.len(),
{
    if events.len() > 0 {
        let key = next.about();
        let earlier = events.drop_last();
        let last = events.last();
        if last.about() == key {
            law_keys_are_independent(slots, batch_size, earlier, last);
            assert(only(events, key).drop_last() =~= only(earlier, key));
        } else {
            law_keys_are_independent(slots, batch_size, earlier, next);
        }
    }
}

/// What the last fill of a key left to be answered.
pub struct Fill {
    /// When the backend's answer came.
    pub at_ns: u64,
    /// The window of the request that asked.
    pub window_ms: u64,
    /// What the backend's decision left of the limit.
    pub remaining: u64,
    /// How many requests may be answered locally.
    pub granted: u64,
    /// How many were.
    pub spent: u64,
}

/// Whether a request at `now_ns` can be answered from a fill: fewer were
/// answered than granted, and the window that began with the fill is not over.
pub open spec fn lasts(fill: Option<Fill>, now_ns: u64) -> bool {
    match fill {
        Some(f) => f.spent < f.granted && now_ns < f.at_ns + f.window_ms * 1_000_000,
        None => false,
    }
}

/// The last fill of `key` in `events`, if the backend let a request pass since
/// the key was last reset.
pub open spec fn last_fill(batch_size: u64, events: Seq<CacheEvent>, key: Seq<char>) -> Option<
    Fill,
>
    decreases events.len(),
{
    if events.len() == 0 {
        None
    } else {
        let earlier = last_fill(batch_size, events.drop_last(), key);
        if events.last().about() != key {
            earlier
        } else {
            match events.last() {
                CacheEvent::Check { window_ms, now_ns, answer, answered_at_ns, .. } => {
                    if lasts(earlier, now_ns) {
                        Some(Fill { spent: (earlier->0.spent + 1) as u64, ..earlier->0 })
                    } else {
                        match answer {
                            Ok(reservation) => Some(
                                Fill {
                                    at_ns: answered_at_ns,
                                    window_ms,
                                    remaining: reservation.decision.remaining,
                                    granted: granted(reservation, batch_size),
                                    spent: 0,
                                },
                            ),
                            Err(_) => earlier,
                        }
                    }
                },
                CacheEvent::Reset { .. } => None,
            }
        }
    }
}

/// Whether no request came to the cache after `now_ns`.
pub open spec fn none_after(events: Seq<CacheEvent>, now_ns: u64) -> bool {
    forall|i: int|
        0 <= i < events.len() ==> (#[trigger] events[i] matches CacheEvent::Check {
            now_ns: earlier,
            ..
        } ==> earlier <= now_ns)
}

/// The monotonic clock does not run backwards.
pub open spec fn is_steady(events: Seq<CacheEvent>) -> bool {
    forall|i: int, j: int|
        0 <= i < j < events.len() ==> match (#[trigger] events[i], #[trigger] events[j]) {
            (CacheEvent::Check { now_ns: a, .. }, CacheEvent::Check { now_ns: b, .. }) => a <= b,
            _ => true,
        }
}

/// When the backend is asked: where checks do not overlap, a new cache answers a
/// request itself exactly when the backend let one pass since the key was last
/// reset, fewer requests were answered from that fill than it granted, and less
/// than a window's length has passed since. A fill grants less than a batch, and
/// exactly its share of what the backend's decision left if the backend reserves
/// that share.
pub proof fn law_backend_is_asked_only_when_needed(
    batch_size: u64,
    events: Seq<CacheEvent>,
    key: Seq<char>,
    now_ns: u64,
)
    requires
        is_steady(events),
        none_after(events, now_ns),
    ensures
        can_answer(after_events(Map::empty(), batch_size, events), key, now_ns) <==> lasts(
            last_fill(batch_size, events, key),
            now_ns,
        ),
        last_fill(batch_size, events, key) matches Some(f) ==> f.spent <= f.granted && (f.granted
            == 0 || f.granted < batch_size),
        reserves_whole_share(batch_size, events, key) ==> (last_fill(
            batch_size,
            events,
            key,
        ) matches Some(f) ==> f.granted == crate::limiter::share(f.remaining, batch_size)),
{
    lemma_slot_is_last_fill(batch_size, events, key, now_ns);
    if reserves_whole_share(batch_size, events, key) {
        lemma_whole_share_is_granted(batch_size, events, key);
    }
}

/// A slot holds what its last fill left; an empty slot stands for a fill that is
/// used up.
proof fn lemma_slot_is_last_fill(
    batch_size: u64,
    events: Seq<CacheEvent>,
    key: Seq<char>,
    now_ns: u64,
)
    requires
        is_steady(events),
        none_after(events, now_ns),
    ensures
        ({
            let slots = after_events(Map::empty(), batch_size, events);
            let fill = last_fill(batch_size, events, key);
            &&& fill matches Some(f) ==> f.spent <= f.granted && (f.granted == 0 || f.granted
                < batch_size)
            &&& slots.contains_key(key) ==> {
                &&& batch_size > 1
                &&& slots[key] is Filled
                &&& fill is Some
                &&& slots[key]->Filled_0.tokens == fill->0.granted - fill->0.spent
                &&& slots[key]->Filled_0.expires_at_ns == fill->0.at_ns + fill->0.window_ms
                    * 1_000_000
            }
            &&& !slots.contains_key(key) ==> !lasts(fill, now_ns)
        }),
    decreases events.len(),
{
    if events.len() > 0 {
        let earlier = events.drop_last();
        assert forall|i: int, j: int| 0 <= i < j < earlier.len() implies match (
            #[trigger] earlier[i],
            #[trigger] earlier[j],
        ) {
            (CacheEvent::Check { now_ns: a, .. }, CacheEvent::Check { now_ns: b, .. }) => a <= b,
            _ => true,
        } by {
            assert(earlier[i] == events[i] && earlier[j] == events[j]);
        }
        assert forall|i: int| 0 <= i < earlier.len() implies earlier[i] == events[i] by {}
        assert(none_after(earlier, now_ns));
        lemma_slot_is_last_fill(batch_size, earlier, key, now_ns);
        if let CacheEvent::Check { now_ns: then_ns, .. } = events.last() {
            assert(events[events.len() - 1] == events.last());
            assert(none_after(earlier, then_ns));
            lemma_slot_is_last_fill(batch_size, earlier, key, then_ns);
        }
    }
}

/// What local answers report: where checks do not overlap, each check that is
/// answered from the last fill is told that what is left of the fill after it
/// remains, and spends one of it. So what remains falls by one from answer to
/// answer, and with one limit the count rises by one. The limit is not below
/// what is left. Any other check asks the backend and passes its answer on.
pub proof fn law_local_answers_count_down(
    batch_size: u64,
    events: Seq<CacheEvent>,
    key: Seq<char>,
    limit: u64,
    window_ms: u64,
    now_ns: u64,
    ticket: u64,
    answer: Result<Reservation, RateLimiterError>,
    answered_at_ns: u64,
)
    requires
        is_steady(events),
        none_after(events, now_ns),
    ensures
        ({
            let slots = after_events(Map::empty(), batch_size, events);
            let fill = last_fill(batch_size, events, key);
            let check = CacheEvent::Check {
                key,
                limit,
                window_ms,
                now_ns,
                ticket,
                answer,
                answered_at_ns,
            };
            if lasts(fill, now_ns) {
                let left = fill->0.granted - fill->0.spent - 1;
                &&& asks(slots, batch_size, check) is None
                &&& left <= limit ==> {
                    &&& outcome(slots, check) == Some(
                        Ok::<Decision, RateLimiterError>(
                            crate::limiter::allowing((limit - left) as u64, limit, 0),
                        ),
                    )
                    &&& crate::limiter::allowing((limit - left) as u64, limit, 0).remaining == left
                }
                &&& last_fill(batch_size, events.push(check), key) == Some(
                    Fill { spent: (fill->0.spent + 1) as u64, ..fill->0 },
                )
            } else {
                &&& asks(slots, batch_size, check) is Some
                &&& outcome(slots, check) == Some(
                    match answer {
                        Ok(reservation) => Ok(reservation.decision),
                        Err(e) => Err(e),
                    },
                )
            }
        }),
{
    let check = CacheEvent::Check {
        key,
        limit,
        window_ms,
        now_ns,
        ticket,
        answer,
        answered_at_ns,
    };
    lemma_slot_is_last_fill(batch_size, events, key, now_ns);
    assert(events.push(check).drop_last() =~= events);
    assert(events.push(check).last() == check);
}

/// Whether the backend always reserved for `key` the whole share of what its
/// decision left.
pub open spec fn reserves_whole_share(
    batch_size: u64,
    events: Seq<CacheEvent>,
    key: Seq<char>,
) -> bool {
    forall|i: int|
        0 <= i < events.len() && (#[trigger] events[i]).about() == key ==> (
        events[i] matches CacheEvent::Check { answer: Ok(reservation), .. }
            ==> reservation.tokens == crate::limiter::share(
            reservation.decision.remaining,
            batch_size,
        ))
}

/// If the backend reserves the whole share of what its decision leaves, a fill
/// grants that share.
proof fn lemma_whole_share_is_granted(
    batch_size: u64,
    events: Seq<CacheEvent>,
    key: Seq<char>,
)
    requires
        reserves_whole_share(batch_size, events, key),
    ensures
        last_fill(batch_size, events, key) matches Some(f) ==> f.granted == crate::limiter::share(
            f.remaining,
            batch_size,
        ),
    decreases events.len(),
{
    if events.len() > 0 {
        let earlier = events.drop_last();
        assert forall|i: int| 0 <= i < earlier.len() implies earlier[i] == events[i] by {}
        assert(reserves_whole_share(batch_size, earlier, key));
        lemma_whole_share_is_granted(batch_size, earlier, key);
        assert(events.last() == events[events.len() - 1]);
    }
}

/// A key has one reservation under way at a time: a request that finds one asks
/// the backend to reserve nothing, unless the answer is a window's length late.
pub proof fn law_one_reservation_at_a_time(
    slots: Map<Seq<char>, Slot>,
    batch_size: u64,
    key: Seq<char>,
    window_ms: u64,
    now_ns: u64,
    ticket: u64,
    later_ns: u64,
)
    requires
        !can_answer(slots, key, now_ns),
        may_reserve(slots, batch_size, key, now_ns),
        later_ns < now_ns + window_ms * 1_000_000,
    ensures
        ({
            let asked = after_check(slots, batch_size, key, window_ms, now_ns, ticket);
            &&& awaits(asked, key, Some(ticket))
            &&& !can_answer(asked, key, later_ns)
            &&& !may_reserve(asked, batch_size, key, later_ns)
        }),
{
}

/// A batch of zero turns the cache off, and so does a batch of one: no bucket
/// ever answers a request, and none reserves.
pub proof fn law_no_batch_means_no_cache<B>(
    cache: LocalCachedLimiter<B>,
    key: Seq<char>,
    now_ns: u64,
)
    requires
        cache.within_batch(),
        cache.batch() <= 1,
    ensures
        !can_answer(cache.slots(), key, now_ns),
        !may_reserve(cache.slots(), cache.batch(), key, now_ns),
{
}

/// Tokens last for one window and no longer.
pub proof fn law_tokens_expire_with_window(
    reservation: Reservation,
    batch_size: u64,
    limit: u64,
    window_ms: u64,
    now_ns: u64,
    later_ns: u64,
)
    ensures
        usable(filled(reservation, batch_size, limit, window_ms, now_ns), later_ns) <==> granted(
            reservation,
            batch_size,
        ) > 0 && later_ns < now_ns + window_ms * 1_000_000,
{
}

/// What a local answer reports as remaining is the tokens that stay in the
/// bucket.
pub proof fn law_local_answer_reports_tokens(bucket: LocalBucket, limit: u64)
    requires
        bucket.tokens > 0,
        bucket.tokens - 1 <= limit,
    ensures
        local_decision(bucket, limit).allowed,
        local_decision(bucket, limit).remaining == spend(bucket).tokens,
        local_decision(bucket, limit).count + local_decision(bucket, limit).remaining == limit,
{
}

/// A fill leaves a place of the limit free: with the requests counted at the
/// fill, those answered from it stay below the limit. So there is headroom when
/// a local answer reports no wait.
pub proof fn law_fill_leaves_headroom(
    reservation: Reservation,
    batch_size: u64,
    count: u64,
    limit: u64,
)
    requires
        reservation.decision.remaining == crate::limiter::headroom(count, limit),
        granted(reservation, batch_size) > 0,
    ensures
        count + granted(reservation, batch_size) < limit,
{
}

/// After a reset of its key, no request is answered before the backend has let
/// one pass.
pub proof fn law_reset_forgets_tokens(
    slots: Map<Seq<char>, Slot>,
    batch_size: u64,
    events: Seq<CacheEvent>,
    key: Seq<char>,
    now_ns: u64,
)
    requires
        forall|i: int|
            0 <= i < events.len() && (#[trigger] events[i]).about() == key ==> !(
            events[i] matches CacheEvent::Check { answer, .. } && answer is Ok),
    ensures
        !after_events(slots.remove(key), batch_size, events).contains_key(key),
        !can_answer(after_events(slots.remove(key), batch_size, events), key, now_ns),
    decreases events.len(),
{
    if events.len() > 0 {
        law_reset_forgets_tokens(slots, batch_size, events.drop_last(), key, now_ns);
        assert(events.last() == events[events.len() - 1]);
    }
}

/// A request is answered from the cache exactly when its key has tokens that
/// have not expired.
pub proof fn law_answers_while_tokens_last(
    slots: Map<Seq<char>, Slot>,
    key: Seq<char>,
    now_ns: u64,
)
    ensures
        can_answer(slots, key, now_ns) <==> slots.contains_key(key) && (
        slots[key] matches Slot::Filled(bucket) && bucket.tokens > 0 && bucket.expires_at_ns
            > now_ns),
{
}

/// An answer from the cache takes one token and changes nothing else. It lets
/// the request pass and reports the limit that was asked for, the tokens that
/// stay as what remains, and no wait.
pub proof fn law_answer_takes_one_token(
    slots: Map<Seq<char>, Slot>,
    batch_size: u64,
    key: Seq<char>,
    limit: u64,
    window_ms: u64,
    now_ns: u64,
    ticket: u64,
    bucket: LocalBucket,
)
    requires
        slots.contains_key(key),
        slots[key] == Slot::Filled(bucket),
        bucket.tokens > 0,
        bucket.expires_at_ns > now_ns,
    ensures
        ({
            let after = after_check(slots, batch_size, key, window_ms, now_ns, ticket);
            &&& after.dom() == slots.dom()
            &&& forall|k: Seq<char>| #[trigger]
                slots.contains_key(k) && k != key ==> after[k] == slots[k]
            &&& after[key] matches Slot::Filled(left) && {
                &&& left.tokens + 1 == bucket.tokens
                &&& left.expires_at_ns == bucket.expires_at_ns
                &&& left.limit == bucket.limit
                &&& left.window_ms == bucket.window_ms
            }
            &&& bucket.tokens - 1 <= limit ==> {
                let d = local_decision(bucket, limit);
                &&& d.allowed
                &&& d.limit == limit
                &&& d.remaining + 1 == bucket.tokens
                &&& d.count + d.remaining == limit
                &&& d.retry_after_ms == 0
            }
        }),
{
    let after = after_check(slots, batch_size, key, window_ms, now_ns, ticket);
    assert(after.dom() =~= slots.dom());
}

/// A request that has to ask the backend reserves, if a batch is more than one,
/// unless a reservation for its key is under way. Its own is then under way for
/// a window's length under its number; nothing else changes.
pub proof fn law_asking_starts_a_reservation(
    slots: Map<Seq<char>, Slot>,
    batch_size: u64,
    key: Seq<char>,
    window_ms: u64,
    now_ns: u64,
    ticket: u64,
)
    requires
        slots.contains_key(key) ==> !(slots[key] matches Slot::Filled(bucket) && bucket.tokens > 0
            && bucket.expires_at_ns > now_ns),
    ensures
        ({
            let after = after_check(slots, batch_size, key, window_ms, now_ns, ticket);
            let under_way = slots.contains_key(key) && (slots[key] matches Slot::Reserving {
                until_ns,
                ..
            } && until_ns > now_ns);
            &&& may_reserve(slots, batch_size, key, now_ns) <==> batch_size >= 2 && !under_way
            &&& batch_size < 2 || under_way ==> after == slots
            &&& batch_size >= 2 && !under_way ==> {
                &&& after.dom() == slots.dom().insert(key)
                &&& forall|k: Seq<char>| #[trigger]
                    slots.contains_key(k) && k != key ==> after[k] == slots[k]
                &&& after[key] matches Slot::Reserving { ticket: t, until_ns } && t == ticket
                    && until_ns == now_ns + window_ms * 1_000_000
            }
        }),
{
    let after = after_check(slots, batch_size, key, window_ms, now_ns, ticket);
    if may_reserve(slots, batch_size, key, now_ns) {
        assert(after.dom() =~= slots.dom().insert(key));
    }
}

/// A reservation that is waited for fills the bucket of its key, for a window's
/// length from then on. The bucket gets all that was reserved, as long as that is
/// less than a batch and less than what the decision left; else it gets one less
/// than the smaller of the two. Nothing else changes.
pub proof fn law_reservation_fills_the_bucket(
    slots: Map<Seq<char>, Slot>,
    batch_size: u64,
    key: Seq<char>,
    ticket: u64,
    until_ns: u128,
    reservation: Reservation,
    limit: u64,
    window_ms: u64,
    now_ns: u64,
)
    requires
        slots.contains_key(key),
        slots[key] == (Slot::Reserving { ticket, until_ns }),
    ensures
        ({
            let after = after_answer(
                slots,
                batch_size,
                key,
                Some(ticket),
                Some(reservation),
                limit,
                window_ms,
                now_ns,
            );
            let remaining = reservation.decision.remaining;
            &&& after.dom() == slots.dom()
            &&& forall|k: Seq<char>| #[trigger]
                slots.contains_key(k) && k != key ==> after[k] == slots[k]
            &&& after[key] matches Slot::Filled(bucket) && {
                &&& bucket.expires_at_ns == now_ns + window_ms * 1_000_000
                &&& bucket.limit == limit
                &&& bucket.window_ms == window_ms
                &&& reservation.tokens < remaining && reservation.tokens < batch_size
                    ==> bucket.tokens == reservation.tokens
                &&& remaining >= 1 && remaining <= batch_size && remaining <= reservation.tokens
                    ==> bucket.tokens + 1 == remaining
                &&& batch_size >= 1 && batch_size <= remaining && batch_size <= reservation.tokens
                    ==> bucket.tokens + 1 == batch_size
                &&& remaining == 0 || batch_size == 0 ==> bucket.tokens == 0
            }
        }),
{
    let after = after_answer(
        slots,
        batch_size,
        key,
        Some(ticket),
        Some(reservation),
        limit,
        window_ms,
        now_ns,
    );
    assert(after.dom() =~= slots.dom());
    crate::limiter::law_share_is_as_large_as_it_may_be(
        reservation.decision.remaining,
        batch_size,
    );
}

/// A failure that is waited for leaves nothing known of its key.
pub proof fn law_failure_ends_the_reservation(
    slots: Map<Seq<char>, Slot>,
    batch_size: u64,
    key: Seq<char>,
    ticket: u64,
    until_ns: u128,
    limit: u64,
    window_ms: u64,
    now_ns: u64,
)
    requires
        slots.contains_key(key),
        slots[key] == (Slot::Reserving { ticket, until_ns }),
    ensures
        ({
            let after = after_answer(
                slots,
                batch_size,
                key,
                Some(ticket),
                None,
                limit,
                window_ms,
                now_ns,
            );
            &&& !after.contains_key(key)
            &&& forall|k: Seq<char>|
                k != key ==> #[trigger] after.contains_key(k) == slots.contains_key(k)
            &&& forall|k: Seq<char>| #[trigger]
                slots.contains_key(k) && k != key ==> after[k] == slots[k]
        }),
{
}

/// An answer changes nothing if it comes to a request that did not reserve, or
/// to one whose reservation is not, or no longer, the one under way.
pub proof fn law_stale_answers_change_nothing(
    slots: Map<Seq<char>, Slot>,
    batch_size: u64,
    key: Seq<char>,
    ticket: Option<u64>,
    reservation: Option<Reservation>,
    limit: u64,
    window_ms: u64,
    now_ns: u64,
)
    requires
        ticket is None || !slots.contains_key(key) || slots[key] is Filled || (
        slots[key] matches Slot::Reserving { ticket: t, .. } && ticket != Some(t)),
    ensures
        after_answer(slots, batch_size, key, ticket, reservation, limit, window_ms, now_ns)
            == slots,
{
}

/// `slots` after `n` requests for `key`, the first ones of those that come at
/// `times`.
pub open spec fn after_requests(
    slots: Map<Seq<char>, Slot>,
    batch_size: u64,
    key: Seq<char>,
    window_ms: u64,
    times: Seq<u64>,
    n: nat,
) -> Map<Seq<char>, Slot>
    decreases n,
{
    if n == 0 {
        slots
    } else {
        after_check(
            after_requests(slots, batch_size, key, window_ms, times, (n - 1) as nat),
            batch_size,
            key,
            window_ms,
            times[n - 1],
            n as u64,
        )
    }
}

/// A fill is worth as many answers as it can be: after a fill for which the
/// backend reserved at least one less than the smaller of what remained and a
/// batch, exactly that many requests within a window's length are answered
/// without asking the backend, and the next one asks it.
pub proof fn law_fill_answers_a_batch(
    slots: Map<Seq<char>, Slot>,
    batch_size: u64,
    key: Seq<char>,
    ticket: u64,
    until_ns: u128,
    reservation: Reservation,
    limit: u64,
    window_ms: u64,
    now_ns: u64,
    times: Seq<u64>,
    n: nat,
)
    requires
        slots.contains_key(key),
        slots[key] == (Slot::Reserving { ticket, until_ns }),
        reservation.decision.remaining >= 1,
        batch_size >= 1,
        reservation.tokens + 1 >= reservation.decision.remaining || reservation.tokens + 1
            >= batch_size,
        n < times.len(),
        n < reservation.decision.remaining,
        n < batch_size,
        forall|i: int|
            0 <= i < times.len() ==> (#[trigger] times[i]) < now_ns + window_ms * 1_000_000,
    ensures
        ({
            let after = after_answer(
                slots,
                batch_size,
                key,
                Some(ticket),
                Some(reservation),
                limit,
                window_ms,
                now_ns,
            );
            can_answer(
                after_requests(after, batch_size, key, window_ms, times, n),
                key,
                times[n as int],
            ) <==> n + 1 < reservation.decision.remaining && n + 1 < batch_size
        }),
{
    lemma_tokens_left(
        slots,
        batch_size,
        key,
        ticket,
        until_ns,
        reservation,
        limit,
        window_ms,
        now_ns,
        times,
        n,
    );
}

/// What a fill leaves after some requests.
proof fn lemma_tokens_left(
    slots: Map<Seq<char>, Slot>,
    batch_size: u64,
    key: Seq<char>,
    ticket: u64,
    until_ns: u128,
    reservation: Reservation,
    limit: u64,
    window_ms: u64,
    now_ns: u64,
    times: Seq<u64>,
    n: nat,
)
    requires
        slots.contains_key(key),
        slots[key] == (Slot::Reserving { ticket, until_ns }),
        reservation.decision.remaining >= 1,
        batch_size >= 1,
        reservation.tokens + 1 >= reservation.decision.remaining || reservation.tokens + 1
            >= batch_size,
        n < times.len(),
        n < reservation.decision.remaining,
        n < batch_size,
        forall|i: int|
            0 <= i < times.len() ==> (#[trigger] times[i]) < now_ns + window_ms * 1_000_000,
    ensures
        ({
            let after = after_requests(
                after_answer(
                    slots,
                    batch_size,
                    key,
                    Some(ticket),
                    Some(reservation),
                    limit,
                    window_ms,
                    now_ns,
                ),
                batch_size,
                key,
                window_ms,
                times,
                n,
            );
            &&& after.contains_key(key)
            &&& after[key] matches Slot::Filled(bucket) && {
                &&& bucket.expires_at_ns == now_ns + window_ms * 1_000_000
                &&& bucket.tokens + n + 1 == if reservation.decision.remaining <= batch_size {
                    reservation.decision.remaining
                } else {
                    batch_size
                }
            }
        }),
    decreases n,
{
    crate::limiter::law_share_is_as_large_as_it_may_be(
        reservation.decision.remaining,
        batch_size,
    );
    if n > 0 {
        let p = (n - 1) as nat;
        lemma_tokens_left(
            slots,
            batch_size,
            key,
            ticket,
            until_ns,
            reservation,
            limit,
            window_ms,
            now_ns,
            times,
            p,
        );
        assert(times[p as int] < now_ns + window_ms * 1_000_000);
    }
}

} // verus!
