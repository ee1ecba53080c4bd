//! What a node with a local cache lets pass, over any stretch of one window's
//! length.

use vstd::prelude::*;

use crate::limiter::Reservation;
use crate::local_cache::Slot;
use crate::sliding_window::Arrival;

verus! {

/// One step of the requests to a key. The steps of different requests may be
/// interleaved, and any of them may be lost.
pub enum Step {
    /// The request with number `ticket` comes to the cache of the node, which
    /// answers it or asks the window.
    Check { now_us: u64, now_ns: u64, ticket: u64 },
    /// The window decides on a request: on one of this node that reserves, by
    /// its number, or else on any other, from this node or another.
    Run { arrival: Arrival, ticket: Option<u64> },
    /// What the window reserved for the request with number `ticket` is back at
    /// the cache.
    Answer { now_us: u64, now_ns: u64, ticket: u64, limit: u64 },
    /// The request with number `ticket` is given up, or fails, whatever the
    /// window did with it.
    Fail { now_us: u64, now_ns: u64, ticket: u64, limit: u64 },
}

impl Step {
    /// When the step is taken, in microseconds.
    pub open spec fn time(self) -> u64 {
        match self {
            Step::Check { now_us, .. } => now_us,
            Step::Run { arrival, .. } => arrival.now,
            Step::Answer { now_us, .. } => now_us,
            Step::Fail { now_us, .. } => now_us,
        }
    }
}

/// What the steps have left behind: the requests that went to the window, what
/// the window reserved for each number, and the cache of the node.
pub struct Node {
    pub sent: Seq<Arrival>,
    pub reserved: Map<u64, Reservation>,
    pub slots: Map<Seq<char>, Slot>,
}

/// The key, its window and the batch size of the node.
pub struct Setup {
    pub key: Seq<char>,
    pub window_ms: u64,
    pub batch_size: u64,
}

impl Setup {
    /// The window in microseconds.
    pub open spec fn window(self) -> u64 {
        (self.window_ms * 1_000) as u64
    }
}

/// The log of the key.
pub open spec fn log_of(node: Node, setup: Setup) -> Map<Seq<char>, u64> {
    crate::sliding_window::replay(node.sent, setup.window(), node.sent.len())
}

/// Whether a step lets a request pass.
pub open spec fn lets_pass(node: Node, setup: Setup, step: Step) -> bool {
    match step {
        Step::Check { now_ns, .. } => crate::local_cache::can_answer(
            node.slots,
            setup.key,
            now_ns,
        ),
        Step::Run { arrival, .. } => crate::redis_store::check_of(
            log_of(node, setup),
            setup.window(),
            arrival,
        ) is Ok,
        Step::Answer { .. } => false,
        Step::Fail { .. } => false,
    }
}

/// What the window reserves for a request that it lets pass.
pub open spec fn reservation_of(node: Node, setup: Setup, a: Arrival) -> Reservation {
    let log = log_of(node, setup);
    Reservation {
        decision: crate::redis_store::check_of(log, setup.window(), a)->Ok_0,
        tokens: (crate::sliding_window::taken(log, setup.window(), a) - 1) as u64,
    }
}

/// The node after a step.
pub open spec fn after_step(node: Node, setup: Setup, step: Step) -> Node {
    match step {
        Step::Check { now_ns, ticket, .. } => Node {
            slots: crate::local_cache::after_check(
                node.slots,
                setup.batch_size,
                setup.key,
                setup.window_ms,
                now_ns,
                ticket,
            ),
            ..node
        },
        Step::Run { arrival, ticket } => Node {
            sent: node.sent.push(arrival),
            reserved: match ticket {
                Some(t) if lets_pass(node, setup, step) => node.reserved.insert(
                    t,
                    reservation_of(node, setup, arrival),
                ),
                _ => node.reserved,
            },
            ..node
        },
        Step::Answer { now_ns, ticket, limit, .. } => Node {
            slots: crate::local_cache::after_answer(
                node.slots,
                setup.batch_size,
                setup.key,
                Some(ticket),
                if node.reserved.contains_key(ticket) {
                    Some(node.reserved[ticket])
                } else {
                    None
                },
                limit,
                setup.window_ms,
                now_ns,
            ),
            ..node
        },
        Step::Fail { now_ns, ticket, limit, .. } => Node {
            slots: crate::local_cache::after_answer(
                node.slots,
                setup.batch_size,
                setup.key,
                Some(ticket),
                None,
                limit,
                setup.window_ms,
                now_ns,
            ),
            ..node
        },
    }
}

/// The node after the first `n` steps, from a new cache and an empty log.
pub open spec fn run(steps: Seq<Step>, setup: Setup, n: nat) -> Node
    decreases n,
{
    if n == 0 {
        Node { sent: Seq::empty(), reserved: Map::empty(), slots: Map::empty() }
    } else {
        after_step(run(steps, setup, (n - 1) as nat), setup, steps[n - 1])
    }
}

/// How many of the first `n` steps let a request pass at a time after `start`
/// and not after `end`.
pub open spec fn let_pass_within(
    steps: Seq<Step>,
    setup: Setup,
    n: nat,
    start: int,
    end: int,
) -> nat
    decreases n,
{
    if n == 0 {
        0
    } else {
        let p = (n - 1) as nat;
        let now = steps[n - 1].time();
        let_pass_within(steps, setup, p, start, end) + if start < now && now <= end && lets_pass(
            run(steps, setup, p),
            setup,
            steps[n - 1],
        ) {
            1nat
        } else {
            0
        }
    }
}

/// Steps are taken in the order of their times.
pub open spec fn in_order(steps: Seq<Step>) -> bool {
    forall|i: int, j: int|
        0 <= i <= j < steps.len() ==> (#[trigger] steps[i]).time() <= (#[trigger] steps[j]).time()
}

/// A request that comes to the cache has a number that no request had that the
/// window decided on before.
pub open spec fn new_tickets(steps: Seq<Step>) -> bool {
    forall|i: int, j: int|
        0 <= i < j < steps.len() ==> match (#[trigger] steps[i], #[trigger] steps[j]) {
            (Step::Run { ticket, .. }, Step::Check { ticket: new, .. }) => ticket != Some(new),
            _ => true,
        }
}

/// The requests that the window decides on do not share members.
pub open spec fn members_apart(steps: Seq<Step>) -> bool {
    &&& forall|i: int, j: int|
        0 <= i < j < steps.len() ==> match (#[trigger] steps[i], #[trigger] steps[j]) {
            (Step::Run { arrival: a, .. }, Step::Run { arrival: b, .. }) => a.member != b.member,
            _ => true,
        }
    &&& forall|i: int|
        0 <= i < steps.len() ==> (#[trigger] steps[i] matches Step::Run { arrival, .. }
            ==> !arrival.member.contains(':'))
}

/// Requests that the cache can still let pass with what is reserved by now.
spec fn in_hand(node: Node, setup: Setup) -> nat {
    if node.slots.contains_key(setup.key) {
        match node.slots[setup.key] {
            Slot::Filled(bucket) => bucket.tokens as nat,
            Slot::Reserving { ticket, .. } => if node.reserved.contains_key(ticket) {
                crate::local_cache::granted(node.reserved[ticket], setup.batch_size) as nat
            } else {
                0
            },
        }
    } else {
        0
    }
}

/// What a window recorded earlier does not depend on what comes later.
proof fn lemma_earlier_is_settled(sent: Seq<Arrival>, a: Arrival, window: u64, n: nat)
    requires
        n <= sent.len(),
    ensures
        crate::sliding_window::replay(sent.push(a), window, n) == crate::sliding_window::replay(
            sent,
            window,
            n,
        ),
    decreases n,
{
    if n > 0 {
        lemma_earlier_is_settled(sent, a, window, (n - 1) as nat);
        assert(sent.push(a)[n - 1] == sent[n - 1]);
    }
}

/// What was recorded in a stretch of time does not depend on what comes later.
proof fn lemma_taken_is_settled(
    sent: Seq<Arrival>,
    a: Arrival,
    window: u64,
    n: nat,
    start: int,
    end: int,
)
    requires
        n <= sent.len(),
    ensures
        crate::sliding_window::taken_within(sent.push(a), window, n, start, end)
            == crate::sliding_window::taken_within(sent, window, n, start, end),
    decreases n,
{
    if n > 0 {
        lemma_taken_is_settled(sent, a, window, (n - 1) as nat, start, end);
        lemma_earlier_is_settled(sent, a, window, (n - 1) as nat);
        assert(sent.push(a)[n - 1] == sent[n - 1]);
    }
}

/// What went to the window, and what it reserved, came with the steps.
proof fn lemma_steps_account_for_all(steps: Seq<Step>, setup: Setup, n: nat)
    requires
        n <= steps.len(),
    ensures
        ({
            let node = run(steps, setup, n);
            &&& forall|i: int|
                0 <= i < node.sent.len() ==> exists|j: int|
                    0 <= j < n && (#[trigger] steps[j] matches Step::Run { arrival, .. }
                        && arrival == #[trigger] node.sent[i])
            &&& forall|t: u64| #[trigger]
                node.reserved.contains_key(t) ==> exists|j: int|
                    0 <= j < n && (#[trigger] steps[j] matches Step::Run { ticket, .. } && ticket
                        == Some(t))
        }),
    decreases n,
{
    if n > 0 {
        let p = (n - 1) as nat;
        lemma_steps_account_for_all(steps, setup, p);
        let before = run(steps, setup, p);
        let node = run(steps, setup, n);
        assert forall|i: int| 0 <= i < node.sent.len() implies exists|j: int|
            0 <= j < n && (#[trigger] steps[j] matches Step::Run { arrival, .. } && arrival
                == #[trigger] node.sent[i]) by {
            if i < before.sent.len() {
                assert(node.sent[i] == before.sent[i]);
                let j = choose|j: int|
                    0 <= j < p && (#[trigger] steps[j] matches Step::Run { arrival, .. }
                        && arrival == before.sent[i]);
                assert(steps[j] matches Step::Run { arrival, .. } && arrival == node.sent[i]);
            } else {
                assert(steps[n - 1] matches Step::Run { arrival, .. } && arrival == node.sent[i]);
            }
        }
        assert forall|t: u64| #[trigger] node.reserved.contains_key(t) implies exists|j: int|
            0 <= j < n && (#[trigger] steps[j] matches Step::Run { ticket, .. } && ticket
                == Some(t)) by {
            if before.reserved.contains_key(t) {
                let j = choose|j: int|
                    0 <= j < p && (#[trigger] steps[j] matches Step::Run { ticket, .. } && ticket
                        == Some(t));
                assert(steps[j] matches Step::Run { ticket, .. } && ticket == Some(t));
            } else {
                assert(steps[n - 1] matches Step::Run { ticket, .. } && ticket == Some(t));
            }
        }
    }
}

/// What went to the window is in order and keeps its members apart, as the
/// steps do.
proof fn lemma_sent_is_sound(steps: Seq<Step>, setup: Setup, n: nat)
    requires
        n <= steps.len(),
        in_order(steps),
        members_apart(steps),
    ensures
        crate::sliding_window::in_order(run(steps, setup, n).sent),
        crate::sliding_window::members_apart(run(steps, setup, n).sent),
    decreases n,
{
    if n > 0 {
        let p = (n - 1) as nat;
        lemma_sent_is_sound(steps, setup, p);
        lemma_steps_account_for_all(steps, setup, p);
        let before = run(steps, setup, p).sent;
        let sent = run(steps, setup, n).sent;
        if let Step::Run { arrival: a, .. } = steps[n - 1] {
            assert(sent == before.push(a));
            assert forall|i: int| 0 <= i < before.len() implies (#[trigger] before[i]).now
                <= a.now && before[i].member != a.member && !before[i].member.contains(':') by {
                let j = choose|j: int|
                    0 <= j < p && (#[trigger] steps[j] matches Step::Run { arrival, .. }
                        && arrival == before[i]);
                assert(steps[j].time() <= steps[n - 1].time());
            }
            assert(crate::sliding_window::plain_members(sent));
        } else {
            assert(sent == before);
        }
    } else {
        assert(crate::sliding_window::plain_members(run(steps, setup, n).sent));
    }
}

/// What the cache has in hand comes on top of what was recorded in the stretch
/// by less than a batch.
proof fn lemma_tokens_are_covered(
    steps: Seq<Step>,
    setup: Setup,
    n: nat,
    start: int,
    end: int,
)
    requires
        n <= steps.len(),
        in_order(steps),
        new_tickets(steps),
    ensures
        ({
            let node = run(steps, setup, n);
            let passed = let_pass_within(steps, setup, n, start, end);
            let recorded = crate::sliding_window::taken_within(
                node.sent,
                setup.window(),
                node.sent.len(),
                start,
                end,
            );
            &&& passed <= recorded + setup.batch_size
            &&& in_hand(node, setup) <= setup.batch_size
            &&& (n == 0 || steps[n - 1].time() <= start) ==> passed == 0
            &&& (n == 0 || steps[n - 1].time() <= end) ==> passed + in_hand(node, setup)
                <= recorded + setup.batch_size
        }),
    decreases n,
{
    if n > 0 {
        let p = (n - 1) as nat;
        let window = setup.window();
        let before = run(steps, setup, p);
        let node = run(steps, setup, n);
        let step = steps[n - 1];
        lemma_tokens_are_covered(steps, setup, p, start, end);
        if p > 0 {
            assert(steps[p - 1].time() <= step.time());
        }
        match step {
            Step::Check { now_ns, ticket, .. } => {
                assert(node.sent == before.sent);
                assert(!before.reserved.contains_key(ticket)) by {
                    lemma_steps_account_for_all(steps, setup, p);
                    if before.reserved.contains_key(ticket) {
                        let j = choose|j: int|
                            0 <= j < p && (#[trigger] steps[j] matches Step::Run { ticket: t, .. }
                                && t == Some(ticket));
                        assert(steps[j] is Run && steps[n - 1] is Check);
                    }
                }
                if lets_pass(before, setup, step) {
                    assert(in_hand(node, setup) == in_hand(before, setup) - 1);
                } else {
                    assert(in_hand(node, setup) <= in_hand(before, setup));
                }
            },
            Step::Run { arrival: a, ticket } => {
                assert(node.sent == before.sent.push(a));
                lemma_taken_is_settled(before.sent, a, window, before.sent.len(), start, end);
                lemma_earlier_is_settled(before.sent, a, window, before.sent.len());
                assert(node.sent[node.sent.len() - 1] == a);
                let taken = crate::sliding_window::taken(log_of(before, setup), window, a);
                assert(crate::sliding_window::takes(node.sent, window, node.sent.len() - 1)
                    == taken);
                assert(lets_pass(before, setup, step) <==> taken > 0);
                assert(node.slots == before.slots);
                if in_hand(node, setup) != in_hand(before, setup) {
                    assert(taken > 0 && in_hand(node, setup) <= taken - 1);
                    assert(in_hand(node, setup) <= setup.batch_size);
                }
            },
            Step::Answer { .. } | Step::Fail { .. } => {
                assert(node.sent == before.sent);
                assert(in_hand(node, setup) <= in_hand(before, setup));
            },
        }
    }
}

/// A node lets at most a batch too many pass: whatever stretch of one window's
/// length is looked at, the requests that are let pass in it, from the cache of
/// the node or by the window, are no more than the limit and a batch. The steps
/// of different requests may be interleaved in any way, may fail and may be
/// lost, as long as they are taken in the order of their times and requests share neither
/// numbers nor members. Nothing is asked of the monotonic clock.
pub proof fn law_over_allowance_is_at_most_a_batch(
    steps: Seq<Step>,
    setup: Setup,
    limit: u64,
    end: int,
)
    requires
        setup.window_ms * 1_000 <= u64::MAX,
        in_order(steps),
        new_tickets(steps),
        members_apart(steps),
        forall|i: int|
            0 <= i < steps.len() ==> (#[trigger] steps[i] matches Step::Run { arrival, .. }
                ==> arrival.limit <= limit),
    ensures
        let_pass_within(steps, setup, steps.len(), end - setup.window_ms * 1_000, end) <= limit
            + setup.batch_size,
{
    let n = steps.len();
    let sent = run(steps, setup, n).sent;
    lemma_sent_is_sound(steps, setup, n);
    lemma_steps_account_for_all(steps, setup, n);
    lemma_tokens_are_covered(steps, setup, n, end - setup.window(), end);
    assert forall|i: int| 0 <= i < sent.len() implies (#[trigger] sent[i]).limit <= limit by {
        let j = choose|j: int|
            0 <= j < n && (#[trigger] steps[j] matches Step::Run { arrival, .. } && arrival
                == sent[i]);
        assert(steps[j] is Run);
    }
    crate::sliding_window::law_no_window_exceeds_limit(
        sent,
        setup.window(),
        limit,
        sent.len(),
        end,
    );
}

} // verus!
