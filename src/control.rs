//! Cooperative cancellation, the bounded retry policy for result delivery,
//! and the decisions of a worker's loop.
use vstd::prelude::*;
use std::sync::Arc;
use std::sync::atomic::{AtomicBool, Ordering};

verus! {

/// A shared flag that only ever goes from unset to set: the only write this
/// type offers stores `true`. Clones share the flag.
#[derive(Clone)]
pub struct CancellationToken {
    flag: Arc<AtomicBool>,
}

impl CancellationToken {
    pub fn new() -> Self {
        CancellationToken { flag: Arc::new(AtomicBool::new(false)) }
    }

    /// Sets the flag; setting it again changes nothing.
    pub fn cancel(&self) {
        self.flag.store(true, Ordering::SeqCst);
    }

    /// Whether the flag has been set, by this or any clone.
    pub fn is_cancelled(&self) -> bool {
        self.flag.load(Ordering::SeqCst)
    }
}

/// What a sender does after one delivery attempt.
#[derive(Debug, Clone, Copy, PartialEq, Eq, Structural)]
pub enum RetryAction {
    /// The item went through.
    Delivered,
    /// Wait the fixed interval, then attempt again.
    Wait,
    /// The budget is spent: the item is dropped.
    GiveUp,
}

/// A bounded budget of retries for one delivery.
pub struct RetryPolicy {
    pub remaining: u8,
}

/// The policy's answer to an attempt, with `remaining` retries left.
pub open spec fn retry_action(remaining: nat, sent: bool) -> RetryAction {
    if sent {
        RetryAction::Delivered
    } else if remaining == 0 {
        RetryAction::GiveUp
    } else {
        RetryAction::Wait
    }
}

/// How a delivery ends when its attempts succeed or fail as `outcomes`
/// says, with `remaining` retries after the first attempt; `None` while
/// the attempts in `outcomes` are not enough to decide.
pub open spec fn delivery(remaining: nat, outcomes: Seq<bool>) -> Option<RetryAction>
    decreases outcomes.len(),
{
    if outcomes.len() == 0 {
        None
    } else {
        match retry_action(remaining, outcomes[0]) {
            RetryAction::Wait => delivery((remaining - 1) as nat, outcomes.drop_first()),
            a => Some(a),
        }
    }
}

/// Number of attempts a delivery makes under `outcomes`.
pub open spec fn attempts_made(remaining: nat, outcomes: Seq<bool>) -> nat
    decreases outcomes.len(),
{
    if outcomes.len() == 0 {
        0
    } else {
        match retry_action(remaining, outcomes[0]) {
            RetryAction::Wait => 1 + attempts_made((remaining - 1) as nat, outcomes.drop_first()),
            _ => 1,
        }
    }
}

impl RetryPolicy {
    /// A policy that retries up to `attempts` times after a failed first attempt.
    pub fn new(attempts: u8) -> (r: Self)
        ensures
            r.remaining == attempts,
    {
        RetryPolicy { remaining: attempts }
    }

    /// Decides what follows an attempt that went through (`sent`) or found
    /// the queue full; a wait spends one retry.
    pub fn after_attempt(&mut self, sent: bool) -> (r: RetryAction)
        ensures
            r == retry_action(old(self).remaining as nat, sent),
            final(self).remaining == if r == RetryAction::Wait {
                (old(self).remaining - 1) as u8
            } else {
                old(self).remaining
            },
    {
        if sent {
            RetryAction::Delivered
        } else if self.remaining == 0 {
            RetryAction::GiveUp
        } else {
            self.remaining = self.remaining - 1;
            RetryAction::Wait
        }
    }
}

/// A delivery with a budget of `budget` retries is decided within
/// `budget + 1` attempts; it gives up exactly when all of those fail, and
/// is otherwise delivered once, at the first attempt that goes through, with
/// no attempt after it.
pub proof fn lemma_retry_bounded(budget: nat, outcomes: Seq<bool>)
    requires
        outcomes.len() > budget,
    ensures
        delivery(budget, outcomes) is Some,
        delivery(budget, outcomes) == Some(RetryAction::GiveUp) <==> (forall|i: int| 0 <= i <= budget ==> !(#[trigger] outcomes[i])),
        delivery(budget, outcomes) == Some(RetryAction::Delivered) <==> (exists|i: int| 0 <= i <= budget && #[trigger] outcomes[i]),
        delivery(budget, outcomes) == Some(RetryAction::Delivered) ==> outcomes[attempts_made(budget, outcomes) - 1] && (forall|i: int| 0 <= i < attempts_made(budget, outcomes) - 1 ==> !(#[trigger] outcomes[i])),
        attempts_made(budget, outcomes) <= budget + 1,
    decreases budget,
{
    if !outcomes[0] && budget > 0 {
        let rest = outcomes.drop_first();
        lemma_retry_bounded((budget - 1) as nat, rest);
        if exists|i: int| 0 <= i <= budget && #[trigger] outcomes[i] {
            let i = choose|i: int| 0 <= i <= budget && #[trigger] outcomes[i];
            assert(rest[i - 1]);
        }
        if exists|i: int| 0 <= i <= budget - 1 && #[trigger] rest[i] {
            let i = choose|i: int| 0 <= i <= budget - 1 && #[trigger] rest[i];
            assert(outcomes[i + 1]);
        }
        assert forall|i: int| 0 <= i < attempts_made(budget, outcomes) - 1 && delivery(budget, outcomes) == Some(RetryAction::Delivered) implies !(#[trigger] outcomes[i]) by {
            if i > 0 {
                assert(!rest[i - 1]);
            }
        }
    }
}

/// Number of deliveries among `sends` that end in `action`.
pub open spec fn n_ending(budget: nat, sends: Seq<Seq<bool>>, action: RetryAction) -> nat
    decreases sends.len(),
{
    if sends.len() == 0 {
        0
    } else {
        n_ending(budget, sends.drop_last(), action) + if delivery(budget, sends.last()) == Some(action) { 1nat } else { 0nat }
    }
}

/// Number of deliveries among `sends` whose first `budget + 1` attempts all fail.
pub open spec fn n_exhausted(budget: nat, sends: Seq<Seq<bool>>) -> nat
    decreases sends.len(),
{
    if sends.len() == 0 {
        0
    } else {
        n_exhausted(budget, sends.drop_last()) + if (forall|i: int| 0 <= i <= budget ==> !(#[trigger] sends.last()[i])) { 1nat } else { 0nat }
    }
}

/// Drops are accounted exactly: over any batch of deliveries, each decided,
/// the number dropped equals the number that exhausted the retry budget, and
/// every other delivery is delivered once, so none is lost or duplicated.
pub proof fn lemma_drop_accounting(budget: nat, sends: Seq<Seq<bool>>)
    requires
        forall|k: int| 0 <= k < sends.len() ==> (#[trigger] sends[k]).len() > budget,
    ensures
        n_ending(budget, sends, RetryAction::GiveUp) == n_exhausted(budget, sends),
        n_ending(budget, sends, RetryAction::GiveUp) + n_ending(budget, sends, RetryAction::Delivered) == sends.len(),
    decreases sends.len(),
{
    if sends.len() > 0 {
        assert(sends.last() == sends[sends.len() - 1]);
        lemma_retry_bounded(budget, sends.last());
        lemma_drop_accounting(budget, sends.drop_last());
    }
}

/// What a worker does at the top of its loop.
#[derive(Debug, Clone, Copy, PartialEq, Eq, Structural)]
pub enum WorkerAction {
    /// Take the next work item and process it.
    TakeItem,
    /// Leave the loop.
    Stop,
}

/// A worker's state.
#[derive(Debug, Clone, Copy, PartialEq, Eq, Structural)]
pub enum WorkerState {
    Running,
    Stopped,
}

pub open spec fn worker_poll(s: WorkerState, cancelled: bool) -> (WorkerState, WorkerAction) {
    if s == WorkerState::Stopped || cancelled {
        (WorkerState::Stopped, WorkerAction::Stop)
    } else {
        (WorkerState::Running, WorkerAction::TakeItem)
    }
}

/// One poll of the cancellation flag by a worker in state `s`.
pub fn worker_step(s: WorkerState, cancelled: bool) -> (r: (WorkerState, WorkerAction))
    ensures
        r == worker_poll(s, cancelled),
{
    if s == WorkerState::Stopped || cancelled {
        (WorkerState::Stopped, WorkerAction::Stop)
    } else {
        (WorkerState::Running, WorkerAction::TakeItem)
    }
}

/// A worker's state after polling the flag and seeing `seen`, one value a poll.
pub open spec fn worker_state_after(seen: Seq<bool>) -> WorkerState
    decreases seen.len(),
{
    if seen.len() == 0 {
        WorkerState::Running
    } else {
        worker_poll(worker_state_after(seen.drop_last()), seen.last()).0
    }
}

/// What a worker does at its `i`-th poll, having seen `seen`.
pub open spec fn worker_action_at(seen: Seq<bool>, i: int) -> WorkerAction {
    worker_poll(worker_state_after(seen.take(i)), seen[i]).1
}

/// Cancellation reaches every worker: from the first poll at which a worker
/// sees the flag set, it takes no further work item, whatever it sees later.
pub proof fn lemma_cancellation_stops(seen: Seq<bool>, k: int)
    requires
        0 <= k < seen.len(),
        seen[k],
    ensures
        forall|i: int| k <= i < seen.len() ==> #[trigger] worker_action_at(seen, i) == WorkerAction::Stop,
{
    assert forall|i: int| k <= i < seen.len() implies #[trigger] worker_action_at(seen, i) == WorkerAction::Stop by {
        lemma_stopped_after(seen, k, i);
    }
}

proof fn lemma_stopped_after(seen: Seq<bool>, k: int, i: int)
    requires
        0 <= k <= i < seen.len(),
        seen[k],
    ensures
        worker_action_at(seen, i) == WorkerAction::Stop,
        worker_state_after(seen.take(i + 1)) == WorkerState::Stopped,
    decreases i - k,
{
    assert(seen.take(i + 1).drop_last() =~= seen.take(i));
    assert(seen.take(i + 1).last() == seen[i]);
    if i > k {
        lemma_stopped_after(seen, k, i - 1);
    }
}

} // verus!
