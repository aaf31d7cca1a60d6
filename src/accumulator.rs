//! The single consumer of the result queue: it folds partial results into
//! the global tally and decides when the run is complete.
use vstd::prelude::*;
use crate::rank::{hm_into_vec, ranked, lemma_ranking_determined};
use crate::tally::{Blame, rows, blame_acc, fold_fits, lines_of, total_of, tallies, has_author, mentions, lemma_tally_order_independent};

verus! {

/// A message on the result queue: the number of work items the walker
/// found, sent once, or the attribution map of one work item.
pub enum Message {
    Count(usize),
    Partial(Vec<Blame>),
}

/// A breach of the pipeline's protocol, or a tally that would leave `usize`.
#[derive(Debug, Clone, Copy, PartialEq, Eq, Structural)]
pub enum Violation {
    /// A message or a drop arrived after the run was complete.
    AfterCompletion,
    /// A second `Count` arrived.
    DuplicateCount,
    /// `Count` announced fewer items than had already been accounted for.
    CountBelowReceived,
    /// More items were accounted for than a `usize` can count.
    TooManyItems,
    /// Folding a partial result would take an author's total past `usize`.
    TallyOverflow,
}

/// What the accumulator has seen, as counts.
pub struct Progress {
    pub expected: Option<nat>,
    pub consumed: nat,
    pub dropped: nat,
}

/// What happens on the result queue, without payloads: the count, one
/// partial result consumed, or one partial result dropped by its sender.
pub enum Event {
    Count(nat),
    Partial,
    Dropped,
}

pub open spec fn initial() -> Progress {
    Progress { expected: None, consumed: 0, dropped: 0 }
}

/// The terminal condition: the count is known and every item it announced
/// has been consumed or reported dropped.
pub open spec fn complete(p: Progress) -> bool {
    match p.expected {
        Some(n) => p.consumed + p.dropped == n,
        None => false,
    }
}

/// One transition of the accumulator.
pub open spec fn step(p: Progress, e: Event) -> Result<Progress, Violation> {
    if complete(p) {
        Err(Violation::AfterCompletion)
    } else {
        match e {
            Event::Count(n) => if p.expected is Some {
                Err(Violation::DuplicateCount)
            } else if p.consumed + p.dropped > n {
                Err(Violation::CountBelowReceived)
            } else {
                Ok(Progress { expected: Some(n), ..p })
            },
            Event::Partial => if p.consumed + p.dropped >= usize::MAX {
                Err(Violation::TooManyItems)
            } else {
                Ok(Progress { consumed: p.consumed + 1, ..p })
            },
            Event::Dropped => if p.consumed + p.dropped >= usize::MAX {
                Err(Violation::TooManyItems)
            } else {
                Ok(Progress { dropped: p.dropped + 1, ..p })
            },
        }
    }
}

/// The accumulator after the events `evs`, from the start of a run.
pub open spec fn run(evs: Seq<Event>) -> Result<Progress, Violation>
    decreases evs.len(),
{
    if evs.len() == 0 {
        Ok(initial())
    } else {
        match run(evs.drop_last()) {
            Ok(p) => step(p, evs.last()),
            Err(v) => Err(v),
        }
    }
}

pub open spec fn event_of(m: Message) -> Event {
    match m {
        Message::Count(n) => Event::Count(n as nat),
        Message::Partial(_) => Event::Partial,
    }
}

/// Folding message `m` into the tally of `ps` would leave `usize`.
pub open spec fn overflows(ps: Seq<Seq<Blame>>, m: Message) -> bool {
    match m {
        Message::Partial(p) => !(forall|a: Seq<char>| #[trigger] total_of(ps, a) + lines_of(p@, a) <= usize::MAX),
        Message::Count(_) => false,
    }
}

/// The partial results consumed, once message `m` has been taken in.
pub open spec fn received_after(ps: Seq<Seq<Blame>>, m: Message) -> Seq<Seq<Blame>> {
    match m {
        Message::Partial(p) => ps.push(p@),
        Message::Count(_) => ps,
    }
}

/// Number of `Count` events in `evs`.
pub open spec fn n_counts(evs: Seq<Event>) -> nat
    decreases evs.len(),
{
    if evs.len() == 0 {
        0
    } else {
        n_counts(evs.drop_last()) + if evs.last() is Count { 1nat } else { 0nat }
    }
}

/// Number of events in `evs` that stand for one work item (consumed or dropped).
pub open spec fn n_items(evs: Seq<Event>) -> nat
    decreases evs.len(),
{
    if evs.len() == 0 {
        0
    } else {
        n_items(evs.drop_last()) + if evs.last() is Count { 0nat } else { 1nat }
    }
}

/// Number of `Partial` events in `evs`.
pub open spec fn n_partials(evs: Seq<Event>) -> nat
    decreases evs.len(),
{
    if evs.len() == 0 {
        0
    } else {
        n_partials(evs.drop_last()) + if evs.last() is Partial { 1nat } else { 0nat }
    }
}

/// Every `Count` in `evs` carries `n`.
pub open spec fn counts_carry(evs: Seq<Event>, n: nat) -> bool {
    forall|i: int| 0 <= i < evs.len() && (#[trigger] evs[i]) is Count ==> evs[i] == Event::Count(n)
}

proof fn lemma_run_counts(s: Seq<Event>, n: nat)
    requires
        counts_carry(s, n),
        n_counts(s) <= 1,
        n_items(s) <= n,
        n <= usize::MAX,
    ensures
        run(s) == Ok::<Progress, Violation>(Progress {
            expected: if n_counts(s) == 1 { Some(n) } else { None },
            consumed: n_partials(s),
            dropped: (n_items(s) - n_partials(s)) as nat,
        }),
        n_partials(s) <= n_items(s),
        n_counts(s) + n_items(s) == s.len(),
    decreases s.len(),
{
    if s.len() > 0 {
        let d = s.drop_last();
        assert forall|i: int| 0 <= i < d.len() && (#[trigger] d[i]) is Count implies d[i] == Event::Count(n) by {
            assert(s[i] == d[i]);
        }
        lemma_run_counts(d, n);
        assert(s[s.len() - 1] == s.last());
    }
}

/// Termination is exact, whatever the interleaving: when exactly one `Count(n)`
/// arrives among `n` item events (each a consumed or a dropped partial result)
/// in any order, the accumulator is complete after the last event and not
/// before, it never reports a violation on the way, and it has consumed
/// exactly the partial results that were not dropped.
pub proof fn lemma_termination_exact(evs: Seq<Event>, n: nat)
    requires
        n_counts(evs) == 1,
        counts_carry(evs, n),
        n_items(evs) == n,
        n <= usize::MAX,
    ensures
        run(evs) is Ok,
        complete(run(evs)->Ok_0),
        run(evs)->Ok_0.consumed == n_partials(evs),
        forall|j: int| 0 <= j < evs.len() ==> (#[trigger] run(evs.take(j))) is Ok && !complete(run(evs.take(j))->Ok_0),
{
    lemma_run_counts(evs, n);
    assert forall|j: int| 0 <= j < evs.len() implies (#[trigger] run(evs.take(j))) is Ok && !complete(run(evs.take(j))->Ok_0) by {
        let s = evs.take(j);
        lemma_prefix_counts(evs, j);
        assert forall|i: int| 0 <= i < s.len() && (#[trigger] s[i]) is Count implies s[i] == Event::Count(n) by {
            assert(evs[i] == s[i]);
        }
        lemma_run_counts(s, n);
    }
}

proof fn lemma_prefix_counts(evs: Seq<Event>, j: int)
    requires
        0 <= j <= evs.len(),
    ensures
        n_counts(evs.take(j)) <= n_counts(evs),
        n_items(evs.take(j)) <= n_items(evs),
    decreases evs.len(),
{
    if j < evs.len() {
        assert(evs.drop_last().take(j) =~= evs.take(j));
        lemma_prefix_counts(evs.drop_last(), j);
    } else {
        assert(evs.take(j) =~= evs);
    }
}

/// Sole owner of the global tally during a run.
pub struct Accumulator {
    tally: Vec<Blame>,
    consumed: usize,
    dropped: usize,
    expected: Option<usize>,
    received: Ghost<Seq<Seq<Blame>>>,
}

impl Accumulator {
    /// The counts the accumulator has seen.
    pub closed spec fn progress(&self) -> Progress {
        Progress {
            expected: match self.expected {
                Some(n) => Some(n as nat),
                None => None,
            },
            consumed: self.consumed as nat,
            dropped: self.dropped as nat,
        }
    }

    /// The partial results consumed so far, in the order they arrived.
    pub closed spec fn received(&self) -> Seq<Seq<Blame>> {
        self.received@
    }

    pub closed spec fn wf(&self) -> bool {
        &&& tallies(self.tally@, self.received@)
        &&& self.consumed == self.received@.len()
        &&& self.consumed + self.dropped <= usize::MAX
        &&& match self.expected {
            Some(n) => self.consumed + self.dropped <= n,
            None => true,
        }
    }

    pub fn new() -> (r: Self)
        ensures
            r.wf(),
            r.progress() == initial(),
            r.received() == Seq::<Seq<Blame>>::empty(),
    {
        Accumulator {
            tally: Vec::new(),
            consumed: 0,
            dropped: 0,
            expected: None,
            received: Ghost(Seq::empty()),
        }
    }

    /// Whether the terminal condition holds.
    pub fn is_complete(&self) -> (r: bool)
        requires
            self.wf(),
        ensures
            r == complete(self.progress()),
    {
        match self.expected {
            Some(n) => self.consumed + self.dropped == n,
            None => false,
        }
    }

    /// Partial results consumed so far.
    pub fn consumed(&self) -> (r: usize)
        ensures
            r == self.progress().consumed,
    {
        self.consumed
    }

    /// Partial results that their senders reported dropped so far.
    pub fn dropped(&self) -> (r: usize)
        ensures
            r == self.progress().dropped,
    {
        self.dropped
    }

    /// Takes in one message from the result queue. On success, says whether
    /// the run is now complete; on a violation, nothing changes.
    pub fn receive(&mut self, msg: Message) -> (r: Result<bool, Violation>)
        requires
            old(self).wf(),
        ensures
            final(self).wf(),
            match step(old(self).progress(), event_of(msg)) {
                Err(v) => r == Err::<bool, Violation>(v),
                Ok(p) => if overflows(old(self).received(), msg) {
                    r == Err::<bool, Violation>(Violation::TallyOverflow)
                } else {
                    &&& r == Ok::<bool, Violation>(complete(p))
                    &&& final(self).progress() == p
                    &&& final(self).received() == received_after(old(self).received(), msg)
                },
            },
            r is Err ==> final(self).progress() == old(self).progress() && final(self).received() == old(self).received(),
    {
        if self.is_complete() {
            return Err(Violation::AfterCompletion);
        }
        match msg {
            Message::Count(n) => {
                if self.expected.is_some() {
                    return Err(Violation::DuplicateCount);
                }
                if self.consumed + self.dropped > n {
                    return Err(Violation::CountBelowReceived);
                }
                self.expected = Some(n);
                Ok(self.is_complete())
            },
            Message::Partial(p) => {
                if self.consumed + self.dropped >= usize::MAX {
                    return Err(Violation::TooManyItems);
                }
                let ok = fold_fits(&self.tally, &p);
                proof {
                    if ok {
                        assert forall|a: Seq<char>| #[trigger] total_of(self.received@, a) + lines_of(p@, a) <= usize::MAX by {
                            assert(lines_of(self.tally@, a) + lines_of(p@, a) <= usize::MAX);
                        }
                    } else {
                        let a = choose|a: Seq<char>| !(#[trigger] lines_of(self.tally@, a) + lines_of(p@, a) <= usize::MAX);
                        assert(!(total_of(self.received@, a) + lines_of(p@, a) <= usize::MAX));
                    }
                }
                if !ok {
                    return Err(Violation::TallyOverflow);
                }
                let ghost pv = p@;
                let ghost before = self.received@;
                let ghost t0 = self.tally@;
                blame_acc(&mut self.tally, p);
                self.received = Ghost(before.push(pv));
                self.consumed = self.consumed + 1;
                proof {
                    assert(self.received@.drop_last() =~= before);
                    assert forall|a: Seq<char>| #[trigger] has_author(self.tally@, a) <==> mentions(self.received@, a) by {
                        assert(has_author(t0, a) <==> mentions(before, a));
                    }
                }
                Ok(self.is_complete())
            },
        }
    }

    /// Takes note that a sender gave up on delivering one partial result.
    /// On success, says whether the run is now complete; on a violation,
    /// nothing changes.
    pub fn record_drop(&mut self) -> (r: Result<bool, Violation>)
        requires
            old(self).wf(),
        ensures
            final(self).wf(),
            final(self).received() == old(self).received(),
            match step(old(self).progress(), Event::Dropped) {
                Err(v) => r == Err::<bool, Violation>(v) && final(self).progress() == old(self).progress(),
                Ok(p) => r == Ok::<bool, Violation>(complete(p)) && final(self).progress() == p,
            },
    {
        if self.is_complete() {
            return Err(Violation::AfterCompletion);
        }
        if self.consumed + self.dropped >= usize::MAX {
            return Err(Violation::TooManyItems);
        }
        self.dropped = self.dropped + 1;
        Ok(self.is_complete())
    }

    /// The global tally as a ranking.
    pub fn finish(&self) -> (r: Vec<Blame>)
        requires
            self.wf(),
        ensures
            tallies(r@, self.received()),
            ranked(r@),
    {
        hm_into_vec(&self.tally)
    }
}

/// The execution modes agree: a ranking `t` of the sequential tally of the
/// maps in discovery order, and the ranking `u` that an accumulator publishes
/// after receiving the same maps in any arrival order, are the same rows in
/// the same order.
pub proof fn lemma_modes_agree(maps: Seq<Seq<Blame>>, t: Seq<Blame>, acc: Accumulator, u: Seq<Blame>)
    requires
        tallies(t, maps),
        ranked(t),
        acc.wf(),
        acc.received().to_multiset() == maps.to_multiset(),
        tallies(u, acc.received()),
        ranked(u),
    ensures
        rows(t) == rows(u),
        forall|a: Seq<char>| #[trigger] lines_of(t, a) == lines_of(u, a),
{
    lemma_tally_order_independent(maps, acc.received(), t, u);
    lemma_ranking_determined(t, u);
}

} // verus!
