//! The stream semantics every behaviour programs against, as the driver's
//! decisions: one arrival fires one run, runs wait until each input
//! has delivered a first value — before that, arrivals queue — queued
//! arrivals fire serially in arrival order, and the driver stops polling an
//! input whose unprocessed arrivals reach the hand-off's capacity, so a
//! bounded hand-off fills and the upstream stalls there. The driver owns
//! the awaiting; these decisions are everything between the awaits.

use std::collections::VecDeque;
use vstd::prelude::*;

verus! {

/// The fixed capacity of the bounded hand-off between an emitting node and
/// each downstream input.
pub const HANDOFF_CAPACITY: usize = 16;

/// What fired the behaviour run now starting.
pub enum Trigger {
    /// The node's own start: a node with no inputs is fired once.
    Start,
    /// An arrival on the named input.
    Arrival(String),
}

/// What one behaviour run asks of the driver.
#[derive(Clone, Copy, PartialEq, Eq, Structural, Debug)]
pub enum Flow {
    /// Carry on: the next arrival fires the next run.
    Continue,
    /// The node's logic is done: end the node now.
    Complete,
}

/// How a node ends once every input's stream has ended and drained.
#[derive(Clone, Copy, PartialEq, Eq, Structural, Debug)]
pub enum Ending {
    /// Every arrived value is processed, or nothing ever arrived: the node
    /// completes.
    Complete,
    /// Some input delivered and some never will: no run can ever fire,
    /// and the node neither fires nor completes.
    Hang,
}

/// The driver's decisions for one node with inputs: which inputs have
/// delivered a first value, the arrivals queued unprocessed, by input, in
/// arrival order, and each input's count of them.
pub struct Firing {
    delivered: Vec<bool>,
    queued: VecDeque<usize>,
    backlog: Vec<usize>,
}

/// How many times `index` occurs in the queue.
pub open spec fn occurrences(queue: Seq<usize>, index: usize) -> nat
    decreases queue.len(),
{
    if queue.len() == 0 {
        0
    } else {
        occurrences(queue.drop_last(), index) + if queue.last() == index { 1nat } else { 0nat }
    }
}

proof fn lemma_occurrences_push(queue: Seq<usize>, x: usize, index: usize)
    ensures
        occurrences(queue.push(x), index) == occurrences(queue, index) + if x == index { 1nat } else { 0nat },
{
    assert(queue.push(x).drop_last() =~= queue);
}

proof fn lemma_occurrences_drop_first(queue: Seq<usize>, index: usize)
    requires
        queue.len() > 0,
    ensures
        occurrences(queue, index) == occurrences(queue.drop_first(), index) + if queue[0] == index { 1nat } else { 0nat },
    decreases queue.len(),
{
    if queue.len() > 1 {
        lemma_occurrences_drop_first(queue.drop_last(), index);
        assert(queue.drop_last().drop_first() =~= queue.drop_first().drop_last());
        assert(queue.drop_first().last() == queue.last());
        assert(queue.drop_last()[0] == queue[0]);
    } else {
        assert(queue.drop_first().len() == 0);
        assert(queue.drop_last().len() == 0);
        assert(queue.last() == queue[0]);
        assert(occurrences(queue.drop_last(), index) == 0);
        assert(occurrences(queue.drop_first(), index) == 0);
    }
}

impl Firing {
    /// The invariant: one flag and one count per input, each count
    /// the number of the input's arrivals queued, each queued arrival's
    /// input delivered.
    pub closed spec fn wf(&self) -> bool {
        &&& self.delivered@.len() == self.backlog@.len()
        &&& forall|i: int| 0 <= i < self.queued@.len() ==> (#[trigger] self.queued@[i]) < self.delivered@.len()
            && self.delivered@[self.queued@[i] as int]
        &&& forall|k: usize| k < self.backlog@.len() ==> #[trigger] self.backlog@[k as int] == occurrences(self.queued@, k)
    }

    /// How many inputs the node has.
    pub closed spec fn inputs(&self) -> nat {
        self.delivered@.len()
    }

    /// The queued arrivals, by input, in arrival order.
    pub closed spec fn queue(&self) -> Seq<usize> {
        self.queued@
    }

    /// Whether input `index` has delivered a first value.
    pub closed spec fn has_delivered(&self, index: int) -> bool {
        self.delivered@[index]
    }

    /// Whether every input has delivered a first value, so runs may fire.
    pub closed spec fn open(&self) -> bool {
        forall|i: int| 0 <= i < self.delivered@.len() ==> self.delivered@[i]
    }

    /// The decisions of a node with `inputs` inputs: nothing delivered, nothing
    /// queued.
    pub fn new(inputs: usize) -> (firing: Firing)
        ensures
            firing.wf(),
            firing.inputs() == inputs,
            firing.queue().len() == 0,
            forall|i: int| 0 <= i < inputs ==> !firing.has_delivered(i),
    {
        let mut delivered: Vec<bool> = Vec::new();
        let mut backlog: Vec<usize> = Vec::new();
        while delivered.len() < inputs
            invariant
                delivered@.len() == backlog@.len(),
                delivered@.len() <= inputs,
                forall|i: int| 0 <= i < delivered@.len() ==> !delivered@[i],
                forall|i: int| 0 <= i < backlog@.len() ==> backlog@[i] == 0,
            decreases inputs - delivered@.len(),
        {
            delivered.push(false);
            backlog.push(0);
        }
        Firing { delivered, queued: VecDeque::new(), backlog }
    }

    /// Whether the driver polls input `index` for its next arrival: not
    /// while its queued arrivals fill the hand-off's capacity.
    pub fn polls(&self, index: usize) -> (polled: bool)
        requires
            self.wf(),
            index < self.inputs(),
        ensures
            polled == (occurrences(self.queue(), index) < HANDOFF_CAPACITY),
    {
        self.backlog[index] < HANDOFF_CAPACITY
    }

    /// An arrival delivered on input `index`: it queues, and the input has
    /// delivered.
    pub fn arrived(&mut self, index: usize)
        requires
            old(self).wf(),
            index < old(self).inputs(),
            occurrences(old(self).queue(), index) < HANDOFF_CAPACITY,
        ensures
            final(self).wf(),
            final(self).inputs() == old(self).inputs(),
            final(self).queue() == old(self).queue().push(index),
            forall|i: int| 0 <= i < final(self).inputs() ==> final(self).has_delivered(i) == (i == index || old(self).has_delivered(i)),
    {
        let ghost before = self.queued@;
        self.queued.push_back(index);
        self.delivered.set(index, true);
        let count = self.backlog[index];
        self.backlog.set(index, count + 1);
        proof {
            assert forall|k: usize| k < self.backlog@.len() implies #[trigger] self.backlog@[k as int] == occurrences(self.queued@, k) by {
                lemma_occurrences_push(before, index, k);
                assert(old(self).backlog@[k as int] == occurrences(before, k));
                if k != index {
                    assert(self.backlog@[k as int] == old(self).backlog@[k as int]);
                }
            }
        }
    }

    /// The next run to fire, if any: once every input has delivered, the front of the
    /// queue, taken off it; none while an input has yet to deliver or nothing waits.
    pub fn next_run(&mut self) -> (fired: Option<usize>)
        requires
            old(self).wf(),
        ensures
            final(self).wf(),
            final(self).inputs() == old(self).inputs(),
            forall|i: int| 0 <= i < final(self).inputs() ==> final(self).has_delivered(i) == old(self).has_delivered(i),
            match fired {
                Some(index) => old(self).open() && old(self).queue().len() > 0 && index == old(self).queue()[0]
                    && final(self).queue() == old(self).queue().drop_first(),
                None => (!old(self).open() || old(self).queue().len() == 0) && final(self).queue() == old(self).queue(),
            },
    {
        let mut all = true;
        let mut i: usize = 0;
        while i < self.delivered.len()
            invariant
                i <= self.delivered@.len(),
                all == forall|j: int| 0 <= j < i ==> self.delivered@[j],
            decreases self.delivered@.len() - i,
        {
            if !self.delivered[i] {
                all = false;
            }
            i = i + 1;
        }
        if !all || self.queued.len() == 0 {
            return None;
        }
        let ghost before = self.queued@;
        let index = match self.queued.pop_front() {
            Some(index) => index,
            None => {
                return None;
            },
        };
        let count = self.backlog[index];
        proof {
            lemma_occurrences_drop_first(before, index);
            assert(self.queued@ =~= before.drop_first());
        }
        self.backlog.set(index, count - 1);
        proof {
            assert forall|k: usize| k < self.backlog@.len() implies #[trigger] self.backlog@[k as int] == occurrences(self.queued@, k) by {
                lemma_occurrences_drop_first(before, k);
                assert(old(self).backlog@[k as int] == occurrences(before, k));
                if k != index {
                    assert(self.backlog@[k as int] == old(self).backlog@[k as int]);
                }
            }
            assert forall|q: int| 0 <= q < self.queued@.len() implies (#[trigger] self.queued@[q]) < self.delivered@.len()
                && self.delivered@[self.queued@[q] as int] by {
                assert(self.queued@[q] == before[q + 1]);
            }
        }
        Some(index)
    }

    /// How the node ends once every input's stream has ended and drained:
    /// it completes once every input delivered or with nothing ever delivered, and
    /// hangs otherwise.
    pub fn ended(&self) -> (ending: Ending)
        requires
            self.wf(),
        ensures
            ending == if self.open() || forall|i: int| 0 <= i < self.inputs() ==> !self.has_delivered(i) {
                Ending::Complete
            } else {
                Ending::Hang
            },
    {
        let mut all = true;
        let mut any = false;
        let mut i: usize = 0;
        while i < self.delivered.len()
            invariant
                i <= self.delivered@.len(),
                all == forall|j: int| 0 <= j < i ==> self.delivered@[j],
                any == exists|j: int| 0 <= j < i && self.delivered@[j],
            decreases self.delivered@.len() - i,
        {
            if self.delivered[i] {
                any = true;
            } else {
                all = false;
            }
            i = i + 1;
        }
        if all || !any {
            proof {
                if !all {
                    assert forall|j: int| 0 <= j < self.inputs() implies !self.has_delivered(j) by {
                        if self.delivered@[j] {
                            assert(exists|m: int| 0 <= m < i && self.delivered@[m]);
                        }
                    }
                }
            }
            Ending::Complete
        } else {
            proof {
                let j = choose|j: int| 0 <= j < i && self.delivered@[j];
                assert(self.has_delivered(j));
                assert(!self.open());
            }
            Ending::Hang
        }
    }
}


/// One call on a node's firing decisions, with what it answered.
pub enum FiringCall {
    Arrived(usize),
    NextRun(Option<usize>),
}

/// What one call does to the decisions, as its contract states it.
pub open spec fn called(before: Firing, call: FiringCall, after: Firing) -> bool {
    &&& after.inputs() == before.inputs()
    &&& match call {
        FiringCall::Arrived(index) => {
            &&& index < before.inputs()
            &&& after.queue() == before.queue().push(index)
            &&& forall|i: int| 0 <= i < after.inputs() ==> after.has_delivered(i) == (i == index || before.has_delivered(i))
        },
        FiringCall::NextRun(fired) => {
            &&& forall|i: int| 0 <= i < after.inputs() ==> after.has_delivered(i) == before.has_delivered(i)
            &&& match fired {
                Some(index) => before.open() && before.queue().len() > 0 && index == before.queue()[0]
                    && after.queue() == before.queue().drop_first(),
                None => (!before.open() || before.queue().len() == 0) && after.queue() == before.queue(),
            }
        },
    }
}

/// Whether the call fired a run.
pub open spec fn fires_run(call: FiringCall) -> bool {
    call matches FiringCall::NextRun(Some(_))
}

/// The inputs the calls delivered on, in order.
pub open spec fn arrivals(calls: Seq<FiringCall>) -> Seq<usize>
    decreases calls.len(),
{
    if calls.len() == 0 {
        Seq::empty()
    } else {
        match calls.last() {
            FiringCall::Arrived(index) => arrivals(calls.drop_last()).push(index),
            FiringCall::NextRun(_) => arrivals(calls.drop_last()),
        }
    }
}

/// The runs the calls fired, in order.
pub open spec fn runs(calls: Seq<FiringCall>) -> Seq<usize>
    decreases calls.len(),
{
    if calls.len() == 0 {
        Seq::empty()
    } else {
        match calls.last() {
            FiringCall::NextRun(Some(index)) => runs(calls.drop_last()).push(index),
            _ => runs(calls.drop_last()),
        }
    }
}

/// Over any sequence of calls from fresh decisions: the runs fired, then
/// the arrivals still queued, are the arrivals in the order they came —
/// one run per arrival, in order — and no run fires before every input has
/// delivered at least once.
pub proof fn lemma_firing_law(states: Seq<Firing>, calls: Seq<FiringCall>)
    requires
        states.len() == calls.len() + 1,
        states[0].queue().len() == 0,
        forall|i: int| 0 <= i < states[0].inputs() ==> !states[0].has_delivered(i),
        forall|k: int| 0 <= k < calls.len() ==> called(states[k], #[trigger] calls[k], states[k + 1]),
    ensures
        runs(calls) + states.last().queue() == arrivals(calls),
        forall|k: int| 0 <= k < calls.len() && fires_run(#[trigger] calls[k]) ==>
            forall|i: usize| i < states[0].inputs() ==> #[trigger] arrivals(calls.subrange(0, k)).contains(i),
    decreases calls.len(),
{
    if calls.len() > 0 {
        let n = calls.len() - 1;
        let shorter = states.drop_last();
        assert forall|k: int| 0 <= k < calls.drop_last().len() implies called(shorter[k], #[trigger] calls.drop_last()[k], shorter[k + 1]) by {
            assert(calls.drop_last()[k] == calls[k]);
        }
        lemma_firing_law(shorter, calls.drop_last());
        assert(called(states[n], calls[n], states[n + 1]));
        let before = states[n].queue();
        match calls[n] {
            FiringCall::Arrived(index) => {
                assert(runs(calls) + states.last().queue() =~= (runs(calls.drop_last()) + before).push(index));
            },
            FiringCall::NextRun(fired) => {
                match fired {
                    Some(index) => {
                        assert(runs(calls) + states.last().queue() =~= runs(calls.drop_last()) + before);
                    },
                    None => {},
                }
            },
        }
        lemma_delivered_arrived(states, calls, n);
        assert forall|k: int| 0 <= k < calls.len() && fires_run(#[trigger] calls[k]) implies
            forall|i: usize| i < states[0].inputs() ==> #[trigger] arrivals(calls.subrange(0, k)).contains(i) by {
            if k < n {
                assert(calls.drop_last()[k] == calls[k]);
                assert(calls.drop_last().subrange(0, k) =~= calls.subrange(0, k));
            } else {
                assert(calls.subrange(0, n) =~= calls.drop_last());
                assert forall|i: usize| i < states[0].inputs() implies #[trigger] arrivals(calls.subrange(0, k)).contains(i) by {
                    assert(states[n].open());
                    lemma_inputs_kept(states, calls, n);
                    assert(states[n].has_delivered(i as int));
                }
            }
        }
    }
}

proof fn lemma_inputs_kept(states: Seq<Firing>, calls: Seq<FiringCall>, k: int)
    requires
        states.len() == calls.len() + 1,
        0 <= k <= calls.len(),
        forall|j: int| 0 <= j < calls.len() ==> called(states[j], #[trigger] calls[j], states[j + 1]),
    ensures
        states[k].inputs() == states[0].inputs(),
    decreases k,
{
    if k > 0 {
        lemma_inputs_kept(states, calls, k - 1);
        assert(called(states[k - 1], calls[k - 1], states[k]));
    }
}

/// An input delivered by the `k`th state arrived among the first `k` calls.
proof fn lemma_delivered_arrived(states: Seq<Firing>, calls: Seq<FiringCall>, k: int)
    requires
        states.len() == calls.len() + 1,
        0 <= k <= calls.len(),
        forall|i: int| 0 <= i < states[0].inputs() ==> !states[0].has_delivered(i),
        forall|j: int| 0 <= j < calls.len() ==> called(states[j], #[trigger] calls[j], states[j + 1]),
    ensures
        forall|i: int| 0 <= i < states[k].inputs() && states[k].has_delivered(i) ==> arrivals(calls.subrange(0, k)).contains(i as usize),
    decreases k,
{
    if k > 0 {
        lemma_delivered_arrived(states, calls, k - 1);
        lemma_inputs_kept(states, calls, k - 1);
        assert(called(states[k - 1], calls[k - 1], states[k]));
        let prefix = calls.subrange(0, k);
        assert(prefix.drop_last() =~= calls.subrange(0, k - 1));
        assert(prefix.last() == calls[k - 1]);
        assert forall|i: int| 0 <= i < states[k].inputs() && states[k].has_delivered(i) implies arrivals(prefix).contains(i as usize) by {
            match calls[k - 1] {
                FiringCall::Arrived(index) => {
                    if i == index {
                        assert(arrivals(prefix).last() == index);
                    } else {
                        let earlier = arrivals(calls.subrange(0, k - 1));
                        assert(earlier.contains(i as usize));
                        let w = choose|w: int| 0 <= w < earlier.len() && #[trigger] earlier[w] == i as usize;
                        assert(arrivals(prefix)[w] == i as usize);
                    }
                },
                FiringCall::NextRun(_) => {},
            }
        }
    } else {
        assert(calls.subrange(0, 0).len() == 0);
    }
}

} // verus!
