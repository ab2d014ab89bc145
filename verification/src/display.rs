//! What the canvas shows of a run, derived from the run's own events: the
//! per-node status — running from a node's started event, completed or
//! failed from its own final transition, and stopped when a failed or
//! user-stopped run's finish closes a started node without one — and the
//! latest value per emitting port, as the text the browser renders. Both
//! persist after the run ends, until the next start resets them.

use vstd::prelude::*;
use crate::text::same_text;

verus! {

/// A node's derived status.
#[derive(Clone, Copy, PartialEq, Eq, Structural, Debug)]
pub enum Status {
    Running,
    Completed,
    Failed,
    Stopped,
}

impl Status {
    /// The status's name, as the canvas renders it.
    pub fn name(self) -> (name: &'static str)
        ensures
            name@ == match self {
                Status::Running => "running"@,
                Status::Completed => "completed"@,
                Status::Failed => "failed"@,
                Status::Stopped => "stopped"@,
            },
    {
        match self {
            Status::Running => "running",
            Status::Completed => "completed",
            Status::Failed => "failed",
            Status::Stopped => "stopped",
        }
    }
}

/// How a run ended, as the engine tells it: every node complete, a stop,
/// or the first error, with the node whose failure ended the run when it
/// ended on one.
pub enum RunOutcome {
    Complete,
    Failed { error: String, node: Option<u128> },
    Stopped,
}

/// What the running tasks report to the run, one report at a time: every
/// task has ended, one node's task ended cleanly or with its error, a task
/// died without reporting, or the stop signal changed.
pub enum TaskReport {
    AllEnded,
    NodeEnded,
    NodeFailed { node: u128, error: String },
    TaskLost { error: String },
    StopChanged { stop: bool },
}

/// Fold one task report into the run: the outcome that ends the run, or
/// none while it goes on. Every task ended is a complete run, the first
/// node failure or lost task ends it failed, and a raised stop ends it
/// stopped.
pub fn run_step(report: TaskReport) -> (ending: Option<RunOutcome>)
    ensures
        match report {
            TaskReport::AllEnded => ending == Some(RunOutcome::Complete),
            TaskReport::NodeEnded => ending is None,
            TaskReport::NodeFailed { node, error } => ending == Some(RunOutcome::Failed { error, node: Some(node) }),
            TaskReport::TaskLost { error } => ending == Some(RunOutcome::Failed { error, node: None }),
            TaskReport::StopChanged { stop } => ending == if stop { Some(RunOutcome::Stopped) } else { None },
        },
{
    match report {
        TaskReport::AllEnded => Some(RunOutcome::Complete),
        TaskReport::NodeEnded => None,
        TaskReport::NodeFailed { node, error } => Some(RunOutcome::Failed { error, node: Some(node) }),
        TaskReport::TaskLost { error } => Some(RunOutcome::Failed { error, node: None }),
        TaskReport::StopChanged { stop } => if stop { Some(RunOutcome::Stopped) } else { None },
    }
}

/// One event of a run, as the display hears it. An emission carries the
/// text a browser renders for its value, when there is one: a plugin's
/// custom type has none of the library's inventing.
pub enum RunEvent {
    RunStarted,
    NodeStarted(u128),
    Emitted { node: u128, port: String, value: Option<String> },
    NodeCompleted(u128),
    NodeFailed { node: u128, error: String },
    RunFinished(RunOutcome),
}

/// The per-node statuses and the latest text held per emitting port.
pub struct RunDisplay {
    pub statuses: Vec<(u128, Status)>,
    pub values: Vec<(u128, String, String)>,
}

/// The map a list of keyed entries stands for, a later entry of a key
/// winning.
pub open spec fn keyed<K, V>(entries: Seq<(K, V)>) -> Map<K, V>
    decreases entries.len(),
{
    if entries.len() == 0 {
        Map::empty()
    } else {
        keyed(entries.drop_last()).insert(entries.last().0, entries.last().1)
    }
}

/// No key occurs twice among the entries.
pub open spec fn unique_keys<K, V>(entries: Seq<(K, V)>) -> bool {
    forall|i: int, j: int| 0 <= i < j < entries.len() ==> (#[trigger] entries[i]).0 != (#[trigger] entries[j]).0
}

/// The held values as keyed entries: by node and port, the text.
pub open spec fn value_entries(values: Seq<(u128, String, String)>) -> Seq<((u128, Seq<char>), Seq<char>)> {
    values.map_values(|v: (u128, String, String)| ((v.0, v.1@), v.2@))
}

pub proof fn lemma_keyed_dom<K, V>(entries: Seq<(K, V)>, key: K)
    ensures
        keyed(entries).dom().contains(key) <==> exists|i: int| 0 <= i < entries.len() && (#[trigger] entries[i]).0 == key,
    decreases entries.len(),
{
    if entries.len() > 0 {
        lemma_keyed_dom(entries.drop_last(), key);
        if exists|i: int| 0 <= i < entries.len() && (#[trigger] entries[i]).0 == key {
            let i = choose|i: int| 0 <= i < entries.len() && (#[trigger] entries[i]).0 == key;
            if i < entries.len() - 1 {
                assert(entries.drop_last()[i] == entries[i]);
            }
        }
        if exists|i: int| 0 <= i < entries.drop_last().len() && (#[trigger] entries.drop_last()[i]).0 == key {
            let i = choose|i: int| 0 <= i < entries.drop_last().len() && (#[trigger] entries.drop_last()[i]).0 == key;
            assert(entries[i] == entries.drop_last()[i]);
        }
    }
}

pub proof fn lemma_keyed_at<K, V>(entries: Seq<(K, V)>, i: int)
    requires
        unique_keys(entries),
        0 <= i < entries.len(),
    ensures
        keyed(entries).dom().contains(entries[i].0),
        keyed(entries)[entries[i].0] == entries[i].1,
    decreases entries.len(),
{
    if i < entries.len() - 1 {
        assert(entries.drop_last()[i] == entries[i]);
        assert(unique_keys(entries.drop_last())) by {
            assert forall|a: int, b: int| 0 <= a < b < entries.drop_last().len() implies
                (#[trigger] entries.drop_last()[a]).0 != (#[trigger] entries.drop_last()[b]).0 by {
                assert(entries.drop_last()[a] == entries[a] && entries.drop_last()[b] == entries[b]);
            }
        }
        lemma_keyed_at(entries.drop_last(), i);
        assert(entries[i].0 != entries.last().0);
    }
}

pub proof fn lemma_keyed_update<K, V>(entries: Seq<(K, V)>, i: int, value: V)
    requires
        unique_keys(entries),
        0 <= i < entries.len(),
    ensures
        keyed(entries.update(i, (entries[i].0, value))) == keyed(entries).insert(entries[i].0, value),
        unique_keys(entries.update(i, (entries[i].0, value))),
    decreases entries.len(),
{
    let updated = entries.update(i, (entries[i].0, value));
    assert forall|a: int, b: int| 0 <= a < b < updated.len() implies (#[trigger] updated[a]).0 != (#[trigger] updated[b]).0 by {
        assert(updated[a].0 == entries[a].0 && updated[b].0 == entries[b].0);
    }
    if i == entries.len() - 1 {
        assert(updated.drop_last() =~= entries.drop_last());
        assert(keyed(updated) =~= keyed(entries).insert(entries[i].0, value));
    } else {
        assert(unique_keys(entries.drop_last())) by {
            assert forall|a: int, b: int| 0 <= a < b < entries.drop_last().len() implies
                (#[trigger] entries.drop_last()[a]).0 != (#[trigger] entries.drop_last()[b]).0 by {
                assert(entries.drop_last()[a] == entries[a] && entries.drop_last()[b] == entries[b]);
            }
        }
        assert(updated.drop_last() =~= entries.drop_last().update(i, (entries[i].0, value)));
        assert(entries.drop_last()[i] == entries[i]);
        lemma_keyed_update(entries.drop_last(), i, value);
        assert(entries[i].0 != entries.last().0);
        assert(keyed(updated) =~= keyed(entries).insert(entries[i].0, value));
    }
}

pub proof fn lemma_keyed_push<K, V>(entries: Seq<(K, V)>, key: K, value: V)
    requires
        unique_keys(entries),
        !keyed(entries).dom().contains(key),
    ensures
        keyed(entries.push((key, value))) == keyed(entries).insert(key, value),
        unique_keys(entries.push((key, value))),
{
    assert(entries.push((key, value)).drop_last() =~= entries);
    lemma_keyed_dom(entries, key);
    let pushed = entries.push((key, value));
    assert forall|a: int, b: int| 0 <= a < b < pushed.len() implies (#[trigger] pushed[a]).0 != (#[trigger] pushed[b]).0 by {
        if b == entries.len() {
            assert(pushed[a] == entries[a]);
        } else {
            assert(pushed[a] == entries[a] && pushed[b] == entries[b]);
        }
    }
}

/// The changes a run's finish makes: every node still running, stopped.
pub open spec fn closed(statuses: Map<u128, Status>) -> Map<u128, Status> {
    Map::new(|node: u128| statuses.dom().contains(node), |node: u128|
        if statuses[node] == Status::Running { Status::Stopped } else { statuses[node] })
}

/// A run that ends failed or stopped leaves no node showing as running:
/// every node it closes keeps the status it had, or shows as stopped.
pub proof fn lemma_closed_nothing_running(statuses: Map<u128, Status>)
    ensures
        closed(statuses).dom() == statuses.dom(),
        forall|node: u128| #[trigger] closed(statuses).dom().contains(node) ==> closed(statuses)[node] != Status::Running,
        forall|node: u128| #[trigger] statuses.dom().contains(node) && statuses[node] != Status::Running
            ==> closed(statuses)[node] == statuses[node],
{
    assert(closed(statuses).dom() =~= statuses.dom());
}

impl RunDisplay {
    /// The statuses, by node.
    pub open spec fn statuses_view(&self) -> Map<u128, Status> {
        keyed(self.statuses@)
    }

    /// The latest text held, by node and port.
    pub open spec fn values_view(&self) -> Map<(u128, Seq<char>), Seq<char>> {
        keyed(value_entries(self.values@))
    }

    /// Each node holds one status entry, each port one value entry.
    pub open spec fn wf(&self) -> bool {
        &&& unique_keys(self.statuses@)
        &&& unique_keys(value_entries(self.values@))
    }

    /// The canvas before any run: nothing shown.
    pub fn new() -> (display: RunDisplay)
        ensures
            display.wf(),
            display.statuses_view() == Map::<u128, Status>::empty(),
            display.values_view() == Map::<(u128, Seq<char>), Seq<char>>::empty(),
    {
        let display = RunDisplay { statuses: Vec::new(), values: Vec::new() };
        assert(value_entries(display.values@) =~= Seq::empty());
        display
    }

    /// The next start resets the canvas: the last run's statuses and values
    /// give way.
    pub fn reset(&mut self)
        ensures
            final(self).wf(),
            final(self).statuses_view() == Map::<u128, Status>::empty(),
            final(self).values_view() == Map::<(u128, Seq<char>), Seq<char>>::empty(),
    {
        self.statuses = Vec::new();
        self.values = Vec::new();
        assert(value_entries(self.values@) =~= Seq::empty());
    }
}


/// How the last run ended, as the run state carries it beside the idle
/// state: completed, stopped, or failed — with what failed and at which
/// node, when the failure named one.
pub enum Outcome {
    Completed,
    Failed { error: String, node: Option<u128> },
    Stopped,
}

impl Outcome {
    /// The outcome's name.
    pub fn name(&self) -> (name: &'static str)
        ensures
            name@ == match *self {
                Outcome::Completed => "completed"@,
                Outcome::Stopped => "stopped"@,
                Outcome::Failed { .. } => "failed"@,
            },
    {
        match self {
            Outcome::Completed => "completed",
            Outcome::Stopped => "stopped",
            Outcome::Failed { .. } => "failed",
        }
    }
}

/// The run-state outcome an engine outcome is told as.
pub open spec fn told(outcome: RunOutcome) -> Outcome {
    match outcome {
        RunOutcome::Complete => Outcome::Completed,
        RunOutcome::Failed { error, node } => Outcome::Failed { error, node },
        RunOutcome::Stopped => Outcome::Stopped,
    }
}

/// Whether some entry has the key `node`.
pub open spec fn names_key(entries: Seq<(u128, Status)>, node: u128) -> bool {
    exists|c: int| 0 <= c < entries.len() && (#[trigger] entries[c]).0 == node
}

/// Whether some entry holds `node` running.
pub open spec fn running_at(entries: Seq<(u128, Status)>, node: u128) -> bool {
    exists|j: int| 0 <= j < entries.len() && (#[trigger] entries[j]).0 == node && entries[j].1 == Status::Running
}

/// The keys of the running entries, in order, each as stopped.
pub open spec fn running_keys(entries: Seq<(u128, Status)>) -> Seq<(u128, Status)>
    decreases entries.len(),
{
    if entries.len() == 0 {
        Seq::empty()
    } else {
        let rest = running_keys(entries.drop_last());
        if entries.last().1 == Status::Running { rest.push((entries.last().0, Status::Stopped)) } else { rest }
    }
}

proof fn lemma_running_keys(entries: Seq<(u128, Status)>)
    requires
        unique_keys(entries),
    ensures
        unique_keys(running_keys(entries)),
        forall|c: int| 0 <= c < running_keys(entries).len() ==> (#[trigger] running_keys(entries)[c]).1 == Status::Stopped,
        forall|node: u128| #![trigger names_key(running_keys(entries), node)] #![trigger running_at(entries, node)]
            names_key(running_keys(entries), node) <==> running_at(entries, node),
    decreases entries.len(),
{
    if entries.len() > 0 {
        let rest = entries.drop_last();
        assert(unique_keys(rest)) by {
            assert forall|a: int, b: int| 0 <= a < b < rest.len() implies (#[trigger] rest[a]).0 != (#[trigger] rest[b]).0 by {
                assert(rest[a] == entries[a] && rest[b] == entries[b]);
            }
        }
        lemma_running_keys(rest);
        let rk = running_keys(rest);
        let last = entries.last();
        assert forall|node: u128| #![trigger names_key(running_keys(entries), node)] #![trigger running_at(entries, node)]
            names_key(running_keys(entries), node) <==> running_at(entries, node) by {
            if names_key(running_keys(entries), node) {
                let c = choose|c: int| 0 <= c < running_keys(entries).len() && (#[trigger] running_keys(entries)[c]).0 == node;
                if c < rk.len() {
                    assert(running_keys(entries)[c] == rk[c]);
                    assert(names_key(rk, node));
                    assert(running_at(rest, node));
                    let j = choose|j: int| 0 <= j < rest.len() && (#[trigger] rest[j]).0 == node && rest[j].1 == Status::Running;
                    assert(entries[j] == rest[j]);
                } else {
                    assert(entries[entries.len() - 1] == last);
                }
            }
            if running_at(entries, node) {
                let j = choose|j: int| 0 <= j < entries.len() && (#[trigger] entries[j]).0 == node && entries[j].1 == Status::Running;
                if j < entries.len() - 1 {
                    assert(rest[j] == entries[j]);
                    assert(running_at(rest, node));
                    assert(names_key(rk, node));
                    let c = choose|c: int| 0 <= c < rk.len() && (#[trigger] rk[c]).0 == node;
                    assert(running_keys(entries)[c] == rk[c]);
                } else {
                    assert(running_keys(entries)[rk.len() as int].0 == node);
                }
            }
        }
        if last.1 == Status::Running {
            let all = running_keys(entries);
            assert forall|a: int, b: int| 0 <= a < b < all.len() implies (#[trigger] all[a]).0 != (#[trigger] all[b]).0 by {
                if b == rk.len() {
                    assert(all[a] == rk[a]);
                    assert(names_key(rk, rk[a].0));
                    assert(running_at(rest, rk[a].0));
                    let j = choose|j: int| 0 <= j < rest.len() && (#[trigger] rest[j]).0 == rk[a].0 && rest[j].1 == Status::Running;
                    assert(entries[j] == rest[j]);
                    assert(entries[j].0 != entries[entries.len() - 1].0);
                } else {
                    assert(all[a] == rk[a] && all[b] == rk[b]);
                }
            }
            assert forall|c: int| 0 <= c < all.len() implies (#[trigger] all[c]).1 == Status::Stopped by {
                if c < rk.len() {
                    assert(all[c] == rk[c]);
                }
            }
        }
    }
}

/// What hearing one event derived: the status changes to push, in order,
/// and — for a run's finish — the outcome the run state takes.
pub struct Heard {
    pub changes: Vec<(u128, Status)>,
    pub outcome: Option<Outcome>,
}

/// The status change a node event derives, if any.
pub open spec fn derived(event: RunEvent) -> Option<(u128, Status)> {
    match event {
        RunEvent::NodeStarted(node) => Some((node, Status::Running)),
        RunEvent::NodeCompleted(node) => Some((node, Status::Completed)),
        RunEvent::NodeFailed { node, .. } => Some((node, Status::Failed)),
        _ => None,
    }
}

/// Whether a run's finish closes the started nodes: a failed or stopped one.
pub open spec fn closes(event: RunEvent) -> bool {
    event matches RunEvent::RunFinished(o) && !(o is Complete)
}

impl RunDisplay {
    fn set_status(&mut self, node: u128, status: Status)
        requires
            old(self).wf(),
        ensures
            final(self).wf(),
            final(self).statuses_view() == old(self).statuses_view().insert(node, status),
            final(self).values == old(self).values,
    {
        let mut i: usize = 0;
        while i < self.statuses.len()
            invariant
                i <= self.statuses@.len(),
                *self == *old(self),
                old(self).wf(),
                forall|j: int| 0 <= j < i ==> (#[trigger] self.statuses@[j]).0 != node,
            decreases self.statuses@.len() - i,
        {
            if self.statuses[i].0 == node {
                proof {
                    lemma_keyed_update(self.statuses@, i as int, status);
                }
                self.statuses.set(i, (node, status));
                return;
            }
            i = i + 1;
        }
        proof {
            lemma_keyed_dom(self.statuses@, node);
            lemma_keyed_push(self.statuses@, node, status);
        }
        self.statuses.push((node, status));
    }

    fn set_value(&mut self, node: u128, port: String, text: String)
        requires
            old(self).wf(),
        ensures
            final(self).wf(),
            final(self).values_view() == old(self).values_view().insert((node, port@), text@),
            final(self).statuses == old(self).statuses,
    {
        let ghost entries = value_entries(self.values@);
        let mut i: usize = 0;
        while i < self.values.len()
            invariant
                i <= self.values@.len(),
                *self == *old(self),
                old(self).wf(),
                entries == value_entries(self.values@),
                forall|j: int| 0 <= j < i ==> (#[trigger] entries[j]).0 != (node, port@),
            decreases self.values@.len() - i,
        {
            if self.values[i].0 == node && same_text(self.values[i].1.as_str(), port.as_str()) {
                proof {
                    assert(entries[i as int].0 == (node, port@));
                    lemma_keyed_update(entries, i as int, text@);
                }
                let ghost shown = text@;
                let ghost key = port@;
                self.values.set(i, (node, port, text));
                assert(value_entries(self.values@) =~= entries.update(i as int, ((node, key), shown)));
                return;
            }
            i = i + 1;
        }
        proof {
            lemma_keyed_dom(entries, (node, port@));
            lemma_keyed_push(entries, (node, port@), text@);
        }
        let ghost shown = text@;
        let ghost key = port@;
        self.values.push((node, port, text));
        assert(value_entries(self.values@) =~= entries.push(((node, key), shown)));
    }

    /// A failed or stopped run's closure: every node still running, stopped;
    /// each one so closed, in order.
    fn close_running(&mut self) -> (changes: Vec<(u128, Status)>)
        requires
            old(self).wf(),
        ensures
            final(self).wf(),
            final(self).statuses_view() == closed(old(self).statuses_view()),
            final(self).values == old(self).values,
            unique_keys(changes@),
            forall|i: int| 0 <= i < changes@.len() ==> (#[trigger] changes@[i]).1 == Status::Stopped,
            forall|node: u128| #[trigger] names_key(changes@, node)
                <==> (old(self).statuses_view().dom().contains(node) && old(self).statuses_view()[node] == Status::Running),
    {
        let ghost start = self.statuses@;
        let mut changes: Vec<(u128, Status)> = Vec::new();
        let mut i: usize = 0;
        assert(start.subrange(0, 0) =~= Seq::<(u128, Status)>::empty());
        while i < self.statuses.len()
            invariant
                i <= self.statuses@.len(),
                self.statuses@.len() == start.len(),
                start == old(self).statuses@,
                self.values == old(self).values,
                old(self).wf(),
                forall|j: int| 0 <= j < start.len() ==> (#[trigger] self.statuses@[j]).0 == start[j].0,
                forall|j: int| 0 <= j < i ==> (#[trigger] self.statuses@[j]).1 == if start[j].1 == Status::Running { Status::Stopped } else { start[j].1 },
                forall|j: int| i <= j < start.len() ==> (#[trigger] self.statuses@[j]).1 == start[j].1,
                changes@ == running_keys(start.subrange(0, i as int)),
            decreases self.statuses@.len() - i,
        {
            assert(start.subrange(0, i + 1).drop_last() =~= start.subrange(0, i as int));
            assert(start.subrange(0, i + 1).last() == start[i as int]);
            if self.statuses[i].1 == Status::Running {
                let node = self.statuses[i].0;
                self.statuses.set(i, (node, Status::Stopped));
                changes.push((node, Status::Stopped));
            }
            i = i + 1;
        }
        proof {
            assert(start.subrange(0, start.len() as int) =~= start);
            lemma_running_keys(start);
            let now = self.statuses@;
            assert(unique_keys(now)) by {
                assert forall|a: int, b: int| 0 <= a < b < now.len() implies (#[trigger] now[a]).0 != (#[trigger] now[b]).0 by {
                    assert(now[a].0 == start[a].0 && now[b].0 == start[b].0);
                }
            }
            assert forall|node: u128| #[trigger] keyed(now).dom().contains(node) == closed(keyed(start)).dom().contains(node) by {
                lemma_keyed_dom(now, node);
                lemma_keyed_dom(start, node);
                if exists|j: int| 0 <= j < now.len() && (#[trigger] now[j]).0 == node {
                    let j = choose|j: int| 0 <= j < now.len() && (#[trigger] now[j]).0 == node;
                    assert(start[j].0 == node);
                }
                if exists|j: int| 0 <= j < start.len() && (#[trigger] start[j]).0 == node {
                    let j = choose|j: int| 0 <= j < start.len() && (#[trigger] start[j]).0 == node;
                    assert(now[j].0 == node);
                }
            }
            assert forall|node: u128| #[trigger] keyed(now).dom().contains(node) implies keyed(now)[node] == closed(keyed(start))[node] by {
                lemma_keyed_dom(now, node);
                let j = choose|j: int| 0 <= j < now.len() && (#[trigger] now[j]).0 == node;
                lemma_keyed_at(now, j);
                lemma_keyed_at(start, j);
            }
            assert(keyed(now) =~= closed(keyed(start)));
            assert forall|node: u128| #[trigger] names_key(changes@, node)
                <==> (keyed(start).dom().contains(node) && keyed(start)[node] == Status::Running) by {
                lemma_keyed_dom(start, node);
                if running_at(start, node) {
                    let j = choose|j: int| 0 <= j < start.len() && (#[trigger] start[j]).0 == node && start[j].1 == Status::Running;
                    lemma_keyed_at(start, j);
                }
                if keyed(start).dom().contains(node) && keyed(start)[node] == Status::Running {
                    let j = choose|j: int| 0 <= j < start.len() && (#[trigger] start[j]).0 == node;
                    lemma_keyed_at(start, j);
                    assert(start[j].0 == node && start[j].1 == Status::Running);
                    assert(running_at(start, node));
                }
            }
        }
        changes
    }

    /// Hear one event of the run: derive the status change it makes and
    /// hold an emission's text as its port's latest. A run's finish carries
    /// its outcome back; a failed or stopped one first closes every started
    /// node that made no final transition of its own, as stopped.
    pub fn hear(&mut self, event: RunEvent) -> (heard: Heard)
        requires
            old(self).wf(),
        ensures
            final(self).wf(),
            match derived(event) {
                Some(change) => {
                    &&& final(self).statuses_view() == old(self).statuses_view().insert(change.0, change.1)
                    &&& heard.changes@ == seq![change]
                },
                None => !closes(event) ==> final(self).statuses_view() == old(self).statuses_view() && heard.changes@.len() == 0,
            },
            closes(event) ==> {
                &&& final(self).statuses_view() == closed(old(self).statuses_view())
                &&& unique_keys(heard.changes@)
                &&& forall|i: int| 0 <= i < heard.changes@.len() ==> (#[trigger] heard.changes@[i]).1 == Status::Stopped
                &&& forall|node: u128| #[trigger] names_key(heard.changes@, node)
                    <==> (old(self).statuses_view().dom().contains(node) && old(self).statuses_view()[node] == Status::Running)
            },
            match event {
                RunEvent::Emitted { node, port, value: Some(text) } => final(self).values_view() == old(self).values_view().insert((node, port@), text@),
                _ => final(self).values_view() == old(self).values_view(),
            },
            match event {
                RunEvent::RunFinished(outcome) => heard.outcome == Some(told(outcome)),
                _ => heard.outcome is None,
            },
    {
        match event {
            RunEvent::RunStarted => Heard { changes: Vec::new(), outcome: None },
            RunEvent::Emitted { node, port, value } => {
                match value {
                    Some(text) => self.set_value(node, port, text),
                    None => {},
                }
                Heard { changes: Vec::new(), outcome: None }
            },
            RunEvent::NodeStarted(node) => {
                self.set_status(node, Status::Running);
                Heard { changes: vec![(node, Status::Running)], outcome: None }
            },
            RunEvent::NodeCompleted(node) => {
                self.set_status(node, Status::Completed);
                Heard { changes: vec![(node, Status::Completed)], outcome: None }
            },
            RunEvent::NodeFailed { node, .. } => {
                self.set_status(node, Status::Failed);
                Heard { changes: vec![(node, Status::Failed)], outcome: None }
            },
            RunEvent::RunFinished(outcome) => {
                let told_outcome = match outcome {
                    RunOutcome::Complete => Outcome::Completed,
                    RunOutcome::Failed { error, node } => Outcome::Failed { error, node },
                    RunOutcome::Stopped => Outcome::Stopped,
                };
                let changes = match told_outcome {
                    Outcome::Completed => Vec::new(),
                    _ => self.close_running(),
                };
                Heard { changes, outcome: Some(told_outcome) }
            },
        }
    }
}

} // verus!
