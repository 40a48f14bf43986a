use crate::task::{replicas, Task};
use vstd::multiset::Multiset;
use vstd::prelude::*;

verus! {

broadcast use vstd::multiset::group_multiset_axioms;

/// What happened: a request entered the global queue, a worker expanded a
/// request into that many tasks, a worker started or finished a task, or a
/// worker stole a task from the worker with that index.
#[derive(Clone, Copy, Debug, PartialEq, Eq, Structural)]
pub enum EventCategory {
    AddRequest,
    AddTasks(usize),
    StartProcessing,
    EndProcessing,
    Steal(usize),
}

/// One timestamped notification. `request` is the tag of the request it
/// concerns, `replica` the task's index (zero for the request-wide events),
/// and `lane` the stream it belongs to: a worker's index, or the worker count
/// for the global submission queue.
#[derive(Clone, Copy, Debug, PartialEq, Eq, Structural)]
pub struct Event {
    pub category: EventCategory,
    pub time: u64,
    pub request: usize,
    pub replica: usize,
    pub lane: usize,
}

impl Event {
    pub open spec fn task(self) -> Task {
        Task { request: self.request, replica: self.replica }
    }
}

/// The tasks named by the events of category `c` in `log`.
pub open spec fn tasks_with(log: Seq<Event>, c: EventCategory) -> Multiset<Task>
    decreases log.len(),
{
    if log.len() == 0 {
        Multiset::empty()
    } else if log.last().category == c {
        tasks_with(log.drop_last(), c).insert(log.last().task())
    } else {
        tasks_with(log.drop_last(), c)
    }
}

/// The tasks that the expansions recorded in `log` created.
pub open spec fn created(log: Seq<Event>) -> Multiset<Task>
    decreases log.len(),
{
    if log.len() == 0 {
        Multiset::empty()
    } else {
        match log.last().category {
            EventCategory::AddTasks(n) => created(log.drop_last()).add(
                replicas(log.last().request, n as nat),
            ),
            _ => created(log.drop_last()),
        }
    }
}

/// How many events of category `c` in `log` carry the tag `r`.
pub open spec fn count_tagged(log: Seq<Event>, c: EventCategory, r: usize) -> nat
    decreases log.len(),
{
    if log.len() == 0 {
        0
    } else {
        count_tagged(log.drop_last(), c, r) + if log.last().category == c && log.last().request
            == r {
            1nat
        } else {
            0nat
        }
    }
}

/// The log's events are in order of time.
pub open spec fn time_ordered(log: Seq<Event>) -> bool {
    forall|i: int, j: int| 0 <= i <= j < log.len() ==> log[i].time <= log[j].time
}

/// How the spec functions over a log move when one event is appended.
pub proof fn lemma_log_push(log: Seq<Event>, e: Event)
    ensures
        forall|c: EventCategory|
            #[trigger] tasks_with(log.push(e), c) == if e.category == c {
                tasks_with(log, c).insert(e.task())
            } else {
                tasks_with(log, c)
            },
        created(log.push(e)) == match e.category {
            EventCategory::AddTasks(n) => created(log).add(replicas(e.request, n as nat)),
            _ => created(log),
        },
        forall|c: EventCategory, r: usize|
            #[trigger] count_tagged(log.push(e), c, r) == count_tagged(log, c, r) + if e.category
                == c && e.request == r {
                1nat
            } else {
                0nat
            },
{
    assert(log.push(e).drop_last() =~= log);
}

} // verus!
