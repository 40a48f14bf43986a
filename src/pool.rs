use crate::events::{count_tagged, created, lemma_log_push, tasks_with, time_ordered, Event, EventCategory};
use crate::random::draw_below;
use crate::request::{ConfigError, Request};
use crate::task::{
    in_hand, lemma_in_hand_update, lemma_of_request_add, lemma_of_request_all_once,
    lemma_of_request_insert, lemma_of_request_zero, lemma_queued_update, lemma_replicas_count,
    of_request, queued, replicas, slot_tasks, Task,
};
use vstd::multiset::Multiset;
use vstd::prelude::*;

verus! {

broadcast use vstd::multiset::group_multiset_axioms, vstd::seq_lib::group_to_multiset_ensures;

/// What a worker is to do after asking the pool.
#[derive(Clone, Copy, Debug, PartialEq, Eq, Structural)]
pub enum Action {
    /// Run the given task, then report its completion. `stolen_from` names the
    /// peer it was taken from, if any.
    Run { task: Task, stolen_from: Option<usize> },
    /// A task of that peer was refused for theft: its request is over the
    /// target latency, so the peer is now protected.
    Refused { victim: usize },
    /// The worker expanded that request onto its own queue.
    Admitted { request: usize },
    /// Nothing to do right now; ask again after a short pause.
    Idle,
}

/// The whole scheduling state of a pool: the requests, the global submission
/// queue, one local queue and one task slot per worker, the registry of
/// workers protected from theft, and the event log.
pub struct Pool {
    threshold: u64,
    clock: u64,
    requests: Vec<Request>,
    pending: Vec<usize>,
    queues: Vec<Vec<Task>>,
    running: Vec<Option<Task>>,
    unstealable: Vec<bool>,
    log: Vec<Event>,
}

pub open spec fn max_u64(a: u64, b: u64) -> u64 {
    if a < b {
        b
    } else {
        a
    }
}

/// Accumulated runtimes never go down, and no request disappears.
pub open spec fn runtimes_grow(before: Seq<Request>, after: Seq<Request>) -> bool {
    &&& before.len() <= after.len()
    &&& forall|r: int|
        0 <= r < before.len() ==> before[r].accumulated_runtime
            <= #[trigger] after[r].accumulated_runtime
}

proof fn lemma_queued_all_empty(qs: Seq<Seq<Task>>)
    requires
        forall|w: int| 0 <= w < qs.len() ==> (#[trigger] qs[w]).len() == 0,
    ensures
        queued(qs) =~= Multiset::empty(),
    decreases qs.len(),
{
    if qs.len() > 0 {
        lemma_queued_all_empty(qs.drop_last());
        assert(qs.last().to_multiset().len() == 0);
    }
}

proof fn lemma_in_hand_all_empty(slots: Seq<Option<Task>>)
    requires
        forall|w: int| 0 <= w < slots.len() ==> (#[trigger] slots[w]) is None,
    ensures
        in_hand(slots) =~= Multiset::empty(),
    decreases slots.len(),
{
    if slots.len() > 0 {
        lemma_in_hand_all_empty(slots.drop_last());
    }
}

proof fn lemma_count_tagged_absent(log: Seq<Event>, c: EventCategory, r: usize)
    requires
        forall|i: int| 0 <= i < log.len() ==> (#[trigger] log[i]).request < r,
    ensures
        count_tagged(log, c, r) == 0,
    decreases log.len(),
{
    if log.len() > 0 {
        lemma_count_tagged_absent(log.drop_last(), c, r);
    }
}

/// Worker `v` may be robbed by worker `w`: it is a peer and not protected.
pub open spec fn eligible(unstealable: Seq<bool>, w: int, v: int) -> bool {
    v != w && !unstealable[v]
}

/// How many workers below `k` worker `w` may rob.
pub open spec fn eligible_below(unstealable: Seq<bool>, w: int, k: int) -> nat
    decreases k,
{
    if k <= 0 {
        0
    } else {
        eligible_below(unstealable, w, k - 1) + if eligible(unstealable, w, k - 1) {
            1nat
        } else {
            0nat
        }
    }
}

proof fn lemma_eligible_below_monotone(unstealable: Seq<bool>, w: int, k: int)
    ensures
        forall|j: int| j <= k ==> #[trigger] eligible_below(unstealable, w, j) <= eligible_below(unstealable, w, k),
    decreases k,
{
    if k > 0 {
        lemma_eligible_below_monotone(unstealable, w, k - 1);
    }
    assert forall|j: int| j <= k implies #[trigger] eligible_below(unstealable, w, j) <= eligible_below(unstealable, w, k) by {
        if j < k && k > 0 {
            assert(eligible_below(unstealable, w, j) <= eligible_below(unstealable, w, k - 1));
        }
    }
}

/// The tasks `(r, 0), (r, 1), ..., (r, n - 1)` in that order.
pub open spec fn replica_seq(r: usize, n: nat) -> Seq<Task> {
    Seq::new(n, |i: int| Task { request: r, replica: i as usize })
}

/// Worker `v` is the victim that draw `draw` picks for worker `w`.
pub open spec fn chosen(unstealable: Seq<bool>, w: int, v: int, draw: int) -> bool {
    &&& 0 <= v < unstealable.len()
    &&& eligible(unstealable, w, v)
    &&& eligible_below(unstealable, w, v) == draw
}

pub open spec fn start_event(t: Task, time: u64, w: int) -> Event {
    Event {
        category: EventCategory::StartProcessing,
        time,
        request: t.request,
        replica: t.replica,
        lane: w as usize,
    }
}

pub open spec fn steal_event(t: Task, v: int, time: u64, w: int) -> Event {
    Event {
        category: EventCategory::Steal(v as usize),
        time,
        request: t.request,
        replica: t.replica,
        lane: w as usize,
    }
}

/// Only one worker is picked by a draw, and none when the draw is past the
/// number of eligible peers.
proof fn lemma_chosen_unique(unstealable: Seq<bool>, w: int, v: int, draw: int)
    requires
        chosen(unstealable, w, v, draw),
    ensures
        forall|u: int| #[trigger] chosen(unstealable, w, u, draw) ==> u == v,
        draw < eligible_below(unstealable, w, unstealable.len() as int),
{
    lemma_eligible_below_monotone(unstealable, w, unstealable.len() as int);
    assert(eligible_below(unstealable, w, v + 1) == draw + 1);
    assert forall|u: int| #[trigger] chosen(unstealable, w, u, draw) implies u == v by {
        lemma_eligible_below_monotone(unstealable, w, u);
        lemma_eligible_below_monotone(unstealable, w, v);
        assert(eligible_below(unstealable, w, u + 1) == draw + 1);
        if u < v {
            assert(eligible_below(unstealable, w, u + 1) <= eligible_below(unstealable, w, v));
        } else if v < u {
            assert(eligible_below(unstealable, w, v + 1) <= eligible_below(unstealable, w, u));
        }
    }
}

proof fn lemma_queued_contains(qs: Seq<Seq<Task>>, v: int, t: Task)
    requires
        0 <= v < qs.len(),
    ensures
        queued(qs).count(t) >= qs[v].to_multiset().count(t),
    decreases qs.len(),
{
    if v < qs.len() - 1 {
        lemma_queued_contains(qs.drop_last(), v, t);
        assert(qs.drop_last()[v] == qs[v]);
    }
}

/// Each event stands in its lane: a request's arrival in the global lane
/// `workers`, everything else in the lane of the worker it happened on.
pub open spec fn lanes_wf(log: Seq<Event>, workers: nat) -> bool {
    forall|i: int|
        0 <= i < log.len() ==> if (#[trigger] log[i]).category == EventCategory::AddRequest {
            log[i].lane == workers
        } else {
            log[i].lane < workers
        }
}

/// The global queue holds distinct tags of requests not yet expanded.
pub open spec fn pending_wf(pending: Seq<usize>, requests: Seq<Request>) -> bool {
    &&& forall|i: int|
        0 <= i < pending.len() ==> #[trigger] pending[i] < requests.len()
            && !requests[pending[i] as int].expanded
    &&& forall|i: int, j: int| 0 <= i < j < pending.len() ==> pending[i] != pending[j]
}

impl Pool {
    /// What one scheduling step of worker `w` at time `now`, with victim draw
    /// `draw`, does to the pool, and the action it hands the worker.
    pub open spec fn steps_to(pre: Pool, post: Pool, w: int, draw: int, now: u64, a: Action) -> bool {
        let c = max_u64(pre.clock(), now);
        let own = pre.queues()[w];
        let unst = pre.unstealable().update(w, false);
        &&& post.clock() == c
        &&& post.threshold() == pre.threshold()
        &&& if own.len() > 0 {
            &&& a == Action::Run { task: own[0], stolen_from: None }
            &&& post.queues() == pre.queues().update(w, own.drop_first())
            &&& post.running() == pre.running().update(w, Some(own[0]))
            &&& post.log() == pre.log().push(start_event(own[0], c, w))
            &&& post.requests() == pre.requests()
            &&& post.pending() == pre.pending()
            &&& post.unstealable() == pre.unstealable()
        } else {
            match a {
                Action::Run { task, stolen_from } => {
                    let v = stolen_from->Some_0 as int;
                    &&& stolen_from is Some
                    &&& chosen(unst, w, v, draw)
                    &&& pre.queues()[v].len() > 0
                    &&& task == pre.queues()[v].last()
                    &&& pre.requests()[task.request as int].spec_stealable(pre.threshold())
                    &&& post.queues() == pre.queues().update(v, pre.queues()[v].drop_last())
                    &&& post.running() == pre.running().update(w, Some(task))
                    &&& post.log() == pre.log().push(steal_event(task, v, c, w)).push(
                        start_event(task, c, w),
                    )
                    &&& post.requests() == pre.requests()
                    &&& post.pending() == pre.pending()
                    &&& post.unstealable() == unst
                },
                Action::Refused { victim } => {
                    &&& chosen(unst, w, victim as int, draw)
                    &&& pre.queues()[victim as int].len() > 0
                    &&& !pre.requests()[pre.queues()[victim as int].last().request as int].spec_stealable(
                        pre.threshold(),
                    )
                    &&& post.queues() == pre.queues()
                    &&& post.running() == pre.running()
                    &&& post.log() == pre.log()
                    &&& post.requests() == pre.requests()
                    &&& post.pending() == pre.pending()
                    &&& post.unstealable() == unst.update(victim as int, true)
                },
                Action::Admitted { request } => {
                    let rq = pre.requests()[request as int];
                    &&& forall|v: int| #[trigger] chosen(unst, w, v, draw) ==> pre.queues()[v].len() == 0
                    &&& pre.admission_open()
                    &&& pre.pending().len() > 0
                    &&& request == pre.pending()[0]
                    &&& post.requests() == pre.requests().update(
                        request as int,
                        Request { expanded: true, ..rq },
                    )
                    &&& post.queues() == pre.queues().update(w, replica_seq(request, rq.fanout as nat))
                    &&& post.log() == pre.log().push(
                        Event {
                            category: EventCategory::AddTasks(rq.fanout),
                            time: c,
                            request,
                            replica: 0,
                            lane: w as usize,
                        },
                    )
                    &&& post.pending() == pre.pending().drop_first()
                    &&& post.running() == pre.running()
                    &&& post.unstealable() == unst
                },
                Action::Idle => {
                    &&& forall|v: int| #[trigger] chosen(unst, w, v, draw) ==> pre.queues()[v].len() == 0
                    &&& !(pre.admission_open() && pre.pending().len() > 0)
                    &&& post.queues() == pre.queues()
                    &&& post.running() == pre.running()
                    &&& post.log() == pre.log()
                    &&& post.requests() == pre.requests()
                    &&& post.pending() == pre.pending()
                    &&& post.unstealable() == unst
                },
            }
        }
    }

    /// Every steal logged between `pre` and `post` took a task of a request
    /// still under the target latency threshold.
    pub open spec fn steals_under_threshold(pre: Pool, post: Pool) -> bool {
        forall|i: int|
            pre.log().len() <= i < post.log().len() && (#[trigger] post.log()[i]).category is Steal
                ==> post.log()[i].request < pre.requests().len()
                && pre.requests()[post.log()[i].request as int].spec_stealable(pre.threshold())
    }

    pub closed spec fn workers(self) -> nat {
        self.queues@.len()
    }

    /// Accumulated runtime at which a request's tasks stop being offered
    /// for theft.
    pub closed spec fn threshold(self) -> u64 {
        self.threshold
    }

    /// The latest time the pool has seen.
    pub closed spec fn clock(self) -> u64 {
        self.clock
    }

    /// The requests, indexed by their tag.
    pub closed spec fn requests(self) -> Seq<Request> {
        self.requests@
    }

    /// Tags of the requests awaiting expansion, oldest first.
    pub closed spec fn pending(self) -> Seq<usize> {
        self.pending@
    }

    /// Each worker's local queue; its owner takes from the front, thieves
    /// from the back.
    pub closed spec fn queues(self) -> Seq<Seq<Task>> {
        self.queues@.map_values(|q: Vec<Task>| q@)
    }

    /// The task each worker is running, if any.
    pub closed spec fn running(self) -> Seq<Option<Task>> {
        self.running@
    }

    /// Whether each worker is protected from theft.
    pub closed spec fn unstealable(self) -> Seq<bool> {
        self.unstealable@
    }

    /// Every event so far, all lanes together, in order.
    pub closed spec fn log(self) -> Seq<Event> {
        self.log@
    }

    /// The global submission queue's lane.
    pub open spec fn global_lane(self) -> nat {
        self.workers()
    }

    /// The tasks not yet finished: queued or in a worker's hands.
    pub open spec fn outstanding(self) -> Multiset<Task> {
        queued(self.queues()).add(in_hand(self.running()))
    }

    /// A new request may be expanded: every expanded one has finished or is
    /// throttled.
    pub open spec fn admission_open(self) -> bool {
        forall|r: int|
            0 <= r < self.requests().len() && (#[trigger] self.requests()[r]).expanded
                ==> self.requests()[r].remaining == 0 || !self.requests()[r].spec_stealable(
                self.threshold(),
            )
    }

    pub open spec fn requests_wf(self) -> bool {
        forall|r: usize|
            r < self.requests().len() ==> {
                let q = #[trigger] self.requests()[r as int];
                &&& q.declared_at <= self.clock()
                &&& q.fanout >= 1
                &&& q.remaining <= q.fanout
                &&& q.failures <= q.fanout - q.remaining
                &&& !q.expanded ==> q.remaining == q.fanout
                &&& q.expanded ==> q.remaining == of_request(self.outstanding(), r, q.fanout as nat)
                &&& count_tagged(self.log(), EventCategory::StartProcessing, r) == of_request(
                    tasks_with(self.log(), EventCategory::StartProcessing),
                    r,
                    q.fanout as nat,
                )
            }
    }

    /// The task `t` exists exactly when its request was expanded and its
    /// index is below the fanout.
    pub open spec fn task_exists(self, t: Task) -> bool {
        &&& t.request < self.requests().len()
        &&& self.requests()[t.request as int].expanded
        &&& t.replica < self.requests()[t.request as int].fanout
    }

    pub open spec fn wf(self) -> bool {
        &&& self.workers() >= 1
        &&& self.queues().len() == self.workers()
        &&& self.running().len() == self.workers()
        &&& self.unstealable().len() == self.workers()
        &&& time_ordered(self.log())
        &&& forall|i: int| 0 <= i < self.log().len() ==> (#[trigger] self.log()[i]).time <= self.clock()
        &&& forall|i: int| 0 <= i < self.log().len() ==> (#[trigger] self.log()[i]).request < self.requests().len()
        &&& self.requests_wf()
        &&& lanes_wf(self.log(), self.workers())
        &&& pending_wf(self.pending(), self.requests())
        &&& forall|t: Task|
            #[trigger] created(self.log()).count(t) == if self.task_exists(t) {
                1nat
            } else {
                0nat
            }
        &&& self.outstanding().add(tasks_with(self.log(), EventCategory::EndProcessing)) == created(self.log())
        &&& tasks_with(self.log(), EventCategory::StartProcessing) == tasks_with(
            self.log(),
            EventCategory::EndProcessing,
        ).add(in_hand(self.running()))
    }

    /// A pool of `worker_count` workers, idle and empty, with the given
    /// target latency threshold.
    pub fn new(worker_count: usize, threshold: u64) -> (r: Result<Pool, ConfigError>)
        ensures
            worker_count == 0 <==> r == Err::<Pool, ConfigError>(ConfigError::NoWorkers),
            worker_count > 0 <==> r is Ok,
            r is Ok ==> {
                let p = r->Ok_0;
                &&& p.wf()
                &&& p.workers() == worker_count
                &&& p.threshold() == threshold
                &&& p.clock() == 0
                &&& p.requests().len() == 0
                &&& p.pending().len() == 0
                &&& p.log().len() == 0
                &&& forall|w: int| 0 <= w < worker_count ==> (#[trigger] p.queues()[w]).len() == 0
                &&& forall|w: int| 0 <= w < worker_count ==> (#[trigger] p.running()[w]) is None
                &&& forall|w: int| 0 <= w < worker_count ==> !(#[trigger] p.unstealable()[w])
            },
    {
        if worker_count == 0 {
            return Err(ConfigError::NoWorkers);
        }
        let mut queues: Vec<Vec<Task>> = Vec::new();
        let mut running: Vec<Option<Task>> = Vec::new();
        let mut unstealable: Vec<bool> = Vec::new();
        let mut i: usize = 0;
        while i < worker_count
            invariant
                i <= worker_count,
                queues@.len() == i,
                running@.len() == i,
                unstealable@.len() == i,
                forall|w: int| 0 <= w < i ==> (#[trigger] queues@[w])@.len() == 0,
                forall|w: int| 0 <= w < i ==> (#[trigger] running@[w]) is None,
                forall|w: int| 0 <= w < i ==> !(#[trigger] unstealable@[w]),
            decreases worker_count - i,
        {
            queues.push(Vec::new());
            running.push(None);
            unstealable.push(false);
            i = i + 1;
        }
        let p = Pool {
            threshold,
            clock: 0,
            requests: Vec::new(),
            pending: Vec::new(),
            queues,
            running,
            unstealable,
            log: Vec::new(),
        };
        proof {
            assert forall|w: int| 0 <= w < worker_count implies (#[trigger] p.queues()[w]).len() == 0 by {
                assert(p.queues()[w] == p.queues@[w]@);
            }
            lemma_queued_all_empty(p.queues());
            lemma_in_hand_all_empty(p.running());
            assert(p.outstanding() =~= Multiset::empty());
        }
        Ok(p)
    }

    /// Every task started is one that was created.
    pub(crate) proof fn lemma_started_within_created(self)
        requires
            self.wf(),
        ensures
            forall|t: Task|
                #[trigger] tasks_with(self.log(), EventCategory::StartProcessing).count(t)
                    <= created(self.log()).count(t),
    {
        assert forall|t: Task|
            #[trigger] tasks_with(self.log(), EventCategory::StartProcessing).count(t)
                <= created(self.log()).count(t) by {
            assert(self.outstanding().count(t) >= in_hand(self.running()).count(t));
        }
    }

    /// Submits a request of `fanout` replicas at time `now` and returns its
    /// tag. A fanout of zero is refused and changes nothing.
    pub fn submit(&mut self, fanout: usize, now: u64) -> (r: Result<usize, ConfigError>)
        requires
            old(self).wf(),
        ensures
            final(self).wf(),
            fanout == 0 <==> r == Err::<usize, ConfigError>(ConfigError::ZeroFanout),
            fanout == 0 ==> *final(self) == *old(self),
            fanout > 0 ==> {
                let t = max_u64(old(self).clock(), now);
                let id = old(self).requests().len() as usize;
                &&& r == Ok::<usize, ConfigError>(id)
                &&& id == old(self).requests().len()
                &&& final(self).requests()[id as int] == Request {
                    fanout,
                    declared_at: t,
                    accumulated_runtime: 0,
                    observed_latency: 0,
                    remaining: fanout,
                    failures: 0,
                    expanded: false,
                }
                &&& final(self).clock() == t
                &&& final(self).requests() == old(self).requests().push(
                    Request {
                        fanout,
                        declared_at: t,
                        accumulated_runtime: 0,
                        observed_latency: 0,
                        remaining: fanout,
                        failures: 0,
                        expanded: false,
                    },
                )
                &&& final(self).pending() == old(self).pending().push(id)
                &&& final(self).log() == old(self).log().push(
                    Event {
                        category: EventCategory::AddRequest,
                        time: t,
                        request: id,
                        replica: 0,
                        lane: old(self).workers() as usize,
                    },
                )
                &&& final(self).workers() == old(self).workers()
                &&& final(self).threshold() == old(self).threshold()
                &&& final(self).queues() == old(self).queues()
                &&& final(self).running() == old(self).running()
                &&& final(self).unstealable() == old(self).unstealable()
            },
            runtimes_grow(old(self).requests(), final(self).requests()),
    {
        if fanout == 0 {
            return Err(ConfigError::ZeroFanout);
        }
        let ghost old_self = *self;
        proof {
            old_self.lemma_started_within_created();
        }
        if self.clock < now {
            self.clock = now;
        }
        let id = self.requests.len();
        let t = self.clock;
        self.requests.push(Request::new(fanout, t));
        self.pending.push(id);
        let e = Event {
            category: EventCategory::AddRequest,
            time: t,
            request: id,
            replica: 0,
            lane: self.queues.len(),
        };
        self.log.push(e);
        proof {
            lemma_log_push(old_self.log(), e);
            assert(self.queues() == old_self.queues());
            assert(self.outstanding() == old_self.outstanding());
            lemma_count_tagged_absent(old_self.log(), EventCategory::StartProcessing, id);
            let started = tasks_with(self.log(), EventCategory::StartProcessing);
            assert forall|i: usize| i < fanout implies #[trigger] started.count(
                Task { request: id, replica: i },
            ) == 0 by {
                assert(created(old_self.log()).count(Task { request: id, replica: i }) == 0);
            }
            lemma_of_request_zero(started, id, fanout as nat);
            assert forall|tk: Task| #[trigger] created(self.log()).count(tk) == if self.task_exists(tk) {
                1nat
            } else {
                0nat
            } by {
                assert(old_self.task_exists(tk) == self.task_exists(tk));
            }
            assert(self.requests_wf()) by {
                assert forall|r: usize| r < old_self.requests().len() implies #[trigger] self.requests()[r as int] == old_self.requests()[r as int] by {}
            }
            assert forall|i: int| 0 <= i < self.pending().len() implies #[trigger] self.pending()[i]
                < self.requests().len() && !self.requests()[self.pending()[i] as int].expanded by {
                if i < old_self.pending().len() {
                    assert(self.pending()[i] == old_self.pending()[i]);
                }
            }
            assert forall|i: int, j: int|
                0 <= i < j < self.pending().len() implies self.pending()[i] != self.pending()[j] by {
                if j < old_self.pending().len() {
                    assert(self.pending()[i] == old_self.pending()[i]);
                    assert(self.pending()[j] == old_self.pending()[j]);
                } else {
                    assert(self.pending()[i] == old_self.pending()[i]);
                }
            }
        }
        Ok(id)
    }

    /// Moves the clock forward to `now`, if `now` is later.
    fn advance(&mut self, now: u64)
        requires
            old(self).wf(),
        ensures
            final(self).wf(),
            final(self).clock() == max_u64(old(self).clock(), now),
            final(self).requests() == old(self).requests(),
            final(self).log() == old(self).log(),
            final(self).queues() == old(self).queues(),
            final(self).pending() == old(self).pending(),
            final(self).running() == old(self).running(),
            final(self).unstealable() == old(self).unstealable(),
            final(self).threshold() == old(self).threshold(),
    {
        let ghost old_self = *self;
        if self.clock < now {
            self.clock = now;
        }
        proof {
            assert(self.outstanding() == old_self.outstanding());
            assert forall|r: usize| r < self.requests().len() implies (#[trigger] self.requests()[r as int]).declared_at <= self.clock() by {
                assert(old_self.requests()[r as int] == self.requests()[r as int]);
            }
            assert(self.requests_wf());
        }
    }

    /// Takes a task from queue `v`, front or back, and puts it in the hands of
    /// worker `w`, logging that it started.
    fn start_from(&mut self, w: usize, v: usize, from_back: bool) -> (t: Task)
        requires
            old(self).wf(),
            w < old(self).workers(),
            v < old(self).workers(),
            old(self).running()[w as int] is None,
            old(self).queues()[v as int].len() > 0,
        ensures
            final(self).wf(),
            t == if from_back {
                old(self).queues()[v as int].last()
            } else {
                old(self).queues()[v as int][0]
            },
            final(self).queues() == old(self).queues().update(
                v as int,
                if from_back {
                    old(self).queues()[v as int].drop_last()
                } else {
                    old(self).queues()[v as int].drop_first()
                },
            ),
            final(self).running() == old(self).running().update(w as int, Some(t)),
            final(self).log() == old(self).log().push(
                Event {
                    category: EventCategory::StartProcessing,
                    time: old(self).clock(),
                    request: t.request,
                    replica: t.replica,
                    lane: w,
                },
            ),
            final(self).clock() == old(self).clock(),
            final(self).requests() == old(self).requests(),
            final(self).pending() == old(self).pending(),
            final(self).unstealable() == old(self).unstealable(),
            final(self).threshold() == old(self).threshold(),
    {
        let ghost old_self = *self;
        let ghost q = old_self.queues()[v as int];
        proof {
            assert(old_self.queues@[v as int]@ == q);
        }
        let t = if from_back {
            self.queues[v].pop().unwrap()
        } else {
            self.queues[v].remove(0)
        };
        self.running.set(w, Some(t));
        let e = Event {
            category: EventCategory::StartProcessing,
            time: self.clock,
            request: t.request,
            replica: t.replica,
            lane: w,
        };
        self.log.push(e);
        proof {
            let nq = if from_back { q.drop_last() } else { q.drop_first() };
            assert(self.queues() =~= old_self.queues().update(v as int, nq));
            if from_back {
                assert(q.drop_last() =~= q.remove(q.len() - 1));
            } else {
                assert(q.drop_first() =~= q.remove(0));
            }
            assert(q.to_multiset() =~= nq.to_multiset().insert(t));
            lemma_queued_update(old_self.queues(), v as int, nq);
            lemma_in_hand_update(old_self.running(), w as int, Some(t));
            assert(old_self.running()[w as int] is None);
            assert forall|x: Task| #[trigger] queued(self.queues()).insert(t).count(x) == queued(old_self.queues()).count(x) by {
                assert(queued(self.queues()).add(q.to_multiset()).count(x) == queued(old_self.queues()).add(nq.to_multiset()).count(x));
            }
            assert(queued(self.queues()).insert(t) =~= queued(old_self.queues()));
            assert(in_hand(self.running()) =~= in_hand(old_self.running()).insert(t));
            assert(self.outstanding() =~= old_self.outstanding());
            lemma_log_push(old_self.log(), e);
            assert(e.task() == t);
            assert(created(old_self.log()).count(t) > 0);
            assert(old_self.task_exists(t));
            assert forall|r: usize| r < self.requests().len() implies {
                let rq = #[trigger] self.requests()[r as int];
                count_tagged(self.log(), EventCategory::StartProcessing, r)
                    == of_request(tasks_with(self.log(), EventCategory::StartProcessing), r, rq.fanout as nat)
            } by {
                let rq = self.requests()[r as int];
                assert(old_self.requests()[r as int] == rq);
                assert(tasks_with(self.log(), EventCategory::StartProcessing) == tasks_with(old_self.log(), EventCategory::StartProcessing).insert(t));
                lemma_of_request_insert(tasks_with(old_self.log(), EventCategory::StartProcessing), r, rq.fanout as nat, t);
                assert(self.log() == old_self.log().push(e));
                assert(count_tagged(self.log(), EventCategory::StartProcessing, r) == count_tagged(old_self.log(), EventCategory::StartProcessing, r) + if t.request == r { 1nat } else { 0nat });
                if t.request == r {
                    assert(t.replica < rq.fanout);
                }
            }
            assert(self.requests_wf());
            assert(tasks_with(self.log(), EventCategory::StartProcessing) =~= tasks_with(
                self.log(),
                EventCategory::EndProcessing,
            ).add(in_hand(self.running())));
        }
        t
    }

    /// Worker `w` reports that its task finished at `now` after running
    /// `exec_time` ticks, failed or not. The task's request is updated and
    /// the completion logged; the task is returned.
    pub fn complete(&mut self, w: usize, exec_time: u64, now: u64, failed: bool) -> (t: Task)
        requires
            old(self).wf(),
            w < old(self).workers(),
            old(self).running()[w as int] is Some,
        ensures
            final(self).wf(),
            t == old(self).running()[w as int]->Some_0,
            ({
                let c = max_u64(old(self).clock(), now);
                let rq = old(self).requests()[t.request as int];
                &&& final(self).clock() == c
                &&& final(self).running() == old(self).running().update(w as int, None)
                &&& t.request < old(self).requests().len()
                &&& final(self).requests() == old(self).requests().update(
                    t.request as int,
                    Request {
                        accumulated_runtime: if rq.accumulated_runtime + exec_time <= u64::MAX {
                            (rq.accumulated_runtime + exec_time) as u64
                        } else {
                            u64::MAX
                        },
                        observed_latency: (c - rq.declared_at) as u64,
                        remaining: (rq.remaining - 1) as usize,
                        failures: if failed {
                            (rq.failures + 1) as usize
                        } else {
                            rq.failures
                        },
                        ..rq
                    },
                )
                &&& final(self).log() == old(self).log().push(
                    Event {
                        category: EventCategory::EndProcessing,
                        time: c,
                        request: t.request,
                        replica: t.replica,
                        lane: w,
                    },
                )
            }),
            final(self).queues() == old(self).queues(),
            final(self).pending() == old(self).pending(),
            final(self).unstealable() == old(self).unstealable(),
            final(self).threshold() == old(self).threshold(),
            runtimes_grow(old(self).requests(), final(self).requests()),
    {
        self.advance(now);
        let ghost mid = *self;
        let t = self.running[w].unwrap();
        proof {
            lemma_in_hand_update(mid.running(), w as int, None);
            assert(in_hand(mid.running()) =~= in_hand(mid.running().update(w as int, None)).insert(t));
            assert(mid.outstanding().count(t) > 0);
            assert(created(mid.log()).count(t) > 0);
            assert(mid.task_exists(t));
            let rq = mid.requests()[t.request as int];
            lemma_of_request_insert(
                queued(mid.queues()).add(in_hand(mid.running().update(w as int, None))),
                t.request,
                rq.fanout as nat,
                t,
            );
            assert(mid.outstanding() =~= queued(mid.queues()).add(in_hand(mid.running().update(w as int, None))).insert(t));
        }
        self.running.set(w, None);
        let clock = self.clock;
        self.requests[t.request].record_completion(exec_time, clock, failed);
        let e = Event {
            category: EventCategory::EndProcessing,
            time: clock,
            request: t.request,
            replica: t.replica,
            lane: w,
        };
        self.log.push(e);
        proof {
            lemma_log_push(mid.log(), e);
            assert(e.task() == t);
            assert(self.outstanding().insert(t) =~= mid.outstanding());
            assert forall|r: usize| r < self.requests().len() implies {
                let q = #[trigger] self.requests()[r as int];
                &&& q.declared_at <= self.clock()
                &&& q.fanout >= 1
                &&& q.remaining <= q.fanout
                &&& q.failures <= q.fanout - q.remaining
                &&& !q.expanded ==> q.remaining == q.fanout
                &&& q.expanded ==> q.remaining == of_request(self.outstanding(), r, q.fanout as nat)
                &&& count_tagged(self.log(), EventCategory::StartProcessing, r) == of_request(
                    tasks_with(self.log(), EventCategory::StartProcessing),
                    r,
                    q.fanout as nat,
                )
            } by {
                let q0 = mid.requests()[r as int];
                lemma_of_request_insert(self.outstanding(), r, q0.fanout as nat, t);
            }
            assert(self.requests_wf());
            assert forall|x: Task| #[trigger] created(self.log()).count(x) == if self.task_exists(x) {
                1nat
            } else {
                0nat
            } by {
                assert(mid.task_exists(x) == self.task_exists(x));
            }
            assert(self.outstanding().add(tasks_with(self.log(), EventCategory::EndProcessing)) =~= created(self.log()));
            assert(tasks_with(self.log(), EventCategory::StartProcessing) =~= tasks_with(
                self.log(),
                EventCategory::EndProcessing,
            ).add(in_hand(self.running())));
        }
        t
    }

    /// How many peers worker `w` may rob right now.
    pub fn eligible_victims(&self, w: usize) -> (n: usize)
        requires
            self.wf(),
        ensures
            n == eligible_below(self.unstealable(), w as int, self.workers() as int),
    {
        let mut n: usize = 0;
        let mut v: usize = 0;
        while v < self.unstealable.len()
            invariant
                self.wf(),
                v <= self.unstealable@.len(),
                n == eligible_below(self.unstealable(), w as int, v as int),
                n <= v,
            decreases self.unstealable@.len() - v,
        {
            if v != w && !self.unstealable[v] {
                n = n + 1;
            }
            v = v + 1;
        }
        n
    }

    /// The victim that draw `draw` picks for worker `w`: the peer, counted
    /// from index zero, that is the `draw`-th one worker `w` may rob; none when
    /// there are not that many.
    pub fn victim(&self, w: usize, draw: usize) -> (r: Option<usize>)
        requires
            self.wf(),
        ensures
            r is None <==> draw >= eligible_below(self.unstealable(), w as int, self.workers() as int),
            r matches Some(v) ==> v < self.workers() && eligible(self.unstealable(), w as int, v as int)
                && eligible_below(self.unstealable(), w as int, v as int) == draw,
    {
        let mut n: usize = 0;
        let mut v: usize = 0;
        while v < self.unstealable.len()
            invariant
                self.wf(),
                v <= self.unstealable@.len(),
                n == eligible_below(self.unstealable(), w as int, v as int),
                n <= draw,
            decreases self.unstealable@.len() - v,
        {
            if v != w && !self.unstealable[v] {
                if n == draw {
                    proof {
                        lemma_eligible_below_monotone(self.unstealable(), w as int, self.workers() as int);
                        assert(eligible_below(self.unstealable(), w as int, v + 1) == n + 1);
                    }
                    return Some(v);
                }
                n = n + 1;
            }
            v = v + 1;
        }
        proof {
            lemma_eligible_below_monotone(self.unstealable(), w as int, self.workers() as int);
        }
        None
    }

    /// Whether a new request may be expanded now.
    pub fn is_admission_open(&self) -> (r: bool)
        requires
            self.wf(),
        ensures
            r == self.admission_open(),
    {
        let mut i: usize = 0;
        while i < self.requests.len()
            invariant
                i <= self.requests@.len(),
                forall|r: int|
                    0 <= r < i && (#[trigger] self.requests()[r]).expanded
                        ==> self.requests()[r].remaining == 0
                        || !self.requests()[r].spec_stealable(self.threshold()),
            decreases self.requests@.len() - i,
        {
            let q = &self.requests[i];
            if q.expanded && q.remaining != 0 && q.is_stealable(self.threshold) {
                assert(self.requests()[i as int] == *q);
                return false;
            }
            i = i + 1;
        }
        true
    }

    /// Pops the oldest pending request and expands it onto the empty queue of
    /// worker `w`, logging the expansion.
    fn expand_next(&mut self, w: usize) -> (id: usize)
        requires
            old(self).wf(),
            w < old(self).workers(),
            old(self).queues()[w as int].len() == 0,
            old(self).pending().len() > 0,
        ensures
            final(self).wf(),
            id == old(self).pending()[0],
            ({
                let rq = old(self).requests()[id as int];
                &&& final(self).requests() == old(self).requests().update(
                    id as int,
                    Request { expanded: true, ..rq },
                )
                &&& final(self).queues() == old(self).queues().update(
                    w as int,
                    replica_seq(id, rq.fanout as nat),
                )
                &&& final(self).log() == old(self).log().push(
                    Event {
                        category: EventCategory::AddTasks(rq.fanout),
                        time: old(self).clock(),
                        request: id,
                        replica: 0,
                        lane: w,
                    },
                )
            }),
            final(self).pending() == old(self).pending().drop_first(),
            final(self).running() == old(self).running(),
            final(self).unstealable() == old(self).unstealable(),
            final(self).clock() == old(self).clock(),
            final(self).threshold() == old(self).threshold(),
    {
        let ghost pre = *self;
        let id = self.pending.remove(0);
        let fanout = self.requests[id].fanout;
        let mut i: usize = 0;
        proof {
            assert(replica_seq(id, 0) =~= pre.queues()[w as int]);
            assert(pre.queues().update(w as int, replica_seq(id, 0)) =~= pre.queues());
            assert(queued(pre.queues()).add(replicas(id, 0)) =~= queued(pre.queues()));
        }
        while i < fanout
            invariant
                pre.wf(),
                w < pre.workers(),
                pre.pending().len() > 0,
                id == pre.pending()[0],
                id < pre.requests().len(),
                fanout == pre.requests()[id as int].fanout,
                i <= fanout,
                self.queues@.len() == pre.queues@.len(),
                self.queues() == pre.queues().update(w as int, replica_seq(id, i as nat)),
                queued(self.queues()) == queued(pre.queues()).add(replicas(id, i as nat)),
                self.requests == pre.requests,
                self.pending@ == pre.pending@.drop_first(),
                self.running == pre.running,
                self.unstealable == pre.unstealable,
                self.log == pre.log,
                self.clock == pre.clock,
                self.threshold == pre.threshold,
            decreases fanout - i,
        {
            let ghost before = self.queues();
            let ghost before_vec = self.queues@;
            self.queues[w].push(Task::new(id, i));
            proof {
                let t = Task { request: id, replica: i };
                assert(before[w as int] == before_vec[w as int]@);
                assert(self.queues@[w as int]@ == before_vec[w as int]@.push(t));
                assert forall|j: int| 0 <= j < before.len() && j != w implies #[trigger] self.queues()[j] == before[j] by {
                    assert(self.queues@[j] == before_vec[j]);
                }
                assert(self.queues()[w as int] == before[w as int].push(t));
                assert(replica_seq(id, i as nat).push(t) =~= replica_seq(id, (i + 1) as nat));
                assert(self.queues() =~= before.update(w as int, replica_seq(id, (i + 1) as nat)));
                lemma_queued_update(before, w as int, replica_seq(id, (i + 1) as nat));
                assert(replica_seq(id, (i + 1) as nat).to_multiset() =~= replica_seq(id, i as nat).to_multiset().insert(t));
                assert forall|x: Task| #[trigger] queued(self.queues()).count(x) == queued(before).insert(t).count(x) by {
                    assert(queued(self.queues()).add(before[w as int].to_multiset()).count(x) == queued(before).add(replica_seq(id, (i + 1) as nat).to_multiset()).count(x));
                }
                assert(queued(self.queues()) =~= queued(before).insert(t));
                assert(self.queues() =~= pre.queues().update(w as int, replica_seq(id, (i + 1) as nat)));
            }
            i = i + 1;
        }
        self.requests.set(id, Request { expanded: true, ..self.requests[id] });
        let e = Event {
            category: EventCategory::AddTasks(fanout),
            time: self.clock,
            request: id,
            replica: 0,
            lane: w,
        };
        self.log.push(e);
        proof {
            pre.lemma_started_within_created();
            lemma_log_push(pre.log(), e);
            let rs = replicas(id, fanout as nat);
            assert(self.outstanding() =~= pre.outstanding().add(rs));
            assert forall|x: Task| #[trigger] created(self.log()).count(x) == if self.task_exists(x) {
                1nat
            } else {
                0nat
            } by {
                lemma_replicas_count(id, fanout as nat, x);
                assert(pre.task_exists(x) ==> x.request != id);
            }
            assert(self.outstanding().add(tasks_with(self.log(), EventCategory::EndProcessing)) =~= created(self.log()));
            assert forall|x: Task| #[trigger] rs.count(x) == 1 || x.request != id || x.replica >= fanout by {
                lemma_replicas_count(id, fanout as nat, x);
            }
            assert forall|r: usize| r < self.requests().len() implies {
                let q = #[trigger] self.requests()[r as int];
                &&& q.declared_at <= self.clock()
                &&& q.fanout >= 1
                &&& q.remaining <= q.fanout
                &&& q.failures <= q.fanout - q.remaining
                &&& !q.expanded ==> q.remaining == q.fanout
                &&& q.expanded ==> q.remaining == of_request(self.outstanding(), r, q.fanout as nat)
                &&& count_tagged(self.log(), EventCategory::StartProcessing, r) == of_request(
                    tasks_with(self.log(), EventCategory::StartProcessing),
                    r,
                    q.fanout as nat,
                )
            } by {
                let q0 = pre.requests()[r as int];
                lemma_of_request_add(pre.outstanding(), rs, r, q0.fanout as nat);
                if r == id {
                    assert forall|i: usize| i < fanout implies #[trigger] rs.count(Task { request: id, replica: i }) == 1 by {
                        lemma_replicas_count(id, fanout as nat, Task { request: id, replica: i });
                    }
                    lemma_of_request_all_once(rs, id, fanout as nat);
                    assert forall|i: usize| i < fanout implies #[trigger] pre.outstanding().count(Task { request: id, replica: i }) == 0 by {
                        assert(created(pre.log()).count(Task { request: id, replica: i }) == 0);
                    }
                    lemma_of_request_zero(pre.outstanding(), id, fanout as nat);
                } else {
                    assert forall|i: usize| i < q0.fanout implies #[trigger] rs.count(Task { request: r, replica: i }) == 0 by {
                        lemma_replicas_count(id, fanout as nat, Task { request: r, replica: i });
                    }
                    lemma_of_request_zero(rs, r, q0.fanout as nat);
                }
            }
            assert(self.requests_wf());
            assert forall|a: int| 0 <= a < self.pending().len() implies #[trigger] self.pending()[a]
                < self.requests().len() && !self.requests()[self.pending()[a] as int].expanded by {
                assert(self.pending()[a] == pre.pending()[a + 1]);
                assert(pre.pending()[0] != pre.pending()[a + 1]);
            }
            assert forall|a: int, b: int|
                0 <= a < b < self.pending().len() implies self.pending()[a] != self.pending()[b] by {
                assert(self.pending()[a] == pre.pending()[a + 1]);
                assert(self.pending()[b] == pre.pending()[b + 1]);
            }
            assert(pending_wf(self.pending(), self.requests()));
        }
        id
    }

    /// A task in some queue is one that exists.
    proof fn lemma_queued_task(self, v: int, i: int)
        requires
            self.wf(),
            0 <= v < self.workers(),
            0 <= i < self.queues()[v].len(),
        ensures
            self.task_exists(self.queues()[v][i]),
    {
        let t = self.queues()[v][i];
        lemma_queued_contains(self.queues(), v, t);
        assert(self.queues()[v].contains(t));
        assert(self.outstanding().count(t) > 0);
        assert(created(self.log()).count(t) > 0);
    }

    /// Logs that worker `w` stole task `t` from worker `v`.
    fn log_steal(&mut self, w: usize, v: usize, t: Task)
        requires
            old(self).wf(),
            w < old(self).workers(),
            t.request < old(self).requests().len(),
        ensures
            final(self).wf(),
            final(self).log() == old(self).log().push(steal_event(t, v as int, old(self).clock(), w as int)),
            final(self).queues() == old(self).queues(),
            final(self).running() == old(self).running(),
            final(self).requests() == old(self).requests(),
            final(self).pending() == old(self).pending(),
            final(self).unstealable() == old(self).unstealable(),
            final(self).clock() == old(self).clock(),
            final(self).threshold() == old(self).threshold(),
    {
        let ghost pre = *self;
        let e = Event {
            category: EventCategory::Steal(v),
            time: self.clock,
            request: t.request,
            replica: t.replica,
            lane: w,
        };
        self.log.push(e);
        proof {
            lemma_log_push(pre.log(), e);
            assert(e == steal_event(t, v as int, pre.clock(), w as int));
            assert(self.outstanding() == pre.outstanding());
            assert forall|r: usize| r < self.requests().len() implies #[trigger] self.requests()[r as int] == pre.requests()[r as int] by {}
            assert(self.requests_wf());
        }
    }

    /// One scheduling step of worker `w` at time `now`: run the next task of
    /// its own queue; else try to steal from the peer that `draw` picks; else
    /// expand the oldest pending request if admission is open.
    pub fn step(&mut self, w: usize, draw: usize, now: u64) -> (a: Action)
        requires
            old(self).wf(),
            w < old(self).workers(),
            old(self).running()[w as int] is None,
        ensures
            final(self).wf(),
            final(self).workers() == old(self).workers(),
            Pool::steps_to(*old(self), *final(self), w as int, draw as int, now, a),
            runtimes_grow(old(self).requests(), final(self).requests()),
            Pool::steals_under_threshold(*old(self), *final(self)),
            a is Admitted ==> old(self).admission_open(),
    {
        let ghost pre = *self;
        self.advance(now);
        if self.queues[w].len() > 0 {
            let t = self.start_from(w, w, false);
            return Action::Run { task: t, stolen_from: None };
        }
        self.unstealable.set(w, false);
        proof {
            assert(self.requests_wf()) by {
                assert(self.outstanding() == pre.outstanding());
                assert forall|r: usize| r < self.requests().len() implies #[trigger] self.requests()[r as int] == pre.requests()[r as int] by {}
            }
        }
        let ghost mid = *self;
        let picked = self.victim(w, draw);
        match picked {
            Some(v) => {
                let n = self.queues[v].len();
                if n > 0 {
                    let t = self.queues[v][n - 1];
                    proof {
                        assert(mid.queues()[v as int] == self.queues@[v as int]@);
                        self.lemma_queued_task(v as int, n - 1);
                    }
                    if t.is_stealable(self) {
                        self.log_steal(w, v, t);
                        let t2 = self.start_from(w, v, true);
                        proof {
                            assert(self.log()[pre.log().len() as int] == steal_event(t, v as int, mid.clock(), w as int));
                        }
                        return Action::Run { task: t2, stolen_from: Some(v) };
                    } else {
                        self.unstealable.set(v, true);
                        proof {
                            assert(self.requests_wf()) by {
                                assert(self.outstanding() == pre.outstanding());
                                assert forall|r: usize| r < self.requests().len() implies #[trigger] self.requests()[r as int] == pre.requests()[r as int] by {}
                            }
                        }
                        return Action::Refused { victim: v };
                    }
                }
            },
            None => {},
        }
        proof {
            assert(*self == mid);
            assert(picked matches Some(v0) ==> mid.queues@[v0 as int]@.len() == 0);
            assert forall|v: int| #[trigger] chosen(mid.unstealable(), w as int, v, draw as int) implies pre.queues()[v].len() == 0 by {
                lemma_chosen_unique(mid.unstealable(), w as int, v, draw as int);
                assert(mid.queues()[v] == mid.queues@[v]@);
                assert(mid.queues() == pre.queues());
                match picked {
                    Some(v0) => {
                        assert(chosen(mid.unstealable(), w as int, v0 as int, draw as int));
                    },
                    None => {},
                }
            }
        }
        if self.pending.len() > 0 && self.is_admission_open() {
            let id = self.expand_next(w);
            return Action::Admitted { request: id };
        }
        Action::Idle
    }

    /// One scheduling step of worker `w` at time `now`, with the victim drawn
    /// uniformly at random among the peers it may rob.
    pub fn next(&mut self, w: usize, now: u64) -> (a: Action)
        requires
            old(self).wf(),
            w < old(self).workers(),
            old(self).running()[w as int] is None,
        ensures
            final(self).wf(),
            final(self).workers() == old(self).workers(),
            exists|draw: usize|
                {
                    let k = eligible_below(old(self).unstealable(), w as int, old(self).workers() as int);
                    &&& k > 0 ==> draw < k
                    &&& #[trigger] Pool::steps_to(*old(self), *final(self), w as int, draw as int, now, a)
                },
            runtimes_grow(old(self).requests(), final(self).requests()),
            Pool::steals_under_threshold(*old(self), *final(self)),
            a is Admitted ==> old(self).admission_open(),
    {
        let k = self.eligible_victims(w);
        let draw = if k > 0 {
            draw_below(k)
        } else {
            0
        };
        let ghost pre = *self;
        let a = self.step(w, draw, now);
        proof {
            let k = eligible_below(pre.unstealable(), w as int, pre.workers() as int);
            assert(k > 0 ==> draw < k);
            assert(Pool::steps_to(pre, *self, w as int, draw as int, now, a));
        }
        a
    }

    pub fn worker_count(&self) -> (n: usize)
        ensures
            n == self.workers(),
    {
        self.queues.len()
    }

    /// The accumulated runtime at which a request stops being offered for
    /// theft.
    pub fn target_latency(&self) -> (t: u64)
        ensures
            t == self.threshold(),
    {
        self.threshold
    }

    pub fn request_count(&self) -> (n: usize)
        ensures
            n == self.requests().len(),
    {
        self.requests.len()
    }

    /// A snapshot of the accounting of request `id`.
    pub fn request(&self, id: usize) -> (r: Request)
        requires
            id < self.requests().len(),
        ensures
            r == self.requests()[id as int],
    {
        self.requests[id]
    }

    pub fn accumulated_runtime(&self, id: usize) -> (t: u64)
        requires
            id < self.requests().len(),
        ensures
            t == self.requests()[id as int].accumulated_runtime,
    {
        self.requests[id].accumulated_runtime
    }

    pub fn observed_latency(&self, id: usize) -> (t: u64)
        requires
            id < self.requests().len(),
        ensures
            t == self.requests()[id as int].observed_latency,
    {
        self.requests[id].observed_latency
    }

    pub fn remaining(&self, id: usize) -> (n: usize)
        requires
            id < self.requests().len(),
        ensures
            n == self.requests()[id as int].remaining,
    {
        self.requests[id].remaining
    }

    /// How many tasks wait in the local queue of worker `w`.
    pub fn queue_len(&self, w: usize) -> (n: usize)
        requires
            w < self.workers(),
        ensures
            n == self.queues()[w as int].len(),
    {
        self.queues[w].len()
    }

    /// Whether worker `w` holds a task it has not reported done.
    pub fn is_busy(&self, w: usize) -> (b: bool)
        requires
            self.wf(),
            w < self.workers(),
        ensures
            b == self.running()[w as int] is Some,
    {
        self.running[w].is_some()
    }

    /// Whether worker `w` is protected from theft.
    pub fn is_protected(&self, w: usize) -> (b: bool)
        requires
            self.wf(),
            w < self.workers(),
        ensures
            b == self.unstealable()[w as int],
    {
        self.unstealable[w]
    }

    /// How many requests await expansion.
    pub fn pending_count(&self) -> (n: usize)
        ensures
            n == self.pending().len(),
    {
        self.pending.len()
    }

    /// Every event so far, in order.
    pub fn events(&self) -> (r: &Vec<Event>)
        ensures
            r@ == self.log(),
    {
        &self.log
    }

    /// The events of one lane, in order: a worker's index, or the worker
    /// count for the global submission queue.
    pub fn lane(&self, k: usize) -> (r: Vec<Event>)
        ensures
            r@ == self.log().filter(|e: Event| e.lane == k),
    {
        let mut r: Vec<Event> = Vec::new();
        let mut i: usize = 0;
        while i < self.log.len()
            invariant
                i <= self.log@.len(),
                r@ == self.log@.subrange(0, i as int).filter(|e: Event| e.lane == k),
            decreases self.log@.len() - i,
        {
            let e = self.log[i];
            proof {
                let pred = |e: Event| e.lane == k;
                assert(self.log@.subrange(0, i + 1) =~= self.log@.subrange(0, i as int).push(e));
                self.log@.subrange(0, i as int).lemma_filter_push(e, pred);
            }
            if e.lane == k {
                r.push(e);
            }
            i = i + 1;
        }
        proof {
            assert(self.log@.subrange(0, self.log@.len() as int) =~= self.log@);
        }
        r
    }

    /// The event streams of all lanes: one per worker, then the global
    /// submission queue's.
    pub fn lanes(&self) -> (r: Vec<Vec<Event>>)
        ensures
            r@.len() == self.workers() + 1,
            forall|k: int|
                0 <= k < r@.len() ==> (#[trigger] r@[k])@ == self.log().filter(
                    |e: Event| e.lane == k as usize,
                ),
    {
        let mut r: Vec<Vec<Event>> = Vec::new();
        let mut k: usize = 0;
        let n = self.queues.len();
        while k < n
            invariant
                n == self.queues@.len(),
                k <= n,
                r@.len() == k,
                forall|j: int|
                    0 <= j < k ==> (#[trigger] r@[j])@ == self.log().filter(
                        |e: Event| e.lane == j as usize,
                    ),
            decreases n - k,
        {
            r.push(self.lane(k));
            k = k + 1;
        }
        r.push(self.lane(n));
        r
    }
}

impl Task {
    /// Whether the task may be run by a worker other than the one whose
    /// queue holds it: its request is still under the target latency
    /// threshold.
    pub fn is_stealable(&self, pool: &Pool) -> (r: bool)
        requires
            self.request < pool.requests().len(),
        ensures
            r == pool.requests()[self.request as int].spec_stealable(pool.threshold()),
    {
        pool.requests[self.request].is_stealable(pool.threshold)
    }
}

} // verus!
