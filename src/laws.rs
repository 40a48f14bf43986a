use crate::events::{count_tagged, created, tasks_with, EventCategory};
use crate::pool::{Action, Pool};
use crate::task::{in_hand, lemma_of_request_all_once, lemma_of_request_zero, Task};
use vstd::prelude::*;

verus! {

broadcast use vstd::multiset::group_multiset_axioms;

/// A request that has finished ran each of its replicas exactly once: the
/// log holds one start of each replica below its fanout, none of any other,
/// and exactly `fanout` start events carry its tag.
pub proof fn law_finished_request_started_fanout_times(pool: Pool, r: usize)
    requires
        pool.wf(),
        r < pool.requests().len(),
        pool.requests()[r as int].remaining == 0,
    ensures
        forall|t: Task|
            t.request == r ==> #[trigger] tasks_with(pool.log(), EventCategory::StartProcessing).count(t)
                == if t.replica < pool.requests()[r as int].fanout {
                1nat
            } else {
                0nat
            },
        count_tagged(pool.log(), EventCategory::StartProcessing, r)
            == pool.requests()[r as int].fanout,
        forall|i: int|
            0 <= i < pool.log().len() && (#[trigger] pool.log()[i]).category
                == EventCategory::StartProcessing ==> pool.log()[i].lane < pool.workers(),
{
    let n = pool.requests()[r as int].fanout;
    lemma_finished_request_idle(pool, r);
    let started = tasks_with(pool.log(), EventCategory::StartProcessing);
    let ended = tasks_with(pool.log(), EventCategory::EndProcessing);
    assert forall|t: Task| t.request == r implies #[trigger] started.count(t) == if t.replica < n {
        1nat
    } else {
        0nat
    } by {
        assert(started.count(t) == ended.count(t) + in_hand(pool.running()).count(t));
        assert(created(pool.log()).count(t) == pool.outstanding().count(t) + ended.count(t));
        assert(pool.task_exists(t) == (t.replica < n));
    }
    assert forall|i: usize| i < n implies #[trigger] started.count(Task { request: r, replica: i }) == 1 by {
        assert(Task { request: r, replica: i }.request == r);
    }
    lemma_of_request_all_once(started, r, n as nat);
}

/// A task of a request over the target latency threshold is only ever run by
/// the worker whose own queue holds it: a step never hands it to a thief.
pub proof fn law_throttled_task_runs_on_its_holder(
    pre: Pool,
    post: Pool,
    w: int,
    draw: int,
    now: u64,
    a: Action,
)
    requires
        pre.wf(),
        0 <= w < pre.workers(),
        Pool::steps_to(pre, post, w, draw, now, a),
        a matches Action::Run { task, .. } && task.request < pre.requests().len()
            && !pre.requests()[task.request as int].spec_stealable(pre.threshold()),
    ensures
        a matches Action::Run { task, stolen_from } && stolen_from is None && task
            == pre.queues()[w][0],
        forall|i: int|
            pre.log().len() <= i < post.log().len() ==> !((#[trigger] post.log()[i]).category is Steal),
{
}

/// No task of a finished request is lost or run twice: the tasks whose
/// completion was logged are exactly the tasks its expansion created, each
/// once.
pub proof fn law_finished_request_tasks_conserved(pool: Pool, r: usize)
    requires
        pool.wf(),
        r < pool.requests().len(),
        pool.requests()[r as int].remaining == 0,
    ensures
        forall|t: Task|
            t.request == r ==> #[trigger] tasks_with(pool.log(), EventCategory::EndProcessing).count(t)
                == created(pool.log()).count(t),
        forall|t: Task| t.request == r ==> #[trigger] created(pool.log()).count(t) <= 1,
{
    lemma_finished_request_idle(pool, r);
}

/// No task is ever started twice or finished twice, in any state.
pub proof fn law_tasks_run_at_most_once(pool: Pool)
    requires
        pool.wf(),
    ensures
        forall|t: Task| #[trigger] tasks_with(pool.log(), EventCategory::StartProcessing).count(t) <= 1,
        forall|t: Task| #[trigger] tasks_with(pool.log(), EventCategory::EndProcessing).count(t) <= 1,
{
    pool.lemma_started_within_created();
    assert forall|t: Task| #[trigger] tasks_with(pool.log(), EventCategory::EndProcessing).count(t) <= 1 by {
        assert(created(pool.log()).count(t) <= 1);
    }
}

/// A finished request has no task queued or in hand.
proof fn lemma_finished_request_idle(pool: Pool, r: usize)
    requires
        pool.wf(),
        r < pool.requests().len(),
        pool.requests()[r as int].remaining == 0,
    ensures
        pool.requests()[r as int].expanded,
        forall|t: Task| t.request == r ==> #[trigger] pool.outstanding().count(t) == 0,
        forall|t: Task| t.request == r ==> #[trigger] in_hand(pool.running()).count(t) == 0,
{
    let q = pool.requests()[r as int];
    assert(q.expanded);
    lemma_of_request_zero(pool.outstanding(), r, q.fanout as nat);
    assert forall|t: Task| t.request == r implies #[trigger] pool.outstanding().count(t) == 0 by {
        if t.replica >= q.fanout {
            assert(created(pool.log()).count(t) == 0);
        } else {
            assert(pool.outstanding().count(Task { request: r, replica: t.replica }) == 0);
        }
    }
    assert forall|t: Task| t.request == r implies #[trigger] in_hand(pool.running()).count(t) == 0 by {
        assert(pool.outstanding().count(t) == 0);
    }
}

} // verus!
