use vstd::multiset::Multiset;
use vstd::prelude::*;

verus! {

broadcast use vstd::multiset::group_multiset_axioms;

/// One replica of a request's work: the request it belongs to and its index
/// among that request's replicas.
#[derive(Clone, Copy, Debug, PartialEq, Eq, Structural)]
pub struct Task {
    pub request: usize,
    pub replica: usize,
}

impl Task {
    pub fn new(request: usize, replica: usize) -> (t: Task)
        ensures
            t.request == request,
            t.replica == replica,
    {
        Task { request, replica }
    }
}

/// The replicas `0..n` of request `r`, each once.
pub open spec fn replicas(r: usize, n: nat) -> Multiset<Task>
    decreases n,
{
    if n == 0 {
        Multiset::empty()
    } else {
        replicas(r, (n - 1) as nat).insert(Task { request: r, replica: (n - 1) as usize })
    }
}

/// How many of the replicas `0..n` of request `r` a multiset holds.
pub open spec fn of_request(m: Multiset<Task>, r: usize, n: nat) -> nat
    decreases n,
{
    if n == 0 {
        0
    } else {
        of_request(m, r, (n - 1) as nat) + m.count(Task { request: r, replica: (n - 1) as usize })
    }
}

pub proof fn lemma_replicas_count(r: usize, n: nat, t: Task)
    requires
        n <= usize::MAX + 1,
    ensures
        replicas(r, n).count(t) == if t.request == r && t.replica < n { 1nat } else { 0nat },
    decreases n,
{
    if n > 0 {
        lemma_replicas_count(r, (n - 1) as nat, t);
    }
}

pub proof fn lemma_of_request_insert(m: Multiset<Task>, r: usize, n: nat, t: Task)
    requires
        n <= usize::MAX + 1,
    ensures
        of_request(m.insert(t), r, n) == of_request(m, r, n) + if t.request == r && t.replica
            < n {
            1nat
        } else {
            0nat
        },
    decreases n,
{
    if n > 0 {
        lemma_of_request_insert(m, r, (n - 1) as nat, t);
    }
}

pub proof fn lemma_of_request_add(a: Multiset<Task>, b: Multiset<Task>, r: usize, n: nat)
    ensures
        of_request(a.add(b), r, n) == of_request(a, r, n) + of_request(b, r, n),
    decreases n,
{
    if n > 0 {
        lemma_of_request_add(a, b, r, (n - 1) as nat);
    }
}

/// No replica below `n` of request `r` is held exactly when the count is zero.
pub proof fn lemma_of_request_zero(m: Multiset<Task>, r: usize, n: nat)
    requires
        n <= usize::MAX + 1,
    ensures
        of_request(m, r, n) == 0 <==> forall|i: usize|
            i < n ==> #[trigger] m.count(Task { request: r, replica: i }) == 0,
    decreases n,
{
    if n > 0 {
        lemma_of_request_zero(m, r, (n - 1) as nat);
    }
}

/// Every replica below `n` of request `r` held once gives a count of `n`.
pub proof fn lemma_of_request_all_once(m: Multiset<Task>, r: usize, n: nat)
    requires
        n <= usize::MAX + 1,
        forall|i: usize| i < n ==> #[trigger] m.count(Task { request: r, replica: i }) == 1,
    ensures
        of_request(m, r, n) == n,
    decreases n,
{
    if n > 0 {
        lemma_of_request_all_once(m, r, (n - 1) as nat);
    }
}

/// The tasks held by a row of queues.
pub open spec fn queued(qs: Seq<Seq<Task>>) -> Multiset<Task>
    decreases qs.len(),
{
    if qs.len() == 0 {
        Multiset::empty()
    } else {
        queued(qs.drop_last()).add(qs.last().to_multiset())
    }
}

/// The tasks held by a row of slots.
pub open spec fn in_hand(slots: Seq<Option<Task>>) -> Multiset<Task>
    decreases slots.len(),
{
    if slots.len() == 0 {
        Multiset::empty()
    } else {
        match slots.last() {
            Some(t) => in_hand(slots.drop_last()).insert(t),
            None => in_hand(slots.drop_last()),
        }
    }
}

pub open spec fn slot_tasks(s: Option<Task>) -> Multiset<Task> {
    match s {
        Some(t) => Multiset::singleton(t),
        None => Multiset::empty(),
    }
}

/// Replacing one queue changes the whole by what that queue gained and lost.
pub proof fn lemma_queued_update(qs: Seq<Seq<Task>>, w: int, nq: Seq<Task>)
    requires
        0 <= w < qs.len(),
    ensures
        queued(qs.update(w, nq)).add(qs[w].to_multiset()) =~= queued(qs).add(nq.to_multiset()),
    decreases qs.len(),
{
    let qs2 = qs.update(w, nq);
    if w == qs.len() - 1 {
        assert(qs2.drop_last() =~= qs.drop_last());
        assert(qs2.last() == nq);
    } else {
        assert(qs2.drop_last() =~= qs.drop_last().update(w, nq));
        assert(qs2.last() == qs.last());
        lemma_queued_update(qs.drop_last(), w, nq);
        assert(qs.drop_last()[w] == qs[w]);
    }
    let lhs = queued(qs2).add(qs[w].to_multiset());
    let rhs = queued(qs).add(nq.to_multiset());
    assert forall|t: Task| #[trigger] lhs.count(t) == rhs.count(t) by {
        if w < qs.len() - 1 {
            let ih_l = queued(qs.drop_last().update(w, nq)).add(qs[w].to_multiset());
            let ih_r = queued(qs.drop_last()).add(nq.to_multiset());
            assert(ih_l.count(t) == ih_r.count(t));
        }
    }
    assert(lhs =~= rhs);
}

/// Replacing one slot changes the whole by what that slot gained and lost.
pub proof fn lemma_in_hand_update(slots: Seq<Option<Task>>, w: int, s: Option<Task>)
    requires
        0 <= w < slots.len(),
    ensures
        in_hand(slots.update(w, s)).add(slot_tasks(slots[w])) =~= in_hand(slots).add(
            slot_tasks(s),
        ),
    decreases slots.len(),
{
    let s2 = slots.update(w, s);
    if w == slots.len() - 1 {
        assert(s2.drop_last() =~= slots.drop_last());
        assert(s2.last() == s);
    } else {
        assert(s2.drop_last() =~= slots.drop_last().update(w, s));
        assert(s2.last() == slots.last());
        lemma_in_hand_update(slots.drop_last(), w, s);
        assert(slots.drop_last()[w] == slots[w]);
    }
    let lhs = in_hand(s2).add(slot_tasks(slots[w]));
    let rhs = in_hand(slots).add(slot_tasks(s));
    assert forall|t: Task| #[trigger] lhs.count(t) == rhs.count(t) by {
        if w < slots.len() - 1 {
            let ih_l = in_hand(slots.drop_last().update(w, s)).add(slot_tasks(slots[w]));
            let ih_r = in_hand(slots.drop_last()).add(slot_tasks(s));
            assert(ih_l.count(t) == ih_r.count(t));
        }
    }
    assert(lhs =~= rhs);
}

} // verus!
