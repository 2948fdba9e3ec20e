//! What a pool owes its caller: the values of the computations that wait in
//! the queue, of those that worker units hold, and the results not collected
//! yet, as multisets.

use vstd::prelude::*;
use vstd::multiset::Multiset;
use crate::message::{Message, output_of, deterministic};
use crate::worker::Worker;

verus! {

/// The value one message will contribute: that of its computation, nothing
/// for the sentinel.
pub open spec fn message_output<T, F: FnOnce() -> T>(m: Message<F>) -> Multiset<T> {
    match m {
        Message::Work(f) => Multiset::singleton(output_of::<T, F>(f)),
        Message::Terminate => Multiset::empty(),
    }
}

/// The values of all computations waiting in a queue.
pub open spec fn pending_outputs<T, F: FnOnce() -> T>(q: Seq<Message<F>>) -> Multiset<T>
    decreases q.len(),
{
    if q.len() == 0 {
        Multiset::empty()
    } else {
        pending_outputs::<T, F>(q.drop_last()).add(message_output::<T, F>(q.last()))
    }
}

/// The value one worker unit holds: that of the computation it executes, or
/// the value it is about to publish.
pub open spec fn worker_output<T, F: FnOnce() -> T>(w: Worker<T, F>) -> Multiset<T> {
    match w {
        Worker::Executing(f) => Multiset::singleton(output_of::<T, F>(f)),
        Worker::Publishing(v) => Multiset::singleton(v),
        _ => Multiset::empty(),
    }
}

/// The values held by all worker units.
pub open spec fn inflight_outputs<T, F: FnOnce() -> T>(ws: Seq<Worker<T, F>>) -> Multiset<T>
    decreases ws.len(),
{
    if ws.len() == 0 {
        Multiset::empty()
    } else {
        inflight_outputs::<T, F>(ws.drop_last()).add(worker_output::<T, F>(ws.last()))
    }
}

/// The number of sentinels waiting in a queue.
pub open spec fn sentinels<F>(q: Seq<Message<F>>) -> nat
    decreases q.len(),
{
    if q.len() == 0 {
        0
    } else {
        sentinels(q.drop_last()) + if q.last() is Terminate { 1nat } else { 0nat }
    }
}

/// Every computation waiting in the queue is deterministic.
pub open spec fn queue_deterministic<T, F: FnOnce() -> T>(q: Seq<Message<F>>) -> bool {
    forall|i: int|
        0 <= i < q.len() ==> (#[trigger] q[i] matches Message::Work(f) ==> deterministic::<T, F>(f))
}

/// Every computation held by a worker unit is deterministic.
pub open spec fn workers_deterministic<T, F: FnOnce() -> T>(ws: Seq<Worker<T, F>>) -> bool {
    forall|i: int|
        0 <= i < ws.len() ==> (#[trigger] ws[i] matches Worker::Executing(f) ==> deterministic::<
            T,
            F,
        >(f))
}

/// Enqueuing adds exactly the new message's value to what is pending.
pub proof fn lemma_pending_push<T, F: FnOnce() -> T>(q: Seq<Message<F>>, m: Message<F>)
    ensures
        pending_outputs::<T, F>(q.push(m)) == pending_outputs::<T, F>(q).add(
            message_output::<T, F>(m),
        ),
        sentinels(q.push(m)) == sentinels(q) + if m is Terminate { 1nat } else { 0nat },
{
    assert(q.push(m).drop_last() =~= q);
}

/// Dequeuing removes exactly the first message's value from what is pending.
pub proof fn lemma_pending_drop_first<T, F: FnOnce() -> T>(q: Seq<Message<F>>)
    requires
        q.len() > 0,
    ensures
        pending_outputs::<T, F>(q) == pending_outputs::<T, F>(q.drop_first()).add(
            message_output::<T, F>(q[0]),
        ),
        sentinels(q) == sentinels(q.drop_first()) + if q[0] is Terminate { 1nat } else { 0nat },
    decreases q.len(),
{
    if q.len() == 1 {
        assert(q.drop_first() =~= q.drop_last());
        assert(pending_outputs::<T, F>(q) =~= pending_outputs::<T, F>(q.drop_first()).add(
            message_output::<T, F>(q[0]),
        ));
    } else {
        lemma_pending_drop_first::<T, F>(q.drop_last());
        assert(q.drop_last().drop_first() =~= q.drop_first().drop_last());
        assert(pending_outputs::<T, F>(q) =~= pending_outputs::<T, F>(q.drop_first()).add(
            message_output::<T, F>(q[0]),
        ));
    }
}

/// Replacing one worker unit exchanges its value for the new unit's.
pub proof fn lemma_inflight_update<T, F: FnOnce() -> T>(
    ws: Seq<Worker<T, F>>,
    i: int,
    w: Worker<T, F>,
)
    requires
        0 <= i < ws.len(),
    ensures
        inflight_outputs::<T, F>(ws.update(i, w)).add(worker_output::<T, F>(ws[i]))
            == inflight_outputs::<T, F>(ws).add(worker_output::<T, F>(w)),
    decreases ws.len(),
{
    let lhs = inflight_outputs::<T, F>(ws.update(i, w)).add(worker_output::<T, F>(ws[i]));
    let rhs = inflight_outputs::<T, F>(ws).add(worker_output::<T, F>(w));
    let rest = inflight_outputs::<T, F>(ws.drop_last());
    assert(inflight_outputs::<T, F>(ws) == rest.add(worker_output::<T, F>(ws.last())));
    if i == ws.len() - 1 {
        assert(ws.update(i, w).drop_last() =~= ws.drop_last());
        assert(ws.update(i, w).last() == w);
        assert(inflight_outputs::<T, F>(ws.update(i, w)) == rest.add(worker_output::<T, F>(w)));
        assert(lhs =~= rhs);
    } else {
        lemma_inflight_update::<T, F>(ws.drop_last(), i, w);
        assert(ws.update(i, w).drop_last() =~= ws.drop_last().update(i, w));
        assert(ws.update(i, w).last() == ws.last());
        assert(ws.drop_last()[i] == ws[i]);
        assert(inflight_outputs::<T, F>(ws.update(i, w)) == inflight_outputs::<T, F>(
            ws.drop_last().update(i, w),
        ).add(worker_output::<T, F>(ws.last())));
        let a = inflight_outputs::<T, F>(ws.drop_last().update(i, w)).add(
            worker_output::<T, F>(ws[i]),
        );
        let b = rest.add(worker_output::<T, F>(w));
        assert(a == b);
        assert forall|v: T| lhs.count(v) == rhs.count(v) by {
            assert(a.count(v) == b.count(v));
        }
        assert(lhs =~= rhs);
    }
}

/// Worker units that are all polling or exited hold no value.
pub proof fn lemma_inflight_idle<T, F: FnOnce() -> T>(ws: Seq<Worker<T, F>>)
    requires
        forall|i: int| 0 <= i < ws.len() ==> (#[trigger] ws[i] is Polling) || ws[i] is Exited,
    ensures
        inflight_outputs::<T, F>(ws) == Multiset::<T>::empty(),
    decreases ws.len(),
{
    if ws.len() > 0 {
        lemma_inflight_idle::<T, F>(ws.drop_last());
        assert(ws.last() == ws[ws.len() - 1]);
        assert(inflight_outputs::<T, F>(ws) =~= Multiset::<T>::empty());
    }
}

/// A queue that holds only sentinels has no value pending.
pub proof fn lemma_pending_no_work<T, F: FnOnce() -> T>(q: Seq<Message<F>>)
    requires
        forall|i: int| 0 <= i < q.len() ==> #[trigger] q[i] is Terminate,
    ensures
        pending_outputs::<T, F>(q) == Multiset::<T>::empty(),
    decreases q.len(),
{
    if q.len() > 0 {
        lemma_pending_no_work::<T, F>(q.drop_last());
        assert(q.last() == q[q.len() - 1]);
        assert(pending_outputs::<T, F>(q) =~= Multiset::<T>::empty());
    }
}

} // verus!
