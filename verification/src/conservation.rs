//! What holds of every history of a pool: no value is lost, none is made up,
//! and what comes out depends on what was submitted alone.

use vstd::prelude::*;
use vstd::multiset::Multiset;
use crate::message::{Message, deterministic};
use crate::worker::Worker;
use crate::pool::{Event, ThreadPool, submitted};
use crate::accounting::{
    message_output, pending_outputs, inflight_outputs, queue_deterministic, worker_output,
    lemma_pending_push, lemma_pending_drop_first, lemma_inflight_update, lemma_inflight_idle,
    lemma_pending_no_work,
};

verus! {

impl<T, F: FnOnce() -> T> ThreadPool<T, F> {
    /// A step of any unit loses no value and makes none up: where every
    /// computation in the pool is deterministic and the consumer listens, the
    /// pool owes after the step what it owed before.
    pub proof fn lemma_step_conserves(&self, next: &Self, i: int)
        requires
            self.steps_to(next, i),
            self.all_deterministic(),
            self.listening(),
        ensures
            next.owed() == self.owed(),
            next.all_deterministic(),
    {
        broadcast use vstd::seq_lib::group_to_multiset_ensures;

        if 0 <= i < self.units().len() {
            let w = self.units()[i];
            match w {
                Worker::Polling => {
                    if self.jobs().len() > 0 {
                        let m = self.jobs()[0];
                        let w2 = Worker::<T, F>::after_poll(Some(m));
                        lemma_pending_drop_first::<T, F>(self.jobs());
                        lemma_inflight_update::<T, F>(self.units(), i, w2);
                        assert(worker_output::<T, F>(w2) =~= message_output::<T, F>(m));
                        assert(worker_output::<T, F>(w) =~= Multiset::<T>::empty());
                        let a = inflight_outputs::<T, F>(next.units()).add(
                            worker_output::<T, F>(w),
                        );
                        let b = inflight_outputs::<T, F>(self.units()).add(
                            worker_output::<T, F>(w2),
                        );
                        assert(a == b);
                        assert forall|v: T| next.owed().count(v) == self.owed().count(v) by {
                            assert(a.count(v) == b.count(v));
                        }
                        assert(next.owed() =~= self.owed());
                        assert forall|j: int| 0 <= j < next.jobs().len() implies (
                        #[trigger] next.jobs()[j] matches Message::Work(f) ==> deterministic::<
                            T,
                            F,
                        >(f)) by {
                            assert(next.jobs()[j] == self.jobs()[j + 1]);
                        }
                    }
                },
                Worker::Executing(f) => {
                    let v = choose|v: T|
                        f.ensures((), v) && next.units() == #[trigger] self.units().update(
                            i,
                            Worker::Publishing(v),
                        );
                    let w2 = Worker::<T, F>::Publishing(v);
                    lemma_inflight_update::<T, F>(self.units(), i, w2);
                    assert(worker_output::<T, F>(w2) == worker_output::<T, F>(w));
                    let a = inflight_outputs::<T, F>(next.units()).add(worker_output::<T, F>(w));
                    let b = inflight_outputs::<T, F>(self.units()).add(worker_output::<T, F>(w2));
                    assert(a == b);
                    assert forall|v: T| next.owed().count(v) == self.owed().count(v) by {
                        assert(a.count(v) == b.count(v));
                    }
                    assert(next.owed() =~= self.owed());
                },
                Worker::Publishing(v) => {
                    let w2 = Worker::<T, F>::Polling;
                    lemma_inflight_update::<T, F>(self.units(), i, w2);
                    assert(worker_output::<T, F>(w2) =~= Multiset::<T>::empty());
                    let a = inflight_outputs::<T, F>(next.units()).add(worker_output::<T, F>(w));
                    let b = inflight_outputs::<T, F>(self.units()).add(worker_output::<T, F>(w2));
                    assert(a == b);
                    assert(next.results().to_multiset() =~= self.results().to_multiset().insert(v));
                    assert forall|x: T| next.owed().count(x) == self.owed().count(x) by {
                        assert(a.count(x) == b.count(x));
                    }
                    assert(next.owed() =~= self.owed());
                },
                Worker::Exited => {},
            }
        }
    }

    /// A step of any unit neither drops a job nor makes one up, whatever the
    /// computations yield: where the consumer listens, the pool owes as many
    /// values after the step as before.
    pub proof fn lemma_step_counts(&self, next: &Self, i: int)
        requires
            self.steps_to(next, i),
            self.listening(),
        ensures
            next.owed().len() == self.owed().len(),
    {
        broadcast use vstd::seq_lib::group_to_multiset_ensures;

        if 0 <= i < self.units().len() {
            let w = self.units()[i];
            let held = inflight_outputs::<T, F>(self.units());
            let held_next = inflight_outputs::<T, F>(next.units());
            match w {
                Worker::Polling => {
                    if self.jobs().len() > 0 {
                        let m = self.jobs()[0];
                        let w2 = Worker::<T, F>::after_poll(Some(m));
                        lemma_pending_drop_first::<T, F>(self.jobs());
                        lemma_inflight_update::<T, F>(self.units(), i, w2);
                        assert(worker_output::<T, F>(w2).len() == message_output::<T, F>(m).len());
                        assert(worker_output::<T, F>(w).len() == 0);
                        assert(held_next.add(worker_output::<T, F>(w)).len() == held.add(
                            worker_output::<T, F>(w2),
                        ).len());
                    }
                },
                Worker::Executing(f) => {
                    let v = choose|v: T|
                        f.ensures((), v) && next.units() == #[trigger] self.units().update(
                            i,
                            Worker::Publishing(v),
                        );
                    let w2 = Worker::<T, F>::Publishing(v);
                    lemma_inflight_update::<T, F>(self.units(), i, w2);
                    assert(held_next.add(worker_output::<T, F>(w)).len() == held.add(
                        worker_output::<T, F>(w2),
                    ).len());
                },
                Worker::Publishing(v) => {
                    let w2 = Worker::<T, F>::Polling;
                    lemma_inflight_update::<T, F>(self.units(), i, w2);
                    assert(worker_output::<T, F>(w2).len() == 0);
                    assert(held_next.add(worker_output::<T, F>(w)).len() == held.add(
                        worker_output::<T, F>(w2),
                    ).len());
                    assert(next.results().to_multiset().len() == self.results().to_multiset().len()
                        + 1);
                },
                Worker::Exited => {},
            }
        }
    }

    /// A history grows by one event that leads on from its last state.
    pub proof fn lemma_history_extend(
        trace: Seq<Self>,
        events: Seq<Event<F>>,
        next: Self,
        e: Event<F>,
    )
        requires
            Self::is_history(trace, events),
            trace.last().moves_to(&next, e),
        ensures
            Self::is_history(trace.push(next), events.push(e)),
            submitted(events.push(e)) == match e {
                Event::Submit(m) => submitted(events).push(m),
                Event::Step(_) => submitted(events),
            },
    {
        let longer = trace.push(next);
        let more = events.push(e);
        assert forall|k: int| 0 <= k < more.len() implies (#[trigger] longer[k]).moves_to(
            &longer[k + 1],
            more[k],
        ) by {
            if k < events.len() {
                assert(longer[k] == trace[k]);
                assert(longer[k + 1] == trace[k + 1]);
                assert(trace[k].moves_to(&trace[k + 1], events[k]));
            }
        }
        assert(more.drop_last() =~= events);
    }

    /// A history without its last event is a history.
    proof fn lemma_history_shorten(trace: Seq<Self>, events: Seq<Event<F>>)
        requires
            Self::is_history(trace, events),
            events.len() > 0,
        ensures
            Self::is_history(trace.drop_last(), events.drop_last()),
            trace.drop_last().last() == trace[events.len() - 1],
            trace[events.len() - 1].moves_to(&trace.last(), events.last()),
    {
        let shorter = trace.drop_last();
        assert forall|k: int| 0 <= k < events.drop_last().len() implies (#[trigger] shorter[k]).moves_to(
            &shorter[k + 1],
            events.drop_last()[k],
        ) by {
            assert(trace[k].moves_to(&trace[k + 1], events[k]));
        }
        let k = events.len() - 1;
        assert(trace[k].moves_to(&trace[k + 1], events[k]));
    }

    /// Along any history, in whatever order callers submit and units step, a
    /// pool whose computations are all deterministic and whose consumer
    /// listens owes at the end what it owed at the start and the values of
    /// the computations submitted since: no job is lost and none runs twice.
    pub proof fn lemma_history_accounts(trace: Seq<Self>, events: Seq<Event<F>>)
        requires
            Self::is_history(trace, events),
            trace[0].all_deterministic(),
            trace[0].listening(),
            queue_deterministic::<T, F>(submitted(events)),
        ensures
            trace.last().all_deterministic(),
            trace.last().listening(),
            trace.last().owed() == trace[0].owed().add(
                pending_outputs::<T, F>(submitted(events)),
            ),
        decreases events.len(),
    {
        if events.len() == 0 {
            assert(trace.last().owed() =~= trace[0].owed().add(
                pending_outputs::<T, F>(submitted(events)),
            ));
        } else {
            Self::lemma_history_shorten(trace, events);
            let before = trace[events.len() - 1];
            let earlier = submitted(events.drop_last());
            match events.last() {
                Event::Submit(m) => {
                    assert forall|i: int| 0 <= i < earlier.len() implies (
                    #[trigger] earlier[i] matches Message::Work(f) ==> deterministic::<T, F>(
                        f,
                    )) by {
                        assert(submitted(events)[i] == earlier[i]);
                    }
                    assert(submitted(events)[earlier.len() as int] == m);
                    Self::lemma_history_accounts(trace.drop_last(), events.drop_last());
                    lemma_pending_push::<T, F>(before.jobs(), m);
                    lemma_pending_push::<T, F>(earlier, m);
                    assert(submitted(events) == earlier.push(m));
                    let goal = trace[0].owed().add(pending_outputs::<T, F>(submitted(events)));
                    let held = trace[0].owed().add(pending_outputs::<T, F>(earlier));
                    assert(before.owed() == held);
                    assert forall|v: T| trace.last().owed().count(v) == goal.count(v) by {
                        assert(before.owed().count(v) == held.count(v));
                    }
                    assert(trace.last().owed() =~= goal);
                },
                Event::Step(i) => {
                    Self::lemma_history_accounts(trace.drop_last(), events.drop_last());
                    before.lemma_step_conserves(&trace.last(), i);
                },
            }
        }
    }

    /// Along any history, in whatever order callers submit and units step
    /// and whatever the computations yield, a pool whose consumer listens
    /// owes at the end as many values as it owed at the start and as
    /// computations were submitted since: concurrent callers lose no job.
    pub proof fn lemma_history_counts(trace: Seq<Self>, events: Seq<Event<F>>)
        requires
            Self::is_history(trace, events),
            trace[0].listening(),
        ensures
            trace.last().listening(),
            trace.last().owed().len() == trace[0].owed().len() + pending_outputs::<T, F>(
                submitted(events),
            ).len(),
        decreases events.len(),
    {
        if events.len() > 0 {
            Self::lemma_history_shorten(trace, events);
            Self::lemma_history_counts(trace.drop_last(), events.drop_last());
            let before = trace[events.len() - 1];
            match events.last() {
                Event::Submit(m) => {
                    lemma_pending_push::<T, F>(before.jobs(), m);
                    lemma_pending_push::<T, F>(submitted(events.drop_last()), m);
                },
                Event::Step(i) => {
                    before.lemma_step_counts(&trace.last(), i);
                },
            }
        }
    }

    /// A pool that owed nothing at first and is drained after a history of
    /// submissions and steps holds as results, as a multiset, exactly the
    /// values of the computations submitted, whatever the number of units,
    /// the poll interval and the order of the events.
    pub proof fn lemma_history_delivers(trace: Seq<Self>, events: Seq<Event<F>>)
        requires
            Self::is_history(trace, events),
            trace[0].all_deterministic(),
            trace[0].listening(),
            trace[0].owed() == Multiset::<T>::empty(),
            queue_deterministic::<T, F>(submitted(events)),
            trace.last().drained(),
        ensures
            trace.last().results().to_multiset() == pending_outputs::<T, F>(submitted(events)),
    {
        Self::lemma_history_accounts(trace, events);
        trace.last().lemma_drained_results();
        assert(trace.last().owed() =~= pending_outputs::<T, F>(submitted(events)));
    }

    /// Two pools that owed nothing at first, were given the same computations
    /// and are drained hold the same multiset of results, however many units
    /// each has, whatever their poll intervals are and in whatever order
    /// their units stepped.
    pub proof fn lemma_results_independent(
        trace: Seq<Self>,
        events: Seq<Event<F>>,
        other_trace: Seq<Self>,
        other_events: Seq<Event<F>>,
    )
        requires
            Self::is_history(trace, events),
            Self::is_history(other_trace, other_events),
            trace[0].all_deterministic(),
            other_trace[0].all_deterministic(),
            trace[0].listening(),
            other_trace[0].listening(),
            trace[0].owed() == Multiset::<T>::empty(),
            other_trace[0].owed() == Multiset::<T>::empty(),
            queue_deterministic::<T, F>(submitted(events)),
            pending_outputs::<T, F>(submitted(events)) == pending_outputs::<T, F>(
                submitted(other_events),
            ),
            queue_deterministic::<T, F>(submitted(other_events)),
            trace.last().drained(),
            other_trace.last().drained(),
        ensures
            trace.last().results().to_multiset() == other_trace.last().results().to_multiset(),
    {
        Self::lemma_history_delivers(trace, events);
        Self::lemma_history_delivers(other_trace, other_events);
    }

    /// A pool without worker units accepts every submission and never
    /// produces a result: along any history its queue only grows by what was
    /// submitted and its result channel stays as it was.
    pub proof fn lemma_no_units_no_results(trace: Seq<Self>, events: Seq<Event<F>>)
        requires
            Self::is_history(trace, events),
            trace[0].units().len() == 0,
        ensures
            trace.last().jobs() == trace[0].jobs() + submitted(events),
            trace.last().results() == trace[0].results(),
            trace.last().units() == trace[0].units(),
        decreases events.len(),
    {
        if events.len() == 0 {
            assert(trace.last().jobs() =~= trace[0].jobs() + submitted(events));
        } else {
            Self::lemma_history_shorten(trace, events);
            Self::lemma_no_units_no_results(trace.drop_last(), events.drop_last());
            assert(trace.last().jobs() =~= trace[0].jobs() + submitted(events));
        }
    }

    /// Once no computation waits and no unit holds a value, the results not
    /// collected yet are, as a multiset, exactly what the pool owes.
    pub proof fn lemma_drained_results(&self)
        requires
            self.drained(),
        ensures
            self.results().to_multiset() == self.owed(),
    {
        lemma_pending_no_work::<T, F>(self.jobs());
        lemma_inflight_idle::<T, F>(self.units());
        assert(self.results().to_multiset() =~= self.owed());
    }
}

} // verus!
