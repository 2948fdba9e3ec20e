//! The pool handle: it owns the job queue, the result channel and the worker
//! units, takes submissions, advances the units and shuts them down.

use vstd::prelude::*;
use vstd::multiset::Multiset;
use crate::message::Message;
use crate::queue::JobQueue;
use crate::channel::ResultChannel;
use crate::worker::{Action, Worker};
use crate::accounting::{
    message_output, pending_outputs, inflight_outputs, sentinels, queue_deterministic,
    workers_deterministic, lemma_pending_push, lemma_pending_drop_first, lemma_inflight_idle,
    lemma_pending_no_work,
};

verus! {

/// What can happen to a pool between its creation and its shutdown: a caller
/// submits a message, or the unit with the given index takes one step.
pub enum Event<F> {
    /// A caller enqueues this message.
    Submit(Message<F>),
    /// The unit with this index takes one step of its loop.
    Step(int),
}

/// The messages that a sequence of events submits, in their order.
pub open spec fn submitted<F>(events: Seq<Event<F>>) -> Seq<Message<F>>
    decreases events.len(),
{
    if events.len() == 0 {
        Seq::empty()
    } else {
        match events.last() {
            Event::Submit(m) => submitted(events.drop_last()).push(m),
            Event::Step(_) => submitted(events.drop_last()),
        }
    }
}

/// A pool of a fixed number of worker units sharing one job queue. Results
/// arrive on `result`, which the caller drains.
pub struct ThreadPool<T, F> {
    queue: JobQueue<F>,
    /// The consumer end of the result channel.
    pub result: ResultChannel<T>,
    workers: Vec<Worker<T, F>>,
    poll_interval: u64,
}

impl<T, F: FnOnce() -> T> ThreadPool<T, F> {
    /// The messages waiting in the job queue, oldest first.
    pub closed spec fn jobs(&self) -> Seq<Message<F>> {
        self.queue@
    }

    /// The worker units, in the order in which they were created.
    pub closed spec fn units(&self) -> Seq<Worker<T, F>> {
        self.workers@
    }

    /// The results not collected yet, oldest first.
    pub closed spec fn results(&self) -> Seq<T> {
        self.result@
    }

    /// Whether the consumer of the result channel still listens.
    pub closed spec fn listening(&self) -> bool {
        self.result.listening()
    }

    /// The milliseconds a unit sleeps after it found the queue empty.
    pub closed spec fn interval(&self) -> u64 {
        self.poll_interval
    }

    /// Neither the queue nor any unit holds a computation that may not be
    /// called.
    pub open spec fn wf(&self) -> bool {
        &&& forall|i: int| 0 <= i < self.jobs().len() ==> (#[trigger] self.jobs()[i]).runnable()
        &&& forall|i: int| 0 <= i < self.units().len() ==> (#[trigger] self.units()[i]).wf()
    }

    /// All the values the pool still owes: those of the computations that
    /// wait, those that units hold, and the results not collected yet.
    pub open spec fn owed(&self) -> Multiset<T> {
        pending_outputs::<T, F>(self.jobs()).add(inflight_outputs::<T, F>(self.units())).add(
            self.results().to_multiset(),
        )
    }

    /// Every computation in the pool is deterministic.
    pub open spec fn all_deterministic(&self) -> bool {
        queue_deterministic::<T, F>(self.jobs()) && workers_deterministic::<T, F>(self.units())
    }

    /// No computation waits and no unit holds a value.
    pub open spec fn drained(&self) -> bool {
        &&& forall|i: int| 0 <= i < self.jobs().len() ==> #[trigger] self.jobs()[i] is Terminate
        &&& forall|i: int|
            0 <= i < self.units().len() ==> (#[trigger] self.units()[i] is Polling)
                || self.units()[i] is Exited
    }

    /// Every unit has left its loop.
    pub open spec fn all_exited(&self) -> bool {
        forall|i: int| 0 <= i < self.units().len() ==> #[trigger] self.units()[i] is Exited
    }

    /// One step of unit `i` leads from this pool to `next`. A polling unit
    /// dequeues the oldest message and executes it or exits; finding the
    /// queue empty it changes nothing. An executing unit computes a value its
    /// computation admits. A publishing unit appends its value to the result
    /// channel, which drops it if the consumer hung up, and polls again. An
    /// exited unit, or an index that names no unit, changes nothing. No other
    /// unit moves.
    pub open spec fn steps_to(&self, next: &Self, i: int) -> bool {
        &&& next.interval() == self.interval()
        &&& next.listening() == self.listening()
        &&& if 0 <= i < self.units().len() {
            match self.units()[i] {
                Worker::Polling => {
                    &&& next.results() == self.results()
                    &&& if self.jobs().len() > 0 {
                        &&& next.jobs() == self.jobs().drop_first()
                        &&& next.units() == self.units().update(
                            i,
                            Worker::<T, F>::after_poll(Some(self.jobs()[0])),
                        )
                    } else {
                        next.jobs() == self.jobs() && next.units() == self.units()
                    }
                },
                Worker::Executing(f) => {
                    &&& next.results() == self.results()
                    &&& next.jobs() == self.jobs()
                    &&& exists|v: T|
                        f.ensures((), v) && next.units() == #[trigger] self.units().update(
                            i,
                            Worker::Publishing(v),
                        )
                },
                Worker::Publishing(v) => {
                    &&& next.results() == if self.listening() {
                        self.results().push(v)
                    } else {
                        self.results()
                    }
                    &&& next.jobs() == self.jobs()
                    &&& next.units() == self.units().update(i, Worker::Polling)
                },
                Worker::Exited => {
                    &&& next.results() == self.results()
                    &&& next.jobs() == self.jobs()
                    &&& next.units() == self.units()
                },
            }
        } else {
            &&& next.results() == self.results()
            &&& next.jobs() == self.jobs()
            &&& next.units() == self.units()
        }
    }

    /// One event leads from this pool to `next`: a submission appends its
    /// message to the queue and changes nothing else; a step is what
    /// `steps_to` says.
    pub open spec fn moves_to(&self, next: &Self, e: Event<F>) -> bool {
        match e {
            Event::Submit(m) => {
                &&& next.jobs() == self.jobs().push(m)
                &&& next.units() == self.units()
                &&& next.results() == self.results()
                &&& next.interval() == self.interval()
                &&& next.listening() == self.listening()
            },
            Event::Step(i) => self.steps_to(next, i),
        }
    }

    /// `trace` is a history of the pool: each state leads to the next by the
    /// event at that place, in whatever order callers and units took turns.
    pub open spec fn is_history(trace: Seq<Self>, events: Seq<Event<F>>) -> bool {
        &&& trace.len() == events.len() + 1
        &&& forall|k: int|
            0 <= k < events.len() ==> (#[trigger] trace[k]).moves_to(&trace[k + 1], events[k])
    }

    /// The event is a step of a polling unit that finds the queue empty: the
    /// one step after which a unit sleeps.
    pub open spec fn finds_empty(&self, e: Event<F>) -> bool {
        &&& e matches Event::Step(i)
        &&& 0 <= i < self.units().len()
        &&& self.units()[i] is Polling
        &&& self.jobs().len() == 0
    }

    /// `trace` is a history that winds this pool down to `end`: it submits
    /// one sentinel for each unit and nothing else, it takes at most three
    /// events for each message that waited and six for each unit, and in
    /// none of its events a unit finds the queue empty.
    pub open spec fn winds_down(&self, end: &Self, trace: Seq<Self>, events: Seq<Event<F>>) -> bool {
        &&& Self::is_history(trace, events)
        &&& trace[0] == *self
        &&& trace.last() == *end
        &&& submitted(events) == Seq::new(self.units().len(), |k: int| Message::<F>::Terminate)
        &&& events.len() <= 3 * self.jobs().len() + 6 * self.units().len()
        &&& forall|k: int| 0 <= k < events.len() ==> !(#[trigger] trace[k]).finds_empty(events[k])
    }

    /// What the driver does after unit `i` stepped from this pool to `next`.
    pub open spec fn action_after(&self, next: &Self, i: int) -> Action {
        if 0 <= i < self.units().len() {
            next.units()[i].next_action(
                self.units()[i] is Polling && self.jobs().len() == 0,
                self.interval(),
            )
        } else {
            Action::Stop
        }
    }

    /// Creates the job queue and the result channel, both empty, and `n`
    /// worker units that are about to poll. A unit that finds the queue empty
    /// sleeps `s` milliseconds.
    pub fn new(n: usize, s: u64) -> (pool: Self)
        ensures
            pool.wf(),
            pool.jobs() == Seq::<Message<F>>::empty(),
            pool.results() == Seq::<T>::empty(),
            pool.units().len() == n,
            forall|i: int| 0 <= i < n ==> #[trigger] pool.units()[i] is Polling,
            pool.interval() == s,
            pool.listening(),
            pool.owed() == Multiset::<T>::empty(),
    {
        let mut workers: Vec<Worker<T, F>> = Vec::new();
        let mut k: usize = 0;
        while k < n
            invariant
                k <= n,
                workers@.len() == k,
                forall|i: int| 0 <= i < k ==> #[trigger] workers@[i] is Polling,
            decreases n - k,
        {
            workers.push(Worker::new());
            k += 1;
        }
        let pool = ThreadPool {
            queue: JobQueue::new(),
            result: ResultChannel::new(),
            workers,
            poll_interval: s,
        };
        proof {
            broadcast use vstd::seq_lib::group_to_multiset_ensures;

            lemma_pending_no_work::<T, F>(pool.jobs());
            lemma_inflight_idle::<T, F>(pool.units());
            assert(pool.results().to_multiset() =~= Multiset::<T>::empty());
            assert(pool.owed() =~= Multiset::<T>::empty());
        }
        pool
    }

    /// The number of worker units the pool was created with.
    pub fn worker_count(&self) -> (n: usize)
        ensures
            n == self.units().len(),
    {
        self.workers.len()
    }

    /// The milliseconds a unit sleeps after it found the queue empty.
    pub fn poll_interval(&self) -> (s: u64)
        ensures
            s == self.interval(),
    {
        self.poll_interval
    }

    /// The number of messages waiting in the job queue.
    pub fn pending(&self) -> (n: usize)
        ensures
            n == self.jobs().len(),
    {
        self.queue.len()
    }

    /// Whether unit `i` has left its loop; an index that names no unit counts
    /// as exited.
    pub fn has_exited(&self, i: usize) -> (b: bool)
        ensures
            b == !(i < self.units().len() && !(self.units()[i as int] is Exited)),
    {
        if i < self.workers.len() {
            self.workers[i].has_exited()
        } else {
            true
        }
    }

    /// Enqueues a message behind all those waiting. Nothing else changes, and
    /// no message already in the queue is lost or moved.
    pub fn add(&mut self, f: Message<F>)
        requires
            old(self).wf(),
            f.runnable(),
        ensures
            final(self).wf(),
            final(self).jobs() == old(self).jobs().push(f),
            final(self).units() == old(self).units(),
            final(self).results() == old(self).results(),
            final(self).interval() == old(self).interval(),
            final(self).listening() == old(self).listening(),
            final(self).owed() == old(self).owed().add(message_output::<T, F>(f)),
    {
        self.queue.enqueue(f);
        proof {
            lemma_pending_push::<T, F>(old(self).jobs(), f);
            assert(self.owed() =~= old(self).owed().add(message_output::<T, F>(f)));
        }
    }

    /// Takes the oldest result not collected yet, if there is one: what
    /// `result.collect()` does. Nothing else changes.
    pub fn collect(&mut self) -> (value: Option<T>)
        ensures
            final(self).jobs() == old(self).jobs(),
            final(self).units() == old(self).units(),
            final(self).interval() == old(self).interval(),
            final(self).listening() == old(self).listening(),
            old(self).results().len() == 0 ==> value is None
                && final(self).results() == old(self).results(),
            old(self).results().len() > 0 ==> value == Some(old(self).results()[0])
                && final(self).results() == old(self).results().drop_first(),
            old(self).owed() == match value {
                Some(v) => final(self).owed().insert(v),
                None => final(self).owed(),
            },
    {
        let value = self.result.collect();
        proof {
            broadcast use vstd::seq_lib::group_to_multiset_ensures;

            assert(self.jobs() == old(self).jobs());
            assert(self.units() == old(self).units());
            if old(self).results().len() > 0 {
                let r = old(self).results();
                assert(r =~= seq![r[0]] + r.drop_first());
                vstd::seq_lib::lemma_multiset_commutative(seq![r[0]], r.drop_first());
                assert(seq![r[0]] =~= Seq::<T>::empty().push(r[0]));
                assert(seq![r[0]].to_multiset() =~= Multiset::<T>::empty().insert(r[0]));
                assert(old(self).owed() =~= self.owed().insert(r[0]));
            }
        }
        value
    }

    /// The caller stops listening, for good: from now on whatever a unit
    /// publishes is lost. Results already published can still be collected.
    pub fn hang_up(&mut self)
        ensures
            !final(self).listening(),
            final(self).jobs() == old(self).jobs(),
            final(self).units() == old(self).units(),
            final(self).results() == old(self).results(),
            final(self).interval() == old(self).interval(),
    {
        self.result.hang_up();
        proof {
            assert(self.jobs() == old(self).jobs());
            assert(self.units() == old(self).units());
        }
    }

    /// Whether the result channel is closed for good: every unit has left its
    /// loop, so nothing can be published any more, and nothing is left to
    /// collect.
    pub fn is_closed(&self) -> (b: bool)
        ensures
            b == (self.all_exited() && self.results().len() == 0),
    {
        if self.result.len() != 0 {
            return false;
        }
        let n = self.workers.len();
        let mut i: usize = 0;
        while i < n
            invariant
                i <= n,
                n == self.units().len(),
                forall|j: int| 0 <= j < i ==> #[trigger] self.units()[j] is Exited,
            decreases n - i,
        {
            if !self.workers[i].has_exited() {
                return false;
            }
            i += 1;
        }
        true
    }

    /// Advances unit `i` by one step of its loop and says what its driver
    /// does next.
    pub fn step(&mut self, i: usize) -> (a: Action)
        requires
            old(self).wf(),
        ensures
            final(self).wf(),
            old(self).steps_to(final(self), i as int),
            a == old(self).action_after(final(self), i as int),
    {
        if i >= self.workers.len() {
            return Action::Stop;
        }
        let w = self.workers.remove(i);
        assert(w == old(self).units()[i as int]);
        let (w2, a) = match w.action() {
            Action::Poll => w.poll(&mut self.queue, self.poll_interval),
            Action::Run => w.execute(),
            Action::Publish => w.publish(&mut self.result),
            _ => (w, Action::Stop),
        };
        self.workers.insert(i, w2);
        proof {
            assert(self.workers@ =~= old(self).units().update(i as int, w2));
            if w is Polling && old(self).jobs().len() == 0 {
                assert(self.workers@ =~= old(self).units());
            }
            if w is Exited {
                assert(self.workers@ =~= old(self).units());
            }
        }
        a
    }

    /// Shuts the pool down: enqueues exactly one sentinel for each worker
    /// unit, then drives the units until each has left its loop. What
    /// happens is a history of the pool in which nothing but those sentinels
    /// is submitted, and at its end every unit has exited. The history is
    /// short, three events for each message that waited and six for each
    /// unit at most, and in none of them a unit finds the queue empty, so no
    /// unit sleeps; with no unit there is nothing to send and nothing to wait
    /// for.
    pub fn shutdown(&mut self)
        requires
            old(self).wf(),
        ensures
            final(self).wf(),
            final(self).all_exited(),
            exists|trace: Seq<Self>, events: Seq<Event<F>>| #[trigger]
                old(self).winds_down(final(self), trace, events),
            final(self).units().len() == old(self).units().len(),
            final(self).interval() == old(self).interval(),
            final(self).listening() == old(self).listening(),
            old(self).units().len() == 0 ==> final(self).jobs() == old(self).jobs()
                && final(self).results() == old(self).results(),
            old(self).all_deterministic() && old(self).listening()
                ==> final(self).all_deterministic() && final(self).owed() == old(self).owed(),
    {
        let n = self.workers.len();
        let ghost mut trace: Seq<Self> = seq![*self];
        let ghost mut events: Seq<Event<F>> = Seq::empty();
        proof {
            assert(submitted(events) =~= Seq::new(0nat, |k: int| Message::<F>::Terminate));
        }
        let mut k: usize = 0;
        while k < n
            invariant
                self.wf(),
                k <= n,
                Self::is_history(trace, events),
                trace[0] == *old(self),
                trace.last() == *self,
                submitted(events) == Seq::new(k as nat, |k: int| Message::<F>::Terminate),
                events.len() == k,
                self.jobs().len() == old(self).jobs().len() + k,
                forall|j: int| 0 <= j < events.len() ==> !(#[trigger] trace[j]).finds_empty(events[j]),
                n == old(self).units().len(),
                self.units() == old(self).units(),
                self.results() == old(self).results(),
                self.interval() == old(self).interval(),
                self.listening() == old(self).listening(),
                sentinels(self.jobs()) >= k,
                n == 0 ==> self.jobs() == old(self).jobs(),
                old(self).all_deterministic() && old(self).listening() ==> self.all_deterministic()
                    && self.owed() == old(self).owed(),
            decreases n - k,
        {
            let ghost before = self.jobs();
            self.add(Message::Terminate);
            proof {
                lemma_pending_push::<T, F>(before, Message::Terminate);
                Self::lemma_history_extend(trace, events, *self, Event::Submit(Message::Terminate));
                let ghost longer = events.push(Event::Submit(Message::Terminate));
                assert forall|j: int| 0 <= j < longer.len() implies !(#[trigger] trace.push(
                    *self,
                )[j]).finds_empty(longer[j]) by {
                    if j < events.len() {
                        assert(trace.push(*self)[j] == trace[j]);
                    }
                }
                trace = trace.push(*self);
                events = longer;
                assert(submitted(events) =~= Seq::new(
                    (k + 1) as nat,
                    |k: int| Message::<F>::Terminate,
                ));
                assert(self.owed() =~= self.owed().add(Multiset::<T>::empty()));
                if old(self).all_deterministic() && old(self).listening() {
                    assert(self.owed() =~= old(self).owed());
                }
            }
            k += 1;
        }
        let mut i: usize = 0;
        while i < n
            invariant
                self.wf(),
                i <= n,
                Self::is_history(trace, events),
                trace[0] == *old(self),
                trace.last() == *self,
                submitted(events) == Seq::new(n as nat, |k: int| Message::<F>::Terminate),
                events.len() + 3 * self.jobs().len() <= 3 * old(self).jobs().len() + 4 * n + 2 * i,
                forall|j: int| 0 <= j < events.len() ==> !(#[trigger] trace[j]).finds_empty(events[j]),
                n == old(self).units().len(),
                self.units().len() == n,
                self.interval() == old(self).interval(),
                self.listening() == old(self).listening(),
                forall|j: int| 0 <= j < i ==> #[trigger] self.units()[j] is Exited,
                sentinels(self.jobs()) >= n - i,
                n == 0 ==> self.jobs() == old(self).jobs() && self.results() == old(self).results(),
                old(self).all_deterministic() && old(self).listening() ==> self.all_deterministic()
                    && self.owed() == old(self).owed(),
            decreases n - i,
        {
            while !self.has_exited(i)
                invariant
                    self.wf(),
                    i < n,
                    Self::is_history(trace, events),
                    trace[0] == *old(self),
                    trace.last() == *self,
                    submitted(events) == Seq::new(n as nat, |k: int| Message::<F>::Terminate),
                    events.len() + 3 * self.jobs().len() + (match self.units()[i as int] {
                        Worker::Executing(_) => 2nat,
                        Worker::Publishing(_) => 1nat,
                        _ => 0nat,
                    }) <= 3 * old(self).jobs().len() + 4 * n + 2 * i + 2,
                    forall|j: int|
                        0 <= j < events.len() ==> !(#[trigger] trace[j]).finds_empty(events[j]),
                    n == old(self).units().len(),
                    self.units().len() == n,
                    self.interval() == old(self).interval(),
                    self.listening() == old(self).listening(),
                    forall|j: int| 0 <= j < i ==> #[trigger] self.units()[j] is Exited,
                    sentinels(self.jobs()) + (if self.units()[i as int] is Exited {
                        1nat
                    } else {
                        0nat
                    }) >= n - i,
                    old(self).all_deterministic() && old(self).listening()
                        ==> self.all_deterministic() && self.owed() == old(self).owed(),
                decreases
                        3 * self.jobs().len() + (match self.units()[i as int] {
                            Worker::Executing(_) => 2nat,
                            Worker::Publishing(_) => 1nat,
                            _ => 0nat,
                        }),
            {
                let ghost pre = *self;
                self.step(i);
                proof {
                    if pre.jobs().len() > 0 {
                        lemma_pending_drop_first::<T, F>(pre.jobs());
                    }
                    if old(self).all_deterministic() && old(self).listening() {
                        pre.lemma_step_conserves(self, i as int);
                    }
                    Self::lemma_history_extend(trace, events, *self, Event::Step(i as int));
                    let ghost longer = events.push(Event::Step(i as int));
                    assert forall|j: int| 0 <= j < longer.len() implies !(#[trigger] trace.push(
                        *self,
                    )[j]).finds_empty(longer[j]) by {
                        if j < events.len() {
                            assert(trace.push(*self)[j] == trace[j]);
                        } else {
                            assert(trace.push(*self)[j] == pre);
                        }
                    }
                    trace = trace.push(*self);
                    events = longer;
                }
            }
            i += 1;
        }
        proof {
            assert(old(self).winds_down(self, trace, events));
        }
    }
}

} // verus!
