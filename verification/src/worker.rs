//! The worker unit: a state machine that polls the job queue, runs what it
//! dequeued, and publishes the value.

use vstd::prelude::*;
use crate::message::Message;
use crate::queue::JobQueue;
use crate::channel::ResultChannel;

verus! {

/// What the driver of a worker unit has to do next.
#[derive(Clone, Copy, Debug, PartialEq, Eq, Structural)]
pub enum Action {
    /// Take the job queue exclusively and call `poll`.
    Poll,
    /// Call `execute`, holding neither the queue nor the channel.
    Run,
    /// Call `publish` on the result channel.
    Publish,
    /// The queue was empty: wait this many milliseconds, then poll again.
    Sleep(u64),
    /// The unit has left its loop: stop driving it.
    Stop,
}

/// A worker unit, in one of the four states of its loop. While it executes it
/// owns the computation it dequeued; while it publishes it owns the value.
pub enum Worker<T, F> {
    /// About to ask the job queue for a message.
    Polling,
    /// Holding a computation that was dequeued and not called yet.
    Executing(F),
    /// Holding a computed value that was not published yet.
    Publishing(T),
    /// Out of the loop for good, after it received the sentinel.
    Exited,
}

impl<T, F: FnOnce() -> T> Worker<T, F> {
    /// A unit never holds a computation that may not be called.
    pub open spec fn wf(self) -> bool {
        self matches Worker::Executing(f) ==> f.requires(())
    }

    /// The state a polling unit enters on what the queue handed out.
    pub open spec fn after_poll(job: Option<Message<F>>) -> Worker<T, F> {
        match job {
            None => Worker::Polling,
            Some(Message::Work(f)) => Worker::Executing(f),
            Some(Message::Terminate) => Worker::Exited,
        }
    }

    /// What the driver does with a unit in this state; `interval` is the wait
    /// asked for when `idle` says that the last poll found the queue empty.
    pub open spec fn next_action(self, idle: bool, interval: u64) -> Action {
        match self {
            Worker::Polling => if idle { Action::Sleep(interval) } else { Action::Poll },
            Worker::Executing(_) => Action::Run,
            Worker::Publishing(_) => Action::Publish,
            Worker::Exited => Action::Stop,
        }
    }

    /// A fresh unit, about to poll.
    pub fn new() -> (w: Self)
        ensures
            w == Worker::<T, F>::Polling,
    {
        Worker::Polling
    }

    /// Whether the unit has left its loop.
    pub fn has_exited(&self) -> (b: bool)
        ensures
            b == (self is Exited),
    {
        match self {
            Worker::Exited => true,
            _ => false,
        }
    }

    /// What the driver does next with a unit that did not just find the queue
    /// empty.
    pub fn action(&self) -> (a: Action)
        ensures
            a == self.next_action(false, 0),
    {
        match self {
            Worker::Polling => Action::Poll,
            Worker::Executing(_) => Action::Run,
            Worker::Publishing(_) => Action::Publish,
            Worker::Exited => Action::Stop,
        }
    }

    /// The polling step. A polling unit dequeues once: a computation makes it
    /// execute, the sentinel makes it exit at once, and an empty queue leaves
    /// it polling with the request to sleep for `interval` milliseconds. A
    /// unit in any other state leaves the queue alone.
    pub fn poll(self, queue: &mut JobQueue<F>, interval: u64) -> (r: (Self, Action))
        requires
            self is Polling && old(queue)@.len() > 0 ==> old(queue)@[0].runnable(),
        ensures
            self.wf() ==> r.0.wf(),
            self is Polling && old(queue)@.len() > 0 ==> final(queue)@ == old(queue)@.drop_first()
                && r.0 == Self::after_poll(Some(old(queue)@[0])),
            !(self is Polling && old(queue)@.len() > 0) ==> final(queue)@ == old(queue)@ && r.0
                == self,
            r.1 == r.0.next_action(self is Polling && old(queue)@.len() == 0, interval),
    {
        match self {
            Worker::Polling => match queue.dequeue() {
                None => (Worker::Polling, Action::Sleep(interval)),
                Some(Message::Work(f)) => (Worker::Executing(f), Action::Run),
                Some(Message::Terminate) => (Worker::Exited, Action::Stop),
            },
            Worker::Executing(f) => (Worker::Executing(f), Action::Run),
            Worker::Publishing(v) => (Worker::Publishing(v), Action::Publish),
            Worker::Exited => (Worker::Exited, Action::Stop),
        }
    }

    /// The executing step. An executing unit calls its computation once and
    /// goes on to publish the value; a unit in any other state is unchanged.
    pub fn execute(self) -> (r: (Self, Action))
        requires
            self.wf(),
        ensures
            r.0.wf(),
            self matches Worker::Executing(f) ==> r.0 matches Worker::Publishing(v) && f.ensures(
                (),
                v,
            ),
            !(self is Executing) ==> r.0 == self,
            r.1 == r.0.next_action(false, 0),
    {
        match self {
            Worker::Polling => (Worker::Polling, Action::Poll),
            Worker::Executing(f) => (Worker::Publishing(f()), Action::Publish),
            Worker::Publishing(v) => (Worker::Publishing(v), Action::Publish),
            Worker::Exited => (Worker::Exited, Action::Stop),
        }
    }

    /// The publishing step. A publishing unit hands its value to the result
    /// channel and polls again, whether or not a consumer still listens; a
    /// unit in any other state leaves the channel alone.
    pub fn publish(self, results: &mut ResultChannel<T>) -> (r: (Self, Action))
        ensures
            self.wf() ==> r.0.wf(),
            final(results).listening() == old(results).listening(),
            self matches Worker::Publishing(v) ==> r.0 == Worker::<T, F>::Polling
                && final(results)@ == if old(results).listening() {
                old(results)@.push(v)
            } else {
                old(results)@
            },
            !(self is Publishing) ==> final(results)@ == old(results)@ && r.0 == self,
            r.1 == r.0.next_action(false, 0),
    {
        match self {
            Worker::Polling => (Worker::Polling, Action::Poll),
            Worker::Executing(f) => (Worker::Executing(f), Action::Run),
            Worker::Publishing(v) => {
                let _delivered = results.publish(v);
                (Worker::Polling, Action::Poll)
            },
            Worker::Exited => (Worker::Exited, Action::Stop),
        }
    }
}

} // verus!
