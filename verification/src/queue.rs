//! The job queue: an unbounded FIFO of messages.

use vstd::prelude::*;
use std::collections::VecDeque;
use crate::message::Message;

verus! {

/// An unbounded first-in first-out queue of messages. Whoever holds the queue
/// exclusively may enqueue or dequeue, so each message is handed out once.
pub struct JobQueue<F> {
    items: VecDeque<Message<F>>,
}

impl<F> View for JobQueue<F> {
    type V = Seq<Message<F>>;

    closed spec fn view(&self) -> Seq<Message<F>> {
        self.items@
    }
}

impl<F> JobQueue<F> {
    /// An empty queue.
    pub fn new() -> (q: Self)
        ensures
            q@ == Seq::<Message<F>>::empty(),
    {
        JobQueue { items: VecDeque::new() }
    }

    /// The number of messages waiting.
    pub fn len(&self) -> (n: usize)
        ensures
            n == self@.len(),
    {
        self.items.len()
    }

    /// Whether no message is waiting.
    pub fn is_empty(&self) -> (b: bool)
        ensures
            b == (self@.len() == 0),
    {
        self.items.len() == 0
    }

    /// Appends a message behind all those already waiting.
    pub fn enqueue(&mut self, job: Message<F>)
        ensures
            final(self)@ == old(self)@.push(job),
    {
        self.items.push_back(job);
    }

    /// Removes the message that has waited longest, if there is one.
    pub fn dequeue(&mut self) -> (job: Option<Message<F>>)
        ensures
            old(self)@.len() == 0 ==> job is None && final(self)@ == old(self)@,
            old(self)@.len() > 0 ==> job == Some(old(self)@[0]) && final(self)@ == old(
                self,
            )@.drop_first(),
    {
        let job = self.items.pop_front();
        proof {
            if old(self)@.len() > 0 {
                assert(self.items@ =~= old(self)@.drop_first());
            }
        }
        job
    }
}

} // verus!
