//! The result channel: an unbounded FIFO of computed values.

use vstd::prelude::*;
use std::collections::VecDeque;

verus! {

/// An unbounded first-in first-out channel of results. Worker units publish
/// into it and the owner of the pool collects from it. Once the consumer has
/// hung up, whatever is published is lost without a word: that is the
/// channel's design, not a fault.
pub struct ResultChannel<T> {
    items: VecDeque<T>,
    listening: bool,
}

impl<T> View for ResultChannel<T> {
    type V = Seq<T>;

    closed spec fn view(&self) -> Seq<T> {
        self.items@
    }
}

impl<T> ResultChannel<T> {
    /// Whether the consumer still listens.
    pub closed spec fn listening(&self) -> bool {
        self.listening
    }

    /// An empty channel whose consumer listens.
    pub fn new() -> (c: Self)
        ensures
            c@ == Seq::<T>::empty(),
            c.listening(),
    {
        ResultChannel { items: VecDeque::new(), listening: true }
    }

    /// Whether the consumer still listens.
    pub fn is_listening(&self) -> (b: bool)
        ensures
            b == self.listening(),
    {
        self.listening
    }

    /// The consumer hangs up, for good. Results already published stay.
    pub fn hang_up(&mut self)
        ensures
            !final(self).listening(),
            final(self)@ == old(self)@,
    {
        self.listening = false;
    }

    /// The number of results not collected yet.
    pub fn len(&self) -> (n: usize)
        ensures
            n == self@.len(),
    {
        self.items.len()
    }

    /// Appends a result behind all those not collected yet and says that it
    /// was delivered; after the consumer hung up the value is dropped instead
    /// and the channel stays as it was.
    pub fn publish(&mut self, value: T) -> (delivered: bool)
        ensures
            delivered == old(self).listening(),
            final(self).listening() == old(self).listening(),
            final(self)@ == if old(self).listening() {
                old(self)@.push(value)
            } else {
                old(self)@
            },
    {
        if self.listening {
            self.items.push_back(value);
            true
        } else {
            false
        }
    }

    /// Takes the oldest result that was not collected yet, if there is one.
    pub fn collect(&mut self) -> (value: Option<T>)
        ensures
            final(self).listening() == old(self).listening(),
            old(self)@.len() == 0 ==> value is None && final(self)@ == old(self)@,
            old(self)@.len() > 0 ==> value == Some(old(self)@[0]) && final(self)@ == old(
                self,
            )@.drop_first(),
    {
        let value = self.items.pop_front();
        proof {
            if old(self)@.len() > 0 {
                assert(self.items@ =~= old(self)@.drop_first());
            }
        }
        value
    }
}

} // verus!
