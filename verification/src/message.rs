//! The messages carried by the job queue.

use vstd::prelude::*;

verus! {

/// One entry of the job queue: a computation to run, or the sentinel that
/// tells the worker unit receiving it to leave its loop.
pub enum Message<F> {
    /// A zero-argument computation, called exactly once by the worker unit
    /// that dequeues it.
    Work(F),
    /// The termination sentinel.
    Terminate,
}

/// The value a computation yields: some value its postcondition admits.
pub open spec fn output_of<T, F: FnOnce() -> T>(f: F) -> T {
    choose|v: T| f.ensures((), v)
}

/// A computation is deterministic when its postcondition admits one value.
pub open spec fn deterministic<T, F: FnOnce() -> T>(f: F) -> bool {
    forall|v: T| #[trigger] f.ensures((), v) ==> v == output_of::<T, F>(f)
}

impl<F> Message<F> {
    /// A message can be handed to a worker unit when it is the sentinel or a
    /// computation that may be called.
    pub open spec fn runnable<T>(self) -> bool where F: FnOnce() -> T {
        self matches Message::Work(f) ==> f.requires(())
    }

    /// Whether this message is a computation rather than the sentinel.
    pub fn is_work(&self) -> (b: bool)
        ensures
            b == (self is Work),
    {
        match self {
            Message::Work(_) => true,
            Message::Terminate => false,
        }
    }
}

} // verus!
