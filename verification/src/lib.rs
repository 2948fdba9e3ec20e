//! A fixed-size worker pool: worker units pull jobs from a shared FIFO queue,
//! run them, and publish what they computed on a result channel.
//!
//! Every piece is an ordinary value that is advanced one step at a time, so a
//! driver (one thread per worker unit, or a single loop) decides when each
//! step happens while the rules of the pool are fixed and proved here.

pub mod message;
pub mod queue;
pub mod channel;
pub mod worker;
pub mod accounting;
pub mod pool;
pub mod conservation;

pub use message::Message;
pub use queue::JobQueue;
pub use channel::ResultChannel;
pub use worker::{Action, Worker};
pub use pool::ThreadPool;
