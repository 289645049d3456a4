//! A minimal task executor.
//!
//! A *suspendable computation* (`task::Suspendable`) is advanced step by step
//! and yields its value or says that it is not ready (`poll::Poll`). While it
//! is advanced it is offered a *wake handle* (`wake::WakeHandle`): a token
//! that anyone, on any thread, can invoke to have the task advanced again.
//!
//! Two executors drive such computations:
//! - `executor::Executor` is wake-driven: a task is advanced when it is
//!   submitted and whenever its handle was invoked, and not otherwise;
//! - `round_robin::RoundRobin` is a simplified mode that advances every task
//!   in turn, pass after pass, and offers a handle that wakes nobody.
//!
//! `timer::Delay` is the timer: the decisions of a computation that resolves
//! once a deadline has passed, with the timing thread left to the caller.
//!
//! Both executors keep a record of the steps they made (`history`), in which
//! their contracts are stated: each step is made on one waiting task, and no
//! task is advanced again after the step that yielded its value.

pub mod executor;
pub mod history;
pub mod poll;
pub mod queue;
pub mod round_robin;
pub mod slab;
pub mod task;
pub mod timer;
pub mod timer_laws;
pub mod wake;
