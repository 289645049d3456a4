//! The interface of a suspendable computation.

use vstd::prelude::*;
use crate::poll::Poll;
use crate::wake::Context;

verus! {

/// A state machine that is advanced step by step until it yields its value.
///
/// An implementation that returns `Poll::NotReady` must have arranged for the
/// context's wake handle to be invoked once advancing again can make
/// progress: a wake-driven executor advances the computation again only then.
pub trait Suspendable {
    /// The final value.
    type Output;

    /// One step. `ctx` offers the wake handle of the task being advanced.
    fn advance(&mut self, ctx: &Context) -> Poll<Self::Output>;
}

} // verus!
