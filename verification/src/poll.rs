//! The outcome of one advance step of a suspendable computation.

use vstd::prelude::*;

verus! {

/// What one advance step yields: the final value, or "not ready yet".
#[derive(Debug, PartialEq, Eq)]
pub enum Poll<V> {
    Done(V),
    NotReady,
}

impl<V> Poll<V> {
    /// Whether the step produced the final value.
    pub fn is_done(&self) -> (r: bool)
        ensures
            r == (*self is Done),
    {
        match self {
            Poll::Done(_) => true,
            Poll::NotReady => false,
        }
    }

    /// The final value, if the step produced one.
    pub fn into_value(self) -> (r: Option<V>)
        ensures
            r == match self {
                Poll::Done(v) => Some(v),
                Poll::NotReady => None::<V>,
            },
    {
        match self {
            Poll::Done(v) => Some(v),
            Poll::NotReady => None,
        }
    }
}

} // verus!
