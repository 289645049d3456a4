//! The ready queue: an unbounded multi-producer channel of task numbers.
//!
//! The channel is shared with other threads, so nothing is claimed here about
//! what it holds at any moment; the declarations below only make its types and
//! the calls on them known.

use vstd::prelude::*;

verus! {

/// The producer side of `crossbeam::channel`; opaque.
#[verifier::external_type_specification]
#[verifier::external_body]
#[verifier::reject_recursive_types(T)]
pub struct ExSender<T>(crossbeam::channel::Sender<T>);

/// The consumer side of `crossbeam::channel`; opaque.
#[verifier::external_type_specification]
#[verifier::external_body]
#[verifier::reject_recursive_types(T)]
pub struct ExReceiver<T>(crossbeam::channel::Receiver<T>);

/// The error of `Sender::send`, which hands the message back; opaque.
#[verifier::external_type_specification]
#[verifier::external_body]
#[verifier::reject_recursive_types(T)]
pub struct ExSendError<T>(crossbeam::channel::SendError<T>);

/// The error of `Receiver::try_recv`: the channel is empty, or empty and
/// closed; opaque.
#[verifier::external_type_specification]
#[verifier::external_body]
pub struct ExTryRecvError(crossbeam::channel::TryRecvError);

/// `crossbeam::channel::unbounded` makes a fresh channel. Nothing is claimed
/// of the two ends.
pub assume_specification<T>[ crossbeam::channel::unbounded::<T> ]() -> (ends: (
    crossbeam::channel::Sender<T>,
    crossbeam::channel::Receiver<T>,
));

/// `Sender::send` pushes a message. On an unbounded channel, the only kind
/// that this library makes, it never waits. Whether it succeeds depends on
/// the receivers still alive, so nothing is claimed of the result.
pub assume_specification<T>[ crossbeam::channel::Sender::<T>::send ](
    sender: &crossbeam::channel::Sender<T>,
    msg: T,
) -> (sent: Result<(), crossbeam::channel::SendError<T>>);

/// `Sender::clone` makes another producer for the same channel: a value that
/// holds the same reference to the channel, and so equals the one cloned.
pub assume_specification<T>[ <crossbeam::channel::Sender<T> as Clone>::clone ](
    sender: &crossbeam::channel::Sender<T>,
) -> (other: crossbeam::channel::Sender<T>)
    ensures
        other == *sender,
;

/// `Sender::same_channel` says whether two producers belong to the same
/// channel. It compares their references to the channel, which is all that a
/// producer holds: it is true exactly of equal producers.
pub assume_specification<T>[ crossbeam::channel::Sender::<T>::same_channel ](
    sender: &crossbeam::channel::Sender<T>,
    other: &crossbeam::channel::Sender<T>,
) -> (same: bool)
    ensures
        same == (*sender == *other),
;

/// `Receiver::try_recv` takes the message at the front of the channel if
/// there is one, and never waits. What the channel holds depends on the other
/// threads, so nothing is claimed of the result.
pub assume_specification<T>[ crossbeam::channel::Receiver::<T>::try_recv ](
    receiver: &crossbeam::channel::Receiver<T>,
) -> (got: Result<T, crossbeam::channel::TryRecvError>);

/// Pushes `id` on the channel and says whether the channel took it.
pub(crate) fn push_id(sender: &crossbeam::channel::Sender<usize>, id: usize) -> (taken: bool) {
    let sent = sender.send(id);
    accepted(&sent)
}

/// Whether the channel took the message, by what `send` gave back.
pub fn accepted(sent: &Result<(), crossbeam::channel::SendError<usize>>) -> (taken: bool)
    ensures
        taken == (*sent is Ok),
{
    match sent {
        Ok(_) => true,
        Err(_) => false,
    }
}

} // verus!
