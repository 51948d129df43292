//! The work channel: an unbounded multi-producer, multi-consumer queue from
//! `crossbeam_channel`.
//!
//! A channel is shared between threads, so nothing that is said here about a
//! call may depend on what the queue holds: another thread may take a message
//! or drop its end at any moment. The declarations below therefore make the
//! types and calls available to verified code and promise nothing about the
//! results. Code that sends or receives has to be correct for every outcome.

use crossbeam_channel::{Receiver, RecvError, SendError, Sender};
use vstd::prelude::*;

verus! {

/// `crossbeam_channel::Sender`: the sending end of a channel. Opaque to the
/// verifier; dropping the last sender of a channel disconnects it.
#[verifier::external_type_specification]
#[verifier::external_body]
#[verifier::reject_recursive_types(T)]
pub struct ExSender<T>(Sender<T>);

/// `crossbeam_channel::Receiver`: the receiving end of a channel. Opaque to
/// the verifier.
#[verifier::external_type_specification]
#[verifier::external_body]
#[verifier::reject_recursive_types(T)]
pub struct ExReceiver<T>(Receiver<T>);

/// `crossbeam_channel::SendError`: returned by `Sender::send` when every
/// receiver is gone; it carries the rejected message.
#[verifier::external_type_specification]
#[verifier::external_body]
#[verifier::reject_recursive_types(T)]
pub struct ExSendError<T>(SendError<T>);

/// `crossbeam_channel::RecvError`: returned by `Receiver::recv` when the
/// channel is empty and every sender is gone.
#[verifier::external_type_specification]
#[verifier::external_body]
pub struct ExRecvError(RecvError);

/// `crossbeam_channel::unbounded`: creates a channel of unbounded capacity and
/// returns its two ends. Nothing is claimed about them.
pub assume_specification<T>[ crossbeam_channel::unbounded::<T> ]() -> (ends: (
    Sender<T>,
    Receiver<T>,
));

/// `Sender::send`: on an unbounded channel it enqueues the message without
/// blocking, or fails when all receivers have been dropped. Which of the two
/// happens depends on other threads, so nothing is claimed about the outcome.
pub assume_specification<T>[ Sender::<T>::send ](sender: &Sender<T>, msg: T) -> (outcome: Result<
    (),
    SendError<T>,
>);

/// `Receiver::recv`: blocks until a message arrives or the channel is empty
/// and disconnected. Which message arrives depends on other threads, so
/// nothing is claimed about the outcome.
pub assume_specification<T>[ Receiver::<T>::recv ](receiver: &Receiver<T>) -> (outcome: Result<
    T,
    RecvError,
>);

/// `Sender::clone`: another handle to the same channel. Nothing is claimed
/// about it.
pub assume_specification<T>[ <Sender<T> as Clone>::clone ](sender: &Sender<T>) -> (copy: Sender<T>);

} // verus!
