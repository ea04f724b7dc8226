//! The queues between the engine and the services around it.

use crossbeam::channel::{Receiver, Sender, TryRecvError};
use vstd::prelude::*;

verus! {

/// The sending half of a `crossbeam` channel, carried as it is.
#[verifier::external_type_specification]
#[verifier::external_body]
#[verifier::reject_recursive_types(T)]
pub struct ExSender<T>(Sender<T>);

/// The receiving half of a `crossbeam` channel, carried as it is.
#[verifier::external_type_specification]
#[verifier::external_body]
#[verifier::reject_recursive_types(T)]
pub struct ExReceiver<T>(Receiver<T>);

/// Hands `message` to `crossbeam::channel::Sender::send` and says whether
/// the channel took it. The channel refuses a message once its receivers
/// are gone; nothing is claimed of when that is. On a bounded channel the
/// call waits while the channel is full.
#[verifier::external_body]
pub(crate) fn send<T>(sender: &Sender<T>, message: T) -> (sent: bool) {
    sender.send(message).is_ok()
}

/// What a queue gives when it is asked without waiting.
#[derive(Debug)]
pub enum Received<T> {
    /// The next message.
    Message(T),
    /// Nothing waits, but a sender is still there.
    Empty,
    /// Nothing waits and every sender is gone: nothing will come any more.
    Closed,
}

/// Asks `crossbeam::channel::Receiver::try_recv` for the next message
/// without waiting, and tells a message from an empty and from a
/// disconnected channel. Nothing is claimed of which of the three comes,
/// nor of which message.
#[verifier::external_body]
pub(crate) fn try_receive<T>(receiver: &Receiver<T>) -> (received: Received<T>) {
    match receiver.try_recv() {
        Ok(message) => Received::Message(message),
        Err(TryRecvError::Empty) => Received::Empty,
        Err(TryRecvError::Disconnected) => Received::Closed,
    }
}

} // verus!
