//! Notification hub: a bounded fan-out of raw changed-content
//! notifications.
//!
//! Publishing never blocks and never fails — with no live subscriber the
//! message is simply dropped. Each [`Subscription`] is one-shot by
//! protocol: a consumer waits for exactly the next published message and
//! then subscribes again. A subscriber that falls behind the bounded
//! backlog loses the oldest unread messages, which is acceptable because
//! only the next change matters to this protocol's consumers.

use tokio::sync::broadcast::error::SendError;
use tokio::sync::broadcast::{channel, Receiver, Sender};
use vstd::prelude::*;

verus! {

/// How many pending messages the hub retains per subscriber.
pub const DEFAULT_CAPACITY: usize = 16;

#[verifier::external_type_specification]
#[verifier::external_body]
#[verifier::reject_recursive_types(T)]
pub struct ExSender<T>(Sender<T>);

#[verifier::external_type_specification]
#[verifier::external_body]
#[verifier::reject_recursive_types(T)]
pub struct ExReceiver<T>(Receiver<T>);

#[verifier::external_type_specification]
#[verifier::external_body]
#[verifier::reject_recursive_types(T)]
pub struct ExSendError<T>(SendError<T>);

/// Relies on tokio's `broadcast::channel`: a sender/receiver pair over a
/// backlog of `capacity` messages. The capacity bounds keep the call from
/// panicking; what flows through the channel depends on the tasks using
/// it, so nothing more can be promised here.
#[verifier::external_body]
fn broadcast_channel(capacity: usize) -> (Sender<Vec<u8>>, Receiver<Vec<u8>>)
    requires
        1 <= capacity <= usize::MAX / 2,
{
    channel(capacity)
}

/// Relies on tokio's `broadcast::Sender::send`: delivers to every current
/// subscriber, returning how many there were, or gives the message back
/// when there is none. Which case occurs depends on concurrent
/// subscribers, so nothing can be promised of the result.
#[verifier::external_body]
fn send_bytes(tx: &Sender<Vec<u8>>, msg: Vec<u8>) -> Result<usize, SendError<Vec<u8>>> {
    tx.send(msg)
}

/// Relies on tokio's `broadcast::Sender::subscribe`: a fresh receiver that
/// sees only messages sent after this call.
#[verifier::external_body]
fn subscribe_receiver(tx: &Sender<Vec<u8>>) -> Receiver<Vec<u8>> {
    tx.subscribe()
}

/// Relies on tokio's `broadcast::Receiver::try_recv`: the next pending
/// message, if one is queued right now.
#[verifier::external_body]
fn try_recv_bytes(rx: &mut Receiver<Vec<u8>>) -> Option<Vec<u8>> {
    rx.try_recv().ok()
}

/// The fan-out of changed-content notifications.
pub struct Hub {
    tx: Sender<Vec<u8>>,
}

/// One pending subscription: receives messages published after it was
/// created. The query boundary consumes one message per subscription.
pub struct Subscription {
    rx: Receiver<Vec<u8>>,
}

impl Hub {
    /// A hub with the default backlog capacity and no subscribers yet.
    pub fn new() -> Hub {
        let pair = broadcast_channel(DEFAULT_CAPACITY);
        Hub { tx: pair.0 }
    }

    /// Makes `msg` available to every subscriber registered before this
    /// call, and reports how many were reached. Zero subscribers is not
    /// an error: the message is simply not delivered to anyone, and a
    /// subscriber registered afterward will not receive it.
    pub fn publish(&self, msg: Vec<u8>) -> usize {
        match send_bytes(&self.tx, msg) {
            Ok(n) => n,
            Err(_) => 0,
        }
    }

    /// Registers a subscriber for the messages published from now on.
    pub fn subscribe(&self) -> Subscription {
        Subscription { rx: subscribe_receiver(&self.tx) }
    }
}

impl Subscription {
    /// The next pending message, if one has already arrived; `None` when
    /// nothing is queued. Waiting asynchronously instead is the caller's
    /// business, through [`Subscription::into_receiver`].
    pub fn try_next(&mut self) -> Option<Vec<u8>> {
        try_recv_bytes(&mut self.rx)
    }

    /// Hands the underlying receiver to the surrounding program, which
    /// may await the next message on it.
    pub fn into_receiver(self) -> Receiver<Vec<u8>> {
        self.rx
    }
}

} // verus!
