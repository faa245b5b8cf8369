use vstd::prelude::*;
use tokio::sync::mpsc::Sender;
use crate::messages::OutboundMsg;

verus! {

/// tokio's bounded channel sender, the outbox of a connection; opaque here.
#[verifier::external_type_specification]
#[verifier::external_body]
#[verifier::reject_recursive_types(T)]
pub struct ExSender<T>(tokio::sync::mpsc::Sender<T>);

/// Relies on tokio's `Sender::is_closed`: whether the receiving half is gone.
/// The answer depends on the other side of the channel, so nothing is promised.
pub assume_specification<T>[ tokio::sync::mpsc::Sender::<T>::is_closed ](
    s: &tokio::sync::mpsc::Sender<T>,
) -> bool;

/// Relies on tokio's `Sender` clone: a second handle to the same channel.
pub assume_specification<T>[ <tokio::sync::mpsc::Sender<T> as Clone>::clone ](
    s: &tokio::sync::mpsc::Sender<T>,
) -> tokio::sync::mpsc::Sender<T>;

/// Identity of one connection, unique for the connection's lifetime.
pub type PeerId = u128;

/// Identity and outbound mailbox of one connection.
pub struct PeerHandle {
    pub id: PeerId,
    pub tx: Sender<OutboundMsg>,
}

impl PeerHandle {
    /// A second handle on the same identity and the same outbox.
    pub fn share(&self) -> (r: PeerHandle)
        ensures
            r.id == self.id,
    {
        PeerHandle { id: self.id, tx: self.tx.clone() }
    }

    /// Whether the receiving side of this peer's outbox is gone.
    pub fn is_closed(&self) -> bool {
        self.tx.is_closed()
    }

    /// Hands `msg` to this peer's outbox without waiting; a full or closed
    /// outbox drops it. Returns whether it was queued.
    pub(crate) fn post(&self, msg: OutboundMsg) -> bool {
        try_post(&self.tx, msg)
    }
}

/// Relies on tokio's `Sender::try_send`: queues the message unless the channel
/// is full or closed. Which happens depends on the receiver, so nothing is
/// promised.
#[verifier::external_body]
fn try_post(tx: &Sender<OutboundMsg>, msg: OutboundMsg) -> bool {
    tx.try_send(msg).is_ok()
}

} // verus!
