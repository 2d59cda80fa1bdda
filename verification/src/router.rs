//! Fan-out of validated operations and network-status events towards the
//! application: a single-slot mailbox whose subscriber can be swapped
//! atomically. Events published while no subscriber is attached are
//! dropped; delivery is at-most-once, durability lives in the log store.

use crate::operations::Operation;
use vstd::prelude::*;

verus! {

/// A network-status event as the transport reports it.
#[derive(Debug, Clone)]
pub enum NetworkStatus {
    /// The local node joined the gossip overlay for a topic.
    GossipJoined { topic_id: Vec<u8> },
    /// The local node left the gossip overlay for a topic.
    GossipLeft { topic_id: Vec<u8> },
    /// A peer was discovered.
    PeerDiscovered { peer: Vec<u8> },
    /// A sync session with a peer finished.
    SyncDone { topic_id: Vec<u8>, peer: Vec<u8> },
    /// A sync session with a peer failed.
    SyncFailed { topic_id: Vec<u8>, peer: Vec<u8> },
}

/// What the router fans out: validated operations, network status, and
/// detected forks.
#[derive(Debug)]
pub enum RouterEvent {
    /// A validated operation was stored.
    Operation(Operation),
    /// The network transport reported a status change.
    Status(NetworkStatus),
    /// Conflicting history was detected for an author's log; the log is
    /// left untouched at the fork point.
    ForkDetected { author: Vec<u8>, log_id: Vec<u8>, seq_num: u64 },
}

/// The event router: at most one attached subscriber mailbox, and the
/// ghost record of everything handed to a mailbox since creation.
pub struct EventRouter<T> {
    active: Option<Vec<T>>,
    history: Ghost<Seq<T>>,
}

impl<T> EventRouter<T> {
    /// Whether a subscriber mailbox is attached.
    pub closed spec fn attached(self) -> bool {
        self.active is Some
    }

    /// The events enqueued for the subscriber and not yet taken.
    pub closed spec fn pending(self) -> Seq<T> {
        match self.active {
            Some(v) => v@,
            None => Seq::empty(),
        }
    }

    /// Every event ever handed to a subscriber mailbox, in publish order.
    pub closed spec fn delivered(self) -> Seq<T> {
        self.history@
    }

    /// A router with no subscriber.
    pub fn new() -> (r: Self)
        ensures
            !r.attached(),
            r.pending() == Seq::<T>::empty(),
            r.delivered() == Seq::<T>::empty(),
    {
        EventRouter { active: None, history: Ghost(Seq::empty()) }
    }

    /// Attaches a fresh subscriber mailbox. Events pending for a previous
    /// subscriber are discarded.
    pub fn subscribe(&mut self)
        ensures
            final(self).attached(),
            final(self).pending() == Seq::<T>::empty(),
            final(self).delivered() == old(self).delivered(),
    {
        self.active = Some(Vec::new());
    }

    /// Swaps in a fresh subscriber mailbox and hands back whatever the
    /// old one had not yet taken, so nothing published between swaps is
    /// lost.
    pub fn replace_subscriber(&mut self) -> (r: Vec<T>)
        ensures
            final(self).attached(),
            final(self).pending() == Seq::<T>::empty(),
            final(self).delivered() == old(self).delivered(),
            r@ == old(self).pending(),
    {
        let old_box = self.active.take();
        self.active = Some(Vec::new());
        match old_box {
            Some(v) => v,
            None => Vec::new(),
        }
    }

    /// Publishes an event: enqueued for the subscriber when one is
    /// attached, dropped otherwise. Returns whether it was enqueued.
    pub fn publish(&mut self, event: T) -> (r: bool)
        ensures
            r == old(self).attached(),
            final(self).attached() == old(self).attached(),
            old(self).attached() ==> final(self).pending() == old(self).pending().push(event)
                && final(self).delivered() == old(self).delivered().push(event),
            !old(self).attached() ==> *final(self) == *old(self),
    {
        match &mut self.active {
            Some(v) => {
                v.push(event);
                proof {
                    self.history@ = self.history@.push(v@.last());
                }
                true
            },
            None => false,
        }
    }

    /// Takes every pending event, in publish order.
    pub fn take_events(&mut self) -> (r: Vec<T>)
        ensures
            r@ == old(self).pending(),
            final(self).attached() == old(self).attached(),
            final(self).pending() == Seq::<T>::empty(),
            final(self).delivered() == old(self).delivered(),
    {
        match &mut self.active {
            Some(v) => {
                let mut out = Vec::new();
                std::mem::swap(v, &mut out);
                out
            },
            None => Vec::new(),
        }
    }
}

} // verus!
