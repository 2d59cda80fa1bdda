//! Application-level events carried over the replicated logs: node and
//! site announcements, with the rule that turns an inbound announcement
//! into the record to store.

use vstd::prelude::*;

verus! {

/// A node announced itself under a name.
#[derive(Debug)]
pub struct NodeAnnounced {
    pub name: String,
}

/// The payloads a node-level event can carry.
#[derive(Debug)]
pub enum LoResEventPayload {
    NodeAnnounced(NodeAnnounced),
}

/// Who authored a node-level event.
#[derive(Debug)]
pub struct LoResEventHeader {
    pub author_node_id: String,
}

/// A node-level event: its author and its payload.
#[derive(Debug)]
pub struct LoResEvent {
    pub header: LoResEventHeader,
    pub payload: LoResEventPayload,
}

impl LoResEvent {
    /// Pairs an author header with a payload.
    pub fn new(header: LoResEventHeader, payload: LoResEventPayload) -> (r: Self)
        ensures
            r.header == header,
            r.payload == payload,
    {
        LoResEvent { header, payload }
    }
}

/// A site announced itself under a name.
#[derive(Debug)]
pub struct SiteAnnounced {
    pub name: String,
}

/// The payloads a site-level event can carry.
#[derive(Debug)]
pub enum SiteEventPayload {
    SiteAnnounced(SiteAnnounced),
}

/// Who authored a site-level event.
#[derive(Debug)]
pub struct SiteEventHeader {
    pub author_node_id: String,
}

/// A site-level event: its author and its payload.
#[derive(Debug)]
pub struct SiteEvent {
    pub header: SiteEventHeader,
    pub payload: SiteEventPayload,
}

impl SiteEvent {
    /// Pairs an author header with a payload.
    pub fn new(header: SiteEventHeader, payload: SiteEventPayload) -> (r: Self)
        ensures
            r.header == header,
            r.payload == payload,
    {
        SiteEvent { header, payload }
    }
}

/// A payload in its transport envelope.
#[derive(Debug)]
pub struct Message<Payload> {
    pub payload: Payload,
}

/// Turns node-level events into the records to persist.
#[derive(Debug, PartialEq, Eq, Structural)]
pub struct EventHandler {}

impl EventHandler {
    /// A handler.
    pub fn new() -> (r: Self)
        ensures
            r == (EventHandler {  }),
    {
        EventHandler {  }
    }

    /// The record an announcement asks to be stored: the author's
    /// identifier and the announced name.
    pub fn node_record_for(&self, event: LoResEvent) -> (r: crate::repos::Node)
        ensures
            r.id == event.header.author_node_id,
            match event.payload {
                LoResEventPayload::NodeAnnounced(a) => r.name == a.name,
            },
    {
        match event.payload {
            LoResEventPayload::NodeAnnounced(announced) => crate::repos::Node {
                id: event.header.author_node_id,
                name: announced.name,
            },
        }
    }
}

} // verus!
