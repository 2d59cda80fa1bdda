//! Entity records, the repository handles around them, and the pure
//! rules the persistence layer applies. The storage calls themselves are
//! outside work; this module holds what they read and write.

use crate::crypto::{hex_decode, hex_val, is_hex_str};
use vstd::prelude::*;

verus! {

/// A known node: its identifier and its announced name.
#[derive(Debug)]
pub struct Node {
    pub id: String,
    pub name: String,
}

/// This node's own configuration record.
#[derive(Debug)]
pub struct NodeConfig {
    pub id: String,
    pub this_node_id: String,
    pub name: String,
}

/// The region this node belongs to.
#[derive(Debug)]
pub struct Region {
    pub network_id: String,
}

/// The stored signing key, as hex, when one was saved.
#[derive(Debug)]
pub struct PrivateKeyRow {
    pub private_key_hex: Option<String>,
}

/// A peer address reduced to the peer's identifier.
#[derive(Debug)]
pub struct SimplifiedNodeAddress {
    pub node_id: String,
}

impl Clone for SimplifiedNodeAddress {
    fn clone(&self) -> (r: Self)
        ensures
            r.node_id@ == self.node_id@,
    {
        SimplifiedNodeAddress { node_id: self.node_id.clone() }
    }
}

/// What a region is created from.
#[derive(Debug)]
pub struct CreateRegionData {
    pub name: String,
}

/// Repository of known nodes.
#[derive(Debug, PartialEq, Eq, Structural)]
pub struct NodesRepo {}

/// Why a nodes-repository call failed.
#[derive(Debug)]
pub enum NodesError {
    InternalServerError(String),
}

impl NodesRepo {
    /// A handle.
    pub fn init() -> (r: Self)
        ensures
            r == (NodesRepo {  }),
    {
        NodesRepo {  }
    }
}

/// Repository of known sites.
#[derive(Debug, PartialEq, Eq, Structural)]
pub struct SitesRepo {}

/// Why a sites-repository call failed.
#[derive(Debug)]
pub enum SitesError {
    InternalServerError(String),
}

impl SitesRepo {
    /// A handle.
    pub fn init() -> (r: Self)
        ensures
            r == (SitesRepo {  }),
    {
        SitesRepo {  }
    }
}

/// Repository of this node's own record.
#[derive(Debug, PartialEq, Eq, Structural)]
pub struct ThisNodeRepo {}

/// Why looking up this node's record failed.
#[derive(Debug)]
pub enum ThisNodeRepoError {
    InternalServerError(String),
    NotFound(String),
}

impl ThisNodeRepo {
    /// A handle.
    pub fn init() -> (r: Self)
        ensures
            r == (ThisNodeRepo {  }),
    {
        ThisNodeRepo {  }
    }
}

/// Repository of this node's network configuration and signing key.
#[derive(Debug, PartialEq, Eq, Structural)]
pub struct ThisPandaNodeRepo {}

/// Why a network-configuration call failed.
#[derive(Debug)]
pub enum ThisNodeError {
    InternalServerError(String),
}

impl ThisPandaNodeRepo {
    /// A handle.
    pub fn init() -> (r: Self)
        ensures
            r == (ThisPandaNodeRepo {  }),
    {
        ThisPandaNodeRepo {  }
    }

    /// Builds a 32-byte signing key from its stored hex form: accepted
    /// exactly when the string is well-formed hex of 32 bytes.
    pub fn build_private_key_from_hex(private_key_hex: &str) -> (r: Option<Vec<u8>>)
        ensures
            match r {
                Some(k) => is_hex_str(private_key_hex@) && k@ == hex_val(private_key_hex@)
                    && k@.len() == 32,
                None => !(is_hex_str(private_key_hex@) && hex_val(private_key_hex@).len()
                    == 32),
            },
    {
        let bytes = match hex_decode(private_key_hex) {
            Some(b) => b,
            None => {
                return None;
            },
        };
        if bytes.len() == 32 {
            Some(bytes)
        } else {
            None
        }
    }
}

/// Repository of this node's region.
#[derive(Debug, PartialEq, Eq, Structural)]
pub struct ThisRegionRepo {}

/// Why a region call failed.
#[derive(Debug)]
pub enum ThisRegionError {
    InternalServerError(String),
    CannotCreate(String),
    NotFound(String),
}

impl ThisRegionRepo {
    /// A handle.
    pub fn init() -> (r: Self)
        ensures
            r == (ThisRegionRepo {  }),
    {
        ThisRegionRepo {  }
    }

    /// A region may only be created while none exists.
    pub fn creation_allowed(existing: &Option<Region>) -> (r: bool)
        ensures
            r == (existing is None),
    {
        existing.is_none()
    }
}

/// The data a bootstrap request names for one peer.
#[derive(Debug)]
pub struct BootstrapNodePeer {
    pub node_id: String,
}

/// A bootstrap request: the network to join and, optionally, the peer to
/// join it through.
#[derive(Debug)]
pub struct BootstrapNodeData {
    pub network_name: String,
    pub bootstrap_peer: Option<BootstrapNodePeer>,
}

} // verus!
