//! The node container: collects network parameters and enforces the
//! legal lifecycle transitions. The network launch itself is outside
//! work; `start` hands the caller everything the launch needs.

use crate::crypto::{check_public_key, hex_decode, hex_val, is_hex_str, valid_pk};
use crate::header::{clone_bytes, clone_opt_bytes};
use vstd::prelude::*;

verus! {

/// Parameters collected before the node starts.
#[derive(Debug)]
pub struct NodeParams {
    pub private_key: Option<Vec<u8>>,
    pub network_name: Option<String>,
    pub bootstrap_node_id: Option<Vec<u8>>,
}

impl Default for NodeParams {
    fn default() -> (r: Self)
        ensures
            r.private_key is None,
            r.network_name is None,
            r.bootstrap_node_id is None,
    {
        NodeParams { private_key: None, network_name: None, bootstrap_node_id: None }
    }
}

/// The container's lifecycle phase.
#[derive(Debug, Clone, Copy, PartialEq, Eq, Structural)]
pub enum ContainerPhase {
    /// Key or network name still missing.
    Unconfigured,
    /// Everything needed to start is present.
    Configured,
    /// The node is running.
    Running,
}

/// What the caller needs to launch the network node.
#[derive(Debug)]
pub struct StartPlan {
    pub private_key: Vec<u8>,
    pub network_name: String,
    pub bootstrap_node_id: Option<Vec<u8>>,
}

/// Holds the node parameters and the current phase, and refuses illegal
/// transitions.
#[derive(Debug)]
pub struct P2PandaContainer {
    params: NodeParams,
    phase: ContainerPhase,
}

impl P2PandaContainer {
    /// Whether both the private key and the network name are present.
    pub open spec fn configured(self) -> bool {
        self.params().private_key is Some && self.params().network_name is Some
    }

    /// The collected parameters.
    pub closed spec fn params(self) -> NodeParams {
        self.params
    }

    /// The current phase.
    pub closed spec fn spec_phase(self) -> ContainerPhase {
        self.phase
    }

    /// A running container is configured.
    pub open spec fn wf(self) -> bool {
        self.spec_phase() == ContainerPhase::Running ==> self.configured()
    }

    /// A fresh, unconfigured container.
    pub fn new() -> (r: Self)
        ensures
            r.wf(),
            r.spec_phase() == ContainerPhase::Unconfigured,
            r.params().private_key is None,
            r.params().network_name is None,
            r.params().bootstrap_node_id is None,
    {
        P2PandaContainer { params: NodeParams::default(), phase: ContainerPhase::Unconfigured }
    }

    /// The current phase.
    pub fn phase(&self) -> (r: ContainerPhase)
        ensures
            r == self.spec_phase(),
    {
        self.phase
    }

    /// A copy of the collected parameters.
    pub fn get_params(&self) -> (r: NodeParams)
        ensures
            crate::bytes::opt_view(r.private_key) == crate::bytes::opt_view(
                self.params().private_key,
            ),
            (r.network_name is Some) == (self.params().network_name is Some),
            r.network_name matches Some(n) ==> self.params().network_name matches Some(m) && n@
                == m@,
            crate::bytes::opt_view(r.bootstrap_node_id) == crate::bytes::opt_view(
                self.params().bootstrap_node_id,
            ),
    {
        NodeParams {
            private_key: clone_opt_bytes(&self.params.private_key),
            network_name: match &self.params.network_name {
                Some(n) => Some(n.clone()),
                None => None,
            },
            bootstrap_node_id: clone_opt_bytes(&self.params.bootstrap_node_id),
        }
    }

    /// Sets the network name.
    pub fn set_network_name(&mut self, network_name: String)
        requires
            old(self).wf(),
        ensures
            final(self).wf(),
            final(self).params().network_name == Some(network_name),
            final(self).params().private_key == old(self).params().private_key,
            final(self).params().bootstrap_node_id == old(self).params().bootstrap_node_id,
            final(self).spec_phase() == old(self).spec_phase(),
    {
        self.params.network_name = Some(network_name);
    }

    /// Sets the signing key.
    pub fn set_private_key(&mut self, private_key: Vec<u8>)
        requires
            old(self).wf(),
        ensures
            final(self).wf(),
            final(self).params().private_key == Some(private_key),
            final(self).params().network_name == old(self).params().network_name,
            final(self).params().bootstrap_node_id == old(self).params().bootstrap_node_id,
            final(self).spec_phase() == old(self).spec_phase(),
    {
        self.params.private_key = Some(private_key);
    }

    /// Sets or clears the bootstrap peer.
    pub fn set_bootstrap_node_id(&mut self, bootstrap_node_id: Option<Vec<u8>>)
        requires
            old(self).wf(),
        ensures
            final(self).wf(),
            final(self).params().bootstrap_node_id == bootstrap_node_id,
            final(self).params().private_key == old(self).params().private_key,
            final(self).params().network_name == old(self).params().network_name,
            final(self).spec_phase() == old(self).spec_phase(),
    {
        self.params.bootstrap_node_id = bootstrap_node_id;
    }

    /// Decides the start transition: when the container is configured and
    /// not yet running, it moves to running and hands back the launch
    /// plan; otherwise nothing changes and nothing is to be launched.
    pub fn start(&mut self) -> (r: Option<StartPlan>)
        requires
            old(self).wf(),
        ensures
            final(self).wf(),
            final(self).params() == old(self).params(),
            r is Some <==> old(self).configured() && old(self).spec_phase()
                != ContainerPhase::Running,
            r is Some ==> final(self).spec_phase() == ContainerPhase::Running,
            r is None ==> *final(self) == *old(self),
            match r {
                Some(plan) => {
                    &&& old(self).params().private_key matches Some(k) && plan.private_key@
                        == k@
                    &&& old(self).params().network_name matches Some(n) && plan.network_name@
                        == n@
                    &&& crate::bytes::opt_view(plan.bootstrap_node_id) == crate::bytes::opt_view(
                        old(self).params().bootstrap_node_id,
                    )
                },
                None => true,
            },
    {
        match self.phase {
            ContainerPhase::Running => None,
            _ => {
                match (&self.params.private_key, &self.params.network_name) {
                    (Some(key), Some(name)) => {
                        let plan = StartPlan {
                            private_key: clone_bytes(key),
                            network_name: name.clone(),
                            bootstrap_node_id: clone_opt_bytes(&self.params.bootstrap_node_id),
                        };
                        self.phase = ContainerPhase::Running;
                        Some(plan)
                    },
                    _ => None,
                }
            },
        }
    }

    /// Decides the shutdown transition: a running container returns to
    /// the configured phase; any other phase stays as it is.
    pub fn shutdown(&mut self)
        requires
            old(self).wf(),
        ensures
            final(self).wf(),
            final(self).params() == old(self).params(),
            old(self).spec_phase() == ContainerPhase::Running ==> final(self).spec_phase()
                == ContainerPhase::Configured,
            old(self).spec_phase() != ContainerPhase::Running ==> final(self).spec_phase() == old(
                self,
            ).spec_phase(),
    {
        match self.phase {
            ContainerPhase::Running => {
                self.phase = ContainerPhase::Configured;
            },
            _ => {},
        }
    }
}

/// Builds a validated 32-byte public key from its hex form: accepted
/// exactly when the string is well-formed hex of 32 bytes that decode to
/// a valid key.
pub fn build_public_key_from_hex(key_hex: &str) -> (r: Option<Vec<u8>>)
    ensures
        match r {
            Some(k) => is_hex_str(key_hex@) && k@ == hex_val(key_hex@) && k@.len() == 32
                && valid_pk(k@),
            None => !(is_hex_str(key_hex@) && hex_val(key_hex@).len() == 32 && valid_pk(
                hex_val(key_hex@),
            )),
        },
{
    let bytes = match hex_decode(key_hex) {
        Some(b) => b,
        None => {
            return None;
        },
    };
    if bytes.len() != 32 {
        return None;
    }
    if check_public_key(&bytes) {
        Some(bytes)
    } else {
        None
    }
}

} // verus!
