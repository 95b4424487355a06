//! Cluster configuration: timings, MTU, cluster key, bind address.

use vstd::prelude::*;
use crate::member::NodeAddr;

verus! {

/// Configuration of a cluster node.  Durations are milliseconds.
#[derive(Clone, Debug)]
pub struct ClusterConfig {
    /// UDP bind address of this node.
    pub listen_addr: NodeAddr,
    /// Opaque byte string included in every datagram; datagrams carrying a
    /// different key are dropped.
    pub cluster_key: Vec<u8>,
    /// Period of the timer tick, in milliseconds.
    pub ping_interval: u64,
    /// Deadline from a Ping to its expected Ack, in milliseconds.
    pub ping_timeout: u64,
    /// Fanout for indirect probes.
    pub ping_request_host_count: usize,
    /// Hard upper bound on the encoded datagram length, in bytes.
    pub network_mtu: usize,
}

impl ClusterConfig {
    /// A configuration is sound when its intervals are positive and the
    /// cluster key is short enough for the wire format's length prefix.
    pub open spec fn wf(&self) -> bool {
        &&& self.ping_interval > 0
        &&& self.ping_timeout > 0
        &&& self.cluster_key.len() < 0x10000
    }

    /// Checks the soundness of a configuration, exactly.
    pub fn is_wf(&self) -> (r: bool)
        ensures
            r == self.wf(),
    {
        self.ping_interval > 0 && self.ping_timeout > 0 && self.cluster_key.len() < 0x10000
    }
}

} // verus!
