//! Settings of a node's orchestrator: who the node is, where it listens,
//! its zone, the peers it starts from, and its gossip settings.

use vstd::prelude::*;
use crate::mesh::GossipConfig;

verus! {

/// Peers gossiped to per round unless configured otherwise.
pub fn default_gossip_fanout() -> (r: usize)
    ensures
        r == 8,
{
    8
}

/// Milliseconds between heartbeats unless configured otherwise.
pub fn default_heartbeat_interval() -> (r: u64)
    ensures
        r == 1000,
{
    1000
}

/// Hops a gossip message may make unless configured otherwise.
pub fn default_message_ttl() -> (r: u32)
    ensures
        r == 10,
{
    10
}

/// Largest gossip message, in bytes, unless configured otherwise.
pub fn default_max_message_size() -> (r: usize)
    ensures
        r == 4096,
{
    4096
}

/// The key of gossip signatures unless configured otherwise: 32 zero bytes.
pub fn default_signing_key() -> (r: Vec<u8>)
    ensures
        r@ == Seq::new(32, |i: int| 0u8),
{
    let key = vec![0u8; 32];
    proof {
        assert(key@ =~= Seq::new(32, |i: int| 0u8));
    }
    key
}

/// Length of a gossip signing key, in bytes.
pub const SIGNING_KEY_LEN: usize = 32;

/// The orchestrator's settings.
#[derive(Clone, Debug)]
pub struct OrchestratorConfig {
    pub node_id: String,
    /// Address for replication connections, `ip:port`.
    pub listen_addr: String,
    pub zone_name: String,
    /// Addresses of the peers to discover the mesh from, `ip:port`.
    pub seed_peers: Vec<String>,
    pub gossip_fanout: usize,
    pub heartbeat_interval_ms: u64,
    pub message_ttl: u32,
    pub max_message_size: usize,
    pub signing_key: Vec<u8>,
}

/// The gossip settings every configuration starts from.
pub open spec fn has_default_gossip(c: OrchestratorConfig) -> bool {
    &&& c.gossip_fanout == 8
    &&& c.heartbeat_interval_ms == 1000
    &&& c.message_ttl == 10
    &&& c.max_message_size == 4096
    &&& c.signing_key@ == Seq::new(32, |i: int| 0u8)
}

impl Default for OrchestratorConfig {
    /// Node `node-default` of zone `default-zone`, listening on
    /// `127.0.0.1:9000`, with no seed peer and the default gossip settings.
    fn default() -> (r: Self)
        ensures
            r.node_id@ == "node-default"@,
            r.listen_addr@ == "127.0.0.1:9000"@,
            r.zone_name@ == "default-zone"@,
            r.seed_peers@.len() == 0,
            has_default_gossip(r),
    {
        OrchestratorConfig {
            node_id: String::from_str("node-default"),
            listen_addr: String::from_str("127.0.0.1:9000"),
            zone_name: String::from_str("default-zone"),
            seed_peers: Vec::new(),
            gossip_fanout: default_gossip_fanout(),
            heartbeat_interval_ms: default_heartbeat_interval(),
            message_ttl: default_message_ttl(),
            max_message_size: default_max_message_size(),
            signing_key: default_signing_key(),
        }
    }
}

impl OrchestratorConfig {
    /// Settings for node `node_id` of zone `zone_name`, listening on
    /// `listen_addr`, otherwise the defaults.
    pub fn new(node_id: String, listen_addr: String, zone_name: String) -> (r: Self)
        ensures
            r.node_id@ == node_id@,
            r.listen_addr@ == listen_addr@,
            r.zone_name@ == zone_name@,
            r.seed_peers@.len() == 0,
            has_default_gossip(r),
    {
        OrchestratorConfig {
            node_id,
            listen_addr,
            zone_name,
            seed_peers: Vec::new(),
            gossip_fanout: default_gossip_fanout(),
            heartbeat_interval_ms: default_heartbeat_interval(),
            message_ttl: default_message_ttl(),
            max_message_size: default_max_message_size(),
            signing_key: default_signing_key(),
        }
    }

    /// The same settings with one more seed peer.
    pub fn with_seed_peer(self, addr: String) -> (r: Self)
        ensures
            r.seed_peers@ == self.seed_peers@.push(addr),
            r.node_id == self.node_id,
            r.listen_addr == self.listen_addr,
            r.zone_name == self.zone_name,
            r.gossip_fanout == self.gossip_fanout,
            r.heartbeat_interval_ms == self.heartbeat_interval_ms,
            r.message_ttl == self.message_ttl,
            r.max_message_size == self.max_message_size,
            r.signing_key == self.signing_key,
    {
        let mut c = self;
        c.seed_peers.push(addr);
        c
    }

    /// The same settings with another fanout.
    pub fn with_fanout(self, fanout: usize) -> (r: Self)
        ensures
            r == (OrchestratorConfig { gossip_fanout: fanout, ..self }),
    {
        let mut c = self;
        c.gossip_fanout = fanout;
        c
    }

    /// The same settings with another heartbeat interval.
    pub fn with_heartbeat_interval(self, interval_ms: u64) -> (r: Self)
        ensures
            r == (OrchestratorConfig { heartbeat_interval_ms: interval_ms, ..self }),
    {
        let mut c = self;
        c.heartbeat_interval_ms = interval_ms;
        c
    }

    /// The same settings with another signing key, which must be 32 bytes.
    pub fn with_signing_key(self, key: Vec<u8>) -> (r: Self)
        requires
            key@.len() == SIGNING_KEY_LEN,
        ensures
            r == (OrchestratorConfig { signing_key: key, ..self }),
    {
        let mut c = self;
        c.signing_key = key;
        c
    }

    /// The same settings with another signing key, when it is 32 bytes
    /// long; the settings unchanged, as `Err`, otherwise.
    pub fn try_with_signing_key(self, key: Vec<u8>) -> (r: Result<Self, Self>)
        ensures
            key@.len() == SIGNING_KEY_LEN ==> r == Ok::<Self, Self>(
                OrchestratorConfig { signing_key: key, ..self },
            ),
            key@.len() != SIGNING_KEY_LEN ==> r == Err::<Self, Self>(self),
    {
        if key.len() == SIGNING_KEY_LEN {
            Ok(self.with_signing_key(key))
        } else {
            Err(self)
        }
    }

    /// The gossip settings of the node: those configured, with compression
    /// and encryption on.
    pub fn gossip_config(&self) -> (r: GossipConfig)
        ensures
            r.fanout == self.gossip_fanout,
            r.heartbeat_interval_ms == self.heartbeat_interval_ms,
            r.message_ttl == self.message_ttl,
            r.max_message_size == self.max_message_size,
            r.enable_compression,
            r.enable_encryption,
            r.signing_key@ == self.signing_key@,
    {
        GossipConfig {
            fanout: self.gossip_fanout,
            heartbeat_interval_ms: self.heartbeat_interval_ms,
            message_ttl: self.message_ttl,
            max_message_size: self.max_message_size,
            enable_compression: true,
            enable_encryption: true,
            signing_key: self.signing_key.clone(),
        }
    }
}

} // verus!
