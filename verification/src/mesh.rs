//! The mesh's peers: their roles and liveness, the store of known peers,
//! the messages they gossip and the gossip settings.

use vstd::prelude::*;
use vstd::utf8::encode_utf8;

verus! {

/// Errors of mesh and gossip operations, each with its detail.
#[derive(Clone, Debug)]
pub enum CoreError {
    GossipFailure(String),
    InvalidPeer(String),
    StorageError(String),
    SerializationError(String),
    AuthError(String),
    NetworkError(String),
    NotFound(String),
    Timeout(String),
    Internal(String),
}

/// The text of an error: what kind of failure it is, a colon, the detail.
pub open spec fn core_error_text(e: CoreError) -> Seq<char> {
    match e {
        CoreError::GossipFailure(s) => "Gossip propagation failed: "@ + s@,
        CoreError::InvalidPeer(s) => "Invalid peer: "@ + s@,
        CoreError::StorageError(s) => "Storage error: "@ + s@,
        CoreError::SerializationError(s) => "Serialization error: "@ + s@,
        CoreError::AuthError(s) => "Authentication failed: "@ + s@,
        CoreError::NetworkError(s) => "Network error: "@ + s@,
        CoreError::NotFound(s) => "Not found: "@ + s@,
        CoreError::Timeout(s) => "Operation timed out: "@ + s@,
        CoreError::Internal(s) => "Internal error: "@ + s@,
    }
}

impl CoreError {
    /// The error as text.
    pub fn message(&self) -> (r: String)
        ensures
            r@ == core_error_text(*self),
    {
        match self {
            CoreError::GossipFailure(s) => String::from_str("Gossip propagation failed: ").concat(
                s.as_str(),
            ),
            CoreError::InvalidPeer(s) => String::from_str("Invalid peer: ").concat(s.as_str()),
            CoreError::StorageError(s) => String::from_str("Storage error: ").concat(s.as_str()),
            CoreError::SerializationError(s) => String::from_str("Serialization error: ").concat(
                s.as_str(),
            ),
            CoreError::AuthError(s) => String::from_str("Authentication failed: ").concat(
                s.as_str(),
            ),
            CoreError::NetworkError(s) => String::from_str("Network error: ").concat(s.as_str()),
            CoreError::NotFound(s) => String::from_str("Not found: ").concat(s.as_str()),
            CoreError::Timeout(s) => String::from_str("Operation timed out: ").concat(s.as_str()),
            CoreError::Internal(s) => String::from_str("Internal error: ").concat(s.as_str()),
        }
    }
}

/// A node's role, which decides what it may do.
#[derive(Clone, Copy, Debug, PartialEq, Eq, Hash, Structural)]
pub enum NodeRole {
    Admin,
    Viewer,
    Editor,
    StorageNode,
    Gateway,
}

impl Default for NodeRole {
    /// A node is a viewer unless it is given another role.
    fn default() -> (r: Self)
        ensures
            r == NodeRole::Viewer,
    {
        NodeRole::Viewer
    }
}

/// A peer of the mesh and what gossip last told of it.
#[derive(Clone, Debug)]
pub struct Peer {
    pub id: String,
    /// The peer's network address, `ip:port`.
    pub addr: String,
    pub role: NodeRole,
    pub storage_usage: u64,
    pub status: String,
    pub gossip_version: u32,
    /// Unix time, in seconds, of the peer's last heartbeat.
    pub last_gossip_heartbeat: u64,
}

pub struct PeerView {
    pub id: Seq<char>,
    pub addr: Seq<char>,
    pub role: NodeRole,
    pub storage_usage: u64,
    pub status: Seq<char>,
    pub gossip_version: u32,
    pub last_gossip_heartbeat: u64,
}

impl View for Peer {
    type V = PeerView;

    open spec fn view(&self) -> PeerView {
        PeerView {
            id: self.id@,
            addr: self.addr@,
            role: self.role,
            storage_usage: self.storage_usage,
            status: self.status@,
            gossip_version: self.gossip_version,
            last_gossip_heartbeat: self.last_gossip_heartbeat,
        }
    }
}

/// `a - b`, or zero when `b` is the larger.
pub open spec fn saturating_sub(a: u64, b: u64) -> u64 {
    if a >= b {
        (a - b) as u64
    } else {
        0
    }
}

impl Peer {
    /// A peer just met: online, using nothing, at gossip version 1, with no
    /// heartbeat seen yet.
    pub fn new(id: String, addr: String, role: NodeRole) -> (r: Self)
        ensures
            r.id@ == id@,
            r.addr@ == addr@,
            r.role == role,
            r.storage_usage == 0,
            r.status@ == "online"@,
            r.gossip_version == 1,
            r.last_gossip_heartbeat == 0,
    {
        Peer {
            id,
            addr,
            role,
            storage_usage: 0,
            status: String::from_str("online"),
            gossip_version: 1,
            last_gossip_heartbeat: 0,
        }
    }

    /// Whether the peer's last heartbeat is less than `timeout_secs` old
    /// at `current_time`.
    pub fn is_online(&self, current_time: u64, timeout_secs: u64) -> (r: bool)
        ensures
            r == (saturating_sub(current_time, self.last_gossip_heartbeat) < timeout_secs),
    {
        current_time.saturating_sub(self.last_gossip_heartbeat) < timeout_secs
    }

    pub fn copy(&self) -> (r: Self)
        ensures
            r@ == self@,
    {
        Peer {
            id: self.id.clone(),
            addr: self.addr.clone(),
            role: self.role,
            storage_usage: self.storage_usage,
            status: self.status.clone(),
            gossip_version: self.gossip_version,
            last_gossip_heartbeat: self.last_gossip_heartbeat,
        }
    }
}

// ---------------------------------------------------------------------------
// The store of known peers
// ---------------------------------------------------------------------------

/// The known peers, by id.
pub struct PeerStore {
    peers: Vec<Peer>,
}

pub open spec fn peer_map(s: Seq<Peer>) -> Map<Seq<char>, PeerView>
    decreases s.len(),
{
    if s.len() == 0 {
        Map::empty()
    } else {
        peer_map(s.drop_last()).insert(s.last().id@, s.last()@)
    }
}

pub open spec fn distinct_ids(s: Seq<Peer>) -> bool {
    forall|i: int, j: int| 0 <= i < j < s.len() ==> s[i].id@ != s[j].id@
}

proof fn lemma_peer_map(s: Seq<Peer>)
    requires
        distinct_ids(s),
    ensures
        forall|i: int| 0 <= i < s.len() ==> #[trigger] peer_map(s).contains_key(s[i].id@) && peer_map(
            s,
        )[s[i].id@] == s[i]@,
        forall|k: Seq<char>|
            #[trigger] peer_map(s).contains_key(k) ==> exists|i: int|
                0 <= i < s.len() && s[i].id@ == k,
        peer_map(s).dom().finite(),
        peer_map(s).len() == s.len(),
    decreases s.len(),
{
    if s.len() > 0 {
        let t = s.drop_last();
        assert forall|i: int, j: int| 0 <= i < j < t.len() implies t[i].id@ != t[j].id@ by {
            assert(t[i] == s[i] && t[j] == s[j]);
        }
        lemma_peer_map(t);
        assert forall|i: int| 0 <= i < t.len() implies t[i].id@ != s.last().id@ by {
            assert(t[i] == s[i]);
        }
        assert(!peer_map(t).contains_key(s.last().id@));
        assert forall|i: int| 0 <= i < s.len() implies #[trigger] peer_map(s).contains_key(
            s[i].id@,
        ) && peer_map(s)[s[i].id@] == s[i]@ by {
            if i < s.len() - 1 {
                assert(s[i] == t[i]);
            }
        }
        assert forall|k: Seq<char>| #[trigger] peer_map(s).contains_key(k) implies exists|i: int|
            0 <= i < s.len() && s[i].id@ == k by {
            if k != s.last().id@ {
                let i = choose|i: int| 0 <= i < t.len() && t[i].id@ == k;
                assert(s[i] == t[i]);
            }
        }
    }
}

impl PeerStore {
    #[verifier::type_invariant]
    spec fn well_formed(self) -> bool {
        distinct_ids(self.peers@)
    }

    /// The known peers, by id.
    pub closed spec fn view(self) -> Map<Seq<char>, PeerView> {
        peer_map(self.peers@)
    }

    /// A store that knows no peer.
    pub fn new() -> (r: Self)
        ensures
            r.view() == Map::<Seq<char>, PeerView>::empty(),
    {
        PeerStore { peers: Vec::new() }
    }

    fn position(&self, id: &String) -> (r: Option<usize>)
        ensures
            match r {
                Some(i) => i < self.peers@.len() && self.peers@[i as int].id@ == id@,
                None => forall|i: int| 0 <= i < self.peers@.len() ==> self.peers@[i].id@ != id@,
            },
    {
        let mut i: usize = 0;
        while i < self.peers.len()
            invariant
                i <= self.peers@.len(),
                forall|j: int| 0 <= j < i ==> self.peers@[j].id@ != id@,
            decreases self.peers@.len() - i,
        {
            if self.peers[i].id.eq(id) {
                return Some(i);
            }
            i = i + 1;
        }
        None
    }

    /// Adds or replaces the peer with `peer`'s id; says whether it was new.
    pub fn upsert(&mut self, peer: Peer) -> (r: bool)
        ensures
            final(self).view() == old(self).view().insert(peer.id@, peer@),
            r == !old(self).view().contains_key(peer.id@),
    {
        proof {
            use_type_invariant(&*self);
            lemma_peer_map(self.peers@);
        }
        let ghost pv = peer@;
        let ghost old_peers = self.peers@;
        match self.position(&peer.id) {
            Some(i) => {
                let mut peers: Vec<Peer> = Vec::new();
                std::mem::swap(&mut peers, &mut self.peers);
                peers.set(i, peer);
                proof {
                    assert forall|a: int, b: int| 0 <= a < b < peers@.len() implies peers@[a].id@
                        != peers@[b].id@ by {
                        if a != i && b != i {
                            assert(peers@[a] == old_peers[a] && peers@[b] == old_peers[b]);
                        } else if a == i {
                            assert(peers@[b] == old_peers[b]);
                        } else {
                            assert(peers@[a] == old_peers[a]);
                        }
                    }
                    lemma_peer_map(peers@);
                    let target = peer_map(old_peers).insert(pv.id, pv);
                    {
                        assert forall|k: Seq<char>| #[trigger] peer_map(peers@).dom().contains(k) implies target.dom().contains(k) by {
                            let j = choose|j: int| 0 <= j < peers@.len() && peers@[j].id@ == k;
                            if j != i {
                                assert(peers@[j] == old_peers[j]);
                                assert(peer_map(old_peers).contains_key(old_peers[j].id@));
                            } else {
                                assert(peers@[j]@ == pv);
                            }
                        }
                        assert forall|k: Seq<char>| #[trigger] target.dom().contains(k) implies peer_map(peers@).dom().contains(k) && peer_map(
                            peers@,
                        )[k] == target[k] by {
                            if k == pv.id {
                                assert(peers@[i as int]@ == pv);
                                assert(peer_map(peers@).contains_key(peers@[i as int].id@));
                            } else {
                                let j = choose|j: int|
                                    0 <= j < old_peers.len() && old_peers[j].id@ == k;
                                assert(peers@[j] == old_peers[j]);
                                assert(peer_map(peers@).contains_key(peers@[j].id@));
                                assert(peer_map(old_peers).contains_key(old_peers[j].id@));
                            }
                        }
                    }
                    assert(peer_map(peers@).dom() =~= target.dom());
                    assert(peer_map(peers@) =~= target);
                }
                self.peers = peers;
                false
            },
            None => {
                let mut peers: Vec<Peer> = Vec::new();
                std::mem::swap(&mut peers, &mut self.peers);
                peers.push(peer);
                proof {
                    assert(peers@.drop_last() =~= old_peers);
                    assert forall|a: int, b: int| 0 <= a < b < peers@.len() implies peers@[a].id@
                        != peers@[b].id@ by {
                        assert(peers@[a] == old_peers[a]);
                        if b < old_peers.len() {
                            assert(peers@[b] == old_peers[b]);
                        }
                    }
                }
                self.peers = peers;
                true
            },
        }
    }

    /// Forgets the peer `peer_id`, giving it back if it was known.
    pub fn remove(&mut self, peer_id: &String) -> (r: Option<Peer>)
        ensures
            final(self).view() == old(self).view().remove(peer_id@),
            match r {
                Some(p) => old(self).view().contains_key(peer_id@) && p@ == old(
                    self,
                ).view()[peer_id@],
                None => !old(self).view().contains_key(peer_id@),
            },
    {
        proof {
            use_type_invariant(&*self);
            lemma_peer_map(self.peers@);
        }
        let ghost old_peers = self.peers@;
        match self.position(peer_id) {
            Some(i) => {
                let mut peers: Vec<Peer> = Vec::new();
                std::mem::swap(&mut peers, &mut self.peers);
                let p = peers.remove(i);
                proof {
                    assert forall|a: int, b: int| 0 <= a < b < peers@.len() implies peers@[a].id@
                        != peers@[b].id@ by {
                        let a2 = if a < i { a } else { a + 1 };
                        let b2 = if b < i { b } else { b + 1 };
                        assert(peers@[a] == old_peers[a2] && peers@[b] == old_peers[b2]);
                    }
                    lemma_peer_map(peers@);
                    assert(peer_map(peers@) =~= peer_map(old_peers).remove(peer_id@)) by {
                        assert forall|k: Seq<char>| peer_map(peers@).dom().contains(k) implies peer_map(
                            old_peers,
                        ).remove(peer_id@).dom().contains(k) by {
                            let j = choose|j: int| 0 <= j < peers@.len() && peers@[j].id@ == k;
                            let j2 = if j < i { j } else { j + 1 };
                            assert(peers@[j] == old_peers[j2]);
                        }
                        assert forall|k: Seq<char>| peer_map(old_peers).remove(
                            peer_id@,
                        ).dom().contains(k) implies peer_map(peers@).dom().contains(k) && peer_map(
                            peers@,
                        )[k] == peer_map(old_peers)[k] by {
                            let j = choose|j: int|
                                0 <= j < old_peers.len() && old_peers[j].id@ == k;
                            assert(j != i);
                            let j2 = if j < i { j } else { j - 1 };
                            assert(peers@[j2] == old_peers[j]);
                        }
                    }
                }
                self.peers = peers;
                Some(p)
            },
            None => {
                proof {
                    assert(peer_map(old_peers) =~= peer_map(old_peers).remove(peer_id@));
                }
                None
            },
        }
    }

    /// The peer `peer_id`, if known.
    pub fn get(&self, peer_id: &String) -> (r: Option<Peer>)
        ensures
            match r {
                Some(p) => self.view().contains_key(peer_id@) && p@ == self.view()[peer_id@],
                None => !self.view().contains_key(peer_id@),
            },
    {
        proof {
            use_type_invariant(self);
            lemma_peer_map(self.peers@);
        }
        match self.position(peer_id) {
            Some(i) => Some(self.peers[i].copy()),
            None => None,
        }
    }

    /// All known peers, each once.
    pub fn peers(&self) -> (r: Vec<Peer>)
        ensures
            r@.len() == self.view().len(),
            distinct_ids(r@),
            forall|i: int|
                0 <= i < r@.len() ==> self.view().contains_key(#[trigger] r@[i].id@) && self.view()[r@[i].id@]
                    == r@[i]@,
            forall|k: Seq<char>|
                #[trigger] self.view().contains_key(k) ==> exists|i: int|
                    0 <= i < r@.len() && r@[i].id@ == k,
    {
        proof {
            use_type_invariant(self);
            lemma_peer_map(self.peers@);
        }
        let mut r: Vec<Peer> = Vec::new();
        let mut i: usize = 0;
        while i < self.peers.len()
            invariant
                i <= self.peers@.len(),
                r@.len() == i,
                forall|j: int| 0 <= j < i ==> (#[trigger] r@[j])@ == self.peers@[j]@,
            decreases self.peers@.len() - i,
        {
            r.push(self.peers[i].copy());
            i = i + 1;
        }
        proof {
            assert forall|a: int, b: int| 0 <= a < b < r@.len() implies r@[a].id@ != r@[b].id@ by {
                assert(r@[a]@ == self.peers@[a]@ && r@[b]@ == self.peers@[b]@);
            }
            assert forall|j: int| 0 <= j < r@.len() implies self.view().contains_key(
                #[trigger] r@[j].id@,
            ) && self.view()[r@[j].id@] == r@[j]@ by {
                assert(r@[j]@ == self.peers@[j]@);
            }
            assert forall|k: Seq<char>| #[trigger] self.view().contains_key(k) implies exists|i: int|
                0 <= i < r@.len() && r@[i].id@ == k by {
                let i = choose|i: int| 0 <= i < self.peers@.len() && self.peers@[i].id@ == k;
                assert(r@[i]@ == self.peers@[i]@);
            }
        }
        r
    }
}

impl Default for PeerStore {
    fn default() -> (r: Self)
        ensures
            r.view() == Map::<Seq<char>, PeerView>::empty(),
    {
        PeerStore::new()
    }
}

// ---------------------------------------------------------------------------
// Gossip messages and settings
// ---------------------------------------------------------------------------

/// A node's load, as its heartbeats report it.
#[derive(Clone, Copy, Debug, PartialEq, Eq, Structural)]
pub struct LoadReport {
    pub storage_used_bytes: u64,
    pub replication_queue_depth: u64,
}

impl Default for LoadReport {
    fn default() -> (r: Self)
        ensures
            r.storage_used_bytes == 0,
            r.replication_queue_depth == 0,
    {
        LoadReport { storage_used_bytes: 0, replication_queue_depth: 0 }
    }
}

/// What the gossip layer tells the rest of the node.
#[derive(Clone, Debug)]
pub enum GossipEvent {
    NodeDiscovered(Peer),
    NodeLost(String),
    Heartbeat { peer_id: String, raft_port: u16, gossip_addr: Option<String>, load: LoadReport },
}

/// Messages spread from peer to peer.
#[derive(Clone, Debug)]
pub enum GossipMessage {
    PeerUpdate { peers: Vec<Peer> },
    DataMigration { path: String, target_peer: String, size: u64 },
    TransformationNotify { path: String, op: String, status: String },
    SecurityAlert { severity: String, threat: String, source_peer: String, timestamp: u64 },
    FileUploaded { path: String, size: u64, uploader: String, hash: String },
    Heartbeat {
        peer_id: String,
        raft_port: u16,
        gossip_addr: Option<String>,
        load: LoadReport,
        timestamp: u64,
    },
    Custom { topic: String, payload: Vec<u8> },
}

/// The length of a string in bytes (UTF-8).
pub open spec fn byte_len(s: String) -> int {
    encode_utf8(s@).len() as int
}

/// A rough size of a message on the wire, in bytes.
pub open spec fn estimated_size_of(m: GossipMessage) -> int {
    match m {
        GossipMessage::PeerUpdate { peers } => (peers@.len() * 256) as int,
        GossipMessage::DataMigration { path, .. } => byte_len(path) + 100,
        GossipMessage::TransformationNotify { path, op, status } => byte_len(path) + byte_len(op)
            + byte_len(status) + 50,
        GossipMessage::SecurityAlert { threat, .. } => byte_len(threat) + 150,
        GossipMessage::FileUploaded { path, hash, .. } => byte_len(path) + byte_len(hash) + 100,
        GossipMessage::Heartbeat { .. } => 64,
        GossipMessage::Custom { payload, .. } => (payload@.len() + 50) as int,
    }
}

fn str_byte_len(s: &String) -> (r: usize)
    requires
        byte_len(*s) <= usize::MAX,
    ensures
        r == byte_len(*s),
{
    s.as_str().len()
}

impl GossipMessage {
    /// A rough size of the message on the wire, in bytes.
    pub fn estimated_size(&self) -> (r: usize)
        requires
            estimated_size_of(*self) <= usize::MAX,
        ensures
            r == estimated_size_of(*self),
    {
        match self {
            GossipMessage::PeerUpdate { peers } => peers.len() * 256,
            GossipMessage::DataMigration { path, .. } => str_byte_len(path) + 100,
            GossipMessage::TransformationNotify { path, op, status } => str_byte_len(path)
                + str_byte_len(op) + str_byte_len(status) + 50,
            GossipMessage::SecurityAlert { threat, .. } => str_byte_len(threat) + 150,
            GossipMessage::FileUploaded { path, hash, .. } => str_byte_len(path) + str_byte_len(
                hash,
            ) + 100,
            GossipMessage::Heartbeat { .. } => 64,
            GossipMessage::Custom { payload, .. } => payload.len() + 50,
        }
    }
}

/// A file of the mesh and what is known of it.
#[derive(Clone, Debug)]
pub struct FileMetadata {
    pub path: String,
    pub size: u64,
    pub hash: String,
    pub created_at: u64,
    pub modified_at: u64,
    pub mime_type: String,
}

/// Gossip settings.
#[derive(Clone, Debug)]
pub struct GossipConfig {
    /// Peers to gossip to in each round.
    pub fanout: usize,
    pub heartbeat_interval_ms: u64,
    /// Hops a message may make.
    pub message_ttl: u32,
    pub max_message_size: usize,
    pub enable_compression: bool,
    pub enable_encryption: bool,
    /// Key of the signatures of messages.
    pub signing_key: Vec<u8>,
}

impl Default for GossipConfig {
    /// Fanout 8, a heartbeat every second, 10 hops, messages up to 4096
    /// bytes, compression and encryption on, and a key of 32 zero bytes.
    fn default() -> (r: Self)
        ensures
            r.fanout == 8,
            r.heartbeat_interval_ms == 1000,
            r.message_ttl == 10,
            r.max_message_size == 4096,
            r.enable_compression,
            r.enable_encryption,
            r.signing_key@ == Seq::new(32, |i: int| 0u8),
    {
        let key = vec![0u8; 32];
        proof {
            assert(key@ =~= Seq::new(32, |i: int| 0u8));
        }
        GossipConfig {
            fanout: 8,
            heartbeat_interval_ms: 1000,
            message_ttl: 10,
            max_message_size: 4096,
            enable_compression: true,
            enable_encryption: true,
            signing_key: key,
        }
    }
}

} // verus!
