//! Peers, their store, gossip messages and gossip settings.

use spacemesh::mesh::{
    CoreError, GossipConfig, GossipMessage, LoadReport, NodeRole, Peer, PeerStore,
};

#[test]
fn test_peer_creation() {
    let addr = "127.0.0.1:8080".to_string();
    let peer = Peer::new("test-peer".to_string(), addr.clone(), NodeRole::Admin);

    assert_eq!(peer.id, "test-peer");
    assert_eq!(peer.addr, addr);
    assert_eq!(peer.role, NodeRole::Admin);
    assert_eq!(peer.status, "online");
    assert_eq!(peer.gossip_version, 1);
    assert_eq!(peer.storage_usage, 0);
    assert_eq!(peer.last_gossip_heartbeat, 0);
}

#[test]
fn test_peer_is_online() {
    let addr = "127.0.0.1:8080".to_string();
    let mut peer = Peer::new("test-peer".to_string(), addr, NodeRole::Admin);

    peer.last_gossip_heartbeat = 100;
    assert!(peer.is_online(110, 30));
    assert!(!peer.is_online(200, 30));
}

#[test]
fn peer_online_edges() {
    let mut peer = Peer::new("p".to_string(), "1.2.3.4:5".to_string(), NodeRole::Viewer);
    peer.last_gossip_heartbeat = 100;
    assert!(!peer.is_online(130, 30));
    assert!(peer.is_online(129, 30));
    // A heartbeat from the future counts as fresh.
    assert!(peer.is_online(50, 1));
    assert!(!peer.is_online(50, 0));
}

#[test]
fn test_gossip_message_size_estimation() {
    let msg = GossipMessage::Heartbeat {
        peer_id: "test".to_string(),
        raft_port: 8080,
        gossip_addr: Some("127.0.0.1:8080".to_string()),
        load: LoadReport {
            storage_used_bytes: 1024,
            replication_queue_depth: 0,
        },
        timestamp: 12345,
    };

    assert_eq!(msg.estimated_size(), 64);
}

#[test]
fn size_estimates_of_each_kind() {
    let peer = Peer::new("p".to_string(), "1.2.3.4:5".to_string(), NodeRole::Viewer);
    let update = GossipMessage::PeerUpdate {
        peers: vec![peer.clone(), peer],
    };
    assert_eq!(update.estimated_size(), 512);
    let migration = GossipMessage::DataMigration {
        path: "/a/b".to_string(),
        target_peer: "x".to_string(),
        size: 9,
    };
    assert_eq!(migration.estimated_size(), 104);
    let notify = GossipMessage::TransformationNotify {
        path: "ab".to_string(),
        op: "zip".to_string(),
        status: "ok".to_string(),
    };
    assert_eq!(notify.estimated_size(), 57);
    let alert = GossipMessage::SecurityAlert {
        severity: "high".to_string(),
        threat: "é".to_string(),
        source_peer: "s".to_string(),
        timestamp: 1,
    };
    assert_eq!(alert.estimated_size(), 152);
    let upload = GossipMessage::FileUploaded {
        path: "f".to_string(),
        size: 1,
        uploader: "u".to_string(),
        hash: "abcd".to_string(),
    };
    assert_eq!(upload.estimated_size(), 105);
    let custom = GossipMessage::Custom {
        topic: "t".to_string(),
        payload: vec![1, 2, 3],
    };
    assert_eq!(custom.estimated_size(), 53);
}

#[test]
fn test_gossip_config_default() {
    let config = GossipConfig::default();

    assert_eq!(config.fanout, 8);
    assert_eq!(config.heartbeat_interval_ms, 1000);
    assert_eq!(config.message_ttl, 10);
    assert!(config.enable_compression);
    assert!(config.enable_encryption);
    assert_eq!(config.max_message_size, 4096);
    assert_eq!(config.signing_key, vec![0u8; 32]);
}

#[test]
fn default_role_is_viewer() {
    assert_eq!(NodeRole::default(), NodeRole::Viewer);
}

#[test]
fn error_texts() {
    assert_eq!(
        CoreError::GossipFailure("x".to_string()).message(),
        "Gossip propagation failed: x"
    );
    assert_eq!(CoreError::InvalidPeer("p".to_string()).message(), "Invalid peer: p");
    assert_eq!(CoreError::StorageError("s".to_string()).message(), "Storage error: s");
    assert_eq!(
        CoreError::SerializationError("e".to_string()).message(),
        "Serialization error: e"
    );
    assert_eq!(
        CoreError::AuthError("a".to_string()).message(),
        "Authentication failed: a"
    );
    assert_eq!(CoreError::NetworkError("n".to_string()).message(), "Network error: n");
    assert_eq!(CoreError::NotFound("f".to_string()).message(), "Not found: f");
    assert_eq!(
        CoreError::Timeout("t".to_string()).message(),
        "Operation timed out: t"
    );
    assert_eq!(CoreError::Internal("i".to_string()).message(), "Internal error: i");
}

#[test]
fn peer_store_upsert_get_remove() {
    let mut store = PeerStore::new();
    let p = Peer::new("a".to_string(), "1.1.1.1:1".to_string(), NodeRole::Editor);
    assert!(store.upsert(p.clone()));
    let mut q = p.clone();
    q.storage_usage = 42;
    assert!(!store.upsert(q));
    assert_eq!(store.get(&"a".to_string()).unwrap().storage_usage, 42);
    assert_eq!(store.peers().len(), 1);
    let removed = store.remove(&"a".to_string()).unwrap();
    assert_eq!(removed.storage_usage, 42);
    assert!(store.get(&"a".to_string()).is_none());
    assert!(store.remove(&"a".to_string()).is_none());
    assert!(store.peers().is_empty());
}
