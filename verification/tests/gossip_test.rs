//! Gossip bookkeeping: the clock, signed messages, hop budgets, heartbeats
//! and the liveness rule.

use spacemesh::gossip::{
    apply_heartbeat, current_timestamp, expire_silent_peers, heartbeat_message,
    liveness_timeout_secs, mesh_sizes, message_id_for, port_of, register_local_peer, set_port,
    SignedMessage,
};
use spacemesh::mesh::{
    CoreError, GossipEvent, GossipMessage, LoadReport, NodeRole, Peer, PeerStore,
};

fn heartbeat() -> GossipMessage {
    GossipMessage::Heartbeat {
        peer_id: "test".to_string(),
        raft_port: 8080,
        gossip_addr: Some("127.0.0.1:8080".to_string()),
        load: LoadReport {
            storage_used_bytes: 1024,
            replication_queue_depth: 0,
        },
        timestamp: 12345,
    }
}

/// A stand-in for the message's wire encoding.
fn encoded(message: &GossipMessage) -> Vec<u8> {
    format!("{:?}", message).into_bytes()
}

#[test]
fn test_current_timestamp() {
    let ts = current_timestamp();
    assert!(ts > 0);
}

#[test]
fn test_sign_and_verify() {
    let key = b"test_signing_key_32_bytes_long!!";
    let message = heartbeat();
    let bytes = encoded(&message);

    let signed = SignedMessage::new(message.clone(), &bytes, "sender-1".to_string(), 10, key);

    assert!(signed.verify(&bytes, key).is_ok());
}

#[test]
fn test_invalid_signature() {
    let key = b"test_signing_key_32_bytes_long!!";
    let wrong_key = b"wrong_key_32_bytes_long_instead!";
    let message = heartbeat();
    let bytes = encoded(&message);

    let signed = SignedMessage::new(message.clone(), &bytes, "sender-1".to_string(), 10, key);

    let result = signed.verify(&bytes, wrong_key);
    assert!(result.is_err());
    match result.unwrap_err() {
        CoreError::AuthError(s) => assert_eq!(s, "Invalid message signature"),
        other => panic!("unexpected error {:?}", other),
    }
}

#[test]
fn test_ttl_decrement() {
    let key = b"test_signing_key_32_bytes_long!!";
    let message = heartbeat();
    let bytes = encoded(&message);

    let mut signed = SignedMessage::new(message.clone(), &bytes, "sender-1".to_string(), 2, key);

    assert_eq!(signed.ttl, 2);
    assert!(signed.decrement_ttl());
    assert_eq!(signed.ttl, 1);
    assert!(signed.decrement_ttl());
    assert_eq!(signed.ttl, 0);
    assert!(!signed.decrement_ttl());
}

#[test]
fn test_message_id_generation() {
    let message = heartbeat();
    let bytes = encoded(&message);

    let id1 = message_id_for(&bytes, &"sender-1".to_string(), 1000);
    let id2 = message_id_for(&bytes, &"sender-1".to_string(), 1000);
    let id3 = message_id_for(&bytes, &"sender-2".to_string(), 1000);

    assert_eq!(id1, id2);
    assert_ne!(id1, id3);
}

#[test]
fn message_id_is_hex_sha256_of_encoding_sender_and_time() {
    let id = message_id_for(b"payload", &"sender-1".to_string(), 1000);
    assert_eq!(
        id,
        "bad190192f1e7b0d18d4d1bd0c3ae25441c0c8e64a95b1c77fa32c9ea57e08f6"
    );
}

#[test]
fn signature_is_hmac_sha256_of_encoding_id_and_time() {
    let key = b"test_signing_key_32_bytes_long!!";
    let signed = SignedMessage::new_at(
        heartbeat(),
        b"payload",
        "sender-1".to_string(),
        3,
        key,
        1000,
    );
    assert_eq!(
        signed.message_id,
        "bad190192f1e7b0d18d4d1bd0c3ae25441c0c8e64a95b1c77fa32c9ea57e08f6"
    );
    let hex: String = signed.signature.iter().map(|b| format!("{:02x}", b)).collect();
    assert_eq!(
        hex,
        "82402c2309fd4427a685c9bd31297941a7eeec3e7c3a5fa8bce956559a586ea0"
    );
    assert_eq!(signed.timestamp, 1000);
    assert_eq!(signed.sender, "sender-1");
    assert!(signed.verify(b"payload", key).is_ok());
}

#[test]
fn tampered_message_fails_verification() {
    let key = b"test_signing_key_32_bytes_long!!";
    let signed = SignedMessage::new_at(heartbeat(), b"payload", "s".to_string(), 3, key, 7);
    assert!(signed.verify(b"payloae", key).is_err());
    let mut other = signed.clone();
    other.timestamp = 8;
    assert!(other.verify(b"payload", key).is_err());
}

#[test]
fn heartbeat_carries_local_peer() {
    let peer = Peer::new("me".to_string(), "10.0.0.9:7000".to_string(), NodeRole::StorageNode);
    let load = LoadReport {
        storage_used_bytes: 5,
        replication_queue_depth: 2,
    };
    match heartbeat_message(&peer, 9000, load, 77) {
        GossipMessage::Heartbeat {
            peer_id,
            raft_port,
            gossip_addr,
            load: l,
            timestamp,
        } => {
            assert_eq!(peer_id, "me");
            assert_eq!(raft_port, 9000);
            assert_eq!(gossip_addr, Some("10.0.0.9:7000".to_string()));
            assert_eq!(l, load);
            assert_eq!(timestamp, 77);
        }
        other => panic!("unexpected message {:?}", other),
    }
}

#[test]
fn liveness_timeout_is_three_intervals_of_at_least_a_second() {
    assert_eq!(liveness_timeout_secs(1000), 3);
    assert_eq!(liveness_timeout_secs(500), 3);
    assert_eq!(liveness_timeout_secs(0), 3);
    assert_eq!(liveness_timeout_secs(2500), 6);
    assert_eq!(liveness_timeout_secs(10_000), 30);
}

#[test]
fn silent_peers_are_expired_and_reported() {
    let mut store = PeerStore::new();
    let mut a = Peer::new("a".to_string(), "1.1.1.1:1".to_string(), NodeRole::Viewer);
    a.last_gossip_heartbeat = 100;
    let mut b = Peer::new("b".to_string(), "2.2.2.2:2".to_string(), NodeRole::Viewer);
    b.last_gossip_heartbeat = 90;
    let mut c = Peer::new("c".to_string(), "3.3.3.3:3".to_string(), NodeRole::Viewer);
    c.last_gossip_heartbeat = 96;
    store.upsert(a);
    store.upsert(b);
    store.upsert(c);

    // At 100 with a timeout of 3 s: b (10 s silent) and c (4 s) are lost.
    let events = expire_silent_peers(&mut store, 100, 3);
    let mut lost: Vec<String> = events
        .iter()
        .map(|e| match e {
            GossipEvent::NodeLost(id) => id.clone(),
            other => panic!("unexpected event {:?}", other),
        })
        .collect();
    lost.sort();
    assert_eq!(lost, vec!["b".to_string(), "c".to_string()]);
    assert!(store.get(&"a".to_string()).is_some());
    assert!(store.get(&"b".to_string()).is_none());
    assert!(store.get(&"c".to_string()).is_none());

    // A peer exactly at the timeout is kept.
    let events = expire_silent_peers(&mut store, 103, 3);
    assert!(events.is_empty());
    assert!(store.get(&"a".to_string()).is_some());
}

#[test]
fn ports_are_read_after_the_last_colon() {
    assert_eq!(port_of(&"10.0.0.1:80".to_string()), Some(80));
    assert_eq!(port_of(&"[::1]:9000".to_string()), Some(9000));
    assert_eq!(port_of(&"host".to_string()), None);
    assert_eq!(port_of(&"h:99999".to_string()), None);
    assert_eq!(port_of(&"h:".to_string()), None);
    assert_eq!(port_of(&"h:8a".to_string()), None);
    assert_eq!(set_port(&"10.0.0.1:80".to_string(), 7000), "10.0.0.1:7000");
    assert_eq!(set_port(&"[::1]:1".to_string(), 65535), "[::1]:65535");
}

#[test]
fn heartbeat_of_an_unknown_peer_discovers_it() {
    let mut store = PeerStore::new();
    let load = LoadReport { storage_used_bytes: 42, replication_queue_depth: 1 };
    let events = apply_heartbeat(&mut store, &"p1".to_string(), 7000, &None, load, 99);
    assert_eq!(events.len(), 2);
    assert!(matches!(&events[0], GossipEvent::Heartbeat { peer_id, raft_port: 7000, gossip_addr: None, .. } if peer_id == "p1"));
    match &events[1] {
        GossipEvent::NodeDiscovered(p) => {
            assert_eq!(p.addr, "127.0.0.1:7000");
            assert_eq!(p.role, NodeRole::StorageNode);
        }
        other => panic!("unexpected event {:?}", other),
    }
    let p = store.get(&"p1".to_string()).unwrap();
    assert_eq!(p.storage_usage, 42);
    assert_eq!(p.last_gossip_heartbeat, 99);
}

#[test]
fn heartbeat_of_a_known_peer_moves_its_port_or_address() {
    let mut store = PeerStore::new();
    store.upsert(Peer::new("p".to_string(), "10.1.2.3:5000".to_string(), NodeRole::Gateway));
    let events = apply_heartbeat(&mut store, &"p".to_string(), 6000, &None, LoadReport::default(), 5);
    assert_eq!(events.len(), 1);
    let p = store.get(&"p".to_string()).unwrap();
    assert_eq!(p.addr, "10.1.2.3:6000");
    assert_eq!(p.role, NodeRole::Gateway);
    let events = apply_heartbeat(
        &mut store,
        &"p".to_string(),
        6000,
        &Some("192.168.0.9:4000".to_string()),
        LoadReport::default(),
        6,
    );
    assert_eq!(events.len(), 1);
    assert_eq!(store.get(&"p".to_string()).unwrap().addr, "192.168.0.9:4000");
}

#[test]
fn mesh_sizes_follow_the_fanout() {
    let m = mesh_sizes(6);
    assert_eq!((m.mesh_n, m.mesh_n_low, m.mesh_n_high), (6, 3, 12));
    let odd = mesh_sizes(5);
    assert_eq!((odd.mesh_n, odd.mesh_n_low, odd.mesh_n_high), (5, 2, 10));
}

#[test]
fn local_peer_is_registered_as_heard_from_now() {
    let mut store = PeerStore::new();
    let me = Peer::new("local".to_string(), "10.0.0.1:4001".to_string(), NodeRole::StorageNode);
    assert!(register_local_peer(&mut store, me.clone(), 1700));
    let got = store.get(&"local".to_string()).unwrap();
    assert_eq!(got.last_gossip_heartbeat, 1700);
    assert_eq!(got.addr, "10.0.0.1:4001");
    assert!(!register_local_peer(&mut store, me, 1800));
    assert_eq!(store.get(&"local".to_string()).unwrap().last_gossip_heartbeat, 1800);
    assert_eq!(store.peers().len(), 1);
}
