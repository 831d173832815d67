//! The directory of Raft peers: adding, finding and removing peers, and
//! building it from configuration.

use spacemesh::transport::PeerRegistry;

#[test]
fn test_peer_registry() {
    let mut registry = PeerRegistry::new();

    registry.add_peer(1, "http://127.0.0.1:4422".to_string());
    registry.add_peer(2, "http://127.0.0.1:4423".to_string());

    assert_eq!(
        registry.get_peer(1),
        Some("http://127.0.0.1:4422".to_string())
    );
    assert_eq!(
        registry.get_peer(2),
        Some("http://127.0.0.1:4423".to_string())
    );
    assert_eq!(registry.get_peer(3), None);

    registry.remove_peer(1);
    assert_eq!(registry.get_peer(1), None);
}

#[test]
fn transport_test_peer_registry_from_config() {
    let registry = PeerRegistry::from_config(&[
        (1, "http://127.0.0.1:4422"),
        (2, "http://127.0.0.1:4423"),
        (3, "http://127.0.0.1:4424"),
    ]);

    assert_eq!(
        registry.get_peer(1),
        Some("http://127.0.0.1:4422".to_string())
    );
    assert_eq!(
        registry.get_peer(2),
        Some("http://127.0.0.1:4423".to_string())
    );
    assert_eq!(
        registry.get_peer(3),
        Some("http://127.0.0.1:4424".to_string())
    );
}

#[test]
fn test_peer_registry_operations() {
    let mut registry = PeerRegistry::new();

    registry.add_peer(1, "http://127.0.0.1:4422".to_string());
    registry.add_peer(2, "http://127.0.0.1:4423".to_string());
    registry.add_peer(3, "http://127.0.0.1:4424".to_string());

    assert_eq!(
        registry.get_peer(1),
        Some("http://127.0.0.1:4422".to_string())
    );
    assert_eq!(
        registry.get_peer(2),
        Some("http://127.0.0.1:4423".to_string())
    );
    assert_eq!(
        registry.get_peer(3),
        Some("http://127.0.0.1:4424".to_string())
    );

    assert_eq!(registry.get_peer(99), None);

    registry.remove_peer(2);
    assert_eq!(registry.get_peer(2), None);

    assert!(registry.get_peer(1).is_some());
    assert!(registry.get_peer(3).is_some());
}

#[test]
fn grpc_test_test_peer_registry_from_config() {
    let registry = PeerRegistry::from_config(&[
        (1, "http://node1:4422"),
        (2, "http://node2:4422"),
        (3, "http://node3:4422"),
    ]);

    assert_eq!(registry.get_peer(1), Some("http://node1:4422".to_string()));
    assert_eq!(registry.get_peer(2), Some("http://node2:4422".to_string()));
    assert_eq!(registry.get_peer(3), Some("http://node3:4422".to_string()));
}

#[test]
fn peer_registry_later_entry_wins() {
    let registry = PeerRegistry::from_config(&[(1, "http://a:1"), (1, "http://b:2")]);
    assert_eq!(registry.get_peer(1), Some("http://b:2".to_string()));
}

#[test]
fn peer_registry_add_replaces_address() {
    let mut registry = PeerRegistry::new();
    registry.add_peer(7, "http://old:1".to_string());
    registry.add_peer(7, "http://new:2".to_string());
    assert_eq!(registry.get_peer(7), Some("http://new:2".to_string()));
    registry.remove_peer(8);
    assert_eq!(registry.get_peer(7), Some("http://new:2".to_string()));
}

#[test]
fn from_config_last_pair_per_id_wins_and_unnamed_ids_are_absent() {
    let registry = PeerRegistry::from_config(&[(1, "a"), (2, "b"), (1, "c"), (3, "d"), (2, "e")]);
    assert_eq!(registry.get_peer(1), Some("c".to_string()));
    assert_eq!(registry.get_peer(2), Some("e".to_string()));
    assert_eq!(registry.get_peer(3), Some("d".to_string()));
    assert_eq!(registry.get_peer(4), None);
}
