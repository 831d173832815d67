//! Orchestrator settings and the reconciliation of local volumes.

use spacemesh::orchestrator::OrchestratorConfig;
use spacemesh::reconcile::{ReconcileError, Reconciler, VolumeId};
use spacemesh::registry::{build_create_volume_cmd, build_register_node_cmd, Registry};

#[test]
fn test_default_config() {
    let config = OrchestratorConfig::default();
    assert_eq!(config.gossip_fanout, 8);
    assert_eq!(config.heartbeat_interval_ms, 1000);
    assert_eq!(config.message_ttl, 10);
    assert_eq!(config.signing_key.len(), 32);
    assert_eq!(config.node_id, "node-default");
    assert_eq!(config.listen_addr, "127.0.0.1:9000");
    assert_eq!(config.zone_name, "default-zone");
    assert_eq!(config.max_message_size, 4096);
}

#[test]
fn test_config_builder() {
    let config = OrchestratorConfig::new(
        "test-node".to_string(),
        "127.0.0.1:9001".to_string(),
        "test-zone".to_string(),
    )
    .with_seed_peer("127.0.0.1:9002".to_string())
    .with_fanout(16);

    assert_eq!(config.node_id, "test-node");
    assert_eq!(config.gossip_fanout, 16);
    assert_eq!(config.seed_peers.len(), 1);
}

#[test]
fn test_invalid_signing_key() {
    let result = OrchestratorConfig::default().try_with_signing_key(vec![0u8; 16]);
    assert!(result.is_err());
    let ok = OrchestratorConfig::default()
        .try_with_signing_key(vec![7u8; 32])
        .unwrap();
    assert_eq!(ok.signing_key, vec![7u8; 32]);
}

#[test]
fn gossip_settings_follow_config() {
    let config = OrchestratorConfig::default()
        .with_fanout(3)
        .with_heartbeat_interval(250);
    let g = config.gossip_config();
    assert_eq!(g.fanout, 3);
    assert_eq!(g.heartbeat_interval_ms, 250);
    assert_eq!(g.message_ttl, 10);
    assert!(g.enable_compression && g.enable_encryption);
    assert_eq!(g.signing_key, vec![0u8; 32]);
}

#[test]
fn test_reconciler_construction() {
    let reconciler = Reconciler::new(1);
    assert_eq!(reconciler.node_id(), 1);
    assert_eq!(reconciler.interval_ms(), 5000);
}

#[test]
fn test_reconciler_with_custom_interval() {
    let reconciler = Reconciler::new(1).with_interval(10_000);
    assert_eq!(reconciler.interval_ms(), 10_000);
}

const A: &str = "67e55044-10b1-426f-9247-bb680e5fe0c8";
const B: &str = "a1a2a3a4-b1b2-c1c2-d1d2-d3d4d5d6d7d8";
const C: &str = "00000000-0000-0000-0000-000000000001";

#[test]
fn reconcile_creates_missing_and_deletes_zombies() {
    let mut registry = Registry::new();
    registry.apply(1, &build_register_node_cmd(1, "n1", 1000)).unwrap();
    registry.apply(2, &build_register_node_cmd(2, "n2", 1000)).unwrap();
    registry.apply(3, &build_create_volume_cmd(A, 500, 2, vec![1, 2])).unwrap();
    registry.apply(4, &build_create_volume_cmd(B, 700, 1, vec![2])).unwrap();
    let state = registry.get_state();

    let a = VolumeId::parse(A).unwrap();
    let c = VolumeId::parse(C).unwrap();
    // Node 1 holds C, which it is not assigned, and lacks A.
    let plan = Reconciler::new(1).plan(&state, &vec![c]).unwrap();
    assert_eq!(plan.create, vec![(a, 500)]);
    assert_eq!(plan.delete, vec![c]);

    // Once converged, nothing is left to do.
    let plan = Reconciler::new(1).plan(&state, &vec![a]).unwrap();
    assert!(plan.create.is_empty());
    assert!(plan.delete.is_empty());
}

#[test]
fn reconcile_refuses_invalid_ids_of_assigned_volumes() {
    let mut registry = Registry::new();
    registry.apply(1, &build_create_volume_cmd("not-a-uuid", 1, 1, vec![5])).unwrap();
    let state = registry.get_state();
    match Reconciler::new(5).plan(&state, &vec![]) {
        Err(ReconcileError::InvalidVolumeId(id)) => assert_eq!(id, "not-a-uuid"),
        other => panic!("unexpected {:?}", other),
    }
    // Another node is not concerned by that volume.
    assert!(Reconciler::new(6).plan(&state, &vec![]).is_ok());
}

#[test]
fn volume_id_parsing() {
    assert_eq!(VolumeId::parse(C), Some(VolumeId(1)));
    assert_eq!(VolumeId::parse("xyz"), None);
}
