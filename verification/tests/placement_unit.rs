//! Placement: which nodes receive the replicas of a new volume, with and
//! without the allocations still in flight.

use spacemesh::pending::PendingAllocations;
use spacemesh::registry::{ClusterState, NodeMetadata, NodeStatus};
use spacemesh::scheduler::{PlacementRequirements, Scheduler};
use std::collections::HashMap;


#[test]
fn test_select_from_multiple_active_nodes() {
    let mut state = ClusterState::default();

    // Add 3 active nodes with sufficient capacity
    state.nodes.insert(
        1,
        NodeMetadata {
            id: 1,
            address: "10.0.0.1:8080".into(),
            capacity: 1_000_000_000, // 1 GB
            status: NodeStatus::Active,
        },
    );
    state.nodes.insert(
        2,
        NodeMetadata {
            id: 2,
            address: "10.0.0.2:8080".into(),
            capacity: 2_000_000_000, // 2 GB
            status: NodeStatus::Active,
        },
    );
    state.nodes.insert(
        3,
        NodeMetadata {
            id: 3,
            address: "10.0.0.3:8080".into(),
            capacity: 3_000_000_000, // 3 GB
            status: NodeStatus::Active,
        },
    );

    let req = PlacementRequirements {
        size_bytes: 100_000_000, // 100 MB
        replication_factor: 2,
        required_tags: HashMap::new(),
    };

    let result = Scheduler::select_nodes(&state, &req).unwrap();

    assert_eq!(result.len(), 2);
    // Deterministic sort by ID: should select nodes 1 and 2
    assert_eq!(result[0], 1);
    assert_eq!(result[1], 2);
}

#[test]
fn test_filter_dead_nodes() {
    let mut state = ClusterState::default();

    // Node 1: Active, large capacity
    state.nodes.insert(
        1,
        NodeMetadata {
            id: 1,
            address: "10.0.0.1:8080".into(),
            capacity: 1_000_000_000,
            status: NodeStatus::Active,
        },
    );

    // Node 2: Dead (should be filtered out)
    state.nodes.insert(
        2,
        NodeMetadata {
            id: 2,
            address: "10.0.0.2:8080".into(),
            capacity: 1_000_000_000,
            status: NodeStatus::Dead,
        },
    );

    // Node 3: Draining (should be filtered out)
    state.nodes.insert(
        3,
        NodeMetadata {
            id: 3,
            address: "10.0.0.3:8080".into(),
            capacity: 1_000_000_000,
            status: NodeStatus::Draining,
        },
    );

    let req = PlacementRequirements {
        size_bytes: 100_000_000,
        replication_factor: 1,
        required_tags: HashMap::new(),
    };

    let result = Scheduler::select_nodes(&state, &req).unwrap();

    assert_eq!(result.len(), 1);
    assert_eq!(result[0], 1); // Only active node selected
}

#[test]
fn test_filter_insufficient_capacity() {
    let mut state = ClusterState::default();

    // Node with capacity smaller than requested size
    state.nodes.insert(
        1,
        NodeMetadata {
            id: 1,
            address: "10.0.0.1:8080".into(),
            capacity: 50_000_000, // 50 MB (too small)
            status: NodeStatus::Active,
        },
    );

    let req = PlacementRequirements {
        size_bytes: 100_000_000, // 100 MB
        replication_factor: 1,
        required_tags: HashMap::new(),
    };

    let result = Scheduler::select_nodes(&state, &req);

    assert!(result.is_err());
    assert!(result
        .unwrap_err()
        .message()
        .contains("Insufficient eligible nodes"));
}

#[test]
fn test_insufficient_nodes_for_replication_factor() {
    let mut state = ClusterState::default();

    // Only 1 active node
    state.nodes.insert(
        1,
        NodeMetadata {
            id: 1,
            address: "10.0.0.1:8080".into(),
            capacity: 1_000_000_000,
            status: NodeStatus::Active,
        },
    );

    // Request 3 replicas
    let req = PlacementRequirements {
        size_bytes: 100_000_000,
        replication_factor: 3,
        required_tags: HashMap::new(),
    };

    let result = Scheduler::select_nodes(&state, &req);

    assert!(result.is_err());
    assert!(result
        .unwrap_err()
        .message()
        .contains("Needed 3, found 1"));
}

#[test]
fn test_empty_cluster() {
    let state = ClusterState::default(); // No nodes

    let req = PlacementRequirements {
        size_bytes: 100_000_000,
        replication_factor: 1,
        required_tags: HashMap::new(),
    };

    let result = Scheduler::select_nodes(&state, &req);

    assert!(result.is_err());
}

#[test]
fn test_pending_allocations_reduce_available_capacity() {
    let mut state = ClusterState::default();
    let mut pending = PendingAllocations::new();

    // Node with 1 GB capacity
    state.nodes.insert(
        1,
        NodeMetadata {
            id: 1,
            address: "10.0.0.1:8080".into(),
            capacity: 1_000_000_000, // 1 GB
            status: NodeStatus::Active,
        },
    );

    // First request: 500 MB - should succeed
    let req1 = PlacementRequirements {
        size_bytes: 500_000_000,
        replication_factor: 1,
        required_tags: HashMap::new(),
    };
    let result1 = Scheduler::select_nodes_with_pending(&state, &req1, &pending).unwrap();
    assert_eq!(result1, vec![1]);

    // Register pending allocation for first request
    pending.register("vol-1".to_string(), 500_000_000, vec![1]);

    // Second request: 600 MB - should fail (only 500 MB available after pending)
    let req2 = PlacementRequirements {
        size_bytes: 600_000_000,
        replication_factor: 1,
        required_tags: HashMap::new(),
    };
    let result2 = Scheduler::select_nodes_with_pending(&state, &req2, &pending);
    assert!(result2.is_err());
    assert!(result2
        .unwrap_err()
        .message()
        .contains("Insufficient eligible nodes"));

    // Third request: 400 MB - should succeed (500 MB available)
    let req3 = PlacementRequirements {
        size_bytes: 400_000_000,
        replication_factor: 1,
        required_tags: HashMap::new(),
    };
    let result3 = Scheduler::select_nodes_with_pending(&state, &req3, &pending).unwrap();
    assert_eq!(result3, vec![1]);
}

#[test]
fn test_pending_allocations_prefer_nodes_with_more_available() {
    let mut state = ClusterState::default();
    let mut pending = PendingAllocations::new();

    // Node 1: 2 GB capacity
    state.nodes.insert(
        1,
        NodeMetadata {
            id: 1,
            address: "10.0.0.1:8080".into(),
            capacity: 2_000_000_000,
            status: NodeStatus::Active,
        },
    );

    // Node 2: 2 GB capacity
    state.nodes.insert(
        2,
        NodeMetadata {
            id: 2,
            address: "10.0.0.2:8080".into(),
            capacity: 2_000_000_000,
            status: NodeStatus::Active,
        },
    );

    // Add pending allocation on node 1 (1.5 GB pending)
    pending.register("vol-existing".to_string(), 1_500_000_000, vec![1]);

    // Request 1 replica - should prefer node 2 (more available capacity)
    let req = PlacementRequirements {
        size_bytes: 100_000_000,
        replication_factor: 1,
        required_tags: HashMap::new(),
    };

    let result = Scheduler::select_nodes_with_pending(&state, &req, &pending).unwrap();
    // Node 2 has 2 GB available, Node 1 has 0.5 GB available
    // Should prefer node 2 (more available)
    assert_eq!(result, vec![2]);
}

#[test]
fn test_pending_allocations_released_after_commit() {
    let mut pending = PendingAllocations::new();

    // Register allocation
    pending.register("vol-1".to_string(), 500_000_000, vec![1, 2]);

    // Verify it's tracked
    assert!(pending.has_pending("vol-1"));
    assert_eq!(pending.pending_size_for_node(1), 500_000_000);
    assert_eq!(pending.pending_size_for_node(2), 500_000_000);

    // Release allocation
    pending.release("vol-1");

    // Verify it's no longer tracked
    assert!(!pending.has_pending("vol-1"));
    assert_eq!(pending.pending_size_for_node(1), 0);
    assert_eq!(pending.pending_size_for_node(2), 0);
}

#[test]
fn test_concurrent_allocations_prevent_double_spend() {
    let mut state = ClusterState::default();
    let mut pending = PendingAllocations::new();

    // Single node with 1 GB capacity
    state.nodes.insert(
        1,
        NodeMetadata {
            id: 1,
            address: "10.0.0.1:8080".into(),
            capacity: 1_000_000_000, // 1 GB
            status: NodeStatus::Active,
        },
    );

    // Simulate two concurrent requests, each wanting 600 MB
    let req = PlacementRequirements {
        size_bytes: 600_000_000,
        replication_factor: 1,
        required_tags: HashMap::new(),
    };

    // Request A: succeeds, selects node 1
    let result_a = Scheduler::select_nodes_with_pending(&state, &req, &pending).unwrap();
    assert_eq!(result_a, vec![1]);

    // Request A registers pending allocation
    pending.register("vol-a".to_string(), 600_000_000, vec![1]);

    // Request B: fails because node 1 only has 400 MB available after pending
    let result_b = Scheduler::select_nodes_with_pending(&state, &req, &pending);
    assert!(result_b.is_err());

    // After Request A commits, release pending
    pending.release("vol-a");

    // Now Request B (retry) can succeed
    let result_b_retry = Scheduler::select_nodes_with_pending(&state, &req, &pending).unwrap();
    assert_eq!(result_b_retry, vec![1]);
}

