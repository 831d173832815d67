//! Allocations in flight: replacement, release and expiry.

use spacemesh::pending::PendingAllocations;

#[test]
fn a_second_registration_replaces_the_first() {
    let mut p = PendingAllocations::new();
    p.register_at("v".to_string(), 100, vec![1, 2], 1_000);
    p.register_at("v".to_string(), 40, vec![2], 2_000);
    let all = p.get_all();
    assert_eq!(all.len(), 1);
    assert_eq!(all[0].size_bytes, 40);
    assert_eq!(all[0].node_ids, vec![2]);
    assert_eq!(all[0].created_at, 2_000);
    assert_eq!(p.pending_size_for_node_at(1, 2_000), 0);
    assert_eq!(p.pending_size_for_node_at(2, 2_000), 40);
}

#[test]
fn registering_drops_expired_and_keeps_live_allocations() {
    let mut p = PendingAllocations::new();
    p.register_at("old".to_string(), 5, vec![1], 0);
    p.register_at("live".to_string(), 7, vec![1], 20_000);
    p.register_at("new".to_string(), 9, vec![1], 31_000);
    let mut ids: Vec<String> = p.get_all().iter().map(|a| a.volume_id.clone()).collect();
    ids.sort();
    assert_eq!(ids, vec!["live".to_string(), "new".to_string()]);
}

#[test]
fn release_undoes_a_registration() {
    let mut p = PendingAllocations::new();
    p.register_at("a".to_string(), 10, vec![1], 100);
    let before: Vec<(String, u64)> = p.get_all().iter().map(|a| (a.volume_id.clone(), a.size_bytes)).collect();
    let z1 = p.pending_size_for_node_at(1, 200);
    p.register_at("b".to_string(), 20, vec![1, 3], 200);
    p.release("b");
    let after: Vec<(String, u64)> = p.get_all().iter().map(|a| (a.volume_id.clone(), a.size_bytes)).collect();
    assert_eq!(before, after);
    assert_eq!(p.pending_size_for_node_at(1, 200), z1);
    assert_eq!(p.pending_size_for_node_at(3, 200), 0);
    p.release("never");
    assert_eq!(p.get_all().len(), 1);
}

#[test]
fn cleanup_keeps_only_live_allocations_and_is_stable() {
    let mut p = PendingAllocations::new();
    p.register_at("a".to_string(), 1, vec![1], 0);
    p.register_at("b".to_string(), 2, vec![1], 25_000);
    p.cleanup_expired_at(40_000);
    assert!(!p.has_pending_at("a", 40_000));
    assert!(p.has_pending_at("b", 40_000));
    assert!(!p.has_pending_at("b", 55_000));
    p.cleanup_expired_at(40_000);
    assert_eq!(p.get_all().len(), 1);
}
