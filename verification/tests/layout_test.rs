//! Cutting capsule data into segments and gathering them into zones.

use spacemesh::layout::{merkle_root, CpuFixed, CpuQuantumReady, MerkleAlgo, ZnsGraphLayout};

#[test]
fn zns_layout_zone_size_in_bytes() {
    let l = ZnsGraphLayout::new(256, 3);
    assert_eq!(l.zone_size(), 256 * 1024 * 1024);
    assert_eq!(l.graph_radius(), 3);
}

#[test]
fn plan_cuts_slices_and_groups_zones() {
    let layout = CpuFixed::new(4);
    let slices = vec![vec![1u8; 6], vec![2u8; 3]];
    let plan = layout.build_plan(&vec![77], &slices);
    assert!(plan.merkle_root.is_none());
    // Segments: [0..4) [4..6) of slice 0, then [6..9) of slice 1.
    // Zone 0 closes with the first (4 bytes); zone 1 with 2 + 3 = 5 bytes.
    assert_eq!(plan.zones.len(), 2);
    assert_eq!(plan.zones[0].id, 0);
    assert_eq!(plan.zones[0].iv_seed, 0);
    assert_eq!(plan.zones[0].segments.len(), 1);
    assert_eq!(plan.zones[1].id, 1);
    let segs = &plan.zones[1].segments;
    assert_eq!(segs.len(), 2);
    assert_eq!((segs[0].offset, segs[0].length), (4, 2));
    assert_eq!((segs[1].offset, segs[1].length), (6, 3));
    assert_eq!(segs[1].capsule_id, 77);
    assert_eq!(
        segs[1].compressed_hash,
        blake3::hash(&[2u8, 2, 2]).as_bytes().to_vec()
    );
}

#[test]
fn last_zone_may_be_short_and_no_capsule_means_zero() {
    let layout = CpuFixed::new(10);
    let plan = layout.build_plan(&vec![], &vec![vec![9u8; 3]]);
    assert_eq!(plan.zones.len(), 1);
    assert_eq!(plan.zones[0].segments[0].length, 3);
    assert_eq!(plan.zones[0].segments[0].capsule_id, 0);
    let empty = layout.build_plan(&vec![1], &vec![]);
    assert!(empty.zones.is_empty());
}

#[test]
fn merkle_root_is_digest_of_joined_slices() {
    let root = merkle_root(&vec![b"ab".to_vec(), b"cd".to_vec()]);
    assert_eq!(root, blake3::hash(b"abcd").as_bytes().to_vec());
}

#[test]
fn fixed_fallback_compatible() {
    let layout = CpuFixed::new(4 * 1024 * 1024);
    let data = vec![0u8; 8 * 1024 * 1024];
    let plan = layout.build_plan(&vec![], &vec![data]);

    assert_eq!(plan.zones.len(), 2);
}

#[test]
fn quantum_ready_plan_is_the_fixed_plan_sealed_with_the_root() {
    let slices = vec![vec![1u8; 6], vec![2u8; 3]];
    let sealed = CpuQuantumReady::new(4, MerkleAlgo::Blake3).synthesize(&vec![5], &slices);
    let plain = CpuFixed::new(4).build_plan(&vec![5], &slices);
    assert_eq!(sealed.zones.len(), plain.zones.len());
    for (a, b) in sealed.zones.iter().zip(plain.zones.iter()) {
        assert_eq!(a.id, b.id);
        assert_eq!(a.segments.len(), b.segments.len());
    }
    let mut joined = vec![1u8; 6];
    joined.extend_from_slice(&[2u8; 3]);
    assert_eq!(sealed.merkle_root, Some(blake3::hash(&joined).as_bytes().to_vec()));
}

#[test]
fn quantum_ready_roots_agree_across_algorithms() {
    let slices = vec![b"ab".to_vec(), b"cd".to_vec()];
    let a = CpuQuantumReady::new(8, MerkleAlgo::Blake3).synthesize(&vec![], &slices);
    let b = CpuQuantumReady::new(8, MerkleAlgo::SphincsPlus).synthesize(&vec![], &slices);
    assert_eq!(a.merkle_root, b.merkle_root);
    assert_eq!(CpuQuantumReady::new(8, MerkleAlgo::SphincsPlus).merkle_algo(), MerkleAlgo::SphincsPlus);
    assert_eq!(a.merkle_root, Some(blake3::hash(b"abcd").as_bytes().to_vec()));
}
