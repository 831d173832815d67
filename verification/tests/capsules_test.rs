//! The capsule catalog and the bookkeeping of writing, reading, deleting
//! and collecting capsules over the segment log.

use spacemesh::capsules::{
    planned_pieces, read_range_bytes, CatalogError, InMemoryCatalog, Pipeline, RegisterError,
    StoredChunk,
};
use spacemesh::layout::{SegmentRef, Zone, ZonePlan};
use spacemesh::transfer::ReceivedSegment;
use spacemesh::nvram::{NvramLog, Segment};

fn new_id() -> u128 {
    uuid::Uuid::new_v4().as_u128()
}

#[test]
fn catalog_allocate_segment_increments() {
    let mut catalog = InMemoryCatalog::new();
    let s1 = catalog.allocate_segment();
    let s2 = catalog.allocate_segment();
    let s3 = catalog.allocate_segment();
    assert_eq!(s1, 0);
    assert_eq!(s2, 1);
    assert_eq!(s3, 2);
}

#[test]
fn catalog_create_and_lookup_capsule() {
    let mut catalog = InMemoryCatalog::new();
    let id = new_id();
    catalog.create_capsule(id, 100, vec![], 0);

    let capsule = catalog.lookup_capsule(id).unwrap();
    assert_eq!(capsule.id, id);
    assert_eq!(capsule.size, 100);
}

#[test]
fn catalog_lookup_missing_capsule() {
    let catalog = InMemoryCatalog::new();
    let id = new_id();
    let result = catalog.lookup_capsule(id);
    assert!(result.is_err());
}

#[test]
fn catalog_create_with_segments() {
    let mut catalog = InMemoryCatalog::new();
    let id = new_id();
    let seg = catalog.allocate_segment();
    catalog.create_capsule(id, 200, vec![seg], 0);

    let capsule = catalog.lookup_capsule(id).unwrap();
    assert!(capsule.segments.contains(&seg));
}

#[test]
fn catalog_delete_capsule() {
    let mut catalog = InMemoryCatalog::new();
    let id = new_id();
    catalog.create_capsule(id, 50, vec![], 0);
    assert!(catalog.lookup_capsule(id).is_ok());

    catalog.delete_capsule(id).unwrap();
    assert!(catalog.lookup_capsule(id).is_err());
}

#[test]
fn catalog_content_dedup_mapping() {
    let mut catalog = InMemoryCatalog::new();
    let hash = "abababababababababababababababab".to_string();
    let seg = 42;

    // First time: no existing segment for this hash
    let existing = catalog.lookup_content(&hash);
    assert!(existing.is_none());

    // Register content mapping
    catalog.register_content(hash.clone(), seg);

    // Now should find it
    let found = catalog.lookup_content(&hash);
    assert_eq!(found, Some(seg));
}

#[test]
fn catalog_recreate_replaces_and_deregister_checks_segment() {
    let mut catalog = InMemoryCatalog::new();
    catalog.create_capsule(7, 10, vec![1], 0);
    catalog.create_capsule(7, 20, vec![2, 3], 5);
    assert_eq!(catalog.capsules().len(), 1);
    let c = catalog.lookup_capsule(7).unwrap();
    assert_eq!((c.size, c.segments.clone(), c.deduped_bytes), (20, vec![2, 3], 5));
    assert_eq!(catalog.delete_capsule(8).unwrap_err(), CatalogError::CapsuleNotFound(8));

    catalog.register_content("h".to_string(), 4);
    assert!(!catalog.deregister_content(&"h".to_string(), 5));
    assert!(catalog.deregister_content(&"h".to_string(), 4));
    assert!(catalog.content_entries().is_empty());
}

fn chunk(hash: &str, len: usize) -> StoredChunk {
    StoredChunk { hash: hash.to_string(), stored_len: len as u64, payload_len: len }
}

#[test]
fn write_appends_new_content_and_shares_repeated_content() {
    let mut p = Pipeline::new(InMemoryCatalog::new(), NvramLog::new(0));
    let pieces = vec![(0, 4), (4, 4), (8, 2)];
    let chunks = vec![chunk("a", 4), chunk("b", 4), chunk("a", 4)];
    let id = p.write_capsule(10, &pieces, &chunks).unwrap();
    let c = p.catalog.lookup_capsule(id).unwrap();
    assert_eq!(c.segments, vec![0, 1, 0]);
    assert_eq!(c.size, 10);
    assert_eq!(c.deduped_bytes, 4);
    let s0 = p.log.get_segment_metadata(0).unwrap();
    assert_eq!((s0.offset, s0.len, s0.ref_count, s0.deduplicated), (0, 4, 2, true));
    assert_eq!(p.log.get_segment_metadata(1).unwrap().offset, 4);
    assert_eq!(p.log.next_offset(), 8);
    assert_eq!(p.catalog.lookup_content(&"b".to_string()), Some(1));
}

#[test]
fn write_stops_at_a_piece_past_the_data() {
    let mut p = Pipeline::new(InMemoryCatalog::new(), NvramLog::new(0));
    let pieces = vec![(0, 4), (4, 9)];
    let chunks = vec![chunk("a", 4), chunk("b", 9)];
    let r = p.write_capsule(10, &pieces, &chunks);
    assert_eq!(r, Err(CatalogError::PlanBeyondData { end: 13, len: 10 }));
    // the first chunk stays stored; no capsule is recorded
    assert_eq!(p.log.list_segment_ids(), vec![0]);
    assert!(p.catalog.capsules().is_empty());
}

#[test]
fn write_fails_when_the_log_lost_shared_content() {
    let mut catalog = InMemoryCatalog::new();
    catalog.register_content("a".to_string(), 9);
    let mut p = Pipeline::new(catalog, NvramLog::new(0));
    let r = p.write_capsule(4, &vec![(0, 4)], &vec![chunk("a", 4)]);
    assert_eq!(r, Err(CatalogError::SegmentNotFound(9)));
}

#[test]
fn delete_releases_shared_segments_and_drops_the_rest() {
    let mut p = Pipeline::new(InMemoryCatalog::new(), NvramLog::new(0));
    let a = p.write_capsule(8, &vec![(0, 4), (4, 4)], &vec![chunk("x", 4), chunk("y", 4)]).unwrap();
    let b = p.write_capsule(4, &vec![(0, 4)], &vec![chunk("x", 4)]).unwrap();
    assert_eq!(p.log.get_segment_metadata(0).unwrap().ref_count, 2);
    p.delete_capsule(a).unwrap();
    let s0 = p.log.get_segment_metadata(0).unwrap();
    assert_eq!((s0.ref_count, s0.deduplicated), (1, false));
    assert!(p.log.get_segment_metadata(1).is_err());
    assert_eq!(p.catalog.lookup_content(&"y".to_string()), None);
    assert_eq!(p.catalog.lookup_content(&"x".to_string()), Some(0));
    assert!(p.catalog.lookup_capsule(a).is_err());
    p.delete_capsule(b).unwrap();
    assert!(p.log.list_segment_ids().is_empty());
    assert!(p.catalog.content_entries().is_empty());
    assert_eq!(p.delete_capsule(b), Err(CatalogError::CapsuleNotFound(b)));
}

#[test]
fn garbage_collect_removes_unreferenced_and_uncounted_segments() {
    let mut log = NvramLog::new(0);
    log.append(0, 4);
    log.append(1, 4);
    log.append(2, 4);
    let s2 = log.get_segment_metadata(2).unwrap();
    log.update_segment_metadata(2, Segment { ref_count: 0, ..s2 });
    let mut catalog = InMemoryCatalog::new();
    catalog.create_capsule(5, 8, vec![0, 2], 0);
    catalog.register_content("one".to_string(), 1);
    catalog.register_content("zero".to_string(), 0);
    let mut p = Pipeline::new(catalog, log);
    assert_eq!(p.garbage_collect(), 2);
    assert_eq!(p.log.list_segment_ids(), vec![0]);
    assert_eq!(p.catalog.content_entries(), vec![("zero".to_string(), 0)]);
    assert_eq!(p.garbage_collect(), 0);
}

#[test]
fn range_reads_cross_segments() {
    let pieces = vec![vec![1u8, 2, 3], vec![4, 5], vec![6, 7, 8, 9]];
    assert_eq!(read_range_bytes(9, 2, 4, &pieces), vec![3, 4, 5, 6]);
    assert_eq!(read_range_bytes(9, 0, 100, &pieces), vec![1, 2, 3, 4, 5, 6, 7, 8, 9]);
    assert_eq!(read_range_bytes(9, 9, 1, &pieces), Vec::<u8>::new());
    assert_eq!(read_range_bytes(9, 3, 0, &pieces), Vec::<u8>::new());
    // the capsule's size bounds the read
    assert_eq!(read_range_bytes(5, 3, 10, &pieces), vec![4, 5]);
}

#[test]
fn pipeline_range_read_looks_up_the_capsule() {
    let mut p = Pipeline::new(InMemoryCatalog::new(), NvramLog::new(0));
    p.catalog.create_capsule(3, 5, vec![0, 1], 0);
    let pieces = vec![vec![1u8, 2], vec![3, 4, 5]];
    assert_eq!(p.read_range(3, 1, 3, &pieces), Ok(vec![2, 3, 4]));
    assert_eq!(p.read_range(4, 0, 1, &pieces), Err(CatalogError::CapsuleNotFound(4)));
}

#[test]
fn pipeline_whole_read_joins_the_segments() {
    let mut p = Pipeline::new(InMemoryCatalog::new(), NvramLog::new(0));
    p.catalog.create_capsule(3, 5, vec![0, 1], 0);
    let pieces = vec![vec![1u8, 2], vec![], vec![3, 4, 5]];
    assert_eq!(p.read_capsule(3, &pieces), Ok(vec![1, 2, 3, 4, 5]));
    assert_eq!(p.read_capsule(3, &Vec::new()), Ok(Vec::new()));
    assert_eq!(p.read_capsule(9, &pieces), Err(CatalogError::CapsuleNotFound(9)));
}

#[test]
fn planned_pieces_are_ordered_by_offset_stably() {
    let seg = |offset: u64, length: u64| SegmentRef {
        capsule_id: 1,
        offset,
        length,
        compressed_hash: vec![],
    };
    let plan = ZonePlan {
        zones: vec![
            Zone { id: 0, iv_seed: 0, segments: vec![seg(8, 2), seg(0, 4)] },
            Zone { id: 1, iv_seed: 1, segments: vec![seg(4, 4), seg(0, 1)] },
        ],
        merkle_root: None,
    };
    assert_eq!(planned_pieces(&plan), vec![(0, 4), (0, 1), (4, 4), (8, 2)]);
}

#[test]
fn received_segment_is_stored_once_then_shared() {
    let mut p = Pipeline::new(InMemoryCatalog::new(), NvramLog::new(0));
    let mut digest = [0u8; 32];
    digest[0] = 0xab;
    digest[31] = 0x01;
    let seg = ReceivedSegment {
        capsule_id: "c".to_string(),
        segment_index: 0,
        data: vec![7u8; 5],
        content_hash: digest.to_vec(),
    };
    let ack = p.store_received(&seg);
    assert!(ack.ok);
    assert_eq!((ack.segment_id, ack.message.as_str()), (0, "stored"));
    let key = format!("ab{}01", "00".repeat(30));
    assert_eq!(p.catalog.lookup_content(&key), Some(0));
    let stored = p.log.get_segment_metadata(0).unwrap();
    assert_eq!((stored.offset, stored.len, stored.ref_count), (0, 5, 1));
    assert_eq!(stored.content_hash, Some(digest));
    assert_eq!(p.log.next_offset(), 5);
    let again = p.store_received(&seg);
    assert_eq!((again.segment_id, again.message.as_str()), (0, "segment already present"));
    assert_eq!(p.log.get_segment_metadata(0).unwrap().ref_count, 1);
    assert_eq!(p.log.next_offset(), 5);
}

#[test]
fn received_capsule_registration() {
    let mut c = InMemoryCatalog::new();
    let text = "67e55044-10b1-426f-9247-bb680e5fe0c8";
    let ack = c.register_received(text, 10, 1234, vec![3, 4], 2).unwrap();
    assert!(ack.ok && !ack.already_exists);
    assert_eq!(ack.message, "registered");
    let cap = c.lookup_capsule(0x67e5504410b1426f9247bb680e5fe0c8).unwrap();
    assert_eq!((cap.size, cap.created_at, cap.deduped_bytes), (10, 1234, 2));
    assert_eq!(cap.segments, vec![3, 4]);
    let again = c.register_received(text, 99, 1, vec![], 0).unwrap();
    assert!(again.ok && again.already_exists);
    assert_eq!(again.message, "already exists");
    assert_eq!(c.lookup_capsule(0x67e5504410b1426f9247bb680e5fe0c8).unwrap().size, 10);
    assert_eq!(c.register_received("not-a-uuid", 1, 1, vec![], 0).unwrap_err(), RegisterError::InvalidId);
    assert_eq!(c.capsules().len(), 1);
}
