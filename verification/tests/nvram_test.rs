//! The segment log's bookkeeping: appends, reference counts, compaction and
//! transactions, with the bytes kept by the test beside the log.

use spacemesh::nvram::{NvramError, NvramLog, Segment};

fn fresh(id: u64, offset: u64, len: u32) -> Segment {
    Segment { id, offset, len, ref_count: 1, deduplicated: false, access_count: 0, content_hash: None }
}

#[test]
fn append_places_segments_end_to_end() {
    let mut log = NvramLog::new(0);
    let a = log.append(1, 10);
    let b = log.append(2, 5);
    assert_eq!(a, fresh(1, 0, 10));
    assert_eq!(b, fresh(2, 10, 5));
    assert_eq!(log.next_offset(), 15);
    assert_eq!(log.get_segment_metadata(2), Ok(b));
    assert_eq!(log.get_segment_metadata(3), Err(NvramError::NotFound(3)));
    assert_eq!(log.list_segment_ids(), vec![1, 2]);
    assert_eq!(log.used_bytes(), 15);
}

#[test]
fn append_to_a_log_with_bytes_starts_at_its_end() {
    let mut log = NvramLog::new(100);
    let a = log.append(7, 4);
    assert_eq!(a.offset, 100);
    assert_eq!(log.next_offset(), 104);
    // only recorded segments count as used
    assert_eq!(log.used_bytes(), 4);
}

#[test]
fn append_under_a_known_id_replaces_its_record() {
    let mut log = NvramLog::new(0);
    log.append(1, 10);
    log.append(1, 3);
    assert_eq!(log.list_segments(), vec![fresh(1, 10, 3)]);
    assert_eq!(log.next_offset(), 13);
}

#[test]
fn refcounts_go_up_and_down() {
    let mut log = NvramLog::new(0);
    log.append(1, 8);
    let up = log.increment_refcount(1).unwrap();
    assert_eq!(up.ref_count, 2);
    assert!(up.deduplicated);
    assert_eq!(up.access_count, 1);
    let down = log.decrement_refcount(1).unwrap();
    assert_eq!(down.ref_count, 1);
    assert!(!down.deduplicated);
    assert_eq!(down.access_count, 1);
    let zero = log.decrement_refcount(1).unwrap();
    assert_eq!(zero.ref_count, 0);
    assert_eq!(log.decrement_refcount(1), Err(NvramError::AlreadyReleased(1)));
    assert_eq!(log.increment_refcount(9), Err(NvramError::NotFound(9)));
    assert_eq!(log.decrement_refcount(9), Err(NvramError::NotFound(9)));
}

#[test]
fn increment_stops_at_the_largest_count() {
    let mut log = NvramLog::new(0);
    let s = log.append(1, 8);
    log.update_segment_metadata(1, Segment { ref_count: u32::MAX, access_count: u64::MAX, ..s });
    let up = log.increment_refcount(1).unwrap();
    assert_eq!(up.ref_count, u32::MAX);
    assert_eq!(up.access_count, u64::MAX);
}

#[test]
fn remove_forgets_a_segment() {
    let mut log = NvramLog::new(0);
    log.append(1, 2);
    log.append(2, 3);
    assert_eq!(log.remove_segment(1), Some(fresh(1, 0, 2)));
    assert_eq!(log.remove_segment(1), None);
    assert_eq!(log.list_segment_ids(), vec![2]);
    assert_eq!(log.next_offset(), 5);
}

#[test]
fn update_under_another_key_keeps_the_key() {
    let mut log = NvramLog::new(0);
    log.update_segment_metadata(5, fresh(6, 0, 1));
    assert_eq!(log.get_segment_metadata(5), Ok(fresh(6, 0, 1)));
    assert_eq!(log.get_segment_metadata(6), Err(NvramError::NotFound(6)));
}

#[test]
fn restore_records_entries_in_turn() {
    let log = NvramLog::restore(vec![(1, fresh(1, 0, 4)), (2, fresh(2, 4, 4)), (1, fresh(1, 8, 2))], 10);
    assert_eq!(log.list_segments(), vec![fresh(1, 8, 2), fresh(2, 4, 4)]);
    assert_eq!(log.next_offset(), 10);
}

#[test]
fn compaction_keeps_live_segments_packed_in_offset_order() {
    let mut log = NvramLog::new(0);
    log.append(1, 10);
    log.append(2, 20);
    log.append(3, 30);
    log.update_segment_metadata(4, fresh(4, 5, 1));
    log.decrement_refcount(2).unwrap();
    let plan = log.plan_compaction().unwrap();
    let kept: Vec<(u64, u64, u64)> = plan.moves.iter().map(|m| (m.key, m.segment.offset, m.new_offset)).collect();
    assert_eq!(kept, vec![(1, 0, 0), (4, 5, 10), (3, 30, 11)]);
    assert_eq!(plan.new_size, 41);
    assert_eq!(plan.reclaimed, 19);
    let reclaimed = log.compact();
    assert_eq!(reclaimed, 19);
    assert_eq!(log.next_offset(), 41);
    assert_eq!(
        log.list_segments(),
        vec![fresh(1, 0, 10), fresh(4, 10, 1), fresh(3, 11, 30)]
    );
    assert_eq!(log.get_segment_metadata(2), Err(NvramError::NotFound(2)));
}

#[test]
fn compacting_an_empty_log_changes_nothing() {
    let mut log = NvramLog::new(0);
    log.update_segment_metadata(1, Segment { ref_count: 0, ..fresh(1, 0, 3) });
    assert!(log.plan_compaction().is_none());
    assert_eq!(log.compact(), 0);
    assert_eq!(log.list_segment_ids(), vec![1]);
}

#[test]
fn compaction_gives_back_nothing_when_all_is_live() {
    let mut log = NvramLog::new(0);
    log.append(1, 4);
    log.append(2, 4);
    assert_eq!(log.compact(), 0);
    assert_eq!(log.next_offset(), 8);
}

#[test]
fn transaction_commit_records_pending_segments() {
    let mut log = NvramLog::new(50);
    let mut tx = log.begin_transaction();
    let a = tx.append_segment(&mut log, 1, 10).unwrap();
    let b = tx.append_segment(&mut log, 2, 6).unwrap();
    assert_eq!(a, fresh(1, 50, 10));
    assert_eq!(b, fresh(2, 60, 6));
    // the log's end moves as the transaction appends
    assert_eq!(log.next_offset(), 66);
    assert_eq!(log.get_segment_metadata(1), Err(NvramError::NotFound(1)));
    assert_eq!(tx.pending_segment(2), Some(b));
    assert_eq!(tx.pending_segment(3), None);
    tx.commit(&mut log);
    assert!(tx.finalized());
    assert_eq!(log.get_segment_metadata(1), Ok(a));
    assert_eq!(log.get_segment_metadata(2), Ok(b));
    assert_eq!(log.next_offset(), 66);
    assert_eq!(tx.append_segment(&mut log, 3, 1), Err(NvramError::Finalized));
}

#[test]
fn transaction_rollback_restores_the_log_end() {
    let mut log = NvramLog::new(8);
    let mut tx = log.begin_transaction();
    tx.append_segment(&mut log, 1, 10).unwrap();
    assert_eq!(log.next_offset(), 18);
    tx.rollback(&mut log);
    assert!(tx.finalized());
    assert_eq!(log.next_offset(), 8);
    assert_eq!(tx.current_offset(), 8);
    assert!(tx.pending_segments().is_empty());
    assert!(log.list_segment_ids().is_empty());
    // a second rollback or a commit changes nothing
    tx.rollback(&mut log);
    tx.commit(&mut log);
    assert_eq!(log.next_offset(), 8);
}

#[test]
fn failed_write_closes_the_transaction_without_recording() {
    let mut log = NvramLog::new(0);
    let mut tx = log.begin_transaction();
    tx.append_segment(&mut log, 1, 4).unwrap();
    tx.write_failed(&mut log);
    assert!(tx.finalized());
    assert_eq!(log.next_offset(), 0);
    assert!(log.list_segment_ids().is_empty());
}

#[test]
fn empty_commit_only_closes() {
    let mut log = NvramLog::new(3);
    let mut tx = log.begin_transaction();
    tx.commit(&mut log);
    assert!(tx.finalized());
    assert_eq!(log.next_offset(), 3);
}

#[test]
fn set_segment_metadata_keeps_place_and_length() {
    let mut log = NvramLog::new(0);
    let old = log.append(9, 12);
    let mut tx = log.begin_transaction();
    tx.append_segment(&mut log, 1, 5).unwrap();
    let wanted = Segment { id: 77, offset: 999, len: 1, ref_count: 4, deduplicated: true, access_count: 2, content_hash: None };
    // a pending segment
    tx.set_segment_metadata(&mut log, 1, wanted).unwrap();
    assert_eq!(
        tx.pending_segment(1),
        Some(Segment { id: 1, offset: 12, len: 5, ..wanted })
    );
    // a committed segment
    tx.set_segment_metadata(&mut log, 9, wanted).unwrap();
    assert_eq!(
        log.get_segment_metadata(9),
        Ok(Segment { id: 9, offset: old.offset, len: old.len, ..wanted })
    );
    // neither
    assert_eq!(tx.set_segment_metadata(&mut log, 4, wanted), Err(NvramError::NotFound(4)));
    tx.rollback(&mut log);
    assert_eq!(tx.set_segment_metadata(&mut log, 9, wanted), Err(NvramError::Finalized));
}

#[test]
fn with_segment_mut_changes_the_pending_segment() {
    let mut log = NvramLog::new(0);
    let mut tx = log.begin_transaction();
    tx.append_segment(&mut log, 1, 5).unwrap();
    tx.with_segment_mut(1, |s| Segment { ref_count: 3, ..s }).unwrap();
    assert_eq!(tx.pending_segment(1).unwrap().ref_count, 3);
    assert_eq!(tx.with_segment_mut(2, |s| s), Err(NvramError::NotFound(2)));
}
