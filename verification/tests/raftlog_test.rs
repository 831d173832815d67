//! The consensus log store: entries by index, the readable range, the hard
//! state, the membership and snapshots. Entries are kept as their encoding;
//! here an entry's payload stands for its encoding.

use spacemesh::raftlog::{ConfState, HardState, Snapshot, SledStorage, StorageError, StoredEntry};

fn entry(index: u64, term: u64, data: &[u8]) -> StoredEntry {
    StoredEntry { index, term, bytes: data.to_vec() }
}

fn conf(voters: Vec<u64>) -> ConfState {
    ConfState::new(voters, vec![])
}

/// Opens the store again from what it holds, as after a restart.
fn reopen(s: &SledStorage) -> SledStorage {
    let entries = s.entries(s.first_index(), s.last_index() + 1, None).unwrap();
    let (hard_state, conf_state) = s.initial_state();
    SledStorage::open(entries, hard_state, conf_state, s.snapshot()).unwrap()
}

#[test]
fn test_new_with_conf_state() {
    let conf_state = conf(vec![1, 2, 3]);

    let storage = SledStorage::new_with_conf_state(conf_state.clone());

    let state = storage.initial_state();
    assert_eq!(state.1, conf_state);
    assert_eq!(storage.first_index(), 1);
    assert_eq!(storage.last_index(), 0);
}

#[test]
fn test_append_and_retrieve_entries() {
    let mut storage = SledStorage::new_with_conf_state(conf(vec![1]));

    let entries = vec![entry(1, 1, b"entry1"), entry(2, 1, b"entry2")];

    storage.append(&entries);

    assert_eq!(storage.first_index(), 1);
    assert_eq!(storage.last_index(), 2);

    let retrieved = storage.entries(1, 3, None).unwrap();
    assert_eq!(retrieved.len(), 2);
    assert_eq!(retrieved[0].bytes, b"entry1");
    assert_eq!(retrieved[1].bytes, b"entry2");
}

#[test]
fn test_persistence_across_restarts() {
    let conf_state = conf(vec![1, 2, 3]);

    // Create storage and write entries
    let mut storage = SledStorage::new_with_conf_state(conf_state);
    storage.append(&vec![entry(1, 1, b"persistent_entry")]);
    storage.set_hardstate(HardState { term: 1, vote: 1, commit: 1 });

    // Reopen and verify
    let storage = reopen(&storage);
    assert_eq!(storage.last_index(), 1);

    let entries = storage.entries(1, 2, None).unwrap();
    assert_eq!(entries.len(), 1);
    assert_eq!(entries[0].bytes, b"persistent_entry");

    let state = storage.initial_state();
    assert_eq!(state.0.term, 1);
    assert_eq!(state.0.vote, 1);
    assert_eq!(state.0.commit, 1);
}

#[test]
fn test_term() {
    let mut storage = SledStorage::new_with_conf_state(conf(vec![1]));

    storage.append(&vec![entry(1, 1, b""), entry(2, 2, b"")]);

    assert_eq!(storage.term(1).unwrap(), 1);
    assert_eq!(storage.term(2).unwrap(), 2);
}

#[test]
fn test_compact() {
    let mut storage = SledStorage::new_with_conf_state(conf(vec![1]));

    let entries: Vec<StoredEntry> = (1..=10).map(|i| entry(i, 1, b"")).collect();
    storage.append(&entries);

    assert_eq!(storage.first_index(), 1);
    assert_eq!(storage.last_index(), 10);

    // Compact entries before index 5
    storage.compact(5);

    assert_eq!(storage.first_index(), 5);
    assert_eq!(storage.last_index(), 10);

    // Entries before 5 should be compacted
    assert!(matches!(storage.entries(1, 5, None), Err(StorageError::Compacted)));

    // Entries from 5 onwards should still be available
    let remaining = storage.entries(5, 11, None).unwrap();
    assert_eq!(remaining.len(), 6);
}

#[test]
fn test_storage_entry_persistence() {
    let conf_state = conf(vec![1, 2, 3]);

    // First create storage and append entries
    let mut storage = SledStorage::new_with_conf_state(conf_state);
    let entries = vec![
        entry(1, 1, b"first_entry"),
        entry(2, 1, b"second_entry"),
        entry(3, 2, b"third_entry"),
    ];
    storage.append(&entries);
    storage.set_hardstate(HardState { term: 2, vote: 1, commit: 3 });

    // Then reopen storage and verify entries
    let storage = reopen(&storage);

    assert_eq!(storage.first_index(), 1);
    assert_eq!(storage.last_index(), 3);

    let entries = storage.entries(1, 4, None).unwrap();
    assert_eq!(entries.len(), 3);
    assert_eq!(entries[0].bytes, b"first_entry");
    assert_eq!(entries[1].bytes, b"second_entry");
    assert_eq!(entries[2].bytes, b"third_entry");
    assert_eq!(entries[2].term, 2);

    let state = storage.initial_state();
    assert_eq!(state.0.term, 2);
    assert_eq!(state.0.vote, 1);
    assert_eq!(state.0.commit, 3);
}

#[test]
fn test_storage_compaction() {
    let mut storage = SledStorage::new_with_conf_state(conf(vec![1]));

    // Append 10 entries
    let entries: Vec<StoredEntry> = (1..=10)
        .map(|i| entry(i, 1, format!("entry_{}", i).as_bytes()))
        .collect();
    storage.append(&entries);

    assert_eq!(storage.first_index(), 1);
    assert_eq!(storage.last_index(), 10);

    // Compact entries before index 6
    storage.compact(6);

    assert_eq!(storage.first_index(), 6);
    assert_eq!(storage.last_index(), 10);

    // Entries before 6 should be compacted
    assert!(matches!(storage.entries(1, 6, None), Err(StorageError::Compacted)));

    // Entries from 6 onwards should still be available
    let remaining = storage.entries(6, 11, None).unwrap();
    assert_eq!(remaining.len(), 5);
    assert_eq!(remaining[0].bytes, b"entry_6");
    assert_eq!(remaining[4].bytes, b"entry_10");
}

#[test]
fn test_storage_entries_max_size() {
    let mut storage = SledStorage::new_with_conf_state(conf(vec![1]));

    // Create entries with large data
    let large_data = vec![0u8; 1000]; // 1KB per entry
    let entries: Vec<StoredEntry> = (1..=10).map(|i| entry(i, 1, &large_data)).collect();

    storage.append(&entries);

    // Request with max_size of 3KB - should get ~3 entries
    let limited = storage.entries(1, 11, Some(3500)).unwrap();

    // Should get at least 1 entry (first entry always included)
    // and likely 3 entries total (~3KB)
    assert!(!limited.is_empty() && limited.len() <= 4);
}

#[test]
fn reads_outside_the_range_are_refused() {
    let mut storage = SledStorage::new_with_conf_state(conf(vec![1]));
    storage.append(&vec![entry(1, 1, b"a"), entry(2, 1, b"b")]);
    assert_eq!(storage.entries(2, 1, None), Err(StorageError::Unavailable));
    assert_eq!(storage.entries(1, 4, None), Err(StorageError::Unavailable));
    assert_eq!(storage.entries(0, 1, None), Err(StorageError::Compacted));
    assert_eq!(storage.term(3), Err(StorageError::Unavailable));
    assert_eq!(storage.entries(2, 2, None), Ok(vec![]));
}

#[test]
fn a_limited_read_gives_at_least_one_entry() {
    let mut storage = SledStorage::new_with_conf_state(conf(vec![1]));
    storage.append(&vec![entry(1, 1, b"abcdef"), entry(2, 1, b"gh")]);
    assert_eq!(storage.entries(1, 3, Some(2)).unwrap().len(), 1);
    assert_eq!(storage.entries(1, 3, Some(8)).unwrap().len(), 2);
}

#[test]
fn a_snapshot_replaces_the_entries() {
    let mut storage = SledStorage::new_with_conf_state(conf(vec![1]));
    storage.append(&vec![entry(1, 1, b"a"), entry(2, 1, b"b")]);
    let snap = Snapshot { data: b"state".to_vec(), index: 7, term: 3, conf_state: conf(vec![4, 5]) };
    storage.apply_snapshot(snap);
    assert_eq!(storage.first_index(), 8);
    assert_eq!(storage.last_index(), 7);
    assert_eq!(storage.term(7), Ok(3));
    assert_eq!(storage.term(5), Err(StorageError::Compacted));
    assert_eq!(storage.initial_state().1.voters, vec![4, 5]);
    assert_eq!(storage.snapshot().data, b"state");
    assert_eq!(storage.entries(8, 8, None), Ok(vec![]));
}

#[test]
fn appending_an_index_again_replaces_its_entry() {
    let mut storage = SledStorage::new_with_conf_state(conf(vec![1]));
    storage.append(&vec![entry(1, 1, b"a"), entry(2, 1, b"b"), entry(3, 1, b"c")]);
    storage.append(&vec![entry(2, 2, b"B")]);
    // the range now ends at the last entry appended
    assert_eq!(storage.last_index(), 2);
    assert_eq!(storage.entries(1, 3, None).unwrap()[1], entry(2, 2, b"B"));
    assert_eq!(storage.term(3), Err(StorageError::Unavailable));
}

#[test]
fn a_missing_entry_inside_the_range_reads_as_compacted() {
    let mut storage = SledStorage::new_with_conf_state(conf(vec![1]));
    storage.append(&vec![entry(1, 1, b"a"), entry(3, 1, b"c")]);
    assert_eq!(storage.entries(1, 4, None), Err(StorageError::Compacted));
    assert_eq!(storage.term(2), Err(StorageError::Compacted));
}
