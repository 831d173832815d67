//! The log-structured layout, driven over an in-memory device the way the
//! volume backend drives it over a file.

use spacemesh::magma::{check_checkpoint, BlockHeader, MagmaError, MagmaIndex, ReadPiece, DEFAULT_BLOCK_SIZE};

struct Backend {
    index: MagmaIndex,
    device: Vec<u8>,
}

impl Backend {
    fn new(size: u64) -> Self {
        Backend {
            index: MagmaIndex::new(size, DEFAULT_BLOCK_SIZE),
            device: Vec::new(),
        }
    }

    fn put(&mut self, at: u64, bytes: &[u8]) {
        let at = at as usize;
        if self.device.len() < at + bytes.len() {
            self.device.resize(at + bytes.len(), 0);
        }
        self.device[at..at + bytes.len()].copy_from_slice(bytes);
    }

    fn write_at(&mut self, offset: u64, data: &[u8]) -> Result<(), MagmaError> {
        for w in self.index.plan_write(offset, data.len())? {
            self.put(w.phys_offset, &w.header.to_bytes());
            self.put(
                w.phys_offset + 16,
                &data[w.data_start..w.data_start + w.data_len],
            );
        }
        Ok(())
    }

    fn read_at(&self, offset: u64, len: usize) -> Result<Vec<u8>, MagmaError> {
        let mut out = Vec::new();
        for p in self.index.plan_read(offset, len)? {
            match p {
                ReadPiece::Device { offset, len } => {
                    let o = offset as usize;
                    let mut chunk = vec![0u8; len];
                    for (i, b) in chunk.iter_mut().enumerate() {
                        *b = *self.device.get(o + i).unwrap_or(&0);
                    }
                    out.extend_from_slice(&chunk);
                }
                ReadPiece::Zeros(len) => out.extend(std::iter::repeat(0u8).take(len)),
            }
        }
        Ok(out)
    }
}

#[test]
fn test_magma_backend_init() {
    let b = Backend::new(1024 * 1024);
    assert!(b.index.init(1024 * 1024).is_ok());
    assert_eq!(
        b.index.init(5),
        Err(MagmaError::SizeMismatch {
            expected: 1024 * 1024,
            got: 5
        })
    );
}

#[test]
fn test_magma_backend_write_read() {
    let mut b = Backend::new(1024 * 1024);
    let data = vec![0xAB; 4096];
    b.write_at(512 * 1024, &data).unwrap();
    let block = (512 * 1024) / DEFAULT_BLOCK_SIZE;
    assert!(b.index.lookup(block).is_some());
    assert_eq!(b.read_at(512 * 1024, 4096).unwrap(), data);
}

#[test]
fn test_magma_backend_l2p_mapping() {
    let mut b = Backend::new(1024 * 1024);
    let data = vec![1, 2, 3, 4];
    b.write_at(4096, &data).unwrap();
    assert!(b.index.lookup(1).is_some());
    assert_eq!(b.index.write_head_position(), 20);
    assert_eq!(b.read_at(4096, 4).unwrap(), data);
}

#[test]
fn test_magma_backend_sparse_reads() {
    let mut b = Backend::new(1024 * 1024);
    let data = vec![0xCD; 4096];
    b.write_at(512 * 1024, &data).unwrap();
    assert_eq!(b.read_at(0, 4096).unwrap(), vec![0u8; 4096]);
    assert_eq!(b.read_at(512 * 1024, 4096).unwrap(), data);
}

#[test]
fn test_magma_backend_sequential_writes() {
    let mut b = Backend::new(1024 * 1024);
    b.write_at(0, &[1; 100]).unwrap();
    assert_eq!(b.index.write_head_position(), 116);
    b.write_at(4096, &[2; 200]).unwrap();
    assert_eq!(b.index.write_head_position(), 332);
    b.write_at(8192, &[3; 300]).unwrap();
    assert_eq!(b.index.write_head_position(), 648);
}

#[test]
fn test_magma_backend_overwrite() {
    let mut b = Backend::new(1024 * 1024);
    b.write_at(0, &[0xAA; 4096]).unwrap();
    let data2 = vec![0xBB; 4096];
    b.write_at(0, &data2).unwrap();
    assert_eq!(b.read_at(0, 4096).unwrap(), data2);
    assert_eq!(b.index.lookup(0).unwrap().offset, 4128);
}

#[test]
fn test_magma_backend_bounds_check() {
    let mut b = Backend::new(1024 * 1024);
    assert!(matches!(
        b.read_at(1024 * 1024 - 100, 200),
        Err(MagmaError::OutOfBounds { .. })
    ));
    assert!(matches!(
        b.write_at(1024 * 1024 - 100, &[0xFF; 200]),
        Err(MagmaError::OutOfBounds { .. })
    ));
    assert_eq!(b.index.write_head_position(), 0);
}

#[test]
fn writes_spanning_blocks_are_split() {
    let mut b = Backend::new(1024 * 1024);
    let data: Vec<u8> = (0..10_000u32).map(|x| (x % 253) as u8).collect();
    b.write_at(8192, &data).unwrap();
    // Three blocks: 4096 + 4096 + 1808 bytes, each behind a header.
    assert_eq!(b.index.write_head_position(), 10_000 + 3 * 16);
    assert_eq!(b.index.l2p_entry_count(), 3);
    assert_eq!(b.read_at(8192, 10_000).unwrap(), data);
}

#[test]
fn test_block_header_serialization() {
    let header = BlockHeader::new(42, 4096);
    let bytes = header.to_bytes();
    assert_eq!(&bytes[..4], b"MGMA");
    let parsed = BlockHeader::from_bytes(&bytes).unwrap();
    assert_eq!(parsed.lba, 42);
    assert_eq!(parsed.len, 4096);
}

#[test]
fn test_block_header_validation() {
    let mut bytes = BlockHeader { lba: 1, len: 100 }.to_bytes();
    bytes[0] = 0xFF;
    assert_eq!(BlockHeader::from_bytes(&bytes), Err(MagmaError::InvalidMagic));
    assert_eq!(
        BlockHeader::from_bytes(&bytes[..10]),
        Err(MagmaError::BufferTooSmall)
    );
}

#[test]
fn replay_rebuilds_the_map_from_the_log() {
    let mut b = Backend::new(1024 * 1024);
    b.write_at(0, &[7u8; 100]).unwrap();
    b.write_at(4096, &[8u8; 50]).unwrap();
    let mut fresh = MagmaIndex::new(1024 * 1024, DEFAULT_BLOCK_SIZE);
    loop {
        let at = fresh.write_head_position() as usize;
        let header = b.device.get(at..at + 16);
        if !fresh.replay_header(header) {
            break;
        }
    }
    assert_eq!(fresh.write_head_position(), b.index.write_head_position());
    assert_eq!(fresh.lookup(0), b.index.lookup(0));
    assert_eq!(fresh.lookup(1), b.index.lookup(1));
    assert_eq!(fresh.l2p_entry_count(), 2);
}

#[test]
fn checkpoint_checks() {
    assert!(check_checkpoint(1, 4096, 1, 4096).is_ok());
    assert_eq!(
        check_checkpoint(1, 4096, 2, 4096),
        Err(MagmaError::CheckpointVolumeMismatch)
    );
    assert_eq!(
        check_checkpoint(1, 4096, 1, 512),
        Err(MagmaError::CheckpointBlockSizeMismatch {
            expected: 4096,
            got: 512
        })
    );
    let restored = MagmaIndex::from_checkpoint(
        100,
        4096,
        36,
        &vec![
            (3, spacemesh::magma::PhysicalAddr { offset: 16, len: 4 }),
            (3, spacemesh::magma::PhysicalAddr { offset: 32, len: 4 }),
        ],
    );
    assert_eq!(restored.write_head_position(), 36);
    assert_eq!(restored.lookup(3).unwrap().offset, 32);
}

#[test]
fn checkpoint_entries_restore_the_same_map() {
    let mut index = MagmaIndex::new(64 * 1024, 4096);
    index.plan_write(0, 4096).unwrap();
    index.plan_write(8192, 100).unwrap();
    index.plan_write(0, 10).unwrap();
    let entries = index.checkpoint_entries();
    assert_eq!(entries.len(), index.l2p_entry_count());
    let restored = MagmaIndex::from_checkpoint(
        64 * 1024,
        4096,
        index.write_head_position(),
        &entries,
    );
    for lba in 0..16u64 {
        assert_eq!(restored.lookup(lba), index.lookup(lba));
    }
    assert_eq!(restored.write_head_position(), index.write_head_position());
}

#[test]
fn reads_inside_an_aligned_write_give_the_written_bytes() {
    let mut b = Backend::new(1024 * 1024);
    let data: Vec<u8> = (0..10_000u32).map(|x| (x % 251) as u8).collect();
    b.write_at(4096, &data).unwrap();
    for (pos, len) in [(4096u64, 1usize), (5000, 3000), (8190, 10), (12000, 2096), (14095, 1)] {
        let start = (pos - 4096) as usize;
        assert_eq!(b.read_at(pos, len).unwrap(), data[start..start + len].to_vec());
    }
}

#[test]
fn replaying_the_device_rebuilds_the_map_and_the_log_end() {
    let mut b = Backend::new(1024 * 1024);
    b.write_at(0, &[1; 100]).unwrap();
    b.write_at(4096, &[2; 200]).unwrap();
    b.write_at(0, &[3; 50]).unwrap();
    let head = b.index.write_head_position();
    // Garbage after the last block ends the replay.
    let mut device = b.device.clone();
    device.extend_from_slice(&[0xFF; 20]);
    let mut fresh = MagmaIndex::new(1024 * 1024, DEFAULT_BLOCK_SIZE);
    fresh.replay_log(&device);
    assert_eq!(fresh.write_head_position(), head);
    assert_eq!(fresh.lookup(0), b.index.lookup(0));
    assert_eq!(fresh.lookup(1), b.index.lookup(1));
    assert_eq!(fresh.l2p_entry_count(), b.index.l2p_entry_count());
    // A header cut short at the end of the device is not taken in.
    let mut short = MagmaIndex::new(1024 * 1024, DEFAULT_BLOCK_SIZE);
    short.replay_log(&device[..20]);
    assert_eq!(short.write_head_position(), 116);
    assert!(short.lookup(0).is_some());
    let mut empty = MagmaIndex::new(1024 * 1024, DEFAULT_BLOCK_SIZE);
    empty.replay_log(&[]);
    assert_eq!(empty.write_head_position(), 0);
    assert_eq!(empty.lookup(0), None);
}
