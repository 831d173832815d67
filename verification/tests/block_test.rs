//! Block volumes: the catalog's checks and bookkeeping, driven here over an
//! in-memory capsule store the way the block service drives them over the
//! capsule registry.

use spacemesh::block::{overwrite, BlockCatalog, BlockError, DEFAULT_BLOCK_SIZE};
use std::collections::HashMap;

struct Harness {
    catalog: BlockCatalog,
    capsules: HashMap<u128, Vec<u8>>,
    next: u128,
    clock: u64,
}

impl Harness {
    fn new() -> Self {
        Harness {
            catalog: BlockCatalog::new(),
            capsules: HashMap::new(),
            next: 1,
            clock: 100,
        }
    }

    fn store(&mut self, bytes: Vec<u8>) -> u128 {
        let id = self.next;
        self.next += 1;
        self.capsules.insert(id, bytes);
        id
    }

    fn create_volume(&mut self, name: &str, size: u64) -> Result<(), BlockError> {
        let len = self.catalog.prepare_create(name, size, DEFAULT_BLOCK_SIZE)?;
        let capsule = self.store(vec![0u8; len]);
        self.clock += 1;
        self.catalog
            .commit_create(name, size, DEFAULT_BLOCK_SIZE, capsule, self.clock)
            .map(|_| ())
    }

    fn write(&mut self, name: &str, offset: u64, data: &[u8]) -> Result<(), BlockError> {
        let ticket = match self.catalog.prepare_write(name, offset, data.len())? {
            Some(t) => t,
            None => return Ok(()),
        };
        let mut buffer = self.capsules[&ticket.capsule_id].clone();
        overwrite(&mut buffer, offset as usize, data);
        let new_capsule = self.store(buffer);
        self.clock += 1;
        let old = self.catalog.commit_write(name, ticket, new_capsule, self.clock)?;
        self.capsules.remove(&old);
        Ok(())
    }

    fn read(&self, name: &str, offset: u64, len: usize) -> Result<Vec<u8>, BlockError> {
        let capsule = self.catalog.check_read(name, offset, len)?;
        let bytes = &self.capsules[&capsule];
        Ok(bytes[offset as usize..offset as usize + len].to_vec())
    }
}

#[test]
fn block_volume_lifecycle() {
    let mut block = Harness::new();

    block.create_volume("vol0", 16 * 1024).unwrap();
    let volume = block.catalog.volume("vol0").unwrap();
    assert_eq!(volume.name(), "vol0");
    assert_eq!(volume.size(), 16 * 1024);
    assert_eq!(volume.block_size(), 4096);

    block.write("vol0", 0, &[0xAA; 4096]).expect("first sector write");
    block.write("vol0", 4096, &[0x55; 4096]).expect("second sector write");

    let read_back = block.read("vol0", 0, 8192).unwrap();
    assert_eq!(&read_back[..4096], &[0xAA; 4096]);
    assert_eq!(&read_back[4096..], &[0x55; 4096]);

    let info = block.catalog.volume("vol0").unwrap();
    assert!(info.version() >= 3);

    let listed = block.catalog.list_volumes();
    assert_eq!(listed.len(), 1);
    assert_eq!(listed[0].name(), "vol0");

    block.catalog.delete_volume("vol0").unwrap();
    assert!(block.read("vol0", 0, 4).is_err());
}

#[test]
fn block_rejects_invalid_names() {
    let mut block = Harness::new();

    assert!(block.create_volume("", 4096).is_err());
    assert!(block.create_volume("bad/name", 4096).is_err());
    assert_eq!(
        block.create_volume("", 4096).unwrap_err(),
        BlockError::EmptyName
    );
    assert_eq!(
        block.create_volume("bad/name", 4096).unwrap_err(),
        BlockError::InvalidName
    );
}

#[test]
fn size_checks_in_order() {
    let c = BlockCatalog::new();
    assert_eq!(c.prepare_create("v", 0, 4096), Err(BlockError::ZeroSize));
    assert_eq!(c.prepare_create("v", 4096, 0), Err(BlockError::ZeroBlockSize));
    assert_eq!(c.prepare_create("v", 5000, 4096), Err(BlockError::UnalignedSize));
    assert_eq!(c.prepare_create("v.1_a-B", 8192, 4096), Ok(8192));
}

#[test]
fn duplicate_names_and_missing_volumes() {
    let mut block = Harness::new();
    block.create_volume("a", 4096).unwrap();
    assert_eq!(
        block.create_volume("a", 4096).unwrap_err(),
        BlockError::AlreadyExists("a".to_string())
    );
    assert_eq!(
        block.catalog.volume("zz").unwrap_err(),
        BlockError::NotFound("zz".to_string())
    );
    assert_eq!(
        BlockError::NotFound("zz".to_string()).message(),
        "Volume not found: zz"
    );
    assert_eq!(
        block.catalog.delete_volume("zz").unwrap_err(),
        BlockError::NotFound("zz".to_string())
    );
}

#[test]
fn volumes_are_listed_in_name_order() {
    let mut block = Harness::new();
    for n in ["m", "b", "z", "a", "B"] {
        block.create_volume(n, 4096).unwrap();
    }
    let names: Vec<String> = block
        .catalog
        .list_volumes()
        .iter()
        .map(|v| v.name().to_string())
        .collect();
    assert_eq!(names, vec!["B", "a", "b", "m", "z"]);
}

#[test]
fn range_checks_and_empty_writes() {
    let mut block = Harness::new();
    block.create_volume("v", 4096).unwrap();
    assert_eq!(block.read("v", 4000, 100).unwrap_err(), BlockError::ReadBeyondEnd);
    assert_eq!(
        block.write("v", 4000, &[1u8; 100]).unwrap_err(),
        BlockError::WriteBeyondEnd
    );
    // An empty write succeeds without even looking the volume up.
    assert!(block.write("missing", 0, &[]).is_ok());
    assert_eq!(block.catalog.volume("v").unwrap().version(), 1);
}

#[test]
fn stale_write_ticket_is_refused() {
    let mut block = Harness::new();
    block.create_volume("v", 4096).unwrap();
    let ticket = block.catalog.prepare_write("v", 0, 1).unwrap().unwrap();
    let first = block.catalog.commit_write("v", ticket, 900, 1).unwrap();
    assert_eq!(first, ticket.capsule_id);
    assert_eq!(
        block.catalog.commit_write("v", ticket, 901, 2).unwrap_err(),
        BlockError::ConcurrentModification
    );
    let v = block.catalog.volume("v").unwrap();
    assert_eq!(v.capsule_id(), 900);
    assert_eq!(v.version(), 2);
    assert_eq!(v.updated_at(), 1);
}

#[test]
fn overwrite_splices_bytes() {
    let mut buf = vec![0u8; 6];
    overwrite(&mut buf, 2, &[7, 8]);
    assert_eq!(buf, vec![0, 0, 7, 8, 0, 0]);
}
