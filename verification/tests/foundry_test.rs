//! The volume engine's bookkeeping, errors and snapshot blocks.

use spacemesh::foundry::{
    check_bounds, decimal_text, fallback_backend, needs_resize, replicated_outcome,
    snapshot_ranges, BackendType, Foundry, FoundryError,
};
use spacemesh::reconcile::VolumeId;

#[test]
fn test_error_display() {
    let volume_id = VolumeId::parse("67e55044-10b1-426f-9247-bb680e5fe0c8").unwrap();
    let err = FoundryError::VolumeNotFound(volume_id);
    assert!(err.message().contains("Volume not found"));
    assert_eq!(
        err.message(),
        "Volume not found: VolumeId(67e55044-10b1-426f-9247-bb680e5fe0c8)"
    );

    let err = FoundryError::out_of_bounds(1024, 512, 1000);
    assert_eq!(
        err.message(),
        "Out of bounds: offset=1024, len=512, volume_size=1000"
    );
}

#[test]
fn test_error_constructors() {
    let err = FoundryError::invalid_backend("not available".to_string());
    assert_eq!(err.message(), "Invalid backend type: not available");

    let err = FoundryError::backend_unavailable("SPDK not initialized".to_string());
    assert!(err.message().contains("Backend unavailable"));
}

#[test]
fn test_result_alias() {
    fn returns_error() -> Result<(), FoundryError> {
        Err(FoundryError::ResizeNotSupported)
    }

    let result = returns_error();
    assert!(result.is_err());
    assert_eq!(
        result.unwrap_err().message(),
        "Resize not supported for this backend"
    );
}

#[test]
fn other_error_texts() {
    assert_eq!(
        FoundryError::io_error(7, "disk gone".to_string()).message(),
        "I/O error at offset 7: disk gone"
    );
    assert_eq!(
        FoundryError::device_error("x".to_string()).message(),
        "Device error: x"
    );
    assert_eq!(
        FoundryError::config_error("y".to_string()).message(),
        "Configuration error: y"
    );
    assert_eq!(FoundryError::GcError("z".to_string()).message(), "GC error: z");
    assert_eq!(decimal_text(0), "0");
    assert_eq!(decimal_text(18446744073709551615), "18446744073709551615");
}

#[test]
fn volume_id_text_round_trips() {
    let v = VolumeId(0x0123_4567_89ab_cdef_0011_2233_4455_6677);
    let text = v.to_text();
    assert_eq!(text, "01234567-89ab-cdef-0011-223344556677");
    assert_eq!(VolumeId::parse(&text), Some(v));
}

#[test]
fn catalog_create_get_delete() {
    let mut f = Foundry::new();
    let a = VolumeId(1);
    let b = VolumeId(2);
    assert_eq!(f.plan_create(a, None), Ok(BackendType::Auto));
    f.register(a, BackendType::Legacy).unwrap();
    assert_eq!(f.plan_create(a, None), Err(FoundryError::VolumeExists(a)));
    assert_eq!(f.register(a, BackendType::Magma), Err(FoundryError::VolumeExists(a)));
    assert_eq!(f.get_volume(a), Ok(BackendType::Legacy));
    assert_eq!(f.get_volume(b), Err(FoundryError::VolumeNotFound(b)));
    f.register(b, BackendType::Magma).unwrap();
    assert_eq!(f.list_volumes(), vec![a, b]);
    f.delete_volume(a).unwrap();
    assert_eq!(f.delete_volume(a), Err(FoundryError::VolumeNotFound(a)));
    assert_eq!(f.list_volumes(), vec![b]);
}

#[test]
fn backend_preference_and_fallback() {
    let f = Foundry::new().with_backend(BackendType::Legacy);
    assert_eq!(f.plan_create(VolumeId(9), None), Ok(BackendType::Legacy));
    assert_eq!(
        f.plan_create(VolumeId(9), Some(BackendType::Magma)),
        Ok(BackendType::Magma)
    );
    assert_eq!(fallback_backend(BackendType::Auto), Some(BackendType::Legacy));
    assert_eq!(fallback_backend(BackendType::Magma), None);
    assert_eq!(fallback_backend(BackendType::Legacy), None);
}

#[test]
fn snapshot_blocks_tile_the_volume() {
    assert!(snapshot_ranges(0).is_empty());
    assert_eq!(snapshot_ranges(10), vec![(0, 10)]);
    assert_eq!(
        snapshot_ranges(65536 * 2 + 5),
        vec![(0, 65536), (65536, 65536), (131072, 5)]
    );
    assert!(needs_resize(10, 11));
    assert!(!needs_resize(11, 11));
}

#[test]
fn bounds_check_refuses_reads_past_the_end() {
    assert_eq!(check_bounds(0, 4096, 4096), Ok(()));
    assert_eq!(check_bounds(4000, 100, 4096), Err(FoundryError::out_of_bounds(4000, 100, 4096)));
    assert_eq!(check_bounds(4096, 0, 4096), Ok(()));
}

#[test]
fn replicated_write_needs_both_sides() {
    let local_err = FoundryError::config_error("local".to_string());
    let remote_err = FoundryError::config_error("remote".to_string());
    assert_eq!(replicated_outcome(Ok(()), Ok(())), Ok(()));
    assert_eq!(replicated_outcome(Ok(()), Err(remote_err.clone())), Err(remote_err.clone()));
    assert_eq!(replicated_outcome(Err(local_err.clone()), Err(remote_err)), Err(local_err));
}
