//! Chain replication: framing, the replica's session and the primary's
//! reading of answers.

use spacemesh::reconcile::VolumeId;
use spacemesh::foundry::{BackendType, GcStats};
use spacemesh::replication::{
    decode_frame, encode_frame, handshake_outcome, write_message, write_outcome, ReplicaAction,
    ReplicaSession, ReplicationMessage, ReplicationResponse,
};

#[test]
fn frames_round_trip() {
    let frame = encode_frame(b"hello");
    assert_eq!(frame[..8], [0, 0, 0, 0, 0, 0, 0, 5]);
    let mut buf = frame.clone();
    buf.extend_from_slice(b"rest");
    assert_eq!(decode_frame(&buf), Some((b"hello".to_vec(), 13)));
    assert_eq!(decode_frame(&frame[..10]), None);
    assert_eq!(decode_frame(&frame[..3]), None);
    assert_eq!(decode_frame(&encode_frame(b"")), Some((vec![], 8)));
}

#[test]
fn replica_requires_handshake_before_writes() {
    let mut s = ReplicaSession::new();
    match s.on_message(write_message(4, b"ab")) {
        ReplicaAction::Reply(ReplicationResponse::Error(e)) => assert_eq!(e, "Handshake required"),
        other => panic!("unexpected {:?}", other),
    }
    let id = "00000000-0000-0000-0000-00000000002a".to_string();
    match s.on_message(ReplicationMessage::Handshake { volume_id: id }) {
        ReplicaAction::OpenVolume(v) => {
            assert_eq!(v, VolumeId(42));
            assert!(matches!(s.volume_found(v), ReplicationResponse::Success));
        }
        other => panic!("unexpected {:?}", other),
    }
    match s.on_message(write_message(4, b"ab")) {
        ReplicaAction::Write { volume, offset, data } => {
            assert_eq!(volume, VolumeId(42));
            assert_eq!(offset, 4);
            assert_eq!(data, b"ab".to_vec());
        }
        other => panic!("unexpected {:?}", other),
    }
    assert!(matches!(
        s.on_message(ReplicationMessage::Ack),
        ReplicaAction::Reply(ReplicationResponse::Success)
    ));
}

#[test]
fn replica_rejects_bad_volume_ids() {
    let mut s = ReplicaSession::new();
    match s.on_message(ReplicationMessage::Handshake {
        volume_id: "vol-1".to_string(),
    }) {
        ReplicaAction::RejectVolumeId(v) => assert_eq!(v, "vol-1"),
        other => panic!("unexpected {:?}", other),
    }
    match s.invalid_volume_id(&"bad".to_string()) {
        ReplicationResponse::Error(e) => assert_eq!(e, "Invalid Volume ID: bad"),
        _ => panic!(),
    }
    match s.volume_missing(&"gone".to_string()) {
        ReplicationResponse::Error(e) => assert_eq!(e, "Volume not found: gone"),
        _ => panic!(),
    }
    match s.write_done(Err("disk".to_string())) {
        ReplicationResponse::Error(e) => assert_eq!(e, "disk"),
        _ => panic!(),
    }
}

#[test]
fn primary_reads_answers() {
    assert!(handshake_outcome(ReplicationResponse::Success).is_ok());
    assert_eq!(
        handshake_outcome(ReplicationResponse::Error("x".to_string())).unwrap_err(),
        "Handshake failed: x"
    );
    assert!(write_outcome(ReplicationResponse::Success).is_ok());
    assert_eq!(
        write_outcome(ReplicationResponse::Error("y".to_string())).unwrap_err(),
        "Replica error: y"
    );
}

#[test]
fn defaults() {
    assert_eq!(BackendType::default(), BackendType::Auto);
    let g = GcStats::default();
    assert_eq!((g.blocks_moved, g.bytes_reclaimed, g.duration_ms), (0, 0, 0));
}
