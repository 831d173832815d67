//! Sending segments to remote zones and receiving them.

use spacemesh::capsules::{Capsule, TransferAck};
use spacemesh::transfer::{
    capsule_metadata, collect_segment_acks, hello_outcome, AttemptError,
    join_chunks, receive_segment, secret_accepted, RetryDecision, SegmentChunk, SegmentError,
    WanTransferAgent, DEFAULT_CHUNK_BYTES, DEFAULT_MAX_RETRIES,
};

fn agent(chunk_bytes: usize) -> WanTransferAgent {
    WanTransferAgent {
        chunk_bytes,
        max_retries: 6,
    }
}

#[test]
fn default_agent_settings() {
    let a = WanTransferAgent::default();
    assert_eq!(a.chunk_bytes, 4 * 1024 * 1024);
    assert_eq!(a.max_retries, 6);
    assert_eq!(DEFAULT_CHUNK_BYTES, 4 * 1024 * 1024);
    assert_eq!(DEFAULT_MAX_RETRIES, 6);
}

#[test]
fn chunks_cut_payload_and_carry_digest() {
    let payload: Vec<u8> = (0u8..10).collect();
    let chunks = agent(4).segment_chunks(&"cap-1".to_string(), 3, &payload);
    assert_eq!(chunks.len(), 3);
    assert_eq!(chunks[0].data, vec![0, 1, 2, 3]);
    assert_eq!(chunks[1].data, vec![4, 5, 6, 7]);
    assert_eq!(chunks[2].data, vec![8, 9]);
    let digest = blake3::hash(&payload).as_bytes().to_vec();
    for c in &chunks {
        assert_eq!(c.capsule_id, "cap-1");
        assert_eq!(c.segment_index, 3);
        assert_eq!(c.total_len, 10);
        assert_eq!(c.content_hash, digest);
    }
    assert_eq!(join_chunks(&chunks), payload);
}

#[test]
fn zero_chunk_size_means_one_byte_chunks() {
    let chunks = agent(0).segment_chunks(&"c".to_string(), 0, &[7, 8, 9]);
    assert_eq!(chunks.len(), 3);
    assert_eq!(chunks[2].data, vec![9]);
}

#[test]
fn empty_payload_has_no_chunks() {
    let chunks = agent(4).segment_chunks(&"c".to_string(), 0, &[]);
    assert!(chunks.is_empty());
    assert_eq!(
        receive_segment(&chunks).unwrap_err(),
        SegmentError::MissingCapsuleId
    );
}

#[test]
fn receiver_gets_back_what_was_sent() {
    let payload: Vec<u8> = (0..100u32).map(|x| (x * 7 % 251) as u8).collect();
    let chunks = agent(16).segment_chunks(&"capsule-9".to_string(), 4, &payload);
    let got = receive_segment(&chunks).unwrap();
    assert_eq!(got.capsule_id, "capsule-9");
    assert_eq!(got.segment_index, 4);
    assert_eq!(got.data, payload);
    assert_eq!(got.content_hash, blake3::hash(&payload).as_bytes().to_vec());
}

#[test]
fn receiver_refuses_wrong_length() {
    let payload = vec![1u8, 2, 3, 4];
    let mut chunks = agent(2).segment_chunks(&"c".to_string(), 0, &payload);
    chunks.pop();
    assert_eq!(
        receive_segment(&chunks).unwrap_err(),
        SegmentError::LengthMismatch
    );
}

#[test]
fn receiver_refuses_wrong_digest() {
    let payload = vec![1u8, 2, 3, 4];
    let mut chunks = agent(2).segment_chunks(&"c".to_string(), 0, &payload);
    chunks[1].data = vec![9, 9];
    assert_eq!(
        receive_segment(&chunks).unwrap_err(),
        SegmentError::HashMismatch
    );
    assert_eq!(SegmentError::HashMismatch.message(), "segment hash mismatch");
}

#[test]
fn receiver_uses_first_named_chunk_and_first_announcements() {
    let data = vec![5u8, 6];
    let chunks = vec![
        SegmentChunk {
            capsule_id: String::new(),
            segment_index: 1,
            content_hash: vec![],
            data: vec![5],
            total_len: 0,
        },
        SegmentChunk {
            capsule_id: "named".to_string(),
            segment_index: 2,
            content_hash: vec![],
            data: vec![6],
            total_len: 2,
        },
    ];
    let got = receive_segment(&chunks).unwrap();
    assert_eq!(got.capsule_id, "named");
    assert_eq!(got.segment_index, 2);
    assert_eq!(got.data, data);
}

#[test]
fn retry_schedule() {
    let a = agent(1);
    assert_eq!(
        a.after_failed_attempt(0, 0, 200),
        RetryDecision::Retry {
            wait_ms: 200,
            next_delay_ms: 400
        }
    );
    assert_eq!(
        a.after_failed_attempt(3, 5_000, 6_000),
        RetryDecision::Retry {
            wait_ms: 6_000,
            next_delay_ms: 10_000
        }
    );
    assert_eq!(a.after_failed_attempt(6, 0, 200), RetryDecision::GiveUp);
    assert_eq!(a.after_failed_attempt(1, 120_000, 200), RetryDecision::GiveUp);
}

#[test]
fn secret_check() {
    assert!(secret_accepted(&None, &"anything".to_string()));
    assert!(secret_accepted(&Some("s3".to_string()), &"s3".to_string()));
    assert!(!secret_accepted(&Some("s3".to_string()), &"s4".to_string()));
    assert!(!secret_accepted(&Some("s3".to_string()), &String::new()));
}

#[test]
fn greeting_refusal_stops_the_attempt() {
    assert!(hello_outcome(true, "welcome".to_string()).is_ok());
    match hello_outcome(false, "bad secret".to_string()) {
        Err(AttemptError::HelloRejected(m)) => assert_eq!(m, "bad secret"),
        other => panic!("unexpected {:?}", other),
    }
}

#[test]
fn segment_acks_give_the_remote_ids_or_the_first_refusal() {
    let ack = |ok: bool, id: u64, msg: &str| TransferAck {
        ok,
        segment_id: id,
        message: msg.to_string(),
    };
    let all = vec![ack(true, 7, "stored"), ack(true, 3, "segment already present")];
    assert_eq!(collect_segment_acks(&all).unwrap(), vec![7, 3]);
    let refused = vec![ack(true, 1, "stored"), ack(false, 0, "disk full"), ack(false, 0, "later")];
    match collect_segment_acks(&refused) {
        Err(AttemptError::SegmentRejected(m)) => assert_eq!(m, "disk full"),
        other => panic!("unexpected {:?}", other),
    }
    assert_eq!(collect_segment_acks(&vec![]).unwrap(), Vec::<u64>::new());
}

#[test]
fn capsule_metadata_names_the_capsule_by_its_uuid() {
    let capsule = Capsule {
        id: 0x67e5504410b1426f9247bb680e5fe0c8,
        size: 4096,
        segments: vec![1, 2],
        created_at: 1234,
        deduped_bytes: 512,
    };
    let m = capsule_metadata(&capsule, vec![40, 41]);
    assert_eq!(m.capsule_id, "67e55044-10b1-426f-9247-bb680e5fe0c8");
    assert_eq!((m.size, m.created_at, m.deduped_bytes), (4096, 1234, 512));
    assert_eq!(m.segment_ids, vec![40, 41]);
}
