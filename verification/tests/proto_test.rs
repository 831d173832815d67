//! Reading commands the way a general protocol-buffer decoder reads them.

use spacemesh::command::{encode_command, Command, CreateVolume, Payload, RegisterNode};
use spacemesh::proto::decode_command;
use spacemesh::registry::{build_create_volume_cmd, build_register_node_cmd, Registry};

fn register(cmd: &Command) -> (u64, String, u64) {
    match &cmd.payload {
        Some(Payload::RegisterNode(r)) => (r.node_id, r.address.clone(), r.capacity_bytes),
        _ => panic!("expected a node registration"),
    }
}

#[test]
fn canonical_commands_read_back() {
    let bytes = build_register_node_cmd(7, "10.0.0.7:4422", 5000);
    let cmd = decode_command(&bytes).unwrap();
    assert_eq!(register(&cmd), (7, "10.0.0.7:4422".to_string(), 5000));
    let bytes = build_create_volume_cmd("vol", 100, 3, vec![4, 300, 9]);
    match decode_command(&bytes).unwrap().payload {
        Some(Payload::CreateVolume(c)) => {
            assert_eq!(c.volume_id, "vol");
            assert_eq!((c.size_bytes, c.replication_factor), (100, 3));
            assert_eq!(c.replicas, vec![4, 300, 9]);
            assert_eq!(c.source_capsule_id, None);
        }
        _ => panic!("expected a volume creation"),
    }
    assert!(decode_command(&[]).unwrap().payload.is_none());
}

#[test]
fn explicit_default_fields_are_read() {
    // RegisterNode { node_id: 0 } with the zero written out.
    let cmd = decode_command(&[0x0a, 0x02, 0x08, 0x00]).unwrap();
    assert_eq!(register(&cmd), (0, String::new(), 0));
    let mut r = Registry::new();
    assert!(r.apply(0, &[0x0a, 0x02, 0x08, 0x00]).is_ok());
    assert_eq!(r.get_state().last_applied_index, 0);
    assert!(r.get_state().nodes.is_empty());
}

#[test]
fn fields_out_of_order_repeated_and_unknown_are_read() {
    // capacity (3) = 9, unknown field 9 (varint), address (2) = "ab",
    // node_id (1) = 1 then again = 2, unknown fixed64 field 10.
    let body: Vec<u8> = vec![
        0x18, 0x09, 0x48, 0x05, 0x12, 0x02, b'a', b'b', 0x08, 0x01, 0x08, 0x02, 0x51, 1, 2, 3, 4, 5,
        6, 7, 8,
    ];
    let mut bytes = vec![0x0a, body.len() as u8];
    bytes.extend_from_slice(&body);
    // An unknown top-level field (number 7, length-delimited) after it.
    bytes.extend_from_slice(&[0x3a, 0x01, 0xff]);
    let cmd = decode_command(&bytes).unwrap();
    assert_eq!(register(&cmd), (2, "ab".to_string(), 9));
}

#[test]
fn non_minimal_varints_and_groups_are_read() {
    // node_id = 1 written as 0x81 0x00; an unknown group (field 6) holding
    // a varint field, closed by its end key.
    let body: Vec<u8> = vec![0x08, 0x81, 0x00, 0x33, 0x08, 0x05, 0x34];
    let mut bytes = vec![0x0a, body.len() as u8];
    bytes.extend_from_slice(&body);
    let cmd = decode_command(&bytes).unwrap();
    assert_eq!(register(&cmd).0, 1);
}

#[test]
fn repeated_integers_gather_packed_and_unpacked_runs() {
    // CreateVolume: replicas 4 unpacked, then packed [5, 6], then 7 unpacked.
    let body: Vec<u8> = vec![0x20, 0x04, 0x22, 0x02, 0x05, 0x06, 0x20, 0x07, 0x0a, 0x01, b'v'];
    let mut bytes = vec![0x12, body.len() as u8];
    bytes.extend_from_slice(&body);
    match decode_command(&bytes).unwrap().payload {
        Some(Payload::CreateVolume(c)) => {
            assert_eq!(c.replicas, vec![4, 5, 6, 7]);
            assert_eq!(c.volume_id, "v");
        }
        _ => panic!("expected a volume creation"),
    }
}

#[test]
fn a_second_payload_of_the_same_kind_merges_and_another_kind_replaces() {
    let first = vec![0x0a, 0x02, 0x08, 0x05];
    let second = vec![0x0a, 0x02, 0x18, 0x09];
    let mut bytes = first.clone();
    bytes.extend_from_slice(&second);
    assert_eq!(register(&decode_command(&bytes).unwrap()), (5, String::new(), 9));
    let delete = vec![0x1a, 0x03, 0x0a, 0x01, b'x'];
    let mut bytes = first.clone();
    bytes.extend_from_slice(&delete);
    assert!(matches!(decode_command(&bytes).unwrap().payload, Some(Payload::DeleteVolume(_))));
}

#[test]
fn malformed_bytes_are_refused() {
    // Truncated length.
    assert!(decode_command(&[0x0a, 0x05, 0x08]).is_none());
    // Field number zero.
    assert!(decode_command(&[0x00, 0x01]).is_none());
    // Wire types 6 and 7 do not exist; an end-group key outside a group.
    assert!(decode_command(&[0x0e]).is_none());
    assert!(decode_command(&[0x0c]).is_none());
    // A payload field carried as an integer.
    assert!(decode_command(&[0x08, 0x01]).is_none());
    // An address that is not UTF-8.
    assert!(decode_command(&[0x0a, 0x03, 0x12, 0x01, 0xff]).is_none());
    // A varint of eleven bytes.
    let mut long = vec![0x08];
    long.extend_from_slice(&[0xff; 10]);
    long.push(0x01);
    assert!(decode_command(&[&[0x0a, long.len() as u8][..], &long[..]].concat()).is_none());
    // A group whose end key names another field.
    assert!(decode_command(&[0x33, 0x3c]).is_none());
}

#[test]
fn encoding_then_decoding_gives_the_command_back() {
    let cmd = Command {
        payload: Some(Payload::CreateVolume(CreateVolume {
            volume_id: "v-1".to_string(),
            size_bytes: u64::MAX,
            replication_factor: u32::MAX,
            replicas: vec![0, 1, u64::MAX],
            source_capsule_id: Some(String::new()),
        })),
    };
    let back = decode_command(&encode_command(&cmd)).unwrap();
    match back.payload {
        Some(Payload::CreateVolume(c)) => {
            assert_eq!(c.volume_id, "v-1");
            assert_eq!(c.size_bytes, u64::MAX);
            assert_eq!(c.replication_factor, u32::MAX);
            assert_eq!(c.replicas, vec![0, 1, u64::MAX]);
            assert_eq!(c.source_capsule_id, Some(String::new()));
        }
        _ => panic!("expected a volume creation"),
    }
    let reg = Command { payload: Some(Payload::RegisterNode(RegisterNode { node_id: 0, address: String::new(), capacity_bytes: 0 })) };
    assert_eq!(register(&decode_command(&encode_command(&reg)).unwrap()), (0, String::new(), 0));
}
