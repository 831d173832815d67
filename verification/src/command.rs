//! The registry's replicated commands and their byte encoding.
//!
//! A command is one of four payloads, wrapped in an optional one-of field.
//! The encoding follows the protocol-buffer wire format in its canonical
//! form: fields in ascending number, scalar fields left out when zero,
//! strings left out when empty, repeated integers packed.
//!
//! Field numbers: `Command { register_node = 1, create_volume = 2,
//! delete_volume = 3, move_replica = 4 }`; `RegisterNode { node_id = 1,
//! address = 2, capacity_bytes = 3 }`; `CreateVolume { volume_id = 1,
//! size_bytes = 2, replication_factor = 3, replicas = 4 (packed),
//! source_capsule_id = 5 (optional) }`; `DeleteVolume { volume_id = 1 }`;
//! `MoveReplica { volume_id = 1, from_node = 2, to_node = 3 }`.

use crate::wire::{encode_varint, push_bytes, varint};
use crate::proto::lemma_utf8_roundtrip;
use vstd::prelude::*;
use vstd::utf8::{decode_utf8, encode_utf8, valid_utf8};

verus! {

/// The abstract form of a command payload.
pub enum PayloadView {
    RegisterNode { node_id: u64, address: Seq<char>, capacity_bytes: u64 },
    CreateVolume {
        volume_id: Seq<char>,
        size_bytes: u64,
        replication_factor: u32,
        replicas: Seq<u64>,
        source_capsule_id: Option<Seq<char>>,
    },
    DeleteVolume { volume_id: Seq<char> },
    MoveReplica { volume_id: Seq<char>, from_node: u64, to_node: u64 },
}

/// The abstract form of a command.
pub struct CommandView {
    pub payload: Option<PayloadView>,
}

// ---------------------------------------------------------------------------
// The encoding
// ---------------------------------------------------------------------------

/// The key byte of field `n` with wire type `wt`.
pub open spec fn key(n: nat, wt: nat) -> u8 {
    (n * 8 + wt) as u8
}

/// A length-delimited field: key, length, then the bytes.
pub open spec fn len_prefixed(n: nat, body: Seq<u8>) -> Seq<u8> {
    seq![key(n, 2)] + varint(body.len()) + body
}

/// An integer field, left out when zero.
pub open spec fn uint_field(n: nat, v: nat) -> Seq<u8> {
    if v == 0 {
        Seq::empty()
    } else {
        seq![key(n, 0)] + varint(v)
    }
}

/// A string field in UTF-8, left out when empty.
pub open spec fn string_field(n: nat, s: Seq<char>) -> Seq<u8> {
    if s.len() == 0 {
        Seq::empty()
    } else {
        len_prefixed(n, encode_utf8(s))
    }
}

/// An optional string field: present exactly when set, even if empty.
pub open spec fn optional_string_field(n: nat, o: Option<Seq<char>>) -> Seq<u8> {
    match o {
        Some(s) => len_prefixed(n, encode_utf8(s)),
        None => Seq::empty(),
    }
}

/// Integers as consecutive varints.
pub open spec fn packed_varints(vs: Seq<u64>) -> Seq<u8>
    decreases vs.len(),
{
    if vs.len() == 0 {
        Seq::empty()
    } else {
        varint(vs[0] as nat) + packed_varints(vs.drop_first())
    }
}

/// A packed repeated integer field, left out when empty.
pub open spec fn packed_field(n: nat, vs: Seq<u64>) -> Seq<u8> {
    if vs.len() == 0 {
        Seq::empty()
    } else {
        len_prefixed(n, packed_varints(vs))
    }
}

/// The one-of field number of a payload.
pub open spec fn payload_tag(p: PayloadView) -> nat {
    match p {
        PayloadView::RegisterNode { .. } => 1,
        PayloadView::CreateVolume { .. } => 2,
        PayloadView::DeleteVolume { .. } => 3,
        PayloadView::MoveReplica { .. } => 4,
    }
}

/// The encoded fields of a payload message.
pub open spec fn payload_body(p: PayloadView) -> Seq<u8> {
    match p {
        PayloadView::RegisterNode { node_id, address, capacity_bytes } => uint_field(
            1,
            node_id as nat,
        ) + string_field(2, address) + uint_field(3, capacity_bytes as nat),
        PayloadView::CreateVolume {
            volume_id,
            size_bytes,
            replication_factor,
            replicas,
            source_capsule_id,
        } => string_field(1, volume_id) + uint_field(2, size_bytes as nat) + uint_field(
            3,
            replication_factor as nat,
        ) + packed_field(4, replicas) + optional_string_field(5, source_capsule_id),
        PayloadView::DeleteVolume { volume_id } => string_field(1, volume_id),
        PayloadView::MoveReplica { volume_id, from_node, to_node } => string_field(1, volume_id)
            + uint_field(2, from_node as nat) + uint_field(3, to_node as nat),
    }
}

/// The bytes that encode a command.
pub open spec fn command_bytes(c: CommandView) -> Seq<u8> {
    match c.payload {
        None => Seq::empty(),
        Some(p) => len_prefixed(payload_tag(p), payload_body(p)),
    }
}

// ---------------------------------------------------------------------------
// Executable commands
// ---------------------------------------------------------------------------

/// Adds a node to the cluster topology.
#[derive(Clone, Debug)]
pub struct RegisterNode {
    pub node_id: u64,
    pub address: String,
    pub capacity_bytes: u64,
}

/// Creates a volume on replicas chosen by the leader's scheduler.
#[derive(Clone, Debug)]
pub struct CreateVolume {
    pub volume_id: String,
    pub size_bytes: u64,
    pub replication_factor: u32,
    pub replicas: Vec<u64>,
    pub source_capsule_id: Option<String>,
}

/// Removes a volume.
#[derive(Clone, Debug)]
pub struct DeleteVolume {
    pub volume_id: String,
}

/// Moves one replica of a volume from one node to another.
#[derive(Clone, Debug)]
pub struct MoveReplica {
    pub volume_id: String,
    pub from_node: u64,
    pub to_node: u64,
}

#[derive(Clone, Debug)]
pub enum Payload {
    RegisterNode(RegisterNode),
    CreateVolume(CreateVolume),
    DeleteVolume(DeleteVolume),
    MoveReplica(MoveReplica),
}

/// One entry of the replicated log.
#[derive(Clone, Debug)]
pub struct Command {
    pub payload: Option<Payload>,
}

pub open spec fn opt_string_view(o: Option<String>) -> Option<Seq<char>> {
    match o {
        Some(s) => Some(s@),
        None => None,
    }
}

impl View for Payload {
    type V = PayloadView;

    open spec fn view(&self) -> PayloadView {
        match self {
            Payload::RegisterNode(r) => PayloadView::RegisterNode {
                node_id: r.node_id,
                address: r.address@,
                capacity_bytes: r.capacity_bytes,
            },
            Payload::CreateVolume(c) => PayloadView::CreateVolume {
                volume_id: c.volume_id@,
                size_bytes: c.size_bytes,
                replication_factor: c.replication_factor,
                replicas: c.replicas@,
                source_capsule_id: opt_string_view(c.source_capsule_id),
            },
            Payload::DeleteVolume(d) => PayloadView::DeleteVolume { volume_id: d.volume_id@ },
            Payload::MoveReplica(m) => PayloadView::MoveReplica {
                volume_id: m.volume_id@,
                from_node: m.from_node,
                to_node: m.to_node,
            },
        }
    }
}

impl View for Command {
    type V = CommandView;

    open spec fn view(&self) -> CommandView {
        CommandView {
            payload: match self.payload {
                Some(p) => Some(p@),
                None => None,
            },
        }
    }
}

/// Trusted: `std::string::String::from_utf8` on a copy of `bytes`, which
/// succeeds exactly on well-formed UTF-8 and then holds the decoded text.
#[verifier::external_body]
pub(crate) fn string_from_utf8(bytes: &[u8]) -> (r: Option<String>)
    ensures
        r is Some <==> valid_utf8(bytes@),
        r matches Some(s) ==> s@ == decode_utf8(bytes@),
{
    String::from_utf8(bytes.to_vec()).ok()
}


fn put_len_prefixed(out: &mut Vec<u8>, n: u8, body: &[u8])
    requires
        1 <= n <= 15,
    ensures
        final(out)@ == old(out)@ + len_prefixed(n as nat, body@),
{
    out.push(n * 8 + 2);
    encode_varint(body.len() as u64, out);
    push_bytes(out, body);
    proof {
        assert(old(out)@.push((n * 8 + 2) as u8) + varint(body@.len()) + body@ =~= old(out)@
            + len_prefixed(n as nat, body@));
    }
}

fn put_uint_field(out: &mut Vec<u8>, n: u8, v: u64)
    requires
        1 <= n <= 15,
    ensures
        final(out)@ == old(out)@ + uint_field(n as nat, v as nat),
{
    if v != 0 {
        out.push(n * 8);
        encode_varint(v, out);
        proof {
            assert(old(out)@.push((n * 8) as u8) + varint(v as nat) =~= old(out)@ + uint_field(
                n as nat,
                v as nat,
            ));
        }
    } else {
        proof {
            assert(old(out)@ + uint_field(n as nat, v as nat) =~= old(out)@);
        }
    }
}

fn put_string_field(out: &mut Vec<u8>, n: u8, s: &String)
    requires
        1 <= n <= 15,
    ensures
        final(out)@ == old(out)@ + string_field(n as nat, s@),
{
    let bytes = s.as_str().as_bytes();
    proof {
        lemma_utf8_roundtrip(s@);
    }
    if bytes.len() != 0 {
        put_len_prefixed(out, n, bytes);
    } else {
        proof {
            assert(old(out)@ + string_field(n as nat, s@) =~= old(out)@);
        }
    }
}

fn put_optional_string_field(out: &mut Vec<u8>, n: u8, o: &Option<String>)
    requires
        1 <= n <= 15,
    ensures
        final(out)@ == old(out)@ + optional_string_field(n as nat, opt_string_view(*o)),
{
    match o {
        Some(s) => {
            put_len_prefixed(out, n, s.as_str().as_bytes());
        },
        None => {
            proof {
                assert(old(out)@ + optional_string_field(n as nat, None) =~= old(out)@);
            }
        },
    }
}

fn put_packed_field(out: &mut Vec<u8>, n: u8, vs: &Vec<u64>)
    requires
        1 <= n <= 15,
    ensures
        final(out)@ == old(out)@ + packed_field(n as nat, vs@),
{
    if vs.len() == 0 {
        proof {
            assert(old(out)@ + packed_field(n as nat, vs@) =~= old(out)@);
        }
        return;
    }
    let mut body: Vec<u8> = Vec::new();
    let mut i: usize = 0;
    proof {
        assert(vs@.subrange(0, vs@.len() as int) =~= vs@);
        assert(body@ + packed_varints(vs@) =~= packed_varints(vs@));
    }
    while i < vs.len()
        invariant
            i <= vs@.len(),
            packed_varints(vs@) == body@ + packed_varints(vs@.subrange(i as int, vs@.len() as int)),
        decreases vs@.len() - i,
    {
        proof {
            let rest = vs@.subrange(i as int, vs@.len() as int);
            assert(rest.drop_first() =~= vs@.subrange(i + 1, vs@.len() as int));
            assert(rest[0] == vs@[i as int]);
        }
        let ghost before = body@;
        encode_varint(vs[i], &mut body);
        proof {
            let rest = vs@.subrange(i as int, vs@.len() as int);
            assert(body@ + packed_varints(vs@.subrange(i + 1, vs@.len() as int)) =~= before
                + packed_varints(rest));
        }
        i = i + 1;
    }
    proof {
        assert(packed_varints(vs@.subrange(i as int, vs@.len() as int)) =~= Seq::<u8>::empty());
        assert(body@ + Seq::<u8>::empty() =~= body@);
    }
    put_len_prefixed(out, n, body.as_slice());
}

/// Encodes a command in its canonical wire form.
pub fn encode_command(cmd: &Command) -> (out: Vec<u8>)
    ensures
        out@ == command_bytes(cmd@),
{
    let mut out: Vec<u8> = Vec::new();
    match &cmd.payload {
        None => {
            proof {
                assert(out@ =~= command_bytes(cmd@));
            }
        },
        Some(p) => {
            let mut body: Vec<u8> = Vec::new();
            let tag: u8;
            match p {
                Payload::RegisterNode(r) => {
                    put_uint_field(&mut body, 1, r.node_id);
                    put_string_field(&mut body, 2, &r.address);
                    put_uint_field(&mut body, 3, r.capacity_bytes);
                    tag = 1;
                },
                Payload::CreateVolume(c) => {
                    put_string_field(&mut body, 1, &c.volume_id);
                    put_uint_field(&mut body, 2, c.size_bytes);
                    put_uint_field(&mut body, 3, c.replication_factor as u64);
                    put_packed_field(&mut body, 4, &c.replicas);
                    put_optional_string_field(&mut body, 5, &c.source_capsule_id);
                    tag = 2;
                },
                Payload::DeleteVolume(d) => {
                    put_string_field(&mut body, 1, &d.volume_id);
                    tag = 3;
                },
                Payload::MoveReplica(m) => {
                    put_string_field(&mut body, 1, &m.volume_id);
                    put_uint_field(&mut body, 2, m.from_node);
                    put_uint_field(&mut body, 3, m.to_node);
                    tag = 4;
                },
            }
            proof {
                assert(body@ =~= payload_body(p@));
                assert(tag as nat == payload_tag(p@));
            }
            put_len_prefixed(&mut out, tag, body.as_slice());
            proof {
                assert(out@ =~= command_bytes(cmd@));
            }
        },
    }
    out
}

} // verus!
