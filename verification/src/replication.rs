//! Chain replication of volume writes: the messages between a primary and
//! its replica, their length-prefixed framing on the wire, what the replica
//! does with each message, and what the primary makes of each answer.

use vstd::prelude::*;
use crate::reconcile::{uuid_parse, VolumeId};
use crate::wire::{push_bytes, push_u64_be, read_u64_be, u64_be};

verus! {

/// Messages from the primary to its replica.
#[derive(Clone, Debug)]
pub enum ReplicationMessage {
    /// Names the volume that the following writes are for.
    Handshake { volume_id: String },
    /// A write to apply.
    Write { offset: u64, data: Vec<u8> },
    Ack,
}

/// The replica's answers.
#[derive(Clone, Debug)]
pub enum ReplicationResponse {
    Success,
    Error(String),
}

// ---------------------------------------------------------------------------
// Framing
// ---------------------------------------------------------------------------

/// A frame on the wire: the payload's length as eight big-endian bytes,
/// then the payload.
pub open spec fn frame(payload: Seq<u8>) -> Seq<u8> {
    u64_be(payload.len() as u64) + payload
}

/// What a frame at the start of `buf` holds, and where it ends; `None`
/// while `buf` does not yet hold a whole frame.
pub open spec fn frame_at(buf: Seq<u8>) -> Option<(Seq<u8>, int)> {
    if buf.len() < 8 {
        None
    } else {
        let n = choose|n: u64| u64_be(n) == buf.subrange(0, 8);
        if buf.len() - 8 < n {
            None
        } else {
            Some((buf.subrange(8, 8 + n), 8 + n))
        }
    }
}

/// The frame that carries `payload`.
pub fn encode_frame(payload: &[u8]) -> (r: Vec<u8>)
    ensures
        r@ == frame(payload@),
{
    let mut out: Vec<u8> = Vec::new();
    push_u64_be(&mut out, payload.len() as u64);
    push_bytes(&mut out, payload);
    out
}

proof fn lemma_u64_be_injective(a: u64, b: u64)
    requires
        u64_be(a) == u64_be(b),
    ensures
        a == b,
{
    assert(u64_be(a)[0] == u64_be(b)[0] && u64_be(a)[1] == u64_be(b)[1] && u64_be(a)[2] == u64_be(
        b,
    )[2] && u64_be(a)[3] == u64_be(b)[3]);
    assert(u64_be(a)[4] == u64_be(b)[4] && u64_be(a)[5] == u64_be(b)[5] && u64_be(a)[6] == u64_be(
        b,
    )[6] && u64_be(a)[7] == u64_be(b)[7]);
    lemma_be_bytes_injective(a, b);
}

proof fn lemma_be_bytes_injective(a: u64, b: u64)
    by (bit_vector)
    requires
        a as u8 == b as u8,
        (a >> 8u64) as u8 == (b >> 8u64) as u8,
        (a >> 16u64) as u8 == (b >> 16u64) as u8,
        (a >> 24u64) as u8 == (b >> 24u64) as u8,
        (a >> 32u64) as u8 == (b >> 32u64) as u8,
        (a >> 40u64) as u8 == (b >> 40u64) as u8,
        (a >> 48u64) as u8 == (b >> 48u64) as u8,
        (a >> 56u64) as u8 == (b >> 56u64) as u8,
    ensures
        a == b,
{
}

/// Reads the frame at the start of `buf`: its payload and its length on
/// the wire, or `None` while `buf` does not hold a whole frame.
pub fn decode_frame(buf: &[u8]) -> (r: Option<(Vec<u8>, usize)>)
    ensures
        match frame_at(buf@) {
            Some((p, e)) => r matches Some((q, f)) && q@ == p && f == e,
            None => r is None,
        },
{
    let n = buf.len();
    if n < 8 {
        return None;
    }
    let len = read_u64_be(buf, 0);
    proof {
        let m = choose|m: u64| u64_be(m) == buf@.subrange(0, 8);
        lemma_u64_be_injective(m, len);
    }
    if ((n - 8) as u64) < len {
        return None;
    }
    let end = 8 + (len as usize);
    let mut payload: Vec<u8> = Vec::new();
    let mut i: usize = 8;
    while i < end
        invariant
            8 <= i <= end,
            end <= buf@.len(),
            payload@ == buf@.subrange(8, i as int),
        decreases end - i,
    {
        proof {
            assert(buf@.subrange(8, i + 1) =~= buf@.subrange(8, i as int).push(buf@[i as int]));
        }
        payload.push(buf[i]);
        i = i + 1;
    }
    Some((payload, end))
}

/// A receiver reads back what a sender framed, whatever follows it.
pub proof fn lemma_frame_round_trip(payload: Seq<u8>, rest: Seq<u8>)
    requires
        payload.len() <= u64::MAX,
    ensures
        frame_at(frame(payload) + rest) == Some((payload, 8 + payload.len() as int)),
{
    let buf = frame(payload) + rest;
    let n = payload.len() as u64;
    assert(buf.subrange(0, 8) =~= u64_be(n));
    let m = choose|m: u64| u64_be(m) == buf.subrange(0, 8);
    lemma_u64_be_injective(m, n);
    assert(buf.subrange(8, 8 + n) =~= payload);
}

// ---------------------------------------------------------------------------
// The replica's side
// ---------------------------------------------------------------------------

/// What the replica does next.
#[derive(Clone, Debug)]
pub enum ReplicaAction {
    /// Look the volume up, then report with `volume_found` or
    /// `volume_missing`.
    OpenVolume(VolumeId),
    /// The handshake named no valid volume id.
    RejectVolumeId(String),
    /// Apply the write to the volume, then report with `write_done`.
    Write { volume: VolumeId, offset: u64, data: Vec<u8> },
    /// Answer the primary.
    Reply(ReplicationResponse),
}

/// One connection from a primary, as the replica sees it.
pub struct ReplicaSession {
    active: Option<VolumeId>,
}

impl ReplicaSession {
    /// The volume that the handshake opened, if any.
    pub closed spec fn volume(self) -> Option<VolumeId> {
        self.active
    }

    pub fn new() -> (r: Self)
        ensures
            r.volume() is None,
    {
        ReplicaSession { active: None }
    }

    /// What to do with a message from the primary: a handshake names the
    /// volume to open; a write goes to the open volume, and is refused
    /// before any handshake; an acknowledgement is answered with `Ok`.
    pub fn on_message(&mut self, msg: ReplicationMessage) -> (r: ReplicaAction)
        ensures
            final(self).volume() == old(self).volume(),
            match msg {
                ReplicationMessage::Handshake { volume_id } => match uuid_parse(volume_id@) {
                    Some(v) => r == ReplicaAction::OpenVolume(VolumeId(v)),
                    None => r matches ReplicaAction::RejectVolumeId(s) && s@ == volume_id@,
                },
                ReplicationMessage::Write { offset, data } => match old(self).volume() {
                    Some(v) => r matches ReplicaAction::Write { volume, offset: o, data: d } && volume
                        == v && o == offset && d@ == data@,
                    None => r matches ReplicaAction::Reply(ReplicationResponse::Error(e)) && e@
                        == "Handshake required"@,
                },
                ReplicationMessage::Ack => r matches ReplicaAction::Reply(ReplicationResponse::Success),
            },
    {
        match msg {
            ReplicationMessage::Handshake { volume_id } => match VolumeId::parse(volume_id.as_str()) {
                Some(v) => ReplicaAction::OpenVolume(v),
                None => ReplicaAction::RejectVolumeId(volume_id),
            },
            ReplicationMessage::Write { offset, data } => match self.active {
                Some(v) => ReplicaAction::Write { volume: v, offset, data },
                None => ReplicaAction::Reply(
                    ReplicationResponse::Error(String::from_str("Handshake required")),
                ),
            },
            ReplicationMessage::Ack => ReplicaAction::Reply(ReplicationResponse::Success),
        }
    }

    /// The volume named by the handshake exists: later writes go to it.
    pub fn volume_found(&mut self, volume: VolumeId) -> (r: ReplicationResponse)
        ensures
            final(self).volume() == Some(volume),
            r matches ReplicationResponse::Success,
    {
        self.active = Some(volume);
        ReplicationResponse::Success
    }

    /// The volume named by the handshake does not exist; `detail` says why.
    pub fn volume_missing(&self, detail: &String) -> (r: ReplicationResponse)
        ensures
            r matches ReplicationResponse::Error(e) && e@ == "Volume not found: "@ + detail@,
    {
        ReplicationResponse::Error(String::from_str("Volume not found: ").concat(detail.as_str()))
    }

    /// The handshake's volume id is not valid; `detail` says why.
    pub fn invalid_volume_id(&self, detail: &String) -> (r: ReplicationResponse)
        ensures
            r matches ReplicationResponse::Error(e) && e@ == "Invalid Volume ID: "@ + detail@,
    {
        ReplicationResponse::Error(String::from_str("Invalid Volume ID: ").concat(detail.as_str()))
    }

    /// The answer to a write: `Ok`, or the write's error.
    pub fn write_done(&self, result: Result<(), String>) -> (r: ReplicationResponse)
        ensures
            match result {
                Ok(()) => r matches ReplicationResponse::Success,
                Err(e) => r matches ReplicationResponse::Error(m) && m@ == e@,
            },
    {
        match result {
            Ok(()) => ReplicationResponse::Success,
            Err(e) => ReplicationResponse::Error(e),
        }
    }
}

// ---------------------------------------------------------------------------
// The primary's side
// ---------------------------------------------------------------------------

/// What the primary makes of the answer to its handshake.
pub fn handshake_outcome(response: ReplicationResponse) -> (r: Result<(), String>)
    ensures
        match response {
            ReplicationResponse::Success => r is Ok,
            ReplicationResponse::Error(e) => r matches Err(m) && m@ == "Handshake failed: "@ + e@,
        },
{
    match response {
        ReplicationResponse::Success => Ok(()),
        ReplicationResponse::Error(e) => Err(String::from_str("Handshake failed: ").concat(e.as_str())),
    }
}

/// What the primary makes of the answer to a write.
pub fn write_outcome(response: ReplicationResponse) -> (r: Result<(), String>)
    ensures
        match response {
            ReplicationResponse::Success => r is Ok,
            ReplicationResponse::Error(e) => r matches Err(m) && m@ == "Replica error: "@ + e@,
        },
{
    match response {
        ReplicationResponse::Success => Ok(()),
        ReplicationResponse::Error(e) => Err(String::from_str("Replica error: ").concat(e.as_str())),
    }
}

/// The message that replicates a write of `data` at `offset`.
pub fn write_message(offset: u64, data: &[u8]) -> (r: ReplicationMessage)
    ensures
        r matches ReplicationMessage::Write { offset: o, data: d } && o == offset && d@ == data@,
{
    let mut d: Vec<u8> = Vec::new();
    push_bytes(&mut d, data);
    ReplicationMessage::Write { offset, data: d }
}

} // verus!
