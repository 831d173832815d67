//! Reading protocol-buffer bytes the way a general decoder (prost) reads
//! them: varints of up to ten bytes, not necessarily minimal; fields in any
//! order, repeated, or given their default values; unknown fields skipped,
//! groups included; a later scalar or string field replacing an earlier
//! one, repeated integers gathered from packed and unpacked runs alike.

use crate::command::{
    command_bytes, key, len_prefixed, optional_string_field, packed_field, packed_varints,
    payload_body, string_field, uint_field, payload_tag, string_from_utf8, Command, CommandView, CreateVolume, DeleteVolume, MoveReplica,
    Payload, PayloadView, RegisterNode,
};
use vstd::prelude::*;
use crate::wire::{occurs_at, varint};
use vstd::utf8::{
    decode_utf8, encode_utf8, encode_utf8_decode_utf8, encode_utf8_valid_utf8, valid_utf8,
};

verus! {

// ---------------------------------------------------------------------------
// Varints
// ---------------------------------------------------------------------------

/// A bound on the value of a varint read from its byte `n` on: the tenth
/// byte may carry one bit only.
pub open spec fn varint_room(n: nat) -> nat
    decreases 10 - n,
{
    if n >= 9 {
        2
    } else {
        128 * varint_room(n + 1)
    }
}

/// The varint whose byte `n` (counting from zero) stands at `pos`: its
/// value and where it ends. Seven bits per byte, least significant first,
/// the high bit set on every byte but the last; at most ten bytes, the
/// tenth below 2.
pub open spec fn pvarint_from(b: Seq<u8>, pos: int, n: nat) -> Option<(nat, int)>
    decreases 10 - n,
{
    if n >= 10 || pos < 0 || pos >= b.len() {
        None
    } else if b[pos] < 128 {
        if n == 9 && b[pos] >= 2 {
            None
        } else {
            Some((b[pos] as nat, pos + 1))
        }
    } else {
        match pvarint_from(b, pos + 1, n + 1) {
            Some((v, e)) => Some(((b[pos] - 128) as nat + 128 * v, e)),
            None => None,
        }
    }
}

/// The varint at `pos`: its value and where it ends.
pub open spec fn pvarint(b: Seq<u8>, pos: int) -> Option<(nat, int)> {
    pvarint_from(b, pos, 0)
}

proof fn lemma_room(n: nat)
    ensures
        varint_room(n) >= 2,
        n <= 8 ==> varint_room(n) >= 256,
    decreases 10 - n,
{
    if n < 9 {
        lemma_room(n + 1);
    }
}

proof fn lemma_pvarint_from_bounds(b: Seq<u8>, pos: int, n: nat)
    ensures
        pvarint_from(b, pos, n) matches Some((v, e)) ==> v < varint_room(n) && pos < e <= b.len(),
    decreases 10 - n,
{
    lemma_room(n);
    if n < 10 && 0 <= pos < b.len() && b[pos] >= 128 {
        lemma_pvarint_from_bounds(b, pos + 1, n + 1);
    }
}

/// A varint's value fits in 64 bits, and it ends past where it starts.
pub proof fn lemma_pvarint_bounds(b: Seq<u8>, pos: int)
    ensures
        pvarint(b, pos) matches Some((v, e)) ==> v <= u64::MAX && pos < e <= b.len(),
{
    lemma_pvarint_from_bounds(b, pos, 0);
    assert(varint_room(0) == 0x1_0000_0000_0000_0000) by {
        reveal_with_fuel(varint_room, 11);
    }
}

fn take_varint_from(b: &[u8], pos: usize, n: u8) -> (r: Option<(u64, usize)>)
    requires
        n <= 10,
    ensures
        match r {
            Some((v, e)) => pvarint_from(b@, pos as int, n as nat) == Some((v as nat, e as int)),
            None => pvarint_from(b@, pos as int, n as nat) is None,
        },
    decreases 10 - n,
{
    if n >= 10 || pos >= b.len() {
        return None;
    }
    let x = b[pos];
    if x < 128 {
        if n == 9 && x >= 2 {
            None
        } else {
            Some((x as u64, pos + 1))
        }
    } else {
        match take_varint_from(b, pos + 1, n + 1) {
            Some((v, e)) => {
                proof {
                    lemma_pvarint_from_bounds(b@, pos as int, n as nat);
                    lemma_pvarint_from_bounds(b@, pos + 1, (n + 1) as nat);
                    lemma_room(n as nat);
                    assert(varint_room(n as nat) <= 0x1_0000_0000_0000_0000) by {
                        lemma_room_top(n as nat);
                    }
                }
                Some(((x - 128) as u64 + 128 * v, e))
            },
            None => None,
        }
    }
}

proof fn lemma_room_top(n: nat)
    ensures
        varint_room(n) <= 0x1_0000_0000_0000_0000,
    decreases n,
{
    if n == 0 {
        assert(varint_room(0) == 0x1_0000_0000_0000_0000) by {
            reveal_with_fuel(varint_room, 11);
        }
    } else {
        lemma_room_top((n - 1) as nat);
        lemma_room(n);
        if n <= 9 {
            assert(varint_room((n - 1) as nat) == 128 * varint_room(n));
        }
    }
}

/// Reads the varint at `pos`.
pub fn take_varint(b: &[u8], pos: usize) -> (r: Option<(u64, usize)>)
    ensures
        match r {
            Some((v, e)) => pvarint(b@, pos as int) == Some((v as nat, e as int)),
            None => pvarint(b@, pos as int) is None,
        },
{
    take_varint_from(b, pos, 0)
}

// ---------------------------------------------------------------------------
// Fields
// ---------------------------------------------------------------------------

/// What a field carries: an integer (wire type 0), bytes (wire type 2), or
/// something a decoder only steps over (fixed-width values and groups).
pub enum WireValue {
    Varint(u64),
    Bytes(Seq<u8>),
    Other,
}

/// A field: its number and what it carries.
pub struct WireField {
    pub tag: nat,
    pub value: WireValue,
}

/// Where a value of wire type `wt` (other than a group) that starts at
/// `p` ends.
pub open spec fn skip_plain(b: Seq<u8>, p: int, wt: nat) -> Option<int> {
    if wt == 0 {
        match pvarint(b, p) {
            Some((_, e)) => Some(e),
            None => None,
        }
    } else if wt == 1 {
        if 0 <= p && p + 8 <= b.len() {
            Some(p + 8)
        } else {
            None
        }
    } else if wt == 2 {
        match pvarint(b, p) {
            Some((n, q)) => if n <= b.len() - q {
                Some(q + n)
            } else {
                None
            },
            None => None,
        }
    } else if wt == 5 {
        if 0 <= p && p + 4 <= b.len() {
            Some(p + 4)
        } else {
            None
        }
    } else {
        None
    }
}

/// Whether a field key is one a decoder takes: it fits in 32 bits, names
/// a field other than zero, and has a wire type that exists (0 to 5).
pub open spec fn key_ok(key: nat) -> bool {
    key <= u32::MAX && key / 8 != 0 && key % 8 <= 5
}

/// Where the group opened with field number `tag` ends, the fields before
/// its closing key at `pos` on skipped; `budget` is the nesting a decoder
/// still allows (it refuses to go deeper).
pub open spec fn skip_group(b: Seq<u8>, pos: int, tag: nat, budget: nat) -> Option<int>
    decreases budget, b.len() - pos,
{
    if budget == 0 || pos < 0 || pos >= b.len() {
        None
    } else {
        match pvarint(b, pos) {
            None => None,
            Some((key, p1)) => if !key_ok(key) {
                None
            } else if key % 8 == 4 {
                if key / 8 == tag {
                    Some(p1)
                } else {
                    None
                }
            } else if budget == 1 {
                None
            } else {
                let inner = if key % 8 == 3 {
                    skip_group(b, p1, key / 8, (budget - 1) as nat)
                } else {
                    skip_plain(b, p1, key % 8)
                };
                match inner {
                    Some(e) => if pos < e <= b.len() {
                        skip_group(b, e, tag, budget)
                    } else {
                        None
                    },
                    None => None,
                }
            }
        }
    }
}

/// The field at `pos` and where it ends; `budget` is the nesting allowed
/// for groups. An end-group key outside a group is refused.
pub open spec fn next_field(b: Seq<u8>, pos: int, budget: nat) -> Option<(WireField, int)> {
    match pvarint(b, pos) {
        None => None,
        Some((key, p1)) => if !key_ok(key) || key % 8 == 4 {
            None
        } else {
            let tag = key / 8;
            let wt = key % 8;
            if wt == 0 {
                match pvarint(b, p1) {
                    Some((v, e)) => Some((WireField { tag, value: WireValue::Varint(v as u64) }, e)),
                    None => None,
                }
            } else if wt == 2 {
                match pvarint(b, p1) {
                    Some((n, q)) => if n <= b.len() - q {
                        Some((WireField { tag, value: WireValue::Bytes(b.subrange(q, q + n)) }, q + n))
                    } else {
                        None
                    },
                    None => None,
                }
            } else if wt == 3 {
                match skip_group(b, p1, tag, budget) {
                    Some(e) => Some((WireField { tag, value: WireValue::Other }, e)),
                    None => None,
                }
            } else {
                match skip_plain(b, p1, wt) {
                    Some(e) => Some((WireField { tag, value: WireValue::Other }, e)),
                    None => None,
                }
            }
        },
    }
}

/// The fields of a message whose bytes are `b[pos..]`, in order.
pub open spec fn field_list(b: Seq<u8>, pos: int, budget: nat) -> Option<Seq<WireField>>
    decreases b.len() - pos,
{
    if pos < 0 || pos >= b.len() {
        if pos == b.len() {
            Some(Seq::empty())
        } else {
            None
        }
    } else {
        match next_field(b, pos, budget) {
            Some((f, e)) => if pos < e <= b.len() {
                match field_list(b, e, budget) {
                    Some(rest) => Some(seq![f] + rest),
                    None => None,
                }
            } else {
                None
            },
            None => None,
        }
    }
}

/// A field as the decoder hands it on: bytes are named by their place.
pub enum ValueRef {
    Varint(u64),
    Bytes(usize, usize),
    Other,
}

pub struct FieldRef {
    pub tag: u64,
    pub value: ValueRef,
}

pub open spec fn field_of(b: Seq<u8>, f: FieldRef) -> WireField {
    WireField {
        tag: f.tag as nat,
        value: match f.value {
            ValueRef::Varint(v) => WireValue::Varint(v),
            ValueRef::Bytes(s, e) => WireValue::Bytes(b.subrange(s as int, e as int)),
            ValueRef::Other => WireValue::Other,
        },
    }
}

/// Bytes named by a field lie within a buffer of `n` bytes.
pub open spec fn ref_within(f: FieldRef, n: nat) -> bool {
    match f.value {
        ValueRef::Bytes(s, t) => s <= t <= n,
        _ => true,
    }
}

pub open spec fn fields_of(b: Seq<u8>, fs: Seq<FieldRef>) -> Seq<WireField> {
    fs.map_values(|f: FieldRef| field_of(b, f))
}

fn take_plain(b: &[u8], p: usize, wt: u64) -> (r: Option<usize>)
    ensures
        match r {
            Some(e) => skip_plain(b@, p as int, wt as nat) == Some(e as int),
            None => skip_plain(b@, p as int, wt as nat) is None,
        },
{
    if wt == 0 {
        match take_varint(b, p) {
            Some((_, e)) => Some(e),
            None => None,
        }
    } else if wt == 1 {
        if p <= b.len() && b.len() - p >= 8 {
            Some(p + 8)
        } else {
            None
        }
    } else if wt == 2 {
        match take_varint(b, p) {
            Some((n, q)) => {
                proof {
                    lemma_pvarint_bounds(b@, p as int);
                }
                if n <= (b.len() - q) as u64 {
                    Some(q + n as usize)
                } else {
                    None
                }
            },
            None => None,
        }
    } else if wt == 5 {
        if p <= b.len() && b.len() - p >= 4 {
            Some(p + 4)
        } else {
            None
        }
    } else {
        None
    }
}

fn take_group(b: &[u8], pos: usize, tag: u64, budget: u32) -> (r: Option<usize>)
    ensures
        match r {
            Some(e) => skip_group(b@, pos as int, tag as nat, budget as nat) == Some(e as int),
            None => skip_group(b@, pos as int, tag as nat, budget as nat) is None,
        },
    decreases budget,
{
    let mut p = pos;
    loop
        invariant
            skip_group(b@, pos as int, tag as nat, budget as nat) == skip_group(
                b@,
                p as int,
                tag as nat,
                budget as nat,
            ),
        decreases b@.len() - p,
    {
        if budget == 0 || p >= b.len() {
            return None;
        }
        let (key, p1) = match take_varint(b, p) {
            Some(x) => x,
            None => return None,
        };
        proof {
            lemma_pvarint_bounds(b@, p as int);
        }
        if !(key <= 0xFFFF_FFFF && key / 8 != 0 && key % 8 <= 5) {
            return None;
        }
        if key % 8 == 4 {
            if key / 8 == tag {
                return Some(p1);
            } else {
                return None;
            }
        }
        if budget == 1 {
            return None;
        }
        let inner = if key % 8 == 3 {
            take_group(b, p1, key / 8, budget - 1)
        } else {
            take_plain(b, p1, key % 8)
        };
        match inner {
            Some(e) => {
                if p < e && e <= b.len() {
                    p = e;
                } else {
                    return None;
                }
            },
            None => return None,
        }
    }
}

fn take_field(b: &[u8], pos: usize, budget: u32) -> (r: Option<(FieldRef, usize)>)
    ensures
        match r {
            Some((f, e)) => next_field(b@, pos as int, budget as nat) == Some((field_of(b@, f), e as int))
                && ref_within(f, b@.len()),
            None => next_field(b@, pos as int, budget as nat) is None,
        },
{
    let (key, p1) = match take_varint(b, pos) {
        Some(x) => x,
        None => return None,
    };
    proof {
        lemma_pvarint_bounds(b@, pos as int);
    }
    if !(key <= 0xFFFF_FFFF && key / 8 != 0 && key % 8 <= 5) || key % 8 == 4 {
        return None;
    }
    let tag = key / 8;
    let wt = key % 8;
    if wt == 0 {
        match take_varint(b, p1) {
            Some((v, e)) => Some((FieldRef { tag, value: ValueRef::Varint(v) }, e)),
            None => None,
        }
    } else if wt == 2 {
        match take_varint(b, p1) {
            Some((n, q)) => {
                proof {
                    lemma_pvarint_bounds(b@, p1 as int);
                }
                if n <= (b.len() - q) as u64 {
                    let e = q + n as usize;
                    Some((FieldRef { tag, value: ValueRef::Bytes(q, e) }, e))
                } else {
                    None
                }
            },
            None => None,
        }
    } else if wt == 3 {
        match take_group(b, p1, tag, budget) {
            Some(e) => Some((FieldRef { tag, value: ValueRef::Other }, e)),
            None => None,
        }
    } else {
        match take_plain(b, p1, wt) {
            Some(e) => Some((FieldRef { tag, value: ValueRef::Other }, e)),
            None => None,
        }
    }
}

/// The fields of the message whose bytes are `b`, in order.
pub fn take_fields(b: &[u8], budget: u32) -> (r: Option<Vec<FieldRef>>)
    ensures
        match r {
            Some(fs) => field_list(b@, 0, budget as nat) == Some(fields_of(b@, fs@)) && forall|i: int|
                0 <= i < fs@.len() ==> ref_within(#[trigger] fs@[i], b@.len()),
            None => field_list(b@, 0, budget as nat) is None,
        },
{
    let mut out: Vec<FieldRef> = Vec::new();
    let mut pos: usize = 0;
    while pos < b.len()
        invariant
            pos <= b@.len(),
            field_list(b@, 0, budget as nat) == match field_list(b@, pos as int, budget as nat) {
                Some(rest) => Some(fields_of(b@, out@) + rest),
                None => None,
            },
            forall|i: int|
                0 <= i < out@.len() ==> ref_within(#[trigger] out@[i], b@.len()),
        decreases b@.len() - pos,
    {
        match take_field(b, pos, budget) {
            Some((f, e)) => {
                if pos < e && e <= b.len() {
                    proof {
                        let ghost before = fields_of(b@, out@);
                        match field_list(b@, e as int, budget as nat) {
                            Some(rest) => {
                                assert(fields_of(b@, out@.push(f)) =~= before.push(field_of(b@, f)));
                                assert(before + (seq![field_of(b@, f)] + rest) =~= before.push(
                                    field_of(b@, f),
                                ) + rest);
                            },
                            None => {},
                        }
                    }
                    out.push(f);
                    pos = e;
                } else {
                    return None;
                }
            },
            None => return None,
        }
    }
    proof {
        assert(fields_of(b@, out@) + Seq::<WireField>::empty() =~= fields_of(b@, out@));
    }
    Some(out)
}

// ---------------------------------------------------------------------------
// Commands
// ---------------------------------------------------------------------------

/// Integers laid end to end as varints in `b[pos..]` (a packed repeated
/// field).
pub open spec fn packed_list(b: Seq<u8>, pos: int) -> Option<Seq<u64>>
    decreases b.len() - pos,
{
    if pos < 0 || pos >= b.len() {
        if pos == b.len() {
            Some(Seq::empty())
        } else {
            None
        }
    } else {
        match pvarint(b, pos) {
            Some((v, e)) => if pos < e <= b.len() {
                match packed_list(b, e) {
                    Some(rest) => Some(seq![v as u64] + rest),
                    None => None,
                }
            } else {
                None
            },
            None => None,
        }
    }
}

/// The text that bytes spell in UTF-8, if they are well formed.
pub open spec fn text_of(s: Seq<u8>) -> Option<Seq<char>> {
    if valid_utf8(s) {
        Some(decode_utf8(s))
    } else {
        None
    }
}

/// What one field does to a payload message: a known field replaces its
/// value (a repeated one adds to it), an unknown one changes nothing, and
/// a known field carried the wrong way, or text that is not UTF-8, is
/// refused.
pub open spec fn payload_step(p: PayloadView, f: WireField) -> Option<PayloadView> {
    match p {
        PayloadView::RegisterNode { node_id, address, capacity_bytes } => if f.tag == 1 {
            match f.value {
                WireValue::Varint(v) => Some(PayloadView::RegisterNode { node_id: v, address, capacity_bytes }),
                _ => None,
            }
        } else if f.tag == 2 {
            match f.value {
                WireValue::Bytes(s) => match text_of(s) {
                    Some(t) => Some(PayloadView::RegisterNode { node_id, address: t, capacity_bytes }),
                    None => None,
                },
                _ => None,
            }
        } else if f.tag == 3 {
            match f.value {
                WireValue::Varint(v) => Some(PayloadView::RegisterNode { node_id, address, capacity_bytes: v }),
                _ => None,
            }
        } else {
            Some(p)
        },
        PayloadView::CreateVolume {
            volume_id,
            size_bytes,
            replication_factor,
            replicas,
            source_capsule_id,
        } => if f.tag == 1 {
            match f.value {
                WireValue::Bytes(s) => match text_of(s) {
                    Some(t) => Some(
                        PayloadView::CreateVolume {
                            volume_id: t,
                            size_bytes,
                            replication_factor,
                            replicas,
                            source_capsule_id,
                        },
                    ),
                    None => None,
                },
                _ => None,
            }
        } else if f.tag == 2 {
            match f.value {
                WireValue::Varint(v) => Some(
                    PayloadView::CreateVolume {
                        volume_id,
                        size_bytes: v,
                        replication_factor,
                        replicas,
                        source_capsule_id,
                    },
                ),
                _ => None,
            }
        } else if f.tag == 3 {
            match f.value {
                WireValue::Varint(v) => Some(
                    PayloadView::CreateVolume {
                        volume_id,
                        size_bytes,
                        replication_factor: v as u32,
                        replicas,
                        source_capsule_id,
                    },
                ),
                _ => None,
            }
        } else if f.tag == 4 {
            match f.value {
                WireValue::Varint(v) => Some(
                    PayloadView::CreateVolume {
                        volume_id,
                        size_bytes,
                        replication_factor,
                        replicas: replicas.push(v),
                        source_capsule_id,
                    },
                ),
                WireValue::Bytes(s) => match packed_list(s, 0) {
                    Some(vs) => Some(
                        PayloadView::CreateVolume {
                            volume_id,
                            size_bytes,
                            replication_factor,
                            replicas: replicas + vs,
                            source_capsule_id,
                        },
                    ),
                    None => None,
                },
                _ => None,
            }
        } else if f.tag == 5 {
            match f.value {
                WireValue::Bytes(s) => match text_of(s) {
                    Some(t) => Some(
                        PayloadView::CreateVolume {
                            volume_id,
                            size_bytes,
                            replication_factor,
                            replicas,
                            source_capsule_id: Some(t),
                        },
                    ),
                    None => None,
                },
                _ => None,
            }
        } else {
            Some(p)
        },
        PayloadView::DeleteVolume { volume_id } => if f.tag == 1 {
            match f.value {
                WireValue::Bytes(s) => match text_of(s) {
                    Some(t) => Some(PayloadView::DeleteVolume { volume_id: t }),
                    None => None,
                },
                _ => None,
            }
        } else {
            Some(p)
        },
        PayloadView::MoveReplica { volume_id, from_node, to_node } => if f.tag == 1 {
            match f.value {
                WireValue::Bytes(s) => match text_of(s) {
                    Some(t) => Some(PayloadView::MoveReplica { volume_id: t, from_node, to_node }),
                    None => None,
                },
                _ => None,
            }
        } else if f.tag == 2 {
            match f.value {
                WireValue::Varint(v) => Some(PayloadView::MoveReplica { volume_id, from_node: v, to_node }),
                _ => None,
            }
        } else if f.tag == 3 {
            match f.value {
                WireValue::Varint(v) => Some(PayloadView::MoveReplica { volume_id, from_node, to_node: v }),
                _ => None,
            }
        } else {
            Some(p)
        },
    }
}

/// The fields applied to a payload message one after another.
pub open spec fn payload_fold(p: PayloadView, fs: Seq<WireField>) -> Option<PayloadView>
    decreases fs.len(),
{
    if fs.len() == 0 {
        Some(p)
    } else {
        match payload_step(p, fs[0]) {
            Some(q) => payload_fold(q, fs.drop_first()),
            None => None,
        }
    }
}

/// A payload message with every field at its default.
pub open spec fn default_payload(tag: nat) -> PayloadView {
    if tag == 1 {
        PayloadView::RegisterNode { node_id: 0, address: Seq::empty(), capacity_bytes: 0 }
    } else if tag == 2 {
        PayloadView::CreateVolume {
            volume_id: Seq::empty(),
            size_bytes: 0,
            replication_factor: 0,
            replicas: Seq::empty(),
            source_capsule_id: None,
        }
    } else if tag == 3 {
        PayloadView::DeleteVolume { volume_id: Seq::empty() }
    } else {
        PayloadView::MoveReplica { volume_id: Seq::empty(), from_node: 0, to_node: 0 }
    }
}

/// The nesting a decoder allows inside a command's payload message.
pub const PAYLOAD_BUDGET: u32 = 99;

/// The nesting a decoder allows at the top of a command.
pub const COMMAND_BUDGET: u32 = 100;

/// What one field of a command does to its payload: a payload field
/// (numbers 1 to 4) is a message merged into the payload when it is of
/// the same kind, and read afresh otherwise; other fields change nothing.
pub open spec fn command_step(acc: Option<PayloadView>, f: WireField) -> Option<Option<PayloadView>> {
    if 1 <= f.tag <= 4 {
        match f.value {
            WireValue::Bytes(s) => match field_list(s, 0, PAYLOAD_BUDGET as nat) {
                Some(fs) => {
                    let start = match acc {
                        Some(p) => if payload_tag(p) == f.tag {
                            p
                        } else {
                            default_payload(f.tag)
                        },
                        None => default_payload(f.tag),
                    };
                    match payload_fold(start, fs) {
                        Some(q) => Some(Some(q)),
                        None => None,
                    }
                },
                None => None,
            },
            _ => None,
        }
    } else {
        Some(acc)
    }
}

pub open spec fn command_fold(acc: Option<PayloadView>, fs: Seq<WireField>) -> Option<Option<PayloadView>>
    decreases fs.len(),
{
    if fs.len() == 0 {
        Some(acc)
    } else {
        match command_step(acc, fs[0]) {
            Some(q) => command_fold(q, fs.drop_first()),
            None => None,
        }
    }
}

/// The command that bytes decode to, if they decode.
pub open spec fn decoded_command(b: Seq<u8>) -> Option<CommandView> {
    match field_list(b, 0, COMMAND_BUDGET as nat) {
        Some(fs) => match command_fold(None, fs) {
            Some(p) => Some(CommandView { payload: p }),
            None => None,
        },
        None => None,
    }
}

fn take_packed(b: &[u8]) -> (r: Option<Vec<u64>>)
    ensures
        match r {
            Some(vs) => packed_list(b@, 0) == Some(vs@),
            None => packed_list(b@, 0) is None,
        },
{
    let mut out: Vec<u64> = Vec::new();
    let mut pos: usize = 0;
    while pos < b.len()
        invariant
            pos <= b@.len(),
            packed_list(b@, 0) == match packed_list(b@, pos as int) {
                Some(rest) => Some(out@ + rest),
                None => None,
            },
        decreases b@.len() - pos,
    {
        match take_varint(b, pos) {
            Some((v, e)) => {
                proof {
                    lemma_pvarint_bounds(b@, pos as int);
                    match packed_list(b@, e as int) {
                        Some(rest) => {
                            assert(out@ + (seq![v] + rest) =~= out@.push(v) + rest);
                        },
                        None => {},
                    }
                }
                out.push(v);
                pos = e;
            },
            None => return None,
        }
    }
    proof {
        assert(out@ + Seq::<u64>::empty() =~= out@);
    }
    Some(out)
}

fn take_text(b: &[u8], s: usize, t: usize) -> (r: Option<String>)
    requires
        s <= t <= b@.len(),
    ensures
        match r {
            Some(x) => text_of(b@.subrange(s as int, t as int)) == Some(x@),
            None => text_of(b@.subrange(s as int, t as int)) is None,
        },
{
    string_from_utf8(vstd::slice::slice_subrange(b, s, t))
}

fn payload_step_exec(b: &[u8], p: Payload, f: &FieldRef) -> (r: Option<Payload>)
    requires
        ref_within(*f, b@.len()),
    ensures
        match r {
            Some(q) => payload_step(p@, field_of(b@, *f)) == Some(q@),
            None => payload_step(p@, field_of(b@, *f)) is None,
        },
{
    match p {
        Payload::RegisterNode(mut m) => {
            if f.tag == 1 {
                match f.value {
                    ValueRef::Varint(v) => {
                        m.node_id = v;
                        Some(Payload::RegisterNode(m))
                    },
                    _ => None,
                }
            } else if f.tag == 2 {
                match f.value {
                    ValueRef::Bytes(s, t) => match take_text(b, s, t) {
                        Some(x) => {
                            m.address = x;
                            Some(Payload::RegisterNode(m))
                        },
                        None => None,
                    },
                    _ => None,
                }
            } else if f.tag == 3 {
                match f.value {
                    ValueRef::Varint(v) => {
                        m.capacity_bytes = v;
                        Some(Payload::RegisterNode(m))
                    },
                    _ => None,
                }
            } else {
                Some(Payload::RegisterNode(m))
            }
        },
        Payload::CreateVolume(mut m) => {
            if f.tag == 1 {
                match f.value {
                    ValueRef::Bytes(s, t) => match take_text(b, s, t) {
                        Some(x) => {
                            m.volume_id = x;
                            Some(Payload::CreateVolume(m))
                        },
                        None => None,
                    },
                    _ => None,
                }
            } else if f.tag == 2 {
                match f.value {
                    ValueRef::Varint(v) => {
                        m.size_bytes = v;
                        Some(Payload::CreateVolume(m))
                    },
                    _ => None,
                }
            } else if f.tag == 3 {
                match f.value {
                    ValueRef::Varint(v) => {
                        m.replication_factor = #[verifier::truncate] (v as u32);
                        Some(Payload::CreateVolume(m))
                    },
                    _ => None,
                }
            } else if f.tag == 4 {
                match f.value {
                    ValueRef::Varint(v) => {
                        m.replicas.push(v);
                        Some(Payload::CreateVolume(m))
                    },
                    ValueRef::Bytes(s, t) => match take_packed(vstd::slice::slice_subrange(b, s, t)) {
                        Some(mut vs) => {
                            m.replicas.append(&mut vs);
                            Some(Payload::CreateVolume(m))
                        },
                        None => None,
                    },
                    _ => None,
                }
            } else if f.tag == 5 {
                match f.value {
                    ValueRef::Bytes(s, t) => match take_text(b, s, t) {
                        Some(x) => {
                            m.source_capsule_id = Some(x);
                            Some(Payload::CreateVolume(m))
                        },
                        None => None,
                    },
                    _ => None,
                }
            } else {
                Some(Payload::CreateVolume(m))
            }
        },
        Payload::DeleteVolume(mut m) => {
            if f.tag == 1 {
                match f.value {
                    ValueRef::Bytes(s, t) => match take_text(b, s, t) {
                        Some(x) => {
                            m.volume_id = x;
                            Some(Payload::DeleteVolume(m))
                        },
                        None => None,
                    },
                    _ => None,
                }
            } else {
                Some(Payload::DeleteVolume(m))
            }
        },
        Payload::MoveReplica(mut m) => {
            if f.tag == 1 {
                match f.value {
                    ValueRef::Bytes(s, t) => match take_text(b, s, t) {
                        Some(x) => {
                            m.volume_id = x;
                            Some(Payload::MoveReplica(m))
                        },
                        None => None,
                    },
                    _ => None,
                }
            } else if f.tag == 2 {
                match f.value {
                    ValueRef::Varint(v) => {
                        m.from_node = v;
                        Some(Payload::MoveReplica(m))
                    },
                    _ => None,
                }
            } else if f.tag == 3 {
                match f.value {
                    ValueRef::Varint(v) => {
                        m.to_node = v;
                        Some(Payload::MoveReplica(m))
                    },
                    _ => None,
                }
            } else {
                Some(Payload::MoveReplica(m))
            }
        },
    }
}

fn payload_fold_exec(b: &[u8], start: Payload, fs: &Vec<FieldRef>) -> (r: Option<Payload>)
    requires
        forall|i: int| 0 <= i < fs@.len() ==> ref_within(#[trigger] fs@[i], b@.len()),
    ensures
        match r {
            Some(q) => payload_fold(start@, fields_of(b@, fs@)) == Some(q@),
            None => payload_fold(start@, fields_of(b@, fs@)) is None,
        },
{
    let ghost all = fields_of(b@, fs@);
    let mut cur = start;
    let mut i: usize = 0;
    proof {
        assert(all.skip(0) =~= all);
    }
    while i < fs.len()
        invariant
            i <= fs@.len(),
            all == fields_of(b@, fs@),
            forall|k: int| 0 <= k < fs@.len() ==> ref_within(#[trigger] fs@[k], b@.len()),
            payload_fold(start@, all) == payload_fold(cur@, all.skip(i as int)),
        decreases fs@.len() - i,
    {
        proof {
            assert(all.skip(i as int)[0] == field_of(b@, fs@[i as int]));
            assert(all.skip(i as int).drop_first() =~= all.skip(i + 1));
        }
        match payload_step_exec(b, cur, &fs[i]) {
            Some(q) => {
                cur = q;
            },
            None => return None,
        }
        i = i + 1;
    }
    proof {
        assert(all.skip(i as int).len() == 0);
    }
    Some(cur)
}

fn default_payload_exec(tag: u64) -> (r: Payload)
    ensures
        r@ == default_payload(tag as nat),
{
    if tag == 1 {
        Payload::RegisterNode(RegisterNode { node_id: 0, address: String::new(), capacity_bytes: 0 })
    } else if tag == 2 {
        Payload::CreateVolume(
            CreateVolume {
                volume_id: String::new(),
                size_bytes: 0,
                replication_factor: 0,
                replicas: Vec::new(),
                source_capsule_id: None,
            },
        )
    } else if tag == 3 {
        Payload::DeleteVolume(DeleteVolume { volume_id: String::new() })
    } else {
        Payload::MoveReplica(MoveReplica { volume_id: String::new(), from_node: 0, to_node: 0 })
    }
}

fn payload_tag_exec(p: &Payload) -> (r: u64)
    ensures
        r == payload_tag(p@),
{
    match p {
        Payload::RegisterNode(_) => 1,
        Payload::CreateVolume(_) => 2,
        Payload::DeleteVolume(_) => 3,
        Payload::MoveReplica(_) => 4,
    }
}

pub open spec fn opt_payload_view(o: Option<Payload>) -> Option<PayloadView> {
    match o {
        Some(p) => Some(p@),
        None => None,
    }
}

/// Decodes a command from its bytes as a general protocol-buffer decoder
/// does (see `decoded_command`): any encoding of a command is read, not
/// only the one `encode_command` writes; bytes that decode to no command
/// give nothing.
#[verifier::rlimit(40)]
pub fn decode_command(data: &[u8]) -> (r: Option<Command>)
    ensures
        match r {
            Some(c) => decoded_command(data@) == Some(c@),
            None => decoded_command(data@) is None,
        },
{
    let fs = match take_fields(data, COMMAND_BUDGET) {
        Some(fs) => fs,
        None => return None,
    };
    let ghost all = fields_of(data@, fs@);
    let mut acc: Option<Payload> = None;
    let mut i: usize = 0;
    proof {
        assert(all.skip(0) =~= all);
    }
    while i < fs.len()
        invariant
            i <= fs@.len(),
            all == fields_of(data@, fs@),
            field_list(data@, 0, COMMAND_BUDGET as nat) == Some(all),
            forall|k: int| 0 <= k < fs@.len() ==> ref_within(#[trigger] fs@[k], data@.len()),
            command_fold(None, all) == command_fold(opt_payload_view(acc), all.skip(i as int)),
        decreases fs@.len() - i,
    {
        proof {
            assert(all.skip(i as int)[0] == field_of(data@, fs@[i as int]));
            assert(all.skip(i as int).drop_first() =~= all.skip(i + 1));
        }
        let f = &fs[i];
        let ghost fv = field_of(data@, *f);
        let ghost rest = all.skip(i as int);
        proof {
            assert(rest.len() > 0);
            assert(rest[0] == fv);
            assert(command_fold(opt_payload_view(acc), rest) == match command_step(
                opt_payload_view(acc),
                fv,
            ) {
                Some(q) => command_fold(q, rest.drop_first()),
                None => None,
            });
        }
        if 1 <= f.tag && f.tag <= 4 {
            match f.value {
                ValueRef::Bytes(s, t) => {
                    let sub = vstd::slice::slice_subrange(data, s, t);
                    let ghost accv = opt_payload_view(acc);
                    proof {
                        assert(fv.value == WireValue::Bytes(sub@));
                        assert(fv.tag == f.tag as nat);
                    }
                    let inner = match take_fields(sub, PAYLOAD_BUDGET) {
                        Some(x) => x,
                        None => {
                            proof {
                                assert(command_step(accv, fv) is None);
                                assert(command_fold(None, all) is None);
                                assert(decoded_command(data@) is None);
                            }
                            return None;
                        },
                    };
                    let start = match acc {
                        Some(p) => if payload_tag_exec(&p) == f.tag {
                            p
                        } else {
                            default_payload_exec(f.tag)
                        },
                        None => default_payload_exec(f.tag),
                    };
                    proof {
                        assert(start@ == match accv {
                            Some(p) => if payload_tag(p) == fv.tag {
                                p
                            } else {
                                default_payload(fv.tag)
                            },
                            None => default_payload(fv.tag),
                        });
                    }
                    match payload_fold_exec(sub, start, &inner) {
                        Some(q) => {
                            acc = Some(q);
                        },
                        None => {
                            proof {
                                assert(command_step(accv, fv) is None);
                                assert(command_fold(None, all) is None);
                                assert(decoded_command(data@) is None);
                            }
                            return None;
                        },
                    }
                },
                _ => {
                    proof {
                        assert(command_step(opt_payload_view(acc), fv) is None);
                        assert(command_fold(None, all) is None);
                    }
                    return None;
                },
            }
        }
        i = i + 1;
    }
    proof {
        assert(all.skip(i as int).len() == 0);
    }
    Some(Command { payload: acc })
}

// ---------------------------------------------------------------------------
// The canonical encoding reads back
// ---------------------------------------------------------------------------

proof fn lemma_occurs_split(b: Seq<u8>, pos: int, a: Seq<u8>, c: Seq<u8>)
    requires
        occurs_at(b, pos, a + c),
    ensures
        occurs_at(b, pos, a),
        occurs_at(b, pos + a.len(), c),
{
    assert(b.subrange(pos, pos + a.len()) =~= (a + c).subrange(0, a.len() as int));
    assert((a + c).subrange(0, a.len() as int) =~= a);
    assert(b.subrange(pos + a.len(), pos + a.len() + c.len()) =~= (a + c).subrange(
        a.len() as int,
        (a + c).len() as int,
    ));
    assert((a + c).subrange(a.len() as int, (a + c).len() as int) =~= c);
}

/// A canonical varint reads back as its value.
proof fn lemma_pvarint_canonical(b: Seq<u8>, pos: int, n: nat, v: nat)
    requires
        occurs_at(b, pos, varint(v)),
        v < varint_room(n),
        n <= 9,
    ensures
        pvarint_from(b, pos, n) == Some((v, pos + varint(v).len())),
    decreases v,
{
    lemma_room(n);
    assert(b[pos] == varint(v)[0]) by {
        assert(b.subrange(pos, pos + varint(v).len())[0] == b[pos]);
    }
    if v < 128 {
        assert(varint(v) == seq![v as u8]);
    } else {
        let rest = varint(v / 128);
        assert(varint(v) == seq![((v % 128) + 128) as u8] + rest);
        if n == 9 {
            assert(false);
        }
        assert(varint_room(n) == 128 * varint_room(n + 1));
        assert(v / 128 < varint_room(n + 1)) by {
            vstd::arithmetic::div_mod::lemma_fundamental_div_mod(v as int, 128);
        }
        lemma_occurs_split(b, pos, seq![((v % 128) + 128) as u8], rest);
        lemma_pvarint_canonical(b, pos + 1, n + 1, v / 128);
        assert((b[pos] - 128) as nat + 128 * (v / 128) == v) by {
            vstd::arithmetic::div_mod::lemma_fundamental_div_mod(v as int, 128);
        }
    }
}

proof fn lemma_pvarint_canonical_u64(b: Seq<u8>, pos: int, v: nat)
    requires
        occurs_at(b, pos, varint(v)),
        v <= u64::MAX,
    ensures
        pvarint(b, pos) == Some((v, pos + varint(v).len())),
{
    assert(varint_room(0) == 0x1_0000_0000_0000_0000) by {
        reveal_with_fuel(varint_room, 11);
    }
    lemma_pvarint_canonical(b, pos, 0, v);
}

/// A field as the canonical encoder writes it.
pub open spec fn field_bytes(f: WireField) -> Seq<u8> {
    match f.value {
        WireValue::Varint(v) => seq![key(f.tag, 0)] + varint(v as nat),
        WireValue::Bytes(s) => len_prefixed(f.tag, s),
        WireValue::Other => Seq::empty(),
    }
}

/// Fields as the canonical encoder writes them, one after another.
pub open spec fn fields_bytes(fs: Seq<WireField>) -> Seq<u8>
    decreases fs.len(),
{
    if fs.len() == 0 {
        Seq::empty()
    } else {
        field_bytes(fs[0]) + fields_bytes(fs.drop_first())
    }
}

/// Fields the canonical encoder writes: small numbers, integers or bytes.
pub open spec fn plain_fields(fs: Seq<WireField>) -> bool {
    forall|i: int|
        0 <= i < fs.len() ==> 1 <= (#[trigger] fs[i]).tag <= 15 && !(fs[i].value is Other)
}

proof fn lemma_next_field_canonical(b: Seq<u8>, pos: int, f: WireField, budget: nat)
    requires
        1 <= f.tag <= 15,
        !(f.value is Other),
        occurs_at(b, pos, field_bytes(f)),
        b.len() <= u64::MAX,
    ensures
        next_field(b, pos, budget) == Some((f, pos + field_bytes(f).len())),
{
    match f.value {
        WireValue::Varint(v) => {
            let k = seq![key(f.tag, 0)];
            lemma_occurs_split(b, pos, k, varint(v as nat));
            assert(b[pos] == key(f.tag, 0)) by {
                assert(b.subrange(pos, pos + 1)[0] == b[pos]);
            }
            assert(key(f.tag, 0) as nat == f.tag * 8);
            assert(pvarint(b, pos) == Some(((f.tag * 8) as nat, pos + 1)));
            lemma_pvarint_canonical_u64(b, pos + 1, v as nat);
            assert((f.tag * 8) / 8 == f.tag && (f.tag * 8) % 8 == 0) by {
                vstd::arithmetic::div_mod::lemma_fundamental_div_mod_converse(
                    (f.tag * 8) as int,
                    8,
                    f.tag as int,
                    0,
                );
            }
        },
        WireValue::Bytes(s) => {
            let k = seq![key(f.tag, 2)];
            assert(len_prefixed(f.tag, s) == k + varint(s.len()) + s);
            lemma_occurs_split(b, pos, k + varint(s.len()), s);
            lemma_occurs_split(b, pos, k, varint(s.len()));
            assert(b[pos] == key(f.tag, 2)) by {
                assert(b.subrange(pos, pos + 1)[0] == b[pos]);
            }
            assert(key(f.tag, 2) as nat == f.tag * 8 + 2);
            assert(pvarint(b, pos) == Some(((f.tag * 8 + 2) as nat, pos + 1)));
            assert(s.len() <= u64::MAX);
            lemma_pvarint_canonical_u64(b, pos + 1, s.len());
            assert((f.tag * 8 + 2) / 8 == f.tag && (f.tag * 8 + 2) % 8 == 2) by {
                vstd::arithmetic::div_mod::lemma_fundamental_div_mod_converse(
                    (f.tag * 8 + 2) as int,
                    8,
                    f.tag as int,
                    2,
                );
            }
            let q = pos + 1 + varint(s.len()).len();
            assert(b.subrange(q, q + s.len()) == s);
        },
        WireValue::Other => {},
    }
}

/// Fields written canonically read back as themselves.
proof fn lemma_fields_canonical(b: Seq<u8>, pos: int, fs: Seq<WireField>, budget: nat)
    requires
        plain_fields(fs),
        occurs_at(b, pos, fields_bytes(fs)),
        pos + fields_bytes(fs).len() == b.len(),
        b.len() <= u64::MAX,
    ensures
        field_list(b, pos, budget) == Some(fs),
    decreases fs.len(),
{
    if fs.len() == 0 {
    } else {
        let f = fs[0];
        let rest = fs.drop_first();
        assert(1 <= f.tag <= 15 && !(f.value is Other));
        lemma_occurs_split(b, pos, field_bytes(f), fields_bytes(rest));
        lemma_next_field_canonical(b, pos, f, budget);
        assert(field_bytes(f).len() > 0);
        assert(plain_fields(rest)) by {
            assert forall|i: int| 0 <= i < rest.len() implies 1 <= (#[trigger] rest[i]).tag <= 15
                && !(rest[i].value is Other) by {
                assert(rest[i] == fs[i + 1]);
            }
        }
        lemma_fields_canonical(b, pos + field_bytes(f).len(), rest, budget);
        assert(seq![f] + rest =~= fs);
    }
}

proof fn lemma_fields_bytes_concat(a: Seq<WireField>, c: Seq<WireField>)
    ensures
        fields_bytes(a + c) == fields_bytes(a) + fields_bytes(c),
    decreases a.len(),
{
    if a.len() == 0 {
        assert(a + c =~= c);
    } else {
        assert((a + c).drop_first() =~= a.drop_first() + c);
        lemma_fields_bytes_concat(a.drop_first(), c);
        assert((a + c)[0] == a[0]);
    }
}

proof fn lemma_payload_fold_concat(p: PayloadView, a: Seq<WireField>, c: Seq<WireField>)
    ensures
        payload_fold(p, a + c) == match payload_fold(p, a) {
            Some(q) => payload_fold(q, c),
            None => None,
        },
    decreases a.len(),
{
    if a.len() == 0 {
        assert(a + c =~= c);
    } else {
        assert((a + c).drop_first() =~= a.drop_first() + c);
        assert((a + c)[0] == a[0]);
        match payload_step(p, a[0]) {
            Some(q) => lemma_payload_fold_concat(q, a.drop_first(), c),
            None => {},
        }
    }
}

/// An integer field in the canonical encoding: absent when zero.
pub open spec fn uint_slot(tag: nat, v: u64) -> Seq<WireField> {
    if v == 0 {
        Seq::empty()
    } else {
        seq![WireField { tag, value: WireValue::Varint(v) }]
    }
}

/// A text field in the canonical encoding: absent when empty.
pub open spec fn string_slot(tag: nat, s: Seq<char>) -> Seq<WireField> {
    if s.len() == 0 {
        Seq::empty()
    } else {
        seq![WireField { tag, value: WireValue::Bytes(encode_utf8(s)) }]
    }
}

/// An optional text field in the canonical encoding: present when set.
pub open spec fn opt_string_slot(tag: nat, o: Option<Seq<char>>) -> Seq<WireField> {
    match o {
        Some(s) => seq![WireField { tag, value: WireValue::Bytes(encode_utf8(s)) }],
        None => Seq::empty(),
    }
}

/// A packed repeated integer field in the canonical encoding.
pub open spec fn packed_slot(tag: nat, vs: Seq<u64>) -> Seq<WireField> {
    if vs.len() == 0 {
        Seq::empty()
    } else {
        seq![WireField { tag, value: WireValue::Bytes(packed_varints(vs)) }]
    }
}

/// The fields the canonical encoder writes for a payload message.
pub open spec fn body_fields(p: PayloadView) -> Seq<WireField> {
    match p {
        PayloadView::RegisterNode { node_id, address, capacity_bytes } => uint_slot(1, node_id)
            + string_slot(2, address) + uint_slot(3, capacity_bytes),
        PayloadView::CreateVolume {
            volume_id,
            size_bytes,
            replication_factor,
            replicas,
            source_capsule_id,
        } => string_slot(1, volume_id) + uint_slot(2, size_bytes) + uint_slot(
            3,
            replication_factor as u64,
        ) + packed_slot(4, replicas) + opt_string_slot(5, source_capsule_id),
        PayloadView::DeleteVolume { volume_id } => string_slot(1, volume_id),
        PayloadView::MoveReplica { volume_id, from_node, to_node } => string_slot(1, volume_id)
            + uint_slot(2, from_node) + uint_slot(3, to_node),
    }
}

proof fn lemma_slot_bytes(tag: nat, v: u64, s: Seq<char>, o: Option<Seq<char>>, vs: Seq<u64>)
    requires
        1 <= tag <= 15,
    ensures
        fields_bytes(uint_slot(tag, v)) == uint_field(tag, v as nat),
        fields_bytes(string_slot(tag, s)) == string_field(tag, s),
        fields_bytes(opt_string_slot(tag, o)) == optional_string_field(tag, o),
        fields_bytes(packed_slot(tag, vs)) == packed_field(tag, vs),
        plain_fields(uint_slot(tag, v)),
        plain_fields(string_slot(tag, s)),
        plain_fields(opt_string_slot(tag, o)),
        plain_fields(packed_slot(tag, vs)),
{
    lemma_utf8_roundtrip(s);
    assert(fields_bytes(Seq::<WireField>::empty()) == Seq::<u8>::empty());
    if v != 0 {
        assert(uint_slot(tag, v).drop_first() =~= Seq::<WireField>::empty());
        assert(fields_bytes(uint_slot(tag, v).drop_first()) == Seq::<u8>::empty());
        assert(field_bytes(uint_slot(tag, v)[0]) + Seq::<u8>::empty() =~= uint_field(tag, v as nat));
        assert(fields_bytes(uint_slot(tag, v)) == field_bytes(uint_slot(tag, v)[0]) + fields_bytes(uint_slot(tag, v).drop_first()));
    }
    if s.len() != 0 {
        assert(string_slot(tag, s).drop_first() =~= Seq::<WireField>::empty());
        assert(fields_bytes(string_slot(tag, s).drop_first()) == Seq::<u8>::empty());
        assert(field_bytes(string_slot(tag, s)[0]) + Seq::<u8>::empty() =~= string_field(tag, s));
        assert(fields_bytes(string_slot(tag, s)) == field_bytes(string_slot(tag, s)[0]) + fields_bytes(string_slot(tag, s).drop_first()));
    }
    if o is Some {
        assert(opt_string_slot(tag, o).drop_first() =~= Seq::<WireField>::empty());
        assert(fields_bytes(opt_string_slot(tag, o).drop_first()) == Seq::<u8>::empty());
        assert(field_bytes(opt_string_slot(tag, o)[0]) + Seq::<u8>::empty() =~= optional_string_field(tag, o));
        assert(fields_bytes(opt_string_slot(tag, o)) == field_bytes(opt_string_slot(tag, o)[0]) + fields_bytes(opt_string_slot(tag, o).drop_first()));
    }
    if vs.len() != 0 {
        assert(packed_slot(tag, vs).drop_first() =~= Seq::<WireField>::empty());
        assert(fields_bytes(packed_slot(tag, vs).drop_first()) == Seq::<u8>::empty());
        assert(field_bytes(packed_slot(tag, vs)[0]) + Seq::<u8>::empty() =~= packed_field(tag, vs));
        assert(fields_bytes(packed_slot(tag, vs)) == field_bytes(packed_slot(tag, vs)[0]) + fields_bytes(packed_slot(tag, vs).drop_first()));
    }
}

proof fn lemma_plain_concat(a: Seq<WireField>, c: Seq<WireField>)
    requires
        plain_fields(a),
        plain_fields(c),
    ensures
        plain_fields(a + c),
{
    assert forall|i: int| 0 <= i < (a + c).len() implies 1 <= (#[trigger] (a + c)[i]).tag <= 15
        && !((a + c)[i].value is Other) by {
        if i < a.len() {
            assert((a + c)[i] == a[i]);
        } else {
            assert((a + c)[i] == c[i - a.len()]);
        }
    }
}

/// A payload message's canonical bytes are its fields written canonically.
proof fn lemma_body_fields(p: PayloadView)
    ensures
        fields_bytes(body_fields(p)) == payload_body(p),
        plain_fields(body_fields(p)),
{
    match p {
        PayloadView::RegisterNode { node_id, address, capacity_bytes } => {
            let a = uint_slot(1, node_id);
            let b = string_slot(2, address);
            let c = uint_slot(3, capacity_bytes);
            lemma_slot_bytes(1, node_id, address, None, Seq::empty());
            lemma_slot_bytes(2, 0, address, None, Seq::empty());
            lemma_slot_bytes(3, capacity_bytes, address, None, Seq::empty());
            lemma_fields_bytes_concat(a, b);
            lemma_fields_bytes_concat(a + b, c);
            lemma_plain_concat(a, b);
            lemma_plain_concat(a + b, c);
        },
        PayloadView::CreateVolume {
            volume_id,
            size_bytes,
            replication_factor,
            replicas,
            source_capsule_id,
        } => {
            let a = string_slot(1, volume_id);
            let b = uint_slot(2, size_bytes);
            let c = uint_slot(3, replication_factor as u64);
            let d = packed_slot(4, replicas);
            let e = opt_string_slot(5, source_capsule_id);
            lemma_slot_bytes(1, 0, volume_id, None, replicas);
            lemma_slot_bytes(2, size_bytes, volume_id, None, replicas);
            lemma_slot_bytes(3, replication_factor as u64, volume_id, None, replicas);
            lemma_slot_bytes(4, 0, volume_id, None, replicas);
            lemma_slot_bytes(5, 0, volume_id, source_capsule_id, replicas);
            lemma_fields_bytes_concat(a, b);
            lemma_fields_bytes_concat(a + b, c);
            lemma_fields_bytes_concat(a + b + c, d);
            lemma_fields_bytes_concat(a + b + c + d, e);
            lemma_plain_concat(a, b);
            lemma_plain_concat(a + b, c);
            lemma_plain_concat(a + b + c, d);
            lemma_plain_concat(a + b + c + d, e);
        },
        PayloadView::DeleteVolume { volume_id } => {
            lemma_slot_bytes(1, 0, volume_id, None, Seq::empty());
        },
        PayloadView::MoveReplica { volume_id, from_node, to_node } => {
            let a = string_slot(1, volume_id);
            let b = uint_slot(2, from_node);
            let c = uint_slot(3, to_node);
            lemma_slot_bytes(1, 0, volume_id, None, Seq::empty());
            lemma_slot_bytes(2, from_node, volume_id, None, Seq::empty());
            lemma_slot_bytes(3, to_node, volume_id, None, Seq::empty());
            lemma_fields_bytes_concat(a, b);
            lemma_fields_bytes_concat(a + b, c);
            lemma_plain_concat(a, b);
            lemma_plain_concat(a + b, c);
        },
    }
}

proof fn lemma_fold_single(p: PayloadView, f: WireField)
    ensures
        payload_fold(p, seq![f]) == payload_step(p, f),
{
    assert(seq![f].drop_first() =~= Seq::<WireField>::empty());
    match payload_step(p, f) {
        Some(q) => {
            assert(payload_fold(q, Seq::<WireField>::empty()) == Some(q));
        },
        None => {},
    }
}

/// Varints packed canonically read back as the integers.
proof fn lemma_packed_canonical(b: Seq<u8>, pos: int, vs: Seq<u64>)
    requires
        occurs_at(b, pos, packed_varints(vs)),
        pos + packed_varints(vs).len() == b.len(),
    ensures
        packed_list(b, pos) == Some(vs),
    decreases vs.len(),
{
    if vs.len() == 0 {
    } else {
        let head = varint(vs[0] as nat);
        let tail = packed_varints(vs.drop_first());
        assert(packed_varints(vs) == head + tail);
        lemma_occurs_split(b, pos, head, tail);
        lemma_pvarint_canonical_u64(b, pos, vs[0] as nat);
        crate::wire::lemma_varint_shape(vs[0] as nat);
        lemma_packed_canonical(b, pos + head.len(), vs.drop_first());
        assert(seq![vs[0]] + vs.drop_first() =~= vs);
    }
}

proof fn lemma_text_slot(s: Seq<char>)
    ensures
        text_of(encode_utf8(s)) == Some(s),
{
    lemma_utf8_roundtrip(s);
}

/// Reading a payload message's canonical fields into the message with
/// every field at its default gives the payload back.
proof fn lemma_fold_body(p: PayloadView)
    requires
        payload_body(p).len() <= u64::MAX,
    ensures
        payload_fold(default_payload(payload_tag(p)), body_fields(p)) == Some(p),
{
    let e = Seq::<WireField>::empty();
    match p {
        PayloadView::RegisterNode { node_id, address, capacity_bytes } => {
            let a = uint_slot(1, node_id);
            let b = string_slot(2, address);
            let c = uint_slot(3, capacity_bytes);
            let d0 = default_payload(1);
            let d1 = PayloadView::RegisterNode { node_id, address: Seq::empty(), capacity_bytes: 0 };
            let d2 = PayloadView::RegisterNode { node_id, address, capacity_bytes: 0 };
            lemma_payload_fold_concat(d0, a + b, c);
            lemma_payload_fold_concat(d0, a, b);
            if node_id != 0 {
                lemma_fold_single(d0, a[0]);
            } else {
                assert(a == e);
            }
            assert(payload_fold(d0, a) == Some(d1));
            if address.len() != 0 {
                lemma_text_slot(address);
                lemma_fold_single(d1, b[0]);
            } else {
                assert(b == e);
                assert(address =~= Seq::<char>::empty());
            }
            assert(payload_fold(d1, b) == Some(d2));
            if capacity_bytes != 0 {
                lemma_fold_single(d2, c[0]);
            } else {
                assert(c == e);
            }
            assert(payload_fold(d2, c) == Some(p));
        },
        PayloadView::CreateVolume {
            volume_id,
            size_bytes,
            replication_factor,
            replicas,
            source_capsule_id,
        } => {
            let a = string_slot(1, volume_id);
            let b = uint_slot(2, size_bytes);
            let c = uint_slot(3, replication_factor as u64);
            let d = packed_slot(4, replicas);
            let f = opt_string_slot(5, source_capsule_id);
            let s0 = default_payload(2);
            let s1 = PayloadView::CreateVolume {
                volume_id,
                size_bytes: 0,
                replication_factor: 0,
                replicas: Seq::empty(),
                source_capsule_id: None,
            };
            let s2 = PayloadView::CreateVolume {
                volume_id,
                size_bytes,
                replication_factor: 0,
                replicas: Seq::empty(),
                source_capsule_id: None,
            };
            let s3 = PayloadView::CreateVolume {
                volume_id,
                size_bytes,
                replication_factor,
                replicas: Seq::empty(),
                source_capsule_id: None,
            };
            let s4 = PayloadView::CreateVolume {
                volume_id,
                size_bytes,
                replication_factor,
                replicas,
                source_capsule_id: None,
            };
            lemma_payload_fold_concat(s0, a + b + c + d, f);
            lemma_payload_fold_concat(s0, a + b + c, d);
            lemma_payload_fold_concat(s0, a + b, c);
            lemma_payload_fold_concat(s0, a, b);
            if volume_id.len() != 0 {
                lemma_text_slot(volume_id);
                lemma_fold_single(s0, a[0]);
            } else {
                assert(a == e);
                assert(volume_id =~= Seq::<char>::empty());
            }
            assert(payload_fold(s0, a) == Some(s1));
            if size_bytes != 0 {
                lemma_fold_single(s1, b[0]);
            } else {
                assert(b == e);
            }
            assert(payload_fold(s1, b) == Some(s2));
            if replication_factor != 0 {
                lemma_fold_single(s2, c[0]);
                assert((replication_factor as u64) as u32 == replication_factor);
            } else {
                assert(c == e);
            }
            assert(payload_fold(s2, c) == Some(s3));
            if replicas.len() != 0 {
                lemma_fold_single(s3, d[0]);
                crate::wire::lemma_varint_shape(0);
                assert(packed_varints(replicas).len() <= payload_body(p).len()) by {
                    lemma_body_fields(p);
                }
                assert(packed_varints(replicas).subrange(0, packed_varints(replicas).len() as int)
                    =~= packed_varints(replicas));
                lemma_packed_canonical(packed_varints(replicas), 0, replicas);
                assert(Seq::<u64>::empty() + replicas =~= replicas);
            } else {
                assert(d == e);
                assert(replicas =~= Seq::<u64>::empty());
            }
            assert(payload_fold(s3, d) == Some(s4));
            match source_capsule_id {
                Some(t) => {
                    lemma_text_slot(t);
                    lemma_fold_single(s4, f[0]);
                },
                None => {
                    assert(f == e);
                },
            }
            assert(payload_fold(s4, f) == Some(p));
        },
        PayloadView::DeleteVolume { volume_id } => {
            let d0 = default_payload(3);
            if volume_id.len() != 0 {
                lemma_text_slot(volume_id);
                lemma_fold_single(d0, string_slot(1, volume_id)[0]);
            } else {
                assert(volume_id =~= Seq::<char>::empty());
            }
        },
        PayloadView::MoveReplica { volume_id, from_node, to_node } => {
            let a = string_slot(1, volume_id);
            let b = uint_slot(2, from_node);
            let c = uint_slot(3, to_node);
            let d0 = default_payload(4);
            let d1 = PayloadView::MoveReplica { volume_id, from_node: 0, to_node: 0 };
            let d2 = PayloadView::MoveReplica { volume_id, from_node, to_node: 0 };
            lemma_payload_fold_concat(d0, a + b, c);
            lemma_payload_fold_concat(d0, a, b);
            if volume_id.len() != 0 {
                lemma_text_slot(volume_id);
                lemma_fold_single(d0, a[0]);
            } else {
                assert(a == e);
                assert(volume_id =~= Seq::<char>::empty());
            }
            assert(payload_fold(d0, a) == Some(d1));
            if from_node != 0 {
                lemma_fold_single(d1, b[0]);
            } else {
                assert(b == e);
            }
            assert(payload_fold(d1, b) == Some(d2));
            if to_node != 0 {
                lemma_fold_single(d2, c[0]);
            } else {
                assert(c == e);
            }
            assert(payload_fold(d2, c) == Some(p));
        },
    }
}

/// Every command reads back as itself: decoding the bytes the canonical
/// encoder writes for a command gives that command.
pub proof fn lemma_canonical_decodes(c: CommandView)
    requires
        command_bytes(c).len() <= u64::MAX,
    ensures
        decoded_command(command_bytes(c)) == Some(c),
{
    let b = command_bytes(c);
    match c.payload {
        None => {
            assert(b.len() == 0);
            assert(field_list(b, 0, COMMAND_BUDGET as nat) == Some(Seq::<WireField>::empty()));
        },
        Some(p) => {
            let tag = payload_tag(p);
            let body = payload_body(p);
            let f = WireField { tag, value: WireValue::Bytes(body) };
            assert(fields_bytes(seq![f]) == b) by {
                assert(seq![f].drop_first() =~= Seq::<WireField>::empty());
                assert(fields_bytes(seq![f].drop_first()) == Seq::<u8>::empty());
                assert(field_bytes(f) + Seq::<u8>::empty() =~= b);
            }
            assert(plain_fields(seq![f]));
            assert(b.subrange(0, b.len() as int) =~= b);
            lemma_fields_canonical(b, 0, seq![f], COMMAND_BUDGET as nat);
            assert(body.len() <= b.len()) by {
                assert(b == len_prefixed(tag, body));
            }
            lemma_body_fields(p);
            assert(body.subrange(0, body.len() as int) =~= body);
            lemma_fields_canonical(body, 0, body_fields(p), PAYLOAD_BUDGET as nat);
            lemma_fold_body(p);
            assert(command_step(None, f) == Some(Some(p)));
            assert(seq![f].drop_first() =~= Seq::<WireField>::empty());
            assert(command_fold(Some(p), Seq::<WireField>::empty()) == Some(Some(p)));
            assert(command_fold(None, seq![f]) == Some(Some(p)));
        },
    }
}

pub(crate) proof fn lemma_utf8_roundtrip(s: Seq<char>)
    ensures
        valid_utf8(encode_utf8(s)),
        decode_utf8(encode_utf8(s)) == s,
        encode_utf8(s).len() == 0 <==> s.len() == 0,
{
    encode_utf8_valid_utf8(s);
    encode_utf8_decode_utf8(s);
    if encode_utf8(s).len() == 0 {
        assert(encode_utf8(s) =~= Seq::<u8>::empty());
        assert(decode_utf8(Seq::<u8>::empty()) =~= Seq::<char>::empty());
    }
    if s.len() == 0 {
        assert(encode_utf8(s) =~= Seq::<u8>::empty());
    }
}


/// The canonical encoding tells commands apart.
pub proof fn lemma_command_bytes_injective(c1: CommandView, c2: CommandView)
    requires
        command_bytes(c1) == command_bytes(c2),
        command_bytes(c1).len() <= u64::MAX,
    ensures
        c1 == c2,
{
    lemma_canonical_decodes(c1);
    lemma_canonical_decodes(c2);
}

} // verus!
