//! Gossip bookkeeping: the clock, signed messages (their identity, their
//! signature and its check, their hop budget), heartbeats, and the liveness
//! rule that declares silent peers lost.

use vstd::prelude::*;
use vstd::utf8::{decode_utf8, encode_utf8, is_ascii_chars};
use crate::command::string_from_utf8;
use crate::digest::{
    hmac_sha256, hmac_sha256_tag, hmac_sha256_verify, sha256_digest, sha256_hash,
};
use crate::mesh::{
    CoreError, GossipEvent, GossipMessage, LoadReport, Peer, PeerStore, PeerView, saturating_sub,
};
use crate::pending::current_millis;
use crate::wire::{push_bytes, push_u64_le, u64_le};
use crate::foundry::{decimal, decimal_text};
use crate::mesh::NodeRole;
use crate::zones::chars_of;

verus! {

/// Seconds since the Unix epoch, read from the wall clock: whole
/// thousands of a millisecond reading, so never above `u64::MAX / 1000`.
/// A clock set before the epoch reads as zero here; this function does not
/// fail on it.
pub fn current_timestamp() -> (t: u64)
    ensures
        t <= u64::MAX / 1000,
{
    current_millis() / 1000
}

// ---------------------------------------------------------------------------
// Text helpers
// ---------------------------------------------------------------------------

/// The characters of ASCII bytes.
pub open spec fn ascii_chars(b: Seq<u8>) -> Seq<char> {
    b.map_values(|x: u8| x as char)
}

/// A lower-case hexadecimal digit.
pub open spec fn hex_digit(n: int) -> u8 {
    if n < 10 {
        (48 + n) as u8
    } else {
        (87 + n) as u8
    }
}

/// The lower-case hexadecimal spelling of `s`, two digits per byte, as
/// ASCII bytes.
pub open spec fn hex_bytes(s: Seq<u8>) -> Seq<u8>
    decreases s.len(),
{
    if s.len() == 0 {
        Seq::empty()
    } else {
        hex_bytes(s.drop_last()) + seq![hex_digit((s.last() / 16) as int), hex_digit((s.last() % 16) as int)]
    }
}

proof fn lemma_hex_bytes_ascii(s: Seq<u8>)
    ensures
        hex_bytes(s).len() == 2 * s.len(),
        forall|i: int| 0 <= i < hex_bytes(s).len() ==> #[trigger] hex_bytes(s)[i] < 128,
    decreases s.len(),
{
    if s.len() > 0 {
        lemma_hex_bytes_ascii(s.drop_last());
        let h = hex_bytes(s.drop_last());
        assert forall|i: int| 0 <= i < hex_bytes(s).len() implies #[trigger] hex_bytes(s)[i] < 128 by {
            if i < h.len() {
                assert(hex_bytes(s)[i] == h[i]);
            }
        }
    }
}

/// A string holding the ASCII bytes `b`.
fn ascii_string(b: &Vec<u8>) -> (r: String)
    requires
        forall|i: int| 0 <= i < b@.len() ==> #[trigger] b@[i] < 128,
    ensures
        r@ == ascii_chars(b@),
{
    let ghost chars = ascii_chars(b@);
    proof {
        assert forall|i: int| 0 <= i < chars.len() implies '\0' <= #[trigger] chars[i] <= '\u{7f}' by {
            assert(chars[i] == b@[i] as char);
        }
        assert(is_ascii_chars(chars));
        vstd::utf8::is_ascii_chars_encode_utf8(chars);
        assert forall|i: int| 0 <= i < b@.len() implies encode_utf8(chars)[i] == b@[i] by {
            assert(chars[i] as u8 == encode_utf8(chars)[i]);
            assert(chars[i] == b@[i] as char);
        }
        assert(encode_utf8(chars) =~= b@);
        vstd::utf8::encode_utf8_valid_utf8(chars);
        vstd::utf8::encode_utf8_decode_utf8(chars);
    }
    match string_from_utf8(b.as_slice()) {
        Some(s) => s,
        None => {
            proof {
                assert(false);
            }
            String::new()
        },
    }
}

/// The lower-case hexadecimal spelling of `s`.
pub(crate) fn to_hex(s: &Vec<u8>) -> (r: String)
    ensures
        r@ == ascii_chars(hex_bytes(s@)),
{
    let mut out: Vec<u8> = Vec::new();
    let mut i: usize = 0;
    proof {
        assert(s@.take(0) =~= Seq::<u8>::empty());
    }
    while i < s.len()
        invariant
            i <= s@.len(),
            out@ == hex_bytes(s@.take(i as int)),
        decreases s@.len() - i,
    {
        proof {
            assert(s@.take(i + 1).drop_last() =~= s@.take(i as int));
            assert(s@.take(i + 1).last() == s@[i as int]);
        }
        let b = s[i];
        let hi = b / 16;
        let lo = b % 16;
        out.push(if hi < 10 {
            48 + hi
        } else {
            87 + hi
        });
        out.push(if lo < 10 {
            48 + lo
        } else {
            87 + lo
        });
        i = i + 1;
    }
    proof {
        assert(s@.take(s@.len() as int) =~= s@);
        lemma_hex_bytes_ascii(s@);
    }
    ascii_string(&out)
}

// ---------------------------------------------------------------------------
// Signed messages
// ---------------------------------------------------------------------------

/// The bytes hashed to name a message: its encoding, the sender's name in
/// UTF-8 and the timestamp's little-endian bytes.
pub open spec fn message_id_input(serialized: Seq<u8>, sender: Seq<char>, timestamp: u64) -> Seq<
    u8,
> {
    serialized + encode_utf8(sender) + u64_le(timestamp)
}

/// The name of a message: the hexadecimal SHA-256 digest of its encoding,
/// its sender and its timestamp.
pub open spec fn message_id_of(serialized: Seq<u8>, sender: Seq<char>, timestamp: u64) -> Seq<
    char,
> {
    ascii_chars(hex_bytes(sha256_digest(message_id_input(serialized, sender, timestamp))))
}

/// The bytes a signature covers: the message's encoding, its name in UTF-8
/// and its timestamp's little-endian bytes.
pub open spec fn signed_input(serialized: Seq<u8>, message_id: Seq<char>, timestamp: u64) -> Seq<
    u8,
> {
    serialized + encode_utf8(message_id) + u64_le(timestamp)
}

/// The signature of a message under `key`.
pub open spec fn signature_of(
    key: Seq<u8>,
    serialized: Seq<u8>,
    message_id: Seq<char>,
    timestamp: u64,
) -> Seq<u8> {
    hmac_sha256_tag(key, signed_input(serialized, message_id, timestamp))
}

fn utf8_bytes(s: &String) -> (r: &[u8])
    ensures
        r@ == encode_utf8(s@),
{
    s.as_str().as_bytes()
}

/// The name of the message encoded as `serialized`, sent by `sender` at
/// `timestamp`.
pub fn message_id_for(serialized: &[u8], sender: &String, timestamp: u64) -> (r: String)
    ensures
        r@ == message_id_of(serialized@, sender@, timestamp),
{
    let mut input: Vec<u8> = Vec::new();
    push_bytes(&mut input, serialized);
    push_bytes(&mut input, utf8_bytes(sender));
    push_u64_le(&mut input, timestamp);
    let digest = sha256_hash(input.as_slice());
    to_hex(&digest)
}

fn signing_bytes(serialized: &[u8], message_id: &String, timestamp: u64) -> (r: Vec<u8>)
    ensures
        r@ == signed_input(serialized@, message_id@, timestamp),
{
    let mut input: Vec<u8> = Vec::new();
    push_bytes(&mut input, serialized);
    push_bytes(&mut input, utf8_bytes(message_id));
    push_u64_le(&mut input, timestamp);
    input
}

/// A gossip message with its name, hop budget, sender, time and signature.
#[derive(Clone, Debug)]
pub struct SignedMessage {
    pub message: GossipMessage,
    pub signature: Vec<u8>,
    pub message_id: String,
    pub ttl: u32,
    pub sender: String,
    pub timestamp: u64,
}

impl SignedMessage {
    /// Signs `message`, whose encoding is `serialized`, as sent by `sender`
    /// at `timestamp`: names it, then signs its encoding, name and time
    /// under `signing_key`.
    pub fn new_at(
        message: GossipMessage,
        serialized: &[u8],
        sender: String,
        ttl: u32,
        signing_key: &[u8],
        timestamp: u64,
    ) -> (r: Self)
        ensures
            r.message == message,
            r.message_id@ == message_id_of(serialized@, sender@, timestamp),
            r.signature@ == signature_of(signing_key@, serialized@, r.message_id@, timestamp),
            r.ttl == ttl,
            r.sender@ == sender@,
            r.timestamp == timestamp,
    {
        let message_id = message_id_for(serialized, &sender, timestamp);
        let input = signing_bytes(serialized, &message_id, timestamp);
        let signature = hmac_sha256(signing_key, input.as_slice());
        SignedMessage { message, signature, message_id, ttl, sender, timestamp }
    }

    /// Signs `message` as sent now.
    pub fn new(
        message: GossipMessage,
        serialized: &[u8],
        sender: String,
        ttl: u32,
        signing_key: &[u8],
    ) -> (r: Self)
        ensures
            r.message == message,
            r.message_id@ == message_id_of(serialized@, sender@, r.timestamp),
            r.signature@ == signature_of(signing_key@, serialized@, r.message_id@, r.timestamp),
            r.ttl == ttl,
            r.sender@ == sender@,
    {
        let timestamp = current_timestamp();
        SignedMessage::new_at(message, serialized, sender, ttl, signing_key, timestamp)
    }

    /// Checks the signature against the message's encoding `serialized`,
    /// its name and time, under `signing_key`.
    pub fn verify(&self, serialized: &[u8], signing_key: &[u8]) -> (r: Result<(), CoreError>)
        ensures
            r is Ok <==> self.signature@ == signature_of(
                signing_key@,
                serialized@,
                self.message_id@,
                self.timestamp,
            ),
            r matches Err(e) ==> e matches CoreError::AuthError(s) && s@
                == "Invalid message signature"@,
    {
        let input = signing_bytes(serialized, &self.message_id, self.timestamp);
        if hmac_sha256_verify(signing_key, input.as_slice(), self.signature.as_slice()) {
            Ok(())
        } else {
            Err(CoreError::AuthError(String::from_str("Invalid message signature")))
        }
    }

    /// Spends one hop: says whether the message may travel on, and lowers
    /// its budget when it may.
    pub fn decrement_ttl(&mut self) -> (r: bool)
        ensures
            r == (old(self).ttl > 0),
            final(self).ttl == if old(self).ttl > 0 {
                (old(self).ttl - 1) as u32
            } else {
                0
            },
            final(self).message == old(self).message,
            final(self).signature == old(self).signature,
            final(self).message_id == old(self).message_id,
            final(self).sender == old(self).sender,
            final(self).timestamp == old(self).timestamp,
    {
        if self.ttl > 0 {
            self.ttl = self.ttl - 1;
            true
        } else {
            false
        }
    }
}

/// A message signed under a key passes the check under that key: what
/// signing produces is what verification expects.
pub proof fn lemma_signature_round_trip(
    key: Seq<u8>,
    serialized: Seq<u8>,
    sender: Seq<char>,
    timestamp: u64,
)
    ensures
        ({
            let id = message_id_of(serialized, sender, timestamp);
            signature_of(key, serialized, id, timestamp) == hmac_sha256_tag(
                key,
                serialized + encode_utf8(id) + u64_le(timestamp),
            )
        }),
{
}

// ---------------------------------------------------------------------------
// Addresses
// ---------------------------------------------------------------------------

/// Position of the last ':' of an address.
pub open spec fn last_colon(a: Seq<char>) -> Option<int> {
    if exists|i: int| 0 <= i < a.len() && a[i] == ':' && forall|k: int| i < k < a.len() ==> a[k] != ':' {
        Some(choose|i: int| 0 <= i < a.len() && a[i] == ':' && forall|k: int| i < k < a.len() ==> a[k] != ':')
    } else {
        None
    }
}

/// The host of an address `host:port`: what stands before its last ':'.
pub open spec fn addr_host(a: Seq<char>) -> Seq<char> {
    match last_colon(a) {
        Some(c) => a.subrange(0, c),
        None => a,
    }
}

/// The value of a string of decimal digits.
pub open spec fn digits_value(d: Seq<char>) -> nat
    decreases d.len(),
{
    if d.len() == 0 {
        0
    } else {
        digits_value(d.drop_last()) * 10 + (d.last() as nat - 48) as nat
    }
}

pub open spec fn all_digits(d: Seq<char>) -> bool {
    forall|i: int| 0 <= i < d.len() ==> '0' <= #[trigger] d[i] <= '9'
}

/// The port an address names: the decimal number after its last ':',
/// when there is one that fits in 16 bits.
pub open spec fn addr_port(a: Seq<char>) -> Option<u16> {
    match last_colon(a) {
        Some(c) => {
            let d = a.subrange(c + 1, a.len() as int);
            if d.len() > 0 && all_digits(d) && digits_value(d) <= u16::MAX {
                Some(digits_value(d) as u16)
            } else {
                None
            }
        },
        None => None,
    }
}

/// The address with the same host and port `port`.
pub open spec fn with_port(a: Seq<char>, port: u16) -> Seq<char> {
    addr_host(a) + seq![':'] + decimal(port as nat)
}

fn last_colon_of(cs: &Vec<char>) -> (r: Option<usize>)
    ensures
        match r {
            Some(c) => c < cs@.len() && last_colon(cs@) == Some(c as int),
            None => last_colon(cs@) is None,
        },
{
    let mut j: usize = cs.len();
    while j > 0
        invariant
            j <= cs@.len(),
            forall|k: int| j <= k < cs@.len() ==> cs@[k] != ':',
        decreases j,
    {
        if cs[j - 1] == ':' {
            proof {
                let a = cs@;
                let w = (j - 1) as int;
                assert(0 <= w < a.len() && a[w] == ':' && forall|k: int| w < k < a.len() ==> a[k] != ':');
                let c = last_colon(a)->0;
                assert(0 <= c < a.len() && a[c] == ':' && forall|k: int| c < k < a.len() ==> a[k] != ':');
                if c < w {
                    assert(a[w] != ':');
                } else if c > w {
                    assert(a[c] != ':');
                }
            }
            return Some(j - 1);
        }
        j = j - 1;
    }
    None
}

/// The port `addr` names.
pub fn port_of(addr: &String) -> (r: Option<u16>)
    ensures
        r == addr_port(addr@),
{
    let cs = chars_of(addr.as_str());
    let c = match last_colon_of(&cs) {
        None => return None,
        Some(c) => c,
    };
    let ghost d = cs@.subrange(c + 1, cs@.len() as int);
    if c == cs.len() - 1 {
        return None;
    }
    let mut v: u32 = 0;
    let mut i: usize = c + 1;
    while i < cs.len()
        invariant
            c < cs@.len(),
            cs@ == addr@,
            last_colon(cs@) == Some(c as int),
            d == cs@.subrange(c + 1, cs@.len() as int),
            c + 1 <= i <= cs@.len(),
            all_digits(cs@.subrange(c + 1, i as int)),
            v == digits_value(cs@.subrange(c + 1, i as int)),
            v <= u16::MAX,
        decreases cs@.len() - i,
    {
        let ch = cs[i];
        proof {
            assert(cs@.subrange(c + 1, i + 1).drop_last() =~= cs@.subrange(c + 1, i as int));
        }
        if !('0' <= ch && ch <= '9') {
            proof {
                assert(d[i - c - 1] == ch);
                assert(!all_digits(d));
            }
            return None;
        }
        let next = v * 10 + (ch as u32 - 48);
        if next > 65535 {
            proof {
                let n = (i - c) as int;
                assert(d.take(n) =~= cs@.subrange(c + 1, i + 1));
                assert(cs@.subrange(c + 1, i + 1).last() == ch);
                assert(all_digits(cs@.subrange(c + 1, i + 1)));
                lemma_digits_grow(d, n);
            }
            return None;
        }
        v = next;
        i = i + 1;
    }
    proof {
        assert(cs@.subrange(c + 1, i as int) =~= d);
    }
    Some(v as u16)
}

/// Digits only add to the value of what precedes them.
proof fn lemma_digits_grow(d: Seq<char>, n: int)
    requires
        0 <= n <= d.len(),
        all_digits(d.take(n)),
    ensures
        all_digits(d) ==> digits_value(d.take(n)) <= digits_value(d),
    decreases d.len() - n,
{
    if n < d.len() && all_digits(d) {
        lemma_digits_grow(d, n + 1);
        assert(d.take(n + 1).drop_last() =~= d.take(n));
        assert(all_digits(d.take(n + 1)));
    } else if n == d.len() {
        assert(d.take(n) =~= d);
    }
}

/// `addr` with the same host and port `port`.
pub fn set_port(addr: &String, port: u16) -> (r: String)
    ensures
        r@ == with_port(addr@, port),
{
    let cs = chars_of(addr.as_str());
    let host: String = match last_colon_of(&cs) {
        Some(c) => addr.as_str().substring_char(0, c).to_owned(),
        None => addr.clone(),
    };
    let mut r = host;
    r.append(":");
    let digits = decimal_text(port as u64);
    r.append(digits.as_str());
    proof {
        reveal_strlit(":");
        assert(r@ =~= with_port(addr@, port));
    }
    r
}

/// The text of an optional string.
pub open spec fn opt_text(o: Option<String>) -> Option<Seq<char>> {
    match o {
        Some(s) => Some(s@),
        None => None,
    }
}

/// What a peer's record becomes on its heartbeat: the record known for it,
/// else a new storage node at the heartbeat's address, or at the local host
/// and the raft port; then it takes the heartbeat's address when there is
/// one, else the raft port on its host when its port differs; and the
/// heartbeat's usage and time.
pub open spec fn after_heartbeat(
    known: Option<PeerView>,
    peer_id: Seq<char>,
    raft_port: u16,
    gossip_addr: Option<Seq<char>>,
    load: LoadReport,
    timestamp: u64,
) -> PeerView {
    let base = match known {
        Some(p) => p,
        None => PeerView {
            id: peer_id,
            addr: match gossip_addr {
                Some(a) => a,
                None => "127.0.0.1:"@ + decimal(raft_port as nat),
            },
            role: NodeRole::StorageNode,
            storage_usage: 0,
            status: "online"@,
            gossip_version: 1,
            last_gossip_heartbeat: 0,
        },
    };
    let addr = match gossip_addr {
        Some(a) => a,
        None => if addr_port(base.addr) != Some(raft_port) {
            with_port(base.addr, raft_port)
        } else {
            base.addr
        },
    };
    PeerView {
        id: peer_id,
        addr,
        storage_usage: load.storage_used_bytes,
        last_gossip_heartbeat: timestamp,
        ..base
    }
}

/// A heartbeat refreshes its peer, known or new: the record it leaves is
/// the peer's, heard from at the heartbeat's time with the heartbeat's
/// usage and (when it gives one) address, and a known peer keeps its role,
/// status and version; so the peer is not lost at any time within the
/// timeout of the heartbeat.
pub proof fn lemma_heartbeat_refreshes(
    known: Option<PeerView>,
    peer_id: Seq<char>,
    raft_port: u16,
    gossip_addr: Option<Seq<char>>,
    load: LoadReport,
    timestamp: u64,
    now: u64,
    timeout_secs: u64,
)
    ensures
        ({
            let p = after_heartbeat(known, peer_id, raft_port, gossip_addr, load, timestamp);
            &&& p.id == peer_id
            &&& p.last_gossip_heartbeat == timestamp
            &&& p.storage_usage == load.storage_used_bytes
            &&& gossip_addr matches Some(a) ==> p.addr == a
            &&& known matches Some(q) ==> (p.role == q.role && p.status == q.status && p.gossip_version
                == q.gossip_version)
            &&& saturating_sub(now, timestamp) <= timeout_secs ==> !is_lost(p, now, timeout_secs)
        }),
{
}

/// Takes in a heartbeat of peer `peer_id`: its record is updated (or made)
/// as `after_heartbeat` says, and the events are the heartbeat itself,
/// then, for a peer not known before, its discovery.
pub fn apply_heartbeat(
    store: &mut PeerStore,
    peer_id: &String,
    raft_port: u16,
    gossip_addr: &Option<String>,
    load: LoadReport,
    timestamp: u64,
) -> (r: Vec<GossipEvent>)
    ensures
        ({
            let known = if old(store).view().contains_key(peer_id@) {
                Some(old(store).view()[peer_id@])
            } else {
                None
            };
            let p = after_heartbeat(known, peer_id@, raft_port, opt_text(*gossip_addr), load, timestamp);
            &&& final(store).view() == old(store).view().insert(peer_id@, p)
            &&& r@.len() == if known is Some { 1int } else { 2int }
            &&& r@[0] matches GossipEvent::Heartbeat { peer_id: id, raft_port: rp, gossip_addr: ga, load: l }
            &&& id@ == peer_id@
            &&& rp == raft_port
            &&& opt_text(ga) == opt_text(*gossip_addr)
            &&& l == load
            &&& known is None ==> (r@[1] matches GossipEvent::NodeDiscovered(q) && q@ == p)
        }),
        final(store).view().contains_key(peer_id@),
        final(store).view()[peer_id@].last_gossip_heartbeat == timestamp,
        final(store).view()[peer_id@].storage_usage == load.storage_used_bytes,
        forall|k: Seq<char>|
            k != peer_id@ ==> (#[trigger] final(store).view().contains_key(k) == old(store).view().contains_key(k)
                && (old(store).view().contains_key(k) ==> final(store).view()[k] == old(store).view()[k])),
{
    let mut peer = match store.get(peer_id) {
        Some(p) => p,
        None => {
            let addr = match gossip_addr {
                Some(a) => a.clone(),
                None => {
                    let mut a = String::from_str("127.0.0.1:");
                    let digits = decimal_text(raft_port as u64);
                    a.append(digits.as_str());
                    a
                },
            };
            Peer::new(peer_id.clone(), addr, NodeRole::StorageNode)
        },
    };
    proof {
        reveal_strlit("127.0.0.1:");
    }
    match gossip_addr {
        Some(a) => {
            peer.addr = a.clone();
        },
        None => {
            if port_of(&peer.addr) != Some(raft_port) {
                peer.addr = set_port(&peer.addr, raft_port);
            }
        },
    }
    peer.id = peer_id.clone();
    peer.storage_usage = load.storage_used_bytes;
    peer.last_gossip_heartbeat = timestamp;
    let discovered = peer.copy();
    let inserted = store.upsert(peer);
    let mut events: Vec<GossipEvent> = Vec::new();
    events.push(
        GossipEvent::Heartbeat {
            peer_id: peer_id.clone(),
            raft_port,
            gossip_addr: gossip_addr.clone(),
            load,
        },
    );
    if inserted {
        events.push(GossipEvent::NodeDiscovered(discovered));
    }
    events
}

// ---------------------------------------------------------------------------
// Heartbeats and liveness
// ---------------------------------------------------------------------------

/// The heartbeat that `local_peer` sends at `timestamp`.
pub fn heartbeat_message(local_peer: &Peer, raft_port: u16, load: LoadReport, timestamp: u64) -> (r:
    GossipMessage)
    ensures
        ({
            &&& r matches GossipMessage::Heartbeat {
                peer_id,
                raft_port: p,
                gossip_addr,
                load: l,
                timestamp: t,
            }
            &&& peer_id@ == local_peer.id@
            &&& p == raft_port
            &&& gossip_addr matches Some(a)
            &&& a@ == local_peer.addr@
            &&& l == load
            &&& t == timestamp
        }),
{
    GossipMessage::Heartbeat {
        peer_id: local_peer.id.clone(),
        raft_port,
        gossip_addr: Some(local_peer.addr.clone()),
        load,
        timestamp,
    }
}

/// How long a peer may stay silent, in seconds, when heartbeats come every
/// `interval_ms`: three intervals, counting an interval as at least one
/// second.
pub open spec fn liveness_timeout(interval_ms: u64) -> u64 {
    if interval_ms / 1000 >= 1 {
        (3 * (interval_ms / 1000)) as u64
    } else {
        3
    }
}

pub fn liveness_timeout_secs(interval_ms: u64) -> (r: u64)
    ensures
        r == liveness_timeout(interval_ms),
{
    let secs = interval_ms / 1000;
    if secs >= 1 {
        secs * 3
    } else {
        3
    }
}

/// A peer is lost when its last heartbeat is more than `timeout_secs` old.
pub open spec fn is_lost(p: PeerView, now: u64, timeout_secs: u64) -> bool {
    saturating_sub(now, p.last_gossip_heartbeat) > timeout_secs
}

/// The peer that an event reports lost.
pub open spec fn lost_id(e: GossipEvent) -> Option<Seq<char>> {
    match e {
        GossipEvent::NodeLost(id) => Some(id@),
        _ => None,
    }
}

/// The liveness round at `now`: forgets every peer of `store` whose last
/// heartbeat is more than `timeout_secs` old, and reports each as lost.
pub fn expire_silent_peers(store: &mut PeerStore, now: u64, timeout_secs: u64) -> (r: Vec<
    GossipEvent,
>)
    ensures
        forall|k: Seq<char>|
            #[trigger] final(store).view().contains_key(k) <==> old(store).view().contains_key(k)
                && !is_lost(old(store).view()[k], now, timeout_secs),
        forall|k: Seq<char>|
            #[trigger] final(store).view().contains_key(k) ==> final(store).view()[k] == old(
                store,
            ).view()[k],
        forall|i: int|
            0 <= i < r@.len() ==> lost_id(#[trigger] r@[i]) is Some && old(store).view().contains_key(
                lost_id(r@[i])->0,
            ) && is_lost(old(store).view()[lost_id(r@[i])->0], now, timeout_secs),
        forall|k: Seq<char>|
            old(store).view().contains_key(k) && is_lost(old(store).view()[k], now, timeout_secs)
                ==> exists|i: int| 0 <= i < r@.len() && lost_id(#[trigger] r@[i]) == Some(k),
{
    let peers = store.peers();
    let ghost m0 = store.view();
    let mut events: Vec<GossipEvent> = Vec::new();
    let mut i: usize = 0;
    while i < peers.len()
        invariant
            i <= peers@.len(),
            crate::mesh::distinct_ids(peers@),
            forall|k: Seq<char>|
                #[trigger] m0.contains_key(k) ==> exists|j: int| 0 <= j < peers@.len() && peers@[j].id@ == k,
            forall|j: int|
                0 <= j < peers@.len() ==> m0.contains_key(#[trigger] peers@[j].id@) && m0[peers@[j].id@]
                    == peers@[j]@,
            forall|k: Seq<char>| #[trigger]
                store.view().contains_key(k) <==> m0.contains_key(k) && !(exists|j: int|
                    0 <= j < i && peers@[j].id@ == k && is_lost(peers@[j]@, now, timeout_secs)),
            forall|k: Seq<char>| #[trigger]
                store.view().contains_key(k) ==> store.view()[k] == m0[k],
            forall|e: int|
                0 <= e < events@.len() ==> lost_id(#[trigger] events@[e]) is Some
                    && m0.contains_key(lost_id(events@[e])->0) && is_lost(m0[lost_id(events@[e])->0], now, timeout_secs),
            forall|j: int|
                0 <= j < i && is_lost(#[trigger] peers@[j]@, now, timeout_secs) ==> exists|e: int|
                    0 <= e < events@.len() && lost_id(#[trigger] events@[e]) == Some(peers@[j].id@),
        decreases peers@.len() - i,
    {
        let p = &peers[i];
        if now.saturating_sub(p.last_gossip_heartbeat) > timeout_secs {
            let ghost before = events@;
            let _ = store.remove(&p.id);
            events.push(GossipEvent::NodeLost(p.id.clone()));
            proof {
                assert(lost_id(events@[events@.len() - 1]) == Some(peers@[i as int].id@));
                assert forall|e: int| 0 <= e < events@.len() implies lost_id(#[trigger] events@[e]) is Some
                    && m0.contains_key(lost_id(events@[e])->0) && is_lost(m0[lost_id(events@[e])->0], now, timeout_secs) by {
                    if e < before.len() {
                        assert(events@[e] == before[e]);
                    }
                }
                assert forall|j: int|
                    0 <= j < i + 1 && is_lost(#[trigger] peers@[j]@, now, timeout_secs) implies exists|e: int|
                    0 <= e < events@.len() && lost_id(#[trigger] events@[e]) == Some(peers@[j].id@) by {
                    if j < i {
                        let e = choose|e: int|
                            0 <= e < before.len() && lost_id(#[trigger] before[e]) == Some(peers@[j].id@);
                        assert(events@[e] == before[e]);
                    } else {
                        assert(lost_id(events@[events@.len() - 1]) == Some(peers@[j].id@));
                    }
                }
            }
        }
        i = i + 1;
    }
    proof {
        assert forall|k: Seq<char>|
            m0.contains_key(k) && is_lost(m0[k], now, timeout_secs) implies exists|i: int|
            0 <= i < events@.len() && lost_id(#[trigger] events@[i]) == Some(k) by {
            let j = choose|j: int| 0 <= j < peers@.len() && peers@[j].id@ == k;
            assert(m0[peers@[j].id@] == peers@[j]@);
        }
        assert forall|k: Seq<char>| #[trigger] store.view().contains_key(k) <==> m0.contains_key(k)
            && !is_lost(m0[k], now, timeout_secs) by {
            if m0.contains_key(k) {
                let j = choose|j: int| 0 <= j < peers@.len() && peers@[j].id@ == k;
                assert(m0[peers@[j].id@] == peers@[j]@);
            }
        }
    }
    events
}

// ---------------------------------------------------------------------------
// Setting up the gossip layer
// ---------------------------------------------------------------------------

/// The mesh sizes a gossip layer keeps for a fanout: the target, the
/// least before it grafts more peers (half the fanout), and the most
/// before it prunes (twice the fanout).
pub struct MeshSizes {
    pub mesh_n: usize,
    pub mesh_n_low: usize,
    pub mesh_n_high: usize,
}

/// The mesh sizes for `fanout`.
pub fn mesh_sizes(fanout: usize) -> (r: MeshSizes)
    requires
        fanout * 2 <= usize::MAX,
    ensures
        r.mesh_n == fanout,
        r.mesh_n_low == fanout / 2,
        r.mesh_n_high == fanout * 2,
{
    MeshSizes { mesh_n: fanout, mesh_n_low: fanout / 2, mesh_n_high: fanout * 2 }
}

/// Puts the local peer in the peer store, marked as heard from at `now`
/// (seconds), in place of any entry under its id; says whether it was new.
pub fn register_local_peer(store: &mut PeerStore, peer: Peer, now: u64) -> (r: bool)
    ensures
        final(store).view() == old(store).view().insert(
            peer.id@,
            PeerView { last_gossip_heartbeat: now, ..peer@ },
        ),
        r == !old(store).view().contains_key(peer.id@),
{
    let mut local = peer;
    local.last_gossip_heartbeat = now;
    store.upsert(local)
}

} // verus!
