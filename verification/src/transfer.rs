//! Moving segments between zones: the chunks a sender cuts a segment into,
//! how the receiving zone puts them back together and checks them, the
//! schedule of retries of a transfer, and the check of a zone's secret.

use vstd::prelude::*;
use crate::digest::{blake3_digest, blake3_hash};
use crate::capsules::{Capsule, TransferAck};
use crate::foundry::uuid_string;
use crate::reconcile::VolumeId;

verus! {

/// Bytes per chunk unless configured otherwise (4 MiB).
pub const DEFAULT_CHUNK_BYTES: usize = 4194304;

/// Retries after the first attempt unless configured otherwise.
pub const DEFAULT_MAX_RETRIES: usize = 6;

/// Wait before the first retry, in milliseconds.
pub const INITIAL_RETRY_DELAY_MS: u64 = 200;

/// Longest wait between two attempts, in milliseconds.
pub const MAX_RETRY_DELAY_MS: u64 = 10000;

/// After this many milliseconds a failed transfer is not tried again.
pub const MAX_TRANSFER_ELAPSED_MS: u64 = 120000;

/// One piece of a segment on its way to a remote zone.
#[derive(Clone, Debug)]
pub struct SegmentChunk {
    pub capsule_id: String,
    pub segment_index: u32,
    pub content_hash: Vec<u8>,
    pub data: Vec<u8>,
    pub total_len: u64,
}

pub struct ChunkView {
    pub capsule_id: Seq<char>,
    pub segment_index: u32,
    pub content_hash: Seq<u8>,
    pub data: Seq<u8>,
    pub total_len: u64,
}

impl View for SegmentChunk {
    type V = ChunkView;

    open spec fn view(&self) -> ChunkView {
        ChunkView {
            capsule_id: self.capsule_id@,
            segment_index: self.segment_index,
            content_hash: self.content_hash@,
            data: self.data@,
            total_len: self.total_len,
        }
    }
}

pub open spec fn chunk_views(s: Seq<SegmentChunk>) -> Seq<ChunkView> {
    s.map_values(|c: SegmentChunk| c@)
}

// ---------------------------------------------------------------------------
// Sending
// ---------------------------------------------------------------------------

/// `s` cut into pieces of `n` bytes, the last one shorter when `n` does not
/// divide the length; no piece at all for an empty `s`.
pub open spec fn chunks_of(s: Seq<u8>, n: nat) -> Seq<Seq<u8>>
    decreases s.len(),
{
    if s.len() == 0 || n == 0 {
        Seq::empty()
    } else if s.len() <= n {
        seq![s]
    } else {
        seq![s.take(n as int)] + chunks_of(s.skip(n as int), n)
    }
}

/// The piece size used for a configured size: at least one byte.
pub open spec fn chunk_size(chunk_bytes: usize) -> nat {
    if chunk_bytes == 0 {
        1
    } else {
        chunk_bytes as nat
    }
}

/// The chunks that carry `payload`, cut in pieces of `n` bytes, each
/// naming the capsule, the segment's position and the segment's digest.
pub open spec fn expected_chunks(
    capsule_id: Seq<char>,
    segment_index: u32,
    digest: Seq<u8>,
    payload: Seq<u8>,
    n: nat,
) -> Seq<ChunkView> {
    chunks_of(payload, n).map_values(
        |d: Seq<u8>|
            ChunkView {
                capsule_id,
                segment_index,
                content_hash: digest,
                data: d,
                total_len: payload.len() as u64,
            },
    )
}

pub open spec fn chunk_data(s: Seq<SegmentChunk>) -> Seq<Seq<u8>> {
    s.map_values(|c: SegmentChunk| c.data@)
}

proof fn lemma_chunks_step(p: Seq<u8>, a: int, n: nat)
    requires
        0 <= a < p.len(),
        n > 0,
    ensures
        ({
            let t = if p.len() - a <= n { p.len() - a } else { n as int };
            chunks_of(p.skip(a), n) == seq![p.subrange(a, a + t)] + chunks_of(p.skip(a + t), n)
        }),
{
    let q = p.skip(a);
    if q.len() <= n {
        assert(q =~= p.subrange(a, p.len() as int));
        assert(p.skip(p.len() as int).len() == 0);
        assert(seq![q] + chunks_of(p.skip(p.len() as int), n) =~= seq![q]);
    } else {
        assert(q.take(n as int) =~= p.subrange(a, a + n));
        assert(q.skip(n as int) =~= p.skip(a + n));
    }
}

/// The bytes `src[start..end]`.
fn copy_range(src: &[u8], start: usize, end: usize) -> (r: Vec<u8>)
    requires
        start <= end <= src@.len(),
    ensures
        r@ == src@.subrange(start as int, end as int),
{
    let mut r: Vec<u8> = Vec::new();
    let mut i: usize = start;
    while i < end
        invariant
            start <= i <= end,
            end <= src@.len(),
            r@ == src@.subrange(start as int, i as int),
        decreases end - i,
    {
        proof {
            assert(src@.subrange(start as int, i + 1) =~= src@.subrange(start as int, i as int).push(
                src@[i as int],
            ));
        }
        r.push(src[i]);
        i = i + 1;
    }
    r
}

/// Settings of the transfer of capsules to remote zones.
#[derive(Clone, Debug)]
pub struct WanTransferAgent {
    pub chunk_bytes: usize,
    pub max_retries: usize,
}

impl Default for WanTransferAgent {
    fn default() -> (r: Self)
        ensures
            r.chunk_bytes == DEFAULT_CHUNK_BYTES,
            r.max_retries == DEFAULT_MAX_RETRIES,
    {
        WanTransferAgent { chunk_bytes: DEFAULT_CHUNK_BYTES, max_retries: DEFAULT_MAX_RETRIES }
    }
}

/// What to do after an attempt failed.
#[derive(Clone, Copy, Debug, PartialEq, Eq, Structural)]
pub enum RetryDecision {
    /// Give up: the transfer failed.
    GiveUp,
    /// Wait `wait_ms`, try again, and wait `next_delay_ms` should that fail too.
    Retry { wait_ms: u64, next_delay_ms: u64 },
}

impl WanTransferAgent {
    /// The chunks that carry `payload`, given its digest: pieces of
    /// `chunk_bytes` bytes (at least one), each naming the capsule, the
    /// segment's position, the digest and the segment's length.
    pub fn segment_chunks_with_digest(
        &self,
        capsule_id: &String,
        segment_index: u32,
        digest: &Vec<u8>,
        payload: &[u8],
    ) -> (r: Vec<SegmentChunk>)
        ensures
            chunk_views(r@) == expected_chunks(
                capsule_id@,
                segment_index,
                digest@,
                payload@,
                chunk_size(self.chunk_bytes),
            ),
    {
        let n: usize = if self.chunk_bytes == 0 {
            1
        } else {
            self.chunk_bytes
        };
        let ghost p = payload@;
        let ghost ns = chunk_size(self.chunk_bytes);
        let len = payload.len();
        let total = len as u64;
        let mut r: Vec<SegmentChunk> = Vec::new();
        let mut start: usize = 0;
        proof {
            assert(p.skip(0) =~= p);
            assert(chunk_data(r@) + chunks_of(p, ns) =~= chunks_of(p, ns));
        }
        while start < len
            invariant
                len == p.len(),
                p == payload@,
                total == len as u64,
                n as nat == ns,
                ns > 0,
                start <= len,
                chunks_of(p, ns) == chunk_data(r@) + chunks_of(p.skip(start as int), ns),
                forall|i: int|
                    0 <= i < r@.len() ==> {
                        &&& (#[trigger] r@[i]).capsule_id@ == capsule_id@
                        &&& r@[i].segment_index == segment_index
                        &&& r@[i].content_hash@ == digest@
                        &&& r@[i].total_len == total
                    },
            decreases len - start,
        {
            let take: usize = if len - start <= n {
                len - start
            } else {
                n
            };
            let data = copy_range(payload, start, start + take);
            proof {
                lemma_chunks_step(p, start as int, ns);
            }
            let chunk = SegmentChunk {
                capsule_id: capsule_id.clone(),
                segment_index,
                content_hash: digest.clone(),
                data,
                total_len: total,
            };
            let ghost before = r@;
            r.push(chunk);
            proof {
                assert(chunk_data(r@) =~= chunk_data(before).push(p.subrange(
                    start as int,
                    start + take,
                )));
                assert(chunk_data(r@) + chunks_of(p.skip(start + take), ns) =~= chunk_data(before)
                    + (seq![p.subrange(start as int, start + take)] + chunks_of(
                    p.skip(start + take),
                    ns,
                )));
            }
            start = start + take;
        }
        proof {
            assert(p.skip(len as int).len() == 0);
            assert(chunk_data(r@) + chunks_of(p.skip(len as int), ns) =~= chunk_data(r@));
            assert(chunk_views(r@) =~= expected_chunks(capsule_id@, segment_index, digest@, p, ns));
        }
        r
    }

    /// The chunks that carry `payload` to a remote zone: pieces of
    /// `chunk_bytes` bytes (at least one), each carrying the BLAKE3 digest
    /// of the whole segment.
    pub fn segment_chunks(&self, capsule_id: &String, segment_index: u32, payload: &[u8]) -> (r:
        Vec<SegmentChunk>)
        ensures
            chunk_views(r@) == expected_chunks(
                capsule_id@,
                segment_index,
                blake3_digest(payload@),
                payload@,
                chunk_size(self.chunk_bytes),
            ),
    {
        let digest = blake3_hash(payload);
        self.segment_chunks_with_digest(capsule_id, segment_index, &digest, payload)
    }

    /// What follows the failure of attempt number `attempt` (counted from
    /// zero), `elapsed_ms` after the transfer started, when the wait before
    /// the next attempt is `delay_ms`: the last allowed attempt, or one that
    /// fails after the time limit, ends the transfer; otherwise the transfer
    /// waits `delay_ms` and the next wait doubles, up to the longest wait.
    pub fn after_failed_attempt(&self, attempt: usize, elapsed_ms: u64, delay_ms: u64) -> (r:
        RetryDecision)
        ensures
            (attempt >= self.max_retries || elapsed_ms >= MAX_TRANSFER_ELAPSED_MS) ==> r
                == RetryDecision::GiveUp,
            !(attempt >= self.max_retries || elapsed_ms >= MAX_TRANSFER_ELAPSED_MS) ==> r
                == (RetryDecision::Retry {
                wait_ms: delay_ms,
                next_delay_ms: if 2 * delay_ms <= MAX_RETRY_DELAY_MS {
                    (2 * delay_ms) as u64
                } else {
                    MAX_RETRY_DELAY_MS
                },
            }),
    {
        if attempt >= self.max_retries || elapsed_ms >= MAX_TRANSFER_ELAPSED_MS {
            return RetryDecision::GiveUp;
        }
        let next = if delay_ms <= MAX_RETRY_DELAY_MS / 2 {
            delay_ms + delay_ms
        } else {
            MAX_RETRY_DELAY_MS
        };
        RetryDecision::Retry { wait_ms: delay_ms, next_delay_ms: next }
    }
}

// ---------------------------------------------------------------------------
// Receiving
// ---------------------------------------------------------------------------

/// Position of the first chunk that names a capsule.
pub open spec fn first_named(s: Seq<ChunkView>) -> Option<int>
    decreases s.len(),
{
    if s.len() == 0 {
        None
    } else {
        match first_named(s.drop_last()) {
            Some(i) => Some(i),
            None => if s.last().capsule_id.len() > 0 {
                Some(s.len() - 1)
            } else {
                None
            },
        }
    }
}

/// The first digest that a chunk carries.
pub open spec fn first_digest(s: Seq<ChunkView>) -> Option<Seq<u8>>
    decreases s.len(),
{
    if s.len() == 0 {
        None
    } else {
        match first_digest(s.drop_last()) {
            Some(h) => Some(h),
            None => if s.last().content_hash.len() > 0 {
                Some(s.last().content_hash)
            } else {
                None
            },
        }
    }
}

/// The first segment length, other than zero, that a chunk announces.
pub open spec fn first_total(s: Seq<ChunkView>) -> Option<u64>
    decreases s.len(),
{
    if s.len() == 0 {
        None
    } else {
        match first_total(s.drop_last()) {
            Some(t) => Some(t),
            None => if s.last().total_len > 0 {
                Some(s.last().total_len)
            } else {
                None
            },
        }
    }
}

/// The bytes of the chunks, one after the other.
pub open spec fn joined_data(s: Seq<ChunkView>) -> Seq<u8>
    decreases s.len(),
{
    if s.len() == 0 {
        Seq::empty()
    } else {
        joined_data(s.drop_last()) + s.last().data
    }
}

/// Why a receiving zone refuses a segment.
#[derive(Clone, Copy, Debug, PartialEq, Eq, Structural)]
pub enum SegmentError {
    /// No chunk names a capsule.
    MissingCapsuleId,
    /// The bytes received are not as many as announced.
    LengthMismatch,
    /// The bytes received do not have the announced digest.
    HashMismatch,
}

/// The text of a refusal.
pub open spec fn segment_error_text(e: SegmentError) -> Seq<char> {
    match e {
        SegmentError::MissingCapsuleId => "missing capsule_id"@,
        SegmentError::LengthMismatch => "segment length mismatch"@,
        SegmentError::HashMismatch => "segment hash mismatch"@,
    }
}

impl SegmentError {
    /// The refusal as text.
    pub fn message(&self) -> (r: &'static str)
        ensures
            r@ == segment_error_text(*self),
    {
        match self {
            SegmentError::MissingCapsuleId => "missing capsule_id",
            SegmentError::LengthMismatch => "segment length mismatch",
            SegmentError::HashMismatch => "segment hash mismatch",
        }
    }
}

/// Whether, and why, chunks whose bytes have the digest `computed` are
/// refused.
pub open spec fn segment_refusal(s: Seq<ChunkView>, computed: Seq<u8>) -> Option<SegmentError> {
    if first_named(s) is None {
        Some(SegmentError::MissingCapsuleId)
    } else if first_total(s) is Some && joined_data(s).len() != first_total(s)->0 {
        Some(SegmentError::LengthMismatch)
    } else if first_digest(s) is Some && first_digest(s)->0 != computed {
        Some(SegmentError::HashMismatch)
    } else {
        None
    }
}

/// A segment put back together from its chunks.
#[derive(Clone, Debug)]
pub struct ReceivedSegment {
    pub capsule_id: String,
    pub segment_index: u32,
    pub data: Vec<u8>,
    pub content_hash: Vec<u8>,
}

/// What a receiver keeps of accepted chunks: the capsule and position named
/// by the first chunk that names a capsule, and the bytes of all chunks.
pub open spec fn accepted(r: ReceivedSegment, s: Seq<ChunkView>, computed: Seq<u8>) -> bool {
    &&& first_named(s) is Some
    &&& r.capsule_id@ == s[first_named(s)->0].capsule_id
    &&& r.segment_index == s[first_named(s)->0].segment_index
    &&& r.data@ == joined_data(s)
    &&& r.content_hash@ == computed
}

proof fn lemma_first_named_bound(s: Seq<ChunkView>)
    ensures
        first_named(s) matches Some(i) ==> 0 <= i < s.len() && s[i].capsule_id.len() > 0,
    decreases s.len(),
{
    if s.len() > 0 {
        lemma_first_named_bound(s.drop_last());
    }
}

/// The bytes of `chunks`, one after the other.
pub fn join_chunks(chunks: &[SegmentChunk]) -> (r: Vec<u8>)
    ensures
        r@ == joined_data(chunk_views(chunks@)),
{
    let ghost s = chunk_views(chunks@);
    let mut r: Vec<u8> = Vec::new();
    let mut i: usize = 0;
    proof {
        assert(s.take(0) =~= Seq::<ChunkView>::empty());
    }
    while i < chunks.len()
        invariant
            i <= chunks@.len(),
            s == chunk_views(chunks@),
            r@ == joined_data(s.take(i as int)),
        decreases chunks@.len() - i,
    {
        proof {
            assert(s.take(i + 1).drop_last() =~= s.take(i as int));
        }
        let data = &chunks[i].data;
        let mut j: usize = 0;
        let ghost base = r@;
        while j < data.len()
            invariant
                j <= data@.len(),
                r@ == base + data@.subrange(0, j as int),
            decreases data@.len() - j,
        {
            proof {
                assert(data@.subrange(0, j + 1) =~= data@.subrange(0, j as int).push(data@[j as int]));
            }
            r.push(data[j]);
            j = j + 1;
        }
        proof {
            assert(data@.subrange(0, data@.len() as int) =~= data@);
        }
        i = i + 1;
    }
    proof {
        assert(s.take(chunks@.len() as int) =~= s);
    }
    r
}

/// Checks the chunks of a segment against `computed`, the digest of their
/// bytes: they must name a capsule, carry as many bytes as the first length
/// they announce, and carry the first digest they announce.
pub fn accept_segment(chunks: &[SegmentChunk], computed: &[u8]) -> (r: Result<
    ReceivedSegment,
    SegmentError,
>)
    ensures
        match segment_refusal(chunk_views(chunks@), computed@) {
            Some(e) => r == Err::<ReceivedSegment, SegmentError>(e),
            None => r is Ok && accepted(r->Ok_0, chunk_views(chunks@), computed@),
        },
{
    let ghost s = chunk_views(chunks@);
    let mut named: Option<usize> = None;
    let mut digest: Option<usize> = None;
    let mut total: Option<u64> = None;
    let mut i: usize = 0;
    proof {
        assert(s.take(0) =~= Seq::<ChunkView>::empty());
    }
    while i < chunks.len()
        invariant
            i <= chunks@.len(),
            s == chunk_views(chunks@),
            match named {
                Some(k) => first_named(s.take(i as int)) == Some(k as int),
                None => first_named(s.take(i as int)) is None,
            },
            match digest {
                Some(k) => k < i && first_digest(s.take(i as int)) == Some(s[k as int].content_hash),
                None => first_digest(s.take(i as int)) is None,
            },
            match total {
                Some(t) => first_total(s.take(i as int)) == Some(t),
                None => first_total(s.take(i as int)) is None,
            },
        decreases chunks@.len() - i,
    {
        proof {
            assert(s.take(i + 1).drop_last() =~= s.take(i as int));
            assert(s.take(i + 1).last() == s[i as int]);
        }
        if named.is_none() && chunks[i].capsule_id.as_str().unicode_len() > 0 {
            named = Some(i);
        }
        if digest.is_none() && chunks[i].content_hash.len() > 0 {
            digest = Some(i);
        }
        if total.is_none() && chunks[i].total_len > 0 {
            total = Some(chunks[i].total_len);
        }
        i = i + 1;
    }
    proof {
        assert(s.take(chunks@.len() as int) =~= s);
        lemma_first_named_bound(s);
    }
    let k = match named {
        Some(k) => k,
        None => return Err(SegmentError::MissingCapsuleId),
    };
    let data = join_chunks(chunks);
    match total {
        Some(t) => {
            if data.len() as u64 != t {
                return Err(SegmentError::LengthMismatch);
            }
        },
        None => {},
    }
    match digest {
        Some(d) => {
            if !bytes_equal(&chunks[d].content_hash, computed) {
                return Err(SegmentError::HashMismatch);
            }
        },
        None => {},
    }
    let hash = copy_range(computed, 0, computed.len());
    proof {
        assert(computed@.subrange(0, computed@.len() as int) =~= computed@);
    }
    Ok(
        ReceivedSegment {
            capsule_id: chunks[k].capsule_id.clone(),
            segment_index: chunks[k].segment_index,
            data,
            content_hash: hash,
        },
    )
}

/// Whether two byte strings are equal.
fn bytes_equal(a: &Vec<u8>, b: &[u8]) -> (r: bool)
    ensures
        r == (a@ == b@),
{
    if a.len() != b.len() {
        return false;
    }
    let mut i: usize = 0;
    while i < a.len()
        invariant
            a@.len() == b@.len(),
            i <= a@.len(),
            forall|j: int| 0 <= j < i ==> a@[j] == b@[j],
        decreases a@.len() - i,
    {
        if a[i] != b[i] {
            return false;
        }
        i = i + 1;
    }
    proof {
        assert(a@ =~= b@);
    }
    true
}

/// Puts a segment back together from its chunks and checks it against the
/// BLAKE3 digest of the bytes received.
pub fn receive_segment(chunks: &[SegmentChunk]) -> (r: Result<ReceivedSegment, SegmentError>)
    ensures
        ({
            let s = chunk_views(chunks@);
            let computed = blake3_digest(joined_data(s));
            match segment_refusal(s, computed) {
                Some(e) => r == Err::<ReceivedSegment, SegmentError>(e),
                None => r is Ok && accepted(r->Ok_0, s, computed),
            }
        }),
        r matches Ok(x) ==> x.content_hash@.len() == 32,
{
    let data = join_chunks(chunks);
    let computed = blake3_hash(data.as_slice());
    accept_segment(chunks, computed.as_slice())
}

/// Whether a caller presenting `provided` is let in: always when no secret
/// is configured, otherwise when it presents exactly that secret.
pub fn secret_accepted(expected: &Option<String>, provided: &String) -> (r: bool)
    ensures
        r == (expected is None || expected->0@ == provided@),
{
    match expected {
        Some(e) => e.eq(provided),
        None => true,
    }
}

// ---------------------------------------------------------------------------
// Laws
// ---------------------------------------------------------------------------

proof fn lemma_joined_append(a: Seq<ChunkView>, b: Seq<ChunkView>)
    ensures
        joined_data(a + b) == joined_data(a) + joined_data(b),
    decreases b.len(),
{
    if b.len() == 0 {
        assert(a + b =~= a);
        assert(joined_data(a) + Seq::<u8>::empty() =~= joined_data(a));
    } else {
        assert((a + b).drop_last() =~= a + b.drop_last());
        assert((a + b).last() == b.last());
        lemma_joined_append(a, b.drop_last());
        assert(joined_data(a) + joined_data(b.drop_last()) + b.last().data =~= joined_data(a) + (
        joined_data(b.drop_last()) + b.last().data));
    }
}

proof fn lemma_expected_facts(
    capsule_id: Seq<char>,
    segment_index: u32,
    digest: Seq<u8>,
    p: Seq<u8>,
    q: Seq<u8>,
    n: nat,
)
    requires
        n > 0,
    ensures
        joined_data(
            chunks_of(q, n).map_values(
                |d: Seq<u8>|
                    ChunkView {
                        capsule_id,
                        segment_index,
                        content_hash: digest,
                        data: d,
                        total_len: p.len() as u64,
                    },
            ),
        ) == q,
        q.len() > 0 ==> chunks_of(q, n).len() > 0,
    decreases q.len(),
{
    let f = |d: Seq<u8>|
        ChunkView {
            capsule_id,
            segment_index,
            content_hash: digest,
            data: d,
            total_len: p.len() as u64,
        };
    if q.len() == 0 {
    } else if q.len() <= n {
        let m = chunks_of(q, n).map_values(f);
        assert(chunks_of(q, n) =~= seq![q]);
        assert(m =~= seq![f(q)]);
        lemma_joined_single(f(q));
    } else {
        lemma_expected_facts(capsule_id, segment_index, digest, p, q.skip(n as int), n);
        let head = seq![q.take(n as int)].map_values(f);
        let tail = chunks_of(q.skip(n as int), n).map_values(f);
        assert(chunks_of(q, n).map_values(f) =~= head + tail);
        lemma_joined_append(head, tail);
        assert(head =~= seq![f(q.take(n as int))]);
        lemma_joined_single(f(q.take(n as int)));
        assert(q.take(n as int) + q.skip(n as int) =~= q);
    }
}

proof fn lemma_joined_single(c: ChunkView)
    ensures
        joined_data(seq![c]) == c.data,
{
    let s = seq![c];
    assert(s.drop_last() =~= Seq::<ChunkView>::empty());
    assert(joined_data(s.drop_last()) == Seq::<u8>::empty());
    assert(s.last() == c);
    assert(Seq::<u8>::empty() + c.data =~= c.data);
}

proof fn lemma_uniform_firsts(s: Seq<ChunkView>, c: ChunkView)
    requires
        s.len() > 0,
        forall|i: int|
            0 <= i < s.len() ==> {
                &&& (#[trigger] s[i]).capsule_id == c.capsule_id
                &&& s[i].segment_index == c.segment_index
                &&& s[i].content_hash == c.content_hash
                &&& s[i].total_len == c.total_len
            },
    ensures
        c.capsule_id.len() > 0 ==> first_named(s) == Some(0int),
        c.content_hash.len() > 0 ==> first_digest(s) == Some(c.content_hash),
        c.total_len > 0 ==> first_total(s) == Some(c.total_len),
    decreases s.len(),
{
    if s.len() > 1 {
        let t = s.drop_last();
        assert forall|i: int| 0 <= i < t.len() implies {
            &&& (#[trigger] t[i]).capsule_id == c.capsule_id
            &&& t[i].segment_index == c.segment_index
            &&& t[i].content_hash == c.content_hash
            &&& t[i].total_len == c.total_len
        } by {
            assert(t[i] == s[i]);
        }
        lemma_uniform_firsts(t, c);
    } else {
        assert(s.drop_last().len() == 0);
        assert(s.last() == s[0]);
        assert(first_named(s.drop_last()) is None);
        assert(first_digest(s.drop_last()) is None);
        assert(first_total(s.drop_last()) is None);
    }
}

/// A receiving zone accepts the chunks that a sender cuts a segment into,
/// and gets back the segment, the capsule and the position the sender
/// named: for any non-empty segment sent under a non-empty capsule id with
/// a non-empty digest, the chunks' bytes are the segment, and the chunks
/// are accepted when the receiver computes that digest from them.
pub proof fn lemma_chunks_round_trip(
    capsule_id: Seq<char>,
    segment_index: u32,
    digest: Seq<u8>,
    payload: Seq<u8>,
    n: nat,
)
    requires
        capsule_id.len() > 0,
        digest.len() > 0,
        payload.len() > 0,
        payload.len() <= u64::MAX,
        n > 0,
    ensures
        joined_data(expected_chunks(capsule_id, segment_index, digest, payload, n)) == payload,
        segment_refusal(expected_chunks(capsule_id, segment_index, digest, payload, n), digest)
            is None,
        first_named(expected_chunks(capsule_id, segment_index, digest, payload, n)) == Some(0int),
        expected_chunks(capsule_id, segment_index, digest, payload, n)[0].capsule_id == capsule_id,
        expected_chunks(capsule_id, segment_index, digest, payload, n)[0].segment_index
            == segment_index,
{
    let s = expected_chunks(capsule_id, segment_index, digest, payload, n);
    lemma_expected_facts(capsule_id, segment_index, digest, payload, payload, n);
    let c = ChunkView {
        capsule_id,
        segment_index,
        content_hash: digest,
        data: payload,
        total_len: payload.len() as u64,
    };
    lemma_uniform_firsts(s, c);
}

// ---------------------------------------------------------------------------
// One replication attempt
// ---------------------------------------------------------------------------

/// Why an attempt to replicate a capsule to a zone stopped.
#[derive(Clone, Debug)]
pub enum AttemptError {
    /// The zone refused the greeting, saying why.
    HelloRejected(String),
    /// The zone refused a segment, saying why.
    SegmentRejected(String),
}

/// The greeting's answer: the attempt goes on only when the zone took it.
pub fn hello_outcome(ok: bool, message: String) -> (r: Result<(), AttemptError>)
    ensures
        ok ==> r is Ok,
        !ok ==> (r matches Err(AttemptError::HelloRejected(m)) && m@ == message@),
{
    if ok {
        Ok(())
    } else {
        Err(AttemptError::HelloRejected(message))
    }
}

/// The index of the first refused acknowledgement, if any.
pub open spec fn first_refused(acks: Seq<TransferAck>) -> Option<int>
    decreases acks.len(),
{
    if acks.len() == 0 {
        None
    } else {
        match first_refused(acks.drop_last()) {
            Some(i) => Some(i),
            None => if !acks.last().ok {
                Some(acks.len() - 1)
            } else {
                None
            },
        }
    }
}

/// The segments the zone stored the capsule's segments under, in order,
/// taken from its acknowledgements; the first refusal stops the attempt
/// with the zone's word on it.
pub fn collect_segment_acks(acks: &Vec<TransferAck>) -> (r: Result<Vec<u64>, AttemptError>)
    ensures
        match first_refused(acks@) {
            Some(i) => r matches Err(AttemptError::SegmentRejected(m)) && m@ == acks@[i].message@,
            None => r matches Ok(ids) && ids@ == acks@.map_values(|a: TransferAck| a.segment_id),
        },
{
    let mut ids: Vec<u64> = Vec::new();
    let mut i: usize = 0;
    while i < acks.len()
        invariant
            i <= acks@.len(),
            first_refused(acks@.take(i as int)) is None,
            ids@ == acks@.take(i as int).map_values(|a: TransferAck| a.segment_id),
        decreases acks@.len() - i,
    {
        proof {
            assert(acks@.take(i + 1).drop_last() =~= acks@.take(i as int));
            assert(acks@.take(i + 1).last() == acks@[i as int]);
        }
        if !acks[i].ok {
            proof {
                lemma_first_refused_prefix(acks@, i as int);
            }
            return Err(AttemptError::SegmentRejected(acks[i].message.clone()));
        }
        ids.push(acks[i].segment_id);
        proof {
            assert(ids@ =~= acks@.take(i + 1).map_values(|a: TransferAck| a.segment_id));
        }
        i = i + 1;
    }
    proof {
        assert(acks@.take(i as int) =~= acks@);
    }
    Ok(ids)
}

proof fn lemma_first_refused_prefix(acks: Seq<TransferAck>, i: int)
    requires
        0 <= i < acks.len(),
        first_refused(acks.take(i)) is None,
        !acks[i].ok,
    ensures
        first_refused(acks) == Some(i),
    decreases acks.len(),
{
    if acks.len() - 1 > i {
        assert(acks.drop_last().take(i) =~= acks.take(i));
        lemma_first_refused_prefix(acks.drop_last(), i);
    } else {
        assert(acks.drop_last() =~= acks.take(i));
    }
}

/// What a zone is told of a capsule it now holds: its id as UUID text, its
/// size, when it was made, the zone's own segments for it, and the bytes
/// deduplication saved.
#[derive(Clone, Debug)]
pub struct CapsuleMetadata {
    pub capsule_id: String,
    pub size: u64,
    pub created_at: u64,
    pub segment_ids: Vec<u64>,
    pub deduped_bytes: u64,
}

/// The metadata that registers `capsule` with a zone that stored its
/// segments under `dest_segments`.
pub fn capsule_metadata(capsule: &Capsule, dest_segments: Vec<u64>) -> (r: CapsuleMetadata)
    ensures
        r.capsule_id@ == uuid_string(capsule.id),
        r.size == capsule.size,
        r.created_at == capsule.created_at,
        r.segment_ids@ == dest_segments@,
        r.deduped_bytes == capsule.deduped_bytes,
{
    CapsuleMetadata {
        capsule_id: VolumeId(capsule.id).to_text(),
        size: capsule.size,
        created_at: capsule.created_at,
        segment_ids: dest_segments,
        deduped_bytes: capsule.deduped_bytes,
    }
}

} // verus!
