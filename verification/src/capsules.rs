//! Capsules: the catalog of stored objects and content hashes, and the
//! bookkeeping of writing, reading, deleting and collecting them over the
//! segment log. Compressing, encrypting and moving bytes are the caller's;
//! it hands in their results.

use vstd::prelude::*;
use crate::gossip::{ascii_chars, current_timestamp, hex_bytes, to_hex};
use crate::transfer::ReceivedSegment;
use crate::reconcile::{parse_uuid, uuid_parse};
use crate::nvram::{
    fresh_segment, key_index, keys, lemma_index_unique, lemma_upsert_distinct, lemma_upsert_is_update,
    lemma_upsert_lookup, lookup, upsert, NvramLog, Segment,
};
use crate::layout::{seg_views, SegmentView, Zone, ZonePlan};

verus! {

/// A stored object: its size and the segments that hold it, in order.
#[derive(Debug)]
pub struct Capsule {
    pub id: u128,
    pub size: u64,
    pub segments: Vec<u64>,
    pub created_at: u64,
    /// Bytes that other capsules' segments already held.
    pub deduped_bytes: u64,
}

pub struct CapsuleView {
    pub id: u128,
    pub size: u64,
    pub segments: Seq<u64>,
    pub created_at: u64,
    pub deduped_bytes: u64,
}

impl View for Capsule {
    type V = CapsuleView;

    open spec fn view(&self) -> CapsuleView {
        CapsuleView {
            id: self.id,
            size: self.size,
            segments: self.segments@,
            created_at: self.created_at,
            deduped_bytes: self.deduped_bytes,
        }
    }
}

impl Capsule {
    pub fn copy(&self) -> (r: Capsule)
        ensures
            r@ == self@,
    {
        Capsule {
            id: self.id,
            size: self.size,
            segments: self.segments.clone(),
            created_at: self.created_at,
            deduped_bytes: self.deduped_bytes,
        }
    }
}

/// Why a capsule sent by another zone is not registered.
#[derive(Clone, Copy, Debug, PartialEq, Eq, Structural)]
pub enum RegisterError {
    /// The capsule id is not a UUID.
    InvalidId,
}

/// The answer to a capsule registration: whether the capsule was there
/// already, and a word on it.
#[derive(Clone, Debug)]
pub struct RegisterAck {
    pub ok: bool,
    pub already_exists: bool,
    pub message: String,
}

/// Why a catalog or pipeline operation is refused.
#[derive(Clone, Copy, Debug, PartialEq, Eq, Structural)]
pub enum CatalogError {
    CapsuleNotFound(u128),
    /// A segment a capsule refers to is not in the log.
    SegmentNotFound(u64),
    /// A planned piece reaches past the end of the data.
    PlanBeyondData { end: u64, len: u64 },
}

pub open spec fn capsule_views(s: Seq<Capsule>) -> Seq<CapsuleView> {
    s.map_values(|c: Capsule| c@)
}

pub open spec fn capsule_ids(s: Seq<CapsuleView>) -> Seq<u128> {
    s.map_values(|c: CapsuleView| c.id)
}

/// Position of capsule `id`.
pub open spec fn capsule_index(s: Seq<CapsuleView>, id: u128) -> Option<int> {
    if exists|i: int| 0 <= i < s.len() && s[i].id == id {
        Some(choose|i: int| 0 <= i < s.len() && s[i].id == id)
    } else {
        None
    }
}

pub open spec fn content_views(s: Seq<(String, u64)>) -> Seq<(Seq<char>, u64)> {
    s.map_values(|e: (String, u64)| (e.0@, e.1))
}

pub open spec fn hashes(s: Seq<(Seq<char>, u64)>) -> Seq<Seq<char>> {
    s.map_values(|e: (Seq<char>, u64)| e.0)
}

/// Position of the content entry for `hash`.
pub open spec fn content_index(s: Seq<(Seq<char>, u64)>, hash: Seq<char>) -> Option<int> {
    if exists|i: int| 0 <= i < s.len() && s[i].0 == hash {
        Some(choose|i: int| 0 <= i < s.len() && s[i].0 == hash)
    } else {
        None
    }
}

/// The segment registered for `hash`.
pub open spec fn content_of(s: Seq<(Seq<char>, u64)>, hash: Seq<char>) -> Option<u64> {
    match content_index(s, hash) {
        Some(i) => Some(s[i].1),
        None => None,
    }
}

proof fn lemma_capsule_index(s: Seq<CapsuleView>, i: int, id: u128)
    requires
        capsule_ids(s).no_duplicates(),
        0 <= i < s.len(),
        s[i].id == id,
    ensures
        capsule_index(s, id) == Some(i),
{
    let k = capsule_index(s, id)->0;
    assert(0 <= k < s.len() && s[k].id == id);
    assert(capsule_ids(s)[k] == s[k].id);
    assert(capsule_ids(s)[i] == s[i].id);
}

proof fn lemma_content_index(s: Seq<(Seq<char>, u64)>, i: int, hash: Seq<char>)
    requires
        hashes(s).no_duplicates(),
        0 <= i < s.len(),
        s[i].0 == hash,
    ensures
        content_index(s, hash) == Some(i),
{
    let k = content_index(s, hash)->0;
    assert(0 <= k < s.len() && s[k].0 == hash);
    assert(hashes(s)[k] == s[k].0);
    assert(hashes(s)[i] == s[i].0);
}

/// `after` is `before` with capsule `id` recorded in place of the one with
/// that id, or after the others, with the given size, segments and
/// deduplicated bytes.
pub open spec fn capsule_recorded(
    before: Seq<CapsuleView>,
    after: Seq<CapsuleView>,
    id: u128,
    size: u64,
    segments: Seq<u64>,
    deduped_bytes: u64,
) -> bool {
    let k = match capsule_index(before, id) {
        Some(i) => i,
        None => before.len() as int,
    };
    &&& after.len() == if capsule_index(before, id) is Some {
        before.len()
    } else {
        before.len() + 1
    }
    &&& forall|j: int| 0 <= j < before.len() && j != k ==> after[j] == before[j]
    &&& capsule_index(after, id) == Some(k)
    &&& after[k].size == size
    &&& after[k].segments == segments
    &&& after[k].deduped_bytes == deduped_bytes
}

/// The content entries with `seg` registered for `hash`, in place of what
/// was registered for it.
pub open spec fn registered(c: Seq<(Seq<char>, u64)>, hash: Seq<char>, seg: u64) -> Seq<(Seq<char>, u64)> {
    match content_index(c, hash) {
        Some(i) => c.update(i, (hash, seg)),
        None => c.push((hash, seg)),
    }
}

/// What the log and the catalog hold between writes.
pub struct StoreState {
    pub log: Seq<(u64, Segment)>,
    pub end: u64,
    pub content: Seq<(Seq<char>, u64)>,
    pub next: u64,
}

pub open spec fn store_of(log: NvramLog, catalog: InMemoryCatalog) -> StoreState {
    StoreState { log: log.view(), end: log.end(), content: catalog.content_list(), next: catalog.next_id() }
}

/// Segment `s`, recorded under `key`, once one more capsule holds it.
pub open spec fn shared(s: Segment, key: u64) -> Segment {
    Segment { id: key, ref_count: (s.ref_count + 1) as u32, deduplicated: s.ref_count + 1 > 1, ..s }
}

/// Storing a chunk whose content hash is `hash` and whose stored bytes
/// number `len`: when a segment holds that content already, it is shared
/// (or, missing from the log, the store fails naming it); else a new
/// segment is appended at the log's end and registered for the hash.
/// Gives the new state, the segment and whether it was shared.
pub open spec fn store_one(st: StoreState, hash: Seq<char>, len: usize) -> Result<(StoreState, u64, bool), u64> {
    match content_of(st.content, hash) {
        Some(seg) => match key_index(st.log, seg) {
            Some(i) => Ok(
                (StoreState { log: st.log.update(i, (seg, shared(st.log[i].1, seg))), ..st }, seg, true),
            ),
            None => Err(seg),
        },
        None => Ok(
            (
                StoreState {
                    log: upsert(st.log, st.next, fresh_segment(st.next, st.end, len as u32)),
                    end: (st.end + len) as u64,
                    content: registered(st.content, hash, st.next),
                    next: (st.next + 1) as u64,
                },
                st.next,
                false,
            ),
        ),
    }
}

/// The answer to a segment sent by another zone: the segment that holds
/// its content and a word on how it got there.
#[derive(Clone, Debug)]
pub struct TransferAck {
    pub ok: bool,
    pub segment_id: u64,
    pub message: String,
}

/// The 32 bytes of a digest, as an array.
fn digest_array(v: &Vec<u8>) -> (r: [u8; 32])
    requires
        v@.len() == 32,
    ensures
        r@ == v@,
{
    let mut a: [u8; 32] = [0u8; 32];
    let mut i: usize = 0;
    while i < 32
        invariant
            v@.len() == 32,
            i <= 32,
            forall|k: int| 0 <= k < i ==> a@[k] == v@[k],
        decreases 32 - i,
    {
        a.set(i, v[i]);
        i = i + 1;
    }
    assert(a@ =~= v@);
    a
}

/// The key under which content with digest `digest` is recorded: the
/// digest's lower-case hexadecimal spelling.
pub fn content_key(digest: &Vec<u8>) -> (r: String)
    ensures
        r@ == ascii_chars(hex_bytes(digest@)),
{
    to_hex(digest)
}

/// A planned piece of a capsule as the caller stores it: the content hash
/// of its compressed bytes, their number, and the number of bytes written
/// (after encryption, if any).
#[derive(Clone, Debug)]
pub struct StoredChunk {
    pub hash: String,
    pub stored_len: u64,
    pub payload_len: usize,
}

pub open spec fn chunk_views(s: Seq<StoredChunk>) -> Seq<(Seq<char>, u64, usize)> {
    s.map_values(|c: StoredChunk| (c.hash@, c.stored_len, c.payload_len))
}

/// How far a write got: the store, the segments of the pieces stored so
/// far, the bytes found already stored, and why it stopped, if it did.
pub struct WriteRun {
    pub state: StoreState,
    pub segments: Seq<u64>,
    pub saved: nat,
    pub failure: Option<CatalogError>,
}

/// Where a piece ends, stopping at the largest offset.
pub open spec fn piece_end(piece: (u64, u64)) -> u64 {
    if piece.0 + piece.1 <= u64::MAX {
        (piece.0 + piece.1) as u64
    } else {
        u64::MAX
    }
}

/// The first `i` steps of a write of `data_len` bytes cut into `pieces`,
/// stored as `chunks`: a piece reaching past the data stops it, else its
/// chunk is stored.
pub open spec fn write_run(
    st: StoreState,
    pieces: Seq<(u64, u64)>,
    chunks: Seq<(Seq<char>, u64, usize)>,
    data_len: u64,
    i: nat,
) -> WriteRun
    decreases i,
{
    if i == 0 {
        WriteRun { state: st, segments: Seq::empty(), saved: 0, failure: None }
    } else {
        let prev = write_run(st, pieces, chunks, data_len, (i - 1) as nat);
        if prev.failure is Some {
            prev
        } else if piece_end(pieces[i - 1]) > data_len {
            WriteRun {
                failure: Some(CatalogError::PlanBeyondData { end: piece_end(pieces[i - 1]), len: data_len }),
                ..prev
            }
        } else {
            let c = chunks[i - 1];
            match store_one(prev.state, c.0, c.2) {
                Ok((st2, seg, shared)) => WriteRun {
                    state: st2,
                    segments: prev.segments.push(seg),
                    saved: prev.saved + if shared { c.1 as nat } else { 0nat },
                    failure: None,
                },
                Err(seg) => WriteRun { failure: Some(CatalogError::SegmentNotFound(seg)), ..prev },
            }
        }
    }
}

/// Every content entry names a segment numbered below `next`.
pub open spec fn names_below(content: Seq<(Seq<char>, u64)>, next: u64) -> bool {
    forall|i: int| 0 <= i < content.len() ==> #[trigger] content[i].1 < next
}

/// Piece `k` is the first of `segs` stored in its segment.
pub open spec fn first_use(segs: Seq<u64>, k: int) -> bool {
    forall|j: int| 0 <= j < k ==> segs[j] != segs[k]
}

/// Where a write from `st` that got to `r` put the segments it appended:
/// those numbered from `st.next` up to `r.state.next`, each in the log
/// between the log's old end and its new one, in the order of their
/// numbers without overlapping; the first piece stored in such a segment
/// gave it its length.
pub open spec fn appended_in_place(
    st: StoreState,
    r: WriteRun,
    chunks: Seq<(Seq<char>, u64, usize)>,
) -> bool {
    &&& st.next <= r.state.next
    &&& st.end <= r.state.end
    &&& forall|x: u64|
        st.next <= x < r.state.next ==> (#[trigger] lookup(r.state.log, x) matches Some(s) && st.end
            <= s.offset && s.offset + s.len <= r.state.end)
    &&& forall|x: u64, y: u64|
        st.next <= x < y < r.state.next ==> #[trigger] lookup(r.state.log, x)->0.offset + lookup(
            r.state.log,
            x,
        )->0.len <= #[trigger] lookup(r.state.log, y)->0.offset
    &&& forall|k: int|
        0 <= k < r.segments.len() && st.next <= r.segments[k] && #[trigger] first_use(r.segments, k)
            ==> lookup(r.state.log, r.segments[k])->0.len == chunks[k].2
}

/// A write that went through appends its new segments in place: numbered
/// from the catalog's next number on, laid out one after another from the
/// log's old end, each as long as the first piece stored in it. Holds when
/// the log records each segment once, every content entry names a segment
/// already numbered, and each stored piece fits a segment's length.
pub proof fn lemma_write_appends_in_place(
    st: StoreState,
    pieces: Seq<(u64, u64)>,
    chunks: Seq<(Seq<char>, u64, usize)>,
    data_len: u64,
    i: nat,
)
    requires
        keys(st.log).no_duplicates(),
        names_below(st.content, st.next),
        i <= pieces.len(),
        chunks.len() == pieces.len(),
        forall|k: int| 0 <= k < chunks.len() ==> #[trigger] chunks[k].2 <= u32::MAX,
        st.next + i <= u64::MAX,
        st.end + payload_total(chunks.take(i as int)) <= u64::MAX,
        write_run(st, pieces, chunks, data_len, i).failure is None,
    ensures
        ({
            let r = write_run(st, pieces, chunks, data_len, i);
            &&& appended_in_place(st, r, chunks)
            &&& keys(r.state.log).no_duplicates()
            &&& names_below(r.state.content, r.state.next)
            &&& r.segments.len() == i
            &&& r.state.next <= st.next + i
            &&& r.state.end <= st.end + payload_total(chunks.take(i as int))
            &&& forall|k: int| 0 <= k < i ==> #[trigger] r.segments[k] < r.state.next
            &&& forall|x: u64| st.next <= x < r.state.next ==> #[trigger] r.segments.contains(x)
        }),
    decreases i,
{
    if i > 0 {
        let j = (i - 1) as nat;
        assert(chunks.take(i as int).drop_last() =~= chunks.take(j as int));
        lemma_write_appends_in_place(st, pieces, chunks, data_len, j);
        let p = write_run(st, pieces, chunks, data_len, j);
        let r = write_run(st, pieces, chunks, data_len, i);
        let c = chunks[j as int];
        let s0 = p.state;
        match content_of(s0.content, c.0) {
            Some(seg) => {
                let ix = content_index(s0.content, c.0)->0;
                assert(s0.content[ix].1 == seg);
                let li = key_index(s0.log, seg)->0;
                let old_s = s0.log[li].1;
                lemma_index_unique(s0.log, li, seg);
                lemma_upsert_is_update(s0.log, li, seg, shared(old_s, seg));
                assert(r.state.log == upsert(s0.log, seg, shared(old_s, seg)));
                lemma_upsert_distinct(s0.log, seg, shared(old_s, seg));
                assert(lookup(s0.log, seg) == Some(old_s));
                assert forall|x: u64| true implies lookup(r.state.log, x) == (if x == seg {
                    Some(shared(old_s, seg))
                } else {
                    lookup(s0.log, x)
                }) by {
                    lemma_upsert_lookup(s0.log, seg, shared(old_s, seg), x);
                }
                assert(r.segments == p.segments.push(seg));
                assert forall|k: int| 0 <= k < j implies #[trigger] first_use(r.segments, k) == first_use(
                    p.segments,
                    k,
                ) by {
                    assert forall|q: int| 0 <= q < k implies r.segments[q] == p.segments[q] by {}
                }
                assert(chunks.take(i as int).last() == c);
                if st.next <= seg {
                    assert(seg < s0.next);
                    assert(p.segments.contains(seg));
                    let w = choose|k: int| 0 <= k < p.segments.len() && p.segments[k] == seg;
                    assert(r.segments[w] == seg);
                    assert(!first_use(r.segments, j as int));
                }
                assert forall|x: u64| st.next <= x < r.state.next implies #[trigger] r.segments.contains(x) by {
                    assert(r.state.next == s0.next);
                    assert(p.segments.contains(x));
                    let w = choose|k: int| 0 <= k < p.segments.len() && p.segments[k] == x;
                    assert(r.segments[w] == x);
                }
            },
            None => {
                let x0 = s0.next;
                let fresh = fresh_segment(x0, s0.end, c.2 as u32);
                lemma_upsert_distinct(s0.log, x0, fresh);
                assert forall|x: u64| true implies lookup(r.state.log, x) == (if x == x0 {
                    Some(fresh)
                } else {
                    lookup(s0.log, x)
                }) by {
                    lemma_upsert_lookup(s0.log, x0, fresh, x);
                }
                assert(r.segments == p.segments.push(x0));
                assert forall|k: int| 0 <= k < j implies #[trigger] first_use(r.segments, k) == first_use(
                    p.segments,
                    k,
                ) by {
                    assert forall|q: int| 0 <= q < k implies r.segments[q] == p.segments[q] by {}
                }
                assert(chunks.take(i as int).last() == c);
                assert forall|k: int| 0 <= k < j implies r.segments[k] != x0 by {
                    assert(r.segments[k] == p.segments[k]);
                }
                assert(first_use(r.segments, j as int));
                assert(r.state.content == s0.content.push((c.0, x0)));
                assert forall|k: int| 0 <= k < r.state.content.len() implies #[trigger] r.state.content[k].1
                    < r.state.next by {
                    if k < s0.content.len() {
                        assert(r.state.content[k] == s0.content[k]);
                    }
                }
                assert forall|x: u64| st.next <= x < r.state.next implies #[trigger] r.segments.contains(x) by {
                    if x == x0 {
                        assert(r.segments[j as int] == x);
                    } else {
                        assert(p.segments.contains(x));
                        let w = choose|k: int| 0 <= k < p.segments.len() && p.segments[k] == x;
                        assert(r.segments[w] == x);
                    }
                }
            },
        }
    }
}

/// The bytes the chunks write.
pub open spec fn payload_total(s: Seq<(Seq<char>, u64, usize)>) -> nat
    decreases s.len(),
{
    if s.len() == 0 {
        0
    } else {
        payload_total(s.drop_last()) + s.last().2 as nat
    }
}

proof fn lemma_payload_prefix(s: Seq<(Seq<char>, u64, usize)>, n: int)
    requires
        0 <= n <= s.len(),
    ensures
        payload_total(s.take(n)) <= payload_total(s),
    decreases s.len(),
{
    if n < s.len() {
        assert(s.drop_last().take(n) =~= s.take(n));
        lemma_payload_prefix(s.drop_last(), n);
    } else {
        assert(s.take(n) =~= s);
    }
}

/// A store step keeps the bounds a write relies on: one more id, the
/// stored bytes past the end, one more holder of a segment.
proof fn lemma_store_bounds(st: StoreState, hash: Seq<char>, len: usize, slack: int)
    requires
        1 <= slack <= u32::MAX,
        forall|k: int| 0 <= k < st.log.len() ==> #[trigger] st.log[k].1.ref_count + slack <= u32::MAX,
        st.next < u64::MAX,
        st.end + len <= u64::MAX,
    ensures
        match store_one(st, hash, len) {
            Ok((st2, seg, d)) => {
                &&& st2.next <= st.next + 1
                &&& st2.end <= st.end + len
                &&& forall|k: int|
                    0 <= k < st2.log.len() ==> #[trigger] st2.log[k].1.ref_count + slack - 1 <= u32::MAX
            },
            Err(_) => true,
        },
{
    match store_one(st, hash, len) {
        Ok((st2, seg, d)) => {
            match content_of(st.content, hash) {
                Some(s0) => {
                    let i = key_index(st.log, s0)->0;
                    assert(st.log[i].1.ref_count + slack <= u32::MAX);
                    assert(st2.log == st.log.update(i, (s0, shared(st.log[i].1, s0))));
                    assert forall|k: int| 0 <= k < st2.log.len() implies #[trigger] st2.log[k].1.ref_count
                        + slack - 1 <= u32::MAX by {
                        if k != i {
                            assert(st2.log[k] == st.log[k]);
                        }
                    }
                },
                None => {
                    let n = match key_index(st.log, st.next) {
                        Some(i) => i,
                        None => st.log.len() as int,
                    };
                    assert forall|k: int| 0 <= k < st2.log.len() implies #[trigger] st2.log[k].1.ref_count
                        + slack - 1 <= u32::MAX by {
                        if k != n {
                            assert(st2.log[k] == st.log[k]);
                        }
                    }
                },
            }
        },
        Err(_) => {},
    }
}

/// Whether one of `caps` holds segment `seg`.
fn is_referenced(caps: &Vec<Capsule>, seg: u64) -> (r: bool)
    ensures
        r == referenced(capsule_views(caps@), seg),
{
    let ghost cv = capsule_views(caps@);
    let mut c: usize = 0;
    while c < caps.len()
        invariant
            cv == capsule_views(caps@),
            c <= caps@.len(),
            forall|a: int, j: int| 0 <= a < c && 0 <= j < cv[a].segments.len() ==> cv[a].segments[j] != seg,
        decreases caps@.len() - c,
    {
        let segs = &caps[c].segments;
        let mut j: usize = 0;
        while j < segs.len()
            invariant
                cv == capsule_views(caps@),
                c < caps@.len(),
                segs@ == cv[c as int].segments,
                j <= segs@.len(),
                forall|k: int| 0 <= k < j ==> segs@[k] != seg,
            decreases segs@.len() - j,
        {
            if segs[j] == seg {
                proof {
                    assert(0 <= c < cv.len() && 0 <= j < cv[c as int].segments.len() && cv[c as int].segments[j as int] == seg);
                }
                return true;
            }
            j = j + 1;
        }
        c = c + 1;
    }
    proof {
        if referenced(cv, seg) {
            let (a, j) = choose|a: int, j: int| 0 <= a < cv.len() && 0 <= j < cv[a].segments.len() && cv[a].segments[j] == seg;
            assert(cv[a].segments[j] != seg);
        }
    }
    false
}

/// In a log whose entries are `gc_kept(s.take(i)) + s.skip(i)`, the entry
/// of `s[i]` stands right after the kept ones, and is the only one under
/// its key.
proof fn lemma_gc_position(s: Seq<(u64, Segment)>, i: int, caps: Seq<CapsuleView>)
    requires
        crate::nvram::keys(s).no_duplicates(),
        0 <= i < s.len(),
    ensures
        ({
            let cur = gc_kept(s.take(i), caps) + s.skip(i);
            &&& key_index(cur, s[i].0) == Some(gc_kept(s.take(i), caps).len() as int)
            &&& cur[gc_kept(s.take(i), caps).len() as int] == s[i]
            &&& crate::nvram::keys(cur).no_duplicates()
        }),
{
    let kept = gc_kept(s.take(i), caps);
    let rest = s.skip(i);
    let cur = kept + rest;
    let ks = crate::nvram::keys(s);
    assert(crate::nvram::keys(s.take(i)).no_duplicates()) by {
        assert forall|a: int, b: int|
            0 <= a < crate::nvram::keys(s.take(i)).len() && 0 <= b < crate::nvram::keys(s.take(i)).len()
                && a != b implies crate::nvram::keys(s.take(i))[a] != crate::nvram::keys(s.take(i))[b] by {
            assert(crate::nvram::keys(s.take(i))[a] == ks[a]);
            assert(crate::nvram::keys(s.take(i))[b] == ks[b]);
        }
    }
    lemma_kept_sub(s.take(i), caps);
    assert(cur[kept.len() as int] == s[i]);
    assert forall|a: int, b: int|
        0 <= a < crate::nvram::keys(cur).len() && 0 <= b < crate::nvram::keys(cur).len() && a != b implies
        crate::nvram::keys(cur)[a] != crate::nvram::keys(cur)[b] by {
        let ka = crate::nvram::keys(cur)[a];
        let kb = crate::nvram::keys(cur)[b];
        let ia: int = if a < kept.len() {
            choose|j: int| 0 <= j < i && kept[a] == s.take(i)[j]
        } else {
            i + a - kept.len()
        };
        let ib: int = if b < kept.len() {
            choose|j: int| 0 <= j < i && kept[b] == s.take(i)[j]
        } else {
            i + b - kept.len()
        };
        if a < kept.len() {
            assert(exists|j: int| 0 <= j < s.take(i).len() && kept[a] == s.take(i)[j]);
        }
        if b < kept.len() {
            assert(exists|j: int| 0 <= j < s.take(i).len() && kept[b] == s.take(i)[j]);
        }
        assert(cur[a] == s[ia]);
        assert(cur[b] == s[ib]);
        assert(ka == ks[ia]);
        assert(kb == ks[ib]);
        if a < kept.len() && b < kept.len() {
            assert(crate::nvram::keys(kept)[a] != crate::nvram::keys(kept)[b]);
        }
    }
    crate::nvram::lemma_index_unique(cur, kept.len() as int, s[i].0);
}

/// The kept entries are entries of the log, and keep its keys distinct.
proof fn lemma_kept_sub(t: Seq<(u64, Segment)>, caps: Seq<CapsuleView>)
    ensures
        forall|k: int|
            0 <= k < gc_kept(t, caps).len() ==> exists|j: int| 0 <= j < t.len() && #[trigger] gc_kept(t, caps)[k] == t[j],
        crate::nvram::keys(t).no_duplicates() ==> crate::nvram::keys(gc_kept(t, caps)).no_duplicates(),
    decreases t.len(),
{
    if t.len() > 0 {
        let d = t.drop_last();
        lemma_kept_sub(d, caps);
        let kd = gc_kept(d, caps);
        let kt = gc_kept(t, caps);
        assert forall|k: int| 0 <= k < kt.len() implies exists|j: int| 0 <= j < t.len() && #[trigger] kt[k] == t[j] by {
            if k < kd.len() {
                let j = choose|j: int| 0 <= j < d.len() && kd[k] == d[j];
                assert(kt[k] == t[j]);
            } else {
                assert(kt[k] == t[t.len() - 1]);
            }
        }
        if crate::nvram::keys(t).no_duplicates() {
            assert(crate::nvram::keys(d) =~= crate::nvram::keys(t).drop_last());
            assert(crate::nvram::keys(d).no_duplicates()) by {
                assert forall|a: int, b: int| 0 <= a < crate::nvram::keys(d).len() && 0 <= b < crate::nvram::keys(d).len() && a != b
                    implies crate::nvram::keys(d)[a] != crate::nvram::keys(d)[b] by {
                    assert(crate::nvram::keys(d)[a] == crate::nvram::keys(t)[a]);
                    assert(crate::nvram::keys(d)[b] == crate::nvram::keys(t)[b]);
                }
            }
            if gc_keeps(caps, t.last()) {
                assert forall|a: int, b: int| 0 <= a < crate::nvram::keys(kt).len() && 0 <= b < crate::nvram::keys(kt).len() && a != b
                    implies crate::nvram::keys(kt)[a] != crate::nvram::keys(kt)[b] by {
                    if a < kd.len() && b < kd.len() {
                        assert(crate::nvram::keys(kd)[a] != crate::nvram::keys(kd)[b]);
                    } else if a < kd.len() {
                        let j = choose|j: int| 0 <= j < d.len() && kd[a] == d[j];
                        assert(crate::nvram::keys(t)[j] != crate::nvram::keys(t)[t.len() - 1]);
                    } else if b < kd.len() {
                        let j = choose|j: int| 0 <= j < d.len() && kd[b] == d[j];
                        assert(crate::nvram::keys(t)[j] != crate::nvram::keys(t)[t.len() - 1]);
                    }
                }
            }
        }
    }
}

/// A read of a capsule's whole length gives all the bytes its segments hold.
pub proof fn lemma_read_whole(size: u64, pieces: Seq<Seq<u8>>)
    requires
        concat(pieces).len() == size,
        size > 0,
        size <= usize::MAX,
    ensures
        range_bytes(size, 0, size as usize, pieces) == concat(pieces),
{
    assert(concat(pieces).subrange(0, size as int) =~= concat(pieces));
}

/// Content stored once is not stored again: a second chunk with the same
/// hash shares the segment the first one got.
pub proof fn lemma_store_dedup(st: StoreState, hash: Seq<char>, len: usize, len2: usize)
    requires
        crate::nvram::keys(st.log).no_duplicates(),
        hashes(st.content).no_duplicates(),
        store_one(st, hash, len) is Ok,
    ensures
        ({
            let (st2, seg, _d) = store_one(st, hash, len)->Ok_0;
            store_one(st2, hash, len2) matches Ok((_st3, seg2, shared)) && seg2 == seg && shared
        }),
{
    let (st2, seg, d) = store_one(st, hash, len)->Ok_0;
    match content_of(st.content, hash) {
        Some(s0) => {
            let i = key_index(st.log, s0)->0;
            assert(st2.log[i].0 == s0);
            assert(key_index(st2.log, s0) is Some);
        },
        None => {
            let c2 = registered(st.content, hash, st.next);
            assert(c2 =~= st.content.push((hash, st.next)));
            assert(c2[st.content.len() as int] == (hash, st.next));
            assert(hashes(c2).no_duplicates()) by {
                assert forall|a: int, b: int| 0 <= a < hashes(c2).len() && 0 <= b < hashes(c2).len() && a != b
                    implies hashes(c2)[a] != hashes(c2)[b] by {
                    if a < st.content.len() && b < st.content.len() {
                        assert(hashes(c2)[a] == hashes(st.content)[a]);
                        assert(hashes(c2)[b] == hashes(st.content)[b]);
                    } else if a < st.content.len() {
                        assert(hashes(c2)[a] == st.content[a].0);
                    } else if b < st.content.len() {
                        assert(hashes(c2)[b] == st.content[b].0);
                    }
                }
            }
            lemma_content_index(c2, st.content.len() as int, hash);
            let n = match key_index(st.log, st.next) {
                Some(j) => j,
                None => st.log.len() as int,
            };
            assert(st2.log[n].0 == st.next);
            assert(key_index(st2.log, st.next) is Some);
        },
    }
}

/// Once a write stops, later steps change nothing.
proof fn lemma_run_stops(
    st: StoreState,
    pieces: Seq<(u64, u64)>,
    chunks: Seq<(Seq<char>, u64, usize)>,
    data_len: u64,
    i: nat,
    j: nat,
)
    requires
        i <= j,
        write_run(st, pieces, chunks, data_len, i).failure is Some,
    ensures
        write_run(st, pieces, chunks, data_len, j) == write_run(st, pieces, chunks, data_len, i),
    decreases j - i,
{
    if j > i {
        lemma_run_stops(st, pieces, chunks, data_len, i, (j - 1) as nat);
    }
}

/// A fresh capsule id: `uuid::Uuid::new_v4()`, a random version-4 UUID,
/// as a number. Trusted, and nothing is claimed of the value.
#[verifier::external_body]
fn new_capsule_id() -> (r: u128) {
    uuid::Uuid::new_v4().as_u128()
}

/// Position of the last content entry naming segment `seg`.
pub open spec fn last_entry_of(c: Seq<(Seq<char>, u64)>, seg: u64) -> Option<int> {
    if exists|j: int| 0 <= j < c.len() && c[j].1 == seg && forall|k: int| j < k < c.len() ==> c[k].1 != seg {
        Some(choose|j: int| 0 <= j < c.len() && c[j].1 == seg && forall|k: int| j < k < c.len() ==> c[k].1 != seg)
    } else {
        None
    }
}

/// The content entries without the one, if any, through which segment
/// `seg` is found.
pub open spec fn drop_content_of(c: Seq<(Seq<char>, u64)>, seg: u64) -> Seq<(Seq<char>, u64)> {
    match last_entry_of(c, seg) {
        Some(j) => c.remove(j),
        None => c,
    }
}

/// Segment `s`, recorded under `key`, once one capsule fewer holds it.
pub open spec fn released(s: Segment, key: u64) -> Segment {
    Segment { id: key, ref_count: (s.ref_count - 1) as u32, deduplicated: s.ref_count - 1 > 1, ..s }
}

/// Letting go of segment `seg`: shared by others, it is held once less;
/// else it leaves the log and its content entry goes. None when the log
/// lost it.
pub open spec fn release_one(log: Seq<(u64, Segment)>, content: Seq<(Seq<char>, u64)>, seg: u64) -> Option<
    (Seq<(u64, Segment)>, Seq<(Seq<char>, u64)>),
> {
    match key_index(log, seg) {
        None => None,
        Some(j) => if log[j].1.ref_count > 1 {
            Some((log.update(j, (seg, released(log[j].1, seg))), content))
        } else {
            Some((log.remove(j), drop_content_of(content, seg)))
        },
    }
}

/// How far letting go of a capsule's segments got.
pub struct ReleaseRun {
    pub log: Seq<(u64, Segment)>,
    pub content: Seq<(Seq<char>, u64)>,
    pub failure: Option<u64>,
}

/// The first `i` of `segs` let go of in turn, stopping at one the log lost.
pub open spec fn release_run(
    log: Seq<(u64, Segment)>,
    content: Seq<(Seq<char>, u64)>,
    segs: Seq<u64>,
    i: nat,
) -> ReleaseRun
    decreases i,
{
    if i == 0 {
        ReleaseRun { log, content, failure: None }
    } else {
        let prev = release_run(log, content, segs, (i - 1) as nat);
        if prev.failure is Some {
            prev
        } else {
            match release_one(prev.log, prev.content, segs[i - 1]) {
                Some((l2, c2)) => ReleaseRun { log: l2, content: c2, failure: None },
                None => ReleaseRun { failure: Some(segs[i - 1]), ..prev },
            }
        }
    }
}

proof fn lemma_release_stops(
    log: Seq<(u64, Segment)>,
    content: Seq<(Seq<char>, u64)>,
    segs: Seq<u64>,
    i: nat,
    j: nat,
)
    requires
        i <= j,
        release_run(log, content, segs, i).failure is Some,
    ensures
        release_run(log, content, segs, j) == release_run(log, content, segs, i),
    decreases j - i,
{
    if j > i {
        lemma_release_stops(log, content, segs, i, (j - 1) as nat);
    }
}

/// Whether some capsule holds segment `seg`.
pub open spec fn referenced(caps: Seq<CapsuleView>, seg: u64) -> bool {
    exists|c: int, j: int| 0 <= c < caps.len() && 0 <= j < caps[c].segments.len() && caps[c].segments[j] == seg
}

/// Whether a collection keeps entry `e`: some capsule holds it and it is
/// counted.
pub open spec fn gc_keeps(caps: Seq<CapsuleView>, e: (u64, Segment)) -> bool {
    referenced(caps, e.0) && e.1.ref_count > 0
}

/// The entries a collection keeps, in order.
pub open spec fn gc_kept(s: Seq<(u64, Segment)>, caps: Seq<CapsuleView>) -> Seq<(u64, Segment)>
    decreases s.len(),
{
    if s.len() == 0 {
        Seq::empty()
    } else if gc_keeps(caps, s.last()) {
        gc_kept(s.drop_last(), caps).push(s.last())
    } else {
        gc_kept(s.drop_last(), caps)
    }
}

/// The content entries once those of the collected segments of `s` are gone.
pub open spec fn gc_content(
    c: Seq<(Seq<char>, u64)>,
    s: Seq<(u64, Segment)>,
    caps: Seq<CapsuleView>,
) -> Seq<(Seq<char>, u64)>
    decreases s.len(),
{
    if s.len() == 0 {
        c
    } else if gc_keeps(caps, s.last()) {
        gc_content(c, s.drop_last(), caps)
    } else {
        drop_content_of(gc_content(c, s.drop_last(), caps), s.last().0)
    }
}

/// The pieces laid end to end.
pub open spec fn concat(pieces: Seq<Seq<u8>>) -> Seq<u8>
    decreases pieces.len(),
{
    if pieces.len() == 0 {
        Seq::empty()
    } else {
        concat(pieces.drop_last()) + pieces.last()
    }
}

pub open spec fn byte_views(pieces: Seq<Vec<u8>>) -> Seq<Seq<u8>> {
    pieces.map_values(|p: Vec<u8>| p@)
}

pub open spec fn min_int(a: int, b: int) -> int {
    if a <= b {
        a
    } else {
        b
    }
}

/// The bytes of a capsule of `size` bytes held by `pieces` that a read of
/// `len` bytes at `offset` gives: none at or past the end, else those from
/// `offset` up to the end of the read or of the capsule, as far as the
/// pieces reach.
pub open spec fn range_bytes(size: u64, offset: u64, len: usize, pieces: Seq<Seq<u8>>) -> Seq<u8> {
    if offset >= size {
        Seq::empty()
    } else {
        let c = concat(pieces);
        let end = min_int(offset + len, size as int);
        c.subrange(min_int(offset as int, c.len() as int), min_int(end, c.len() as int))
    }
}

/// What comes first in the pieces comes first in their concatenation.
proof fn lemma_concat_prefix(pieces: Seq<Seq<u8>>, i: int)
    requires
        0 <= i <= pieces.len(),
    ensures
        concat(pieces.take(i)).len() <= concat(pieces).len(),
        concat(pieces).subrange(0, concat(pieces.take(i)).len() as int) == concat(pieces.take(i)),
    decreases pieces.len(),
{
    if i == pieces.len() {
        assert(pieces.take(i) =~= pieces);
        assert(concat(pieces).subrange(0, concat(pieces).len() as int) =~= concat(pieces));
    } else {
        let d = pieces.drop_last();
        assert(d.take(i) =~= pieces.take(i));
        lemma_concat_prefix(d, i);
        assert(concat(pieces).subrange(0, concat(pieces.take(i)).len() as int) =~= concat(
            d,
        ).subrange(0, concat(pieces.take(i)).len() as int));
    }
}

/// The pieces laid end to end, in order.
fn concat_pieces(pieces: &Vec<Vec<u8>>) -> (r: Vec<u8>)
    ensures
        r@ == concat(byte_views(pieces@)),
{
    let ghost ps = byte_views(pieces@);
    let mut out: Vec<u8> = Vec::new();
    let mut i: usize = 0;
    while i < pieces.len()
        invariant
            ps == byte_views(pieces@),
            i <= pieces@.len(),
            out@ == concat(ps.take(i as int)),
        decreases pieces@.len() - i,
    {
        let p = &pieces[i];
        let ghost before = out@;
        let mut j: usize = 0;
        while j < p.len()
            invariant
                j <= p@.len(),
                out@ == before + p@.take(j as int),
            decreases p@.len() - j,
        {
            out.push(p[j]);
            proof {
                assert(p@.take(j + 1) =~= p@.take(j as int).push(p@[j as int]));
            }
            j = j + 1;
        }
        proof {
            assert(p@.take(j as int) =~= p@);
            assert(ps.take(i + 1).drop_last() =~= ps.take(i as int));
            assert(ps.take(i + 1).last() == p@);
        }
        i = i + 1;
    }
    proof {
        assert(ps.take(i as int) =~= ps);
    }
    out
}

/// The bytes a read of `len` bytes at `offset` gives from a capsule of
/// `size` bytes whose segments hold `pieces`, in order.
pub fn read_range_bytes(size: u64, offset: u64, len: usize, pieces: &Vec<Vec<u8>>) -> (r: Vec<u8>)
    ensures
        r@ == range_bytes(size, offset, len, byte_views(pieces@)),
{
    let mut out: Vec<u8> = Vec::new();
    if offset >= size {
        return out;
    }
    let ghost ps = byte_views(pieces@);
    let sum = offset.saturating_add(len as u64);
    let range_end: u64 = if sum < size { sum } else { size };
    proof {
        assert(range_end == min_int(offset + len, size as int));
    }
    let mut remaining: u64 = range_end - offset;
    if remaining == 0 {
        return out;
    }
    let mut cursor: u128 = 0;
    let mut i: usize = 0;
    loop
        invariant_except_break
            ps == byte_views(pieces@),
            offset < size,
            range_end == min_int(offset + len, size as int),
            offset < range_end,
            i <= pieces@.len(),
            cursor == concat(ps.take(i as int)).len(),
            cursor <= u64::MAX,
            out@ == concat(ps.take(i as int)).subrange(
                min_int(offset as int, cursor as int),
                min_int(range_end as int, cursor as int),
            ),
            remaining as int == range_end - offset - out@.len(),
            remaining > 0,
        ensures
            out@ == range_bytes(size, offset, len, ps),
        decreases pieces@.len() - i,
    {
        if i >= pieces.len() {
            proof {
                assert(ps.take(i as int) =~= ps);
            }
            break;
        }
        let p = &pieces[i];
        let ghost c = concat(ps.take(i as int));
        let ghost c2 = concat(ps.take(i + 1));
        proof {
            assert(ps.take(i + 1).drop_last() =~= ps.take(i as int));
            assert(ps.take(i + 1).last() == p@);
            assert(c2 == c + p@);
        }
        let seg_end: u128 = cursor + p.len() as u128;
        if seg_end <= offset as u128 {
            cursor = seg_end;
            proof {
                assert(out@ =~= c2.subrange(
                    min_int(offset as int, cursor as int),
                    min_int(range_end as int, cursor as int),
                ));
            }
        } else {
            let start: usize = if (offset as u128) > cursor {
                (offset as u128 - cursor) as usize
            } else {
                0
            };
            let avail: usize = p.len() - start;
            let take: usize = if (remaining as u128) < (avail as u128) {
                remaining as usize
            } else {
                avail
            };
            let ghost before = out@;
            let mut k: usize = 0;
            while k < take
                invariant
                    k <= take,
                    start + take <= p.len(),
                    out@ == before + p@.subrange(start as int, start + k),
                decreases take - k,
            {
                out.push(p[start + k]);
                proof {
                    assert(out@ =~= before + p@.subrange(start as int, start + k + 1));
                }
                k = k + 1;
            }
            remaining = remaining - take as u64;
            proof {
                assert(c2.subrange(0, c.len() as int) =~= c);
                if (offset as int) > cursor {
                    assert(out@ =~= c2.subrange(offset as int, offset + take));
                } else {
                    assert(min_int(range_end as int, cursor as int) == cursor);
                    assert(out@ =~= c2.subrange(offset as int, cursor + take));
                }
            }
            if remaining == 0 {
                proof {
                    lemma_concat_prefix(ps, i + 1);
                    let call = concat(ps);
                    assert(out@.len() == range_end - offset);
                    assert(out@ =~= call.subrange(offset as int, range_end as int));
                }
                break;
            }
            cursor = seg_end;
            proof {
                assert(out@ =~= c2.subrange(
                    min_int(offset as int, cursor as int),
                    min_int(range_end as int, cursor as int),
                ));
            }
        }
        i = i + 1;
    }
    out
}

/// The segments of each zone.
pub open spec fn zone_segments(zones: Seq<Zone>) -> Seq<Seq<SegmentView>> {
    zones.map_values(|z: Zone| seg_views(z.segments@))
}

/// Where each planned segment lies in the data, zone by zone.
pub open spec fn plan_pieces(zones: Seq<Seq<SegmentView>>) -> Seq<(u64, u64)>
    decreases zones.len(),
{
    if zones.len() == 0 {
        Seq::empty()
    } else {
        plan_pieces(zones.drop_last()) + zones.last().map_values(|v: SegmentView| (v.offset, v.length))
    }
}

/// Where a piece starting at `o` goes among `t`: before the first piece
/// that starts after it.
pub open spec fn insertion_point(t: Seq<(u64, u64)>, o: u64) -> int {
    if exists|i: int| 0 <= i < t.len() && t[i].0 > o && forall|k: int| 0 <= k < i ==> t[k].0 <= o {
        choose|i: int| 0 <= i < t.len() && t[i].0 > o && forall|k: int| 0 <= k < i ==> t[k].0 <= o
    } else {
        t.len() as int
    }
}

/// The pieces ordered by where they start, those starting at the same
/// place in the order given.
pub open spec fn stable_sorted(s: Seq<(u64, u64)>) -> Seq<(u64, u64)>
    decreases s.len(),
{
    if s.len() == 0 {
        Seq::empty()
    } else {
        let t = stable_sorted(s.drop_last());
        t.insert(insertion_point(t, s.last().0), s.last())
    }
}

/// The pieces a write stores, in order: the plan's segments, ordered by
/// where they start in the data.
pub fn planned_pieces(plan: &ZonePlan) -> (r: Vec<(u64, u64)>)
    ensures
        r@ == stable_sorted(plan_pieces(zone_segments(plan.zones@))),
{
    let ghost zs = zone_segments(plan.zones@);
    let mut flat: Vec<(u64, u64)> = Vec::new();
    let mut z: usize = 0;
    while z < plan.zones.len()
        invariant
            zs == zone_segments(plan.zones@),
            z <= zs.len(),
            flat@ == plan_pieces(zs.take(z as int)),
        decreases zs.len() - z,
    {
        let segs = &plan.zones[z].segments;
        let ghost before = flat@;
        let mut k: usize = 0;
        while k < segs.len()
            invariant
                zs == zone_segments(plan.zones@),
                z < zs.len(),
                segs@ == plan.zones@[z as int].segments@,
                k <= segs@.len(),
                flat@ == before + seg_views(segs@).take(k as int).map_values(
                    |v: SegmentView| (v.offset, v.length),
                ),
            decreases segs@.len() - k,
        {
            flat.push((segs[k].offset, segs[k].length));
            proof {
                assert(seg_views(segs@).take(k + 1).map_values(|v: SegmentView| (v.offset, v.length))
                    =~= seg_views(segs@).take(k as int).map_values(
                    |v: SegmentView| (v.offset, v.length),
                ).push((segs@[k as int].offset, segs@[k as int].length)));
            }
            k = k + 1;
        }
        proof {
            assert(seg_views(segs@).take(k as int) =~= seg_views(segs@));
            assert(zs.take(z + 1).drop_last() =~= zs.take(z as int));
            assert(zs[z as int] == seg_views(segs@));
        }
        z = z + 1;
    }
    proof {
        assert(zs.take(z as int) =~= zs);
    }
    let ghost ps = flat@;
    let mut out: Vec<(u64, u64)> = Vec::new();
    let mut i: usize = 0;
    while i < flat.len()
        invariant
            ps == flat@,
            i <= ps.len(),
            out@ == stable_sorted(ps.take(i as int)),
        decreases ps.len() - i,
    {
        let x = flat[i];
        let mut p: usize = 0;
        while p < out.len() && out[p].0 <= x.0
            invariant
                p <= out@.len(),
                forall|k: int| 0 <= k < p ==> out@[k].0 <= x.0,
            decreases out@.len() - p,
        {
            p = p + 1;
        }
        proof {
            let t = out@;
            assert(ps.take(i + 1).drop_last() =~= ps.take(i as int));
            assert(ps.take(i + 1).last() == x);
            if p < t.len() {
                assert(0 <= p < t.len() && t[p as int].0 > x.0 && forall|k: int| 0 <= k < p ==> t[k].0 <= x.0);
                let c = insertion_point(t, x.0);
                assert(0 <= c < t.len() && t[c].0 > x.0 && forall|k: int| 0 <= k < c ==> t[k].0 <= x.0);
                if c < p {
                    assert(t[c].0 <= x.0);
                } else if c > p {
                    assert(t[p as int].0 <= x.0);
                }
            } else {
                if exists|j: int| 0 <= j < t.len() && t[j].0 > x.0 && forall|k: int| 0 <= k < j ==> t[k].0 <= x.0 {
                    let j = choose|j: int| 0 <= j < t.len() && t[j].0 > x.0 && forall|k: int| 0 <= k < j ==> t[k].0 <= x.0;
                    assert(t[j].0 <= x.0);
                }
            }
        }
        out.insert(p, x);
        i = i + 1;
    }
    proof {
        assert(ps.take(i as int) =~= ps);
    }
    out
}

/// The pieces a write stores are the plan's pieces, each as often, ordered
/// by where they start.
pub proof fn lemma_stable_sorted(s: Seq<(u64, u64)>)
    ensures
        stable_sorted(s).to_multiset() == s.to_multiset(),
        forall|i: int, j: int|
            0 <= i < j < stable_sorted(s).len() ==> stable_sorted(s)[i].0 <= stable_sorted(s)[j].0,
    decreases s.len(),
{
    if s.len() == 0 {
        assert(stable_sorted(s) =~= s);
    } else {
        let d = s.drop_last();
        let x = s.last();
        lemma_stable_sorted(d);
        let t = stable_sorted(d);
        let p = insertion_point(t, x.0);
        let r = t.insert(p, x);
        lemma_insertion_point(t, x.0);
        assert(r.to_multiset() == s.to_multiset()) by {
            vstd::seq_lib::to_multiset_insert(t, p, x);
            vstd::seq_lib::to_multiset_build(d, x);
            assert(d.push(x) =~= s);
        }
        lemma_insert_keeps_sorted(t, p, x);
    }
}

/// Inserting a piece at its insertion point keeps a sorted sequence sorted.
proof fn lemma_insert_keeps_sorted(t: Seq<(u64, u64)>, p: int, x: (u64, u64))
    requires
        0 <= p <= t.len(),
        forall|i: int, j: int| 0 <= i < j < t.len() ==> t[i].0 <= t[j].0,
        forall|k: int| 0 <= k < p ==> t[k].0 <= x.0,
        forall|k: int| p <= k < t.len() ==> t[k].0 > x.0,
    ensures
        forall|i: int, j: int|
            0 <= i < j < t.insert(p, x).len() ==> t.insert(p, x)[i].0 <= t.insert(p, x)[j].0,
{
    let r = t.insert(p, x);
    assert forall|i: int, j: int| 0 <= i < j < r.len() implies r[i].0 <= r[j].0 by {
        if j < p {
            assert(r[i] == t[i] && r[j] == t[j]);
        } else if j == p {
            assert(r[i] == t[i]);
        } else if i < p {
            assert(r[i] == t[i] && r[j] == t[j - 1]);
        } else if i == p {
            assert(r[j] == t[j - 1]);
        } else {
            assert(r[i] == t[i - 1] && r[j] == t[j - 1]);
        }
    }
}

/// Every piece before the insertion point starts no later than `o`; in a
/// sorted sequence every piece from it on starts after.
proof fn lemma_insertion_point(t: Seq<(u64, u64)>, o: u64)
    requires
        forall|i: int, j: int| 0 <= i < j < t.len() ==> t[i].0 <= t[j].0,
    ensures
        0 <= insertion_point(t, o) <= t.len(),
        forall|k: int| 0 <= k < insertion_point(t, o) ==> t[k].0 <= o,
        forall|k: int| insertion_point(t, o) <= k < t.len() ==> t[k].0 > o,
{
    let p = insertion_point(t, o);
    if exists|i: int| 0 <= i < t.len() && t[i].0 > o && forall|k: int| 0 <= k < i ==> t[k].0 <= o {
        assert(0 <= p < t.len() && t[p].0 > o && forall|k: int| 0 <= k < p ==> t[k].0 <= o);
        assert forall|k: int| p <= k < t.len() implies t[k].0 > o by {
            if k > p {
                assert(t[p].0 <= t[k].0);
            }
        }
    } else {
        assert forall|k: int| 0 <= k < t.len() implies t[k].0 <= o by {
            if t[k].0 > o {
                lemma_first_above(t, o, k);
            }
        }
    }
}

/// When some piece of `t` starts after `o`, a first such piece exists.
proof fn lemma_first_above(t: Seq<(u64, u64)>, o: u64, k: int)
    requires
        0 <= k < t.len(),
        t[k].0 > o,
    ensures
        exists|m: int| 0 <= m < t.len() && t[m].0 > o && forall|k2: int| 0 <= k2 < m ==> t[k2].0 <= o,
    decreases k,
{
    if forall|k2: int| 0 <= k2 < k ==> t[k2].0 <= o {
        assert(0 <= k < t.len() && t[k].0 > o && forall|k2: int| 0 <= k2 < k ==> t[k2].0 <= o);
    } else {
        let k2 = choose|k2: int| 0 <= k2 < k && !(t[k2].0 <= o);
        lemma_first_above(t, o, k2);
    }
}

/// The catalog: the capsules, the content hashes with the segment that
/// holds each, and the next segment id to hand out.
pub struct InMemoryCatalog {
    next_segment: u64,
    capsules: Vec<Capsule>,
    content: Vec<(String, u64)>,
}

impl InMemoryCatalog {
    #[verifier::type_invariant]
    spec fn distinct(self) -> bool {
        &&& capsule_ids(capsule_views(self.capsules@)).no_duplicates()
        &&& hashes(content_views(self.content@)).no_duplicates()
    }

    /// The capsules, in the order they were first created.
    pub closed spec fn capsule_list(self) -> Seq<CapsuleView> {
        capsule_views(self.capsules@)
    }

    /// The content hashes and their segments, in the order first registered.
    pub closed spec fn content_list(self) -> Seq<(Seq<char>, u64)> {
        content_views(self.content@)
    }

    /// The next segment id to hand out.
    pub closed spec fn next_id(self) -> u64 {
        self.next_segment
    }

    pub fn new() -> (r: Self)
        ensures
            r.capsule_list() == Seq::<CapsuleView>::empty(),
            r.content_list() == Seq::<(Seq<char>, u64)>::empty(),
            r.next_id() == 0,
    {
        InMemoryCatalog { next_segment: 0, capsules: Vec::new(), content: Vec::new() }
    }

    /// The next segment id to hand out.
    pub fn next_segment_id(&self) -> (r: u64)
        ensures
            r == self.next_id(),
    {
        self.next_segment
    }

    /// Hands out the next segment id.
    pub fn allocate_segment(&mut self) -> (r: u64)
        requires
            old(self).next_id() < u64::MAX,
        ensures
            r == old(self).next_id(),
            final(self).next_id() == old(self).next_id() + 1,
            final(self).capsule_list() == old(self).capsule_list(),
            final(self).content_list() == old(self).content_list(),
    {
        proof {
            use_type_invariant(&*self);
        }
        let seg = self.next_segment;
        self.next_segment = self.next_segment + 1;
        seg
    }

    fn capsule_position(&self, id: u128) -> (r: Option<usize>)
        ensures
            match r {
                Some(i) => i < self.capsule_list().len() && capsule_index(self.capsule_list(), id)
                    == Some(i as int),
                None => capsule_index(self.capsule_list(), id) is None,
            },
    {
        proof {
            use_type_invariant(self);
        }
        let mut i: usize = 0;
        while i < self.capsules.len()
            invariant
                i <= self.capsules@.len(),
                capsule_ids(capsule_views(self.capsules@)).no_duplicates(),
                forall|j: int| 0 <= j < i ==> self.capsules@[j].id != id,
            decreases self.capsules@.len() - i,
        {
            if self.capsules[i].id == id {
                proof {
                    lemma_capsule_index(capsule_views(self.capsules@), i as int, id);
                }
                return Some(i);
            }
            i = i + 1;
        }
        proof {
            let s = capsule_views(self.capsules@);
            if exists|j: int| 0 <= j < s.len() && s[j].id == id {
                let j = choose|j: int| 0 <= j < s.len() && s[j].id == id;
                assert(self.capsules@[j].id == id);
            }
        }
        None
    }

    /// The capsule `id`.
    pub fn lookup_capsule(&self, id: u128) -> (r: Result<Capsule, CatalogError>)
        ensures
            match capsule_index(self.capsule_list(), id) {
                Some(i) => r is Ok && r->Ok_0@ == self.capsule_list()[i],
                None => r == Err::<Capsule, CatalogError>(CatalogError::CapsuleNotFound(id)),
            },
    {
        match self.capsule_position(id) {
            Some(i) => Ok(self.capsules[i].copy()),
            None => Err(CatalogError::CapsuleNotFound(id)),
        }
    }

    /// Registers a capsule that another zone sent, named by the text of
    /// its UUID: refused when the text is not a UUID; a capsule already
    /// known under that id is left as it is and reported as existing;
    /// otherwise the capsule is added, last, with the given fields.
    pub fn register_received(
        &mut self,
        capsule_id: &str,
        size: u64,
        created_at: u64,
        segments: Vec<u64>,
        deduped_bytes: u64,
    ) -> (r: Result<RegisterAck, RegisterError>)
        ensures
            final(self).next_id() == old(self).next_id(),
            final(self).content_list() == old(self).content_list(),
            match uuid_parse(capsule_id@) {
                None => r == Err::<RegisterAck, RegisterError>(RegisterError::InvalidId)
                    && final(self).capsule_list() == old(self).capsule_list(),
                Some(id) => r matches Ok(ack) && {
                    let inserted = capsule_index(old(self).capsule_list(), id) is None;
                    &&& ack.ok
                    &&& ack.already_exists == !inserted
                    &&& ack.message@ == if inserted {
                        "registered"@
                    } else {
                        "already exists"@
                    }
                    &&& inserted ==> final(self).capsule_list() == old(self).capsule_list().push(
                        CapsuleView { id, size, segments: segments@, created_at, deduped_bytes },
                    )
                    &&& !inserted ==> final(self).capsule_list() == old(self).capsule_list()
                },
            },
    {
        proof {
            use_type_invariant(&*self);
        }
        let id = match parse_uuid(capsule_id) {
            Some(id) => id,
            None => return Err(RegisterError::InvalidId),
        };
        if self.capsule_position(id).is_some() {
            return Ok(
                RegisterAck {
                    ok: true,
                    already_exists: true,
                    message: String::from_str("already exists"),
                },
            );
        }
        let capsule = Capsule { id, size, segments, created_at, deduped_bytes };
        let ghost s = self.capsules@;
        let mut cs: Vec<Capsule> = Vec::new();
        std::mem::swap(&mut cs, &mut self.capsules);
        cs.push(capsule);
        proof {
            let ids = capsule_ids(capsule_views(cs@));
            assert(ids =~= capsule_ids(capsule_views(s)).push(id));
            assert forall|a: int, b: int|
                0 <= a < ids.len() && 0 <= b < ids.len() && a != b implies ids[a] != ids[b] by {
                if a < s.len() && b < s.len() {
                    assert(ids[a] == capsule_ids(capsule_views(s))[a]);
                    assert(ids[b] == capsule_ids(capsule_views(s))[b]);
                } else if a < s.len() {
                    assert(ids[a] == s[a].id);
                    if s[a].id == id {
                        lemma_capsule_index(capsule_views(s), a, id);
                    }
                } else if b < s.len() {
                    assert(ids[b] == s[b].id);
                    if s[b].id == id {
                        lemma_capsule_index(capsule_views(s), b, id);
                    }
                }
            }
            assert(capsule_views(cs@) =~= capsule_views(s).push(
                CapsuleView { id, size, segments: segments@, created_at, deduped_bytes },
            ));
        }
        self.capsules = cs;
        Ok(RegisterAck { ok: true, already_exists: false, message: String::from_str("registered") })
    }

    /// Records capsule `id`, created now, in place of one with the same id.
    pub fn create_capsule(&mut self, id: u128, size: u64, segments: Vec<u64>, deduped_bytes: u64)
        ensures
            final(self).next_id() == old(self).next_id(),
            final(self).content_list() == old(self).content_list(),
            capsule_recorded(
                old(self).capsule_list(),
                final(self).capsule_list(),
                id,
                size,
                segments@,
                deduped_bytes,
            ),
    {
        proof {
            use_type_invariant(&*self);
        }
        let created_at = current_timestamp();
        let capsule = Capsule { id, size, segments, created_at, deduped_bytes };
        let found = self.capsule_position(id);
        let ghost s = self.capsules@;
        let mut cs: Vec<Capsule> = Vec::new();
        std::mem::swap(&mut cs, &mut self.capsules);
        let ghost n: int;
        match found {
            Some(i) => {
                cs.set(i, capsule);
                proof {
                    n = i as int;
                    assert(capsule_ids(capsule_views(cs@)) =~= capsule_ids(capsule_views(s)));
                }
            },
            None => {
                cs.push(capsule);
                proof {
                    n = s.len() as int;
                    let ids = capsule_ids(capsule_views(cs@));
                    assert(ids =~= capsule_ids(capsule_views(s)).push(id));
                    assert forall|a: int, b: int|
                        0 <= a < ids.len() && 0 <= b < ids.len() && a != b implies ids[a]
                        != ids[b] by {
                        if a < s.len() && b < s.len() {
                            assert(ids[a] == capsule_ids(capsule_views(s))[a]);
                            assert(ids[b] == capsule_ids(capsule_views(s))[b]);
                        } else if a < s.len() {
                            assert(ids[a] == s[a].id);
                        } else if b < s.len() {
                            assert(ids[b] == s[b].id);
                        }
                    }
                }
            },
        }
        self.capsules = cs;
        proof {
            lemma_capsule_index(self.capsule_list(), n, id);
        }
    }

    /// Forgets capsule `id`, giving it back.
    pub fn delete_capsule(&mut self, id: u128) -> (r: Result<Capsule, CatalogError>)
        ensures
            final(self).next_id() == old(self).next_id(),
            final(self).content_list() == old(self).content_list(),
            match capsule_index(old(self).capsule_list(), id) {
                Some(i) => r is Ok && r->Ok_0@ == old(self).capsule_list()[i] && final(self).capsule_list() == old(self).capsule_list().remove(i),
                None => r == Err::<Capsule, CatalogError>(CatalogError::CapsuleNotFound(id))
                    && final(self).capsule_list() == old(self).capsule_list(),
            },
    {
        proof {
            use_type_invariant(&*self);
        }
        match self.capsule_position(id) {
            None => Err(CatalogError::CapsuleNotFound(id)),
            Some(i) => {
                let ghost s = self.capsules@;
                let mut cs: Vec<Capsule> = Vec::new();
                std::mem::swap(&mut cs, &mut self.capsules);
                let c = cs.remove(i);
                proof {
                    let ids = capsule_ids(capsule_views(cs@));
                    let old_ids = capsule_ids(capsule_views(s));
                    assert(capsule_views(cs@) =~= capsule_views(s).remove(i as int));
                    assert forall|a: int, b: int|
                        0 <= a < ids.len() && 0 <= b < ids.len() && a != b implies ids[a]
                        != ids[b] by {
                        let a2 = if a < i { a } else { a + 1 };
                        let b2 = if b < i { b } else { b + 1 };
                        assert(ids[a] == old_ids[a2]);
                        assert(ids[b] == old_ids[b2]);
                    }
                }
                self.capsules = cs;
                Ok(c)
            },
        }
    }

    fn content_position(&self, hash: &String) -> (r: Option<usize>)
        ensures
            match r {
                Some(i) => i < self.content_list().len() && content_index(self.content_list(), hash@)
                    == Some(i as int),
                None => content_index(self.content_list(), hash@) is None,
            },
    {
        proof {
            use_type_invariant(self);
        }
        let mut i: usize = 0;
        while i < self.content.len()
            invariant
                i <= self.content@.len(),
                hashes(content_views(self.content@)).no_duplicates(),
                forall|j: int| 0 <= j < i ==> self.content@[j].0@ != hash@,
            decreases self.content@.len() - i,
        {
            if self.content[i].0 == *hash {
                proof {
                    lemma_content_index(content_views(self.content@), i as int, hash@);
                }
                return Some(i);
            }
            i = i + 1;
        }
        proof {
            let s = content_views(self.content@);
            if exists|j: int| 0 <= j < s.len() && s[j].0 == hash@ {
                let j = choose|j: int| 0 <= j < s.len() && s[j].0 == hash@;
                assert(self.content@[j].0@ == hash@);
            }
        }
        None
    }

    /// The segment registered for `hash`.
    pub fn lookup_content(&self, hash: &String) -> (r: Option<u64>)
        ensures
            r == content_of(self.content_list(), hash@),
    {
        match self.content_position(hash) {
            Some(i) => Some(self.content[i].1),
            None => None,
        }
    }

    /// Registers `segment` for `hash`, in place of what was registered.
    pub fn register_content(&mut self, hash: String, segment: u64)
        ensures
            final(self).next_id() == old(self).next_id(),
            final(self).capsule_list() == old(self).capsule_list(),
            final(self).content_list() == registered(old(self).content_list(), hash@, segment),
    {
        proof {
            use_type_invariant(&*self);
        }
        let found = self.content_position(&hash);
        let ghost s = content_views(self.content@);
        let ghost h = hash@;
        let mut es: Vec<(String, u64)> = Vec::new();
        std::mem::swap(&mut es, &mut self.content);
        match found {
            Some(i) => {
                es.set(i, (hash, segment));
                proof {
                    assert(content_views(es@) =~= s.update(i as int, (h, segment)));
                    assert(hashes(content_views(es@)) =~= hashes(s));
                }
            },
            None => {
                es.push((hash, segment));
                proof {
                    let hs = hashes(content_views(es@));
                    assert(content_views(es@) =~= s.push((h, segment)));
                    assert(hs =~= hashes(s).push(h));
                    assert forall|a: int, b: int|
                        0 <= a < hs.len() && 0 <= b < hs.len() && a != b implies hs[a] != hs[b] by {
                        if a < s.len() && b < s.len() {
                            assert(hs[a] == hashes(s)[a]);
                            assert(hs[b] == hashes(s)[b]);
                        } else if a < s.len() {
                            assert(hs[a] == s[a].0);
                        } else if b < s.len() {
                            assert(hs[b] == s[b].0);
                        }
                    }
                }
            },
        }
        self.content = es;
    }

    /// Forgets the entry for `hash` when it names `segment`; says whether
    /// it did.
    pub fn deregister_content(&mut self, hash: &String, segment: u64) -> (r: bool)
        ensures
            final(self).next_id() == old(self).next_id(),
            final(self).capsule_list() == old(self).capsule_list(),
            match content_index(old(self).content_list(), hash@) {
                Some(i) => if old(self).content_list()[i].1 == segment {
                    r && final(self).content_list() == old(self).content_list().remove(i)
                } else {
                    !r && final(self).content_list() == old(self).content_list()
                },
                None => !r && final(self).content_list() == old(self).content_list(),
            },
    {
        proof {
            use_type_invariant(&*self);
        }
        match self.content_position(hash) {
            None => false,
            Some(i) => {
                if self.content[i].1 != segment {
                    return false;
                }
                let ghost s = content_views(self.content@);
                let mut es: Vec<(String, u64)> = Vec::new();
                std::mem::swap(&mut es, &mut self.content);
                let _ = es.remove(i);
                proof {
                    let hs = hashes(content_views(es@));
                    assert(content_views(es@) =~= s.remove(i as int));
                    assert forall|a: int, b: int|
                        0 <= a < hs.len() && 0 <= b < hs.len() && a != b implies hs[a] != hs[b] by {
                        let a2 = if a < i { a } else { a + 1 };
                        let b2 = if b < i { b } else { b + 1 };
                        assert(hs[a] == hashes(s)[a2]);
                        assert(hs[b] == hashes(s)[b2]);
                    }
                }
                self.content = es;
                true
            },
        }
    }

    /// The hash of the last content entry naming segment `seg`.
    pub(crate) fn hash_of_segment(&self, seg: u64) -> (r: Option<String>)
        ensures
            match last_entry_of(self.content_list(), seg) {
                Some(j) => r is Some && r->0@ == self.content_list()[j].0,
                None => r is None,
            },
    {
        let ghost c = content_views(self.content@);
        let mut j: usize = self.content.len();
        while j > 0
            invariant
                c == content_views(self.content@),
                j <= c.len(),
                forall|k: int| j <= k < c.len() ==> c[k].1 != seg,
            decreases j,
        {
            if self.content[j - 1].1 == seg {
                let h = self.content[j - 1].0.clone();
                proof {
                    let w = (j - 1) as int;
                    assert(h@ =~= c[w].0);
                    assert(0 <= w < c.len() && c[w].1 == seg && forall|k: int| w < k < c.len() ==> c[k].1 != seg);
                    let x = last_entry_of(c, seg)->0;
                    assert(0 <= x < c.len() && c[x].1 == seg && forall|k: int| x < k < c.len() ==> c[k].1 != seg);
                    if x < w {
                        assert(c[w].1 != seg);
                    } else if x > w {
                        assert(c[x].1 != seg);
                    }
                }
                return Some(h);
            }
            j = j - 1;
        }
        None
    }

    /// Forgets the content entry through which segment `seg` is found.
    pub(crate) fn forget_segment(&mut self, seg: u64)
        ensures
            final(self).next_id() == old(self).next_id(),
            final(self).capsule_list() == old(self).capsule_list(),
            final(self).content_list() == drop_content_of(old(self).content_list(), seg),
    {
        proof {
            use_type_invariant(&*self);
        }
        match self.hash_of_segment(seg) {
            None => {},
            Some(h) => {
                proof {
                    let j = last_entry_of(self.content_list(), seg)->0;
                    lemma_content_index(self.content_list(), j, h@);
                }
                let _ = self.deregister_content(&h, seg);
            },
        }
    }

    /// The capsules.
    pub fn capsules(&self) -> (r: Vec<Capsule>)
        ensures
            capsule_views(r@) == self.capsule_list(),
    {
        let mut r: Vec<Capsule> = Vec::new();
        let mut i: usize = 0;
        while i < self.capsules.len()
            invariant
                i <= self.capsules@.len(),
                capsule_views(r@) == capsule_views(self.capsules@).take(i as int),
            decreases self.capsules@.len() - i,
        {
            let ghost prev = r@;
            let c = self.capsules[i].copy();
            r.push(c);
            proof {
                assert(capsule_views(r@) =~= capsule_views(prev).push(c@));
                assert(capsule_views(self.capsules@).take(i + 1) =~= capsule_views(
                    self.capsules@,
                ).take(i as int).push(self.capsules@[i as int]@));
            }
            i = i + 1;
        }
        proof {
            assert(capsule_views(self.capsules@).take(i as int) =~= capsule_views(self.capsules@));
        }
        r
    }

    /// The content hashes and their segments.
    pub fn content_entries(&self) -> (r: Vec<(String, u64)>)
        ensures
            content_views(r@) == self.content_list(),
    {
        let mut r: Vec<(String, u64)> = Vec::new();
        let mut i: usize = 0;
        while i < self.content.len()
            invariant
                i <= self.content@.len(),
                content_views(r@) == content_views(self.content@).take(i as int),
            decreases self.content@.len() - i,
        {
            let ghost prev = r@;
            let h = self.content[i].0.clone();
            proof {
                assert(h@ =~= self.content@[i as int].0@);
            }
            r.push((h, self.content[i].1));
            proof {
                assert(content_views(r@) =~= content_views(prev).push((h@, self.content@[i as int].1)));
                assert(content_views(self.content@).take(i + 1) =~= content_views(
                    self.content@,
                ).take(i as int).push((self.content@[i as int].0@, self.content@[i as int].1)));
            }
            i = i + 1;
        }
        proof {
            assert(content_views(self.content@).take(i as int) =~= content_views(self.content@));
        }
        r
    }
}

/// The capsule store: the catalog and the segment log it writes to.
pub struct Pipeline {
    pub catalog: InMemoryCatalog,
    pub log: NvramLog,
}

impl Pipeline {
    pub fn new(catalog: InMemoryCatalog, log: NvramLog) -> (r: Self)
        ensures
            r.catalog == catalog,
            r.log == log,
    {
        Pipeline { catalog, log }
    }

    /// Writes a capsule of `data_len` bytes cut into `pieces` (in the order
    /// they are stored), the caller having compressed and encrypted each
    /// into `chunks`: each chunk is stored in turn, shared with a segment
    /// that holds the same content or appended; then the capsule is
    /// recorded under a fresh id, which is given back. A piece that
    /// reaches past the data, or content whose segment the log lost, stops
    /// the write, leaving the chunks stored before it.
    pub fn write_capsule(&mut self, data_len: u64, pieces: &Vec<(u64, u64)>, chunks: &Vec<StoredChunk>) -> (r:
        Result<u128, CatalogError>)
        requires
            chunks@.len() == pieces@.len(),
            chunks@.len() <= u32::MAX,
            old(self).catalog.next_id() + chunks@.len() <= u64::MAX,
            old(self).log.end() + payload_total(chunk_views(chunks@)) <= u64::MAX,
            forall|k: int|
                0 <= k < old(self).log.view().len() ==> #[trigger] old(self).log.view()[k].1.ref_count
                    + chunks@.len() <= u32::MAX,
        ensures
            ({
                let run = write_run(
                    store_of(old(self).log, old(self).catalog),
                    pieces@,
                    chunk_views(chunks@),
                    data_len,
                    pieces@.len(),
                );
                &&& store_of(final(self).log, final(self).catalog) == run.state
                &&& match run.failure {
                    Some(e) => r == Err::<u128, CatalogError>(e) && final(self).catalog.capsule_list()
                        == old(self).catalog.capsule_list(),
                    None => r is Ok && capsule_recorded(
                        old(self).catalog.capsule_list(),
                        final(self).catalog.capsule_list(),
                        r->Ok_0,
                        data_len,
                        run.segments,
                        if run.saved <= u64::MAX { run.saved as u64 } else { u64::MAX },
                    ),
                }
                &&& (run.failure is None && keys(old(self).log.view()).no_duplicates() && names_below(
                    old(self).catalog.content_list(),
                    old(self).catalog.next_id(),
                ) && forall|k: int| 0 <= k < chunks@.len() ==> #[trigger] chunks@[k].payload_len <= u32::MAX)
                    ==> appended_in_place(
                    store_of(old(self).log, old(self).catalog),
                    run,
                    chunk_views(chunks@),
                )
            }),
    {
        let ghost st0 = store_of(self.log, self.catalog);
        let ghost cv = chunk_views(chunks@);
        let ghost n = pieces@.len();
        let mut segments: Vec<u64> = Vec::new();
        let mut saved: u64 = 0;
        let mut i: usize = 0;
        while i < pieces.len()
            invariant
                st0 == store_of(old(self).log, old(self).catalog),
                cv == chunk_views(chunks@),
                n == pieces@.len(),
                chunks@.len() == n,
                n <= u32::MAX,
                i <= n,
                st0.next + n <= u64::MAX,
                st0.end + payload_total(cv) <= u64::MAX,
                self.catalog.capsule_list() == old(self).catalog.capsule_list(),
                ({
                    let run = write_run(st0, pieces@, cv, data_len, i as nat);
                    &&& run.failure is None
                    &&& store_of(self.log, self.catalog) == run.state
                    &&& segments@ == run.segments
                    &&& saved == if run.saved <= u64::MAX { run.saved as u64 } else { u64::MAX }
                    &&& run.state.next <= st0.next + i
                    &&& run.state.end <= st0.end + payload_total(cv.take(i as int))
                    &&& forall|k: int|
                        0 <= k < run.state.log.len() ==> #[trigger] run.state.log[k].1.ref_count + (n
                            - i) <= u32::MAX
                }),
            decreases n - i,
        {
            let ghost prev = write_run(st0, pieces@, cv, data_len, i as nat);
            let (offset, length) = pieces[i];
            let end = offset.saturating_add(length);
            if end > data_len {
                proof {
                    assert(end == piece_end(pieces@[i as int]));
                    assert(write_run(st0, pieces@, cv, data_len, (i + 1) as nat).failure == Some(
                        CatalogError::PlanBeyondData { end, len: data_len },
                    ));
                    lemma_run_stops(st0, pieces@, cv, data_len, (i + 1) as nat, n as nat);
                }
                return Err(CatalogError::PlanBeyondData { end, len: data_len });
            }
            let c = &chunks[i];
            let h = c.hash.clone();
            proof {
                assert(h@ =~= c.hash@);
                assert(cv[i as int] == (c.hash@, c.stored_len, c.payload_len));
                assert(cv.take(i + 1).drop_last() =~= cv.take(i as int));
                lemma_payload_prefix(cv, i + 1);
                lemma_store_bounds(prev.state, c.hash@, c.payload_len, (n - i) as int);
            }
            match self.store_chunk(h, c.payload_len) {
                Err(e) => {
                    proof {
                        lemma_run_stops(st0, pieces@, cv, data_len, (i + 1) as nat, n as nat);
                    }
                    return Err(e);
                },
                Ok((seg, shared)) => {
                    segments.push(seg);
                    if shared {
                        saved = saved.saturating_add(c.stored_len);
                    }
                },
            }
            i = i + 1;
        }
        proof {
            if keys(st0.log).no_duplicates() && names_below(st0.content, st0.next) && forall|k: int|
                0 <= k < chunks@.len() ==> #[trigger] chunks@[k].payload_len <= u32::MAX {
                assert(cv.take(n as int) =~= cv);
                assert forall|k: int| 0 <= k < cv.len() implies #[trigger] cv[k].2 <= u32::MAX by {
                    assert(cv[k].2 == chunks@[k].payload_len);
                }
                lemma_write_appends_in_place(st0, pieces@, cv, data_len, n as nat);
            }
        }
        let id = new_capsule_id();
        self.catalog.create_capsule(id, data_len, segments, saved);
        Ok(id)
    }

    /// Deletes capsule `id`: each of its segments in turn is held once
    /// less, or, held by no other capsule, leaves the log with its content
    /// entry; then the capsule leaves the catalog. A segment the log lost
    /// stops the deletion, leaving the segments let go of before it.
    pub fn delete_capsule(&mut self, id: u128) -> (r: Result<(), CatalogError>)
        ensures
            final(self).log.end() == old(self).log.end(),
            final(self).catalog.next_id() == old(self).catalog.next_id(),
            match capsule_index(old(self).catalog.capsule_list(), id) {
                None => r == Err::<(), CatalogError>(CatalogError::CapsuleNotFound(id)) && final(self).log.view() == old(self).log.view() && final(self).catalog.content_list()
                    == old(self).catalog.content_list() && final(self).catalog.capsule_list() == old(self).catalog.capsule_list(),
                Some(k) => {
                    let segs = old(self).catalog.capsule_list()[k].segments;
                    let run = release_run(
                        old(self).log.view(),
                        old(self).catalog.content_list(),
                        segs,
                        segs.len(),
                    );
                    &&& final(self).log.view() == run.log
                    &&& final(self).catalog.content_list() == run.content
                    &&& match run.failure {
                        Some(seg) => r == Err::<(), CatalogError>(CatalogError::SegmentNotFound(seg))
                            && final(self).catalog.capsule_list() == old(self).catalog.capsule_list(),
                        None => r == Ok::<(), CatalogError>(()) && final(self).catalog.capsule_list()
                            == old(self).catalog.capsule_list().remove(k),
                    }
                },
            },
    {
        let capsule = match self.catalog.lookup_capsule(id) {
            Ok(c) => c,
            Err(e) => return Err(e),
        };
        let ghost log0 = self.log.view();
        let ghost content0 = self.catalog.content_list();
        let ghost segs = capsule.segments@;
        let mut i: usize = 0;
        while i < capsule.segments.len()
            invariant
                segs == capsule.segments@,
                match capsule_index(old(self).catalog.capsule_list(), id) {
                    Some(k) => old(self).catalog.capsule_list()[k].segments == segs,
                    None => false,
                },
                log0 == old(self).log.view(),
                content0 == old(self).catalog.content_list(),
                i <= segs.len(),
                self.log.end() == old(self).log.end(),
                self.catalog.next_id() == old(self).catalog.next_id(),
                self.catalog.capsule_list() == old(self).catalog.capsule_list(),
                ({
                    let run = release_run(log0, content0, segs, i as nat);
                    &&& run.failure is None
                    &&& self.log.view() == run.log
                    &&& self.catalog.content_list() == run.content
                }),
            decreases segs.len() - i,
        {
            let seg = capsule.segments[i];
            match self.log.get_segment_metadata(seg) {
                Err(_) => {
                    proof {
                        assert(segs[i as int] == seg);
                        assert(release_run(log0, content0, segs, (i + 1) as nat).failure == Some(seg));
                        lemma_release_stops(log0, content0, segs, (i + 1) as nat, segs.len());
                    }
                    return Err(CatalogError::SegmentNotFound(seg));
                },
                Ok(m) => {
                    if m.ref_count > 1 {
                        let rc = m.ref_count - 1;
                        let updated = Segment { id: seg, ref_count: rc, deduplicated: rc > 1, ..m };
                        self.log.update_segment_metadata(seg, updated);
                        proof {
                            crate::nvram::lemma_upsert_is_update(
                                release_run(log0, content0, segs, i as nat).log,
                                key_index(release_run(log0, content0, segs, i as nat).log, seg)->0,
                                seg,
                                updated,
                            );
                        }
                    } else {
                        let _ = self.log.remove_segment(seg);
                        self.catalog.forget_segment(seg);
                    }
                },
            }
            i = i + 1;
        }
        proof {
            assert(segs.len() == i);
        }
        let _ = self.catalog.delete_capsule(id);
        Ok(())
    }

    /// Collects the segments no capsule holds, or that no capsule counts:
    /// they leave the log, with their content entries. Gives back how
    /// many there were.
    pub fn garbage_collect(&mut self) -> (r: usize)
        ensures
            final(self).log.end() == old(self).log.end(),
            final(self).catalog.next_id() == old(self).catalog.next_id(),
            final(self).catalog.capsule_list() == old(self).catalog.capsule_list(),
            final(self).log.view() == gc_kept(old(self).log.view(), old(self).catalog.capsule_list()),
            final(self).catalog.content_list() == gc_content(
                old(self).catalog.content_list(),
                old(self).log.view(),
                old(self).catalog.capsule_list(),
            ),
            r == old(self).log.view().len() - gc_kept(
                old(self).log.view(),
                old(self).catalog.capsule_list(),
            ).len(),
    {
        let caps = self.catalog.capsules();
        let ghost cv = self.catalog.capsule_list();
        let ghost s = self.log.view();
        let ghost c0 = self.catalog.content_list();
        let keys = self.log.list_segment_ids();
        let mut reclaimed: usize = 0;
        let mut i: usize = 0;
        while i < keys.len()
            invariant
                capsule_views(caps@) == cv,
                cv == old(self).catalog.capsule_list(),
                s == old(self).log.view(),
                c0 == old(self).catalog.content_list(),
                keys@ == crate::nvram::keys(s),
                crate::nvram::keys(s).no_duplicates(),
                i <= s.len(),
                self.log.end() == old(self).log.end(),
                self.catalog.next_id() == old(self).catalog.next_id(),
                self.catalog.capsule_list() == cv,
                self.log.view() == gc_kept(s.take(i as int), cv) + s.skip(i as int),
                self.catalog.content_list() == gc_content(c0, s.take(i as int), cv),
                reclaimed == i - gc_kept(s.take(i as int), cv).len(),
                gc_kept(s.take(i as int), cv).len() <= i,
            decreases s.len() - i,
        {
            let key = keys[i];
            let ghost kept = gc_kept(s.take(i as int), cv);
            proof {
                assert(s.take(i + 1).drop_last() =~= s.take(i as int));
                assert(s.take(i + 1).last() == s[i as int]);
                assert(key == s[i as int].0);
                lemma_gc_position(s, i as int, cv);
            }
            let m = match self.log.get_segment_metadata(key) {
                Ok(m) => m,
                Err(_) => {
                    proof {
                        assert(false);
                    }
                    i = i + 1;
                    continue;
                },
            };
            if is_referenced(&caps, key) && m.ref_count > 0 {
                proof {
                    assert(gc_keeps(cv, s[i as int]));
                    assert(gc_kept(s.take(i + 1), cv) == kept.push(s[i as int]));
                    assert(kept + s.skip(i as int) =~= kept.push(s[i as int]) + s.skip(i + 1));
                }
            } else {
                let _ = self.log.remove_segment(key);
                self.catalog.forget_segment(key);
                proof {
                    assert(!gc_keeps(cv, s[i as int]));
                    assert((kept + s.skip(i as int)).remove(kept.len() as int) =~= kept + s.skip(i + 1));
                }
                reclaimed = reclaimed + 1;
            }
            i = i + 1;
        }
        proof {
            assert(s.take(i as int) =~= s);
            assert(s.skip(i as int) =~= Seq::<(u64, Segment)>::empty());
            assert(gc_kept(s, cv) + Seq::<(u64, Segment)>::empty() =~= gc_kept(s, cv));
        }
        reclaimed
    }

    /// The bytes a read of `len` bytes at `offset` gives from capsule `id`,
    /// whose segments hold `pieces` once read back, in order.
    pub fn read_range(&self, id: u128, offset: u64, len: usize, pieces: &Vec<Vec<u8>>) -> (r: Result<
        Vec<u8>,
        CatalogError,
    >)
        ensures
            match capsule_index(self.catalog.capsule_list(), id) {
                Some(k) => r is Ok && r->Ok_0@ == range_bytes(
                    self.catalog.capsule_list()[k].size,
                    offset,
                    len,
                    byte_views(pieces@),
                ),
                None => r == Err::<Vec<u8>, CatalogError>(CatalogError::CapsuleNotFound(id)),
            },
    {
        match self.catalog.lookup_capsule(id) {
            Err(e) => Err(e),
            Ok(c) => Ok(read_range_bytes(c.size, offset, len, pieces)),
        }
    }

    /// The whole of capsule `id`, whose segments hold `pieces` once read
    /// back, in order: the pieces laid end to end.
    pub fn read_capsule(&self, id: u128, pieces: &Vec<Vec<u8>>) -> (r: Result<Vec<u8>, CatalogError>)
        ensures
            match capsule_index(self.catalog.capsule_list(), id) {
                Some(k) => r is Ok && r->Ok_0@ == concat(byte_views(pieces@)),
                None => r == Err::<Vec<u8>, CatalogError>(CatalogError::CapsuleNotFound(id)),
            },
    {
        match self.catalog.lookup_capsule(id) {
            Err(e) => Err(e),
            Ok(_) => Ok(concat_pieces(pieces)),
        }
    }

    /// Keeps a segment received from another zone. When content with its
    /// digest is already here, nothing changes and the segment holding it
    /// is named, as already present. Otherwise a new segment is allocated
    /// and appended at the log's end for the received bytes (the caller
    /// writes them there), its digest is recorded on it and registered in
    /// the catalog under its lower-case hexadecimal spelling, and the
    /// answer says it was stored.
    pub fn store_received(&mut self, seg: &ReceivedSegment) -> (r: TransferAck)
        requires
            old(self).catalog.next_id() < u64::MAX,
            old(self).log.end() + seg.data@.len() <= u64::MAX,
            seg.content_hash@.len() == 32,
        ensures
            final(self).catalog.capsule_list() == old(self).catalog.capsule_list(),
            r.ok,
            ({
                let st = store_of(old(self).log, old(self).catalog);
                let key = ascii_chars(hex_bytes(seg.content_hash@));
                match content_of(st.content, key) {
                    Some(existing) => {
                        &&& r.segment_id == existing
                        &&& r.message@ == "segment already present"@
                        &&& store_of(final(self).log, final(self).catalog) == st
                    },
                    None => {
                        &&& r.segment_id == st.next
                        &&& r.message@ == "stored"@
                        &&& final(self).log.end() == st.end + seg.data@.len()
                        &&& final(self).catalog.content_list() == registered(st.content, key, st.next)
                        &&& final(self).catalog.next_id() == st.next + 1
                        &&& exists|h: [u8; 32]|
                            #![trigger h@]
                            h@ == seg.content_hash@ && final(self).log.view() == upsert(
                                st.log,
                                st.next,
                                Segment {
                                    content_hash: Some(h),
                                    ..fresh_segment(st.next, st.end, seg.data@.len() as u32)
                                },
                            )
                    },
                }
            }),
    {
        let hash = content_key(&seg.content_hash);
        match self.catalog.lookup_content(&hash) {
            Some(existing) => TransferAck {
                ok: true,
                segment_id: existing,
                message: String::from_str("segment already present"),
            },
            None => {
                let len = seg.data.len();
                let id = self.catalog.allocate_segment();
                let appended = self.log.append(id, len);
                let digest = digest_array(&seg.content_hash);
                let ghost mid = self.log.view();
                self.log.update_segment_metadata(id, Segment { content_hash: Some(digest), ..appended });
                proof {
                    crate::nvram::lemma_upsert_twice(
                        old(self).log.view(),
                        id,
                        appended,
                        Segment { content_hash: Some(digest), ..appended },
                    );
                }
                self.catalog.register_content(hash, id);
                TransferAck { ok: true, segment_id: id, message: String::from_str("stored") }
            },
        }
    }

    /// Stores one chunk whose content hash is `hash` and whose stored bytes
    /// number `len`; gives its segment and whether it was shared.
    pub fn store_chunk(&mut self, hash: String, len: usize) -> (r: Result<(u64, bool), CatalogError>)
        requires
            old(self).catalog.next_id() < u64::MAX,
            old(self).log.end() + len <= u64::MAX,
            forall|k: int|
                0 <= k < old(self).log.view().len() ==> #[trigger] old(self).log.view()[k].1.ref_count
                    < u32::MAX,
        ensures
            final(self).catalog.capsule_list() == old(self).catalog.capsule_list(),
            match store_one(store_of(old(self).log, old(self).catalog), hash@, len) {
                Ok((st, seg, d)) => r == Ok::<(u64, bool), CatalogError>((seg, d)) && store_of(
                    final(self).log,
                    final(self).catalog,
                ) == st,
                Err(seg) => r == Err::<(u64, bool), CatalogError>(CatalogError::SegmentNotFound(seg))
                    && store_of(final(self).log, final(self).catalog) == store_of(
                    old(self).log,
                    old(self).catalog,
                ),
            },
    {
        match self.catalog.lookup_content(&hash) {
            Some(existing) => {
                match self.log.get_segment_metadata(existing) {
                    Err(_) => Err(CatalogError::SegmentNotFound(existing)),
                    Ok(m) => {
                        let rc = m.ref_count + 1;
                        let updated = Segment { id: existing, ref_count: rc, deduplicated: rc > 1, ..m };
                        proof {
                            let i = key_index(old(self).log.view(), existing)->0;
                            assert(old(self).log.view()[i].1.ref_count < u32::MAX);
                        }
                        self.log.update_segment_metadata(existing, updated);
                        proof {
                            let i = key_index(old(self).log.view(), existing)->0;
                            crate::nvram::lemma_upsert_is_update(old(self).log.view(), i, existing, updated);
                        }
                        Ok((existing, true))
                    },
                }
            },
            None => {
                let seg = self.catalog.allocate_segment();
                self.log.append(seg, len);
                self.catalog.register_content(hash, seg);
                Ok((seg, false))
            },
        }
    }
}

} // verus!
