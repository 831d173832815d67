//! The bookkeeping of the append-only segment log: which segment lies
//! where, how many capsules refer to it, what a compaction keeps and where
//! it moves it, and the offsets handed out by a transaction. The bytes
//! themselves are read and written by the caller at the offsets given here.

use vstd::prelude::*;

verus! {

/// What the log knows of a segment.
#[derive(Clone, Copy, Debug, PartialEq, Eq)]
pub struct Segment {
    pub id: u64,
    /// Where the segment's bytes start in the log.
    pub offset: u64,
    pub len: u32,
    /// How many capsules refer to the segment.
    pub ref_count: u32,
    /// Whether more than one capsule refers to it.
    pub deduplicated: bool,
    pub access_count: u64,
    /// The digest of the segment's bytes, where one was recorded.
    pub content_hash: Option<[u8; 32]>,
}

/// Why a log operation is refused.
#[derive(Clone, Copy, Debug, PartialEq, Eq, Structural)]
pub enum NvramError {
    /// No segment is recorded under the id.
    NotFound(u64),
    /// The segment's reference count is already zero.
    AlreadyReleased(u64),
    /// The transaction was committed or rolled back.
    Finalized,
}

/// A fresh segment of `len` bytes at `offset`, referred to once.
pub open spec fn fresh_segment(id: u64, offset: u64, len: u32) -> Segment {
    Segment { id, offset, len, ref_count: 1, deduplicated: false, access_count: 0, content_hash: None }
}

/// The keys of the entries, in order.
pub open spec fn keys(s: Seq<(u64, Segment)>) -> Seq<u64> {
    s.map_values(|e: (u64, Segment)| e.0)
}

/// The segments of the entries, in order.
pub open spec fn segments_of(s: Seq<(u64, Segment)>) -> Seq<Segment> {
    s.map_values(|e: (u64, Segment)| e.1)
}

/// Position of the entry under `key`.
pub open spec fn key_index(s: Seq<(u64, Segment)>, key: u64) -> Option<int> {
    if exists|i: int| 0 <= i < s.len() && s[i].0 == key {
        Some(choose|i: int| 0 <= i < s.len() && s[i].0 == key)
    } else {
        None
    }
}

/// The entries with `seg` recorded under `key`: in place of the entry
/// under that key, or after the others.
pub open spec fn upsert(s: Seq<(u64, Segment)>, key: u64, seg: Segment) -> Seq<(u64, Segment)> {
    match key_index(s, key) {
        Some(i) => s.update(i, (key, seg)),
        None => s.push((key, seg)),
    }
}

/// The entries with each of `more` recorded in turn.
pub open spec fn upsert_all(s: Seq<(u64, Segment)>, more: Seq<(u64, Segment)>) -> Seq<(u64, Segment)>
    decreases more.len(),
{
    if more.len() == 0 {
        s
    } else {
        let t = upsert_all(s, more.drop_last());
        upsert(t, more.last().0, more.last().1)
    }
}

/// Each segment under its own id.
pub open spec fn by_own_id(segs: Seq<Segment>) -> Seq<(u64, Segment)> {
    segs.map_values(|m: Segment| (m.id, m))
}

/// The total length of the segments.
pub open spec fn total_len_of(s: Seq<Segment>) -> nat
    decreases s.len(),
{
    if s.len() == 0 {
        0
    } else {
        total_len_of(s.drop_last()) + s.last().len as nat
    }
}

/// The segments still referred to, in the order of the entries.
pub open spec fn live_segments(s: Seq<(u64, Segment)>) -> Seq<Segment>
    decreases s.len(),
{
    if s.len() == 0 {
        Seq::empty()
    } else if s.last().1.ref_count > 0 {
        live_segments(s.drop_last()).push(s.last().1)
    } else {
        live_segments(s.drop_last())
    }
}

pub(crate) proof fn lemma_index_unique(s: Seq<(u64, Segment)>, i: int, key: u64)
    requires
        keys(s).no_duplicates(),
        0 <= i < s.len(),
        s[i].0 == key,
    ensures
        key_index(s, key) == Some(i),
{
    assert(s[i].0 == key);
    let k = key_index(s, key)->0;
    assert(0 <= k < s.len() && s[k].0 == key);
    assert(keys(s)[k] == s[k].0);
    assert(keys(s)[i] == s[i].0);
}

/// What is recorded under `key`.
pub open spec fn lookup(s: Seq<(u64, Segment)>, key: u64) -> Option<Segment> {
    match key_index(s, key) {
        Some(i) => Some(s[i].1),
        None => None,
    }
}

/// The segment once one more capsule refers to it: both counts go up,
/// stopping at their largest values, and it is deduplicated once counted
/// more than once.
pub open spec fn incremented(s: Segment) -> Segment {
    let rc = if s.ref_count < u32::MAX { (s.ref_count + 1) as u32 } else { s.ref_count };
    Segment {
        ref_count: rc,
        deduplicated: rc > 1,
        access_count: if s.access_count < u64::MAX { (s.access_count + 1) as u64 } else { s.access_count },
        ..s
    }
}

/// The segment once one capsule fewer refers to it (for a count above zero).
pub open spec fn decremented(s: Segment) -> Segment {
    Segment { ref_count: (s.ref_count - 1) as u32, deduplicated: s.ref_count - 1 > 1, ..s }
}

/// What is recorded under a key is what was last recorded under it, and
/// recording under one key leaves every other key as it was.
pub proof fn lemma_upsert_lookup(s: Seq<(u64, Segment)>, key: u64, seg: Segment, other: u64)
    requires
        keys(s).no_duplicates(),
    ensures
        lookup(upsert(s, key, seg), key) == Some(seg),
        other != key ==> lookup(upsert(s, key, seg), other) == lookup(s, other),
{
    let t = upsert(s, key, seg);
    lemma_upsert_distinct(s, key, seg);
    let n = match key_index(s, key) {
        Some(i) => i,
        None => s.len() as int,
    };
    assert(t[n] == (key, seg));
    lemma_index_unique(t, n, key);
    if other != key {
        match key_index(s, other) {
            Some(j) => {
                let j0 = key_index(s, other)->0;
                assert(0 <= j0 < s.len() && s[j0].0 == other);
                assert(t[j0] == s[j0]);
                lemma_index_unique(s, j0, other);
                lemma_index_unique(t, j0, other);
            },
            None => {
                if exists|j: int| 0 <= j < t.len() && t[j].0 == other {
                    let j = choose|j: int| 0 <= j < t.len() && t[j].0 == other;
                    if j != n {
                        assert(s[j].0 == other);
                    }
                }
            },
        }
    }
}

/// Counting a segment once more and then once less gives back its count,
/// below the largest count.
pub proof fn lemma_increment_decrement(s: Segment)
    requires
        s.ref_count < u32::MAX,
    ensures
        incremented(s).ref_count > 0,
        decremented(incremented(s)).ref_count == s.ref_count,
        decremented(incremented(s)).offset == s.offset,
        decremented(incremented(s)).len == s.len,
        decremented(incremented(s)).id == s.id,
{
}

/// Recording under a key already present replaces its entry in place.
pub proof fn lemma_upsert_is_update(s: Seq<(u64, Segment)>, i: int, key: u64, seg: Segment)
    requires
        key_index(s, key) == Some(i),
    ensures
        upsert(s, key, seg) == s.update(i, (key, seg)),
{
}

/// Recording twice under one key is recording the second time only.
pub(crate) proof fn lemma_upsert_twice(s: Seq<(u64, Segment)>, key: u64, a: Segment, b: Segment)
    requires
        keys(s).no_duplicates(),
    ensures
        upsert(upsert(s, key, a), key, b) == upsert(s, key, b),
{
    let t = upsert(s, key, a);
    match key_index(s, key) {
        Some(i) => {
            assert(keys(t) =~= keys(s));
            assert(t[i].0 == key);
            lemma_index_unique(t, i, key);
            assert(t.update(i, (key, b)) =~= s.update(i, (key, b)));
        },
        None => {
            let n = s.len() as int;
            assert(keys(t) =~= keys(s).push(key));
            assert(keys(t).no_duplicates()) by {
                assert forall|x: int, y: int| 0 <= x < keys(t).len() && 0 <= y < keys(t).len() && x != y
                    implies keys(t)[x] != keys(t)[y] by {
                    if x < n && y < n {
                        assert(keys(t)[x] == keys(s)[x] && keys(t)[y] == keys(s)[y]);
                    } else if x < n {
                        assert(keys(t)[x] == s[x].0);
                    } else {
                        assert(keys(t)[y] == s[y].0);
                    }
                }
            }
            assert(t[n].0 == key);
            lemma_index_unique(t, n, key);
            assert(t.update(n, (key, b)) =~= s.push((key, b)));
        },
    }
}

/// Recording under a key keeps the keys distinct.
pub(crate) proof fn lemma_upsert_distinct(s: Seq<(u64, Segment)>, key: u64, seg: Segment)
    requires
        keys(s).no_duplicates(),
    ensures
        keys(upsert(s, key, seg)).no_duplicates(),
{
    let t = upsert(s, key, seg);
    match key_index(s, key) {
        Some(i) => {
            assert(keys(t) =~= keys(s));
        },
        None => {
            assert(keys(t) =~= keys(s).push(key));
            assert forall|a: int, b: int|
                0 <= a < keys(t).len() && 0 <= b < keys(t).len() && a != b implies keys(t)[a]
                != keys(t)[b] by {
                if a < s.len() && b < s.len() {
                    assert(keys(t)[a] == keys(s)[a]);
                    assert(keys(t)[b] == keys(s)[b]);
                } else if a < s.len() {
                    assert(keys(t)[a] == s[a].0);
                } else if b < s.len() {
                    assert(keys(t)[b] == s[b].0);
                }
            }
        },
    }
}

/// A prefix is no longer than the whole.
proof fn lemma_total_len_prefix(s: Seq<Segment>, n: int)
    requires
        0 <= n <= s.len(),
    ensures
        total_len_of(s.take(n)) <= total_len_of(s),
    decreases s.len(),
{
    if n < s.len() {
        assert(s.drop_last().take(n) =~= s.take(n));
        lemma_total_len_prefix(s.drop_last(), n);
    } else {
        assert(s.take(n) =~= s);
    }
}

/// A segment's key, what was recorded of it, and where a compaction puts it.
#[derive(Clone, Copy, Debug, PartialEq, Eq)]
pub struct SegmentMove {
    pub key: u64,
    pub segment: Segment,
    pub new_offset: u64,
}

/// What a compaction does: the segments it keeps, in order, each with its
/// new place; the log's new length; and the bytes it gives back.
#[derive(Clone, Debug)]
pub struct CompactionPlan {
    pub moves: Vec<SegmentMove>,
    pub new_size: u64,
    pub reclaimed: u64,
}

impl View for CompactionPlan {
    type V = Seq<(u64, Segment)>;

    /// The entries kept, in order, as recorded before the compaction.
    open spec fn view(&self) -> Seq<(u64, Segment)> {
        self.moves@.map_values(|x: SegmentMove| (x.key, x.segment))
    }
}

/// The entries as they stand once the moves are carried out.
pub open spec fn placed(moves: Seq<SegmentMove>) -> Seq<(u64, Segment)> {
    moves.map_values(|x: SegmentMove| (x.key, Segment { offset: x.new_offset, ..x.segment }))
}

/// Offsets do not decrease along the entries.
pub open spec fn sorted_by_offset(s: Seq<(u64, Segment)>) -> bool {
    forall|i: int, j: int| 0 <= i < j < s.len() ==> s[i].1.offset <= s[j].1.offset
}

/// `kept` holds exactly the entries of `s` still referred to, each once,
/// in order of where they lie.
pub open spec fn compaction_ok(s: Seq<(u64, Segment)>, kept: Seq<(u64, Segment)>) -> bool {
    &&& sorted_by_offset(kept)
    &&& keys(kept).no_duplicates()
    &&& forall|x: (u64, Segment)| #[trigger] kept.contains(x) <==> s.contains(x) && x.1.ref_count > 0
}

/// The entries of `kept` laid end to end from the log's start, in order.
pub open spec fn relocated(kept: Seq<(u64, Segment)>) -> Seq<(u64, Segment)> {
    Seq::new(
        kept.len(),
        |j: int|
            (kept[j].0, Segment { offset: total_len_of(segments_of(kept).take(j)) as u64, ..kept[j].1 }),
    )
}

/// The total length of the segments still referred to.
pub open spec fn live_total(s: Seq<(u64, Segment)>) -> nat {
    total_len_of(live_segments(s))
}

/// Inserting a segment adds its length to the total.
proof fn lemma_total_len_insert(t: Seq<Segment>, p: int, x: Segment)
    requires
        0 <= p <= t.len(),
    ensures
        total_len_of(t.insert(p, x)) == total_len_of(t) + x.len,
    decreases t.len(),
{
    if p == t.len() {
        assert(t.insert(p, x).drop_last() =~= t);
    } else {
        assert(t.insert(p, x).drop_last() =~= t.drop_last().insert(p, x));
        lemma_total_len_insert(t.drop_last(), p, x);
    }
}

/// The segment map of the log and the log's end.
pub struct NvramLog {
    entries: Vec<(u64, Segment)>,
    next_offset: u64,
}

impl NvramLog {
    #[verifier::type_invariant]
    spec fn distinct_keys(self) -> bool {
        keys(self.entries@).no_duplicates()
    }

    /// The recorded segments under their keys, in the order they were
    /// first recorded.
    pub closed spec fn view(self) -> Seq<(u64, Segment)> {
        self.entries@
    }

    /// The log's end: where the next segment goes.
    pub closed spec fn end(self) -> u64 {
        self.next_offset
    }

    /// A log whose bytes end at `len` and that records no segment.
    pub fn new(len: u64) -> (r: Self)
        ensures
            r.view() == Seq::<(u64, Segment)>::empty(),
            r.end() == len,
    {
        NvramLog { entries: Vec::new(), next_offset: len }
    }

    /// A log whose bytes end at `len`, with each of `entries` recorded in
    /// turn under its key (a later entry under a key replaces an earlier).
    pub fn restore(entries: Vec<(u64, Segment)>, len: u64) -> (r: Self)
        ensures
            r.view() == upsert_all(Seq::empty(), entries@),
            r.end() == len,
    {
        let mut log = NvramLog::new(len);
        let mut i: usize = 0;
        while i < entries.len()
            invariant
                i <= entries@.len(),
                log.view() == upsert_all(Seq::empty(), entries@.take(i as int)),
                log.end() == len,
            decreases entries@.len() - i,
        {
            let (k, m) = entries[i];
            log.update_segment_metadata(k, m);
            proof {
                assert(entries@.take(i + 1).drop_last() =~= entries@.take(i as int));
            }
            i = i + 1;
        }
        proof {
            assert(entries@.take(i as int) =~= entries@);
        }
        log
    }

    /// Where the next segment goes.
    pub fn next_offset(&self) -> (r: u64)
        ensures
            r == self.end(),
    {
        self.next_offset
    }

    fn position(&self, key: u64) -> (r: Option<usize>)
        ensures
            match r {
                Some(i) => i < self.view().len() && self.view()[i as int].0 == key && key_index(
                    self.view(),
                    key,
                ) == Some(i as int),
                None => key_index(self.view(), key) is None,
            },
    {
        proof {
            use_type_invariant(self);
        }
        let mut i: usize = 0;
        while i < self.entries.len()
            invariant
                i <= self.entries@.len(),
                keys(self.entries@).no_duplicates(),
                forall|j: int| 0 <= j < i ==> self.entries@[j].0 != key,
            decreases self.entries@.len() - i,
        {
            if self.entries[i].0 == key {
                proof {
                    lemma_index_unique(self.entries@, i as int, key);
                }
                return Some(i);
            }
            i = i + 1;
        }
        None
    }

    /// What the log knows of the segment under `key`.
    pub fn get_segment_metadata(&self, key: u64) -> (r: Result<Segment, NvramError>)
        ensures
            match key_index(self.view(), key) {
                Some(i) => r == Ok::<Segment, NvramError>(self.view()[i].1),
                None => r == Err::<Segment, NvramError>(NvramError::NotFound(key)),
            },
    {
        match self.position(key) {
            Some(i) => Ok(self.entries[i].1),
            None => Err(NvramError::NotFound(key)),
        }
    }

    /// Records `segment` under `key`, replacing what was recorded there.
    pub fn update_segment_metadata(&mut self, key: u64, segment: Segment)
        ensures
            final(self).end() == old(self).end(),
            final(self).view() == upsert(old(self).view(), key, segment),
            keys(old(self).view()).no_duplicates(),
    {
        proof {
            use_type_invariant(&*self);
            lemma_upsert_distinct(self.entries@, key, segment);
        }
        let found = self.position(key);
        let mut es: Vec<(u64, Segment)> = Vec::new();
        std::mem::swap(&mut es, &mut self.entries);
        match found {
            Some(i) => {
                es.set(i, (key, segment));
            },
            None => {
                es.push((key, segment));
            },
        }
        self.entries = es;
    }

    /// Appends a segment of `len` bytes at the log's end, recorded under
    /// `id` and referred to once; the log's end moves past it. The recorded
    /// length is `len` cut to 32 bits.
    pub fn append(&mut self, id: u64, len: usize) -> (r: Segment)
        requires
            old(self).end() + len <= u64::MAX,
        ensures
            r == fresh_segment(id, old(self).end(), len as u32),
            final(self).end() == old(self).end() + len,
            final(self).view() == upsert(old(self).view(), id, r),
            keys(old(self).view()).no_duplicates(),
    {
        proof {
            use_type_invariant(&*self);
        }
        let seg = Segment {
            id,
            offset: self.next_offset,
            len: #[verifier::truncate] (len as u32),
            ref_count: 1,
            deduplicated: false,
            access_count: 0,
            content_hash: None,
        };
        self.next_offset = self.next_offset + len as u64;
        self.update_segment_metadata(id, seg);
        seg
    }

    /// One more capsule refers to the segment under `key`: its count goes
    /// up (stopping at the largest count), it is deduplicated once counted
    /// more than once, and its access count goes up (stopping likewise).
    pub fn increment_refcount(&mut self, key: u64) -> (r: Result<Segment, NvramError>)
        ensures
            final(self).end() == old(self).end(),
            match key_index(old(self).view(), key) {
                Some(i) => r == Ok::<Segment, NvramError>(incremented(old(self).view()[i].1))
                    && final(self).view() == old(self).view().update(
                    i,
                    (key, incremented(old(self).view()[i].1)),
                ),
                None => r == Err::<Segment, NvramError>(NvramError::NotFound(key)) && final(self).view()
                    == old(self).view(),
            },
    {
        match self.position(key) {
            None => Err(NvramError::NotFound(key)),
            Some(i) => {
                let s = self.entries[i].1;
                let rc = s.ref_count.saturating_add(1);
                let u = Segment {
                    ref_count: rc,
                    deduplicated: rc > 1,
                    access_count: s.access_count.saturating_add(1),
                    ..s
                };
                self.update_segment_metadata(key, u);
                Ok(u)
            },
        }
    }

    /// One capsule fewer refers to the segment under `key`: its count goes
    /// down, and it stays deduplicated while counted more than once.
    /// Refused for a count already at zero.
    pub fn decrement_refcount(&mut self, key: u64) -> (r: Result<Segment, NvramError>)
        ensures
            final(self).end() == old(self).end(),
            match key_index(old(self).view(), key) {
                Some(i) => if old(self).view()[i].1.ref_count == 0 {
                    r == Err::<Segment, NvramError>(NvramError::AlreadyReleased(key)) && final(self).view()
                        == old(self).view()
                } else {
                    r == Ok::<Segment, NvramError>(decremented(old(self).view()[i].1)) && final(self).view()
                        == old(self).view().update(i, (key, decremented(old(self).view()[i].1)))
                },
                None => r == Err::<Segment, NvramError>(NvramError::NotFound(key)) && final(self).view()
                    == old(self).view(),
            },
    {
        match self.position(key) {
            None => Err(NvramError::NotFound(key)),
            Some(i) => {
                let s = self.entries[i].1;
                if s.ref_count == 0 {
                    return Err(NvramError::AlreadyReleased(key));
                }
                let rc = s.ref_count - 1;
                let u = Segment { ref_count: rc, deduplicated: rc > 1, ..s };
                self.update_segment_metadata(key, u);
                Ok(u)
            },
        }
    }

    /// Forgets the segment under `key`, giving back what was recorded.
    pub fn remove_segment(&mut self, key: u64) -> (r: Option<Segment>)
        ensures
            final(self).end() == old(self).end(),
            match key_index(old(self).view(), key) {
                Some(i) => r == Some(old(self).view()[i].1) && final(self).view() == old(self).view().remove(i),
                None => r is None && final(self).view() == old(self).view(),
            },
    {
        proof {
            use_type_invariant(&*self);
        }
        match self.position(key) {
            None => None,
            Some(i) => {
                let ghost s = self.entries@;
                let mut es: Vec<(u64, Segment)> = Vec::new();
                std::mem::swap(&mut es, &mut self.entries);
                let (_, m) = es.remove(i);
                proof {
                    assert(keys(es@) =~= keys(s).remove(i as int));
                    assert forall|a: int, b: int|
                        0 <= a < keys(es@).len() && 0 <= b < keys(es@).len() && a != b implies keys(
                        es@,
                    )[a] != keys(es@)[b] by {
                        let a2 = if a < i { a } else { a + 1 };
                        let b2 = if b < i { b } else { b + 1 };
                        assert(keys(es@)[a] == keys(s)[a2]);
                        assert(keys(es@)[b] == keys(s)[b2]);
                    }
                }
                self.entries = es;
                Some(m)
            },
        }
    }

    /// The keys of the recorded segments.
    pub fn list_segment_ids(&self) -> (r: Vec<u64>)
        ensures
            r@ == keys(self.view()),
            r@.no_duplicates(),
    {
        proof {
            use_type_invariant(self);
        }
        let mut r: Vec<u64> = Vec::new();
        let mut i: usize = 0;
        while i < self.entries.len()
            invariant
                i <= self.entries@.len(),
                r@ == keys(self.entries@).take(i as int),
            decreases self.entries@.len() - i,
        {
            r.push(self.entries[i].0);
            proof {
                assert(r@ =~= keys(self.entries@).take(i + 1));
            }
            i = i + 1;
        }
        proof {
            assert(keys(self.entries@).take(i as int) =~= keys(self.entries@));
        }
        r
    }

    /// The recorded segments.
    pub fn list_segments(&self) -> (r: Vec<Segment>)
        ensures
            r@ == segments_of(self.view()),
    {
        let mut r: Vec<Segment> = Vec::new();
        let mut i: usize = 0;
        while i < self.entries.len()
            invariant
                i <= self.entries@.len(),
                r@ == segments_of(self.entries@).take(i as int),
            decreases self.entries@.len() - i,
        {
            r.push(self.entries[i].1);
            proof {
                assert(r@ =~= segments_of(self.entries@).take(i + 1));
            }
            i = i + 1;
        }
        proof {
            assert(segments_of(self.entries@).take(i as int) =~= segments_of(self.entries@));
        }
        r
    }

    /// The bytes the recorded segments take, released ones included.
    pub fn used_bytes(&self) -> (r: u64)
        requires
            total_len_of(segments_of(self.view())) <= u64::MAX,
        ensures
            r == total_len_of(segments_of(self.view())),
    {
        let ghost segs = segments_of(self.entries@);
        let mut total: u64 = 0;
        let mut i: usize = 0;
        while i < self.entries.len()
            invariant
                segs == segments_of(self.entries@),
                total_len_of(segs) <= u64::MAX,
                i <= segs.len(),
                total == total_len_of(segs.take(i as int)),
            decreases segs.len() - i,
        {
            proof {
                assert(segs.take(i + 1).drop_last() =~= segs.take(i as int));
                lemma_total_len_prefix(segs, i + 1);
            }
            total = total + self.entries[i].1.len as u64;
            i = i + 1;
        }
        proof {
            assert(segs.take(i as int) =~= segs);
        }
        total
    }

    /// A transaction on the log, starting where the log now ends.
    pub fn begin_transaction(&self) -> (r: NvramTransaction)
        ensures
            r.pending_view() == Seq::<Segment>::empty(),
            r.base() == self.end(),
            r.current() == self.end(),
            !r.is_finalized(),
    {
        NvramTransaction {
            pending: Vec::new(),
            base_offset: self.next_offset,
            current_offset: self.next_offset,
            finalized: false,
        }
    }

    /// Moves the log's end to `offset`, keeping what is recorded.
    fn set_end(&mut self, offset: u64)
        ensures
            final(self).view() == old(self).view(),
            final(self).end() == offset,
    {
        proof {
            use_type_invariant(&*self);
        }
        self.next_offset = offset;
    }

    /// Records each of `segs` in turn under its own id.
    fn record_all(&mut self, segs: &Vec<Segment>)
        ensures
            final(self).view() == upsert_all(old(self).view(), by_own_id(segs@)),
            final(self).end() == old(self).end(),
    {
        let mut i: usize = 0;
        while i < segs.len()
            invariant
                i <= segs@.len(),
                self.view() == upsert_all(old(self).view(), by_own_id(segs@.take(i as int))),
                self.end() == old(self).end(),
            decreases segs@.len() - i,
        {
            let m = segs[i];
            self.update_segment_metadata(m.id, m);
            proof {
                assert(by_own_id(segs@.take(i + 1)).drop_last() =~= by_own_id(segs@.take(i as int)));
                assert(by_own_id(segs@.take(i + 1)).last() == (m.id, m));
            }
            i = i + 1;
        }
        proof {
            assert(segs@.take(i as int) =~= segs@);
        }
    }

    /// The compaction of the log, or none for a log that holds no bytes:
    /// the segments still referred to, in order of where they lie, each
    /// moved to lie right after the one before, from the log's start.
    pub fn plan_compaction(&self) -> (r: Option<CompactionPlan>)
        requires
            live_total(self.view()) <= u64::MAX,
        ensures
            (self.end() == 0) == r is None,
            match r {
                Some(p) => {
                    &&& compaction_ok(self.view(), p@)
                    &&& placed(p.moves@) == relocated(p@)
                    &&& p.new_size == live_total(self.view())
                    &&& p.reclaimed == if self.end() >= p.new_size {
                        (self.end() - p.new_size) as u64
                    } else {
                        0
                    }
                },
                None => true,
            },
    {
        if self.next_offset == 0 {
            return None;
        }
        proof {
            use_type_invariant(self);
        }
        let ghost s = self.entries@;
        let mut live: Vec<(u64, Segment)> = Vec::new();
        let mut i: usize = 0;
        while i < self.entries.len()
            invariant
                s == self.entries@,
                keys(s).no_duplicates(),
                i <= s.len(),
                sorted_by_offset(live@),
                keys(live@).no_duplicates(),
                forall|x: (u64, Segment)| #[trigger] live@.contains(x) <==> exists|j: int|
                    0 <= j < i && s[j] == x && x.1.ref_count > 0,
                total_len_of(segments_of(live@)) == live_total(s.take(i as int)),
            decreases s.len() - i,
        {
            let m = self.entries[i];
            let ghost before = live@;
            proof {
                assert(s.take(i + 1).drop_last() =~= s.take(i as int));
            }
            if m.1.ref_count > 0 {
                proof {
                    assert forall|x: (u64, Segment)| #[trigger] before.contains(x) implies x.0
                        != m.0 by {
                        let j = choose|j: int| 0 <= j < i && s[j] == x && x.1.ref_count > 0;
                        assert(keys(s)[j] != keys(s)[i as int]);
                    }
                }
                let p = insert_by_offset(&mut live, m);
                proof {
                    assert(segments_of(live@) =~= segments_of(before).insert(p as int, m.1));
                    lemma_total_len_insert(segments_of(before), p as int, m.1);
                }
            }
            proof {
                let ls = live_segments(s.take(i as int));
                assert(s.take(i + 1).last() == m);
                if m.1.ref_count > 0 {
                    assert(live_segments(s.take(i + 1)) == ls.push(m.1));
                    assert(ls.push(m.1).drop_last() =~= ls);
                } else {
                    assert(live_segments(s.take(i + 1)) == ls);
                }
                assert forall|x: (u64, Segment)| #[trigger] live@.contains(x) <==> exists|j: int|
                    0 <= j < i + 1 && s[j] == x && x.1.ref_count > 0 by {
                    if x == m && m.1.ref_count > 0 {
                        assert(s[i as int] == x);
                    }
                    if exists|j: int| 0 <= j < i + 1 && s[j] == x && x.1.ref_count > 0 {
                        let j = choose|j: int| 0 <= j < i + 1 && s[j] == x && x.1.ref_count > 0;
                        if j < i {
                            assert(before.contains(x));
                        }
                    }
                }
            }
            i = i + 1;
        }
        proof {
            assert(s.take(i as int) =~= s);
            assert forall|x: (u64, Segment)| #[trigger] live@.contains(x) <==> s.contains(x)
                && x.1.ref_count > 0 by {
                if s.contains(x) && x.1.ref_count > 0 {
                    let j = choose|j: int| 0 <= j < s.len() && s[j] == x;
                    assert(0 <= j < i && s[j] == x && x.1.ref_count > 0);
                }
            }
        }
        let ghost segs = segments_of(live@);
        let mut moves: Vec<SegmentMove> = Vec::new();
        let mut to: u64 = 0;
        let mut k: usize = 0;
        while k < live.len()
            invariant
                segs == segments_of(live@),
                total_len_of(segs) <= u64::MAX,
                k <= live@.len(),
                moves@.len() == k,
                forall|j: int|
                    0 <= j < k ==> (#[trigger] moves@[j]).key == live@[j].0 && moves@[j].segment
                        == live@[j].1 && moves@[j].new_offset == total_len_of(segs.take(j)),
                to == total_len_of(segs.take(k as int)),
            decreases live@.len() - k,
        {
            let m = live[k];
            proof {
                assert(segs.take(k + 1).drop_last() =~= segs.take(k as int));
                lemma_total_len_prefix(segs, k + 1);
            }
            moves.push(SegmentMove { key: m.0, segment: m.1, new_offset: to });
            to = to + m.1.len as u64;
            k = k + 1;
        }
        proof {
            assert(segs.take(live@.len() as int) =~= segs);
        }
        let reclaimed = self.next_offset.saturating_sub(to);
        let plan = CompactionPlan { moves, new_size: to, reclaimed };
        proof {
            assert(plan@ =~= live@);
            assert(segments_of(plan@) == segs);
            assert forall|j: int| 0 <= j < plan.moves@.len() implies placed(plan.moves@)[j]
                == relocated(plan@)[j] by {
                lemma_total_len_prefix(segs, j);
            }
            assert(placed(plan.moves@) =~= relocated(plan@));
        }
        Some(plan)
    }

    /// Carries out a compaction: only the planned segments stay, at their
    /// new places, and the log ends at the plan's new length.
    pub fn apply_compaction(&mut self, plan: &CompactionPlan)
        requires
            keys(plan@).no_duplicates(),
        ensures
            final(self).end() == plan.new_size,
            final(self).view() == placed(plan.moves@),
    {
        let mut es: Vec<(u64, Segment)> = Vec::new();
        let mut i: usize = 0;
        while i < plan.moves.len()
            invariant
                i <= plan.moves@.len(),
                es@ == placed(plan.moves@.take(i as int)),
            decreases plan.moves@.len() - i,
        {
            let mv = plan.moves[i];
            es.push((mv.key, Segment { offset: mv.new_offset, ..mv.segment }));
            proof {
                assert(es@ =~= placed(plan.moves@.take(i + 1)));
            }
            i = i + 1;
        }
        proof {
            assert(plan.moves@.take(i as int) =~= plan.moves@);
            assert(keys(es@) =~= keys(plan@));
        }
        self.entries = es;
        self.next_offset = plan.new_size;
    }

    /// Compacts the log: on a log that holds bytes, only the segments
    /// still referred to stay, laid end to end from the log's start in
    /// order of where they lay, and the bytes past them are given back.
    /// Gives back how many bytes that was.
    pub fn compact(&mut self) -> (r: u64)
        requires
            live_total(old(self).view()) <= u64::MAX,
        ensures
            old(self).end() == 0 ==> r == 0 && final(self).view() == old(self).view()
                && final(self).end() == 0,
            old(self).end() != 0 ==> {
                &&& exists|kept: Seq<(u64, Segment)>|
                    compaction_ok(old(self).view(), kept) && final(self).view() == relocated(kept)
                &&& final(self).end() == live_total(old(self).view())
                &&& r == if old(self).end() >= final(self).end() {
                    (old(self).end() - final(self).end()) as u64
                } else {
                    0
                }
            },
    {
        match self.plan_compaction() {
            None => 0,
            Some(plan) => {
                let ghost kept = plan@;
                self.apply_compaction(&plan);
                proof {
                    assert(compaction_ok(old(self).view(), kept) && self.view() == relocated(kept));
                }
                plan.reclaimed
            },
        }
    }
}

/// Position of the first segment with id `id`.
pub open spec fn first_with_id(s: Seq<Segment>, id: u64) -> Option<int> {
    if exists|i: int|
        0 <= i < s.len() && s[i].id == id && forall|k: int| 0 <= k < i ==> s[k].id != id {
        Some(
            choose|i: int|
                0 <= i < s.len() && s[i].id == id && forall|k: int| 0 <= k < i ==> s[k].id != id,
        )
    } else {
        None
    }
}

/// `segment` with the id, place and length of `at`.
pub open spec fn merged(segment: Segment, id: u64, at: Segment) -> Segment {
    Segment { id, offset: at.offset, len: at.len, ..segment }
}

/// The segments a transaction appended and the offsets it handed out:
/// each appended segment goes right after the one before, from where the
/// log ended when the transaction began. They are recorded in the log
/// only at the commit; a rollback takes the log's end back.
pub struct NvramTransaction {
    pending: Vec<Segment>,
    base_offset: u64,
    current_offset: u64,
    finalized: bool,
}

fn first_position(s: &Vec<Segment>, id: u64) -> (r: Option<usize>)
    ensures
        match r {
            Some(i) => i < s@.len() && first_with_id(s@, id) == Some(i as int),
            None => first_with_id(s@, id) is None,
        },
{
    let mut i: usize = 0;
    while i < s.len()
        invariant
            i <= s@.len(),
            forall|k: int| 0 <= k < i ==> s@[k].id != id,
        decreases s@.len() - i,
    {
        if s[i].id == id {
            proof {
                let t = s@;
                assert(0 <= i < t.len() && t[i as int].id == id && forall|k: int|
                    0 <= k < i ==> t[k].id != id);
                let c = first_with_id(t, id)->0;
                assert(0 <= c < t.len() && t[c].id == id && forall|k: int| 0 <= k < c ==> t[k].id != id);
                if c < i {
                    assert(t[c].id != id);
                } else if c > i {
                    assert(t[i as int].id != id);
                }
            }
            return Some(i);
        }
        i = i + 1;
    }
    None
}

impl NvramTransaction {
    /// The segments appended and not yet committed, in order.
    pub closed spec fn pending_view(self) -> Seq<Segment> {
        self.pending@
    }

    /// Where the log ended when the transaction began.
    pub closed spec fn base(self) -> u64 {
        self.base_offset
    }

    /// Where the next appended segment goes.
    pub closed spec fn current(self) -> u64 {
        self.current_offset
    }

    /// Whether the transaction was committed or rolled back.
    pub closed spec fn is_finalized(self) -> bool {
        self.finalized
    }

    /// Refuses work on a transaction that was committed or rolled back.
    fn ensure_active(&self) -> (r: Result<(), NvramError>)
        ensures
            r is Ok <==> !self.is_finalized(),
            r is Err ==> r == Err::<(), NvramError>(NvramError::Finalized),
    {
        if self.finalized {
            Err(NvramError::Finalized)
        } else {
            Ok(())
        }
    }

    pub fn finalized(&self) -> (r: bool)
        ensures
            r == self.is_finalized(),
    {
        self.finalized
    }

    pub fn base_offset(&self) -> (r: u64)
        ensures
            r == self.base(),
    {
        self.base_offset
    }

    pub fn current_offset(&self) -> (r: u64)
        ensures
            r == self.current(),
    {
        self.current_offset
    }

    /// The segments appended and not yet committed, in order.
    pub fn pending_segments(&self) -> (r: Vec<Segment>)
        ensures
            r@ == self.pending_view(),
    {
        self.pending.clone()
    }

    /// Appends a segment of `len` bytes after those appended so far; the
    /// log's end moves past it. Refused once the transaction is finalized.
    pub fn append_segment(&mut self, log: &mut NvramLog, id: u64, len: usize) -> (r: Result<
        Segment,
        NvramError,
    >)
        requires
            !old(self).is_finalized() ==> old(self).current() + len <= u64::MAX,
        ensures
            final(self).base() == old(self).base(),
            final(self).is_finalized() == old(self).is_finalized(),
            final(log).view() == old(log).view(),
            old(self).is_finalized() ==> {
                &&& r == Err::<Segment, NvramError>(NvramError::Finalized)
                &&& final(self).pending_view() == old(self).pending_view()
                &&& final(self).current() == old(self).current()
                &&& final(log).end() == old(log).end()
            },
            !old(self).is_finalized() ==> {
                &&& r == Ok::<Segment, NvramError>(fresh_segment(id, old(self).current(), len as u32))
                &&& final(self).pending_view() == old(self).pending_view().push(
                    fresh_segment(id, old(self).current(), len as u32),
                )
                &&& final(self).current() == old(self).current() + len
                &&& final(log).end() == final(self).current()
            },
    {
        if let Err(e) = self.ensure_active() {
            return Err(e);
        }
        let seg = Segment {
            id,
            offset: self.current_offset,
            len: #[verifier::truncate] (len as u32),
            ref_count: 1,
            deduplicated: false,
            access_count: 0,
            content_hash: None,
        };
        self.current_offset = self.current_offset + len as u64;
        log.set_end(self.current_offset);
        self.pending.push(seg);
        Ok(seg)
    }

    /// Records `segment` under `id`, keeping the place and length already
    /// known: on the first pending segment with that id if there is one,
    /// else on the segment the log records under `id`. Refused once the
    /// transaction is finalized, and for an id known to neither.
    pub fn set_segment_metadata(&mut self, log: &mut NvramLog, id: u64, segment: Segment) -> (r:
        Result<(), NvramError>)
        ensures
            final(self).base() == old(self).base(),
            final(self).current() == old(self).current(),
            final(self).is_finalized() == old(self).is_finalized(),
            final(log).end() == old(log).end(),
            old(self).is_finalized() ==> r == Err::<(), NvramError>(NvramError::Finalized)
                && final(self).pending_view() == old(self).pending_view() && final(log).view()
                == old(log).view(),
            !old(self).is_finalized() ==> match first_with_id(old(self).pending_view(), id) {
                Some(j) => r == Ok::<(), NvramError>(()) && final(self).pending_view() == old(self).pending_view().update(j, merged(segment, id, old(self).pending_view()[j]))
                    && final(log).view() == old(log).view(),
                None => final(self).pending_view() == old(self).pending_view() && match key_index(
                    old(log).view(),
                    id,
                ) {
                    Some(i) => r == Ok::<(), NvramError>(()) && final(log).view() == old(log).view().update(i, (id, merged(segment, id, old(log).view()[i].1))),
                    None => r == Err::<(), NvramError>(NvramError::NotFound(id)) && final(log).view() == old(log).view(),
                },
            },
    {
        if let Err(e) = self.ensure_active() {
            return Err(e);
        }
        match first_position(&self.pending, id) {
            Some(j) => {
                let at = self.pending[j];
                self.pending.set(j, Segment { id, offset: at.offset, len: at.len, ..segment });
                Ok(())
            },
            None => {
                match log.get_segment_metadata(id) {
                    Err(e) => Err(e),
                    Ok(at) => {
                        log.update_segment_metadata(
                            id,
                            Segment { id, offset: at.offset, len: at.len, ..segment },
                        );
                        Ok(())
                    },
                }
            },
        }
    }

    /// Changes the first pending segment with id `id` by `f`. Refused once
    /// the transaction is finalized, and when no pending segment has that id.
    pub fn with_segment_mut<F>(&mut self, id: u64, f: F) -> (r: Result<(), NvramError>) where
        F: FnOnce(Segment) -> Segment,
        requires
            forall|m: Segment| f.requires((m,)),
        ensures
            final(self).base() == old(self).base(),
            final(self).current() == old(self).current(),
            final(self).is_finalized() == old(self).is_finalized(),
            old(self).is_finalized() ==> r == Err::<(), NvramError>(NvramError::Finalized)
                && final(self).pending_view() == old(self).pending_view(),
            !old(self).is_finalized() ==> match first_with_id(old(self).pending_view(), id) {
                Some(j) => r == Ok::<(), NvramError>(()) && exists|m: Segment|
                    #[trigger] f.ensures((old(self).pending_view()[j],), m) && final(self).pending_view() == old(self).pending_view().update(j, m),
                None => r == Err::<(), NvramError>(NvramError::NotFound(id)) && final(self).pending_view()
                    == old(self).pending_view(),
            },
    {
        if let Err(e) = self.ensure_active() {
            return Err(e);
        }
        match first_position(&self.pending, id) {
            Some(j) => {
                let at = self.pending[j];
                let m = f(at);
                self.pending.set(j, m);
                proof {
                    assert(f.ensures((old(self).pending_view()[j as int],), m));
                    assert(self.pending_view() == old(self).pending_view().update(j as int, m));
                    let j0 = first_with_id(old(self).pending_view(), id)->0;
                    assert(j0 == j);
                    assert(exists|m2: Segment|
                        #[trigger] f.ensures((old(self).pending_view()[j0],), m2) && self.pending_view()
                            == old(self).pending_view().update(j0, m2));
                }
                Ok(())
            },
            None => Err(NvramError::NotFound(id)),
        }
    }

    /// The first pending segment with id `id`.
    pub fn pending_segment(&self, id: u64) -> (r: Option<Segment>)
        ensures
            match first_with_id(self.pending_view(), id) {
                Some(j) => r == Some(self.pending_view()[j]),
                None => r is None,
            },
    {
        match first_position(&self.pending, id) {
            Some(j) => Some(self.pending[j]),
            None => None,
        }
    }

    /// Commits, once the pending segments' bytes are written: the log ends
    /// after the last of them and records each under its id. A transaction
    /// with nothing pending is only closed; a finalized one is left as it is.
    pub fn commit(&mut self, log: &mut NvramLog)
        ensures
            final(self).is_finalized(),
            final(self).base() == old(self).base(),
            final(self).current() == old(self).current(),
            old(self).is_finalized() ==> final(self).pending_view() == old(self).pending_view()
                && final(log).view() == old(log).view() && final(log).end() == old(log).end(),
            !old(self).is_finalized() ==> final(self).pending_view() == Seq::<Segment>::empty(),
            !old(self).is_finalized() && old(self).pending_view().len() == 0 ==> final(log).view()
                == old(log).view() && final(log).end() == old(log).end(),
            !old(self).is_finalized() && old(self).pending_view().len() > 0 ==> final(log).view()
                == upsert_all(old(log).view(), by_own_id(old(self).pending_view())) && final(log).end() == old(self).current(),
    {
        if self.finalized {
            return;
        }
        if self.pending.len() == 0 {
            self.finalized = true;
            return;
        }
        log.set_end(self.current_offset);
        log.record_all(&self.pending);
        self.pending = Vec::new();
        self.finalized = true;
    }

    /// The pending segments' bytes could not be written: the log's end
    /// goes back to where the transaction began and the transaction is
    /// closed, recording nothing. Nothing changes for a finalized
    /// transaction or one with nothing pending, which write nothing.
    pub fn write_failed(&mut self, log: &mut NvramLog)
        ensures
            final(self).pending_view() == old(self).pending_view(),
            final(self).base() == old(self).base(),
            final(self).current() == old(self).current(),
            final(log).view() == old(log).view(),
            old(self).is_finalized() || old(self).pending_view().len() == 0 ==> final(self).is_finalized()
                == old(self).is_finalized() && final(log).end() == old(log).end(),
            !old(self).is_finalized() && old(self).pending_view().len() > 0 ==> final(self).is_finalized() && final(log).end() == old(self).base(),
    {
        if self.finalized || self.pending.len() == 0 {
            return;
        }
        log.set_end(self.base_offset);
        self.finalized = true;
    }

    /// Rolls back: nothing pending is recorded and the log ends where it
    /// ended when the transaction began. A finalized transaction is left
    /// as it is.
    pub fn rollback(&mut self, log: &mut NvramLog)
        ensures
            final(self).is_finalized(),
            final(self).base() == old(self).base(),
            final(log).view() == old(log).view(),
            old(self).is_finalized() ==> final(self).pending_view() == old(self).pending_view()
                && final(self).current() == old(self).current() && final(log).end() == old(log).end(),
            !old(self).is_finalized() ==> final(self).pending_view() == Seq::<Segment>::empty()
                && final(self).current() == old(self).base() && final(log).end() == old(self).base(),
    {
        if self.finalized {
            return;
        }
        log.set_end(self.base_offset);
        self.pending = Vec::new();
        self.current_offset = self.base_offset;
        self.finalized = true;
    }
}

/// Puts `m` into `v` after every entry that does not lie after it, keeping
/// offsets in order; gives back where it went.
fn insert_by_offset(v: &mut Vec<(u64, Segment)>, m: (u64, Segment)) -> (p: usize)
    requires
        sorted_by_offset(old(v)@),
        keys(old(v)@).no_duplicates(),
        forall|x: (u64, Segment)| #[trigger] old(v)@.contains(x) ==> x.0 != m.0,
    ensures
        p <= old(v)@.len(),
        final(v)@ == old(v)@.insert(p as int, m),
        sorted_by_offset(final(v)@),
        keys(final(v)@).no_duplicates(),
        forall|x: (u64, Segment)| #[trigger] final(v)@.contains(x) <==> old(v)@.contains(x) || x == m,
{
    let ghost s = v@;
    let mut p: usize = 0;
    while p < v.len() && v[p].1.offset <= m.1.offset
        invariant
            v@ == s,
            p <= s.len(),
            forall|j: int| 0 <= j < p ==> s[j].1.offset <= m.1.offset,
        decreases s.len() - p,
    {
        p = p + 1;
    }
    v.insert(p, m);
    proof {
        let t = v@;
        assert(t =~= s.insert(p as int, m));
        assert forall|i: int, j: int| 0 <= i < j < t.len() implies t[i].1.offset <= t[j].1.offset by {
            if j < p {
                assert(t[i] == s[i] && t[j] == s[j]);
            } else if j == p {
                assert(t[i] == s[i]);
            } else if i < p {
                assert(t[i] == s[i] && t[j] == s[j - 1]);
            } else if i == p {
                assert(t[j] == s[j - 1]);
                assert(p < s.len() ==> s[p as int].1.offset > m.1.offset);
                if p < s.len() && j - 1 > p {
                    assert(s[p as int].1.offset <= s[j - 1].1.offset);
                }
            } else {
                assert(t[i] == s[i - 1] && t[j] == s[j - 1]);
            }
        }
        assert forall|a: int, b: int|
            0 <= a < keys(t).len() && 0 <= b < keys(t).len() && a != b implies keys(t)[a]
            != keys(t)[b] by {
            let a2 = if a < p { a } else if a == p { -1 } else { a - 1 };
            let b2 = if b < p { b } else if b == p { -1 } else { b - 1 };
            if a2 >= 0 && b2 >= 0 {
                assert(t[a] == s[a2] && t[b] == s[b2]);
                assert(keys(s)[a2] != keys(s)[b2]);
            } else if a2 >= 0 {
                assert(t[a] == s[a2]);
                assert(s.contains(s[a2]));
            } else if b2 >= 0 {
                assert(t[b] == s[b2]);
                assert(s.contains(s[b2]));
            }
        }
        assert forall|x: (u64, Segment)| #[trigger] t.contains(x) <==> s.contains(x) || x == m by {
            if t.contains(x) {
                let k = choose|k: int| 0 <= k < t.len() && t[k] == x;
                if k < p {
                    assert(s[k] == x);
                } else if k > p {
                    assert(s[k - 1] == x);
                }
            }
            if s.contains(x) {
                let k = choose|k: int| 0 <= k < s.len() && s[k] == x;
                if k < p {
                    assert(t[k] == x);
                } else {
                    assert(t[k + 1] == x);
                }
            }
            if x == m {
                assert(t[p as int] == m);
            }
        }
    }
    p
}

} // verus!
