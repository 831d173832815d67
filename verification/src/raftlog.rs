//! The log store under the consensus engine: encoded log entries by index,
//! the hard state, the membership and the last snapshot, with the bounds
//! the engine reads them within. Encoding entries and keeping them on disk
//! are the caller's; entries come here as their index, term and encoding.

use vstd::prelude::*;

verus! {

/// Term, vote and commit index, as the engine last saved them.
#[derive(Clone, Copy, Debug, PartialEq, Eq, Structural)]
pub struct HardState {
    pub term: u64,
    pub vote: u64,
    pub commit: u64,
}

impl Default for HardState {
    fn default() -> (r: Self)
        ensures
            r.term == 0 && r.vote == 0 && r.commit == 0,
    {
        HardState { term: 0, vote: 0, commit: 0 }
    }
}

/// The voting and learning members.
#[derive(Clone, Debug, PartialEq, Eq)]
pub struct ConfState {
    pub voters: Vec<u64>,
    pub learners: Vec<u64>,
}

pub struct ConfView {
    pub voters: Seq<u64>,
    pub learners: Seq<u64>,
}

impl View for ConfState {
    type V = ConfView;

    open spec fn view(&self) -> ConfView {
        ConfView { voters: self.voters@, learners: self.learners@ }
    }
}

impl ConfState {
    pub fn new(voters: Vec<u64>, learners: Vec<u64>) -> (r: Self)
        ensures
            r.voters@ == voters@,
            r.learners@ == learners@,
    {
        ConfState { voters, learners }
    }

    pub fn copy(&self) -> (r: Self)
        ensures
            r@ == self@,
    {
        ConfState { voters: self.voters.clone(), learners: self.learners.clone() }
    }
}

/// A snapshot: its data and the index, term and membership it stands at.
#[derive(Clone, Debug)]
pub struct Snapshot {
    pub data: Vec<u8>,
    pub index: u64,
    pub term: u64,
    pub conf_state: ConfState,
}

pub struct SnapshotView {
    pub data: Seq<u8>,
    pub index: u64,
    pub term: u64,
    pub conf_state: ConfView,
}

impl View for Snapshot {
    type V = SnapshotView;

    open spec fn view(&self) -> SnapshotView {
        SnapshotView {
            data: self.data@,
            index: self.index,
            term: self.term,
            conf_state: self.conf_state@,
        }
    }
}

impl Snapshot {
    /// The empty snapshot, at index and term zero.
    pub fn empty() -> (r: Self)
        ensures
            r@.data.len() == 0,
            r.index == 0,
            r.term == 0,
            r@.conf_state.voters.len() == 0,
            r@.conf_state.learners.len() == 0,
    {
        Snapshot {
            data: Vec::new(),
            index: 0,
            term: 0,
            conf_state: ConfState { voters: Vec::new(), learners: Vec::new() },
        }
    }

    pub fn copy(&self) -> (r: Self)
        ensures
            r@ == self@,
    {
        Snapshot {
            data: self.data.clone(),
            index: self.index,
            term: self.term,
            conf_state: self.conf_state.copy(),
        }
    }
}

/// A log entry as stored: its index, its term and its encoding.
#[derive(Clone, Debug, PartialEq, Eq)]
pub struct StoredEntry {
    pub index: u64,
    pub term: u64,
    pub bytes: Vec<u8>,
}

pub struct EntryView {
    pub index: u64,
    pub term: u64,
    pub bytes: Seq<u8>,
}

impl View for StoredEntry {
    type V = EntryView;

    open spec fn view(&self) -> EntryView {
        EntryView { index: self.index, term: self.term, bytes: self.bytes@ }
    }
}

impl StoredEntry {
    pub fn copy(&self) -> (r: Self)
        ensures
            r@ == self@,
    {
        StoredEntry { index: self.index, term: self.term, bytes: self.bytes.clone() }
    }
}

/// Why the log store refuses a read.
#[derive(Clone, Copy, Debug, PartialEq, Eq, Structural)]
pub enum StorageError {
    /// The entries asked for were compacted away.
    Compacted,
    /// The entries asked for are not there yet.
    Unavailable,
    /// The stored entries start more than one past where they end.
    Corrupted { first_index: u64, last_index: u64 },
}

pub open spec fn entry_views(s: Seq<StoredEntry>) -> Seq<EntryView> {
    s.map_values(|e: StoredEntry| e@)
}

/// Indexes strictly increase along the entries.
pub open spec fn ascending(s: Seq<EntryView>) -> bool {
    forall|i: int, j: int| 0 <= i < j < s.len() ==> s[i].index < s[j].index
}

/// How many entries come before index `x`.
pub open spec fn lower_bound(s: Seq<EntryView>, x: u64) -> int
    decreases s.len(),
{
    if s.len() == 0 {
        0
    } else if s.last().index < x {
        s.len() as int
    } else {
        lower_bound(s.drop_last(), x)
    }
}

/// The entry at index `x`.
pub open spec fn entry_at(s: Seq<EntryView>, x: u64) -> Option<EntryView> {
    let p = lower_bound(s, x);
    if 0 <= p < s.len() && s[p].index == x {
        Some(s[p])
    } else {
        None
    }
}

/// The entries with `e` stored at its index, in place of what was there.
pub open spec fn put(s: Seq<EntryView>, e: EntryView) -> Seq<EntryView> {
    let p = lower_bound(s, e.index);
    if 0 <= p < s.len() && s[p].index == e.index {
        s.update(p, e)
    } else {
        s.insert(p, e)
    }
}

/// The entries with each of `es` stored in turn.
pub open spec fn put_all(s: Seq<EntryView>, es: Seq<EntryView>) -> Seq<EntryView>
    decreases es.len(),
{
    if es.len() == 0 {
        s
    } else {
        put(put_all(s, es.drop_last()), es.last())
    }
}

/// In ascending entries, those before the lower bound of `x` have smaller
/// indexes and the others no smaller ones.
proof fn lemma_lower_bound(s: Seq<EntryView>, x: u64)
    requires
        ascending(s),
    ensures
        0 <= lower_bound(s, x) <= s.len(),
        forall|k: int| 0 <= k < lower_bound(s, x) ==> s[k].index < x,
        forall|k: int| lower_bound(s, x) <= k < s.len() ==> s[k].index >= x,
    decreases s.len(),
{
    if s.len() > 0 {
        let d = s.drop_last();
        assert(ascending(d)) by {
            assert forall|i: int, j: int| 0 <= i < j < d.len() implies d[i].index < d[j].index by {
                assert(d[i] == s[i] && d[j] == s[j]);
            }
        }
        lemma_lower_bound(d, x);
        if s.last().index < x {
            assert forall|k: int| 0 <= k < s.len() implies s[k].index < x by {
                if k < s.len() - 1 {
                    assert(s[k].index < s[s.len() - 1].index);
                }
            }
        } else {
            assert forall|k: int| lower_bound(s, x) <= k < s.len() implies s[k].index >= x by {
                if k < s.len() - 1 {
                    assert(s[k] == d[k]);
                }
            }
            assert forall|k: int| 0 <= k < lower_bound(s, x) implies s[k].index < x by {
                assert(s[k] == d[k]);
            }
        }
    }
}

/// Storing an entry keeps the entries ascending.
proof fn lemma_put_ascending(s: Seq<EntryView>, e: EntryView)
    requires
        ascending(s),
    ensures
        ascending(put(s, e)),
{
    lemma_lower_bound(s, e.index);
    let p = lower_bound(s, e.index);
    let t = put(s, e);
    if 0 <= p < s.len() && s[p].index == e.index {
        assert forall|i: int, j: int| 0 <= i < j < t.len() implies t[i].index < t[j].index by {
            if i == p {
                assert(s[p].index < s[j].index);
            } else if j == p {
                assert(s[i].index < s[p].index);
            }
        }
    } else {
        assert forall|i: int, j: int| 0 <= i < j < t.len() implies t[i].index < t[j].index by {
            if j < p {
                assert(t[i] == s[i] && t[j] == s[j]);
            } else if j == p {
                assert(t[i] == s[i]);
            } else if i < p {
                assert(t[i] == s[i] && t[j] == s[j - 1]);
            } else if i == p {
                assert(t[j] == s[j - 1]);
                assert(s[j - 1].index >= e.index);
                assert(s[j - 1].index != e.index) by {
                    if s[j - 1].index == e.index && j - 1 > p {
                        assert(s[p].index < s[j - 1].index);
                        assert(s[p].index >= e.index);
                    }
                }
            } else {
                assert(t[i] == s[i - 1] && t[j] == s[j - 1]);
            }
        }
    }
}

/// Storing an entry below a bound keeps every index below it.
proof fn lemma_put_below(s: Seq<EntryView>, e: EntryView, b: u64)
    requires
        forall|k: int| 0 <= k < s.len() ==> #[trigger] s[k].index < b,
        e.index < b,
    ensures
        forall|k: int| 0 <= k < put(s, e).len() ==> #[trigger] put(s, e)[k].index < b,
{
    let p = lower_bound(s, e.index);
    let t = put(s, e);
    assert forall|k: int| 0 <= k < t.len() implies #[trigger] t[k].index < b by {
        if 0 <= p < s.len() && s[p].index == e.index {
            if k != p {
                assert(t[k] == s[k]);
            }
        } else {
            assert(0 <= p <= s.len()) by {
                lemma_lower_bound_range(s, e.index);
            }
            if k < p {
                assert(t[k] == s[k]);
            } else if k > p {
                assert(t[k] == s[k - 1]);
            }
        }
    }
}

proof fn lemma_lower_bound_range(s: Seq<EntryView>, x: u64)
    ensures
        0 <= lower_bound(s, x) <= s.len(),
    decreases s.len(),
{
    if s.len() > 0 {
        lemma_lower_bound_range(s.drop_last(), x);
    }
}

/// In ascending entries, the entry at an index held is the one holding it.
proof fn lemma_entry_at(t: Seq<EntryView>, x: u64, k: int)
    requires
        ascending(t),
        0 <= k < t.len(),
        t[k].index == x,
    ensures
        entry_at(t, x) == Some(t[k]),
{
    lemma_lower_bound(t, x);
    let p = lower_bound(t, x);
    if k > p {
        assert(t[p].index < t[k].index);
    }
}

/// In ascending entries, an index none holds has no entry.
proof fn lemma_entry_absent(t: Seq<EntryView>, x: u64)
    requires
        ascending(t),
        forall|k: int| 0 <= k < t.len() ==> #[trigger] t[k].index != x,
    ensures
        entry_at(t, x) is None,
{
    lemma_lower_bound(t, x);
}

/// The term of an index is the term of the entry stored at it: for an
/// index in the readable range other than the snapshot's, it is the term
/// field of the stored entry with that index, and it agrees with reading
/// the one-entry range at that index (both fail alike when nothing is
/// stored there).
pub proof fn lemma_term_of_stored_entry(
    s: Seq<EntryView>,
    first: u64,
    last: u64,
    snap_index: u64,
    snap_term: u64,
    idx: u64,
)
    requires
        ascending(s),
        idx != snap_index,
        first <= idx <= last,
        last < u64::MAX,
    ensures
        forall|k: int|
            0 <= k < s.len() && #[trigger] s[k].index == idx ==> term_at(
                s,
                first,
                last,
                snap_index,
                snap_term,
                idx,
            ) == Ok::<u64, StorageError>(s[k].term),
        term_at(s, first, last, snap_index, snap_term, idx) is Ok ==> exists|k: int|
            0 <= k < s.len() && #[trigger] s[k].index == idx && term_at(
                s,
                first,
                last,
                snap_index,
                snap_term,
                idx,
            ) == Ok::<u64, StorageError>(s[k].term),
        match read_entries(s, first, last, idx, (idx + 1) as u64, None) {
            Ok(rs) => rs.len() == 1 && rs[0].index == idx && term_at(s, first, last, snap_index, snap_term, idx)
                == Ok::<u64, StorageError>(rs[0].term),
            Err(e) => term_at(s, first, last, snap_index, snap_term, idx) == Err::<u64, StorageError>(e),
        },
{
    assert forall|k: int| 0 <= k < s.len() && #[trigger] s[k].index == idx implies term_at(
        s,
        first,
        last,
        snap_index,
        snap_term,
        idx,
    ) == Ok::<u64, StorageError>(s[k].term) by {
        lemma_entry_at(s, idx, k);
    }
    lemma_lower_bound(s, idx);
    let p = lower_bound(s, idx);
    if 0 <= p < s.len() && s[p].index == idx {
        assert(s[p].index == idx);
    }
    let i1 = (idx + 1) as u64;
    assert(window(s, i1, i1, None, 0) == Ok::<Seq<EntryView>, StorageError>(Seq::empty()));
    match entry_at(s, idx) {
        Some(e) => {
            assert(seq![e] + Seq::<EntryView>::empty() =~= seq![e]);
        },
        None => {},
    }
}

/// Reading at an index gives the entry last stored there, and storing at
/// one index leaves every other as it was.
pub proof fn lemma_read_after_put(s: Seq<EntryView>, e: EntryView, x: u64)
    requires
        ascending(s),
    ensures
        ascending(put(s, e)),
        entry_at(put(s, e), e.index) == Some(e),
        x != e.index ==> entry_at(put(s, e), x) == entry_at(s, x),
{
    lemma_put_ascending(s, e);
    lemma_lower_bound(s, e.index);
    let p = lower_bound(s, e.index);
    let t = put(s, e);
    assert(t[p] == e);
    lemma_entry_at(t, e.index, p);
    if x != e.index {
        if exists|k: int| 0 <= k < s.len() && s[k].index == x {
            let k = choose|k: int| 0 <= k < s.len() && s[k].index == x;
            lemma_entry_at(s, x, k);
            if 0 <= p < s.len() && s[p].index == e.index {
                assert(t[k] == s[k]);
                lemma_entry_at(t, x, k);
            } else if k < p {
                assert(t[k] == s[k]);
                lemma_entry_at(t, x, k);
            } else {
                assert(t[k + 1] == s[k]);
                lemma_entry_at(t, x, k + 1);
            }
        } else {
            lemma_entry_absent(s, x);
            assert forall|k: int| 0 <= k < t.len() implies #[trigger] t[k].index != x by {
                if 0 <= p < s.len() && s[p].index == e.index {
                    if k != p {
                        assert(t[k] == s[k]);
                    }
                } else if k < p {
                    assert(t[k] == s[k]);
                } else if k > p {
                    assert(t[k] == s[k - 1]);
                }
            }
            lemma_entry_absent(t, x);
        }
    }
}

/// The entries a read of `[i, high)` gives, each limited read stopping
/// before the entry that would take the encodings past `max`, though never
/// before the first; a missing entry met before that fails it.
pub open spec fn window(
    s: Seq<EntryView>,
    i: u64,
    high: u64,
    max: Option<u64>,
    total: nat,
) -> Result<Seq<EntryView>, StorageError>
    decreases high - i,
{
    if i >= high {
        Ok(Seq::empty())
    } else {
        match entry_at(s, i) {
            None => Err(StorageError::Compacted),
            Some(e) => {
                let size = e.bytes.len();
                if max is Some && total > 0 && total + size > max->0 {
                    Ok(Seq::empty())
                } else {
                    let t = if max is Some { total + size } else { total };
                    match window(s, (i + 1) as u64, high, max, t) {
                        Ok(rest) => Ok(seq![e] + rest),
                        Err(x) => Err(x),
                    }
                }
            },
        }
    }
}

/// A read's outcome with `done` read before it.
pub open spec fn after(done: Seq<EntryView>, rest: Result<Seq<EntryView>, StorageError>) -> Result<
    Seq<EntryView>,
    StorageError,
> {
    match rest {
        Ok(r) => Ok(done + r),
        Err(x) => Err(x),
    }
}

/// Where the stored entries start: the first one's index, else just past
/// the snapshot.
pub open spec fn stored_first(t: Seq<EntryView>, snap_index: u64) -> int {
    if t.len() > 0 {
        t[0].index as int
    } else {
        snap_index + 1
    }
}

/// Where the stored entries end: the last one's index, else the snapshot's.
pub open spec fn stored_last(t: Seq<EntryView>, snap_index: u64) -> int {
    if t.len() > 0 {
        t.last().index as int
    } else {
        snap_index as int
    }
}

/// What a read of `[low, high)` gives: refused below the first index
/// (compacted) and past one after the last (unavailable), as for an empty
/// range turned round; else the window of entries.
pub open spec fn read_entries(
    s: Seq<EntryView>,
    first: u64,
    last: u64,
    low: u64,
    high: u64,
    max: Option<u64>,
) -> Result<Seq<EntryView>, StorageError> {
    if low > high {
        Err(StorageError::Unavailable)
    } else if low < first {
        Err(StorageError::Compacted)
    } else if high > last + 1 {
        Err(StorageError::Unavailable)
    } else {
        window(s, low, high, max, 0)
    }
}

/// The term of the entry at `idx`: the snapshot's at its index; refused
/// below the first index and past the last; else the stored entry's.
pub open spec fn term_at(
    s: Seq<EntryView>,
    first: u64,
    last: u64,
    snap_index: u64,
    snap_term: u64,
    idx: u64,
) -> Result<u64, StorageError> {
    if idx == snap_index {
        Ok(snap_term)
    } else if idx < first {
        Err(StorageError::Compacted)
    } else if idx > last {
        Err(StorageError::Unavailable)
    } else {
        match entry_at(s, idx) {
            Some(e) => Ok(e.term),
            None => Err(StorageError::Compacted),
        }
    }
}

/// The log store: the entries by index, the range the engine may read, the
/// hard state, the membership and the last snapshot.
pub struct SledStorage {
    entries: Vec<StoredEntry>,
    first_index: u64,
    last_index: u64,
    hard_state: HardState,
    conf_state: ConfState,
    snapshot: Snapshot,
}

impl SledStorage {
    #[verifier::type_invariant]
    spec fn well_formed(self) -> bool {
        &&& ascending(entry_views(self.entries@))
        &&& self.last_index < u64::MAX
    }

    /// The stored entries, by ascending index.
    pub closed spec fn log(self) -> Seq<EntryView> {
        entry_views(self.entries@)
    }

    pub closed spec fn first(self) -> u64 {
        self.first_index
    }

    pub closed spec fn last(self) -> u64 {
        self.last_index
    }

    pub closed spec fn hard(self) -> HardState {
        self.hard_state
    }

    pub closed spec fn conf(self) -> ConfView {
        self.conf_state@
    }

    pub closed spec fn snap(self) -> SnapshotView {
        self.snapshot@
    }

    /// A fresh store with membership `conf_state`: no entries, reads from
    /// index 1, the default hard state and the empty snapshot.
    pub fn new_with_conf_state(conf_state: ConfState) -> (r: Self)
        ensures
            r.log() == Seq::<EntryView>::empty(),
            r.first() == 1,
            r.last() == 0,
            r.hard() == (HardState { term: 0, vote: 0, commit: 0 }),
            r.conf() == conf_state@,
            r.snap().index == 0,
            r.snap().term == 0,
            r.snap().data.len() == 0,
    {
        SledStorage {
            entries: Vec::new(),
            first_index: 1,
            last_index: 0,
            hard_state: HardState::default(),
            conf_state,
            snapshot: Snapshot::empty(),
        }
    }

    /// Where the entries with index `x` or more start.
    fn find(&self, x: u64) -> (r: usize)
        ensures
            r == lower_bound(self.log(), x),
            r <= self.log().len(),
    {
        proof {
            use_type_invariant(self);
            lemma_lower_bound(self.log(), x);
        }
        let ghost s = self.log();
        let mut p: usize = 0;
        while p < self.entries.len() && self.entries[p].index < x
            invariant
                s == entry_views(self.entries@),
                p <= s.len(),
                forall|k: int| 0 <= k < p ==> s[k].index < x,
            decreases s.len() - p,
        {
            proof {
                assert(s[p as int].index == self.entries@[p as int].index);
            }
            p = p + 1;
        }
        proof {
            let lb = lower_bound(s, x);
            if lb < p {
                assert(s[lb].index < x);
            } else if lb > p {
                assert(s[p as int].index == self.entries@[p as int].index);
                assert(s[p as int].index < x);
            }
        }
        p
    }

    /// Stores `e` at its index.
    fn put_entry(&mut self, e: StoredEntry)
        ensures
            final(self).log() == put(old(self).log(), e@),
            final(self).first() == old(self).first(),
            final(self).last() == old(self).last(),
            final(self).hard() == old(self).hard(),
            final(self).conf() == old(self).conf(),
            final(self).snap() == old(self).snap(),
    {
        proof {
            use_type_invariant(&*self);
            lemma_put_ascending(self.log(), e@);
        }
        let p = self.find(e.index);
        let ghost s = self.log();
        let ghost ev = e@;
        let mut es: Vec<StoredEntry> = Vec::new();
        std::mem::swap(&mut es, &mut self.entries);
        if p < es.len() && es[p].index == e.index {
            es.set(p, e);
            proof {
                assert(entry_views(es@) =~= s.update(p as int, ev));
            }
        } else {
            es.insert(p, e);
            proof {
                assert(entry_views(es@) =~= s.insert(p as int, ev));
            }
        }
        self.entries = es;
    }

    /// Stores `entries` in turn at their indexes. The range then ends at
    /// the last one's index, and starts at the first one's when that is
    /// lower (or nothing was readable).
    pub fn append(&mut self, entries: &Vec<StoredEntry>)
        requires
            forall|k: int| 0 <= k < entries@.len() ==> #[trigger] entries@[k].index < u64::MAX,
        ensures
            final(self).log() == put_all(old(self).log(), entry_views(entries@)),
            final(self).hard() == old(self).hard(),
            final(self).conf() == old(self).conf(),
            final(self).snap() == old(self).snap(),
            entries@.len() == 0 ==> final(self).first() == old(self).first() && final(self).last()
                == old(self).last(),
            entries@.len() > 0 ==> final(self).last() == entries@.last().index && final(self).first()
                == if old(self).first() == 0 || entries@[0].index < old(self).first() {
                entries@[0].index
            } else {
                old(self).first()
            },
    {
        if entries.len() == 0 {
            return;
        }
        let ghost ev = entry_views(entries@);
        let ghost s0 = self.log();
        let mut i: usize = 0;
        while i < entries.len()
            invariant
                ev == entry_views(entries@),
                i <= entries@.len(),
                self.log() == put_all(s0, ev.take(i as int)),
                self.first() == old(self).first(),
                self.last() == old(self).last(),
                self.hard() == old(self).hard(),
                self.conf() == old(self).conf(),
                self.snap() == old(self).snap(),
            decreases entries@.len() - i,
        {
            let e = entries[i].copy();
            self.put_entry(e);
            proof {
                assert(ev.take(i + 1).drop_last() =~= ev.take(i as int));
                assert(ev.take(i + 1).last() == entries@[i as int]@);
            }
            i = i + 1;
        }
        proof {
            assert(ev.take(i as int) =~= ev);
            use_type_invariant(&*self);
        }
        let last = entries[entries.len() - 1].index;
        let first = entries[0].index;
        let new_first = if self.first_index == 0 || first < self.first_index {
            first
        } else {
            self.first_index
        };
        self.set_range(new_first, last);
    }

    fn set_range(&mut self, first: u64, last: u64)
        requires
            last < u64::MAX,
        ensures
            final(self).log() == old(self).log(),
            final(self).first() == first,
            final(self).last() == last,
            final(self).hard() == old(self).hard(),
            final(self).conf() == old(self).conf(),
            final(self).snap() == old(self).snap(),
    {
        proof {
            use_type_invariant(&*self);
        }
        self.first_index = first;
        self.last_index = last;
    }

    /// Saves the hard state.
    pub fn set_hardstate(&mut self, hs: HardState)
        ensures
            final(self).hard() == hs,
            final(self).log() == old(self).log(),
            final(self).first() == old(self).first(),
            final(self).last() == old(self).last(),
            final(self).conf() == old(self).conf(),
            final(self).snap() == old(self).snap(),
    {
        proof {
            use_type_invariant(&*self);
        }
        self.hard_state = hs;
    }

    /// Saves the membership.
    pub fn set_conf_state(&mut self, conf_state: ConfState)
        ensures
            final(self).conf() == conf_state@,
            final(self).log() == old(self).log(),
            final(self).first() == old(self).first(),
            final(self).last() == old(self).last(),
            final(self).hard() == old(self).hard(),
            final(self).snap() == old(self).snap(),
    {
        proof {
            use_type_invariant(&*self);
        }
        self.conf_state = conf_state;
    }

    /// Takes on `snapshot`: every entry goes, the range starts just past
    /// the snapshot's index and ends at it, and the membership is the
    /// snapshot's.
    pub fn apply_snapshot(&mut self, snapshot: Snapshot)
        requires
            snapshot.index < u64::MAX,
        ensures
            final(self).log() == Seq::<EntryView>::empty(),
            final(self).snap() == snapshot@,
            final(self).first() == snapshot.index + 1,
            final(self).last() == snapshot.index,
            final(self).conf() == snapshot@.conf_state,
            final(self).hard() == old(self).hard(),
    {
        proof {
            use_type_invariant(&*self);
        }
        let idx = snapshot.index;
        let conf = snapshot.conf_state.copy();
        self.entries = Vec::new();
        self.snapshot = snapshot;
        self.first_index = idx + 1;
        self.last_index = idx;
        self.conf_state = conf;
    }

    /// Drops the entries below `compact_index`; the range then starts
    /// there, if that is later than where it started.
    pub fn compact(&mut self, compact_index: u64)
        ensures
            final(self).log() == old(self).log().skip(lower_bound(old(self).log(), compact_index)),
            final(self).first() == if compact_index > old(self).first() {
                compact_index
            } else {
                old(self).first()
            },
            final(self).last() == old(self).last(),
            final(self).hard() == old(self).hard(),
            final(self).conf() == old(self).conf(),
            final(self).snap() == old(self).snap(),
    {
        proof {
            use_type_invariant(&*self);
        }
        let p = self.find(compact_index);
        let ghost s = self.log();
        let mut kept: Vec<StoredEntry> = Vec::new();
        let mut i: usize = p;
        while i < self.entries.len()
            invariant
                s == entry_views(self.entries@),
                p <= i <= s.len(),
                entry_views(kept@) == s.subrange(p as int, i as int),
            decreases s.len() - i,
        {
            let ghost before = kept@;
            let e = self.entries[i].copy();
            proof {
                assert(e@ == s[i as int]);
            }
            kept.push(e);
            proof {
                assert(entry_views(kept@) =~= entry_views(before).push(s[i as int]));
                assert(entry_views(kept@) =~= s.subrange(p as int, i + 1));
            }
            i = i + 1;
        }
        proof {
            assert(s.subrange(p as int, i as int) =~= s.skip(p as int));
            assert(ascending(entry_views(kept@))) by {
                assert forall|a: int, b: int| 0 <= a < b < entry_views(kept@).len() implies entry_views(
                    kept@,
                )[a].index < entry_views(kept@)[b].index by {
                    assert(entry_views(kept@)[a] == s[p + a]);
                    assert(entry_views(kept@)[b] == s[p + b]);
                }
            }
        }
        self.entries = kept;
        if compact_index > self.first_index {
            self.first_index = compact_index;
        }
    }

    /// The hard state and the membership.
    pub fn initial_state(&self) -> (r: (HardState, ConfState))
        ensures
            r.0 == self.hard(),
            r.1@ == self.conf(),
    {
        (self.hard_state, self.conf_state.copy())
    }

    pub fn first_index(&self) -> (r: u64)
        ensures
            r == self.first(),
    {
        self.first_index
    }

    pub fn last_index(&self) -> (r: u64)
        ensures
            r == self.last(),
    {
        self.last_index
    }

    /// The last snapshot.
    pub fn snapshot(&self) -> (r: Snapshot)
        ensures
            r@ == self.snap(),
    {
        self.snapshot.copy()
    }

    /// The stored entry at `x`.
    fn lookup(&self, x: u64) -> (r: Option<&StoredEntry>)
        ensures
            match r {
                Some(e) => entry_at(self.log(), x) == Some(e@),
                None => entry_at(self.log(), x) is None,
            },
    {
        let p = self.find(x);
        if p < self.entries.len() && self.entries[p].index == x {
            proof {
                assert(self.log()[p as int] == self.entries@[p as int]@);
            }
            Some(&self.entries[p])
        } else {
            proof {
                if 0 <= p < self.log().len() {
                    assert(self.log()[p as int] == self.entries@[p as int]@);
                }
            }
            None
        }
    }

    /// The term of the entry at `idx`.
    pub fn term(&self, idx: u64) -> (r: Result<u64, StorageError>)
        ensures
            r == term_at(self.log(), self.first(), self.last(), self.snap().index, self.snap().term, idx),
            idx != self.snap().index && self.first() <= idx <= self.last() ==> forall|k: int|
                0 <= k < self.log().len() && #[trigger] self.log()[k].index == idx ==> r == Ok::<
                    u64,
                    StorageError,
                >(self.log()[k].term),
    {
        proof {
            use_type_invariant(self);
            if idx != self.snap().index && self.first() <= idx <= self.last() {
                lemma_term_of_stored_entry(
                    self.log(),
                    self.first(),
                    self.last(),
                    self.snap().index,
                    self.snap().term,
                    idx,
                );
            }
        }
        if idx == self.snapshot.index {
            return Ok(self.snapshot.term);
        }
        if idx < self.first_index {
            return Err(StorageError::Compacted);
        }
        if idx > self.last_index {
            return Err(StorageError::Unavailable);
        }
        match self.lookup(idx) {
            Some(e) => Ok(e.term),
            None => Err(StorageError::Compacted),
        }
    }

    /// The entries of `[low, high)`, limited to `max_size` bytes of
    /// encoding when given (never fewer than one).
    pub fn entries(&self, low: u64, high: u64, max_size: Option<u64>) -> (r: Result<
        Vec<StoredEntry>,
        StorageError,
    >)
        ensures
            match read_entries(self.log(), self.first(), self.last(), low, high, max_size) {
                Ok(es) => r is Ok && entry_views(r->Ok_0@) == es,
                Err(e) => r == Err::<Vec<StoredEntry>, StorageError>(e),
            },
    {
        proof {
            use_type_invariant(self);
        }
        if low > high {
            return Err(StorageError::Unavailable);
        }
        if low < self.first_index {
            return Err(StorageError::Compacted);
        }
        if high > self.last_index + 1 {
            return Err(StorageError::Unavailable);
        }
        let ghost s = self.log();
        let mut out: Vec<StoredEntry> = Vec::new();
        let mut total: u64 = 0;
        let mut idx: u64 = low;
        while idx < high
            invariant_except_break
                s == self.log(),
                low <= idx <= high,
                read_entries(s, self.first(), self.last(), low, high, max_size) == window(
                    s,
                    low,
                    high,
                    max_size,
                    0,
                ),
                window(s, low, high, max_size, 0) == after(
                    entry_views(out@),
                    window(s, idx, high, max_size, total as nat),
                ),
            ensures
                match window(s, low, high, max_size, 0) {
                    Ok(es) => entry_views(out@) == es,
                    Err(_) => false,
                },
            decreases high - idx,
        {
            match self.lookup(idx) {
                None => {
                    proof {
                        assert(window(s, idx, high, max_size, total as nat) == Err::<
                            Seq<EntryView>,
                            StorageError,
                        >(StorageError::Compacted));
                    }
                    return Err(StorageError::Compacted);
                },
                Some(e) => {
                    let size = e.bytes.len() as u64;
                    let mut stop = false;
                    match max_size {
                        Some(m) => {
                            if total > 0 && (size > m || total > m - size) {
                                stop = true;
                            } else {
                                total = total + size;
                            }
                        },
                        None => {},
                    }
                    if stop {
                        proof {
                            assert(window(s, idx, high, max_size, total as nat) == Ok::<
                                Seq<EntryView>,
                                StorageError,
                            >(Seq::empty()));
                            assert(entry_views(out@) + Seq::<EntryView>::empty() =~= entry_views(out@));
                        }
                        break;
                    }
                    let ghost prev_out = entry_views(out@);
                    out.push(e.copy());
                    proof {
                        assert(entry_views(out@) =~= prev_out.push(e@));
                        let w = window(s, (idx + 1) as u64, high, max_size, total as nat);
                        match w {
                            Ok(rest) => {
                                assert(prev_out + (seq![e@] + rest) =~= entry_views(out@) + rest);
                            },
                            Err(x) => {},
                        }
                    }
                },
            }
            idx = idx + 1;
        }
        proof {
            if idx >= high {
                assert(window(s, idx, high, max_size, total as nat) == Ok::<Seq<EntryView>, StorageError>(
                    Seq::empty(),
                ));
                assert(entry_views(out@) + Seq::<EntryView>::empty() =~= entry_views(out@));
            }
        }
        Ok(out)
    }

    /// The store as it was saved: `entries` stored in turn, reads from the
    /// first stored index (or just past the snapshot) to the last (or the
    /// snapshot's). Refused when those bounds cross.
    pub fn open(
        entries: Vec<StoredEntry>,
        hard_state: HardState,
        conf_state: ConfState,
        snapshot: Snapshot,
    ) -> (r: Result<Self, StorageError>)
        requires
            forall|k: int| 0 <= k < entries@.len() ==> #[trigger] entries@[k].index < u64::MAX,
            snapshot.index < u64::MAX,
        ensures
            ({
                let t = put_all(Seq::empty(), entry_views(entries@));
                let first = stored_first(t, snapshot.index);
                let last = stored_last(t, snapshot.index);
                if first > last + 1 {
                    r == Err::<Self, StorageError>(
                        StorageError::Corrupted { first_index: first as u64, last_index: last as u64 },
                    )
                } else {
                    r is Ok && r->Ok_0.log() == t && r->Ok_0.first() == first && r->Ok_0.last() == last
                        && r->Ok_0.hard() == hard_state && r->Ok_0.conf() == conf_state@
                        && r->Ok_0.snap() == snapshot@
                }
            }),
    {
        let snap_index = snapshot.index;
        let mut st = SledStorage {
            entries: Vec::new(),
            first_index: 0,
            last_index: 0,
            hard_state,
            conf_state,
            snapshot,
        };
        let ghost ev = entry_views(entries@);
        let mut i: usize = 0;
        while i < entries.len()
            invariant
                ev == entry_views(entries@),
                i <= entries@.len(),
                forall|k: int| 0 <= k < entries@.len() ==> #[trigger] entries@[k].index < u64::MAX,
                st.log() == put_all(Seq::empty(), ev.take(i as int)),
                forall|k: int| 0 <= k < st.log().len() ==> #[trigger] st.log()[k].index < u64::MAX,
                st.hard() == hard_state,
                st.conf() == conf_state@,
                st.snap() == snapshot@,
                st.first() == 0,
                st.last() == 0,
                snap_index == snapshot.index,
            decreases entries@.len() - i,
        {
            let e = entries[i].copy();
            proof {
                lemma_put_below(st.log(), e@, u64::MAX);
            }
            st.put_entry(e);
            proof {
                assert(ev.take(i + 1).drop_last() =~= ev.take(i as int));
                assert(ev.take(i + 1).last() == entries@[i as int]@);
            }
            i = i + 1;
        }
        proof {
            assert(ev.take(i as int) =~= ev);
            use_type_invariant(&st);
        }
        let n = st.entries.len();
        let first: u64 = if n > 0 { st.entries[0].index } else { snap_index + 1 };
        let last: u64 = if n > 0 { st.entries[n - 1].index } else { snap_index };
        proof {
            if n > 0 {
                assert(st.log()[0].index == st.entries@[0].index);
                assert(st.log().last().index == st.entries@[n - 1].index);
                assert(st.log()[n - 1].index < u64::MAX);
            }
        }
        if (first as u128) > (last as u128) + 1 {
            return Err(StorageError::Corrupted { first_index: first, last_index: last });
        }
        st.first_index = first;
        st.last_index = last;
        Ok(st)
    }
}

/// The number of bytes the entries take.
pub open spec fn entries_size(es: Seq<EntryView>) -> nat
    decreases es.len(),
{
    if es.len() == 0 {
        0
    } else {
        es[0].bytes.len() + entries_size(es.drop_first())
    }
}

/// Every index in `[i, high)` holds an entry of at least one byte.
pub open spec fn present_nonempty(s: Seq<EntryView>, i: u64, high: u64) -> bool {
    forall|j: u64| i <= j < high ==> (#[trigger] entry_at(s, j) matches Some(e) && e.bytes.len() > 0)
}

proof fn lemma_window_limited(s: Seq<EntryView>, i: u64, high: u64, m: u64, t: nat)
    requires
        i <= high,
        present_nonempty(s, i, high),
    ensures
        (window(s, i, high, Some(m), t) matches Ok(es) && {
            &&& es.len() <= high - i
            &&& forall|k: int| 0 <= k < es.len() ==> entry_at(s, (i + k) as u64) == Some(#[trigger] es[k])
            &&& (t > 0 && es.len() > 0) ==> t + entries_size(es) <= m
            &&& (t == 0 && i < high) ==> es.len() >= 1
            &&& es.len() < high - i ==> (t + entries_size(es) > 0 && t + entries_size(es) + entry_at(
                s,
                (i + es.len()) as u64,
            )->0.bytes.len() > m)
        }),
    decreases high - i,
{
    if i < high {
        assert(entry_at(s, i) matches Some(e) && e.bytes.len() > 0);
        let e = entry_at(s, i)->0;
        let size = e.bytes.len();
        if t > 0 && t + size > m {
            assert(window(s, i, high, Some(m), t) == Ok::<Seq<EntryView>, StorageError>(Seq::empty()));
            assert(entries_size(Seq::<EntryView>::empty()) == 0);
        } else {
            assert(present_nonempty(s, (i + 1) as u64, high));
            lemma_window_limited(s, (i + 1) as u64, high, m, t + size);
            let rest = window(s, (i + 1) as u64, high, Some(m), t + size)->Ok_0;
            let es = seq![e] + rest;
            assert(window(s, i, high, Some(m), t) == Ok::<Seq<EntryView>, StorageError>(es));
            assert(es.drop_first() =~= rest);
            assert(es[0] == e);
            assert(entries_size(es) == size + entries_size(rest));
            assert forall|k: int| 0 <= k < es.len() implies entry_at(s, (i + k) as u64) == Some(
                #[trigger] es[k],
            ) by {
                if k > 0 {
                    assert(es[k] == rest[k - 1]);
                    assert((i + 1 + (k - 1)) as u64 == (i + k) as u64);
                }
            }
            if es.len() < high - i {
                assert((i + es.len()) as u64 == ((i + 1) as u64 + rest.len()) as u64);
            }
        }
    } else {
        assert(entries_size(Seq::<EntryView>::empty()) == 0);
        assert(window(s, i, high, Some(m), t) == Ok::<Seq<EntryView>, StorageError>(Seq::empty()));
    }
}

/// A size-limited read gives the longest run of entries from `low` that
/// stays within `max` bytes, but always at least one entry: each entry
/// read is the stored one, in order; more than one entry together take no
/// more than `max` bytes; and a read cut short would have gone past `max`
/// with the next entry. Without a limit every entry of the range is read.
/// (Entries are taken to be at least one byte long: a read counts an
/// empty first entry as taking no room.)
pub proof fn lemma_entries_within_size(s: Seq<EntryView>, low: u64, high: u64, max: Option<u64>)
    requires
        low <= high,
        present_nonempty(s, low, high),
    ensures
        (window(s, low, high, max, 0) matches Ok(es) && {
            &&& forall|k: int| 0 <= k < es.len() ==> entry_at(s, (low + k) as u64) == Some(#[trigger] es[k])
            &&& es.len() <= high - low
            &&& max is None ==> es.len() == high - low
            &&& max matches Some(m) ==> {
                &&& low < high ==> es.len() >= 1
                &&& es.len() >= 2 ==> entries_size(es) <= m
                &&& es.len() < high - low ==> entries_size(es) + entry_at(s, (low + es.len()) as u64)->0.bytes.len() > m
            }
        }),
{
    match max {
        Some(m) => {
            lemma_window_limited(s, low, high, m, 0);
            let es = window(s, low, high, max, 0)->Ok_0;
            if es.len() >= 2 {
                let e = entry_at(s, low)->0;
                assert(present_nonempty(s, (low + 1) as u64, high));
                lemma_window_limited(s, (low + 1) as u64, high, m, e.bytes.len());
                assert(e.bytes.len() > 0);
                assert(window(s, low, high, max, 0) == match window(s, (low + 1) as u64, high, max, e.bytes.len()) {
                    Ok(rest) => Ok(seq![e] + rest),
                    Err(x) => Err(x),
                });
                let rest = window(s, (low + 1) as u64, high, max, e.bytes.len())->Ok_0;
                assert(es == seq![e] + rest);
                assert(es.drop_first() =~= rest);
            }
        },
        None => {
            lemma_window_unlimited(s, low, high, 0);
        },
    }
}

proof fn lemma_window_unlimited(s: Seq<EntryView>, i: u64, high: u64, t: nat)
    requires
        i <= high,
        present_nonempty(s, i, high),
    ensures
        (window(s, i, high, None, t) matches Ok(es) && es.len() == high - i && forall|k: int|
            0 <= k < es.len() ==> entry_at(s, (i + k) as u64) == Some(#[trigger] es[k])),
    decreases high - i,
{
    if i < high {
        assert(entry_at(s, i) matches Some(e) && e.bytes.len() > 0);
        let e = entry_at(s, i)->0;
        assert(present_nonempty(s, (i + 1) as u64, high));
        lemma_window_unlimited(s, (i + 1) as u64, high, t);
        let rest = window(s, (i + 1) as u64, high, None, t)->Ok_0;
        let es = seq![e] + rest;
        assert(window(s, i, high, None, t) == Ok::<Seq<EntryView>, StorageError>(es));
        assert(es.len() == high - i);
        assert forall|k: int| 0 <= k < es.len() implies entry_at(s, (i + k) as u64) == Some(#[trigger] es[k]) by {
            if k > 0 {
                assert(es[k] == rest[k - 1]);
                assert((i + 1 + (k - 1)) as u64 == (i + k) as u64);
            }
        }
    }
}

} // verus!
