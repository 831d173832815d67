//! Leader-side bookkeeping of allocations that have been proposed but not
//! yet committed, so that two proposals in flight cannot both spend the
//! same free capacity on a node.
//!
//! Lifecycle: `register` before proposing a volume creation, `release`
//! once the command is committed, `cleanup_expired` from time to time.
//! An allocation counts for `PENDING_ALLOCATION_TTL_MS` after it was
//! registered and is ignored afterwards.

use vstd::prelude::*;

verus! {

/// How long a registered allocation counts, in milliseconds.
pub const PENDING_ALLOCATION_TTL_MS: u64 = 30_000;

/// One proposed allocation.
#[derive(Clone, Debug)]
pub struct PendingAllocation {
    /// The volume being created.
    pub volume_id: String,
    /// Size allocated on each node.
    pub size_bytes: u64,
    /// The nodes that the allocation is placed on.
    pub node_ids: Vec<u64>,
    /// When the allocation was registered, in milliseconds since the Unix
    /// epoch.
    pub created_at: u64,
}

pub struct PendingView {
    pub volume_id: Seq<char>,
    pub size_bytes: u64,
    pub node_ids: Seq<u64>,
    pub created_at: u64,
}

impl View for PendingAllocation {
    type V = PendingView;

    open spec fn view(&self) -> PendingView {
        PendingView {
            volume_id: self.volume_id@,
            size_bytes: self.size_bytes,
            node_ids: self.node_ids@,
            created_at: self.created_at,
        }
    }
}

/// Milliseconds elapsed from `from` to `now`, zero if `now` is earlier.
pub open spec fn elapsed(from: u64, now: u64) -> nat {
    if now >= from {
        (now - from) as nat
    } else {
        0
    }
}

/// An allocation still counts at time `now`.
pub open spec fn is_live(a: PendingView, now: u64) -> bool {
    elapsed(a.created_at, now) < PENDING_ALLOCATION_TTL_MS
}

/// Total size that live allocations place on `node` at time `now`.
pub open spec fn pending_total(s: Seq<PendingView>, node: u64, now: u64) -> nat
    decreases s.len(),
{
    if s.len() == 0 {
        0
    } else {
        pending_total(s.drop_last(), node, now) + if is_live(s.last(), now) && s.last().node_ids.contains(
            node,
        ) {
            s.last().size_bytes as nat
        } else {
            0
        }
    }
}

/// The allocations that are live at `now` and belong to another volume
/// than `vol`.
pub open spec fn live_except(s: Seq<PendingView>, vol: Option<Seq<char>>, now: u64) -> Seq<PendingView>
    decreases s.len(),
{
    if s.len() == 0 {
        s
    } else {
        let rest = live_except(s.drop_last(), vol, now);
        if is_live(s.last(), now) && vol != Some(s.last().volume_id) {
            rest.push(s.last())
        } else {
            rest
        }
    }
}

/// The allocations that belong to another volume than `vol`.
pub open spec fn except_volume(s: Seq<PendingView>, vol: Seq<char>) -> Seq<PendingView>
    decreases s.len(),
{
    if s.len() == 0 {
        s
    } else {
        let rest = except_volume(s.drop_last(), vol);
        if s.last().volume_id != vol {
            rest.push(s.last())
        } else {
            rest
        }
    }
}

pub open spec fn has_volume(s: Seq<PendingView>, vol: Seq<char>) -> bool {
    exists|i: int| 0 <= i < s.len() && s[i].volume_id == vol
}

/// Whether `s` holds an allocation of `vol` that is live at `now`.
pub open spec fn has_live_volume(s: Seq<PendingView>, vol: Seq<char>, now: u64) -> bool {
    exists|i: int| 0 <= i < s.len() && s[i].volume_id == vol && is_live(s[i], now)
}

pub open spec fn distinct_volumes(s: Seq<PendingView>) -> bool {
    forall|i: int, j: int|
        0 <= i < s.len() && 0 <= j < s.len() && i != j ==> s[i].volume_id != s[j].volume_id
}

/// All allocations in flight, at most one per volume.
pub struct PendingAllocations {
    allocations: Vec<PendingAllocation>,
}

pub open spec fn views(s: Seq<PendingAllocation>) -> Seq<PendingView> {
    s.map_values(|a: PendingAllocation| a@)
}

proof fn lemma_live_except_sub(s: Seq<PendingView>, vol: Option<Seq<char>>, now: u64)
    ensures
        forall|i: int|
            0 <= i < live_except(s, vol, now).len() ==> exists|j: int|
                0 <= j < s.len() && s[j] == #[trigger] live_except(s, vol, now)[i],
        distinct_volumes(s) ==> distinct_volumes(live_except(s, vol, now)),
        forall|i: int|
            0 <= i < live_except(s, vol, now).len() ==> vol != Some(
                #[trigger] live_except(s, vol, now)[i].volume_id,
            ) && is_live(live_except(s, vol, now)[i], now),
    decreases s.len(),
{
    if s.len() > 0 {
        lemma_live_except_sub(s.drop_last(), vol, now);
        let rest = live_except(s.drop_last(), vol, now);
        assert forall|i: int| 0 <= i < rest.len() implies exists|j: int|
            0 <= j < s.len() && s[j] == #[trigger] rest[i] by {
            let j = choose|j: int| 0 <= j < s.drop_last().len() && s.drop_last()[j] == rest[i];
            assert(s[j] == rest[i]);
        }
        if distinct_volumes(s) {
            assert(distinct_volumes(s.drop_last())) by {
                assert forall|i: int, j: int|
                    0 <= i < s.drop_last().len() && 0 <= j < s.drop_last().len() && i != j
                    implies s.drop_last()[i].volume_id != s.drop_last()[j].volume_id by {
                    assert(s.drop_last()[i] == s[i]);
                    assert(s.drop_last()[j] == s[j]);
                }
            }
            let out = live_except(s, vol, now);
            if is_live(s.last(), now) && vol != Some(s.last().volume_id) {
                assert forall|i: int, j: int| 0 <= i < out.len() && 0 <= j < out.len() && i != j
                    implies out[i].volume_id != out[j].volume_id by {
                    if i < rest.len() && j < rest.len() {
                        assert(out[i] == rest[i]);
                        assert(out[j] == rest[j]);
                    } else if i < rest.len() {
                        let k = choose|k: int| 0 <= k < s.drop_last().len() && s.drop_last()[k] == rest[i];
                        assert(s[k] == out[i]);
                        assert(out[j] == s.last());
                        assert(k != s.len() - 1);
                    } else if j < rest.len() {
                        let k = choose|k: int| 0 <= k < s.drop_last().len() && s.drop_last()[k] == rest[j];
                        assert(s[k] == out[j]);
                        assert(out[i] == s.last());
                        assert(k != s.len() - 1);
                    }
                }
            }
        }
    }
}

proof fn lemma_except_volume_sub(s: Seq<PendingView>, vol: Seq<char>)
    ensures
        distinct_volumes(s) ==> distinct_volumes(except_volume(s, vol)),
        !has_volume(except_volume(s, vol), vol),
        forall|i: int|
            0 <= i < except_volume(s, vol).len() ==> exists|j: int|
                0 <= j < s.len() && s[j] == #[trigger] except_volume(s, vol)[i],
    decreases s.len(),
{
    if s.len() > 0 {
        lemma_except_volume_sub(s.drop_last(), vol);
        let rest = except_volume(s.drop_last(), vol);
        assert forall|i: int| 0 <= i < rest.len() implies exists|j: int|
            0 <= j < s.len() && s[j] == #[trigger] rest[i] by {
            let j = choose|j: int| 0 <= j < s.drop_last().len() && s.drop_last()[j] == rest[i];
            assert(s[j] == rest[i]);
        }
        let out = except_volume(s, vol);
        if s.last().volume_id != vol {
            assert forall|i: int| 0 <= i < out.len() implies out[i].volume_id != vol by {
                if i < rest.len() {
                    assert(out[i] == rest[i]);
                }
            }
        }
        if distinct_volumes(s) {
            assert(distinct_volumes(s.drop_last())) by {
                assert forall|i: int, j: int|
                    0 <= i < s.drop_last().len() && 0 <= j < s.drop_last().len() && i != j
                    implies s.drop_last()[i].volume_id != s.drop_last()[j].volume_id by {
                    assert(s.drop_last()[i] == s[i]);
                    assert(s.drop_last()[j] == s[j]);
                }
            }
            if s.last().volume_id != vol {
                assert forall|i: int, j: int| 0 <= i < out.len() && 0 <= j < out.len() && i != j
                    implies out[i].volume_id != out[j].volume_id by {
                    if i < rest.len() && j < rest.len() {
                        assert(out[i] == rest[i]);
                        assert(out[j] == rest[j]);
                    } else if i < rest.len() {
                        let k = choose|k: int| 0 <= k < s.drop_last().len() && s.drop_last()[k] == rest[i];
                        assert(s[k] == out[i]);
                        assert(k != s.len() - 1);
                    } else if j < rest.len() {
                        let k = choose|k: int| 0 <= k < s.drop_last().len() && s.drop_last()[k] == rest[j];
                        assert(s[k] == out[j]);
                        assert(k != s.len() - 1);
                    }
                }
            }
        }
    }
}

fn copy_allocation(a: &PendingAllocation) -> (r: PendingAllocation)
    ensures
        r@ == a@,
{
    PendingAllocation {
        volume_id: a.volume_id.clone(),
        size_bytes: a.size_bytes,
        node_ids: crate::registry::copy_u64s(&a.node_ids),
        created_at: a.created_at,
    }
}

/// Trusted: the wall clock (`std::time::SystemTime::now`) in milliseconds
/// since the Unix epoch, saturated at `u64::MAX` and zero before the
/// epoch. Nothing is promised of the value.
#[verifier::external_body]
fn clock_millis() -> (t: u64) {
    match std::time::SystemTime::now().duration_since(std::time::UNIX_EPOCH) {
        Ok(d) => u64::try_from(d.as_millis()).unwrap_or(u64::MAX),
        Err(_) => 0,
    }
}

/// The current wall-clock time in milliseconds since the Unix epoch.
pub fn current_millis() -> (t: u64) {
    clock_millis()
}

impl PendingAllocations {
    #[verifier::type_invariant]
    spec fn wf(self) -> bool {
        distinct_volumes(views(self.allocations@))
    }

    /// The allocations in flight, at most one per volume; their order has
    /// no meaning.
    pub closed spec fn view(self) -> Seq<PendingView> {
        views(self.allocations@)
    }

    pub fn new() -> (r: Self)
        ensures
            r.view() == Seq::<PendingView>::empty(),
    {
        let r = PendingAllocations { allocations: Vec::new() };
        assert(r.view() =~= Seq::<PendingView>::empty());
        r
    }

    /// Keeps the allocations that are live at `now` and belong to another
    /// volume than `vol`.
    fn retain_live_except(&mut self, vol: Option<&String>, now: u64)
        ensures
            final(self).view() == live_except(
                old(self).view(),
                match vol {
                    Some(v) => Some(v@),
                    None => None,
                },
                now,
            ),
    {
        proof {
            use_type_invariant(&*self);
        }
        let ghost vv: Option<Seq<char>> = match vol {
            Some(v) => Some(v@),
            None => None,
        };
        let ghost s = self.view();
        let mut kept: Vec<PendingAllocation> = Vec::new();
        let mut i: usize = 0;
        while i < self.allocations.len()
            invariant
                i <= self.allocations@.len(),
                s == views(self.allocations@),
                vv == match vol {
                    Some(v) => Some(v@),
                    None => None::<Seq<char>>,
                },
                views(kept@) == live_except(s.subrange(0, i as int), vv, now),
            decreases self.allocations@.len() - i,
        {
            let a = &self.allocations[i];
            let live = if now >= a.created_at {
                now - a.created_at < PENDING_ALLOCATION_TTL_MS
            } else {
                0 < PENDING_ALLOCATION_TTL_MS
            };
            let other = match vol {
                Some(v) => {
                    let e = a.volume_id == *v;
                    proof {
                        assert(e == (a@.volume_id == v@));
                        assert(vv == Some(v@));
                    }
                    !e
                },
                None => true,
            };
            proof {
                assert(s.subrange(0, i + 1).drop_last() =~= s.subrange(0, i as int));
                assert(s.subrange(0, i + 1).last() == a@);
                assert(live == is_live(a@, now));
                assert(other == (vv != Some(a@.volume_id)));
            }
            if live && other {
                let c = copy_allocation(a);
                let ghost before = kept@;
                kept.push(c);
                proof {
                    assert(views(kept@) =~= views(before).push(c@)) by {
                        assert(kept@ =~= before.push(c));
                    }
                }
            }
            i = i + 1;
        }
        proof {
            assert(s.subrange(0, i as int) =~= s);
            lemma_live_except_sub(s, vv, now);
        }
        self.allocations = kept;
    }

    /// Registers an allocation made at time `now`: allocations that have
    /// expired by `now` are dropped, and the new one replaces any earlier
    /// allocation of the same volume.
    pub fn register_at(&mut self, volume_id: String, size_bytes: u64, node_ids: Vec<u64>, now: u64)
        ensures
            final(self).view() == live_except(old(self).view(), Some(volume_id@), now).push(
                PendingView { volume_id: volume_id@, size_bytes, node_ids: node_ids@, created_at: now },
            ),
    {
        self.retain_live_except(Some(&volume_id), now);
        let a = PendingAllocation { volume_id, size_bytes, node_ids, created_at: now };
        let ghost av = a@;
        proof {
            use_type_invariant(&*self);
            lemma_live_except_sub(old(self).view(), Some(av.volume_id), now);
        }
        let mut allocs: Vec<PendingAllocation> = Vec::new();
        std::mem::swap(&mut allocs, &mut self.allocations);
        let ghost before = allocs@;
        allocs.push(a);
        proof {
            assert(views(allocs@) =~= views(before).push(av)) by {
                assert(allocs@ =~= before.push(a));
            }
            let v = views(allocs@);
            assert forall|i: int, j: int| 0 <= i < v.len() && 0 <= j < v.len() && i != j
                implies v[i].volume_id != v[j].volume_id by {
                let n = v.len() - 1;
                if i == n {
                    assert(v[j] == views(before)[j]);
                } else if j == n {
                    assert(v[i] == views(before)[i]);
                } else {
                    assert(v[i] == views(before)[i]);
                    assert(v[j] == views(before)[j]);
                }
            }
        }
        self.allocations = allocs;
    }

    /// Registers an allocation at the current time (see `register_at`).
    pub fn register(&mut self, volume_id: String, size_bytes: u64, node_ids: Vec<u64>)
        ensures
            exists|now: u64|
                final(self).view() == live_except(old(self).view(), Some(volume_id@), now).push(
                    PendingView {
                        volume_id: volume_id@,
                        size_bytes,
                        node_ids: node_ids@,
                        created_at: now,
                    },
                ),
    {
        let now = clock_millis();
        self.register_at(volume_id, size_bytes, node_ids, now);
    }

    /// Drops the allocation of `volume_id`, once its creation is committed.
    pub fn release(&mut self, volume_id: &str)
        ensures
            final(self).view() == except_volume(old(self).view(), volume_id@),
    {
        proof {
            use_type_invariant(&*self);
        }
        let key = volume_id.to_owned();
        let ghost s = self.view();
        let mut kept: Vec<PendingAllocation> = Vec::new();
        let mut i: usize = 0;
        while i < self.allocations.len()
            invariant
                i <= self.allocations@.len(),
                s == views(self.allocations@),
                views(kept@) == except_volume(s.subrange(0, i as int), key@),
            decreases self.allocations@.len() - i,
        {
            let a = &self.allocations[i];
            proof {
                assert(s.subrange(0, i + 1).drop_last() =~= s.subrange(0, i as int));
                assert(s.subrange(0, i + 1).last() == a@);
            }
            if !(a.volume_id == key) {
                let c = copy_allocation(a);
                let ghost before = kept@;
                kept.push(c);
                proof {
                    assert(views(kept@) =~= views(before).push(c@)) by {
                        assert(kept@ =~= before.push(c));
                    }
                }
            }
            i = i + 1;
        }
        proof {
            assert(s.subrange(0, i as int) =~= s);
            lemma_except_volume_sub(s, key@);
        }
        self.allocations = kept;
    }

    /// Total size that live allocations place on `node_id` at time `now`,
    /// saturated at `u64::MAX`.
    pub fn pending_size_for_node_at(&self, node_id: u64, now: u64) -> (r: u64)
        ensures
            r as nat == if pending_total(self.view(), node_id, now) <= u64::MAX {
                pending_total(self.view(), node_id, now)
            } else {
                u64::MAX as nat
            },
    {
        let ghost s = self.view();
        let mut total: u64 = 0;
        let mut saturated = false;
        let mut i: usize = 0;
        while i < self.allocations.len()
            invariant
                i <= self.allocations@.len(),
                s == views(self.allocations@),
                saturated ==> total == u64::MAX && pending_total(s.subrange(0, i as int), node_id, now)
                    > u64::MAX,
                !saturated ==> total == pending_total(s.subrange(0, i as int), node_id, now),
            decreases self.allocations@.len() - i,
        {
            let a = &self.allocations[i];
            proof {
                assert(s.subrange(0, i + 1).drop_last() =~= s.subrange(0, i as int));
                assert(s.subrange(0, i + 1).last() == a@);
            }
            let live = if now >= a.created_at {
                now - a.created_at < PENDING_ALLOCATION_TTL_MS
            } else {
                0 < PENDING_ALLOCATION_TTL_MS
            };
            if live && contains_u64(&a.node_ids, node_id) {
                if !saturated {
                    if total > u64::MAX - a.size_bytes {
                        saturated = true;
                        total = u64::MAX;
                    } else {
                        total = total + a.size_bytes;
                    }
                }
            }
            i = i + 1;
        }
        proof {
            assert(s.subrange(0, i as int) =~= s);
        }
        total
    }

    /// Total size pending on `node_id` at the current time (see
    /// `pending_size_for_node_at`).
    pub fn pending_size_for_node(&self, node_id: u64) -> (r: u64)
        ensures
            exists|now: u64|
                r as nat == if pending_total(self.view(), node_id, now) <= u64::MAX {
                    pending_total(self.view(), node_id, now)
                } else {
                    u64::MAX as nat
                },
    {
        let now = clock_millis();
        self.pending_size_for_node_at(node_id, now)
    }

    /// Whether a live allocation of `volume_id` is registered at time
    /// `now`: one that has expired by then does not count.
    pub fn has_pending_at(&self, volume_id: &str, now: u64) -> (b: bool)
        ensures
            b == has_live_volume(self.view(), volume_id@, now),
    {
        let key = volume_id.to_owned();
        let mut i: usize = 0;
        while i < self.allocations.len()
            invariant
                i <= self.allocations@.len(),
                key@ == volume_id@,
                self.view() == views(self.allocations@),
                forall|j: int|
                    0 <= j < i ==> !(self.view()[j].volume_id == key@ && is_live(self.view()[j], now)),
            decreases self.allocations@.len() - i,
        {
            let a = &self.allocations[i];
            proof {
                assert(self.view()[i as int] == a@);
            }
            let live = if now >= a.created_at {
                now - a.created_at < PENDING_ALLOCATION_TTL_MS
            } else {
                true
            };
            if a.volume_id == key && live {
                return true;
            }
            i = i + 1;
        }
        false
    }

    /// Whether a live allocation of `volume_id` is registered at the
    /// current time (see `has_pending_at`).
    pub fn has_pending(&self, volume_id: &str) -> (b: bool)
        ensures
            exists|now: u64| b == #[trigger] has_live_volume(self.view(), volume_id@, now),
    {
        let now = clock_millis();
        self.has_pending_at(volume_id, now)
    }

    /// All registered allocations.
    pub fn get_all(&self) -> (r: Vec<PendingAllocation>)
        ensures
            views(r@) == self.view(),
    {
        let mut r: Vec<PendingAllocation> = Vec::new();
        let mut i: usize = 0;
        while i < self.allocations.len()
            invariant
                i <= self.allocations@.len(),
                r@.len() == i,
                forall|j: int| 0 <= j < i ==> #[trigger] r@[j]@ == self.allocations@[j]@,
            decreases self.allocations@.len() - i,
        {
            let c = copy_allocation(&self.allocations[i]);
            r.push(c);
            i = i + 1;
        }
        proof {
            assert(views(r@) =~= self.view());
        }
        r
    }

    /// Drops the allocations that have expired by `now`.
    pub fn cleanup_expired_at(&mut self, now: u64)
        ensures
            final(self).view() == live_except(old(self).view(), None, now),
    {
        self.retain_live_except(None, now);
    }

    /// Drops the allocations that have expired by the current time.
    pub fn cleanup_expired(&mut self)
        ensures
            exists|now: u64| final(self).view() == live_except(old(self).view(), None, now),
    {
        let now = clock_millis();
        self.cleanup_expired_at(now);
    }
}

impl Default for PendingAllocations {
    fn default() -> (r: Self)
        ensures
            r.view() == Seq::<PendingView>::empty(),
    {
        PendingAllocations::new()
    }
}

/// Whether `v` holds `x`.
pub fn contains_u64(v: &Vec<u64>, x: u64) -> (b: bool)
    ensures
        b == v@.contains(x),
{
    let mut i: usize = 0;
    while i < v.len()
        invariant
            i <= v@.len(),
            forall|j: int| 0 <= j < i ==> v@[j] != x,
        decreases v@.len() - i,
    {
        if v[i] == x {
            assert(v@[i as int] == x);
            return true;
        }
        i = i + 1;
    }
    false
}

// ---------------------------------------------------------------------------
// Laws
// ---------------------------------------------------------------------------

/// A new allocation counts in full on each of its nodes: registering it at
/// `now` adds its size to what is pending on them at `now`.
pub proof fn lemma_register_counts(
    p: Seq<PendingView>,
    volume_id: Seq<char>,
    size_bytes: u64,
    node_ids: Seq<u64>,
    now: u64,
    node: u64,
)
    ensures
        ({
            let kept = live_except(p, Some(volume_id), now);
            let after = kept.push(
                PendingView { volume_id, size_bytes, node_ids, created_at: now },
            );
            pending_total(after, node, now) == pending_total(kept, node, now) + if node_ids.contains(
                node,
            ) {
                size_bytes as nat
            } else {
                0
            }
        }),
{
    let kept = live_except(p, Some(volume_id), now);
    let a = PendingView { volume_id, size_bytes, node_ids, created_at: now };
    assert(kept.push(a).drop_last() =~= kept);
    assert(is_live(a, now));
}

/// A released allocation is forgotten: nothing pending belongs to its
/// volume any more, and no node has more pending than before.
pub proof fn lemma_release_forgets(p: Seq<PendingView>, volume_id: Seq<char>, node: u64, now: u64)
    ensures
        !has_volume(except_volume(p, volume_id), volume_id),
        pending_total(except_volume(p, volume_id), node, now) <= pending_total(p, node, now),
    decreases p.len(),
{
    if p.len() > 0 {
        lemma_release_forgets(p.drop_last(), volume_id, node, now);
        let rest = except_volume(p.drop_last(), volume_id);
        if p.last().volume_id != volume_id {
            assert(rest.push(p.last()).drop_last() =~= rest);
            assert forall|i: int| 0 <= i < rest.push(p.last()).len() implies rest.push(
                p.last(),
            )[i].volume_id != volume_id by {
                if i < rest.len() {
                    assert(rest.push(p.last())[i] == rest[i]);
                }
            }
        }
    }
}

/// What survives a purge: an allocation is kept exactly when it was there,
/// is live at `now`, and is not of the volume `vol`; the survivors keep
/// their order.
proof fn lemma_live_except_members(s: Seq<PendingView>, vol: Option<Seq<char>>, now: u64, x: PendingView)
    ensures
        live_except(s, vol, now).contains(x) <==> (s.contains(x) && is_live(x, now) && vol != Some(
            x.volume_id,
        )),
    decreases s.len(),
{
    if s.len() > 0 {
        lemma_live_except_members(s.drop_last(), vol, now, x);
        let rest = live_except(s.drop_last(), vol, now);
        assert(s =~= s.drop_last().push(s.last()));
        if s.contains(x) && !s.drop_last().contains(x) {
            let i = choose|i: int| 0 <= i < s.len() && s[i] == x;
            if i < s.len() - 1 {
                assert(s.drop_last()[i] == x);
            }
        }
        if s.drop_last().contains(x) {
            let i = choose|i: int| 0 <= i < s.drop_last().len() && s.drop_last()[i] == x;
            assert(s[i] == x);
        }
        if is_live(s.last(), now) && vol != Some(s.last().volume_id) {
            if rest.contains(x) {
                let i = choose|i: int| 0 <= i < rest.len() && rest[i] == x;
                assert(rest.push(s.last())[i] == x);
            }
            if rest.push(s.last()).contains(x) && !rest.contains(x) {
                let i = choose|i: int| 0 <= i < rest.len() + 1 && rest.push(s.last())[i] == x;
                if i < rest.len() {
                    assert(rest[i] == x);
                }
            }
            if x == s.last() {
                assert(rest.push(s.last())[rest.len() as int] == x);
            }
        }
    }
}

/// A purge of a sequence with nothing to purge changes nothing.
proof fn lemma_live_except_all_kept(s: Seq<PendingView>, vol: Option<Seq<char>>, now: u64)
    requires
        forall|i: int| 0 <= i < s.len() ==> is_live(#[trigger] s[i], now) && vol != Some(
            s[i].volume_id,
        ),
    ensures
        live_except(s, vol, now) == s,
    decreases s.len(),
{
    if s.len() > 0 {
        lemma_live_except_all_kept(s.drop_last(), vol, now);
        assert(s.last() == s[s.len() - 1]);
        assert(s.drop_last().push(s.last()) =~= s);
    }
}

/// Releasing a volume that none of the allocations is of changes nothing.
proof fn lemma_except_volume_absent(s: Seq<PendingView>, vol: Seq<char>)
    requires
        !has_volume(s, vol),
    ensures
        except_volume(s, vol) == s,
    decreases s.len(),
{
    if s.len() > 0 {
        assert(!has_volume(s.drop_last(), vol)) by {
            if has_volume(s.drop_last(), vol) {
                let i = choose|i: int| 0 <= i < s.drop_last().len() && s.drop_last()[i].volume_id == vol;
                assert(s[i].volume_id == vol);
            }
        }
        lemma_except_volume_absent(s.drop_last(), vol);
        assert(s[s.len() - 1].volume_id != vol);
        assert(s.drop_last().push(s.last()) =~= s);
    }
}

/// Registering at `now` keeps exactly the earlier allocations that are
/// live at `now` and of another volume, unchanged, and adds the new one,
/// made at `now`, as the only allocation of its volume.
pub proof fn lemma_register_members(
    p: Seq<PendingView>,
    volume_id: Seq<char>,
    size_bytes: u64,
    node_ids: Seq<u64>,
    now: u64,
    x: PendingView,
)
    ensures
        ({
            let a = PendingView { volume_id, size_bytes, node_ids, created_at: now };
            let after = live_except(p, Some(volume_id), now).push(a);
            &&& after.contains(x) <==> (x == a || (p.contains(x) && is_live(x, now) && x.volume_id
                != volume_id))
            &&& forall|i: int| 0 <= i < after.len() && #[trigger] after[i].volume_id == volume_id ==> i
                == after.len() - 1
        }),
{
    let a = PendingView { volume_id, size_bytes, node_ids, created_at: now };
    let kept = live_except(p, Some(volume_id), now);
    let after = kept.push(a);
    lemma_live_except_members(p, Some(volume_id), now, x);
    lemma_live_except_sub(p, Some(volume_id), now);
    if after.contains(x) && x != a {
        let i = choose|i: int| 0 <= i < after.len() && after[i] == x;
        assert(i < kept.len());
        assert(kept[i] == x);
        assert(kept.contains(x));
    }
    if kept.contains(x) {
        let i = choose|i: int| 0 <= i < kept.len() && kept[i] == x;
        assert(after[i] == x);
    }
    if x == a {
        assert(after[kept.len() as int] == x);
    }
    assert forall|i: int| 0 <= i < after.len() && #[trigger] after[i].volume_id == volume_id implies i
        == after.len() - 1 by {
        if i < kept.len() {
            assert(after[i] == kept[i]);
        }
    }
}

/// Releasing undoes registering: registering a volume that has no
/// allocation, when every allocation is live at `now`, and then releasing
/// it, leaves the allocations as they were, so every node has as much
/// pending as before.
pub proof fn lemma_release_undoes_register(
    p: Seq<PendingView>,
    volume_id: Seq<char>,
    size_bytes: u64,
    node_ids: Seq<u64>,
    now: u64,
)
    requires
        !has_volume(p, volume_id),
        forall|i: int| 0 <= i < p.len() ==> is_live(#[trigger] p[i], now),
    ensures
        except_volume(
            live_except(p, Some(volume_id), now).push(
                PendingView { volume_id, size_bytes, node_ids, created_at: now },
            ),
            volume_id,
        ) == p,
{
    assert forall|i: int| 0 <= i < p.len() implies is_live(#[trigger] p[i], now) && Some(volume_id)
        != Some(p[i].volume_id) by {
        if p[i].volume_id == volume_id {
            assert(has_volume(p, volume_id));
        }
    }
    lemma_live_except_all_kept(p, Some(volume_id), now);
    let a = PendingView { volume_id, size_bytes, node_ids, created_at: now };
    assert(p.push(a).drop_last() =~= p);
    lemma_except_volume_absent(p, volume_id);
}

/// Dropping expired allocations keeps exactly the allocations live at
/// `now`, and a second purge at the same time drops nothing more; after it
/// a volume is registered exactly when it had a live allocation, so none
/// of the dropped ones is pending any more.
pub proof fn lemma_cleanup_keeps_live(p: Seq<PendingView>, now: u64, x: PendingView, v: Seq<char>)
    ensures
        live_except(p, None, now).contains(x) <==> (p.contains(x) && is_live(x, now)),
        live_except(live_except(p, None, now), None, now) == live_except(p, None, now),
        has_volume(live_except(p, None, now), v) == has_live_volume(p, v, now),
        has_live_volume(live_except(p, None, now), v, now) == has_live_volume(p, v, now),
{
    let q = live_except(p, None, now);
    if has_volume(q, v) {
        let i = choose|i: int| 0 <= i < q.len() && q[i].volume_id == v;
        lemma_live_except_members(p, None, now, q[i]);
        assert(q.contains(q[i]));
        let j = choose|j: int| 0 <= j < p.len() && p[j] == q[i];
        assert(p[j].volume_id == v && is_live(p[j], now));
    }
    if has_live_volume(p, v, now) {
        let j = choose|j: int| 0 <= j < p.len() && p[j].volume_id == v && is_live(p[j], now);
        lemma_live_except_members(p, None, now, p[j]);
        assert(p.contains(p[j]));
        let i = choose|i: int| 0 <= i < q.len() && q[i] == p[j];
        assert(q[i].volume_id == v && is_live(q[i], now));
    }
    lemma_live_except_members(p, None, now, x);
    lemma_live_except_sub(p, None, now);
    let q = live_except(p, None, now);
    assert forall|i: int| 0 <= i < q.len() implies is_live(#[trigger] q[i], now) && None::<Seq<char>>
        != Some(q[i].volume_id) by {
        let ghost v = q[i].volume_id;
        assert(None::<Seq<char>> != Some(v));
        assert(is_live(q[i], now));
    }
    lemma_live_except_all_kept(q, None, now);
}

} // verus!
