//! Placement: which nodes host a new volume.
//!
//! The scheduler runs on the leader before a volume creation is proposed,
//! and the chosen nodes are written into the command, so that the log alone
//! decides placement. It filters (the node is active and has room for the
//! volume), orders, and takes as many nodes as the volume has replicas.

use crate::foundry::{decimal, decimal_text};
use crate::pending::{pending_total, PendingAllocations, PendingView};
use crate::command::command_bytes;
use crate::registry::{
    build_create_volume_cmd, create_volume_view, ClusterState, ClusterView, NodeStatus, NodeView,
};
use std::collections::HashMap;
use vstd::prelude::*;

verus! {

/// What a volume needs from the cluster.
pub struct PlacementRequirements {
    /// Size of the volume in bytes.
    pub size_bytes: u64,
    /// Number of replicas.
    pub replication_factor: u32,
    /// Tags that a node should carry; not yet taken into account.
    pub required_tags: HashMap<String, String>,
}

/// Too few nodes qualify for the volume.
#[derive(Clone, Copy, Debug, PartialEq, Eq, Structural)]
pub struct SchedulerError {
    /// The replication factor asked for.
    pub needed: u32,
    /// The number of nodes that qualify.
    pub found: usize,
    /// Whether allocations in flight were taken into account.
    pub with_pending: bool,
}

/// The error's text: the nodes needed and found, in decimal.
pub open spec fn insufficient_text(e: SchedulerError) -> Seq<char> {
    (if e.with_pending {
        "Insufficient eligible nodes after accounting for pending allocations. Needed "@
    } else {
        "Insufficient eligible nodes. Needed "@
    }) + decimal(e.needed as nat) + ", found "@ + decimal(e.found as nat)
}

impl SchedulerError {
    /// The error's text.
    pub fn message(&self) -> (r: String)
        ensures
            r@ == insufficient_text(*self),
    {
        let mut r = if self.with_pending {
            String::from_str(
                "Insufficient eligible nodes after accounting for pending allocations. Needed ",
            )
        } else {
            String::from_str("Insufficient eligible nodes. Needed ")
        };
        let needed = decimal_text(self.needed as u64);
        r.append(needed.as_str());
        r.append(", found ");
        let found = decimal_text(self.found as u64);
        r.append(found.as_str());
        proof {
            reveal_strlit(
                "Insufficient eligible nodes after accounting for pending allocations. Needed ",
            );
            reveal_strlit("Insufficient eligible nodes. Needed ");
            reveal_strlit(", found ");
            assert(r@ =~= insufficient_text(*self));
        }
        r
    }
}

/// A node can take a volume of `size` bytes when it is active and its
/// capacity covers the size.
pub open spec fn eligible(n: NodeView, size: u64) -> bool {
    n.status == NodeStatus::Active && n.capacity >= size
}

/// Ids of the nodes that can take a volume of `size` bytes.
pub open spec fn eligible_ids(s: ClusterView, size: u64) -> Set<u64> {
    s.nodes.dom().filter(|k: u64| eligible(s.nodes[k], size))
}

/// Capacity left on a node once `pending` bytes are set aside.
pub open spec fn available(capacity: u64, pending: nat) -> nat {
    if pending >= capacity {
        0
    } else {
        (capacity - pending) as nat
    }
}

/// Capacity left on node `k` of `s` at time `now`.
pub open spec fn available_on(s: ClusterView, p: Seq<PendingView>, now: u64, k: u64) -> nat {
    available(s.nodes[k].capacity, pending_total(p, k, now))
}

/// Ids of the active nodes whose capacity left covers `size` bytes.
pub open spec fn eligible_ids_pending(
    s: ClusterView,
    p: Seq<PendingView>,
    now: u64,
    size: u64,
) -> Set<u64> {
    s.nodes.dom().filter(
        |k: u64| s.nodes[k].status == NodeStatus::Active && available_on(s, p, now, k) >= size,
    )
}

/// Node `a` comes before node `b`: more capacity left, then lower id.
pub open spec fn ranks_before(s: ClusterView, p: Seq<PendingView>, now: u64, a: u64, b: u64) -> bool {
    available_on(s, p, now, a) > available_on(s, p, now, b) || (available_on(s, p, now, a)
        == available_on(s, p, now, b) && a < b)
}

/// `r` is the first `n` nodes of `e` in ascending id order.
pub open spec fn lowest_ids(e: Set<u64>, n: nat, r: Seq<u64>) -> bool {
    &&& r.len() == n
    &&& forall|i: int, j: int| 0 <= i < j < r.len() ==> r[i] < r[j]
    &&& forall|i: int| 0 <= i < r.len() ==> e.contains(#[trigger] r[i])
    &&& forall|x: u64, i: int|
        #![trigger e.contains(x), r[i]]
        e.contains(x) && 0 <= i < r.len() ==> r.contains(x) || r[i] < x
}

/// `r` is the first `n` nodes of `e` in the order of `ranks_before`.
pub open spec fn best_ranked(
    s: ClusterView,
    p: Seq<PendingView>,
    now: u64,
    e: Set<u64>,
    n: nat,
    r: Seq<u64>,
) -> bool {
    &&& r.len() == n
    &&& forall|i: int, j: int| 0 <= i < j < r.len() ==> ranks_before(s, p, now, r[i], r[j])
    &&& forall|i: int| 0 <= i < r.len() ==> e.contains(#[trigger] r[i])
    &&& forall|x: u64, i: int|
        #![trigger e.contains(x), r[i]]
        e.contains(x) && 0 <= i < r.len() ==> r.contains(x) || ranks_before(s, p, now, r[i], x)
}

// ---------------------------------------------------------------------------
// Ordered candidate lists
// ---------------------------------------------------------------------------

/// Candidates are (capacity left, id) pairs; more capacity first, then
/// lower id.
pub open spec fn pair_before(a: (u64, u64), b: (u64, u64)) -> bool {
    a.0 > b.0 || (a.0 == b.0 && a.1 < b.1)
}

pub open spec fn strictly_ordered(v: Seq<(u64, u64)>) -> bool {
    forall|i: int, j: int| 0 <= i < j < v.len() ==> pair_before(v[i], v[j])
}

pub open spec fn distinct_seconds(v: Seq<(u64, u64)>) -> bool {
    forall|i: int, j: int| 0 <= i < v.len() && 0 <= j < v.len() && i != j ==> v[i].1 != v[j].1
}

/// Inserts `c` at its place in an ordered list whose ids differ from its.
fn insert_ordered(v: &mut Vec<(u64, u64)>, c: (u64, u64))
    requires
        strictly_ordered(old(v)@),
        forall|i: int| 0 <= i < old(v)@.len() ==> old(v)@[i].1 != c.1,
    ensures
        strictly_ordered(final(v)@),
        final(v)@.len() == old(v)@.len() + 1,
        forall|x: (u64, u64)| final(v)@.contains(x) <==> (old(v)@.contains(x) || x == c),
{
    let mut idx: usize = 0;
    let mut found = false;
    while idx < v.len() && !found
        invariant
            idx <= v@.len(),
            v@ == old(v)@,
            strictly_ordered(v@),
            forall|i: int| 0 <= i < v@.len() ==> v@[i].1 != c.1,
            forall|j: int| 0 <= j < idx ==> pair_before(v@[j], c),
            found ==> idx < v@.len() && pair_before(c, v@[idx as int]),
        decreases v@.len() - idx + if found { 0int } else { 1int },
    {
        let e = v[idx];
        if c.0 > e.0 || (c.0 == e.0 && c.1 < e.1) {
            found = true;
        } else {
            idx = idx + 1;
        }
    }
    let ghost before = v@;
    let ghost at = idx;
    v.insert(idx, c);
    proof {
        before.insert_ensures(at as int, c);
        assert(v@ == before.insert(at as int, c));
        assert(found ==> at < before.len() && pair_before(c, before[at as int]));
        assert(!found ==> at == before.len());
        assert forall|k: int| at <= k < before.len() implies pair_before(c, #[trigger] before[k]) by {
            if k > at {
                assert(pair_before(before[at as int], before[k]));
            }
        }
        assert forall|i: int, j: int| 0 <= i < j < v@.len() implies pair_before(v@[i], v@[j]) by {
            if j < at {
                assert(v@[i] == before[i]);
                assert(v@[j] == before[j]);
            } else if j == at {
                assert(v@[i] == before[i]);
                assert(v@[j] == c);
            } else if i < at {
                assert(v@[i] == before[i]);
                assert(v@[j] == before[j - 1]);
                assert(pair_before(before[i], c));
                assert(pair_before(c, before[j - 1]));
            } else if i == at {
                assert(v@[i] == c);
                assert(v@[j] == before[j - 1]);
            } else {
                assert(v@[i] == before[i - 1]);
                assert(v@[j] == before[j - 1]);
            }
        }
        assert forall|x: (u64, u64)| v@.contains(x) <==> (before.contains(x) || x == c) by {
            if v@.contains(x) {
                let i = choose|i: int| 0 <= i < v@.len() && v@[i] == x;
                if i < at {
                    assert(before[i] == x);
                } else if i > at {
                    assert(before[i - 1] == x);
                }
            }
            if before.contains(x) {
                let i = choose|i: int| 0 <= i < before.len() && before[i] == x;
                if i < at {
                    assert(v@[i] == x);
                } else {
                    assert(v@[i + 1] == x);
                }
            }
            if x == c {
                assert(v@[at as int] == x);
            }
        }
    }
}

/// The seconds of an ordered candidate list without repeats are as many as
/// the set they enumerate.
proof fn lemma_candidates_card(cands: Seq<(u64, u64)>, e: Set<u64>)
    requires
        distinct_seconds(cands),
        forall|k: u64| e.contains(k) <==> exists|t: int| 0 <= t < cands.len() && #[trigger] cands[t].1 == k,
    ensures
        e.finite(),
        e.len() == cands.len(),
{
    let ids = cands.map_values(|p: (u64, u64)| p.1);
    assert(ids.no_duplicates());
    assert(ids.to_set() =~= e) by {
        assert forall|k: u64| e.contains(k) implies ids.to_set().contains(k) by {
            let t = choose|t: int| 0 <= t < cands.len() && #[trigger] cands[t].1 == k;
            assert(ids[t] == k);
        }
        assert forall|k: u64| ids.to_set().contains(k) implies e.contains(k) by {
            let t = choose|t: int| 0 <= t < ids.len() && ids[t] == k;
            assert(cands[t].1 == k);
        }
    }
    ids.unique_seq_to_set();
}

/// The ids of the first `n` candidates.
fn take_ids(cands: &Vec<(u64, u64)>, n: usize) -> (r: Vec<u64>)
    requires
        n <= cands@.len(),
    ensures
        r@.len() == n,
        forall|i: int| 0 <= i < n ==> #[trigger] r@[i] == cands@[i].1,
{
    let mut r: Vec<u64> = Vec::new();
    let mut i: usize = 0;
    while i < n
        invariant
            n <= cands@.len(),
            i <= n,
            r@.len() == i,
            forall|j: int| 0 <= j < i ==> #[trigger] r@[j] == cands@[j].1,
        decreases n - i,
    {
        r.push(cands[i].1);
        i = i + 1;
    }
    r
}

/// Placement over the table, without allocations in flight.
pub struct Scheduler;

impl Scheduler {
    /// Picks the nodes for a new volume: the active nodes whose capacity
    /// covers the volume, lowest ids first, as many as the replication
    /// factor. Fails when fewer nodes qualify, or when none does (all are
    /// down or too small), whatever the replication factor.
    pub fn select_nodes(state: &ClusterState, req: &PlacementRequirements) -> (r: Result<
        Vec<u64>,
        SchedulerError,
    >)
        ensures
            eligible_ids(state@, req.size_bytes).finite(),
            match r {
                Ok(ids) => eligible_ids(state@, req.size_bytes).len() >= req.replication_factor
                    && eligible_ids(state@, req.size_bytes).len() > 0 && lowest_ids(
                    eligible_ids(state@, req.size_bytes),
                    req.replication_factor as nat,
                    ids@,
                ),
                Err(e) => (eligible_ids(state@, req.size_bytes).len() < req.replication_factor
                    || eligible_ids(state@, req.size_bytes).len() == 0) && e == SchedulerError {
                    needed: req.replication_factor,
                    found: eligible_ids(state@, req.size_bytes).len() as usize,
                    with_pending: false,
                },
            },
    {
        let ghost e = eligible_ids(state@, req.size_bytes);
        let n = state.nodes.count();
        let mut cands: Vec<(u64, u64)> = Vec::new();
        let mut i: usize = 0;
        while i < n
            invariant
                n == state.nodes.entries().len(),
                i <= n,
                crate::registry::distinct_node_ids(state.nodes.entries()),
                strictly_ordered(cands@),
                distinct_seconds(cands@),
                forall|x: (u64, u64)|
                    cands@.contains(x) <==> x.0 == 0 && exists|j: int|
                        0 <= j < i && #[trigger] state.nodes.entries()[j].id == x.1 && eligible(
                            state.nodes.entries()[j]@,
                            req.size_bytes,
                        ),
            decreases n - i,
        {
            let node = state.nodes.at(i);
            if node.status == NodeStatus::Active && node.capacity >= req.size_bytes {
                proof {
                    assert forall|t: int| 0 <= t < cands@.len() implies cands@[t].1 != node.id by {
                        assert(cands@.contains(cands@[t]));
                        let j = choose|j: int|
                            0 <= j < i && #[trigger] state.nodes.entries()[j].id == cands@[t].1
                                && eligible(state.nodes.entries()[j]@, req.size_bytes);
                    }
                }
                let ghost old_c = cands@;
                insert_ordered(&mut cands, (0, node.id));
                proof {
                    assert forall|a: int, b: int|
                        0 <= a < cands@.len() && 0 <= b < cands@.len() && a != b
                        implies cands@[a].1 != cands@[b].1 by {
                        if cands@[a].1 == cands@[b].1 {
                            assert(cands@.contains(cands@[a]));
                            assert(cands@.contains(cands@[b]));
                            assert(cands@[a].0 == 0 && cands@[b].0 == 0);
                            assert(cands@[a] == cands@[b]);
                            if a < b {
                                assert(pair_before(cands@[a], cands@[b]));
                            } else {
                                assert(pair_before(cands@[b], cands@[a]));
                            }
                        }
                    }
                    assert forall|x: (u64, u64)| cands@.contains(x) <==> x.0 == 0 && exists|j: int|
                        0 <= j < i + 1 && #[trigger] state.nodes.entries()[j].id == x.1 && eligible(
                            state.nodes.entries()[j]@,
                            req.size_bytes,
                        ) by {
                        if x == (0u64, node.id) {
                            assert(state.nodes.entries()[i as int].id == x.1);
                        }
                        if x.0 == 0 && exists|j: int|
                            0 <= j < i + 1 && #[trigger] state.nodes.entries()[j].id == x.1 && eligible(
                                state.nodes.entries()[j]@,
                                req.size_bytes,
                            ) {
                            let j = choose|j: int|
                                0 <= j < i + 1 && #[trigger] state.nodes.entries()[j].id == x.1 && eligible(
                                    state.nodes.entries()[j]@,
                                    req.size_bytes,
                                );
                            if j < i {
                                assert(old_c.contains(x));
                            }
                        }
                    }
                }
            } else {
                proof {
                    assert forall|x: (u64, u64)| cands@.contains(x) <==> x.0 == 0 && exists|j: int|
                        0 <= j < i + 1 && #[trigger] state.nodes.entries()[j].id == x.1 && eligible(
                            state.nodes.entries()[j]@,
                            req.size_bytes,
                        ) by {
                        if x.0 == 0 && exists|j: int|
                            0 <= j < i + 1 && #[trigger] state.nodes.entries()[j].id == x.1 && eligible(
                                state.nodes.entries()[j]@,
                                req.size_bytes,
                            ) {
                            let j = choose|j: int|
                                0 <= j < i + 1 && #[trigger] state.nodes.entries()[j].id == x.1 && eligible(
                                    state.nodes.entries()[j]@,
                                    req.size_bytes,
                                );
                            assert(j != i);
                        }
                    }
                }
            }
            i = i + 1;
        }
        proof {
            assert forall|k: u64| e.contains(k) <==> exists|t: int|
                0 <= t < cands@.len() && #[trigger] cands@[t].1 == k by {
                if e.contains(k) {
                    let j = choose|j: int| 0 <= j < n && state.nodes.entries()[j].id == k;
                    assert(state.nodes.map()[k] == state.nodes.entries()[j]@);
                    assert(cands@.contains((0u64, k)));
                    let t = choose|t: int| 0 <= t < cands@.len() && cands@[t] == (0u64, k);
                    assert(cands@[t].1 == k);
                }
                if exists|t: int| 0 <= t < cands@.len() && #[trigger] cands@[t].1 == k {
                    let t = choose|t: int| 0 <= t < cands@.len() && #[trigger] cands@[t].1 == k;
                    assert(cands@.contains(cands@[t]));
                    let j = choose|j: int|
                        0 <= j < n && #[trigger] state.nodes.entries()[j].id == cands@[t].1 && eligible(
                            state.nodes.entries()[j]@,
                            req.size_bytes,
                        );
                    assert(state.nodes.map()[k] == state.nodes.entries()[j]@);
                }
            }
            lemma_candidates_card(cands@, e);
        }
        let rf = req.replication_factor as usize;
        if cands.len() < rf || cands.len() == 0 {
            return Err(
                SchedulerError {
                    needed: req.replication_factor,
                    found: cands.len(),
                    with_pending: false,
                },
            );
        }
        let ids = take_ids(&cands, rf);
        proof {
            assert forall|x: u64, i: int|
                #![trigger e.contains(x), ids@[i]]
                e.contains(x) && 0 <= i < ids@.len() implies ids@.contains(x) || ids@[i] < x by {
                let t = choose|t: int| 0 <= t < cands@.len() && #[trigger] cands@[t].1 == x;
                assert(cands@.contains(cands@[t]));
                if t < rf {
                    assert(ids@[t] == x);
                } else {
                    assert(pair_before(cands@[i], cands@[t]));
                    assert(cands@.contains(cands@[i]));
                }
            }
            assert forall|a: int, b: int| 0 <= a < b < ids@.len() implies ids@[a] < ids@[b] by {
                assert(pair_before(cands@[a], cands@[b]));
                assert(cands@.contains(cands@[a]));
                assert(cands@.contains(cands@[b]));
            }
            assert forall|a: int| 0 <= a < ids@.len() implies e.contains(#[trigger] ids@[a]) by {
                assert(cands@[a].1 == ids@[a]);
            }
        }
        Ok(ids)
    }
}

/// The outcome of placement at time `now`: the best-ranked eligible nodes,
/// or the error that says how few qualify.
pub open spec fn placement_with_pending(
    s: ClusterView,
    p: Seq<PendingView>,
    now: u64,
    size: u64,
    rf: u32,
    r: Result<Vec<u64>, SchedulerError>,
) -> bool {
    match r {
        Ok(ids) => eligible_ids_pending(s, p, now, size).len() >= rf && best_ranked(
            s,
            p,
            now,
            eligible_ids_pending(s, p, now, size),
            rf as nat,
            ids@,
        ),
        Err(e) => eligible_ids_pending(s, p, now, size).len() < rf && e == SchedulerError {
            needed: rf,
            found: eligible_ids_pending(s, p, now, size).len() as usize,
            with_pending: true,
        },
    }
}

/// Capacity left on `n` once what `pending` places on it at `now` is set
/// aside.
fn available_at(n: &crate::registry::NodeMetadata, pending: &PendingAllocations, now: u64) -> (a: u64)
    ensures
        a as nat == available(n.capacity, pending_total(pending.view(), n.id, now)),
{
    let pend = pending.pending_size_for_node_at(n.id, now);
    if pend >= n.capacity {
        0
    } else {
        n.capacity - pend
    }
}

impl Scheduler {
    /// Picks the nodes for a new volume, setting aside the capacity that
    /// allocations in flight at time `now` hold: the active nodes whose
    /// capacity left covers the volume, most capacity left first and then
    /// lowest id, as many as the replication factor. Fails when fewer nodes
    /// qualify.
    pub fn select_nodes_with_pending_at(
        state: &ClusterState,
        req: &PlacementRequirements,
        pending: &PendingAllocations,
        now: u64,
    ) -> (r: Result<Vec<u64>, SchedulerError>)
        ensures
            eligible_ids_pending(state@, pending.view(), now, req.size_bytes).finite(),
            placement_with_pending(state@, pending.view(), now, req.size_bytes, req.replication_factor, r),
    {
        let ghost p = pending.view();
        let ghost e = eligible_ids_pending(state@, p, now, req.size_bytes);
        let n = state.nodes.count();
        let mut cands: Vec<(u64, u64)> = Vec::new();
        let mut i: usize = 0;
        while i < n
            invariant
                n == state.nodes.entries().len(),
                i <= n,
                p == pending.view(),
                crate::registry::distinct_node_ids(state.nodes.entries()),
                strictly_ordered(cands@),
                distinct_seconds(cands@),
                forall|x: (u64, u64)|
                    cands@.contains(x) <==> exists|j: int|
                        0 <= j < i && #[trigger] state.nodes.entries()[j].id == x.1
                            && state.nodes.entries()[j].status == NodeStatus::Active && x.0 == available(
                            state.nodes.entries()[j].capacity,
                            pending_total(p, x.1, now),
                        ) && x.0 >= req.size_bytes,
            decreases n - i,
        {
            let node = state.nodes.at(i);
            let avail = available_at(node, pending, now);
            if node.status == NodeStatus::Active && avail >= req.size_bytes {
                proof {
                    assert forall|t: int| 0 <= t < cands@.len() implies cands@[t].1 != node.id by {
                        assert(cands@.contains(cands@[t]));
                        let j = choose|j: int|
                            0 <= j < i && #[trigger] state.nodes.entries()[j].id == cands@[t].1
                                && state.nodes.entries()[j].status == NodeStatus::Active && cands@[t].0
                                == available(
                                state.nodes.entries()[j].capacity,
                                pending_total(p, cands@[t].1, now),
                            ) && cands@[t].0 >= req.size_bytes;
                    }
                }
                let ghost old_c = cands@;
                insert_ordered(&mut cands, (avail, node.id));
                proof {
                    assert forall|a: int, b: int|
                        0 <= a < cands@.len() && 0 <= b < cands@.len() && a != b
                        implies cands@[a].1 != cands@[b].1 by {
                        if cands@[a].1 == cands@[b].1 {
                            assert(cands@.contains(cands@[a]));
                            assert(cands@.contains(cands@[b]));
                            let ja = choose|j: int|
                                0 <= j < i + 1 && #[trigger] state.nodes.entries()[j].id == cands@[a].1
                                    && state.nodes.entries()[j].status == NodeStatus::Active
                                    && cands@[a].0 == available(
                                    state.nodes.entries()[j].capacity,
                                    pending_total(p, cands@[a].1, now),
                                ) && cands@[a].0 >= req.size_bytes;
                            let jb = choose|j: int|
                                0 <= j < i + 1 && #[trigger] state.nodes.entries()[j].id == cands@[b].1
                                    && state.nodes.entries()[j].status == NodeStatus::Active
                                    && cands@[b].0 == available(
                                    state.nodes.entries()[j].capacity,
                                    pending_total(p, cands@[b].1, now),
                                ) && cands@[b].0 >= req.size_bytes;
                            assert(ja == jb);
                            assert(cands@[a] == cands@[b]);
                            if a < b {
                                assert(pair_before(cands@[a], cands@[b]));
                            } else {
                                assert(pair_before(cands@[b], cands@[a]));
                            }
                        }
                    }
                    assert forall|x: (u64, u64)| cands@.contains(x) <==> exists|j: int|
                        0 <= j < i + 1 && #[trigger] state.nodes.entries()[j].id == x.1
                            && state.nodes.entries()[j].status == NodeStatus::Active && x.0 == available(
                            state.nodes.entries()[j].capacity,
                            pending_total(p, x.1, now),
                        ) && x.0 >= req.size_bytes by {
                        if x == (avail, node.id) {
                            assert(state.nodes.entries()[i as int].id == x.1);
                        }
                        if exists|j: int|
                            0 <= j < i + 1 && #[trigger] state.nodes.entries()[j].id == x.1
                                && state.nodes.entries()[j].status == NodeStatus::Active && x.0
                                == available(
                                state.nodes.entries()[j].capacity,
                                pending_total(p, x.1, now),
                            ) && x.0 >= req.size_bytes {
                            let j = choose|j: int|
                                0 <= j < i + 1 && #[trigger] state.nodes.entries()[j].id == x.1
                                    && state.nodes.entries()[j].status == NodeStatus::Active && x.0
                                    == available(
                                    state.nodes.entries()[j].capacity,
                                    pending_total(p, x.1, now),
                                ) && x.0 >= req.size_bytes;
                            if j < i {
                                assert(old_c.contains(x));
                            }
                        }
                    }
                }
            } else {
                proof {
                    assert forall|x: (u64, u64)| cands@.contains(x) <==> exists|j: int|
                        0 <= j < i + 1 && #[trigger] state.nodes.entries()[j].id == x.1
                            && state.nodes.entries()[j].status == NodeStatus::Active && x.0 == available(
                            state.nodes.entries()[j].capacity,
                            pending_total(p, x.1, now),
                        ) && x.0 >= req.size_bytes by {
                        if exists|j: int|
                            0 <= j < i + 1 && #[trigger] state.nodes.entries()[j].id == x.1
                                && state.nodes.entries()[j].status == NodeStatus::Active && x.0
                                == available(
                                state.nodes.entries()[j].capacity,
                                pending_total(p, x.1, now),
                            ) && x.0 >= req.size_bytes {
                            let j = choose|j: int|
                                0 <= j < i + 1 && #[trigger] state.nodes.entries()[j].id == x.1
                                    && state.nodes.entries()[j].status == NodeStatus::Active && x.0
                                    == available(
                                    state.nodes.entries()[j].capacity,
                                    pending_total(p, x.1, now),
                                ) && x.0 >= req.size_bytes;
                            assert(j != i);
                        }
                    }
                }
            }
            i = i + 1;
        }
        proof {
            let s = state@;
            assert forall|x: (u64, u64)| #[trigger] cands@.contains(x) implies e.contains(x.1) && x.0
                == available_on(s, p, now, x.1) by {
                let j = choose|j: int|
                    0 <= j < n && #[trigger] state.nodes.entries()[j].id == x.1
                        && state.nodes.entries()[j].status == NodeStatus::Active && x.0 == available(
                        state.nodes.entries()[j].capacity,
                        pending_total(p, x.1, now),
                    ) && x.0 >= req.size_bytes;
                assert(state.nodes.map()[x.1] == state.nodes.entries()[j]@);
            }
            assert forall|k: u64| e.contains(k) <==> exists|t: int|
                0 <= t < cands@.len() && #[trigger] cands@[t].1 == k by {
                if e.contains(k) {
                    let j = choose|j: int| 0 <= j < n && state.nodes.entries()[j].id == k;
                    assert(state.nodes.map()[k] == state.nodes.entries()[j]@);
                    let x = (available_on(s, p, now, k) as u64, k);
                    assert(cands@.contains(x));
                    let t = choose|t: int| 0 <= t < cands@.len() && cands@[t] == x;
                    assert(cands@[t].1 == k);
                }
                if exists|t: int| 0 <= t < cands@.len() && #[trigger] cands@[t].1 == k {
                    let t = choose|t: int| 0 <= t < cands@.len() && #[trigger] cands@[t].1 == k;
                    assert(cands@.contains(cands@[t]));
                }
            }
            lemma_candidates_card(cands@, e);
        }
        let rf = req.replication_factor as usize;
        if cands.len() < rf {
            return Err(
                SchedulerError { needed: req.replication_factor, found: cands.len(), with_pending: true },
            );
        }
        let ids = take_ids(&cands, rf);
        proof {
            let s = state@;
            assert forall|a: int| 0 <= a < cands@.len() implies e.contains(#[trigger] cands@[a].1)
                && cands@[a].0 == available_on(s, p, now, cands@[a].1) by {
                assert(cands@.contains(cands@[a]));
            }
            assert forall|x: u64, i: int|
                #![trigger e.contains(x), ids@[i]]
                e.contains(x) && 0 <= i < ids@.len() implies ids@.contains(x) || ranks_before(
                    s,
                    p,
                    now,
                    ids@[i],
                    x,
                ) by {
                let t = choose|t: int| 0 <= t < cands@.len() && #[trigger] cands@[t].1 == x;
                if t < rf {
                    assert(ids@[t] == x);
                } else {
                    assert(pair_before(cands@[i], cands@[t]));
                    assert(e.contains(cands@[t].1));
                    assert(e.contains(cands@[i].1));
                }
            }
            assert forall|a: int, b: int| 0 <= a < b < ids@.len() implies ranks_before(
                s,
                p,
                now,
                ids@[a],
                ids@[b],
            ) by {
                assert(pair_before(cands@[a], cands@[b]));
                assert(e.contains(cands@[a].1));
                assert(e.contains(cands@[b].1));
            }
            assert forall|a: int| 0 <= a < ids@.len() implies e.contains(#[trigger] ids@[a]) by {
                assert(cands@[a].1 == ids@[a]);
                assert(e.contains(cands@[a].1));
            }
        }
        Ok(ids)
    }

    /// Picks the nodes for a new volume, setting aside the capacity held
    /// by allocations in flight at the current time (see
    /// `select_nodes_with_pending_at`).
    pub fn select_nodes_with_pending(
        state: &ClusterState,
        req: &PlacementRequirements,
        pending: &PendingAllocations,
    ) -> (r: Result<Vec<u64>, SchedulerError>)
        ensures
            exists|now: u64| #[trigger] placement_with_pending(state@, pending.view(), now, req.size_bytes, req.replication_factor, r),
    {
        let now = crate::pending::current_millis();
        Scheduler::select_nodes_with_pending_at(state, req, pending, now)
    }
}

/// The encoded command that creates volume `vol_id` of `size` bytes with
/// `replicas` copies on the nodes the scheduler picks from `state`, ready
/// to be proposed; the scheduler's error when too few nodes qualify, or
/// none does.
pub fn create_volume_proposal(state: &ClusterState, vol_id: &str, size: u64, replicas: u32) -> (r:
    Result<Vec<u8>, SchedulerError>)
    ensures
        eligible_ids(state@, size).finite(),
        match r {
            Ok(bytes) => eligible_ids(state@, size).len() >= replicas && eligible_ids(state@, size).len()
                > 0 && exists|ids: Seq<u64>|
                lowest_ids(eligible_ids(state@, size), replicas as nat, ids) && bytes@
                    == #[trigger] command_bytes(create_volume_view(vol_id@, size, replicas, ids, None)),
            Err(e) => (eligible_ids(state@, size).len() < replicas || eligible_ids(state@, size).len()
                == 0) && e == SchedulerError {
                needed: replicas,
                found: eligible_ids(state@, size).len() as usize,
                with_pending: false,
            },
        },
{
    let req = PlacementRequirements {
        size_bytes: size,
        replication_factor: replicas,
        required_tags: HashMap::new(),
    };
    match Scheduler::select_nodes(state, &req) {
        Err(e) => Err(e),
        Ok(ids) => {
            let ghost chosen = ids@;
            let bytes = build_create_volume_cmd(vol_id, size, replicas, ids);
            proof {
                assert(lowest_ids(eligible_ids(state@, size), replicas as nat, chosen));
            }
            Ok(bytes)
        },
    }
}

} // verus!
