//! Converging a node's local volumes on the registry: the volumes the
//! registry assigns to the node are created where missing, and local
//! volumes that it no longer assigns to the node are deleted.

use vstd::prelude::*;
use crate::registry::{ClusterState, VolumeMetadata, VolumeView};

verus! {

/// The number a volume id string stands for, as `uuid::Uuid::parse_str`
/// reads it (`None` where it refuses the string).
pub uninterp spec fn uuid_parse(s: Seq<char>) -> Option<u128>;

/// Calls `uuid::Uuid::parse_str`.
///
/// Trusted: the result is `uuid_parse` of the input, the 128-bit value of
/// the UUID, or `None` where the crate refuses the text.
#[verifier::external_body]
pub(crate) fn parse_uuid(s: &str) -> (r: Option<u128>)
    ensures
        r == uuid_parse(s@),
{
    match uuid::Uuid::parse_str(s) {
        Ok(u) => Some(u.as_u128()),
        Err(_) => None,
    }
}

/// The identity of a local volume: a UUID, as a 128-bit number.
#[derive(Clone, Copy, Debug, PartialEq, Eq, Hash, Structural)]
pub struct VolumeId(pub u128);

impl VolumeId {
    /// Reads a volume id from its text.
    pub fn parse(s: &str) -> (r: Option<VolumeId>)
        ensures
            match uuid_parse(s@) {
                Some(v) => r == Some(VolumeId(v)),
                None => r is None,
            },
    {
        match parse_uuid(s) {
            Some(v) => Some(VolumeId(v)),
            None => None,
        }
    }
}

/// Reconciliation runs every five seconds unless told otherwise.
pub const DEFAULT_RECONCILE_INTERVAL_MS: u64 = 5000;

/// What one round of reconciliation must do: the volumes to create, with
/// their sizes, and the volumes to delete.
#[derive(Clone, Debug)]
pub struct ReconcilePlan {
    pub create: Vec<(VolumeId, u64)>,
    pub delete: Vec<VolumeId>,
}

/// Why a round of reconciliation cannot be planned.
#[derive(Clone, Debug)]
pub enum ReconcileError {
    /// A volume assigned to the node has an id that is not a UUID.
    InvalidVolumeId(String),
}

/// The registry assigns `v` to `node` when `node` is in its chain.
pub open spec fn assigned(v: VolumeView, node: u64) -> bool {
    v.replicas.contains(node)
}

/// The volumes to create: in registry order, each volume assigned to the
/// node that is not present locally, with its size.
pub open spec fn creates_of(entries: Seq<VolumeView>, node: u64, actual: Seq<u128>) -> Seq<
    (u128, u64),
>
    decreases entries.len(),
{
    if entries.len() == 0 {
        Seq::empty()
    } else {
        let rest = creates_of(entries.drop_last(), node, actual);
        let v = entries.last();
        if assigned(v, node) && uuid_parse(v.id) is Some && !actual.contains(
            uuid_parse(v.id)->0,
        ) {
            rest.push((uuid_parse(v.id)->0, v.size))
        } else {
            rest
        }
    }
}

/// The ids of the volumes assigned to the node.
pub open spec fn desired_ids(entries: Seq<VolumeView>, node: u64) -> Set<u128> {
    Set::new(
        |x: u128|
            exists|i: int|
                0 <= i < entries.len() && assigned(entries[i], node) && uuid_parse(entries[i].id)
                    == Some(x),
    )
}

/// The local volumes to delete: in local order, each one not assigned to
/// the node, once.
pub open spec fn deletes_of(actual: Seq<u128>, desired: Set<u128>) -> Seq<u128>
    decreases actual.len(),
{
    if actual.len() == 0 {
        Seq::empty()
    } else {
        let rest = deletes_of(actual.drop_last(), desired);
        let a = actual.last();
        if !desired.contains(a) && !rest.contains(a) {
            rest.push(a)
        } else {
            rest
        }
    }
}

/// Some volume assigned to the node has an id that is not a UUID.
pub open spec fn has_invalid_id(entries: Seq<VolumeView>, node: u64) -> bool {
    exists|i: int| 0 <= i < entries.len() && assigned(entries[i], node) && uuid_parse(entries[i].id) is None
}

pub open spec fn entry_views(s: Seq<VolumeMetadata>) -> Seq<VolumeView> {
    s.map_values(|v: VolumeMetadata| v@)
}

pub open spec fn id_values(s: Seq<VolumeId>) -> Seq<u128> {
    s.map_values(|v: VolumeId| v.0)
}

pub open spec fn create_values(s: Seq<(VolumeId, u64)>) -> Seq<(u128, u64)> {
    s.map_values(|c: (VolumeId, u64)| (c.0.0, c.1))
}

/// Drives one node's volumes towards what the registry assigns to it.
pub struct Reconciler {
    node_id: u64,
    interval_ms: u64,
}

fn contains_id(s: &Vec<VolumeId>, x: VolumeId) -> (r: bool)
    ensures
        r == id_values(s@).contains(x.0),
{
    let mut i: usize = 0;
    while i < s.len()
        invariant
            i <= s@.len(),
            forall|j: int| 0 <= j < i ==> s@[j].0 != x.0,
        decreases s@.len() - i,
    {
        if s[i].0 == x.0 {
            proof {
                assert(id_values(s@)[i as int] == x.0);
            }
            return true;
        }
        i = i + 1;
    }
    proof {
        if id_values(s@).contains(x.0) {
            let j = choose|j: int| 0 <= j < id_values(s@).len() && id_values(s@)[j] == x.0;
            assert(s@[j].0 == x.0);
        }
    }
    false
}

fn contains_u64(s: &Vec<u64>, x: u64) -> (r: bool)
    ensures
        r == s@.contains(x),
{
    let mut i: usize = 0;
    while i < s.len()
        invariant
            i <= s@.len(),
            forall|j: int| 0 <= j < i ==> s@[j] != x,
        decreases s@.len() - i,
    {
        if s[i] == x {
            return true;
        }
        i = i + 1;
    }
    false
}

impl Reconciler {
    pub closed spec fn node(self) -> u64 {
        self.node_id
    }

    pub closed spec fn interval(self) -> u64 {
        self.interval_ms
    }

    /// A reconciler for node `node_id`, running every five seconds.
    pub fn new(node_id: u64) -> (r: Self)
        ensures
            r.node() == node_id,
            r.interval() == DEFAULT_RECONCILE_INTERVAL_MS,
    {
        Reconciler { node_id, interval_ms: DEFAULT_RECONCILE_INTERVAL_MS }
    }

    /// The same reconciler, running every `interval_ms` milliseconds.
    pub fn with_interval(self, interval_ms: u64) -> (r: Self)
        ensures
            r.node() == self.node(),
            r.interval() == interval_ms,
    {
        Reconciler { node_id: self.node_id, interval_ms }
    }

    pub fn node_id(&self) -> (r: u64)
        ensures
            r == self.node(),
    {
        self.node_id
    }

    pub fn interval_ms(&self) -> (r: u64)
        ensures
            r == self.interval(),
    {
        self.interval_ms
    }

    /// One round of reconciliation against the registry's `state`, with
    /// `actual` the volumes present locally: creates the assigned volumes
    /// that are missing and deletes the local volumes no longer assigned.
    /// Fails, planning nothing, when an assigned volume's id is not a UUID.
    pub fn plan(&self, state: &ClusterState, actual: &Vec<VolumeId>) -> (r: Result<
        ReconcilePlan,
        ReconcileError,
    >)
        ensures
            ({
                let entries = entry_views(state.volumes.entries());
                match r {
                    Ok(p) => {
                        &&& !has_invalid_id(entries, self.node())
                        &&& create_values(p.create@) == creates_of(
                            entries,
                            self.node(),
                            id_values(actual@),
                        )
                        &&& id_values(p.delete@) == deletes_of(
                            id_values(actual@),
                            desired_ids(entries, self.node()),
                        )
                    },
                    Err(ReconcileError::InvalidVolumeId(id)) => {
                        &&& has_invalid_id(entries, self.node())
                        &&& exists|i: int|
                            0 <= i < entries.len() && assigned(entries[i], self.node())
                                && uuid_parse(entries[i].id) is None && entries[i].id == id@
                    },
                }
            }),
    {
        let n = state.volumes.count();
        let ghost entries = entry_views(state.volumes.entries());
        let ghost act = id_values(actual@);
        let node = self.node_id;
        let mut create: Vec<(VolumeId, u64)> = Vec::new();
        let mut desired: Vec<VolumeId> = Vec::new();
        let mut i: usize = 0;
        proof {
            assert(entries.take(0) =~= Seq::<VolumeView>::empty());
        }
        while i < n
            invariant
                n == entries.len(),
                entries == entry_views(state.volumes.entries()),
                act == id_values(actual@),
                node == self.node(),
                i <= n,
                create_values(create@) == creates_of(entries.take(i as int), node, act),
                forall|x: u128|
                    id_values(desired@).contains(x) <==> exists|j: int|
                        0 <= j < i && assigned(entries[j], node) && uuid_parse(entries[j].id) == Some(
                            x,
                        ),
                forall|j: int|
                    0 <= j < i && #[trigger] assigned(entries[j], node) ==> uuid_parse(
                        entries[j].id,
                    ) is Some,
            decreases n - i,
        {
            let v: &VolumeMetadata = state.volumes.at(i);
            proof {
                assert(entries[i as int] == v@);
                assert(entries.take(i + 1).drop_last() =~= entries.take(i as int));
                assert(entries.take(i + 1).last() == v@);
            }
            if contains_u64(&v.replicas, node) {
                match VolumeId::parse(v.id.as_str()) {
                    Some(id) => {
                        let ghost before_d = desired@;
                        desired.push(id);
                        proof {
                            assert(id_values(desired@) =~= id_values(before_d).push(id.0));
                            assert forall|x: u128|
                                id_values(desired@).contains(x) implies exists|j: int|
                                    0 <= j < i + 1 && assigned(entries[j], node) && uuid_parse(
                                        entries[j].id,
                                    ) == Some(x) by {
                                if x != id.0 {
                                    assert(id_values(before_d).contains(x));
                                }
                            }
                            assert forall|x: u128|
                                (exists|j: int|
                                    0 <= j < i + 1 && assigned(entries[j], node) && uuid_parse(
                                        entries[j].id,
                                    ) == Some(x)) implies id_values(desired@).contains(x) by {
                                let j = choose|j: int|
                                    0 <= j < i + 1 && assigned(entries[j], node) && uuid_parse(
                                        entries[j].id,
                                    ) == Some(x);
                                if j < i {
                                    assert(id_values(before_d).contains(x));
                                    let k = choose|k: int|
                                        0 <= k < id_values(before_d).len() && id_values(
                                            before_d,
                                        )[k] == x;
                                    assert(id_values(desired@)[k] == x);
                                } else {
                                    assert(id_values(desired@)[before_d.len() as int] == x);
                                }
                            }
                        }
                        if !contains_id(actual, id) {
                            let ghost before_c = create@;
                            create.push((id, v.size));
                            proof {
                                assert(create_values(create@) =~= create_values(before_c).push(
                                    (id.0, v.size),
                                ));
                            }
                        }
                    },
                    None => {
                        proof {
                            assert(assigned(entries[i as int], node));
                        }
                        return Err(ReconcileError::InvalidVolumeId(v.id.clone()));
                    },
                }
            } else {
                proof {
                    assert(!assigned(entries[i as int], node));
                }
            }
            i = i + 1;
        }
        proof {
            assert(entries.take(n as int) =~= entries);
            assert(id_values(desired@) =~= id_values(desired@));
            assert forall|x: u128| #[trigger]
                desired_ids(entries, node).contains(x) <==> id_values(desired@).contains(x) by {}
            assert(desired_ids(entries, node) =~= id_values(desired@).to_set());
        }
        let mut delete: Vec<VolumeId> = Vec::new();
        let mut k: usize = 0;
        proof {
            assert(act.take(0) =~= Seq::<u128>::empty());
        }
        while k < actual.len()
            invariant
                k <= actual@.len(),
                act == id_values(actual@),
                id_values(delete@) == deletes_of(act.take(k as int), desired_ids(entries, node)),
                forall|x: u128| #[trigger]
                    desired_ids(entries, node).contains(x) <==> id_values(desired@).contains(x),
            decreases actual@.len() - k,
        {
            let a = actual[k];
            proof {
                assert(act.take(k + 1).drop_last() =~= act.take(k as int));
                assert(act.take(k + 1).last() == a.0);
            }
            if !contains_id(&desired, a) && !contains_id(&delete, a) {
                let ghost before = delete@;
                delete.push(a);
                proof {
                    assert(id_values(delete@) =~= id_values(before).push(a.0));
                }
            }
            k = k + 1;
        }
        proof {
            assert(act.take(actual@.len() as int) =~= act);
            assert(!has_invalid_id(entries, node));
        }
        Ok(ReconcilePlan { create, delete })
    }
}

impl ReconcileError {
    pub fn volume_id(&self) -> (r: &String)
        ensures
            match self {
                ReconcileError::InvalidVolumeId(id) => r == id,
            },
    {
        match self {
            ReconcileError::InvalidVolumeId(id) => id,
        }
    }
}

// ---------------------------------------------------------------------------
// Laws
// ---------------------------------------------------------------------------

proof fn lemma_creates_desired(entries: Seq<VolumeView>, node: u64, actual: Seq<u128>)
    ensures
        forall|i: int|
            0 <= i < creates_of(entries, node, actual).len() ==> desired_ids(entries, node).contains(
                (#[trigger] creates_of(entries, node, actual)[i]).0,
            ) && !actual.contains(creates_of(entries, node, actual)[i].0),
        forall|x: u128|
            desired_ids(entries, node).contains(x) && !actual.contains(x) && !has_invalid_id(
                entries,
                node,
            ) ==> exists|i: int|
                0 <= i < creates_of(entries, node, actual).len() && (#[trigger] creates_of(
                    entries,
                    node,
                    actual,
                )[i]).0 == x,
    decreases entries.len(),
{
    if entries.len() > 0 {
        let t = entries.drop_last();
        lemma_creates_desired(t, node, actual);
        let c = creates_of(entries, node, actual);
        let ct = creates_of(t, node, actual);
        assert forall|x: u128| desired_ids(t, node).contains(x) implies desired_ids(
            entries,
            node,
        ).contains(x) by {
            let j = choose|j: int|
                0 <= j < t.len() && assigned(t[j], node) && uuid_parse(t[j].id) == Some(x);
            assert(entries[j] == t[j]);
        }
        assert forall|i: int| 0 <= i < c.len() implies desired_ids(entries, node).contains(
            (#[trigger] c[i]).0,
        ) && !actual.contains(c[i].0) by {
            if i < ct.len() {
                assert(c[i] == ct[i]);
            } else {
                let l = entries.len() - 1;
                assert(entries[l] == entries.last());
            }
        }
        assert forall|x: u128|
            desired_ids(entries, node).contains(x) && !actual.contains(x) && !has_invalid_id(
                entries,
                node,
            ) implies exists|i: int| 0 <= i < c.len() && (#[trigger] c[i]).0 == x by {
            let j = choose|j: int|
                0 <= j < entries.len() && assigned(entries[j], node) && uuid_parse(entries[j].id)
                    == Some(x);
            if j < t.len() {
                assert(t[j] == entries[j]);
                assert(desired_ids(t, node).contains(x));
                assert(!has_invalid_id(t, node)) by {
                    if has_invalid_id(t, node) {
                        let q = choose|q: int|
                            0 <= q < t.len() && assigned(t[q], node) && uuid_parse(t[q].id) is None;
                        assert(entries[q] == t[q]);
                    }
                }
                let i = choose|i: int| 0 <= i < ct.len() && (#[trigger] ct[i]).0 == x;
                assert(c[i] == ct[i]);
            } else {
                assert(entries.last() == entries[j]);
                assert(c.last().0 == x);
            }
        }
    }
}

proof fn lemma_deletes(actual: Seq<u128>, desired: Set<u128>)
    ensures
        forall|x: u128|
            deletes_of(actual, desired).contains(x) <==> actual.contains(x) && !desired.contains(x),
    decreases actual.len(),
{
    if actual.len() > 0 {
        let t = actual.drop_last();
        lemma_deletes(t, desired);
        assert forall|x: u128|
            deletes_of(actual, desired).contains(x) <==> actual.contains(x) && !desired.contains(
                x,
            ) by {
            let r = deletes_of(t, desired);
            let a = actual.last();
            if deletes_of(actual, desired).contains(x) {
                if !desired.contains(a) && !r.contains(a) {
                    let i = choose|i: int|
                        0 <= i < r.push(a).len() && r.push(a)[i] == x;
                    if i < r.len() {
                        assert(r[i] == x);
                        assert(r.contains(x));
                        assert(t.contains(x));
                        let k = choose|k: int| 0 <= k < t.len() && t[k] == x;
                        assert(actual[k] == t[k]);
                    } else {
                        assert(actual[actual.len() - 1] == x);
                    }
                } else {
                    assert(r.contains(x));
                    assert(t.contains(x));
                    let k = choose|k: int| 0 <= k < t.len() && t[k] == x;
                    assert(actual[k] == t[k]);
                }
            }
            if actual.contains(x) && !desired.contains(x) {
                let k = choose|k: int| 0 <= k < actual.len() && actual[k] == x;
                if k < t.len() {
                    assert(t[k] == x);
                    assert(r.contains(x));
                    let i = choose|i: int| 0 <= i < r.len() && r[i] == x;
                    if !desired.contains(a) && !r.contains(a) {
                        assert(r.push(a)[i] == x);
                    }
                } else {
                    if !r.contains(a) {
                        assert(r.push(a)[r.len() as int] == x);
                    }
                }
            }
        }
    }
}

/// Reconciliation converges: once the planned volumes are created and the
/// planned ones deleted, the node holds exactly the volumes the registry
/// assigns to it.
pub proof fn lemma_plan_converges(entries: Seq<VolumeView>, node: u64, actual: Seq<u128>)
    requires
        !has_invalid_id(entries, node),
    ensures
        ({
            let creates = creates_of(entries, node, actual);
            let deletes = deletes_of(actual, desired_ids(entries, node));
            let after = actual.to_set().union(creates.map_values(|c: (u128, u64)| c.0).to_set()).difference(
                deletes.to_set(),
            );
            after == desired_ids(entries, node)
        }),
{
    let creates = creates_of(entries, node, actual);
    let desired = desired_ids(entries, node);
    let deletes = deletes_of(actual, desired);
    let cids = creates.map_values(|c: (u128, u64)| c.0);
    lemma_creates_desired(entries, node, actual);
    lemma_deletes(actual, desired);
    let after = actual.to_set().union(cids.to_set()).difference(deletes.to_set());
    assert forall|x: u128| after.contains(x) <==> desired.contains(x) by {
        if cids.contains(x) {
            let i = choose|i: int| 0 <= i < cids.len() && cids[i] == x;
            assert(creates[i].0 == x);
        }
        if desired.contains(x) && !actual.contains(x) {
            let i = choose|i: int| 0 <= i < creates.len() && (#[trigger] creates[i]).0 == x;
            assert(cids[i] == x);
        }
    }
    assert(after =~= desired);
}

} // verus!
