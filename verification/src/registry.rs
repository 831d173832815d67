//! The global registry: a deterministic state machine over cluster topology
//! (nodes, volumes, replica placement), driven by committed log entries.

use crate::command::{
    encode_command, Command, CommandView, CreateVolume, DeleteVolume, MoveReplica,
    Payload, PayloadView, RegisterNode, command_bytes, opt_string_view,
};
use crate::pending::{PendingAllocations, PendingView, except_volume};
use crate::proto::{decode_command, decoded_command};
use vstd::prelude::*;

verus! {

/// Health of a node as the registry records it.
#[derive(Clone, Copy, Debug, PartialEq, Eq, Structural)]
pub enum NodeStatus {
    Active,
    Draining,
    Dead,
}

#[derive(Clone, Debug)]
pub struct NodeMetadata {
    pub id: u64,
    pub address: String,
    pub capacity: u64,
    pub status: NodeStatus,
}

pub struct NodeView {
    pub id: u64,
    pub address: Seq<char>,
    pub capacity: u64,
    pub status: NodeStatus,
}

impl View for NodeMetadata {
    type V = NodeView;

    open spec fn view(&self) -> NodeView {
        NodeView { id: self.id, address: self.address@, capacity: self.capacity, status: self.status }
    }
}

impl NodeMetadata {
    pub fn copy(&self) -> (r: Self)
        ensures
            r == *self,
    {
        NodeMetadata {
            id: self.id,
            address: self.address.clone(),
            capacity: self.capacity,
            status: self.status,
        }
    }
}

#[derive(Clone, Debug)]
pub struct VolumeMetadata {
    pub id: String,
    pub size: u64,
    /// The replication chain: primary first, then the replicas.
    pub replicas: Vec<u64>,
    /// Snapshot that the volume is hydrated from, if any.
    pub source_capsule_id: Option<String>,
}

pub struct VolumeView {
    pub id: Seq<char>,
    pub size: u64,
    pub replicas: Seq<u64>,
    pub source_capsule_id: Option<Seq<char>>,
}

impl View for VolumeMetadata {
    type V = VolumeView;

    open spec fn view(&self) -> VolumeView {
        VolumeView {
            id: self.id@,
            size: self.size,
            replicas: self.replicas@,
            source_capsule_id: opt_string_view(self.source_capsule_id),
        }
    }
}

pub fn copy_u64s(v: &Vec<u64>) -> (r: Vec<u64>)
    ensures
        r@ == v@,
{
    let mut r: Vec<u64> = Vec::new();
    let mut i: usize = 0;
    while i < v.len()
        invariant
            i <= v@.len(),
            r@ == v@.subrange(0, i as int),
        decreases v@.len() - i,
    {
        proof {
            assert(v@.subrange(0, i + 1) =~= v@.subrange(0, i as int).push(v@[i as int]));
        }
        r.push(v[i]);
        i = i + 1;
    }
    proof {
        assert(v@.subrange(0, i as int) =~= v@);
    }
    r
}

pub fn copy_opt_string(o: &Option<String>) -> (r: Option<String>)
    ensures
        r == *o,
{
    match o {
        Some(s) => Some(s.clone()),
        None => None,
    }
}

impl VolumeMetadata {
    pub fn copy(&self) -> (r: Self)
        ensures
            r@ == self@,
    {
        VolumeMetadata {
            id: self.id.clone(),
            size: self.size,
            replicas: copy_u64s(&self.replicas),
            source_capsule_id: copy_opt_string(&self.source_capsule_id),
        }
    }
}

// ---------------------------------------------------------------------------
// Node table
// ---------------------------------------------------------------------------

/// Nodes keyed by their id.
pub struct NodeTable {
    entries: Vec<NodeMetadata>,
}

pub open spec fn distinct_node_ids(s: Seq<NodeMetadata>) -> bool {
    forall|i: int, j: int| 0 <= i < s.len() && 0 <= j < s.len() && i != j ==> s[i].id != s[j].id
}

impl NodeTable {
    #[verifier::type_invariant]
    spec fn wf(self) -> bool {
        distinct_node_ids(self.entries@)
    }

    /// The entries, each node once.
    pub closed spec fn entries(self) -> Seq<NodeMetadata> {
        self.entries@
    }

    /// The table as a map from node id to node.
    pub open spec fn map(self) -> Map<u64, NodeView> {
        Map::new(
            |k: u64| exists|i: int| 0 <= i < self.entries().len() && self.entries()[i].id == k,
            |k: u64|
                self.entries()[choose|i: int|
                    0 <= i < self.entries().len() && self.entries()[i].id == k]@,
        )
    }

    pub proof fn lemma_entries(self)
        requires
            distinct_node_ids(self.entries()),
        ensures
            forall|i: int|
                0 <= i < self.entries().len() ==> #[trigger] self.map().contains_key(
                    self.entries()[i].id,
                ) && self.map()[self.entries()[i].id] == self.entries()[i]@,
            forall|k: u64|
                #[trigger] self.map().contains_key(k) ==> exists|i: int|
                    0 <= i < self.entries().len() && self.entries()[i].id == k,
            self.map().dom().finite(),
            self.map().dom().len() == self.entries().len(),
    {
        let s = self.entries();
        assert forall|i: int| 0 <= i < s.len() implies #[trigger] self.map().contains_key(s[i].id)
            && self.map()[s[i].id] == s[i]@ by {
            let j = choose|j: int| 0 <= j < s.len() && s[j].id == s[i].id;
        }
        let ids = s.map_values(|n: NodeMetadata| n.id);
        assert(self.map().dom() =~= ids.to_set()) by {
            assert forall|k: u64| self.map().dom().contains(k) implies ids.to_set().contains(k) by {
                let i = choose|i: int| 0 <= i < s.len() && s[i].id == k;
                assert(ids[i] == k);
            }
            assert forall|k: u64| ids.to_set().contains(k) implies self.map().dom().contains(k) by {
                let i = choose|i: int| 0 <= i < ids.len() && ids[i] == k;
                assert(s[i].id == k);
            }
        }
        assert(ids.no_duplicates()) by {
            assert forall|i: int, j: int| 0 <= i < ids.len() && 0 <= j < ids.len() && i != j
                implies ids[i] != ids[j] by {}
        }
        ids.unique_seq_to_set();
    }

    proof fn lemma_update(a: Self, b: Self, idx: int, x: NodeMetadata)
        requires
            distinct_node_ids(a.entries()),
            distinct_node_ids(b.entries()),
            0 <= idx < a.entries().len(),
            a.entries()[idx].id == x.id,
            b.entries() == a.entries().update(idx, x),
        ensures
            b.map() == a.map().insert(x.id, x@),
    {
        a.lemma_entries();
        b.lemma_entries();
        assert forall|y: u64| #[trigger] b.map().contains_key(y) <==> a.map().insert(x.id, x@).contains_key(y) by {
            if b.map().contains_key(y) {
                let i = choose|i: int| 0 <= i < b.entries().len() && b.entries()[i].id == y;
                if i != idx {
                    assert(a.entries()[i] == b.entries()[i]);
                }
            }
            if a.map().contains_key(y) {
                let i = choose|i: int| 0 <= i < a.entries().len() && a.entries()[i].id == y;
                if i != idx {
                    assert(a.entries()[i] == b.entries()[i]);
                } else {
                    assert(b.entries()[idx] == x);
                }
            }
            if y == x.id {
                assert(b.entries()[idx] == x);
            }
        }
        assert forall|y: u64| #[trigger] b.map().contains_key(y) implies b.map()[y] == a.map().insert(x.id, x@)[y] by {
            if y == x.id {
                assert(b.entries()[idx] == x);
            } else {
                let i = choose|i: int| 0 <= i < b.entries().len() && b.entries()[i].id == y;
                assert(i != idx);
                assert(a.entries()[i] == b.entries()[i]);
            }
        }
        assert(b.map() =~= a.map().insert(x.id, x@));
    }

    proof fn lemma_push(a: Self, b: Self, x: NodeMetadata)
        requires
            distinct_node_ids(a.entries()),
            distinct_node_ids(b.entries()),
            !a.map().contains_key(x.id),
            b.entries() == a.entries().push(x),
        ensures
            b.map() == a.map().insert(x.id, x@),
    {
        a.lemma_entries();
        b.lemma_entries();
        let n = a.entries().len() as int;
        assert forall|y: u64| #[trigger] b.map().contains_key(y) <==> a.map().insert(x.id, x@).contains_key(y) by {
            if b.map().contains_key(y) {
                let i = choose|i: int| 0 <= i < b.entries().len() && b.entries()[i].id == y;
                if i != n {
                    assert(a.entries()[i] == b.entries()[i]);
                }
            }
            if a.map().contains_key(y) {
                let i = choose|i: int| 0 <= i < a.entries().len() && a.entries()[i].id == y;
                assert(a.entries()[i] == b.entries()[i]);
            }
            if y == x.id {
                assert(b.entries()[n] == x);
            }
        }
        assert forall|y: u64| #[trigger] b.map().contains_key(y) implies b.map()[y] == a.map().insert(x.id, x@)[y] by {
            if y == x.id {
                assert(b.entries()[n] == x);
            } else {
                let i = choose|i: int| 0 <= i < b.entries().len() && b.entries()[i].id == y;
                assert(i != n);
                assert(a.entries()[i] == b.entries()[i]);
            }
        }
        assert(b.map() =~= a.map().insert(x.id, x@));
    }

    pub fn new() -> (t: Self)
        ensures
            t.map() == Map::<u64, NodeView>::empty(),
            t.entries().len() == 0,
    {
        let t = NodeTable { entries: Vec::new() };
        assert(t.map() =~= Map::<u64, NodeView>::empty());
        t
    }

    fn find(&self, k: u64) -> (r: Option<usize>)
        ensures
            match r {
                Some(i) => i < self.entries().len() && self.entries()[i as int].id == k,
                None => !self.map().contains_key(k),
            },
    {
        let mut i: usize = 0;
        while i < self.entries.len()
            invariant
                i <= self.entries@.len(),
                forall|j: int| 0 <= j < i ==> self.entries@[j].id != k,
            decreases self.entries@.len() - i,
        {
            if self.entries[i].id == k {
                return Some(i);
            }
            i = i + 1;
        }
        None
    }

    /// Number of nodes.
    pub fn len(&self) -> (n: usize)
        ensures
            n == self.map().len(),
    {
        proof {
            use_type_invariant(self);
            self.lemma_entries();
        }
        self.entries.len()
    }

    pub fn is_empty(&self) -> (b: bool)
        ensures
            b == (self.map().len() == 0),
    {
        proof {
            use_type_invariant(self);
            self.lemma_entries();
        }
        self.entries.len() == 0
    }

    pub fn contains_key(&self, k: &u64) -> (b: bool)
        ensures
            b == self.map().contains_key(*k),
    {
        self.find(*k).is_some()
    }

    pub fn get(&self, k: &u64) -> (r: Option<&NodeMetadata>)
        ensures
            match r {
                Some(n) => self.map().contains_key(*k) && self.map()[*k] == n@,
                None => !self.map().contains_key(*k),
            },
    {
        proof {
            use_type_invariant(self);
            self.lemma_entries();
        }
        match self.find(*k) {
            Some(i) => Some(&self.entries[i]),
            None => None,
        }
    }

    /// The node at position `i` of the table.
    pub fn at(&self, i: usize) -> (r: &NodeMetadata)
        requires
            i < self.entries().len(),
        ensures
            *r == self.entries()[i as int],
    {
        &self.entries[i]
    }

    /// Number of entries (the same as `len`), with what the table keeps:
    /// each node once, under its own id.
    pub fn count(&self) -> (n: usize)
        ensures
            n == self.entries().len(),
            distinct_node_ids(self.entries()),
            forall|i: int|
                0 <= i < self.entries().len() ==> #[trigger] self.map().contains_key(
                    self.entries()[i].id,
                ) && self.map()[self.entries()[i].id] == self.entries()[i]@,
            forall|k: u64|
                #[trigger] self.map().contains_key(k) ==> exists|i: int|
                    0 <= i < self.entries().len() && self.entries()[i].id == k,
            self.map().dom().finite(),
            self.map().dom().len() == self.entries().len(),
    {
        proof {
            use_type_invariant(self);
            self.lemma_entries();
        }
        self.entries.len()
    }

    /// Inserts the node under its own id, replacing and returning the node
    /// that held that id before.
    pub fn insert(&mut self, k: u64, v: NodeMetadata) -> (r: Option<NodeMetadata>)
        requires
            v.id == k,
        ensures
            final(self).map() == old(self).map().insert(k, v@),
            match r {
                Some(o) => old(self).map().contains_key(k) && old(self).map()[k] == o@,
                None => !old(self).map().contains_key(k),
            },
    {
        proof {
            use_type_invariant(&*self);
            self.lemma_entries();
        }
        let ghost old_t: NodeTable = *self;
        let found = self.find(k);
        let mut entries: Vec<NodeMetadata> = Vec::new();
        std::mem::swap(&mut entries, &mut self.entries);
        match found {
            Some(i) => {
                let mut v = v;
                let ghost x = v;
                entries.set_and_swap(i, &mut v);
                self.entries = entries;
                proof {
                    use_type_invariant(&*self);
                    NodeTable::lemma_update(old_t, *self, i as int, x);
                }
                Some(v)
            },
            None => {
                let ghost x = v;
                entries.push(v);
                self.entries = entries;
                proof {
                    use_type_invariant(&*self);
                    NodeTable::lemma_push(old_t, *self, x);
                }
                None
            },
        }
    }
}

// ---------------------------------------------------------------------------
// Volume table
// ---------------------------------------------------------------------------

/// Volumes keyed by their id.
pub struct VolumeTable {
    entries: Vec<VolumeMetadata>,
}

pub open spec fn distinct_volume_ids(s: Seq<VolumeMetadata>) -> bool {
    forall|i: int, j: int| 0 <= i < s.len() && 0 <= j < s.len() && i != j ==> s[i].id@ != s[j].id@
}

impl VolumeTable {
    #[verifier::type_invariant]
    spec fn wf(self) -> bool {
        distinct_volume_ids(self.entries@)
    }

    /// The entries, each volume once.
    pub closed spec fn entries(self) -> Seq<VolumeMetadata> {
        self.entries@
    }

    /// The table as a map from volume id to volume.
    pub open spec fn map(self) -> Map<Seq<char>, VolumeView> {
        Map::new(
            |k: Seq<char>| exists|i: int| 0 <= i < self.entries().len() && self.entries()[i].id@ == k,
            |k: Seq<char>|
                self.entries()[choose|i: int|
                    0 <= i < self.entries().len() && self.entries()[i].id@ == k]@,
        )
    }

    pub proof fn lemma_entries(self)
        requires
            distinct_volume_ids(self.entries()),
        ensures
            forall|i: int|
                0 <= i < self.entries().len() ==> #[trigger] self.map().contains_key(
                    self.entries()[i].id@,
                ) && self.map()[self.entries()[i].id@] == self.entries()[i]@,
            forall|k: Seq<char>|
                #[trigger] self.map().contains_key(k) ==> exists|i: int|
                    0 <= i < self.entries().len() && self.entries()[i].id@ == k,
            self.map().dom().finite(),
            self.map().dom().len() == self.entries().len(),
    {
        let s = self.entries();
        assert forall|i: int| 0 <= i < s.len() implies #[trigger] self.map().contains_key(s[i].id@)
            && self.map()[s[i].id@] == s[i]@ by {
            let j = choose|j: int| 0 <= j < s.len() && s[j].id@ == s[i].id@;
        }
        let ids = s.map_values(|n: VolumeMetadata| n.id@);
        assert(self.map().dom() =~= ids.to_set()) by {
            assert forall|k: Seq<char>| self.map().dom().contains(k) implies ids.to_set().contains(k) by {
                let i = choose|i: int| 0 <= i < s.len() && s[i].id@ == k;
                assert(ids[i] == k);
            }
            assert forall|k: Seq<char>| ids.to_set().contains(k) implies self.map().dom().contains(k) by {
                let i = choose|i: int| 0 <= i < ids.len() && ids[i] == k;
                assert(s[i].id@ == k);
            }
        }
        assert(ids.no_duplicates()) by {
            assert forall|i: int, j: int| 0 <= i < ids.len() && 0 <= j < ids.len() && i != j
                implies ids[i] != ids[j] by {}
        }
        ids.unique_seq_to_set();
    }

    proof fn lemma_update(a: Self, b: Self, idx: int, x: VolumeMetadata)
        requires
            distinct_volume_ids(a.entries()),
            distinct_volume_ids(b.entries()),
            0 <= idx < a.entries().len(),
            a.entries()[idx].id@ == x.id@,
            b.entries() == a.entries().update(idx, x),
        ensures
            b.map() == a.map().insert(x.id@, x@),
    {
        a.lemma_entries();
        b.lemma_entries();
        assert forall|y: Seq<char>| #[trigger] b.map().contains_key(y) <==> a.map().insert(x.id@, x@).contains_key(y) by {
            if b.map().contains_key(y) {
                let i = choose|i: int| 0 <= i < b.entries().len() && b.entries()[i].id@ == y;
                if i != idx {
                    assert(a.entries()[i] == b.entries()[i]);
                }
            }
            if a.map().contains_key(y) {
                let i = choose|i: int| 0 <= i < a.entries().len() && a.entries()[i].id@ == y;
                if i != idx {
                    assert(a.entries()[i] == b.entries()[i]);
                } else {
                    assert(b.entries()[idx] == x);
                }
            }
            if y == x.id@ {
                assert(b.entries()[idx] == x);
            }
        }
        assert forall|y: Seq<char>| #[trigger] b.map().contains_key(y) implies b.map()[y] == a.map().insert(x.id@, x@)[y] by {
            if y == x.id@ {
                assert(b.entries()[idx] == x);
            } else {
                let i = choose|i: int| 0 <= i < b.entries().len() && b.entries()[i].id@ == y;
                assert(i != idx);
                assert(a.entries()[i] == b.entries()[i]);
            }
        }
        assert(b.map() =~= a.map().insert(x.id@, x@));
    }

    proof fn lemma_push(a: Self, b: Self, x: VolumeMetadata)
        requires
            distinct_volume_ids(a.entries()),
            distinct_volume_ids(b.entries()),
            !a.map().contains_key(x.id@),
            b.entries() == a.entries().push(x),
        ensures
            b.map() == a.map().insert(x.id@, x@),
    {
        a.lemma_entries();
        b.lemma_entries();
        let n = a.entries().len() as int;
        assert forall|y: Seq<char>| #[trigger] b.map().contains_key(y) <==> a.map().insert(x.id@, x@).contains_key(y) by {
            if b.map().contains_key(y) {
                let i = choose|i: int| 0 <= i < b.entries().len() && b.entries()[i].id@ == y;
                if i != n {
                    assert(a.entries()[i] == b.entries()[i]);
                }
            }
            if a.map().contains_key(y) {
                let i = choose|i: int| 0 <= i < a.entries().len() && a.entries()[i].id@ == y;
                assert(a.entries()[i] == b.entries()[i]);
            }
            if y == x.id@ {
                assert(b.entries()[n] == x);
            }
        }
        assert forall|y: Seq<char>| #[trigger] b.map().contains_key(y) implies b.map()[y] == a.map().insert(x.id@, x@)[y] by {
            if y == x.id@ {
                assert(b.entries()[n] == x);
            } else {
                let i = choose|i: int| 0 <= i < b.entries().len() && b.entries()[i].id@ == y;
                assert(i != n);
                assert(a.entries()[i] == b.entries()[i]);
            }
        }
        assert(b.map() =~= a.map().insert(x.id@, x@));
    }

    proof fn lemma_remove(a: Self, b: Self, idx: int)
        requires
            distinct_volume_ids(a.entries()),
            distinct_volume_ids(b.entries()),
            0 <= idx < a.entries().len(),
            b.entries() == a.entries().remove(idx),
        ensures
            b.map() == a.map().remove(a.entries()[idx].id@),
    {
        a.lemma_entries();
        b.lemma_entries();
        let k = a.entries()[idx].id@;
        assert forall|y: Seq<char>| #[trigger] b.map().contains_key(y) <==> a.map().remove(k).contains_key(y) by {
            if b.map().contains_key(y) {
                let i = choose|i: int| 0 <= i < b.entries().len() && b.entries()[i].id@ == y;
                if i < idx {
                    assert(a.entries()[i] == b.entries()[i]);
                } else {
                    assert(a.entries()[i + 1] == b.entries()[i]);
                }
            }
            if a.map().contains_key(y) && y != k {
                let i = choose|i: int| 0 <= i < a.entries().len() && a.entries()[i].id@ == y;
                if i < idx {
                    assert(a.entries()[i] == b.entries()[i]);
                } else {
                    assert(i != idx);
                    assert(a.entries()[i] == b.entries()[i - 1]);
                }
            }
        }
        assert forall|y: Seq<char>| #[trigger] b.map().contains_key(y) implies b.map()[y] == a.map().remove(k)[y] by {
            let i = choose|i: int| 0 <= i < b.entries().len() && b.entries()[i].id@ == y;
            if i < idx {
                assert(a.entries()[i] == b.entries()[i]);
            } else {
                assert(a.entries()[i + 1] == b.entries()[i]);
            }
        }
        assert(b.map() =~= a.map().remove(k));
    }

    pub fn new() -> (t: Self)
        ensures
            t.map() == Map::<Seq<char>, VolumeView>::empty(),
            t.entries().len() == 0,
    {
        let t = VolumeTable { entries: Vec::new() };
        assert(t.map() =~= Map::<Seq<char>, VolumeView>::empty());
        t
    }

    fn find(&self, k: &String) -> (r: Option<usize>)
        ensures
            match r {
                Some(i) => i < self.entries().len() && self.entries()[i as int].id@ == k@,
                None => !self.map().contains_key(k@),
            },
    {
        let mut i: usize = 0;
        while i < self.entries.len()
            invariant
                i <= self.entries@.len(),
                forall|j: int| 0 <= j < i ==> self.entries@[j].id@ != k@,
            decreases self.entries@.len() - i,
        {
            if self.entries[i].id == *k {
                return Some(i);
            }
            i = i + 1;
        }
        None
    }

    pub fn len(&self) -> (n: usize)
        ensures
            n == self.map().len(),
    {
        proof {
            use_type_invariant(self);
            self.lemma_entries();
        }
        self.entries.len()
    }

    pub fn is_empty(&self) -> (b: bool)
        ensures
            b == (self.map().len() == 0),
    {
        proof {
            use_type_invariant(self);
            self.lemma_entries();
        }
        self.entries.len() == 0
    }

    pub fn contains_key(&self, k: &str) -> (b: bool)
        ensures
            b == self.map().contains_key(k@),
    {
        let key = k.to_owned();
        self.find(&key).is_some()
    }

    pub fn get(&self, k: &str) -> (r: Option<&VolumeMetadata>)
        ensures
            match r {
                Some(v) => self.map().contains_key(k@) && self.map()[k@] == v@,
                None => !self.map().contains_key(k@),
            },
    {
        proof {
            use_type_invariant(self);
            self.lemma_entries();
        }
        let key = k.to_owned();
        match self.find(&key) {
            Some(i) => Some(&self.entries[i]),
            None => None,
        }
    }

    /// The volume at position `i` of the table.
    pub fn at(&self, i: usize) -> (r: &VolumeMetadata)
        requires
            i < self.entries().len(),
        ensures
            *r == self.entries()[i as int],
    {
        &self.entries[i]
    }

    /// Number of entries, with what the table keeps: each volume once,
    /// under its own id.
    pub fn count(&self) -> (n: usize)
        ensures
            n == self.entries().len(),
            distinct_volume_ids(self.entries()),
            forall|i: int|
                0 <= i < self.entries().len() ==> #[trigger] self.map().contains_key(
                    self.entries()[i].id@,
                ) && self.map()[self.entries()[i].id@] == self.entries()[i]@,
            forall|k: Seq<char>|
                #[trigger] self.map().contains_key(k) ==> exists|i: int|
                    0 <= i < self.entries().len() && self.entries()[i].id@ == k,
            self.map().dom().finite(),
            self.map().dom().len() == self.entries().len(),
    {
        proof {
            use_type_invariant(self);
            self.lemma_entries();
        }
        self.entries.len()
    }

    /// Inserts the volume under its own id, replacing and returning the
    /// volume that held that id before.
    pub fn insert(&mut self, k: String, v: VolumeMetadata) -> (r: Option<VolumeMetadata>)
        requires
            v.id@ == k@,
        ensures
            final(self).map() == old(self).map().insert(k@, v@),
            match r {
                Some(o) => old(self).map().contains_key(k@) && old(self).map()[k@] == o@,
                None => !old(self).map().contains_key(k@),
            },
    {
        proof {
            use_type_invariant(&*self);
            self.lemma_entries();
        }
        let ghost old_t: VolumeTable = *self;
        let found = self.find(&k);
        let mut entries: Vec<VolumeMetadata> = Vec::new();
        std::mem::swap(&mut entries, &mut self.entries);
        match found {
            Some(i) => {
                let mut v = v;
                let ghost x = v;
                entries.set_and_swap(i, &mut v);
                self.entries = entries;
                proof {
                    use_type_invariant(&*self);
                    VolumeTable::lemma_update(old_t, *self, i as int, x);
                }
                Some(v)
            },
            None => {
                let ghost x = v;
                entries.push(v);
                self.entries = entries;
                proof {
                    use_type_invariant(&*self);
                    VolumeTable::lemma_push(old_t, *self, x);
                }
                None
            },
        }
    }

    /// Removes and returns the volume with id `k`.
    pub fn remove(&mut self, k: &str) -> (r: Option<VolumeMetadata>)
        ensures
            final(self).map() == old(self).map().remove(k@),
            match r {
                Some(o) => old(self).map().contains_key(k@) && old(self).map()[k@] == o@,
                None => !old(self).map().contains_key(k@),
            },
    {
        proof {
            use_type_invariant(&*self);
            self.lemma_entries();
        }
        let ghost old_t: VolumeTable = *self;
        let key = k.to_owned();
        match self.find(&key) {
            Some(i) => {
                let mut entries: Vec<VolumeMetadata> = Vec::new();
                std::mem::swap(&mut entries, &mut self.entries);
                let o = entries.remove(i);
                proof {
                    assert forall|a: int, b: int|
                        0 <= a < entries@.len() && 0 <= b < entries@.len() && a != b
                        implies entries@[a].id@ != entries@[b].id@ by {
                        let oa = if a < i { a } else { a + 1 };
                        let ob = if b < i { b } else { b + 1 };
                        assert(entries@[a] == old_t.entries()[oa]);
                        assert(entries@[b] == old_t.entries()[ob]);
                    }
                }
                self.entries = entries;
                proof {
                    use_type_invariant(&*self);
                    VolumeTable::lemma_remove(old_t, *self, i as int);
                }
                Some(o)
            },
            None => {
                assert(self.map() =~= old(self).map().remove(k@));
                None
            },
        }
    }

    /// Overwrites the replica at position `pos` of the volume at entry `i`.
    fn set_replica(&mut self, i: usize, pos: usize, node: u64)
        requires
            i < old(self).entries().len(),
            pos < old(self).entries()[i as int].replicas@.len(),
        ensures
            final(self).map() == old(self).map().insert(
                old(self).entries()[i as int].id@,
                VolumeView {
                    replicas: old(self).entries()[i as int].replicas@.update(pos as int, node),
                    ..old(self).entries()[i as int]@
                },
            ),
    {
        proof {
            use_type_invariant(&*self);
        }
        let ghost old_t: VolumeTable = *self;
        let mut v = self.entries[i].copy();
        let mut replicas = copy_u64s(&v.replicas);
        replicas.set(pos, node);
        v.replicas = replicas;
        let ghost x = v;
        let mut entries: Vec<VolumeMetadata> = Vec::new();
        std::mem::swap(&mut entries, &mut self.entries);
        entries.set(i, v);
        self.entries = entries;
        proof {
            use_type_invariant(&*self);
            VolumeTable::lemma_update(old_t, *self, i as int, x);
            assert(x@ == VolumeView {
                replicas: old_t.entries()[i as int].replicas@.update(pos as int, node),
                ..old_t.entries()[i as int]@
            });
        }
    }
}

impl NodeTable {
    /// A copy of the table.
    pub fn copy(&self) -> (r: Self)
        ensures
            r.map() == self.map(),
            r.entries() == self.entries(),
    {
        proof {
            use_type_invariant(self);
        }
        let mut entries: Vec<NodeMetadata> = Vec::new();
        let mut i: usize = 0;
        while i < self.entries.len()
            invariant
                i <= self.entries@.len(),
                entries@ == self.entries@.subrange(0, i as int),
            decreases self.entries@.len() - i,
        {
            proof {
                assert(self.entries@.subrange(0, i + 1) =~= self.entries@.subrange(0, i as int).push(
                    self.entries@[i as int],
                ));
            }
            entries.push(self.entries[i].copy());
            i = i + 1;
        }
        proof {
            assert(entries@ =~= self.entries@);
        }
        NodeTable { entries }
    }
}

impl VolumeTable {
    /// A copy of the table.
    pub fn copy(&self) -> (r: Self)
        ensures
            r.map() == self.map(),
    {
        proof {
            use_type_invariant(self);
            self.lemma_entries();
        }
        let mut entries: Vec<VolumeMetadata> = Vec::new();
        let mut i: usize = 0;
        while i < self.entries.len()
            invariant
                i <= self.entries@.len(),
                entries@.len() == i,
                forall|j: int| 0 <= j < i ==> #[trigger] entries@[j]@ == self.entries@[j]@,
            decreases self.entries@.len() - i,
        {
            entries.push(self.entries[i].copy());
            i = i + 1;
        }
        proof {
            assert(distinct_volume_ids(entries@)) by {
                assert forall|a: int, b: int|
                    0 <= a < entries@.len() && 0 <= b < entries@.len() && a != b
                    implies entries@[a].id@ != entries@[b].id@ by {
                    assert(entries@[a]@ == self.entries()[a]@);
                    assert(entries@[b]@ == self.entries()[b]@);
                }
            }
        }
        let r = VolumeTable { entries };
        proof {
            r.lemma_entries();
            assert forall|k: Seq<char>| #[trigger] r.map().contains_key(k) <==> self.map().contains_key(k) by {
                if r.map().contains_key(k) {
                    let i = choose|i: int| 0 <= i < r.entries().len() && r.entries()[i].id@ == k;
                    assert(r.entries()[i]@ == self.entries()[i]@);
                }
                if self.map().contains_key(k) {
                    let i = choose|i: int| 0 <= i < self.entries().len() && self.entries()[i].id@ == k;
                    assert(r.entries()[i]@ == self.entries()[i]@);
                }
            }
            assert forall|k: Seq<char>| #[trigger] r.map().contains_key(k) implies r.map()[k] == self.map()[k] by {
                let i = choose|i: int| 0 <= i < r.entries().len() && r.entries()[i].id@ == k;
                assert(r.entries()[i]@ == self.entries()[i]@);
            }
            assert(r.map() =~= self.map());
        }
        r
    }
}

// ---------------------------------------------------------------------------
// Cluster state
// ---------------------------------------------------------------------------

/// The topology of the whole cluster.
pub struct ClusterState {
    pub nodes: NodeTable,
    pub volumes: VolumeTable,
    pub last_applied_index: u64,
}

pub struct ClusterView {
    pub nodes: Map<u64, NodeView>,
    pub volumes: Map<Seq<char>, VolumeView>,
    pub last_applied_index: u64,
}

impl View for ClusterState {
    type V = ClusterView;

    open spec fn view(&self) -> ClusterView {
        ClusterView {
            nodes: self.nodes.map(),
            volumes: self.volumes.map(),
            last_applied_index: self.last_applied_index,
        }
    }
}

pub open spec fn empty_cluster() -> ClusterView {
    ClusterView {
        nodes: Map::empty(),
        volumes: Map::empty(),
        last_applied_index: 0,
    }
}

impl Default for ClusterState {
    fn default() -> (s: Self)
        ensures
            s@ == empty_cluster(),
    {
        ClusterState { nodes: NodeTable::new(), volumes: VolumeTable::new(), last_applied_index: 0 }
    }
}

impl ClusterState {
    /// A copy of the state.
    pub fn copy(&self) -> (r: Self)
        ensures
            r@ == self@,
    {
        ClusterState {
            nodes: self.nodes.copy(),
            volumes: self.volumes.copy(),
            last_applied_index: self.last_applied_index,
        }
    }
}

// ---------------------------------------------------------------------------
// The state machine
// ---------------------------------------------------------------------------

/// Position of the first `x` in `s` (or `s.len()` when there is none).
pub open spec fn first_index(s: Seq<u64>, x: u64) -> int
    decreases s.len(),
{
    if s.len() == 0 {
        0
    } else if s[0] == x {
        0
    } else {
        1 + first_index(s.drop_first(), x)
    }
}

proof fn lemma_first_index(s: Seq<u64>, x: u64, i: int)
    requires
        0 <= i < s.len(),
        s[i] == x,
        forall|j: int| 0 <= j < i ==> s[j] != x,
    ensures
        first_index(s, x) == i,
    decreases i,
{
    if i > 0 {
        assert forall|j: int| 0 <= j < i - 1 implies s.drop_first()[j] != x by {
            assert(s.drop_first()[j] == s[j + 1]);
        }
        lemma_first_index(s.drop_first(), x, i - 1);
    }
}

/// The first position of `x` in `v`.
pub fn first_position(v: &Vec<u64>, x: u64) -> (r: Option<usize>)
    ensures
        match r {
            Some(p) => p < v@.len() && v@[p as int] == x && forall|j: int| 0 <= j < p ==> v@[j] != x,
            None => !v@.contains(x),
        },
{
    let mut i: usize = 0;
    while i < v.len()
        invariant
            i <= v@.len(),
            forall|j: int| 0 <= j < i ==> v@[j] != x,
        decreases v@.len() - i,
    {
        if v[i] == x {
            return Some(i);
        }
        i = i + 1;
    }
    None
}

/// A volume with its replica on `from` moved to `to` (the first one, if
/// the chain names `from` more than once).
pub open spec fn moved(v: VolumeView, from: u64, to: u64) -> VolumeView {
    VolumeView { replicas: v.replicas.update(first_index(v.replicas, from), to), ..v }
}

/// The topology after a command, without the bookkeeping of the index.
pub open spec fn apply_payload(s: ClusterView, p: Option<PayloadView>) -> ClusterView {
    match p {
        Some(PayloadView::RegisterNode { node_id, address, capacity_bytes }) => ClusterView {
            nodes: s.nodes.insert(
                node_id,
                NodeView { id: node_id, address, capacity: capacity_bytes, status: NodeStatus::Active },
            ),
            ..s
        },
        Some(PayloadView::CreateVolume { volume_id, size_bytes, replicas, source_capsule_id, .. }) => ClusterView {
            volumes: s.volumes.insert(
                volume_id,
                VolumeView { id: volume_id, size: size_bytes, replicas, source_capsule_id },
            ),
            ..s
        },
        Some(PayloadView::DeleteVolume { volume_id }) => ClusterView {
            volumes: s.volumes.remove(volume_id),
            ..s
        },
        Some(PayloadView::MoveReplica { volume_id, from_node, to_node }) => if s.volumes.contains_key(
            volume_id,
        ) && s.volumes[volume_id].replicas.contains(from_node) {
            ClusterView {
                volumes: s.volumes.insert(volume_id, moved(s.volumes[volume_id], from_node, to_node)),
                ..s
            }
        } else {
            s
        },
        None => s,
    }
}

/// The topology after applying the command at log index `index`: a
/// command at an index already applied changes nothing.
pub open spec fn apply_spec(s: ClusterView, index: u64, c: CommandView) -> ClusterView {
    if index <= s.last_applied_index {
        s
    } else {
        ClusterView { last_applied_index: index, ..apply_payload(s, c.payload) }
    }
}

/// The pending allocations after the command at `index`: a committed
/// volume creation releases its allocation.
pub open spec fn apply_pending_spec(
    p: Seq<PendingView>,
    s: ClusterView,
    index: u64,
    c: CommandView,
) -> Seq<PendingView> {
    if index <= s.last_applied_index {
        p
    } else {
        match c.payload {
            Some(PayloadView::CreateVolume { volume_id, .. }) => except_volume(p, volume_id),
            _ => p,
        }
    }
}

/// Why a log entry could not be applied.
#[derive(Clone, Copy, Debug, PartialEq, Eq, Structural)]
pub enum ApplyError {
    /// The bytes are not the encoding of any command.
    Decode,
}

impl ApplyError {
    /// The error as text.
    pub fn message(&self) -> (s: String)
        ensures
            s@ == "Failed to decode command"@,
    {
        String::from_str("Failed to decode command")
    }
}

/// The replicated state machine, and the allocations that the leader has
/// proposed but not yet seen committed.
pub struct Registry {
    state: ClusterState,
    pending_allocations: PendingAllocations,
}

impl Registry {
    pub closed spec fn state(self) -> ClusterView {
        self.state@
    }

    pub closed spec fn pending(self) -> Seq<PendingView> {
        self.pending_allocations.view()
    }

    pub fn new() -> (r: Self)
        ensures
            r.state() == empty_cluster(),
            r.pending() == Seq::<PendingView>::empty(),
    {
        Registry { state: ClusterState::default(), pending_allocations: PendingAllocations::new() }
    }

    /// A copy of the current state, for readers.
    pub fn get_state(&self) -> (s: ClusterState)
        ensures
            s@ == self.state(),
    {
        self.state.copy()
    }

    /// The allocations in flight.
    pub fn pending_allocations(&self) -> (p: &PendingAllocations)
        ensures
            p.view() == self.pending(),
    {
        &self.pending_allocations
    }

    /// Registers an allocation in flight (see `PendingAllocations::register`).
    pub fn register_pending(&mut self, volume_id: String, size_bytes: u64, node_ids: Vec<u64>)
        ensures
            final(self).state() == old(self).state(),
            exists|now: u64|
                final(self).pending() == crate::pending::live_except(
                    old(self).pending(),
                    Some(volume_id@),
                    now,
                ).push(
                    PendingView {
                        volume_id: volume_id@,
                        size_bytes,
                        node_ids: node_ids@,
                        created_at: now,
                    },
                ),
    {
        self.pending_allocations.register(volume_id, size_bytes, node_ids);
    }

    /// Applies a committed, decoded command at log index `index`.
    pub fn apply_command(&mut self, index: u64, cmd: Command)
        ensures
            final(self).state() == apply_spec(old(self).state(), index, cmd@),
            final(self).pending() == apply_pending_spec(
                old(self).pending(),
                old(self).state(),
                index,
                cmd@,
            ),
    {
        if index <= self.state.last_applied_index {
            return;
        }
        match cmd.payload {
            Some(Payload::RegisterNode(req)) => {
                let id = req.node_id;
                self.state.nodes.insert(
                    id,
                    NodeMetadata {
                        id,
                        address: req.address,
                        capacity: req.capacity_bytes,
                        status: NodeStatus::Active,
                    },
                );
            },
            Some(Payload::CreateVolume(req)) => {
                self.pending_allocations.release(req.volume_id.as_str());
                let key = req.volume_id.clone();
                self.state.volumes.insert(
                    key,
                    VolumeMetadata {
                        id: req.volume_id,
                        size: req.size_bytes,
                        replicas: req.replicas,
                        source_capsule_id: req.source_capsule_id,
                    },
                );
            },
            Some(Payload::DeleteVolume(req)) => {
                self.state.volumes.remove(req.volume_id.as_str());
            },
            Some(Payload::MoveReplica(req)) => {
                self.move_replica(&req.volume_id, req.from_node, req.to_node);
            },
            None => {},
        }
        self.state.last_applied_index = index;
    }

    fn move_replica(&mut self, volume_id: &String, from: u64, to: u64)
        ensures
            final(self).pending() == old(self).pending(),
            final(self).state@ == apply_payload(
                old(self).state(),
                Some(PayloadView::MoveReplica { volume_id: volume_id@, from_node: from, to_node: to }),
            ),
    {
        proof {
            use_type_invariant(&self.state.volumes);
            self.state.volumes.lemma_entries();
        }
        let i = match self.state.volumes.find(volume_id) {
            Some(i) => i,
            None => return,
        };
        let vol = self.state.volumes.at(i);
        let pos = match first_position(&vol.replicas, from) {
            Some(p) => p,
            None => return,
        };
        proof {
            lemma_first_index(vol.replicas@, from, pos as int);
        }
        self.state.volumes.set_replica(i, pos, to);
    }

    /// Applies a committed log entry at index `index`.
    ///
    /// The entry is read as a general protocol-buffer decoder reads it
    /// (see `decoded_command`). Fails, changing nothing, exactly when it
    /// does not decode to a command; an entry at an index already applied
    /// changes nothing else.
    pub fn apply(&mut self, index: u64, data: &[u8]) -> (r: Result<(), ApplyError>)
        ensures
            r is Err <==> decoded_command(data@) is None,
            r is Err ==> r == Err::<(), ApplyError>(ApplyError::Decode) && final(self).state() == old(
                self,
            ).state() && final(self).pending() == old(self).pending(),
            decoded_command(data@) matches Some(c) ==> final(self).state() == apply_spec(
                old(self).state(),
                index,
                c,
            ) && final(self).pending() == apply_pending_spec(
                old(self).pending(),
                old(self).state(),
                index,
                c,
            ),
    {
        match decode_command(data) {
            Some(cmd) => {
                self.apply_command(index, cmd);
                Ok(())
            },
            None => Err(ApplyError::Decode),
        }
    }

    /// Replaces the whole state, as when a snapshot is installed.
    pub fn restore_state(&mut self, state: ClusterState)
        ensures
            final(self).state() == state@,
            final(self).pending() == old(self).pending(),
    {
        self.state = state;
    }
}

/// The registry's state and pending allocations, together.
pub type RegistryView = (ClusterView, Seq<PendingView>);

/// What one committed entry at `index` with payload `data` does: an entry
/// without data (one the consensus layer writes for itself) or one that
/// does not decode to a command changes nothing; any other applies its
/// command.
pub open spec fn entry_step(st: RegistryView, index: u64, data: Seq<u8>) -> RegistryView {
    match decoded_command(data) {
        Some(c) => if data.len() > 0 {
            (apply_spec(st.0, index, c), apply_pending_spec(st.1, st.0, index, c))
        } else {
            st
        },
        None => st,
    }
}

/// The committed entries applied one after another, in order.
pub open spec fn entries_applied(st: RegistryView, entries: Seq<(u64, Seq<u8>)>) -> RegistryView
    decreases entries.len(),
{
    if entries.len() == 0 {
        st
    } else {
        let e = entries.last();
        entry_step(entries_applied(st, entries.drop_last()), e.0, e.1)
    }
}

/// The indexes of the entries with data that do not decode, in order.
pub open spec fn refused_indexes(entries: Seq<(u64, Seq<u8>)>) -> Seq<u64>
    decreases entries.len(),
{
    if entries.len() == 0 {
        Seq::empty()
    } else {
        let e = entries.last();
        let rest = refused_indexes(entries.drop_last());
        if e.1.len() > 0 && decoded_command(e.1) is None {
            rest.push(e.0)
        } else {
            rest
        }
    }
}

pub open spec fn entry_views(entries: Seq<(u64, Vec<u8>)>) -> Seq<(u64, Seq<u8>)> {
    entries.map_values(|e: (u64, Vec<u8>)| (e.0, e.1@))
}

impl Registry {
    /// Applies a batch of committed entries, given as index and data, in
    /// order: entries without data are passed over, the others go through
    /// `apply`. Gives the indexes of the entries that could not be decoded
    /// (which change nothing and do not stop the batch).
    pub fn apply_committed(&mut self, entries: &Vec<(u64, Vec<u8>)>) -> (refused: Vec<u64>)
        ensures
            (final(self).state(), final(self).pending()) == entries_applied(
                (old(self).state(), old(self).pending()),
                entry_views(entries@),
            ),
            refused@ == refused_indexes(entry_views(entries@)),
    {
        let ghost start: RegistryView = (self.state(), self.pending());
        let ghost ev = entry_views(entries@);
        let mut refused: Vec<u64> = Vec::new();
        let mut i: usize = 0;
        while i < entries.len()
            invariant
                ev == entry_views(entries@),
                i <= entries@.len(),
                (self.state(), self.pending()) == entries_applied(start, ev.take(i as int)),
                refused@ == refused_indexes(ev.take(i as int)),
            decreases entries@.len() - i,
        {
            let index = entries[i].0;
            let data = &entries[i].1;
            let ghost before: RegistryView = (self.state(), self.pending());
            proof {
                assert(ev.take(i + 1).drop_last() =~= ev.take(i as int));
                assert(ev.take(i + 1).last() == (index, data@));
            }
            if data.len() > 0 {
                let r = self.apply(index, data.as_slice());
                match r {
                    Ok(()) => {},
                    Err(_) => {
                        refused.push(index);
                    },
                }
            }
            i = i + 1;
        }
        proof {
            assert(ev.take(i as int) =~= ev);
        }
        refused
    }
}

impl Default for Registry {
    fn default() -> (r: Self)
        ensures
            r.state() == empty_cluster(),
            r.pending() == Seq::<PendingView>::empty(),
    {
        Registry::new()
    }
}

// ---------------------------------------------------------------------------
// Building commands
// ---------------------------------------------------------------------------

pub open spec fn create_volume_view(
    id: Seq<char>,
    size: u64,
    replication_factor: u32,
    replicas: Seq<u64>,
    source_capsule_id: Option<Seq<char>>,
) -> CommandView {
    CommandView {
        payload: Some(
            PayloadView::CreateVolume {
                volume_id: id,
                size_bytes: size,
                replication_factor,
                replicas,
                source_capsule_id,
            },
        ),
    }
}

/// Encodes a volume creation on the replicas that the leader's scheduler
/// chose.
pub fn build_create_volume_cmd(id: &str, size: u64, replication_factor: u32, replicas: Vec<u64>) -> (r: Vec<u8>)
    ensures
        r@ == command_bytes(create_volume_view(id@, size, replication_factor, replicas@, None)),
        decoded_command(r@) == Some(create_volume_view(id@, size, replication_factor, replicas@, None)),
{
    build_create_volume_cmd_with_source(id, size, replication_factor, replicas, None)
}

/// Encodes a volume creation that hydrates from a snapshot.
pub fn build_create_volume_cmd_with_source(
    id: &str,
    size: u64,
    replication_factor: u32,
    replicas: Vec<u64>,
    source_capsule_id: Option<String>,
) -> (r: Vec<u8>)
    ensures
        r@ == command_bytes(
            create_volume_view(id@, size, replication_factor, replicas@, opt_string_view(source_capsule_id)),
        ),
        decoded_command(r@) == Some(
            create_volume_view(id@, size, replication_factor, replicas@, opt_string_view(source_capsule_id)),
        ),
{
    let cmd = Command {
        payload: Some(
            Payload::CreateVolume(
                CreateVolume {
                    volume_id: id.to_owned(),
                    size_bytes: size,
                    replication_factor,
                    replicas,
                    source_capsule_id,
                },
            ),
        ),
    };
    let r = encode_command(&cmd);
    let n = r.len();
    proof {
        assert(n as int == r@.len());
        crate::proto::lemma_canonical_decodes(cmd@);
    }
    r
}

/// Encodes the registration of a node.
pub fn build_register_node_cmd(id: u64, address: &str, capacity: u64) -> (r: Vec<u8>)
    ensures
        r@ == command_bytes(
            CommandView {
                payload: Some(
                    PayloadView::RegisterNode { node_id: id, address: address@, capacity_bytes: capacity },
                ),
            },
        ),
{
    let cmd = Command {
        payload: Some(
            Payload::RegisterNode(
                RegisterNode { node_id: id, address: address.to_owned(), capacity_bytes: capacity },
            ),
        ),
    };
    encode_command(&cmd)
}

/// Encodes the deletion of a volume.
pub fn build_delete_volume_cmd(id: &str) -> (r: Vec<u8>)
    ensures
        r@ == command_bytes(
            CommandView { payload: Some(PayloadView::DeleteVolume { volume_id: id@ }) },
        ),
{
    let cmd = Command {
        payload: Some(Payload::DeleteVolume(DeleteVolume { volume_id: id.to_owned() })),
    };
    encode_command(&cmd)
}

/// Encodes the move of a replica.
pub fn build_move_replica_cmd(volume_id: &str, from_node: u64, to_node: u64) -> (r: Vec<u8>)
    ensures
        r@ == command_bytes(
            CommandView {
                payload: Some(
                    PayloadView::MoveReplica { volume_id: volume_id@, from_node, to_node },
                ),
            },
        ),
{
    let cmd = Command {
        payload: Some(
            Payload::MoveReplica(
                MoveReplica { volume_id: volume_id.to_owned(), from_node, to_node },
            ),
        ),
    };
    encode_command(&cmd)
}

// ---------------------------------------------------------------------------
// Laws of the state machine
// ---------------------------------------------------------------------------

/// Applying a log entry again changes nothing: once the command at an
/// index is applied, applying it (or any command) at that index or an
/// earlier one is a no-op.
pub proof fn lemma_apply_idempotent(s: ClusterView, index: u64, c: CommandView, d: CommandView, j: u64)
    requires
        j <= index,
    ensures
        apply_spec(apply_spec(s, index, c), j, d) == apply_spec(s, index, c),
{
}

/// Applying a command moves the applied index forward to the command's
/// index, and never back.
pub proof fn lemma_apply_index(s: ClusterView, index: u64, c: CommandView)
    ensures
        apply_spec(s, index, c).last_applied_index == if index > s.last_applied_index {
            index
        } else {
            s.last_applied_index
        },
{
}

/// A created volume is there, as created; once deleted it is gone.
pub proof fn lemma_create_then_delete(
    s: ClusterView,
    i: u64,
    j: u64,
    volume_id: Seq<char>,
    size_bytes: u64,
    replication_factor: u32,
    replicas: Seq<u64>,
    source_capsule_id: Option<Seq<char>>,
)
    requires
        s.last_applied_index < i < j,
    ensures
        ({
            let created = apply_spec(
                s,
                i,
                CommandView {
                    payload: Some(
                        PayloadView::CreateVolume {
                            volume_id,
                            size_bytes,
                            replication_factor,
                            replicas,
                            source_capsule_id,
                        },
                    ),
                },
            );
            let deleted = apply_spec(
                created,
                j,
                CommandView { payload: Some(PayloadView::DeleteVolume { volume_id }) },
            );
            &&& created.volumes.contains_key(volume_id)
            &&& created.volumes[volume_id] == (VolumeView {
                id: volume_id,
                size: size_bytes,
                replicas,
                source_capsule_id,
            })
            &&& created.nodes == s.nodes
            &&& !deleted.volumes.contains_key(volume_id)
            &&& deleted.nodes == s.nodes
        }),
{
}

/// The volume a command is about, if it is about one.
pub open spec fn named_volume(p: Option<PayloadView>) -> Option<Seq<char>> {
    match p {
        Some(PayloadView::CreateVolume { volume_id, .. }) => Some(volume_id),
        Some(PayloadView::DeleteVolume { volume_id }) => Some(volume_id),
        Some(PayloadView::MoveReplica { volume_id, .. }) => Some(volume_id),
        _ => None,
    }
}

/// A command leaves alone every volume it does not name: applied at a new
/// index, each other volume is present afterwards exactly when it was
/// before, and as it was.
pub proof fn lemma_other_volumes_kept(s: ClusterView, i: u64, c: CommandView, k: Seq<char>)
    requires
        s.last_applied_index < i,
        named_volume(c.payload) != Some(k),
    ensures
        apply_spec(s, i, c).volumes.contains_key(k) == s.volumes.contains_key(k),
        s.volumes.contains_key(k) ==> apply_spec(s, i, c).volumes[k] == s.volumes[k],
        apply_spec(s, i, c).last_applied_index == i,
{
}

/// Deleting a volume takes out that volume and no other: applied at a new
/// index, the volume is gone, every other volume is present exactly when
/// it was and as it was, and the nodes are unchanged.
pub proof fn lemma_delete_volume(s: ClusterView, i: u64, volume_id: Seq<char>)
    requires
        s.last_applied_index < i,
    ensures
        ({
            let t = apply_spec(s, i, CommandView { payload: Some(PayloadView::DeleteVolume { volume_id }) });
            &&& !t.volumes.contains_key(volume_id)
            &&& t.nodes == s.nodes
            &&& t.last_applied_index == i
            &&& forall|k: Seq<char>|
                k != volume_id ==> (#[trigger] t.volumes.contains_key(k) == s.volumes.contains_key(k) && (
                s.volumes.contains_key(k) ==> t.volumes[k] == s.volumes[k]))
        }),
{
}

/// Moving a replica takes the volume off the source node and puts it on
/// the target, keeping the chain's length, when the source holds it and
/// the target does not.
pub proof fn lemma_move_replica(s: ClusterView, i: u64, volume_id: Seq<char>, from_node: u64, to_node: u64)
    requires
        s.last_applied_index < i,
        s.volumes.contains_key(volume_id),
        s.volumes[volume_id].replicas.contains(from_node),
        s.volumes[volume_id].replicas.no_duplicates(),
        !s.volumes[volume_id].replicas.contains(to_node),
    ensures
        ({
            let t = apply_spec(
                s,
                i,
                CommandView { payload: Some(PayloadView::MoveReplica { volume_id, from_node, to_node }) },
            );
            let r = t.volumes[volume_id].replicas;
            &&& t.volumes.contains_key(volume_id)
            &&& r.len() == s.volumes[volume_id].replicas.len()
            &&& !r.contains(from_node)
            &&& r.contains(to_node)
            &&& forall|n: u64| n != from_node && n != to_node ==> (r.contains(n)
                <==> s.volumes[volume_id].replicas.contains(n))
        }),
{
    let r0 = s.volumes[volume_id].replicas;
    let k = choose|k: int| 0 <= k < r0.len() && r0[k] == from_node;
    lemma_first_index_of_member(r0, from_node, k);
    let p = first_index(r0, from_node);
    let r = r0.update(p, to_node);
    assert(r[p] == to_node);
    assert forall|q: int| 0 <= q < r.len() implies r[q] != from_node by {
        if q != p {
            assert(r[q] == r0[q]);
            assert(r0[q] != r0[p]);
        }
    }
    assert forall|n: u64| n != from_node && n != to_node implies (r.contains(n) <==> r0.contains(n)) by {
        if r.contains(n) {
            let q = choose|q: int| 0 <= q < r.len() && r[q] == n;
            assert(q != p);
            assert(r0[q] == n);
        }
        if r0.contains(n) {
            let q = choose|q: int| 0 <= q < r0.len() && r0[q] == n;
            assert(q != p);
            assert(r[q] == n);
        }
    }
}

proof fn lemma_first_index_of_member(s: Seq<u64>, x: u64, k: int)
    requires
        0 <= k < s.len(),
        s[k] == x,
    ensures
        0 <= first_index(s, x) <= k,
        s[first_index(s, x)] == x,
    decreases k,
{
    if s[0] != x {
        lemma_first_index_of_member(s.drop_first(), x, k - 1);
        assert(s[first_index(s, x)] == s.drop_first()[first_index(s.drop_first(), x)]);
    }
}

} // verus!
