//! The directory of consensus peers: node id to network endpoint.

use std::collections::HashMap;
use vstd::prelude::*;

verus! {

broadcast use vstd::std_specs::hash::group_hash_axioms;

/// Maps consensus node ids to their endpoints (for example
/// `"http://127.0.0.1:4422"`), so that messages can be routed by id.
/// A registry is a plain value owned by its holder; several tasks that
/// must see one registry share it behind a lock of their own.
pub struct PeerRegistry {
    peers: HashMap<u64, String>,
}

/// The endpoints of a configuration list: a later entry for the same id
/// wins.
pub open spec fn config_map(peers: Seq<(u64, Seq<char>)>) -> Map<u64, Seq<char>>
    decreases peers.len(),
{
    if peers.len() == 0 {
        Map::empty()
    } else {
        config_map(peers.drop_last()).insert(peers.last().0, peers.last().1)
    }
}

pub open spec fn string_values(m: Map<u64, String>) -> Map<u64, Seq<char>> {
    Map::new(|k: u64| m.contains_key(k), |k: u64| m[k]@)
}

impl PeerRegistry {
    /// The registered endpoints.
    pub closed spec fn view(self) -> Map<u64, Seq<char>> {
        string_values(self.peers@)
    }

    pub fn new() -> (r: Self)
        ensures
            r.view() == Map::<u64, Seq<char>>::empty(),
    {
        let r = PeerRegistry { peers: HashMap::new() };
        assert(r.view() =~= Map::<u64, Seq<char>>::empty());
        r
    }

    /// Registers (or replaces) the endpoint of `node_id`.
    pub fn add_peer(&mut self, node_id: u64, addr: String)
        ensures
            final(self).view() == old(self).view().insert(node_id, addr@),
    {
        self.peers.insert(node_id, addr);
        assert(self.view() =~= old(self).view().insert(node_id, addr@));
    }

    /// The endpoint of `node_id`, if registered.
    pub fn get_peer(&self, node_id: u64) -> (r: Option<String>)
        ensures
            match r {
                Some(a) => self.view().contains_key(node_id) && self.view()[node_id] == a@,
                None => !self.view().contains_key(node_id),
            },
    {
        match self.peers.get(&node_id) {
            Some(a) => Some(a.clone()),
            None => None,
        }
    }

    /// A registry holding the given `(node id, endpoint)` pairs; a later
    /// pair for the same id wins.
    pub fn from_config(peers: &[(u64, &str)]) -> (r: Self)
        ensures
            r.view() == config_map(peers@.map_values(|p: (u64, &str)| (p.0, p.1@))),
    {
        let ghost cfg = peers@.map_values(|p: (u64, &str)| (p.0, p.1@));
        let mut r = PeerRegistry::new();
        let mut i: usize = 0;
        while i < peers.len()
            invariant
                i <= peers@.len(),
                cfg == peers@.map_values(|p: (u64, &str)| (p.0, p.1@)),
                r.view() == config_map(cfg.subrange(0, i as int)),
            decreases peers@.len() - i,
        {
            let (id, addr) = peers[i];
            proof {
                assert(cfg.subrange(0, i + 1).drop_last() =~= cfg.subrange(0, i as int));
                assert(cfg.subrange(0, i + 1).last() == (id, addr@));
            }
            r.add_peer(id, addr.to_owned());
            i = i + 1;
        }
        proof {
            assert(cfg.subrange(0, i as int) =~= cfg);
        }
        r
    }

    /// Forgets the endpoint of `node_id`.
    pub fn remove_peer(&mut self, node_id: u64)
        ensures
            final(self).view() == old(self).view().remove(node_id),
    {
        self.peers.remove(&node_id);
        assert(self.view() =~= old(self).view().remove(node_id));
    }
}

impl Default for PeerRegistry {
    fn default() -> (r: Self)
        ensures
            r.view() == Map::<u64, Seq<char>>::empty(),
    {
        PeerRegistry::new()
    }
}

/// Position of the last configuration pair for node `k`.
pub open spec fn last_with_id(peers: Seq<(u64, Seq<char>)>, k: u64) -> Option<int>
    decreases peers.len(),
{
    if peers.len() == 0 {
        None
    } else if peers.last().0 == k {
        Some(peers.len() - 1)
    } else {
        last_with_id(peers.drop_last(), k)
    }
}

/// A configured node's endpoint is the one in the last pair naming it, and
/// a node that no pair names has none.
pub proof fn lemma_config_last_wins(peers: Seq<(u64, Seq<char>)>, k: u64)
    ensures
        match last_with_id(peers, k) {
            Some(i) => 0 <= i < peers.len() && peers[i].0 == k && (forall|j: int|
                i < j < peers.len() ==> #[trigger] peers[j].0 != k) && config_map(peers).contains_key(k)
                && config_map(peers)[k] == peers[i].1,
            None => (forall|j: int| 0 <= j < peers.len() ==> #[trigger] peers[j].0 != k)
                && !config_map(peers).contains_key(k),
        },
    decreases peers.len(),
{
    if peers.len() > 0 {
        lemma_config_last_wins(peers.drop_last(), k);
        assert forall|j: int| 0 <= j < peers.len() - 1 implies #[trigger] peers[j] == peers.drop_last()[j] by {}
    }
}

} // verus!
