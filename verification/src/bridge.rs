//! The decisions of the federation bridge: which zones a capsule's policy
//! names, which of them get a replication job, and the tally of a round.
//! Whether a capsule is already synced to a zone, whether a job was new to
//! the queue, and whether a transfer went through are found out by the
//! caller and handed in.

use vstd::prelude::*;
use crate::zones::{find_zone, trim, trimmed, zone_views, ZoneDirectory, ZoneView};
use crate::foundry::uuid_string;
use crate::reconcile::VolumeId;

verus! {

/// What a round of the bridge did: the zones it looked at and those it
/// queued or replicated to.
#[derive(Clone, Copy, Debug, PartialEq, Eq, Structural)]
pub struct FederationResult {
    pub zones_attempted: usize,
    pub zones_succeeded: usize,
}

impl Default for FederationResult {
    fn default() -> (r: Self)
        ensures
            r.zones_attempted == 0,
            r.zones_succeeded == 0,
    {
        FederationResult { zones_attempted: 0, zones_succeeded: 0 }
    }
}

pub open spec fn string_views(s: Seq<String>) -> Seq<Seq<char>> {
    s.map_values(|x: String| x@)
}

/// The zones a policy names: each entry without leading and trailing white
/// space, empty ones left out, in order.
pub open spec fn target_names(raw: Seq<Seq<char>>) -> Seq<Seq<char>>
    decreases raw.len(),
{
    if raw.len() == 0 {
        Seq::empty()
    } else {
        let rest = target_names(raw.drop_last());
        let t = trim(raw.last());
        if t.len() > 0 {
            rest.push(t)
        } else {
            rest
        }
    }
}

/// Whether the directory knows the zone `name`.
pub open spec fn zone_known(zones: Seq<ZoneView>, name: Seq<char>) -> bool {
    trim(name).len() > 0 && find_zone(zones, trim(name)) is Some
}

/// The targets that get a job: those not yet synced whose zone is known,
/// in order.
pub open spec fn job_targets(targets: Seq<Seq<char>>, synced: Seq<bool>, zones: Seq<ZoneView>) -> Seq<
    Seq<char>,
>
    decreases targets.len(),
{
    if targets.len() == 0 {
        Seq::empty()
    } else {
        let n = targets.len() - 1;
        let rest = job_targets(targets.drop_last(), synced.take(n), zones);
        if !synced[n] && zone_known(zones, targets[n]) {
            rest.push(targets[n])
        } else {
            rest
        }
    }
}

/// How many of the flags are set.
pub open spec fn count_true(s: Seq<bool>) -> nat
    decreases s.len(),
{
    if s.len() == 0 {
        0
    } else {
        count_true(s.drop_last()) + if s.last() { 1nat } else { 0nat }
    }
}

proof fn lemma_count_true_bound(s: Seq<bool>)
    ensures
        count_true(s) <= s.len(),
    decreases s.len(),
{
    if s.len() > 0 {
        lemma_count_true_bound(s.drop_last());
    }
}

/// The zones a capsule's federation policy names, trimmed, without the
/// empty entries.
pub fn federation_targets(raw: &Vec<String>) -> (r: Vec<String>)
    ensures
        string_views(r@) == target_names(string_views(raw@)),
{
    let mut r: Vec<String> = Vec::new();
    let mut i: usize = 0;
    while i < raw.len()
        invariant
            i <= raw@.len(),
            string_views(r@) == target_names(string_views(raw@.take(i as int))),
        decreases raw@.len() - i,
    {
        let t = trimmed(raw[i].as_str());
        proof {
            assert(string_views(raw@.take(i + 1)).drop_last() =~= string_views(raw@.take(i as int)));
            assert(string_views(raw@.take(i + 1)).last() == raw@[i as int]@);
        }
        if !t.as_str().is_empty() {
            r.push(t);
            proof {
                assert(string_views(r@) =~= target_names(string_views(raw@.take(i as int))).push(
                    trim(raw@[i as int]@),
                ));
            }
        }
        i = i + 1;
    }
    proof {
        assert(raw@.take(i as int) =~= raw@);
    }
    r
}

/// The targets to queue a job for: of `targets`, those whose `synced` flag
/// is clear and whose zone the directory knows, in order.
pub fn targets_to_enqueue(targets: &Vec<String>, synced: &Vec<bool>, zones: &ZoneDirectory) -> (r:
    Vec<String>)
    requires
        synced@.len() == targets@.len(),
    ensures
        string_views(r@) == job_targets(string_views(targets@), synced@, zone_views(zones.zones@)),
{
    let mut r: Vec<String> = Vec::new();
    let mut i: usize = 0;
    while i < targets.len()
        invariant
            synced@.len() == targets@.len(),
            i <= targets@.len(),
            string_views(r@) == job_targets(
                string_views(targets@.take(i as int)),
                synced@.take(i as int),
                zone_views(zones.zones@),
            ),
        decreases targets@.len() - i,
    {
        let known = zones.get(targets[i].as_str()).is_some();
        proof {
            let tv = string_views(targets@.take(i + 1));
            assert(tv.drop_last() =~= string_views(targets@.take(i as int)));
            assert(synced@.take(i + 1).take(i as int) =~= synced@.take(i as int));
            assert(tv[i as int] == targets@[i as int]@);
            assert(synced@.take(i + 1)[i as int] == synced@[i as int]);
        }
        if !synced[i] && known {
            r.push(targets[i].clone());
            proof {
                assert(string_views(r@) =~= job_targets(
                    string_views(targets@.take(i as int)),
                    synced@.take(i as int),
                    zone_views(zones.zones@),
                ).push(targets@[i as int]@));
            }
        }
        i = i + 1;
    }
    proof {
        assert(targets@.take(i as int) =~= targets@);
        assert(synced@.take(i as int) =~= synced@);
    }
    r
}

/// The tally of a round: every target or job looked at was attempted;
/// those whose flag is set succeeded.
pub fn tally(attempted: usize, succeeded: &Vec<bool>) -> (r: FederationResult)
    requires
        succeeded@.len() <= attempted,
    ensures
        r.zones_attempted == attempted,
        r.zones_succeeded == count_true(succeeded@),
{
    let mut n: usize = 0;
    let mut i: usize = 0;
    while i < succeeded.len()
        invariant
            i <= succeeded@.len(),
            succeeded@.len() <= attempted,
            n == count_true(succeeded@.take(i as int)),
        decreases succeeded@.len() - i,
    {
        proof {
            assert(succeeded@.take(i + 1).drop_last() =~= succeeded@.take(i as int));
            lemma_count_true_bound(succeeded@.take(i as int));
        }
        if succeeded[i] {
            n = n + 1;
        }
        i = i + 1;
    }
    proof {
        assert(succeeded@.take(i as int) =~= succeeded@);
    }
    FederationResult { zones_attempted: attempted, zones_succeeded: n }
}

/// The key under which the replication queue and the sync state file
/// capsule `capsule_id` for zone `zone`: the capsule's UUID, '/', the zone.
pub open spec fn sync_key_text(capsule_id: u128, zone: Seq<char>) -> Seq<char> {
    uuid_string(capsule_id) + seq!['/'] + zone
}

pub fn sync_key(capsule_id: u128, zone: &String) -> (r: String)
    ensures
        r@ == sync_key_text(capsule_id, zone@),
{
    let mut k = VolumeId(capsule_id).to_text();
    k.append("/");
    k.append(zone.as_str());
    proof {
        reveal_strlit("/");
        assert(k@ =~= sync_key_text(capsule_id, zone@));
    }
    k
}

} // verus!
