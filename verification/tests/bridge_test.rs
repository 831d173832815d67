//! The federation bridge's decisions and tallies.

use spacemesh::bridge::{federation_targets, sync_key, tally, targets_to_enqueue, FederationResult};
use spacemesh::zones::{ZoneConfig, ZoneDirectory};

fn strings(v: &[&str]) -> Vec<String> {
    v.iter().map(|s| s.to_string()).collect()
}

#[test]
fn federation_result_defaults_to_zero() {
    let r = FederationResult::default();
    assert_eq!(r, FederationResult { zones_attempted: 0, zones_succeeded: 0 });
}

#[test]
fn targets_are_trimmed_and_blank_ones_dropped() {
    let raw = strings(&[" eu-west ", "", "   ", "us-east\n", "ap"]);
    assert_eq!(federation_targets(&raw), strings(&["eu-west", "us-east", "ap"]));
}

#[test]
fn jobs_go_to_known_zones_not_yet_synced() {
    let mut zones = ZoneDirectory::default();
    zones.upsert(ZoneConfig {
        name: "EU-West".to_string(),
        endpoint: "http://eu".to_string(),
        secret_key: "k".to_string(),
    });
    zones.upsert(ZoneConfig {
        name: "us-east".to_string(),
        endpoint: "http://us".to_string(),
        secret_key: "k".to_string(),
    });
    let targets = strings(&["eu-west", "us-east", "mars", "US-EAST"]);
    let synced = vec![false, true, false, false];
    assert_eq!(targets_to_enqueue(&targets, &synced, &zones), strings(&["eu-west", "US-EAST"]));
}

#[test]
fn tally_counts_attempts_and_successes() {
    let r = tally(4, &vec![true, false, true]);
    assert_eq!(r, FederationResult { zones_attempted: 4, zones_succeeded: 2 });
    assert_eq!(tally(0, &vec![]), FederationResult::default());
}

#[test]
fn sync_keys_join_the_capsule_uuid_and_the_zone() {
    assert_eq!(
        sync_key(0, &"eu-west".to_string()),
        "00000000-0000-0000-0000-000000000000/eu-west"
    );
    assert_eq!(
        sync_key(0x0123_4567_89ab_cdef_0011_2233_4455_6677, &"z".to_string()),
        "01234567-89ab-cdef-0011-223344556677/z"
    );
}
