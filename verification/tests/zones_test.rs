//! The directory of remote zones and the first message sent to a zone.

use spacemesh::zones::{PeerClientManager, ZoneConfig, ZoneDirectory};

fn zone(name: &str, endpoint: &str) -> ZoneConfig {
    ZoneConfig {
        name: name.to_string(),
        endpoint: endpoint.to_string(),
        secret_key: format!("{}-secret", name),
    }
}

#[test]
fn resolve_trims_and_rejects_blank() {
    assert_eq!(ZoneDirectory::resolve("  eu-west \n"), Some("eu-west".to_string()));
    assert_eq!(ZoneDirectory::resolve("   "), None);
    assert_eq!(ZoneDirectory::resolve(""), None);
}

#[test]
fn upsert_keeps_zones_in_name_order() {
    let mut dir = ZoneDirectory::default();
    dir.upsert(zone("Paris", "http://p"));
    dir.upsert(zone("berlin", "http://b"));
    dir.upsert(zone("Amsterdam", "http://a"));
    let names: Vec<&str> = dir.zones.iter().map(|z| z.name.as_str()).collect();
    assert_eq!(names, vec!["Amsterdam", "berlin", "Paris"]);
}

#[test]
fn upsert_replaces_zone_of_same_name_in_place() {
    let mut dir = ZoneDirectory::default();
    dir.upsert(zone("b", "http://1"));
    dir.upsert(zone("c", "http://2"));
    dir.upsert(zone("B", "http://3"));
    assert_eq!(dir.zones.len(), 2);
    assert_eq!(dir.zones[0].name, "B");
    assert_eq!(dir.zones[0].endpoint, "http://3");
}

#[test]
fn get_ignores_case_and_spaces() {
    let mut dir = ZoneDirectory::default();
    dir.upsert(zone("Tokyo", "http://t"));
    assert_eq!(dir.get(" tokyo ").unwrap().endpoint, "http://t");
    assert!(dir.get("osaka").is_none());
    assert!(dir.get("  ").is_none());
}

#[test]
fn remove_drops_matching_zones() {
    let mut dir = ZoneDirectory::default();
    dir.upsert(zone("a", "http://a"));
    dir.upsert(zone("b", "http://b"));
    assert!(dir.remove(" A"));
    assert!(!dir.remove("a"));
    assert!(!dir.remove(" "));
    assert_eq!(dir.zones.len(), 1);
    assert_eq!(dir.zones[0].name, "b");
}

#[test]
fn hello_names_local_zone_and_target_secret() {
    let m = PeerClientManager::new("zone-local".to_string());
    let hello = m.hello_request(&zone("remote", "http://r"));
    assert_eq!(hello.zone_id, "zone-local");
    assert_eq!(hello.secret, "remote-secret");
}

#[test]
fn upsert_twice_is_upsert_once_and_names_stay_distinct() {
    let mut dir = ZoneDirectory::default();
    dir.upsert(zone("Oslo", "http://o"));
    dir.upsert(zone("bergen", "http://b"));
    dir.upsert(zone("OSLO", "http://o2"));
    let once: Vec<(String, String)> =
        dir.zones.iter().map(|z| (z.name.clone(), z.endpoint.clone())).collect();
    dir.upsert(zone("OSLO", "http://o2"));
    let twice: Vec<(String, String)> =
        dir.zones.iter().map(|z| (z.name.clone(), z.endpoint.clone())).collect();
    assert_eq!(once, twice);
    assert_eq!(
        twice,
        vec![
            ("bergen".to_string(), "http://b".to_string()),
            ("OSLO".to_string(), "http://o2".to_string())
        ]
    );
}

#[test]
fn remove_reports_whether_a_zone_matched() {
    let mut dir = ZoneDirectory::default();
    dir.upsert(zone("Lima", "http://l"));
    dir.upsert(zone("quito", "http://q"));
    assert!(!dir.remove("bogota"));
    assert_eq!(dir.zones.len(), 2);
    assert!(dir.remove("QUITO "));
    assert_eq!(dir.zones.len(), 1);
    assert_eq!(dir.zones[0].name, "Lima");
}
