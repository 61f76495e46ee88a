use carbon::emissions::{Emissions, dedup_names, names_contain};
use carbon::error::CarbonError;
use carbon::environment::current_env_path;
use carbon::footprint::{Dotenv, Footprint};

fn names(list: &[&str]) -> Vec<String> {
    list.iter().map(|s| s.to_string()).collect()
}

fn entry(ledger: &Emissions, path: &str) -> Option<Vec<String>> {
    ledger
        .get_running_services()
        .iter()
        .find(|(p, _)| p == path)
        .map(|(_, v)| v.clone())
}

#[test]
fn add_running_service_replaces_the_previous_list() {
    let mut ledger = Emissions::default();
    ledger.add_running_service("p", &names(&["a", "b"]));
    ledger.add_running_service("p", &names(&["a"]));
    assert_eq!(ledger.get_running_services().len(), 1);
    assert_eq!(entry(&ledger, "p"), Some(names(&["a"])));
}

#[test]
fn add_running_service_keeps_other_paths() {
    let mut ledger = Emissions::default();
    ledger.add_running_service("p1", &names(&["a"]));
    ledger.add_running_service("p2", &names(&["b"]));
    ledger.add_running_service("p1", &names(&["c"]));
    assert_eq!(entry(&ledger, "p1"), Some(names(&["c"])));
    assert_eq!(entry(&ledger, "p2"), Some(names(&["b"])));
}

#[test]
fn add_running_service_drops_duplicate_names() {
    let mut ledger = Emissions::default();
    ledger.add_running_service("p", &names(&["a", "b", "a"]));
    assert_eq!(entry(&ledger, "p"), Some(names(&["a", "b"])));
}

#[test]
fn partition_moves_requested_names_and_keeps_the_rest() {
    let mut ledger = Emissions::default();
    ledger.add_running_service("f1", &names(&["a", "b"]));
    ledger.add_running_service("f2", &names(&["c"]));
    let (to_stop, to_keep) = ledger.partition_for_stop(&names(&["a"]));
    assert_eq!(to_stop, vec![("f1".to_string(), names(&["a"]))]);
    assert_eq!(
        to_keep,
        vec![("f1".to_string(), names(&["b"])), ("f2".to_string(), names(&["c"]))],
    );
}

#[test]
fn partition_drops_a_path_whose_services_all_stop() {
    let mut ledger = Emissions::default();
    ledger.add_running_service("f1", &names(&["a", "b"]));
    ledger.add_running_service("f2", &names(&["c"]));
    let (to_stop, to_keep) = ledger.partition_for_stop(&names(&["a", "b"]));
    assert_eq!(to_stop, vec![("f1".to_string(), names(&["a", "b"]))]);
    assert_eq!(to_keep, vec![("f2".to_string(), names(&["c"]))]);
}

#[test]
fn partition_ignores_names_that_are_not_running() {
    let mut ledger = Emissions::default();
    ledger.add_running_service("f1", &names(&["a"]));
    let (to_stop, to_keep) = ledger.partition_for_stop(&names(&["ghost"]));
    assert!(to_stop.is_empty());
    assert_eq!(to_keep, vec![("f1".to_string(), names(&["a"]))]);
}

#[test]
fn apply_stop_commits_the_partition() {
    let mut ledger = Emissions::default();
    ledger.add_running_service("f1", &names(&["a", "b"]));
    ledger.add_running_service("f2", &names(&["c"]));
    let to_stop = ledger.apply_stop(&names(&["a", "c"]));
    assert_eq!(
        to_stop,
        vec![("f1".to_string(), names(&["a"])), ("f2".to_string(), names(&["c"]))],
    );
    assert_eq!(ledger.get_running_services(), &vec![("f1".to_string(), names(&["b"]))]);
}

#[test]
fn set_running_services_replaces_the_ledger() {
    let mut ledger = Emissions::default();
    ledger.add_running_service("f1", &names(&["a"]));
    ledger.set_running_services(vec![("f2".to_string(), names(&["b"]))]);
    assert_eq!(entry(&ledger, "f1"), None);
    assert_eq!(entry(&ledger, "f2"), Some(names(&["b"])));
}

#[test]
fn already_running_guard_finds_the_first_conflict() {
    let mut ledger = Emissions::default();
    ledger.add_running_service("f1", &names(&["a", "b"]));
    let before = ledger.get_running_services().clone();
    assert_eq!(ledger.first_running_conflict(&names(&["x", "a"])), Some("a".to_string()));
    assert_eq!(ledger.first_running_conflict(&names(&["x", "y"])), None);
    assert!(ledger.is_running("b"));
    assert!(!ledger.is_running("x"));
    assert_eq!(ledger.get_running_services(), &before);
}

#[test]
fn path_running_service_names_the_owning_file() {
    let mut ledger = Emissions::default();
    ledger.add_running_service("f1", &names(&["a"]));
    ledger.add_running_service("f2", &names(&["b"]));
    assert_eq!(ledger.path_running_service("b"), Some("f2".to_string()));
    assert_eq!(ledger.path_running_service("ghost"), None);
}

#[test]
fn dedup_keeps_first_occurrences() {
    let out = dedup_names(&names(&["a", "b", "a", "c", "b"]));
    assert_eq!(out, names(&["a", "b", "c"]));
    assert!(names_contain(&out, "c"));
    assert!(!names_contain(&out, "d"));
}

#[test]
fn footprint_tracks_the_active_env_file() {
    let mut fp = Footprint::default();
    assert_eq!(fp.get_current_env(), None);
    assert_eq!(current_env_path(&fp).unwrap_err(), CarbonError::NoActiveEnv);
    fp.add_env_file("/etc/one.env", "first");
    assert_eq!(fp.get_current_env(), Some("/etc/one.env".to_string()));
    fp.add_env_file("/etc/two.env", "second");
    assert_eq!(fp.get_current_env(), Some("/etc/two.env".to_string()));
    fp.activate_env_file("first");
    assert_eq!(fp.get_current_env(), Some("/etc/one.env".to_string()));
    assert_eq!(current_env_path(&fp).unwrap(), "/etc/one.env");
}

#[test]
fn footprint_shortens_long_identifiers() {
    let mut fp = Footprint::default();
    fp.add_env_file("/etc/one.env", "longidentifier");
    assert_eq!(fp.entries()[0].1.id, "longi");
    assert!(fp.entries()[0].1.active);
}

#[test]
fn footprint_removes_files_by_identifier() {
    let mut fp = Footprint::default();
    fp.add_env_file("/etc/one.env", "one");
    fp.add_env_file("/etc/two.env", "two");
    fp.remove_env_file("one");
    assert_eq!(fp.entries().len(), 1);
    assert_eq!(fp.entries()[0].0, "/etc/two.env");
}

#[test]
fn footprint_rebuilds_from_loaded_entries() {
    let fp = Footprint::from_entries(vec![(
        "/etc/one.env".to_string(),
        Dotenv { active: true, id: "one".to_string() },
    )]);
    assert_eq!(fp.get_current_env(), Some("/etc/one.env".to_string()));
}
