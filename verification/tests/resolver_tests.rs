use carbon::carbon::Carbon;
use carbon::compose::get_all_services;
use carbon::document::{parse_config, parse_configs, parse_document};
use carbon::error::CarbonError;

fn configs(pairs: &[(&str, &str)]) -> Vec<(String, String)> {
    pairs.iter().map(|(p, c)| (p.to_string(), c.to_string())).collect()
}

fn names(services: &[&str]) -> Vec<String> {
    services.iter().map(|s| s.to_string()).collect()
}

#[test]
fn parse_document_extracts_name_and_dependencies() {
    let doc = parse_document("web:\n  image: nginx\n  depends_on:\n    - db\n    - cache", "p")
        .unwrap();
    assert_eq!(doc.name, "web");
    assert_eq!(doc.path, "p");
    assert_eq!(doc.depends_on, vec!["db".to_string(), "cache".to_string()]);
}

#[test]
fn parse_document_rejects_non_mapping() {
    let err = parse_document("- a\n- b", "bad.yml").unwrap_err();
    assert_eq!(err, CarbonError::MalformedService("bad.yml".to_string()));
}

#[test]
fn parse_document_rejects_two_top_level_keys() {
    let err = parse_document("a: 1\nb: 2", "two.yml").unwrap_err();
    assert_eq!(err, CarbonError::MalformedService("two.yml".to_string()));
}

#[test]
fn parse_document_rejects_malformed_dependency_list() {
    assert!(parse_document("web:\n  depends_on: 3", "p").is_err());
    assert!(parse_document("web:\n  depends_on:\n    - 1", "p").is_err());
}

#[test]
fn parse_config_splits_on_document_boundaries() {
    let docs = parse_config("p", "web:\n  image: x\n---\ndb:\n  image: y").unwrap();
    assert_eq!(docs.len(), 2);
    assert_eq!(docs[0].name, "web");
    assert_eq!(docs[1].name, "db");
    assert_eq!(docs[0].yaml, "web:\n  image: x");
    assert_eq!(docs[1].yaml, "db:\n  image: y");
}

#[test]
fn parse_config_fails_loudly_on_one_bad_document() {
    let err = parse_config("p", "web:\n  image: x\n---\n- nope").unwrap_err();
    assert_eq!(err, CarbonError::MalformedService("p".to_string()));
}

#[test]
fn parse_configs_keeps_scan_order() {
    let cs = configs(&[("a/carbon.yml", "one:\n  image: x"), ("b/carbon.yml", "two:\n  image: y")]);
    let docs = parse_configs(&cs).unwrap();
    assert_eq!(docs.len(), 2);
    assert_eq!(docs[0].name, "one");
    assert_eq!(docs[0].path, "a/carbon.yml");
    assert_eq!(docs[1].name, "two");
}

#[test]
fn expand_returns_requested_and_transitive_dependencies_once() {
    let cs = configs(&[
        ("web/carbon.yml", "web:\n  image: nginx\n  depends_on:\n    - db"),
        ("db/carbon.yml", "db:\n  image: postgres\n  depends_on:\n    - cache"),
        ("cache/carbon.yml", "cache:\n  image: redis"),
    ]);
    let resolved = Carbon::expand(&names(&["web"]), &cs).unwrap();
    let got: Vec<&str> = resolved.iter().map(|d| d.name.as_str()).collect();
    assert_eq!(got, vec!["web", "db", "cache"]);
}

#[test]
fn expand_terminates_on_cyclic_dependencies() {
    let cs = configs(&[
        ("a/carbon.yml", "a:\n  image: x\n  depends_on:\n    - b"),
        ("b/carbon.yml", "b:\n  image: y\n  depends_on:\n    - a"),
    ]);
    let resolved = Carbon::expand(&names(&["a"]), &cs).unwrap();
    let got: Vec<&str> = resolved.iter().map(|d| d.name.as_str()).collect();
    assert_eq!(got, vec!["a", "b"]);
}

#[test]
fn expand_fails_on_unknown_service() {
    let cs = configs(&[("web/carbon.yml", "web:\n  image: nginx")]);
    let err = Carbon::expand(&names(&["ghost"]), &cs).unwrap_err();
    assert_eq!(err, CarbonError::ServiceNotDefined("ghost".to_string()));
}

#[test]
fn expand_fails_on_unknown_dependency() {
    let cs = configs(&[("web/carbon.yml", "web:\n  depends_on:\n    - ghost")]);
    let err = Carbon::expand(&names(&["web"]), &cs).unwrap_err();
    assert_eq!(err, CarbonError::ServiceNotDefined("ghost".to_string()));
}

#[test]
fn expand_wildcard_takes_every_document() {
    let cs = configs(&[
        ("a/carbon.yml", "a:\n  image: x\n---\nb:\n  image: y"),
        ("c/carbon.yml", "c:\n  image: z"),
    ]);
    let resolved = Carbon::expand(&names(&["*"]), &cs).unwrap();
    let got: Vec<&str> = resolved.iter().map(|d| d.name.as_str()).collect();
    assert_eq!(got, vec!["a", "b", "c"]);
}

#[test]
fn expand_deduplicates_repeated_requests() {
    let cs = configs(&[("web/carbon.yml", "web:\n  image: nginx")]);
    let resolved = Carbon::expand(&names(&["web", "web"]), &cs).unwrap();
    assert_eq!(resolved.len(), 1);
}

#[test]
fn as_yaml_picks_first_match_per_requested_name() {
    let cs = configs(&[
        ("one/carbon.yml", "web:\n  image: first"),
        ("two/carbon.yml", "web:\n  image: second"),
    ]);
    let found = Carbon::as_yaml(&cs, &names(&["web"])).unwrap();
    assert_eq!(found.len(), 1);
    assert_eq!(found[0].path, "one/carbon.yml");
    assert_eq!(found[0].yaml, "web:\n  image: first");
}

#[test]
fn get_all_services_lists_names_in_scan_order() {
    let cs = configs(&[
        ("a/carbon.yml", "one:\n  image: x\n---\ntwo:\n  image: y"),
        ("b/carbon.yml", "three:\n  image: z"),
    ]);
    let all = get_all_services(&cs).unwrap();
    assert_eq!(all, vec!["one".to_string(), "two".to_string(), "three".to_string()]);
}
