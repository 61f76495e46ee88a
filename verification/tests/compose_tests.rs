use carbon::carbon::Carbon;
use carbon::compose::{assemble, build_compose_file, merge_documents};
use carbon::environment::parse_variables;

fn configs(pairs: &[(&str, &str)]) -> Vec<(String, String)> {
    pairs.iter().map(|(p, c)| (p.to_string(), c.to_string())).collect()
}

fn names(services: &[&str]) -> Vec<String> {
    services.iter().map(|s| s.to_string()).collect()
}

#[test]
fn merge_documents_indents_under_the_schema_header() {
    let cs = configs(&[("web/carbon.yml", "web:\n  image: nginx")]);
    let resolved = Carbon::expand(&names(&["web"]), &cs).unwrap();
    let merged = merge_documents(&resolved);
    assert_eq!(merged, "\nversion: '3.8'\n\nservices:\n    web:\n      image: nginx");
}

#[test]
fn merge_documents_strips_boundary_artifacts() {
    let cs = configs(&[("web/carbon.yml", "---\nweb:\n  image: nginx")]);
    let resolved = Carbon::expand(&names(&["web"]), &cs).unwrap();
    let merged = merge_documents(&resolved);
    assert_eq!(merged, "\nversion: '3.8'\n\nservices:\n    \n    web:\n      image: nginx");
}

#[test]
fn build_compose_file_joins_service_and_dependency() {
    let cs = configs(&[
        ("web/carbon.yml", "web:\n  image: nginx\n  depends_on:\n    - db"),
        ("db/carbon.yml", "db:\n  image: postgres"),
    ]);
    let merged = build_compose_file(&names(&["web"]), &cs).unwrap();
    let expected = "\nversion: '3.8'\n\nservices:\n    web:\n      image: nginx\n      depends_on:\n        - db\n    db:\n      image: postgres";
    assert_eq!(merged, expected);
}

#[test]
fn assembled_document_holds_exactly_the_resolved_services() {
    let cs = configs(&[
        ("web/carbon.yml", "web:\n  image: nginx\n  depends_on:\n    - db"),
        ("db/carbon.yml", "db:\n  image: postgres"),
    ]);
    let merged = build_compose_file(&names(&["web"]), &cs).unwrap();
    let value: serde_yaml::Value = serde_yaml::from_str(&merged).unwrap();
    let services = value.get("services").unwrap().as_mapping().unwrap();
    let mut keys: Vec<&str> = services.iter().map(|(k, _)| k.as_str().unwrap()).collect();
    keys.sort();
    assert_eq!(keys, vec!["db", "web"]);
    assert_eq!(value.get("version").unwrap().as_str().unwrap(), "3.8");
}

#[test]
fn written_document_reparses_to_the_same_service_names() {
    let cs = configs(&[
        ("a/carbon.yml", "alpha:\n  image: a"),
        ("b/carbon.yml", "beta:\n  image: b\n---\ngamma:\n  image: c"),
    ]);
    let resolved = Carbon::expand(&names(&["*"]), &cs).unwrap();
    let before: Vec<String> = resolved.iter().map(|d| d.name.clone()).collect();
    let written = assemble(&resolved, "/srv");
    let value: serde_yaml::Value = serde_yaml::from_str(&written).unwrap();
    let services = value.get("services").unwrap().as_mapping().unwrap();
    let mut reparsed: Vec<String> =
        services.iter().map(|(k, _)| k.as_str().unwrap().to_string()).collect();
    let mut expected = before.clone();
    reparsed.sort();
    expected.sort();
    assert_eq!(reparsed, expected);
}

#[test]
fn assemble_substitutes_the_root_placeholder() {
    let cs = configs(&[("web/carbon.yml", "web:\n  volume: ${ROOT}/web")]);
    let resolved = Carbon::expand(&names(&["web"]), &cs).unwrap();
    let merged = assemble(&resolved, "/srv");
    assert_eq!(merged, "\nversion: '3.8'\n\nservices:\n    web:\n      volume: /srv/web");
}

#[test]
fn parse_variables_replaces_every_root_placeholder() {
    let replaced = parse_variables("path: ${ROOT}/data\nmore: ${ROOT}", "/srv");
    assert_eq!(replaced, "path: /srv/data\nmore: /srv");
    assert_eq!(parse_variables("no placeholders", "/srv"), "no placeholders");
}
