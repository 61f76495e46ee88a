use carbon::container::{Config, Container, NetworkSettings, State};
use carbon::network;
use carbon::strings::{join_text, replace_all, split_text, str_eq};

fn sample_container(raw_name: &str) -> Container {
    Container::new(
        raw_name.to_string(),
        NetworkSettings { networks: vec![] },
        State { status: "running".to_string() },
        Config { image: "nginx".to_string() },
        "linux".to_string(),
    )
}

#[test]
fn container_name_strips_the_leading_slash() {
    let container = sample_container("/web");
    assert_eq!(container.name(), "web");
    assert_eq!(container.state.status, "running");
    assert_eq!(container.config.image, "nginx");
    assert_eq!(container.platform, "linux");
}

#[test]
fn network_info_carries_connected_containers() {
    let net = network::Network {
        name: "bridge".to_string(),
        containers: Some(vec![(
            "id0".to_string(),
            network::Container { name: "web".to_string() },
        )]),
    };
    assert_eq!(net.name, "bridge");
    assert_eq!(net.containers.unwrap()[0].1.name, "web");
}

#[test]
fn replace_all_rewrites_every_occurrence() {
    assert_eq!(replace_all("a-b-c", "-", "+"), "a+b+c");
    assert_eq!(replace_all("aaa", "aa", "b"), "ba");
    assert_eq!(replace_all("no match", "zz", "x"), "no match");
}

#[test]
fn split_text_yields_one_more_piece_than_separators() {
    assert_eq!(split_text("a\n---\nb\n---\nc", "\n---\n"), vec!["a", "b", "c"]);
    assert_eq!(split_text("alone", "\n---\n"), vec!["alone"]);
    assert_eq!(split_text("x\n---\n", "\n---\n"), vec!["x", ""]);
}

#[test]
fn join_text_interleaves_the_separator() {
    let pieces = vec!["a".to_string(), "b".to_string(), "c".to_string()];
    assert_eq!(join_text(&pieces, "\n"), "a\nb\nc");
    assert_eq!(join_text(&vec![], "\n"), "");
}

#[test]
fn str_eq_compares_by_characters() {
    assert!(str_eq("same", "same"));
    assert!(!str_eq("same", "Same"));
    assert!(!str_eq("same", "sam"));
}
