use broadcast_discovery::config::Config;
use broadcast_discovery::config_json::{parse_config, render_config};
use broadcast_discovery::node::Node;
use broadcast_discovery::storage::Storage;

fn sample_config() -> Config {
    Config {
        id: -7,
        board_ip: "224.0.0.1".to_string(),
        board_port: 8081,
        node_timeout: 10,
        node_name: "board one".to_string(),
        node_list: vec![
            Node {
                id: 1,
                name: "quo\"ted\\name\n".to_string(),
                ipaddress: "10.0.0.1".to_string(),
                port: 8081,
                hit_timestamp: 1700000000000u128,
                mac_address: vec!["aa:bb:cc".to_string()],
                active: true,
            },
            Node {
                id: 2,
                name: "caf\u{e9}".to_string(),
                ipaddress: "10.0.0.2".to_string(),
                port: 8082,
                hit_timestamp: 0,
                mac_address: Vec::new(),
                active: false,
            },
        ],
    }
}

#[test]
fn config_json_round_trip() {
    let config = sample_config();
    let bytes = render_config(&config);
    let back = parse_config(&bytes).unwrap();
    assert_eq!(back.id, -7);
    assert_eq!(back.board_ip, "224.0.0.1");
    assert_eq!(back.board_port, 8081);
    assert_eq!(back.node_timeout, 10);
    assert_eq!(back.node_name, "board one");
    assert_eq!(back.node_list.len(), 2);
    assert_eq!(back.node_list[0].name, "quo\"ted\\name\n");
    assert_eq!(back.node_list[0].hit_timestamp, 1700000000000u128);
    assert_eq!(back.node_list[1].name, "caf\u{e9}");
    assert!(!back.node_list[1].active);
}

#[test]
fn config_json_is_readable_json() {
    let mut config = sample_config();
    config.node_list = Vec::new();
    let bytes = render_config(&config);
    let text = String::from_utf8(bytes).unwrap();
    assert_eq!(
        text,
        "{\"id\":-7,\"board_ip\":\"224.0.0.1\",\"board_port\":8081,\
         \"node_timeout\":10,\"node_name\":\"board one\",\"node_list\":[]}"
    );
}

#[test]
fn parse_rejects_garbage() {
    assert!(parse_config(&Vec::new()).is_none());
    assert!(parse_config(&b"{}".to_vec()).is_none());
    assert!(parse_config(&b"hello".to_vec()).is_none());
    let mut bytes = render_config(&sample_config());
    bytes.pop();
    assert!(parse_config(&bytes).is_none());
}

#[test]
fn config_setters_update_fields() {
    let mut config = sample_config();
    config.set_node_name("renamed".to_string());
    assert_eq!(config.node_name(), "renamed");
    config.set_board_port(9000);
    assert_eq!(config.board_port(), 9000);
    config.set_node_timeout(42);
    assert_eq!(config.node_timeout(), 42);
    config.set_board_ip("224.0.0.2".to_string());
    assert_eq!(config.board_ip(), "224.0.0.2");
    config.set_node_list(Vec::new());
    assert!(config.node_list().is_empty());
    // the other fields kept their values
    assert_eq!(config.id(), -7);
}

#[test]
fn store_materializes_default_and_flushes() {
    let (store, flush) = Storage::new("config.json".to_string(), None);
    let flush = flush.expect("a missing file asks for a flush");
    let written = parse_config(&flush).unwrap();
    assert_eq!(written.board_ip, "224.0.0.1");
    assert_eq!(written.board_port, 8081);
    assert_eq!(written.node_timeout, 10);
    assert!(written.node_list.is_empty());
    assert_eq!(written.id, store.get().id);
}

#[test]
fn store_set_writes_what_reads_back() {
    let (mut store, _) = Storage::new("config.json".to_string(), None);
    let mut config = sample_config();
    config.set_node_name("written".to_string());
    let w = store.set(config);
    let back = parse_config(&w).unwrap();
    assert_eq!(back.node_name, "written");
    assert_eq!(store.get().node_name, "written");
    // the store opens again over those same bytes without a re-flush
    let (store2, flush2) = Storage::new("config.json".to_string(), Some(w));
    assert!(flush2.is_none());
    assert_eq!(store2.get().node_name, "written");
}

#[test]
fn store_refresh_follows_file() {
    let (mut store, _) = Storage::new("config.json".to_string(), None);
    let other = sample_config();
    let bytes = render_config(&other);
    let seen = store.refresh(&bytes);
    assert_eq!(seen.id, -7);
    assert_eq!(store.get().id, -7);
    // unreadable bytes leave the in-memory copy as the source of truth
    let seen = store.refresh(&b"broken".to_vec());
    assert_eq!(seen.id, -7);
}
