use broadcast_discovery::node::Node;
use broadcast_discovery::node_codec::{node_from_bytes, node_to_bytes};
use broadcast_discovery::snowflake::SnowflakeIdGenerator;

#[test]
fn test_node() {
    let mut generator = SnowflakeIdGenerator::new(1, 1);
    let node = Node::new(generator.real_time_generate(), "server".to_string(), 8080, 0);
    let node_bytes = node_to_bytes(&node);
    let node = node_from_bytes(&node_bytes).unwrap();
    assert_eq!(node.name, "server");
    assert_eq!(node.port, 8080);
}

#[test]
fn node_codec_keeps_every_field() {
    let node = Node {
        id: -42,
        name: "caf\u{e9}".to_string(),
        ipaddress: "192.168.1.9".to_string(),
        port: 9000,
        hit_timestamp: 123456789012345678901u128,
        mac_address: vec!["aa:bb".to_string(), "cc:dd".to_string()],
        active: false,
    };
    let back = node_from_bytes(&node_to_bytes(&node)).unwrap();
    assert_eq!(back.id, -42);
    assert_eq!(back.name, "caf\u{e9}");
    assert_eq!(back.ipaddress, "192.168.1.9");
    assert_eq!(back.port, 9000);
    assert_eq!(back.hit_timestamp, 123456789012345678901u128);
    assert_eq!(back.mac_address, vec!["aa:bb".to_string(), "cc:dd".to_string()]);
    assert!(!back.active);
}

#[test]
fn node_decode_rejects_malformed() {
    assert!(node_from_bytes(&Vec::new()).is_none());
    assert!(node_from_bytes(&vec![0u8; 26]).is_none());
    let node = Node::new_self_node(1, "a".to_string(), 1);
    let mut bytes = node_to_bytes(&node);
    bytes.push(0);
    assert!(node_from_bytes(&bytes).is_none());
}

#[test]
fn node_state_flips() {
    let mut node = Node::new_self_node(5, "x".to_string(), 80);
    assert!(node.active);
    node.inactive();
    assert!(!node.active);
    node.active();
    assert!(node.active);
    node.set_hit_timestamp(77);
    assert_eq!(node.hit_timestamp, 77);
    node.update_name("y".to_string());
    assert_eq!(node.name, "y");
}

#[test]
fn snowflake_ids_grow() {
    let mut generator = SnowflakeIdGenerator::new(3, 7);
    let a = generator.generate(1000);
    let b = generator.generate(1000);
    let c = generator.generate(2000);
    assert!(a > 0);
    assert!(b > a);
    assert!(c > b);
}
