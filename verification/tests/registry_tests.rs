use broadcast_discovery::node::Node;
use broadcast_discovery::node_holder::{NodeHolder, NodeOperation};

fn node_with_id(id: i64, name: &str) -> Node {
    Node::new(id, name.to_string(), 8081, 0)
}

#[test]
fn active_inserts_and_stamps() {
    let mut holder = NodeHolder::new();
    holder.apply(NodeOperation::Active(node_with_id(1, "a")), 1000);
    let roster = holder.get_node_list();
    assert_eq!(roster.len(), 1);
    assert_eq!(roster[0].id, 1);
    assert!(roster[0].active);
    assert_eq!(roster[0].hit_timestamp, 1000);
}

#[test]
fn duplicate_actives_keep_one_entry() {
    let mut holder = NodeHolder::new();
    holder.apply(NodeOperation::Active(node_with_id(1, "a")), 1000);
    holder.apply(NodeOperation::Active(node_with_id(1, "a")), 2000);
    holder.apply(NodeOperation::Active(node_with_id(1, "a")), 3000);
    let roster = holder.get_node_list();
    assert_eq!(roster.len(), 1);
    assert_eq!(roster[0].hit_timestamp, 3000);
}

#[test]
fn mixed_commands_never_duplicate_ids() {
    let mut holder = NodeHolder::new();
    holder.apply(NodeOperation::Active(node_with_id(1, "a")), 1);
    holder.apply(NodeOperation::Active(node_with_id(2, "b")), 2);
    holder.apply(NodeOperation::InActive(node_with_id(1, "a")), 3);
    holder.apply(NodeOperation::Init(node_with_id(2, "b")), 4);
    holder.apply(NodeOperation::Active(node_with_id(1, "a")), 5);
    let roster = holder.get_node_list();
    assert_eq!(roster.len(), 2);
    assert!(roster[0].id != roster[1].id);
}

#[test]
fn inactive_keeps_timestamp() {
    let mut holder = NodeHolder::new();
    holder.apply(NodeOperation::Active(node_with_id(1, "a")), 1000);
    let roster = holder.get_node_list();
    let seen = roster.into_iter().find(|n| n.id == 1).unwrap();
    holder.apply(NodeOperation::InActive(seen), 9999);
    let roster = holder.get_node_list();
    assert_eq!(roster.len(), 1);
    assert!(!roster[0].active);
    assert_eq!(roster[0].hit_timestamp, 1000);
}

#[test]
fn remove_deletes_entry() {
    let mut holder = NodeHolder::new();
    holder.apply(NodeOperation::Active(node_with_id(1, "a")), 1);
    holder.apply(NodeOperation::Remove(node_with_id(1, "a")), 2);
    assert!(holder.get_node_list().is_empty());
}

#[test]
fn seed_from_snapshot() {
    let mut holder = NodeHolder::new();
    let mut saved = node_with_id(9, "saved");
    saved.hit_timestamp = 123;
    saved.active = false;
    holder.apply(NodeOperation::Init(saved), 777);
    let roster = holder.get_node_list();
    assert_eq!(roster.len(), 1);
    assert_eq!(roster[0].hit_timestamp, 123);
    assert!(!roster[0].active);
}

#[test]
fn sweeper_names_stale_nodes_once() {
    let mut holder = NodeHolder::new();
    // timeout defaults to 5000 ms
    holder.apply(NodeOperation::Active(node_with_id(1, "a")), 0);
    holder.apply(NodeOperation::Active(node_with_id(2, "b")), 4000);
    let expired = holder.expired_nodes(6000);
    assert_eq!(expired.len(), 1);
    assert_eq!(expired[0].id, 1);
    // marking it inactive stops further sweeps from naming it
    holder.apply(NodeOperation::InActive(expired.into_iter().next().unwrap()), 6000);
    assert!(holder.expired_nodes(6000).is_empty());
}

#[test]
fn recovery_after_timeout() {
    let mut holder = NodeHolder::new();
    holder.apply(NodeOperation::Active(node_with_id(1, "a")), 0);
    let expired = holder.expired_nodes(6000);
    assert_eq!(expired.len(), 1);
    holder.apply(NodeOperation::InActive(expired.into_iter().next().unwrap()), 6000);
    holder.apply(NodeOperation::Active(node_with_id(1, "a")), 9000);
    let roster = holder.get_node_list();
    assert_eq!(roster.len(), 1);
    assert!(roster[0].active);
    assert_eq!(roster[0].hit_timestamp, 9000);
}

#[test]
fn lookups_find_first_match() {
    let mut holder = NodeHolder::new();
    holder.apply(NodeOperation::Active(node_with_id(1, "a")), 1);
    holder.apply(NodeOperation::Active(node_with_id(2, "b")), 2);
    assert_eq!(holder.get_node("b".to_string()).unwrap().id, 2);
    assert!(holder.get_node("c".to_string()).is_none());
    assert!(holder.get_node_by_port(8081).is_some());
    assert!(holder.get_node_by_port(1).is_none());
    assert_eq!(
        holder.get_node_by_name_and_port("a".to_string(), 8081).unwrap().id,
        1
    );
    assert!(holder.get_node_by_name_and_port("a".to_string(), 9).is_none());
}

#[test]
fn configured_timeout_reaches_the_sweeper() {
    // a 10-second timeout: a node silent for 6 s is not yet stale
    let mut holder = NodeHolder::with_timeout(10_000);
    holder.apply(NodeOperation::Active(node_with_id(1, "a")), 0);
    assert!(holder.expired_nodes(6000).is_empty());
    assert_eq!(holder.expired_nodes(11_000).len(), 1);
}
