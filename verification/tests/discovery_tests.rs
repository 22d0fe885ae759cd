use broadcast_discovery::frame::UDPFrame;
use broadcast_discovery::frame_cache::FrameReceiverCache;
use broadcast_discovery::node::Node;
use broadcast_discovery::snowflake::SnowflakeIdGenerator;
use broadcast_discovery::transport::{
    build_advertisement, encode_fragments, handle_datagram, node_from_frame,
};

fn self_node(id: i64, name: &str) -> Node {
    Node::new(id, name.to_string(), 8081, 0)
}

#[test]
fn single_frame_advertisement_round_trip() {
    let node = self_node(1, "a");
    let mut generator = SnowflakeIdGenerator::new(1, 1);
    let advertisement = build_advertisement(&node, &mut generator);
    let datagrams = encode_fragments(&advertisement);
    assert_eq!(datagrams.len(), 1);
    let mut cache = FrameReceiverCache::new();
    let complete = handle_datagram(&mut cache, datagrams.into_iter().next().unwrap(), 0)
        .expect("a single-frame message completes at once");
    let seen = node_from_frame(&complete).expect("the payload is an advertisement");
    assert_eq!(seen.id, 1);
    assert_eq!(seen.name, "a");
    assert_eq!(seen.port, 8081);
    assert!(seen.active);
}

#[test]
fn fragmented_advertisement_reassembles_out_of_order() {
    let mut node = self_node(2, "b");
    node.mac_address = vec!["x".repeat(2400)];
    let mut generator = SnowflakeIdGenerator::new(1, 2);
    let advertisement = build_advertisement(&node, &mut generator);
    assert!(advertisement.data.len() > 2000);
    let datagrams = encode_fragments(&advertisement);
    assert_eq!(datagrams.len(), 3);
    let mut iter = datagrams.into_iter();
    let d0 = iter.next().unwrap();
    let d1 = iter.next().unwrap();
    let d2 = iter.next().unwrap();
    let mut cache = FrameReceiverCache::new();
    assert!(handle_datagram(&mut cache, d2, 0).is_none());
    assert!(handle_datagram(&mut cache, d0, 1).is_none());
    let complete = handle_datagram(&mut cache, d1, 2).expect("the last fragment completes");
    let seen = node_from_frame(&complete).expect("the merged payload decodes");
    assert_eq!(seen.id, 2);
    assert_eq!(seen.mac_address, vec!["x".repeat(2400)]);
}

#[test]
fn duplicate_fragments_are_dropped() {
    let frame = UDPFrame::new(vec![5u8; 2500]);
    let frags = frame.split_frame();
    let mut cache = FrameReceiverCache::new();
    assert!(cache.is_complete(frags[0].clone(), 0).is_none());
    assert!(cache.is_complete(frags[0].clone(), 1).is_none());
    assert!(cache.is_complete(frags[0].clone(), 2).is_none());
    assert!(cache.is_complete(frags[1].clone(), 3).is_none());
    let batch = cache.is_complete(frags[2].clone(), 4).expect("three distinct orders complete");
    assert_eq!(batch.len(), 3);
}

#[test]
fn stale_bucket_is_evicted_before_completion() {
    let frame = UDPFrame::new(vec![5u8; 1500]);
    let frags = frame.split_frame();
    assert_eq!(frags.len(), 2);
    let mut cache = FrameReceiverCache::new();
    assert!(cache.is_complete(frags[0].clone(), 0).is_none());
    // five seconds later the bucket is gone, so the second fragment
    // starts a fresh one instead of completing
    assert!(cache.is_complete(frags[1].clone(), 5000).is_none());
    // the fresh bucket fills normally within its own window
    let batch = cache.is_complete(frags[0].clone(), 5001);
    assert!(batch.is_some(), "the missing order completes the fresh bucket");
    assert_eq!(batch.unwrap().len(), 2);
}

#[test]
fn garbage_datagrams_are_ignored() {
    let mut cache = FrameReceiverCache::new();
    assert!(handle_datagram(&mut cache, vec![1, 2, 3], 0).is_none());
    assert!(handle_datagram(&mut cache, Vec::new(), 0).is_none());
    let frame = UDPFrame::new(vec![1u8; 4]);
    let complete = handle_datagram(&mut cache, frame.to_bytes(), 0).unwrap();
    assert!(node_from_frame(&complete).is_none());
}

#[test]
fn advertisements_never_share_an_id() {
    let node = self_node(3, "c");
    let mut generator = SnowflakeIdGenerator::new(2, 9);
    let first = build_advertisement(&node, &mut generator);
    let second = build_advertisement(&node, &mut generator);
    let third = build_advertisement(&node, &mut generator);
    assert_ne!(first.id, second.id);
    assert_ne!(second.id, third.id);
    assert_ne!(first.id, third.id);
    assert!(!first.id.is_empty());
}
