use broadcast_discovery::frame::{FrameType, UDPFrame};

#[test]
fn test_frame() {
    let frame = UDPFrame::new_from("hello world".to_string().into_bytes());
    let bytes = frame.to_bytes();
    let frame = UDPFrame::from_vec(bytes);
    assert!(frame.is_some());
    let frame = frame.unwrap();
    assert_eq!(frame.data, "hello world".as_bytes());
}

#[test]
fn test_split_and_merge_frame() {
    let payload = "hello world".repeat(256);
    let frame = UDPFrame::new_from(payload.clone().into_bytes());
    let frames = frame.split_frame();
    let frame = UDPFrame::merge_frames(frames);
    assert_eq!(frame.data, payload.as_bytes());
}

#[test]
fn test_split_frame() {
    let payload = "hello world".repeat(256);
    let frame = UDPFrame::new_from(payload.clone().into_bytes());
    let frames = frame.split_frame();
    let frame = UDPFrame::merge_frames(frames);
    assert_eq!(frame.data(), payload.as_bytes());
}

#[test]
fn split_numbers_fragments() {
    let frame = UDPFrame::new(vec![7u8; 2500]);
    let frames = frame.split_frame();
    assert_eq!(frames.len(), 3);
    for (i, f) in frames.iter().enumerate() {
        assert_eq!(f.order, i as u8);
        assert_eq!(f.order_count, 3);
        assert_eq!(f.id, frame.id);
    }
    assert_eq!(frames[0].data.len(), 1000);
    assert_eq!(frames[2].data.len(), 500);
    assert_eq!(frames[2].length, 500);
}

#[test]
fn split_small_passes_through() {
    let frame = UDPFrame::new(vec![1u8, 2, 3]);
    let frames = frame.split_frame();
    assert_eq!(frames.len(), 1);
    assert_eq!(frames[0].order_count, 0);
    assert_eq!(frames[0].data, vec![1u8, 2, 3]);
}

#[test]
fn decode_rejects_malformed() {
    assert!(UDPFrame::from_vec(Vec::new()).is_none());
    assert!(UDPFrame::from_vec(vec![1u8, 2, 3]).is_none());
    // a valid encoding with the version byte changed is refused
    let frame = UDPFrame::new(vec![9u8; 10]);
    let mut bytes = frame.to_bytes();
    let id_len = frame.id.len();
    bytes[8 + id_len] = 2;
    assert!(UDPFrame::from_vec(bytes).is_none());
    // trailing bytes are refused
    let mut bytes = frame.to_bytes();
    bytes.push(0);
    assert!(UDPFrame::from_vec(bytes).is_none());
}

#[test]
fn round_trip_keeps_every_field() {
    let frame = UDPFrame {
        id: "h\u{e9}llo".to_string(),
        version: 1,
        frame_type: FrameType::Command,
        length: 4,
        order: 7,
        order_count: 9,
        data: vec![0u8, 255, 3, 4],
    };
    let back = UDPFrame::from_vec(frame.to_bytes()).unwrap();
    assert_eq!(back.id, "h\u{e9}llo");
    assert!(back.frame_type == FrameType::Command);
    assert_eq!(back.length, 4);
    assert_eq!(back.order, 7);
    assert_eq!(back.order_count, 9);
    assert_eq!(back.data, vec![0u8, 255, 3, 4]);
}

#[test]
fn empty_payload_round_trips() {
    let frame = UDPFrame::new(Vec::new());
    assert_eq!(frame.length, 0);
    let back = UDPFrame::from_vec(frame.to_bytes()).unwrap();
    assert!(back.data.is_empty());
    let frames = frame.split_frame();
    assert_eq!(frames.len(), 1);
}

#[test]
fn split_boundary_at_limit() {
    // exactly at the limit: no fragmentation
    let frame = UDPFrame::new(vec![0u8; 1000]);
    assert_eq!(frame.split_frame().len(), 1);
    // one byte over: two fragments
    let frame = UDPFrame::new(vec![0u8; 1001]);
    let frags = frame.split_frame();
    assert_eq!(frags.len(), 2);
    assert_eq!(frags[1].data.len(), 1);
    let merged = UDPFrame::merge_frames(frags);
    assert_eq!(merged.data, vec![0u8; 1001]);
}

#[test]
fn generated_ids_are_decimal_strings() {
    let frame = UDPFrame::new(vec![1u8]);
    assert!(!frame.id.is_empty());
    assert!(frame.id.chars().all(|c| c.is_ascii_digit()));
    let tagged = UDPFrame::new_with_id("1234".to_string(), vec![9u8, 9]);
    assert_eq!(tagged.id, "1234");
    assert_eq!(tagged.data, vec![9u8, 9]);
    assert_eq!(tagged.order_count, 0);
}
