//! The compute side of the multicast transport: building the
//! datagrams of an outgoing advertisement, and turning a received
//! datagram into a complete frame, and a complete frame into a node.
//! The socket itself lives outside the library.

use vstd::prelude::*;
use crate::frame::{
    UDPFrame, FrameView, FrameType, spec_encode_frame, spec_decode_frame, spec_chunk,
    spec_chunk_count, frag_ok,
};
use crate::frame_cache::{FrameReceiverCache, spec_ingest};
use crate::frame::{spec_sort_by_order, concat_frame_data};
use crate::node::Node;
use crate::node_codec::{node_to_bytes, node_from_bytes, spec_encode_node, spec_decode_node};
use crate::snowflake::SnowflakeIdGenerator;
use crate::strutil::{ascii_chars_of, dec_bytes_i64, i64_to_dec_string};

verus! {

/// The view of the `i`-th of `n` fragments of a frame.
pub open spec fn frag_view(f: FrameView, i: int, n: int) -> FrameView {
    FrameView {
        length: spec_chunk(f.data, i).len() as u16,
        order: i as u8,
        order_count: n as u8,
        data: spec_chunk(f.data, i),
        ..f
    }
}

/// Splits a frame and serializes each piece: the datagrams to send
/// for one message, in fragment order.
pub fn encode_fragments(frame: &UDPFrame) -> (r: Vec<Vec<u8>>)
    requires
        frame.data@.len() <= 255000,
    ensures
        frame.data@.len() <= 1000 ==> r@.len() == 1 && r@[0]@ == spec_encode_frame(frame@),
        frame.data@.len() > 1000 ==> ({
            let n = spec_chunk_count(frame.data@.len());
            &&& r@.len() == n
            &&& forall|i: int|
                0 <= i < n ==> (#[trigger] r@[i])@ == spec_encode_frame(
                    frag_view(frame@, i, n),
                )
        }),
{
    let frags = frame.split_frame();
    let mut out: Vec<Vec<u8>> = Vec::new();
    let mut i: usize = 0;
    while i < frags.len()
        invariant
            0 <= i <= frags@.len(),
            out@.len() == i,
            forall|j: int|
                0 <= j < i ==> (#[trigger] out@[j])@ == spec_encode_frame(frags@[j]@),
        decreases frags@.len() - i,
    {
        out.push(frags[i].to_bytes());
        i = i + 1;
    }
    proof {
        if frame.data@.len() > 1000 {
            let n = spec_chunk_count(frame.data@.len());
            assert forall|k: int| 0 <= k < n implies (#[trigger] out@[k])@ == spec_encode_frame(
                frag_view(frame@, k, n),
            ) by {
                assert(frag_ok(frags@[k]@, frame@, k, n));
                assert(frags@[k]@ == frag_view(frame@, k, n));
            }
        }
    }
    out
}

/// Wraps a node's serialized form in a fresh single-frame message:
/// the advertisement to split and send.  The message id is the next
/// id of the sender's generator, so successive advertisements of one
/// sender never share an id while the id space has room.
pub fn build_advertisement(node: &Node, generator: &mut SnowflakeIdGenerator) -> (r: UDPFrame)
    requires
        old(generator).wf(),
    ensures
        r@.data == spec_encode_node(node@),
        r@.version == 1,
        r@.frame_type == FrameType::Data,
        r@.order == 0,
        r@.order_count == 0,
        r@.id == ascii_chars_of(dec_bytes_i64(final(generator).spec_id())),
        final(generator).wf(),
        final(generator).spec_id() >= old(generator).spec_id(),
        old(generator).unsaturated() ==> final(generator).spec_id() > old(generator).spec_id(),
{
    let fresh = generator.real_time_generate();
    let id = i64_to_dec_string(fresh);
    let payload = node_to_bytes(node);
    UDPFrame::new_with_id(id, payload)
}

/// Feeds one received datagram through decoding and reassembly: the
/// complete message's merged frame when this datagram completes one,
/// nothing otherwise.  Malformed datagrams leave the cache untouched.
pub fn handle_datagram(cache: &mut FrameReceiverCache, buf: Vec<u8>, now: u64) -> (r: Option<
    UDPFrame,
>)
    ensures
        spec_decode_frame(buf@) is None ==> r is None && final(cache)@ == old(cache)@,
        spec_decode_frame(buf@) is Some ==> ({
            let f = spec_decode_frame(buf@).unwrap();
            let o = spec_ingest(old(cache)@, f, now);
            &&& final(cache)@ == o.cache
            &&& (r is Some <==> o.batch is Some)
            &&& (r is Some ==> r.unwrap()@.data == concat_frame_data(
                spec_sort_by_order(o.batch.unwrap()),
            ))
        }),
{
    let frame = match UDPFrame::from_vec(buf) {
        None => {
            return None;
        },
        Some(f) => f,
    };
    match cache.is_complete(frame, now) {
        Some(frames) => Some(UDPFrame::merge_frames(frames)),
        None => None,
    }
}

/// Decodes the node a complete frame advertises, if its payload is a
/// well-formed advertisement.
pub fn node_from_frame(frame: &UDPFrame) -> (r: Option<Node>)
    ensures
        r is Some <==> spec_decode_node(frame@.data) is Some,
        r is Some ==> r.unwrap()@ == spec_decode_node(frame@.data).unwrap(),
{
    node_from_bytes(&frame.data)
}

} // verus!
