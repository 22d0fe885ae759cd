//! The datagram frame: the unit a node sends on the multicast group.
//! A frame either carries a whole message (`order_count == 0`) or one
//! fragment of a message split into `order_count` pieces of at most
//! 1000 payload bytes each.
//!
//! The wire form is a little-endian binary encoding: the id as a
//! length-prefixed UTF-8 string, then version, frame type, declared
//! length, order and order count, then the length-prefixed payload.

use vstd::prelude::*;
use vstd::bytes::{
    spec_u16_to_le_bytes, spec_u16_from_le_bytes, u16_to_le_bytes, u16_from_le_bytes,
    spec_u64_to_le_bytes, spec_u64_from_le_bytes, u64_to_le_bytes, u64_from_le_bytes,
    lemma_auto_spec_u16_to_from_le_bytes, lemma_auto_spec_u64_to_from_le_bytes,
};
use vstd::utf8::{encode_utf8, valid_utf8, decode_utf8};
use vstd::utf8::{encode_utf8_valid_utf8, encode_utf8_decode_utf8};
use vstd::slice::{slice_subrange, slice_to_vec};
use crate::strutil::{bytes_to_string, string_to_bytes, u128_to_dec_string, is_decimal_string};
use crate::platform::now_millis;

verus! {

/// What a frame carries: a command or data.  Discovery only ever sends
/// data frames.
#[derive(Debug, Clone, Copy, PartialEq, Eq, Structural)]
pub enum FrameType {
    Command,
    Data,
}

/// One datagram's worth of payload, possibly a fragment of a larger
/// message.
#[derive(Debug)]
pub struct UDPFrame {
    /// Identifies the logical message; all fragments of one message
    /// share it.
    pub id: String,
    /// Wire format version; always 1.
    pub version: u8,
    pub frame_type: FrameType,
    /// The payload byte count as declared by the sender, truncated to
    /// 16 bits.
    pub length: u16,
    /// Fragment index, 0-based.
    pub order: u8,
    /// Total fragment count; 0 means a single-frame message.
    pub order_count: u8,
    pub data: Vec<u8>,
}

/// The mathematical shape of a frame.
pub struct FrameView {
    pub id: Seq<char>,
    pub version: u8,
    pub frame_type: FrameType,
    pub length: u16,
    pub order: u8,
    pub order_count: u8,
    pub data: Seq<u8>,
}

impl View for UDPFrame {
    type V = FrameView;

    open spec fn view(&self) -> FrameView {
        FrameView {
            id: self.id@,
            version: self.version,
            frame_type: self.frame_type,
            length: self.length,
            order: self.order,
            order_count: self.order_count,
            data: self.data@,
        }
    }
}

impl Clone for UDPFrame {
    fn clone(&self) -> (r: Self)
        ensures
            r@ == self@,
    {
        let r = UDPFrame {
            id: self.id.clone(),
            version: self.version,
            frame_type: self.frame_type,
            length: self.length,
            order: self.order,
            order_count: self.order_count,
            data: self.data.clone(),
        };
        proof {
            assert(r.data@ =~= self.data@);
        }
        r
    }
}

/// The byte that stands for a frame type on the wire.
pub open spec fn frame_type_byte(t: FrameType) -> u8 {
    match t {
        FrameType::Command => 0,
        FrameType::Data => 1,
    }
}

/// A frame the codec can reproduce: the only version this format knows
/// is 1, and both variable parts must be addressable by their 64-bit
/// length prefix.
pub open spec fn wf_frame(f: FrameView) -> bool {
    &&& f.version == 1
    &&& encode_utf8(f.id).len() <= u64::MAX
    &&& f.data.len() <= u64::MAX
}

/// The wire encoding of a frame.
pub open spec fn spec_encode_frame(f: FrameView) -> Seq<u8> {
    spec_u64_to_le_bytes(encode_utf8(f.id).len() as u64) + encode_utf8(f.id)
        + seq![f.version, frame_type_byte(f.frame_type)] + spec_u16_to_le_bytes(f.length)
        + seq![f.order, f.order_count] + spec_u64_to_le_bytes(f.data.len() as u64) + f.data
}

/// The frame a byte sequence decodes to, if any: the encoding must be
/// exact, carry version 1 and a known frame type, and hold a valid
/// UTF-8 id.
pub open spec fn spec_decode_frame(b: Seq<u8>) -> Option<FrameView> {
    if b.len() < 8 {
        None
    } else {
        let id_len = spec_u64_from_le_bytes(b.subrange(0, 8)) as int;
        if b.len() < 8 + id_len + 6 {
            None
        } else {
            let id_bytes = b.subrange(8, 8 + id_len);
            let p = 8 + id_len;
            if !valid_utf8(id_bytes) || b[p] != 1 || b[p + 1] > 1 {
                None
            } else {
                let length = spec_u16_from_le_bytes(b.subrange(p + 2, p + 4));
                let q = p + 6;
                if b.len() < q + 8 {
                    None
                } else {
                    let data_len = spec_u64_from_le_bytes(b.subrange(q, q + 8)) as int;
                    if b.len() != q + 8 + data_len {
                        None
                    } else {
                        Some(
                            FrameView {
                                id: decode_utf8(id_bytes),
                                version: b[p],
                                frame_type: if b[p + 1] == 0 {
                                    FrameType::Command
                                } else {
                                    FrameType::Data
                                },
                                length,
                                order: b[p + 4],
                                order_count: b[p + 5],
                                data: b.subrange(q + 8, q + 8 + data_len),
                            },
                        )
                    }
                }
            }
        }
    }
}

impl UDPFrame {
    /// Serializes the frame into its wire form.
    pub fn to_bytes(&self) -> (r: Vec<u8>)
        ensures
            r@ == spec_encode_frame(self@),
    {
        let mut out: Vec<u8> = Vec::new();
        let id_bytes = string_to_bytes(self.id.as_str());
        let mut piece = u64_to_le_bytes(id_bytes.len() as u64);
        out.append(&mut piece);
        out.extend_from_slice(id_bytes.as_slice());
        out.push(self.version);
        out.push(
            match self.frame_type {
                FrameType::Command => 0,
                FrameType::Data => 1,
            },
        );
        let mut piece = u16_to_le_bytes(self.length);
        out.append(&mut piece);
        out.push(self.order);
        out.push(self.order_count);
        let mut piece = u64_to_le_bytes(self.data.len() as u64);
        out.append(&mut piece);
        out.extend_from_slice(self.data.as_slice());
        proof {
            assert(out@ =~= spec_encode_frame(self@));
        }
        out
    }

    /// Parses a frame from its wire form; malformed bytes give `None`.
    pub fn from_vec(bytes: Vec<u8>) -> (r: Option<UDPFrame>)
        ensures
            r is Some <==> spec_decode_frame(bytes@) is Some,
            r is Some ==> r.unwrap()@ == spec_decode_frame(bytes@).unwrap(),
    {
        let len: usize = bytes.len();
        if len < 8 {
            return None;
        }
        let id_len64 = u64_from_le_bytes(slice_subrange(bytes.as_slice(), 0, 8));
        if id_len64 > (len - 8) as u64 {
            return None;
        }
        let id_len = id_len64 as usize;
        if len - 8 - id_len < 6 {
            return None;
        }
        let p: usize = 8 + id_len;
        let id_bytes = slice_to_vec(slice_subrange(bytes.as_slice(), 8, p));
        let ghost id_byte_seq = id_bytes@;
        let id = bytes_to_string(id_bytes);
        let id = match id {
            Some(id) => id,
            None => {
                proof {
                    assert(!valid_utf8(bytes@.subrange(8, 8 + id_len64 as int)));
                }
                return None;
            },
        };
        proof {
            vstd::utf8::encode_utf8_decode_utf8(id@);
        }
        let version = bytes[p];
        let ft_byte = bytes[p + 1];
        if version != 1 || ft_byte > 1 {
            return None;
        }
        let frame_type = if ft_byte == 0 {
            FrameType::Command
        } else {
            FrameType::Data
        };
        let length = u16_from_le_bytes(slice_subrange(bytes.as_slice(), p + 2, p + 4));
        let order = bytes[p + 4];
        let order_count = bytes[p + 5];
        let q: usize = p + 6;
        if len - q < 8 {
            return None;
        }
        let data_len64 = u64_from_le_bytes(slice_subrange(bytes.as_slice(), q, q + 8));
        if data_len64 != (len - q - 8) as u64 {
            return None;
        }
        let data = slice_to_vec(slice_subrange(bytes.as_slice(), q + 8, len));
        let r = UDPFrame { id, version, frame_type, length, order, order_count, data };
        proof {
            let bl = bytes@;
            let sid_len = spec_u64_from_le_bytes(bl.subrange(0, 8)) as int;
            assert(sid_len == id_len64);
            assert(id_byte_seq =~= bl.subrange(8, 8 + sid_len));
            encode_utf8_valid_utf8(r.id@);
            assert(valid_utf8(id_byte_seq));
            encode_utf8_decode_utf8(r.id@);
            assert(decode_utf8(id_byte_seq) == r.id@);
            let f = spec_decode_frame(bl).unwrap();
            assert(r@.id == f.id);
            assert(r@.data =~= f.data);
        }
        Some(r)
    }
}

impl UDPFrame {
    /// Wraps a payload in a single-frame message under the given
    /// message id; the declared length is the payload size truncated
    /// to 16 bits, as the format carries no more.
    pub fn new_with_id(id: String, data: Vec<u8>) -> (r: UDPFrame)
        ensures
            r@.id == id@,
            r@.data == data@,
            r@.version == 1,
            r@.frame_type == FrameType::Data,
            r@.order == 0,
            r@.order_count == 0,
            r@.length == data@.len() as u16,
    {
        let length = #[verifier::truncate] (data.len() as u16);
        UDPFrame {
            id,
            version: 1,
            frame_type: FrameType::Data,
            length,
            order: 0,
            order_count: 0,
            data,
        }
    }

    /// Wraps a payload in a fresh single-frame message.  The id is a
    /// nonempty decimal string drawn from the wall clock; a sender
    /// that needs collision-resistant message ids passes a
    /// generator-drawn id to [`UDPFrame::new_with_id`] instead.
    pub fn new(data: Vec<u8>) -> (r: UDPFrame)
        ensures
            r@.data == data@,
            r@.version == 1,
            r@.frame_type == FrameType::Data,
            r@.order == 0,
            r@.order_count == 0,
            r@.length == data@.len() as u16,
            is_decimal_string(r@.id),
    {
        let t = now_millis();
        let id = u128_to_dec_string(t);
        UDPFrame::new_with_id(id, data)
    }

    /// As [`UDPFrame::new`]; the payload is taken as plain bytes.
    pub fn new_from(data: Vec<u8>) -> (r: UDPFrame)
        ensures
            r@.data == data@,
            r@.version == 1,
            r@.frame_type == FrameType::Data,
            r@.order == 0,
            r@.order_count == 0,
            r@.length == data@.len() as u16,
            is_decimal_string(r@.id),
    {
        UDPFrame::new(data)
    }

    /// A copy of the payload.
    pub fn data(&self) -> (r: Vec<u8>)
        ensures
            r@ == self@.data,
    {
        let r = self.data.clone();
        proof {
            assert(r@ =~= self.data@);
        }
        r
    }
}

/// The number of fragments a payload of `len` bytes splits into.
pub open spec fn spec_chunk_count(len: nat) -> int {
    ((len + 999) / 1000) as int
}

/// The `i`-th fragment payload of `data`.
pub open spec fn spec_chunk(data: Seq<u8>, i: int) -> Seq<u8> {
    data.subrange(
        1000 * i,
        if 1000 * (i + 1) <= data.len() {
            1000 * (i + 1)
        } else {
            data.len() as int
        },
    )
}

/// Fragment `g` is the `i`-th of the `n` fragments of `f`.
pub open spec fn frag_ok(g: FrameView, f: FrameView, i: int, n: int) -> bool {
    &&& g.id == f.id
    &&& g.version == f.version
    &&& g.frame_type == f.frame_type
    &&& g.order == i
    &&& g.order_count == n
    &&& g.data == spec_chunk(f.data, i)
    &&& g.length == g.data.len()
}

proof fn lemma_chunk_count_bounds(len: nat)
    requires
        len > 1000,
        len <= 255000,
    ensures
        2 <= spec_chunk_count(len) <= 255,
        (spec_chunk_count(len) - 1) * 1000 < len,
        spec_chunk_count(len) * 1000 >= len,
{
    let n = spec_chunk_count(len);
    assert(2 <= n <= 255 && (n - 1) * 1000 < len && n * 1000 >= len) by (nonlinear_arith)
        requires
            n == ((len + 999) / 1000) as int,
            1000 < len <= 255000,
    ;
}

impl UDPFrame {
    /// Splits the frame for sending: a payload within the fragment
    /// limit goes out as it stands; a larger one becomes one frame per
    /// 1000-byte piece, sharing the id and numbered 0 upwards.
    ///
    /// The fragment count travels in one byte, which caps a message at
    /// 255 fragments.
    pub fn split_frame(&self) -> (r: Vec<UDPFrame>)
        requires
            self.data@.len() <= 255000,
        ensures
            self.data@.len() <= 1000 ==> r@.len() == 1 && r@[0]@ == self@,
            self.data@.len() > 1000 ==> ({
                let n = spec_chunk_count(self.data@.len());
                &&& r@.len() == n
                &&& forall|i: int| 0 <= i < n ==> frag_ok(#[trigger] r@[i]@, self@, i, n)
            }),
    {
        let mut result: Vec<UDPFrame> = Vec::new();
        let dlen = self.data.len();
        if dlen > 1000 {
            proof {
                lemma_chunk_count_bounds(dlen as nat);
            }
            let n = (dlen + 999) / 1000;
            let mut i: usize = 0;
            while i < n
                invariant
                    dlen == self.data@.len(),
                    1000 < dlen <= 255000,
                    n == spec_chunk_count(dlen as nat),
                    2 <= n <= 255,
                    (n - 1) * 1000 < dlen,
                    n * 1000 >= dlen,
                    0 <= i <= n,
                    result@.len() == i,
                    forall|j: int| 0 <= j < i ==> frag_ok(#[trigger] result@[j]@, self@, j, n as int),
                decreases n - i,
            {
                proof {
                    assert(i * 1000 <= (n - 1) * 1000) by (nonlinear_arith)
                        requires
                            i <= n - 1,
                    ;
                }
                let start = i * 1000;
                let end = if dlen - start > 1000 {
                    start + 1000
                } else {
                    dlen
                };
                let chunk = slice_to_vec(slice_subrange(self.data.as_slice(), start, end));
                proof {
                    assert(chunk@ =~= spec_chunk(self.data@, i as int));
                }
                let g = UDPFrame {
                    id: self.id.clone(),
                    version: self.version,
                    frame_type: self.frame_type,
                    length: chunk.len() as u16,
                    order: i as u8,
                    order_count: n as u8,
                    data: chunk,
                };
                result.push(g);
                i = i + 1;
            }
            result
        } else {
            result.push(self.clone());
            result
        }
    }
}

/// The views of a sequence of frames.
pub open spec fn views_of(s: Seq<UDPFrame>) -> Seq<FrameView> {
    s.map_values(|f: UDPFrame| f@)
}

/// Inserting into a sequence already ordered by `order`, before the
/// first frame of an equal or larger order.
pub open spec fn spec_insert_by_order(x: FrameView, s: Seq<FrameView>) -> Seq<FrameView>
    decreases s.len(),
{
    if s.len() == 0 {
        seq![x]
    } else if x.order <= s[0].order {
        seq![x] + s
    } else {
        seq![s[0]] + spec_insert_by_order(x, s.drop_first())
    }
}

/// Sorting by ascending `order`, one insertion per frame.
pub open spec fn spec_sort_by_order(s: Seq<FrameView>) -> Seq<FrameView>
    decreases s.len(),
{
    if s.len() == 0 {
        Seq::empty()
    } else {
        spec_insert_by_order(s.last(), spec_sort_by_order(s.drop_last()))
    }
}

/// The payloads of a sequence of frames, concatenated.
pub open spec fn concat_frame_data(s: Seq<FrameView>) -> Seq<u8>
    decreases s.len(),
{
    if s.len() == 0 {
        Seq::empty()
    } else {
        s[0].data + concat_frame_data(s.drop_first())
    }
}

pub proof fn lemma_concat_snoc(s: Seq<FrameView>, x: FrameView)
    ensures
        concat_frame_data(s + seq![x]) == concat_frame_data(s) + x.data,
    decreases s.len(),
{
    let t = s + seq![x];
    if s.len() == 0 {
        assert(t.len() == 1);
        assert(t[0] == x);
        assert(t.drop_first() =~= Seq::<FrameView>::empty());
        assert(concat_frame_data(t) == x.data + concat_frame_data(t.drop_first()));
        assert(concat_frame_data(t) =~= concat_frame_data(s) + x.data);
    } else {
        assert(t[0] == s[0]);
        assert(t.drop_first() =~= s.drop_first() + seq![x]);
        lemma_concat_snoc(s.drop_first(), x);
        assert(concat_frame_data(t) == s[0].data + (concat_frame_data(s.drop_first()) + x.data));
        assert(concat_frame_data(s) == s[0].data + concat_frame_data(s.drop_first()));
        assert(concat_frame_data(t) =~= concat_frame_data(s) + x.data);
    }
}

/// Inserting where the scan stopped is the ordered insertion.
proof fn lemma_insert_at(x: FrameView, s: Seq<FrameView>, j: int)
    requires
        0 <= j <= s.len(),
        forall|k: int| 0 <= k < j ==> s[k].order < x.order,
        j < s.len() ==> x.order <= s[j].order,
    ensures
        spec_insert_by_order(x, s) == s.insert(j, x),
    decreases s.len(),
{
    if s.len() == 0 {
        assert(spec_insert_by_order(x, s) =~= s.insert(j, x));
    } else if j == 0 {
        assert(spec_insert_by_order(x, s) =~= s.insert(0, x));
    } else {
        lemma_insert_at(x, s.drop_first(), j - 1);
        assert(seq![s[0]] + s.drop_first().insert(j - 1, x) =~= s.insert(j, x));
    }
}

/// Inserts a frame into a vector already ordered by `order`.
fn insert_by_order(sorted: &mut Vec<UDPFrame>, x: UDPFrame)
    ensures
        views_of(final(sorted)@) == spec_insert_by_order(x@, views_of(old(sorted)@)),
{
    let ghost s = views_of(sorted@);
    let mut j: usize = 0;
    while j < sorted.len() && x.order > sorted[j].order
        invariant
            0 <= j <= sorted@.len(),
            s == views_of(sorted@),
            forall|k: int| 0 <= k < j ==> s[k].order < x@.order,
        decreases sorted@.len() - j,
    {
        j = j + 1;
    }
    proof {
        lemma_insert_at(x@, s, j as int);
    }
    sorted.insert(j, x);
    proof {
        assert(views_of(sorted@) =~= s.insert(j as int, x@));
    }
}

/// Builds the merged message: sorts the frames by ascending `order`,
/// concatenates their payloads, and wraps the result in a fresh frame.
impl UDPFrame {
    pub fn merge_frames(frames: Vec<UDPFrame>) -> (r: UDPFrame)
        ensures
            r@.data == concat_frame_data(spec_sort_by_order(views_of(frames@))),
            r@.version == 1,
            r@.frame_type == FrameType::Data,
            r@.order == 0,
            r@.order_count == 0,
            r@.length == r@.data.len() as u16,
            is_decimal_string(r@.id),
    {
        let mut sorted: Vec<UDPFrame> = Vec::new();
        let mut i: usize = 0;
        while i < frames.len()
            invariant
                0 <= i <= frames@.len(),
                views_of(sorted@) == spec_sort_by_order(views_of(frames@).subrange(0, i as int)),
            decreases frames@.len() - i,
        {
            let ghost pre = views_of(frames@).subrange(0, i as int);
            let ghost cur = views_of(frames@).subrange(0, i + 1);
            let x = frames[i].clone();
            insert_by_order(&mut sorted, x);
            proof {
                assert(cur.drop_last() =~= pre);
                assert(cur.last() == frames@[i as int]@);
            }
            i = i + 1;
        }
        proof {
            assert(views_of(frames@).subrange(0, frames@.len() as int) =~= views_of(frames@));
        }
        let mut data: Vec<u8> = Vec::new();
        let ghost all = views_of(sorted@);
        let mut k: usize = 0;
        while k < sorted.len()
            invariant
                0 <= k <= sorted@.len(),
                all == views_of(sorted@),
                data@ == concat_frame_data(all.subrange(0, k as int)),
            decreases sorted@.len() - k,
        {
            let ghost pre = all.subrange(0, k as int);
            data.extend_from_slice(sorted[k].data.as_slice());
            proof {
                lemma_concat_snoc(pre, all[k as int]);
                assert(pre + seq![all[k as int]] =~= all.subrange(0, k + 1));
            }
            k = k + 1;
        }
        proof {
            assert(all.subrange(0, all.len() as int) =~= all);
        }
        UDPFrame::new_from(data)
    }
}

/// A sequence of frames whose orders strictly ascend is already sorted.
proof fn lemma_sort_of_sorted(s: Seq<FrameView>)
    requires
        forall|i: int, j: int| 0 <= i < j < s.len() ==> s[i].order < s[j].order,
    ensures
        spec_sort_by_order(s) == s,
    decreases s.len(),
{
    if s.len() > 0 {
        let t = s.drop_last();
        lemma_sort_of_sorted(t);
        lemma_insert_at(s.last(), t, t.len() as int);
        assert(t.insert(t.len() as int, s.last()) =~= s);
    }
}

/// Merging the fragments of a split, in any order the sort undoes,
/// rebuilds the original payload.
///
/// This is the fragmentation round-trip law: for every payload, the
/// concatenation of the sorted fragments that [`UDPFrame::split_frame`]
/// produces is the payload itself, so
/// [`UDPFrame::merge_frames`] of those fragments wraps the original
/// payload again.
pub proof fn lemma_split_merge_round_trip(f: FrameView, frags: Seq<FrameView>)
    requires
        f.data.len() <= 255000,
        f.data.len() <= 1000 ==> frags == seq![f],
        f.data.len() > 1000 ==> ({
            let n = spec_chunk_count(f.data.len());
            &&& frags.len() == n
            &&& forall|i: int| 0 <= i < n ==> frag_ok(#[trigger] frags[i], f, i, n)
        }),
    ensures
        concat_frame_data(spec_sort_by_order(frags)) == f.data,
{
    if f.data.len() <= 1000 {
        lemma_sort_of_sorted(frags);
        assert(frags.drop_first() =~= Seq::<FrameView>::empty());
        assert(concat_frame_data(frags) == f.data + concat_frame_data(frags.drop_first()));
        assert(concat_frame_data(frags) =~= f.data);
    } else {
        let n = spec_chunk_count(f.data.len());
        lemma_chunk_count_bounds(f.data.len());
        lemma_sort_of_sorted(frags);
        lemma_concat_chunks(f, frags, n);
        assert(frags.subrange(0, n) =~= frags);
        assert(1000 * n >= f.data.len());
        assert(f.data.subrange(0, f.data.len() as int) =~= f.data);
    }
}

/// The first `k` fragments of a split hold the first part of the
/// payload.
proof fn lemma_concat_chunks(f: FrameView, frags: Seq<FrameView>, k: int)
    requires
        f.data.len() > 1000,
        frags.len() == spec_chunk_count(f.data.len()),
        forall|i: int|
            0 <= i < frags.len() ==> frag_ok(
                #[trigger] frags[i],
                f,
                i,
                spec_chunk_count(f.data.len()),
            ),
        0 <= k <= frags.len(),
    ensures
        concat_frame_data(frags.subrange(0, k)) == f.data.subrange(
            0,
            if 1000 * k <= f.data.len() {
                1000 * k
            } else {
                f.data.len() as int
            },
        ),
    decreases k,
{
    if k == 0 {
        assert(concat_frame_data(frags.subrange(0, 0)) =~= f.data.subrange(0, 0));
    } else {
        lemma_concat_chunks(f, frags, k - 1);
        let pre = frags.subrange(0, k - 1);
        lemma_concat_snoc(pre, frags[k - 1]);
        assert(pre + seq![frags[k - 1]] =~= frags.subrange(0, k));
        proof_chunk_bound(f.data.len() as int, frags.len() as int, k);
        let hi = if 1000 * k <= f.data.len() {
            1000 * k
        } else {
            f.data.len() as int
        };
        assert(f.data.subrange(0, 1000 * (k - 1)) + spec_chunk(f.data, k - 1) =~= f.data.subrange(
            0,
            hi,
        ));
    }
}

proof fn proof_chunk_bound(len: int, n: int, k: int)
    requires
        len > 1000,
        n == spec_chunk_count(len as nat),
        1 <= k <= n,
    ensures
        1000 * (k - 1) < len,
{
    assert(1000 * (k - 1) < len) by (nonlinear_arith)
        requires
            n == ((len + 999) / 1000) as int,
            1000 < len,
            1 <= k <= n,
    ;
}

/// Decoding an encoded frame gives the frame back.
///
/// This is the codec's round-trip law: for every well-formed frame,
/// and so for every byte payload wrapped by [`UDPFrame::new`], the
/// wire form decodes to the frame it was made from.
pub proof fn lemma_frame_round_trip(f: FrameView)
    requires
        wf_frame(f),
    ensures
        spec_decode_frame(spec_encode_frame(f)) == Some(f),
{
    broadcast use encode_utf8_valid_utf8;

    lemma_auto_spec_u16_to_from_le_bytes();
    lemma_auto_spec_u64_to_from_le_bytes();
    let b = spec_encode_frame(f);
    let idb = encode_utf8(f.id);
    let id_len = idb.len() as int;
    assert(b.len() == 8 + id_len + 6 + 8 + f.data.len());
    assert(b.subrange(0, 8) =~= spec_u64_to_le_bytes(idb.len() as u64));
    assert(spec_u64_from_le_bytes(b.subrange(0, 8)) == idb.len() as u64);
    assert(b.subrange(8, 8 + id_len) =~= idb);
    let p = 8 + id_len;
    assert(b[p] == f.version);
    assert(b[p + 1] == frame_type_byte(f.frame_type));
    assert(b.subrange(p + 2, p + 4) =~= spec_u16_to_le_bytes(f.length));
    assert(b[p + 4] == f.order);
    assert(b[p + 5] == f.order_count);
    let q = p + 6;
    assert(b.subrange(q, q + 8) =~= spec_u64_to_le_bytes(f.data.len() as u64));
    assert(b.subrange(q + 8, q + 8 + f.data.len()) =~= f.data);
    encode_utf8_decode_utf8(f.id);
    let g = spec_decode_frame(b).unwrap();
    assert(g == f);
}

} // verus!
