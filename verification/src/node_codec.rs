//! The advertisement payload: a node serialized into the binary body
//! of a data frame, little-endian, strings length-prefixed.

use vstd::prelude::*;
use vstd::bytes::{
    spec_u16_to_le_bytes, spec_u16_from_le_bytes, u16_to_le_bytes, u16_from_le_bytes,
    spec_u64_to_le_bytes, spec_u64_from_le_bytes, u64_to_le_bytes, u64_from_le_bytes,
    spec_u128_to_le_bytes, spec_u128_from_le_bytes, u128_to_le_bytes, u128_from_le_bytes,
    lemma_auto_spec_u16_to_from_le_bytes, lemma_auto_spec_u64_to_from_le_bytes,
    lemma_auto_spec_u128_to_from_le_bytes,
};
use vstd::utf8::{encode_utf8, valid_utf8, decode_utf8};
use vstd::utf8::{encode_utf8_valid_utf8, encode_utf8_decode_utf8};
use vstd::slice::{slice_subrange, slice_to_vec};
use crate::node::{Node, NodeView};
use crate::strutil::{bytes_to_string, string_to_bytes};

verus! {

/// A length-prefixed byte block.
pub open spec fn lenp(u: Seq<u8>) -> Seq<u8> {
    spec_u64_to_le_bytes(u.len() as u64) + u
}

/// A length-prefixed string.
pub open spec fn strp(s: Seq<char>) -> Seq<u8> {
    lenp(encode_utf8(s))
}

/// The wire form of a list of strings, count first.
pub open spec fn spec_encode_strs(l: Seq<Seq<char>>) -> Seq<u8>
    decreases l.len(),
{
    if l.len() == 0 {
        Seq::empty()
    } else {
        strp(l[0]) + spec_encode_strs(l.drop_first())
    }
}

/// The wire form of a node.
pub open spec fn spec_encode_node(n: NodeView) -> Seq<u8> {
    spec_u64_to_le_bytes(n.id as u64) + spec_u16_to_le_bytes(n.port) + spec_u128_to_le_bytes(
        n.hit_timestamp,
    ) + seq![if n.active { 1u8 } else { 0u8 }] + strp(n.name) + strp(n.ipaddress)
        + spec_u64_to_le_bytes(n.mac_address.len() as u64) + spec_encode_strs(n.mac_address)
}

/// A node the codec can reproduce: each variable part must be
/// addressable by its 64-bit length prefix.
pub open spec fn wf_node_for_wire(n: NodeView) -> bool {
    &&& encode_utf8(n.name).len() <= u64::MAX
    &&& encode_utf8(n.ipaddress).len() <= u64::MAX
    &&& n.mac_address.len() <= u64::MAX
    &&& forall|i: int|
        0 <= i < n.mac_address.len() ==> encode_utf8(#[trigger] n.mac_address[i]).len()
            <= u64::MAX
}

/// Reads a length-prefixed string at `p`.
pub open spec fn sp_read_str(bs: Seq<u8>, p: int) -> Option<(Seq<char>, int)> {
    if !(0 <= p && p + 8 <= bs.len()) {
        None
    } else {
        let n = spec_u64_from_le_bytes(bs.subrange(p, p + 8)) as int;
        if p + 8 + n > bs.len() {
            None
        } else {
            let u = bs.subrange(p + 8, p + 8 + n);
            if valid_utf8(u) {
                Some((decode_utf8(u), p + 8 + n))
            } else {
                None
            }
        }
    }
}

/// Reads `cnt` length-prefixed strings at `p`, those read so far in
/// `acc`.
pub open spec fn sp_read_strs(bs: Seq<u8>, p: int, cnt: nat, acc: Seq<Seq<char>>) -> Option<
    (Seq<Seq<char>>, int),
>
    decreases cnt,
{
    if cnt == 0 {
        Some((acc, p))
    } else {
        match sp_read_str(bs, p) {
            None => None,
            Some((s, q)) => sp_read_strs(bs, q, (cnt - 1) as nat, acc + seq![s]),
        }
    }
}

/// The node a byte sequence decodes to, if any; the encoding must be
/// exact.
pub open spec fn spec_decode_node(bs: Seq<u8>) -> Option<NodeView> {
    if bs.len() < 8 + 2 + 16 + 1 {
        None
    } else {
        let id = spec_u64_from_le_bytes(bs.subrange(0, 8)) as i64;
        let port = spec_u16_from_le_bytes(bs.subrange(8, 10));
        let hit = spec_u128_from_le_bytes(bs.subrange(10, 26));
        let ab = bs[26];
        if ab > 1 {
            None
        } else {
            match sp_read_str(bs, 27) {
                None => None,
                Some((name, p1)) => match sp_read_str(bs, p1) {
                    None => None,
                    Some((ipaddress, p2)) => if !(p2 + 8 <= bs.len()) {
                        None
                    } else {
                        let cnt = spec_u64_from_le_bytes(bs.subrange(p2, p2 + 8)) as nat;
                        match sp_read_strs(bs, p2 + 8, cnt, Seq::empty()) {
                            None => None,
                            Some((macs, p3)) => if p3 == bs.len() {
                                Some(
                                    NodeView {
                                        id,
                                        name,
                                        ipaddress,
                                        port,
                                        hit_timestamp: hit,
                                        mac_address: macs,
                                        active: ab == 1,
                                    },
                                )
                            } else {
                                None
                            },
                        }
                    },
                },
            }
        }
    }
}

proof fn lemma_encode_strs_snoc(l: Seq<Seq<char>>, x: Seq<char>)
    ensures
        spec_encode_strs(l + seq![x]) == spec_encode_strs(l) + strp(x),
    decreases l.len(),
{
    let t = l + seq![x];
    if l.len() == 0 {
        assert(t[0] == x);
        assert(t.drop_first() =~= Seq::<Seq<char>>::empty());
        assert(spec_encode_strs(t.drop_first()) == Seq::<u8>::empty());
        assert(spec_encode_strs(t) =~= spec_encode_strs(l) + strp(x));
    } else {
        assert(t[0] == l[0]);
        assert(t.drop_first() =~= l.drop_first() + seq![x]);
        lemma_encode_strs_snoc(l.drop_first(), x);
        assert(spec_encode_strs(t) == strp(l[0]) + spec_encode_strs(t.drop_first()));
        assert(spec_encode_strs(l) == strp(l[0]) + spec_encode_strs(l.drop_first()));
        assert(spec_encode_strs(t) =~= spec_encode_strs(l) + strp(x));
    }
}

/// Appends a length-prefixed string.
fn push_strp(out: &mut Vec<u8>, s: &str)
    ensures
        final(out)@ == old(out)@ + strp(s@),
{
    let bytes = string_to_bytes(s);
    let mut piece = u64_to_le_bytes(bytes.len() as u64);
    out.append(&mut piece);
    out.extend_from_slice(bytes.as_slice());
    proof {
        assert(out@ =~= old(out)@ + strp(s@));
    }
}

/// Serializes a node into the binary payload of a frame.
pub fn node_to_bytes(n: &Node) -> (r: Vec<u8>)
    ensures
        r@ == spec_encode_node(n@),
{
    let mut out: Vec<u8> = Vec::new();
    let mut piece = u64_to_le_bytes(#[verifier::truncate] (n.id as u64));
    out.append(&mut piece);
    let mut piece = u16_to_le_bytes(n.port);
    out.append(&mut piece);
    let mut piece = u128_to_le_bytes(n.hit_timestamp);
    out.append(&mut piece);
    out.push(
        if n.active {
            1
        } else {
            0
        },
    );
    push_strp(&mut out, n.name.as_str());
    push_strp(&mut out, n.ipaddress.as_str());
    let mut piece = u64_to_le_bytes(n.mac_address.len() as u64);
    out.append(&mut piece);
    let ghost pre = out@;
    let ghost l = n@.mac_address;
    let mut k: usize = 0;
    while k < n.mac_address.len()
        invariant
            0 <= k <= n.mac_address@.len(),
            l == n@.mac_address,
            out@ == pre + spec_encode_strs(l.take(k as int)),
        decreases n.mac_address@.len() - k,
    {
        proof {
            lemma_encode_strs_snoc(l.take(k as int), l[k as int]);
            assert(l.take(k as int) + seq![l[k as int]] =~= l.take(k + 1));
        }
        push_strp(&mut out, n.mac_address[k].as_str());
        k = k + 1;
    }
    proof {
        assert(l.take(l.len() as int) =~= l);
        assert(out@ =~= spec_encode_node(n@));
    }
    out
}

/// Reads a length-prefixed string at `p`.
fn read_str(b: &Vec<u8>, p: usize) -> (r: Option<(String, usize)>)
    requires
        p <= b@.len(),
    ensures
        r is Some <==> sp_read_str(b@, p as int) is Some,
        r is Some ==> ({
            let (sv, qv) = sp_read_str(b@, p as int).unwrap();
            &&& r.unwrap().0@ == sv
            &&& r.unwrap().1 == qv
            &&& p < r.unwrap().1 <= b@.len()
        }),
{
    let len = b.len();
    if len - p < 8 {
        return None;
    }
    let n64 = u64_from_le_bytes(slice_subrange(b.as_slice(), p, p + 8));
    if n64 > (len - p - 8) as u64 {
        return None;
    }
    let n = n64 as usize;
    let u = slice_to_vec(slice_subrange(b.as_slice(), p + 8, p + 8 + n));
    let ghost uv = u@;
    match bytes_to_string(u) {
        Some(s) => {
            proof {
                encode_utf8_valid_utf8(s@);
                assert(valid_utf8(uv));
                encode_utf8_decode_utf8(s@);
                assert(decode_utf8(uv) == s@);
            }
            Some((s, p + 8 + n))
        },
        None => {
            proof {
                if valid_utf8(uv) {
                    assert(false);
                }
            }
            None
        },
    }
}

/// Parses a node from the binary payload of a frame; malformed bytes
/// give `None`.
#[verifier::rlimit(100)]
#[verifier::spinoff_prover]
#[verifier::loop_isolation(false)]
pub fn node_from_bytes(bytes: &Vec<u8>) -> (r: Option<Node>)
    ensures
        r is Some <==> spec_decode_node(bytes@) is Some,
        r is Some ==> r.unwrap()@ == spec_decode_node(bytes@).unwrap(),
{
    let len = bytes.len();
    if len < 27 {
        return None;
    }
    let id64 = u64_from_le_bytes(slice_subrange(bytes.as_slice(), 0, 8));
    let id = #[verifier::truncate] (id64 as i64);
    let port = u16_from_le_bytes(slice_subrange(bytes.as_slice(), 8, 10));
    let hit = u128_from_le_bytes(slice_subrange(bytes.as_slice(), 10, 26));
    let ab = bytes[26];
    if ab > 1 {
        return None;
    }
    let (name, p1) = match read_str(bytes, 27) {
        None => {
            return None;
        },
        Some(x) => x,
    };
    let (ipaddress, p2) = match read_str(bytes, p1) {
        None => {
            return None;
        },
        Some(x) => x,
    };
    if len - p2 < 8 {
        return None;
    }
    let cnt = u64_from_le_bytes(slice_subrange(bytes.as_slice(), p2, p2 + 8));
    proof {
        assert(bytes@.len() >= 27);
        assert(bytes@[26] == ab && ab <= 1);
        assert(sp_read_str(bytes@, 27) == Some((name@, p1 as int)));
        assert(sp_read_str(bytes@, p1 as int) == Some((ipaddress@, p2 as int)));
        assert(p2 + 8 <= bytes@.len());
        assert(spec_u64_from_le_bytes(bytes@.subrange(p2 as int, p2 + 8)) == cnt);
    }
    let mut macs: Vec<String> = Vec::new();
    let mut q: usize = p2 + 8;
    let mut k: u64 = 0;
    proof {
        assert(macs@.map_values(|s: String| s@) =~= Seq::<Seq<char>>::empty());
    }
    while k < cnt
        invariant
            0 <= k <= cnt,
            p2 + 8 <= q <= bytes@.len(),
            sp_read_strs(bytes@, (p2 + 8) as int, cnt as nat, Seq::empty()) == sp_read_strs(
                bytes@,
                q as int,
                (cnt - k) as nat,
                macs@.map_values(|s: String| s@),
            ),
        decreases cnt - k,
    {
        let ghost acc0 = macs@.map_values(|s: String| s@);
        match read_str(bytes, q) {
            None => {
                proof {
                    assert(sp_read_str(bytes@, q as int) is None);
                    assert(sp_read_strs(bytes@, q as int, (cnt - k) as nat, acc0) is None);
                    assert(sp_read_strs(bytes@, (p2 + 8) as int, cnt as nat, Seq::empty())
                        is None);
                    assert(spec_decode_node(bytes@) is None);
                }
                return None;
            },
            Some((s, q2)) => {
                let ghost sv = s@;
                macs.push(s);
                proof {
                    assert(macs@.map_values(|s: String| s@) =~= acc0 + seq![sv]);
                }
                q = q2;
                k = k + 1;
            },
        }
    }
    if q != len {
        return None;
    }
    let node = Node {
        id,
        name,
        ipaddress,
        port,
        hit_timestamp: hit,
        mac_address: macs,
        active: ab == 1,
    };
    proof {
        let nv = spec_decode_node(bytes@).unwrap();
        assert(node@.mac_address == nv.mac_address);
        assert(node@ == nv);
    }
    Some(node)
}

proof fn lemma_sp_read_str_round(bs: Seq<u8>, p: int, s: Seq<char>)
    requires
        0 <= p,
        encode_utf8(s).len() <= u64::MAX,
        p + strp(s).len() <= bs.len(),
        bs.subrange(p, p + strp(s).len()) == strp(s),
    ensures
        sp_read_str(bs, p) == Some((s, p + strp(s).len())),
{
    broadcast use encode_utf8_valid_utf8;

    lemma_auto_spec_u64_to_from_le_bytes();
    let u = encode_utf8(s);
    crate::config_json::lemma_split_concat(bs, p, spec_u64_to_le_bytes(u.len() as u64), u);
    assert(spec_u64_from_le_bytes(bs.subrange(p, p + 8)) == u.len() as u64);
    encode_utf8_decode_utf8(s);
}

proof fn lemma_sp_read_strs_round(bs: Seq<u8>, p: int, l: Seq<Seq<char>>, acc: Seq<Seq<char>>)
    requires
        0 <= p,
        forall|i: int| 0 <= i < l.len() ==> encode_utf8(#[trigger] l[i]).len() <= u64::MAX,
        p + spec_encode_strs(l).len() <= bs.len(),
        bs.subrange(p, p + spec_encode_strs(l).len()) == spec_encode_strs(l),
    ensures
        sp_read_strs(bs, p, l.len() as nat, acc) == Some((acc + l, p + spec_encode_strs(l).len())),
    decreases l.len(),
{
    if l.len() == 0 {
        assert(acc + l =~= acc);
        assert(bs.subrange(p, p) =~= Seq::<u8>::empty());
    } else {
        let first = strp(l[0]);
        let rest = spec_encode_strs(l.drop_first());
        assert(spec_encode_strs(l) == first + rest);
        crate::config_json::lemma_split_concat(bs, p, first, rest);
        lemma_sp_read_str_round(bs, p, l[0]);
        let q = p + first.len();
        assert forall|i: int|
            0 <= i < l.drop_first().len() implies encode_utf8(
            #[trigger] l.drop_first()[i],
        ).len() <= u64::MAX by {
            assert(l.drop_first()[i] == l[i + 1]);
        }
        lemma_sp_read_strs_round(bs, q, l.drop_first(), acc + seq![l[0]]);
        assert(acc + seq![l[0]] + l.drop_first() =~= acc + l);
    }
}

/// Decoding an encoded node gives the node back.
///
/// This is the advertisement round-trip law: what a node serializes
/// about itself, a receiving peer parses back unchanged.
#[verifier::rlimit(100)]
#[verifier::spinoff_prover]
pub proof fn lemma_node_round_trip(n: NodeView)
    requires
        wf_node_for_wire(n),
    ensures
        spec_decode_node(spec_encode_node(n)) == Some(n),
{
    lemma_auto_spec_u16_to_from_le_bytes();
    lemma_auto_spec_u64_to_from_le_bytes();
    lemma_auto_spec_u128_to_from_le_bytes();
    let bs = spec_encode_node(n);
    let s1 = spec_u64_to_le_bytes(n.id as u64);
    let s2 = spec_u16_to_le_bytes(n.port);
    let s3 = spec_u128_to_le_bytes(n.hit_timestamp);
    let s4 = seq![if n.active { 1u8 } else { 0u8 }];
    let s5 = strp(n.name);
    let s6 = strp(n.ipaddress);
    let s7 = spec_u64_to_le_bytes(n.mac_address.len() as u64);
    let s8 = spec_encode_strs(n.mac_address);
    let c2 = s1 + s2;
    let c3 = c2 + s3;
    let c4 = c3 + s4;
    let c5 = c4 + s5;
    let c6 = c5 + s6;
    let c7 = c6 + s7;
    let c8 = c7 + s8;
    assert(bs == c8);
    assert(bs.subrange(0, bs.len() as int) =~= bs);
    crate::config_json::lemma_split_concat(bs, 0, c7, s8);
    crate::config_json::lemma_split_concat(bs, 0, c6, s7);
    crate::config_json::lemma_split_concat(bs, 0, c5, s6);
    crate::config_json::lemma_split_concat(bs, 0, c4, s5);
    crate::config_json::lemma_split_concat(bs, 0, c3, s4);
    crate::config_json::lemma_split_concat(bs, 0, c2, s3);
    crate::config_json::lemma_split_concat(bs, 0, s1, s2);
    assert(bs.subrange(0, 8) == s1);
    assert(spec_u64_from_le_bytes(bs.subrange(0, 8)) == n.id as u64);
    let x = n.id;
    assert((x as u64) as i64 == x) by (bit_vector);
    assert(bs.subrange(8, 10) == s2);
    assert(bs.subrange(10, 26) == s3);
    assert(bs.subrange(26, 27) == s4);
    assert(bs[26] == s4[0]) by {
        assert(bs.subrange(26, 27)[0] == bs[26]);
    }
    let o4: int = 27;
    let o5 = o4 + s5.len();
    let o6 = o5 + s6.len();
    let o7 = o6 + s7.len();
    lemma_sp_read_str_round(bs, o4, n.name);
    lemma_sp_read_str_round(bs, o5, n.ipaddress);
    assert(spec_u64_from_le_bytes(bs.subrange(o6, o6 + 8)) == n.mac_address.len() as u64);
    lemma_sp_read_strs_round(bs, o7, n.mac_address, Seq::empty());
    assert(Seq::<Seq<char>>::empty() + n.mac_address =~= n.mac_address);
    let out = spec_decode_node(bs).unwrap();
    assert(out == n);
}

} // verus!
