//! The configuration file format: one canonical JSON rendering of a
//! [`Config`], and a parser for exactly that rendering.  What the
//! renderer writes, the parser reads back unchanged; anything else is
//! rejected and the daemon falls back to a default configuration.

use vstd::prelude::*;
use vstd::utf8::{encode_utf8, valid_utf8, decode_utf8};
use vstd::utf8::{encode_utf8_valid_utf8, encode_utf8_decode_utf8};
use vstd::string::StrSliceExecFns;
use crate::config::{Config, ConfigView};
use crate::node::{Node, NodeView, node_views};

use crate::strutil::{
    is_digit, dec_bytes, dec_val, dec_bytes_i64, digit_run_end, dec_matches_at, dec_i64_matches_at,
    lemma_parse_dec_at, lemma_dec_bytes_digits, u128_to_dec_bytes, i64_to_dec_bytes,
    parse_dec_u128, parse_dec_i64, bytes_to_string, string_to_bytes,
};

verus! {

/// A lower-case hexadecimal digit.
pub open spec fn hex_digit(n: u8) -> u8 {
    if n < 10 {
        (0x30 + n) as u8
    } else {
        (0x57 + n) as u8
    }
}

pub open spec fn is_hex(b: u8) -> bool {
    is_digit(b) || (0x61 <= b <= 0x66)
}

pub open spec fn hex_val(b: u8) -> u8 {
    if is_digit(b) {
        (b - 0x30) as u8
    } else {
        (b - 0x57) as u8
    }
}

/// How one byte of a string's UTF-8 form stands inside a JSON string:
/// quote and backslash escaped, control bytes as `\u00XX`, the rest as
/// they are.
pub open spec fn esc_byte(b: u8) -> Seq<u8> {
    if b == 0x22 {
        seq![0x5cu8, 0x22u8]
    } else if b == 0x5c {
        seq![0x5cu8, 0x5cu8]
    } else if b < 0x20 {
        seq![0x5cu8, 0x75u8, 0x30u8, 0x30u8, hex_digit(b / 16), hex_digit(b % 16)]
    } else {
        seq![b]
    }
}

pub open spec fn esc_bytes(s: Seq<u8>) -> Seq<u8>
    decreases s.len(),
{
    if s.len() == 0 {
        Seq::empty()
    } else {
        esc_byte(s[0]) + esc_bytes(s.drop_first())
    }
}

pub proof fn lemma_esc_bytes_snoc(s: Seq<u8>, b: u8)
    ensures
        esc_bytes(s + seq![b]) == esc_bytes(s) + esc_byte(b),
    decreases s.len(),
{
    let t = s + seq![b];
    if s.len() == 0 {
        assert(t[0] == b);
        assert(t.drop_first() =~= Seq::<u8>::empty());
        assert(esc_bytes(Seq::<u8>::empty()) == Seq::<u8>::empty());
        assert(esc_bytes(t) =~= esc_bytes(s) + esc_byte(b));
    } else {
        assert(t[0] == s[0]);
        assert(t.drop_first() =~= s.drop_first() + seq![b]);
        lemma_esc_bytes_snoc(s.drop_first(), b);
        assert(esc_bytes(t) == esc_byte(s[0]) + esc_bytes(t.drop_first()));
        assert(esc_bytes(t.drop_first()) == esc_bytes(s.drop_first()) + esc_byte(b));
        assert(esc_bytes(s) == esc_byte(s[0]) + esc_bytes(s.drop_first()));
        assert(esc_bytes(t) =~= esc_bytes(s) + esc_byte(b));
    }
}

/// The JSON rendering of a string: its UTF-8 form, escaped, in quotes.
pub open spec fn json_str(s: Seq<char>) -> Seq<u8> {
    seq![0x22u8] + esc_bytes(encode_utf8(s)) + seq![0x22u8]
}

/// The JSON rendering of a boolean.
pub open spec fn json_bool(b: bool) -> Seq<u8> {
    if b {
        seq![0x74u8, 0x72u8, 0x75u8, 0x65u8]
    } else {
        seq![0x66u8, 0x61u8, 0x6cu8, 0x73u8, 0x65u8]
    }
}

/// The comma-separated JSON renderings of a list of strings.
pub open spec fn json_str_items(l: Seq<Seq<char>>) -> Seq<u8>
    decreases l.len(),
{
    if l.len() == 0 {
        Seq::empty()
    } else if l.len() == 1 {
        json_str(l[0])
    } else {
        json_str(l[0]) + seq![0x2cu8] + json_str_items(l.drop_first())
    }
}

/// The JSON rendering of a list of strings.
pub open spec fn json_str_array(l: Seq<Seq<char>>) -> Seq<u8> {
    seq![0x5bu8] + json_str_items(l) + seq![0x5du8]
}

/// The bytes of a literal piece of the format, written as a string.
pub open spec fn lit_bytes(s: Seq<char>) -> Seq<u8> {
    encode_utf8(s)
}

/// The JSON rendering of one node.
pub open spec fn json_node(n: NodeView) -> Seq<u8> {
    lit_bytes("{\"id\":"@) + dec_bytes_i64(n.id as int) + lit_bytes(",\"name\":"@) + json_str(n.name)
        + lit_bytes(",\"ipaddress\":"@) + json_str(n.ipaddress) + lit_bytes(",\"port\":"@)
        + dec_bytes(n.port as nat) + lit_bytes(",\"hit_timestamp\":"@) + dec_bytes(
        n.hit_timestamp as nat,
    ) + lit_bytes(",\"mac_address\":"@) + json_str_array(n.mac_address) + lit_bytes(
        ",\"active\":"@,
    ) + json_bool(n.active) + lit_bytes("}"@)
}

/// The comma-separated JSON renderings of a list of nodes.
pub open spec fn json_node_items(l: Seq<NodeView>) -> Seq<u8>
    decreases l.len(),
{
    if l.len() == 0 {
        Seq::empty()
    } else if l.len() == 1 {
        json_node(l[0])
    } else {
        json_node(l[0]) + seq![0x2cu8] + json_node_items(l.drop_first())
    }
}

/// The JSON rendering of a list of nodes.
pub open spec fn json_node_array(l: Seq<NodeView>) -> Seq<u8> {
    seq![0x5bu8] + json_node_items(l) + seq![0x5du8]
}

/// The canonical JSON rendering of a configuration.
pub open spec fn render_config_spec(c: ConfigView) -> Seq<u8> {
    lit_bytes("{\"id\":"@) + dec_bytes_i64(c.id as int) + lit_bytes(",\"board_ip\":"@) + json_str(
        c.board_ip,
    ) + lit_bytes(",\"board_port\":"@) + dec_bytes(c.board_port as nat) + lit_bytes(
        ",\"node_timeout\":"@,
    ) + dec_bytes(c.node_timeout as nat) + lit_bytes(",\"node_name\":"@) + json_str(c.node_name)
        + lit_bytes(",\"node_list\":"@) + json_node_array(c.node_list) + lit_bytes("}"@)
}

proof fn lemma_str_items_snoc(l: Seq<Seq<char>>, x: Seq<char>)
    ensures
        json_str_items(l + seq![x]) == if l.len() == 0 {
            json_str(x)
        } else {
            json_str_items(l) + seq![0x2cu8] + json_str_items(seq![x])
        },
    decreases l.len(),
{
    let t = l + seq![x];
    if l.len() == 0 {
        assert(t.len() == 1 && t[0] == x);
    } else {
        assert(t[0] == l[0]);
        assert(t.drop_first() =~= l.drop_first() + seq![x]);
        lemma_str_items_snoc(l.drop_first(), x);
        if l.len() == 1 {
            assert(t.len() == 2);
            assert(json_str_items(t) == json_str(t[0]) + seq![0x2cu8] + json_str_items(
                t.drop_first(),
            ));
            assert(t.drop_first() =~= seq![x]);
        } else {
            assert(json_str_items(t) == json_str(l[0]) + seq![0x2cu8] + json_str_items(
                t.drop_first(),
            ));
            assert(json_str_items(l) == json_str(l[0]) + seq![0x2cu8] + json_str_items(
                l.drop_first(),
            ));
            assert(json_str_items(t) =~= json_str_items(l) + seq![0x2cu8] + json_str_items(
                seq![x],
            ));
        }
    }
}

proof fn lemma_node_items_snoc(l: Seq<NodeView>, x: NodeView)
    ensures
        json_node_items(l + seq![x]) == if l.len() == 0 {
            json_node(x)
        } else {
            json_node_items(l) + seq![0x2cu8] + json_node_items(seq![x])
        },
    decreases l.len(),
{
    let t = l + seq![x];
    if l.len() == 0 {
        assert(t.len() == 1 && t[0] == x);
    } else {
        assert(t[0] == l[0]);
        assert(t.drop_first() =~= l.drop_first() + seq![x]);
        lemma_node_items_snoc(l.drop_first(), x);
        if l.len() == 1 {
            assert(t.len() == 2);
            assert(json_node_items(t) == json_node(t[0]) + seq![0x2cu8] + json_node_items(
                t.drop_first(),
            ));
            assert(t.drop_first() =~= seq![x]);
        } else {
            assert(json_node_items(t) == json_node(l[0]) + seq![0x2cu8] + json_node_items(
                t.drop_first(),
            ));
            assert(json_node_items(l) == json_node(l[0]) + seq![0x2cu8] + json_node_items(
                l.drop_first(),
            ));
            assert(json_node_items(t) =~= json_node_items(l) + seq![0x2cu8] + json_node_items(
                seq![x],
            ));
        }
    }
}

/// Appends a literal piece of the format.
fn push_lit(out: &mut Vec<u8>, lit: &str)
    ensures
        final(out)@ == old(out)@ + lit_bytes(lit@),
{
    let bytes = string_to_bytes(lit);
    out.extend_from_slice(bytes.as_slice());
}

/// Appends the JSON rendering of a string.
fn push_json_str(out: &mut Vec<u8>, s: &str)
    ensures
        final(out)@ == old(out)@ + json_str(s@),
{
    let ghost start = out@;
    out.push(0x22);
    let bytes = string_to_bytes(s);
    let ghost u = bytes@;
    let mut k: usize = 0;
    while k < bytes.len()
        invariant
            0 <= k <= bytes@.len(),
            bytes@ == u,
            u == encode_utf8(s@),
            out@ == start + seq![0x22u8] + esc_bytes(u.take(k as int)),
        decreases bytes@.len() - k,
    {
        proof {
            lemma_esc_bytes_snoc(u.take(k as int), u[k as int]);
            assert(u.take(k as int) + seq![u[k as int]] =~= u.take(k + 1));
        }
        let b = bytes[k];
        if b == 0x22 {
            out.push(0x5c);
            out.push(0x22);
            proof {
                assert(out@ =~= start + seq![0x22u8] + esc_bytes(u.take(k + 1)));
            }
        } else if b == 0x5c {
            out.push(0x5c);
            out.push(0x5c);
            proof {
                assert(out@ =~= start + seq![0x22u8] + esc_bytes(u.take(k + 1)));
            }
        } else if b < 0x20 {
            out.push(0x5c);
            out.push(0x75);
            out.push(0x30);
            out.push(0x30);
            let hi = b / 16;
            let lo = b % 16;
            out.push(
                if hi < 10 {
                    0x30 + hi
                } else {
                    0x57 + hi
                },
            );
            out.push(
                if lo < 10 {
                    0x30 + lo
                } else {
                    0x57 + lo
                },
            );
            proof {
                assert(out@ =~= start + seq![0x22u8] + esc_bytes(u.take(k + 1)));
            }
        } else {
            out.push(b);
            proof {
                assert(out@ =~= start + seq![0x22u8] + esc_bytes(u.take(k + 1)));
            }
        }
        k = k + 1;
    }
    out.push(0x22);
    proof {
        assert(u.take(u.len() as int) =~= u);
        assert(out@ =~= start + json_str(s@));
    }
}

/// Appends the decimal rendering of an unsigned value.
fn push_dec_u128(out: &mut Vec<u8>, n: u128)
    ensures
        final(out)@ == old(out)@ + dec_bytes(n as nat),
{
    let mut digits = u128_to_dec_bytes(n);
    out.append(&mut digits);
}

/// Appends the decimal rendering of a signed value.
fn push_dec_i64(out: &mut Vec<u8>, n: i64)
    ensures
        final(out)@ == old(out)@ + dec_bytes_i64(n as int),
{
    let mut digits = i64_to_dec_bytes(n);
    out.append(&mut digits);
}

/// Appends the JSON rendering of a boolean.
fn push_json_bool(out: &mut Vec<u8>, b: bool)
    ensures
        final(out)@ == old(out)@ + json_bool(b),
{
    if b {
        out.push(0x74);
        out.push(0x72);
        out.push(0x75);
        out.push(0x65);
    } else {
        out.push(0x66);
        out.push(0x61);
        out.push(0x6c);
        out.push(0x73);
        out.push(0x65);
    }
    proof {
        assert(out@ =~= old(out)@ + json_bool(b));
    }
}

/// Appends the JSON rendering of a list of strings.
fn push_str_array(out: &mut Vec<u8>, items: &Vec<String>)
    ensures
        final(out)@ == old(out)@ + json_str_array(items@.map_values(|s: String| s@)),
{
    let ghost start = out@;
    let ghost l = items@.map_values(|s: String| s@);
    out.push(0x5b);
    let mut k: usize = 0;
    while k < items.len()
        invariant
            0 <= k <= items@.len(),
            l == items@.map_values(|s: String| s@),
            out@ == start + seq![0x5bu8] + json_str_items(l.take(k as int)),
        decreases items@.len() - k,
    {
        proof {
            lemma_str_items_snoc(l.take(k as int), l[k as int]);
            assert(l.take(k as int) + seq![l[k as int]] =~= l.take(k + 1));
        }
        if k > 0 {
            out.push(0x2c);
        }
        push_json_str(out, items[k].as_str());
        proof {
            assert(json_str_items(seq![l[k as int]]) == json_str(l[k as int]));
            assert(out@ =~= start + seq![0x5bu8] + json_str_items(l.take(k + 1)));
        }
        k = k + 1;
    }
    out.push(0x5d);
    proof {
        assert(l.take(l.len() as int) =~= l);
        assert(out@ =~= start + json_str_array(l));
    }
}

/// Appends the JSON rendering of one node.
#[verifier::rlimit(100)]
#[verifier::spinoff_prover]
fn push_json_node(out: &mut Vec<u8>, n: &Node)
    ensures
        final(out)@ == old(out)@ + json_node(n@),
{
    let ghost start = out@;
    let ghost mut done: Seq<u8> = Seq::empty();
    push_lit(out, "{\"id\":");
    proof {
        done = lit_bytes("{\"id\":"@);
        assert(out@ =~= start + done);
    }
    push_dec_i64(out, n.id);
    proof {
        done = done + dec_bytes_i64(n.id as int);
        assert(out@ =~= start + done);
    }
    push_lit(out, ",\"name\":");
    proof {
        done = done + lit_bytes(",\"name\":"@);
        assert(out@ =~= start + done);
    }
    push_json_str(out, n.name.as_str());
    proof {
        done = done + json_str(n@.name);
        assert(out@ =~= start + done);
    }
    push_lit(out, ",\"ipaddress\":");
    proof {
        done = done + lit_bytes(",\"ipaddress\":"@);
        assert(out@ =~= start + done);
    }
    push_json_str(out, n.ipaddress.as_str());
    proof {
        done = done + json_str(n@.ipaddress);
        assert(out@ =~= start + done);
    }
    push_lit(out, ",\"port\":");
    proof {
        done = done + lit_bytes(",\"port\":"@);
        assert(out@ =~= start + done);
    }
    push_dec_u128(out, n.port as u128);
    proof {
        done = done + dec_bytes(n@.port as nat);
        assert(out@ =~= start + done);
    }
    push_lit(out, ",\"hit_timestamp\":");
    proof {
        done = done + lit_bytes(",\"hit_timestamp\":"@);
        assert(out@ =~= start + done);
    }
    push_dec_u128(out, n.hit_timestamp);
    proof {
        done = done + dec_bytes(n@.hit_timestamp as nat);
        assert(out@ =~= start + done);
    }
    push_lit(out, ",\"mac_address\":");
    proof {
        done = done + lit_bytes(",\"mac_address\":"@);
        assert(out@ =~= start + done);
    }
    push_str_array(out, &n.mac_address);
    proof {
        done = done + json_str_array(n@.mac_address);
        assert(out@ =~= start + done);
    }
    push_lit(out, ",\"active\":");
    proof {
        done = done + lit_bytes(",\"active\":"@);
        assert(out@ =~= start + done);
    }
    push_json_bool(out, n.active);
    proof {
        done = done + json_bool(n@.active);
        assert(out@ =~= start + done);
    }
    push_lit(out, "}");
    proof {
        done = done + lit_bytes("}"@);
        assert(out@ =~= start + done);
        assert(done == json_node(n@));
    }
}

/// Appends the JSON rendering of a list of nodes.
fn push_node_array(out: &mut Vec<u8>, items: &Vec<Node>)
    ensures
        final(out)@ == old(out)@ + json_node_array(node_views(items@)),
{
    let ghost start = out@;
    let ghost l = node_views(items@);
    out.push(0x5b);
    let mut k: usize = 0;
    while k < items.len()
        invariant
            0 <= k <= items@.len(),
            l == node_views(items@),
            out@ == start + seq![0x5bu8] + json_node_items(l.take(k as int)),
        decreases items@.len() - k,
    {
        proof {
            lemma_node_items_snoc(l.take(k as int), l[k as int]);
            assert(l.take(k as int) + seq![l[k as int]] =~= l.take(k + 1));
        }
        if k > 0 {
            out.push(0x2c);
        }
        push_json_node(out, &items[k]);
        proof {
            assert(json_node_items(seq![l[k as int]]) == json_node(l[k as int]));
            assert(out@ =~= start + seq![0x5bu8] + json_node_items(l.take(k + 1)));
        }
        k = k + 1;
    }
    out.push(0x5d);
    proof {
        assert(l.take(l.len() as int) =~= l);
        assert(out@ =~= start + json_node_array(l));
    }
}

/// Renders a configuration in its canonical JSON form.
#[verifier::rlimit(100)]
#[verifier::spinoff_prover]
pub fn render_config(c: &Config) -> (r: Vec<u8>)
    ensures
        r@ == render_config_spec(c@),
{
    let mut out: Vec<u8> = Vec::new();
    let ghost mut done: Seq<u8> = Seq::empty();
    push_lit(&mut out, "{\"id\":");
    proof {
        done = lit_bytes("{\"id\":"@);
        assert(out@ =~= done);
    }
    push_dec_i64(&mut out, c.id);
    proof {
        done = done + dec_bytes_i64(c.id as int);
        assert(out@ =~= done);
    }
    push_lit(&mut out, ",\"board_ip\":");
    proof {
        done = done + lit_bytes(",\"board_ip\":"@);
        assert(out@ =~= done);
    }
    push_json_str(&mut out, c.board_ip.as_str());
    proof {
        done = done + json_str(c@.board_ip);
        assert(out@ =~= done);
    }
    push_lit(&mut out, ",\"board_port\":");
    proof {
        done = done + lit_bytes(",\"board_port\":"@);
        assert(out@ =~= done);
    }
    push_dec_u128(&mut out, c.board_port as u128);
    proof {
        done = done + dec_bytes(c@.board_port as nat);
        assert(out@ =~= done);
    }
    push_lit(&mut out, ",\"node_timeout\":");
    proof {
        done = done + lit_bytes(",\"node_timeout\":"@);
        assert(out@ =~= done);
    }
    push_dec_u128(&mut out, c.node_timeout as u128);
    proof {
        done = done + dec_bytes(c@.node_timeout as nat);
        assert(out@ =~= done);
    }
    push_lit(&mut out, ",\"node_name\":");
    proof {
        done = done + lit_bytes(",\"node_name\":"@);
        assert(out@ =~= done);
    }
    push_json_str(&mut out, c.node_name.as_str());
    proof {
        done = done + json_str(c@.node_name);
        assert(out@ =~= done);
    }
    push_lit(&mut out, ",\"node_list\":");
    proof {
        done = done + lit_bytes(",\"node_list\":"@);
        assert(out@ =~= done);
    }
    push_node_array(&mut out, &c.node_list);
    proof {
        done = done + json_node_array(c@.node_list);
        assert(out@ =~= done);
    }
    push_lit(&mut out, "}");
    proof {
        done = done + lit_bytes("}"@);
        assert(out@ =~= done);
        assert(done == render_config_spec(c@));
    }
    out
}

/// The literal `l` stands at `p` in `bs`.
pub open spec fn lit_at(bs: Seq<u8>, p: int, l: Seq<u8>) -> bool {
    &&& 0 <= p
    &&& p + l.len() <= bs.len()
    &&& bs.subrange(p, p + l.len()) == l
}

/// Reads a JSON string body from after the opening quote to the
/// closing quote, undoing the escapes; `acc` carries the bytes read so
/// far.
pub open spec fn sp_str_body(bs: Seq<u8>, p: int, acc: Seq<u8>) -> Option<(Seq<u8>, int)>
    decreases bs.len() - p,
{
    if p < 0 || p >= bs.len() {
        None
    } else if bs[p] == 0x22 {
        Some((acc, p + 1))
    } else if bs[p] == 0x5c {
        if p + 1 >= bs.len() {
            None
        } else if bs[p + 1] == 0x22 {
            sp_str_body(bs, p + 2, acc + seq![0x22u8])
        } else if bs[p + 1] == 0x5c {
            sp_str_body(bs, p + 2, acc + seq![0x5cu8])
        } else if bs[p + 1] == 0x75 {
            if p + 6 > bs.len() {
                None
            } else if bs[p + 2] == 0x30 && bs[p + 3] == 0x30 && is_hex(bs[p + 4]) && is_hex(
                bs[p + 5],
            ) {
                let v = hex_val(bs[p + 4]) * 16 + hex_val(bs[p + 5]);
                if v < 0x20 {
                    sp_str_body(bs, p + 6, acc + seq![v as u8])
                } else {
                    None
                }
            } else {
                None
            }
        } else {
            None
        }
    } else {
        sp_str_body(bs, p + 1, acc + seq![bs[p]])
    }
}

/// Reads a quoted JSON string at `p`, as the UTF-8 bytes it encodes.
pub open spec fn sp_str(bs: Seq<u8>, p: int) -> Option<(Seq<u8>, int)> {
    if 0 <= p < bs.len() && bs[p] == 0x22 {
        sp_str_body(bs, p + 1, Seq::empty())
    } else {
        None
    }
}

/// Reads a quoted JSON string at `p`, as characters.
pub open spec fn sp_string(bs: Seq<u8>, p: int) -> Option<(Seq<char>, int)> {
    match sp_str(bs, p) {
        None => None,
        Some((u, q)) => if valid_utf8(u) {
            Some((decode_utf8(u), q))
        } else {
            None
        },
    }
}

/// Reads an unsigned decimal at `p`.
pub open spec fn sp_u128(bs: Seq<u8>, p: int) -> Option<(u128, int)> {
    if 0 <= p <= bs.len() {
        let e = digit_run_end(bs, p);
        if e == p || dec_val(bs.subrange(p, e)) > u128::MAX {
            None
        } else {
            Some((dec_val(bs.subrange(p, e)) as u128, e))
        }
    } else {
        None
    }
}

/// Reads an unsigned decimal that fits 16 bits at `p`.
pub open spec fn sp_u16(bs: Seq<u8>, p: int) -> Option<(u16, int)> {
    match sp_u128(bs, p) {
        None => None,
        Some((v, q)) => if v <= u16::MAX {
            Some((v as u16, q))
        } else {
            None
        },
    }
}

/// Reads `true` or `false` at `p`.
pub open spec fn sp_bool(bs: Seq<u8>, p: int) -> Option<(bool, int)> {
    if lit_at(bs, p, json_bool(true)) {
        Some((true, p + 4))
    } else if lit_at(bs, p, json_bool(false)) {
        Some((false, p + 5))
    } else {
        None
    }
}

/// Reads the comma-separated strings of a non-empty array, the
/// strings read so far in `acc`.
pub open spec fn sp_str_items(bs: Seq<u8>, p: int, acc: Seq<Seq<char>>) -> Option<
    (Seq<Seq<char>>, int),
>
    decreases bs.len() - p,
{
    if p < 0 {
        None
    } else {
        match sp_string(bs, p) {
            None => None,
            Some((s, q)) => if q < bs.len() && bs[q] == 0x2c && q + 1 > p && q + 1 <= bs.len() {
                sp_str_items(bs, q + 1, acc + seq![s])
            } else {
                Some((acc + seq![s], q))
            },
        }
    }
}

/// Reads a JSON array of strings at `p`.
pub open spec fn sp_str_array(bs: Seq<u8>, p: int) -> Option<(Seq<Seq<char>>, int)> {
    if !(0 <= p < bs.len() && bs[p] == 0x5b) {
        None
    } else if p + 1 < bs.len() && bs[p + 1] == 0x5d {
        Some((Seq::empty(), p + 2))
    } else {
        match sp_str_items(bs, p + 1, Seq::empty()) {
            None => None,
            Some((l, q)) => if q < bs.len() && bs[q] == 0x5d {
                Some((l, q + 1))
            } else {
                None
            },
        }
    }
}

/// Reads one node object at `p`.
pub open spec fn sp_node(bs: Seq<u8>, p: int) -> Option<(NodeView, int)> {
    if !lit_at(bs, p, lit_bytes("{\"id\":"@)) {
        None
    } else {
        match crate::strutil::spec_parse_i64(bs, p + lit_bytes("{\"id\":"@).len()) {
            None => None,
            Some((id, p1)) => if !lit_at(bs, p1, lit_bytes(",\"name\":"@)) {
                None
            } else {
                match sp_string(bs, p1 + lit_bytes(",\"name\":"@).len()) {
                    None => None,
                    Some((name, p2)) => if !lit_at(bs, p2, lit_bytes(",\"ipaddress\":"@)) {
                        None
                    } else {
                        match sp_string(bs, p2 + lit_bytes(",\"ipaddress\":"@).len()) {
                            None => None,
                            Some((ipaddress, p3)) => if !lit_at(
                                bs,
                                p3,
                                lit_bytes(",\"port\":"@),
                            ) {
                                None
                            } else {
                                match sp_u16(bs, p3 + lit_bytes(",\"port\":"@).len()) {
                                    None => None,
                                    Some((port, p4)) => if !lit_at(
                                        bs,
                                        p4,
                                        lit_bytes(",\"hit_timestamp\":"@),
                                    ) {
                                        None
                                    } else {
                                        match sp_u128(
                                            bs,
                                            p4 + lit_bytes(",\"hit_timestamp\":"@).len(),
                                        ) {
                                            None => None,
                                            Some((hit, p5)) => if !lit_at(
                                                bs,
                                                p5,
                                                lit_bytes(",\"mac_address\":"@),
                                            ) {
                                                None
                                            } else {
                                                match sp_str_array(
                                                    bs,
                                                    p5 + lit_bytes(",\"mac_address\":"@).len(),
                                                ) {
                                                    None => None,
                                                    Some((macs, p6)) => if !lit_at(
                                                        bs,
                                                        p6,
                                                        lit_bytes(",\"active\":"@),
                                                    ) {
                                                        None
                                                    } else {
                                                        match sp_bool(
                                                            bs,
                                                            p6 + lit_bytes(
                                                                ",\"active\":"@,
                                                            ).len(),
                                                        ) {
                                                            None => None,
                                                            Some((active, p7)) => if lit_at(
                                                                bs,
                                                                p7,
                                                                lit_bytes("}"@),
                                                            ) {
                                                                Some(
                                                                    (
                                                                        NodeView {
                                                                            id,
                                                                            name,
                                                                            ipaddress,
                                                                            port,
                                                                            hit_timestamp: hit,
                                                                            mac_address: macs,
                                                                            active,
                                                                        },
                                                                        p7 + lit_bytes(
                                                                            "}"@,
                                                                        ).len(),
                                                                    ),
                                                                )
                                                            } else {
                                                                None
                                                            },
                                                        }
                                                    },
                                                }
                                            },
                                        }
                                    },
                                }
                            },
                        }
                    },
                }
            },
        }
    }
}

/// Reads the comma-separated nodes of a non-empty array, the nodes
/// read so far in `acc`.
pub open spec fn sp_node_items(bs: Seq<u8>, p: int, acc: Seq<NodeView>) -> Option<
    (Seq<NodeView>, int),
>
    decreases bs.len() - p,
{
    if p < 0 {
        None
    } else {
        match sp_node(bs, p) {
            None => None,
            Some((n, q)) => if q < bs.len() && bs[q] == 0x2c && q + 1 > p && q + 1 <= bs.len() {
                sp_node_items(bs, q + 1, acc + seq![n])
            } else {
                Some((acc + seq![n], q))
            },
        }
    }
}

/// Reads a JSON array of nodes at `p`.
pub open spec fn sp_node_array(bs: Seq<u8>, p: int) -> Option<(Seq<NodeView>, int)> {
    if !(0 <= p < bs.len() && bs[p] == 0x5b) {
        None
    } else if p + 1 < bs.len() && bs[p + 1] == 0x5d {
        Some((Seq::empty(), p + 2))
    } else {
        match sp_node_items(bs, p + 1, Seq::empty()) {
            None => None,
            Some((l, q)) => if q < bs.len() && bs[q] == 0x5d {
                Some((l, q + 1))
            } else {
                None
            },
        }
    }
}

/// What a whole byte sequence parses to: the canonical rendering of
/// exactly one configuration, with nothing before or after it.
pub open spec fn parse_config_spec(bs: Seq<u8>) -> Option<ConfigView> {
    if !lit_at(bs, 0, lit_bytes("{\"id\":"@)) {
        None
    } else {
        match crate::strutil::spec_parse_i64(bs, lit_bytes("{\"id\":"@).len() as int) {
            None => None,
            Some((id, p1)) => if !lit_at(bs, p1, lit_bytes(",\"board_ip\":"@)) {
                None
            } else {
                match sp_string(bs, p1 + lit_bytes(",\"board_ip\":"@).len()) {
                    None => None,
                    Some((board_ip, p2)) => if !lit_at(bs, p2, lit_bytes(",\"board_port\":"@)) {
                        None
                    } else {
                        match sp_u16(bs, p2 + lit_bytes(",\"board_port\":"@).len()) {
                            None => None,
                            Some((board_port, p3)) => if !lit_at(
                                bs,
                                p3,
                                lit_bytes(",\"node_timeout\":"@),
                            ) {
                                None
                            } else {
                                match sp_u16(bs, p3 + lit_bytes(",\"node_timeout\":"@).len()) {
                                    None => None,
                                    Some((node_timeout, p4)) => if !lit_at(
                                        bs,
                                        p4,
                                        lit_bytes(",\"node_name\":"@),
                                    ) {
                                        None
                                    } else {
                                        match sp_string(
                                            bs,
                                            p4 + lit_bytes(",\"node_name\":"@).len(),
                                        ) {
                                            None => None,
                                            Some((node_name, p5)) => if !lit_at(
                                                bs,
                                                p5,
                                                lit_bytes(",\"node_list\":"@),
                                            ) {
                                                None
                                            } else {
                                                match sp_node_array(
                                                    bs,
                                                    p5 + lit_bytes(",\"node_list\":"@).len(),
                                                ) {
                                                    None => None,
                                                    Some((node_list, p6)) => if lit_at(
                                                        bs,
                                                        p6,
                                                        lit_bytes("}"@),
                                                    ) && p6 + lit_bytes("}"@).len() == bs.len() {
                                                        Some(
                                                            ConfigView {
                                                                id,
                                                                board_ip,
                                                                board_port,
                                                                node_timeout,
                                                                node_name,
                                                                node_list,
                                                            },
                                                        )
                                                    } else {
                                                        None
                                                    },
                                                }
                                            },
                                        }
                                    },
                                }
                            },
                        }
                    },
                }
            },
        }
    }
}

proof fn lemma_lit_indexing(s: Seq<char>)
    requires
        vstd::utf8::is_ascii_chars(s),
    ensures
        lit_bytes(s).len() == s.len(),
        forall|i: int| 0 <= i < s.len() ==> lit_bytes(s)[i] == (#[trigger] s[i]) as u8,
{
    vstd::utf8::is_ascii_chars_encode_utf8(s);
}

/// Reading an escaped byte run back undoes the escaping.
proof fn lemma_sp_str_body_round(bs: Seq<u8>, p: int, acc: Seq<u8>, u: Seq<u8>)
    requires
        0 <= p,
        p + esc_bytes(u).len() + 1 <= bs.len(),
        bs.subrange(p, p + esc_bytes(u).len()) == esc_bytes(u),
        bs[p + esc_bytes(u).len()] == 0x22,
    ensures
        sp_str_body(bs, p, acc) == Some((acc + u, p + esc_bytes(u).len() + 1)),
    decreases u.len(),
{
    if u.len() == 0 {
        assert(esc_bytes(u).len() == 0);
        assert(bs[p] == 0x22);
        assert(acc + u =~= acc);
    } else {
        let b = u[0];
        let u2 = u.drop_first();
        let e1 = esc_byte(b);
        let e2 = esc_bytes(u2);
        assert(esc_bytes(u) == e1 + e2);
        assert forall|i: int| 0 <= i < e1.len() implies bs[p + i] == e1[i] by {
            assert(bs.subrange(p, p + esc_bytes(u).len())[i] == bs[p + i]);
            assert((e1 + e2)[i] == e1[i]);
        }
        if e1.len() >= 1 {
            assert(bs.subrange(p, p + esc_bytes(u).len())[0] == bs[p + 0]);
            assert((e1 + e2)[0] == e1[0]);
            assert(bs[p] == e1[0]);
        }
        if e1.len() >= 2 {
            assert(bs.subrange(p, p + esc_bytes(u).len())[1] == bs[p + 1]);
            assert((e1 + e2)[1] == e1[1]);
        }
        if e1.len() >= 6 {
            assert(bs.subrange(p, p + esc_bytes(u).len())[2] == bs[p + 2]);
            assert((e1 + e2)[2] == e1[2]);
            assert(bs.subrange(p, p + esc_bytes(u).len())[3] == bs[p + 3]);
            assert((e1 + e2)[3] == e1[3]);
            assert(bs.subrange(p, p + esc_bytes(u).len())[4] == bs[p + 4]);
            assert((e1 + e2)[4] == e1[4]);
            assert(bs.subrange(p, p + esc_bytes(u).len())[5] == bs[p + 5]);
            assert((e1 + e2)[5] == e1[5]);
        }
        assert(bs.subrange(p + e1.len(), p + e1.len() + e2.len()) =~= e2) by {
            assert forall|i: int| 0 <= i < e2.len() implies bs.subrange(
                p + e1.len(),
                p + e1.len() + e2.len(),
            )[i] == e2[i] by {
                assert(bs.subrange(p, p + esc_bytes(u).len())[e1.len() + i] == bs[p + e1.len()
                    + i]);
                assert((e1 + e2)[e1.len() + i] == e2[i]);
            }
        }
        if b == 0x22 {
            assert(bs[p] == 0x5c && bs[p + 1] == 0x22);
            lemma_sp_str_body_round(bs, p + 2, acc + seq![b], u2);
            assert(acc + seq![b] + u2 =~= acc + u);
        } else if b == 0x5c {
            assert(bs[p] == 0x5c && bs[p + 1] == 0x5c);
            lemma_sp_str_body_round(bs, p + 2, acc + seq![b], u2);
            assert(acc + seq![b] + u2 =~= acc + u);
        } else if b < 0x20 {
            assert(bs[p] == 0x5c && bs[p + 1] == 0x75 && bs[p + 2] == 0x30 && bs[p + 3] == 0x30);
            assert(bs[p + 4] == hex_digit(b / 16) && bs[p + 5] == hex_digit(b % 16));
            assert(is_hex(hex_digit(b / 16)) && hex_val(hex_digit(b / 16)) == b / 16);
            assert(is_hex(hex_digit(b % 16)) && hex_val(hex_digit(b % 16)) == b % 16);
            assert((b / 16) * 16 + b % 16 == b);
            lemma_sp_str_body_round(bs, p + 6, acc + seq![b], u2);
            assert(acc + seq![b] + u2 =~= acc + u);
        } else {
            assert(bs[p] == b);
            assert(b != 0x22 && b != 0x5c);
            lemma_sp_str_body_round(bs, p + 1, acc + seq![b], u2);
            assert(acc + seq![b] + u2 =~= acc + u);
        }
    }
}

/// Reading a rendered string back gives the string.
proof fn lemma_sp_string_round(bs: Seq<u8>, p: int, s: Seq<char>)
    requires
        0 <= p,
        p + json_str(s).len() <= bs.len(),
        bs.subrange(p, p + json_str(s).len()) == json_str(s),
    ensures
        sp_string(bs, p) == Some((s, p + json_str(s).len())),
{
    let u = encode_utf8(s);
    let j = json_str(s);
    assert(j.len() == esc_bytes(u).len() + 2);
    assert(bs[p] == 0x22) by {
        assert(bs.subrange(p, p + j.len())[0] == bs[p]);
        assert(j[0] == 0x22);
    }
    assert forall|i: int| 0 <= i < esc_bytes(u).len() implies bs[p + 1 + i] == esc_bytes(u)[i] by {
        assert(bs.subrange(p, p + j.len())[1 + i] == bs[p + 1 + i]);
        assert(j[1 + i] == (seq![0x22u8] + esc_bytes(u) + seq![0x22u8])[1 + i]);
        assert(j[1 + i] == esc_bytes(u)[i]);
    }
    assert(bs.subrange(p + 1, p + 1 + esc_bytes(u).len()) =~= esc_bytes(u));
    assert(bs[p + 1 + esc_bytes(u).len()] == 0x22) by {
        assert(bs.subrange(p, p + j.len())[j.len() - 1] == bs[p + j.len() - 1]);
        assert(j[j.len() - 1] == 0x22);
    }
    lemma_sp_str_body_round(bs, p + 1, Seq::empty(), u);
    assert(Seq::<u8>::empty() + u =~= u);
    broadcast use encode_utf8_valid_utf8;

    encode_utf8_decode_utf8(s);
}

/// Reading a rendered unsigned decimal back gives the value.
proof fn lemma_sp_u128_at(bs: Seq<u8>, p: int, n: u128)
    requires
        dec_matches_at(bs, p, dec_bytes(n as nat)),
    ensures
        sp_u128(bs, p) == Some((n, p + dec_bytes(n as nat).len())),
{
    lemma_parse_dec_at(bs, p, n as nat);
}

proof fn lemma_sp_u16_at(bs: Seq<u8>, p: int, n: u16)
    requires
        dec_matches_at(bs, p, dec_bytes(n as nat)),
    ensures
        sp_u16(bs, p) == Some((n, p + dec_bytes(n as nat).len())),
{
    lemma_sp_u128_at(bs, p, n as u128);
}

/// Reading a rendered signed decimal back gives the value.
proof fn lemma_sp_i64_at(bs: Seq<u8>, p: int, v: i64)
    requires
        dec_i64_matches_at(bs, p, v),
    ensures
        crate::strutil::spec_parse_i64(bs, p) == Some((v, p + dec_bytes_i64(v as int).len())),
{
    if v >= 0 {
        lemma_parse_dec_at(bs, p, v as nat);
        lemma_dec_bytes_digits(v as nat);
        assert(bs[p] == dec_bytes(v as nat)[0]) by {
            assert(bs.subrange(p, p + dec_bytes(v as nat).len())[0] == bs[p]);
        }
        assert(bs[p] != 0x2d);
    } else {
        let m = (-(v as int)) as nat;
        lemma_parse_dec_at(bs, p + 1, m);
        lemma_dec_bytes_digits(m);
        assert(1 <= m <= 0x8000_0000_0000_0000);
        assert((0 - m as int) as i64 == v);
    }
}

/// Reading a rendered boolean back gives the value.
proof fn lemma_sp_bool_at(bs: Seq<u8>, p: int, b: bool)
    requires
        lit_at(bs, p, json_bool(b)),
    ensures
        sp_bool(bs, p) == Some((b, p + json_bool(b).len())),
{
    if b {
        assert(lit_at(bs, p, json_bool(true)));
    } else {
        if lit_at(bs, p, json_bool(true)) {
            assert(bs.subrange(p, p + 4)[0] == bs[p]);
            assert(bs.subrange(p, p + 5)[0] == bs[p]);
            assert(false);
        }
    }
}

/// A rendered segment inside a larger rendering stands at its offset.
proof fn lemma_seg_at(bs: Seq<u8>, p: int, whole: Seq<u8>, off: int, seg: Seq<u8>)
    requires
        0 <= p,
        p + whole.len() <= bs.len(),
        bs.subrange(p, p + whole.len()) == whole,
        0 <= off,
        off + seg.len() <= whole.len(),
        whole.subrange(off, off + seg.len()) == seg,
    ensures
        bs.subrange(p + off, p + off + seg.len()) == seg,
{
    assert forall|i: int| 0 <= i < seg.len() implies bs.subrange(
        p + off,
        p + off + seg.len(),
    )[i] == seg[i] by {
        assert(bs.subrange(p, p + whole.len())[off + i] == bs[p + off + i]);
        assert(whole.subrange(off, off + seg.len())[i] == whole[off + i]);
    }
    assert(bs.subrange(p + off, p + off + seg.len()) =~= seg);
}

/// Splitting a rendered pair of segments at their boundary.
pub proof fn lemma_split_concat(bs: Seq<u8>, p: int, a: Seq<u8>, b: Seq<u8>)
    requires
        0 <= p,
        p + a.len() + b.len() <= bs.len(),
        bs.subrange(p, p + a.len() + b.len()) == a + b,
    ensures
        bs.subrange(p, p + a.len()) == a,
        bs.subrange(p + a.len(), p + a.len() + b.len()) == b,
{
    assert forall|i: int| 0 <= i < a.len() implies bs.subrange(p, p + a.len())[i] == a[i] by {
        assert(bs.subrange(p, p + a.len())[i] == bs[p + i]);
        assert(bs.subrange(p, p + a.len() + b.len())[i] == bs[p + i]);
        assert((a + b)[i] == a[i]);
    }
    assert(bs.subrange(p, p + a.len()) =~= a);
    assert forall|i: int| 0 <= i < b.len() implies bs.subrange(
        p + a.len(),
        p + a.len() + b.len(),
    )[i] == b[i] by {
        assert(bs.subrange(p + a.len(), p + a.len() + b.len())[i] == bs[p + a.len() + i]);
        assert(bs.subrange(p, p + a.len() + b.len())[a.len() + i] == bs[p + a.len() + i]);
        assert((a + b)[a.len() + i] == b[i]);
    }
    assert(bs.subrange(p + a.len(), p + a.len() + b.len()) =~= b);
}

/// A rendered unsigned decimal followed by a non-digit parses exactly.
proof fn lemma_dec_seg(bs: Seq<u8>, p: int, d: Seq<u8>)
    requires
        0 <= p,
        p + d.len() < bs.len(),
        bs.subrange(p, p + d.len()) == d,
        !is_digit(bs[p + d.len()]),
    ensures
        dec_matches_at(bs, p, d),
{
}

/// A rendered signed decimal followed by a non-digit matches.
proof fn lemma_dec_i64_seg(bs: Seq<u8>, p: int, v: i64)
    requires
        0 <= p,
        p + dec_bytes_i64(v as int).len() < bs.len(),
        bs.subrange(p, p + dec_bytes_i64(v as int).len()) == dec_bytes_i64(v as int),
        !is_digit(bs[p + dec_bytes_i64(v as int).len()]),
    ensures
        dec_i64_matches_at(bs, p, v),
{
    let d = dec_bytes_i64(v as int);
    if v >= 0 {
        assert(dec_matches_at(bs, p, dec_bytes(v as nat)));
    } else {
        let m = dec_bytes((-(v as int)) as nat);
        assert(d == seq![0x2du8] + m);
        lemma_split_concat(bs, p, seq![0x2du8], m);
        assert(bs.subrange(p, p + 1)[0] == bs[p]);
        assert(bs[p] == 0x2d);
        assert(dec_matches_at(bs, p + 1, m));
    }
}

/// Reading rendered string items back, up to a closing bracket.
proof fn lemma_sp_str_items_round(bs: Seq<u8>, p: int, l: Seq<Seq<char>>, acc: Seq<Seq<char>>)
    requires
        l.len() >= 1,
        0 <= p,
        p + json_str_items(l).len() <= bs.len(),
        bs.subrange(p, p + json_str_items(l).len()) == json_str_items(l),
        p + json_str_items(l).len() == bs.len() || bs[p + json_str_items(l).len()] != 0x2c,
    ensures
        sp_str_items(bs, p, acc) == Some((acc + l, p + json_str_items(l).len())),
    decreases l.len(),
{
    if l.len() == 1 {
        assert(json_str_items(l) == json_str(l[0]));
        lemma_sp_string_round(bs, p, l[0]);
        assert(acc + seq![l[0]] =~= acc + l);
    } else {
        let s1 = json_str(l[0]);
        let rest = json_str_items(l.drop_first());
        assert(json_str_items(l) == s1 + seq![0x2cu8] + rest);
        assert(s1 + seq![0x2cu8] + rest =~= s1 + (seq![0x2cu8] + rest));
        lemma_split_concat(bs, p, s1, seq![0x2cu8] + rest);
        lemma_sp_string_round(bs, p, l[0]);
        let q = p + s1.len();
        lemma_split_concat(bs, q, seq![0x2cu8], rest);
        assert(bs.subrange(q, q + 1)[0] == bs[q]);
        assert(bs[q] == 0x2c);
        lemma_sp_str_items_round(bs, q + 1, l.drop_first(), acc + seq![l[0]]);
        assert(acc + seq![l[0]] + l.drop_first() =~= acc + l);
    }
}

/// Reading a rendered string array back gives the list.
proof fn lemma_sp_str_array_round(bs: Seq<u8>, p: int, l: Seq<Seq<char>>)
    requires
        0 <= p,
        p + json_str_array(l).len() <= bs.len(),
        bs.subrange(p, p + json_str_array(l).len()) == json_str_array(l),
    ensures
        sp_str_array(bs, p) == Some((l, p + json_str_array(l).len())),
{
    let items = json_str_items(l);
    let w = json_str_array(l);
    assert(w == seq![0x5bu8] + items + seq![0x5du8]);
    assert(seq![0x5bu8] + items + seq![0x5du8] =~= seq![0x5bu8] + (items + seq![0x5du8]));
    lemma_split_concat(bs, p, seq![0x5bu8], items + seq![0x5du8]);
    assert(bs.subrange(p, p + 1)[0] == bs[p]);
    assert(bs[p] == 0x5b);
    lemma_split_concat(bs, p + 1, items, seq![0x5du8]);
    let q = p + 1 + items.len();
    assert(bs.subrange(q, q + 1)[0] == bs[q]);
    assert(bs[q] == 0x5d);
    if l.len() == 0 {
        assert(items.len() == 0);
        assert(bs[p + 1] == 0x5d);
        assert(sp_str_array(bs, p) == Some((Seq::<Seq<char>>::empty(), p + 2)));
        assert(Seq::<Seq<char>>::empty() =~= l);
    } else {
        assert(items[0] == json_str(l[0])[0]) by {
            if l.len() == 1 {
            } else {
                assert((json_str(l[0]) + seq![0x2cu8] + json_str_items(l.drop_first()))[0]
                    == json_str(l[0])[0]);
            }
        }
        assert(json_str(l[0])[0] == 0x22);
        assert(bs.subrange(p + 1, p + 1 + items.len())[0] == bs[p + 1]);
        assert(bs[p + 1] == 0x22);
        lemma_sp_str_items_round(bs, p + 1, l, Seq::empty());
        assert(Seq::<Seq<char>>::empty() + l =~= l);
    }
}

/// A literal of ASCII characters has one UTF-8 byte per character.
proof fn lemma_lit_ascii_len(t: Seq<char>)
    requires
        vstd::utf8::is_ascii_chars(t),
    ensures
        lit_bytes(t).len() == t.len(),
{
    vstd::utf8::is_ascii_chars_encode_utf8(t);
}

/// The first byte of the UTF-8 form of a string that starts with an
/// ASCII character is that character.
proof fn lemma_utf8_first_ascii(s: Seq<char>, b: u8)
    requires
        s.len() >= 1,
        (s[0] as u32) == b as u32,
        b < 0x80,
    ensures
        encode_utf8(s).len() >= 1,
        encode_utf8(s)[0] == b,
{
    assert(encode_utf8(s) == vstd::utf8::encode_scalar(s[0] as u32) + encode_utf8(s.drop_first()));
    assert(vstd::utf8::has_width_1_encoding(s[0] as u32));
    let x = b as u32;
    assert(x & 0x7F == x) by (bit_vector)
        requires
            x < 0x80,
    ;
    assert(vstd::utf8::leading_byte_width_1(s[0] as u32) == b);
    assert((vstd::utf8::encode_scalar(s[0] as u32) + encode_utf8(s.drop_first()))[0]
        == vstd::utf8::encode_scalar(s[0] as u32)[0]);
}

/// A node's rendering opens with a brace.
proof fn lemma_json_node_first_byte(n: NodeView)
    ensures
        json_node(n).len() >= 1,
        json_node(n)[0] == 0x7b,
{
    let s1 = lit_bytes("{\"id\":"@);
    reveal_strlit("{\"id\":");
    assert(("{\"id\":"@)[0] == '{');
    lemma_utf8_first_ascii("{\"id\":"@, 0x7b);
    let c2 = s1 + dec_bytes_i64(n.id as int);
    let c3 = c2 + lit_bytes(",\"name\":"@);
    let c4 = c3 + json_str(n.name);
    let c5 = c4 + lit_bytes(",\"ipaddress\":"@);
    let c6 = c5 + json_str(n.ipaddress);
    let c7 = c6 + lit_bytes(",\"port\":"@);
    let c8 = c7 + dec_bytes(n.port as nat);
    let c9 = c8 + lit_bytes(",\"hit_timestamp\":"@);
    let c10 = c9 + dec_bytes(n.hit_timestamp as nat);
    let c11 = c10 + lit_bytes(",\"mac_address\":"@);
    let c12 = c11 + json_str_array(n.mac_address);
    let c13 = c12 + lit_bytes(",\"active\":"@);
    let c14 = c13 + json_bool(n.active);
    let c15 = c14 + lit_bytes("}"@);
    assert(c2[0] == s1[0]);
    assert(c3[0] == c2[0]);
    assert(c4[0] == c3[0]);
    assert(c5[0] == c4[0]);
    assert(c6[0] == c5[0]);
    assert(c7[0] == c6[0]);
    assert(c8[0] == c7[0]);
    assert(c9[0] == c8[0]);
    assert(c10[0] == c9[0]);
    assert(c11[0] == c10[0]);
    assert(c12[0] == c11[0]);
    assert(c13[0] == c12[0]);
    assert(c14[0] == c13[0]);
    assert(c15[0] == c14[0]);
    assert(json_node(n) == c15);
}

/// Reading a rendered node back gives the node.
#[verifier::rlimit(100)]
#[verifier::spinoff_prover]
proof fn lemma_sp_node_round(bs: Seq<u8>, p: int, n: NodeView)
    requires
        0 <= p,
        p + json_node(n).len() <= bs.len(),
        bs.subrange(p, p + json_node(n).len()) == json_node(n),
    ensures
        sp_node(bs, p) == Some((n, p + json_node(n).len())),
{
    let s1 = lit_bytes("{\"id\":"@);
    let s2 = dec_bytes_i64(n.id as int);
    let s3 = lit_bytes(",\"name\":"@);
    let s4 = json_str(n.name);
    let s5 = lit_bytes(",\"ipaddress\":"@);
    let s6 = json_str(n.ipaddress);
    let s7 = lit_bytes(",\"port\":"@);
    let s8 = dec_bytes(n.port as nat);
    let s9 = lit_bytes(",\"hit_timestamp\":"@);
    let s10 = dec_bytes(n.hit_timestamp as nat);
    let s11 = lit_bytes(",\"mac_address\":"@);
    let s12 = json_str_array(n.mac_address);
    let s13 = lit_bytes(",\"active\":"@);
    let s14 = json_bool(n.active);
    let s15 = lit_bytes("}"@);
    let c2 = s1 + s2;
    let c3 = c2 + s3;
    let c4 = c3 + s4;
    let c5 = c4 + s5;
    let c6 = c5 + s6;
    let c7 = c6 + s7;
    let c8 = c7 + s8;
    let c9 = c8 + s9;
    let c10 = c9 + s10;
    let c11 = c10 + s11;
    let c12 = c11 + s12;
    let c13 = c12 + s13;
    let c14 = c13 + s14;
    let c15 = c14 + s15;
    assert(json_node(n) == c15);
    lemma_split_concat(bs, p, c14, s15);
    lemma_split_concat(bs, p, c13, s14);
    lemma_split_concat(bs, p, c12, s13);
    lemma_split_concat(bs, p, c11, s12);
    lemma_split_concat(bs, p, c10, s11);
    lemma_split_concat(bs, p, c9, s10);
    lemma_split_concat(bs, p, c8, s9);
    lemma_split_concat(bs, p, c7, s8);
    lemma_split_concat(bs, p, c6, s7);
    lemma_split_concat(bs, p, c5, s6);
    lemma_split_concat(bs, p, c4, s5);
    lemma_split_concat(bs, p, c3, s4);
    lemma_split_concat(bs, p, c2, s3);
    lemma_split_concat(bs, p, s1, s2);
    let o1 = p + s1.len();
    let o2 = o1 + s2.len();
    let o3 = o2 + s3.len();
    let o4 = o3 + s4.len();
    let o5 = o4 + s5.len();
    let o6 = o5 + s6.len();
    let o7 = o6 + s7.len();
    let o8 = o7 + s8.len();
    let o9 = o8 + s9.len();
    let o10 = o9 + s10.len();
    let o11 = o10 + s11.len();
    let o12 = o11 + s12.len();
    let o13 = o12 + s13.len();
    let o14 = o13 + s14.len();
    // the id's digits end where a comma begins
    reveal_strlit(",\"name\":");
    assert((",\"name\":"@)[0] == ',');
    lemma_utf8_first_ascii(",\"name\":"@, 0x2c);
    assert(bs.subrange(o2, o3)[0] == bs[o2]);
    assert(bs[o2] == 0x2c);
    lemma_dec_i64_seg(bs, o1, n.id);
    lemma_sp_i64_at(bs, o1, n.id);
    lemma_sp_string_round(bs, o3, n.name);
    lemma_sp_string_round(bs, o5, n.ipaddress);
    reveal_strlit(",\"hit_timestamp\":");
    assert((",\"hit_timestamp\":"@)[0] == ',');
    lemma_utf8_first_ascii(",\"hit_timestamp\":"@, 0x2c);
    assert(bs.subrange(o8, o9)[0] == bs[o8]);
    assert(bs[o8] == 0x2c);
    lemma_dec_seg(bs, o7, s8);
    lemma_sp_u16_at(bs, o7, n.port);
    reveal_strlit(",\"mac_address\":");
    assert((",\"mac_address\":"@)[0] == ',');
    lemma_utf8_first_ascii(",\"mac_address\":"@, 0x2c);
    assert(bs.subrange(o10, o11)[0] == bs[o10]);
    assert(bs[o10] == 0x2c);
    lemma_dec_seg(bs, o9, s10);
    lemma_sp_u128_at(bs, o9, n.hit_timestamp);
    lemma_sp_str_array_round(bs, o11, n.mac_address);
    lemma_sp_bool_at(bs, o13, n.active);
    assert(lit_at(bs, p, s1));
    assert(lit_at(bs, o2, s3));
    assert(lit_at(bs, o4, s5));
    assert(lit_at(bs, o6, s7));
    assert(lit_at(bs, o8, s9));
    assert(lit_at(bs, o10, s11));
    assert(lit_at(bs, o12, s13));
    assert(lit_at(bs, o14, s15));
    reveal_strlit("}");
    assert(("}"@).len() == 1);
    assert(("}"@)[0] == '}');
    assert(vstd::utf8::is_ascii_chars("}"@)) by {
        assert forall|i: int| 0 <= i < ("}"@).len() implies '\0' <= #[trigger] ("}"@)[i] <= '\u{7f}' by {
            assert(("}"@)[i] == '}');
        }
    }
    lemma_lit_ascii_len("}"@);
    assert(s15.len() == 1);
    let r = sp_node(bs, p);
    assert(r == Some((n, p + json_node(n).len())));
}

/// Reading rendered node items back, up to a closing bracket.
#[verifier::rlimit(100)]
#[verifier::spinoff_prover]
proof fn lemma_sp_node_items_round(bs: Seq<u8>, p: int, l: Seq<NodeView>, acc: Seq<NodeView>)
    requires
        l.len() >= 1,
        0 <= p,
        p + json_node_items(l).len() <= bs.len(),
        bs.subrange(p, p + json_node_items(l).len()) == json_node_items(l),
        p + json_node_items(l).len() == bs.len() || bs[p + json_node_items(l).len()] != 0x2c,
    ensures
        sp_node_items(bs, p, acc) == Some((acc + l, p + json_node_items(l).len())),
    decreases l.len(),
{
    if l.len() == 1 {
        assert(json_node_items(l) == json_node(l[0]));
        lemma_sp_node_round(bs, p, l[0]);
        assert(acc + seq![l[0]] =~= acc + l);
    } else {
        let s1 = json_node(l[0]);
        let rest = json_node_items(l.drop_first());
        assert(json_node_items(l) == s1 + seq![0x2cu8] + rest);
        assert(s1 + seq![0x2cu8] + rest =~= s1 + (seq![0x2cu8] + rest));
        lemma_split_concat(bs, p, s1, seq![0x2cu8] + rest);
        lemma_sp_node_round(bs, p, l[0]);
        let q = p + s1.len();
        lemma_split_concat(bs, q, seq![0x2cu8], rest);
        assert(bs.subrange(q, q + 1)[0] == bs[q]);
        assert(bs[q] == 0x2c);
        lemma_sp_node_items_round(bs, q + 1, l.drop_first(), acc + seq![l[0]]);
        assert(acc + seq![l[0]] + l.drop_first() =~= acc + l);
    }
}

/// Reading a rendered node array back gives the list.
proof fn lemma_sp_node_array_round(bs: Seq<u8>, p: int, l: Seq<NodeView>)
    requires
        0 <= p,
        p + json_node_array(l).len() <= bs.len(),
        bs.subrange(p, p + json_node_array(l).len()) == json_node_array(l),
    ensures
        sp_node_array(bs, p) == Some((l, p + json_node_array(l).len())),
{
    let items = json_node_items(l);
    let w = json_node_array(l);
    assert(w == seq![0x5bu8] + items + seq![0x5du8]);
    assert(seq![0x5bu8] + items + seq![0x5du8] =~= seq![0x5bu8] + (items + seq![0x5du8]));
    lemma_split_concat(bs, p, seq![0x5bu8], items + seq![0x5du8]);
    assert(bs.subrange(p, p + 1)[0] == bs[p]);
    assert(bs[p] == 0x5b);
    lemma_split_concat(bs, p + 1, items, seq![0x5du8]);
    let q = p + 1 + items.len();
    assert(bs.subrange(q, q + 1)[0] == bs[q]);
    assert(bs[q] == 0x5d);
    if l.len() == 0 {
        assert(items.len() == 0);
        assert(bs[p + 1] == 0x5d);
        assert(sp_node_array(bs, p) == Some((Seq::<NodeView>::empty(), p + 2)));
        assert(Seq::<NodeView>::empty() =~= l);
    } else {
        lemma_json_node_first_byte(l[0]);
        assert(items[0] == json_node(l[0])[0]) by {
            if l.len() == 1 {
            } else {
                assert((json_node(l[0]) + seq![0x2cu8] + json_node_items(l.drop_first()))[0]
                    == json_node(l[0])[0]);
            }
        }
        assert(bs.subrange(p + 1, p + 1 + items.len())[0] == bs[p + 1]);
        assert(bs[p + 1] == 0x7b);
        lemma_sp_node_items_round(bs, p + 1, l, Seq::empty());
        assert(Seq::<NodeView>::empty() + l =~= l);
    }
}

/// Where each piece of a rendered configuration stands.
#[verifier::rlimit(100)]
#[verifier::spinoff_prover]
proof fn lemma_config_splits(c: ConfigView)
    ensures
        ({
            let bs = render_config_spec(c);
            let s1 = lit_bytes("{\"id\":"@);
            let s2 = dec_bytes_i64(c.id as int);
            let s3 = lit_bytes(",\"board_ip\":"@);
            let s4 = json_str(c.board_ip);
            let s5 = lit_bytes(",\"board_port\":"@);
            let s6 = dec_bytes(c.board_port as nat);
            let s7 = lit_bytes(",\"node_timeout\":"@);
            let s8 = dec_bytes(c.node_timeout as nat);
            let s9 = lit_bytes(",\"node_name\":"@);
            let s10 = json_str(c.node_name);
            let s11 = lit_bytes(",\"node_list\":"@);
            let s12 = json_node_array(c.node_list);
            let s13 = lit_bytes("}"@);
            let o1 = 0 + s1.len() as int;
            let o2 = o1 + s2.len();
            let o3 = o2 + s3.len();
            let o4 = o3 + s4.len();
            let o5 = o4 + s5.len();
            let o6 = o5 + s6.len();
            let o7 = o6 + s7.len();
            let o8 = o7 + s8.len();
            let o9 = o8 + s9.len();
            let o10 = o9 + s10.len();
            let o11 = o10 + s11.len();
            let o12 = o11 + s12.len();
            &&& bs.len() == o12 + s13.len()
            &&& bs.subrange(0, o1) == s1
            &&& bs.subrange(o1, o2) == s2
            &&& bs.subrange(o2, o3) == s3
            &&& bs.subrange(o3, o4) == s4
            &&& bs.subrange(o4, o5) == s5
            &&& bs.subrange(o5, o6) == s6
            &&& bs.subrange(o6, o7) == s7
            &&& bs.subrange(o7, o8) == s8
            &&& bs.subrange(o8, o9) == s9
            &&& bs.subrange(o9, o10) == s10
            &&& bs.subrange(o10, o11) == s11
            &&& bs.subrange(o11, o12) == s12
            &&& bs.subrange(o12, o12 + s13.len()) == s13
        }),
{
    let bs = render_config_spec(c);
    let s1 = lit_bytes("{\"id\":"@);
    let s2 = dec_bytes_i64(c.id as int);
    let s3 = lit_bytes(",\"board_ip\":"@);
    let s4 = json_str(c.board_ip);
    let s5 = lit_bytes(",\"board_port\":"@);
    let s6 = dec_bytes(c.board_port as nat);
    let s7 = lit_bytes(",\"node_timeout\":"@);
    let s8 = dec_bytes(c.node_timeout as nat);
    let s9 = lit_bytes(",\"node_name\":"@);
    let s10 = json_str(c.node_name);
    let s11 = lit_bytes(",\"node_list\":"@);
    let s12 = json_node_array(c.node_list);
    let s13 = lit_bytes("}"@);
    let c2 = s1 + s2;
    let c3 = c2 + s3;
    let c4 = c3 + s4;
    let c5 = c4 + s5;
    let c6 = c5 + s6;
    let c7 = c6 + s7;
    let c8 = c7 + s8;
    let c9 = c8 + s9;
    let c10 = c9 + s10;
    let c11 = c10 + s11;
    let c12 = c11 + s12;
    let c13 = c12 + s13;
    assert(bs == c13);
    assert(bs.subrange(0, bs.len() as int) =~= bs);
    lemma_split_concat(bs, 0, c12, s13);
    lemma_split_concat(bs, 0, c11, s12);
    lemma_split_concat(bs, 0, c10, s11);
    lemma_split_concat(bs, 0, c9, s10);
    lemma_split_concat(bs, 0, c8, s9);
    lemma_split_concat(bs, 0, c7, s8);
    lemma_split_concat(bs, 0, c6, s7);
    lemma_split_concat(bs, 0, c5, s6);
    lemma_split_concat(bs, 0, c4, s5);
    lemma_split_concat(bs, 0, c3, s4);
    lemma_split_concat(bs, 0, c2, s3);
    lemma_split_concat(bs, 0, s1, s2);
}

/// What the first half of a rendered configuration reads back to.
#[verifier::rlimit(100)]
#[verifier::spinoff_prover]
proof fn lemma_config_fields_a(c: ConfigView)
    ensures
        ({
            let bs = render_config_spec(c);
            let s1 = lit_bytes("{\"id\":"@);
            let s2 = dec_bytes_i64(c.id as int);
            let s3 = lit_bytes(",\"board_ip\":"@);
            let s4 = json_str(c.board_ip);
            let s5 = lit_bytes(",\"board_port\":"@);
            let s6 = dec_bytes(c.board_port as nat);
            let s7 = lit_bytes(",\"node_timeout\":"@);
            let s8 = dec_bytes(c.node_timeout as nat);
            let s9 = lit_bytes(",\"node_name\":"@);
            let s10 = json_str(c.node_name);
            let s11 = lit_bytes(",\"node_list\":"@);
            let s12 = json_node_array(c.node_list);
            let o1 = 0 + s1.len() as int;
            let o2 = o1 + s2.len();
            let o3 = o2 + s3.len();
            let o4 = o3 + s4.len();
            let o5 = o4 + s5.len();
            let o6 = o5 + s6.len();
            let o7 = o6 + s7.len();
            let o8 = o7 + s8.len();
            let o9 = o8 + s9.len();
            let o10 = o9 + s10.len();
            let o11 = o10 + s11.len();
            let o12 = o11 + s12.len();
            &&& lit_at(bs, 0, s1)
            &&& crate::strutil::spec_parse_i64(bs, o1) == Some((c.id, o2))
            &&& lit_at(bs, o2, s3)
            &&& sp_string(bs, o3) == Some((c.board_ip, o4))
            &&& lit_at(bs, o4, s5)
            &&& sp_u16(bs, o5) == Some((c.board_port, o6))
            &&& lit_at(bs, o6, s7)
        }),
{
    let bs = render_config_spec(c);
    let s1 = lit_bytes("{\"id\":"@);
    let s2 = dec_bytes_i64(c.id as int);
    let s3 = lit_bytes(",\"board_ip\":"@);
    let s4 = json_str(c.board_ip);
    let s5 = lit_bytes(",\"board_port\":"@);
    let s6 = dec_bytes(c.board_port as nat);
    let s7 = lit_bytes(",\"node_timeout\":"@);
    let s8 = dec_bytes(c.node_timeout as nat);
    let s9 = lit_bytes(",\"node_name\":"@);
    let s10 = json_str(c.node_name);
    let s11 = lit_bytes(",\"node_list\":"@);
    let s12 = json_node_array(c.node_list);
    let s13 = lit_bytes("}"@);
    lemma_config_splits(c);
    let o1 = 0 + s1.len() as int;
    let o2 = o1 + s2.len();
    let o3 = o2 + s3.len();
    let o4 = o3 + s4.len();
    let o5 = o4 + s5.len();
    let o6 = o5 + s6.len();
    let o7 = o6 + s7.len();
    let o8 = o7 + s8.len();
    let o9 = o8 + s9.len();
    let o10 = o9 + s10.len();
    let o11 = o10 + s11.len();
    let o12 = o11 + s12.len();
    reveal_strlit(",\"board_ip\":");
    assert((",\"board_ip\":"@)[0] == ',');
    lemma_utf8_first_ascii(",\"board_ip\":"@, 0x2c);
    assert(bs.subrange(o2, o3)[0] == bs[o2]);
    assert(bs[o2] == 0x2c);
    lemma_dec_i64_seg(bs, o1, c.id);
    lemma_sp_i64_at(bs, o1, c.id);
    lemma_sp_string_round(bs, o3, c.board_ip);
    reveal_strlit(",\"node_timeout\":");
    assert((",\"node_timeout\":"@)[0] == ',');
    lemma_utf8_first_ascii(",\"node_timeout\":"@, 0x2c);
    assert(bs.subrange(o6, o7)[0] == bs[o6]);
    assert(bs[o6] == 0x2c);
    lemma_dec_seg(bs, o5, s6);
    lemma_sp_u16_at(bs, o5, c.board_port);
}

/// What the second half of a rendered configuration reads back to.
#[verifier::rlimit(100)]
#[verifier::spinoff_prover]
proof fn lemma_config_fields_b(c: ConfigView)
    ensures
        ({
            let bs = render_config_spec(c);
            let s1 = lit_bytes("{\"id\":"@);
            let s2 = dec_bytes_i64(c.id as int);
            let s3 = lit_bytes(",\"board_ip\":"@);
            let s4 = json_str(c.board_ip);
            let s5 = lit_bytes(",\"board_port\":"@);
            let s6 = dec_bytes(c.board_port as nat);
            let s7 = lit_bytes(",\"node_timeout\":"@);
            let s8 = dec_bytes(c.node_timeout as nat);
            let s9 = lit_bytes(",\"node_name\":"@);
            let s10 = json_str(c.node_name);
            let s11 = lit_bytes(",\"node_list\":"@);
            let s12 = json_node_array(c.node_list);
            let o1 = 0 + s1.len() as int;
            let o2 = o1 + s2.len();
            let o3 = o2 + s3.len();
            let o4 = o3 + s4.len();
            let o5 = o4 + s5.len();
            let o6 = o5 + s6.len();
            let o7 = o6 + s7.len();
            let o8 = o7 + s8.len();
            let o9 = o8 + s9.len();
            let o10 = o9 + s10.len();
            let o11 = o10 + s11.len();
            let o12 = o11 + s12.len();
            &&& sp_u16(bs, o7) == Some((c.node_timeout, o8))
            &&& lit_at(bs, o8, s9)
            &&& sp_string(bs, o9) == Some((c.node_name, o10))
            &&& lit_at(bs, o10, s11)
        }),
{
    let bs = render_config_spec(c);
    let s1 = lit_bytes("{\"id\":"@);
    let s2 = dec_bytes_i64(c.id as int);
    let s3 = lit_bytes(",\"board_ip\":"@);
    let s4 = json_str(c.board_ip);
    let s5 = lit_bytes(",\"board_port\":"@);
    let s6 = dec_bytes(c.board_port as nat);
    let s7 = lit_bytes(",\"node_timeout\":"@);
    let s8 = dec_bytes(c.node_timeout as nat);
    let s9 = lit_bytes(",\"node_name\":"@);
    let s10 = json_str(c.node_name);
    let s11 = lit_bytes(",\"node_list\":"@);
    let s12 = json_node_array(c.node_list);
    let s13 = lit_bytes("}"@);
    lemma_config_splits(c);
    let o1 = 0 + s1.len() as int;
    let o2 = o1 + s2.len();
    let o3 = o2 + s3.len();
    let o4 = o3 + s4.len();
    let o5 = o4 + s5.len();
    let o6 = o5 + s6.len();
    let o7 = o6 + s7.len();
    let o8 = o7 + s8.len();
    let o9 = o8 + s9.len();
    let o10 = o9 + s10.len();
    let o11 = o10 + s11.len();
    let o12 = o11 + s12.len();
    reveal_strlit(",\"node_name\":");
    assert((",\"node_name\":"@)[0] == ',');
    lemma_utf8_first_ascii(",\"node_name\":"@, 0x2c);
    assert(bs.subrange(o8, o9)[0] == bs[o8]);
    assert(bs[o8] == 0x2c);
    lemma_dec_seg(bs, o7, s8);
    lemma_sp_u16_at(bs, o7, c.node_timeout);
    lemma_sp_string_round(bs, o9, c.node_name);
}

/// The closing brace is one byte.
proof fn lemma_closing_brace()
    ensures
        lit_bytes("}"@).len() == 1,
        lit_bytes("}"@)[0] == 0x7d,
{
    reveal_strlit("}");
    assert(("}"@).len() == 1);
    assert(("}"@)[0] == '}');
    assert(vstd::utf8::is_ascii_chars("}"@)) by {
        assert forall|i: int| 0 <= i < ("}"@).len() implies '\0' <= #[trigger] ("}"@)[i]
            <= '\u{7f}' by {
            assert(("}"@)[i] == '}');
        }
    }
    vstd::utf8::is_ascii_chars_encode_utf8("}"@);
}

/// What the tail of a rendered configuration reads back to.
#[verifier::rlimit(100)]
#[verifier::spinoff_prover]
proof fn lemma_config_fields_c(c: ConfigView)
    ensures
        ({
            let bs = render_config_spec(c);
            let s1 = lit_bytes("{\"id\":"@);
            let s2 = dec_bytes_i64(c.id as int);
            let s3 = lit_bytes(",\"board_ip\":"@);
            let s4 = json_str(c.board_ip);
            let s5 = lit_bytes(",\"board_port\":"@);
            let s6 = dec_bytes(c.board_port as nat);
            let s7 = lit_bytes(",\"node_timeout\":"@);
            let s8 = dec_bytes(c.node_timeout as nat);
            let s9 = lit_bytes(",\"node_name\":"@);
            let s10 = json_str(c.node_name);
            let s11 = lit_bytes(",\"node_list\":"@);
            let s12 = json_node_array(c.node_list);
            let o11 = s1.len() + s2.len() + s3.len() + s4.len() + s5.len() + s6.len() + s7.len()
                + s8.len() + s9.len() + s10.len() + s11.len();
            let o12 = o11 + s12.len();
            &&& sp_node_array(bs, o11 as int) == Some((c.node_list, o12 as int))
            &&& lit_at(bs, o12 as int, lit_bytes("}"@))
            &&& bs.len() == o12 + 1
        }),
{
    let bs = render_config_spec(c);
    let s1 = lit_bytes("{\"id\":"@);
    let s2 = dec_bytes_i64(c.id as int);
    let s3 = lit_bytes(",\"board_ip\":"@);
    let s4 = json_str(c.board_ip);
    let s5 = lit_bytes(",\"board_port\":"@);
    let s6 = dec_bytes(c.board_port as nat);
    let s7 = lit_bytes(",\"node_timeout\":"@);
    let s8 = dec_bytes(c.node_timeout as nat);
    let s9 = lit_bytes(",\"node_name\":"@);
    let s10 = json_str(c.node_name);
    let s11 = lit_bytes(",\"node_list\":"@);
    let s12 = json_node_array(c.node_list);
    let s13 = lit_bytes("}"@);
    lemma_config_splits(c);
    let o11 = s1.len() + s2.len() + s3.len() + s4.len() + s5.len() + s6.len() + s7.len()
        + s8.len() + s9.len() + s10.len() + s11.len();
    let o12 = o11 + s12.len();
    lemma_sp_node_array_round(bs, o11 as int, c.node_list);
    lemma_closing_brace();
    assert(s13.len() == 1);
}

/// Reading back the canonical rendering of a configuration gives the
/// configuration.
///
/// This is the store's durability law: after any successful write of
/// the rendered configuration, re-reading the same bytes yields every
/// written value.
#[verifier::rlimit(100)]
#[verifier::spinoff_prover]
pub proof fn lemma_config_round_trip(c: ConfigView)
    ensures
        parse_config_spec(render_config_spec(c)) == Some(c),
{
    let bs = render_config_spec(c);
    lemma_config_fields_a(c);
    lemma_config_fields_b(c);
    lemma_config_fields_c(c);
    assert(parse_config_spec(bs) == Some(c));
}

/// Reads the given literal at `p`, returning the position after it.
fn expect_lit(b: &Vec<u8>, p: usize, lit: &str) -> (r: Option<usize>)
    requires
        p <= b@.len(),
    ensures
        r is Some <==> lit_at(b@, p as int, lit_bytes(lit@)),
        r is Some ==> r.unwrap() == p + lit_bytes(lit@).len() && r.unwrap() <= b@.len(),
{
    let lb = string_to_bytes(lit);
    let n = lb.len();
    if b.len() - p < n {
        proof {
            assert(!lit_at(b@, p as int, lit_bytes(lit@)));
        }
        return None;
    }
    let bn = b.len();
    let mut i: usize = 0;
    while i < n
        invariant
            0 <= i <= n == lb@.len(),
            lb@ == lit_bytes(lit@),
            p + n <= bn == b@.len(),
            forall|j: int| 0 <= j < i ==> b@[p + j] == lb@[j],
        decreases n - i,
    {
        if b[p + i] != lb[i] {
            proof {
                if lit_at(b@, p as int, lit_bytes(lit@)) {
                    assert(b@.subrange(p as int, p + lb@.len())[i as int] == b@[p + i]);
                }
            }
            return None;
        }
        i = i + 1;
    }
    proof {
        assert(b@.subrange(p as int, p + lb@.len()) =~= lb@);
    }
    Some(p + n)
}

/// Reads a quoted JSON string at `p`.
fn parse_json_string(b: &Vec<u8>, p: usize) -> (r: Option<(String, usize)>)
    requires
        p <= b@.len(),
    ensures
        r is Some <==> sp_string(b@, p as int) is Some,
        r is Some ==> ({
            let (sv, qv) = sp_string(b@, p as int).unwrap();
            &&& r.unwrap().0@ == sv
            &&& r.unwrap().1 == qv
            &&& p < r.unwrap().1 <= b@.len()
        }),
{
    let len = b.len();
    if p >= len || b[p] != 0x22 {
        return None;
    }
    let mut acc: Vec<u8> = Vec::new();
    let mut q: usize = p + 1;
    loop
        invariant
            p + 1 <= q <= b@.len() == len,
            sp_str_body(b@, (p + 1) as int, Seq::empty()) == sp_str_body(b@, q as int, acc@),
            0 <= p < b@.len(),
            b@[p as int] == 0x22,
        decreases b@.len() - q,
    {
        if q >= len {
            return None;
        }
        let d = b[q];
        if d == 0x22 {
            let ghost accv = acc@;
            let s = bytes_to_string(acc);
            match s {
                Some(s) => {
                    proof {
                        assert(valid_utf8(accv)) by {
                            encode_utf8_valid_utf8(s@);
                        }
                        encode_utf8_decode_utf8(s@);
                        assert(decode_utf8(accv) == s@);
                    }
                    return Some((s, q + 1));
                },
                None => {
                    proof {
                        if valid_utf8(accv) {
                            assert(false);
                        }
                    }
                    return None;
                },
            }
        }
        if d == 0x5c {
            if len - q < 2 {
                return None;
            }
            let e = b[q + 1];
            if e == 0x22 {
                let ghost a0 = acc@;
                acc.push(0x22);
                proof {
                    assert(acc@ =~= a0 + seq![0x22u8]);
                }
                q = q + 2;
            } else if e == 0x5c {
                let ghost a0 = acc@;
                acc.push(0x5c);
                proof {
                    assert(acc@ =~= a0 + seq![0x5cu8]);
                }
                q = q + 2;
            } else if e == 0x75 {
                if len - q < 6 {
                    return None;
                }
                let h1 = b[q + 4];
                let h2 = b[q + 5];
                let ok = b[q + 2] == 0x30 && b[q + 3] == 0x30 && (h1 >= 0x30 && h1 <= 0x39 || h1
                    >= 0x61 && h1 <= 0x66) && (h2 >= 0x30 && h2 <= 0x39 || h2 >= 0x61 && h2
                    <= 0x66);
                if !ok {
                    return None;
                }
                let v1 = if h1 <= 0x39 {
                    h1 - 0x30
                } else {
                    h1 - 0x57
                };
                let v2 = if h2 <= 0x39 {
                    h2 - 0x30
                } else {
                    h2 - 0x57
                };
                let v = v1 * 16 + v2;
                if v >= 0x20 {
                    return None;
                }
                let ghost a0 = acc@;
                acc.push(v);
                proof {
                    assert(v == hex_val(h1) * 16 + hex_val(h2));
                    assert(acc@ =~= a0 + seq![v]);
                }
                q = q + 6;
            } else {
                return None;
            }
        } else {
            let ghost a0 = acc@;
            acc.push(d);
            proof {
                assert(acc@ =~= a0 + seq![d]);
            }
            q = q + 1;
        }
    }
}

/// Reads `true` or `false` at `p`.
fn parse_json_bool(b: &Vec<u8>, p: usize) -> (r: Option<(bool, usize)>)
    requires
        p <= b@.len(),
    ensures
        r is Some <==> sp_bool(b@, p as int) is Some,
        r is Some ==> r.unwrap().0 == sp_bool(b@, p as int).unwrap().0 && r.unwrap().1 == sp_bool(
            b@,
            p as int,
        ).unwrap().1 && p < r.unwrap().1 <= b@.len(),
{
    let len = b.len();
    if len - p >= 4 && b[p] == 0x74 && b[p + 1] == 0x72 && b[p + 2] == 0x75 && b[p + 3] == 0x65 {
        proof {
            assert(b@.subrange(p as int, p + 4) =~= json_bool(true));
        }
        return Some((true, p + 4));
    }
    if len - p >= 5 && b[p] == 0x66 && b[p + 1] == 0x61 && b[p + 2] == 0x6c && b[p + 3] == 0x73
        && b[p + 4] == 0x65 {
        proof {
            assert(b@.subrange(p as int, p + 5) =~= json_bool(false));
        }
        return Some((false, p + 5));
    }
    proof {
        if lit_at(b@, p as int, json_bool(true)) {
            assert(b@.subrange(p as int, p + 4)[0] == b@[p as int]);
            assert(b@.subrange(p as int, p + 4)[1] == b@[p + 1]);
            assert(b@.subrange(p as int, p + 4)[2] == b@[p + 2]);
            assert(b@.subrange(p as int, p + 4)[3] == b@[p + 3]);
            assert(false);
        }
        if lit_at(b@, p as int, json_bool(false)) {
            assert(b@.subrange(p as int, p + 5)[0] == b@[p as int]);
            assert(b@.subrange(p as int, p + 5)[1] == b@[p + 1]);
            assert(b@.subrange(p as int, p + 5)[2] == b@[p + 2]);
            assert(b@.subrange(p as int, p + 5)[3] == b@[p + 3]);
            assert(b@.subrange(p as int, p + 5)[4] == b@[p + 4]);
            assert(false);
        }
    }
    None
}

/// Reads a JSON array of strings at `p`.
fn parse_str_array(b: &Vec<u8>, p: usize) -> (r: Option<(Vec<String>, usize)>)
    requires
        p <= b@.len(),
    ensures
        r is Some <==> sp_str_array(b@, p as int) is Some,
        r is Some ==> ({
            let (lv, qv) = sp_str_array(b@, p as int).unwrap();
            &&& r.unwrap().0@.map_values(|s: String| s@) == lv
            &&& r.unwrap().1 == qv
            &&& p < r.unwrap().1 <= b@.len()
        }),
{
    let len = b.len();
    if p >= len || b[p] != 0x5b {
        return None;
    }
    if p + 1 < len && b[p + 1] == 0x5d {
        let items: Vec<String> = Vec::new();
        proof {
            assert(items@.map_values(|s: String| s@) =~= Seq::<Seq<char>>::empty());
        }
        return Some((items, p + 2));
    }
    let mut items: Vec<String> = Vec::new();
    let mut q: usize = p + 1;
    proof {
        assert(items@.map_values(|s: String| s@) =~= Seq::<Seq<char>>::empty());
    }
    loop
        invariant
            p + 1 <= q <= len == b@.len(),
            0 <= p < b@.len(),
            b@[p as int] == 0x5b,
            !(p + 1 < b@.len() && b@[p + 1] == 0x5d),
            sp_str_items(b@, (p + 1) as int, Seq::empty()) == sp_str_items(
                b@,
                q as int,
                items@.map_values(|s: String| s@),
            ),
        decreases b@.len() - q,
    {
        let ghost acc0 = items@.map_values(|s: String| s@);
        match parse_json_string(b, q) {
            None => {
                return None;
            },
            Some((s, q2)) => {
                let ghost sv = s@;
                items.push(s);
                proof {
                    assert(items@.map_values(|s: String| s@) =~= acc0 + seq![sv]);
                }
                if q2 < len && b[q2] == 0x2c {
                    q = q2 + 1;
                } else {
                    if q2 >= len {
                        return None;
                    }
                    if b[q2] != 0x5d {
                        return None;
                    }
                    return Some((items, q2 + 1));
                }
            },
        }
    }
}

/// Reads one node object at `p`.
#[verifier::rlimit(100)]
#[verifier::spinoff_prover]
fn parse_node(b: &Vec<u8>, p: usize) -> (r: Option<(Node, usize)>)
    requires
        p <= b@.len(),
    ensures
        r is Some <==> sp_node(b@, p as int) is Some,
        r is Some ==> ({
            let (nv, qv) = sp_node(b@, p as int).unwrap();
            &&& r.unwrap().0@ == nv
            &&& r.unwrap().1 == qv
            &&& p < r.unwrap().1 <= b@.len()
        }),
{
    let p0 = match expect_lit(b, p, "{\"id\":") {
        None => {
            return None;
        },
        Some(x) => x,
    };
    let (id, p1) = match parse_dec_i64(b, p0) {
        None => {
            return None;
        },
        Some(x) => x,
    };
    let p1b = match expect_lit(b, p1, ",\"name\":") {
        None => {
            return None;
        },
        Some(x) => x,
    };
    let (name, p2) = match parse_json_string(b, p1b) {
        None => {
            return None;
        },
        Some(x) => x,
    };
    let p2b = match expect_lit(b, p2, ",\"ipaddress\":") {
        None => {
            return None;
        },
        Some(x) => x,
    };
    let (ipaddress, p3) = match parse_json_string(b, p2b) {
        None => {
            return None;
        },
        Some(x) => x,
    };
    let p3b = match expect_lit(b, p3, ",\"port\":") {
        None => {
            return None;
        },
        Some(x) => x,
    };
    proof {
        crate::strutil::lemma_digit_run_end(b@, p3b as int);
    }
    let (port128, p4) = match parse_dec_u128(b, p3b) {
        None => {
            return None;
        },
        Some(x) => x,
    };
    if port128 > 0xFFFF {
        return None;
    }
    let port = port128 as u16;
    let p4b = match expect_lit(b, p4, ",\"hit_timestamp\":") {
        None => {
            return None;
        },
        Some(x) => x,
    };
    proof {
        crate::strutil::lemma_digit_run_end(b@, p4b as int);
    }
    let (hit, p5) = match parse_dec_u128(b, p4b) {
        None => {
            return None;
        },
        Some(x) => x,
    };
    let p5b = match expect_lit(b, p5, ",\"mac_address\":") {
        None => {
            return None;
        },
        Some(x) => x,
    };
    let (mac_address, p6) = match parse_str_array(b, p5b) {
        None => {
            return None;
        },
        Some(x) => x,
    };
    let p6b = match expect_lit(b, p6, ",\"active\":") {
        None => {
            return None;
        },
        Some(x) => x,
    };
    let (active, p7) = match parse_json_bool(b, p6b) {
        None => {
            return None;
        },
        Some(x) => x,
    };
    let p8 = match expect_lit(b, p7, "}") {
        None => {
            return None;
        },
        Some(x) => x,
    };
    let node = Node { id, name, ipaddress, port, hit_timestamp: hit, mac_address, active };
    proof {
        assert(sp_u16(b@, p3b as int) == Some((port, p4 as int)));
        assert(sp_u128(b@, p4b as int) == Some((hit, p5 as int)));
        assert(sp_node(b@, p as int) is Some);
        let (nv, qv) = sp_node(b@, p as int).unwrap();
        assert(node@.mac_address == nv.mac_address);
        assert(node@ == nv);
        assert(p8 == qv);
    }
    Some((node, p8))
}

/// Reads a JSON array of nodes at `p`.
fn parse_node_array(b: &Vec<u8>, p: usize) -> (r: Option<(Vec<Node>, usize)>)
    requires
        p <= b@.len(),
    ensures
        r is Some <==> sp_node_array(b@, p as int) is Some,
        r is Some ==> ({
            let (lv, qv) = sp_node_array(b@, p as int).unwrap();
            &&& node_views(r.unwrap().0@) == lv
            &&& r.unwrap().1 == qv
            &&& p < r.unwrap().1 <= b@.len()
        }),
{
    let len = b.len();
    if p >= len || b[p] != 0x5b {
        return None;
    }
    if p + 1 < len && b[p + 1] == 0x5d {
        let items: Vec<Node> = Vec::new();
        proof {
            assert(node_views(items@) =~= Seq::<NodeView>::empty());
        }
        return Some((items, p + 2));
    }
    let mut items: Vec<Node> = Vec::new();
    let mut q: usize = p + 1;
    proof {
        assert(node_views(items@) =~= Seq::<NodeView>::empty());
    }
    loop
        invariant
            p + 1 <= q <= len == b@.len(),
            0 <= p < b@.len(),
            b@[p as int] == 0x5b,
            !(p + 1 < b@.len() && b@[p + 1] == 0x5d),
            sp_node_items(b@, (p + 1) as int, Seq::empty()) == sp_node_items(
                b@,
                q as int,
                node_views(items@),
            ),
        decreases b@.len() - q,
    {
        let ghost acc0 = node_views(items@);
        match parse_node(b, q) {
            None => {
                return None;
            },
            Some((n, q2)) => {
                let ghost nv = n@;
                items.push(n);
                proof {
                    assert(node_views(items@) =~= acc0 + seq![nv]);
                }
                if q2 < len && b[q2] == 0x2c {
                    q = q2 + 1;
                } else {
                    if q2 >= len {
                        return None;
                    }
                    if b[q2] != 0x5d {
                        return None;
                    }
                    return Some((items, q2 + 1));
                }
            },
        }
    }
}

/// Parses a configuration from its canonical JSON form; any other
/// bytes give `None`.
#[verifier::rlimit(100)]
#[verifier::spinoff_prover]
pub fn parse_config(b: &Vec<u8>) -> (r: Option<Config>)
    ensures
        r is Some <==> parse_config_spec(b@) is Some,
        r is Some ==> r.unwrap()@ == parse_config_spec(b@).unwrap(),
{
    let p0 = match expect_lit(b, 0, "{\"id\":") {
        None => {
            return None;
        },
        Some(x) => x,
    };
    let (id, p1) = match parse_dec_i64(b, p0) {
        None => {
            return None;
        },
        Some(x) => x,
    };
    let p1b = match expect_lit(b, p1, ",\"board_ip\":") {
        None => {
            return None;
        },
        Some(x) => x,
    };
    let (board_ip, p2) = match parse_json_string(b, p1b) {
        None => {
            return None;
        },
        Some(x) => x,
    };
    let p2b = match expect_lit(b, p2, ",\"board_port\":") {
        None => {
            return None;
        },
        Some(x) => x,
    };
    proof {
        crate::strutil::lemma_digit_run_end(b@, p2b as int);
    }
    let (bp128, p3) = match parse_dec_u128(b, p2b) {
        None => {
            return None;
        },
        Some(x) => x,
    };
    if bp128 > 0xFFFF {
        return None;
    }
    let board_port = bp128 as u16;
    let p3b = match expect_lit(b, p3, ",\"node_timeout\":") {
        None => {
            return None;
        },
        Some(x) => x,
    };
    proof {
        crate::strutil::lemma_digit_run_end(b@, p3b as int);
    }
    let (nt128, p4) = match parse_dec_u128(b, p3b) {
        None => {
            return None;
        },
        Some(x) => x,
    };
    if nt128 > 0xFFFF {
        return None;
    }
    let node_timeout = nt128 as u16;
    let p4b = match expect_lit(b, p4, ",\"node_name\":") {
        None => {
            return None;
        },
        Some(x) => x,
    };
    let (node_name, p5) = match parse_json_string(b, p4b) {
        None => {
            return None;
        },
        Some(x) => x,
    };
    let p5b = match expect_lit(b, p5, ",\"node_list\":") {
        None => {
            return None;
        },
        Some(x) => x,
    };
    let (node_list, p6) = match parse_node_array(b, p5b) {
        None => {
            return None;
        },
        Some(x) => x,
    };
    let p7 = match expect_lit(b, p6, "}") {
        None => {
            return None;
        },
        Some(x) => x,
    };
    if p7 != b.len() {
        return None;
    }
    let config = Config { id, board_ip, board_port, node_timeout, node_name, node_list };
    proof {
        assert(sp_u16(b@, p2b as int) == Some((board_port, p3 as int)));
        assert(sp_u16(b@, p3b as int) == Some((node_timeout, p4 as int)));
        assert(parse_config_spec(b@) is Some);
        let cv = parse_config_spec(b@).unwrap();
        assert(config@.node_list == cv.node_list);
        assert(config@ == cv);
    }
    Some(config)
}

} // verus!
