//! Conversions between `String` values and their UTF-8 byte form, and
//! decimal rendering and parsing of the integers that appear in the wire
//! and configuration formats.

use vstd::prelude::*;
use vstd::utf8::{encode_utf8, valid_utf8, decode_utf8};
use vstd::utf8::{encode_utf8_valid_utf8, encode_utf8_decode_utf8};
use vstd::utf8::{is_ascii_chars, is_ascii_chars_encode_utf8};
use vstd::string::StrSliceExecFns;

verus! {

/// The characters read off a byte sequence one byte at a time.
pub open spec fn ascii_chars_of(bytes: Seq<u8>) -> Seq<char> {
    Seq::new(bytes.len(), |i: int| bytes[i] as char)
}

/// A sequence of bytes below 0x80 is its own UTF-8 encoding, read as
/// one character per byte.
pub proof fn lemma_ascii_bytes_utf8(bytes: Seq<u8>)
    requires
        forall|i: int| 0 <= i < bytes.len() ==> bytes[i] < 0x80,
    ensures
        encode_utf8(ascii_chars_of(bytes)) == bytes,
        valid_utf8(bytes),
{
    broadcast use encode_utf8_valid_utf8;

    let chars = ascii_chars_of(bytes);
    assert(is_ascii_chars(chars));
    is_ascii_chars_encode_utf8(chars);
    assert(encode_utf8(chars) =~= bytes);
}

/// UTF-8 encoding is injective: equal encodings come from equal
/// character sequences.
pub proof fn lemma_encode_utf8_injective(s: Seq<char>, t: Seq<char>)
    requires
        encode_utf8(s) == encode_utf8(t),
    ensures
        s == t,
{
    broadcast use encode_utf8_decode_utf8;

    assert(decode_utf8(encode_utf8(s)) == s);
    assert(decode_utf8(encode_utf8(t)) == t);
}

/// Relies on `String::from_utf8`: returns the string made of exactly the
/// given bytes when they are valid UTF-8, and an error otherwise.
#[verifier::external_body]
pub fn bytes_to_string(v: Vec<u8>) -> (r: Option<String>)
    ensures
        r is Some ==> encode_utf8(r.unwrap()@) == v@,
        valid_utf8(v@) ==> r is Some,
{
    String::from_utf8(v).ok()
}

/// The UTF-8 bytes of a string, as an owned vector.
pub fn string_to_bytes(s: &str) -> (r: Vec<u8>)
    ensures
        r@ == encode_utf8(s@),
{
    s.as_bytes_vec()
}

/// Recovering a string from the UTF-8 bytes of another yields the same
/// character sequence.
pub proof fn lemma_utf8_round_trip(s: Seq<char>, r: Option<String>)
    requires
        r is Some ==> encode_utf8(r.unwrap()@) == encode_utf8(s),
        valid_utf8(encode_utf8(s)) ==> r is Some,
    ensures
        r is Some,
        r.unwrap()@ == s,
{
    broadcast use encode_utf8_valid_utf8;

    lemma_encode_utf8_injective(r.unwrap()@, s);
}

/// An ASCII decimal digit.
pub open spec fn is_digit(b: u8) -> bool {
    0x30 <= b <= 0x39
}

/// The decimal digits of `n`, most significant first, no leading zeros
/// (a single `0` for zero).
pub open spec fn dec_bytes(n: nat) -> Seq<u8>
    decreases n,
{
    if n < 10 {
        seq![(0x30 + n) as u8]
    } else {
        dec_bytes(n / 10) + seq![(0x30 + n % 10) as u8]
    }
}

/// The value of a run of decimal digits, most significant first.
pub open spec fn dec_val(s: Seq<u8>) -> nat
    decreases s.len(),
{
    if s.len() == 0 {
        0
    } else {
        dec_val(s.drop_last()) * 10 + (if is_digit(s.last()) {
            (s.last() - 0x30) as nat
        } else {
            0
        })
    }
}

pub proof fn lemma_dec_bytes_digits(n: nat)
    ensures
        dec_bytes(n).len() >= 1,
        forall|i: int| 0 <= i < dec_bytes(n).len() ==> is_digit(#[trigger] dec_bytes(n)[i]),
    decreases n,
{
    if n >= 10 {
        lemma_dec_bytes_digits(n / 10);
    }
}

pub proof fn lemma_dec_val_round_trip(n: nat)
    ensures
        dec_val(dec_bytes(n)) == n,
    decreases n,
{
    if n < 10 {
        let s = dec_bytes(n);
        assert(s.drop_last() =~= Seq::<u8>::empty());
        assert(s.last() == (0x30 + n) as u8);
        assert(is_digit(s.last()));
        assert(dec_val(Seq::<u8>::empty()) == 0);
        assert(s.len() == 1);
        assert(dec_val(s) == dec_val(s.drop_last()) * 10 + ((s.last() - 0x30) as nat));
        assert((s.last() - 0x30) as nat == n);
    } else {
        lemma_dec_val_round_trip(n / 10);
        let s = dec_bytes(n);
        assert(s.drop_last() =~= dec_bytes(n / 10));
        assert(s.last() == (0x30 + n % 10) as u8);
        assert(is_digit(s.last()));
        assert(dec_val(s) == (n / 10) * 10 + n % 10);
    }
}

/// Powers of ten, for positional reasoning about digit runs.
pub open spec fn pow10(k: nat) -> nat
    decreases k,
{
    if k == 0 {
        1
    } else {
        10 * pow10((k - 1) as nat)
    }
}

/// Splitting a digit run splits its value positionally.
pub proof fn lemma_dec_val_append(s: Seq<u8>, t: Seq<u8>)
    ensures
        dec_val(s + t) == dec_val(s) * pow10(t.len()) + dec_val(t),
    decreases t.len(),
{
    if t.len() == 0 {
        assert(s + t =~= s);
        assert(pow10(t.len()) == 1);
        assert(dec_val(t) == 0);
        assert(dec_val(s) * 1 == dec_val(s)) by (nonlinear_arith);
    } else {
        let t0 = t.drop_last();
        lemma_dec_val_append(s, t0);
        assert((s + t).drop_last() =~= s + t0);
        assert((s + t).last() == t.last());
        let p = pow10(t0.len());
        let d: nat = if is_digit(t.last()) {
            (t.last() - 0x30) as nat
        } else {
            0
        };
        assert(dec_val(t) == dec_val(t0) * 10 + d);
        assert(dec_val(s + t) == dec_val(s + t0) * 10 + d);
        assert(dec_val(s + t0) == dec_val(s) * p + dec_val(t0));
        assert((dec_val(s) * p + dec_val(t0)) * 10 == dec_val(s) * (p * 10) + dec_val(t0) * 10)
            by (nonlinear_arith);
        assert(pow10(t.len()) == p * 10) by {
            lemma_pow10_unfold_last(t.len());
        };
        assert(dec_val(s + t) == dec_val(s) * pow10(t.len()) + dec_val(t));
    }
}

proof fn lemma_pow10_unfold_last(k: nat)
    requires
        k >= 1,
    ensures
        pow10(k) == pow10((k - 1) as nat) * 10,
    decreases k,
{
    if k > 1 {
        lemma_pow10_unfold_last((k - 1) as nat);
    }
}

/// The value of a prefix of a digit run never exceeds the whole run's value.
pub proof fn lemma_dec_val_prefix(s: Seq<u8>, i: int)
    requires
        0 <= i <= s.len(),
    ensures
        dec_val(s.subrange(0, i)) <= dec_val(s),
{
    let a = s.subrange(0, i);
    let b = s.subrange(i, s.len() as int);
    assert(s =~= a + b);
    lemma_dec_val_append(a, b);
    lemma_pow10_pos(b.len());
    assert(dec_val(a) * pow10(b.len()) >= dec_val(a) * 1) by (nonlinear_arith)
        requires pow10(b.len()) >= 1;
}

pub proof fn lemma_pow10_pos(k: nat)
    ensures
        pow10(k) >= 1,
    decreases k,
{
    if k > 0 {
        lemma_pow10_pos((k - 1) as nat);
    }
}

/// Renders `n` in decimal, most significant digit first.
pub fn u128_to_dec_bytes(n: u128) -> (r: Vec<u8>)
    ensures
        r@ == dec_bytes(n as nat),
    decreases n,
{
    if n < 10 {
        let mut v: Vec<u8> = Vec::new();
        v.push(0x30 + (n as u8));
        proof {
            assert(v@ =~= dec_bytes(n as nat));
        }
        v
    } else {
        let mut v = u128_to_dec_bytes(n / 10);
        v.push(0x30 + ((n % 10) as u8));
        proof {
            assert(v@ =~= dec_bytes(n as nat));
        }
        v
    }
}

/// The end of the run of decimal digits that starts at `pos`.
pub open spec fn digit_run_end(s: Seq<u8>, pos: int) -> int
    decreases s.len() - pos,
{
    if 0 <= pos < s.len() && is_digit(s[pos]) {
        digit_run_end(s, pos + 1)
    } else {
        pos
    }
}

pub proof fn lemma_digit_run_end(s: Seq<u8>, pos: int)
    requires
        0 <= pos <= s.len(),
    ensures
        pos <= digit_run_end(s, pos) <= s.len(),
        forall|i: int| pos <= i < digit_run_end(s, pos) ==> is_digit(s[i]),
        digit_run_end(s, pos) < s.len() ==> !is_digit(s[digit_run_end(s, pos)]),
    decreases s.len() - pos,
{
    if pos < s.len() && is_digit(s[pos]) {
        lemma_digit_run_end(s, pos + 1);
    }
}

/// A digit run is bounded by where non-digits stand.
pub proof fn lemma_digit_run_end_is(s: Seq<u8>, pos: int, end: int)
    requires
        0 <= pos <= end <= s.len(),
        forall|i: int| pos <= i < end ==> is_digit(s[i]),
        end < s.len() ==> !is_digit(s[end]),
    ensures
        digit_run_end(s, pos) == end,
    decreases s.len() - pos,
{
    if pos < end {
        lemma_digit_run_end_is(s, pos + 1, end);
    } else {
        if pos < s.len() && is_digit(s[pos]) {
            assert(false);
        }
    }
}

/// Parses the run of decimal digits that starts at `pos` as a `u128`.
/// Fails when no digit stands at `pos`, or when the run's value does
/// not fit.
pub fn parse_dec_u128(b: &Vec<u8>, pos: usize) -> (r: Option<(u128, usize)>)
    requires
        pos <= b@.len(),
    ensures
        r is None <==> (digit_run_end(b@, pos as int) == pos
            || dec_val(b@.subrange(pos as int, digit_run_end(b@, pos as int))) > u128::MAX),
        r is Some ==> ({
            let (v, end) = r.unwrap();
            &&& end == digit_run_end(b@, pos as int)
            &&& v == dec_val(b@.subrange(pos as int, end as int))
        }),
{
    let ghost run_end = digit_run_end(b@, pos as int);
    let ghost run = b@.subrange(pos as int, run_end);
    proof {
        lemma_digit_run_end(b@, pos as int);
    }
    let len = b.len();
    let mut i: usize = pos;
    let mut acc: u128 = 0;
    let mut cont: bool = i < len && b[i] >= 0x30 && b[i] <= 0x39;
    while cont
        invariant
            pos <= i <= run_end <= len == b@.len(),
            cont <==> i < run_end,
            acc == dec_val(b@.subrange(pos as int, i as int)),
            run_end == digit_run_end(b@, pos as int),
            run == b@.subrange(pos as int, run_end),
            forall|j: int| pos <= j < run_end ==> is_digit(b@[j]),
            run_end < b@.len() ==> !is_digit(b@[run_end]),
        decreases run_end - i,
    {
        let d = b[i];
        let dv = (d - 0x30) as u128;
        let ghost pre = b@.subrange(pos as int, i as int);
        let ghost ext = b@.subrange(pos as int, i + 1 as int);
        proof {
            assert(ext.drop_last() =~= pre);
            assert(ext.last() == b@[i as int]);
            assert(dec_val(ext) == acc * 10 + dv);
            // the extended prefix is still a prefix of the whole run
            assert(ext =~= run.subrange(0, i + 1 - pos));
            lemma_dec_val_prefix(run, i + 1 - pos);
        }
        if acc > (u128::MAX - dv) / 10 {
            proof {
                assert(acc * 10 + dv > u128::MAX) by (nonlinear_arith)
                    requires
                        acc > (u128::MAX - dv) / 10,
                        dv <= u128::MAX,
                ;
            }
            return None;
        }
        proof {
            assert(acc * 10 + dv <= u128::MAX) by (nonlinear_arith)
                requires
                    acc <= (u128::MAX - dv) / 10,
                    dv <= 9,
            ;
        }
        acc = acc * 10 + dv;
        i = i + 1;
        cont = i < len && b[i] >= 0x30 && b[i] <= 0x39;
    }
    proof {
        assert(i == run_end);
    }
    if i == pos {
        None
    } else {
        Some((acc, i))
    }
}

/// A decimal rendering `d` stands at `pos` in `s`, with no digit
/// straight after it.
pub open spec fn dec_matches_at(s: Seq<u8>, pos: int, d: Seq<u8>) -> bool {
    &&& 0 <= pos
    &&& pos + d.len() <= s.len()
    &&& s.subrange(pos, pos + d.len()) == d
    &&& (pos + d.len() == s.len() || !is_digit(s[pos + d.len()]))
}

/// Where the canonical digits of `n` stand at `pos`, the digit run is
/// exactly those digits and its value is `n`.
pub proof fn lemma_parse_dec_at(s: Seq<u8>, pos: int, n: nat)
    requires
        dec_matches_at(s, pos, dec_bytes(n)),
    ensures
        digit_run_end(s, pos) == pos + dec_bytes(n).len(),
        dec_val(s.subrange(pos, digit_run_end(s, pos))) == n,
{
    lemma_dec_bytes_digits(n);
    let d = dec_bytes(n);
    assert forall|i: int| pos <= i < pos + d.len() implies is_digit(s[i]) by {
        assert(s.subrange(pos, pos + d.len())[i - pos] == s[i]);
        assert(is_digit(d[i - pos]));
    }
    lemma_digit_run_end_is(s, pos, pos + d.len());
    lemma_dec_val_round_trip(n);
    assert(s.subrange(pos, pos + d.len()) == d);
}

/// The decimal rendering of a signed value: a minus sign and the
/// magnitude's digits.
pub open spec fn dec_bytes_i64(v: int) -> Seq<u8> {
    if v >= 0 {
        dec_bytes(v as nat)
    } else {
        seq![0x2du8] + dec_bytes((-v) as nat)
    }
}

/// The rendering of `v` stands at `pos` in `s`, with no digit straight
/// after it.
pub open spec fn dec_i64_matches_at(s: Seq<u8>, pos: int, v: i64) -> bool {
    if v >= 0 {
        dec_matches_at(s, pos, dec_bytes(v as nat))
    } else {
        &&& 0 <= pos < s.len()
        &&& s[pos] == 0x2du8
        &&& dec_matches_at(s, pos + 1, dec_bytes((-v) as nat))
    }
}

/// Renders a signed value in decimal.
pub fn i64_to_dec_bytes(n: i64) -> (r: Vec<u8>)
    ensures
        r@ == dec_bytes_i64(n as int),
{
    if n >= 0 {
        let r = u128_to_dec_bytes(n as u128);
        r
    } else {
        let m: u128 = (-(n as i128)) as u128;
        let mut r: Vec<u8> = Vec::new();
        r.push(0x2d);
        let mut digits = u128_to_dec_bytes(m);
        r.append(&mut digits);
        proof {
            assert(r@ =~= dec_bytes_i64(n as int));
        }
        r
    }
}

/// What an optionally `-`-signed decimal run at `pos` parses to: the
/// digit run's value, negated after a minus sign, if it fits an `i64`.
pub open spec fn spec_parse_i64(b: Seq<u8>, pos: int) -> Option<(i64, int)> {
    if 0 <= pos < b.len() && b[pos] == 0x2d {
        let e = digit_run_end(b, pos + 1);
        if e == pos + 1 {
            None
        } else {
            let m = dec_val(b.subrange(pos + 1, e));
            if 1 <= m <= 0x8000_0000_0000_0000 {
                Some(((0 - m) as i64, e))
            } else {
                None
            }
        }
    } else if 0 <= pos <= b.len() {
        let e = digit_run_end(b, pos);
        if e == pos {
            None
        } else {
            let m = dec_val(b.subrange(pos, e));
            if m <= i64::MAX {
                Some((m as i64, e))
            } else {
                None
            }
        }
    } else {
        None
    }
}

/// Parses an optionally `-`-signed decimal value that fits an `i64`.
pub fn parse_dec_i64(b: &Vec<u8>, pos: usize) -> (r: Option<(i64, usize)>)
    requires
        pos <= b@.len(),
    ensures
        r is Some ==> pos < r.unwrap().1 <= b@.len(),
        r is Some <==> spec_parse_i64(b@, pos as int) is Some,
        r is Some ==> r.unwrap().0 == spec_parse_i64(b@, pos as int).unwrap().0
            && r.unwrap().1 == spec_parse_i64(b@, pos as int).unwrap().1,
{
    let len = b.len();
    if pos < len && b[pos] == 0x2d {
        match parse_dec_u128(b, pos + 1) {
            Some((m, end)) => {
                proof {
                    lemma_digit_run_end(b@, (pos + 1) as int);
                }
                if m > 0x8000_0000_0000_0000u128 || m == 0 {
                    None
                } else {
                    let v: i64 = if m == 0x8000_0000_0000_0000u128 {
                        i64::MIN
                    } else {
                        -((m as i64))
                    };
                    Some((v, end))
                }
            },
            None => None,
        }
    } else {
        match parse_dec_u128(b, pos) {
            Some((m, end)) => {
                proof {
                    lemma_digit_run_end(b@, pos as int);
                }
                if m > i64::MAX as u128 {
                    None
                } else {
                    let v: i64 = m as i64;
                    Some((v, end))
                }
            },
            None => None,
        }
    }
}







/// A nonempty string of decimal digit characters.
pub open spec fn is_decimal_string(s: Seq<char>) -> bool {
    &&& s.len() >= 1
    &&& forall|i: int| 0 <= i < s.len() ==> '0' <= (#[trigger] s[i]) <= '9'
}

/// A rendered decimal is a nonempty string of digits.
pub proof fn lemma_dec_string_shape(n: nat)
    ensures
        is_decimal_string(ascii_chars_of(dec_bytes(n))),
{
    lemma_dec_bytes_digits(n);
    let s = ascii_chars_of(dec_bytes(n));
    assert forall|i: int| 0 <= i < s.len() implies '0' <= (#[trigger] s[i]) <= '9' by {
        assert(is_digit(dec_bytes(n)[i]));
    }
}

/// Renders `n` as a decimal string.
pub fn u128_to_dec_string(n: u128) -> (r: String)
    ensures
        r@ == ascii_chars_of(dec_bytes(n as nat)),
        is_decimal_string(r@),
{
    proof {
        lemma_dec_string_shape(n as nat);
    }
    let digits = u128_to_dec_bytes(n);
    proof {
        lemma_dec_bytes_digits(n as nat);
        lemma_ascii_bytes_utf8(digits@);
    }
    let ghost digit_bytes = digits@;
    let s = bytes_to_string(digits);
    proof {
        lemma_utf8_round_trip(ascii_chars_of(digit_bytes), s);
    }
    match s {
        Some(s) => s,
        None => vstd::pervasive::unreached(),
    }
}

/// Renders `n` as a decimal string, with a minus sign when negative.
pub fn i64_to_dec_string(n: i64) -> (r: String)
    ensures
        r@ == ascii_chars_of(dec_bytes_i64(n as int)),
{
    let digits = i64_to_dec_bytes(n);
    proof {
        if n >= 0 {
            lemma_dec_bytes_digits(n as nat);
        } else {
            lemma_dec_bytes_digits((-(n as int)) as nat);
        }
        lemma_ascii_bytes_utf8(digits@);
    }
    let ghost digit_bytes = digits@;
    let s = bytes_to_string(digits);
    proof {
        lemma_utf8_round_trip(ascii_chars_of(digit_bytes), s);
    }
    match s {
        Some(s) => s,
        None => vstd::pervasive::unreached(),
    }
}

} // verus!
