//! Zigzag sign mapping and variable-length integer coding.
//!
//! An unsigned 64-bit integer is written as 5-bit groups, least significant
//! first; every group except the last carries a continuation bit (value 32),
//! and each resulting 6-bit group is carried by one alphabet byte. A signed
//! integer is first zigzag-mapped so that values of small magnitude, of either
//! sign, give small unsigned values.

use vstd::arithmetic::power2::{
    lemma2_to64, lemma2_to64_rest, lemma_pow2_adds, lemma_pow2_strictly_increases, pow2,
};
use vstd::bits::{lemma_u64_pow2_no_overflow, lemma_u64_shl_is_mul};
use vstd::prelude::*;

use crate::alphabet::{ascii_bytes, decode_symbol, encode_symbol, lemma_ascii_bytes_concat, lemma_symbol_value_inverse, symbol_of, value_of};
use crate::types::Error;

verus! {

broadcast use vstd::seq::group_seq_axioms;

/// The zigzag image of a signed value: non-negative `v` maps to `2*v`,
/// negative `v` to `-2*v - 1`, so small magnitudes of either sign map to
/// small unsigned values.
pub open spec fn zigzag_encode(v: i64) -> u64 {
    if v >= 0 {
        (2 * (v as int)) as u64
    } else {
        (-2 * (v as int) - 1) as u64
    }
}

/// The signed value a zigzag image stands for: even `u` maps to `u/2`, odd
/// `u` to `-(u+1)/2`.
pub open spec fn zigzag_decode(u: u64) -> i64 {
    if u % 2 == 0 {
        ((u as int) / 2) as i64
    } else {
        (-(((u as int) + 1) / 2)) as i64
    }
}

/// The zigzag mapping loses nothing: decoding the image of any signed value
/// yields that value back.
pub proof fn lemma_zigzag_round_trip(v: i64)
    ensures
        zigzag_decode(zigzag_encode(v)) == v,
{
    if v >= 0 {
        assert((2 * (v as int)) % 2 == 0);
        assert((2 * (v as int)) / 2 == v as int);
    } else {
        let u = -2 * (v as int) - 1;
        assert(u == 2 * (-(v as int) - 1) + 1);
        assert(u % 2 == 1);
        assert((u + 1) / 2 == -(v as int));
    }
}

/// The bytes that carry `v`: its 5-bit groups, least significant first, each
/// but the last marked with the continuation bit, each mapped through the
/// alphabet. The encoding is minimal: the last byte carries the highest
/// non-zero group, or zero itself for `v == 0`.
pub open spec fn varint_seq(v: u64) -> Seq<u8>
    decreases v,
{
    if v <= 31 {
        seq![symbol_of(v as int)]
    } else {
        seq![symbol_of(v % 32 + 32)] + varint_seq(v / 32)
    }
}

/// What reading one varint from the head of `s` yields, with `acc` bits
/// already gathered below bit `shift`: the value read and the count of bytes
/// consumed, or `None` when a byte is outside the alphabet, the gathered
/// offset reaches 64 bits, or `s` ends before a byte without the continuation
/// bit.
pub open spec fn varint_parse_at(s: Seq<u8>, acc: u64, shift: u64) -> Option<(u64, int)>
    decreases s.len(),
{
    if s.len() == 0 {
        None
    } else {
        match value_of(s[0]) {
            None => None,
            Some(d) => {
                let gathered = acc | ((((d & 0x1f) as u64)) << shift);
                if d & 0x20 == 0 {
                    Some((gathered, 1))
                } else if shift + 5 >= 64 {
                    None
                } else {
                    match varint_parse_at(s.skip(1), gathered, (shift + 5) as u64) {
                        None => None,
                        Some((v, n)) => Some((v, n + 1)),
                    }
                }
            },
        }
    }
}

/// What reading one varint from the head of `s` yields: the value and the
/// count of bytes consumed, or `None` when `s` holds no complete varint.
pub open spec fn varint_parse(s: Seq<u8>) -> Option<(u64, int)> {
    varint_parse_at(s, 0, 0)
}

/// A successful read consumes at least one byte and no more than the input.
pub proof fn lemma_varint_parse_consumed(s: Seq<u8>, acc: u64, shift: u64)
    ensures
        varint_parse_at(s, acc, shift) matches Some(p) ==> 1 <= p.1 <= s.len(),
    decreases s.len(),
{
    if s.len() > 0 {
        match value_of(s[0]) {
            None => {},
            Some(d) => {
                let gathered = acc | ((((d & 0x1f) as u64)) << shift);
                if d & 0x20 != 0 && shift + 5 < 64 {
                    lemma_varint_parse_consumed(s.skip(1), gathered, (shift + 5) as u64);
                }
            },
        }
    }
}

/// Every byte a successful read consumes is drawn from the alphabet.
pub proof fn lemma_varint_parse_valid_bytes(s: Seq<u8>, acc: u64, shift: u64, i: int)
    requires
        varint_parse_at(s, acc, shift) matches Some(p) && 0 <= i < p.1,
    ensures
        value_of(s[i]) is Some,
    decreases s.len(),
{
    lemma_varint_parse_consumed(s, acc, shift);
    if i > 0 {
        let d = value_of(s[0]).unwrap();
        let gathered = acc | ((((d & 0x1f) as u64)) << shift);
        lemma_varint_parse_valid_bytes(s.skip(1), gathered, (shift + 5) as u64, i - 1);
        assert(s.skip(1)[i - 1] == s[i]);
    }
}

/// The 6-bit group `d`, split: its low 5 bits equal `d % 32`, and its
/// continuation bit is clear exactly when `d < 32`.
proof fn lemma_group_bits(d: u8)
    requires
        d < 64,
    ensures
        (d & 0x1f) as u64 == (d as u64) % 32,
        (d & 0x20 == 0) <==> d < 32,
{
    assert((d & 0x1f) == d % 32) by (bit_vector);
    assert((d & 0x20 == 0) <==> d < 32) by (bit_vector)
        requires
            d < 64,
    ;
}

/// Gathering the group `g` at bit offset `shift` over the bits already below
/// that offset is addition of `g * 2^shift`.
proof fn lemma_or_shift_is_add(acc: u64, g: u64, shift: u64)
    requires
        g < 32,
        shift <= 60,
        acc < pow2(shift as nat),
        acc + g * pow2(shift as nat) < pow2(64),
    ensures
        (acc | (g << shift)) == acc + g * pow2(shift as nat),
{
    lemma2_to64();
    lemma_u64_pow2_no_overflow(shift as nat);
    lemma_u64_shl_is_mul(g, shift);
    lemma_u64_shl_is_mul(1u64, shift);
    let x = g << shift;
    assert(acc | x == acc + x) by (bit_vector)
        requires
            shift <= 60,
            g < 32,
            x == (g << shift),
            acc < (1u64 << shift),
    ;
}

/// Reading the encoding of `v`, continued by anything, from gathered state
/// `(acc, shift)` yields exactly `acc + v * 2^shift` and consumes exactly the
/// encoding.
proof fn lemma_varint_parse_at_seq(v: u64, rest: Seq<u8>, acc: u64, shift: u64)
    requires
        shift % 5 == 0,
        shift <= 60,
        acc < pow2(shift as nat),
        v < pow2((64 - shift) as nat),
    ensures
        varint_parse_at(varint_seq(v) + rest, acc, shift) == Some(
            ((acc + v * pow2(shift as nat)) as u64, varint_seq(v).len() as int),
        ),
    decreases v,
{
    lemma2_to64();
    lemma2_to64_rest();
    lemma_pow2_adds(shift as nat, (64 - shift) as nat);
    lemma_pow2_adds(shift as nat, 5);
    let s = varint_seq(v) + rest;
    let p_shift = pow2(shift as nat);
    assert(acc + v * p_shift < pow2(64)) by (nonlinear_arith)
        requires
            acc < p_shift,
            v < pow2((64 - shift) as nat),
            pow2(64) == p_shift * pow2((64 - shift) as nat),
            p_shift > 0,
    ;
    if v <= 31 {
        let b = symbol_of(v as int);
        assert(s[0] == b);
        lemma_symbol_value_inverse(v as int);
        let d = v as u8;
        lemma_group_bits(d);
        lemma_or_shift_is_add(acc, v, shift);
        assert(varint_parse_at(s, acc, shift) == Some(
            ((acc + v * p_shift) as u64, 1int),
        ));
    } else {
        let g = v % 32;
        let b = symbol_of(g + 32);
        assert(s[0] == b);
        lemma_symbol_value_inverse(g + 32);
        let d = (g + 32) as u8;
        lemma_group_bits(d);
        assert((d & 0x1f) as u64 == g);
        assert(d & 0x20 != 0);
        // v is at least 32, so at least 5 more bits follow and shift stays below 60
        assert(shift <= 55) by {
            if shift > 55 {
                assert(shift == 60);
                assert(pow2(4) == 16);
                assert(v < 16);
            }
        }
        assert(acc + g * p_shift < pow2((shift + 5) as nat)) by (nonlinear_arith)
            requires
                acc < p_shift,
                g < 32,
                pow2((shift + 5) as nat) == p_shift * 32,
        ;
        assert(pow2((shift + 5) as nat) <= pow2(64)) by {
            if shift + 5 < 64 {
                lemma_pow2_strictly_increases((shift + 5) as nat, 64);
            }
        }
        lemma_or_shift_is_add(acc, g, shift);
        let gathered = (acc + g * p_shift) as u64;
        // the tail of the encoding is the encoding of v / 32
        assert(s.skip(1) =~= varint_seq(v / 32) + rest);
        lemma_pow2_adds((shift + 5) as nat, (59 - shift) as nat);
        assert(v / 32 < pow2((59 - shift) as nat)) by (nonlinear_arith)
            requires
                v < pow2((64 - shift) as nat),
                pow2((64 - shift) as nat) == 32 * pow2((59 - shift) as nat),
        ;
        lemma_varint_parse_at_seq(v / 32, rest, gathered, (shift + 5) as u64);
        assert(gathered + (v / 32) * pow2((shift + 5) as nat) == acc + v * p_shift)
            by (nonlinear_arith)
            requires
                gathered == acc + (v % 32) * p_shift,
                pow2((shift + 5) as nat) == p_shift * 32,
                v % 32 == v - 32 * (v / 32),
        ;
    }
}

/// The length of the encoding of `v`, in bytes: between 1 and 13, and
/// minimal, in that `v` fits in 5 bits per byte used and does not fit in one
/// byte fewer.
pub proof fn lemma_varint_seq_len(v: u64)
    ensures
        1 <= varint_seq(v).len() <= 13,
        v < pow2(5 * varint_seq(v).len()),
        varint_seq(v).len() > 1 ==> pow2(5 * (varint_seq(v).len() - 1) as nat) <= v,
    decreases v,
{
    lemma2_to64();
    if v <= 31 {
        assert(varint_seq(v).len() == 1);
    } else {
        lemma_varint_seq_len(v / 32);
        let n = varint_seq(v / 32).len();
        assert(varint_seq(v).len() == n + 1);
        lemma_pow2_adds(5 * n, 5);
        assert(v < pow2(5 * (n + 1))) by (nonlinear_arith)
            requires
                v / 32 < pow2(5 * n),
                v < 32 * (v / 32) + 32,
                pow2(5 * (n + 1)) == pow2(5 * n) * 32,
        ;
        if n == 1 {
            assert(pow2(5) <= v);
        } else {
            lemma_pow2_adds(5 * (n - 1) as nat, 5);
            assert(pow2(5 * n as nat) <= v) by (nonlinear_arith)
                requires
                    pow2(5 * (n - 1) as nat) <= v / 32,
                    32 * (v / 32) <= v,
                    pow2(5 * n as nat) == pow2(5 * (n - 1) as nat) * 32,
            ;
        }
        // 13 bytes always suffice: a 14th would need v to reach 2^65
        if n + 1 > 13 {
            lemma_pow2_strictly_increases(64, 5 * ((n + 1) - 1) as nat);
            lemma2_to64_rest();
            assert(pow2(64) <= v);
            assert(v < pow2(64));
        }
    }
}

/// Every byte of a varint encoding is drawn from the alphabet, so it is
/// 7-bit ASCII.
pub proof fn lemma_varint_seq_ascii(v: u64)
    ensures
        ascii_bytes(varint_seq(v)),
    decreases v,
{
    if v > 31 {
        lemma_varint_seq_ascii(v / 32);
        lemma_ascii_bytes_concat(seq![symbol_of(v % 32 + 32)], varint_seq(v / 32));
    }
}

/// Varint round trip: reading the encoding of `v`, whatever follows it,
/// yields `v` back and consumes exactly the encoding.
pub proof fn lemma_varint_round_trip(v: u64, rest: Seq<u8>)
    ensures
        varint_parse(varint_seq(v) + rest) == Some((v, varint_seq(v).len() as int)),
{
    lemma2_to64();
    lemma_varint_parse_at_seq(v, rest, 0, 0);
}

/// Every byte of the encoding of `v` but the last carries the continuation
/// bit.
proof fn lemma_varint_seq_continuation(v: u64, i: int)
    requires
        0 <= i < varint_seq(v).len() - 1,
    ensures
        value_of(varint_seq(v)[i]) matches Some(d) && d >= 32,
    decreases v,
{
    if v > 31 {
        lemma_symbol_value_inverse(v % 32 + 32);
        if i > 0 {
            lemma_varint_seq_continuation(v / 32, i - 1);
        }
    }
}

/// A sequence whose every byte carries the continuation bit never completes
/// a varint read: the read runs out of input or out of bit offsets.
proof fn lemma_all_continuation_parse_none(s: Seq<u8>, acc: u64, shift: u64)
    requires
        forall|i: int|
            0 <= i < s.len() ==> ((#[trigger] value_of(s[i])) matches Some(d) && d >= 32),
    ensures
        varint_parse_at(s, acc, shift) is None,
    decreases s.len(),
{
    if s.len() > 0 {
        let d = value_of(s[0]).unwrap();
        lemma_group_bits(d);
        assert(d & 0x20 != 0);
        if shift + 5 < 64 {
            let gathered = acc | ((((d & 0x1f) as u64)) << shift);
            assert(forall|i: int|
                0 <= i < s.skip(1).len() ==> ((#[trigger] value_of(s.skip(1)[i])) matches Some(
                    d,
                ) && d >= 32));
            lemma_all_continuation_parse_none(s.skip(1), gathered, (shift + 5) as u64);
        }
    }
}

/// A truncated varint is rejected: no strict prefix of the encoding of `v`
/// parses, on its own, as a varint.
pub proof fn lemma_varint_prefix_rejected(v: u64, k: int)
    requires
        0 <= k < varint_seq(v).len(),
    ensures
        varint_parse(varint_seq(v).take(k)) is None,
{
    let t = varint_seq(v).take(k);
    assert forall|i: int| 0 <= i < t.len() implies ((#[trigger] value_of(t[i])) matches Some(d)
        && d >= 32) by {
        lemma_varint_seq_continuation(v, i);
    }
    lemma_all_continuation_parse_none(t, 0, 0);
}

/// Appends the varint encoding of `value` to `result`.
pub fn var_encode_u64(value: u64, result: &mut Vec<u8>)
    ensures
        final(result)@ == old(result)@ + varint_seq(value),
{
    let mut v = value;
    while v > 0x1f
        invariant
            result@ + varint_seq(v) == old(result)@ + varint_seq(value),
        decreases v,
    {
        let ghost before = result@;
        result.push(encode_symbol((v % 32 + 32) as u8));
        assert(result@ + varint_seq(v / 32) =~= before + varint_seq(v));
        v = v / 32;
    }
    let ghost before = result@;
    result.push(encode_symbol(v as u8));
    assert(result@ =~= before + varint_seq(v));
}

/// Appends the varint encoding of the zigzag image of `value` to `result`.
pub fn var_encode_i64(value: i64, result: &mut Vec<u8>)
    ensures
        final(result)@ == old(result)@ + varint_seq(zigzag_encode(value)),
{
    let encoded: u64 = if value >= 0 {
        (value as u64) * 2
    } else {
        ((-(value + 1)) as u64) * 2 + 1
    };
    assert(encoded == zigzag_encode(value));
    var_encode_u64(encoded, result);
}

/// Reads one varint from `bytes`, starting at `*pos` and advancing it past
/// the bytes consumed. Fails with `InvalidEncoding`, and only then, when no
/// complete varint starts there: a byte outside the alphabet, a bit offset
/// reaching 64, or input exhausted before a terminating byte.
#[verifier::loop_isolation(false)]
pub fn var_decode_u64(bytes: &[u8], pos: &mut usize) -> (r: Result<u64, Error>)
    requires
        *old(pos) <= bytes@.len(),
    ensures
        *old(pos) <= *final(pos) <= bytes@.len(),
        match varint_parse(bytes@.skip(*old(pos) as int)) {
            Some(p) => r == Ok::<u64, Error>(p.0) && *final(pos) == *old(pos) + p.1,
            None => r == Err::<u64, Error>(Error::InvalidEncoding),
        },
{
    let ghost s0 = bytes@.skip(*pos as int);
    let mut i: usize = *pos;
    let mut result: u64 = 0;
    let mut shift: u64 = 0;
    loop
        invariant
            *old(pos) <= i <= bytes@.len(),
            *pos == *old(pos),
            shift <= 60,
            shift % 5 == 0,
            varint_parse_at(s0, 0, 0) == match varint_parse_at(
                bytes@.skip(i as int),
                result,
                shift,
            ) {
                Some(p) => Some((p.0, p.1 + (i - *old(pos)))),
                None => None::<(u64, int)>,
            },
        decreases bytes@.len() - i,
    {
        if i == bytes.len() {
            *pos = i;
            return Err(Error::InvalidEncoding);
        }
        let b = bytes[i];
        i = i + 1;
        assert(bytes@.skip(i - 1).skip(1) =~= bytes@.skip(i as int));
        match decode_symbol(b) {
            None => {
                *pos = i;
                return Err(Error::InvalidEncoding);
            },
            Some(d) => {
                result = result | (((d & 0x1f) as u64) << shift);
                if d & 0x20 == 0 {
                    *pos = i;
                    return Ok(result);
                }
                shift = shift + 5;
                if shift >= 64 {
                    *pos = i;
                    return Err(Error::InvalidEncoding);
                }
            },
        }
    }
}

/// Reads one varint from `bytes`, starting at `*pos` and advancing it past
/// the bytes consumed, and maps the value back through the zigzag mapping.
/// Fails with `InvalidEncoding`, and only then, when no complete varint
/// starts there.
pub fn var_decode_i64(bytes: &[u8], pos: &mut usize) -> (r: Result<i64, Error>)
    requires
        *old(pos) <= bytes@.len(),
    ensures
        *old(pos) <= *final(pos) <= bytes@.len(),
        match varint_parse(bytes@.skip(*old(pos) as int)) {
            Some(p) => r == Ok::<i64, Error>(zigzag_decode(p.0)) && *final(pos) == *old(pos)
                + p.1,
            None => r == Err::<i64, Error>(Error::InvalidEncoding),
        },
{
    match var_decode_u64(bytes, pos) {
        Ok(u) => {
            let v: i64 = if u % 2 == 0 {
                (u / 2) as i64
            } else {
                -(((u - 1) / 2) as i64) - 1
            };
            assert(v == zigzag_decode(u));
            Ok(v)
        },
        Err(e) => Err(e),
    }
}

} // verus!
