//! The 64-symbol alphabet of the wire format.
//!
//! Every encoded value is a stream of 6-bit groups, and each group is carried
//! by one ASCII byte drawn from the alphabet `A-Z a-z 0-9 - _` (indices 0
//! through 63, in that order).

use vstd::prelude::*;

verus! {

/// The alphabet byte that carries the 6-bit group `v` (meaningful for `0 <= v < 64`).
pub open spec fn symbol_of(v: int) -> u8 {
    if 0 <= v < 26 {
        (v + 65) as u8  // 'A'..'Z'
    } else if 26 <= v < 52 {
        (v + 71) as u8  // 'a'..'z'
    } else if 52 <= v < 62 {
        (v - 4) as u8  // '0'..'9'
    } else if v == 62 {
        45u8  // '-'
    } else {
        95u8  // '_'
    }
}

/// The 6-bit group carried by the byte `b`, or `None` for a byte outside the alphabet.
pub open spec fn value_of(b: u8) -> Option<u8> {
    if 65 <= b <= 90 {
        Some((b - 65) as u8)
    } else if 97 <= b <= 122 {
        Some((b - 71) as u8)
    } else if 48 <= b <= 57 {
        Some((b + 4) as u8)
    } else if b == 45 {
        Some(62u8)
    } else if b == 95 {
        Some(63u8)
    } else {
        None
    }
}

/// Each of the 64 groups is carried by a distinct byte, and reading that byte
/// back yields the group it was written for.
pub proof fn lemma_symbol_value_inverse(v: int)
    requires
        0 <= v < 64,
    ensures
        value_of(symbol_of(v)) == Some(v as u8),
{
}

/// Holds when every byte of `s` is 7-bit ASCII.
pub open spec fn ascii_bytes(s: Seq<u8>) -> bool {
    forall|i: int| 0 <= i < s.len() ==> s[i] < 128
}

/// ASCII bytes followed by ASCII bytes are ASCII bytes.
pub proof fn lemma_ascii_bytes_concat(a: Seq<u8>, b: Seq<u8>)
    requires
        ascii_bytes(a),
        ascii_bytes(b),
    ensures
        ascii_bytes(a + b),
{
    assert forall|i: int| 0 <= i < (a + b).len() implies (a + b)[i] < 128 by {
        if i < a.len() {
            assert((a + b)[i] == a[i]);
        } else {
            assert((a + b)[i] == b[i - a.len()]);
        }
    }
}

/// Maps a 6-bit group to its alphabet byte.
pub fn encode_symbol(v: u8) -> (b: u8)
    requires
        v < 64,
    ensures
        b == symbol_of(v as int),
{
    if v < 26 {
        v + 65
    } else if v < 52 {
        v + 71
    } else if v < 62 {
        v - 4
    } else if v == 62 {
        45
    } else {
        95
    }
}

/// Maps a byte back to its 6-bit group; `None` for a byte outside the alphabet.
pub fn decode_symbol(b: u8) -> (v: Option<u8>)
    ensures
        v == value_of(b),
{
    if 65 <= b && b <= 90 {
        Some(b - 65)
    } else if 97 <= b && b <= 122 {
        Some(b - 71)
    } else if 48 <= b && b <= 57 {
        Some(b + 4)
    } else if b == 45 {
        Some(62)
    } else if b == 95 {
        Some(63)
    } else {
        None
    }
}

} // verus!
