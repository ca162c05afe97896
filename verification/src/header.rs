//! The packed header of an encoded polyline.
//!
//! An encoding opens with two varints: a version token, fixed to 1, and a
//! packed header of 11 meaningful bits — bits 0-3 the 2D precision, bits 4-6
//! the third-dimension tag (0 for a 2D polyline), bits 7-10 the 3D precision.

use vstd::prelude::*;

use crate::types::Error;
use crate::varint::{
    lemma_varint_round_trip, var_decode_u64, var_encode_u64, varint_parse, varint_seq,
};

verus! {

/// The packed header carrying the two precisions and the third-dimension
/// tag: `precision3d` at bit 7, `type3d` at bit 4, `precision2d` at bit 0
/// (meaningful for precisions below 16 and tags below 8).
pub open spec fn header_value(precision2d: u32, precision3d: u32, type3d: u32) -> u64 {
    (precision3d * 128 + type3d * 16 + precision2d) as u64
}

/// What reading the version and header varints from the head of `s` yields:
/// the unpacked `(precision2d, precision3d, type3d)` and the count of bytes
/// consumed. A version other than 1 is `UnsupportedVersion`; an incomplete
/// varint, or a header of 2048 or more, is `InvalidEncoding`.
pub open spec fn header_parse(s: Seq<u8>) -> Result<((u32, u32, u32), int), Error> {
    match varint_parse(s) {
        None => Err(Error::InvalidEncoding),
        Some((version, n1)) => {
            if version != 1 {
                Err(Error::UnsupportedVersion)
            } else {
                match varint_parse(s.skip(n1)) {
                    None => Err(Error::InvalidEncoding),
                    Some((header, n2)) => {
                        if header >= 2048 {
                            Err(Error::InvalidEncoding)
                        } else {
                            Ok(
                                (
                                    (
                                        (header % 16) as u32,
                                        ((header / 128) % 16) as u32,
                                        ((header / 16) % 8) as u32,
                                    ),
                                    n1 + n2,
                                ),
                            )
                        }
                    },
                }
            }
        },
    }
}

/// The bytes that open the encoding of a polyline with the given precisions
/// and tag: the version varint, then the packed header varint.
pub open spec fn header_seq(precision2d: u32, precision3d: u32, type3d: u32) -> Seq<u8> {
    varint_seq(1) + varint_seq(header_value(precision2d, precision3d, type3d))
}

/// Header round trip: reading a written header back, whatever follows it,
/// yields the precisions and tag it was written with and consumes exactly the
/// header bytes.
pub proof fn lemma_header_round_trip(
    precision2d: u32,
    precision3d: u32,
    type3d: u32,
    rest: Seq<u8>,
)
    requires
        precision2d <= 15,
        precision3d <= 15,
        type3d <= 7,
    ensures
        header_parse(header_seq(precision2d, precision3d, type3d) + rest) == Ok::<
            ((u32, u32, u32), int),
            Error,
        >(
            (
                (precision2d, precision3d, type3d),
                header_seq(precision2d, precision3d, type3d).len() as int,
            ),
        ),
{
    let h = header_value(precision2d, precision3d, type3d);
    let s = header_seq(precision2d, precision3d, type3d) + rest;
    assert(s =~= varint_seq(1) + (varint_seq(h) + rest));
    lemma_varint_round_trip(1, varint_seq(h) + rest);
    assert(s.skip(varint_seq(1).len() as int) =~= varint_seq(h) + rest);
    lemma_varint_round_trip(h, rest);
    // unpacking inverts packing: each field sits in its own bit range
    assert(h == 16 * (8 * precision3d + type3d) + precision2d);
    assert(h % 16 == precision2d && h / 16 == 8 * precision3d + type3d) by (nonlinear_arith)
        requires
            precision2d < 16,
            h == 16 * (8 * precision3d + type3d) + precision2d,
    ;
    assert((h / 16) % 8 == type3d && (h / 16) / 8 == precision3d) by (nonlinear_arith)
        requires
            type3d < 8,
            h / 16 == 8 * precision3d + type3d,
    ;
    assert(h / 128 == (h / 16) / 8) by (nonlinear_arith);
}

/// Writes the version varint and the packed header varint to `result`.
/// Fails with `InvalidPrecision`, and only then, when either precision
/// exceeds 15; nothing is written in that case.
pub fn encode_header(
    precision2d: u32,
    precision3d: u32,
    type3d: u32,
    result: &mut Vec<u8>,
) -> (r: Result<(), Error>)
    requires
        type3d <= 7,
    ensures
        precision2d > 15 || precision3d > 15 ==> r == Err::<(), Error>(Error::InvalidPrecision)
            && final(result)@ == old(result)@,
        precision2d <= 15 && precision3d <= 15 ==> r == Ok::<(), Error>(()) && final(result)@
            == old(result)@ + header_seq(precision2d, precision3d, type3d),
{
    if precision2d > 15 || precision3d > 15 {
        return Err(Error::InvalidPrecision);
    }
    var_encode_u64(1, result);
    let header: u32 = (precision3d * 128) + (type3d * 16) + precision2d;
    var_encode_u64(header as u64, result);
    Ok(())
}

/// Reads the version varint and the packed header varint from `bytes`,
/// starting at `*pos` and advancing it past the bytes consumed, and unpacks
/// the header into `(precision2d, precision3d, type3d)`. Fails with
/// `UnsupportedVersion` when the version is not 1, and with
/// `InvalidEncoding`, and only then, when a varint is incomplete or the
/// header is 2048 or more.
pub fn decode_header(bytes: &[u8], pos: &mut usize) -> (r: Result<(u32, u32, u32), Error>)
    requires
        *old(pos) <= bytes@.len(),
    ensures
        *old(pos) <= *final(pos) <= bytes@.len(),
        match header_parse(bytes@.skip(*old(pos) as int)) {
            Ok(p) => r == Ok::<(u32, u32, u32), Error>(p.0) && *final(pos) == *old(pos) + p.1,
            Err(e) => r == Err::<(u32, u32, u32), Error>(e),
        },
{
    let ghost s = bytes@.skip(*pos as int);
    let version = match var_decode_u64(bytes, pos) {
        Ok(v) => v,
        Err(e) => {
            return Err(e);
        },
    };
    if version != 1 {
        return Err(Error::UnsupportedVersion);
    }
    assert(bytes@.skip(*pos as int) =~= s.skip(varint_parse(s).unwrap().1));
    let header = match var_decode_u64(bytes, pos) {
        Ok(v) => v,
        Err(e) => {
            return Err(e);
        },
    };
    if header >= 2048 {
        return Err(Error::InvalidEncoding);
    }
    let precision2d = (header % 16) as u32;
    let type3d = ((header / 16) % 8) as u32;
    let precision3d = ((header / 128) % 16) as u32;
    Ok((precision2d, precision3d, type3d))
}

} // verus!
