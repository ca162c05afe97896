//! Polylines and the top-level encode/decode pipeline.
//!
//! A polyline's coordinates are held in fixed point: each axis is the signed
//! 64-bit integer `round(value * 10^precision)` for that axis's precision.
//! Quantizing real coordinates to fixed point, and dividing back out, is the
//! caller's concern; the codec itself is exact. On the wire, successive
//! coordinates are delta-coded axis by axis against the previous coordinate
//! (starting from the zero vector), and each delta is written as a zigzag
//! varint.

use vstd::prelude::*;

use vstd::string::StringSliceAdditionalSpecFns;

use crate::alphabet::{ascii_bytes, lemma_ascii_bytes_concat, value_of};
use crate::header::{
    decode_header, encode_header, header_parse, header_seq, header_value, lemma_header_round_trip,
};
use crate::types::{
    lemma_precision_digits_injective, lemma_type3d_wire_tag_injective, Error, Precision, Type3d,
};
use crate::varint::{
    lemma_varint_parse_consumed, lemma_varint_parse_valid_bytes, lemma_varint_prefix_rejected,
    lemma_varint_round_trip, lemma_varint_seq_ascii, lemma_varint_seq_len,
    lemma_zigzag_round_trip, var_decode_i64, var_encode_i64, varint_parse, varint_seq,
    zigzag_decode, zigzag_encode,
};

verus! {

/// 2- or 3-dimensional polyline over fixed-point coordinates.
///
/// The stored precisions say how the fixed-point coordinates relate to real
/// values: axis value `v` stands for `v / 10^precision`, with the 2D
/// precision governing the first two axes and the 3D precision the third.
/// Coordinate order is significant and preserved exactly.
#[derive(Debug, Clone, PartialEq)]
pub enum Polyline {
    /// 2-dimensional polyline
    Data2d {
        /// Fixed-point (lat, lon) coordinates making up this polyline
        coordinates: Vec<(i64, i64)>,
        /// Precision of the coordinates
        precision2d: Precision,
    },
    /// 3-dimensional polyline
    Data3d {
        /// Fixed-point (lat, lon, z) coordinates making up this polyline
        coordinates: Vec<(i64, i64, i64)>,
        /// Precision of the 2D part of the coordinates
        precision2d: Precision,
        /// Precision of the 3D part of the coordinates
        precision3d: Precision,
        /// Type of the 3D component
        type3d: Type3d,
    },
}

/// The mathematical value of a polyline: its coordinate sequence and its
/// metadata.
#[verifier::ext_equal]
pub enum PolylineView {
    /// 2-dimensional polyline
    Data2d { coordinates: Seq<(i64, i64)>, precision2d: Precision },
    /// 3-dimensional polyline
    Data3d {
        coordinates: Seq<(i64, i64, i64)>,
        precision2d: Precision,
        precision3d: Precision,
        type3d: Type3d,
    },
}

impl View for Polyline {
    type V = PolylineView;

    open spec fn view(&self) -> PolylineView {
        match self {
            Polyline::Data2d { coordinates, precision2d } => PolylineView::Data2d {
                coordinates: coordinates@,
                precision2d: *precision2d,
            },
            Polyline::Data3d { coordinates, precision2d, precision3d, type3d } => {
                PolylineView::Data3d {
                    coordinates: coordinates@,
                    precision2d: *precision2d,
                    precision3d: *precision3d,
                    type3d: *type3d,
                }
            },
        }
    }
}

/// The coordinate stream of a 2D polyline: for each coordinate in order, the
/// zigzag varints of the per-axis differences against the previous
/// fixed-point coordinate `last`, axes in the order lat, lon. Differences
/// wrap around the signed 64-bit range.
pub open spec fn stream2d(coords: Seq<(i64, i64)>, last: (i64, i64)) -> Seq<u8>
    decreases coords.len(),
{
    if coords.len() == 0 {
        Seq::empty()
    } else {
        let c = coords[0];
        varint_seq(zigzag_encode(c.0.wrapping_sub(last.0))) + varint_seq(
            zigzag_encode(c.1.wrapping_sub(last.1)),
        ) + stream2d(coords.skip(1), c)
    }
}

/// The coordinate stream of a 3D polyline, axes in the order lat, lon, z.
pub open spec fn stream3d(coords: Seq<(i64, i64, i64)>, last: (i64, i64, i64)) -> Seq<u8>
    decreases coords.len(),
{
    if coords.len() == 0 {
        Seq::empty()
    } else {
        let c = coords[0];
        varint_seq(zigzag_encode(c.0.wrapping_sub(last.0))) + varint_seq(
            zigzag_encode(c.1.wrapping_sub(last.1)),
        ) + varint_seq(zigzag_encode(c.2.wrapping_sub(last.2))) + stream3d(coords.skip(1), c)
    }
}

/// What reading a 2D coordinate stream from all of `s` yields, continuing
/// from the fixed-point coordinate `last`: the coordinates read until `s` is
/// exhausted, or `None` when `s` ends before the two varints of a coordinate
/// are complete or holds a byte outside the alphabet.
pub open spec fn parse2d(s: Seq<u8>, last: (i64, i64)) -> Option<Seq<(i64, i64)>>
    decreases s.len(),
    via parse2d_decreases
{
    if s.len() == 0 {
        Some(Seq::empty())
    } else {
        match varint_parse(s) {
            None => None,
            Some((u0, n0)) => match varint_parse(s.skip(n0)) {
                None => None,
                Some((u1, n1)) => {
                    let c = (
                        last.0.wrapping_add(zigzag_decode(u0)),
                        last.1.wrapping_add(zigzag_decode(u1)),
                    );
                    match parse2d(s.skip(n0 + n1), c) {
                        None => None,
                        Some(rest) => Some(seq![c] + rest),
                    }
                },
            },
        }
    }
}

#[via_fn]
proof fn parse2d_decreases(s: Seq<u8>, last: (i64, i64)) {
    lemma_varint_parse_consumed(s, 0, 0);
    if s.len() > 0 {
        if let Some((u0, n0)) = varint_parse(s) {
            lemma_varint_parse_consumed(s.skip(n0), 0, 0);
        }
    }
}

/// What reading a 3D coordinate stream from all of `s` yields, continuing
/// from the fixed-point coordinate `last`.
pub open spec fn parse3d(s: Seq<u8>, last: (i64, i64, i64)) -> Option<Seq<(i64, i64, i64)>>
    decreases s.len(),
    via parse3d_decreases
{
    if s.len() == 0 {
        Some(Seq::empty())
    } else {
        match varint_parse(s) {
            None => None,
            Some((u0, n0)) => match varint_parse(s.skip(n0)) {
                None => None,
                Some((u1, n1)) => match varint_parse(s.skip(n0 + n1)) {
                    None => None,
                    Some((u2, n2)) => {
                        let c = (
                            last.0.wrapping_add(zigzag_decode(u0)),
                            last.1.wrapping_add(zigzag_decode(u1)),
                            last.2.wrapping_add(zigzag_decode(u2)),
                        );
                        match parse3d(s.skip(n0 + n1 + n2), c) {
                            None => None,
                            Some(rest) => Some(seq![c] + rest),
                        }
                    },
                },
            },
        }
    }
}

#[via_fn]
proof fn parse3d_decreases(s: Seq<u8>, last: (i64, i64, i64)) {
    lemma_varint_parse_consumed(s, 0, 0);
    if s.len() > 0 {
        if let Some((u0, n0)) = varint_parse(s) {
            lemma_varint_parse_consumed(s.skip(n0), 0, 0);
            if let Some((u1, n1)) = varint_parse(s.skip(n0)) {
                assert(s.skip(n0).skip(n1) =~= s.skip(n0 + n1));
                lemma_varint_parse_consumed(s.skip(n0 + n1), 0, 0);
            }
        }
    }
}

/// Builds the header and coordinate stream of a 2D polyline. Fails with
/// `InvalidPrecision`, and only then, when the precision exceeds 15.
#[verifier::loop_isolation(false)]
fn encode_2d(coords: &Vec<(i64, i64)>, precision2d: u32) -> (r: Result<Vec<u8>, Error>)
    ensures
        precision2d > 15 ==> r == Err::<Vec<u8>, Error>(Error::InvalidPrecision),
        precision2d <= 15 ==> (r matches Ok(out) && out@ == header_seq(precision2d, 0, 0)
            + stream2d(coords@, (0, 0))),
{
    let mut result: Vec<u8> = Vec::new();
    match encode_header(precision2d, 0, 0, &mut result) {
        Ok(()) => {},
        Err(e) => {
            return Err(e);
        },
    }
    let mut last: (i64, i64) = (0, 0);
    let mut i: usize = 0;
    proof {
        assert(coords@.skip(0) =~= coords@);
    }
    while i < coords.len()
        invariant
            i <= coords@.len(),
            result@ + stream2d(coords@.skip(i as int), last) == header_seq(precision2d, 0, 0)
                + stream2d(coords@, (0, 0)),
        decreases coords@.len() - i,
    {
        let c = coords[i];
        let ghost mid = coords@.skip(i as int);
        var_encode_i64(c.0.wrapping_sub(last.0), &mut result);
        var_encode_i64(c.1.wrapping_sub(last.1), &mut result);
        proof {
            assert(mid.skip(1) =~= coords@.skip(i + 1));
            assert(result@ + stream2d(coords@.skip(i + 1), c) =~= header_seq(precision2d, 0, 0)
                + stream2d(coords@, (0, 0)));
        }
        last = c;
        i = i + 1;
    }
    proof {
        assert(coords@.skip(coords@.len() as int) =~= Seq::<(i64, i64)>::empty());
        assert(result@ =~= header_seq(precision2d, 0, 0) + stream2d(coords@, (0, 0)));
    }
    Ok(result)
}

/// Builds the header and coordinate stream of a 3D polyline. Fails with
/// `InvalidPrecision`, and only then, when either precision exceeds 15.
#[verifier::loop_isolation(false)]
fn encode_3d(
    coords: &Vec<(i64, i64, i64)>,
    precision2d: u32,
    precision3d: u32,
    type3d: u32,
) -> (r: Result<Vec<u8>, Error>)
    requires
        type3d <= 7,
    ensures
        precision2d > 15 || precision3d > 15 ==> r == Err::<Vec<u8>, Error>(
            Error::InvalidPrecision,
        ),
        precision2d <= 15 && precision3d <= 15 ==> (r matches Ok(out) && out@ == header_seq(
            precision2d,
            precision3d,
            type3d,
        ) + stream3d(coords@, (0, 0, 0))),
{
    let mut result: Vec<u8> = Vec::new();
    match encode_header(precision2d, precision3d, type3d, &mut result) {
        Ok(()) => {},
        Err(e) => {
            return Err(e);
        },
    }
    let mut last: (i64, i64, i64) = (0, 0, 0);
    let mut i: usize = 0;
    proof {
        assert(coords@.skip(0) =~= coords@);
    }
    while i < coords.len()
        invariant
            i <= coords@.len(),
            result@ + stream3d(coords@.skip(i as int), last) == header_seq(
                precision2d,
                precision3d,
                type3d,
            ) + stream3d(coords@, (0, 0, 0)),
        decreases coords@.len() - i,
    {
        let c = coords[i];
        let ghost mid = coords@.skip(i as int);
        var_encode_i64(c.0.wrapping_sub(last.0), &mut result);
        var_encode_i64(c.1.wrapping_sub(last.1), &mut result);
        var_encode_i64(c.2.wrapping_sub(last.2), &mut result);
        proof {
            assert(mid.skip(1) =~= coords@.skip(i + 1));
            assert(result@ + stream3d(coords@.skip(i + 1), c) =~= header_seq(
                precision2d,
                precision3d,
                type3d,
            ) + stream3d(coords@, (0, 0, 0)));
        }
        last = c;
        i = i + 1;
    }
    proof {
        assert(coords@.skip(coords@.len() as int) =~= Seq::<(i64, i64, i64)>::empty());
        assert(result@ =~= header_seq(precision2d, precision3d, type3d) + stream3d(
            coords@,
            (0, 0, 0),
        ));
    }
    Ok(result)
}

/// Reads 2D coordinates from `bytes`, starting at `start`, until the input
/// is exhausted. Fails with `InvalidEncoding`, and only then, when the input
/// ends before the two varints of a coordinate are complete or holds a byte
/// outside the alphabet.
#[verifier::loop_isolation(false)]
fn decode2d(bytes: &[u8], start: usize) -> (r: Result<Vec<(i64, i64)>, Error>)
    requires
        start <= bytes@.len(),
    ensures
        match parse2d(bytes@.skip(start as int), (0, 0)) {
            Some(cs) => r matches Ok(v) && v@ == cs,
            None => r == Err::<Vec<(i64, i64)>, Error>(Error::InvalidEncoding),
        },
{
    let mut result: Vec<(i64, i64)> = Vec::new();
    let mut last: (i64, i64) = (0, 0);
    let mut pos: usize = start;
    while pos < bytes.len()
        invariant
            start <= pos <= bytes@.len(),
            parse2d(bytes@.skip(start as int), (0, 0)) == (match parse2d(
                bytes@.skip(pos as int),
                last,
            ) {
                Some(rest) => Some(result@ + rest),
                None => None::<Seq<(i64, i64)>>,
            }),
        decreases bytes@.len() - pos,
    {
        let ghost p0 = pos as int;
        let ghost s = bytes@.skip(p0);
        proof {
            lemma_varint_parse_consumed(s, 0, 0);
        }
        let lat = match var_decode_i64(bytes, &mut pos) {
            Ok(v) => v,
            Err(e) => {
                return Err(e);
            },
        };
        let ghost n0 = varint_parse(s).unwrap().1;
        proof {
            assert(bytes@.skip(pos as int) =~= s.skip(n0));
            lemma_varint_parse_consumed(s.skip(n0), 0, 0);
        }
        let lon = match var_decode_i64(bytes, &mut pos) {
            Ok(v) => v,
            Err(e) => {
                return Err(e);
            },
        };
        let ghost n1 = varint_parse(s.skip(n0)).unwrap().1;
        let c = (last.0.wrapping_add(lat), last.1.wrapping_add(lon));
        let ghost before = result@;
        result.push(c);
        proof {
            assert(bytes@.skip(pos as int) =~= s.skip(n0 + n1));
            if let Some(rest) = parse2d(bytes@.skip(pos as int), c) {
                assert(before + (seq![c] + rest) =~= result@ + rest);
            }
        }
        last = c;
    }
    proof {
        assert(bytes@.skip(pos as int) =~= Seq::<u8>::empty());
        assert(result@ + Seq::<(i64, i64)>::empty() =~= result@);
    }
    Ok(result)
}

/// Reads 3D coordinates from `bytes`, starting at `start`, until the input
/// is exhausted. Fails with `InvalidEncoding`, and only then, when the input
/// ends before the three varints of a coordinate are complete or holds a
/// byte outside the alphabet.
#[verifier::loop_isolation(false)]
fn decode3d(bytes: &[u8], start: usize) -> (r: Result<Vec<(i64, i64, i64)>, Error>)
    requires
        start <= bytes@.len(),
    ensures
        match parse3d(bytes@.skip(start as int), (0, 0, 0)) {
            Some(cs) => r matches Ok(v) && v@ == cs,
            None => r == Err::<Vec<(i64, i64, i64)>, Error>(Error::InvalidEncoding),
        },
{
    let mut result: Vec<(i64, i64, i64)> = Vec::new();
    let mut last: (i64, i64, i64) = (0, 0, 0);
    let mut pos: usize = start;
    while pos < bytes.len()
        invariant
            start <= pos <= bytes@.len(),
            parse3d(bytes@.skip(start as int), (0, 0, 0)) == (match parse3d(
                bytes@.skip(pos as int),
                last,
            ) {
                Some(rest) => Some(result@ + rest),
                None => None::<Seq<(i64, i64, i64)>>,
            }),
        decreases bytes@.len() - pos,
    {
        let ghost p0 = pos as int;
        let ghost s = bytes@.skip(p0);
        proof {
            lemma_varint_parse_consumed(s, 0, 0);
        }
        let lat = match var_decode_i64(bytes, &mut pos) {
            Ok(v) => v,
            Err(e) => {
                return Err(e);
            },
        };
        let ghost n0 = varint_parse(s).unwrap().1;
        proof {
            assert(bytes@.skip(pos as int) =~= s.skip(n0));
            lemma_varint_parse_consumed(s.skip(n0), 0, 0);
        }
        let lon = match var_decode_i64(bytes, &mut pos) {
            Ok(v) => v,
            Err(e) => {
                return Err(e);
            },
        };
        let ghost n1 = varint_parse(s.skip(n0)).unwrap().1;
        proof {
            assert(bytes@.skip(pos as int) =~= s.skip(n0 + n1));
            lemma_varint_parse_consumed(s.skip(n0 + n1), 0, 0);
        }
        let z = match var_decode_i64(bytes, &mut pos) {
            Ok(v) => v,
            Err(e) => {
                return Err(e);
            },
        };
        let ghost n2 = varint_parse(s.skip(n0 + n1)).unwrap().1;
        let c = (last.0.wrapping_add(lat), last.1.wrapping_add(lon), last.2.wrapping_add(z));
        let ghost before = result@;
        result.push(c);
        proof {
            assert(bytes@.skip(pos as int) =~= s.skip(n0 + n1 + n2));
            if let Some(rest) = parse3d(bytes@.skip(pos as int), c) {
                assert(before + (seq![c] + rest) =~= result@ + rest);
            }
        }
        last = c;
    }
    proof {
        assert(bytes@.skip(pos as int) =~= Seq::<u8>::empty());
        assert(result@ + Seq::<(i64, i64, i64)>::empty() =~= result@);
    }
    Ok(result)
}

} // verus!

verus! {

/// The full encoding of a polyline: the header carrying its precisions and,
/// for a 3D polyline, its third-dimension tag, followed by its coordinate
/// stream.
pub open spec fn spec_encode(p: PolylineView) -> Seq<u8> {
    match p {
        PolylineView::Data2d { coordinates, precision2d } => header_seq(
            precision2d.digits(),
            0,
            0,
        ) + stream2d(coordinates, (0, 0)),
        PolylineView::Data3d { coordinates, precision2d, precision3d, type3d } => header_seq(
            precision2d.digits(),
            precision3d.digits(),
            type3d.wire_tag(),
        ) + stream3d(coordinates, (0, 0, 0)),
    }
}

/// What decoding the bytes `s` yields: the header is read and unpacked, and
/// the rest of `s` is read as a 2D or 3D coordinate stream as the header's
/// third-dimension tag says. The header's bit widths keep its precisions
/// below 16 and its tag below 8, so the `InvalidPrecision` and tag arms
/// guard only against corruption that the bit widths already rule out.
pub open spec fn spec_decode(s: Seq<u8>) -> Result<PolylineView, Error> {
    match header_parse(s) {
        Err(e) => Err(e),
        Ok((h, n)) => {
            if h.2 == 0 {
                match parse2d(s.skip(n), (0, 0)) {
                    None => Err(Error::InvalidEncoding),
                    Some(cs) => match Precision::precision_of(h.0) {
                        None => Err(Error::InvalidPrecision),
                        Some(p2) => Ok(PolylineView::Data2d { coordinates: cs, precision2d: p2 }),
                    },
                }
            } else {
                match parse3d(s.skip(n), (0, 0, 0)) {
                    None => Err(Error::InvalidEncoding),
                    Some(cs) => match (
                        Precision::precision_of(h.0),
                        Precision::precision_of(h.1),
                        Type3d::type3d_of(h.2),
                    ) {
                        (Some(p2), Some(p3), Some(t)) => Ok(
                            PolylineView::Data3d {
                                coordinates: cs,
                                precision2d: p2,
                                precision3d: p3,
                                type3d: t,
                            },
                        ),
                        (None, _, _) => Err(Error::InvalidPrecision),
                        (_, None, _) => Err(Error::InvalidPrecision),
                        (_, _, None) => Err(Error::InvalidEncoding),
                    },
                }
            }
        },
    }
}

/// The characters that carry the bytes `s`, one character per byte.
pub open spec fn chars_of_bytes(s: Seq<u8>) -> Seq<char> {
    Seq::new(s.len(), |i: int| s[i] as char)
}

/// Every byte of a coordinate stream is drawn from the alphabet, so it is
/// 7-bit ASCII.
proof fn lemma_stream2d_ascii(coords: Seq<(i64, i64)>, last: (i64, i64))
    ensures
        ascii_bytes(stream2d(coords, last)),
    decreases coords.len(),
{
    if coords.len() > 0 {
        let c = coords[0];
        let a = varint_seq(zigzag_encode(c.0.wrapping_sub(last.0)));
        let b = varint_seq(zigzag_encode(c.1.wrapping_sub(last.1)));
        lemma_varint_seq_ascii(zigzag_encode(c.0.wrapping_sub(last.0)));
        lemma_varint_seq_ascii(zigzag_encode(c.1.wrapping_sub(last.1)));
        lemma_stream2d_ascii(coords.skip(1), c);
        lemma_ascii_bytes_concat(a, b);
        lemma_ascii_bytes_concat(a + b, stream2d(coords.skip(1), c));
    }
}

/// Every byte of a 3D coordinate stream is 7-bit ASCII.
proof fn lemma_stream3d_ascii(coords: Seq<(i64, i64, i64)>, last: (i64, i64, i64))
    ensures
        ascii_bytes(stream3d(coords, last)),
    decreases coords.len(),
{
    if coords.len() > 0 {
        let c = coords[0];
        let a = varint_seq(zigzag_encode(c.0.wrapping_sub(last.0)));
        let b = varint_seq(zigzag_encode(c.1.wrapping_sub(last.1)));
        let z = varint_seq(zigzag_encode(c.2.wrapping_sub(last.2)));
        lemma_varint_seq_ascii(zigzag_encode(c.0.wrapping_sub(last.0)));
        lemma_varint_seq_ascii(zigzag_encode(c.1.wrapping_sub(last.1)));
        lemma_varint_seq_ascii(zigzag_encode(c.2.wrapping_sub(last.2)));
        lemma_stream3d_ascii(coords.skip(1), c);
        lemma_ascii_bytes_concat(a, b);
        lemma_ascii_bytes_concat(a + b, z);
        lemma_ascii_bytes_concat(a + b + z, stream3d(coords.skip(1), c));
    }
}

/// Every byte of an encoded polyline is drawn from the alphabet, so the
/// whole encoding is 7-bit ASCII.
pub proof fn lemma_spec_encode_ascii(p: PolylineView)
    ensures
        ascii_bytes(spec_encode(p)),
{
    match p {
        PolylineView::Data2d { coordinates, precision2d } => {
            let h = header_seq(precision2d.digits(), 0, 0);
            lemma_varint_seq_ascii(1);
            lemma_varint_seq_ascii(header_value(precision2d.digits(), 0, 0));
            lemma_ascii_bytes_concat(varint_seq(1), varint_seq(header_value(precision2d.digits(), 0, 0)));
            lemma_stream2d_ascii(coordinates, (0, 0));
            lemma_ascii_bytes_concat(h, stream2d(coordinates, (0, 0)));
        },
        PolylineView::Data3d { coordinates, precision2d, precision3d, type3d } => {
            let h = header_seq(precision2d.digits(), precision3d.digits(), type3d.wire_tag());
            lemma_varint_seq_ascii(1);
            lemma_varint_seq_ascii(header_value(precision2d.digits(), precision3d.digits(), type3d.wire_tag()));
            lemma_ascii_bytes_concat(varint_seq(1), varint_seq(header_value(precision2d.digits(), precision3d.digits(), type3d.wire_tag())));
            lemma_stream3d_ascii(coordinates, (0, 0, 0));
            lemma_ascii_bytes_concat(h, stream3d(coordinates, (0, 0, 0)));
        },
    }
}

/// Relies on String::from_utf8: bytes that are valid UTF-8 become a string
/// of exactly those code points, and a 7-bit byte is one code point.
#[verifier::external_body]
fn ascii_to_string(bytes: Vec<u8>) -> (r: String)
    requires
        ascii_bytes(bytes@),
    ensures
        r@ == chars_of_bytes(bytes@),
{
    match String::from_utf8(bytes) {
        Ok(s) => s,
        Err(_) => String::new(),
    }
}

impl Polyline {
    /// Encodes a polyline into a string.
    ///
    /// A `Precision` value is always in range, so encoding cannot fail; the
    /// `Result` mirrors the header writer, whose range check this type makes
    /// vacuous.
    pub fn encode(&self) -> (r: Result<String, Error>)
        ensures
            r matches Ok(s) && s@ == chars_of_bytes(spec_encode(self@)),
    {
        match self {
            Polyline::Data2d { coordinates, precision2d } => {
                proof {
                    lemma_precision_digits_injective(*precision2d, *precision2d);
                }
                match encode_2d(coordinates, precision2d.to_u32()) {
                    Ok(b) => {
                        proof {
                            lemma_spec_encode_ascii(self@);
                        }
                        Ok(ascii_to_string(b))
                    },
                    Err(e) => {
                        proof {
                            assert(false);
                        }
                        Err(e)
                    },
                }
            },
            Polyline::Data3d { coordinates, precision2d, precision3d, type3d } => {
                proof {
                    lemma_precision_digits_injective(*precision2d, *precision3d);
                    lemma_precision_digits_injective(*precision3d, *precision2d);
                    lemma_type3d_wire_tag_injective(*type3d, *type3d);
                }
                match encode_3d(
                    coordinates,
                    precision2d.to_u32(),
                    precision3d.to_u32(),
                    type3d.to_u32(),
                ) {
                    Ok(b) => {
                        proof {
                            lemma_spec_encode_ascii(self@);
                        }
                        Ok(ascii_to_string(b))
                    },
                    Err(e) => {
                        proof {
                            assert(false);
                        }
                        Err(e)
                    },
                }
            },
        }
    }

    /// Decodes an encoded polyline, validating every byte.
    pub fn decode(encoded: &str) -> (r: Result<Polyline, Error>)
        ensures
            match spec_decode(encoded.spec_bytes()) {
                Ok(pv) => r matches Ok(p) && p@ == pv,
                Err(e) => r == Err::<Polyline, Error>(e),
            },
    {
        let bytes: &[u8] = encoded.as_bytes();
        proof {
            assert(bytes@.skip(0) =~= bytes@);
        }
        let mut pos: usize = 0;
        let header = match decode_header(bytes, &mut pos) {
            Ok(h) => h,
            Err(e) => {
                return Err(e);
            },
        };
        let precision2d = header.0;
        let precision3d = header.1;
        let type3d = header.2;
        if type3d == 0 {
            let coordinates = match decode2d(bytes, pos) {
                Ok(v) => v,
                Err(e) => {
                    return Err(e);
                },
            };
            match Precision::from_u32(precision2d) {
                Some(p) => Ok(Polyline::Data2d { coordinates, precision2d: p }),
                None => Err(Error::InvalidPrecision),
            }
        } else {
            let coordinates = match decode3d(bytes, pos) {
                Ok(v) => v,
                Err(e) => {
                    return Err(e);
                },
            };
            let p2 = match Precision::from_u32(precision2d) {
                Some(p) => p,
                None => {
                    return Err(Error::InvalidPrecision);
                },
            };
            let p3 = match Precision::from_u32(precision3d) {
                Some(p) => p,
                None => {
                    return Err(Error::InvalidPrecision);
                },
            };
            let t = match Type3d::from_u32(type3d) {
                Some(t) => t,
                None => {
                    return Err(Error::InvalidEncoding);
                },
            };
            Ok(
                Polyline::Data3d {
                    coordinates,
                    precision2d: p2,
                    precision3d: p3,
                    type3d: t,
                },
            )
        }
    }
}

} // verus!

verus! {

broadcast use vstd::seq::group_seq_axioms;

/// Round trip of a 2D coordinate stream: reading back the stream written for
/// `coords`, continuing from the same coordinate `last`, yields `coords`.
proof fn lemma_stream2d_round_trip(coords: Seq<(i64, i64)>, last: (i64, i64))
    ensures
        parse2d(stream2d(coords, last), last) == Some(coords),
    decreases coords.len(),
{
    if coords.len() == 0 {
        assert(coords =~= Seq::<(i64, i64)>::empty());
    } else {
        let c = coords[0];
        let d0 = c.0.wrapping_sub(last.0);
        let d1 = c.1.wrapping_sub(last.1);
        let v0 = zigzag_encode(d0);
        let v1 = zigzag_encode(d1);
        let a = varint_seq(v0);
        let b = varint_seq(v1);
        let tail = stream2d(coords.skip(1), c);
        let s = stream2d(coords, last);
        assert(s =~= a + (b + tail));
        lemma_varint_round_trip(v0, b + tail);
        assert(s.skip(a.len() as int) =~= b + tail);
        lemma_varint_round_trip(v1, tail);
        lemma_zigzag_round_trip(d0);
        lemma_zigzag_round_trip(d1);
        assert(last.0.wrapping_add(d0) == c.0);
        assert(last.1.wrapping_add(d1) == c.1);
        assert(s.skip((a.len() + b.len()) as int) =~= tail);
        lemma_stream2d_round_trip(coords.skip(1), c);
        assert(seq![c] + coords.skip(1) =~= coords);
    }
}

/// Round trip of a 3D coordinate stream.
proof fn lemma_stream3d_round_trip(coords: Seq<(i64, i64, i64)>, last: (i64, i64, i64))
    ensures
        parse3d(stream3d(coords, last), last) == Some(coords),
    decreases coords.len(),
{
    if coords.len() == 0 {
        assert(coords =~= Seq::<(i64, i64, i64)>::empty());
    } else {
        let c = coords[0];
        let d0 = c.0.wrapping_sub(last.0);
        let d1 = c.1.wrapping_sub(last.1);
        let d2 = c.2.wrapping_sub(last.2);
        let v0 = zigzag_encode(d0);
        let v1 = zigzag_encode(d1);
        let v2 = zigzag_encode(d2);
        let a = varint_seq(v0);
        let b = varint_seq(v1);
        let z = varint_seq(v2);
        let tail = stream3d(coords.skip(1), c);
        let s = stream3d(coords, last);
        assert(s =~= a + (b + (z + tail)));
        lemma_varint_round_trip(v0, b + (z + tail));
        assert(s.skip(a.len() as int) =~= b + (z + tail));
        lemma_varint_round_trip(v1, z + tail);
        assert(s.skip((a.len() + b.len()) as int) =~= z + tail);
        lemma_varint_round_trip(v2, tail);
        lemma_zigzag_round_trip(d0);
        lemma_zigzag_round_trip(d1);
        lemma_zigzag_round_trip(d2);
        assert(last.0.wrapping_add(d0) == c.0);
        assert(last.1.wrapping_add(d1) == c.1);
        assert(last.2.wrapping_add(d2) == c.2);
        assert(s.skip((a.len() + b.len() + z.len()) as int) =~= tail);
        lemma_stream3d_round_trip(coords.skip(1), c);
        assert(seq![c] + coords.skip(1) =~= coords);
    }
}

/// Round trip: decoding the encoding of any polyline yields exactly that
/// polyline — the same coordinates, in the same order, and the same
/// precision and third-dimension metadata.
pub proof fn lemma_encode_decode_round_trip(p: PolylineView)
    ensures
        spec_decode(spec_encode(p)) == Ok::<PolylineView, Error>(p),
{
    match p {
        PolylineView::Data2d { coordinates, precision2d } => {
            let d2 = precision2d.digits();
            lemma_precision_digits_injective(precision2d, precision2d);
            let stream = stream2d(coordinates, (0, 0));
            let h = header_seq(d2, 0, 0);
            lemma_header_round_trip(d2, 0, 0, stream);
            let s = spec_encode(p);
            assert(s =~= h + stream);
            assert(s.skip(h.len() as int) =~= stream);
            lemma_stream2d_round_trip(coordinates, (0, 0));
        },
        PolylineView::Data3d { coordinates, precision2d, precision3d, type3d } => {
            let d2 = precision2d.digits();
            let d3 = precision3d.digits();
            let t = type3d.wire_tag();
            lemma_precision_digits_injective(precision2d, precision2d);
            lemma_precision_digits_injective(precision3d, precision3d);
            lemma_type3d_wire_tag_injective(type3d, type3d);
            let stream = stream3d(coordinates, (0, 0, 0));
            let h = header_seq(d2, d3, t);
            lemma_header_round_trip(d2, d3, t, stream);
            let s = spec_encode(p);
            assert(s =~= h + stream);
            assert(s.skip(h.len() as int) =~= stream);
            lemma_stream3d_round_trip(coordinates, (0, 0, 0));
        },
    }
}

} // verus!

verus! {

/// Round trip at the string level: any string whose characters are the
/// encoding of `p` carries, as UTF-8, exactly the encoding's bytes, so
/// decoding it yields `p` back.
pub proof fn lemma_string_round_trip(p: PolylineView, s: Seq<char>)
    requires
        s == chars_of_bytes(spec_encode(p)),
    ensures
        spec_decode(vstd::utf8::encode_utf8(s)) == Ok::<PolylineView, Error>(p),
{
    let e = spec_encode(p);
    lemma_spec_encode_ascii(p);
    assert forall|i: int| 0 <= i < s.len() implies '\0' <= #[trigger] s[i] <= '\u{7f}' by {
        assert(e[i] < 128);
        assert(s[i] == e[i] as char);
    }
    assert(vstd::utf8::is_ascii_chars(s));
    vstd::utf8::is_ascii_chars_encode_utf8(s);
    assert forall|i: int| 0 <= i < e.len() implies vstd::utf8::encode_utf8(s)[i] == e[i] by {
        assert(s[i] as u8 == vstd::utf8::encode_utf8(s)[i]);
        assert((e[i] as char) as u8 == e[i]);
    }
    assert(vstd::utf8::encode_utf8(s) =~= e);
    lemma_encode_decode_round_trip(p);
}

} // verus!

verus! {

/// A 2D coordinate stream holding a byte outside the alphabet never parses.
proof fn lemma_parse2d_corrupt(s: Seq<u8>, last: (i64, i64), i: int)
    requires
        0 <= i < s.len(),
        value_of(s[i]) is None,
    ensures
        parse2d(s, last) is None,
    decreases s.len(),
{
    if parse2d(s, last) is Some {
        let (u0, n0) = varint_parse(s).unwrap();
        let (u1, n1) = varint_parse(s.skip(n0)).unwrap();
        lemma_varint_parse_consumed(s, 0, 0);
        lemma_varint_parse_consumed(s.skip(n0), 0, 0);
        if i < n0 {
            lemma_varint_parse_valid_bytes(s, 0, 0, i);
        } else if i < n0 + n1 {
            lemma_varint_parse_valid_bytes(s.skip(n0), 0, 0, i - n0);
            assert(s.skip(n0)[i - n0] == s[i]);
        } else {
            let c = (last.0.wrapping_add(zigzag_decode(u0)), last.1.wrapping_add(zigzag_decode(u1)));
            assert(s.skip(n0 + n1)[i - n0 - n1] == s[i]);
            lemma_parse2d_corrupt(s.skip(n0 + n1), c, i - n0 - n1);
        }
    }
}

/// A 3D coordinate stream holding a byte outside the alphabet never parses.
proof fn lemma_parse3d_corrupt(s: Seq<u8>, last: (i64, i64, i64), i: int)
    requires
        0 <= i < s.len(),
        value_of(s[i]) is None,
    ensures
        parse3d(s, last) is None,
    decreases s.len(),
{
    if parse3d(s, last) is Some {
        let (u0, n0) = varint_parse(s).unwrap();
        let (u1, n1) = varint_parse(s.skip(n0)).unwrap();
        let (u2, n2) = varint_parse(s.skip(n0 + n1)).unwrap();
        lemma_varint_parse_consumed(s, 0, 0);
        lemma_varint_parse_consumed(s.skip(n0), 0, 0);
        lemma_varint_parse_consumed(s.skip(n0 + n1), 0, 0);
        if i < n0 {
            lemma_varint_parse_valid_bytes(s, 0, 0, i);
        } else if i < n0 + n1 {
            lemma_varint_parse_valid_bytes(s.skip(n0), 0, 0, i - n0);
            assert(s.skip(n0)[i - n0] == s[i]);
        } else if i < n0 + n1 + n2 {
            lemma_varint_parse_valid_bytes(s.skip(n0 + n1), 0, 0, i - n0 - n1);
            assert(s.skip(n0 + n1)[i - n0 - n1] == s[i]);
        } else {
            let c = (
                last.0.wrapping_add(zigzag_decode(u0)),
                last.1.wrapping_add(zigzag_decode(u1)),
                last.2.wrapping_add(zigzag_decode(u2)),
            );
            assert(s.skip(n0 + n1 + n2)[i - n0 - n1 - n2] == s[i]);
            lemma_parse3d_corrupt(s.skip(n0 + n1 + n2), c, i - n0 - n1 - n2);
        }
    }
}

/// Corrupt input is rejected: bytes holding any byte outside the 64-symbol
/// alphabet never decode, and fail with `InvalidEncoding` whenever the
/// version token does not already fail as unsupported.
pub proof fn lemma_corrupt_symbol_rejected(s: Seq<u8>, i: int)
    requires
        0 <= i < s.len(),
        value_of(s[i]) is None,
    ensures
        spec_decode(s) is Err,
        (varint_parse(s) matches Some(p) ==> p.0 == 1) ==> spec_decode(s) == Err::<
            PolylineView,
            Error,
        >(Error::InvalidEncoding),
{
    match header_parse(s) {
        Err(e) => {},
        Ok((h, n)) => {
            let (version, n1) = varint_parse(s).unwrap();
            let (hdr, n2) = varint_parse(s.skip(n1)).unwrap();
            lemma_varint_parse_consumed(s, 0, 0);
            lemma_varint_parse_consumed(s.skip(n1), 0, 0);
            if i < n1 {
                lemma_varint_parse_valid_bytes(s, 0, 0, i);
            } else if i < n1 + n2 {
                lemma_varint_parse_valid_bytes(s.skip(n1), 0, 0, i - n1);
                assert(s.skip(n1)[i - n1] == s[i]);
            } else {
                assert(s.skip(n)[i - n] == s[i]);
                if h.2 == 0 {
                    lemma_parse2d_corrupt(s.skip(n), (0, 0), i - n);
                } else {
                    lemma_parse3d_corrupt(s.skip(n), (0, 0, 0), i - n);
                }
            }
        },
    }
}

} // verus!

verus! {

/// A 2D coordinate stream cut short by one byte ends inside its final
/// coordinate — in a truncated varint or before the second axis — and never
/// parses.
proof fn lemma_stream2d_truncated(coords: Seq<(i64, i64)>, last: (i64, i64))
    requires
        coords.len() > 0,
    ensures
        stream2d(coords, last).len() > 0,
        parse2d(stream2d(coords, last).drop_last(), last) is None,
    decreases coords.len(),
{
    let c = coords[0];
    let d0 = c.0.wrapping_sub(last.0);
    let d1 = c.1.wrapping_sub(last.1);
    let v0 = zigzag_encode(d0);
    let v1 = zigzag_encode(d1);
    let a = varint_seq(v0);
    let b = varint_seq(v1);
    let tail = stream2d(coords.skip(1), c);
    let s = stream2d(coords, last);
    lemma_varint_seq_len(v0);
    lemma_varint_seq_len(v1);
    lemma_zigzag_round_trip(d0);
    lemma_zigzag_round_trip(d1);
    if coords.len() == 1 {
        assert(tail =~= Seq::<u8>::empty());
        assert(s =~= a + b);
        let t = s.drop_last();
        if b.len() == 1 {
            assert(t =~= a + Seq::<u8>::empty());
            lemma_varint_round_trip(v0, Seq::<u8>::empty());
            assert(t.skip(a.len() as int) =~= Seq::<u8>::empty());
        } else {
            assert(t =~= a + b.take(b.len() - 1));
            lemma_varint_round_trip(v0, b.take(b.len() - 1));
            assert(t.skip(a.len() as int) =~= b.take(b.len() - 1));
            lemma_varint_prefix_rejected(v1, b.len() - 1);
        }
    } else {
        lemma_stream2d_truncated(coords.skip(1), c);
        assert(s.drop_last() =~= a + (b + tail.drop_last()));
        lemma_varint_round_trip(v0, b + tail.drop_last());
        assert(s.drop_last().skip(a.len() as int) =~= b + tail.drop_last());
        lemma_varint_round_trip(v1, tail.drop_last());
        assert(last.0.wrapping_add(d0) == c.0);
        assert(last.1.wrapping_add(d1) == c.1);
        assert(s.drop_last().skip((a.len() + b.len()) as int) =~= tail.drop_last());
    }
}

/// A 3D coordinate stream cut short by one byte never parses.
proof fn lemma_stream3d_truncated(coords: Seq<(i64, i64, i64)>, last: (i64, i64, i64))
    requires
        coords.len() > 0,
    ensures
        stream3d(coords, last).len() > 0,
        parse3d(stream3d(coords, last).drop_last(), last) is None,
    decreases coords.len(),
{
    let c = coords[0];
    let d0 = c.0.wrapping_sub(last.0);
    let d1 = c.1.wrapping_sub(last.1);
    let d2 = c.2.wrapping_sub(last.2);
    let v0 = zigzag_encode(d0);
    let v1 = zigzag_encode(d1);
    let v2 = zigzag_encode(d2);
    let a = varint_seq(v0);
    let b = varint_seq(v1);
    let z = varint_seq(v2);
    let tail = stream3d(coords.skip(1), c);
    let s = stream3d(coords, last);
    lemma_varint_seq_len(v0);
    lemma_varint_seq_len(v1);
    lemma_varint_seq_len(v2);
    lemma_zigzag_round_trip(d0);
    lemma_zigzag_round_trip(d1);
    lemma_zigzag_round_trip(d2);
    assert(last.0.wrapping_add(d0) == c.0);
    assert(last.1.wrapping_add(d1) == c.1);
    assert(last.2.wrapping_add(d2) == c.2);
    if coords.len() == 1 {
        assert(tail =~= Seq::<u8>::empty());
        assert(s =~= a + b + z);
        let t = s.drop_last();
        if z.len() == 1 {
            assert(t =~= a + (b + Seq::<u8>::empty()));
            lemma_varint_round_trip(v0, b + Seq::<u8>::empty());
            assert(t.skip(a.len() as int) =~= b + Seq::<u8>::empty());
            lemma_varint_round_trip(v1, Seq::<u8>::empty());
            assert(t.skip((a.len() + b.len()) as int) =~= Seq::<u8>::empty());
        } else {
            assert(t =~= a + (b + z.take(z.len() - 1)));
            lemma_varint_round_trip(v0, b + z.take(z.len() - 1));
            assert(t.skip(a.len() as int) =~= b + z.take(z.len() - 1));
            lemma_varint_round_trip(v1, z.take(z.len() - 1));
            assert(t.skip((a.len() + b.len()) as int) =~= z.take(z.len() - 1));
            lemma_varint_prefix_rejected(v2, z.len() - 1);
        }
    } else {
        lemma_stream3d_truncated(coords.skip(1), c);
        assert(s.drop_last() =~= a + (b + (z + tail.drop_last())));
        lemma_varint_round_trip(v0, b + (z + tail.drop_last()));
        assert(s.drop_last().skip(a.len() as int) =~= b + (z + tail.drop_last()));
        lemma_varint_round_trip(v1, z + tail.drop_last());
        assert(s.drop_last().skip((a.len() + b.len()) as int) =~= z + tail.drop_last());
        lemma_varint_round_trip(v2, tail.drop_last());
        assert(s.drop_last().skip((a.len() + b.len() + z.len()) as int) =~= tail.drop_last());
    }
}

/// Truncated input is rejected: for a polyline with at least one coordinate,
/// cutting the last byte off its encoding leaves the stream ending inside
/// the final coordinate, and decoding fails with `InvalidEncoding`. (The
/// encoding of an empty polyline is all header, so nothing guards its last
/// byte.)
pub proof fn lemma_truncated_tail_rejected(p: PolylineView)
    requires
        match p {
            PolylineView::Data2d { coordinates, .. } => coordinates.len() > 0,
            PolylineView::Data3d { coordinates, .. } => coordinates.len() > 0,
        },
    ensures
        spec_decode(spec_encode(p).drop_last()) == Err::<PolylineView, Error>(
            Error::InvalidEncoding,
        ),
{
    match p {
        PolylineView::Data2d { coordinates, precision2d } => {
            let d2 = precision2d.digits();
            lemma_precision_digits_injective(precision2d, precision2d);
            let stream = stream2d(coordinates, (0, 0));
            let h = header_seq(d2, 0, 0);
            lemma_stream2d_truncated(coordinates, (0, 0));
            assert(spec_encode(p).drop_last() =~= h + stream.drop_last());
            lemma_header_round_trip(d2, 0, 0, stream.drop_last());
            assert(spec_encode(p).drop_last().skip(h.len() as int) =~= stream.drop_last());
        },
        PolylineView::Data3d { coordinates, precision2d, precision3d, type3d } => {
            let d2 = precision2d.digits();
            let d3 = precision3d.digits();
            let t = type3d.wire_tag();
            lemma_precision_digits_injective(precision2d, precision2d);
            lemma_type3d_wire_tag_injective(type3d, type3d);
            let stream = stream3d(coordinates, (0, 0, 0));
            let h = header_seq(d2, d3, t);
            lemma_stream3d_truncated(coordinates, (0, 0, 0));
            assert(spec_encode(p).drop_last() =~= h + stream.drop_last());
            lemma_header_round_trip(d2, d3, t, stream.drop_last());
            assert(spec_encode(p).drop_last().skip(h.len() as int) =~= stream.drop_last());
        },
    }
}

} // verus!
