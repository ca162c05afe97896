//! Precision, third-dimension tag, and error values of the codec.

use vstd::prelude::*;

verus! {

/// Coordinate precision: how many decimal digits a coordinate keeps after the
/// point. Only `[0, 16)` can be represented, so a `Precision` value is valid
/// by construction.
#[derive(Debug, Clone, Copy, PartialEq, Eq, Structural)]
pub enum Precision {
    /// 0 decimal digits
    Digits0,
    /// 1 decimal digit
    Digits1,
    /// 2 decimal digits
    Digits2,
    /// 3 decimal digits
    Digits3,
    /// 4 decimal digits
    Digits4,
    /// 5 decimal digits
    Digits5,
    /// 6 decimal digits
    Digits6,
    /// 7 decimal digits
    Digits7,
    /// 8 decimal digits
    Digits8,
    /// 9 decimal digits
    Digits9,
    /// 10 decimal digits
    Digits10,
    /// 11 decimal digits
    Digits11,
    /// 12 decimal digits
    Digits12,
    /// 13 decimal digits
    Digits13,
    /// 14 decimal digits
    Digits14,
    /// 15 decimal digits
    Digits15,
}

impl Precision {
    /// The number of decimal digits this value stands for, always in `[0, 16)`.
    pub open spec fn digits(self) -> u32 {
        match self {
            Precision::Digits0 => 0,
            Precision::Digits1 => 1,
            Precision::Digits2 => 2,
            Precision::Digits3 => 3,
            Precision::Digits4 => 4,
            Precision::Digits5 => 5,
            Precision::Digits6 => 6,
            Precision::Digits7 => 7,
            Precision::Digits8 => 8,
            Precision::Digits9 => 9,
            Precision::Digits10 => 10,
            Precision::Digits11 => 11,
            Precision::Digits12 => 12,
            Precision::Digits13 => 13,
            Precision::Digits14 => 14,
            Precision::Digits15 => 15,
        }
    }

    /// The precision standing for `digits` decimal digits; `None` when
    /// `digits` exceeds 15. Out-of-range precisions are rejected, never
    /// clamped.
    pub open spec fn precision_of(digits: u32) -> Option<Precision> {
        if digits == 0 {
            Some(Precision::Digits0)
        } else if digits == 1 {
            Some(Precision::Digits1)
        } else if digits == 2 {
            Some(Precision::Digits2)
        } else if digits == 3 {
            Some(Precision::Digits3)
        } else if digits == 4 {
            Some(Precision::Digits4)
        } else if digits == 5 {
            Some(Precision::Digits5)
        } else if digits == 6 {
            Some(Precision::Digits6)
        } else if digits == 7 {
            Some(Precision::Digits7)
        } else if digits == 8 {
            Some(Precision::Digits8)
        } else if digits == 9 {
            Some(Precision::Digits9)
        } else if digits == 10 {
            Some(Precision::Digits10)
        } else if digits == 11 {
            Some(Precision::Digits11)
        } else if digits == 12 {
            Some(Precision::Digits12)
        } else if digits == 13 {
            Some(Precision::Digits13)
        } else if digits == 14 {
            Some(Precision::Digits14)
        } else if digits == 15 {
            Some(Precision::Digits15)
        } else {
            None
        }
    }

    /// The precision standing for `digits` decimal digits; `None` when
    /// `digits` exceeds 15 (out-of-range precisions are rejected, never
    /// clamped).
    pub fn from_u32(digits: u32) -> (r: Option<Precision>)
        ensures
            r == Precision::precision_of(digits),
            digits <= 15 ==> (r matches Some(p) && p.digits() == digits),
            digits > 15 ==> r is None,
    {
        match digits {
            0 => Some(Precision::Digits0),
            1 => Some(Precision::Digits1),
            2 => Some(Precision::Digits2),
            3 => Some(Precision::Digits3),
            4 => Some(Precision::Digits4),
            5 => Some(Precision::Digits5),
            6 => Some(Precision::Digits6),
            7 => Some(Precision::Digits7),
            8 => Some(Precision::Digits8),
            9 => Some(Precision::Digits9),
            10 => Some(Precision::Digits10),
            11 => Some(Precision::Digits11),
            12 => Some(Precision::Digits12),
            13 => Some(Precision::Digits13),
            14 => Some(Precision::Digits14),
            15 => Some(Precision::Digits15),
            _ => None,
        }
    }

    /// The number of decimal digits as an integer.
    pub fn to_u32(self) -> (r: u32)
        ensures
            r == self.digits(),
    {
        match self {
            Precision::Digits0 => 0,
            Precision::Digits1 => 1,
            Precision::Digits2 => 2,
            Precision::Digits3 => 3,
            Precision::Digits4 => 4,
            Precision::Digits5 => 5,
            Precision::Digits6 => 6,
            Precision::Digits7 => 7,
            Precision::Digits8 => 8,
            Precision::Digits9 => 9,
            Precision::Digits10 => 10,
            Precision::Digits11 => 11,
            Precision::Digits12 => 12,
            Precision::Digits13 => 13,
            Precision::Digits14 => 14,
            Precision::Digits15 => 15,
        }
    }
}

/// Two distinct precisions stand for distinct digit counts, and each digit
/// count in `[0, 16)` is reached: `digits` is a bijection onto `[0, 16)`,
/// and `precision_of` inverts it.
pub proof fn lemma_precision_digits_injective(a: Precision, b: Precision)
    ensures
        a.digits() <= 15,
        a.digits() == b.digits() ==> a == b,
        Precision::precision_of(a.digits()) == Some(a),
{
}

/// The meaning of the third dimension of a 3D polyline. On the wire it is a
/// 3-bit tag in `[1, 8)`; tag 0 means the polyline has no third dimension.
#[derive(Debug, Clone, Copy, PartialEq, Eq, Structural)]
pub enum Type3d {
    /// E.g. floor of a building
    Level,
    /// E.g. altitude (in the air) relative to ground level or mean sea level
    Altitude,
    /// E.g. elevation above mean-sea-level
    Elevation,
    /// Reserved for future types
    Reserved1,
    /// Reserved for future types
    Reserved2,
    /// Reserved for custom types
    Custom1,
    /// Reserved for custom types
    Custom2,
}

impl Type3d {
    /// The 3-bit wire tag of this kind, always in `[1, 8)`.
    pub open spec fn wire_tag(self) -> u32 {
        match self {
            Type3d::Level => 1,
            Type3d::Altitude => 2,
            Type3d::Elevation => 3,
            Type3d::Reserved1 => 4,
            Type3d::Reserved2 => 5,
            Type3d::Custom1 => 6,
            Type3d::Custom2 => 7,
        }
    }

    /// The kind carried by the wire tag `tag`; `None` when `tag` is 0 (a 2D
    /// polyline) or outside the 3-bit range.
    pub open spec fn type3d_of(tag: u32) -> Option<Type3d> {
        if tag == 1 {
            Some(Type3d::Level)
        } else if tag == 2 {
            Some(Type3d::Altitude)
        } else if tag == 3 {
            Some(Type3d::Elevation)
        } else if tag == 4 {
            Some(Type3d::Reserved1)
        } else if tag == 5 {
            Some(Type3d::Reserved2)
        } else if tag == 6 {
            Some(Type3d::Custom1)
        } else if tag == 7 {
            Some(Type3d::Custom2)
        } else {
            None
        }
    }

    /// The kind carried by the wire tag `tag`; `None` when `tag` is 0 (a 2D
    /// polyline) or outside the 3-bit range.
    pub fn from_u32(tag: u32) -> (r: Option<Type3d>)
        ensures
            r == Type3d::type3d_of(tag),
            1 <= tag <= 7 ==> (r matches Some(t) && t.wire_tag() == tag),
            (tag == 0 || tag > 7) ==> r is None,
    {
        match tag {
            1 => Some(Type3d::Level),
            2 => Some(Type3d::Altitude),
            3 => Some(Type3d::Elevation),
            4 => Some(Type3d::Reserved1),
            5 => Some(Type3d::Reserved2),
            6 => Some(Type3d::Custom1),
            7 => Some(Type3d::Custom2),
            _ => None,
        }
    }

    /// The 3-bit wire tag as an integer.
    pub fn to_u32(self) -> (r: u32)
        ensures
            r == self.wire_tag(),
    {
        match self {
            Type3d::Level => 1,
            Type3d::Altitude => 2,
            Type3d::Elevation => 3,
            Type3d::Reserved1 => 4,
            Type3d::Reserved2 => 5,
            Type3d::Custom1 => 6,
            Type3d::Custom2 => 7,
        }
    }
}

/// Two distinct kinds carry distinct wire tags, and every tag in `[1, 8)` is
/// reached: `wire_tag` is a bijection onto `[1, 8)`, and `type3d_of` inverts
/// it.
pub proof fn lemma_type3d_wire_tag_injective(a: Type3d, b: Type3d)
    ensures
        1 <= a.wire_tag() <= 7,
        a.wire_tag() == b.wire_tag() ==> a == b,
        Type3d::type3d_of(a.wire_tag()) == Some(a),
{
}

/// Error reported when encoding or decoding polylines. Every error is
/// terminal for the single call that reported it; no partial output
/// accompanies an error.
#[derive(Debug, Clone, Copy, PartialEq, Eq, Structural)]
#[non_exhaustive]
pub enum Error {
    /// Data is encoded with an unsupported format version
    UnsupportedVersion,
    /// A precision is outside the supported range `[0, 16)`
    InvalidPrecision,
    /// The encoding is structurally corrupt
    InvalidEncoding,
}

impl Error {
    /// A short name of the error, as a borrowed string.
    pub fn message(&self) -> (s: &'static str)
        ensures
            *self == Error::UnsupportedVersion ==> s@ == "UnsupportedVersion"@,
            *self == Error::InvalidPrecision ==> s@ == "InvalidPrecision"@,
            *self == Error::InvalidEncoding ==> s@ == "InvalidEncoding"@,
    {
        match self {
            Error::UnsupportedVersion => "UnsupportedVersion",
            Error::InvalidPrecision => "InvalidPrecision",
            Error::InvalidEncoding => "InvalidEncoding",
        }
    }
}

} // verus!
