use flexpolyline::{decode_header, encode_header, Error, Polyline, Precision, Type3d};

#[test]
fn test_round_trip_2d_exact() {
    let polyline = Polyline::Data2d {
        coordinates: vec![(5010228, 869821), (-5010228, -869821), (0, 0), (i64::MAX, i64::MIN)],
        precision2d: Precision::Digits5,
    };
    let encoded = polyline.encode().unwrap();
    assert_eq!(Polyline::decode(&encoded), Ok(polyline));
}

#[test]
fn test_round_trip_3d_exact() {
    let polyline = Polyline::Data3d {
        coordinates: vec![(5010228, 869821, 10), (5010201, 869567, 20), (-1, -2, -3)],
        precision2d: Precision::Digits5,
        precision3d: Precision::Digits2,
        type3d: Type3d::Altitude,
    };
    let encoded = polyline.encode().unwrap();
    assert_eq!(Polyline::decode(&encoded), Ok(polyline));
}

#[test]
fn test_round_trip_empty_2d() {
    let polyline = Polyline::Data2d { coordinates: vec![], precision2d: Precision::Digits5 };
    let encoded = polyline.encode().unwrap();
    assert_eq!(encoded, "BF");
    assert_eq!(Polyline::decode(&encoded), Ok(polyline));
}

#[test]
fn test_round_trip_empty_3d() {
    let polyline = Polyline::Data3d {
        coordinates: vec![],
        precision2d: Precision::Digits15,
        precision3d: Precision::Digits15,
        type3d: Type3d::Custom2,
    };
    let encoded = polyline.encode().unwrap();
    // header 2047 packs precision 15, tag 7, precision 15: the largest header
    assert_eq!(encoded, "B__B");
    assert_eq!(Polyline::decode(&encoded), Ok(polyline));
}

#[test]
fn test_encode_header_rejects_large_precision() {
    let mut buf = Vec::new();
    assert_eq!(encode_header(16, 0, 0, &mut buf), Err(Error::InvalidPrecision));
    assert!(buf.is_empty());
    assert_eq!(encode_header(0, 16, 1, &mut buf), Err(Error::InvalidPrecision));
    assert!(buf.is_empty());
    assert_eq!(encode_header(15, 15, 7, &mut buf), Ok(()));
    assert_eq!(buf, b"B__B");
}

#[test]
fn test_decode_header_rejects_large_header() {
    // "ggC" is the varint of 2048, the first value outside the 11 header bits
    let bytes = "BggC".as_bytes();
    let mut pos = 0;
    assert_eq!(decode_header(bytes, &mut pos), Err(Error::InvalidEncoding));
    assert_eq!(Polyline::decode("BggC"), Err(Error::InvalidEncoding));
}

#[test]
fn test_decode_header_unpacks_fields() {
    // header 2047 packs precision2d 15, tag 7, precision3d 15
    let bytes = "B__B".as_bytes();
    let mut pos = 0;
    assert_eq!(decode_header(bytes, &mut pos), Ok((15, 15, 7)));
    assert_eq!(pos, 4);
}

#[test]
fn test_decode_rejects_unsupported_version() {
    // version token 2 instead of 1
    assert_eq!(Polyline::decode("CF"), Err(Error::UnsupportedVersion));
}

#[test]
fn test_decode_rejects_bad_symbol() {
    assert_eq!(Polyline::decode("BF~"), Err(Error::InvalidEncoding));
    assert_eq!(Polyline::decode("BFoz5xJ67i1B1B7Pz haxL7Y"), Err(Error::InvalidEncoding));
}

#[test]
fn test_decode_rejects_truncation() {
    // a valid 2D encoding with its last byte cut off ends mid-coordinate
    assert_eq!(Polyline::decode("BFoz5xJ67i1B1B7PzIhaxL7"), Err(Error::InvalidEncoding));
    // a lone latitude varint leaves the longitude missing
    assert_eq!(Polyline::decode("BFA"), Err(Error::InvalidEncoding));
    // empty input holds no version token
    assert_eq!(Polyline::decode(""), Err(Error::InvalidEncoding));
}

#[test]
fn test_precision_conversions() {
    for digits in 0..=15 {
        let p = Precision::from_u32(digits).unwrap();
        assert_eq!(p.to_u32(), digits);
    }
    assert_eq!(Precision::from_u32(16), None);
    assert_eq!(Precision::from_u32(u32::MAX), None);
}

#[test]
fn test_type3d_conversions() {
    for tag in 1..=7 {
        let t = Type3d::from_u32(tag).unwrap();
        assert_eq!(t.to_u32(), tag);
    }
    assert_eq!(Type3d::from_u32(0), None);
    assert_eq!(Type3d::from_u32(8), None);
}

#[test]
fn test_error_messages() {
    assert_eq!(Error::UnsupportedVersion.message(), "UnsupportedVersion");
    assert_eq!(Error::InvalidPrecision.message(), "InvalidPrecision");
    assert_eq!(Error::InvalidEncoding.message(), "InvalidEncoding");
}
