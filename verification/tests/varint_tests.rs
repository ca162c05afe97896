use flexpolyline::{var_decode_i64, var_decode_u64, var_encode_i64, var_encode_u64, Error};

#[test]
fn test_var_encode_i64() {
    let mut buf = Vec::new();
    var_encode_i64(-17998321, &mut buf);
    assert_eq!(buf, b"h_wqiB");
}

#[test]
fn test_var_decode_i64() -> Result<(), Error> {
    let bytes = "h_wqiB".as_bytes();
    let mut pos = 0;
    let res = var_decode_i64(bytes, &mut pos)?;
    assert_eq!(res, -17998321);
    let res = var_decode_i64(bytes, &mut pos);
    assert!(res.is_err());

    let bytes = "hhhhhhhhhhhhhhhhhhh".as_bytes();
    let mut pos = 0;
    let res = var_decode_i64(bytes, &mut pos);
    assert!(res.is_err());
    Ok(())
}

#[test]
fn test_var_u64_round_trip() {
    for &v in &[0u64, 1, 31, 32, 1023, 1024, 17998321, u64::MAX - 1, u64::MAX] {
        let mut buf = Vec::new();
        var_encode_u64(v, &mut buf);
        let mut pos = 0;
        assert_eq!(var_decode_u64(&buf, &mut pos), Ok(v));
        assert_eq!(pos, buf.len());
    }
}

#[test]
fn test_var_u64_minimal_length() {
    // 5 bits per byte: the encoding uses exactly as many bytes as needed
    let mut buf = Vec::new();
    var_encode_u64(0, &mut buf);
    assert_eq!(buf, b"A");
    let mut buf = Vec::new();
    var_encode_u64(31, &mut buf);
    assert_eq!(buf.len(), 1);
    let mut buf = Vec::new();
    var_encode_u64(32, &mut buf);
    assert_eq!(buf.len(), 2);
    let mut buf = Vec::new();
    var_encode_u64(u64::MAX, &mut buf);
    assert_eq!(buf.len(), 13);
}

#[test]
fn test_var_i64_round_trip() {
    for &v in &[0i64, 1, -1, 2, -2, 17998321, -17998321, i64::MAX, i64::MIN] {
        let mut buf = Vec::new();
        var_encode_i64(v, &mut buf);
        let mut pos = 0;
        assert_eq!(var_decode_i64(&buf, &mut pos), Ok(v));
        assert_eq!(pos, buf.len());
    }
}

#[test]
fn test_var_decode_rejects_bad_symbol() {
    let bytes = "h~".as_bytes();
    let mut pos = 0;
    assert_eq!(var_decode_u64(bytes, &mut pos), Err(Error::InvalidEncoding));
}

#[test]
fn test_var_decode_rejects_truncation() {
    // "h" carries a continuation bit, so the stream ends mid-varint
    let bytes = "h".as_bytes();
    let mut pos = 0;
    assert_eq!(var_decode_u64(bytes, &mut pos), Err(Error::InvalidEncoding));
    // empty input holds no varint at all
    let mut pos = 0;
    assert_eq!(var_decode_u64(b"", &mut pos), Err(Error::InvalidEncoding));
}
