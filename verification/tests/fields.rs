use lmcp_sentinelizer::decimal::push_decimal;
use lmcp_sentinelizer::{Error, LmcpSentinelizer};

#[test]
fn checksum_adds_the_bytes() {
    assert_eq!(LmcpSentinelizer::calculate_checksum(b""), 0);
    assert_eq!(LmcpSentinelizer::calculate_checksum(b"A"), 65);
    assert_eq!(LmcpSentinelizer::calculate_checksum(b"ABCDEFGHIJKLMNOPQRSTUVWXY"), 1925);
    assert_eq!(LmcpSentinelizer::calculate_checksum(&[255, 255, 255]), 765);
    assert_eq!(LmcpSentinelizer::calculate_checksum(&[0, 0, 0, 0]), 0);
}

#[test]
fn checksum_wraps_at_32_bits() {
    // 16_843_010 * 255 = 4_294_967_550 = 2^32 + 254
    let data = vec![255u8; 16_843_010];
    assert_eq!(LmcpSentinelizer::calculate_checksum(&data), 254);
    // one byte fewer stays below 2^32
    assert_eq!(
        LmcpSentinelizer::calculate_checksum(&data[1..]),
        4_294_967_295
    );
}

#[test]
fn checksum_does_not_see_the_order() {
    assert_eq!(
        LmcpSentinelizer::calculate_checksum(b"abc"),
        LmcpSentinelizer::calculate_checksum(b"cba")
    );
}

#[test]
fn verify_checksum_compares() {
    assert_eq!(LmcpSentinelizer::verify_checksum(b"ABCDEFGHIJKLMNOPQRSTUVWXY", 1925), Ok(()));
    assert_eq!(
        LmcpSentinelizer::verify_checksum(b"ABCDEFGHIJKLMNOPQRSTUVWXY", 1926),
        Err(Error::ChecksumVerifyError)
    );
    assert_eq!(LmcpSentinelizer::verify_checksum(b"", 0), Ok(()));
    assert_eq!(LmcpSentinelizer::verify_checksum(b"", 1), Err(Error::ChecksumVerifyError));
}

#[test]
fn check_sentinel_takes_the_sentinel_off() {
    assert_eq!(
        LmcpSentinelizer::check_sentinel(b"#@#@#@#@rest".to_vec(), b"#@#@#@#@"),
        Ok(b"rest".to_vec())
    );
    assert_eq!(
        LmcpSentinelizer::check_sentinel(b"#@#@#@#@".to_vec(), b"#@#@#@#@"),
        Ok(Vec::new())
    );
    assert_eq!(LmcpSentinelizer::check_sentinel(b"abc".to_vec(), b""), Ok(b"abc".to_vec()));
}

#[test]
fn check_sentinel_tells_a_wrong_byte_from_a_missing_one() {
    assert_eq!(
        LmcpSentinelizer::check_sentinel(b"#@#@#@#_rest".to_vec(), b"#@#@#@#@"),
        Err(Error::SentinelNotFound)
    );
    assert_eq!(
        LmcpSentinelizer::check_sentinel(b"@#@#@#@".to_vec(), b"#@#@#@#@"),
        Err(Error::SentinelNotFound)
    );
    assert_eq!(
        LmcpSentinelizer::check_sentinel(b"#@#@#@#".to_vec(), b"#@#@#@#@"),
        Err(Error::MalformedFrame)
    );
    assert_eq!(
        LmcpSentinelizer::check_sentinel(Vec::new(), b"#@#@#@#@"),
        Err(Error::MalformedFrame)
    );
}

#[test]
fn get_numeric_val_reads_the_digits() {
    assert_eq!(
        LmcpSentinelizer::get_numeric_val(b"25#@#@#@#@".to_vec()),
        Ok((25, b"#@#@#@#@".to_vec()))
    );
    assert_eq!(LmcpSentinelizer::get_numeric_val(b"0".to_vec()), Ok((0, Vec::new())));
    assert_eq!(
        LmcpSentinelizer::get_numeric_val(b"4294967295x".to_vec()),
        Ok((4_294_967_295, b"x".to_vec()))
    );
    assert_eq!(
        LmcpSentinelizer::get_numeric_val(b"007 8".to_vec()),
        Ok((7, b" 8".to_vec()))
    );
}

#[test]
fn get_numeric_val_refuses_what_is_no_number() {
    assert_eq!(LmcpSentinelizer::get_numeric_val(Vec::new()), Err(Error::MalformedFrame));
    assert_eq!(LmcpSentinelizer::get_numeric_val(b"x1".to_vec()), Err(Error::MalformedFrame));
    assert_eq!(LmcpSentinelizer::get_numeric_val(b"-1".to_vec()), Err(Error::MalformedFrame));
    assert_eq!(
        LmcpSentinelizer::get_numeric_val(b"4294967296".to_vec()),
        Err(Error::MalformedFrame)
    );
    assert_eq!(
        LmcpSentinelizer::get_numeric_val(b"18446744073709551616#".to_vec()),
        Err(Error::MalformedFrame)
    );
    assert_eq!(
        LmcpSentinelizer::get_numeric_val(b"42949672950".to_vec()),
        Err(Error::MalformedFrame)
    );
}

#[test]
fn get_payload_splits_at_the_length() {
    assert_eq!(
        LmcpSentinelizer::get_payload(b"abcdef".to_vec(), 2),
        Ok((b"ab".to_vec(), b"cdef".to_vec()))
    );
    assert_eq!(
        LmcpSentinelizer::get_payload(b"abcdef".to_vec(), 0),
        Ok((Vec::new(), b"abcdef".to_vec()))
    );
    assert_eq!(
        LmcpSentinelizer::get_payload(b"abcdef".to_vec(), 6),
        Ok((b"abcdef".to_vec(), Vec::new()))
    );
    assert_eq!(
        LmcpSentinelizer::get_payload(b"abcdef".to_vec(), 7),
        Err(Error::MalformedFrame)
    );
}

#[test]
fn push_decimal_writes_canonical_digits() {
    let mut out = b"n=".to_vec();
    push_decimal(&mut out, 0);
    assert_eq!(out, b"n=0".to_vec());
    push_decimal(&mut out, 7);
    push_decimal(&mut out, 10);
    push_decimal(&mut out, 1925);
    assert_eq!(out, b"n=07101925".to_vec());
    let mut out = Vec::new();
    push_decimal(&mut out, u64::MAX);
    assert_eq!(out, b"18446744073709551615".to_vec());
    let mut out = Vec::new();
    push_decimal(&mut out, 4_294_967_295);
    assert_eq!(out, b"4294967295".to_vec());
}

#[test]
fn errors_are_plain_values() {
    let e = Error::SentinelNotFound;
    let copy = e;
    assert_eq!(e, copy);
    assert_eq!(e.clone(), Error::SentinelNotFound);
    assert_ne!(Error::SentinelNotFound, Error::ChecksumVerifyError);
    assert_ne!(Error::ChecksumVerifyError, Error::MalformedFrame);
    assert_eq!(format!("{:?}", Error::SentinelNotFound), "SentinelNotFound");
    assert_eq!(format!("{:?}", Error::ChecksumVerifyError), "ChecksumVerifyError");
    assert_eq!(format!("{:?}", Error::MalformedFrame), "MalformedFrame");
}
