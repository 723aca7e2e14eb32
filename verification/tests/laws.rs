use lmcp_sentinelizer::{Error, LmcpSentinelizer};

const TEST_PAYLOAD: &[u8] = b"ABCDEFGHIJKLMNOPQRSTUVWXY";

fn sentinel_places(frame_len: usize, length_digits: usize, payload_len: usize) -> Vec<usize> {
    let second = 8 + length_digits;
    let third = second + 8 + payload_len;
    let fourth = frame_len - 8;
    let mut places = Vec::new();
    for start in [0, second, third, fourth] {
        for j in 0..8 {
            places.push(start + j);
        }
    }
    places
}

#[test]
fn round_trip_gives_the_payload_back() {
    let every_byte: Vec<u8> = (0..=255u8).collect();
    let long: Vec<u8> = (0..100_000u32).map(|i| (i % 251) as u8).collect();
    let payloads: Vec<Vec<u8>> = vec![
        Vec::new(),
        vec![0],
        b"0".to_vec(),
        b"0123456789".to_vec(),
        b"?^?^?^?^".to_vec(),
        TEST_PAYLOAD.to_vec(),
        every_byte,
        long,
    ];
    for payload in payloads {
        let frame = LmcpSentinelizer::create_sentinelized_stream(&payload);
        assert_eq!(LmcpSentinelizer::parse_sentinelized_stream(frame), Ok(payload));
    }
}

#[test]
fn frame_of_a_frame_round_trips_twice() {
    let inner = LmcpSentinelizer::create_sentinelized_stream(TEST_PAYLOAD);
    let outer = LmcpSentinelizer::create_sentinelized_stream(&inner);
    let back = LmcpSentinelizer::parse_sentinelized_stream(outer).unwrap();
    assert_eq!(back, inner);
    assert_eq!(
        LmcpSentinelizer::parse_sentinelized_stream(back),
        Ok(TEST_PAYLOAD.to_vec())
    );
}

#[test]
fn other_bytes_under_the_same_checksum_field_are_refused() {
    // the frame of "ABCDEFGHIJKLMNOPQRSTUVWXY" around as many other bytes
    let mut data = b"+=+=+=+=25#@#@#@#@".to_vec();
    data.extend_from_slice(b"ABCDEFGHIJKLMNOPQRSTUVWXZ");
    data.extend_from_slice(b"!%!%!%!%1925?^?^?^?^");
    assert_eq!(
        LmcpSentinelizer::parse_sentinelized_stream(data),
        Err(Error::ChecksumVerifyError)
    );
    // every single changed payload byte changes the sum
    let frame = LmcpSentinelizer::create_sentinelized_stream(TEST_PAYLOAD);
    for i in 18..18 + TEST_PAYLOAD.len() {
        let mut changed = frame.clone();
        changed[i] = changed[i].wrapping_add(1);
        assert_eq!(
            LmcpSentinelizer::parse_sentinelized_stream(changed),
            Err(Error::ChecksumVerifyError)
        );
    }
}

#[test]
fn other_bytes_with_the_same_sum_pass() {
    // the checksum does not tell "AC" from "BB"
    let mut data = LmcpSentinelizer::create_sentinelized_stream(b"AC");
    assert_eq!(&data[17..19], b"AC");
    data[17] = b'B';
    data[18] = b'B';
    assert_eq!(LmcpSentinelizer::parse_sentinelized_stream(data), Ok(b"BB".to_vec()));
}

#[test]
fn any_changed_sentinel_byte_is_not_found() {
    for payload in [&b""[..], TEST_PAYLOAD] {
        let frame = LmcpSentinelizer::create_sentinelized_stream(payload);
        let length_digits = payload.len().to_string().len();
        for place in sentinel_places(frame.len(), length_digits, payload.len()) {
            for b in 0..=255u8 {
                if b == frame[place] {
                    continue;
                }
                let mut changed = frame.clone();
                changed[place] = b;
                assert_eq!(
                    LmcpSentinelizer::parse_sentinelized_stream(changed),
                    Err(Error::SentinelNotFound),
                    "byte {} at place {}",
                    b,
                    place
                );
            }
        }
    }
}

#[test]
fn digit_for_a_sentinel_byte_can_outgrow_the_field() {
    // 1_684_301 * 255 = 429_496_755, and one more digit is more than 2^32
    let payload = vec![255u8; 1_684_301];
    let frame = LmcpSentinelizer::create_sentinelized_stream(&payload);
    assert!(frame.ends_with(b"!%!%!%!%429496755?^?^?^?^"));
    let place = frame.len() - 8;
    let mut changed = frame.clone();
    changed[place] = b'0';
    assert_eq!(
        LmcpSentinelizer::parse_sentinelized_stream(changed),
        Err(Error::MalformedFrame)
    );
    // another byte there is a sentinel that is not found
    let mut changed = frame.clone();
    changed[place] = b'!';
    assert_eq!(
        LmcpSentinelizer::parse_sentinelized_stream(changed),
        Err(Error::SentinelNotFound)
    );
    // a digit behind the length field still fits: 16843010 is below 2^32
    let mut changed = frame;
    assert_eq!(&changed[8..16], b"1684301#");
    changed[15] = b'0';
    assert_eq!(
        LmcpSentinelizer::parse_sentinelized_stream(changed),
        Err(Error::SentinelNotFound)
    );
}

#[test]
fn decoded_length_is_what_the_length_field_says() {
    for n in [0usize, 1, 9, 10, 99, 100, 1000, 12345] {
        let payload = vec![b'x'; n];
        let frame = LmcpSentinelizer::create_sentinelized_stream(&payload);
        let digits = n.to_string();
        assert_eq!(&frame[8..8 + digits.len()], digits.as_bytes());
        assert_eq!(&frame[8 + digits.len()..16 + digits.len()], b"#@#@#@#@");
        let back = LmcpSentinelizer::parse_sentinelized_stream(frame).unwrap();
        assert_eq!(back.len(), n);
    }
    // also where the checksum is wrong nothing but the length bounds the payload
    let data = "+=+=+=+=3#@#@#@#@abcdef!%!%!%!%0?^?^?^?^";
    assert_eq!(
        LmcpSentinelizer::parse_sentinelized_stream(data.as_bytes().to_vec()),
        Err(Error::SentinelNotFound)
    );
}

#[test]
fn every_cut_frame_is_malformed() {
    for payload in [&b""[..], TEST_PAYLOAD] {
        let frame = LmcpSentinelizer::create_sentinelized_stream(payload);
        for n in 0..frame.len() {
            assert_eq!(
                LmcpSentinelizer::parse_sentinelized_stream(frame[..n].to_vec()),
                Err(Error::MalformedFrame),
                "cut at {}",
                n
            );
        }
        assert_eq!(
            LmcpSentinelizer::parse_sentinelized_stream(frame),
            Ok(payload.to_vec())
        );
    }
}

#[test]
fn buffers_that_do_not_start_with_the_first_sentinel() {
    let frame = LmcpSentinelizer::create_sentinelized_stream(TEST_PAYLOAD);
    // shifted by one byte either way
    let mut shifted = vec![b' '];
    shifted.extend_from_slice(&frame);
    assert_eq!(
        LmcpSentinelizer::parse_sentinelized_stream(shifted),
        Err(Error::SentinelNotFound)
    );
    assert_eq!(
        LmcpSentinelizer::parse_sentinelized_stream(frame[1..].to_vec()),
        Err(Error::SentinelNotFound)
    );
    // another sentinel in its place
    let data = "#@#@#@#@25#@#@#@#@ABCDEFGHIJKLMNOPQRSTUVWXY!%!%!%!%1925?^?^?^?^";
    assert_eq!(
        LmcpSentinelizer::parse_sentinelized_stream(data.as_bytes().to_vec()),
        Err(Error::SentinelNotFound)
    );
    assert_eq!(
        LmcpSentinelizer::parse_sentinelized_stream(vec![0u8; 64]),
        Err(Error::SentinelNotFound)
    );
}
