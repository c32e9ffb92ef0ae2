use vlq::{decode, encode, ByteSource, Error};

fn decode_tester_ok(input: &[u8], expect: i64) {
    let mut source = ByteSource::new(input.to_vec());
    match decode(&mut source) {
        Ok(x) => {
            assert_eq!(x, expect);
            assert!(source.next().is_none());
        }
        _ => assert!(false),
    }
}

#[test]
fn test_decode() {
    decode_tester_ok("A".as_bytes(), 0);
    decode_tester_ok("B".as_bytes(), i64::MIN);
    decode_tester_ok("C".as_bytes(), 1);
    decode_tester_ok("D".as_bytes(), -1);
}

#[test]
fn test_roundtrip() {
    for val in -512..512 {
        let mut buf = Vec::<u8>::new();
        encode(val, &mut buf);
        assert!(buf.len() > 0);
        decode_tester_ok(&buf, val);
    }
}

#[test]
fn test_simple_roundtrip() {
    for val in 0..64 {
        // Don't crash, and decoding is an identity.
        assert_eq!(val, vlq::decode64(vlq::encode64(val)).unwrap());
    }
}

#[test]
fn test_wide_roundtrip() {
    for val in -10000..=10000 {
        let mut buf = Vec::<u8>::new();
        encode(val, &mut buf);
        decode_tester_ok(&buf, val);
    }
}

#[test]
fn test_boundary_roundtrip() {
    for val in [0, i64::MAX, i64::MIN + 1, i64::MIN] {
        let mut buf = Vec::<u8>::new();
        encode(val, &mut buf);
        decode_tester_ok(&buf, val);
    }
}

#[test]
fn test_encode_zero_is_one_byte() {
    let mut buf = Vec::<u8>::new();
    encode(0, &mut buf);
    assert_eq!(buf, vec![b'A']);
}

#[test]
fn test_encode_appends() {
    let mut buf = vec![b'X'];
    encode(1, &mut buf);
    assert_eq!(buf, vec![b'X', b'C']);
}

#[test]
fn test_no_trailing_zero_group() {
    for val in -2000..2000 {
        let mut buf = Vec::<u8>::new();
        encode(val, &mut buf);
        // Every digit but the last is continued; the last is not, and in a
        // multi-byte encoding its payload is nonzero.
        for (k, byte) in buf.iter().enumerate() {
            let digit = vlq::decode64(*byte).unwrap();
            if k + 1 < buf.len() {
                assert!(digit >= 32);
            } else {
                assert!(digit < 32);
                if buf.len() > 1 {
                    assert_ne!(digit, 0);
                }
            }
        }
    }
}

#[test]
fn test_invalid_byte() {
    let mut source = ByteSource::new(b"!".to_vec());
    assert_eq!(decode(&mut source), Err(Error::InvalidBase64(b'!')));
}

#[test]
fn test_invalid_byte_after_continuation() {
    // 'g' is digit 32: zero payload, continuation flag set.
    let mut source = ByteSource::new(b"g!".to_vec());
    assert_eq!(decode(&mut source), Err(Error::InvalidBase64(b'!')));
}

#[test]
fn test_empty_input() {
    let mut source = ByteSource::new(Vec::new());
    assert_eq!(decode(&mut source), Err(Error::UnexpectedEof));
}

#[test]
fn test_truncated_input() {
    // The last (and only) digit still carries the continuation flag.
    let mut source = ByteSource::new(b"g".to_vec());
    assert_eq!(decode(&mut source), Err(Error::UnexpectedEof));
}

#[test]
fn test_overflow_too_many_digits() {
    // Thirteen zero-payload continued digits demand a fourteenth digit,
    // whose payload would lie entirely past bit 64.
    let mut source = ByteSource::new(b"gggggggggggggA".to_vec());
    assert_eq!(decode(&mut source), Err(Error::Overflow));
}

#[test]
fn test_overflow_thirteenth_digit_too_large() {
    // Twelve continued digits, then 'Q' (digit 16): its bit 4 would land on
    // bit 64 of the accumulator.
    let mut source = ByteSource::new(b"ggggggggggggQ".to_vec());
    assert_eq!(decode(&mut source), Err(Error::Overflow));
}

#[test]
fn test_largest_thirteen_digit_value_fits() {
    // Twelve continued zero digits, then 'P' (digit 15): the largest
    // payload the thirteenth digit may carry.
    decode_tester_ok(b"ggggggggggggP", 15 << 59);
}

#[test]
fn test_min_decodes_not_overflow() {
    // The encoding of i64::MIN (sign bit set, magnitude 0) must decode,
    // not report overflow.
    let mut buf = Vec::<u8>::new();
    encode(i64::MIN, &mut buf);
    assert_eq!(buf, vec![b'B']);
    let mut source = ByteSource::new(buf);
    assert_eq!(decode(&mut source), Ok(i64::MIN));
}

#[test]
fn test_two_values_from_one_source() {
    // A successful decode consumes exactly one value's bytes, so the next
    // decode picks up right after it.
    let mut buf = Vec::<u8>::new();
    encode(123, &mut buf);
    encode(-456, &mut buf);
    encode(0, &mut buf);
    let mut source = ByteSource::new(buf);
    assert_eq!(decode(&mut source), Ok(123));
    assert_eq!(decode(&mut source), Ok(-456));
    assert_eq!(decode(&mut source), Ok(0));
    assert!(source.next().is_none());
}

#[test]
fn test_error_keeps_later_values_unread() {
    // An error consumes the bytes up to and including the offending one.
    let mut buf = b"!".to_vec();
    encode(7, &mut buf);
    let mut source = ByteSource::new(buf);
    assert_eq!(decode(&mut source), Err(Error::InvalidBase64(b'!')));
    assert_eq!(decode(&mut source), Ok(7));
}
