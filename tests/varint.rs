use ironside::varint::{
    decode_varint, encode_varint, encoded_len, CodecError, KlipperBytes, KlipperVarint,
};

#[test]
fn command_test_encode_one() {
    assert_eq!(1234u32.to_klipper_bytes().0, vec![0x89, 0x52]);
}

#[test]
fn command_test_decode_one() {
    let expected = KlipperVarint(vec![0x89, 0x52]);
    assert_eq!(u32::from_klipper_bytes(&expected).unwrap(), 1234);
}

#[test]
fn encode_1234_gives_firmware_bytes() {
    assert_eq!(encode_varint(1234), vec![0x89, 0x52]);
    assert_eq!(decode_varint(&[0x89, 0x52], 0), Ok((1234, 2)));
}

#[test]
fn encoded_len_table_edges() {
    let cases: [(i32, usize); 18] = [
        (0, 1),
        (-32, 1),
        (95, 1),
        (-33, 2),
        (96, 2),
        (-4096, 2),
        (12287, 2),
        (-4097, 3),
        (12288, 3),
        (-524288, 3),
        (1572863, 3),
        (-524289, 4),
        (1572864, 4),
        (-67108864, 4),
        (201326591, 4),
        (-67108865, 5),
        (201326592, 5),
        (i32::MIN, 5),
    ];
    for (v, n) in cases {
        assert_eq!(encoded_len(v), n, "value {}", v);
        assert_eq!(encode_varint(v).len(), n, "value {}", v);
    }
    assert_eq!(encoded_len(i32::MAX), 5);
}

#[test]
fn round_trip_over_many_values() {
    let mut v: i64 = i32::MIN as i64;
    while v <= i32::MAX as i64 {
        let x = v as i32;
        let bytes = encode_varint(x);
        assert_eq!(decode_varint(&bytes, 0), Ok((x, bytes.len())), "value {}", x);
        v += 65_537;
    }
    for x in [-1i32, -32, -33, 95, 96, i32::MIN, i32::MAX, -4096, 12287, 201326591] {
        let bytes = encode_varint(x);
        assert_eq!(decode_varint(&bytes, 0), Ok((x, bytes.len())));
    }
}

#[test]
fn negative_values_sign_extend() {
    assert_eq!(encode_varint(-1), vec![0x7f]);
    assert_eq!(decode_varint(&[0x7f], 0), Ok((-1, 1)));
    assert_eq!(encode_varint(-4096), vec![0xe0, 0x00]);
    assert_eq!(i32::from_klipper_bytes(&KlipperVarint(vec![0xe0, 0x00])), Ok(-4096));
}

#[test]
fn unsigned_values_use_their_bit_pattern() {
    let bytes = u32::MAX.to_klipper_bytes();
    assert_eq!(bytes.0, vec![0x7f]);
    assert_eq!(u32::from_klipper_bytes(&bytes), Ok(u32::MAX));
    let big = 3_000_000_000u32.to_klipper_bytes();
    assert_eq!(big.0.len(), 5);
    assert_eq!(u32::from_klipper_bytes(&big), Ok(3_000_000_000));
}

#[test]
fn decode_runs_off_the_end() {
    assert_eq!(decode_varint(&[0x89], 0), Err(CodecError::Truncated));
    assert_eq!(decode_varint(&[], 0), Err(CodecError::Truncated));
    assert_eq!(decode_varint(&[0x00, 0x89, 0x52], 1), Ok((1234, 3)));
    assert_eq!(u32::from_klipper_bytes(&KlipperVarint(vec![0x80, 0x80])), Err(CodecError::Truncated));
}
