use lmdb_kv::codec::{decode_key, decode_value, encode_key, encode_value, FormatError, Value};

#[test]
fn u64_envelope_is_tag_and_little_endian_bytes() {
    let e = encode_value(&Value::Unsigned64(0x0102_0304_0506_0708));
    assert_eq!(e, vec![0, 8, 7, 6, 5, 4, 3, 2, 1]);
    assert_eq!(encode_value(&Value::Unsigned64(1)), vec![0, 1, 0, 0, 0, 0, 0, 0, 0]);
}

#[test]
fn blob_envelopes_carry_their_tag() {
    assert_eq!(encode_value(&Value::Bytes(vec![9, 8])), vec![1, 9, 8]);
    assert_eq!(encode_value(&Value::Serialized(vec![7])), vec![2, 7]);
    assert_eq!(encode_value(&Value::Bytes(vec![])), vec![1]);
    assert_eq!(encode_value(&Value::Serialized(vec![])), vec![2]);
}

#[test]
fn every_variant_round_trips() {
    let values = vec![
        Value::Unsigned64(0),
        Value::Unsigned64(1),
        Value::Unsigned64(u64::MAX),
        Value::Unsigned64(0xdead_beef_0000_0042),
        Value::Bytes(vec![]),
        Value::Bytes(vec![0, 255, 1]),
        Value::Serialized(vec![]),
        Value::Serialized(vec![2, 0, 0, 0, 0, 0, 0, 0, 0, 0]),
    ];
    for v in values {
        let e = encode_value(&v);
        assert_eq!(decode_value(&e), Ok(v));
    }
}

#[test]
fn u64_max_decodes_exactly() {
    let bytes = [0u8, 255, 255, 255, 255, 255, 255, 255, 255];
    assert_eq!(decode_value(&bytes), Ok(Value::Unsigned64(u64::MAX)));
    let bytes = [0u8, 0x2a, 0, 0, 0, 0, 0, 0, 0x80];
    assert_eq!(decode_value(&bytes), Ok(Value::Unsigned64(0x8000_0000_0000_002a)));
}

#[test]
fn unknown_tag_reads_as_serialized() {
    assert_eq!(decode_value(&[7, 1, 2, 3]), Ok(Value::Serialized(vec![1, 2, 3])));
    assert_eq!(decode_value(&[255]), Ok(Value::Serialized(vec![])));
}

#[test]
fn empty_envelope_is_a_format_error() {
    assert_eq!(decode_value(&[]), Err(FormatError::Empty));
}

#[test]
fn short_or_long_u64_payload_is_a_format_error() {
    assert_eq!(decode_value(&[0]), Err(FormatError::BadU64Width(0)));
    assert_eq!(decode_value(&[0, 1, 2, 3, 4, 5, 6, 7]), Err(FormatError::BadU64Width(7)));
    assert_eq!(
        decode_value(&[0, 1, 2, 3, 4, 5, 6, 7, 8, 9]),
        Err(FormatError::BadU64Width(9))
    );
}

#[test]
fn keys_are_stored_as_they_are() {
    let k = vec![0u8, 5, 255, 3];
    let stored = encode_key(&k);
    assert_eq!(stored, k);
    assert_eq!(decode_key(&stored), k);
    assert_eq!(encode_key(&[]), Vec::<u8>::new());
}
