use neutrondb::error::NeutronError;
use neutrondb::types::into_bytes::IntoBytes;
use neutrondb::types::try_from_bytes::TryFromBytes;

#[test]
fn integers_to_little_endian_bytes() {
    assert_eq!(258u16.into_bytes(), vec![2, 1]);
    assert_eq!((-2i32).into_bytes(), vec![0xfe, 0xff, 0xff, 0xff]);
    assert_eq!(1u64.into_bytes(), vec![1, 0, 0, 0, 0, 0, 0, 0]);
    assert_eq!((&7u8).into_bytes(), vec![7]);
}

#[test]
fn text_to_utf8_bytes() {
    assert_eq!(IntoBytes::into_bytes("hé"), vec![104, 0xc3, 0xa9]);
    assert_eq!(IntoBytes::into_bytes(&"ab".to_string()), vec![97, 98]);
    let bytes: &[u8] = &[1, 2, 3];
    assert_eq!(IntoBytes::into_bytes(bytes), vec![1, 2, 3]);
}

#[test]
fn integers_from_bytes() {
    assert_eq!(u16::try_from_bytes(vec![2, 1]), Ok(258));
    assert_eq!(i32::try_from_bytes(vec![0xfe, 0xff, 0xff, 0xff]), Ok(-2));
    assert_eq!(u128::try_from_bytes(vec![1; 16]), Ok(u128::from_le_bytes([1; 16])));
}

#[test]
fn integers_from_wrong_size() {
    assert_eq!(u32::try_from_bytes(vec![1, 2, 3]), Err(NeutronError::InvalidByteSize));
    assert_eq!(i8::try_from_bytes(vec![]), Err(NeutronError::InvalidByteSize));
}

#[test]
fn text_from_bytes() {
    assert_eq!(String::try_from_bytes(vec![104, 0xc3, 0xa9]), Ok("hé".to_string()));
    assert_eq!(String::try_from_bytes(vec![0xff]), Err(NeutronError::InvalidUtf8));
}

#[test]
fn integer_roundtrip() {
    for x in [0i64, -1, i64::MIN, i64::MAX, 12345] {
        assert_eq!(i64::try_from_bytes(x.into_bytes()), Ok(x));
    }
}
