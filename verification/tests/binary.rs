use serde_llsd::de::binary::{from_bytes, LLSDBINARYSENTINEL};
use serde_llsd::ser::binary::to_bytes;
use serde_llsd::{
    auto_from_bytes, BinaryError, EncodeError, LLSDError, LLSDMap, LLSDReal, LLSDValue,
};

fn float(v: f64) -> LLSDValue {
    LLSDValue::Real(LLSDReal::Bits(v.to_bits()))
}

#[test]
fn binaryparsetest1() {
    //  Construct a test value.
    let mut test1map = LLSDMap::new();
    test1map.insert("val1".to_string(), float(456.0));
    test1map.insert("val2".to_string(), LLSDValue::Integer(999));
    let test1: LLSDValue = LLSDValue::Array(vec![
        float(123.5),
        LLSDValue::Mapping(test1map),
        LLSDValue::Integer(42),
        LLSDValue::String("Hello world".to_string()),
    ]);
    //  Convert to binary form.
    let test1bin = to_bytes(&test1).unwrap();
    println!("Binary form: {:?}", test1bin);
    //  Convert back to value form.
    let test1value = from_bytes(&test1bin[LLSDBINARYSENTINEL.len()..]).unwrap();
    println!("Value after round-trip conversion: {:?}", test1value);
    //  Check that results match after round trip.
    assert_eq!(test1, test1value);
}

#[test]
fn binary_example_with_sentinel() {
    let mut bytes = b"<? LLSD/Binary ?>\n".to_vec();
    bytes.extend_from_slice(b"[\x00\x00\x00\x02s\x00\x00\x00\x05helloi\x00\x00\x00\x2a]");
    let expected = LLSDValue::Array(vec![
        LLSDValue::String("hello".to_string()),
        LLSDValue::Integer(42),
    ]);
    assert_eq!(auto_from_bytes(&bytes).unwrap(), expected);
    assert_eq!(from_bytes(&bytes[18..]).unwrap(), expected);
}

#[test]
fn binary_sentinel_is_the_documented_literal() {
    assert_eq!(&LLSDBINARYSENTINEL[..], &b"<? LLSD/Binary ?>\n"[..]);
    let bytes = to_bytes(&LLSDValue::Undefined).unwrap();
    assert_eq!(bytes, b"<? LLSD/Binary ?>\n!".to_vec());
}

#[test]
fn binary_encodes_each_kind_exactly() {
    let body = |v: &LLSDValue| to_bytes(v).unwrap()[18..].to_vec();
    assert_eq!(body(&LLSDValue::Boolean(true)), b"1".to_vec());
    assert_eq!(body(&LLSDValue::Boolean(false)), b"0".to_vec());
    assert_eq!(body(&LLSDValue::Integer(-2)), vec![b'i', 0xff, 0xff, 0xff, 0xfe]);
    assert_eq!(body(&LLSDValue::Integer(i32::MIN)), vec![b'i', 0x80, 0, 0, 0]);
    assert_eq!(
        body(&float(1.0)),
        vec![b'r', 0x3f, 0xf0, 0, 0, 0, 0, 0, 0]
    );
    assert_eq!(
        body(&LLSDValue::Date(-1)),
        vec![b'd', 0xff, 0xff, 0xff, 0xff, 0xff, 0xff, 0xff, 0xff]
    );
    assert_eq!(
        body(&LLSDValue::Date(1138804193)),
        vec![b'd', 0, 0, 0, 0, 0x43, 0xe0, 0xc5, 0xe1]
    );
    assert_eq!(
        body(&LLSDValue::String("hé".to_string())),
        vec![b's', 0, 0, 0, 3, b'h', 0xc3, 0xa9]
    );
    assert_eq!(
        body(&LLSDValue::URI("a".to_string())),
        vec![b'l', 0, 0, 0, 1, b'a']
    );
    assert_eq!(
        body(&LLSDValue::Binary(vec![1, 2, 3])),
        vec![b'b', 0, 0, 0, 3, 1, 2, 3]
    );
    let uuid: [u8; 16] = [1, 2, 3, 4, 5, 6, 7, 8, 9, 10, 11, 12, 13, 14, 15, 16];
    let mut expected = vec![b'u'];
    expected.extend_from_slice(&uuid);
    assert_eq!(body(&LLSDValue::UUID(uuid)), expected);
    let mut map = LLSDMap::new();
    map.insert("k".to_string(), LLSDValue::Undefined);
    assert_eq!(
        body(&LLSDValue::Mapping(map)),
        vec![b'{', 0, 0, 0, 1, b'k', 0, 0, 0, 1, b'k', b'!', b'}']
    );
}

#[test]
fn binary_round_trips_every_kind() {
    let mut inner = LLSDMap::new();
    inner.insert("empty map".to_string(), LLSDValue::Mapping(LLSDMap::new()));
    inner.insert("empty array".to_string(), LLSDValue::Array(vec![]));
    inner.insert("nan".to_string(), float(f64::NAN));
    let tree = LLSDValue::Array(vec![
        LLSDValue::Undefined,
        LLSDValue::Boolean(true),
        LLSDValue::Boolean(false),
        float(-0.043753),
        LLSDValue::Integer(i32::MAX),
        LLSDValue::Integer(i32::MIN),
        LLSDValue::UUID([0xab; 16]),
        LLSDValue::String("ABC☺DEF".to_string()),
        LLSDValue::Date(i64::MIN),
        LLSDValue::Date(i64::MAX),
        LLSDValue::URI("http://secondlife.com".to_string()),
        LLSDValue::Binary(vec![0, 255, 128]),
        LLSDValue::Mapping(inner),
    ]);
    let bytes = to_bytes(&tree).unwrap();
    assert_eq!(auto_from_bytes(&bytes).unwrap(), tree);
}

#[test]
fn binary_empty_containers_round_trip() {
    let map = LLSDValue::Mapping(LLSDMap::new());
    let array = LLSDValue::Array(vec![]);
    assert_eq!(from_bytes(&to_bytes(&map).unwrap()[18..]).unwrap(), map);
    assert_eq!(from_bytes(&to_bytes(&array).unwrap()[18..]).unwrap(), array);
    assert_eq!(from_bytes(b"{\x00\x00\x00\x00}").unwrap(), map);
    assert_eq!(from_bytes(b"[\x00\x00\x00\x00]").unwrap(), array);
}

#[test]
fn binary_duplicate_key_keeps_the_last_value() {
    let bytes = b"{\x00\x00\x00\x02k\x00\x00\x00\x01ai\x00\x00\x00\x01k\x00\x00\x00\x01ai\x00\x00\x00\x02}";
    let value = from_bytes(bytes).unwrap();
    let map = value.as_map().unwrap();
    assert_eq!(map.len(), 1);
    assert_eq!(map.get("a"), Some(&LLSDValue::Integer(2)));
}

#[test]
fn binary_ignores_what_follows_the_value() {
    assert_eq!(from_bytes(b"1garbage").unwrap(), LLSDValue::Boolean(true));
}

#[test]
fn binary_rejects_malformed_input() {
    assert_eq!(from_bytes(b""), Err(BinaryError::UnexpectedEnd));
    assert_eq!(from_bytes(b"i\x00\x00"), Err(BinaryError::UnexpectedEnd));
    assert_eq!(from_bytes(b"s\x00\x00\x00\x05abc"), Err(BinaryError::UnexpectedEnd));
    assert_eq!(from_bytes(b"u0123456789"), Err(BinaryError::UnexpectedEnd));
    assert_eq!(from_bytes(b"r1234567"), Err(BinaryError::UnexpectedEnd));
    assert_eq!(from_bytes(b"x"), Err(BinaryError::UnknownTag(b'x')));
    assert_eq!(
        from_bytes(b"{\x00\x00\x00\x01s\x00\x00\x00\x01a!}"),
        Err(BinaryError::BadKeyTag(b's'))
    );
    assert_eq!(
        from_bytes(b"{\x00\x00\x00\x01k\x00\x00\x00\x01a!]"),
        Err(BinaryError::UnclosedMap)
    );
    assert_eq!(from_bytes(b"[\x00\x00\x00\x01!}"), Err(BinaryError::UnclosedArray));
    assert_eq!(from_bytes(b"[\x00\x00\x00\x01!"), Err(BinaryError::UnexpectedEnd));
    assert_eq!(from_bytes(b"[\x00\x00\x00\x02!]"), Err(BinaryError::UnknownTag(b']')));
    assert_eq!(from_bytes(b"s\x00\x00\x00\x02\xc3\x28"), Err(BinaryError::InvalidUtf8));
    assert_eq!(from_bytes(b"l\x00\x00\x00\x01\xff"), Err(BinaryError::InvalidUtf8));
    assert_eq!(
        from_bytes(b"{\x00\x00\x00\x01k\x00\x00\x00\x01\xff!}"),
        Err(BinaryError::InvalidUtf8)
    );
}

#[test]
fn binary_cannot_write_a_numeral() {
    let v = LLSDValue::Real(LLSDReal::Decimal("2.5".to_string()));
    assert_eq!(to_bytes(&v), Err(EncodeError::RealWithoutBits));
    let nested = LLSDValue::Array(vec![LLSDValue::Integer(1), v]);
    assert_eq!(to_bytes(&nested), Err(EncodeError::RealWithoutBits));
}

#[test]
fn binary_error_is_reported_through_detection() {
    let mut bytes = b"<? LLSD/Binary ?>\n".to_vec();
    bytes.push(b'x');
    assert_eq!(
        auto_from_bytes(&bytes),
        Err(LLSDError::Binary(BinaryError::UnknownTag(b'x')))
    );
}
