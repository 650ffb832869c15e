use serde_llsd::{LLSDMap, LLSDReal, LLSDValue};

#[test]
fn typed_extraction() {
    let b = LLSDValue::Boolean(true);
    let i = LLSDValue::Integer(7);
    let r = LLSDValue::Real(LLSDReal::Bits(1.5f64.to_bits()));
    let u = LLSDValue::UUID([1; 16]);
    let s = LLSDValue::String("s".to_string());
    let d = LLSDValue::Date(5);
    let l = LLSDValue::URI("l".to_string());
    let y = LLSDValue::Binary(vec![1]);
    let m = LLSDValue::Mapping(LLSDMap::new());
    let a = LLSDValue::Array(vec![LLSDValue::Undefined]);
    assert!(LLSDValue::Undefined.is_undefined());
    assert!(!b.is_undefined());
    assert_eq!(b.as_boolean(), Some(&true));
    assert_eq!(i.as_integer(), Some(&7));
    assert_eq!(r.as_real(), Some(&LLSDReal::Bits(0x3ff8_0000_0000_0000)));
    assert_eq!(u.as_uuid(), Some(&[1u8; 16]));
    assert_eq!(s.as_string(), Some(&"s".to_string()));
    assert_eq!(d.as_date(), Some(&5));
    assert_eq!(l.as_uri(), Some(&"l".to_string()));
    assert_eq!(y.as_binary(), Some(&vec![1u8]));
    assert_eq!(m.as_map(), Some(&LLSDMap::new()));
    assert_eq!(a.as_array(), Some(&vec![LLSDValue::Undefined]));
    // a mismatch is an absence, not an error
    assert_eq!(i.as_boolean(), None);
    assert_eq!(b.as_integer(), None);
    assert_eq!(s.as_uri(), None);
    assert_eq!(l.as_string(), None);
    assert_eq!(a.as_map(), None);
    assert_eq!(m.as_array(), None);
    assert_eq!(d.as_real(), None);
    assert_eq!(y.as_uuid(), None);
    assert_eq!(u.as_binary(), None);
    assert_eq!(r.as_date(), None);
}

#[test]
fn map_last_write_wins() {
    let mut m = LLSDMap::new();
    assert!(m.is_empty());
    assert_eq!(m.get("a"), None);
    m.insert("a".to_string(), LLSDValue::Integer(1));
    m.insert("b".to_string(), LLSDValue::Integer(2));
    m.insert("a".to_string(), LLSDValue::Integer(3));
    assert_eq!(m.len(), 2);
    assert!(!m.is_empty());
    assert!(m.contains_key("a"));
    assert!(!m.contains_key("c"));
    assert_eq!(m.get("a"), Some(&LLSDValue::Integer(3)));
    assert_eq!(m.get("b"), Some(&LLSDValue::Integer(2)));
    assert_eq!(m.key_at(0), "a");
    assert_eq!(m.value_at(0), &LLSDValue::Integer(3));
    assert_eq!(m.key_at(1), "b");
    assert_eq!(m.value_at(1), &LLSDValue::Integer(2));
}

#[test]
fn copies_are_equal() {
    let mut m = LLSDMap::new();
    m.insert("k".to_string(), LLSDValue::Array(vec![LLSDValue::Binary(vec![1, 2, 3])]));
    let tree = LLSDValue::Array(vec![
        LLSDValue::Mapping(m),
        LLSDValue::Real(LLSDReal::Decimal("1.5".to_string())),
        LLSDValue::String("x".to_string()),
    ]);
    assert_eq!(tree.duplicate(), tree);
    assert_eq!(tree.clone(), tree);
}

#[test]
fn equality_ignores_the_order_of_a_map() {
    let mut ab = LLSDMap::new();
    ab.insert("a".to_string(), LLSDValue::Integer(1));
    ab.insert("b".to_string(), LLSDValue::Array(vec![LLSDValue::Boolean(true)]));
    let mut ba = LLSDMap::new();
    ba.insert("b".to_string(), LLSDValue::Array(vec![LLSDValue::Boolean(true)]));
    ba.insert("a".to_string(), LLSDValue::Integer(1));
    assert_eq!(ab, ba);
    assert!(ab.equals(&ba));
    let nested_ab = LLSDValue::Array(vec![LLSDValue::Mapping(ab)]);
    let nested_ba = LLSDValue::Array(vec![LLSDValue::Mapping(ba)]);
    assert_eq!(nested_ab, nested_ba);
    let mut other = LLSDMap::new();
    other.insert("a".to_string(), LLSDValue::Integer(1));
    other.insert("b".to_string(), LLSDValue::Array(vec![LLSDValue::Boolean(false)]));
    assert_ne!(nested_ab, LLSDValue::Array(vec![LLSDValue::Mapping(other)]));
    let mut fewer = LLSDMap::new();
    fewer.insert("a".to_string(), LLSDValue::Integer(1));
    assert_ne!(nested_ab, LLSDValue::Array(vec![LLSDValue::Mapping(fewer)]));
    let mut renamed = LLSDMap::new();
    renamed.insert("a".to_string(), LLSDValue::Integer(1));
    renamed.insert("c".to_string(), LLSDValue::Array(vec![LLSDValue::Boolean(true)]));
    assert_ne!(nested_ab, LLSDValue::Array(vec![LLSDValue::Mapping(renamed)]));
    // the order of an array counts
    assert_ne!(
        LLSDValue::Array(vec![LLSDValue::Integer(1), LLSDValue::Integer(2)]),
        LLSDValue::Array(vec![LLSDValue::Integer(2), LLSDValue::Integer(1)])
    );
    // kinds are told apart
    assert_ne!(LLSDValue::String("a".to_string()), LLSDValue::URI("a".to_string()));
    assert_ne!(LLSDValue::Integer(0), LLSDValue::Date(0));
    assert_ne!(
        LLSDValue::Real(LLSDReal::Bits(0)),
        LLSDValue::Real(LLSDReal::Decimal("0".to_string()))
    );
    assert_eq!(
        LLSDValue::Real(LLSDReal::Bits(f64::NAN.to_bits())),
        LLSDValue::Real(LLSDReal::Bits(f64::NAN.to_bits()))
    );
}
