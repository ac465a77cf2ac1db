use fleece::alloced::{AllocedArray, AllocedDict, AllocedValue};
use fleece::encoder::error::EncodeError;
use fleece::scope::Scope;
use fleece::ser::{key_not_string, KeyType, SerializeError, Serializer};
use fleece::shared_keys::SharedKeys;
use fleece::{Encoder, Error, Value, ValueType};
use std::sync::Arc;

#[test]
fn shared_keys_number_keys_in_order() {
    let mut sk = SharedKeys::new();
    assert_eq!(sk.len(), 0);
    assert_eq!(sk.encode_and_insert("name"), Some(0));
    assert_eq!(sk.encode_and_insert("age"), Some(1));
    assert_eq!(sk.encode_and_insert("name"), Some(0));
    assert_eq!(sk.len(), 2);
    assert_eq!(sk.encode("name"), Some(0));
    assert_eq!(sk.encode("age"), Some(1));
    assert_eq!(sk.encode("other"), None);
    assert_eq!(sk.decode(0), Some("name"));
    assert_eq!(sk.decode(1), Some("age"));
    assert_eq!(sk.decode(2), None);
    assert_eq!(sk.len(), 2);
}

#[test]
fn shared_keys_refuse_what_cannot_be_added() {
    let mut sk = SharedKeys::new();
    assert!(sk.can_add("name"));
    assert!(!sk.can_add("Address Line 1"));
    assert!(sk.can_add("first_name-2"));
    assert!(!sk.can_add("abcdefghijklmnopq"));
    assert!(!sk.can_add("has space"));
    assert!(!sk.can_add("bang!"));
    assert!(sk.can_add("under_score-dash"));
    assert!(sk.can_add("caf\u{e9}"));
    assert!(!sk.can_add("seventeen_bytes_x"));
    assert_eq!(sk.encode_and_insert("has space"), None);
    assert_eq!(sk.len(), 0);
}

#[test]
fn shared_keys_keep_fifteen_bytes() {
    let mut sk = SharedKeys::new();
    // Sixteen bytes may be added, and fifteen are kept.
    assert_eq!(sk.encode_and_insert("sixteen_bytes_xy"), Some(0));
    assert_eq!(sk.decode(0), Some("sixteen_bytes_x"));
    assert_eq!(sk.encode("sixteen_bytes_xy"), Some(0));
}

#[test]
fn shared_keys_fill_up() {
    let mut sk = SharedKeys::new();
    for i in 0..2048 {
        assert_eq!(sk.encode_and_insert(&format!("k{i}")), Some(i as u16));
    }
    assert!(!sk.can_add("one_more"));
    assert_eq!(sk.encode_and_insert("one_more"), None);
    assert_eq!(sk.len(), 2048);
}

#[test]
fn shared_keys_state_round_trip() {
    let mut sk = SharedKeys::new();
    for k in ["a", "bb", "a-longer-key"] {
        sk.encode_and_insert(k).unwrap();
    }
    let state = sk.get_state_bytes();
    let back = SharedKeys::from_state_bytes(&state).unwrap();
    assert_eq!(back.len(), 3);
    assert_eq!(back.decode(0), Some("a"));
    assert_eq!(back.decode(1), Some("bb"));
    assert_eq!(back.decode(2), Some("a-longer-key"));
    let copy = back.clone();
    assert_eq!(copy.encode("bb"), Some(1));
    // State that is no Array is refused.
    let mut e = Encoder::new();
    e.begin_dict().unwrap();
    e.end_dict().unwrap();
    assert!(SharedKeys::from_state_bytes(&e.finish()).is_none());
    // A key given twice keeps its first number.
    let mut e = Encoder::new();
    e.begin_array(3).unwrap();
    for k in ["xy", "yz", "xy"] {
        e.write_value(k).unwrap();
    }
    e.end_array().unwrap();
    let twice = SharedKeys::from_state_bytes(&e.finish()).unwrap();
    assert_eq!(twice.len(), 2);
    assert_eq!(twice.decode(1), Some("yz"));
}

#[test]
fn alloced_values_share_their_buffer() {
    let mut e = Encoder::new();
    e.begin_array(1).unwrap();
    e.write_value(&4i64).unwrap();
    e.end_array().unwrap();
    let bytes = e.finish();
    let v: AllocedValue = Value::clone_from_bytes(&bytes).unwrap();
    let copy = v.clone();
    assert_eq!(Arc::strong_count(v.buf()), 2);
    let array = copy.to_array().unwrap();
    assert_eq!(array.array().len(), 1);
    assert!(v.to_dict().is_none());
    assert_eq!(AllocedArray::empty().array().len(), 0);
    assert_eq!(AllocedDict::empty().dict().len(), 0);
    assert!(Value::clone_from_bytes(&[1, 2, 3]).is_err());
}

#[test]
fn scope_finds_its_root() {
    let mut e = Encoder::new();
    e.begin_dict().unwrap();
    e.write_key("x").unwrap();
    e.write_value(&1i64).unwrap();
    e.end_dict().unwrap();
    let bytes = e.finish();
    let scope = Scope::new(bytes.clone(), Some(Arc::new(SharedKeys::new())));
    assert!(scope.shared_keys().is_some());
    assert_eq!(scope.data().as_slice(), bytes.as_slice());
    let root = scope.root().unwrap();
    assert_eq!(root.value().value_type(), ValueType::Dict);
    let bad = Scope::new(vec![1, 2, 3], None);
    assert!(bad.root().is_none());
    assert!(bad.shared_keys().is_none());
}

#[test]
fn serializer_maps_its_errors() {
    let s = Serializer::new();
    let r = s.finish(Err(Error::Encode(EncodeError::CollectionNotOpen)));
    assert!(matches!(r, Err(Error::Serialize(SerializeError::ValueNotCollection))));
    let s = Serializer::new();
    let r = s.finish(Err(Error::Encode(EncodeError::DictNotOpen)));
    assert!(matches!(r, Err(Error::Encode(EncodeError::DictNotOpen))));
    let s = Serializer::new();
    assert_eq!(s.finish(Ok(())).unwrap(), Vec::<u8>::new());
    assert!(matches!(
        key_not_string(KeyType::Int),
        Error::Serialize(SerializeError::KeyNotString(KeyType::Int))
    ));
    let e: Error = EncodeError::ArrayNotOpen.into();
    assert!(matches!(e, Error::Encode(EncodeError::ArrayNotOpen)));
}

#[test]
fn values_report_their_kind_and_size() {
    let v = Value::from_bytes(&[0x38, 0]).unwrap();
    assert_eq!(v.len(), 2);
    assert!(!v.is_empty());
    assert_eq!(v.required_size(), 2);
    assert!(!v.is_mutable());
    assert_eq!(v.to_short(), 1);
    assert_eq!(v.to_unsigned_short(), 1);
}
