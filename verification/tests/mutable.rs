use fleece::encoder::encodable::{Double32Bits, NullValue};
use fleece::mutable::array::MutableArray;
use fleece::mutable::dict::MutableDict;
use fleece::scope::Scope;
use fleece::shared_keys::SharedKeys;
use fleece::{Encoder, Value, ValueType};
use std::sync::Arc;

fn keys_of(dict: &MutableDict) -> Vec<String> {
    dict.iter().iter().map(|(k, _)| k.to_string()).collect()
}

#[test]
fn dict_keys_come_out_sorted() {
    let mut dict = MutableDict::new();
    for k in ["pear", "apple", "", "banana", "apple pie"] {
        dict.insert(k, 1);
    }
    assert_eq!(dict.len(), 5);
    assert_eq!(keys_of(&dict), vec!["", "apple", "apple pie", "banana", "pear"]);
    dict.insert("apple", 2);
    assert_eq!(dict.len(), 5);
    assert_eq!(dict.get("apple").unwrap().to_int(), 2);
    dict.remove("banana");
    dict.remove("not there");
    assert_eq!(keys_of(&dict), vec!["", "apple", "apple pie", "pear"]);
    assert!(dict.get("banana").is_none());
    assert!(!dict.is_empty());
}

#[test]
fn dict_numbers_shared_keys_and_puts_them_first() {
    let mut sk = SharedKeys::new();
    assert_eq!(sk.encode_and_insert("zeta"), Some(0));
    assert_eq!(sk.encode_and_insert("alpha"), Some(1));
    let mut dict = MutableDict::new_with_shared_keys(Arc::new(sk));
    dict.insert("middle", "m");
    dict.insert("alpha", "a");
    dict.insert("zeta", "z");
    // Shared keys come first, by number; then strings.
    assert_eq!(keys_of(&dict), vec!["zeta", "alpha", "middle"]);
    assert_eq!(dict.get("zeta").unwrap().to_str(), "z");
    assert_eq!(dict.get("alpha").unwrap().to_str(), "a");
    assert!(dict.contains_key("middle"));
    let copy = dict.clone();
    assert_eq!(keys_of(&copy), vec!["zeta", "alpha", "middle"]);
}

#[test]
fn slots_hold_short_values_inline_and_long_ones_apart() {
    let mut a = MutableArray::new();
    a.push("fourteen bytes");
    a.push("a text longer than fifteen bytes");
    a.push(&NullValue);
    a.push(&Double32Bits(0.25f32.to_bits()));
    let short = a.get(0).unwrap();
    assert_eq!(short.len(), 15);
    assert_eq!(short.to_str(), "fourteen bytes");
    let long = a.get(1).unwrap();
    assert_eq!(long.len(), 34);
    assert_eq!(long.to_str(), "a text longer than fifteen bytes");
    assert_eq!(a.get(2).unwrap().value_type(), ValueType::Null);
    assert_eq!(a.get(3).unwrap().value_type(), ValueType::Double32);
    assert!(a.get(4).is_none());
    let refs = a.iter();
    assert_eq!(refs.len(), 4);
    assert!(refs.iter().all(|r| r.is_value() && !r.is_array() && !r.is_dict()));
}

#[test]
fn array_set_replaces_one_slot() {
    let mut a = MutableArray::new();
    a.push(&1i64);
    a.push(&2i64);
    a.set(1, 20i64);
    assert_eq!(a.get(0).unwrap().to_int(), 1);
    assert_eq!(a.get(1).unwrap().to_int(), 20);
    let mut inner = MutableArray::new();
    inner.push("x");
    a.set_array(0, inner);
    assert!(a.get(0).is_none());
    assert_eq!(a.get_array(0).unwrap().get(0).unwrap().to_str(), "x");
    a.set_dict(1, MutableDict::new());
    assert!(a.get_dict(1).unwrap().is_empty());
    a.get_array_mut(0).unwrap().push("y");
    assert_eq!(a.get_array(0).unwrap().len(), 2);
    a.remove(5);
    assert_eq!(a.len(), 2);
    assert!(a.iter()[0].is_array());
    assert!(a.iter()[1].is_dict());
}

#[test]
fn copies_read_back_as_the_original() {
    let mut e = Encoder::new();
    e.begin_array(6).unwrap();
    e.write_value(&-5i64).unwrap();
    e.write_value(&(1u64 << 63)).unwrap();
    e.write_value(&(1i64 << 40)).unwrap();
    e.write_value(&true).unwrap();
    e.begin_array(1).unwrap();
    e.write_value("nested").unwrap();
    e.end_array().unwrap();
    e.begin_dict().unwrap();
    e.write_key("k").unwrap();
    e.write_value(&7i64).unwrap();
    e.end_dict().unwrap();
    e.end_array().unwrap();
    let bytes = e.finish();
    let root = Value::from_bytes(&bytes).unwrap();
    let copy = MutableArray::clone_from(&root.as_array().unwrap(), &None);
    assert_eq!(copy.len(), 6);
    assert_eq!(copy.get(0).unwrap().to_int(), -5);
    assert_eq!(copy.get(1).unwrap().to_unsigned_int(), 1u64 << 63);
    assert_eq!(copy.get(2).unwrap().to_int(), 1i64 << 40);
    assert!(copy.get(3).unwrap().to_bool());
    assert_eq!(copy.get_array(4).unwrap().get(0).unwrap().to_str(), "nested");
    assert_eq!(copy.get_dict(5).unwrap().get("k").unwrap().to_int(), 7);
}

#[test]
fn from_scope_copies_the_root() {
    let mut e = Encoder::new();
    e.begin_dict().unwrap();
    e.write_key("x").unwrap();
    e.write_value(&1i64).unwrap();
    e.end_dict().unwrap();
    let scope = Scope::new(e.finish(), None);
    let dict = MutableDict::from_scope(&scope).unwrap();
    assert_eq!(dict.get("x").unwrap().to_int(), 1);
    assert!(MutableArray::from_scope(&scope).is_none());
    let empty = Scope::new(vec![1, 2, 3], None);
    assert!(MutableDict::from_scope(&empty).is_none());
}

#[test]
fn nested_dicts_change_in_place() {
    let mut d = MutableDict::new();
    d.insert_dict("inner", MutableDict::new());
    d.get_dict_mut("inner").unwrap().insert("k", 3);
    assert_eq!(d.get_dict("inner").unwrap().get("k").unwrap().to_int(), 3);
    assert!(d.get("inner").is_none());
    assert!(d.get_array("inner").is_none());
    d.insert_array("list", MutableArray::new());
    d.get_array_mut("list").unwrap().push(&1i64);
    assert_eq!(d.get_array("list").unwrap().len(), 1);
    let r = d.iter();
    assert_eq!(r.len(), 2);
    assert!(r[0].1.is_dict());
    assert!(r[1].1.is_array());
}
