use fleece::alloced::AllocedValue;
use fleece::mutable::array::MutableArray;
use fleece::mutable::dict::MutableDict;
use fleece::encoder::error::EncodeError;
use fleece::value::varint;
use fleece::{Encoder, Value, ValueType};
use std::sync::Arc;

/// A person of 21 keys, as the 1person fixture of the original project holds one.
fn person_encoded() -> Vec<u8> {
    let mut encoder = Encoder::new();
    encoder.begin_dict().unwrap();
    let texts = [
        ("_id", "5e9d5cd2b1e2ca3a4d5b5d9b"),
        ("guid", "b1d4e0a6-2e3b-4a74-8f55-8b43c1cb3ddc"),
        ("balance", "$1,932.51"),
        ("picture", "http://placehold.it/32x32"),
        ("eyeColor", "brown"),
        ("name", "Hester Whitfield"),
        ("gender", "female"),
        ("company", "COMVEX"),
        ("email", "hesterwhitfield@comvex.com"),
        ("phone", "+1 (868) 419-2385"),
        ("address", "640 Seigel Street, Nanafalia, Alaska, 8624"),
        ("about", "Ipsum amet consectetur excepteur duis laboris."),
        ("registered", "2014-03-13T10:16:49 -01:00"),
        ("favoriteFruit", "banana"),
    ];
    for (k, v) in texts {
        encoder.write_key(k).unwrap();
        encoder.write_value(v).unwrap();
    }
    encoder.write_key("index").unwrap();
    encoder.write_value(&0i64).unwrap();
    encoder.write_key("isActive").unwrap();
    encoder.write_value(&true).unwrap();
    encoder.write_key("age").unwrap();
    encoder.write_value(&30i64).unwrap();
    encoder.write_key("latitude").unwrap();
    encoder.write_value(&fleece::encoder::encodable::Float64Bits((-48.17f64).to_bits())).unwrap();
    encoder.write_key("longitude").unwrap();
    encoder.write_value(&fleece::encoder::encodable::Float64Bits(53.44f64.to_bits())).unwrap();
    encoder.write_key("tags").unwrap();
    encoder.begin_array(3).unwrap();
    for t in ["ipsum", "anim", "sunt"] {
        encoder.write_value(t).unwrap();
    }
    encoder.end_array().unwrap();
    encoder.write_key("friends").unwrap();
    encoder.begin_array(2).unwrap();
    for (id, name) in [(0i64, "Wilkins Moss"), (1, "Hays Powers")] {
        encoder.begin_dict().unwrap();
        encoder.write_key("id").unwrap();
        encoder.write_value(&id).unwrap();
        encoder.write_key("name").unwrap();
        encoder.write_value(name).unwrap();
        encoder.end_dict().unwrap();
    }
    encoder.end_array().unwrap();
    encoder.end_dict().unwrap();
    encoder.finish()
}

fn decode_person_checks(person: &Value) {
    assert_eq!(person.value_type(), ValueType::Dict, "Expected Person to be a Dict!");
    let person_dict = person.as_dict().unwrap();
    assert_eq!(person_dict.len(), 21, "Expected Person to have 21 keys!");
    let age = person_dict.get("age").expect("Expected Person to have key 'age'!");
    assert_eq!(age.value_type(), ValueType::Short, "Expected age to be a Short!");
    assert_eq!(age.to_short(), 30, "Expected age to be 30!");
    // Check the iterator also works, and returns the correct number of elements
    assert_eq!(person_dict.iter().len(), 21);
}

fn varint_test(val: u64) {
    let size_required = varint::size_required(val);
    let mut buf: Vec<u8> = vec![0; size_required];
    let _written = varint::write(&mut buf, val);
    println!("Wrote varint {:02x?}", &buf);
    let (_read, out_val) = varint::read(&buf);
    assert_eq!(val, out_val);
}

#[test]
fn varint() {
    varint_test(8_704_268);
    varint_test(100_000);
    varint_test(603);
    varint_test(87);
}

#[test]
fn encoder_multiple_top_level_collections() {
    let mut encoder = Encoder::new();
    encoder.begin_array(1).unwrap();
    encoder.write_value(&42i64).unwrap();
    encoder.end_array().unwrap();
    assert!(matches!(
        encoder.begin_array(1),
        Err(EncodeError::MultiTopLevelCollection)
    ));
}

#[test]
fn alloced_value() {
    let person = person_encoded();
    let value: AllocedValue = Value::clone_from_bytes(&person).unwrap();
    decode_person_checks(&value.value());
    // Sanity check
    assert_eq!(Arc::strong_count(value.buf()), 1);
}

#[test]
fn decode_person() {
    let person = person_encoded();
    let person = Value::from_bytes(&person);
    let person = person.expect("Failed to decode Fleece");
    decode_person_checks(&person);
}

#[test]
fn mutable_dict() {
    let person = person_encoded();
    let dict = Value::clone_from_bytes(&person).unwrap().to_dict().unwrap();
    let mut dict = MutableDict::clone_from(&dict.dict(), &None);
    assert_eq!(dict.get("age").unwrap().to_short(), 30);
    dict.insert("age", 52);
    assert_eq!(dict.get("age").unwrap().to_short(), 52);
    dict.remove("age");
    assert!(!dict.contains_key("age"));

    let new_dict = dict.clone();
    assert!(!new_dict.contains_key("age"));
    dict.insert("age", 28);
    assert_eq!(dict.get("age").unwrap().to_short(), 28);
}

#[test]
fn mutable_array() {
    let strings = ["Zero", "One", "Two", "Three", "Four", "Five", "Six"];

    let mut encoder = Encoder::new();
    encoder.begin_array(7).unwrap();
    for string in strings {
        encoder.write_value(string).unwrap();
    }
    encoder.end_array().unwrap();
    let array = encoder.finish_value().unwrap().to_array().unwrap();

    let mut array = MutableArray::clone_from(&array.array(), &None);

    for (i, string) in strings.iter().enumerate() {
        assert_eq!(array.get(i).unwrap().to_str(), *string);
    }

    array.push("Seven");
    assert!(array.get(array.len() - 1).unwrap().to_str() == "Seven");
    array.remove(2);
    assert_eq!(array.get(2).unwrap().to_str(), "Three");
    assert_eq!(array.len(), 7);

    let new_array = array.clone();
    assert_eq!(new_array.get(2).unwrap().to_str(), "Three");
    assert_eq!(new_array.get(6).unwrap().to_str(), "Seven");
}

#[test]
fn nested_mutable_dict() {
    let mut encoder = Encoder::new();
    encoder.begin_dict().unwrap();
    encoder.write_key("name").unwrap();
    encoder.write_value("Jeff").unwrap();
    encoder.write_key("contact").unwrap();
    encoder.begin_dict().unwrap();
    encoder.write_key("email").unwrap();
    encoder.write_value("contact@jeffbaggins.com").unwrap();
    encoder.write_key("phone_number").unwrap();
    encoder.write_value("+1 234 56789").unwrap();
    encoder.end_dict().unwrap();
    encoder.end_dict().unwrap();
    let dict = encoder.finish_value().unwrap().to_dict().unwrap();

    let mut dict = MutableDict::clone_from(&dict.dict(), &None);
    let contact_dict = dict.get_dict("contact").unwrap();
    assert_eq!(contact_dict.get("email").unwrap().to_str(), "contact@jeffbaggins.com");
    assert_eq!(contact_dict.get("phone_number").unwrap().to_str(), "+1 234 56789");

    let contact_dict = dict.get_dict_mut("contact").unwrap();
    contact_dict.insert("Address", "3250 Olcott St");
    assert_eq!(contact_dict.get("Address").unwrap().to_str(), "3250 Olcott St");

    let mut email = MutableArray::new();
    email.push_fleece(&contact_dict.get("email").unwrap(), &None);
    email.push("jeff.baggins@example.com");
    dict.insert_array("email", email);

    let email = dict.get_array("email").unwrap();
    assert_eq!(email.get(0).unwrap().to_str(), "contact@jeffbaggins.com");
    assert_eq!(email.get(1).unwrap().to_str(), "jeff.baggins@example.com");
}

#[test]
fn nested_mutable_array() {
    let mut encoder = Encoder::new();
    encoder.begin_array(10).unwrap();
    encoder.write_value(&23).unwrap();
    encoder.begin_dict().unwrap();
    encoder.write_key("name").unwrap();
    encoder.write_value("Jeff").unwrap();
    encoder.write_key("age").unwrap();
    encoder.write_value(&35).unwrap();
    encoder.end_dict().unwrap();
    encoder.end_array().unwrap();
    let array = encoder.finish_value().unwrap().to_array().unwrap();

    println!("NESTED MUTABLE ARRAY: {:?}", array.array().len());

    let mut array = MutableArray::clone_from(&array.array(), &None);
    let profile_dict = array.get_dict(1).unwrap();
    assert_eq!(profile_dict.get("name").unwrap().to_str(), "Jeff");
    assert_eq!(profile_dict.get("age").unwrap().to_short(), 35);

    let profile_dict = array.get_dict_mut(1).unwrap();
    profile_dict.insert("Address", "3250 Olcott St");
    assert_eq!(profile_dict.get("Address").unwrap().to_str(), "3250 Olcott St");
}
