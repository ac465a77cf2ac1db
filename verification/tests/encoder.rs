use fleece::encoder::encodable::{Double32Bits, Float32Bits, Float64Bits, NullValue, UndefinedValue};
use fleece::encoder::error::EncodeError;
use fleece::value::error::DecodeError;
use fleece::{Encoder, Value, ValueType};

fn array_of(values: &[i64]) -> Vec<u8> {
    let mut e = Encoder::new();
    e.begin_array(values.len()).unwrap();
    for v in values {
        e.write_value(v).unwrap();
    }
    e.end_array().unwrap();
    e.finish()
}

#[test]
fn ints_read_back_as_written() {
    let values = [
        0i64,
        1,
        -1,
        2047,
        -2048,
        2048,
        -2049,
        127,
        128,
        -129,
        32767,
        -32768,
        65536,
        1 << 40,
        -(1 << 40),
        i64::MAX,
        i64::MIN,
    ];
    let bytes = array_of(&values);
    let root = Value::from_bytes(&bytes).unwrap();
    let array = root.as_array().unwrap();
    assert_eq!(array.len(), values.len());
    for (i, v) in values.iter().enumerate() {
        let got = array.get(i).unwrap();
        assert_eq!(got.to_int(), *v, "element {i}");
        let expected_type = if (-2048..=2047).contains(v) { ValueType::Short } else { ValueType::Int };
        assert_eq!(got.value_type(), expected_type);
    }
}

#[test]
fn unsigned_ints_read_back_as_written() {
    let values = [0u64, 2047, 2048, 255, 256, 1 << 63, u64::MAX];
    let mut e = Encoder::new();
    e.begin_array(values.len()).unwrap();
    for v in &values {
        e.write_value(v).unwrap();
    }
    e.end_array().unwrap();
    let bytes = e.finish();
    let root = Value::from_bytes(&bytes).unwrap();
    let array = root.as_array().unwrap();
    for (i, v) in values.iter().enumerate() {
        assert_eq!(array.get(i).unwrap().to_unsigned_int(), *v);
    }
    assert_eq!(array.get(6).unwrap().value_type(), ValueType::UnsignedInt);
}

#[test]
fn int_encodings_are_minimal() {
    // A Short: two bytes, big-endian, 12 bits.
    let mut buf = [0u8; 8];
    assert_eq!(fleece::encoder::encodable::Encodable::write_fleece_to(&-1i64, &mut buf, false), Some(2));
    assert_eq!(&buf[..2], &[0x0F, 0xFF]);
    // An Int of two bytes: header 0x11, then little-endian.
    let mut buf = [0u8; 8];
    assert_eq!(fleece::encoder::encodable::Encodable::write_fleece_to(&3000i64, &mut buf, false), Some(3));
    assert_eq!(&buf[..3], &[0x11, 0xB8, 0x0B]);
    // A negative Int of two bytes.
    let mut buf = [0u8; 8];
    assert_eq!(fleece::encoder::encodable::Encodable::write_fleece_to(&-3000i64, &mut buf, false), Some(3));
    assert_eq!(&buf[..3], &[0x11, 0x48, 0xF4]);
    // An unsigned Int: header 0x18 and up.
    let mut buf = [0u8; 16];
    assert_eq!(fleece::encoder::encodable::Encodable::write_fleece_to(&u64::MAX, &mut buf, false), Some(9));
    assert_eq!(&buf[..9], &[0x1F, 0xFF, 0xFF, 0xFF, 0xFF, 0xFF, 0xFF, 0xFF, 0xFF]);
    // Too short a buffer is refused and left as it was.
    let mut buf = [7u8; 2];
    assert_eq!(fleece::encoder::encodable::Encodable::write_fleece_to(&3000i64, &mut buf, false), None);
    assert_eq!(buf, [7, 7]);
}

#[test]
fn strings_and_data_read_back_as_written() {
    let texts: Vec<String> =
        vec!["".into(), "a".into(), "ab".into(), "x".repeat(14), "y".repeat(15), "z".repeat(300)];
    let mut e = Encoder::new();
    e.begin_array(texts.len() * 2).unwrap();
    for t in &texts {
        e.write_value(t.as_str()).unwrap();
        e.write_value(t.as_bytes()).unwrap();
    }
    e.end_array().unwrap();
    let bytes = e.finish();
    let root = Value::from_bytes(&bytes).unwrap();
    let array = root.as_array().unwrap();
    for (i, t) in texts.iter().enumerate() {
        let s = array.get(2 * i).unwrap();
        assert_eq!(s.value_type(), ValueType::String);
        assert_eq!(s.to_str(), t.as_str());
        let d = array.get(2 * i + 1).unwrap();
        assert_eq!(d.value_type(), ValueType::Data);
        assert_eq!(d.to_data(), t.as_bytes());
    }
}

#[test]
fn long_string_has_varint_count() {
    let mut buf = [0u8; 32];
    let text = "y".repeat(15);
    assert_eq!(
        fleece::encoder::encodable::Encodable::write_fleece_to(text.as_str(), &mut buf, false),
        Some(17)
    );
    assert_eq!(buf[0], 0x4F);
    assert_eq!(buf[1], 15);
    assert_eq!(&buf[2..17], text.as_bytes());
}

#[test]
fn constants_and_floats_read_back() {
    let mut e = Encoder::new();
    e.begin_array(6).unwrap();
    e.write_value(&true).unwrap();
    e.write_value(&false).unwrap();
    e.write_value(&NullValue).unwrap();
    e.write_value(&UndefinedValue).unwrap();
    e.write_value(&Float32Bits(1.5f32.to_bits())).unwrap();
    e.write_value(&Float64Bits((-2.25f64).to_bits())).unwrap();
    e.end_array().unwrap();
    let bytes = e.finish();
    let root = Value::from_bytes(&bytes).unwrap();
    let a = root.as_array().unwrap();
    assert!(a.get(0).unwrap().to_bool());
    assert!(!a.get(1).unwrap().to_bool());
    assert_eq!(a.get(2).unwrap().value_type(), ValueType::Null);
    assert_eq!(a.get(3).unwrap().value_type(), ValueType::Undefined);
    let f = a.get(4).unwrap();
    assert_eq!(f.value_type(), ValueType::Float);
    assert_eq!(f32::from_bits(f.float32_bits()), 1.5);
    assert_eq!(f.to_int(), 1);
    let d = a.get(5).unwrap();
    assert_eq!(d.value_type(), ValueType::Double64);
    assert_eq!(f64::from_bits(d.float64_bits()), -2.25);
    assert_eq!(d.to_int(), -2);
}

#[test]
fn dict_entries_are_sorted_and_found() {
    let mut e = Encoder::new();
    e.begin_dict().unwrap();
    let keys = ["zebra", "b", "apple", "a", "mango", "", "longer key than fourteen"];
    for (i, k) in keys.iter().enumerate() {
        e.write_key(k).unwrap();
        e.write_value(&(i as i64)).unwrap();
    }
    e.end_dict().unwrap();
    let bytes = e.finish();
    let root = Value::from_bytes(&bytes).unwrap();
    let dict = root.as_dict().unwrap();
    assert_eq!(dict.len(), keys.len());
    for (i, k) in keys.iter().enumerate() {
        assert_eq!(dict.get(k).unwrap().to_int(), i as i64, "key {k}");
        assert!(dict.contains_key(k));
    }
    assert!(dict.get("missing").is_none());
    let order: Vec<&str> = dict.iter().iter().map(|(k, _)| *k).collect();
    let mut sorted: Vec<&str> = keys.to_vec();
    sorted.sort();
    assert_eq!(order, sorted);
}

#[test]
fn nested_collections_read_back() {
    let mut e = Encoder::new();
    e.begin_dict().unwrap();
    e.write_key("list").unwrap();
    e.begin_array(2).unwrap();
    e.write_value(&1i64).unwrap();
    e.begin_dict().unwrap();
    e.write_key("inner").unwrap();
    e.write_value("text value here").unwrap();
    e.end_dict().unwrap();
    e.end_array().unwrap();
    e.write_key("n").unwrap();
    e.write_value(&7i64).unwrap();
    e.end_dict().unwrap();
    let bytes = e.finish();
    let root = Value::from_bytes(&bytes).unwrap();
    let dict = root.as_dict().unwrap();
    let list = dict.get("list").unwrap().as_array().unwrap();
    assert_eq!(list.len(), 2);
    assert_eq!(list.get(0).unwrap().to_int(), 1);
    let inner = list.get(1).unwrap().as_dict().unwrap();
    assert_eq!(inner.get("inner").unwrap().to_str(), "text value here");
    assert_eq!(dict.get("n").unwrap().to_int(), 7);
}

#[test]
fn far_pointers_make_collections_wide() {
    let big = "w".repeat(40_000);
    let mut e = Encoder::new();
    e.begin_array(3).unwrap();
    e.write_value(big.as_str()).unwrap();
    let filler = "f".repeat(20_000);
    e.write_value(filler.as_str()).unwrap();
    e.write_value(&5i64).unwrap();
    e.end_array().unwrap();
    let bytes = e.finish();
    let root = Value::from_bytes(&bytes).unwrap();
    let array = root.as_array().unwrap();
    assert!(array.is_wide());
    assert_eq!(array.width(), 4);
    assert_eq!(array.get(0).unwrap().to_str(), big.as_str());
    assert_eq!(array.get(1).unwrap().to_str(), filler.as_str());
    assert_eq!(array.get(2).unwrap().to_int(), 5);
}

#[test]
fn near_pointers_keep_collections_narrow() {
    let mut e = Encoder::new();
    e.begin_array(1).unwrap();
    e.write_value("a string of some length").unwrap();
    e.end_array().unwrap();
    let bytes = e.finish();
    let root = Value::from_bytes(&bytes).unwrap();
    assert!(!root.as_array().unwrap().is_wide());
}

#[test]
fn encode_errors() {
    // No collection open.
    let mut e = Encoder::new();
    assert_eq!(e.write_value(&1i64), Err(EncodeError::CollectionNotOpen));
    assert_eq!(e.end_array(), Err(EncodeError::ArrayNotOpen));
    assert_eq!(e.end_dict(), Err(EncodeError::DictNotOpen));
    assert_eq!(e.write_key("k"), Err(EncodeError::DictNotOpen));
    // A Dict waits for a key, then for a value.
    e.begin_dict().unwrap();
    assert_eq!(e.write_value(&1i64), Err(EncodeError::DictWaitingForKey));
    assert_eq!(e.begin_array(1), Err(EncodeError::DictWaitingForKey));
    assert_eq!(e.begin_dict(), Err(EncodeError::DictWaitingForKey));
    assert_eq!(e.end_array(), Err(EncodeError::ArrayNotOpen));
    e.write_key("k").unwrap();
    assert_eq!(e.write_key("other"), Err(EncodeError::DictWaitingForValue));
    assert_eq!(e.end_dict(), Err(EncodeError::DictWaitingForValue));
    e.write_value(&2i64).unwrap();
    e.end_dict().unwrap();
    // Only one top-level collection.
    assert_eq!(e.begin_array(1), Err(EncodeError::MultiTopLevelCollection));
    assert_eq!(e.begin_dict(), Err(EncodeError::CollectionNotOpen));
    // An Array is no Dict.
    let mut e = Encoder::new();
    e.begin_array(1).unwrap();
    assert_eq!(e.write_key("k"), Err(EncodeError::DictNotOpen));
    assert_eq!(e.end_dict(), Err(EncodeError::DictNotOpen));
}

#[test]
fn refused_calls_leave_the_output_unchanged() {
    let mut plain = Encoder::new();
    plain.begin_dict().unwrap();
    plain.write_key("a long key that is written out").unwrap();
    plain.write_value("a long value that is written out").unwrap();
    plain.end_dict().unwrap();
    let expected = plain.finish();

    let mut e = Encoder::new();
    assert!(e.write_value("a long value that is refused").is_err());
    e.begin_dict().unwrap();
    assert!(e.write_value("a long value that is refused").is_err());
    e.write_key("a long key that is written out").unwrap();
    assert!(e.write_key("another long key that is refused").is_err());
    e.write_value("a long value that is written out").unwrap();
    assert!(e.end_array().is_err());
    e.end_dict().unwrap();
    assert_eq!(e.finish(), expected);
}

#[test]
fn finish_closes_open_collections() {
    let mut e = Encoder::new();
    e.begin_array(2).unwrap();
    e.write_value(&1i64).unwrap();
    e.begin_dict().unwrap();
    e.write_key("dangling").unwrap();
    let bytes = e.finish();
    let root = Value::from_bytes(&bytes).unwrap();
    let array = root.as_array().unwrap();
    assert_eq!(array.len(), 2);
    let dict = array.get(1).unwrap().as_dict().unwrap();
    assert_eq!(dict.len(), 0);
}

#[test]
fn new_to_writer_keeps_what_was_there() {
    let mut e = Encoder::new_to_writer(vec![9, 9]);
    e.begin_array(1).unwrap();
    e.write_value(&3i64).unwrap();
    e.end_array().unwrap();
    let out = e.finish();
    assert_eq!(&out[..2], &[9, 9]);
    let root = Value::from_bytes(&out[2..]).unwrap();
    assert_eq!(root.as_array().unwrap().get(0).unwrap().to_int(), 3);
}

#[test]
fn finish_value_reads_the_output() {
    let mut e = Encoder::new();
    e.begin_array(1).unwrap();
    e.write_value(&12i64).unwrap();
    e.end_array().unwrap();
    let v = e.finish_value().unwrap();
    let value = v.value();
    assert_eq!(value.value_type(), ValueType::Array);
    assert_eq!(value.as_array().unwrap().get(0).unwrap().to_int(), 12);
}

#[test]
fn decode_errors() {
    assert!(matches!(Value::from_bytes(&[]), Err(DecodeError::InputIncorrectlySized)));
    assert!(matches!(Value::from_bytes(&[1, 2, 3]), Err(DecodeError::InputIncorrectlySized)));
    assert!(matches!(Value::from_bytes(&[0x38, 0, 0x38, 0]), Err(DecodeError::RootNotPointer)));
    assert!(matches!(Value::from_bytes(&[0x80, 0]), Err(DecodeError::PointerOffsetZero)));
    assert!(matches!(
        Value::from_bytes(&[0x80, 0x05]),
        Err(DecodeError::PointerTargetOutOfBounds { .. })
    ));
    // A lone special value is its own root.
    let v = Value::from_bytes(&[0x38, 0]).unwrap();
    assert!(v.to_bool());
}

#[test]
fn invalid_utf8_reads_as_empty_text() {
    let mut e = Encoder::new();
    e.begin_array(1).unwrap();
    e.write_value(&[0xFFu8, 0xFE, 0xFD][..]).unwrap();
    e.end_array().unwrap();
    let mut bytes = e.finish();
    // Turn the Data into a String: its bytes are not UTF-8.
    let pos = bytes.iter().position(|b| *b == 0x53).unwrap();
    bytes[pos] = 0x43;
    let root = Value::from_bytes(&bytes).unwrap();
    let s = root.as_array().unwrap().get(0).unwrap();
    assert_eq!(s.value_type(), ValueType::String);
    assert_eq!(s.to_str(), "");
    assert_eq!(s.to_data(), &[0xFF, 0xFE, 0xFD]);
}

#[test]
fn array_of_inline_scalars_has_exact_layout() {
    let mut e = Encoder::new();
    e.begin_array(5).unwrap();
    e.write_value(&NullValue).unwrap();
    e.write_value(&true).unwrap();
    e.write_value(&5i64).unwrap();
    e.write_value("a").unwrap();
    e.write_value("").unwrap();
    e.end_array().unwrap();
    let bytes = e.finish();
    assert_eq!(
        bytes,
        vec![0x60, 0x05, 0x30, 0x00, 0x38, 0x00, 0x00, 0x05, 0x41, b'a', 0x40, 0x00, 0x80, 0x06]
    );
    let root = Value::from_bytes(&bytes).unwrap();
    assert_eq!(root.value_type(), ValueType::Array);
    let a = root.as_array().unwrap();
    assert_eq!(a.len(), 5);
    assert_eq!(a.get(0).unwrap().value_type(), ValueType::Null);
    assert!(a.get(1).unwrap().to_bool());
    assert_eq!(a.get(2).unwrap().to_int(), 5);
    assert_eq!(a.get(3).unwrap().to_str(), "a");
    assert_eq!(a.get(4).unwrap().to_str(), "");
    assert!(a.get(5).is_none());
}

#[test]
fn double32_reads_back_as_double32() {
    let mut e = Encoder::new();
    e.begin_array(1).unwrap();
    e.write_value(&Double32Bits(0.5f32.to_bits())).unwrap();
    e.end_array().unwrap();
    let bytes = e.finish();
    assert_eq!(&bytes[0..6], &[0x24, 0x00, 0x00, 0x00, 0x00, 0x3F]);
    let root = Value::from_bytes(&bytes).unwrap();
    let v = root.as_array().unwrap().get(0).unwrap();
    assert_eq!(v.value_type(), ValueType::Double32);
    assert_eq!(f32::from_bits(v.float32_bits()), 0.5);
}

#[test]
fn write_fleece_copies_a_decoded_value() {
    let mut e = Encoder::new();
    e.begin_dict().unwrap();
    e.write_key("name").unwrap();
    e.write_value("Jeff Baggins").unwrap();
    e.write_key("age").unwrap();
    e.write_value(&35i64).unwrap();
    e.write_key("tags").unwrap();
    e.begin_array(3).unwrap();
    e.write_value(&true).unwrap();
    e.write_value(&Float64Bits(2.5f64.to_bits())).unwrap();
    e.write_value(&(1i64 << 40)).unwrap();
    e.end_array().unwrap();
    e.end_dict().unwrap();
    let original = e.finish();
    let value = Value::from_bytes(&original).unwrap();

    let mut copy = Encoder::new();
    copy.write_fleece(&value).unwrap();
    let copied = copy.finish();
    let root = Value::from_bytes(&copied).unwrap();
    let dict = root.as_dict().unwrap();
    assert_eq!(dict.len(), 3);
    assert_eq!(dict.get("name").unwrap().to_str(), "Jeff Baggins");
    assert_eq!(dict.get("age").unwrap().to_int(), 35);
    let tags = dict.get("tags").unwrap().as_array().unwrap();
    assert_eq!(tags.len(), 3);
    assert!(tags.get(0).unwrap().to_bool());
    assert_eq!(f64::from_bits(tags.get(1).unwrap().float64_bits()), 2.5);
    assert_eq!(tags.get(2).unwrap().to_int(), 1i64 << 40);
    let keys: Vec<&str> = dict.iter().iter().map(|(k, _)| *k).collect();
    assert_eq!(keys, vec!["age", "name", "tags"]);
}

#[test]
fn write_fleece_needs_a_collection_for_a_scalar() {
    let mut e = Encoder::new();
    e.begin_array(1).unwrap();
    e.write_value(&7i64).unwrap();
    e.end_array().unwrap();
    let bytes = e.finish();
    let root = Value::from_bytes(&bytes).unwrap();
    let seven = root.as_array().unwrap().get(0).unwrap();
    let mut copy = Encoder::new();
    assert_eq!(copy.write_fleece(&seven), Err(EncodeError::CollectionNotOpen));
    copy.begin_array(1).unwrap();
    copy.write_fleece(&seven).unwrap();
    copy.end_array().unwrap();
    let out = copy.finish();
    assert_eq!(out, bytes);
}

#[test]
fn dict_has_exact_layout_and_reads_back() {
    let mut e = Encoder::new();
    e.begin_dict().unwrap();
    e.write_key("b").unwrap();
    e.write_value(&true).unwrap();
    e.write_key("a").unwrap();
    e.write_value(&1i64).unwrap();
    e.end_dict().unwrap();
    let bytes = e.finish();
    assert_eq!(
        bytes,
        vec![0x70, 0x02, 0x41, b'a', 0x00, 0x01, 0x41, b'b', 0x38, 0x00, 0x80, 0x05]
    );
    let root = Value::from_bytes(&bytes).unwrap();
    let dict = root.as_dict().unwrap();
    assert_eq!(dict.len(), 2);
    assert_eq!(dict.get("a").unwrap().to_int(), 1);
    assert!(dict.get("b").unwrap().to_bool());
    assert!(dict.get("c").is_none());
}

#[test]
fn array_points_back_to_strings_written_before() {
    let mut e = Encoder::new();
    e.begin_array(1).unwrap();
    e.write_value("hello!").unwrap();
    e.end_array().unwrap();
    let bytes = e.finish();
    assert_eq!(
        bytes,
        vec![0x46, b'h', b'e', b'l', b'l', b'o', b'!', 0x00, 0x60, 0x01, 0x80, 0x05, 0x80, 0x02]
    );
    let root = Value::from_bytes(&bytes).unwrap();
    let got = root.as_array().unwrap().get(0).unwrap();
    assert_eq!(got.value_type(), ValueType::String);
    assert_eq!(got.to_str(), "hello!");
}

#[test]
fn write_fleece_refuses_a_second_top_level_collection() {
    let data = array_of(&[1, 2, 3]);
    let value = Value::from_bytes(&data).unwrap();
    let mut e = Encoder::new();
    e.write_fleece(&value).unwrap();
    assert_eq!(e.write_fleece(&value), Err(EncodeError::MultiTopLevelCollection));
    let mut d = Encoder::new();
    d.begin_dict().unwrap();
    assert_eq!(d.write_fleece(&value), Err(EncodeError::DictWaitingForKey));
    let copied = e.finish();
    let root = Value::from_bytes(&copied).unwrap().as_array().unwrap();
    assert_eq!(root.len(), 3);
    assert_eq!(root.get(2).unwrap().to_int(), 3);
}

#[test]
fn encode_errors_have_their_messages() {
    assert_eq!(EncodeError::ArrayNotOpen.message(), "No open array");
    assert_eq!(
        EncodeError::MultiTopLevelCollection.message(),
        "Multiple top level collections are not allowed"
    );
}

#[test]
fn copying_an_array_of_small_values_gives_the_same_bytes() {
    let data = array_of(&[1, -2, 300, 0]);
    let value = Value::from_bytes(&data).unwrap();
    let mut e = Encoder::new();
    e.write_fleece(&value).unwrap();
    assert_eq!(e.finish(), data);
}
