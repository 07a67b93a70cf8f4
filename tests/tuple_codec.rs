use fdb_tuple::{Decode, Encode, Error, Item, Value};

#[test]
fn test_malformed_int() {
    assert!(Value::decode(&[21, 0]).is_ok());
    assert!(Value::decode(&[22, 0]).is_err());
    assert!(Value::decode(&[22, 0, 0]).is_ok());

    assert!(Value::decode(&[19, 0]).is_ok());
    assert!(Value::decode(&[18, 0]).is_err());
    assert!(Value::decode(&[18, 0, 0]).is_ok());
}

#[test]
fn test_decode_tuple() {
    assert_eq!((0, ()), Decode::decode(&[20, 0]).unwrap());
}

#[test]
fn test_decode_tuple_ty() {
    let data: &[u8] = &[2, 104, 101, 108, 108, 111, 0, 1, 119, 111, 114, 108, 100, 0];

    let (v1, v2): (String, Vec<u8>) = Decode::decode(data).unwrap();
    assert_eq!(v1, "hello");
    assert_eq!(v2, b"world");
}

#[test]
fn test_encode_tuple_ty() {
    let tup = (String::from("hello"), b"world".to_vec());

    assert_eq!(
        &[2, 104, 101, 108, 108, 111, 0, 1, 119, 111, 114, 108, 100, 0],
        Encode::encode_to_vec(&tup).as_slice()
    );
}

fn int_bytes(i: i64) -> Vec<u8> {
    Value(vec![Item::Int(i)]).encode_to_vec()
}

fn decode_one(bytes: &[u8]) -> Item {
    let v = Value::decode(bytes).unwrap();
    assert_eq!(v.0.len(), 1);
    v.0.into_iter().next().unwrap()
}

#[test]
fn truncated_two_byte_integer_is_eof() {
    assert!(matches!(Value::decode(&[22, 0]), Err(Error::EOF)));
    assert!(matches!(Value::decode(&[22]), Err(Error::EOF)));
    assert!(matches!(decode_one(&[22, 0, 0]), Item::Int(0)));
}

#[test]
fn zero_decodes_from_its_tag_alone() {
    let (x, n) = fdb_tuple::item::decode_item(&[20], 0, false).unwrap();
    assert!(matches!(x, Item::Int(0)));
    assert_eq!(n, 1);
    assert_eq!(int_bytes(0), vec![20]);
}

#[test]
fn trailing_bytes_after_fixed_tuple_are_invalid_data() {
    let r: Result<(i64,), Error> = Decode::decode(&[21, 5, 20]);
    assert!(matches!(r, Err(Error::InvalidData)));
    let ok: (i64,) = Decode::decode(&[21, 5]).unwrap();
    assert_eq!(ok, (5,));
}

#[test]
fn pair_round_trips_through_bytes() {
    let bytes: &[u8] = &[2, b'h', b'e', b'l', b'l', b'o', 0, 1, b'w', b'o', b'r', b'l', b'd', 0];
    let tup = (String::from("hello"), b"world".to_vec());
    assert_eq!(tup.encode_to_vec(), bytes.to_vec());
    let back: (String, Vec<u8>) = Decode::decode(bytes).unwrap();
    assert_eq!(back, tup);
}

#[test]
fn embedded_zero_is_escaped_and_restored() {
    let tup = (vec![1u8, 0, 2],);
    let bytes = tup.encode_to_vec();
    assert_eq!(bytes, vec![1, 1, 0, 0xff, 2, 0]);
    let back: (Vec<u8>,) = Decode::decode(&bytes).unwrap();
    assert_eq!(back.0, vec![1, 0, 2]);
}

#[test]
fn integer_encodings_use_least_width() {
    assert_eq!(int_bytes(1), vec![21, 1]);
    assert_eq!(int_bytes(255), vec![21, 255]);
    assert_eq!(int_bytes(256), vec![22, 1, 0]);
    assert_eq!(int_bytes(-1), vec![19, 254]);
    assert_eq!(int_bytes(-255), vec![19, 0]);
    assert_eq!(int_bytes(-256), vec![18, 254, 255]);
    assert_eq!(int_bytes(i64::MAX), vec![28, 0x7f, 255, 255, 255, 255, 255, 255, 255]);
    assert_eq!(int_bytes(i64::MIN), vec![12, 0x7f, 255, 255, 255, 255, 255, 255, 255]);
}

#[test]
fn integers_round_trip() {
    for i in [0i64, 1, -1, 255, 256, -255, -256, 65535, -65536, i64::MAX, i64::MIN] {
        match decode_one(&int_bytes(i)) {
            Item::Int(j) => assert_eq!(i, j),
            other => panic!("unexpected item {:?}", other),
        }
    }
}

#[test]
fn negative_two_byte_zero_payload() {
    assert!(matches!(decode_one(&[18, 0, 0]), Item::Int(-65535)));
    assert!(matches!(decode_one(&[19, 0]), Item::Int(-255)));
}

#[test]
fn integer_out_of_i64_range_is_invalid_data() {
    assert!(matches!(Value::decode(&[28, 0x80, 0, 0, 0, 0, 0, 0, 0]), Err(Error::InvalidData)));
    assert!(matches!(Value::decode(&[12, 0x7f, 255, 255, 255, 255, 255, 255, 254]), Err(Error::InvalidData)));
    assert!(matches!(decode_one(&[12, 0x7f, 255, 255, 255, 255, 255, 255, 255]), Item::Int(i64::MIN)));
}

#[test]
fn unknown_tag_is_invalid_type() {
    assert!(matches!(Value::decode(&[0x40]), Err(Error::InvalidType { value: 0x40 })));
}

#[test]
fn field_of_wrong_kind_is_invalid_type() {
    let r: Result<(String,), Error> = Decode::decode(&[20]);
    assert!(matches!(r, Err(Error::InvalidType { value: 20 })));
}

#[test]
fn unterminated_string_is_eof() {
    assert!(matches!(Value::decode(&[1, b'a', b'b']), Err(Error::EOF)));
    assert!(matches!(Value::decode(&[]), Ok(Value(v)) if v.is_empty()));
}

#[test]
fn invalid_utf8_text_is_rejected() {
    assert!(matches!(Value::decode(&[2, 0xff, 0xfe, 0]), Err(Error::FromUtf8Error)));
}

#[test]
fn text_with_multibyte_chars_round_trips() {
    let tup = (String::from("é€"),);
    let bytes = tup.encode_to_vec();
    assert_eq!(bytes, vec![2, 0xc3, 0xa9, 0xe2, 0x82, 0xac, 0]);
    let back: (String,) = Decode::decode(&bytes).unwrap();
    assert_eq!(back.0, "é€");
}

#[test]
fn booleans_and_unit() {
    let t = (false, true, ());
    let bytes = t.encode_to_vec();
    assert_eq!(bytes, vec![0x26, 0x27, 0]);
    let back: (bool, bool, ()) = Decode::decode(&bytes).unwrap();
    assert_eq!(back, t);
}

#[test]
fn nested_tuple_round_trips() {
    let v = Value(vec![
        Item::Nested(vec![Item::Empty, Item::Int(1), Item::Bytes(vec![0])]),
        Item::Empty,
    ]);
    let bytes = v.encode_to_vec();
    assert_eq!(bytes, vec![5, 0, 0xff, 21, 1, 1, 0, 0xff, 0, 0, 0]);
    let back = Value::decode(&bytes).unwrap();
    assert_eq!(back.0.len(), 2);
    match &back.0[0] {
        Item::Nested(inner) => {
            assert_eq!(inner.len(), 3);
            assert!(matches!(inner[0], Item::Empty));
            assert!(matches!(inner[1], Item::Int(1)));
            assert!(matches!(&inner[2], Item::Bytes(b) if b == &vec![0u8]));
        }
        other => panic!("unexpected item {:?}", other),
    }
    assert!(matches!(back.0[1], Item::Empty));
}

#[test]
fn unterminated_nested_tuple_is_eof() {
    assert!(matches!(Value::decode(&[5, 21, 1]), Err(Error::EOF)));
}

#[test]
fn encodings_sort_like_values() {
    let ints = [i64::MIN, -65536, -256, -255, -1, 0, 1, 255, 256, 65536, i64::MAX];
    for w in ints.windows(2) {
        assert!(int_bytes(w[0]) < int_bytes(w[1]));
    }
    let a = (String::from("a"), 2i64).encode_to_vec();
    let b = (String::from("a"), 10i64).encode_to_vec();
    let c = (String::from("b"), -5i64).encode_to_vec();
    assert!(a < b && b < c);
    let short = Value(vec![Item::Bytes(vec![1])]).encode_to_vec();
    let longer = Value(vec![Item::Bytes(vec![1]), Item::Empty]).encode_to_vec();
    assert!(short < longer);
    let z1 = (vec![0u8],).encode_to_vec();
    let z2 = (vec![0u8, 0],).encode_to_vec();
    let one = (vec![1u8],).encode_to_vec();
    assert!(z1 < z2 && z2 < one);
}

#[test]
fn twelve_field_tuple_round_trips() {
    let t = (1i64, -2i64, true, (), String::from("x"), vec![0u8], 300i64, false, String::new(), Vec::<u8>::new(), 0i64, -70000i64);
    let bytes = t.encode_to_vec();
    let back: (i64, i64, bool, (), String, Vec<u8>, i64, bool, String, Vec<u8>, i64, i64) =
        Decode::decode(&bytes).unwrap();
    assert_eq!(back, t);
    let mut longer = bytes.clone();
    longer.push(20);
    let r: Result<(i64, i64, bool, (), String, Vec<u8>, i64, bool, String, Vec<u8>, i64, i64), Error> =
        Decode::decode(&longer);
    assert!(matches!(r, Err(Error::InvalidData)));
}

#[test]
fn item_field_holds_any_kind() {
    let t = (Item::Nested(vec![Item::Str(String::from("a"))]), Item::Bool(true));
    let bytes = t.encode_to_vec();
    assert_eq!(bytes, vec![5, 2, b'a', 0, 0, 0x27]);
    let back: (Item, Item) = Decode::decode(&bytes).unwrap();
    assert!(matches!(&back.0, Item::Nested(v) if v.len() == 1 && matches!(&v[0], Item::Str(s) if s == "a")));
    assert!(matches!(back.1, Item::Bool(true)));
}

#[test]
fn missing_field_is_eof() {
    let r: Result<(i64, i64), Error> = Decode::decode(&[21, 1]);
    assert!(matches!(r, Err(Error::EOF)));
}
