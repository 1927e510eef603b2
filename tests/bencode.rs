use bittorrent::bencode::{decode, BencodeValue, DecodeError};

fn decode_all(b: &[u8]) -> Result<Option<(BencodeValue, usize)>, DecodeError> {
    decode(b, 0)
}

fn bytes(s: &[u8]) -> BencodeValue {
    BencodeValue::ByteString(s.to_vec())
}

fn same(a: &BencodeValue, b: &BencodeValue) -> bool {
    a.encode() == b.encode()
}

#[test]
fn decodes_byte_string() {
    let (v, end) = decode_all(b"5:hello").unwrap().unwrap();
    assert!(same(&v, &bytes(b"hello")));
    assert_eq!(end, 7);
}

#[test]
fn decodes_integers() {
    let (v, end) = decode_all(b"i52e").unwrap().unwrap();
    assert!(matches!(v, BencodeValue::Integer(52)));
    assert_eq!(end, 4);
    let (v, _) = decode_all(b"i-52e").unwrap().unwrap();
    assert!(matches!(v, BencodeValue::Integer(-52)));
    let (v, _) = decode_all(b"i9223372036854775807e").unwrap().unwrap();
    assert!(matches!(v, BencodeValue::Integer(i64::MAX)));
    let (v, _) = decode_all(b"i-9223372036854775808e").unwrap().unwrap();
    assert!(matches!(v, BencodeValue::Integer(i64::MIN)));
}

#[test]
fn integer_errors() {
    assert_eq!(decode_all(b"i9223372036854775808e").err(), Some(DecodeError::MalformedInteger));
    assert_eq!(decode_all(b"i12x4e").err(), Some(DecodeError::MalformedInteger));
    assert_eq!(decode_all(b"ie").err(), Some(DecodeError::MalformedInteger));
    assert_eq!(decode_all(b"i-e").err(), Some(DecodeError::MalformedInteger));
    assert_eq!(decode_all(b"i12").err(), Some(DecodeError::TruncatedInput));
}

#[test]
fn decodes_list_and_stops_after_it() {
    let (v, end) = decode_all(b"l5:helloi52eeXYZ").unwrap().unwrap();
    assert_eq!(end, 13);
    match v {
        BencodeValue::List(items) => {
            assert_eq!(items.len(), 2);
            assert!(same(&items[0], &bytes(b"hello")));
            assert!(matches!(items[1], BencodeValue::Integer(52)));
        }
        _ => panic!("not a list"),
    }
    let (v, end) = decode_all(b"le").unwrap().unwrap();
    assert_eq!(end, 2);
    assert!(matches!(v, BencodeValue::List(ref items) if items.is_empty()));
}

#[test]
fn dictionary_keys_come_out_sorted() {
    let (v, end) = decode_all(b"d3:zooi1e3:fooi2e3:bari3ee").unwrap().unwrap();
    assert_eq!(end, 26);
    assert_eq!(v.encode(), b"d3:bari3e3:fooi2e3:zooi1ee".to_vec());
}

#[test]
fn duplicate_key_keeps_last_value() {
    let (v, _) = decode_all(b"d1:ai1e1:ai2ee").unwrap().unwrap();
    assert_eq!(v.encode(), b"d1:ai2ee".to_vec());
}

#[test]
fn decode_errors() {
    assert_eq!(decode_all(b"x").err(), Some(DecodeError::UnknownTag));
    assert_eq!(decode_all(b"di1ei2ee").err(), Some(DecodeError::InvalidKeyType));
    assert_eq!(decode_all(b"3x:abc").err(), Some(DecodeError::MalformedLength));
    assert_eq!(decode_all(b"l5:hello").err(), Some(DecodeError::TruncatedInput));
    assert_eq!(decode_all(b"d3:foo").err(), Some(DecodeError::TruncatedInput));
}

#[test]
fn truncated_byte_string_is_an_error() {
    let mut input = b"99:".to_vec();
    input.extend_from_slice(&[7u8; 50]);
    assert_eq!(decode_all(&input).err(), Some(DecodeError::TruncatedInput));
    assert_eq!(decode_all(b"99:").err(), Some(DecodeError::TruncatedInput));
    assert_eq!(
        decode_all(b"99999999999999999999999999:ab").err(),
        Some(DecodeError::TruncatedInput)
    );
}

#[test]
fn empty_input_is_no_value() {
    assert!(matches!(decode_all(b""), Ok(None)));
    assert!(matches!(decode(b"i1e", 3), Ok(None)));
}

#[test]
fn consecutive_values_decode_one_at_a_time() {
    let input = b"i1e4:spam";
    let (a, end) = decode(input, 0).unwrap().unwrap();
    assert!(matches!(a, BencodeValue::Integer(1)));
    let (b, end2) = decode(input, end).unwrap().unwrap();
    assert!(same(&b, &bytes(b"spam")));
    assert_eq!(end2, input.len());
    assert!(matches!(decode(input, end2), Ok(None)));
}

#[test]
fn nesting_is_limited() {
    let mut deep = vec![b'l'; 65];
    deep.extend(vec![b'e'; 65]);
    assert_eq!(decode_all(&deep).err(), Some(DecodeError::NestingTooDeep));
    let mut ok = vec![b'l'; 64];
    ok.extend(vec![b'e'; 64]);
    assert!(decode_all(&ok).unwrap().is_some());
}

#[test]
fn encodes_minimal_text() {
    assert_eq!(BencodeValue::Integer(0).encode(), b"i0e".to_vec());
    assert_eq!(BencodeValue::Integer(-42).encode(), b"i-42e".to_vec());
    assert_eq!(BencodeValue::Integer(i64::MIN).encode(), b"i-9223372036854775808e".to_vec());
    assert_eq!(bytes(b"").encode(), b"0:".to_vec());
    assert_eq!(bytes(&[0xff, 0x00]).encode(), vec![b'2', b':', 0xff, 0x00]);
}

#[test]
fn round_trip_of_a_nested_value() {
    let v = BencodeValue::Dictionary(vec![
        (b"a".to_vec(), BencodeValue::List(vec![BencodeValue::Integer(-7), bytes(&[0, 255, 10])])),
        (b"b".to_vec(), BencodeValue::Dictionary(vec![(b"k".to_vec(), BencodeValue::Integer(9))])),
    ]);
    let enc = v.encode();
    let (back, end) = decode_all(&enc).unwrap().unwrap();
    assert_eq!(end, enc.len());
    assert_eq!(back.encode(), enc);
}

#[test]
fn round_trip_of_canonical_bytes() {
    let input = b"d4:listl4:spami-3ee3:numi42e3:str0:e";
    let (v, _) = decode_all(input).unwrap().unwrap();
    assert_eq!(v.encode(), input.to_vec());
}
