//! Round trips and error behaviour of the record codec.

use kvlog::buffer::{Buffer, ValueType};
use kvlog::Error;

#[test]
fn round_trip_i32() {
    let b = Buffer::from_i32("answer", 42);
    let bytes = b.to_bytes().unwrap();
    let (d, n) = Buffer::decode(&bytes, 0).unwrap();
    assert_eq!(n, bytes.len());
    assert_eq!(d.key(), "answer");
    assert_eq!(d.decode_i32(), Ok(42));
}

#[test]
fn round_trip_i32_extremes() {
    for v in [i32::MIN, -1, 0, 1, i32::MAX] {
        let b = Buffer::from_i32("k", v);
        let bytes = b.to_bytes().unwrap();
        let (d, _) = Buffer::decode(&bytes, 0).unwrap();
        assert_eq!(d.decode_i32(), Ok(v));
    }
}

#[test]
fn round_trip_i64() {
    for v in [i64::MIN, -1, 0, 7, i64::MAX] {
        let b = Buffer::from_i64("k", v);
        let bytes = b.to_bytes().unwrap();
        let (d, _) = Buffer::decode(&bytes, 0).unwrap();
        assert_eq!(d.decode_i64(), Ok(v));
    }
}

#[test]
fn round_trip_str() {
    let b = Buffer::form_str("greeting", "hello wörld");
    let bytes = b.to_bytes().unwrap();
    let (d, _) = Buffer::decode(&bytes, 0).unwrap();
    assert_eq!(d.key(), "greeting");
    assert_eq!(d.decode_str(), Ok(String::from("hello wörld")));
}

#[test]
fn round_trip_bool() {
    for v in [true, false] {
        let b = Buffer::from_bool("flag", v);
        let bytes = b.to_bytes().unwrap();
        let (d, _) = Buffer::decode(&bytes, 0).unwrap();
        assert_eq!(d.decode_bool(), Ok(v));
    }
}

#[test]
fn round_trip_byte_array() {
    let payload = vec![0u8, 255, 1, 2, 3];
    let b = Buffer::from_byte_array("blob", &payload);
    let bytes = b.to_bytes().unwrap();
    let (d, _) = Buffer::decode(&bytes, 0).unwrap();
    assert_eq!(d.decode_byte_array(), Ok(payload));
}

#[test]
fn round_trip_empty_byte_array() {
    let b = Buffer::from_byte_array("blob", &[]);
    let bytes = b.to_bytes().unwrap();
    let (d, _) = Buffer::decode(&bytes, 0).unwrap();
    assert_eq!(d.decode_byte_array(), Ok(Vec::new()));
}

#[test]
fn round_trip_i32_array() {
    let xs = [1, -1, i32::MAX, i32::MIN, 0];
    let b = Buffer::form_i32_array("xs", &xs);
    let bytes = b.to_bytes().unwrap();
    let (d, _) = Buffer::decode(&bytes, 0).unwrap();
    assert_eq!(d.decode_i32_array(), Ok(xs.to_vec()));
}

#[test]
fn i32_array_packs_big_endian() {
    let b = Buffer::form_i32_array("xs", &[1, -1, i32::MAX]);
    assert_eq!(
        b.value(),
        [
            0x00, 0x00, 0x00, 0x01, 0xFF, 0xFF, 0xFF, 0xFF, 0x7F, 0xFF, 0xFF, 0xFF
        ]
        .as_slice()
    );
}

#[test]
fn round_trip_i64_array() {
    let xs = [1, -1, i64::MAX, i64::MIN];
    let b = Buffer::form_i64_array("xs", &xs);
    let bytes = b.to_bytes().unwrap();
    let (d, _) = Buffer::decode(&bytes, 0).unwrap();
    assert_eq!(d.decode_i64_array(), Ok(xs.to_vec()));
}

#[test]
fn i64_array_packs_big_endian() {
    let b = Buffer::form_i64_array("xs", &[1, -1]);
    assert_eq!(
        b.value(),
        [
            0x00, 0x00, 0x00, 0x00, 0x00, 0x00, 0x00, 0x01, 0xFF, 0xFF, 0xFF, 0xFF, 0xFF, 0xFF,
            0xFF, 0xFF
        ]
        .as_slice()
    );
}

#[test]
fn round_trip_empty_arrays() {
    let b = Buffer::form_i32_array("xs", &[]);
    let bytes = b.to_bytes().unwrap();
    let (d, _) = Buffer::decode(&bytes, 0).unwrap();
    assert_eq!(d.decode_i32_array(), Ok(Vec::new()));
}

#[test]
fn negative_one_encodes_as_ff() {
    let b = Buffer::from_i32("a", -1);
    assert_eq!(b.value(), [0xFF, 0xFF, 0xFF, 0xFF].as_slice());
}

#[test]
fn i32_record_read_as_str_is_type_mismatch() {
    let b = Buffer::from_i32("a", -1);
    let bytes = b.to_bytes().unwrap();
    let (d, _) = Buffer::decode(&bytes, 0).unwrap();
    assert_eq!(d.decode_str(), Err(Error::TypeMissMatch));
}

#[test]
fn tombstone_reads_as_key_not_found() {
    let b = Buffer::tombstone("gone");
    assert!(b.is_deleting());
    assert_eq!(b.decode_str(), Err(Error::KeyNotFound));
    assert_eq!(b.decode_bool(), Err(Error::KeyNotFound));
    assert_eq!(b.decode_i32(), Err(Error::KeyNotFound));
}

#[test]
fn empty_key_is_encode_failed() {
    let b = Buffer::from_i32("", 1);
    assert!(matches!(b.to_bytes(), Err(Error::EncodeFailed(_))));
}

#[test]
fn invalid_utf8_string_payload_is_data_invalid() {
    let b = Buffer::from_payload("k", ValueType::Str, vec![0xFF, 0xFE]).unwrap();
    assert_eq!(b.decode_str(), Err(Error::DataInvalid));
}

#[test]
fn wrong_payload_shape_is_data_invalid() {
    assert!(matches!(
        Buffer::from_payload("k", ValueType::I32, vec![1, 2, 3]),
        Err(Error::DataInvalid)
    ));
    assert!(matches!(
        Buffer::from_payload("k", ValueType::Deleted, vec![1]),
        Err(Error::DataInvalid)
    ));
    assert!(matches!(
        Buffer::from_payload("k", ValueType::I64Array, vec![0; 12]),
        Err(Error::DataInvalid)
    ));
}

#[test]
fn truncated_record_is_decode_failed() {
    let b = Buffer::from_i32("key", 7);
    let mut bytes = b.to_bytes().unwrap();
    bytes.pop();
    assert!(matches!(
        Buffer::decode(&bytes, 0),
        Err(Error::DecodeFailed(_))
    ));
    assert!(matches!(
        Buffer::decode(&Vec::new(), 0),
        Err(Error::DecodeFailed(_))
    ));
}

#[test]
fn unknown_tag_is_decode_failed() {
    let b = Buffer::from_i32("key", 7);
    let mut bytes = b.to_bytes().unwrap();
    // The tag sits after the 4-byte key length and the 3 key bytes.
    bytes[7] = 0x77;
    assert!(matches!(
        Buffer::decode(&bytes, 0),
        Err(Error::DecodeFailed(_))
    ));
}

#[test]
fn decode_consumes_records_sequentially() {
    let b1 = Buffer::from_i32("one", 1);
    let b2 = Buffer::form_str("two", "2");
    let mut bytes = b1.to_bytes().unwrap();
    bytes.extend_from_slice(&b2.to_bytes().unwrap());
    let (d1, n1) = Buffer::decode(&bytes, 0).unwrap();
    let (d2, n2) = Buffer::decode(&bytes, n1).unwrap();
    assert_eq!(n1 + n2, bytes.len());
    assert_eq!(d1.key(), "one");
    assert_eq!(d1.decode_i32(), Ok(1));
    assert_eq!(d2.key(), "two");
    assert_eq!(d2.decode_str(), Ok(String::from("2")));
}

#[test]
fn encoding_is_deterministic() {
    let a = Buffer::form_str("k", "v").to_bytes().unwrap();
    let b = Buffer::form_str("k", "v").to_bytes().unwrap();
    assert_eq!(a, b);
}
