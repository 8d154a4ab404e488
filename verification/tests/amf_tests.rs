//! Byte utilities and AMF-0 codec tests.

use rtmp_relay::amf::{
    decode_amf_boolean, decode_amf_ecma_array, decode_amf_message, decode_amf_null,
    decode_amf_reference, decode_amf_string, encode_amf_messages, AmfObject,
};
use rtmp_relay::error::Error;
use rtmp_relay::utils::{
    aggregate, f64_bits_of_u32, read_buffer, read_buffer_sized, read_i16, read_numeric, read_u16,
    read_u32, read_u64, read_u8, ByteReader,
};

fn amf_eq(a: &AmfObject, b: &AmfObject) -> bool {
    match (a, b) {
        (AmfObject::Number(x), AmfObject::Number(y)) => x == y,
        (AmfObject::Boolean(x), AmfObject::Boolean(y)) => x == y,
        (AmfObject::String(x), AmfObject::String(y)) => x == y,
        (AmfObject::Object(x), AmfObject::Object(y)) => props_eq(x, y),
        (AmfObject::Null, AmfObject::Null) => true,
        (AmfObject::Undefined, AmfObject::Undefined) => true,
        (AmfObject::Reference(x), AmfObject::Reference(y)) => x == y,
        (AmfObject::EcmaArray(x), AmfObject::EcmaArray(y)) => props_eq(x, y),
        (AmfObject::StrictArray(x), AmfObject::StrictArray(y)) => {
            x.len() == y.len() && x.iter().zip(y.iter()).all(|(u, v)| amf_eq(u, v))
        }
        (AmfObject::Date(x), AmfObject::Date(y)) => x == y,
        _ => false,
    }
}

fn props_eq(x: &[(String, AmfObject)], y: &[(String, AmfObject)]) -> bool {
    x.len() == y.len()
        && x.iter()
            .zip(y.iter())
            .all(|(u, v)| u.0 == v.0 && amf_eq(&u.1, &v.1))
}

#[test]
fn test_read_u8() {
    let data = vec![0x0, 0x1, 0x2, 0x3];
    let mut cursor = ByteReader::new(&data);
    for i in 0..4 {
        assert_eq!(read_u8(&mut cursor).unwrap(), i);
    }
}

#[test]
fn test_read_u16() {
    let data = vec![0x0, 0x1, 0x2, 0x3];
    let mut cursor = ByteReader::new(&data);
    assert_eq!(read_u16(&mut cursor).unwrap(), 0x0001_u16);
    assert_eq!(read_u16(&mut cursor).unwrap(), 0x0203_u16);
}

#[test]
fn test_read_u32() {
    let data = vec![0x0, 0x1, 0x2, 0x3];
    let mut cursor = ByteReader::new(&data);
    assert_eq!(read_u32(&mut cursor).unwrap(), 0x00010203_u32);
}

#[test]
fn test_read_exhausted_is_io_error() {
    let data = vec![0x0, 0x1];
    let mut cursor = ByteReader::new(&data);
    assert!(matches!(read_u32(&mut cursor), Err(Error::Io)));
}

#[test]
fn test_aggregate_both_orders() {
    let data = vec![0x01, 0x02, 0x03];
    assert_eq!(aggregate(&data, false), 0x010203);
    assert_eq!(aggregate(&data, true), 0x030201);
}

#[test]
fn test_f64_bits_match_hardware() {
    for n in [0u32, 1, 2, 3, 100, 255, 7122, 65536, 1048576, u32::MAX] {
        assert_eq!(f64_bits_of_u32(n), (n as f64).to_bits());
    }
}

#[test]
fn amf_parse_number() {
    let data = vec![0u8; 9];
    let mut reader = ByteReader::new(&data);
    if let AmfObject::Number(x) = decode_amf_message(&mut reader).unwrap() {
        assert_eq!(f64::from_bits(x), 0_f64);
        assert_eq!(reader.position(), 9);
    } else {
        panic!("Test failed");
    }
}

#[test]
fn amf_parse_bool_false() {
    let data = vec![0x1, 0x0];
    let mut reader = ByteReader::new(&data);
    if let AmfObject::Boolean(x) = decode_amf_message(&mut reader).unwrap() {
        assert_eq!(x, false);
        assert_eq!(reader.position(), 2);
    } else {
        panic!("Test failed");
    }
}

#[test]
fn amf_parse_bool_true() {
    let data = vec![0x1, 0xA];
    let mut reader = ByteReader::new(&data);
    if let AmfObject::Boolean(x) = decode_amf_message(&mut reader).unwrap() {
        assert_eq!(x, true);
        assert_eq!(reader.position(), 2);
    } else {
        panic!("Test failed");
    }
}

#[test]
fn amf_parse_string() {
    let data = vec![0x2, 0x00, 0x4, 0x6A, 0x69, 0x7A, 0x7A];
    let mut reader = ByteReader::new(&data);
    if let AmfObject::String(x) = decode_amf_message(&mut reader).unwrap() {
        assert_eq!(x, "jizz");
        assert_eq!(reader.position(), 7);
    } else {
        panic!("Test failed");
    }
}

#[test]
fn amf_encode_number() {
    let buffer = encode_amf_messages(&[AmfObject::Number(7122.123_f64.to_bits())]);
    let mut reader = ByteReader::new(&buffer);
    if let AmfObject::Number(x) = decode_amf_message(&mut reader).unwrap() {
        assert_eq!(f64::from_bits(x), 7122.123_f64);
    } else {
        panic!("Test failed");
    }
}

fn sample_object() -> Vec<(String, AmfObject)> {
    vec![
        (
            String::from("field1"),
            AmfObject::String(String::from("value1")),
        ),
        (String::from("field2"), AmfObject::Number(255.0_f64.to_bits())),
        (String::from("field3"), AmfObject::Boolean(true)),
        (String::from("field4"), AmfObject::Null),
    ]
}

#[test]
fn amf_encode_object() {
    let object = sample_object();
    let buffer = encode_amf_messages(&[AmfObject::Object(sample_object())]);
    let mut reader = ByteReader::new(&buffer);
    if let AmfObject::Object(amf) = decode_amf_message(&mut reader).unwrap() {
        assert_eq!(amf.len(), object.len());
        for i in 0..4 {
            let key = format!("field{}", i + 1);
            assert_eq!(amf[i].0, key);
            assert_eq!(object[i].0, key);
            assert!(amf_eq(&amf[i].1, &object[i].1));
        }
    } else {
        panic!("Test failed");
    }
}

fn sample_array() -> Vec<(String, AmfObject)> {
    vec![
        (
            String::from("key1"),
            AmfObject::String(String::from("val1")),
        ),
        (String::from("key2"), AmfObject::Boolean(true)),
        (String::from("key3"), AmfObject::Number(71.22_f64.to_bits())),
        (String::from("key4"), AmfObject::Null),
    ]
}

#[test]
fn amf_encode_ecma_array() {
    let array = sample_array();
    let buffer = encode_amf_messages(&[AmfObject::EcmaArray(sample_array())]);
    let mut reader = ByteReader::new(&buffer);
    if let AmfObject::EcmaArray(v) = decode_amf_message(&mut reader).unwrap() {
        assert!(props_eq(&array, &v));
    } else {
        panic!("Test failed");
    }
}

fn wire_array() -> Vec<(String, AmfObject)> {
    vec![
        (String::from("k1"), AmfObject::String(String::from("v1"))),
        (String::from("k2"), AmfObject::Boolean(true)),
        (String::from("k3"), AmfObject::Number(71.22_f64.to_bits())),
        (String::from("k4"), AmfObject::Null),
    ]
}

#[test]
fn amf_ecma_array_wire_form() {
    let array = wire_array();
    let buffer = encode_amf_messages(&[AmfObject::EcmaArray(wire_array())]);
    assert_eq!(&buffer[0..5], &[0x08, 0x00, 0x00, 0x00, 0x04]);
    assert_eq!(&buffer[buffer.len() - 3..], &[0x00, 0x00, 0x09]);
    let mut reader = ByteReader::new(&buffer);
    if let AmfObject::EcmaArray(v) = decode_amf_message(&mut reader).unwrap() {
        assert!(props_eq(&array, &v));
    } else {
        panic!("Test failed");
    }
}

#[test]
fn amf_string_length_bounds() {
    // empty string
    let buffer = encode_amf_messages(&[AmfObject::String(String::new())]);
    assert_eq!(buffer, vec![0x2, 0x0, 0x0]);
    let mut reader = ByteReader::new(&buffer);
    if let AmfObject::String(s) = decode_amf_message(&mut reader).unwrap() {
        assert_eq!(s, "");
    } else {
        panic!("Test failed");
    }
    // the longest string the two-byte length carries
    let long = "x".repeat(65535);
    let buffer = encode_amf_messages(&[AmfObject::String(long.clone())]);
    assert_eq!(buffer.len(), 3 + 65535);
    assert_eq!(&buffer[0..3], &[0x2, 0xFF, 0xFF]);
    let mut reader = ByteReader::new(&buffer);
    if let AmfObject::String(s) = decode_amf_message(&mut reader).unwrap() {
        assert_eq!(s, long);
    } else {
        panic!("Test failed");
    }
}

#[test]
fn amf_round_trip_nested() {
    let value = AmfObject::StrictArray(vec![
        AmfObject::Object(vec![
            (String::from("inner"), AmfObject::Reference(513)),
            (
                String::from("when"),
                AmfObject::Date((1234.5_f64.to_bits(), 0)),
            ),
        ]),
        AmfObject::Undefined,
    ]);
    let buffer = encode_amf_messages(std::slice::from_ref(&value));
    let mut reader = ByteReader::new(&buffer);
    let back = decode_amf_message(&mut reader).unwrap();
    assert!(amf_eq(&back, &value));
    assert_eq!(reader.position(), buffer.len());
}

#[test]
fn amf_rejects_unknown_marker() {
    let data = vec![0x4, 0x0];
    let mut reader = ByteReader::new(&data);
    assert!(matches!(
        decode_amf_message(&mut reader),
        Err(Error::AmfIncorrectTypeMarker)
    ));
}

#[test]
fn amf_rejects_invalid_utf8() {
    let data = vec![0x2, 0x00, 0x2, 0xFF, 0xFE];
    let mut reader = ByteReader::new(&data);
    assert!(matches!(
        decode_amf_message(&mut reader),
        Err(Error::MalformedAmf)
    ));
}

#[test]
fn amf_rejects_truncated_input() {
    let data = vec![0x0, 0x1, 0x2];
    let mut reader = ByteReader::new(&data);
    assert!(matches!(decode_amf_message(&mut reader), Err(Error::Io)));
}

#[test]
fn amf_ecma_array_bad_terminator() {
    // advisory count 1, one pair, empty name, then a wrong closing byte
    let mut data = vec![0x8, 0x00, 0x00, 0x00, 0x01];
    data.extend_from_slice(&[0x00, 0x01, b'a', 0x5]); // "a" => null
    data.extend_from_slice(&[0x00, 0x00, 0x08]); // not the object-end marker
    let mut reader = ByteReader::new(&data);
    assert!(matches!(
        decode_amf_ecma_array(&mut reader, true),
        Err(Error::AmfIncorrectEndOfEcmaArray)
    ));
}

#[test]
fn amf_typed_decoders_check_markers() {
    let data = vec![0x5];
    let mut reader = ByteReader::new(&data);
    assert!(decode_amf_null(&mut reader, true).is_ok());
    let data = vec![0x2, 0x00, 0x00];
    let mut reader = ByteReader::new(&data);
    assert_eq!(decode_amf_string(&mut reader, true).unwrap(), "");
    let data = vec![0x1, 0x7];
    let mut reader = ByteReader::new(&data);
    assert_eq!(decode_amf_boolean(&mut reader, true).unwrap(), true);
    let data = vec![0x7, 0x12, 0x34];
    let mut reader = ByteReader::new(&data);
    assert_eq!(decode_amf_reference(&mut reader, true).unwrap(), 0x1234);
    let data = vec![0x0];
    let mut reader = ByteReader::new(&data);
    assert!(matches!(
        decode_amf_null(&mut reader, true),
        Err(Error::AmfIncorrectTypeMarker)
    ));
}

#[test]
fn test_read_i16_and_sized_buffers() {
    let data = vec![0xFF, 0xFE, 0x00, 0x07, 0xAA, 0xBB, 0xCC, 0xDD, 0x11, 0x22];
    let mut cursor = ByteReader::new(&data);
    assert_eq!(read_i16(&mut cursor).unwrap(), -2);
    assert_eq!(read_i16(&mut cursor).unwrap(), 7);
    assert_eq!(read_buffer(&mut cursor, 2).unwrap(), vec![0xAA, 0xBB]);
    assert_eq!(read_buffer_sized::<2>(&mut cursor).unwrap(), vec![0xCC, 0xDD]);
    assert_eq!(read_numeric(&mut cursor, 2).unwrap(), 0x1122);
    let wide = vec![0x01, 0x02, 0x03, 0x04, 0x05, 0x06, 0x07, 0x08];
    let mut cursor = ByteReader::new(&wide);
    assert_eq!(read_u64(&mut cursor).unwrap(), 0x0102030405060708);
}
