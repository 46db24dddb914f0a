use amf0::decode::read_object_property;
use amf0::decode::read_string;
use amf0::decode::read_u16_be;
use amf0::decode::read_u32_be;
use amf0::decode::read_value;
use amf0::decode::DecodeError;
use amf0::markers::Marker;
use amf0::Value;

#[test]
fn null_byte_decodes_to_null() {
    let (v, p) = read_value(&[0x05], 0).unwrap();
    assert_eq!(v, Value::Null);
    assert_eq!(p, 1);
}

#[test]
fn undefined_byte_decodes_to_undefined() {
    let (v, p) = read_value(&[0x06], 0).unwrap();
    assert_eq!(v, Value::Undefined);
    assert_eq!(p, 1);
}

#[test]
fn nonzero_boolean_is_true() {
    let (v, _) = read_value(&[0x01, 0x01], 0).unwrap();
    assert_eq!(v, Value::Boolean(true));
    let (v, _) = read_value(&[0x01, 0x2A], 0).unwrap();
    assert_eq!(v, Value::Boolean(true));
    let (v, _) = read_value(&[0x01, 0x00], 0).unwrap();
    assert_eq!(v, Value::Boolean(false));
}

#[test]
fn number_reads_big_endian_float_bits() {
    let bytes = [0x00, 0x40, 0x09, 0x21, 0xFB, 0x54, 0x44, 0x2D, 0x18];
    let (v, p) = read_value(&bytes, 0).unwrap();
    assert_eq!(p, 9);
    match v {
        Value::Number(bits) => {
            assert_eq!(bits, 0x4009_21FB_5444_2D18);
            assert!((f64::from_bits(bits) - 3.14159265358979).abs() < 1e-12);
        },
        other => panic!("expected a number, got {:?}", other),
    }
}

#[test]
fn empty_string_decodes_without_payload() {
    let (v, p) = read_value(&[0x02, 0x00, 0x00], 0).unwrap();
    assert_eq!(v, Value::String(String::new()));
    assert_eq!(p, 3);
}

#[test]
fn zero_length_read_consumes_nothing() {
    // No bytes at all: a zero-size text read still succeeds and stays put.
    let (s, p) = read_string(&[], 0, 0).unwrap();
    assert_eq!(s, "");
    assert_eq!(p, 0);
}

#[test]
fn multibyte_utf8_string_decodes() {
    let (v, p) = read_value(&[0x02, 0x00, 0x02, 0xC3, 0xA9], 0).unwrap();
    assert_eq!(v, Value::String(String::from("\u{e9}")));
    assert_eq!(p, 5);
}

#[test]
fn long_string_uses_four_byte_prefix() {
    let (v, p) = read_value(&[0x0C, 0x00, 0x00, 0x00, 0x02, b'h', b'i'], 0).unwrap();
    assert_eq!(v, Value::String(String::from("hi")));
    assert_eq!(p, 7);
}

#[test]
fn xml_document_is_distinct_from_string() {
    let (v, _) = read_value(&[0x0F, 0x00, 0x00, 0x00, 0x02, b'h', b'i'], 0).unwrap();
    assert_eq!(v, Value::XmlDocument(String::from("hi")));
}

#[test]
fn empty_object_is_sentinel_only() {
    let (v, p) = read_value(&[0x03, 0x00, 0x00, 0x09], 0).unwrap();
    assert_eq!(v, Value::Object(vec![]));
    assert_eq!(p, 4);
}

#[test]
fn empty_strict_array_reads_no_elements() {
    let (v, p) = read_value(&[0x0A, 0x00, 0x00, 0x00, 0x00], 0).unwrap();
    assert_eq!(v, Value::Array(vec![]));
    assert_eq!(p, 5);
}

#[test]
fn unknown_marker_fails_with_bad_marker() {
    assert_eq!(read_value(&[0xFF], 0), Err(DecodeError::BadMarker(0xFF)));
}

#[test]
fn reserved_markers_collapse_to_unsupported() {
    assert_eq!(read_value(&[0x04], 0).unwrap().0, Value::Unsupported);
    assert_eq!(read_value(&[0x0D], 0).unwrap().0, Value::Unsupported);
    assert_eq!(read_value(&[0x0E], 0).unwrap().0, Value::Unsupported);
}

#[test]
fn reference_keeps_opaque_index() {
    let (v, p) = read_value(&[0x07, 0x12, 0x34], 0).unwrap();
    assert_eq!(v, Value::Reference(0x1234));
    assert_eq!(p, 3);
}

#[test]
fn date_reads_bits_and_discards_timezone() {
    let mut bytes = vec![0x0B];
    bytes.extend_from_slice(&[0x41, 0x74, 0x53, 0x4E, 0x20, 0x00, 0x00, 0x00]);
    bytes.extend_from_slice(&[0x01, 0x2C]); // a non-zero offset, ignored
    let (v, p) = read_value(&bytes, 0).unwrap();
    assert_eq!(v, Value::Date(0x4174_534E_2000_0000));
    assert_eq!(p, 11);
}

#[test]
fn object_ends_exactly_at_first_sentinel() {
    // { "a": null } followed by trailing bytes the decoder must not touch.
    let bytes = [
        0x03, 0x00, 0x01, b'a', 0x05, 0x00, 0x00, 0x09, 0xAA, 0xBB,
    ];
    let (v, p) = read_value(&bytes, 0).unwrap();
    assert_eq!(v, Value::Object(vec![(String::from("a"), Value::Null)]));
    assert_eq!(p, 8);
}

#[test]
fn zero_key_then_wrong_marker_is_unexpected() {
    // Inside an object: a zero-length key followed by the null marker.
    let bytes = [0x03, 0x00, 0x00, 0x05];
    assert_eq!(
        read_value(&bytes, 0),
        Err(DecodeError::UnexpectedMarker(Marker::Null))
    );
}

#[test]
fn zero_key_then_undefined_byte_is_bad_marker() {
    let r = read_object_property(&[0x00, 0x00, 0xFE], 0);
    assert_eq!(r, Err(DecodeError::BadMarker(0xFE)));
}

#[test]
fn object_end_at_value_position_is_unexpected() {
    assert_eq!(
        read_value(&[0x09], 0),
        Err(DecodeError::UnexpectedMarker(Marker::ObjectEnd))
    );
    assert_eq!(
        read_value(&[0x11], 0),
        Err(DecodeError::UnexpectedMarker(Marker::AVMPlusObject))
    );
}

#[test]
fn strict_array_count_is_authoritative() {
    // Declared count 3, only two well-formed elements present.
    let bytes = [0x0A, 0x00, 0x00, 0x00, 0x03, 0x05, 0x05];
    assert_eq!(read_value(&bytes, 0), Err(DecodeError::Truncated));
}

#[test]
fn ecma_array_count_is_advisory() {
    // Declared count 5, sentinel after two properties: accepted as-is.
    let bytes = [
        0x08, //
        0x00, 0x00, 0x00, 0x05, // count 5, ignored
        0x00, 0x01, b'a', 0x05, // "a": null
        0x00, 0x01, b'b', 0x01, 0x01, // "b": true
        0x00, 0x00, 0x09, // sentinel
    ];
    let (v, p) = read_value(&bytes, 0).unwrap();
    assert_eq!(
        v,
        Value::ECMAArray(vec![
            (String::from("a"), Value::Null),
            (String::from("b"), Value::Boolean(true)),
        ])
    );
    assert_eq!(p, bytes.len());
}

#[test]
fn repeated_key_keeps_position_and_last_value() {
    let bytes = [
        0x03, //
        0x00, 0x01, b'a', 0x05, // "a": null
        0x00, 0x01, b'b', 0x06, // "b": undefined
        0x00, 0x01, b'a', 0x01, 0x01, // "a": true (wins, stays first)
        0x00, 0x00, 0x09,
    ];
    let (v, _) = read_value(&bytes, 0).unwrap();
    assert_eq!(
        v,
        Value::Object(vec![
            (String::from("a"), Value::Boolean(true)),
            (String::from("b"), Value::Undefined),
        ])
    );
}

#[test]
fn typed_object_carries_class_name() {
    let bytes = [
        0x10, 0x00, 0x02, b'h', b'i', // class name "hi"
        0x00, 0x01, b'a', 0x05, // "a": null
        0x00, 0x00, 0x09,
    ];
    let (v, _) = read_value(&bytes, 0).unwrap();
    assert_eq!(
        v,
        Value::TypedObject(
            String::from("hi"),
            vec![(String::from("a"), Value::Null)]
        )
    );
}

#[test]
fn nested_array_of_values_decodes_in_order() {
    let bytes = [
        0x0A, 0x00, 0x00, 0x00, 0x02, // two elements
        0x01, 0x00, // false
        0x02, 0x00, 0x01, b'x', // "x"
    ];
    let (v, p) = read_value(&bytes, 0).unwrap();
    assert_eq!(
        v,
        Value::Array(vec![
            Value::Boolean(false),
            Value::String(String::from("x")),
        ])
    );
    assert_eq!(p, bytes.len());
}

#[test]
fn truncated_number_fails() {
    assert_eq!(
        read_value(&[0x00, 0x40, 0x09], 0),
        Err(DecodeError::Truncated)
    );
}

#[test]
fn truncated_empty_input_fails() {
    assert_eq!(read_value(&[], 0), Err(DecodeError::Truncated));
}

#[test]
fn invalid_utf8_payload_fails() {
    let bytes = [0x02, 0x00, 0x01, 0xFF];
    assert_eq!(read_value(&bytes, 0), Err(DecodeError::InvalidEncoding));
}

#[test]
fn primitive_reads_are_big_endian() {
    assert_eq!(read_u16_be(&[0x01, 0x02], 0).unwrap(), (0x0102, 2));
    assert_eq!(
        read_u32_be(&[0x01, 0x02, 0x03, 0x04], 0).unwrap(),
        (0x0102_0304, 4)
    );
}

#[test]
fn marker_table_is_a_bijection() {
    let mut defined = 0;
    for n in 0..=255u8 {
        if let Some(m) = Marker::from_byte(n) {
            assert_eq!(m.to_byte(), n);
            defined += 1;
        }
    }
    assert_eq!(defined, 18);
}

#[test]
fn decoding_starts_at_the_given_position() {
    let bytes = [0xAA, 0xBB, 0x05, 0x01, 0x01];
    let (v, p) = read_value(&bytes, 2).unwrap();
    assert_eq!(v, Value::Null);
    assert_eq!(p, 3);
    let (v2, p2) = read_value(&bytes, 3).unwrap();
    assert_eq!(v2, Value::Boolean(true));
    assert_eq!(p2, 5);
}

#[test]
fn signed_sixteen_bit_reads_are_twos_complement() {
    assert_eq!(
        amf0::decode::read_i16_be(&[0xFF, 0xFF], 0).unwrap(),
        (-1, 2)
    );
    assert_eq!(
        amf0::decode::read_i16_be(&[0x7F, 0xFF], 0).unwrap(),
        (32767, 2)
    );
}

#[test]
fn eight_byte_reads_keep_all_bits() {
    let bytes = [0x01, 0x23, 0x45, 0x67, 0x89, 0xAB, 0xCD, 0xEF];
    assert_eq!(
        amf0::decode::read_u64_be(&bytes, 0).unwrap(),
        (0x0123_4567_89AB_CDEF, 8)
    );
}

#[test]
fn date_payload_reader_consumes_ten_bytes() {
    let bytes = [0x3F, 0xF0, 0, 0, 0, 0, 0, 0, 0xFF, 0x88];
    assert_eq!(
        amf0::decode::read_date(&bytes, 0).unwrap(),
        (0x3FF0_0000_0000_0000, 10)
    );
}
