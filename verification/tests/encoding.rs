use amf0::decode::read_value;
use amf0::encode::write_value;
use amf0::Value;

fn round_trips(v: Value) {
    let bytes = write_value(&v).expect("the value should have an encoding");
    let (back, consumed) = read_value(&bytes, 0).expect("the encoding should decode");
    assert_eq!(back, v);
    assert_eq!(consumed, bytes.len());
}

#[test]
fn scalars_round_trip() {
    round_trips(Value::Null);
    round_trips(Value::Undefined);
    round_trips(Value::Unsupported);
    round_trips(Value::Boolean(true));
    round_trips(Value::Boolean(false));
    round_trips(Value::Number(3.5f64.to_bits()));
    round_trips(Value::Number(f64::NEG_INFINITY.to_bits()));
    round_trips(Value::Reference(0xBEEF));
    round_trips(Value::Date(1_234_567_890_123.0f64.to_bits()));
}

#[test]
fn text_round_trips() {
    round_trips(Value::String(String::new()));
    round_trips(Value::String(String::from("hello")));
    round_trips(Value::String(String::from("caf\u{e9} \u{1F600}")));
    round_trips(Value::XmlDocument(String::from("<a>hi</a>")));
}

#[test]
fn containers_round_trip() {
    round_trips(Value::Array(vec![]));
    round_trips(Value::Object(vec![]));
    round_trips(Value::ECMAArray(vec![]));
    round_trips(Value::Array(vec![
        Value::Null,
        Value::Boolean(true),
        Value::String(String::from("x")),
    ]));
    round_trips(Value::Object(vec![
        (String::from("a"), Value::Number(1.0f64.to_bits())),
        (String::from("b"), Value::Array(vec![Value::Null])),
    ]));
    round_trips(Value::ECMAArray(vec![(
        String::from("k"),
        Value::String(String::from("v")),
    )]));
    round_trips(Value::TypedObject(
        String::from("org.example.Thing"),
        vec![(String::from("id"), Value::Number(7.0f64.to_bits()))],
    ));
}

#[test]
fn deep_nesting_round_trips() {
    let v = Value::Object(vec![(
        String::from("outer"),
        Value::ECMAArray(vec![(
            String::from("inner"),
            Value::Array(vec![Value::Object(vec![(
                String::from("leaf"),
                Value::Date(0.0f64.to_bits()),
            )])]),
        )]),
    )]);
    round_trips(v);
}

#[test]
fn canonical_scalar_encodings() {
    assert_eq!(write_value(&Value::Null).unwrap(), vec![0x05]);
    assert_eq!(write_value(&Value::Boolean(true)).unwrap(), vec![0x01, 0x01]);
    assert_eq!(
        write_value(&Value::String(String::new())).unwrap(),
        vec![0x02, 0x00, 0x00]
    );
    assert_eq!(
        write_value(&Value::Object(vec![])).unwrap(),
        vec![0x03, 0x00, 0x00, 0x09]
    );
    assert_eq!(
        write_value(&Value::Array(vec![])).unwrap(),
        vec![0x0A, 0x00, 0x00, 0x00, 0x00]
    );
    assert_eq!(
        write_value(&Value::Number(std::f64::consts::PI.to_bits())).unwrap(),
        vec![0x00, 0x40, 0x09, 0x21, 0xFB, 0x54, 0x44, 0x2D, 0x18]
    );
}

#[test]
fn date_encodes_a_zero_timezone_offset() {
    let bytes = write_value(&Value::Date(0x4174_534E_2000_0000)).unwrap();
    assert_eq!(bytes.len(), 11);
    assert_eq!(bytes[0], 0x0B);
    assert_eq!(&bytes[9..], &[0x00, 0x00]);
}

#[test]
fn long_text_picks_the_wide_prefix() {
    let long = "x".repeat(0x1_0000);
    let bytes = write_value(&Value::String(long.clone())).unwrap();
    assert_eq!(bytes[0], 0x0C);
    let (back, _) = read_value(&bytes, 0).unwrap();
    assert_eq!(back, Value::String(long));
}

#[test]
fn boundary_length_text_keeps_the_short_prefix() {
    let edge = "y".repeat(0xFFFF);
    let bytes = write_value(&Value::String(edge.clone())).unwrap();
    assert_eq!(bytes[0], 0x02);
    let (back, _) = read_value(&bytes, 0).unwrap();
    assert_eq!(back, Value::String(edge));
}

#[test]
fn empty_property_key_has_no_encoding() {
    let v = Value::Object(vec![(String::new(), Value::Null)]);
    assert_eq!(write_value(&v), None);
}

#[test]
fn oversized_property_key_has_no_encoding() {
    let v = Value::Object(vec![(String::from("k").repeat(0x1_0000), Value::Null)]);
    assert_eq!(write_value(&v), None);
}

#[test]
fn unencodable_nested_value_has_no_encoding() {
    let v = Value::Array(vec![Value::Object(vec![(String::new(), Value::Null)])]);
    assert_eq!(write_value(&v), None);
}
