use serde_tc::value::{decode_value, encode_value, DecodeError, Kind, Value};

fn text(v: &Value) -> String {
    String::from_utf8(encode_value(v)).unwrap()
}

#[test]
fn scalars_have_exact_bytes() {
    assert_eq!(text(&Value::Null), "null");
    assert_eq!(text(&Value::Bool(true)), "true");
    assert_eq!(text(&Value::Bool(false)), "false");
    assert_eq!(text(&Value::Int(0)), "0");
    assert_eq!(text(&Value::Int(-123)), "-123");
    assert_eq!(text(&Value::Int(i64::MAX)), "9223372036854775807");
    assert_eq!(text(&Value::Int(i64::MIN)), "-9223372036854775808");
}

#[test]
fn strings_are_escaped() {
    assert_eq!(text(&Value::Text("".to_owned())), r#""""#);
    assert_eq!(text(&Value::Text("a\"b\\c".to_owned())), r#""a\"b\\c""#);
    assert_eq!(text(&Value::Text("l1\nl2\t\r\u{8}\u{c}".to_owned())), r#""l1\nl2\t\r\b\f""#);
    assert_eq!(text(&Value::Text("\u{1}\u{1f}".to_owned())), r#""\u0001\u001f""#);
    assert_eq!(text(&Value::Text("héllo ✓".to_owned())), "\"héllo ✓\"");
}

#[test]
fn values_decode_back() {
    let cases = vec![
        (Value::Null, Kind::Unit),
        (Value::Bool(true), Kind::Bool),
        (Value::Bool(false), Kind::Bool),
        (Value::Int(0), Kind::Integer),
        (Value::Int(-42), Kind::Integer),
        (Value::Int(i64::MIN), Kind::Integer),
        (Value::Int(i64::MAX), Kind::Integer),
        (Value::Text("a\"b\\\n\u{2}é".to_owned()), Kind::Text),
    ];
    for (v, k) in cases {
        assert_eq!(decode_value(&encode_value(&v), k), Ok(v));
    }
}

#[test]
fn wrong_kind_is_type_mismatch() {
    assert_eq!(decode_value(&b"5".to_vec(), Kind::Text), Err(DecodeError::TypeMismatch));
    assert_eq!(decode_value(&b"\"5\"".to_vec(), Kind::Integer), Err(DecodeError::TypeMismatch));
    assert_eq!(decode_value(&b"null".to_vec(), Kind::Bool), Err(DecodeError::TypeMismatch));
}

#[test]
fn non_canonical_bytes_are_malformed() {
    for bad in [
        "", "nul", "01", "-0", "+1", "1 ", "9223372036854775808", "-9223372036854775809", "\"abc",
        "\"a\u{1}\"", "\"\\u000a\"", "\"\\/\"", "truex", "1.5",
    ] {
        assert_eq!(decode_value(&bad.as_bytes().to_vec(), Kind::Integer), Err(DecodeError::Malformed), "{}", bad);
    }
}

fn point() -> Value {
    Value::Record(vec![
        ("x".to_owned(), Value::Int(1)),
        ("tags".to_owned(), Value::List(vec![Value::Text("a".to_owned()), Value::Null])),
    ])
}

#[test]
fn sequences_and_records_have_exact_bytes() {
    assert_eq!(text(&Value::List(vec![])), "[]");
    assert_eq!(text(&Value::Record(vec![])), "{}");
    assert_eq!(text(&Value::List(vec![Value::Int(1), Value::Bool(false)])), "[1,false]");
    assert_eq!(text(&point()), r#"{"x":1,"tags":["a",null]}"#);
}

#[test]
fn sequences_and_records_decode_back() {
    let nested = Value::List(vec![point(), Value::List(vec![Value::List(vec![])]), Value::Int(-3)]);
    assert_eq!(decode_value(&encode_value(&nested), Kind::List), Ok(nested.clone()));
    assert_eq!(decode_value(&encode_value(&point()), Kind::Record), Ok(point()));
    assert_eq!(decode_value(&encode_value(&point()), Kind::List), Err(DecodeError::TypeMismatch));
    assert_eq!(decode_value(&b"[1,]".to_vec(), Kind::List), Err(DecodeError::Malformed));
    assert_eq!(decode_value(&b"{\"a\" :1}".to_vec(), Kind::Record), Err(DecodeError::Malformed));
    assert_eq!(point().clone(), point());
}
