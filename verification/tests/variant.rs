use data_plumber::state::{Document, RelationalValue, Variant};
use data_plumber::PipelineError;
use serde_json::{Number, Value};

fn document(value: &Value) -> Document {
    match value {
        Value::Null => Document::Null,
        Value::Bool(b) => Document::Bool(*b),
        Value::Number(n) => match n.as_i128() {
            Some(i) => Document::Int(i),
            None => Document::Float(n.to_string()),
        },
        Value::String(s) => Document::String(s.clone()),
        Value::Array(items) => Document::Array(items.iter().map(document).collect()),
        Value::Object(members) => {
            Document::Object(members.iter().map(|(k, v)| (k.clone(), document(v))).collect())
        }
    }
}

fn value(document: &Document) -> Value {
    match document {
        Document::Null => Value::Null,
        Document::Bool(b) => Value::Bool(*b),
        Document::Int(i) => Value::Number(Number::from_i128(*i).unwrap()),
        Document::Float(text) => {
            Value::Number(Number::from_f64(text.parse::<f64>().unwrap()).unwrap())
        }
        Document::String(s) => Value::String(s.clone()),
        Document::Array(items) => Value::Array(items.iter().map(value).collect()),
        Document::Object(members) => {
            Value::Object(members.iter().map(|(k, v)| (k.clone(), value(v))).collect())
        }
    }
}

fn float(x: f64) -> Variant {
    Variant::Float(Number::from_f64(x).unwrap().to_string())
}

fn serialized(v: &Variant) -> String {
    serde_json::to_string(&value(&v.to_serde_value())).unwrap()
}

fn deserialized(text: &str) -> Variant {
    let parsed: Value = serde_json::from_str(text).unwrap();
    Variant::from_serde_value(&document(&parsed)).unwrap()
}

#[test]
fn test_serialize_string() {
    let v = Variant::String("hello".to_string());
    let s = serialized(&v);
    assert_eq!(s, "\"hello\"");
    assert_eq!(v.display(), "\"hello\"");
}

#[test]
fn test_deserialize_string() {
    let s = "\"hello\"";
    let v: Variant = deserialized(s);
    assert_eq!(v, Variant::String("hello".to_string()));
}

#[test]
fn test_serialize_int() {
    let v = Variant::Int(123);
    let s = serialized(&v);
    assert_eq!(s, "123");
    assert_eq!(v.display(), "123");
}

#[test]
fn test_deserialize_int() {
    let s = "123";
    let v: Variant = deserialized(s);
    assert_eq!(v, Variant::Int(123));
}

#[test]
fn test_serialize_float() {
    let v = float(123.45);
    let s = serialized(&v);
    assert_eq!(s, "123.45");
    assert_eq!(v.display(), "123.45");
}

#[test]
fn test_deserialize_float() {
    let s = "123.45";
    let v: Variant = deserialized(s);
    assert_eq!(v, float(123.45));
}

#[test]
fn display_is_the_text_of_the_document() {
    assert_eq!(Variant::Null.display(), "null");
    assert_eq!(Variant::Int(0).display(), "0");
    assert_eq!(Variant::Int(-45).display(), "-45");
    assert_eq!(Variant::Int(i64::MIN).display(), "-9223372036854775808");
    assert_eq!(Variant::Int(i64::MAX).display(), "9223372036854775807");
    assert_eq!(Variant::String("a\"b\\c\n".to_string()).display(), "\"a\\\"b\\\\c\\n\"");
    assert_eq!(Variant::String(String::new()).display(), "\"\"");
    assert_eq!(float(5.9).display(), "5.9");
    for v in [Variant::Null, Variant::Int(7), Variant::String("x y".to_string()), float(0.25)] {
        assert_eq!(v.display(), value(&v.to_serde_value()).to_string());
    }
}

#[test]
fn equality_tells_the_kinds_apart() {
    assert_eq!(Variant::Int(1), Variant::Int(1));
    assert_ne!(Variant::Int(1), Variant::Int(2));
    assert_ne!(Variant::Int(1), float(1.0));
    assert_ne!(Variant::Int(1), Variant::String("1".to_string()));
    assert_ne!(Variant::Null, Variant::String("null".to_string()));
    assert_eq!(Variant::Null, Variant::Null);
    assert_eq!(float(2.5), float(2.5));
    assert_ne!(Variant::String("a".to_string()), Variant::String("b".to_string()));
}

#[test]
fn values_come_back_from_their_documents() {
    for v in [
        Variant::Null,
        Variant::String("hello".to_string()),
        Variant::Int(-3),
        Variant::Int(i64::MAX),
        float(1.5),
    ] {
        assert_eq!(Variant::from_serde_value(&v.to_serde_value()).unwrap(), v);
    }
}

#[test]
fn values_come_back_from_their_relational_values() {
    for v in [
        Variant::Null,
        Variant::String("héllo".to_string()),
        Variant::Int(-3),
        Variant::Int(i64::MIN),
        float(1.5),
    ] {
        assert_eq!(Variant::from_mysql_value(v.to_mysql_value()).unwrap(), v);
    }
}

#[test]
fn relational_values_map_to_the_four_kinds() {
    assert_eq!(Variant::from_mysql_value(RelationalValue::Null), Ok(Variant::Null));
    assert_eq!(
        Variant::from_mysql_value(RelationalValue::Bytes(b"abc".to_vec())),
        Ok(Variant::String("abc".to_string()))
    );
    assert_eq!(Variant::from_mysql_value(RelationalValue::Int(-5)), Ok(Variant::Int(-5)));
    assert_eq!(Variant::from_mysql_value(RelationalValue::UInt(5)), Ok(Variant::Int(5)));
    assert_eq!(
        Variant::from_mysql_value(RelationalValue::UInt(u64::MAX)),
        Ok(Variant::Int(u64::MAX as i64))
    );
    assert_eq!(
        Variant::from_mysql_value(RelationalValue::UInt(1 << 63)),
        Ok(Variant::Int(i64::MIN))
    );
    assert_eq!(
        Variant::from_mysql_value(RelationalValue::Float("1.5".to_string())),
        Ok(float(1.5))
    );
    assert_eq!(
        Variant::from_mysql_value(RelationalValue::Double("2.25".to_string())),
        Ok(float(2.25))
    );
    match Variant::String("ab".to_string()).to_mysql_value() {
        RelationalValue::Bytes(bytes) => assert_eq!(bytes, b"ab".to_vec()),
        other => panic!("{:?}", other),
    }
    match float(2.5).to_mysql_value() {
        RelationalValue::Double(text) => assert_eq!(text, "2.5"),
        other => panic!("{:?}", other),
    }
}

#[test]
fn unsupported_kinds_are_refused() {
    assert_eq!(
        Variant::from_mysql_value(RelationalValue::Other),
        Err(PipelineError::UnsupportedValueKind)
    );
    assert_eq!(
        Variant::from_mysql_value(RelationalValue::Bytes(vec![0xff, 0xfe])),
        Err(PipelineError::UnsupportedValueKind)
    );
    for text in ["[1]", "{\"a\": 1}", "true", "18446744073709551615"] {
        let parsed: Value = serde_json::from_str(text).unwrap();
        assert_eq!(
            Variant::from_serde_value(&document(&parsed)),
            Err(PipelineError::UnsupportedValueKind),
            "{}",
            text
        );
    }
}

fn expected_quoted(text: &str) -> String {
    let mut out = String::from("\"");
    for c in text.chars() {
        match c {
            '"' => out.push_str("\\\""),
            '\\' => out.push_str("\\\\"),
            '\u{8}' => out.push_str("\\b"),
            '\t' => out.push_str("\\t"),
            '\n' => out.push_str("\\n"),
            '\u{c}' => out.push_str("\\f"),
            '\r' => out.push_str("\\r"),
            c if (c as u32) < 0x20 => {
                let digits = b"0123456789abcdef";
                out.push_str("\\u00");
                out.push(digits[(c as usize) / 16] as char);
                out.push(digits[(c as usize) % 16] as char);
            }
            c => out.push(c),
        }
    }
    out.push('"');
    out
}

#[test]
fn strings_are_quoted_character_by_character() {
    for code in 0u32..0x250 {
        let c = char::from_u32(code).unwrap();
        let text = format!("a{}b", c);
        assert_eq!(Variant::String(text.clone()).display(), expected_quoted(&text), "{}", code);
    }
    for text in ["", "\u{1f}\u{0}\u{7f}", "日本語 \u{10ffff}", "\\\"\\", "/"] {
        assert_eq!(Variant::String(text.to_string()).display(), expected_quoted(text));
    }
    assert_eq!(Variant::String("\u{1}\u{1e}".to_string()).display(), "\"\\u0001\\u001e\"");
}

#[test]
fn integers_are_written_in_decimal() {
    for i in [0i64, 1, 9, 10, 11, 99, 100, 101, -1, -9, -10, -100, 1234567890123456789] {
        assert_eq!(Variant::Int(i).display(), format!("{}", i));
    }
}
