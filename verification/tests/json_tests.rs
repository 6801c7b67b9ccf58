use worker::json::JsonValue;

fn obj(members: Vec<(&str, JsonValue)>) -> JsonValue {
    JsonValue::Obj(members.into_iter().map(|(k, v)| (k.to_string(), v)).collect())
}

#[test]
fn encode_scalars() {
    assert_eq!(JsonValue::Null.encode(), b"null");
    assert_eq!(JsonValue::Bool(true).encode(), b"true");
    assert_eq!(JsonValue::Bool(false).encode(), b"false");
    assert_eq!(JsonValue::I64(0).encode(), b"0");
    assert_eq!(JsonValue::I64(-42).encode(), b"-42");
    assert_eq!(JsonValue::I64(i64::MIN).encode(), b"-9223372036854775808");
    assert_eq!(JsonValue::Milli(250).encode(), b"0.250");
    assert_eq!(JsonValue::Milli(-1500).encode(), b"-1.500");
    assert_eq!(JsonValue::Str("a\"b\\c".to_string()).encode(), b"\"a\\\"b\\\\c\"");
    assert_eq!(JsonValue::Str("\u{1}".to_string()).encode(), b"\"\\u0001\"");
}

#[test]
fn parse_roundtrip_nested() {
    let v = obj(vec![
        ("a", JsonValue::Arr(vec![JsonValue::I64(1), JsonValue::Null, JsonValue::Bool(false)])),
        ("b", obj(vec![("inner", JsonValue::Str("x y".to_string()))])),
        ("c", JsonValue::Milli(1000)),
    ]);
    let bytes = v.encode();
    let back = worker::json_parse::parse_json(&bytes).unwrap();
    assert_eq!(back.encode(), bytes);
}

#[test]
fn numbers_beyond_the_bounded_model_round_trip() {
    // exponents, long fractions, and magnitudes past i64 are kept as
    // their lexemes and re-encoded verbatim
    for lexeme in ["1e3", "0.1234", "18446744073709551615", "-1.5E-7", "2.00000", "1e+10"] {
        let doc = format!("{{\"x\":{}}}", lexeme);
        let v = worker::json_parse::parse_json(doc.as_bytes()).unwrap();
        match v.get("x").unwrap() {
            JsonValue::NumLit(s) => assert_eq!(s, lexeme),
            other => panic!("expected the raw lexeme, got {:?}", other.encode()),
        }
        assert_eq!(v.encode(), doc.as_bytes());
    }
    // short fractions and plain integers still land in the bounded model
    let v = worker::json_parse::parse_json(b"[0.25, 7, 1.000]").unwrap();
    match v {
        JsonValue::Arr(items) => {
            assert!(matches!(items[0], JsonValue::Milli(250)));
            assert!(matches!(items[1], JsonValue::I64(7)));
            assert!(matches!(items[2], JsonValue::Milli(1000)));
        }
        _ => panic!("expected an array"),
    }
}

#[test]
fn parse_tolerates_whitespace() {
    let doc = worker::json_parse::parse_json(b" { \"k\" : [ 1 , 2 ] } ").unwrap();
    let arr = doc.get("k").unwrap();
    match arr {
        JsonValue::Arr(items) => assert_eq!(items.len(), 2),
        _ => panic!("expected an array"),
    }
}

#[test]
fn parse_rejects_garbage() {
    assert!(worker::json_parse::parse_json(b"not json").is_none());
    assert!(worker::json_parse::parse_json(b"{\"k\":}").is_none());
    assert!(worker::json_parse::parse_json(b"[1,]").is_none());
    assert!(worker::json_parse::parse_json(b"").is_none());
    assert!(worker::json_parse::parse_json(b"{\"a\":1}{").is_none());
}

#[test]
fn parse_unicode_string() {
    let v = JsonValue::Str("héllo ☂".to_string());
    let bytes = v.encode();
    let back = worker::json_parse::parse_json(&bytes).unwrap();
    match back {
        JsonValue::Str(s) => assert_eq!(s, "héllo ☂"),
        _ => panic!("expected a string"),
    }
}

#[test]
fn get_finds_first_member() {
    let v = obj(vec![("k", JsonValue::I64(1)), ("k", JsonValue::I64(2))]);
    match v.get("k").unwrap() {
        JsonValue::I64(n) => assert_eq!(*n, 1),
        _ => panic!("expected a number"),
    }
    assert!(v.get("missing").is_none());
}
