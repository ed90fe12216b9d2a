use api_client::json::{parse_json, to_json_text, u64_to_dec_string, JsonValue};

fn obj(members: Vec<(&str, JsonValue)>) -> JsonValue {
    JsonValue::Obj(members.into_iter().map(|(k, v)| (k.to_string(), v)).collect())
}

#[test]
fn serializes_null_and_booleans() {
    assert_eq!(to_json_text(&JsonValue::Null), "null");
    assert_eq!(to_json_text(&JsonValue::Bool(true)), "true");
    assert_eq!(to_json_text(&JsonValue::Bool(false)), "false");
}

#[test]
fn serializes_integers() {
    assert_eq!(to_json_text(&JsonValue::Int(0)), "0");
    assert_eq!(to_json_text(&JsonValue::Int(42)), "42");
    assert_eq!(to_json_text(&JsonValue::Int(-7)), "-7");
    assert_eq!(
        to_json_text(&JsonValue::Int(i64::MIN)),
        "-9223372036854775808"
    );
    assert_eq!(
        to_json_text(&JsonValue::Int(i64::MAX)),
        "9223372036854775807"
    );
}

#[test]
fn serializes_strings_with_escapes() {
    assert_eq!(
        to_json_text(&JsonValue::Str("hello".to_string())),
        "\"hello\""
    );
    assert_eq!(
        to_json_text(&JsonValue::Str("a\"b\\c".to_string())),
        "\"a\\\"b\\\\c\""
    );
    assert_eq!(
        to_json_text(&JsonValue::Str("line\nbreak".to_string())),
        "\"line\\u000abreak\""
    );
}

#[test]
fn serializes_arrays_and_objects() {
    let v = JsonValue::Arr(vec![
        JsonValue::Int(1),
        JsonValue::Str("x".to_string()),
        JsonValue::Null,
    ]);
    assert_eq!(to_json_text(&v), "[1,\"x\",null]");
    let o = obj(vec![
        ("a", JsonValue::Int(1)),
        ("b", JsonValue::Arr(vec![])),
    ]);
    assert_eq!(to_json_text(&o), "{\"a\":1,\"b\":[]}");
}

#[test]
fn parses_simple_documents() {
    assert_eq!(parse_json("null"), Some(JsonValue::Null));
    assert_eq!(parse_json("  true "), Some(JsonValue::Bool(true)));
    assert_eq!(parse_json("-12"), Some(JsonValue::Int(-12)));
    assert_eq!(
        parse_json("\"ab\""),
        Some(JsonValue::Str("ab".to_string()))
    );
    assert_eq!(
        parse_json("[1, 2]"),
        Some(JsonValue::Arr(vec![JsonValue::Int(1), JsonValue::Int(2)]))
    );
    assert_eq!(parse_json("[]"), Some(JsonValue::Arr(vec![])));
    assert_eq!(parse_json("{}"), Some(JsonValue::Obj(vec![])));
}

#[test]
fn parses_escapes_and_unicode() {
    assert_eq!(
        parse_json("\"a\\nb\""),
        Some(JsonValue::Str("a\nb".to_string()))
    );
    assert_eq!(
        parse_json("\"\\u0041\\u00e9\""),
        Some(JsonValue::Str("A\u{e9}".to_string()))
    );
    assert_eq!(
        parse_json("\"\\\"\\\\\\/\""),
        Some(JsonValue::Str("\"\\/".to_string()))
    );
}

#[test]
fn parses_nested_objects_with_whitespace() {
    let text = "{ \"a\" : [ 1 , { \"b\" : \"c\" } ] }";
    let expected = obj(vec![(
        "a",
        JsonValue::Arr(vec![
            JsonValue::Int(1),
            obj(vec![("b", JsonValue::Str("c".to_string()))]),
        ]),
    )]);
    assert_eq!(parse_json(text), Some(expected));
}

#[test]
fn rejects_malformed_documents() {
    assert_eq!(parse_json(""), None);
    assert_eq!(parse_json("nul"), None);
    assert_eq!(parse_json("1 2"), None);
    assert_eq!(parse_json("1.5"), None);
    assert_eq!(parse_json("1e3"), None);
    assert_eq!(parse_json("[1,]"), None);
    assert_eq!(parse_json("{\"a\"}"), None);
    assert_eq!(parse_json("\"unterminated"), None);
    assert_eq!(parse_json("\"raw\ncontrol\""), None);
    assert_eq!(parse_json("\"\\uD800\""), None);
    // one past i64::MAX
    assert_eq!(parse_json("9223372036854775808"), None);
    assert_eq!(parse_json("-9223372036854775809"), None);
}

#[test]
fn parses_extreme_integers() {
    assert_eq!(
        parse_json("9223372036854775807"),
        Some(JsonValue::Int(i64::MAX))
    );
    assert_eq!(
        parse_json("-9223372036854775808"),
        Some(JsonValue::Int(i64::MIN))
    );
}

#[test]
fn round_trips_representable_values() {
    let samples = vec![
        JsonValue::Null,
        JsonValue::Bool(false),
        JsonValue::Int(-123456789),
        JsonValue::Int(i64::MIN),
        JsonValue::Str("plain".to_string()),
        JsonValue::Str("quotes \" and \\ and \tcontrol\u{1}".to_string()),
        JsonValue::Str("кириллица".to_string()),
        JsonValue::Arr(vec![
            JsonValue::Int(0),
            JsonValue::Arr(vec![JsonValue::Bool(true)]),
            JsonValue::Str("".to_string()),
        ]),
        JsonValue::Obj(vec![
            ("k".to_string(), JsonValue::Null),
            (
                "nested".to_string(),
                JsonValue::Obj(vec![("x".to_string(), JsonValue::Int(-1))]),
            ),
        ]),
    ];
    for v in samples {
        let text = to_json_text(&v);
        assert_eq!(parse_json(&text), Some(v));
    }
}

#[test]
fn serializer_output_is_json_for_other_decoders() {
    let v = obj(vec![
        ("n", JsonValue::Int(-5)),
        ("s", JsonValue::Str("a\"b\u{7}".to_string())),
        ("l", JsonValue::Arr(vec![JsonValue::Bool(true), JsonValue::Null])),
    ]);
    let text = to_json_text(&v);
    let decoded: serde_json::Value = serde_json::from_str(&text).expect("valid json");
    assert_eq!(decoded.get("n").and_then(|x| x.as_i64()), Some(-5));
    assert_eq!(
        decoded.get("s").and_then(|x| x.as_str()),
        Some("a\"b\u{7}")
    );
    assert_eq!(
        decoded
            .get("l")
            .and_then(|x| x.get(0))
            .and_then(|x| x.as_bool()),
        Some(true)
    );
}

#[test]
fn formats_decimals() {
    assert_eq!(u64_to_dec_string(0), "0");
    assert_eq!(u64_to_dec_string(407), "407");
    assert_eq!(u64_to_dec_string(u64::MAX), "18446744073709551615");
}
