use api_client::domain::{Config, Source, StringMap};
use api_client::errors::DispatchError;
use api_client::transport::decode_auth_response;

fn source(name: &str, base_url: &str) -> Source {
    Source {
        name: name.to_string(),
        base_url: base_url.to_string(),
        username: String::new(),
        password: String::new(),
        endpoints: Vec::new(),
    }
}

#[test]
fn auth_response_deserializes_camel_case_fields() {
    let json = r#"{
            "accessKey": "abc123",
            "endDateSubscription": "2025-01-01",
            "commentRu": "ок",
            "commentEn": "ok"
        }"#;

    let resp = decode_auth_response(json).expect("valid json");
    assert_eq!(resp.access_key, "abc123");
    assert_eq!(resp.end_date_subscription, "2025-01-01");
    assert_eq!(resp.comment_ru, "ок");
    assert_eq!(resp.comment_en, "ok");
}

#[test]
fn auth_response_rejects_missing_or_mistyped_fields() {
    let missing = r#"{"accessKey":"k","endDateSubscription":"d","commentRu":"r"}"#;
    match decode_auth_response(missing) {
        Err(DispatchError::DecodeError(_)) => {}
        other => panic!("expected DecodeError, got {:?}", other),
    }
    let mistyped = r#"{"accessKey":1,"endDateSubscription":"d","commentRu":"r","commentEn":"e"}"#;
    match decode_auth_response(mistyped) {
        Err(DispatchError::DecodeError(_)) => {}
        other => panic!("expected DecodeError, got {:?}", other),
    }
    match decode_auth_response("not json") {
        Err(DispatchError::DecodeError(_)) => {}
        other => panic!("expected DecodeError, got {:?}", other),
    }
}

#[test]
fn lookup_returns_the_named_source_exactly() {
    let config = Config {
        sources: vec![source("A", "https://a.example"), source("B", "https://b.example")],
    };
    let b = config.find_source("B").expect("B exists");
    assert_eq!(b.name, "B");
    assert_eq!(b.base_url, "https://b.example");
}

#[test]
fn lookup_of_an_unknown_name_fails_with_config_error() {
    let config = Config {
        sources: vec![source("A", "https://a.example"), source("B", "https://b.example")],
    };
    match config.find_source("C") {
        Err(DispatchError::ConfigError(m)) => assert_eq!(m, "Source not found"),
        other => panic!("expected ConfigError, got {:?}", other),
    }
}

#[test]
fn lookup_with_duplicate_names_takes_the_first_match() {
    let config = Config {
        sources: vec![source("A", "https://first.example"), source("A", "https://second.example")],
    };
    let a = config.find_source("A").expect("A exists");
    assert_eq!(a.base_url, "https://first.example");
}

#[test]
fn string_map_insert_is_last_writer_wins() {
    let mut m = StringMap::new();
    m.insert("k".to_string(), "v1".to_string());
    m.insert("other".to_string(), "o".to_string());
    m.insert("k".to_string(), "v2".to_string());
    assert_eq!(m.len(), 2);
    assert_eq!(m.get("k").map(|s| s.as_str()), Some("v2"));
    assert_eq!(m.get("other").map(|s| s.as_str()), Some("o"));
    assert_eq!(m.get("missing"), None);
    assert!(m.contains_key("k"));
    assert!(!m.contains_key("K"));
}
