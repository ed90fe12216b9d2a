use api_client::application::{
    credential_from_exchange, ApiService, Authorizer, CredinformAuth, NoAuth,
};
use api_client::domain::{ApiConfig, StringMap};
use api_client::errors::DispatchError;
use api_client::json::JsonValue;
use api_client::transport::{typed_auth_outcome, HttpResponse};

fn ping_endpoint(body: JsonValue) -> ApiConfig {
    let mut params = StringMap::new();
    params.insert("q".to_string(), "1".to_string());
    ApiConfig {
        name: "ping".to_string(),
        url: "/v1/ping".to_string(),
        headers: StringMap::new(),
        params,
        body,
    }
}

#[test]
fn auth_url_is_trimmed_base_plus_fixed_path() {
    let auth = CredinformAuth::new(
        "https://x.test///".to_string(),
        "user".to_string(),
        "pass".to_string(),
    );
    let exchange = auth.auth_exchange().expect("password auth exchanges");
    assert_eq!(exchange.url, "https://x.test/Authorization/GetAccessKey");
    assert_eq!(exchange.request.username, "user");
    assert_eq!(exchange.request.password, "pass");
}

#[test]
fn exchange_request_carries_the_credentials_as_json() {
    let auth = CredinformAuth::new(
        "https://x.test".to_string(),
        "u1".to_string(),
        "p1".to_string(),
    );
    let req = auth.auth_exchange().unwrap().to_http_request();
    assert_eq!(req.url, "https://x.test/Authorization/GetAccessKey");
    assert_eq!(req.headers.len(), 0);
    assert_eq!(req.params.len(), 0);
    assert_eq!(
        req.payload.as_deref(),
        Some("{\"username\":\"u1\",\"password\":\"p1\"}")
    );
}

#[test]
fn successful_exchange_yields_the_access_key() {
    let body = "{\"accessKey\":\"abc123\",\"endDateSubscription\":\"2025-01-01\",\
                \"commentRu\":\"ок\",\"commentEn\":\"ok\"}";
    let outcome = Ok(HttpResponse { status: 200, body: body.to_string() });
    assert_eq!(credential_from_exchange(outcome), Ok("abc123".to_string()));

    let auth = CredinformAuth::new(
        "https://x.test".to_string(),
        "user".to_string(),
        "pass".to_string(),
    );
    let service = ApiService::new(auth);
    assert!(service.auth_exchange().is_some());
    let mocked = Ok(HttpResponse { status: 200, body: body.to_string() });
    let credential = service
        .credential_outcome(Some(mocked))
        .expect("exchange succeeds");
    assert_eq!(credential, Some("abc123".to_string()));
}

#[test]
fn typed_exchange_fails_with_the_status_code() {
    let resp = HttpResponse { status: 503, body: "{}".to_string() };
    match typed_auth_outcome(&resp) {
        Err(DispatchError::HttpStatusError(code)) => assert_eq!(code, 503),
        other => panic!("expected HttpStatusError, got {:?}", other),
    }
    let err = DispatchError::HttpStatusError(503).message();
    assert_eq!(err, "HTTP failed with status: 503");
}

#[test]
fn failed_exchange_becomes_auth_error() {
    let outcome = Ok(HttpResponse { status: 403, body: String::new() });
    match credential_from_exchange(outcome) {
        Err(DispatchError::AuthError(m)) => assert_eq!(m, "HTTP failed with status: 403"),
        other => panic!("expected AuthError, got {:?}", other),
    }
    let transport_failure = Err("connection refused".to_string());
    match credential_from_exchange(transport_failure) {
        Err(DispatchError::AuthError(m)) => assert_eq!(m, "connection refused"),
        other => panic!("expected AuthError, got {:?}", other),
    }
}

#[test]
fn credential_overrides_caller_supplied_access_key_header() {
    let service = ApiService::new(NoAuth);
    let mut api = ping_endpoint(JsonValue::Null);
    api.headers
        .insert("accessKey".to_string(), "stale".to_string());
    api.headers.insert("X-Other".to_string(), "kept".to_string());
    let key = "fresh".to_string();
    let req = service.main_request(&api, "https://x.test", Some(&key));
    assert_eq!(req.headers.get("accessKey").map(|s| s.as_str()), Some("fresh"));
    assert_eq!(req.headers.get("X-Other").map(|s| s.as_str()), Some("kept"));
}

#[test]
fn without_credential_headers_pass_through_unchanged() {
    let service = ApiService::new(NoAuth);
    let mut api = ping_endpoint(JsonValue::Null);
    api.headers
        .insert("accessKey".to_string(), "caller-supplied".to_string());
    let req = service.main_request(&api, "https://x.test", None);
    assert_eq!(
        req.headers.get("accessKey").map(|s| s.as_str()),
        Some("caller-supplied")
    );
    let bare = service.main_request(&ping_endpoint(JsonValue::Null), "https://x.test", None);
    assert_eq!(bare.headers.get("accessKey"), None);
    assert_eq!(bare.headers.len(), 0);
}

#[test]
fn null_body_sends_no_payload_and_other_bodies_serialize() {
    let service = ApiService::new(NoAuth);
    let req = service.main_request(&ping_endpoint(JsonValue::Null), "https://x.test", None);
    assert_eq!(req.payload, None);
    let body = JsonValue::Obj(vec![("q".to_string(), JsonValue::Int(1))]);
    let req2 = service.main_request(&ping_endpoint(body), "https://x.test", None);
    assert_eq!(req2.payload.as_deref(), Some("{\"q\":1}"));
}

#[test]
fn no_auth_dispatch_end_to_end() {
    let service = ApiService::new(NoAuth);
    assert!(service.auth_exchange().is_none());
    let credential = service
        .credential_outcome(None)
        .expect("no-auth never fails");
    assert_eq!(credential, None);
    let api = ping_endpoint(JsonValue::Null);
    let req = service.main_request(&api, "https://x.test", credential.as_ref());
    assert_eq!(req.url, "https://x.test/v1/ping");
    assert_eq!(req.headers.len(), 0);
    assert_eq!(req.params.get("q").map(|s| s.as_str()), Some("1"));
    assert_eq!(req.payload, None);
    let served = service.main_outcome(Ok(HttpResponse {
        status: 200,
        body: "pong".to_string(),
    }));
    assert_eq!(served, Ok("pong".to_string()));
}

#[test]
fn raw_path_returns_body_verbatim_even_on_error_status() {
    let service = ApiService::new(NoAuth);
    let served = service.main_outcome(Ok(HttpResponse {
        status: 500,
        body: "oops but still text".to_string(),
    }));
    assert_eq!(served, Ok("oops but still text".to_string()));
    match service.main_outcome(Err("dns failure".to_string())) {
        Err(DispatchError::TransportError(m)) => assert_eq!(m, "dns failure"),
        other => panic!("expected TransportError, got {:?}", other),
    }
}

#[test]
fn no_auth_get_access_key_is_always_absent() {
    assert_eq!(NoAuth.get_access_key(), Ok(None));
}

#[test]
fn url_concatenation_is_verbatim() {
    let service = ApiService::new(NoAuth);
    let mut api = ping_endpoint(JsonValue::Null);
    api.url = "v1/ping".to_string();
    let req = service.main_request(&api, "https://x.test/", None);
    assert_eq!(req.url, "https://x.test/v1/ping");
    let req2 = service.main_request(&api, "https://x.test", None);
    // no separator is invented: the caller's strings are joined as given
    assert_eq!(req2.url, "https://x.testv1/ping");
}
