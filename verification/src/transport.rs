//! The transport layer, as far as it decides anything: composing the one
//! outbound POST request, and interpreting a response.
//!
//! The network round trip itself is outside the library; the embedding
//! application sends an [`HttpRequest`] and hands back an
//! [`HttpResponse`] (or the transport failure's description).

use vstd::prelude::*;

use crate::domain::{AuthResponse, StringMap};
use crate::errors::DispatchError;
use crate::json::{
    json_text, obj_lookup, parse_json, sp_json, to_json_text, JsonModel, JsonValue,
};

verus! {

/// One outbound POST, fully composed: target URL, headers, single-valued
/// query parameters, and the JSON payload text (`None`: no payload).
#[derive(Debug)]
pub struct HttpRequest {
    pub url: String,
    pub headers: StringMap,
    pub params: StringMap,
    pub payload: Option<String>,
}

impl HttpRequest {
    pub open spec fn wf(&self) -> bool {
        self.headers.wf() && self.params.wf()
    }
}

/// What came back: the numeric status code and the full body as text.
#[derive(Debug)]
pub struct HttpResponse {
    pub status: u16,
    pub body: String,
}

/// A success status code.
pub open spec fn is_success_status(code: u16) -> bool {
    200 <= code < 300
}

pub fn status_is_success(code: u16) -> (r: bool)
    ensures
        r == is_success_status(code),
{
    200 <= code && code < 300
}

/// Composes the one outbound POST: the URL verbatim, every header, every
/// query parameter, and the serialized body unless it is the `Null`
/// sentinel, in which case no payload is carried.
pub fn compose_post(url: &str, headers: &StringMap, params: &StringMap, body: &JsonValue) -> (r:
    HttpRequest)
    requires
        headers.wf(),
        params.wf(),
    ensures
        r.url@ == url@,
        r.headers@ == headers@,
        r.params@ == params@,
        r.wf(),
        body@ is Null ==> r.payload is None,
        !(body@ is Null) ==> (r.payload matches Some(p) && p@ == json_text(body@)),
{
    let payload: Option<String> = match body {
        JsonValue::Null => None,
        _ => Some(to_json_text(body)),
    };
    HttpRequest {
        url: url.to_owned(),
        headers: headers.duplicate(),
        params: params.duplicate(),
        payload,
    }
}

/// The four authentication fields of a decoded document, when it is an
/// object binding each fixed camel-case name to a string.
pub open spec fn auth_fields_of(m: JsonModel) -> Option<
    (Seq<char>, Seq<char>, Seq<char>, Seq<char>),
> {
    match m {
        JsonModel::Obj(ms) => {
            match (
                obj_lookup(ms, "accessKey"@),
                obj_lookup(ms, "endDateSubscription"@),
                obj_lookup(ms, "commentRu"@),
                obj_lookup(ms, "commentEn"@),
            ) {
                (
                    Option::Some(JsonModel::Str(a)),
                    Option::Some(JsonModel::Str(d)),
                    Option::Some(JsonModel::Str(r)),
                    Option::Some(JsonModel::Str(e)),
                ) => Some((a, d, r, e)),
                _ => None,
            }
        },
        _ => None,
    }
}

/// The decoded authentication answer of a response body, if the body is
/// such a document.
pub open spec fn auth_response_model(body: Seq<char>) -> Option<
    (Seq<char>, Seq<char>, Seq<char>, Seq<char>),
> {
    match sp_json(body) {
        Option::Some(m) => auth_fields_of(m),
        Option::None => None,
    }
}

/// Decodes the credential-exchange answer: succeeds exactly when the
/// body parses to an object with the four fixed string fields, and then
/// returns those fields without loss.
pub fn decode_auth_response(body: &str) -> (r: Result<AuthResponse, DispatchError>)
    ensures
        match r {
            Result::Ok(a) => auth_response_model(body@) == Some(
                (a.access_key@, a.end_date_subscription@, a.comment_ru@, a.comment_en@),
            ),
            Result::Err(e) => auth_response_model(body@) is None && (e matches
            DispatchError::DecodeError(m) && m@ == "invalid authorization response"@),
        },
{
    match parse_json(body) {
        Option::None => Err(
            DispatchError::DecodeError("invalid authorization response".to_owned()),
        ),
        Option::Some(v) => {
            match v.obj_get("accessKey") {
                Option::Some(JsonValue::Str(ak)) => {
                    match v.obj_get("endDateSubscription") {
                        Option::Some(JsonValue::Str(ed)) => {
                            match v.obj_get("commentRu") {
                                Option::Some(JsonValue::Str(cr)) => {
                                    match v.obj_get("commentEn") {
                                        Option::Some(JsonValue::Str(ce)) => Ok(
                                            AuthResponse {
                                                access_key: ak.clone(),
                                                end_date_subscription: ed.clone(),
                                                comment_ru: cr.clone(),
                                                comment_en: ce.clone(),
                                            },
                                        ),
                                        _ => Err(
                                            DispatchError::DecodeError(
                                                "invalid authorization response".to_owned(),
                                            ),
                                        ),
                                    }
                                },
                                _ => Err(
                                    DispatchError::DecodeError(
                                        "invalid authorization response".to_owned(),
                                    ),
                                ),
                            }
                        },
                        _ => Err(
                            DispatchError::DecodeError(
                                "invalid authorization response".to_owned(),
                            ),
                        ),
                    }
                },
                _ => Err(
                    DispatchError::DecodeError("invalid authorization response".to_owned()),
                ),
            }
        },
    }
}

/// The decision rule of the typed exchange: a non-success status fails
/// with `HttpStatusError` carrying the code, before any decoding; on a
/// success status the body must decode.
pub fn typed_auth_outcome(resp: &HttpResponse) -> (r: Result<AuthResponse, DispatchError>)
    ensures
        !is_success_status(resp.status) ==> r == Err::<AuthResponse, DispatchError>(
            DispatchError::HttpStatusError(resp.status),
        ),
        is_success_status(resp.status) ==> match r {
            Result::Ok(a) => auth_response_model(resp.body@) == Some(
                (a.access_key@, a.end_date_subscription@, a.comment_ru@, a.comment_en@),
            ),
            Result::Err(e) => auth_response_model(resp.body@) is None && (e matches
            DispatchError::DecodeError(m) && m@ == "invalid authorization response"@),
        },
{
    if !status_is_success(resp.status) {
        return Err(DispatchError::HttpStatusError(resp.status));
    }
    decode_auth_response(resp.body.as_str())
}

/// The rule of the raw-text path: the body comes back verbatim whatever
/// the status code says; only a transport-level failure is an error,
/// surfaced as `TransportError` with the underlying cause.
pub fn raw_outcome(outcome: Result<HttpResponse, String>) -> (r: Result<String, DispatchError>)
    ensures
        outcome matches Ok(resp) ==> (r matches Ok(t) && t == resp.body),
        outcome matches Err(cause) ==> (r matches Err(e) && (e matches
        DispatchError::TransportError(m) && m == cause)),
{
    match outcome {
        Result::Ok(resp) => Ok(resp.body),
        Result::Err(cause) => Err(DispatchError::TransportError(cause)),
    }
}

} // verus!
