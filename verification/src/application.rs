//! The authentication strategies and the dispatch service.
//!
//! A dispatch runs in three verified decision steps, with the embedding
//! application performing the network calls between them:
//! first [`ApiService::auth_exchange`] describes the credential exchange
//! to perform (if the strategy needs one), then
//! [`ApiService::credential_outcome`] reads the credential off the
//! exchange outcome, then [`ApiService::main_request`] composes the main
//! call, and [`ApiService::main_outcome`] returns its raw text verbatim.
//! The exchange always completes fully before the main request exists.

use vstd::prelude::*;

use crate::domain::{ApiConfig, AuthRequest, StringMap};
use crate::errors::{message_of, DispatchError};
use crate::json::{json_text, JsonModel, JsonValue};
use crate::text::{concat_strs, spec_trim_trailing_slashes, trim_trailing_slashes};
use crate::transport::{
    auth_response_model, compose_post, is_success_status, raw_outcome, typed_auth_outcome,
    HttpRequest, HttpResponse,
};

verus! {

/// The model of the exchange payload: `{"username": ..., "password": ...}`.
pub open spec fn auth_request_model(username: Seq<char>, password: Seq<char>) -> JsonModel {
    JsonModel::Obj(
        seq![
            ("username"@, JsonModel::Str(username)),
            ("password"@, JsonModel::Str(password)),
        ],
    )
}

/// One credential exchange, described: where to POST and what to send.
#[derive(Debug)]
pub struct AuthExchange {
    pub url: String,
    pub request: AuthRequest,
}

impl AuthExchange {
    /// The wire request of the exchange: no headers, no query
    /// parameters, the credentials as the JSON payload.
    pub fn to_http_request(&self) -> (r: HttpRequest)
        ensures
            r.url@ == self.url@,
            r.headers@ == Map::<Seq<char>, Seq<char>>::empty(),
            r.params@ == Map::<Seq<char>, Seq<char>>::empty(),
            r.wf(),
            r.payload matches Some(p) && p@ == json_text(
                auth_request_model(self.request.username@, self.request.password@),
            ),
    {
        let mut members: Vec<(String, JsonValue)> = Vec::new();
        members.push(("username".to_owned(), JsonValue::Str(self.request.username.clone())));
        members.push(("password".to_owned(), JsonValue::Str(self.request.password.clone())));
        let body = JsonValue::Obj(members);
        proof {
            let ms = body->Obj_0@;
            let p0 = ms[0];
            let p1 = ms[1];
            assert(ms.len() == 2);
            assert(ms.drop_last() =~= seq![p0]);
            assert(ms.last() == p1);
            assert(crate::json::member_models_of(ms) == crate::json::member_models_of(
                seq![p0],
            ).push((p1.0@, crate::json::model_of(p1.1))));
            assert(seq![p0].drop_last() =~= Seq::<(String, JsonValue)>::empty());
            assert(seq![p0].last() == p0);
            assert(crate::json::member_models_of(seq![p0]) == crate::json::member_models_of(
                Seq::<(String, JsonValue)>::empty(),
            ).push((p0.0@, crate::json::model_of(p0.1))));
            assert(crate::json::member_models_of(Seq::<(String, JsonValue)>::empty())
                == Seq::<(Seq<char>, JsonModel)>::empty());
            assert(p0.0@ == "username"@);
            assert(p1.0@ == "password"@);
            assert(crate::json::model_of(p0.1) == JsonModel::Str(self.request.username@));
            assert(crate::json::model_of(p1.1) == JsonModel::Str(self.request.password@));
            assert(crate::json::member_models_of(ms) =~= seq![
                ("username"@, JsonModel::Str(self.request.username@)),
                ("password"@, JsonModel::Str(self.request.password@)),
            ]);
        }
        let payload = crate::json::to_json_text(&body);
        HttpRequest {
            url: self.url.clone(),
            headers: StringMap::new(),
            params: StringMap::new(),
            payload: Some(payload),
        }
    }
}

/// The polymorphic authentication capability.  A strategy either needs
/// no exchange, or describes the one it performs; the credential is then
/// read off the exchange outcome by [`credential_from_exchange`].
pub trait Authorizer {
    /// The exchange this strategy performs, if any: the URL it POSTs to,
    /// and the username and password it sends.
    spec fn spec_exchange(&self) -> Option<(Seq<char>, Seq<char>, Seq<char>)>;

    /// The exchange to perform, or `None` when the strategy needs none.
    fn auth_exchange(&self) -> (r: Option<AuthExchange>)
        ensures
            match r {
                Option::Some(ex) => self.spec_exchange() == Some(
                    (ex.url@, ex.request.username@, ex.request.password@),
                ),
                Option::None => self.spec_exchange() is None,
            },
    ;
}

/// The strategy for sources that need no authentication.
#[derive(Debug)]
pub struct NoAuth;

impl Authorizer for NoAuth {
    open spec fn spec_exchange(&self) -> Option<(Seq<char>, Seq<char>, Seq<char>)> {
        None
    }

    fn auth_exchange(&self) -> (r: Option<AuthExchange>) {
        None
    }
}

impl NoAuth {
    /// Always "no credential", never a failure.
    pub fn get_access_key(&self) -> (r: Result<Option<String>, DispatchError>)
        ensures
            r matches Ok(c) && c is None,
    {
        Ok(None)
    }
}

/// The password-exchange strategy: POSTs the credentials to the
/// well-known path under the source's base URL and uses the answered
/// access key.
#[derive(Debug)]
pub struct CredinformAuth {
    pub base_url: String,
    pub username: String,
    pub password: String,
}

impl CredinformAuth {
    pub fn new(base_url: String, username: String, password: String) -> (r: Self)
        ensures
            r.base_url == base_url,
            r.username == username,
            r.password == password,
    {
        CredinformAuth { base_url, username, password }
    }

    /// The exchange URL: the base URL with every trailing slash trimmed,
    /// then the fixed path.
    pub open spec fn spec_auth_url(&self) -> Seq<char> {
        spec_trim_trailing_slashes(self.base_url@) + "/Authorization/GetAccessKey"@
    }
}

impl Authorizer for CredinformAuth {
    open spec fn spec_exchange(&self) -> Option<(Seq<char>, Seq<char>, Seq<char>)> {
        Some((self.spec_auth_url(), self.username@, self.password@))
    }

    fn auth_exchange(&self) -> (r: Option<AuthExchange>) {
        let trimmed = trim_trailing_slashes(self.base_url.as_str());
        let url = concat_strs(trimmed.as_str(), "/Authorization/GetAccessKey");
        Some(
            AuthExchange {
                url,
                request: AuthRequest {
                    username: self.username.clone(),
                    password: self.password.clone(),
                },
            },
        )
    }
}

/// The credential an exchange outcome yields: the answered access key on
/// a success status and a well-formed body, else the failure's message.
pub open spec fn spec_exchange_credential(outcome: Result<HttpResponse, String>) -> Result<
    Seq<char>,
    Seq<char>,
> {
    match outcome {
        Result::Err(cause) => Err(cause@),
        Result::Ok(resp) => {
            if !is_success_status(resp.status) {
                Err(message_of(DispatchError::HttpStatusError(resp.status)))
            } else {
                match auth_response_model(resp.body@) {
                    Option::Some(flds) => Ok(flds.0),
                    Option::None => Err("invalid authorization response"@),
                }
            }
        },
    }
}

/// Reads the credential off an exchange outcome.  Every failure of the
/// exchange — transport, status, or decoding — becomes `AuthError`.
pub fn credential_from_exchange(outcome: Result<HttpResponse, String>) -> (r: Result<
    String,
    DispatchError,
>)
    ensures
        match r {
            Result::Ok(k) => spec_exchange_credential(outcome) == Ok::<Seq<char>, Seq<char>>(k@),
            Result::Err(e) => e matches DispatchError::AuthError(m) && spec_exchange_credential(
                outcome,
            ) == Err::<Seq<char>, Seq<char>>(m@),
        },
{
    match outcome {
        Result::Err(cause) => Err(DispatchError::AuthError(cause)),
        Result::Ok(resp) => match typed_auth_outcome(&resp) {
            Result::Ok(a) => Ok(a.access_key),
            Result::Err(e) => Err(DispatchError::AuthError(e.message())),
        },
    }
}

/// The single orchestration point: an authentication strategy combined
/// with request composition.  Stateless across dispatches; each call
/// works on its own copies.
#[derive(Debug)]
pub struct ApiService<A: Authorizer> {
    pub authorizer: A,
}

impl<A: Authorizer> ApiService<A> {
    pub fn new(authorizer: A) -> (r: Self)
        ensures
            r.authorizer == authorizer,
    {
        ApiService { authorizer }
    }

    /// Step one: the credential exchange to perform, if the strategy
    /// needs one.
    pub fn auth_exchange(&self) -> (r: Option<AuthExchange>)
        ensures
            match r {
                Option::Some(ex) => self.authorizer.spec_exchange() == Some(
                    (ex.url@, ex.request.username@, ex.request.password@),
                ),
                Option::None => self.authorizer.spec_exchange() is None,
            },
    {
        self.authorizer.auth_exchange()
    }

    /// Step two: the credential from the exchange outcome.  `None` is
    /// for a strategy without an exchange and yields no credential and
    /// no failure.
    pub fn credential_outcome(&self, outcome: Option<Result<HttpResponse, String>>) -> (r: Result<
        Option<String>,
        DispatchError,
    >)
        ensures
            outcome is None ==> (r matches Ok(c) && c is None),
            outcome matches Some(oc) ==> match r {
                Result::Ok(c) => c matches Some(k) && spec_exchange_credential(oc) == Ok::<
                    Seq<char>,
                    Seq<char>,
                >(k@),
                Result::Err(e) => e matches DispatchError::AuthError(m)
                    && spec_exchange_credential(oc) == Err::<Seq<char>, Seq<char>>(m@),
            },
    {
        match outcome {
            Option::None => Ok(None),
            Option::Some(oc) => match credential_from_exchange(oc) {
                Result::Ok(k) => Ok(Some(k)),
                Result::Err(e) => Err(e),
            },
        }
    }

    /// Steps two and three of the dispatch contract: the main request.
    /// The URL is the verbatim concatenation of base URL and endpoint
    /// URL (no separator normalization); a present credential is written
    /// under the reserved `accessKey` header, overwriting any
    /// caller-supplied value; without a credential the headers pass
    /// through unchanged; a `Null` body carries no payload.  The
    /// endpoint description itself is never mutated.
    pub fn main_request(&self, api: &ApiConfig, base_url: &str, credential: Option<&String>) -> (r:
        HttpRequest)
        requires
            api.wf(),
        ensures
            r.url@ == base_url@ + api.url@,
            r.params@ == api.params@,
            r.wf(),
            credential matches Some(k) ==> r.headers@ == api.headers@.insert("accessKey"@, k@),
            credential is None ==> r.headers@ == api.headers@,
            api.body@ is Null ==> r.payload is None,
            !(api.body@ is Null) ==> (r.payload matches Some(p) && p@ == json_text(api.body@)),
    {
        let url = concat_strs(base_url, api.url.as_str());
        let mut req = compose_post(url.as_str(), &api.headers, &api.params, &api.body);
        match credential {
            Option::Some(k) => {
                req.headers.insert("accessKey".to_owned(), k.clone());
            },
            Option::None => {},
        }
        req
    }

    /// The last step: the raw response text verbatim — this path never
    /// inspects the status code; only a transport failure is an error.
    pub fn main_outcome(&self, outcome: Result<HttpResponse, String>) -> (r: Result<
        String,
        DispatchError,
    >)
        ensures
            outcome matches Ok(resp) ==> (r matches Ok(t) && t == resp.body),
            outcome matches Err(cause) ==> (r matches Err(e) && (e matches
            DispatchError::TransportError(m) && m == cause)),
    {
        raw_outcome(outcome)
    }
}

/// Law: injecting a credential touches only the reserved key.  The
/// reserved header afterwards holds exactly the credential, whatever the
/// caller supplied under it, and every other header passes through
/// unchanged.
pub proof fn lemma_access_key_injection(headers: Map<Seq<char>, Seq<char>>, k: Seq<char>)
    ensures
        headers.insert("accessKey"@, k)["accessKey"@] == k,
        headers.insert("accessKey"@, k).contains_key("accessKey"@),
        forall|key: Seq<char>|
            key != "accessKey"@ ==> (headers.insert("accessKey"@, k).contains_key(key)
                <==> headers.contains_key(key)),
        forall|key: Seq<char>|
            key != "accessKey"@ && headers.contains_key(key) ==> headers.insert("accessKey"@, k)[key]
                == headers[key],
{
}

} // verus!
