//! The failure taxonomy of a dispatch.
//!
//! No error is ever caught and retried inside the library: every failure
//! is surfaced to the caller, and [`DispatchError::message`] turns it into
//! a single human-readable line.

use vstd::prelude::*;

use crate::json::{dec_nat, u64_to_dec_string};
use crate::text::concat_strs;

verus! {

/// What can go wrong during one dispatch.
#[derive(Debug, PartialEq, Eq)]
pub enum DispatchError {
    /// The configuration holds no source of the requested name.
    ConfigError(String),
    /// The credential exchange was attempted and failed.
    AuthError(String),
    /// The network round trip of the main call failed.
    TransportError(String),
    /// The typed exchange answered with a non-success status code.
    HttpStatusError(u16),
    /// The typed exchange answered with a body that does not decode.
    DecodeError(String),
}

/// The human-readable message of an error.
pub open spec fn message_of(e: DispatchError) -> Seq<char> {
    match e {
        DispatchError::ConfigError(m) => m@,
        DispatchError::AuthError(m) => m@,
        DispatchError::TransportError(m) => m@,
        DispatchError::HttpStatusError(c) => "HTTP failed with status: "@ + dec_nat(c as nat),
        DispatchError::DecodeError(m) => m@,
    }
}

impl DispatchError {
    /// The single human-readable message that reaches the caller.
    pub fn message(&self) -> (r: String)
        ensures
            r@ == message_of(*self),
    {
        match self {
            DispatchError::ConfigError(m) => m.clone(),
            DispatchError::AuthError(m) => m.clone(),
            DispatchError::TransportError(m) => m.clone(),
            DispatchError::HttpStatusError(c) => {
                let digits = u64_to_dec_string(*c as u64);
                concat_strs("HTTP failed with status: ", digits.as_str())
            },
            DispatchError::DecodeError(m) => m.clone(),
        }
    }
}

} // verus!
