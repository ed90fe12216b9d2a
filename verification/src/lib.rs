//! A small client library for configuration-driven HTTP dispatch.
//!
//! The library resolves a named source from a configuration, optionally
//! obtains an access credential through a password exchange, composes the
//! outbound POST request (URL, headers, query parameters, JSON payload),
//! and interprets the response.  All request composition and response
//! interpretation is verified; the network round trip itself is performed
//! by the embedding application, which hands the raw outcome back to the
//! library.

pub mod application;
pub mod domain;
pub mod errors;
pub mod json;
pub mod text;
pub mod transport;
