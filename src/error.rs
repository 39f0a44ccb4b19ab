//! Errors surfaced to callers of the client and the resolver.
use vstd::prelude::*;

verus! {

/// Why a request or a resolution failed.
#[derive(Debug, Clone, PartialEq, Eq)]
pub enum ClientError {
    /// The request did not complete (connection, DNS or TLS failure).
    Transport(String),
    /// The response status was not in `200..=299`; holds the status code.
    HttpStatus(u16),
    /// A successful response whose body did not match the expected schema;
    /// holds the raw body, verbatim.
    Decode(String),
    /// A relation URL whose last path segment is not an item identifier;
    /// holds that URL.
    DataIntegrity(String),
}

} // verus!
