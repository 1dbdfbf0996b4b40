//! HTTP outcall data shapes.  The outcall itself is host I/O and lives with
//! the host layer; what the library owns is the response type and the
//! decoding of its body.

use vstd::prelude::*;
use vstd::utf8::{decode_utf8, valid_utf8};
use crate::error::ContragError;

verus! {

/// Client-side settings for HTTP outcalls made by the host layer.
pub struct HttpClient {
    max_response_bytes: u64,
}

impl HttpClient {
    /// The response size cap this client was created with.
    pub closed spec fn spec_max_response_bytes(&self) -> u64 {
        self.max_response_bytes
    }

    /// A client capped at 2 MB responses.
    pub fn new() -> (r: Self)
        ensures
            r.spec_max_response_bytes() == 2_000_000u64,
    {
        HttpClient { max_response_bytes: 2_000_000 }
    }

    /// The response size cap, for the host layer making the call.
    pub fn max_response_bytes(&self) -> (r: u64)
        ensures
            r == self.spec_max_response_bytes(),
    {
        self.max_response_bytes
    }
}

impl Default for HttpClient {
    fn default() -> (r: Self)
        ensures
            r.spec_max_response_bytes() == 2_000_000u64,
    {
        HttpClient::new()
    }
}

/// A response received from an HTTP outcall.
#[derive(Clone, Debug)]
pub struct HttpOutcallResponse {
    pub status: u16,
    pub headers: Vec<(String, String)>,
    pub body: Vec<u8>,
}

/// Relies on `String::from_utf8`: it succeeds exactly on valid UTF-8 input
/// and returns its decoding.
#[verifier::external_body]
fn utf8_to_string(bytes: Vec<u8>) -> (r: Option<String>)
    ensures
        r is Some <==> valid_utf8(bytes@),
        r matches Some(s) ==> s@ == decode_utf8(bytes@),
{
    String::from_utf8(bytes).ok()
}

impl HttpOutcallResponse {
    /// The body decoded as UTF-8 text; a body that is not valid UTF-8 is a
    /// serialization error.
    pub fn text(&self) -> (r: Result<String, ContragError>)
        ensures
            valid_utf8(self.body@) ==> (r matches Ok(s) && s@ == decode_utf8(self.body@)),
            !valid_utf8(self.body@) ==> (r matches Err(e)
                && (e matches ContragError::SerializationError(msg)
                    && msg@ == "Failed to parse response as UTF-8"@)),
    {
        match utf8_to_string(self.body.clone()) {
            Some(s) => Ok(s),
            None => Err(ContragError::SerializationError(String::from_str(
                "Failed to parse response as UTF-8",
            ))),
        }
    }
}

} // verus!
