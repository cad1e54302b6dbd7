//! The client side of one tracker exchange: the fixed protocol
//! identifier, the response size cap, the error taxonomy, and the
//! verified steps around the transport.
//!
//! One call is one exchange: the caller opens a fresh connection and a
//! bidirectional stream, writes an encoded request, half-closes the
//! send side, and reads the response until the stream closes or the
//! cap is passed. There is no length prefix on a response, so the cap
//! boundary needs a convention: a response of exactly the cap whose
//! stream closed is accepted, and the driver reads one byte past the
//! cap so that a longer response is seen as over the cap rather than
//! silently truncated. The transport work itself cannot be verified;
//! the functions here pin down everything decided on this side of it.
use vstd::prelude::*;

use crate::codec::{decode_response, dec_response, enc_request, encode_request};
use crate::protocol::{Announce, Query, QueryResponse, Request, RequestV, Response, ResponseV};

verus! {

/// The protocol identifier both ends present to multiplex this
/// protocol over a shared transport.
pub const TRACKER_ALPN: &'static str = "n0/tracker/1";

/// Hard cap on the size of a response read from the stream. Reading
/// past it is an error, never a silent truncation.
pub const REQUEST_SIZE_LIMIT: usize = 1024 * 16;

/// Everything that can go wrong in one exchange, as a single tagged
/// error so a caller can tell the kinds apart.
#[derive(Debug, Clone, Copy, PartialEq, Eq, Structural)]
pub enum TrackerError {
    /// A specifier string matches none of the accepted forms.
    SpecifierParse,
    /// No connection or stream could be established to the tracker.
    Connection,
    /// A request could not be encoded; unreachable for well-formed
    /// data and kept only so the taxonomy is complete.
    Encoding,
    /// The response bytes do not decode to a response, or decode to an
    /// unrecognized variant.
    Decoding,
    /// The response passed the read cap.
    ResponseTooLarge,
}

/// The bytes to send for one announce: the announce wrapped in the
/// request union, encoded.
pub fn announce_request_bytes(a: Announce) -> (r: Vec<u8>)
    requires
        a.wf(),
    ensures
        r@ == enc_request(RequestV::Announce(a@)),
{
    encode_request(&Request::Announce(a))
}

/// The bytes to send for one query: the query wrapped in the request
/// union, encoded.
pub fn query_request_bytes(q: Query) -> (r: Vec<u8>)
    requires
        q.wf(),
    ensures
        r@ == enc_request(RequestV::Query(q@)),
{
    encode_request(&Request::Query(q))
}

/// Judge the bytes read back after an announce. The content of the
/// response is discarded; the exchange succeeds exactly when the
/// response stayed within the cap.
pub fn announce_finish(response: &Vec<u8>) -> (r: Result<(), TrackerError>)
    ensures
        r is Ok <==> response@.len() <= REQUEST_SIZE_LIMIT,
        r matches Err(e) ==> e is ResponseTooLarge,
{
    if response.len() > REQUEST_SIZE_LIMIT {
        Err(TrackerError::ResponseTooLarge)
    } else {
        Ok(())
    }
}

/// Judge the bytes read back after a query: past the cap is an error,
/// bytes that decode to a query response succeed, and anything else is
/// a decoding error.
pub fn query_finish(response: &Vec<u8>) -> (r: Result<QueryResponse, TrackerError>)
    ensures
        response@.len() > REQUEST_SIZE_LIMIT <==> (r matches Err(e) && e is ResponseTooLarge),
        response@.len() <= REQUEST_SIZE_LIMIT ==> match dec_response(response@) {
            Some(v) => r matches Ok(q) && ResponseV::QueryResponse(q@) == v && q.wf(),
            None => r matches Err(e) && e is Decoding,
        },
{
    if response.len() > REQUEST_SIZE_LIMIT {
        return Err(TrackerError::ResponseTooLarge);
    }
    match decode_response(response) {
        None => Err(TrackerError::Decoding),
        Some(Response::QueryResponse(q)) => Ok(q),
    }
}

} // verus!
