//! The error taxonomy shared by one-shot requests and streams.

use vstd::prelude::*;

verus! {

/// The structured payload a client-error response carries.
#[derive(Debug)]
pub struct HorizonError {
    /// The HTTP status the payload reports.
    pub status: u16,
    /// The payload's human-readable title, as UTF-8 bytes.
    pub title: Vec<u8>,
}

/// Everything that can go wrong with a request or a stream.
#[derive(Debug)]
pub enum Error {
    /// The host string is not a valid URL.
    InvalidHost,
    /// The outgoing request could not be built.
    RequestBuildError,
    /// The connection failed before a full response arrived.
    TransportError,
    /// The server answered with a status that is neither a success nor
    /// a client error.
    ServerError,
    /// The server answered a client error with a structured payload.
    RequestError(HorizonError),
    /// The response body did not match the declared schema.
    DeserializationError,
    /// The event stream carried malformed framing.
    StreamDecodeError,
}

} // verus!
