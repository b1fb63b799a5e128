//! One-shot request dispatch: once the transport has produced a full
//! response, classify the status and decode the body.

use vstd::prelude::*;
use crate::error::Error;
use crate::horizon_error::{decode_horizon_error, parse_horizon_error};
use crate::status::{classify_status, status_kind, StatusKind};

verus! {

/// Handle a complete response to a one-shot request. A success status
/// hands the body back unchanged for the request's own schema decoder;
/// a client error decodes the shared error payload, a payload that
/// does not match the schema being a deserialization error; any other
/// status is a server error, with no body decoding attempted.
pub fn process_response(status: u16, body: Vec<u8>) -> (r: Result<Vec<u8>, Error>)
    ensures
        status_kind(status as int) is Success ==> (r matches Ok(b) && b@ == body@),
        status_kind(status as int) is ClientError ==> match parse_horizon_error(body@) {
            Some(p) => r matches Err(Error::RequestError(e)) && e.status == p.0 && e.title@
                == p.1,
            None => r matches Err(e) && e is DeserializationError,
        },
        status_kind(status as int) is ServerError ==> (r matches Err(e) && e is ServerError),
{
    match classify_status(status) {
        StatusKind::Success => Ok(body),
        StatusKind::ClientError => match decode_horizon_error(&body) {
            Some(e) => Err(Error::RequestError(e)),
            None => Err(Error::DeserializationError),
        },
        StatusKind::ServerError => Err(Error::ServerError),
    }
}

} // verus!
