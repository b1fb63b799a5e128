//! Classification of HTTP status codes, shared by the one-shot request
//! dispatcher and the stream's connection check.

use vstd::prelude::*;

verus! {

/// The three kinds a response status can fall under.
#[derive(Clone, Copy, PartialEq, Eq, Structural, Debug)]
pub enum StatusKind {
    /// A 2xx status: the body carries the declared success payload.
    Success,
    /// A 4xx status: the body carries the structured error payload.
    ClientError,
    /// Any other status: no body decoding is attempted.
    ServerError,
}

/// The kind a status code belongs to: 2xx is a success, 4xx is a client
/// error, and everything else is a server error.
pub open spec fn status_kind(code: int) -> StatusKind {
    if 200 <= code && code < 300 {
        StatusKind::Success
    } else if 400 <= code && code < 500 {
        StatusKind::ClientError
    } else {
        StatusKind::ServerError
    }
}

/// Classify a status code.
pub fn classify_status(code: u16) -> (r: StatusKind)
    ensures
        r == status_kind(code as int),
{
    if 200 <= code && code < 300 {
        StatusKind::Success
    } else if 400 <= code && code < 500 {
        StatusKind::ClientError
    } else {
        StatusKind::ServerError
    }
}

/// Classification is a pure function of the status code alone: equal
/// codes are always classified alike, no matter where or how often the
/// mapping is applied, and the three kinds partition the codes by
/// range.
pub proof fn lemma_classification_pure(a: int, b: int)
    ensures
        a == b ==> status_kind(a) == status_kind(b),
        status_kind(a) is Success <==> (200 <= a && a < 300),
        status_kind(a) is ClientError <==> (400 <= a && a < 500),
        status_kind(a) is ServerError <==> (a < 200 || (300 <= a && a < 400) || 500 <= a),
{
}

} // verus!
