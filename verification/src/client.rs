//! The immutable client value: a validated host and the name/version
//! pair attached to every outgoing request as identification headers.
//! The transport itself lives with the caller; the client only carries
//! what every request and stream reads.

use vstd::prelude::*;
use vstd::string::StringExecFns;
use crate::error::Error;

verus! {

/// Whether `url::Url::parse` accepts `s`; a function of the string
/// alone.
pub uninterp spec fn url_accepts(s: Seq<char>) -> bool;

/// Relies on url::Url::parse: whether a host string parses as a URL
/// depends on the string alone.
#[verifier::external_body]
fn host_is_valid(s: &str) -> (r: bool)
    ensures
        r == url_accepts(s@),
{
    url::Url::parse(s).is_ok()
}

/// The immutable client value. Created once, shared read-only by all
/// requests and streams, never mutated.
pub struct HorizonHttpClient {
    /// The validated host URL string.
    pub host: String,
    /// The value of the `X-Client-Name` header.
    pub client_name: String,
    /// The value of the `X-Client-Version` header.
    pub client_version: String,
}

impl HorizonHttpClient {
    /// A client for the given host, when the host is a valid URL, and
    /// `InvalidHost` exactly otherwise.
    pub fn new_from_str(host: &str) -> (r: Result<HorizonHttpClient, Error>)
        ensures
            url_accepts(host@) ==> (r matches Ok(c) && c.host@ == host@ && c.client_name@
                == "aurora-rs/stellar-sdk"@ && c.client_version@ == "0.1.0"@),
            !url_accepts(host@) ==> (r matches Err(e) && e is InvalidHost),
    {
        if host_is_valid(host) {
            Ok(
                HorizonHttpClient {
                    host: String::from_str(host),
                    client_name: String::from_str("aurora-rs/stellar-sdk"),
                    client_version: String::from_str("0.1.0"),
                },
            )
        } else {
            Err(Error::InvalidHost)
        }
    }

}

} // verus!
