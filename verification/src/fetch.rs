//! The request for the trace text, and what its outcome means.

use crate::address::IpAddress;
use crate::trace::{address_of_trace, parse_trace, ParseError};
use vstd::prelude::*;

verus! {

/// Where the trace text is asked for.
pub const CLOUDFLARE_TRACE: &'static str = "https://cloudflare.com/cdn-cgi/trace";

/// The smallest request timeout, in seconds, that is ever used.
pub const MIN_TIMEOUT_SECS: u64 = 1;

/// Why the public address could not be found. `E` is the error type of the HTTP client that
/// made the request; a value of it is only handed on.
#[derive(Debug)]
pub enum Error<E> {
    /// The web request failed.
    Reqwest(E),
    /// The answer could not be read.
    Parse(ParseError),
}

impl<E> From<ParseError> for Error<E> {
    fn from(e: ParseError) -> (r: Error<E>) {
        Error::Parse(e)
    }
}

impl<E> vstd::std_specs::convert::FromSpecImpl<ParseError> for Error<E> {
    open spec fn obeys_from_spec() -> bool {
        true
    }

    open spec fn from_spec(e: ParseError) -> Error<E> {
        Error::Parse(e)
    }
}

/// The address family that the outgoing connection is forced to use.
#[derive(Clone, Copy, Debug, PartialEq, Eq, Structural)]
pub enum BindMode {
    /// Whichever family the system routes by default.
    Default,
    /// Version 4 only.
    ForceIPv4,
    /// Version 6 only.
    ForceIPv6,
}

impl BindMode {
    /// The local address that selects the family: the all-zero address of the forced
    /// family, and none where no family is forced.
    pub open spec fn wildcard(self) -> Option<IpAddress> {
        match self {
            BindMode::Default => None,
            BindMode::ForceIPv4 => Some(IpAddress::V4(0)),
            BindMode::ForceIPv6 => Some(IpAddress::V6(0)),
        }
    }

    /// The local address to bind the outgoing connection to, if any.
    pub fn local_address(&self) -> (r: Option<IpAddress>)
        ensures
            r == self.wildcard(),
    {
        match self {
            BindMode::Default => None,
            BindMode::ForceIPv4 => Some(IpAddress::V4(0)),
            BindMode::ForceIPv6 => Some(IpAddress::V6(0)),
        }
    }
}

/// Raises a requested timeout to the minimum where it lies below it.
pub fn normalize_timeout(secs: u64) -> (r: u64)
    ensures
        r == if secs < MIN_TIMEOUT_SECS {
            MIN_TIMEOUT_SECS
        } else {
            secs
        },
{
    if secs < MIN_TIMEOUT_SECS {
        MIN_TIMEOUT_SECS
    } else {
        secs
    }
}

/// What the outcome of the request for the trace text means.
pub open spec fn outcome_of_response<E>(response: Result<String, E>) -> Result<
    IpAddress,
    Error<E>,
> {
    match response {
        Err(e) => Err(Error::Reqwest(e)),
        Ok(body) => match address_of_trace(body@) {
            Ok(a) => Ok(a),
            Err(e) => Err(Error::Parse(e)),
        },
    }
}

/// Finds the public address in the outcome of the request for the trace text. A failed
/// request is handed on as it is; the body of an answer is read as a trace text.
pub fn fetch_public_ip<E>(response: Result<String, E>) -> (r: Result<IpAddress, Error<E>>)
    ensures
        r == outcome_of_response(response),
{
    match response {
        Err(e) => Err(Error::Reqwest(e)),
        Ok(body) => match parse_trace(body.as_str()) {
            Ok(a) => Ok(a),
            Err(e) => Err(Error::Parse(e)),
        },
    }
}

} // verus!
