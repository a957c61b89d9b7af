//! Finds the caller's public address in the text that a trace endpoint answers with.

pub mod address;
pub mod fetch;
pub mod numeral;
pub mod text;
pub mod trace;

pub use address::{AddrParseError, IpAddress};
pub use fetch::{
    fetch_public_ip, normalize_timeout, BindMode, Error, CLOUDFLARE_TRACE, MIN_TIMEOUT_SECS,
};
pub use trace::{parse_trace, ParseError};
