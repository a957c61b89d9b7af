use public_ip::address::{AddrParseError, IpAddress};
use public_ip::fetch::{fetch_public_ip, normalize_timeout, BindMode, Error, CLOUDFLARE_TRACE, MIN_TIMEOUT_SECS};
use public_ip::trace::ParseError;

#[test]
fn timeout_of_zero_becomes_one() {
    assert_eq!(normalize_timeout(0), 1);
}

#[test]
fn timeout_of_one_or_more_is_kept() {
    assert_eq!(MIN_TIMEOUT_SECS, 1);
    assert_eq!(normalize_timeout(1), 1);
    assert_eq!(normalize_timeout(2), 2);
    assert_eq!(normalize_timeout(30), 30);
    assert_eq!(normalize_timeout(u64::MAX), u64::MAX);
}

#[test]
fn forced_family_binds_to_its_wildcard() {
    assert_eq!(BindMode::Default.local_address(), None);
    assert_eq!(BindMode::ForceIPv4.local_address(), Some(IpAddress::V4(0)));
    assert_eq!(BindMode::ForceIPv6.local_address(), Some(IpAddress::V6(0)));
}

#[test]
fn trace_is_asked_for_at_the_fixed_place() {
    assert_eq!(CLOUDFLARE_TRACE, "https://cloudflare.com/cdn-cgi/trace");
}

#[test]
fn failed_request_is_handed_on() {
    let outcome: Result<IpAddress, Error<&str>> = fetch_public_ip(Err("timed out"));
    assert!(matches!(outcome, Err(Error::Reqwest("timed out"))));
    let other: Result<IpAddress, Error<u32>> = fetch_public_ip(Err(504));
    assert!(matches!(other, Err(Error::Reqwest(504))));
}

#[test]
fn failed_request_of_the_client_is_handed_on() {
    let failure: reqwest::Error = reqwest::Client::new().get("no address").build().unwrap_err();
    let told: String = failure.to_string();
    match fetch_public_ip(Err(failure)) {
        Err(Error::Reqwest(e)) => {
            assert!(e.is_builder());
            assert_eq!(e.to_string(), told);
        },
        _ => panic!("the failure of the request was not handed on"),
    }
}

#[test]
fn answer_is_read_as_a_trace() {
    let v4: Result<IpAddress, Error<()>> =
        fetch_public_ip(Ok("fl=123\nip=198.51.100.7\nts=456".to_string()));
    assert!(matches!(v4, Ok(IpAddress::V4(0xC633_6407))));
    let v6: Result<IpAddress, Error<()>> = fetch_public_ip(Ok("ip=2001:db8::1\nloc=US".to_string()));
    assert!(matches!(v6, Ok(IpAddress::V6(0x2001_0db8_0000_0000_0000_0000_0000_0001))));
}

#[test]
fn answer_that_cannot_be_read_is_a_parse_error() {
    let none: Result<IpAddress, Error<()>> = fetch_public_ip(Ok("loc=US\nfl=123".to_string()));
    assert!(matches!(none, Err(Error::Parse(ParseError::NoLineStartsWithIp))));
    let changed: Result<IpAddress, Error<()>> = fetch_public_ip(Ok("ip198.51.100.7".to_string()));
    assert!(matches!(changed, Err(Error::Parse(ParseError::IpLineFormatChanged))));
    let bad: Result<IpAddress, Error<()>> = fetch_public_ip(Ok("ip=not-an-ip".to_string()));
    assert!(matches!(bad, Err(Error::Parse(ParseError::AddrParse(AddrParseError)))));
}

#[test]
fn smaller_failures_turn_into_larger_ones() {
    assert_eq!(ParseError::from(AddrParseError), ParseError::AddrParse(AddrParseError));
    let e: Error<()> = Error::from(ParseError::NoLineStartsWithIp);
    assert!(matches!(e, Error::Parse(ParseError::NoLineStartsWithIp)));
    let f: Error<String> = ParseError::IpLineFormatChanged.into();
    assert!(matches!(f, Error::Parse(ParseError::IpLineFormatChanged)));
}
