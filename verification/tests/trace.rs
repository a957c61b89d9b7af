use public_ip::address::{parse_address, AddrParseError, IpAddress};
use public_ip::trace::{find_ip_line, find_second_field, parse_line, parse_trace, starts_with_ip, ParseError};

fn chars(s: &str) -> Vec<char> {
    s.chars().collect()
}

fn text(s: &[char]) -> String {
    s.iter().collect()
}

/// The same reading, with the line and the field found by std's own string functions.
fn by_std(body: &str) -> Result<IpAddress, ParseError> {
    let line = body
        .lines()
        .filter(|line| line.starts_with("ip"))
        .next()
        .ok_or(ParseError::NoLineStartsWithIp)?;
    let field = line.split("=").nth(1).ok_or(ParseError::IpLineFormatChanged)?;
    parse_address(field).map_err(ParseError::AddrParse)
}

#[test]
fn ipv4_between_other_lines() {
    assert_eq!(
        parse_trace("fl=123\nip=198.51.100.7\nts=456"),
        Ok(IpAddress::V4(0xC633_6407))
    );
    assert_eq!(
        parse_trace("fl=123\nip=198.51.100.7\nts=456"),
        Ok(IpAddress::V4((198 << 24) | (51 << 16) | (100 << 8) | 7))
    );
}

#[test]
fn ipv6_on_the_first_line() {
    assert_eq!(
        parse_trace("ip=2001:db8::1\nloc=US"),
        Ok(IpAddress::V6(0x2001_0db8_0000_0000_0000_0000_0000_0001))
    );
    assert_eq!(
        parse_trace("ip=2001:db8::1\nloc=US"),
        Ok(IpAddress::V6((0x2001 << 112) | (0x0db8 << 96) | 1))
    );
}

#[test]
fn no_line_starts_with_ip() {
    assert_eq!(parse_trace("loc=US\nfl=123"), Err(ParseError::NoLineStartsWithIp));
    assert_eq!(parse_trace(""), Err(ParseError::NoLineStartsWithIp));
    assert_eq!(parse_trace("\n\n"), Err(ParseError::NoLineStartsWithIp));
    assert_eq!(parse_trace(" ip=198.51.100.7"), Err(ParseError::NoLineStartsWithIp));
    assert_eq!(parse_trace("IP=198.51.100.7"), Err(ParseError::NoLineStartsWithIp));
    assert_eq!(parse_trace("i\np=198.51.100.7"), Err(ParseError::NoLineStartsWithIp));
    assert_eq!(parse_trace("loc=ip=198.51.100.7"), Err(ParseError::NoLineStartsWithIp));
}

#[test]
fn ip_line_without_equals_sign() {
    assert_eq!(parse_trace("ip198.51.100.7"), Err(ParseError::IpLineFormatChanged));
    assert_eq!(parse_trace("ip"), Err(ParseError::IpLineFormatChanged));
    assert_eq!(parse_trace("fl=1\nip 198.51.100.7\nts=2"), Err(ParseError::IpLineFormatChanged));
}

#[test]
fn value_that_is_no_address() {
    let bad: Result<IpAddress, ParseError> = Err(ParseError::AddrParse(AddrParseError));
    assert_eq!(parse_trace("ip=not-an-ip"), bad);
    assert_eq!(parse_trace("ip=notanaddress"), bad);
    assert_eq!(parse_trace("ip="), bad);
    assert_eq!(parse_trace("ip==198.51.100.7"), bad);
    assert_eq!(parse_trace("ip= 198.51.100.7"), bad);
    assert_eq!(parse_trace("ip=198.51.100.7 "), bad);
    assert_eq!(parse_trace("ip=198.51.100"), bad);
    assert_eq!(parse_trace("ip=198.51.100.256"), bad);
}

#[test]
fn first_of_several_ip_lines_is_used() {
    assert_eq!(
        parse_trace("ip=198.51.100.7\nip=203.0.113.9"),
        Ok(IpAddress::V4(0xC633_6407))
    );
    assert_eq!(
        parse_trace("ip=203.0.113.9\nfl=1\nip=198.51.100.7"),
        Ok(IpAddress::V4(0xCB00_7109))
    );
    assert_eq!(
        parse_trace("ipx\nip=198.51.100.7"),
        Err(ParseError::IpLineFormatChanged)
    );
    assert_eq!(
        parse_trace("ip=bad\nip=198.51.100.7"),
        Err(ParseError::AddrParse(AddrParseError))
    );
}

#[test]
fn address_is_found_wherever_its_line_stands() {
    let want: Result<IpAddress, ParseError> = Ok(IpAddress::V4(0xC633_6407));
    assert_eq!(parse_trace("ip=198.51.100.7"), want);
    assert_eq!(parse_trace("ip=198.51.100.7\n"), want);
    assert_eq!(parse_trace("a=1\nb=2\nc=3\nip=198.51.100.7"), want);
    assert_eq!(parse_trace("\n\nip=198.51.100.7\n\n"), want);
    assert_eq!(parse_trace("ts=456\nfl=123\nip=198.51.100.7\nloc=US"), want);
    assert_eq!(parse_trace("loc=US\nip=198.51.100.7\nfl=123\nts=456"), want);
}

#[test]
fn key_is_a_prefix_and_later_fields_are_ignored() {
    assert_eq!(parse_trace("ipv4=198.51.100.7"), Ok(IpAddress::V4(0xC633_6407)));
    assert_eq!(parse_trace("ip=198.51.100.7=more=yet"), Ok(IpAddress::V4(0xC633_6407)));
    assert_eq!(parse_trace("ip=::=1"), Ok(IpAddress::V6(0)));
}

#[test]
fn carriage_return_before_line_feed_is_dropped() {
    assert_eq!(
        parse_trace("fl=123\r\nip=198.51.100.7\r\nts=456\r\n"),
        Ok(IpAddress::V4(0xC633_6407))
    );
    assert_eq!(
        parse_trace("ip=198.51.100.7\r"),
        Err(ParseError::AddrParse(AddrParseError))
    );
    assert_eq!(
        parse_trace("ip=198.51.100.7\r\r\n"),
        Err(ParseError::AddrParse(AddrParseError))
    );
    assert_eq!(parse_trace("fl=1\rip=198.51.100.7"), Err(ParseError::NoLineStartsWithIp));
}

#[test]
fn text_beyond_ascii_is_read_by_characters() {
    assert_eq!(parse_trace("loc=Zürich\nip=198.51.100.7"), Ok(IpAddress::V4(0xC633_6407)));
    assert_eq!(
        parse_trace("ip=١٢٣.1.1.1"),
        Err(ParseError::AddrParse(AddrParseError))
    );
    assert_eq!(parse_trace("ıp=198.51.100.7"), Err(ParseError::NoLineStartsWithIp));
}

#[test]
fn key_prefix_is_told() {
    assert!(starts_with_ip(&chars("ip")));
    assert!(starts_with_ip(&chars("ip=1")));
    assert!(starts_with_ip(&chars("ipp")));
    assert!(!starts_with_ip(&chars("")));
    assert!(!starts_with_ip(&chars("i")));
    assert!(!starts_with_ip(&chars("pi")));
    assert!(!starts_with_ip(&chars("Ip=")));
    assert!(!starts_with_ip(&chars(" ip")));
}

#[test]
fn ip_line_is_found() {
    let body: Vec<char> = chars("a=1\r\nip=x\nip=y");
    assert_eq!(find_ip_line(&body).map(text), Some("ip=x".to_string()));
    let none: Vec<char> = chars("a=1\nb=2");
    assert_eq!(find_ip_line(&none).map(text), None);
}

#[test]
fn second_field_is_taken() {
    assert_eq!(find_second_field(&chars("ip=1")).map(text), Some("1".to_string()));
    assert_eq!(find_second_field(&chars("ip=1=2")).map(text), Some("1".to_string()));
    assert_eq!(find_second_field(&chars("ip=")).map(text), Some(String::new()));
    assert_eq!(find_second_field(&chars("=")).map(text), Some(String::new()));
    assert_eq!(find_second_field(&chars("ip")).map(text), None);
    assert_eq!(find_second_field(&chars("")).map(text), None);
}

#[test]
fn line_is_read() {
    assert_eq!(parse_line(&chars("ip=10.0.0.1")), Ok(IpAddress::V4(0x0A00_0001)));
    assert_eq!(parse_line(&chars("anything=::1")), Ok(IpAddress::V6(1)));
    assert_eq!(parse_line(&chars("ip")), Err(ParseError::IpLineFormatChanged));
    assert_eq!(parse_line(&chars("ip=x")), Err(ParseError::AddrParse(AddrParseError)));
}

#[test]
fn reading_agrees_with_std_on_sample_texts() {
    let bodies: [&str; 16] = [
        "fl=123\nip=198.51.100.7\nts=456",
        "ip=2001:db8::1\nloc=US",
        "loc=US\nfl=123",
        "ip198.51.100.7",
        "ip=not-an-ip",
        "",
        "\n",
        "\r\n",
        "ip=1.2.3.4\r\n",
        "ip=1.2.3.4\r",
        "h=x\r\nip=::ffff:1.2.3.4\r\n",
        "ip=1.2.3.4=5.6.7.8",
        "ip\nip=1.2.3.4",
        "x\n\nip=1:2:3:4:5:6:7:8\n",
        "ip=1:2:3:4:5:6:7:8:9",
        "warp=off\nip=0.0.0.0\n",
    ];
    for body in bodies {
        assert_eq!(parse_trace(body), by_std(body), "{:?}", body);
    }
}

#[test]
fn reading_agrees_with_std_on_all_short_texts() {
    let alphabet: [char; 7] = ['i', 'p', '=', '1', '.', '\n', '\r'];
    let mut count: u64 = 0;
    for len in 0..7usize {
        let mut index: Vec<usize> = vec![0; len];
        loop {
            let body: String = index.iter().map(|&k| alphabet[k]).collect();
            assert_eq!(parse_trace(&body), by_std(&body), "{:?}", body);
            count += 1;
            let mut pos: usize = 0;
            while pos < len {
                index[pos] += 1;
                if index[pos] < alphabet.len() {
                    break;
                }
                index[pos] = 0;
                pos += 1;
            }
            if pos == len {
                break;
            }
        }
    }
    assert_eq!(count, 1 + 7 + 49 + 343 + 2401 + 16807 + 117649);
}
