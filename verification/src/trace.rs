//! The trace text: lines of `key=value`, one of which reports the caller's address.

use crate::address::{
    ip_of_text, is_address_char, lemma_address_chars, parse_ip, AddrParseError, IpAddress,
};
use crate::text::{
    chars_of, lemma_first_index_is, lemma_lines_chars, lemma_split_second, lemma_split_whole,
    lines, next_line, split, split_first, starts_with,
};
use vstd::prelude::*;

verus! {

/// Why no address could be read from a trace text.
#[derive(Clone, Copy, Debug, PartialEq, Eq, Structural)]
pub enum ParseError {
    /// No line of the text starts with the key.
    NoLineStartsWithIp,
    /// The line that starts with the key has no second field.
    IpLineFormatChanged,
    /// The second field of that line does not write an address.
    AddrParse(AddrParseError),
}

impl From<AddrParseError> for ParseError {
    fn from(e: AddrParseError) -> (r: ParseError) {
        ParseError::AddrParse(e)
    }
}

impl vstd::std_specs::convert::FromSpecImpl<AddrParseError> for ParseError {
    open spec fn obeys_from_spec() -> bool {
        true
    }

    open spec fn from_spec(e: AddrParseError) -> ParseError {
        ParseError::AddrParse(e)
    }
}

/// The key that the line with the caller's address starts with.
pub open spec fn ip_key() -> Seq<char> {
    seq!['i', 'p']
}

/// Whether a line starts with the key.
pub open spec fn is_ip_line(line: Seq<char>) -> bool {
    starts_with(line, ip_key())
}

/// The first of the given lines that starts with the key.
pub open spec fn first_ip_line(ls: Seq<Seq<char>>) -> Option<Seq<char>>
    decreases ls.len(),
{
    if ls.len() == 0 {
        None
    } else if is_ip_line(ls[0]) {
        Some(ls[0])
    } else {
        first_ip_line(ls.skip(1))
    }
}

/// The second of the fields that the equals signs cut a line into, if there are two.
pub open spec fn second_field(line: Seq<char>) -> Option<Seq<char>> {
    let fields = split(line, '=');
    if fields.len() >= 2 {
        Some(fields[1])
    } else {
        None
    }
}

/// What a line that starts with the key yields: the address that its second field writes.
pub open spec fn address_of_line(line: Seq<char>) -> Result<IpAddress, ParseError> {
    match second_field(line) {
        None => Err(ParseError::IpLineFormatChanged),
        Some(field) => match ip_of_text(field) {
            Some(a) => Ok(a),
            None => Err(ParseError::AddrParse(AddrParseError)),
        },
    }
}

/// What a trace text yields: what its first line that starts with the key yields.
pub open spec fn address_of_trace(body: Seq<char>) -> Result<IpAddress, ParseError> {
    match first_ip_line(lines(body)) {
        None => Err(ParseError::NoLineStartsWithIp),
        Some(line) => address_of_line(line),
    }
}

/// Whether line `i` of `ls` is the first that starts with the key.
pub open spec fn is_first_ip_line_at(ls: Seq<Seq<char>>, i: int) -> bool {
    &&& 0 <= i < ls.len()
    &&& is_ip_line(ls[i])
    &&& forall|j: int| 0 <= j < i ==> !is_ip_line(#[trigger] ls[j])
}

/// `first_ip_line` is the line at the first position that starts with the key, and is
/// `None` only where no line does.
pub proof fn lemma_first_ip_line(ls: Seq<Seq<char>>)
    ensures
        match first_ip_line(ls) {
            Some(line) => exists|i: int| is_first_ip_line_at(ls, i) && ls[i] == line,
            None => forall|i: int| 0 <= i < ls.len() ==> !is_ip_line(#[trigger] ls[i]),
        },
    decreases ls.len(),
{
    if ls.len() == 0 {
    } else if is_ip_line(ls[0]) {
        assert(is_first_ip_line_at(ls, 0));
    } else {
        let rest = ls.skip(1);
        lemma_first_ip_line(rest);
        match first_ip_line(rest) {
            Some(line) => {
                let i = choose|i: int| is_first_ip_line_at(rest, i) && rest[i] == line;
                assert forall|j: int| 0 <= j < i + 1 implies !is_ip_line(#[trigger] ls[j]) by {
                    if j > 0 {
                        assert(ls[j] == rest[j - 1]);
                    }
                }
                assert(ls[i + 1] == rest[i]);
                assert(is_first_ip_line_at(ls, i + 1));
            },
            None => {
                assert forall|i: int| 0 <= i < ls.len() implies !is_ip_line(#[trigger] ls[i]) by {
                    if i > 0 {
                        assert(ls[i] == rest[i - 1]);
                    }
                }
            },
        }
    }
}

/// The first line that starts with the key is what `first_ip_line` gives.
pub proof fn lemma_first_ip_line_at(ls: Seq<Seq<char>>, i: int)
    requires
        is_first_ip_line_at(ls, i),
    ensures
        first_ip_line(ls) == Some(ls[i]),
{
    lemma_first_ip_line(ls);
    match first_ip_line(ls) {
        Some(line) => {
            let k = choose|k: int| is_first_ip_line_at(ls, k) && ls[k] == line;
            assert(k == i);
        },
        None => {},
    }
}

/// A text yields `NoLineStartsWithIp` exactly where none of its lines starts with the key.
pub proof fn law_no_ip_line(body: Seq<char>)
    ensures
        address_of_trace(body) == Err::<IpAddress, ParseError>(ParseError::NoLineStartsWithIp)
            <==> forall|i: int|
            0 <= i < lines(body).len() ==> !is_ip_line(#[trigger] lines(body)[i]),
{
    lemma_first_ip_line(lines(body));
    if let Some(line) = first_ip_line(lines(body)) {
        let i = choose|i: int| is_first_ip_line_at(lines(body), i) && lines(body)[i] == line;
        assert(is_ip_line(lines(body)[i]));
    }
}

/// Where several lines start with the key, the first of them alone decides what the text
/// yields.
pub proof fn law_first_ip_line_decides(body: Seq<char>, i: int)
    requires
        is_first_ip_line_at(lines(body), i),
    ensures
        address_of_trace(body) == address_of_line(lines(body)[i]),
{
    lemma_first_ip_line_at(lines(body), i);
}

/// A line yields `IpLineFormatChanged` exactly where it holds no equals sign.
pub proof fn law_format_changed(line: Seq<char>)
    ensures
        address_of_line(line) == Err::<IpAddress, ParseError>(ParseError::IpLineFormatChanged)
            <==> !line.contains('='),
{
    lemma_split_second(line, '=');
}

/// A text whose first line that starts with the key holds no equals sign yields
/// `IpLineFormatChanged`.
pub proof fn law_ip_line_without_equals(body: Seq<char>, i: int)
    requires
        is_first_ip_line_at(lines(body), i),
        !lines(body)[i].contains('='),
    ensures
        address_of_trace(body) == Err::<IpAddress, ParseError>(ParseError::IpLineFormatChanged),
{
    lemma_first_ip_line_at(lines(body), i);
    law_format_changed(lines(body)[i]);
}

/// A text that holds no equals sign at all, and a line that starts with the key, yields
/// `IpLineFormatChanged`.
pub proof fn law_trace_without_equals(body: Seq<char>, i: int)
    requires
        0 <= i < lines(body).len(),
        is_ip_line(lines(body)[i]),
        !body.contains('='),
    ensures
        address_of_trace(body) == Err::<IpAddress, ParseError>(ParseError::IpLineFormatChanged),
{
    lemma_first_ip_line(lines(body));
    lemma_lines_chars(body);
    let ls = lines(body);
    let line = first_ip_line(ls)->0;
    let k = choose|k: int| is_first_ip_line_at(ls, k) && ls[k] == line;
    if ls[k].contains('=') {
        let j = choose|j: int| 0 <= j < ls[k].len() && ls[k][j] == '=';
        assert(body.contains(ls[k][j]));
    }
    law_ip_line_without_equals(body, k);
}

/// The line made of the key, an equals sign and a text without an equals sign starts with
/// the key, and its second field is that text.
pub proof fn lemma_field_of_ip_line(text: Seq<char>)
    requires
        !text.contains('='),
    ensures
        is_ip_line(ip_key() + seq!['='] + text),
        second_field(ip_key() + seq!['='] + text) == Some(text),
{
    let line = ip_key() + seq!['='] + text;
    lemma_first_index_is(line, '=', 2);
    assert(line.skip(3) =~= text);
    lemma_split_whole(text, '=');
    assert(line.take(2) =~= ip_key());
}

/// The line made of the key, an equals sign and the text of an address yields that address.
pub proof fn law_line_of_address(text: Seq<char>, a: IpAddress)
    requires
        ip_of_text(text) == Some(a),
    ensures
        is_ip_line(ip_key() + seq!['='] + text),
        address_of_line(ip_key() + seq!['='] + text) == Ok::<IpAddress, ParseError>(a),
{
    if text.contains('=') {
        lemma_address_chars(text, '=');
    }
    lemma_field_of_ip_line(text);
}

/// The line made of the key, an equals sign and a text that holds no equals sign and writes
/// no address yields an address error.
pub proof fn law_line_of_no_address(text: Seq<char>)
    requires
        !text.contains('='),
        ip_of_text(text) is None,
    ensures
        is_ip_line(ip_key() + seq!['='] + text),
        address_of_line(ip_key() + seq!['='] + text) == Err::<IpAddress, ParseError>(
            ParseError::AddrParse(AddrParseError),
        ),
{
    lemma_field_of_ip_line(text);
}

/// A text with a line made of the key, an equals sign and the text of an address yields
/// that address, whatever its other lines are and wherever the line stands, as long as
/// every line before it that starts with the key yields that address too.
pub proof fn law_ip_line_yields_its_address(body: Seq<char>, i: int, text: Seq<char>, a: IpAddress)
    requires
        0 <= i < lines(body).len(),
        lines(body)[i] == ip_key() + seq!['='] + text,
        ip_of_text(text) == Some(a),
        forall|j: int|
            0 <= j < i && is_ip_line(#[trigger] lines(body)[j]) ==> address_of_line(
                lines(body)[j],
            ) == Ok::<IpAddress, ParseError>(a),
    ensures
        address_of_trace(body) == Ok::<IpAddress, ParseError>(a),
{
    let ls = lines(body);
    law_line_of_address(text, a);
    lemma_first_ip_line(ls);
    let line = first_ip_line(ls)->0;
    let k = choose|k: int| is_first_ip_line_at(ls, k) && ls[k] == line;
    assert(k <= i);
}

/// A text whose first line that starts with the key has a second field that writes no
/// address yields an address error; so does one whose second field holds a character that
/// no address is written with.
pub proof fn law_bad_address(body: Seq<char>, i: int, field: Seq<char>)
    requires
        is_first_ip_line_at(lines(body), i),
        second_field(lines(body)[i]) == Some(field),
        ip_of_text(field) is None || exists|j: int|
            0 <= j < field.len() && !is_address_char(#[trigger] field[j]),
    ensures
        address_of_trace(body) == Err::<IpAddress, ParseError>(
            ParseError::AddrParse(AddrParseError),
        ),
{
    lemma_first_ip_line_at(lines(body), i);
    if ip_of_text(field) is Some {
        let j = choose|j: int| 0 <= j < field.len() && !is_address_char(#[trigger] field[j]);
        lemma_address_chars(field, field[j]);
    }
}

/// Tells whether a line starts with the key.
pub fn starts_with_ip(line: &[char]) -> (b: bool)
    ensures
        b == is_ip_line(line@),
{
    if line.len() >= 2 && line[0] == 'i' && line[1] == 'p' {
        assert(line@.take(2) =~= ip_key());
        true
    } else {
        if line.len() >= 2 {
            assert(line@.take(2)[0] == line@[0]);
            assert(line@.take(2)[1] == line@[1]);
        }
        false
    }
}

/// Finds the first line of a text that starts with the key.
pub fn find_ip_line<'a>(body: &'a [char]) -> (r: Option<&'a [char]>)
    ensures
        match r {
            Some(line) => first_ip_line(lines(body@)) == Some(line@),
            None => first_ip_line(lines(body@)) is None,
        },
{
    let mut rest: &'a [char] = body;
    while rest.len() > 0
        invariant
            first_ip_line(lines(body@)) == first_ip_line(lines(rest@)),
        decreases rest@.len(),
    {
        let (line, tail) = next_line(rest);
        if starts_with_ip(line) {
            return Some(line);
        }
        assert(lines(rest@).skip(1) =~= lines(tail@));
        rest = tail;
    }
    None
}

/// Takes the second field of a line.
pub fn find_second_field<'a>(line: &'a [char]) -> (r: Option<&'a [char]>)
    ensures
        match r {
            Some(field) => second_field(line@) == Some(field@),
            None => second_field(line@) is None,
        },
{
    let (_, rest) = split_first(line, '=');
    match rest {
        None => None,
        Some(rest) => {
            let (field, _) = split_first(rest, '=');
            Some(field)
        },
    }
}

/// Reads the address that a line reports in its second field.
pub fn parse_line(line: &[char]) -> (r: Result<IpAddress, ParseError>)
    ensures
        r == address_of_line(line@),
{
    match find_second_field(line) {
        None => Err(ParseError::IpLineFormatChanged),
        Some(field) => match parse_ip(field) {
            Some(a) => Ok(a),
            None => Err(ParseError::AddrParse(AddrParseError)),
        },
    }
}

/// Reads the caller's address from a trace text: the first line that starts with `ip` is
/// cut at its equals signs, and its second field is read as an address.
pub fn parse_trace(body: &str) -> (r: Result<IpAddress, ParseError>)
    ensures
        r == address_of_trace(body@),
{
    let chars = chars_of(body);
    match find_ip_line(chars.as_slice()) {
        None => Err(ParseError::NoLineStartsWithIp),
        Some(line) => parse_line(line),
    }
}

} // verus!
