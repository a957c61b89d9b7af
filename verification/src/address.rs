//! Internet addresses and their textual syntax.

use crate::numeral::{
    all_dec_digits, all_hex_digits, is_dec_digit, is_hex_digit, lemma_dec_value_bound,
    lemma_hex_value_bound, numeral_value, parse_dec, parse_hex,
};
use crate::text::{chars_of, lemma_split_covers, split, split_all};
use vstd::prelude::*;
use vstd::slice::slice_subrange;

verus! {

/// An internet address of either family, held as the number that its bytes spell in
/// network order: the first octet, or the first group, weighs most.
#[derive(Clone, Copy, Debug, PartialEq, Eq, Structural)]
pub enum IpAddress {
    /// A version 4 address: four octets.
    V4(u32),
    /// A version 6 address: eight groups of sixteen bits.
    V6(u128),
}

/// The failure to read a text as an address of either family.
#[derive(Clone, Copy, Debug, PartialEq, Eq, Structural)]
pub struct AddrParseError;

/// Whether `s` writes one octet of a dotted quad: one to three decimal digits, with no zero
/// in front of another digit, that stand for at most 255.
pub open spec fn is_octet_text(s: Seq<char>) -> bool {
    &&& 1 <= s.len() <= 3
    &&& all_dec_digits(s)
    &&& (s.len() == 1 || s[0] != '0')
    &&& numeral_value(s, 10) <= 255
}

/// Whether `s` writes one group of a version 6 address: one to four hexadecimal digits.
pub open spec fn is_group_text(s: Seq<char>) -> bool {
    1 <= s.len() <= 4 && all_hex_digits(s)
}

/// The group that a group text stands for.
pub open spec fn group_value(s: Seq<char>) -> u16 {
    numeral_value(s, 16) as u16
}

/// Four octets as one number, the first weighing most.
pub open spec fn pack_octets(a: int, b: int, c: int, d: int) -> u32 {
    (((a * 256 + b) * 256 + c) * 256 + d) as u32
}

/// Eight groups as one number, the first weighing most.
pub open spec fn pack_groups(g: Seq<u16>) -> u128 {
    (((((((g[0] as int * 65536 + g[1]) * 65536 + g[2]) * 65536 + g[3]) * 65536 + g[4]) * 65536
        + g[5]) * 65536 + g[6]) * 65536 + g[7]) as u128
}

/// The version 4 address that `s` writes, if it writes one: four octets with a full stop
/// between each two.
pub open spec fn ipv4_of_text(s: Seq<char>) -> Option<u32> {
    let parts = split(s, '.');
    if parts.len() == 4 && is_octet_text(parts[0]) && is_octet_text(parts[1]) && is_octet_text(
        parts[2],
    ) && is_octet_text(parts[3]) {
        Some(
            pack_octets(
                numeral_value(parts[0], 10),
                numeral_value(parts[1], 10),
                numeral_value(parts[2], 10),
                numeral_value(parts[3], 10),
            ),
        )
    } else {
        None
    }
}

/// Reads one octet of a dotted quad.
pub fn parse_octet(s: &[char]) -> (r: Option<u32>)
    ensures
        r == if is_octet_text(s@) {
            Some(numeral_value(s@, 10) as u32)
        } else {
            None
        },
        r matches Some(v) ==> v == numeral_value(s@, 10) && v <= 255,
{
    if s.len() > 1 && s[0] == '0' {
        return None;
    }
    match parse_dec(s) {
        Some(v) => {
            proof {
                lemma_dec_value_bound(s@);
            }
            if v <= 255 {
                Some(v)
            } else {
                None
            }
        },
        None => None,
    }
}

/// Reads a version 4 address in dotted quad form.
pub fn parse_ipv4(s: &[char]) -> (r: Option<u32>)
    ensures
        r == ipv4_of_text(s@),
{
    let parts = split_all(s, '.');
    if parts.len() != 4 {
        return None;
    }
    let a = match parse_octet(parts[0]) {
        Some(v) => v,
        None => {
            return None;
        },
    };
    let b = match parse_octet(parts[1]) {
        Some(v) => v,
        None => {
            return None;
        },
    };
    let c = match parse_octet(parts[2]) {
        Some(v) => v,
        None => {
            return None;
        },
    };
    let d = match parse_octet(parts[3]) {
        Some(v) => v,
        None => {
            return None;
        },
    };
    Some(((a * 256 + b) * 256 + c) * 256 + d)
}

/// The position of the first pair of colons in `s`, if there is one.
pub open spec fn first_gap(s: Seq<char>) -> Option<int>
    decreases s.len(),
{
    if s.len() < 2 {
        None
    } else if s[0] == ':' && s[1] == ':' {
        Some(0)
    } else {
        match first_gap(s.skip(1)) {
            Some(k) => Some(k + 1),
            None => None,
        }
    }
}

/// Whether two colons stand at positions `i` and `i + 1` of `s`.
pub open spec fn gap_at(s: Seq<char>, i: int) -> bool {
    0 <= i && i + 1 < s.len() && s[i] == ':' && s[i + 1] == ':'
}

/// `first_gap` is a pair of colons with none before it, and is `None` only where `s` has no
/// such pair.
pub proof fn lemma_first_gap(s: Seq<char>)
    ensures
        match first_gap(s) {
            Some(k) => gap_at(s, k) && forall|j: int| 0 <= j < k ==> !gap_at(s, j),
            None => forall|j: int| !gap_at(s, j),
        },
    decreases s.len(),
{
    if s.len() < 2 {
    } else if s[0] == ':' && s[1] == ':' {
    } else {
        let t = s.skip(1);
        lemma_first_gap(t);
        assert forall|j: int| gap_at(s, j) implies gap_at(t, j - 1) by {
            assert(t[j - 1] == s[j]);
            assert(t[j] == s[j + 1]);
        }
        match first_gap(t) {
            Some(k) => {
                assert(t[k] == s[k + 1]);
                assert(t[k + 1] == s[k + 2]);
                assert forall|j: int| 0 <= j < k + 1 implies !gap_at(s, j) by {
                    if gap_at(s, j) {
                        assert(gap_at(t, j - 1));
                    }
                }
            },
            None => {
                assert forall|j: int| !gap_at(s, j) by {
                    if gap_at(s, j) {
                        assert(gap_at(t, j - 1));
                    }
                }
            },
        }
    }
}

/// A run of `n` groups that are all zero.
pub open spec fn zero_groups(n: int) -> Seq<u16> {
    Seq::new(n as nat, |i: int| 0u16)
}

/// The groups that a list of group texts with a colon between each two stands for. With
/// `quad`, the last item may be a dotted quad instead, which stands for two groups. The
/// empty text stands for no group.
pub open spec fn groups_of_text(s: Seq<char>, quad: bool) -> Option<Seq<u16>> {
    let parts = split(s, ':');
    let n = parts.len() - 1;
    let front = Seq::new(n as nat, |i: int| group_value(parts[i]));
    if s.len() == 0 {
        Some(Seq::empty())
    } else if exists|i: int| 0 <= i < n && !is_group_text(#[trigger] parts[i]) {
        None
    } else if is_group_text(parts[n]) {
        Some(front.push(group_value(parts[n])))
    } else if quad && ipv4_of_text(parts[n]) is Some {
        let v = ipv4_of_text(parts[n])->0;
        Some(front.push((v / 65536) as u16).push((v % 65536) as u16))
    } else {
        None
    }
}

/// The version 6 address that `s` writes, if it writes one. Without a pair of colons, `s`
/// lists all eight groups. With one, the groups before the first pair are the first of the
/// address, the groups after it the last, and the pair stands for the zero groups between
/// them, of which there is at least one. A dotted quad may stand for the last two groups.
pub open spec fn ipv6_of_text(s: Seq<char>) -> Option<u128> {
    match first_gap(s) {
        None => match groups_of_text(s, true) {
            Some(g) => if g.len() == 8 {
                Some(pack_groups(g))
            } else {
                None
            },
            None => None,
        },
        Some(k) => match (groups_of_text(s.take(k), false), groups_of_text(s.skip(k + 2), true)) {
            (Some(h), Some(t)) => if h.len() + t.len() <= 7 {
                Some(pack_groups(h + zero_groups(8 - h.len() - t.len()) + t))
            } else {
                None
            },
            _ => None,
        },
    }
}

/// The address that `s` writes, if it writes one of either family.
pub open spec fn ip_of_text(s: Seq<char>) -> Option<IpAddress> {
    match ipv4_of_text(s) {
        Some(v) => Some(IpAddress::V4(v)),
        None => match ipv6_of_text(s) {
            Some(v) => Some(IpAddress::V6(v)),
            None => None,
        },
    }
}

/// Whether `c` can occur in the text of an address: a hexadecimal digit, a full stop or a
/// colon.
pub open spec fn is_address_char(c: char) -> bool {
    is_hex_digit(c) || c == '.' || c == ':'
}

/// A dotted quad holds decimal digits and full stops only.
pub proof fn lemma_ipv4_chars(s: Seq<char>, x: char)
    requires
        ipv4_of_text(s) is Some,
        s.contains(x),
    ensures
        is_dec_digit(x) || x == '.',
{
    if x != '.' {
        lemma_split_covers(s, '.', x);
        let parts = split(s, '.');
        let i = choose|i: int| 0 <= i < parts.len() && (#[trigger] parts[i]).contains(x);
        assert(is_octet_text(parts[i]));
    }
}

/// A list of groups holds address characters only.
pub proof fn lemma_groups_chars(s: Seq<char>, quad: bool, x: char)
    requires
        groups_of_text(s, quad) is Some,
        s.contains(x),
    ensures
        is_address_char(x),
{
    if x != ':' {
        lemma_split_covers(s, ':', x);
        let parts = split(s, ':');
        let n = parts.len() - 1;
        let i = choose|i: int| 0 <= i < parts.len() && (#[trigger] parts[i]).contains(x);
        if i < n {
            assert(is_group_text(parts[i]));
        } else if is_group_text(parts[n]) {
        } else {
            lemma_ipv4_chars(parts[n], x);
        }
    }
}

/// Every character of a text that writes an address is an address character.
pub proof fn lemma_address_chars(s: Seq<char>, x: char)
    requires
        ip_of_text(s) is Some,
        s.contains(x),
    ensures
        is_address_char(x),
{
    if ipv4_of_text(s) is Some {
        lemma_ipv4_chars(s, x);
    } else {
        lemma_first_gap(s);
        let j = choose|j: int| 0 <= j < s.len() && s[j] == x;
        match first_gap(s) {
            None => {
                lemma_groups_chars(s, true, x);
            },
            Some(k) => {
                if j < k {
                    assert(s.take(k)[j] == x);
                    lemma_groups_chars(s.take(k), false, x);
                } else if j >= k + 2 {
                    assert(s.skip(k + 2)[j - k - 2] == x);
                    lemma_groups_chars(s.skip(k + 2), true, x);
                }
            },
        }
    }
}

/// Reads one group of a version 6 address.
pub fn parse_group(s: &[char]) -> (r: Option<u16>)
    ensures
        r == if is_group_text(s@) {
            Some(group_value(s@))
        } else {
            None
        },
{
    match parse_hex(s) {
        Some(v) => {
            proof {
                lemma_hex_value_bound(s@);
            }
            Some(v as u16)
        },
        None => None,
    }
}

/// Finds the first pair of colons.
pub fn find_gap(s: &[char]) -> (r: Option<usize>)
    ensures
        match r {
            Some(k) => first_gap(s@) == Some(k as int),
            None => first_gap(s@) is None,
        },
{
    if s.len() < 2 {
        return None;
    }
    let mut i: usize = 0;
    while i + 1 < s.len()
        invariant
            i + 1 <= s.len(),
            forall|j: int| 0 <= j < i ==> !gap_at(s@, j),
        decreases s.len() - i,
    {
        if s[i] == ':' && s[i + 1] == ':' {
            proof {
                lemma_first_gap(s@);
                assert(gap_at(s@, i as int));
            }
            return Some(i);
        }
        i = i + 1;
    }
    proof {
        lemma_first_gap(s@);
        if let Some(k) = first_gap(s@) {
            assert(gap_at(s@, k));
        }
    }
    None
}

/// Reads a list of groups with a colon between each two; with `quad`, the last item may be
/// a dotted quad.
pub fn parse_groups(s: &[char], quad: bool) -> (r: Option<Vec<u16>>)
    ensures
        match r {
            Some(v) => groups_of_text(s@, quad) == Some(v@),
            None => groups_of_text(s@, quad) is None,
        },
{
    let mut groups: Vec<u16> = Vec::new();
    if s.len() == 0 {
        assert(groups@ =~= Seq::<u16>::empty());
        return Some(groups);
    }
    let parts = split_all(s, ':');
    let ghost texts = split(s@, ':');
    assert(texts.len() >= 1);
    let n = parts.len() - 1;
    let mut i: usize = 0;
    while i < n
        invariant
            i <= n,
            n == parts@.len() - 1,
            texts == split(s@, ':'),
            parts@.len() == texts.len(),
            forall|j: int| 0 <= j < parts@.len() ==> (#[trigger] parts@[j])@ == texts[j],
            forall|j: int| 0 <= j < i ==> is_group_text(#[trigger] texts[j]),
            groups@ == Seq::new(i as nat, |j: int| group_value(texts[j])),
        decreases n - i,
    {
        match parse_group(parts[i]) {
            Some(g) => {
                groups.push(g);
            },
            None => {
                assert(!is_group_text(texts[i as int]));
                return None;
            },
        }
        i = i + 1;
        assert(groups@ =~= Seq::new(i as nat, |j: int| group_value(texts[j])));
    }
    match parse_group(parts[n]) {
        Some(g) => {
            groups.push(g);
            Some(groups)
        },
        None => {
            if !quad {
                return None;
            }
            match parse_ipv4(parts[n]) {
                Some(v) => {
                    groups.push((v / 65536) as u16);
                    groups.push((v % 65536) as u16);
                    Some(groups)
                },
                None => None,
            }
        },
    }
}

/// Packs eight groups into one number.
pub fn pack(g: &Vec<u16>) -> (r: u128)
    requires
        g@.len() == 8,
    ensures
        r == pack_groups(g@),
{
    let a: u128 = g[0] as u128 * 65536 + g[1] as u128;
    let b: u128 = (a * 65536 + g[2] as u128) * 65536 + g[3] as u128;
    let c: u128 = (b * 65536 + g[4] as u128) * 65536 + g[5] as u128;
    (c * 65536 + g[6] as u128) * 65536 + g[7] as u128
}

/// Reads a version 6 address.
pub fn parse_ipv6(s: &[char]) -> (r: Option<u128>)
    ensures
        r == ipv6_of_text(s@),
{
    match find_gap(s) {
        None => match parse_groups(s, true) {
            Some(g) => if g.len() == 8 {
                Some(pack(&g))
            } else {
                None
            },
            None => None,
        },
        Some(k) => {
            let end = s.len();
            proof {
                lemma_first_gap(s@);
                assert(gap_at(s@, k as int));
            }
            let head = match parse_groups(slice_subrange(s, 0, k), false) {
                Some(h) => h,
                None => {
                    return None;
                },
            };
            let tail = match parse_groups(slice_subrange(s, k + 2, end), true) {
                Some(t) => t,
                None => {
                    return None;
                },
            };
            if head.len() > 7 || tail.len() > 7 - head.len() {
                return None;
            }
            let ghost h = head@;
            let gap: usize = 8 - head.len() - tail.len();
            let mut groups = head;
            let mut i: usize = 0;
            while i < gap
                invariant
                    i <= gap,
                    groups@ == h + zero_groups(i as int),
                decreases gap - i,
            {
                groups.push(0);
                i = i + 1;
                assert(groups@ =~= h + zero_groups(i as int));
            }
            let mut j: usize = 0;
            while j < tail.len()
                invariant
                    j <= tail.len(),
                    groups@ == h + zero_groups(gap as int) + tail@.take(j as int),
                decreases tail.len() - j,
            {
                groups.push(tail[j]);
                j = j + 1;
                assert(groups@ =~= h + zero_groups(gap as int) + tail@.take(j as int));
            }
            assert(tail@.take(j as int) =~= tail@);
            Some(pack(&groups))
        },
    }
}

/// Reads the characters of an address of either family.
pub fn parse_ip(s: &[char]) -> (r: Option<IpAddress>)
    ensures
        r == ip_of_text(s@),
{
    match parse_ipv4(s) {
        Some(v) => Some(IpAddress::V4(v)),
        None => match parse_ipv6(s) {
            Some(v) => Some(IpAddress::V6(v)),
            None => None,
        },
    }
}

/// Reads an address of either family from its text.
pub fn parse_address(text: &str) -> (r: Result<IpAddress, AddrParseError>)
    ensures
        r == match ip_of_text(text@) {
            Some(a) => Ok::<IpAddress, AddrParseError>(a),
            None => Err(AddrParseError),
        },
{
    let chars = chars_of(text);
    match parse_ip(chars.as_slice()) {
        Some(a) => Ok(a),
        None => Err(AddrParseError),
    }
}

} // verus!
