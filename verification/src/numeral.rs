//! Numerals: digits, and the number that a run of digits stands for.

use vstd::prelude::*;

verus! {

/// Whether `c` is one of the ten decimal digits.
pub open spec fn is_dec_digit(c: char) -> bool {
    '0' <= c <= '9'
}

/// Whether `c` is a hexadecimal digit, in either case.
pub open spec fn is_hex_digit(c: char) -> bool {
    ('0' <= c <= '9') || ('a' <= c <= 'f') || ('A' <= c <= 'F')
}

/// The number that a digit stands for: 0 to 9 for a decimal digit, 10 to 15 for the letters.
pub open spec fn digit_value(c: char) -> int {
    if '0' <= c <= '9' {
        c as int - '0' as int
    } else if 'a' <= c <= 'f' {
        c as int - 'a' as int + 10
    } else {
        c as int - 'A' as int + 10
    }
}

/// The number that the digits of `s` stand for in the given radix, the first digit weighing
/// most. The empty numeral stands for 0.
pub open spec fn numeral_value(s: Seq<char>, radix: int) -> int
    decreases s.len(),
{
    if s.len() == 0 {
        0
    } else {
        numeral_value(s.drop_last(), radix) * radix + digit_value(s.last())
    }
}

/// Whether every character of `s` is a decimal digit.
pub open spec fn all_dec_digits(s: Seq<char>) -> bool {
    forall|i: int| 0 <= i < s.len() ==> is_dec_digit(#[trigger] s[i])
}

/// Whether every character of `s` is a hexadecimal digit.
pub open spec fn all_hex_digits(s: Seq<char>) -> bool {
    forall|i: int| 0 <= i < s.len() ==> is_hex_digit(#[trigger] s[i])
}

/// The value of a decimal digit, or `None` for any other character.
pub fn dec_digit(c: char) -> (r: Option<u32>)
    ensures
        r == if is_dec_digit(c) {
            Some(digit_value(c) as u32)
        } else {
            None
        },
{
    if '0' <= c && c <= '9' {
        Some(c as u32 - '0' as u32)
    } else {
        None
    }
}

/// The value of a hexadecimal digit, or `None` for any other character.
pub fn hex_digit(c: char) -> (r: Option<u32>)
    ensures
        r == if is_hex_digit(c) {
            Some(digit_value(c) as u32)
        } else {
            None
        },
{
    if '0' <= c && c <= '9' {
        Some(c as u32 - '0' as u32)
    } else if 'a' <= c && c <= 'f' {
        Some(c as u32 - 'a' as u32 + 10)
    } else if 'A' <= c && c <= 'F' {
        Some(c as u32 - 'A' as u32 + 10)
    } else {
        None
    }
}

/// A decimal numeral of at most three digits stands for less than a thousand.
pub proof fn lemma_dec_value_bound(s: Seq<char>)
    requires
        all_dec_digits(s),
        s.len() <= 3,
    ensures
        0 <= numeral_value(s, 10),
        s.len() == 0 ==> numeral_value(s, 10) == 0,
        s.len() == 1 ==> numeral_value(s, 10) < 10,
        s.len() == 2 ==> numeral_value(s, 10) < 100,
        s.len() == 3 ==> numeral_value(s, 10) < 1000,
    decreases s.len(),
{
    if s.len() > 0 {
        let t = s.drop_last();
        assert forall|i: int| 0 <= i < t.len() implies is_dec_digit(#[trigger] t[i]) by {
            assert(t[i] == s[i]);
        }
        lemma_dec_value_bound(t);
        assert(is_dec_digit(s[s.len() - 1]));
    }
}

/// A hexadecimal numeral of at most four digits stands for less than 65536.
pub proof fn lemma_hex_value_bound(s: Seq<char>)
    requires
        all_hex_digits(s),
        s.len() <= 4,
    ensures
        0 <= numeral_value(s, 16),
        s.len() == 0 ==> numeral_value(s, 16) == 0,
        s.len() == 1 ==> numeral_value(s, 16) < 16,
        s.len() == 2 ==> numeral_value(s, 16) < 256,
        s.len() == 3 ==> numeral_value(s, 16) < 4096,
        s.len() == 4 ==> numeral_value(s, 16) < 65536,
    decreases s.len(),
{
    if s.len() > 0 {
        let t = s.drop_last();
        assert forall|i: int| 0 <= i < t.len() implies is_hex_digit(#[trigger] t[i]) by {
            assert(t[i] == s[i]);
        }
        lemma_hex_value_bound(t);
        assert(is_hex_digit(s[s.len() - 1]));
    }
}

/// Reads a decimal numeral of one to three digits.
pub fn parse_dec(s: &[char]) -> (r: Option<u32>)
    ensures
        r == if 1 <= s@.len() <= 3 && all_dec_digits(s@) {
            Some(numeral_value(s@, 10) as u32)
        } else {
            None
        },
{
    if s.len() == 0 || s.len() > 3 {
        return None;
    }
    let mut acc: u32 = 0;
    let mut i: usize = 0;
    while i < s.len()
        invariant
            i <= s.len() <= 3,
            all_dec_digits(s@.take(i as int)),
            acc == numeral_value(s@.take(i as int), 10),
        decreases s.len() - i,
    {
        proof {
            lemma_dec_value_bound(s@.take(i as int));
        }
        match dec_digit(s[i]) {
            Some(d) => {
                acc = acc * 10 + d;
            },
            None => {
                return None;
            },
        }
        i = i + 1;
        assert(s@.take(i as int).drop_last() =~= s@.take(i - 1));
        assert forall|j: int| 0 <= j < i implies is_dec_digit(#[trigger] s@.take(i as int)[j]) by {
            if j < i - 1 {
                assert(s@.take(i - 1)[j] == s@[j]);
            }
        }
    }
    assert(s@.take(i as int) =~= s@);
    Some(acc)
}

/// Reads a hexadecimal numeral of one to four digits.
pub fn parse_hex(s: &[char]) -> (r: Option<u32>)
    ensures
        r == if 1 <= s@.len() <= 4 && all_hex_digits(s@) {
            Some(numeral_value(s@, 16) as u32)
        } else {
            None
        },
{
    if s.len() == 0 || s.len() > 4 {
        return None;
    }
    let mut acc: u32 = 0;
    let mut i: usize = 0;
    while i < s.len()
        invariant
            i <= s.len() <= 4,
            all_hex_digits(s@.take(i as int)),
            acc == numeral_value(s@.take(i as int), 16),
        decreases s.len() - i,
    {
        proof {
            lemma_hex_value_bound(s@.take(i as int));
        }
        match hex_digit(s[i]) {
            Some(d) => {
                acc = acc * 16 + d;
            },
            None => {
                return None;
            },
        }
        i = i + 1;
        assert(s@.take(i as int).drop_last() =~= s@.take(i - 1));
        assert forall|j: int| 0 <= j < i implies is_hex_digit(#[trigger] s@.take(i as int)[j]) by {
            if j < i - 1 {
                assert(s@.take(i - 1)[j] == s@[j]);
            }
        }
    }
    assert(s@.take(i as int) =~= s@);
    Some(acc)
}

} // verus!
