//! Hexadecimal and decimal text: writing bytes and numbers, reading what
//! was typed.

use vstd::prelude::*;
use vstd::string::StringExecFns;
use vstd::string::StrSliceExecFns;

verus! {

/// Calls `String::push`. The contract claims what the standard library
/// documents of it: the character is appended to the end of the string.
#[verifier::external_body]
pub(crate) fn push_char(s: &mut String, c: char)
    ensures
        final(s)@ == old(s)@.push(c),
{
    s.push(c);
}

/// Calls `String::pop`. The contract claims what the standard library
/// documents of it: the last character is removed and returned, and an
/// empty string is left alone with `None` returned.
#[verifier::external_body]
pub(crate) fn pop_char(s: &mut String) -> (r: Option<char>)
    ensures
        old(s)@.len() == 0 ==> r is None && final(s)@ == old(s)@,
        old(s)@.len() > 0 ==> r == Some(old(s)@.last()) && final(s)@ == old(s)@.drop_last(),
{
    s.pop()
}

/// The upper-case hexadecimal digit for a value below sixteen.
pub open spec fn hex_digit(n: int) -> char {
    if n < 10 {
        (48 + n) as char
    } else {
        (55 + n) as char
    }
}

/// Three characters per byte: two upper-case hexadecimal digits and a space.
pub open spec fn hex_text(bytes: Seq<u8>) -> Seq<char>
    decreases bytes.len(),
{
    if bytes.len() == 0 {
        Seq::empty()
    } else {
        hex_text(bytes.drop_last()) + seq![
            hex_digit(bytes.last() as int / 16),
            hex_digit(bytes.last() as int % 16),
            ' ',
        ]
    }
}

pub(crate) fn hex_digit_char(n: u8) -> (c: char)
    requires
        n < 16,
    ensures
        c == hex_digit(n as int),
{
    if n < 10 {
        (48u8 + n) as char
    } else {
        (55u8 + n) as char
    }
}

/// Formats bytes as a hex dump: every byte as two upper-case hexadecimal
/// digits followed by one space.
pub fn bytes_to_hex(bytes: &[u8]) -> (s: String)
    ensures
        s@ == hex_text(bytes@),
{
    let mut out = String::new();
    let mut i: usize = 0;
    while i < bytes.len()
        invariant
            i <= bytes.len(),
            out@ == hex_text(bytes@.take(i as int)),
        decreases bytes.len() - i,
    {
        let b: u8 = bytes[i];
        proof {
            assert(bytes@.take(i as int + 1).drop_last() =~= bytes@.take(i as int));
        }
        push_char(&mut out, hex_digit_char(b / 16));
        push_char(&mut out, hex_digit_char(b % 16));
        push_char(&mut out, ' ');
        i = i + 1;
        proof {
            assert(out@ =~= hex_text(bytes@.take(i as int)));
        }
    }
    proof {
        assert(bytes@.take(bytes.len() as int) =~= bytes@);
    }
    out
}

/// The character is one of `0`-`9`, `a`-`f`, `A`-`F`.
pub open spec fn is_hex_digit(c: char) -> bool {
    let n = c as int;
    (48 <= n <= 57) || (65 <= n <= 70) || (97 <= n <= 102)
}

/// The value of a hexadecimal digit, and zero for any other character.
pub open spec fn hex_digit_value(c: char) -> int {
    let n = c as int;
    if 48 <= n <= 57 {
        n - 48
    } else if 65 <= n <= 70 {
        n - 55
    } else if 97 <= n <= 102 {
        n - 87
    } else {
        0
    }
}

/// Every character is a hexadecimal digit.
pub open spec fn all_hex(s: Seq<char>) -> bool {
    forall|i: int| 0 <= i < s.len() ==> is_hex_digit(#[trigger] s[i])
}

/// The bytes that consecutive pairs of hexadecimal digits spell.
pub open spec fn hex_pairs(s: Seq<char>) -> Seq<u8> {
    Seq::new(
        s.len() / 2,
        |i: int| (16 * hex_digit_value(s[2 * i]) + hex_digit_value(s[2 * i + 1])) as u8,
    )
}

/// A byte string written in hexadecimal: an even number of hexadecimal
/// digits and nothing else. Anything different has no reading.
pub open spec fn parse_hex_bytes(s: Seq<char>) -> Option<Seq<u8>> {
    if s.len() % 2 == 0 && all_hex(s) {
        Some(hex_pairs(s))
    } else {
        None
    }
}

fn hex_value_of(c: char) -> (r: Option<u8>)
    ensures
        r is Some <==> is_hex_digit(c),
        r is Some ==> r->0 as int == hex_digit_value(c) && r->0 < 16,
{
    let n: u32 = c as u32;
    if 48 <= n && n <= 57 {
        Some((n - 48) as u8)
    } else if 65 <= n && n <= 70 {
        Some((n - 55) as u8)
    } else if 97 <= n && n <= 102 {
        Some((n - 87) as u8)
    } else {
        None
    }
}

/// Reads text typed as hexadecimal byte pairs.
///
/// Returns the bytes when the text is an even number of hexadecimal
/// digits, upper or lower case, and `None` for anything else. The empty
/// text reads as no bytes.
pub fn hex_string_to_bytes(hex: &str) -> (r: Option<Vec<u8>>)
    ensures
        match r {
            Some(v) => parse_hex_bytes(hex@) == Some(v@),
            None => parse_hex_bytes(hex@) is None,
        },
{
    let n: usize = hex.unicode_len();
    if n % 2 != 0 {
        return None;
    }
    let mut out: Vec<u8> = Vec::new();
    let mut i: usize = 0;
    while i < n
        invariant
            n == hex@.len(),
            n % 2 == 0,
            i % 2 == 0,
            i <= n,
            forall|k: int| 0 <= k < i ==> is_hex_digit(#[trigger] hex@[k]),
            out@ == hex_pairs(hex@.take(i as int)),
        decreases n - i,
    {
        let hi = hex_value_of(hex.get_char(i));
        let lo = hex_value_of(hex.get_char(i + 1));
        match (hi, lo) {
            (Some(h), Some(l)) => {
                out.push(h * 16 + l);
                i = i + 2;
                proof {
                    assert(out@ =~= hex_pairs(hex@.take(i as int)));
                }
            },
            _ => {
                proof {
                    assert(!is_hex_digit(hex@[i as int]) || !is_hex_digit(hex@[i + 1]));
                }
                return None;
            },
        }
    }
    proof {
        assert(hex@.take(n as int) =~= hex@);
    }
    Some(out)
}

/// The text without one `0x` in front of it, if it starts with one.
pub open spec fn strip_hex_prefix(s: Seq<char>) -> Seq<char> {
    if s.len() >= 2 && s[0] == '0' && s[1] == 'x' {
        s.skip(2)
    } else {
        s
    }
}

/// The number that a string of hexadecimal digits spells.
pub open spec fn hex_value(s: Seq<char>) -> int
    decreases s.len(),
{
    if s.len() == 0 {
        0
    } else {
        16 * hex_value(s.drop_last()) + hex_digit_value(s.last())
    }
}

/// An address written in hexadecimal: after at most one leading `0x`, at
/// least one hexadecimal digit and nothing else, spelling a number that
/// fits the address type. A second `0x` or a sign has no reading.
pub open spec fn parse_hex_address(s: Seq<char>) -> Option<usize> {
    let digits = strip_hex_prefix(s);
    if digits.len() > 0 && all_hex(digits) && hex_value(digits) <= usize::MAX {
        Some(hex_value(digits) as usize)
    } else {
        None
    }
}

/// A longer string of digits never spells a smaller number than its start.
proof fn lemma_hex_value_prefix(s: Seq<char>, k: int)
    requires
        0 <= k <= s.len(),
    ensures
        0 <= hex_value(s.take(k)) <= hex_value(s),
    decreases s.len() - k,
{
    if k == s.len() {
        assert(s.take(k) =~= s);
        lemma_hex_value_nonnegative(s);
    } else {
        lemma_hex_value_prefix(s.drop_last(), k);
        assert(s.drop_last().take(k) =~= s.take(k));
    }
}

proof fn lemma_hex_value_nonnegative(s: Seq<char>)
    ensures
        0 <= hex_value(s),
    decreases s.len(),
{
    if s.len() > 0 {
        lemma_hex_value_nonnegative(s.drop_last());
    }
}

/// Reads text typed as a hexadecimal address, with or without one `0x` in
/// front.
///
/// Returns the address when what follows the prefix is one or more
/// hexadecimal digits, upper or lower case, whose value fits, and `None`
/// for anything else.
pub fn parse_address(input: &str) -> (r: Option<usize>)
    ensures
        r == parse_hex_address(input@),
{
    let n: usize = input.unicode_len();
    let ghost chars = input@;
    let start: usize = if n >= 2 && input.get_char(0) == '0' && input.get_char(1) == 'x' {
        2
    } else {
        0
    };
    let ghost digits = chars.skip(start as int);
    proof {
        assert(chars.skip(0) =~= chars);
        assert(strip_hex_prefix(chars) == digits);
    }
    if start == n {
        return None;
    }
    let mut value: usize = 0;
    let mut i: usize = start;
    while i < n
        invariant
            n == chars.len(),
            chars == input@,
            start <= i <= n,
            digits == chars.skip(start as int),
            strip_hex_prefix(chars) == digits,
            forall|k: int| 0 <= k < i - start ==> is_hex_digit(#[trigger] digits[k]),
            value == hex_value(digits.take(i - start)),
        decreases n - i,
    {
        proof {
            assert(digits[i - start] == chars[i as int]);
            assert(digits.take(i - start + 1).drop_last() =~= digits.take(i - start));
            lemma_hex_value_prefix(digits, i - start + 1);
        }
        match hex_value_of(input.get_char(i)) {
            Some(d) => {
                if value > usize::MAX / 16 {
                    return None;
                }
                let shifted: usize = value * 16;
                if shifted > usize::MAX - (d as usize) {
                    return None;
                }
                value = shifted + (d as usize);
            },
            None => {
                return None;
            },
        }
        i = i + 1;
    }
    proof {
        assert(digits.take(n - start) =~= digits);
    }
    Some(value)
}

/// The digits of a positive number, most significant first, in base
/// sixteen (upper case) or ten; no digits for zero.
pub open spec fn digits_of(n: int, hex: bool) -> Seq<char>
    decreases n,
{
    if n <= 0 {
        Seq::empty()
    } else if hex {
        digits_of(n / 16, hex).push(hex_digit(n % 16))
    } else {
        digits_of(n / 10, hex).push(hex_digit(n % 10))
    }
}

/// A number written without leading zeros; zero is `0`.
pub open spec fn number_text(n: int, hex: bool) -> Seq<char> {
    if n <= 0 {
        "0"@
    } else {
        digits_of(n, hex)
    }
}

/// A sequence read backwards.
pub open spec fn mirrored(s: Seq<char>) -> Seq<char> {
    Seq::new(s.len(), |i: int| s[s.len() - 1 - i])
}

/// Writes a number in base sixteen (upper case) or ten, without leading
/// zeros.
pub fn format_number(n: usize, hex: bool) -> (s: String)
    ensures
        s@ == number_text(n as int, hex),
{
    if n == 0 {
        return String::from_str("0");
    }
    let mut rev: Vec<char> = Vec::new();
    let mut m: usize = n;
    proof {
        assert(digits_of(m as int, hex) + mirrored(rev@) =~= digits_of(n as int, hex));
    }
    while m > 0
        invariant
            digits_of(m as int, hex) + mirrored(rev@) == digits_of(n as int, hex),
        decreases m,
    {
        let ghost before = rev@;
        let d: usize = if hex {
            m % 16
        } else {
            m % 10
        };
        rev.push(hex_digit_char(d as u8));
        let next: usize = if hex {
            m / 16
        } else {
            m / 10
        };
        proof {
            assert(digits_of(next as int, hex) + mirrored(rev@) =~= digits_of(m as int, hex)
                + mirrored(before));
        }
        m = next;
    }
    let mut out = String::new();
    let mut i: usize = rev.len();
    while i > 0
        invariant
            i <= rev@.len(),
            out@ == mirrored(rev@).take(rev@.len() - i),
        decreases i,
    {
        i = i - 1;
        push_char(&mut out, rev[i]);
        proof {
            assert(out@ =~= mirrored(rev@).take(rev@.len() - i));
        }
    }
    proof {
        assert(mirrored(rev@).take(rev@.len() as int) =~= mirrored(rev@));
        assert(Seq::<char>::empty() + mirrored(rev@) =~= mirrored(rev@));
    }
    out
}

} // verus!
