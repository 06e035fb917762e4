//! Characters and code points: reading the characters of a string, the code
//! point of a character, and code points written in hexadecimal.
use vstd::prelude::*;

verus! {

/// `String::push` of the standard library, which appends one character to
/// the end of the string.
pub assume_specification[ String::push ](s: &mut String, c: char)
    ensures
        final(s)@ == old(s)@.push(c),
;

/// `char::from_u32` of the standard library, which gives the character of a
/// Unicode scalar value and nothing for a surrogate or a number beyond
/// U+10FFFF.
pub assume_specification[ char::from_u32 ](i: u32) -> (c: Option<char>)
    ensures
        c == (if is_scalar_value(i as int) {
            Some(i as char)
        } else {
            None
        }),
;

/// A Unicode scalar value: a code point that is no surrogate.
pub open spec fn is_scalar_value(cp: int) -> bool {
    0 <= cp <= 0xD7FF || 0xE000 <= cp <= 0x10FFFF
}

/// The characters of `s`, in order.
pub fn chars_of(s: &str) -> (v: Vec<char>)
    ensures
        v@ == s@,
{
    let mut v: Vec<char> = Vec::new();
    for c in it: s.chars()
        invariant
            it.seq() == s@,
            v@ == it.seq().take(it.index()),
    {
        v.push(c);
    }
    v
}

/// The code point of a character.
pub fn code_of(c: char) -> (cp: u32)
    ensures
        cp as int == c as int,
        is_scalar_value(cp as int),
{
    c as u32
}

/// The value of a hexadecimal digit, upper or lower case.
pub open spec fn hex_digit(c: char) -> Option<int> {
    if '0' <= c <= '9' {
        Some(c as int - '0' as int)
    } else if 'a' <= c <= 'f' {
        Some(c as int - 'a' as int + 10)
    } else if 'A' <= c <= 'F' {
        Some(c as int - 'A' as int + 10)
    } else {
        None
    }
}

/// The number that a sequence of hexadecimal digits writes, most significant
/// digit first; nothing where a character is no digit.
pub open spec fn hex_number(digits: Seq<char>) -> Option<int>
    decreases digits.len(),
{
    if digits.len() == 0 {
        Some(0)
    } else {
        match (hex_number(digits.drop_last()), hex_digit(digits.last())) {
            (Some(high), Some(low)) => Some(16 * high + low),
            _ => None,
        }
    }
}

/// The digits of a number text: the text without a leading plus sign.
pub open spec fn hex_digits(text: Seq<char>) -> Seq<char> {
    if text.len() > 0 && text[0] == '+' {
        text.drop_first()
    } else {
        text
    }
}

/// The 32-bit number that `text` writes in hexadecimal: an optional plus
/// sign, then at least one digit, and a value that fits.
pub open spec fn hex_value(text: Seq<char>) -> Option<u32> {
    let digits = hex_digits(text);
    if digits.len() == 0 {
        None
    } else {
        match hex_number(digits) {
            Some(value) => if value <= u32::MAX {
                Some(value as u32)
            } else {
                None
            },
            None => None,
        }
    }
}

/// A number is never below the number that a prefix of its digits writes.
pub proof fn lemma_hex_number_grows(digits: Seq<char>, n: int)
    requires
        0 <= n <= digits.len(),
        hex_number(digits) is Some,
    ensures
        hex_number(digits.take(n)) is Some,
        0 <= hex_number(digits.take(n))->0 <= hex_number(digits)->0,
    decreases digits.len(),
{
    if n == digits.len() {
        assert(digits.take(n) =~= digits);
        if digits.len() > 0 {
            lemma_hex_number_grows(digits.drop_last(), n - 1);
        }
    } else {
        lemma_hex_number_grows(digits.drop_last(), n);
        assert(digits.drop_last().take(n) =~= digits.take(n));
    }
}

/// The value of the hexadecimal digit `c`.
fn hex_digit_of(c: char) -> (d: Option<u32>)
    ensures
        match d {
            Some(v) => hex_digit(c) == Some(v as int) && v < 16,
            None => hex_digit(c) is None,
        },
{
    let cp = code_of(c);
    if cp >= 0x30 && cp <= 0x39 {
        Some(cp - 0x30)
    } else if cp >= 0x61 && cp <= 0x66 {
        Some(cp - 0x61 + 10)
    } else if cp >= 0x41 && cp <= 0x46 {
        Some(cp - 0x41 + 10)
    } else {
        None
    }
}

/// Reads a 32-bit number written in hexadecimal.
pub fn parse_hex_u32(text: &str) -> (value: Option<u32>)
    ensures
        value == hex_value(text@),
{
    let v = chars_of(text);
    let n = v.len();
    let from: usize = if n > 0 && v[0] == '+' {
        1
    } else {
        0
    };
    let ghost digits = hex_digits(v@);
    assert(digits =~= v@.skip(from as int));
    if from == n {
        return None;
    }
    let mut acc: u64 = 0;
    let mut i: usize = from;
    assert(digits.take(0) =~= Seq::<char>::empty());
    while i < n
        invariant
            from <= i <= n,
            n == v.len(),
            v@ == text@,
            digits == hex_digits(v@),
            digits == v@.skip(from as int),
            hex_number(digits.take(i - from)) == Some(acc as int),
            acc <= u32::MAX,
        decreases n - i,
    {
        let ghost upto = digits.take(i - from + 1);
        proof {
            assert(upto.drop_last() =~= digits.take(i - from));
            assert(upto.last() == v@[i as int]);
        }
        match hex_digit_of(v[i]) {
            Some(d) => {
                let next = acc * 16 + d as u64;
                assert(hex_number(upto) == Some(next as int));
                if next > u32::MAX as u64 {
                    proof {
                        if hex_number(digits) is Some {
                            lemma_hex_number_grows(digits, i - from + 1);
                        }
                    }
                    return None;
                }
                acc = next;
            },
            None => {
                proof {
                    assert(hex_number(upto) is None);
                    if hex_number(digits) is Some {
                        lemma_hex_number_grows(digits, i - from + 1);
                    }
                }
                return None;
            },
        }
        i += 1;
    }
    assert(digits.take(n - from) =~= digits);
    Some(acc as u32)
}

/// The character whose code point `hex_code_digits` writes in hexadecimal.
pub fn extract_unicode_char(hex_code_digits: &str) -> (c: char)
    requires
        hex_value(hex_code_digits@) matches Some(cp) && is_scalar_value(cp as int),
    ensures
        Some(c as u32) == hex_value(hex_code_digits@),
{
    let cp = parse_hex_u32(hex_code_digits).unwrap();
    char::from_u32(cp).unwrap()
}

} // verus!
