//! Decimal digits of every script: the value of a digit character, its
//! ASCII form, and strings brought to ASCII digits.
use vstd::prelude::*;
use crate::text::code_of;

verus! {

/// The code point of the digit zero of each set of decimal digits, in
/// ascending order. The digits one to nine follow their zero.
pub const DECIMAL_ZEROS: [u32; 68] = [
    0x0030, 0x0660, 0x06F0, 0x07C0, 0x0966, 0x09E6, 0x0A66, 0x0AE6, 0x0B66, 0x0BE6, 0x0C66,
    0x0CE6, 0x0D66, 0x0DE6, 0x0E50, 0x0ED0, 0x0F20, 0x1040, 0x1090, 0x17E0, 0x1810, 0x1946,
    0x19D0, 0x1A80, 0x1A90, 0x1B50, 0x1BB0, 0x1C40, 0x1C50, 0xA620, 0xA8D0, 0xA900, 0xA9D0,
    0xA9F0, 0xAA50, 0xABF0, 0xFF10, 0x104A0, 0x10D30, 0x11066, 0x110F0, 0x11136, 0x111D0,
    0x112F0, 0x11450, 0x114D0, 0x11650, 0x116C0, 0x11730, 0x118E0, 0x11950, 0x11C50, 0x11D50,
    0x11DA0, 0x11F50, 0x16A60, 0x16AC0, 0x16B50, 0x1D7CE, 0x1D7D8, 0x1D7E2, 0x1D7EC, 0x1D7F6,
    0x1E140, 0x1E2F0, 0x1E4F0, 0x1E950, 0x1FBF0,
];

/// The digit value of `cp` in the first set of `zeros` that holds it.
pub open spec fn digit_among(zeros: Seq<u32>, cp: int) -> Option<u8>
    decreases zeros.len(),
{
    if zeros.len() == 0 {
        None
    } else if zeros[0] <= cp <= zeros[0] + 9 {
        Some((cp - zeros[0]) as u8)
    } else {
        digit_among(zeros.drop_first(), cp)
    }
}

/// The value of the decimal digit `c`, of whatever script.
pub open spec fn decimal_of(c: char) -> Option<u8> {
    digit_among(DECIMAL_ZEROS@, c as int)
}

/// The ASCII digit with the value `digit`.
pub open spec fn ascii_digit(digit: u8) -> char {
    (digit + 0x30) as char
}

/// `c` as an ASCII digit where it is a decimal digit, else `c` itself.
pub open spec fn normalized(c: char) -> char {
    match decimal_of(c) {
        Some(digit) => ascii_digit(digit),
        None => c,
    }
}

/// The decimal digits of `s` as ASCII digits, in their order.
pub open spec fn decimals_of(s: Seq<char>) -> Seq<char>
    decreases s.len(),
{
    if s.len() == 0 {
        Seq::empty()
    } else {
        let rest = decimals_of(s.drop_last());
        match decimal_of(s.last()) {
            Some(digit) => rest.push(ascii_digit(digit)),
            None => rest,
        }
    }
}

/// A digit value is at most nine.
pub proof fn lemma_digit_among_small(zeros: Seq<u32>, cp: int)
    ensures
        digit_among(zeros, cp) matches Some(digit) ==> digit <= 9,
    decreases zeros.len(),
{
    if zeros.len() > 0 && !(zeros[0] <= cp <= zeros[0] + 9) {
        lemma_digit_among_small(zeros.drop_first(), cp);
    }
}

/// Decimal digits beyond ASCII.
pub trait DecimalExtended: Sized + Copy {
    /// The value of `self` as a decimal digit.
    spec fn decimal(&self) -> Option<u8>;

    /// The ASCII digit that stands for `self`.
    spec fn ascii_form(&self) -> Option<Self>;

    /// The value of any decimal digit, or nothing where `self` is none.
    fn to_decimal_utf8(&self) -> (digit: Option<u8>)
        ensures
            digit == self.decimal(),
    ;

    /// Whether `self` is a decimal digit.
    fn is_decimal_utf8(&self) -> (r: bool)
        ensures
            r == self.decimal().is_some(),
    {
        self.to_decimal_utf8().is_some()
    }

    /// The digit from `'0'` to `'9'` that stands for `self`.
    fn normalize_decimal(&self) -> (r: Option<Self>)
        ensures
            r == self.ascii_form(),
    ;
}

impl DecimalExtended for char {
    open spec fn decimal(&self) -> Option<u8> {
        decimal_of(*self)
    }

    open spec fn ascii_form(&self) -> Option<char> {
        match decimal_of(*self) {
            Some(digit) => Some(ascii_digit(digit)),
            None => None,
        }
    }

    fn to_decimal_utf8(&self) -> (digit: Option<u8>) {
        let cp = code_of(*self);
        let mut i: usize = 0;
        assert(DECIMAL_ZEROS@.skip(0) =~= DECIMAL_ZEROS@);
        while i < 68
            invariant
                i <= 68,
                cp as int == *self as int,
                decimal_of(*self) == digit_among(DECIMAL_ZEROS@.skip(i as int), cp as int),
            decreases 68 - i,
        {
            let zero = DECIMAL_ZEROS[i];
            proof {
                assert(DECIMAL_ZEROS@.skip(i as int)[0] == zero);
                assert(DECIMAL_ZEROS@.skip(i as int).drop_first() =~= DECIMAL_ZEROS@.skip(i + 1));
            }
            if zero <= cp && cp - zero <= 9 {
                return Some((cp - zero) as u8);
            }
            i += 1;
        }
        None
    }

    fn normalize_decimal(&self) -> (r: Option<char>) {
        match self.to_decimal_utf8() {
            Some(digit) => {
                proof {
                    lemma_digit_among_small(DECIMAL_ZEROS@, *self as int);
                }
                Some((digit + 0x30) as char)
            },
            None => None,
        }
    }
}

/// The decimal digits of `s`, each as an ASCII digit; every other character
/// is left out.
pub fn normalize_decimals_filtering(s: &str) -> (r: String)
    ensures
        r@ == decimals_of(s@),
{
    let mut out = String::new();
    for c in it: s.chars()
        invariant
            it.seq() == s@,
            out@ == decimals_of(it.seq().take(it.index())),
    {
        proof {
            let upto = it.seq().take(it.index() + 1);
            assert(upto.drop_last() =~= it.seq().take(it.index()));
            assert(upto.last() == c);
        }
        match c.normalize_decimal() {
            Some(digit) => out.push(digit),
            None => {},
        }
    }
    proof {
        assert(s@.take(s@.len() as int) =~= s@);
    }
    out
}

/// `s` with each decimal digit as an ASCII digit; every other character
/// stays as it is.
pub fn normalize_decimals(s: &str) -> (r: String)
    ensures
        r@ == s@.map_values(|c: char| normalized(c)),
{
    let mut out = String::new();
    for c in it: s.chars()
        invariant
            it.seq() == s@,
            out@ == it.seq().take(it.index()).map_values(|c: char| normalized(c)),
    {
        let ghost before = it.seq().take(it.index());
        let ghost upto = it.seq().take(it.index() + 1);
        let same = match c.normalize_decimal() {
            Some(digit) => digit,
            None => c,
        };
        out.push(same);
        proof {
            assert(upto =~= before.push(c));
            assert(out@ =~= upto.map_values(|c: char| normalized(c)));
        }
    }
    proof {
        assert(s@.take(s@.len() as int) =~= s@);
    }
    out
}

} // verus!
