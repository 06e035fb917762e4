//! The plain list of decimal digits: one entry per digit character, with the
//! value that it stands for.
use vstd::prelude::*;
use crate::decimal::{decimal_of, DecimalExtended, DECIMAL_ZEROS};
use crate::record::{decimal_label, is_decimal_label};
use crate::text::{code_of, extract_unicode_char, hex_value, is_scalar_value, parse_hex_u32};

verus! {

/// What the digit list reads of a database entry: the code point as it is
/// written, in hexadecimal, the general category, and the decimal digit
/// value.
#[derive(Debug, Clone)]
pub struct DigitRecord {
    pub code_point: String,
    pub general_category: String,
    pub decimal_digit_value: Option<u32>,
}

/// A decimal digit character and the value it is replaced with.
#[derive(Debug, Clone, Copy, PartialEq, Eq)]
pub struct NormalizationReplacement {
    pub normalized_unicode_char: char,
    pub ascii_char: u32,
}

/// The record belongs to the decimal digit category.
pub open spec fn names_digit(record: DigitRecord) -> bool {
    record.general_category@ == decimal_label()
}

/// The record names a character and carries a decimal digit value.
pub open spec fn names_character(record: DigitRecord) -> bool {
    &&& hex_value(record.code_point@) matches Some(cp) && is_scalar_value(cp as int)
    &&& record.decimal_digit_value is Some
}

/// The entry that a decimal digit record gives.
pub open spec fn mapping_of(record: DigitRecord) -> NormalizationReplacement {
    NormalizationReplacement {
        normalized_unicode_char: hex_value(record.code_point@)->0 as char,
        ascii_char: record.decimal_digit_value->0,
    }
}

/// The entries of the decimal digit records of `records`, in their order.
pub open spec fn mappings_of(records: Seq<DigitRecord>) -> Seq<NormalizationReplacement>
    decreases records.len(),
{
    if records.len() == 0 {
        Seq::empty()
    } else {
        let rest = mappings_of(records.drop_last());
        if names_digit(records.last()) {
            rest.push(mapping_of(records.last()))
        } else {
            rest
        }
    }
}

/// Every decimal digit record names a character and carries its value.
pub open spec fn digits_complete(records: Seq<DigitRecord>) -> bool {
    forall|i: int|
        0 <= i < records.len() && names_digit(#[trigger] records[i]) ==> names_character(
            records[i],
        )
}

/// Whether every decimal digit record names a character and carries its
/// value.
pub fn check_digits_complete(records: &Vec<DigitRecord>) -> (complete: bool)
    ensures
        complete == digits_complete(records@),
{
    let mut i: usize = 0;
    while i < records.len()
        invariant
            i <= records.len(),
            forall|j: int|
                0 <= j < i && names_digit(#[trigger] records[j]) ==> names_character(records[j]),
        decreases records.len() - i,
    {
        let record = &records[i];
        if is_decimal_label(record.general_category.as_str()) {
            let named = match parse_hex_u32(record.code_point.as_str()) {
                Some(cp) => cp <= 0xD7FF || (0xE000 <= cp && cp <= 0x10FFFF),
                None => false,
            };
            if !named || record.decimal_digit_value.is_none() {
                assert(names_digit(records[i as int]) && !names_character(records[i as int]));
                return false;
            }
        }
        i += 1;
    }
    true
}

/// Lists the decimal digits of `records` with their values.
pub fn parse_digit_mappings(records: &Vec<DigitRecord>) -> (mappings: Vec<NormalizationReplacement>)
    requires
        digits_complete(records@),
    ensures
        mappings@ == mappings_of(records@),
{
    let mut mappings: Vec<NormalizationReplacement> = Vec::new();
    let mut i: usize = 0;
    assert(records@.take(0) =~= Seq::<DigitRecord>::empty());
    while i < records.len()
        invariant
            i <= records.len(),
            digits_complete(records@),
            mappings@ == mappings_of(records@.take(i as int)),
        decreases records.len() - i,
    {
        let record = &records[i];
        proof {
            assert(records@.take(i + 1).drop_last() =~= records@.take(i as int));
            assert(records@.take(i + 1).last() == *record);
        }
        if is_decimal_label(record.general_category.as_str()) {
            assert(names_digit(records[i as int]));
            let c = extract_unicode_char(record.code_point.as_str());
            let value = record.decimal_digit_value.unwrap();
            mappings.push(
                NormalizationReplacement { normalized_unicode_char: c, ascii_char: value },
            );
        }
        i += 1;
    }
    assert(records@.take(records.len() as int) =~= records@);
    mappings
}

/// The built-in table of decimal digits has the entry's character, with the
/// entry's value.
pub open spec fn in_table(entry: NormalizationReplacement) -> bool {
    decimal_of(entry.normalized_unicode_char) is Some && decimal_of(
        entry.normalized_unicode_char,
    )->0 == entry.ascii_char
}

/// Some entry of `mappings` is for the character with code point `cp`.
pub open spec fn lists(mappings: Seq<NormalizationReplacement>, cp: int) -> bool {
    exists|i: int|
        0 <= i < mappings.len() && (#[trigger] mappings[i]).normalized_unicode_char as int == cp
}

/// The code point of the digit `digit` in set number `set` of the built-in
/// table.
pub open spec fn digit_code(set: int, digit: int) -> int {
    DECIMAL_ZEROS@[set] + digit
}

/// `mappings` and the built-in table hold the same decimal digits: every
/// entry is a digit of the table with the same value, and every digit of the
/// table has an entry.
pub open spec fn same_digits(mappings: Seq<NormalizationReplacement>) -> bool {
    &&& forall|i: int| 0 <= i < mappings.len() ==> in_table(#[trigger] mappings[i])
    &&& forall|set: int, digit: int|
        0 <= set < DECIMAL_ZEROS@.len() && 0 <= digit <= 9 ==> lists(
            mappings,
            #[trigger] digit_code(set, digit),
        )
}

/// Whether some entry of `mappings` is for the character with code point
/// `cp`.
fn has_entry(mappings: &Vec<NormalizationReplacement>, cp: u64) -> (found: bool)
    ensures
        found == lists(mappings@, cp as int),
{
    let mut i: usize = 0;
    while i < mappings.len()
        invariant
            i <= mappings.len(),
            forall|j: int|
                0 <= j < i ==> (#[trigger] mappings[j]).normalized_unicode_char as int != cp,
        decreases mappings.len() - i,
    {
        if code_of(mappings[i].normalized_unicode_char) as u64 == cp {
            return true;
        }
        i += 1;
    }
    false
}

/// Whether `mappings` and the built-in table of decimal digits hold the same
/// digits with the same values.
pub fn agrees_with_table(mappings: &Vec<NormalizationReplacement>) -> (agrees: bool)
    ensures
        agrees == same_digits(mappings@),
{
    let mut i: usize = 0;
    while i < mappings.len()
        invariant
            i <= mappings.len(),
            forall|j: int| 0 <= j < i ==> in_table(#[trigger] mappings[j]),
        decreases mappings.len() - i,
    {
        let entry = mappings[i];
        let known = match entry.normalized_unicode_char.to_decimal_utf8() {
            Some(value) => value as u32 == entry.ascii_char,
            None => false,
        };
        if !known {
            assert(!in_table(mappings[i as int]));
            return false;
        }
        i += 1;
    }
    let mut set: usize = 0;
    while set < 68
        invariant
            set <= 68,
            DECIMAL_ZEROS@.len() == 68,
            forall|s: int, d: int|
                0 <= s < set && 0 <= d <= 9 ==> lists(mappings@, #[trigger] digit_code(s, d)),
        decreases 68 - set,
    {
        let zero = DECIMAL_ZEROS[set];
        let mut digit: u64 = 0;
        while digit <= 9
            invariant
                digit <= 10,
                set < 68,
                zero == DECIMAL_ZEROS@[set as int],
                forall|d: int|
                    0 <= d < digit ==> lists(mappings@, #[trigger] digit_code(set as int, d)),
            decreases 10 - digit,
        {
            if !has_entry(mappings, zero as u64 + digit) {
                assert(!lists(mappings@, digit_code(set as int, digit as int)));
                return false;
            }
            digit += 1;
        }
        set += 1;
    }
    true
}

} // verus!
