//! The record model: one typed entry of the character database, and the
//! position tag that marks the two ends of a bracketed range.
use vstd::prelude::*;
use crate::text::chars_of;

verus! {

/// One entry of the Unicode character database.
#[derive(Debug, Clone)]
pub struct UnicodeRecord {
    pub code_point: u32,
    pub name: String,
    pub general_category: String,
    pub canonical_combining_class: u8,
    pub bidi_category: String,
    pub decomposition: Option<String>,
    pub decimal_digit_value: Option<u32>,
    pub digit_value: Option<u32>,
    pub numeric_value: Option<String>,
    pub bidi_mirrored: String,
    pub unicode_1_name: Option<String>,
    pub iso_comment: Option<String>,
    pub simple_uppercase_mapping: Option<String>,
    pub simple_lowercase_mapping: Option<String>,
    pub simple_titlecase_mapping: Option<String>,
}

/// Where a record stands in a bracketed range pair such as
/// `<CJK Ideograph, First>` and `<CJK Ideograph, Last>`.
#[derive(Debug, Clone, Copy, PartialEq, Eq)]
pub enum PositionTag {
    First,
    Last,
    Absent,
}

/// The end of a name that marks the first record of a bracketed pair.
pub open spec fn first_suffix() -> Seq<char> {
    seq![',', ' ', 'F', 'i', 'r', 's', 't', '>']
}

/// The end of a name that marks the last record of a bracketed pair.
pub open spec fn last_suffix() -> Seq<char> {
    seq![',', ' ', 'L', 'a', 's', 't', '>']
}

/// Whether `name` ends with `suffix`.
pub open spec fn ends_with(name: Seq<char>, suffix: Seq<char>) -> bool {
    name.len() >= suffix.len() && name.skip(name.len() - suffix.len()) == suffix
}

/// The position tag that a record name carries: `First` where the name ends
/// with `, First>`, `Last` where it ends with `, Last>`, and none for any
/// other name.
pub open spec fn tag_of(name: Seq<char>) -> PositionTag {
    if ends_with(name, first_suffix()) {
        PositionTag::First
    } else if ends_with(name, last_suffix()) {
        PositionTag::Last
    } else {
        PositionTag::Absent
    }
}

impl UnicodeRecord {
    /// The position tag of this record.
    pub open spec fn tag(&self) -> PositionTag {
        tag_of(self.name@)
    }

    /// Whether the record closes a bracketed range pair.
    pub open spec fn closes_range(&self) -> bool {
        self.tag() == PositionTag::Last
    }
}

/// The label of the decimal digit category.
pub open spec fn decimal_label() -> Seq<char> {
    seq!['N', 'd']
}

/// The record belongs to the decimal digit category.
pub open spec fn is_decimal(record: UnicodeRecord) -> bool {
    record.general_category@ == decimal_label()
}

/// Whether `label` is the label of the decimal digit category.
pub fn is_decimal_label(label: &str) -> (r: bool)
    ensures
        r == (label@ == decimal_label()),
{
    let v = chars_of(label);
    if v.len() == 2 && v[0] == 'N' && v[1] == 'd' {
        assert(v@ =~= decimal_label());
        true
    } else {
        assert(v@ != decimal_label()) by {
            if v@ == decimal_label() {
                assert(v@.len() == 2 && v@[0] == 'N' && v@[1] == 'd');
            }
        }
        false
    }
}

/// The records stand in ascending order of their code points.
pub open spec fn ascending(records: Seq<UnicodeRecord>) -> bool {
    forall|i: int, j: int|
        0 <= i < j < records.len() ==> records[i].code_point <= records[j].code_point
}

/// Whether the characters `name` end with the characters `suffix`.
fn ends_in(name: &Vec<char>, suffix: &Vec<char>) -> (r: bool)
    ensures
        r == ends_with(name@, suffix@),
{
    if name.len() < suffix.len() {
        return false;
    }
    let from = name.len() - suffix.len();
    let ghost tail = name@.skip(from as int);
    let mut i: usize = 0;
    while i < suffix.len()
        invariant
            i <= suffix.len(),
            from + suffix.len() == name.len(),
            tail == name@.skip(from as int),
            forall|j: int| 0 <= j < i ==> tail[j] == suffix@[j],
        decreases suffix.len() - i,
    {
        if name[from + i] != suffix[i] {
            assert(tail[i as int] != suffix@[i as int]);
            return false;
        }
        i += 1;
    }
    assert(tail =~= suffix@);
    true
}

/// Reads the position tag off a record name.
pub fn get_tag_by_name(name: &str) -> (tag: PositionTag)
    ensures
        tag == tag_of(name@),
{
    let v = chars_of(name);
    let first = vec![',', ' ', 'F', 'i', 'r', 's', 't', '>'];
    let last = vec![',', ' ', 'L', 'a', 's', 't', '>'];
    assert(first@ =~= first_suffix());
    assert(last@ =~= last_suffix());
    if ends_in(&v, &first) {
        PositionTag::First
    } else if ends_in(&v, &last) {
        PositionTag::Last
    } else {
        PositionTag::Absent
    }
}

} // verus!
