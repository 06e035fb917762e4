//! The digit range compiler and the digit query.
//!
//! Records that carry a decimal digit value are merged into ranges over which
//! the value grows by one per code point. The ranges are stored as three
//! parallel arrays, searched by their starts.
use vstd::prelude::*;
use crate::record::{ascending, UnicodeRecord};
use crate::MAX_CODEPOINT;

verus! {

/// A range of code points `start..=end` whose digit values are
/// `base_val`, `base_val + 1`, and so on.
#[derive(Debug, Clone, Copy, PartialEq, Eq)]
pub struct DigitRange {
    pub start: u32,
    pub end: u32,
    pub base_val: u8,
}

/// The low eight bits of a digit value, as the ranges store it.
pub open spec fn low_byte(value: u32) -> u8 {
    (value & 0xFF) as u8
}

/// Whether a record at `cp` with digit `value` continues the open range: it
/// is the next code point, and its value is the next value.
pub open spec fn continues(open: DigitRange, cp: u32, value: u8) -> bool {
    cp == open.end + 1 && value == open.base_val + (cp - open.start)
}

/// The ranges after one more record. A record without a decimal digit value
/// changes nothing; one that continues the last range extends it; any other
/// opens a range of its own.
pub open spec fn extend_ranges(ranges: Seq<DigitRange>, record: UnicodeRecord) -> Seq<DigitRange> {
    match record.decimal_digit_value {
        None => ranges,
        Some(digit) => {
            let cp = record.code_point;
            let value = low_byte(digit);
            if ranges.len() > 0 && continues(ranges.last(), cp, value) {
                ranges.update(ranges.len() - 1, DigitRange { end: cp, ..ranges.last() })
            } else {
                ranges.push(DigitRange { start: cp, end: cp, base_val: value })
            }
        },
    }
}

/// The digit ranges of a record sequence, taken in order.
pub open spec fn ranges_of(records: Seq<UnicodeRecord>) -> Seq<DigitRange>
    decreases records.len(),
{
    if records.len() == 0 {
        Seq::empty()
    } else {
        extend_ranges(ranges_of(records.drop_last()), records.last())
    }
}

/// The value that the ranges give to `cp`: the last range that starts at or
/// below `cp` decides, and gives a value where it also reaches `cp`.
pub open spec fn range_value(ranges: Seq<DigitRange>, cp: int) -> Option<u8>
    decreases ranges.len(),
{
    if ranges.len() == 0 {
        None
    } else {
        let last = ranges.last();
        if last.start <= cp {
            if cp <= last.end {
                Some((last.base_val + (cp - last.start)) as u8)
            } else {
                None
            }
        } else {
            range_value(ranges.drop_last(), cp)
        }
    }
}

/// The decimal digit value of `cp`. Code points up to U+007F are answered
/// without the ranges: `'0'` to `'9'` have the values 0 to 9, the rest none.
/// Beyond the code space there is no value.
pub open spec fn digit_at(ranges: Seq<DigitRange>, cp: int) -> Option<u8> {
    if cp > MAX_CODEPOINT {
        None
    } else if cp <= 0x7F {
        if 0x30 <= cp <= 0x39 {
            Some((cp - 0x30) as u8)
        } else {
            None
        }
    } else {
        range_value(ranges, cp)
    }
}

/// The order that a searchable list of ranges keeps: starts never decrease,
/// no range is empty, and the values of a range fit in eight bits.
pub open spec fn ordered(ranges: Seq<DigitRange>) -> bool {
    &&& forall|i: int, j: int| 0 <= i < j < ranges.len() ==> ranges[i].start <= ranges[j].start
    &&& forall|i: int|
        0 <= i < ranges.len() ==> (#[trigger] ranges[i]).start <= ranges[i].end
            && ranges[i].base_val + (ranges[i].end - ranges[i].start) <= 255
}

/// Once every range from position `k` on starts above `cp`, and the range
/// before `k` starts at or below `cp`, that range alone decides the value.
pub proof fn lemma_range_value_at(ranges: Seq<DigitRange>, k: int, cp: int)
    requires
        0 <= k <= ranges.len(),
        forall|j: int| k <= j < ranges.len() ==> ranges[j].start > cp,
        k > 0 ==> ranges[k - 1].start <= cp,
    ensures
        range_value(ranges, cp) == if k > 0 && cp <= ranges[k - 1].end {
            Some((ranges[k - 1].base_val + (cp - ranges[k - 1].start)) as u8)
        } else {
            None
        },
    decreases ranges.len() - k,
{
    if k < ranges.len() {
        let shorter = ranges.drop_last();
        assert forall|j: int| k <= j < shorter.len() implies shorter[j].start > cp by {
            assert(shorter[j] == ranges[j]);
        }
        lemma_range_value_at(shorter, k, cp);
        assert(k > 0 ==> shorter[k - 1] == ranges[k - 1]);
    }
}

/// The ranges of records in ascending order are ordered, and none reaches
/// beyond the last record.
pub proof fn lemma_ranges_ordered(records: Seq<UnicodeRecord>)
    requires
        ascending(records),
    ensures
        ordered(ranges_of(records)),
        forall|i: int|
            0 <= i < ranges_of(records).len() ==> records.len() > 0 && (#[trigger] ranges_of(
                records,
            )[i]).end <= records.last().code_point,
    decreases records.len(),
{
    if records.len() > 0 {
        let earlier = records.drop_last();
        let record = records.last();
        assert forall|i: int, j: int| 0 <= i < j < earlier.len() implies earlier[i].code_point
            <= earlier[j].code_point by {
            assert(earlier[i] == records[i] && earlier[j] == records[j]);
        }
        lemma_ranges_ordered(earlier);
        let before = ranges_of(earlier);
        let after = ranges_of(records);
        assert(after == extend_ranges(before, record));
        if earlier.len() > 0 {
            assert(earlier.last() == records[records.len() - 2]);
            assert(earlier.last().code_point <= record.code_point);
        }
        match record.decimal_digit_value {
            None => {},
            Some(digit) => {
                let cp = record.code_point;
                if before.len() > 0 && continues(before.last(), cp, low_byte(digit)) {
                    assert forall|i: int| 0 <= i < after.len() implies (#[trigger] after[i]).start
                        <= after[i].end && after[i].base_val + (after[i].end - after[i].start)
                        <= 255 && after[i].end <= cp by {
                        if i < after.len() - 1 {
                            assert(after[i] == before[i]);
                        }
                    }
                    assert forall|i: int, j: int| 0 <= i < j < after.len() implies after[i].start
                        <= after[j].start by {
                        assert(after[i].start == before[i].start);
                        assert(after[j].start == before[j].start);
                    }
                } else {
                    assert forall|i: int| 0 <= i < after.len() implies (#[trigger] after[i]).start
                        <= after[i].end && after[i].base_val + (after[i].end - after[i].start)
                        <= 255 && after[i].end <= cp by {
                        if i < before.len() {
                            assert(after[i] == before[i]);
                        }
                    }
                    assert forall|i: int, j: int| 0 <= i < j < after.len() implies after[i].start
                        <= after[j].start by {
                        assert(after[i] == before[i]);
                        if j < before.len() {
                            assert(after[j] == before[j]);
                        }
                    }
                }
            },
        }
    }
}

/// Merges the records that carry a decimal digit value into ranges.
pub fn build_digit_ranges(records: &Vec<UnicodeRecord>) -> (ranges: Vec<DigitRange>)
    ensures
        ranges@ == ranges_of(records@),
{
    let mut ranges: Vec<DigitRange> = Vec::new();
    let mut i: usize = 0;
    assert(records@.take(0) =~= Seq::<UnicodeRecord>::empty());
    while i < records.len()
        invariant
            i <= records.len(),
            ranges@ == ranges_of(records@.take(i as int)),
        decreases records.len() - i,
    {
        let record = &records[i];
        proof {
            assert(records@.take(i + 1).drop_last() =~= records@.take(i as int));
            assert(records@.take(i + 1).last() == *record);
        }
        if let Some(digit) = record.decimal_digit_value {
            let value = (digit & 0xFF) as u8;
            let cp = record.code_point;
            let mut merged = false;
            let count = ranges.len();
            if count > 0 {
                let last = ranges[count - 1];
                if cp as i64 == last.end as i64 + 1 && value as i64 == last.base_val as i64 + (
                cp as i64 - last.start as i64) {
                    ranges.set(
                        count - 1,
                        DigitRange { start: last.start, end: cp, base_val: last.base_val },
                    );
                    merged = true;
                }
            }
            if !merged {
                ranges.push(DigitRange { start: cp, end: cp, base_val: value });
            }
            assert(ranges@ =~= extend_ranges(ranges_of(records@.take(i as int)), *record));
        }
        i += 1;
    }
    assert(records@.take(records.len() as int) =~= records@);
    ranges
}

/// The compiled digit table: the starts, ends and base values of the ranges,
/// side by side.
pub struct DigitTable {
    starts: Vec<u32>,
    ends: Vec<u32>,
    bases: Vec<u8>,
}

impl DigitTable {
    /// The ranges of the table.
    pub closed spec fn ranges(&self) -> Seq<DigitRange> {
        Seq::new(
            self.starts@.len(),
            |i: int|
                DigitRange {
                    start: self.starts@[i],
                    end: self.ends@[i],
                    base_val: self.bases@[i],
                },
        )
    }

    #[verifier::type_invariant]
    spec fn inv(&self) -> bool {
        &&& self.starts@.len() == self.ends@.len()
        &&& self.starts@.len() == self.bases@.len()
        &&& ordered(self.ranges())
    }

    /// Lays ordered ranges out as a table.
    pub fn from_ranges(ranges: &Vec<DigitRange>) -> (table: DigitTable)
        requires
            ordered(ranges@),
        ensures
            table.ranges() == ranges@,
    {
        let mut starts: Vec<u32> = Vec::new();
        let mut ends: Vec<u32> = Vec::new();
        let mut bases: Vec<u8> = Vec::new();
        let mut i: usize = 0;
        while i < ranges.len()
            invariant
                i <= ranges.len(),
                starts.len() == i,
                ends.len() == i,
                bases.len() == i,
                forall|j: int|
                    0 <= j < i ==> starts[j] == ranges[j].start && ends[j] == ranges[j].end
                        && bases[j] == ranges[j].base_val,
            decreases ranges.len() - i,
        {
            starts.push(ranges[i].start);
            ends.push(ranges[i].end);
            bases.push(ranges[i].base_val);
            i += 1;
        }
        proof {
            let laid = Seq::new(
                starts@.len(),
                |i: int| DigitRange { start: starts@[i], end: ends@[i], base_val: bases@[i] },
            );
            assert(laid =~= ranges@);
        }
        DigitTable { starts, ends, bases }
    }

    /// Compiles the digit table of records in ascending order.
    pub fn build(records: &Vec<UnicodeRecord>) -> (table: DigitTable)
        requires
            ascending(records@),
        ensures
            table.ranges() == ranges_of(records@),
    {
        let ranges = build_digit_ranges(records);
        proof {
            lemma_ranges_ordered(records@);
        }
        DigitTable::from_ranges(&ranges)
    }

    /// The decimal digit value of code point `cp`, or nothing where it has
    /// none.
    pub fn get_digit_value(&self, cp: u32) -> (value: Option<u8>)
        ensures
            value == digit_at(self.ranges(), cp as int),
    {
        proof {
            use_type_invariant(self);
        }
        if cp > MAX_CODEPOINT {
            return None;
        }
        if cp <= 0x7F {
            return if cp >= 0x30 && cp <= 0x39 {
                Some((cp - 0x30) as u8)
            } else {
                None
            };
        }
        let ghost ranges = self.ranges();
        let mut lo: usize = 0;
        let mut hi: usize = self.starts.len();
        while lo < hi
            invariant
                lo <= hi <= self.starts.len(),
                ranges == self.ranges(),
                ordered(ranges),
                forall|j: int| 0 <= j < lo ==> ranges[j].start <= cp,
                forall|j: int| hi <= j < ranges.len() ==> ranges[j].start > cp,
            decreases hi - lo,
        {
            let mid = lo + (hi - lo) / 2;
            assert(ranges[mid as int].start == self.starts[mid as int]);
            if self.starts[mid] <= cp {
                lo = mid + 1;
            } else {
                hi = mid;
            }
        }
        proof {
            lemma_range_value_at(ranges, lo as int, cp as int);
        }
        if lo > 0 {
            let i = lo - 1;
            assert(ranges[i as int].start == self.starts[i as int]);
            assert(ranges[i as int].end == self.ends[i as int]);
            assert(ranges[i as int].base_val == self.bases[i as int]);
            if cp <= self.ends[i] {
                let offset = cp - self.starts[i];
                return Some(self.bases[i] + offset as u8);
            }
        }
        None
    }

    /// The first code point of each range.
    pub fn starts(&self) -> (starts: &Vec<u32>)
        ensures
            starts@ == self.ranges().map_values(|r: DigitRange| r.start),
    {
        proof {
            use_type_invariant(self);
            assert(self.starts@ =~= self.ranges().map_values(|r: DigitRange| r.start));
        }
        &self.starts
    }

    /// The last code point of each range.
    pub fn ends(&self) -> (ends: &Vec<u32>)
        ensures
            ends@ == self.ranges().map_values(|r: DigitRange| r.end),
    {
        proof {
            use_type_invariant(self);
            assert(self.ends@ =~= self.ranges().map_values(|r: DigitRange| r.end));
        }
        &self.ends
    }

    /// The digit value of the first code point of each range.
    pub fn bases(&self) -> (bases: &Vec<u8>)
        ensures
            bases@ == self.ranges().map_values(|r: DigitRange| r.base_val),
    {
        proof {
            use_type_invariant(self);
            assert(self.bases@ =~= self.ranges().map_values(|r: DigitRange| r.base_val));
        }
        &self.bases
    }
}

} // verus!
