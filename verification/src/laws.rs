//! What the compiled tables owe to the records they were compiled from.
use vstd::prelude::*;
use crate::builder::{
    select, sorted_form, CompiledTables, RecordFilter, Unfiltered, UnipropsBuilder,
};
use crate::digits::{
    continues, digit_at, extend_ranges, lemma_range_value_at, low_byte, range_value, ranges_of,
    DigitRange,
};
use crate::record::{ascending, decimal_label, is_decimal, UnicodeRecord};
use crate::runs::{category_at, extend_runs, joins, lemma_category_at_cursor, runs_of, RunSpan};
use crate::selection::{
    lemma_select_all, lemma_select_ascending, lemma_select_neighbours, lemma_select_order,
    lemma_select_places, lemma_sorted_form_of_ascending, rank,
};
use crate::MAX_CODEPOINT;

verus! {

/// The records stand in strictly ascending order of their code points.
pub open spec fn strictly_increasing(records: Seq<UnicodeRecord>) -> bool {
    forall|i: int, j: int|
        0 <= i < j < records.len() ==> records[i].code_point < records[j].code_point
}

/// Some record has code point `cp`.
pub open spec fn listed(records: Seq<UnicodeRecord>, cp: int) -> bool {
    exists|i: int| 0 <= i < records.len() && (#[trigger] records[i]).code_point == cp
}

/// `cp` lies strictly between a record that closes a bracketed pair and the
/// record before it.
pub open spec fn bridged(records: Seq<UnicodeRecord>, cp: int) -> bool {
    exists|i: int|
        1 <= i < records.len() && (#[trigger] records[i]).closes_range() && records[i
            - 1].code_point < cp < records[i].code_point
}

/// `cp` lies in the run.
pub open spec fn within(run: RunSpan, cp: int) -> bool {
    run.start <= cp <= run.end
}

/// `cp` lies in the range.
pub open spec fn covers(range: DigitRange, cp: int) -> bool {
    range.start <= cp <= range.end
}

/// The records without the last one keep the order.
proof fn lemma_prefix_increasing(records: Seq<UnicodeRecord>)
    requires
        strictly_increasing(records),
        records.len() > 0,
    ensures
        strictly_increasing(records.drop_last()),
{
    let earlier = records.drop_last();
    assert forall|i: int, j: int| 0 <= i < j < earlier.len() implies earlier[i].code_point
        < earlier[j].code_point by {
        assert(earlier[i] == records[i] && earlier[j] == records[j]);
    }
}

/// What is listed or bridged in a prefix stays so in the whole.
proof fn lemma_listed_grows(records: Seq<UnicodeRecord>, cp: int)
    requires
        records.len() > 0,
    ensures
        listed(records.drop_last(), cp) ==> listed(records, cp),
        bridged(records.drop_last(), cp) ==> bridged(records, cp),
{
    let earlier = records.drop_last();
    if listed(earlier, cp) {
        let i = choose|i: int| 0 <= i < earlier.len() && (#[trigger] earlier[i]).code_point == cp;
        assert(records[i] == earlier[i]);
    }
    if bridged(earlier, cp) {
        let i = choose|i: int|
            1 <= i < earlier.len() && (#[trigger] earlier[i]).closes_range() && earlier[i
                - 1].code_point < cp < earlier[i].code_point;
        assert(records[i] == earlier[i] && records[i - 1] == earlier[i - 1]);
    }
}

/// The last run ends at the last record, and every code point of a run is a
/// record's own or lies in the gap that a closing record bridges.
pub proof fn lemma_runs_hold_records(records: Seq<UnicodeRecord>)
    ensures
        records.len() == 0 ==> runs_of(records).len() == 0,
        records.len() > 0 ==> runs_of(records).len() > 0 && runs_of(records).last().end
            == records.last().code_point,
        forall|k: int, cp: int|
            0 <= k < runs_of(records).len() && #[trigger] within(runs_of(records)[k], cp)
                ==> listed(records, cp) || bridged(records, cp),
    decreases records.len(),
{
    if records.len() > 0 {
        let earlier = records.drop_last();
        let record = records.last();
        lemma_runs_hold_records(earlier);
        let before = runs_of(earlier);
        let after = runs_of(records);
        assert(after == extend_runs(before, record));
        let n = records.len() - 1;
        assert forall|k: int, cp: int|
            0 <= k < after.len() && #[trigger] within(after[k], cp) implies listed(records, cp)
            || bridged(records, cp) by {
            lemma_listed_grows(records, cp);
            if before.len() > 0 && joins(before.last(), record) {
                if k < after.len() - 1 {
                    assert(after[k] == before[k]);
                    assert(within(before[k], cp));
                } else if cp <= before.last().end {
                    assert(within(before[k], cp));
                } else if cp == record.code_point {
                    assert(records[n].code_point == cp);
                } else {
                    assert(earlier.last() == records[n - 1]);
                    assert(record.closes_range());
                    assert(records[n].closes_range() && records[n - 1].code_point < cp
                        < records[n].code_point);
                }
            } else {
                if k < before.len() {
                    assert(after[k] == before[k]);
                    assert(within(before[k], cp));
                } else {
                    assert(records[n].code_point == cp);
                }
            }
        }
    }
}

/// Whatever category a code point has, it has from a run that holds it.
pub proof fn lemma_category_from_run(runs: Seq<RunSpan>, cp: int)
    ensures
        category_at(runs, cp) matches Some(c) ==> exists|k: int|
            0 <= k < runs.len() && #[trigger] within(runs[k], cp) && runs[k].category == c,
    decreases runs.len(),
{
    if runs.len() == 0 {
    } else if cp <= runs[0].end {
        if runs[0].start <= cp {
            assert(within(runs[0], cp));
        }
    } else {
        let rest = runs.drop_first();
        lemma_category_from_run(rest, cp);
        if let Some(c) = category_at(rest, cp) {
            let k = choose|k: int|
                0 <= k < rest.len() && #[trigger] within(rest[k], cp) && rest[k].category == c;
            assert(runs[k + 1] == rest[k]);
            assert(within(runs[k + 1], cp));
        }
    }
}

/// Whatever digit value a code point has from the ranges, it has from a
/// range that covers it.
pub proof fn lemma_value_from_range(ranges: Seq<DigitRange>, cp: int)
    ensures
        range_value(ranges, cp) is Some ==> exists|k: int|
            0 <= k < ranges.len() && #[trigger] covers(ranges[k], cp),
    decreases ranges.len(),
{
    if ranges.len() == 0 {
    } else {
        let last = ranges.last();
        if last.start <= cp {
            if cp <= last.end {
                assert(covers(ranges[ranges.len() - 1], cp));
            }
        } else {
            let shorter = ranges.drop_last();
            lemma_value_from_range(shorter, cp);
            if range_value(shorter, cp) is Some {
                let k = choose|k: int| 0 <= k < shorter.len() && #[trigger] covers(shorter[k], cp);
                assert(ranges[k] == shorter[k]);
                assert(covers(ranges[k], cp));
            }
        }
    }
}

/// Some record with a decimal digit value has code point `cp`.
pub open spec fn listed_digit(records: Seq<UnicodeRecord>, cp: int) -> bool {
    exists|i: int|
        0 <= i < records.len() && (#[trigger] records[i]).code_point == cp
            && records[i].decimal_digit_value is Some
}

/// No range is empty, and every code point of a range is that of a record
/// with a decimal digit value.
pub proof fn lemma_ranges_hold_digits(records: Seq<UnicodeRecord>)
    ensures
        forall|k: int|
            0 <= k < ranges_of(records).len() ==> (#[trigger] ranges_of(records)[k]).start
                <= ranges_of(records)[k].end,
        forall|k: int, cp: int|
            0 <= k < ranges_of(records).len() && #[trigger] covers(ranges_of(records)[k], cp)
                ==> listed_digit(records, cp),
    decreases records.len(),
{
    if records.len() > 0 {
        let earlier = records.drop_last();
        let record = records.last();
        lemma_ranges_hold_digits(earlier);
        let before = ranges_of(earlier);
        let after = ranges_of(records);
        assert(after == extend_ranges(before, record));
        let n = records.len() - 1;
        assert forall|k: int| 0 <= k < after.len() implies (#[trigger] after[k]).start
            <= after[k].end by {
            if k < before.len() {
                assert(before[k].start <= before[k].end);
            }
        }
        assert forall|k: int, cp: int|
            0 <= k < after.len() && #[trigger] covers(after[k], cp) implies listed_digit(
            records,
            cp,
        ) by {
            if cp == record.code_point && record.decimal_digit_value is Some {
                assert(records[n].code_point == cp);
            } else {
                assert(k < before.len() && covers(before[k], cp));
                let i = choose|i: int|
                    0 <= i < earlier.len() && (#[trigger] earlier[i]).code_point == cp
                        && earlier[i].decimal_digit_value is Some;
                assert(records[i] == earlier[i]);
            }
        }
    }
}

/// A code point that no record has is unassigned in both tables: it has no
/// category unless a closing record bridges it, and no digit value unless it
/// is one of `'0'` to `'9'`.
pub proof fn lemma_absent_is_unassigned(records: Seq<UnicodeRecord>, cp: int)
    requires
        !listed(records, cp),
    ensures
        !bridged(records, cp) ==> category_at(runs_of(records), cp) is None,
        !(0x30 <= cp <= 0x39) ==> digit_at(ranges_of(records), cp) is None,
{
    lemma_runs_hold_records(records);
    lemma_category_from_run(runs_of(records), cp);
    lemma_ranges_hold_digits(records);
    lemma_value_from_range(ranges_of(records), cp);
    if listed_digit(records, cp) {
        let i = choose|i: int|
            0 <= i < records.len() && (#[trigger] records[i]).code_point == cp
                && records[i].decimal_digit_value is Some;
        assert(listed(records, cp));
    }
}

/// Some record of the decimal digit category has code point `cp`.
pub open spec fn listed_decimal(records: Seq<UnicodeRecord>, cp: int) -> bool {
    exists|i: int|
        0 <= i < records.len() && (#[trigger] records[i]).code_point == cp && is_decimal(
            records[i],
        )
}

/// A closing record and the record before it are decimal digits both or
/// neither, and decimal digits only where nothing lies between them.
pub open spec fn closes_cleanly(before: UnicodeRecord, closing: UnicodeRecord) -> bool {
    &&& is_decimal(closing) <==> is_decimal(before)
    &&& is_decimal(before) ==> closing.code_point == before.code_point + 1
}

/// A record set whose two tables agree: the records ascend strictly; a
/// record is a decimal digit exactly if it carries a decimal digit value; no
/// bracketed pair spreads the decimal digit category over a gap or takes it
/// from a digit; and up to U+007F the decimal digits are `'0'` to `'9'`.
pub open spec fn consistent(records: Seq<UnicodeRecord>) -> bool {
    &&& orderly(records)
    &&& forall|i: int|
        0 <= i < records.len() ==> (is_decimal(#[trigger] records[i])
            <==> records[i].decimal_digit_value is Some)
    &&& forall|cp: int|
        0 <= cp <= 0x7F ==> (#[trigger] listed_decimal(records, cp) <==> 0x30 <= cp <= 0x39)
}

/// The part of consistency that every prefix of the records keeps: the
/// order, and that every closing record closes cleanly.
pub open spec fn orderly(records: Seq<UnicodeRecord>) -> bool {
    &&& strictly_increasing(records)
    &&& forall|i: int|
        1 <= i < records.len() && (#[trigger] records[i]).closes_range() ==> closes_cleanly(
            records[i - 1],
            records[i],
        )
}

/// The records without the last one stay orderly.
proof fn lemma_prefix_orderly(records: Seq<UnicodeRecord>)
    requires
        orderly(records),
        records.len() > 0,
    ensures
        orderly(records.drop_last()),
{
    let earlier = records.drop_last();
    lemma_prefix_increasing(records);
    assert forall|i: int|
        1 <= i < earlier.len() && (#[trigger] earlier[i]).closes_range() implies closes_cleanly(
        earlier[i - 1],
        earlier[i],
    ) by {
        assert(earlier[i] == records[i] && earlier[i - 1] == records[i - 1]);
    }
}

/// The runs of strictly ascending records: none is empty, and each ends
/// below the start of the next.
pub proof fn lemma_runs_disjoint(records: Seq<UnicodeRecord>)
    requires
        strictly_increasing(records),
    ensures
        forall|k: int|
            0 <= k < runs_of(records).len() ==> (#[trigger] runs_of(records)[k]).start <= runs_of(
                records,
            )[k].end,
        forall|k: int, l: int|
            0 <= k < l < runs_of(records).len() ==> (#[trigger] runs_of(records)[k]).end < (
            #[trigger] runs_of(records)[l]).start,
    decreases records.len(),
{
    if records.len() > 0 {
        let earlier = records.drop_last();
        let record = records.last();
        lemma_prefix_increasing(records);
        lemma_runs_disjoint(earlier);
        lemma_runs_hold_records(earlier);
        let before = runs_of(earlier);
        let after = runs_of(records);
        assert(after == extend_runs(before, record));
        if earlier.len() > 0 {
            assert(earlier.last() == records[records.len() - 2]);
            assert(before.last().end < record.code_point);
        }
        assert forall|k: int| 0 <= k < after.len() implies (#[trigger] after[k]).start
            <= after[k].end by {
            if k < before.len() {
                assert(before[k].start <= before[k].end);
            }
        }
        assert forall|k: int, l: int| 0 <= k < l < after.len() implies (#[trigger] after[k]).end < (
        #[trigger] after[l]).start by {
            assert(after[k] == before[k]);
            if l < before.len() {
                assert(after[l].start == before[l].start);
                assert(before[k].end < before[l].start);
            } else {
                if k < before.len() - 1 {
                    assert(before[k].end < before[before.len() - 1].start);
                }
            }
        }
    }
}

/// In disjoint runs, a run that holds `cp` gives `cp` its category.
pub proof fn lemma_category_of_run(runs: Seq<RunSpan>, k: int, cp: int)
    requires
        0 <= k < runs.len(),
        within(runs[k], cp),
        forall|a: int, b: int|
            0 <= a < b < runs.len() ==> (#[trigger] runs[a]).end < (#[trigger] runs[b]).start,
    ensures
        category_at(runs, cp) == Some(runs[k].category),
{
    lemma_category_at_cursor(runs, k, cp);
}

/// In ordered, disjoint ranges, a range that covers `cp` gives `cp` a
/// digit value.
pub proof fn lemma_value_of_range(ranges: Seq<DigitRange>, k: int, cp: int)
    requires
        0 <= k < ranges.len(),
        covers(ranges[k], cp),
        forall|a: int, b: int|
            0 <= a < b < ranges.len() ==> (#[trigger] ranges[a]).end < (#[trigger] ranges[b]).start,
    ensures
        range_value(ranges, cp) == Some((ranges[k].base_val + (cp - ranges[k].start)) as u8),
{
    lemma_range_value_at(ranges, k + 1, cp);
}

/// How the decimal digit category sits in the runs of orderly records: the
/// last run is decimal exactly if the last record is; a decimal run holds
/// nothing but the code points of decimal records; and every decimal record
/// lies in a decimal run.
pub proof fn lemma_decimal_runs(records: Seq<UnicodeRecord>)
    requires
        orderly(records),
    ensures
        records.len() > 0 ==> (runs_of(records).last().category == decimal_label() <==> is_decimal(
            records.last(),
        )),
        forall|k: int, cp: int|
            0 <= k < runs_of(records).len() && runs_of(records)[k].category == decimal_label()
                && #[trigger] within(runs_of(records)[k], cp) ==> listed_decimal(records, cp),
        forall|i: int|
            0 <= i < records.len() && is_decimal(#[trigger] records[i]) ==> exists|k: int|
                0 <= k < runs_of(records).len() && #[trigger] within(
                    runs_of(records)[k],
                    records[i].code_point as int,
                ) && runs_of(records)[k].category == decimal_label(),
    decreases records.len(),
{
    if records.len() > 0 {
        let earlier = records.drop_last();
        let record = records.last();
        let n = records.len() - 1;
        lemma_prefix_orderly(records);
        lemma_decimal_runs(earlier);
        lemma_runs_hold_records(earlier);
        lemma_runs_hold_records(records);
        lemma_runs_disjoint(earlier);
        lemma_runs_disjoint(records);
        let before = runs_of(earlier);
        let after = runs_of(records);
        assert(after == extend_runs(before, record));
        let joined = before.len() > 0 && joins(before.last(), record);
        if earlier.len() > 0 {
            assert(earlier.last() == records[n - 1]);
            assert(records[n - 1].code_point < records[n].code_point);
        }
        if joined && record.closes_range() {
            assert(records[n].closes_range());
            assert(closes_cleanly(records[n - 1], records[n]));
            assert(before.last().category == decimal_label() <==> is_decimal(record));
        }
        assert forall|k: int, cp: int|
            0 <= k < after.len() && after[k].category == decimal_label() && #[trigger] within(
                after[k],
                cp,
            ) implies listed_decimal(records, cp) by {
            if cp == record.code_point && is_decimal(record) {
                assert(records[n].code_point == cp);
            } else {
                if joined {
                    if k < after.len() - 1 {
                        assert(after[k] == before[k]);
                    } else {
                        assert(after[k].category == before[k].category);
                        assert(cp <= before[k].end);
                    }
                } else {
                    if k < before.len() {
                        assert(after[k] == before[k]);
                    }
                }
                assert(k < before.len() && before[k].category == decimal_label() && within(
                    before[k],
                    cp,
                ));
                let i = choose|i: int|
                    0 <= i < earlier.len() && (#[trigger] earlier[i]).code_point == cp
                        && is_decimal(earlier[i]);
                assert(records[i] == earlier[i]);
            }
        }
        assert forall|i: int|
            0 <= i < records.len() && is_decimal(#[trigger] records[i]) implies exists|k: int|
            0 <= k < after.len() && #[trigger] within(after[k], records[i].code_point as int)
                && after[k].category == decimal_label() by {
            if i == n {
                let k = after.len() - 1;
                assert(after[k].end == record.code_point);
                assert(after[k].start <= after[k].end);
                assert(within(after[k], records[i].code_point as int));
            } else {
                assert(records[i] == earlier[i]);
                let k = choose|k: int|
                    0 <= k < before.len() && #[trigger] within(
                        before[k],
                        earlier[i].code_point as int,
                    ) && before[k].category == decimal_label();
                if joined && k == before.len() - 1 {
                    assert(after[k].start == before[k].start && after[k].end >= before[k].end);
                } else {
                    assert(after[k] == before[k]);
                }
                assert(within(after[k], records[i].code_point as int));
            }
        }
    }
}

/// The ranges of strictly ascending records: each ends below the start of
/// the next, and every record with a decimal digit value lies in one.
pub proof fn lemma_ranges_disjoint(records: Seq<UnicodeRecord>)
    requires
        strictly_increasing(records),
    ensures
        forall|k: int, l: int|
            0 <= k < l < ranges_of(records).len() ==> (#[trigger] ranges_of(records)[k]).end < (
            #[trigger] ranges_of(records)[l]).start,
        forall|k: int|
            0 <= k < ranges_of(records).len() ==> records.len() > 0 && (#[trigger] ranges_of(
                records,
            )[k]).end <= records.last().code_point,
        forall|i: int|
            0 <= i < records.len() && (#[trigger] records[i]).decimal_digit_value is Some
                ==> exists|k: int|
                0 <= k < ranges_of(records).len() && #[trigger] covers(
                    ranges_of(records)[k],
                    records[i].code_point as int,
                ),
    decreases records.len(),
{
    if records.len() > 0 {
        let earlier = records.drop_last();
        let record = records.last();
        let n = records.len() - 1;
        lemma_prefix_increasing(records);
        lemma_ranges_disjoint(earlier);
        lemma_ranges_hold_digits(earlier);
        lemma_ranges_hold_digits(records);
        let before = ranges_of(earlier);
        let after = ranges_of(records);
        assert(after == extend_ranges(before, record));
        if earlier.len() > 0 {
            assert(earlier.last() == records[n - 1]);
            assert(records[n - 1].code_point < records[n].code_point);
        }
        let merged = record.decimal_digit_value is Some && before.len() > 0 && continues(
            before.last(),
            record.code_point,
            low_byte(record.decimal_digit_value->0),
        );
        assert forall|k: int| 0 <= k < after.len() implies (#[trigger] after[k]).end
            <= record.code_point by {
            if k < before.len() {
                assert(before[k].end <= earlier.last().code_point);
            }
        }
        assert forall|k: int, l: int| 0 <= k < l < after.len() implies (#[trigger] after[k]).end < (
        #[trigger] after[l]).start by {
            assert(after[k] == before[k]);
            if l < before.len() {
                assert(after[l].start == before[l].start);
                assert(before[k].end < before[l].start);
            } else {
                assert(before[k].end <= earlier.last().code_point);
            }
        }
        assert forall|i: int|
            0 <= i < records.len() && (#[trigger] records[i]).decimal_digit_value
                is Some implies exists|k: int|
            0 <= k < after.len() && #[trigger] covers(after[k], records[i].code_point as int) by {
            if i == n {
                let k = after.len() - 1;
                assert(after[k].end == record.code_point);
                assert(after[k].start <= after[k].end);
                assert(covers(after[k], records[i].code_point as int));
            } else {
                assert(records[i] == earlier[i]);
                let k = choose|k: int|
                    0 <= k < before.len() && #[trigger] covers(
                        before[k],
                        earlier[i].code_point as int,
                    );
                if merged && k == before.len() - 1 {
                    assert(after[k].start == before[k].start && after[k].end >= before[k].end);
                } else {
                    assert(after[k] == before[k]);
                }
                assert(covers(after[k], records[i].code_point as int));
            }
        }
    }
}

/// The two tables of a consistent record set agree: a code point has the
/// decimal digit category exactly if it has a decimal digit value.
pub proof fn lemma_decimal_iff_digit(records: Seq<UnicodeRecord>, cp: int)
    requires
        consistent(records),
        0 <= cp <= MAX_CODEPOINT,
    ensures
        category_at(runs_of(records), cp) == Some(decimal_label()) <==> digit_at(
            ranges_of(records),
            cp,
        ) is Some,
{
    let runs = runs_of(records);
    let ranges = ranges_of(records);
    lemma_decimal_runs(records);
    lemma_runs_disjoint(records);
    lemma_ranges_disjoint(records);
    lemma_ranges_hold_digits(records);
    lemma_category_from_run(runs, cp);
    lemma_value_from_range(ranges, cp);
    // The category is decimal exactly if a decimal record has this code point.
    if category_at(runs, cp) == Some(decimal_label()) {
        let k = choose|k: int|
            0 <= k < runs.len() && #[trigger] within(runs[k], cp) && runs[k].category
                == decimal_label();
        assert(listed_decimal(records, cp));
    }
    if listed_decimal(records, cp) {
        let i = choose|i: int|
            0 <= i < records.len() && (#[trigger] records[i]).code_point == cp && is_decimal(
                records[i],
            );
        let k = choose|k: int|
            0 <= k < runs.len() && #[trigger] within(runs[k], records[i].code_point as int)
                && runs[k].category == decimal_label();
        lemma_category_of_run(runs, k, cp);
        assert(records[i].decimal_digit_value is Some);
        assert(listed_digit(records, cp));
    }
    // Beyond U+007F, it has a digit value exactly if a record with a value has it.
    if cp > 0x7F {
        if range_value(ranges, cp) is Some {
            let k = choose|k: int| 0 <= k < ranges.len() && #[trigger] covers(ranges[k], cp);
            assert(listed_digit(records, cp));
        }
        if listed_digit(records, cp) {
            let i = choose|i: int|
                0 <= i < records.len() && (#[trigger] records[i]).code_point == cp
                    && records[i].decimal_digit_value is Some;
            let k = choose|k: int|
                0 <= k < ranges.len() && #[trigger] covers(ranges[k], records[i].code_point as int);
            lemma_value_of_range(ranges, k, cp);
            assert(is_decimal(records[i]));
            assert(listed_decimal(records, cp));
        }
    }
}

/// Every record that the filter kept is one of the records, with its flag
/// set.
pub proof fn lemma_select_members(records: Seq<UnicodeRecord>, flags: Seq<bool>, j: int)
    requires
        flags.len() == records.len(),
        0 <= j < select(records, flags).len(),
    ensures
        exists|i: int|
            0 <= i < records.len() && flags[i] && #[trigger] records[i] == select(
                records,
                flags,
            )[j],
    decreases records.len(),
{
    let earlier = records.drop_last();
    let rest = select(earlier, flags.drop_last());
    if flags.last() && j == rest.len() {
        assert(records[records.len() - 1] == select(records, flags)[j]);
    } else {
        lemma_select_members(earlier, flags.drop_last(), j);
        let i = choose|i: int|
            0 <= i < earlier.len() && flags.drop_last()[i] && #[trigger] earlier[i] == rest[j];
        assert(records[i] == earlier[i] && flags[i]);
    }
}

/// A code point whose records the filter turned down, one and all, is unassigned
/// in both tables: it has no category unless a closing record bridges it, and
/// no digit value unless it is one of `'0'` to `'9'`.
pub proof fn lemma_excluded_is_unassigned(
    records: Seq<UnicodeRecord>,
    flags: Seq<bool>,
    sorted: Seq<UnicodeRecord>,
    cp: int,
)
    requires
        flags.len() == records.len(),
        forall|i: int|
            0 <= i < records.len() && (#[trigger] records[i]).code_point == cp ==> !flags[i],
        sorted_form(select(records, flags), sorted),
    ensures
        !listed(sorted, cp),
        !bridged(sorted, cp) ==> category_at(runs_of(sorted), cp) is None,
        !(0x30 <= cp <= 0x39) ==> digit_at(ranges_of(sorted), cp) is None,
{
    let kept = select(records, flags);
    if listed(sorted, cp) {
        let j = choose|j: int| 0 <= j < sorted.len() && (#[trigger] sorted[j]).code_point == cp;
        sorted.to_multiset_ensures();
        kept.to_multiset_ensures();
        assert(sorted.contains(sorted[j]));
        assert(sorted.to_multiset().count(sorted[j]) > 0);
        assert(kept.to_multiset().count(sorted[j]) > 0);
        assert(kept.contains(sorted[j]));
        let k = choose|k: int| 0 <= k < kept.len() && kept[k] == sorted[j];
        lemma_select_members(records, flags, k);
    }
    lemma_absent_is_unassigned(sorted, cp);
}

/// The two records of a bracketed pair share a category.
pub open spec fn paired(records: Seq<UnicodeRecord>) -> bool {
    forall|j: int|
        1 <= j < records.len() && (#[trigger] records[j]).closes_range()
            ==> records[j].general_category@ == records[j - 1].general_category@
}

/// Some run of category `category` holds every code point from `lo` to
/// `hi`.
pub open spec fn spanned(runs: Seq<RunSpan>, lo: int, hi: int, category: Seq<char>) -> bool {
    exists|k: int|
        0 <= k < runs.len() && (#[trigger] runs[k]).start <= lo && hi <= runs[k].end
            && runs[k].category == category
}

/// What a run holds, it still holds after a record that lies beyond the
/// last run.
proof fn lemma_spanned_grows(
    before: Seq<RunSpan>,
    record: UnicodeRecord,
    lo: int,
    hi: int,
    category: Seq<char>,
)
    requires
        spanned(before, lo, hi, category),
        before.last().end <= record.code_point,
    ensures
        spanned(extend_runs(before, record), lo, hi, category),
{
    let after = extend_runs(before, record);
    let k = choose|k: int|
        0 <= k < before.len() && (#[trigger] before[k]).start <= lo && hi <= before[k].end
            && before[k].category == category;
    if joins(before.last(), record) && k == before.len() - 1 {
        assert(after[k].start == before[k].start && after[k].end >= before[k].end
            && after[k].category == before[k].category);
    } else {
        assert(after[k] == before[k]);
    }
}

/// How the runs of strictly ascending records with matching pairs name the
/// records: the last run has the category of the last record; every record
/// lies in a run of its own category; and a bracketed pair lies in one run
/// of its category.
pub proof fn lemma_runs_name_records(records: Seq<UnicodeRecord>)
    requires
        strictly_increasing(records),
        paired(records),
    ensures
        records.len() > 0 ==> runs_of(records).last().category == records.last().general_category@,
        forall|i: int|
            0 <= i < records.len() ==> spanned(
                runs_of(records),
                (#[trigger] records[i]).code_point as int,
                records[i].code_point as int,
                records[i].general_category@,
            ),
        forall|j: int|
            1 <= j < records.len() && (#[trigger] records[j]).closes_range() ==> spanned(
                runs_of(records),
                records[j - 1].code_point as int,
                records[j].code_point as int,
                records[j].general_category@,
            ),
    decreases records.len(),
{
    if records.len() > 0 {
        let earlier = records.drop_last();
        let record = records.last();
        let n = records.len() - 1;
        lemma_prefix_increasing(records);
        assert forall|j: int|
            1 <= j < earlier.len() && (#[trigger] earlier[j]).closes_range() implies earlier[j]
            .general_category@ == earlier[j - 1].general_category@ by {
            assert(earlier[j] == records[j] && earlier[j - 1] == records[j - 1]);
        }
        lemma_runs_name_records(earlier);
        lemma_runs_hold_records(earlier);
        lemma_runs_disjoint(earlier);
        let before = runs_of(earlier);
        let after = runs_of(records);
        assert(after == extend_runs(before, record));
        let joined = before.len() > 0 && joins(before.last(), record);
        if earlier.len() > 0 {
            assert(earlier.last() == records[n - 1]);
            assert(records[n - 1].code_point < records[n].code_point);
            if record.closes_range() {
                assert(records[n].closes_range());
                assert(record.general_category@ == earlier.last().general_category@);
            }
        }
        let top = after.len() - 1;
        assert(after[top].end == record.code_point);
        assert(after[top].category == record.general_category@);
        if joined {
            assert(after[top].start == before.last().start);
            assert(before.last().start <= before.last().end);
        }
        assert(after[top].start <= record.code_point);
        assert forall|i: int| 0 <= i < records.len() implies spanned(
            after,
            (#[trigger] records[i]).code_point as int,
            records[i].code_point as int,
            records[i].general_category@,
        ) by {
            if i == n {
                assert(after[top].start <= records[i].code_point <= after[top].end);
            } else {
                assert(records[i] == earlier[i]);
                lemma_spanned_grows(
                    before,
                    record,
                    earlier[i].code_point as int,
                    earlier[i].code_point as int,
                    earlier[i].general_category@,
                );
            }
        }
        assert forall|j: int|
            1 <= j < records.len() && (#[trigger] records[j]).closes_range() implies spanned(
            after,
            records[j - 1].code_point as int,
            records[j].code_point as int,
            records[j].general_category@,
        ) by {
            if j == n {
                assert(joined);
                assert(after[top].start <= records[j - 1].code_point);
            } else {
                assert(records[j] == earlier[j] && records[j - 1] == earlier[j - 1]);
                lemma_spanned_grows(
                    before,
                    record,
                    earlier[j - 1].code_point as int,
                    earlier[j].code_point as int,
                    earlier[j].general_category@,
                );
            }
        }
    }
}

/// In disjoint runs, a run that spans `cp` gives `cp` its category.
proof fn lemma_category_of_span(runs: Seq<RunSpan>, lo: int, hi: int, category: Seq<char>, cp: int)
    requires
        spanned(runs, lo, hi, category),
        lo <= cp <= hi,
        forall|a: int, b: int|
            0 <= a < b < runs.len() ==> (#[trigger] runs[a]).end < (#[trigger] runs[b]).start,
    ensures
        category_at(runs, cp) == Some(category),
{
    let k = choose|k: int|
        0 <= k < runs.len() && (#[trigger] runs[k]).start <= lo && hi <= runs[k].end
            && runs[k].category == category;
    lemma_category_of_run(runs, k, cp);
}

/// The category table gives the code point of every record the record's
/// own category.
pub proof fn lemma_record_category(records: Seq<UnicodeRecord>, i: int)
    requires
        strictly_increasing(records),
        paired(records),
        0 <= i < records.len(),
    ensures
        category_at(runs_of(records), records[i].code_point as int) == Some(
            records[i].general_category@,
        ),
{
    lemma_runs_name_records(records);
    lemma_runs_disjoint(records);
    let cp = records[i].code_point as int;
    lemma_category_of_span(runs_of(records), cp, cp, records[i].general_category@, cp);
}

/// The category table gives every code point of a bracketed pair, from its
/// first record to its last, the category of the pair.
pub proof fn lemma_bracket_category(records: Seq<UnicodeRecord>, j: int, cp: int)
    requires
        strictly_increasing(records),
        paired(records),
        1 <= j < records.len(),
        records[j].closes_range(),
        records[j - 1].code_point <= cp <= records[j].code_point,
    ensures
        category_at(runs_of(records), cp) == Some(records[j].general_category@),
{
    lemma_runs_name_records(records);
    lemma_runs_disjoint(records);
    lemma_category_of_span(
        runs_of(records),
        records[j - 1].code_point as int,
        records[j].code_point as int,
        records[j].general_category@,
        cp,
    );
}

/// Some record with code point `cp` carries a digit value whose low byte is
/// `value`.
pub open spec fn listed_value(records: Seq<UnicodeRecord>, cp: int, value: int) -> bool {
    exists|i: int|
        0 <= i < records.len() && (#[trigger] records[i]).code_point == cp
            && records[i].decimal_digit_value is Some && low_byte(
            records[i].decimal_digit_value->0,
        ) == value
}

/// The value that a range has for a code point is the value that a record
/// carries for it.
pub proof fn lemma_ranges_hold_values(records: Seq<UnicodeRecord>)
    ensures
        forall|k: int, cp: int|
            0 <= k < ranges_of(records).len() && #[trigger] covers(ranges_of(records)[k], cp)
                ==> listed_value(
                records,
                cp,
                ranges_of(records)[k].base_val + (cp - ranges_of(records)[k].start),
            ),
    decreases records.len(),
{
    if records.len() > 0 {
        let earlier = records.drop_last();
        let record = records.last();
        lemma_ranges_hold_values(earlier);
        lemma_ranges_hold_digits(earlier);
        let before = ranges_of(earlier);
        let after = ranges_of(records);
        assert(after == extend_ranges(before, record));
        let n = records.len() - 1;
        assert forall|k: int, cp: int|
            0 <= k < after.len() && #[trigger] covers(after[k], cp) implies listed_value(
            records,
            cp,
            after[k].base_val + (cp - after[k].start),
        ) by {
            if k < before.len() && covers(before[k], cp) {
                assert(after[k].base_val == before[k].base_val && after[k].start
                    == before[k].start);
                let value = before[k].base_val + (cp - before[k].start);
                let i = choose|i: int|
                    0 <= i < earlier.len() && (#[trigger] earlier[i]).code_point == cp
                        && earlier[i].decimal_digit_value is Some && low_byte(
                        earlier[i].decimal_digit_value->0,
                    ) == value;
                assert(records[i] == earlier[i]);
            } else {
                assert(record.decimal_digit_value is Some);
                assert(cp == record.code_point);
                assert(records[n].code_point == cp);
            }
        }
    }
}

/// Beyond U+007F the digit table gives the code point of every record that
/// carries a decimal digit value that value.
pub proof fn lemma_record_digit(records: Seq<UnicodeRecord>, i: int)
    requires
        strictly_increasing(records),
        0 <= i < records.len(),
        records[i].decimal_digit_value is Some,
        0x7F < records[i].code_point <= MAX_CODEPOINT,
    ensures
        digit_at(ranges_of(records), records[i].code_point as int) == Some(
            low_byte(records[i].decimal_digit_value->0),
        ),
{
    let ranges = ranges_of(records);
    let cp = records[i].code_point as int;
    lemma_ranges_disjoint(records);
    lemma_ranges_hold_values(records);
    let k = choose|k: int| 0 <= k < ranges.len() && #[trigger] covers(ranges[k], cp);
    lemma_value_of_range(ranges, k, cp);
    let value = ranges[k].base_val + (cp - ranges[k].start);
    assert(listed_value(records, cp, value));
    let o = choose|o: int|
        0 <= o < records.len() && (#[trigger] records[o]).code_point == cp
            && records[o].decimal_digit_value is Some && low_byte(
            records[o].decimal_digit_value->0,
        ) == value;
    if o < i {
        assert(records[o].code_point < records[i].code_point);
    } else if i < o {
        assert(records[i].code_point < records[o].code_point);
    }
}

/// The two tables of one compilation agree on the decimal digits of a
/// consistent record set: the category query names the decimal digit
/// category exactly where the digit query has a value.
pub proof fn lemma_tables_agree(tables: CompiledTables, records: Seq<UnicodeRecord>, cp: int)
    requires
        tables.compiled_from(records, true, true),
        consistent(records),
        0 <= cp <= MAX_CODEPOINT,
    ensures
        tables.categories->0.lookup(cp) == Some(decimal_label()) <==> digit_at(
            tables.digits->0.ranges(),
            cp,
        ) is Some,
{
    tables.categories->0.lemma_lookup(runs_of(records));
    lemma_decimal_iff_digit(records, cp);
}

/// Records in strictly ascending order are in ascending order.
pub proof fn lemma_increasing_is_ascending(records: Seq<UnicodeRecord>)
    requires
        strictly_increasing(records),
    ensures
        ascending(records),
{
}

/// From records in ascending order, a compilation gives the tables of the
/// records that the filter kept, in the order in which they came.
pub proof fn lemma_course_of_ascending<F: RecordFilter>(
    builder: UnipropsBuilder<F>,
    records: Seq<UnicodeRecord>,
    flags: Seq<bool>,
    sorted: Seq<UnicodeRecord>,
    tables: CompiledTables,
)
    requires
        builder.course(records, flags, sorted, tables),
        ascending(records),
    ensures
        sorted == select(records, flags),
        tables.compiled_from(
            select(records, flags),
            builder.categories_enabled(),
            builder.digits_enabled(),
        ),
{
    lemma_select_ascending(records, flags);
    lemma_sorted_form_of_ascending(select(records, flags), sorted);
}

/// With the filter that lets every record take part, a compilation of
/// records in ascending order gives the tables of those records.
pub proof fn lemma_unfiltered_course(
    builder: UnipropsBuilder<Unfiltered>,
    records: Seq<UnicodeRecord>,
    tables: CompiledTables,
)
    requires
        exists|flags: Seq<bool>, sorted: Seq<UnicodeRecord>| #[trigger]
            builder.course(records, flags, sorted, tables),
        ascending(records),
    ensures
        tables.compiled_from(records, builder.categories_enabled(), builder.digits_enabled()),
{
    let (flags, sorted) = choose|flags: Seq<bool>, sorted: Seq<UnicodeRecord>| #[trigger]
        builder.course(records, flags, sorted, tables);
    assert forall|i: int| 0 <= i < flags.len() implies flags[i] by {
        assert(builder.predicate().answers(&records[i], flags[i]));
    }
    lemma_select_all(records, flags);
    lemma_course_of_ascending(builder, records, flags, sorted, tables);
}

/// No run goes on where the run before it stops with the same category:
/// the runs are as long as they can be.
pub proof fn lemma_runs_maximal(records: Seq<UnicodeRecord>)
    ensures
        forall|k: int|
            0 <= k < runs_of(records).len() - 1 ==> !((#[trigger] runs_of(records)[k]).end + 1
                == runs_of(records)[k + 1].start && runs_of(records)[k].category == runs_of(
                records,
            )[k + 1].category),
    decreases records.len(),
{
    if records.len() > 0 {
        let earlier = records.drop_last();
        let record = records.last();
        lemma_runs_maximal(earlier);
        let before = runs_of(earlier);
        let after = runs_of(records);
        assert(after == extend_runs(before, record));
        assert forall|k: int| 0 <= k < after.len() - 1 implies !((#[trigger] after[k]).end + 1
            == after[k + 1].start && after[k].category == after[k + 1].category) by {
            if k + 1 < before.len() {
                assert(after[k] == before[k]);
                assert(after[k + 1].start == before[k + 1].start && after[k + 1].category
                    == before[k + 1].category);
            } else {
                assert(after[k] == before.last());
                assert(!joins(before.last(), record));
            }
        }
    }
}

/// No range continues the range before it: the ranges are as long as they
/// can be.
pub proof fn lemma_ranges_maximal(records: Seq<UnicodeRecord>)
    ensures
        forall|k: int|
            0 <= k < ranges_of(records).len() - 1 ==> !continues(
                #[trigger] ranges_of(records)[k],
                ranges_of(records)[k + 1].start,
                ranges_of(records)[k + 1].base_val,
            ),
    decreases records.len(),
{
    if records.len() > 0 {
        let earlier = records.drop_last();
        let record = records.last();
        lemma_ranges_maximal(earlier);
        let before = ranges_of(earlier);
        let after = ranges_of(records);
        assert(after == extend_ranges(before, record));
        assert forall|k: int| 0 <= k < after.len() - 1 implies !continues(
            #[trigger] after[k],
            after[k + 1].start,
            after[k + 1].base_val,
        ) by {
            if k + 1 < before.len() {
                assert(after[k] == before[k]);
                assert(after[k + 1].start == before[k + 1].start && after[k + 1].base_val
                    == before[k + 1].base_val);
            } else {
                assert(after[k] == before.last());
            }
        }
    }
}

/// Every decimal digit value of the records is a single digit.
pub open spec fn single_digits(records: Seq<UnicodeRecord>) -> bool {
    forall|i: int|
        0 <= i < records.len() && (#[trigger] records[i]).decimal_digit_value is Some
            ==> records[i].decimal_digit_value->0 <= 9
}

/// The value that the ranges give a code point is the value of a range that
/// covers it.
pub proof fn lemma_value_of_covering_range(ranges: Seq<DigitRange>, cp: int)
    ensures
        range_value(ranges, cp) is Some ==> exists|k: int|
            0 <= k < ranges.len() && #[trigger] covers(ranges[k], cp) && range_value(ranges, cp)
                == Some((ranges[k].base_val + (cp - ranges[k].start)) as u8),
    decreases ranges.len(),
{
    if ranges.len() == 0 {
    } else {
        let last = ranges.last();
        if last.start <= cp {
            if cp <= last.end {
                assert(covers(ranges[ranges.len() - 1], cp));
            }
        } else {
            let shorter = ranges.drop_last();
            lemma_value_of_covering_range(shorter, cp);
            if range_value(shorter, cp) is Some {
                let k = choose|k: int|
                    0 <= k < shorter.len() && #[trigger] covers(shorter[k], cp) && range_value(
                        shorter,
                        cp,
                    ) == Some((shorter[k].base_val + (cp - shorter[k].start)) as u8);
                assert(ranges[k] == shorter[k]);
                assert(covers(ranges[k], cp));
            }
        }
    }
}

/// Where the records carry single digits, the digit table gives values from
/// 0 to 9 only.
pub proof fn lemma_digit_at_most_nine(records: Seq<UnicodeRecord>, cp: int)
    requires
        single_digits(records),
    ensures
        digit_at(ranges_of(records), cp) is Some ==> digit_at(ranges_of(records), cp)->0 <= 9,
{
    let ranges = ranges_of(records);
    if 0x7F < cp <= MAX_CODEPOINT && range_value(ranges, cp) is Some {
        lemma_value_of_covering_range(ranges, cp);
        lemma_ranges_hold_values(records);
        let k = choose|k: int|
            0 <= k < ranges.len() && #[trigger] covers(ranges[k], cp) && range_value(ranges, cp)
                == Some((ranges[k].base_val + (cp - ranges[k].start)) as u8);
        let value = ranges[k].base_val + (cp - ranges[k].start);
        assert(listed_value(records, cp, value));
        let i = choose|i: int|
            0 <= i < records.len() && (#[trigger] records[i]).code_point == cp
                && records[i].decimal_digit_value is Some && low_byte(
                records[i].decimal_digit_value->0,
            ) == value;
        let d = records[i].decimal_digit_value->0;
        assert(d <= 9 ==> (d & 0xFF) == d) by (bit_vector);
    }
}

/// The filter keeps or drops a closing record together with the record
/// before it.
pub open spec fn pairs_together(records: Seq<UnicodeRecord>, flags: Seq<bool>) -> bool {
    forall|j: int|
        1 <= j < records.len() && (#[trigger] records[j]).closes_range() ==> flags[j] == flags[j
            - 1]
}

/// Where pairs are kept or dropped together, a closing record that was kept
/// follows, among the kept records, the record that it followed before.
proof fn lemma_pairs_stay_together(records: Seq<UnicodeRecord>, flags: Seq<bool>, q: int)
    requires
        flags.len() == records.len(),
        pairs_together(records, flags),
        1 <= q < select(records, flags).len(),
        select(records, flags)[q].closes_range(),
    ensures
        exists|j: int|
            1 <= j < records.len() && #[trigger] records[j] == select(records, flags)[q]
                && records[j - 1] == select(records, flags)[q - 1],
{
    let kept = select(records, flags);
    lemma_select_neighbours(records, flags, q);
    let (i, j) = choose|i: int, j: int|
        0 <= i < j < records.len() && #[trigger] records[i] == kept[q - 1]
            && #[trigger] records[j] == kept[q] && flags[i] && flags[j] && forall|t: int|
            i < t < j ==> !flags[t];
    assert(records[j].closes_range());
    assert(flags[j - 1]);
    assert(i == j - 1);
}

/// The kept records of a strictly ascending list ascend strictly.
pub proof fn lemma_select_increasing(records: Seq<UnicodeRecord>, flags: Seq<bool>)
    requires
        flags.len() == records.len(),
        strictly_increasing(records),
    ensures
        strictly_increasing(select(records, flags)),
{
    let kept = select(records, flags);
    assert forall|p: int, q: int| 0 <= p < q < kept.len() implies kept[p].code_point
        < kept[q].code_point by {
        lemma_select_order(records, flags, p, q);
    }
}

/// A code point whose record the filter turned down has no category, and
/// none but `'0'` to `'9'` has a digit value, where the filter keeps or drops
/// the records of a bracketed pair together.
pub proof fn lemma_excluded_has_no_category(
    records: Seq<UnicodeRecord>,
    flags: Seq<bool>,
    cp: int,
)
    requires
        strictly_increasing(records),
        flags.len() == records.len(),
        pairs_together(records, flags),
        exists|i: int|
            0 <= i < records.len() && (#[trigger] records[i]).code_point == cp && !flags[i],
    ensures
        !listed(select(records, flags), cp),
        !bridged(select(records, flags), cp),
        category_at(runs_of(select(records, flags)), cp) is None,
        !(0x30 <= cp <= 0x39) ==> digit_at(ranges_of(select(records, flags)), cp) is None,
{
    let kept = select(records, flags);
    let t = choose|t: int|
        0 <= t < records.len() && (#[trigger] records[t]).code_point == cp && !flags[t];
    if listed(kept, cp) {
        let q = choose|q: int| 0 <= q < kept.len() && (#[trigger] kept[q]).code_point == cp;
        lemma_select_members(records, flags, q);
        let i = choose|i: int|
            0 <= i < records.len() && flags[i] && #[trigger] records[i] == kept[q];
        if i < t {
            assert(records[i].code_point < records[t].code_point);
        } else if t < i {
            assert(records[t].code_point < records[i].code_point);
        }
    }
    if bridged(kept, cp) {
        let q = choose|q: int|
            1 <= q < kept.len() && (#[trigger] kept[q]).closes_range() && kept[q - 1].code_point
                < cp < kept[q].code_point;
        lemma_pairs_stay_together(records, flags, q);
        let j = choose|j: int|
            1 <= j < records.len() && #[trigger] records[j] == kept[q] && records[j - 1] == kept[q
                - 1];
        if t < j {
            if t < j - 1 {
                assert(records[t].code_point < records[j - 1].code_point);
            }
        } else {
            if j < t {
                assert(records[j].code_point < records[t].code_point);
            }
        }
    }
    lemma_absent_is_unassigned(kept, cp);
}

/// A code point whose record the filter kept has, in the tables of the kept
/// records, the category and the digit value that it has in the tables of
/// all records, where the filter keeps or drops the records of a bracketed
/// pair together.
pub proof fn lemma_kept_classifies_alike(records: Seq<UnicodeRecord>, flags: Seq<bool>, i: int)
    requires
        strictly_increasing(records),
        paired(records),
        flags.len() == records.len(),
        pairs_together(records, flags),
        0 <= i < records.len(),
        flags[i],
    ensures
        category_at(runs_of(select(records, flags)), records[i].code_point as int) == category_at(
            runs_of(records),
            records[i].code_point as int,
        ),
        digit_at(ranges_of(select(records, flags)), records[i].code_point as int) == digit_at(
            ranges_of(records),
            records[i].code_point as int,
        ),
{
    let kept = select(records, flags);
    let cp = records[i].code_point as int;
    lemma_select_increasing(records, flags);
    lemma_select_places(records, flags);
    let r = rank(flags, i);
    assert(kept[r] == records[i]);
    assert forall|q: int| 1 <= q < kept.len() && (#[trigger] kept[q]).closes_range() implies kept[q]
        .general_category@ == kept[q - 1].general_category@ by {
        lemma_pairs_stay_together(records, flags, q);
        let j = choose|j: int|
            1 <= j < records.len() && #[trigger] records[j] == kept[q] && records[j - 1] == kept[q
                - 1];
        assert(records[j].closes_range());
    }
    lemma_record_category(records, i);
    lemma_record_category(kept, r);
    if 0x7F < cp <= MAX_CODEPOINT {
        if records[i].decimal_digit_value is Some {
            lemma_record_digit(records, i);
            lemma_record_digit(kept, r);
        } else {
            lemma_ranges_hold_digits(records);
            lemma_ranges_hold_digits(kept);
            lemma_value_from_range(ranges_of(records), cp);
            lemma_value_from_range(ranges_of(kept), cp);
            if listed_digit(records, cp) {
                let o = choose|o: int|
                    0 <= o < records.len() && (#[trigger] records[o]).code_point == cp
                        && records[o].decimal_digit_value is Some;
                if o < i {
                    assert(records[o].code_point < records[i].code_point);
                } else if i < o {
                    assert(records[i].code_point < records[o].code_point);
                }
            }
            if listed_digit(kept, cp) {
                let o = choose|o: int|
                    0 <= o < kept.len() && (#[trigger] kept[o]).code_point == cp
                        && kept[o].decimal_digit_value is Some;
                if o < r {
                    assert(kept[o].code_point < kept[r].code_point);
                } else if r < o {
                    assert(kept[r].code_point < kept[o].code_point);
                }
            }
        }
    }
}

/// In the tables of the kept records, a code point whose record the filter
/// turned down has no category, and none but `'0'` to `'9'` has a digit
/// value, where the filter keeps or drops the records of a bracketed pair
/// together.
pub proof fn lemma_excluded_in_tables(
    records: Seq<UnicodeRecord>,
    flags: Seq<bool>,
    tables: CompiledTables,
    categories: bool,
    digits: bool,
    cp: int,
)
    requires
        tables.compiled_from(select(records, flags), categories, digits),
        strictly_increasing(records),
        flags.len() == records.len(),
        pairs_together(records, flags),
        exists|i: int|
            0 <= i < records.len() && (#[trigger] records[i]).code_point == cp && !flags[i],
        0 <= cp <= MAX_CODEPOINT,
    ensures
        tables.categories matches Some(table) ==> table.lookup(cp) is None,
        tables.digits matches Some(table) ==> !(0x30 <= cp <= 0x39) ==> digit_at(
            table.ranges(),
            cp,
        ) is None,
{
    let kept = select(records, flags);
    lemma_excluded_has_no_category(records, flags, cp);
    if let Some(table) = tables.categories {
        table.lemma_lookup(runs_of(kept));
    }
}

/// Filtering changes nothing but the records it drops: in the tables that a
/// compilation gives from strictly ascending records, a code point whose
/// record the filter turned down has no category, and none but `'0'` to
/// `'9'` has a digit value, where the filter keeps or drops the records of a
/// bracketed pair together.
pub proof fn lemma_filter_transparency<F: RecordFilter>(
    builder: UnipropsBuilder<F>,
    records: Seq<UnicodeRecord>,
    flags: Seq<bool>,
    sorted: Seq<UnicodeRecord>,
    tables: CompiledTables,
    cp: int,
)
    requires
        builder.course(records, flags, sorted, tables),
        strictly_increasing(records),
        pairs_together(records, flags),
        exists|i: int|
            0 <= i < records.len() && (#[trigger] records[i]).code_point == cp && !flags[i],
        0 <= cp <= MAX_CODEPOINT,
    ensures
        tables.categories matches Some(table) ==> table.lookup(cp) is None,
        tables.digits matches Some(table) ==> !(0x30 <= cp <= 0x39) ==> digit_at(
            table.ranges(),
            cp,
        ) is None,
{
    assert(ascending(records)) by {
        lemma_increasing_is_ascending(records);
    }
    assert(tables.compiled_from(
        select(records, flags),
        builder.categories_enabled(),
        builder.digits_enabled(),
    )) by {
        lemma_course_of_ascending(builder, records, flags, sorted, tables);
    }
    assert(flags.len() == records.len());
    lemma_excluded_in_tables(
        records,
        flags,
        tables,
        builder.categories_enabled(),
        builder.digits_enabled(),
        cp,
    );
}

} // verus!
