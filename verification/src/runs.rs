//! The run builder: ascending records are grouped into maximal runs of one
//! general category, and a bracketed range pair is merged into a single run.
use vstd::prelude::*;
use crate::record::{get_tag_by_name, PositionTag, UnicodeRecord};

verus! {

/// A maximal interval of code points that share one general category.
#[derive(Debug, Clone)]
pub struct Run {
    pub general_category: String,
    pub start: u32,
    pub end: u32,
}

/// The mathematical content of a [`Run`].
pub ghost struct RunSpan {
    pub category: Seq<char>,
    pub start: int,
    pub end: int,
}

impl View for Run {
    type V = RunSpan;

    open spec fn view(&self) -> RunSpan {
        RunSpan {
            category: self.general_category@,
            start: self.start as int,
            end: self.end as int,
        }
    }
}

/// The spans of a list of runs.
pub open spec fn spans(runs: Seq<Run>) -> Seq<RunSpan> {
    runs.map_values(|r: Run| r@)
}

/// The run that a record opens on its own.
pub open spec fn opened_by(record: UnicodeRecord) -> RunSpan {
    RunSpan {
        category: record.general_category@,
        start: record.code_point as int,
        end: record.code_point as int,
    }
}

/// Whether `record` extends the open run: it is the closing record of a
/// bracketed pair, whatever lies between, or it is the next code point of the
/// run's own category.
pub open spec fn joins(open: RunSpan, record: UnicodeRecord) -> bool {
    record.closes_range() || (record.code_point == open.end + 1 && record.general_category@
        == open.category)
}

/// The runs after one more record: the last run grows to the record's code
/// point, or is closed and a new run is opened.
pub open spec fn extend_runs(runs: Seq<RunSpan>, record: UnicodeRecord) -> Seq<RunSpan> {
    if runs.len() > 0 && joins(runs.last(), record) {
        runs.update(
            runs.len() - 1,
            RunSpan { end: record.code_point as int, ..runs.last() },
        )
    } else {
        runs.push(opened_by(record))
    }
}

/// The runs of a record sequence, taken in order.
pub open spec fn runs_of(records: Seq<UnicodeRecord>) -> Seq<RunSpan>
    decreases records.len(),
{
    if records.len() == 0 {
        Seq::empty()
    } else {
        extend_runs(runs_of(records.drop_last()), records.last())
    }
}

/// The category that a list of runs gives to `cp`: the first run that
/// reaches `cp` decides, and assigns its category where it also starts at or
/// below `cp`.
pub open spec fn category_at(runs: Seq<RunSpan>, cp: int) -> Option<Seq<char>>
    decreases runs.len(),
{
    if runs.len() == 0 {
        None
    } else if cp <= runs[0].end {
        if runs[0].start <= cp {
            Some(runs[0].category)
        } else {
            None
        }
    } else {
        category_at(runs.drop_first(), cp)
    }
}

/// Once every run before position `k` ends below `cp`, and the run at `k`
/// reaches `cp`, that run alone decides the category of `cp`.
pub proof fn lemma_category_at_cursor(runs: Seq<RunSpan>, k: int, cp: int)
    requires
        0 <= k <= runs.len(),
        forall|j: int| 0 <= j < k ==> runs[j].end < cp,
        k < runs.len() ==> cp <= runs[k].end,
    ensures
        category_at(runs, cp) == if k < runs.len() && runs[k].start <= cp {
            Some(runs[k].category)
        } else {
            None
        },
    decreases k,
{
    if k > 0 {
        let rest = runs.drop_first();
        assert forall|j: int| 0 <= j < k - 1 implies rest[j].end < cp by {
            assert(rest[j] == runs[j + 1]);
        }
        lemma_category_at_cursor(rest, k - 1, cp);
        assert(k - 1 < rest.len() ==> rest[k - 1] == runs[k]);
    }
}

/// Groups the records into runs.
pub fn build_runs(records: &Vec<UnicodeRecord>) -> (runs: Vec<Run>)
    ensures
        spans(runs@) == runs_of(records@),
{
    let mut runs: Vec<Run> = Vec::new();
    if records.len() == 0 {
        assert(spans(runs@) =~= runs_of(records@));
        return runs;
    }
    let first = &records[0];
    let mut current = Run {
        general_category: first.general_category.clone(),
        start: first.code_point,
        end: first.code_point,
    };
    proof {
        let one = records@.take(1);
        assert(one.drop_last() =~= Seq::<UnicodeRecord>::empty());
        assert(runs_of(one.drop_last()) =~= Seq::<RunSpan>::empty());
        assert(spans(runs@).push(current@) =~= runs_of(one));
    }
    let mut i: usize = 1;
    while i < records.len()
        invariant
            1 <= i <= records.len(),
            spans(runs@).push(current@) == runs_of(records@.take(i as int)),
        decreases records.len() - i,
    {
        let record = &records[i];
        let closes = match get_tag_by_name(record.name.as_str()) {
            PositionTag::Last => true,
            _ => false,
        };
        let ghost before = spans(runs@).push(current@);
        proof {
            assert(records@.take(i + 1).drop_last() =~= records@.take(i as int));
            assert(records@.take(i + 1).last() == *record);
            assert(before.last() == current@);
        }
        if closes || (record.code_point > 0 && record.code_point - 1 == current.end
            && record.general_category == current.general_category) {
            current.end = record.code_point;
            assert(spans(runs@).push(current@) =~= extend_runs(before, *record));
        } else {
            runs.push(current);
            current =
            Run {
                general_category: record.general_category.clone(),
                start: record.code_point,
                end: record.code_point,
            };
            assert(spans(runs@).push(current@) =~= extend_runs(before, *record));
        }
        i += 1;
    }
    runs.push(current);
    proof {
        assert(records@.take(records.len() as int) =~= records@);
        assert(spans(runs@) =~= runs_of(records@));
    }
    runs
}

} // verus!
