//! The configuration of a compilation: which records take part, which
//! tables are compiled, and where the result is to go.
use vstd::prelude::*;
use crate::category::CategoryTable;
use crate::digits::{ranges_of, DigitTable};
use crate::record::{ascending, UnicodeRecord};
use crate::runs::{build_runs, runs_of};

verus! {

/// A predicate over records that decides which of them take part.
pub trait RecordFilter {
    /// Whether the predicate may be asked about `record`.
    spec fn ready(&self, record: &UnicodeRecord) -> bool;

    /// Whether `keep` is an answer that the predicate may give for `record`.
    spec fn answers(&self, record: &UnicodeRecord, keep: bool) -> bool;

    /// Asks the predicate whether `record` takes part.
    fn accepts(&self, record: &UnicodeRecord) -> (keep: bool)
        requires
            self.ready(record),
        ensures
            self.answers(record, keep),
    ;
}

/// The filter that lets every record take part.
#[derive(Debug, Clone, Copy)]
pub struct Unfiltered;

impl RecordFilter for Unfiltered {
    open spec fn ready(&self, record: &UnicodeRecord) -> bool {
        true
    }

    open spec fn answers(&self, record: &UnicodeRecord, keep: bool) -> bool {
        keep
    }

    fn accepts(&self, record: &UnicodeRecord) -> (keep: bool) {
        true
    }
}

/// A filter given as a function from a record to a verdict.
pub struct Predicate<F>(pub F);

impl<F: Fn(&UnicodeRecord) -> bool> RecordFilter for Predicate<F> {
    open spec fn ready(&self, record: &UnicodeRecord) -> bool {
        self.0.requires((record,))
    }

    open spec fn answers(&self, record: &UnicodeRecord, keep: bool) -> bool {
        self.0.ensures((record,), keep)
    }

    fn accepts(&self, record: &UnicodeRecord) -> (keep: bool) {
        (self.0)(record)
    }
}

/// The records whose flag is set, in their order.
pub open spec fn select(records: Seq<UnicodeRecord>, flags: Seq<bool>) -> Seq<UnicodeRecord>
    decreases records.len(),
{
    if records.len() == 0 || flags.len() == 0 {
        Seq::empty()
    } else {
        let rest = select(records.drop_last(), flags.drop_last());
        if flags.last() {
            rest.push(records.last())
        } else {
            rest
        }
    }
}

/// The records of `records` with code point `cp`, in their order.
pub open spec fn with_code_point(records: Seq<UnicodeRecord>, cp: u32) -> Seq<UnicodeRecord> {
    records.filter(|r: UnicodeRecord| r.code_point == cp)
}

/// `output` is `input` sorted by code point, records of one code point in
/// their old order.
pub open spec fn sorted_form(input: Seq<UnicodeRecord>, output: Seq<UnicodeRecord>) -> bool {
    &&& ascending(output)
    &&& output.to_multiset() == input.to_multiset()
    &&& forall|cp: u32| #[trigger] with_code_point(output, cp) == with_code_point(input, cp)
}

/// Asks the filter about every record.
pub fn verdicts<F: RecordFilter>(filter: &F, records: &Vec<UnicodeRecord>) -> (flags: Vec<bool>)
    requires
        forall|r: &UnicodeRecord| filter.ready(r),
    ensures
        flags.len() == records.len(),
        forall|i: int| 0 <= i < records.len() ==> filter.answers(&records[i], #[trigger] flags[i]),
{
    let mut flags: Vec<bool> = Vec::new();
    let mut i: usize = 0;
    while i < records.len()
        invariant
            i <= records.len(),
            flags.len() == i,
            forall|r: &UnicodeRecord| filter.ready(r),
            forall|j: int| 0 <= j < i ==> filter.answers(&records[j], #[trigger] flags[j]),
        decreases records.len() - i,
    {
        let keep = filter.accepts(&records[i]);
        flags.push(keep);
        i += 1;
    }
    flags
}

/// Keeps the records whose flag is set.
pub fn retain(records: Vec<UnicodeRecord>, flags: &Vec<bool>) -> (kept: Vec<UnicodeRecord>)
    requires
        flags.len() == records.len(),
    ensures
        kept@ == select(records@, flags@),
{
    let mut kept: Vec<UnicodeRecord> = Vec::new();
    let ghost all = records@;
    let mut i: usize = 0;
    assert(all.take(0) =~= Seq::<UnicodeRecord>::empty());
    for record in it: records
        invariant
            it.seq() == all,
            i == it.index(),
            flags.len() == all.len(),
            kept@ == select(all.take(i as int), flags@.take(i as int)),
    {
        proof {
            assert(all.take(i + 1).drop_last() =~= all.take(i as int));
            assert(flags@.take(i + 1).drop_last() =~= flags@.take(i as int));
            assert(all.take(i + 1).last() == record);
        }
        if flags[i] {
            kept.push(record);
        }
        i += 1;
    }
    proof {
        assert(all.take(all.len() as int) =~= all);
        assert(flags@.take(all.len() as int) =~= flags@);
    }
    kept
}

/// `slice::sort_by_key` of the standard library with the code point as the
/// key. It sorts in ascending order of the key and is stable: the result
/// holds the same records, and records with the same code point keep their
/// order.
#[verifier::external_body]
fn sort_by_code_point(records: &mut Vec<UnicodeRecord>)
    ensures
        sorted_form(old(records)@, final(records)@),
{
    records.sort_by_key(|r| r.code_point);
}

/// The tables of one compilation; a table that was not asked for is absent.
pub struct CompiledTables {
    pub categories: Option<CategoryTable>,
    pub digits: Option<DigitTable>,
}

impl CompiledTables {
    /// The tables are those of `records`: the category table, where asked
    /// for, is the one that the runs of the records compile to; the digit
    /// table, where asked for, holds the digit ranges of the records.
    pub open spec fn compiled_from(
        &self,
        records: Seq<UnicodeRecord>,
        categories: bool,
        digits: bool,
    ) -> bool {
        &&& self.categories is Some <==> categories
        &&& self.digits is Some <==> digits
        &&& self.categories matches Some(table) ==> table.compiled_from(runs_of(records))
        &&& self.digits matches Some(table) ==> table.ranges() == ranges_of(records)
    }
}

/// Configures a compilation of property tables.
pub struct UnipropsBuilder<F> {
    out_name: String,
    gen_categories: bool,
    gen_digits: bool,
    filter: F,
}

impl UnipropsBuilder<Unfiltered> {
    /// A builder with the default settings: both tables, every record, and
    /// the output name `generated_uniprops.rs`.
    pub fn new() -> (builder: Self)
        ensures
            builder.output_name() == "generated_uniprops.rs"@,
            builder.categories_enabled(),
            builder.digits_enabled(),
            builder.predicate() == Unfiltered,
    {
        UnipropsBuilder {
            out_name: "generated_uniprops.rs".to_owned(),
            gen_categories: true,
            gen_digits: true,
            filter: Unfiltered,
        }
    }
}

impl Default for UnipropsBuilder<Unfiltered> {
    fn default() -> (builder: Self)
        ensures
            builder.output_name() == "generated_uniprops.rs"@,
            builder.categories_enabled(),
            builder.digits_enabled(),
            builder.predicate() == Unfiltered,
    {
        Self::new()
    }
}

impl<F> UnipropsBuilder<F> {
    /// The name under which the result is to be stored.
    pub closed spec fn output_name(&self) -> Seq<char> {
        self.out_name@
    }

    /// Whether the category table is compiled.
    pub closed spec fn categories_enabled(&self) -> bool {
        self.gen_categories
    }

    /// Whether the digit table is compiled.
    pub closed spec fn digits_enabled(&self) -> bool {
        self.gen_digits
    }

    /// The filter that decides which records take part.
    pub closed spec fn predicate(&self) -> F {
        self.filter
    }

    /// Sets the name under which the result is to be stored.
    pub fn out_file(self, name: &str) -> (builder: Self)
        ensures
            builder.output_name() == name@,
            builder.categories_enabled() == self.categories_enabled(),
            builder.digits_enabled() == self.digits_enabled(),
            builder.predicate() == self.predicate(),
    {
        UnipropsBuilder {
            out_name: name.to_owned(),
            gen_categories: self.gen_categories,
            gen_digits: self.gen_digits,
            filter: self.filter,
        }
    }

    /// Switches the category table on or off.
    pub fn with_categories(self, enable: bool) -> (builder: Self)
        ensures
            builder.categories_enabled() == enable,
            builder.output_name() == self.output_name(),
            builder.digits_enabled() == self.digits_enabled(),
            builder.predicate() == self.predicate(),
    {
        UnipropsBuilder {
            out_name: self.out_name,
            gen_categories: enable,
            gen_digits: self.gen_digits,
            filter: self.filter,
        }
    }

    /// Switches the digit table on or off.
    pub fn with_digits(self, enable: bool) -> (builder: Self)
        ensures
            builder.digits_enabled() == enable,
            builder.output_name() == self.output_name(),
            builder.categories_enabled() == self.categories_enabled(),
            builder.predicate() == self.predicate(),
    {
        UnipropsBuilder {
            out_name: self.out_name,
            gen_categories: self.gen_categories,
            gen_digits: enable,
            filter: self.filter,
        }
    }

    /// Lets only the records take part for which `filter` answers `true`.
    pub fn filter<G: Fn(&UnicodeRecord) -> bool>(self, filter: G) -> (builder: UnipropsBuilder<
        Predicate<G>,
    >)
        ensures
            builder.predicate() == Predicate(filter),
            builder.output_name() == self.output_name(),
            builder.categories_enabled() == self.categories_enabled(),
            builder.digits_enabled() == self.digits_enabled(),
    {
        UnipropsBuilder {
            out_name: self.out_name,
            gen_categories: self.gen_categories,
            gen_digits: self.gen_digits,
            filter: Predicate(filter),
        }
    }

    /// The name under which the result is to be stored.
    pub fn out_name(&self) -> (name: &str)
        ensures
            name@ == self.output_name(),
    {
        self.out_name.as_str()
    }

    /// Whether the category table is compiled.
    pub fn generates_categories(&self) -> (enabled: bool)
        ensures
            enabled == self.categories_enabled(),
    {
        self.gen_categories
    }

    /// Whether the digit table is compiled.
    pub fn generates_digits(&self) -> (enabled: bool)
        ensures
            enabled == self.digits_enabled(),
    {
        self.gen_digits
    }
}

impl<F: RecordFilter> UnipropsBuilder<F> {
    /// Compiles the tables that are switched on from records in ascending
    /// order.
    pub fn compile(&self, records: &Vec<UnicodeRecord>) -> (tables: CompiledTables)
        requires
            ascending(records@),
        ensures
            tables.compiled_from(records@, self.categories_enabled(), self.digits_enabled()),
    {
        let categories = if self.gen_categories {
            let runs = build_runs(records);
            Some(CategoryTable::build(&runs))
        } else {
            None
        };
        let digits = if self.gen_digits {
            Some(DigitTable::build(records))
        } else {
            None
        };
        CompiledTables { categories, digits }
    }

    /// One possible course of a compilation of `records`: the filter gave
    /// the answers `flags`, the records it kept are `sorted` once they are
    /// put in order, and `tables` are compiled from those.
    pub open spec fn course(
        &self,
        records: Seq<UnicodeRecord>,
        flags: Seq<bool>,
        sorted: Seq<UnicodeRecord>,
        tables: CompiledTables,
    ) -> bool {
        &&& flags.len() == records.len()
        &&& forall|i: int|
            0 <= i < records.len() ==> self.predicate().answers(&records[i], #[trigger] flags[i])
        &&& sorted_form(select(records, flags), sorted)
        &&& tables.compiled_from(sorted, self.categories_enabled(), self.digits_enabled())
    }

    /// Runs the compilation on `records`: the records that the filter keeps
    /// are sorted by code point, and the tables that are switched on are
    /// compiled from them.
    pub fn generate(&self, records: Vec<UnicodeRecord>) -> (tables: CompiledTables)
        requires
            forall|r: &UnicodeRecord| self.predicate().ready(r),
        ensures
            exists|flags: Seq<bool>, sorted: Seq<UnicodeRecord>| #[trigger]
                self.course(records@, flags, sorted, tables),
    {
        assert forall|r: &UnicodeRecord| self.filter.ready(r) by {
            assert(self.predicate().ready(r));
        }
        let flags = verdicts(&self.filter, &records);
        let mut kept = retain(records, &flags);
        sort_by_code_point(&mut kept);
        let tables = self.compile(&kept);
        proof {
            assert(self.course(records@, flags@, kept@, tables));
        }
        tables
    }
}

} // verus!
