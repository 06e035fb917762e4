//! What filtering and sorting do to a list of records.
use vstd::prelude::*;
use crate::builder::{select, sorted_form, with_code_point};
use crate::record::{ascending, UnicodeRecord};

verus! {

/// The number of set flags among the first `i`.
pub open spec fn rank(flags: Seq<bool>, i: int) -> int
    decreases i,
{
    if i <= 0 {
        0
    } else {
        rank(flags, i - 1) + if flags[i - 1] {
            1int
        } else {
            0int
        }
    }
}

/// The rank looks at the flags before `i` only.
proof fn lemma_rank_prefix(flags: Seq<bool>, n: int, i: int)
    requires
        0 <= i <= n <= flags.len(),
    ensures
        rank(flags.take(n), i) == rank(flags, i),
    decreases i,
{
    if i > 0 {
        lemma_rank_prefix(flags, n, i - 1);
    }
}

/// The rank never falls, and rises past every set flag.
pub proof fn lemma_rank_grows(flags: Seq<bool>, i: int, j: int)
    requires
        0 <= i <= j <= flags.len(),
    ensures
        0 <= rank(flags, i) <= rank(flags, j),
        i < j && flags[i] ==> rank(flags, i) < rank(flags, j),
    decreases j - i,
{
    if i < j {
        lemma_rank_grows(flags, i, j - 1);
    } else {
        lemma_rank_bounds(flags, i);
    }
}

/// The rank lies between nothing and `i`.
proof fn lemma_rank_bounds(flags: Seq<bool>, i: int)
    requires
        0 <= i,
    ensures
        0 <= rank(flags, i) <= i,
    decreases i,
{
    if i > 0 {
        lemma_rank_bounds(flags, i - 1);
    }
}

/// The selection has as many records as flags are set, and holds every
/// record with a set flag at the place of its rank.
pub proof fn lemma_select_places(records: Seq<UnicodeRecord>, flags: Seq<bool>)
    requires
        flags.len() == records.len(),
    ensures
        select(records, flags).len() == rank(flags, flags.len() as int),
        forall|i: int|
            0 <= i < records.len() && #[trigger] flags[i] ==> 0 <= rank(flags, i) < select(
                records,
                flags,
            ).len() && select(records, flags)[rank(flags, i)] == records[i],
    decreases records.len(),
{
    if records.len() > 0 {
        let n = records.len() - 1;
        let earlier = records.drop_last();
        let before = flags.drop_last();
        lemma_select_places(earlier, before);
        assert(before =~= flags.take(n));
        lemma_rank_prefix(flags, n, n);
        let kept = select(records, flags);
        assert forall|i: int| 0 <= i < records.len() && #[trigger] flags[i] implies 0 <= rank(
            flags,
            i,
        ) < kept.len() && kept[rank(flags, i)] == records[i] by {
            lemma_rank_prefix(flags, n, i);
            lemma_rank_bounds(flags, i);
            if i < n {
                assert(before[i] == flags[i] && earlier[i] == records[i]);
            }
        }
    }
}

/// Every record of the selection stands in the list, with a set flag, at a
/// place whose rank is its place in the selection.
pub proof fn lemma_select_origin(records: Seq<UnicodeRecord>, flags: Seq<bool>, q: int)
    requires
        flags.len() == records.len(),
        0 <= q < select(records, flags).len(),
    ensures
        exists|i: int|
            0 <= i < records.len() && #[trigger] flags[i] && rank(flags, i) == q && records[i]
                == select(records, flags)[q],
    decreases records.len(),
{
    let n = records.len() - 1;
    let earlier = records.drop_last();
    let before = flags.drop_last();
    let rest = select(earlier, before);
    lemma_select_places(records, flags);
    if flags[n] && q == rest.len() {
        lemma_select_places(earlier, before);
        assert(before =~= flags.take(n));
        lemma_rank_prefix(flags, n, n);
        assert(flags[n] && rank(flags, n) == q);
    } else {
        lemma_select_origin(earlier, before, q);
        let i = choose|i: int|
            0 <= i < earlier.len() && #[trigger] before[i] && rank(before, i) == q && earlier[i]
                == rest[q];
        assert(before =~= flags.take(n));
        lemma_rank_prefix(flags, n, i);
        assert(flags[i] && rank(flags, i) == q && records[i] == earlier[i]);
    }
}

/// Where every flag is set, the selection is the whole list.
pub proof fn lemma_select_all(records: Seq<UnicodeRecord>, flags: Seq<bool>)
    requires
        flags.len() == records.len(),
        forall|i: int| 0 <= i < flags.len() ==> flags[i],
    ensures
        select(records, flags) == records,
    decreases records.len(),
{
    if records.len() > 0 {
        lemma_select_all(records.drop_last(), flags.drop_last());
        assert(records.drop_last().push(records.last()) =~= records);
    } else {
        assert(select(records, flags) =~= records);
    }
}

/// Two records of the selection stand in the list in the same order.
pub proof fn lemma_select_order(records: Seq<UnicodeRecord>, flags: Seq<bool>, p: int, q: int)
    requires
        flags.len() == records.len(),
        0 <= p < q < select(records, flags).len(),
    ensures
        exists|i: int, j: int|
            0 <= i < j < records.len() && #[trigger] records[i] == select(records, flags)[p]
                && #[trigger] records[j] == select(records, flags)[q],
{
    lemma_select_origin(records, flags, p);
    lemma_select_origin(records, flags, q);
    let kept = select(records, flags);
    let i = choose|i: int|
        0 <= i < records.len() && #[trigger] flags[i] && rank(flags, i) == p && records[i]
            == kept[p];
    let j = choose|j: int|
        0 <= j < records.len() && #[trigger] flags[j] && rank(flags, j) == q && records[j]
            == kept[q];
    if j <= i {
        lemma_rank_grows(flags, j, i);
    }
    assert(records[i] == kept[p] && records[j] == kept[q]);
}

/// The selection of an ascending list is ascending.
pub proof fn lemma_select_ascending(records: Seq<UnicodeRecord>, flags: Seq<bool>)
    requires
        flags.len() == records.len(),
        ascending(records),
    ensures
        ascending(select(records, flags)),
{
    let kept = select(records, flags);
    assert forall|p: int, q: int| 0 <= p < q < kept.len() implies kept[p].code_point
        <= kept[q].code_point by {
        lemma_select_order(records, flags, p, q);
    }
}

/// A record of the selection that does not come first follows, in the
/// selection, the last record before it in the list whose flag is set.
pub proof fn lemma_select_neighbours(records: Seq<UnicodeRecord>, flags: Seq<bool>, q: int)
    requires
        flags.len() == records.len(),
        1 <= q < select(records, flags).len(),
    ensures
        exists|i: int, j: int|
            0 <= i < j < records.len() && #[trigger] records[i] == select(records, flags)[q - 1]
                && #[trigger] records[j] == select(records, flags)[q] && flags[i] && flags[j]
                && forall|t: int| i < t < j ==> !flags[t],
{
    lemma_select_origin(records, flags, q - 1);
    lemma_select_origin(records, flags, q);
    let kept = select(records, flags);
    let i = choose|i: int|
        0 <= i < records.len() && #[trigger] flags[i] && rank(flags, i) == q - 1 && records[i]
            == kept[q - 1];
    let j = choose|j: int|
        0 <= j < records.len() && #[trigger] flags[j] && rank(flags, j) == q && records[j]
            == kept[q];
    if j <= i {
        lemma_rank_grows(flags, j, i);
    }
    assert forall|t: int| i < t < j implies !flags[t] by {
        if flags[t] {
            lemma_rank_grows(flags, i, t);
            lemma_rank_grows(flags, t, j);
        }
    }
    assert(records[i] == kept[q - 1] && records[j] == kept[q]);
}

/// Sorting leaves an ascending list as it is: a list in ascending order that
/// holds the same records, those of one code point in the same order, is the
/// list itself.
pub proof fn lemma_sorted_form_of_ascending(
    input: Seq<UnicodeRecord>,
    output: Seq<UnicodeRecord>,
)
    requires
        sorted_form(input, output),
        ascending(input),
    ensures
        output == input,
    decreases input.len(),
{
    input.to_multiset_ensures();
    output.to_multiset_ensures();
    if input.len() == 0 {
        assert(output =~= input);
    } else {
        let a = input.last();
        let b = output.last();
        let shorter_in = input.drop_last();
        let shorter_out = output.drop_last();
        // Both lists end on the greatest code point.
        assert(input.contains(a));
        assert(output.to_multiset().count(a) > 0);
        assert(output.contains(a));
        let j = choose|j: int| 0 <= j < output.len() && output[j] == a;
        assert(output[j].code_point <= b.code_point);
        assert(output.contains(b));
        assert(input.to_multiset().count(b) > 0);
        assert(input.contains(b));
        let i = choose|i: int| 0 <= i < input.len() && input[i] == b;
        assert(input[i].code_point <= a.code_point);
        let top = a.code_point;
        // So they end on the same record.
        reveal(Seq::filter);
        assert(with_code_point(output, top) == with_code_point(shorter_out, top).push(b));
        assert(with_code_point(input, top) == with_code_point(shorter_in, top).push(a));
        assert(with_code_point(output, top) == with_code_point(input, top));
        assert(with_code_point(shorter_out, top).push(b).last() == b);
        assert(with_code_point(shorter_in, top).push(a).last() == a);
        assert(a == b);
        // And what stands before it is sorted in the same way.
        assert forall|cp: u32| #[trigger]
            with_code_point(shorter_out, cp) == with_code_point(shorter_in, cp) by {
            assert(with_code_point(output, cp) == with_code_point(input, cp));
            if cp == top {
                assert(with_code_point(shorter_out, top).push(b).drop_last()
                    =~= with_code_point(shorter_out, top));
                assert(with_code_point(shorter_in, top).push(a).drop_last() =~= with_code_point(
                    shorter_in,
                    top,
                ));
            }
        }
        assert(output.remove(output.len() - 1) =~= shorter_out);
        assert(input.remove(input.len() - 1) =~= shorter_in);
        assert(shorter_out.to_multiset() =~= shorter_in.to_multiset());
        assert forall|p: int, q: int| 0 <= p < q < shorter_in.len() implies shorter_in[p].code_point
            <= shorter_in[q].code_point by {
            assert(shorter_in[p] == input[p] && shorter_in[q] == input[q]);
        }
        assert forall|p: int, q: int|
            0 <= p < q < shorter_out.len() implies shorter_out[p].code_point
            <= shorter_out[q].code_point by {
            assert(shorter_out[p] == output[p] && shorter_out[q] == output[q]);
        }
        lemma_sorted_form_of_ascending(shorter_in, shorter_out);
        assert(output =~= shorter_out.push(b));
        assert(input =~= shorter_in.push(a));
    }
}

} // verus!
