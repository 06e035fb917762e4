//! The enumeration of category labels: the distinct labels of a list of runs,
//! in ascending order.
use vstd::prelude::*;
use crate::runs::{spans, Run, RunSpan};
use crate::text::chars_of;

verus! {

/// The lexicographic order of labels by code point.
pub open spec fn label_lt(a: Seq<char>, b: Seq<char>) -> bool
    decreases a.len(),
{
    if b.len() == 0 {
        false
    } else if a.len() == 0 {
        true
    } else if a[0] != b[0] {
        (a[0] as int) < (b[0] as int)
    } else {
        label_lt(a.drop_first(), b.drop_first())
    }
}

/// The texts of a list of labels.
pub open spec fn names(labels: Seq<String>) -> Seq<Seq<char>> {
    labels.map_values(|s: String| s@)
}

/// Every label is below each label after it.
pub open spec fn strictly_ascending(labels: Seq<Seq<char>>) -> bool {
    forall|i: int, j: int| 0 <= i < j < labels.len() ==> label_lt(labels[i], labels[j])
}

/// Whether one of the first `k` runs has category `c`.
pub open spec fn occurs(runs: Seq<RunSpan>, k: int, c: Seq<char>) -> bool {
    exists|j: int| 0 <= j < k && #[trigger] runs[j].category == c
}

/// `labels` lists the categories of `runs`: each exactly once, in ascending
/// order.
pub open spec fn enumerates(labels: Seq<Seq<char>>, runs: Seq<RunSpan>) -> bool {
    &&& strictly_ascending(labels)
    &&& forall|i: int|
        0 <= i < labels.len() ==> occurs(runs, runs.len() as int, #[trigger] labels[i])
    &&& forall|j: int| 0 <= j < runs.len() ==> labels.contains(#[trigger] runs[j].category)
}

/// No label is below itself.
pub proof fn lemma_label_lt_irreflexive(a: Seq<char>)
    ensures
        !label_lt(a, a),
    decreases a.len(),
{
    if a.len() > 0 {
        lemma_label_lt_irreflexive(a.drop_first());
    }
}

/// The order of labels is transitive.
pub proof fn lemma_label_lt_transitive(a: Seq<char>, b: Seq<char>, c: Seq<char>)
    requires
        label_lt(a, b),
        label_lt(b, c),
    ensures
        label_lt(a, c),
    decreases a.len(),
{
    if a.len() > 0 && a[0] == b[0] && b[0] == c[0] {
        lemma_label_lt_transitive(a.drop_first(), b.drop_first(), c.drop_first());
    }
}

/// Two labels of which neither is below the other are the same label.
pub proof fn lemma_label_lt_total(a: Seq<char>, b: Seq<char>)
    requires
        !label_lt(a, b),
        !label_lt(b, a),
    ensures
        a == b,
    decreases a.len(),
{
    if a.len() == 0 || b.len() == 0 {
        assert(a =~= b);
    } else {
        lemma_label_lt_total(a.drop_first(), b.drop_first());
        assert(a =~= seq![a[0]] + a.drop_first());
        assert(b =~= seq![b[0]] + b.drop_first());
    }
}

/// A strictly ascending list holds no label twice.
pub proof fn lemma_ascending_distinct(labels: Seq<Seq<char>>)
    requires
        strictly_ascending(labels),
    ensures
        forall|i: int, j: int| 0 <= i < j < labels.len() ==> labels[i] != labels[j],
{
    assert forall|i: int, j: int| 0 <= i < j < labels.len() implies labels[i] != labels[j] by {
        lemma_label_lt_irreflexive(labels[i]);
    }
}

/// Whether label `a` sorts before label `b`.
pub fn label_less(a: &Vec<char>, b: &Vec<char>) -> (r: bool)
    ensures
        r == label_lt(a@, b@),
{
    let mut i: usize = 0;
    assert(a@.skip(0) =~= a@ && b@.skip(0) =~= b@);
    while i < a.len() && i < b.len() && a[i] == b[i]
        invariant
            i <= a.len(),
            i <= b.len(),
            label_lt(a@, b@) == label_lt(a@.skip(i as int), b@.skip(i as int)),
        decreases a.len() - i,
    {
        proof {
            assert(a@.skip(i as int).drop_first() =~= a@.skip(i + 1));
            assert(b@.skip(i as int).drop_first() =~= b@.skip(i + 1));
        }
        i += 1;
    }
    if i >= b.len() {
        false
    } else if i >= a.len() {
        true
    } else {
        assert(a@.skip(i as int)[0] == a@[i as int] && b@.skip(i as int)[0] == b@[i as int]);
        a[i] < b[i]
    }
}

/// The distinct categories of `runs`, in ascending order.
pub fn collect_labels(runs: &Vec<Run>) -> (labels: Vec<String>)
    ensures
        enumerates(names(labels@), spans(runs@)),
{
    let mut labels: Vec<String> = Vec::new();
    let ghost all = spans(runs@);
    let mut k: usize = 0;
    while k < runs.len()
        invariant
            k <= runs.len(),
            all == spans(runs@),
            strictly_ascending(names(labels@)),
            forall|i: int|
                0 <= i < labels.len() ==> occurs(all, k as int, #[trigger] names(labels@)[i]),
            forall|j: int| 0 <= j < k ==> names(labels@).contains(#[trigger] all[j].category),
        decreases runs.len() - k,
    {
        let label = &runs[k].general_category;
        let wanted = chars_of(label.as_str());
        let ghost old_names = names(labels@);
        let mut p: usize = 0;
        while p < labels.len() && label_less(&chars_of(labels[p].as_str()), &wanted)
            invariant
                p <= labels.len(),
                wanted@ == label@,
                old_names == names(labels@),
                forall|i: int| 0 <= i < p ==> label_lt(#[trigger] old_names[i], wanted@),
            decreases labels.len() - p,
        {
            p += 1;
        }
        assert(all[k as int].category == label@);
        if p < labels.len() && labels[p] == *label {
            assert(old_names[p as int] == label@);
            assert forall|i: int| 0 <= i < labels.len() implies occurs(
                all,
                k + 1,
                #[trigger] old_names[i],
            ) by {
                let j = choose|j: int| 0 <= j < k && #[trigger] all[j].category == old_names[i];
                assert(0 <= j < k + 1 && all[j].category == old_names[i]);
            }
        } else {
            labels.insert(p, label.clone());
            let ghost new_names = names(labels@);
            proof {
                assert(new_names =~= old_names.insert(p as int, label@));
                if p < old_names.len() {
                    if label_lt(old_names[p as int], label@) {
                    } else if old_names[p as int] == label@ {
                    } else {
                        if !label_lt(label@, old_names[p as int]) {
                            lemma_label_lt_total(label@, old_names[p as int]);
                        }
                    }
                    assert(label_lt(label@, old_names[p as int]));
                }
                assert forall|i: int, j: int| 0 <= i < j < new_names.len() implies label_lt(
                    new_names[i],
                    new_names[j],
                ) by {
                    if j < p {
                        assert(new_names[i] == old_names[i] && new_names[j] == old_names[j]);
                    } else if j == p {
                        assert(new_names[i] == old_names[i]);
                    } else if i == p {
                        assert(new_names[j] == old_names[j - 1]);
                        if j - 1 > p {
                            lemma_label_lt_transitive(
                                label@,
                                old_names[p as int],
                                old_names[j - 1],
                            );
                        }
                    } else if i < p {
                        assert(new_names[i] == old_names[i] && new_names[j] == old_names[j - 1]);
                    } else {
                        assert(new_names[i] == old_names[i - 1] && new_names[j] == old_names[j
                            - 1]);
                    }
                }
                assert forall|i: int| 0 <= i < new_names.len() implies occurs(
                    all,
                    k + 1,
                    #[trigger] new_names[i],
                ) by {
                    if i == p {
                        assert(all[k as int].category == new_names[i]);
                    } else {
                        let o = if i < p {
                            i
                        } else {
                            i - 1
                        };
                        assert(new_names[i] == old_names[o]);
                        let j = choose|j: int| 0 <= j < k && #[trigger] all[j].category
                            == old_names[o];
                        assert(0 <= j < k + 1 && all[j].category == new_names[i]);
                    }
                }
                assert forall|j: int| 0 <= j < k + 1 implies new_names.contains(
                    #[trigger] all[j].category,
                ) by {
                    if j == k {
                        assert(new_names[p as int] == all[j].category);
                    } else {
                        let o = choose|o: int| 0 <= o < old_names.len() && old_names[o]
                            == all[j].category;
                        let i = if o < p {
                            o
                        } else {
                            o + 1
                        };
                        assert(new_names[i] == all[j].category);
                    }
                }
            }
        }
        k += 1;
    }
    labels
}

} // verus!
