//! Laws that relate building, re-ratioing, collapsing and merging reports.
use vstd::prelude::*;

use crate::aggregate::{accumulate, lemma_merge_accumulate, merge_totals, Totals};
use crate::report::{
    all_zero, before, collapsed, lemma_before_asymmetric, lemma_before_total, entry_of, folded_entry, has_name, is_report, is_reranked, measure,
    lemma_report_unique, lemma_stat_sums_concat, other_name, ranked, sorted, sum_measure, sum_parts,
    sum_stat_bytes, sum_stat_counts, triples, Metric, StatView,
};
use vstd::seq_lib::{to_multiset_contains, to_multiset_len, to_multiset_remove};

verus! {

/// The shares of a non-empty report add up to one: the numerators sum to
/// the common denominator, under either metric.
pub proof fn lemma_shares_sum_to_whole(r: Seq<StatView>, m: Totals, k: Metric)
    requires
        is_report(r, m, k),
        r.len() > 0,
    ensures
        forall|i: int| 0 <= i < r.len() ==> (#[trigger] r[i]).4 == sum_parts(r),
        sum_parts(r) > 0,
{
    assert(!all_zero(m, k));
    assert forall|i: int| 0 <= i < r.len() implies (#[trigger] r[i]).4 == sum_parts(r) by {
        assert(entry_of(m, k, r[i], sum_parts(r)));
    }
    assert(sum_parts(r) > 0) by {
        let key = choose|key: Seq<char>| #[trigger] m.contains_key(key) && !(measure(
            k,
            m[key].0,
            m[key].1,
        ) == 0);
        assert(has_name(r, key));
        let i = choose|i: int| 0 <= i < r.len() && r[i].0 == key;
        assert(entry_of(m, k, r[i], sum_parts(r)));
        assert(r.take(i + 1) + r.skip(i + 1) =~= r);
        lemma_stat_sums_concat(r.take(i + 1), r.skip(i + 1));
        assert(r.take(i + 1).drop_last() =~= r.take(i));
    }
}

/// Folding the tail of a report whose shares add up to one keeps them
/// adding up to one.
pub proof fn lemma_collapse_keeps_shares(r: Seq<StatView>, keep: nat)
    requires
        r.len() > 0,
        forall|i: int| 0 <= i < r.len() ==> (#[trigger] r[i]).4 == sum_parts(r),
    ensures
        collapsed(r, keep).len() > 0,
        sum_parts(collapsed(r, keep)) == sum_parts(r),
        forall|i: int|
            0 <= i < collapsed(r, keep).len() ==> (#[trigger] collapsed(r, keep)[i]).4 == sum_parts(
                collapsed(r, keep),
            ),
{
    if !(keep == 0 || r.len() <= keep) {
        let head = r.take(keep as int);
        let tail = r.skip(keep as int);
        let c = collapsed(r, keep);
        assert(head + tail =~= r);
        lemma_stat_sums_concat(head, tail);
        assert(c.drop_last() =~= head);
        assert(tail[0] == r[keep as int]);
        assert forall|i: int| 0 <= i < c.len() implies (#[trigger] c[i]).4 == sum_parts(c) by {
            if i < keep {
                assert(c[i] == r[i]);
            }
        }
    }
}

proof fn lemma_sorted_ranked(k: Metric, r: Seq<StatView>)
    requires
        sorted(k, r),
    ensures
        ranked(k, r),
{
    assert forall|i: int, j: int| 0 <= i < j < r.len() implies !before(k, r[j], r[i]) by {
        lemma_before_asymmetric(k, r[i], r[j]);
    }
}

/// Two ranked sequences with the same (name, files, bytes) list them in the
/// same order.
proof fn lemma_ranked_permutation(k: Metric, a: Seq<StatView>, b: Seq<StatView>)
    requires
        ranked(k, a),
        ranked(k, b),
        triples(a).to_multiset() == triples(b).to_multiset(),
    ensures
        triples(a) == triples(b),
    decreases a.len(),
{
    to_multiset_len(triples(a));
    to_multiset_len(triples(b));
    if a.len() > 0 {
        let ta = triples(a);
        let tb = triples(b);
        assert(ta.len() == a.len() && tb.len() == b.len());
        assert(b.len() > 0);
        to_multiset_contains(ta, tb[0]);
        to_multiset_contains(tb, ta[0]);
        to_multiset_contains(ta, ta[0]);
        to_multiset_contains(tb, tb[0]);
        assert(tb.contains(tb[0]));
        assert(ta.contains(ta[0]));
        assert(tb.to_multiset().count(tb[0]) > 0);
        assert(ta.to_multiset().count(tb[0]) > 0);
        assert(ta.contains(tb[0]));
        assert(ta.to_multiset().count(ta[0]) > 0);
        assert(tb.to_multiset().count(ta[0]) > 0);
        assert(tb.contains(ta[0]));
        let x = choose|x: int| 0 <= x < ta.len() && ta[x] == tb[0];
        let y = choose|y: int| 0 <= y < tb.len() && tb[y] == ta[0];
        assert(ta[0] == (a[0].0, a[0].1, a[0].2));
        assert(tb[0] == (b[0].0, b[0].1, b[0].2));
        assert(ta[x] == (a[x].0, a[x].1, a[x].2));
        assert(tb[y] == (b[y].0, b[y].1, b[y].2));
        if y > 0 {
            assert(!before(k, b[y], b[0]));
            if x > 0 {
                assert(!before(k, a[x], a[0]));
                if ta[0] != ta[x] {
                    lemma_before_total(k, a[0], a[x]);
                }
            }
        }
        assert(ta[0] == tb[0]);
        to_multiset_remove(ta, 0);
        to_multiset_remove(tb, 0);
        assert(triples(a.drop_first()) =~= ta.remove(0));
        assert(triples(b.drop_first()) =~= tb.remove(0));
        lemma_ranked_permutation(k, a.drop_first(), b.drop_first());
        assert(ta =~= seq![ta[0]] + ta.remove(0));
        assert(tb =~= seq![tb[0]] + tb.remove(0));
    }
}

proof fn lemma_sum_measure_is_sum_parts(k: Metric, r: Seq<StatView>)
    requires
        forall|i: int| 0 <= i < r.len() ==> (#[trigger] r[i]).3 == measure(k, r[i].1, r[i].2),
    ensures
        sum_measure(k, r) == sum_parts(r),
    decreases r.len(),
{
    if r.len() > 0 {
        lemma_sum_measure_is_sum_parts(k, r.drop_last());
        assert(r.last() == r[r.len() - 1]);
    }
}

/// Re-ratioing a report under the metric it was built with gives the same
/// report: the order and the shares are stable.
pub proof fn lemma_rebuild_is_identity(r: Seq<StatView>, m: Totals, k: Metric, r2: Seq<StatView>)
    requires
        is_report(r, m, k),
        is_reranked(r2, r, k),
    ensures
        r2 == r,
{
    if all_zero(m, k) {
        assert(r.len() == 0);
        assert(r2 =~= r);
    } else {
        assert forall|i: int| 0 <= i < r.len() implies (#[trigger] r[i]).3 == measure(k, r[i].1, r[i].2) by {
            assert(entry_of(m, k, r[i], sum_parts(r)));
        }
        lemma_sum_measure_is_sum_parts(k, r);
        if r.len() == 0 {
            assert forall|key: Seq<char>| #[trigger] m.contains_key(key) implies measure(
                k,
                m[key].0,
                m[key].1,
            ) == 0 by {
                assert(has_name(r, key));
            }
        }
        lemma_shares_sum_to_whole(r, m, k);
        lemma_sorted_ranked(k, r);
        lemma_ranked_permutation(k, r, r2);
        to_multiset_len(triples(r));
        to_multiset_len(triples(r2));
        assert forall|i: int| 0 <= i < r.len() implies r2[i] == r[i] by {
            assert(triples(r)[i] == triples(r2)[i]);
            assert(entry_of(m, k, r[i], sum_parts(r)));
        }
        assert(r2 =~= r);
    }
}

pub open spec fn same_entries(a: Seq<StatView>, b: Seq<StatView>) -> bool {
    triples(a).to_multiset() == triples(b).to_multiset()
}

proof fn lemma_sum_measure_concat(k: Metric, a: Seq<StatView>, b: Seq<StatView>)
    ensures
        sum_measure(k, a + b) == sum_measure(k, a) + sum_measure(k, b),
    decreases b.len(),
{
    if b.len() == 0 {
        assert(a + b =~= a);
    } else {
        lemma_sum_measure_concat(k, a, b.drop_last());
        assert((a + b).drop_last() =~= a + b.drop_last());
    }
}

/// Entries with the same (name, files, bytes) have the same metric sum.
proof fn lemma_sum_measure_permutation(k: Metric, a: Seq<StatView>, b: Seq<StatView>)
    requires
        same_entries(a, b),
    ensures
        sum_measure(k, a) == sum_measure(k, b),
    decreases a.len(),
{
    to_multiset_len(triples(a));
    to_multiset_len(triples(b));
    assert(triples(a).len() == a.len() && triples(b).len() == b.len());
    if a.len() > 0 {
        let ta = triples(a);
        let tb = triples(b);
        let t = ta[a.len() - 1];
        to_multiset_contains(ta, t);
        to_multiset_contains(tb, t);
        assert(ta.contains(t));
        let i = choose|i: int| 0 <= i < tb.len() && tb[i] == t;
        to_multiset_remove(ta, a.len() - 1);
        to_multiset_remove(tb, i);
        let a2 = a.drop_last();
        let b2 = b.remove(i);
        assert(triples(a2) =~= ta.remove(a.len() - 1));
        assert(triples(b2) =~= tb.remove(i));
        lemma_sum_measure_permutation(k, a2, b2);
        assert(b =~= b.take(i) + (seq![b[i]] + b.skip(i + 1)));
        assert(b2 =~= b.take(i) + b.skip(i + 1));
        lemma_sum_measure_concat(k, b.take(i), seq![b[i]] + b.skip(i + 1));
        lemma_sum_measure_concat(k, seq![b[i]], b.skip(i + 1));
        lemma_sum_measure_concat(k, b.take(i), b.skip(i + 1));
        assert(seq![b[i]].drop_last() =~= Seq::<StatView>::empty());
        assert(seq![b[i]].last() == b[i]);
        assert(sum_measure(k, Seq::<StatView>::empty()) == 0);
        assert(sum_measure(k, seq![b[i]].drop_last()) == 0);
        assert(sum_measure(k, seq![b[i]]) == measure(k, b[i].1, b[i].2));
        assert(tb[i] == (b[i].0, b[i].1, b[i].2));
        assert(t == (a.last().0, a.last().1, a.last().2));
        assert(sum_measure(k, b) == sum_measure(k, b2) + measure(k, b[i].1, b[i].2));
        assert(sum_measure(k, a) == sum_measure(k, a2) + measure(k, a.last().1, a.last().2));
    } else {
        assert(b.len() == 0);
    }
}

/// Re-ratioing does not depend on the order of its input: two lists with
/// the same entries give the same result.
pub proof fn lemma_rerank_ignores_input_order(
    s1: Seq<StatView>,
    s2: Seq<StatView>,
    k: Metric,
    r1: Seq<StatView>,
    r2: Seq<StatView>,
)
    requires
        same_entries(s1, s2),
        is_reranked(r1, s1, k),
        is_reranked(r2, s2, k),
    ensures
        r1 == r2,
{
    lemma_sum_measure_permutation(k, s1, s2);
    if sum_measure(k, s1) == 0 {
        assert(r1 =~= r2);
    } else {
        lemma_ranked_permutation(k, r1, r2);
        to_multiset_len(triples(r1));
        to_multiset_len(triples(r2));
        assert forall|i: int| 0 <= i < r1.len() implies r1[i] == r2[i] by {
            assert(triples(r1)[i] == triples(r2)[i]);
        }
        assert(r1 =~= r2);
    }
}

/// Re-ratioing is determined by its input and the metric: two re-ratioed
/// lists of one input are equal.
pub proof fn lemma_rerank_unique(s: Seq<StatView>, k: Metric, r1: Seq<StatView>, r2: Seq<StatView>)
    requires
        is_reranked(r1, s, k),
        is_reranked(r2, s, k),
    ensures
        r1 == r2,
{
    lemma_rerank_ignores_input_order(s, s, k, r1, r2);
}

/// Re-ratioing under one metric a list that was re-ratioed under another
/// metric, whose sum is positive, gives what re-ratioing the first list
/// gives: nothing of the earlier order or shares remains.
pub proof fn lemma_rerank_after_metric_change(
    s: Seq<StatView>,
    first: Metric,
    k: Metric,
    r1: Seq<StatView>,
    r2: Seq<StatView>,
    direct: Seq<StatView>,
)
    requires
        sum_measure(first, s) > 0,
        is_reranked(r1, s, first),
        is_reranked(r2, r1, k),
        is_reranked(direct, s, k),
    ensures
        r2 == direct,
{
    lemma_rerank_ignores_input_order(r1, s, k, r2, direct);
}

/// Accumulation does not depend on the order of the parts: accumulating
/// one part after the other, in either order, gives the same totals.
pub proof fn lemma_accumulate_parts_commute(a: Seq<(Seq<char>, nat)>, b: Seq<(Seq<char>, nat)>)
    ensures
        accumulate(a + b) == accumulate(b + a),
{
    lemma_merge_accumulate(a, b);
    lemma_merge_accumulate(b, a);
    assert(merge_totals(accumulate(a), accumulate(b)) =~= merge_totals(accumulate(b), accumulate(a)));
}

/// Folding the tail is a partition: the kept entries come first, unchanged,
/// the folded entry comes last, and file counts and bytes add up to those of
/// the whole report.
pub proof fn lemma_collapse_partition(r: Seq<StatView>, keep: nat)
    requires
        0 < keep < r.len(),
    ensures
        collapsed(r, keep).len() == keep + 1,
        collapsed(r, keep).take(keep as int) == r.take(keep as int),
        collapsed(r, keep)[keep as int] == folded_entry(r.skip(keep as int)),
        collapsed(r, keep)[keep as int].0 == other_name(),
        sum_stat_counts(r.take(keep as int)) + collapsed(r, keep)[keep as int].1 == sum_stat_counts(r),
        sum_stat_bytes(r.take(keep as int)) + collapsed(r, keep)[keep as int].2 == sum_stat_bytes(r),
        sum_stat_counts(collapsed(r, keep)) == sum_stat_counts(r),
        sum_stat_bytes(collapsed(r, keep)) == sum_stat_bytes(r),
        (forall|i: int| 0 <= i < keep ==> (#[trigger] r[i]).0 != other_name()) ==> forall|j: int|
            0 <= j < keep ==> (#[trigger] collapsed(r, keep)[j]).0 != other_name(),
{
    let head = r.take(keep as int);
    let tail = r.skip(keep as int);
    let c = collapsed(r, keep);
    assert(head + tail =~= r);
    lemma_stat_sums_concat(head, tail);
    assert(c.take(keep as int) =~= head);
    assert(c.drop_last() =~= head);
    assert forall|j: int| 0 <= j < keep implies (#[trigger] c[j]) == r[j] by {
        assert(c[j] == head[j]);
    }
}

/// Folding with `keep` zero, or with no fewer kept places than entries,
/// leaves the report unchanged.
pub proof fn lemma_collapse_identity(r: Seq<StatView>, keep: nat)
    requires
        keep == 0 || keep >= r.len(),
    ensures
        collapsed(r, keep) == r,
{
}

/// Accumulating two parts of the files apart, merging the two totals and
/// building the report gives the report of accumulating all the files in
/// one pass.
pub proof fn lemma_merge_then_build(
    a: Seq<(Seq<char>, nat)>,
    b: Seq<(Seq<char>, nat)>,
    k: Metric,
    merged: Seq<StatView>,
    sequential: Seq<StatView>,
)
    requires
        is_report(merged, merge_totals(accumulate(a), accumulate(b)), k),
        is_report(sequential, accumulate(a + b), k),
    ensures
        merged == sequential,
{
    lemma_merge_accumulate(a, b);
    lemma_report_unique(merged, sequential, accumulate(a + b), k);
}

/// Accumulation does not depend on the order of the files: two sequences
/// that hold the same files, in any order, give the same totals.
pub proof fn lemma_accumulate_permutation(a: Seq<(Seq<char>, nat)>, b: Seq<(Seq<char>, nat)>)
    requires
        a.to_multiset() == b.to_multiset(),
    ensures
        accumulate(a) == accumulate(b),
    decreases a.len(),
{
    to_multiset_len(a);
    to_multiset_len(b);
    if a.len() > 0 {
        let x = a.last();
        to_multiset_contains(a, x);
        to_multiset_contains(b, x);
        assert(a.contains(x)) by {
            assert(a[a.len() - 1] == x);
        }
        let i = choose|i: int| 0 <= i < b.len() && b[i] == x;
        to_multiset_remove(a, a.len() - 1);
        to_multiset_remove(b, i);
        let a2 = a.drop_last();
        let b2 = b.remove(i);
        assert(a.remove(a.len() - 1) =~= a2);
        lemma_accumulate_permutation(a2, b2);
        let p = b.take(i);
        let q = b.skip(i + 1);
        let one = seq![x];
        assert(b =~= p + (one + q));
        assert(b2 =~= p + q);
        lemma_merge_accumulate(p, one + q);
        lemma_merge_accumulate(one, q);
        lemma_merge_accumulate(p, q);
        lemma_merge_accumulate(a2, one);
        assert(a2 + one =~= a);
        assert(one.drop_last() =~= Seq::<(Seq<char>, nat)>::empty());
        let ap = accumulate(p);
        let aq = accumulate(q);
        let ao = accumulate(one);
        assert(merge_totals(ap, merge_totals(ao, aq)) =~= merge_totals(merge_totals(ap, aq), ao));
    } else {
        assert(a =~= b);
    }
}

} // verus!
