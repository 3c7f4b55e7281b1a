//! The report: one entry per language with its share of the chosen metric,
//! in descending order of that metric, and the folding of its tail into one
//! entry.
use vstd::prelude::*;
use vstd::seq_lib::{to_multiset_build, to_multiset_insert};

use crate::aggregate::Totals;
use crate::text::{
    lemma_name_lt_asymmetric, lemma_name_lt_total, lemma_name_lt_transitive, name_lt, name_precedes,
    same_name,
};

verus! {

/// What shares are taken of, and what the report is ordered by.
#[derive(Clone, Copy, Debug, PartialEq, Eq, Structural)]
pub enum Metric {
    Bytes,
    FileCount,
}

/// A share as an exact fraction: `part` out of `whole`.
#[derive(Clone, Copy, Debug, PartialEq, Eq, Structural)]
pub struct Ratio {
    pub part: u64,
    pub whole: u64,
}

/// One entry of a report.
#[derive(Debug)]
pub struct LanguageStat {
    pub lang: String,
    pub count: u32,
    pub bytes: u64,
    pub ratio: Ratio,
}

/// An entry as (name, files, bytes, share numerator, share denominator).
pub type StatView = (Seq<char>, nat, nat, nat, nat);

impl View for LanguageStat {
    type V = StatView;

    open spec fn view(&self) -> StatView {
        (self.lang@, self.count as nat, self.bytes as nat, self.ratio.part as nat, self.ratio.whole as nat)
    }
}

pub open spec fn stats_view(s: Seq<LanguageStat>) -> Seq<StatView> {
    s.map_values(|t: LanguageStat| t@)
}

/// The value of the metric for a language with these totals.
pub open spec fn measure(k: Metric, count: nat, bytes: nat) -> nat {
    match k {
        Metric::Bytes => bytes,
        Metric::FileCount => count,
    }
}

/// The metric that is not chosen: file count under bytes, bytes under file
/// count.
pub open spec fn other_measure(k: Metric, count: nat, bytes: nat) -> nat {
    match k {
        Metric::Bytes => count,
        Metric::FileCount => bytes,
    }
}

/// Report order: larger metric first, then by name, then larger other
/// metric. Entries with the same name, files and bytes are the only ones of
/// equal rank.
pub open spec fn before(k: Metric, a: StatView, b: StatView) -> bool {
    measure(k, a.1, a.2) > measure(k, b.1, b.2) || (measure(k, a.1, a.2) == measure(k, b.1, b.2)
        && (name_lt(a.0, b.0) || (a.0 == b.0 && other_measure(k, a.1, a.2) > other_measure(
        k,
        b.1,
        b.2,
    ))))
}

pub open spec fn sorted(k: Metric, r: Seq<StatView>) -> bool {
    forall|i: int, j: int| 0 <= i < j < r.len() ==> before(k, r[i], r[j])
}

pub open spec fn sum_parts(r: Seq<StatView>) -> nat
    decreases r.len(),
{
    if r.len() == 0 {
        0
    } else {
        sum_parts(r.drop_last()) + r.last().3
    }
}

pub open spec fn sum_stat_counts(r: Seq<StatView>) -> nat
    decreases r.len(),
{
    if r.len() == 0 {
        0
    } else {
        sum_stat_counts(r.drop_last()) + r.last().1
    }
}

pub open spec fn sum_stat_bytes(r: Seq<StatView>) -> nat
    decreases r.len(),
{
    if r.len() == 0 {
        0
    } else {
        sum_stat_bytes(r.drop_last()) + r.last().2
    }
}

/// Every language of the totals has a zero metric.
pub open spec fn all_zero(m: Totals, k: Metric) -> bool {
    forall|key: Seq<char>| #[trigger] m.contains_key(key) ==> measure(k, m[key].0, m[key].1) == 0
}

/// The entry agrees with the totals of its language, and its share is its
/// metric out of `whole`.
pub open spec fn entry_of(m: Totals, k: Metric, e: StatView, whole: nat) -> bool {
    &&& m.contains_key(e.0)
    &&& m[e.0] == (e.1, e.2)
    &&& e.3 == measure(k, e.1, e.2)
    &&& e.4 == whole
}

/// `r` is the report of the totals `m` under metric `k`: empty where the
/// metric sums to zero; else one entry for each language, each with its
/// share of the sum, in report order.
pub open spec fn is_report(r: Seq<StatView>, m: Totals, k: Metric) -> bool {
    if all_zero(m, k) {
        r.len() == 0
    } else {
        &&& sorted(k, r)
        &&& forall|i: int| 0 <= i < r.len() ==> entry_of(m, k, #[trigger] r[i], sum_parts(r))
        &&& forall|key: Seq<char>| #[trigger] m.contains_key(key) ==> has_name(r, key)
    }
}

pub proof fn lemma_before_asymmetric(k: Metric, a: StatView, b: StatView)
    ensures
        !(before(k, a, b) && before(k, b, a)),
        !before(k, a, a),
{
    lemma_name_lt_asymmetric(a.0, b.0);
    lemma_name_lt_asymmetric(a.0, a.0);
}

pub proof fn lemma_before_transitive(k: Metric, a: StatView, b: StatView, c: StatView)
    requires
        before(k, a, b),
        before(k, b, c),
    ensures
        before(k, a, c),
{
    if measure(k, a.1, a.2) == measure(k, b.1, b.2) && measure(k, b.1, b.2) == measure(k, c.1, c.2) {
        if name_lt(a.0, b.0) && name_lt(b.0, c.0) {
            lemma_name_lt_transitive(a.0, b.0, c.0);
        }
    }
}

pub proof fn lemma_before_total(k: Metric, a: StatView, b: StatView)
    requires
        (a.0, a.1, a.2) != (b.0, b.1, b.2),
    ensures
        before(k, a, b) || before(k, b, a),
{
    if a.0 != b.0 {
        lemma_name_lt_total(a.0, b.0);
    }
}

/// Every name that `r1` lists, `r2` lists too.
pub open spec fn names_within(r1: Seq<StatView>, r2: Seq<StatView>) -> bool {
    forall|i: int| 0 <= i < r1.len() ==> #[trigger] has_name(r2, r1[i].0)
}

/// Some entry of `r` is named `name`.
pub open spec fn has_name(r: Seq<StatView>, name: Seq<char>) -> bool {
    exists|j: int| 0 <= j < r.len() && r[j].0 == name
}

/// Each entry of `r` agrees with the totals of its language.
pub open spec fn agrees(m: Totals, r: Seq<StatView>) -> bool {
    forall|i: int|
        #![trigger r[i]]
        0 <= i < r.len() ==> m.contains_key(r[i].0) && m[r[i].0] == (r[i].1, r[i].2)
}

proof fn lemma_tail_within(k: Metric, m: Totals, r1: Seq<StatView>, r2: Seq<StatView>)
    requires
        sorted(k, r1),
        agrees(m, r1),
        names_within(r1, r2),
        r1.len() > 0,
        r2.len() > 0,
        r1[0].0 == r2[0].0,
    ensures
        names_within(r1.drop_first(), r2.drop_first()),
{
    let t1 = r1.drop_first();
    let t2 = r2.drop_first();
    assert forall|i: int| 0 <= i < t1.len() implies #[trigger] has_name(t2, t1[i].0) by {
        assert(r1[i + 1] == t1[i]);
        assert(has_name(r2, r1[i + 1].0));
        let j = choose|j: int| 0 <= j < r2.len() && r2[j].0 == r1[i + 1].0;
        if j == 0 {
            assert(before(k, r1[0], r1[i + 1]));
            assert(r1[0] == r1[0]);
            assert(m[r1[0].0] == (r1[0].1, r1[0].2));
            assert(m[r1[i + 1].0] == (r1[i + 1].1, r1[i + 1].2));
            lemma_before_asymmetric(k, r1[0], r1[i + 1]);
            lemma_name_lt_asymmetric(r1[0].0, r1[0].0);
        }
        assert(t2[j - 1] == r2[j]);
        assert(0 <= j - 1 < t2.len() && t2[j - 1].0 == t1[i].0);
    }
    assert(names_within(t1, t2));
}

/// Two sorted sequences whose entries agree with the same totals, and which
/// list the same names, list the same entries in the same order, but for
/// the share denominators.
proof fn lemma_sorted_names_agree(k: Metric, m: Totals, r1: Seq<StatView>, r2: Seq<StatView>)
    requires
        sorted(k, r1),
        sorted(k, r2),
        agrees(m, r1),
        agrees(m, r2),
        names_within(r1, r2),
        names_within(r2, r1),
    ensures
        r1.len() == r2.len(),
        forall|i: int| 0 <= i < r1.len() ==> r1[i].0 == r2[i].0 && r1[i].1 == r2[i].1 && r1[i].2 == r2[i].2,
    decreases r1.len(),
{
    if r1.len() == 0 {
        if r2.len() > 0 {
            assert(has_name(r1, r2[0].0));
        }
    } else if r2.len() == 0 {
        assert(has_name(r2, r1[0].0));
    } else {
        assert(has_name(r2, r1[0].0));
        assert(has_name(r1, r2[0].0));
        let a = choose|j: int| 0 <= j < r2.len() && r2[j].0 == r1[0].0;
        let b = choose|i: int| 0 <= i < r1.len() && r1[i].0 == r2[0].0;
        assert(r2[a].1 == r1[0].1 && r2[a].2 == r1[0].2);
        assert(r1[b].1 == r2[0].1 && r1[b].2 == r2[0].2);
        if a > 0 {
            assert(before(k, r2[0], r2[a]));
            assert(before(k, r1[b], r1[0]));
            if b > 0 {
                assert(before(k, r1[0], r1[b]));
                lemma_before_asymmetric(k, r1[0], r1[b]);
            } else {
                lemma_before_asymmetric(k, r1[0], r1[0]);
            }
        }
        assert(a == 0);
        let t1 = r1.drop_first();
        let t2 = r2.drop_first();
        lemma_tail_within(k, m, r1, r2);
        lemma_tail_within(k, m, r2, r1);
        assert(sorted(k, t1));
        assert(sorted(k, t2));
        assert(agrees(m, t1));
        assert(agrees(m, t2));
        lemma_sorted_names_agree(k, m, t1, t2);
        assert forall|i: int| 0 <= i < r1.len() implies r1[i].0 == r2[i].0 && r1[i].1 == r2[i].1
            && r1[i].2 == r2[i].2 by {
            if i > 0 {
                assert(t1[i - 1] == r1[i]);
                assert(t2[i - 1] == r2[i]);
            }
        }
    }
}

pub proof fn lemma_sum_parts_pointwise(r1: Seq<StatView>, r2: Seq<StatView>)
    requires
        r1.len() == r2.len(),
        forall|i: int| 0 <= i < r1.len() ==> r1[i].3 == r2[i].3,
    ensures
        sum_parts(r1) == sum_parts(r2),
    decreases r1.len(),
{
    if r1.len() > 0 {
        lemma_sum_parts_pointwise(r1.drop_last(), r2.drop_last());
    }
}

/// A report is determined by the totals and the metric: two reports of the
/// same totals under the same metric are equal.
pub proof fn lemma_report_unique(r1: Seq<StatView>, r2: Seq<StatView>, m: Totals, k: Metric)
    requires
        is_report(r1, m, k),
        is_report(r2, m, k),
    ensures
        r1 == r2,
{
    if !all_zero(m, k) {
        assert forall|i: int| 0 <= i < r1.len() implies #[trigger] has_name(r2, r1[i].0) by {
            assert(entry_of(m, k, r1[i], sum_parts(r1)));
            assert(m.contains_key(r1[i].0));
        }
        assert forall|i: int| 0 <= i < r2.len() implies #[trigger] has_name(r1, r2[i].0) by {
            assert(entry_of(m, k, r2[i], sum_parts(r2)));
            assert(m.contains_key(r2[i].0));
        }
        assert(agrees(m, r1));
        assert(agrees(m, r2));
        lemma_sorted_names_agree(k, m, r1, r2);
        assert forall|i: int| 0 <= i < r1.len() implies r1[i].3 == r2[i].3 by {
            assert(entry_of(m, k, r1[i], sum_parts(r1)));
            assert(entry_of(m, k, r2[i], sum_parts(r2)));
        }
        lemma_sum_parts_pointwise(r1, r2);
        assert forall|i: int| 0 <= i < r1.len() implies r1[i] == r2[i] by {
            assert(entry_of(m, k, r1[i], sum_parts(r1)));
            assert(entry_of(m, k, r2[i], sum_parts(r2)));
        }
        assert(r1 =~= r2);
    } else {
        assert(r1 =~= r2);
    }
}

pub proof fn lemma_sum_parts_insert(r: Seq<StatView>, p: int, x: StatView)
    requires
        0 <= p <= r.len(),
    ensures
        sum_parts(r.insert(p, x)) == sum_parts(r) + x.3,
    decreases r.len(),
{
    if p == r.len() {
        assert(r.insert(p, x).drop_last() =~= r);
    } else {
        lemma_sum_parts_insert(r.drop_last(), p, x);
        assert(r.insert(p, x).drop_last() =~= r.drop_last().insert(p, x));
    }
}

/// The metric of an entry.
pub fn measure_of(k: Metric, count: u32, bytes: u64) -> (r: u64)
    ensures
        r == measure(k, count as nat, bytes as nat),
{
    match k {
        Metric::Bytes => bytes,
        Metric::FileCount => count as u64,
    }
}

/// Whether `a` comes before `b` in report order.
pub fn stat_before(k: Metric, a: &LanguageStat, b: &LanguageStat) -> (r: bool)
    ensures
        r == before(k, a@, b@),
{
    let ma = measure_of(k, a.count, a.bytes);
    let mb = measure_of(k, b.count, b.bytes);
    if ma != mb {
        ma > mb
    } else if !same_name(a.lang.as_str(), b.lang.as_str()) {
        name_precedes(a.lang.as_str(), b.lang.as_str())
    } else {
        proof {
            lemma_name_lt_asymmetric(a.lang@, b.lang@);
        }
        other_measure_of(k, a.count, a.bytes) > other_measure_of(k, b.count, b.bytes)
    }
}

/// The metric that is not chosen.
pub fn other_measure_of(k: Metric, count: u32, bytes: u64) -> (r: u64)
    ensures
        r == other_measure(k, count as nat, bytes as nat),
{
    match k {
        Metric::Bytes => count as u64,
        Metric::FileCount => bytes,
    }
}

/// Inserts `x` into a sorted report at its place in report order; returns
/// that place.
pub fn insert_sorted(r: &mut Vec<LanguageStat>, x: LanguageStat, k: Metric) -> (p: usize)
    requires
        sorted(k, stats_view(old(r)@)),
        !has_name(stats_view(old(r)@), x.lang@),
    ensures
        p <= old(r)@.len(),
        stats_view(final(r)@) == stats_view(old(r)@).insert(p as int, x@),
        sorted(k, stats_view(final(r)@)),
{
    let ghost s = stats_view(r@);
    let mut i: usize = 0;
    while i < r.len() && !stat_before(k, &x, &r[i])
        invariant
            s == stats_view(r@),
            sorted(k, s),
            !has_name(s, x.lang@),
            i <= s.len(),
            forall|q: int| 0 <= q < i ==> before(k, #[trigger] s[q], x@),
        decreases s.len() - i,
    {
        proof {
            assert(s[i as int].0 != x.lang@);
            lemma_before_total(k, x@, s[i as int]);
        }
        i = i + 1;
    }
    let ghost xv = x@;
    r.insert(i, x);
    proof {
        let n = s.insert(i as int, xv);
        assert(stats_view(r@) =~= n);
        assert forall|a: int, b: int| 0 <= a < b < n.len() implies before(k, n[a], n[b]) by {
            if b < i {
                assert(n[a] == s[a] && n[b] == s[b]);
            } else if b == i {
                assert(n[a] == s[a]);
            } else if a < i {
                assert(n[a] == s[a] && n[b] == s[b - 1]);
            } else if a == i {
                assert(n[b] == s[b - 1]);
                assert(before(k, xv, s[i as int]));
                if b - 1 > i {
                    lemma_before_transitive(k, xv, s[i as int], s[b - 1]);
                }
            } else {
                assert(n[a] == s[a - 1] && n[b] == s[b - 1]);
            }
        }
    }
    i
}

pub proof fn lemma_stat_sums_concat(a: Seq<StatView>, b: Seq<StatView>)
    ensures
        sum_parts(a + b) == sum_parts(a) + sum_parts(b),
        sum_stat_counts(a + b) == sum_stat_counts(a) + sum_stat_counts(b),
        sum_stat_bytes(a + b) == sum_stat_bytes(a) + sum_stat_bytes(b),
    decreases b.len(),
{
    if b.len() == 0 {
        assert(a + b =~= a);
    } else {
        lemma_stat_sums_concat(a, b.drop_last());
        assert((a + b).drop_last() =~= a + b.drop_last());
    }
}

pub proof fn lemma_stat_sums_prefix(r: Seq<StatView>, j: int)
    requires
        0 <= j < r.len(),
    ensures
        sum_parts(r.take(j + 1)) == sum_parts(r.take(j)) + r[j].3,
        sum_stat_counts(r.take(j + 1)) == sum_stat_counts(r.take(j)) + r[j].1,
        sum_stat_bytes(r.take(j + 1)) == sum_stat_bytes(r.take(j)) + r[j].2,
        sum_parts(r.take(j + 1)) <= sum_parts(r),
        sum_stat_counts(r.take(j + 1)) <= sum_stat_counts(r),
        sum_stat_bytes(r.take(j + 1)) <= sum_stat_bytes(r),
{
    assert(r.take(j + 1).drop_last() =~= r.take(j));
    lemma_stat_sums_concat(r.take(j + 1), r.skip(j + 1));
    assert(r.take(j + 1) + r.skip(j + 1) =~= r);
}

/// The name of the entry that the tail of a report is folded into.
pub open spec fn other_name() -> Seq<char> {
    "Other"@
}

/// The entry that stands for the entries of `tail`: the sums of their
/// counts, bytes and share numerators, over the denominator of the first.
pub open spec fn folded_entry(tail: Seq<StatView>) -> StatView {
    (other_name(), sum_stat_counts(tail), sum_stat_bytes(tail), sum_parts(tail), tail[0].4)
}

/// A report with all but its first `keep` entries folded into one last
/// entry; unchanged where `keep` is zero or the report has no more than
/// `keep` entries.
pub open spec fn collapsed(r: Seq<StatView>, keep: nat) -> Seq<StatView> {
    if keep == 0 || r.len() <= keep {
        r
    } else {
        r.take(keep as int).push(folded_entry(r.skip(keep as int)))
    }
}

/// The entries that folding takes share one denominator, and their sums
/// fit the fields of the entry that stands for them.
pub open spec fn tail_fits(r: Seq<StatView>, keep: nat) -> bool {
    keep == 0 || r.len() <= keep || {
        let tail = r.skip(keep as int);
        &&& sum_stat_counts(tail) <= u32::MAX
        &&& sum_stat_bytes(tail) <= u64::MAX
        &&& sum_parts(tail) <= u64::MAX
        &&& forall|i: int| 0 <= i < tail.len() ==> (#[trigger] tail[i]).4 == tail[0].4
    }
}

/// Keeps the first `max_lang` entries and folds the rest into one entry
/// named "Other", placed last; with `max_lang` zero, or with no more than
/// `max_lang` entries, returns the entries unchanged.
pub fn collapse_tail_to_others(stats: Vec<LanguageStat>, max_lang: usize) -> (r: Vec<LanguageStat>)
    requires
        tail_fits(stats_view(stats@), max_lang as nat),
    ensures
        stats_view(r@) == collapsed(stats_view(stats@), max_lang as nat),
{
    if stats.len() <= max_lang || max_lang == 0 {
        return stats;
    }
    let ghost all = stats_view(stats@);
    let mut stats = stats;
    let tail = stats.split_off(max_lang);
    let ghost t = stats_view(tail@);
    assert(t =~= all.skip(max_lang as int));
    assert(stats_view(stats@) =~= all.take(max_lang as int));
    let mut count: u32 = 0;
    let mut bytes: u64 = 0;
    let mut part: u64 = 0;
    let mut i: usize = 0;
    assert(t.take(0) =~= Seq::<StatView>::empty());
    while i < tail.len()
        invariant
            t == stats_view(tail@),
            sum_stat_counts(t) <= u32::MAX,
            sum_stat_bytes(t) <= u64::MAX,
            sum_parts(t) <= u64::MAX,
            i <= t.len(),
            count as nat == sum_stat_counts(t.take(i as int)),
            bytes as nat == sum_stat_bytes(t.take(i as int)),
            part as nat == sum_parts(t.take(i as int)),
        decreases t.len() - i,
    {
        proof {
            lemma_stat_sums_prefix(t, i as int);
        }
        count = count + tail[i].count;
        bytes = bytes + tail[i].bytes;
        part = part + tail[i].ratio.part;
        i = i + 1;
    }
    assert(t.take(t.len() as int) =~= t);
    let other = LanguageStat {
        lang: "Other".to_string(),
        count,
        bytes,
        ratio: Ratio { part, whole: tail[0].ratio.whole },
    };
    let ghost head = stats_view(stats@);
    stats.push(other);
    assert(stats_view(stats@) =~= head.push(folded_entry(t)));
    stats
}

/// The (name, files, bytes) of each entry, in order.
pub open spec fn triples(r: Seq<StatView>) -> Seq<(Seq<char>, nat, nat)> {
    r.map_values(|e: StatView| (e.0, e.1, e.2))
}

/// The sum of the metric over the entries.
pub open spec fn sum_measure(k: Metric, r: Seq<StatView>) -> nat
    decreases r.len(),
{
    if r.len() == 0 {
        0
    } else {
        sum_measure(k, r.drop_last()) + measure(k, r.last().1, r.last().2)
    }
}

/// Report order, where entries of equal rank may stand in either order: no
/// entry comes strictly before one that precedes it.
pub open spec fn ranked(k: Metric, r: Seq<StatView>) -> bool {
    forall|i: int, j: int| 0 <= i < j < r.len() ==> !before(k, r[j], r[i])
}

/// `r` is `input` re-ratioed under metric `k`: empty where the metric sums
/// to zero; else the same entries, each once, in report order, each with
/// its metric out of the metric's sum as its share.
pub open spec fn is_reranked(r: Seq<StatView>, input: Seq<StatView>, k: Metric) -> bool {
    if sum_measure(k, input) == 0 {
        r.len() == 0
    } else {
        &&& triples(r).to_multiset() == triples(input).to_multiset()
        &&& ranked(k, r)
        &&& forall|i: int|
            0 <= i < r.len() ==> (#[trigger] r[i]).3 == measure(k, r[i].1, r[i].2) && r[i].4
                == sum_measure(k, input)
        &&& sum_parts(r) == sum_measure(k, input)
    }
}

/// Inserts `x` into a ranked list after every entry that it does not come
/// strictly before; returns that place.
pub fn insert_ranked(r: &mut Vec<LanguageStat>, x: LanguageStat, k: Metric) -> (p: usize)
    requires
        ranked(k, stats_view(old(r)@)),
    ensures
        p <= old(r)@.len(),
        stats_view(final(r)@) == stats_view(old(r)@).insert(p as int, x@),
        ranked(k, stats_view(final(r)@)),
{
    let ghost s = stats_view(r@);
    let mut i: usize = 0;
    while i < r.len() && !stat_before(k, &x, &r[i])
        invariant
            s == stats_view(r@),
            ranked(k, s),
            i <= s.len(),
            forall|q: int| 0 <= q < i ==> !before(k, x@, #[trigger] s[q]),
        decreases s.len() - i,
    {
        i = i + 1;
    }
    let ghost xv = x@;
    r.insert(i, x);
    proof {
        let n = s.insert(i as int, xv);
        assert(stats_view(r@) =~= n);
        assert forall|a: int, b: int| 0 <= a < b < n.len() implies !before(k, n[b], n[a]) by {
            if b < i {
                assert(n[a] == s[a] && n[b] == s[b]);
            } else if b == i {
                assert(n[a] == s[a]);
            } else if a < i {
                assert(n[a] == s[a] && n[b] == s[b - 1]);
            } else if a == i {
                assert(n[b] == s[b - 1]);
                assert(before(k, xv, s[i as int]));
                if before(k, s[b - 1], xv) {
                    lemma_before_transitive(k, s[b - 1], xv, s[i as int]);
                    if b - 1 == i {
                        lemma_before_asymmetric(k, s[i as int], s[i as int]);
                    }
                }
            } else {
                assert(n[a] == s[a - 1] && n[b] == s[b - 1]);
            }
        }
    }
    i
}

/// Recomputes the shares and the order of a list of entries under metric
/// `k`, from their counts and bytes alone; every entry is kept.
pub fn recalculate_ratios(stats: &Vec<LanguageStat>, k: Metric) -> (r: Vec<LanguageStat>)
    requires
        sum_measure(k, stats_view(stats@)) <= u64::MAX,
    ensures
        is_reranked(stats_view(r@), stats_view(stats@), k),
{
    let ghost v = stats_view(stats@);
    let mut whole: u64 = 0;
    let mut j: usize = 0;
    assert(v.take(0) =~= Seq::<StatView>::empty());
    while j < stats.len()
        invariant
            v == stats_view(stats@),
            sum_measure(k, v) <= u64::MAX,
            j <= v.len(),
            whole as nat == sum_measure(k, v.take(j as int)),
        decreases v.len() - j,
    {
        proof {
            lemma_sum_measure_prefix(k, v, j as int);
        }
        whole = whole + measure_of(k, stats[j].count, stats[j].bytes);
        j = j + 1;
    }
    assert(v.take(v.len() as int) =~= v);
    let mut r: Vec<LanguageStat> = Vec::new();
    if whole == 0 {
        assert(stats_view(r@) =~= Seq::empty());
        return r;
    }
    j = 0;
    assert(stats_view(r@) =~= Seq::empty());
    assert(triples(Seq::<StatView>::empty()) =~= Seq::empty());
    while j < stats.len()
        invariant
            v == stats_view(stats@),
            whole as nat == sum_measure(k, v),
            j <= v.len(),
            stats_view(r@).len() == j,
            triples(stats_view(r@)).to_multiset() == triples(v.take(j as int)).to_multiset(),
            ranked(k, stats_view(r@)),
            forall|i: int|
                0 <= i < stats_view(r@).len() ==> (#[trigger] stats_view(r@)[i]).3 == measure(
                    k,
                    stats_view(r@)[i].1,
                    stats_view(r@)[i].2,
                ) && stats_view(r@)[i].4 == whole,
            sum_parts(stats_view(r@)) == sum_measure(k, v.take(j as int)),
        decreases v.len() - j,
    {
        let e = &stats[j];
        let stat = LanguageStat {
            lang: e.lang.clone(),
            count: e.count,
            bytes: e.bytes,
            ratio: Ratio { part: measure_of(k, e.count, e.bytes), whole },
        };
        let ghost old_r = stats_view(r@);
        let ghost x = stat@;
        let p = insert_ranked(&mut r, stat, k);
        proof {
            let n = stats_view(r@);
            lemma_sum_measure_prefix(k, v, j as int);
            lemma_sum_parts_insert(old_r, p as int, x);
            assert(triples(n) =~= triples(old_r).insert(p as int, (x.0, x.1, x.2)));
            to_multiset_insert(triples(old_r), p as int, (x.0, x.1, x.2));
            assert(triples(v.take(j + 1)) =~= triples(v.take(j as int)).push((x.0, x.1, x.2)));
            to_multiset_build(triples(v.take(j as int)), (x.0, x.1, x.2));
            assert forall|i: int| 0 <= i < n.len() implies (#[trigger] n[i]).3 == measure(
                k,
                n[i].1,
                n[i].2,
            ) && n[i].4 == whole by {
                if i < p {
                    assert(n[i] == old_r[i]);
                } else if i > p {
                    assert(n[i] == old_r[i - 1]);
                }
            }
        }
        j = j + 1;
    }
    assert(v.take(v.len() as int) =~= v);
    r
}

pub proof fn lemma_sum_measure_prefix(k: Metric, r: Seq<StatView>, j: int)
    requires
        0 <= j < r.len(),
    ensures
        sum_measure(k, r.take(j + 1)) == sum_measure(k, r.take(j)) + measure(k, r[j].1, r[j].2),
        sum_measure(k, r.take(j + 1)) <= sum_measure(k, r),
    decreases r.len() - j,
{
    assert(r.take(j + 1).drop_last() =~= r.take(j));
    if j + 1 < r.len() {
        lemma_sum_measure_prefix(k, r, j + 1);
    } else {
        assert(r.take(j + 1) =~= r);
    }
}

/// Shares and order for display under metric `k`.
pub fn process_stats_for_ui(stats: &Vec<LanguageStat>, k: Metric) -> (r: Vec<LanguageStat>)
    requires
        sum_measure(k, stats_view(stats@)) <= u64::MAX,
    ensures
        is_reranked(stats_view(r@), stats_view(stats@), k),
{
    recalculate_ratios(stats, k)
}

} // verus!
