//! Per-language totals of a scan: file counts and byte totals keyed by
//! language name, filled one file at a time and merged between workers.
use vstd::prelude::*;

use crate::report::{
    all_zero, entry_of, has_name, insert_sorted, is_report, lemma_sum_parts_insert, measure,
    measure_of, sorted, stats_view, sum_parts, LanguageStat, Metric, Ratio,
};
use crate::text::same_name;

verus! {

/// The totals of one language.
#[derive(Debug)]
pub struct Tally {
    pub lang: String,
    pub count: u32,
    pub bytes: u64,
}

impl View for Tally {
    type V = (Seq<char>, nat, nat);

    open spec fn view(&self) -> (Seq<char>, nat, nat) {
        (self.lang@, self.count as nat, self.bytes as nat)
    }
}

/// Totals by language name.
pub type Totals = Map<Seq<char>, (nat, nat)>;

pub open spec fn tallies_view(s: Seq<Tally>) -> Seq<(Seq<char>, nat, nat)> {
    s.map_values(|t: Tally| t@)
}

pub open spec fn names_unique(s: Seq<(Seq<char>, nat, nat)>) -> bool {
    forall|i: int, j: int| 0 <= i < j < s.len() ==> s[i].0 != s[j].0
}

/// The totals that a sequence of per-language entries lists.
pub open spec fn to_totals(s: Seq<(Seq<char>, nat, nat)>) -> Totals
    decreases s.len(),
{
    if s.len() == 0 {
        Map::empty()
    } else {
        to_totals(s.drop_last()).insert(s.last().0, (s.last().1, s.last().2))
    }
}

pub open spec fn sum_counts(s: Seq<(Seq<char>, nat, nat)>) -> nat
    decreases s.len(),
{
    if s.len() == 0 {
        0
    } else {
        sum_counts(s.drop_last()) + s.last().1
    }
}

pub open spec fn sum_bytes(s: Seq<(Seq<char>, nat, nat)>) -> nat
    decreases s.len(),
{
    if s.len() == 0 {
        0
    } else {
        sum_bytes(s.drop_last()) + s.last().2
    }
}

/// The totals of a language, zero where it has none.
pub open spec fn totals_of(m: Totals, lang: Seq<char>) -> (nat, nat) {
    if m.contains_key(lang) {
        m[lang]
    } else {
        (0, 0)
    }
}

/// Adds `count` files of `bytes` bytes in all to a language's totals.
pub open spec fn add_to(m: Totals, lang: Seq<char>, count: nat, bytes: nat) -> Totals {
    m.insert(lang, (totals_of(m, lang).0 + count, totals_of(m, lang).1 + bytes))
}

/// Key-wise sum of two sets of totals.
pub open spec fn merge_totals(a: Totals, b: Totals) -> Totals {
    Map::new(
        |k: Seq<char>| a.contains_key(k) || b.contains_key(k),
        |k: Seq<char>| (totals_of(a, k).0 + totals_of(b, k).0, totals_of(a, k).1 + totals_of(b, k).1),
    )
}

/// The totals of a sequence of classified files, each a language name and
/// a size in bytes, accumulated in order.
pub open spec fn accumulate(files: Seq<(Seq<char>, nat)>) -> Totals
    decreases files.len(),
{
    if files.len() == 0 {
        Map::empty()
    } else {
        add_to(accumulate(files.drop_last()), files.last().0, 1, files.last().1)
    }
}

pub proof fn lemma_to_totals_lookup(s: Seq<(Seq<char>, nat, nat)>)
    requires
        names_unique(s),
    ensures
        forall|k: Seq<char>| #[trigger]
            to_totals(s).contains_key(k) <==> exists|i: int| 0 <= i < s.len() && s[i].0 == k,
        forall|i: int|
            0 <= i < s.len() ==> #[trigger] to_totals(s)[s[i].0] == (s[i].1, s[i].2),
    decreases s.len(),
{
    if s.len() > 0 {
        let p = s.drop_last();
        lemma_to_totals_lookup(p);
        assert(to_totals(s) == to_totals(p).insert(s.last().0, (s.last().1, s.last().2)));
        assert forall|k: Seq<char>| #[trigger]
            to_totals(s).contains_key(k) <==> exists|i: int| 0 <= i < s.len() && s[i].0 == k by {
            if to_totals(s).contains_key(k) {
                if k == s.last().0 {
                    assert(s[s.len() - 1].0 == k);
                } else {
                    assert(to_totals(p).contains_key(k));
                    let i = choose|i: int| 0 <= i < p.len() && p[i].0 == k;
                    assert(s[i].0 == k);
                }
            }
            if exists|i: int| 0 <= i < s.len() && s[i].0 == k {
                let i = choose|i: int| 0 <= i < s.len() && s[i].0 == k;
                if i < s.len() - 1 {
                    assert(p[i].0 == k);
                    assert(to_totals(p).contains_key(k));
                }
            }
        }
        assert forall|i: int| 0 <= i < s.len() implies #[trigger] to_totals(s)[s[i].0] == (
        s[i].1, s[i].2) by {
            if i < s.len() - 1 {
                assert(p[i] == s[i]);
                assert(s[i].0 != s.last().0);
                assert(to_totals(p)[p[i].0] == (p[i].1, p[i].2));
            }
        }
    }
}

pub proof fn lemma_to_totals_update(s: Seq<(Seq<char>, nat, nat)>, i: int, c: nat, b: nat)
    requires
        names_unique(s),
        0 <= i < s.len(),
    ensures
        names_unique(s.update(i, (s[i].0, c, b))),
        to_totals(s.update(i, (s[i].0, c, b))) == to_totals(s).insert(s[i].0, (c, b)),
        sum_counts(s.update(i, (s[i].0, c, b))) + s[i].1 == sum_counts(s) + c,
        sum_bytes(s.update(i, (s[i].0, c, b))) + s[i].2 == sum_bytes(s) + b,
    decreases s.len(),
{
    let u = s.update(i, (s[i].0, c, b));
    if i == s.len() - 1 {
        assert(u.drop_last() =~= s.drop_last());
        assert(to_totals(s.drop_last()).contains_key(s[i].0) ==> false) by {
            lemma_to_totals_lookup(s.drop_last());
        }
        assert(to_totals(u) =~= to_totals(s).insert(s[i].0, (c, b)));
    } else {
        let p = s.drop_last();
        lemma_to_totals_update(p, i, c, b);
        assert(u.drop_last() =~= p.update(i, (s[i].0, c, b)));
        assert(to_totals(u) =~= to_totals(s).insert(s[i].0, (c, b)));
    }
}

pub proof fn lemma_sum_bounds(s: Seq<(Seq<char>, nat, nat)>, i: int)
    requires
        0 <= i < s.len(),
    ensures
        s[i].1 <= sum_counts(s),
        s[i].2 <= sum_bytes(s),
    decreases s.len(),
{
    if i < s.len() - 1 {
        lemma_sum_bounds(s.drop_last(), i);
    }
}

pub proof fn lemma_sum_prefix(s: Seq<(Seq<char>, nat, nat)>, j: int)
    requires
        0 <= j < s.len(),
    ensures
        sum_counts(s.take(j + 1)) == sum_counts(s.take(j)) + s[j].1,
        sum_bytes(s.take(j + 1)) == sum_bytes(s.take(j)) + s[j].2,
        sum_counts(s.take(j + 1)) <= sum_counts(s),
        sum_bytes(s.take(j + 1)) <= sum_bytes(s),
    decreases s.len() - j,
{
    assert(s.take(j + 1).drop_last() =~= s.take(j));
    if j + 1 < s.len() {
        lemma_sum_prefix(s, j + 1);
    } else {
        assert(s.take(j + 1) =~= s);
    }
}

/// Accumulating the files of two parts separately and merging the two
/// results gives the totals of accumulating all the files in one pass.
pub proof fn lemma_merge_accumulate(a: Seq<(Seq<char>, nat)>, b: Seq<(Seq<char>, nat)>)
    ensures
        merge_totals(accumulate(a), accumulate(b)) == accumulate(a + b),
    decreases b.len(),
{
    if b.len() == 0 {
        assert(a + b =~= a);
        assert(merge_totals(accumulate(a), accumulate(b)) =~= accumulate(a));
    } else {
        lemma_merge_accumulate(a, b.drop_last());
        assert((a + b).drop_last() =~= a + b.drop_last());
        assert((a + b).last() == b.last());
        assert(merge_totals(accumulate(a), accumulate(b)) =~= add_to(
            merge_totals(accumulate(a), accumulate(b.drop_last())),
            b.last().0,
            1,
            b.last().1,
        ));
    }
}

/// Totals of a scan by language, with the file and byte totals over all
/// languages.
#[derive(Debug)]
pub struct Aggregate {
    tallies: Vec<Tally>,
    files: u32,
    bytes: u64,
}

impl View for Aggregate {
    type V = Totals;

    closed spec fn view(&self) -> Totals {
        to_totals(tallies_view(self.tallies@))
    }
}

impl Aggregate {
    /// Languages are listed once each, and the totals are the sums of
    /// their entries.
    pub closed spec fn wf(&self) -> bool {
        &&& names_unique(tallies_view(self.tallies@))
        &&& self.files as nat == sum_counts(tallies_view(self.tallies@))
        &&& self.bytes as nat == sum_bytes(tallies_view(self.tallies@))
    }

    /// Number of files counted, over all languages.
    pub closed spec fn file_total(&self) -> nat {
        self.files as nat
    }

    /// Number of bytes counted, over all languages.
    pub closed spec fn byte_total(&self) -> nat {
        self.bytes as nat
    }

    /// The entries, one per language, in the order they were first seen.
    pub closed spec fn entries(&self) -> Seq<(Seq<char>, nat, nat)> {
        tallies_view(self.tallies@)
    }

    /// The totals are those that the entries list, one entry per language,
    /// and the file and byte totals are the sums over the entries.
    pub proof fn lemma_entries(&self)
        requires
            self.wf(),
        ensures
            names_unique(self.entries()),
            to_totals(self.entries()) == self@,
            sum_counts(self.entries()) == self.file_total(),
            sum_bytes(self.entries()) == self.byte_total(),
            forall|key: Seq<char>| #[trigger]
                self@.contains_key(key) <==> exists|i: int|
                    0 <= i < self.entries().len() && self.entries()[i].0 == key,
            forall|i: int|
                0 <= i < self.entries().len() ==> #[trigger] self@[self.entries()[i].0] == (
                    self.entries()[i].1,
                    self.entries()[i].2,
                ),
    {
        lemma_to_totals_lookup(self.entries());
    }

    /// No language yet.
    pub fn new() -> (r: Aggregate)
        ensures
            r.wf(),
            r@ == Map::<Seq<char>, (nat, nat)>::empty(),
            r.file_total() == 0,
            r.byte_total() == 0,
    {
        let r = Aggregate { tallies: Vec::new(), files: 0, bytes: 0 };
        assert(tallies_view(r.tallies@) =~= Seq::empty());
        r
    }

    /// Number of files counted, over all languages.
    pub fn total_files(&self) -> (r: u32)
        ensures
            r == self.file_total(),
    {
        self.files
    }

    /// Number of bytes counted, over all languages.
    pub fn total_bytes(&self) -> (r: u64)
        ensures
            r == self.byte_total(),
    {
        self.bytes
    }

    /// Adds `count` files of `bytes` bytes in all to the totals of `lang`.
    pub fn absorb(&mut self, lang: String, count: u32, bytes: u64)
        requires
            old(self).wf(),
            old(self).file_total() + count <= u32::MAX,
            old(self).byte_total() + bytes <= u64::MAX,
        ensures
            final(self).wf(),
            final(self)@ == add_to(old(self)@, lang@, count as nat, bytes as nat),
            final(self).file_total() == old(self).file_total() + count,
            final(self).byte_total() == old(self).byte_total() + bytes,
    {
        let ghost s = tallies_view(self.tallies@);
        proof {
            lemma_to_totals_lookup(s);
        }
        let mut i: usize = 0;
        while i < self.tallies.len()
            invariant
                s == tallies_view(self.tallies@),
                self.wf(),
                self@ == old(self)@,
                self.file_total() == old(self).file_total(),
                self.byte_total() == old(self).byte_total(),
                self.file_total() + count <= u32::MAX,
                self.byte_total() + bytes <= u64::MAX,
                forall|k: Seq<char>| #[trigger]
                    to_totals(s).contains_key(k) <==> exists|j: int| 0 <= j < s.len() && s[j].0 == k,
                forall|j: int| 0 <= j < s.len() ==> #[trigger] to_totals(s)[s[j].0] == (s[j].1, s[j].2),
                i <= self.tallies@.len(),
                forall|j: int| 0 <= j < i ==> s[j].0 != lang@,
            decreases self.tallies@.len() - i,
        {
            if same_name(self.tallies[i].lang.as_str(), lang.as_str()) {
                proof {
                    lemma_sum_bounds(s, i as int);
                }
                let t = &self.tallies[i];
                let updated = Tally {
                    lang: t.lang.clone(),
                    count: t.count + count,
                    bytes: t.bytes + bytes,
                };
                proof {
                    lemma_to_totals_update(s, i as int, updated.count as nat, updated.bytes as nat);
                }
                self.tallies.set(i, updated);
                self.files = self.files + count;
                self.bytes = self.bytes + bytes;
                assert(tallies_view(self.tallies@) =~= s.update(
                    i as int,
                    (s[i as int].0, updated.count as nat, updated.bytes as nat),
                ));
                return;
            }
            i = i + 1;
        }
        assert(!to_totals(s).contains_key(lang@));
        let ghost entry = (lang@, count as nat, bytes as nat);
        self.tallies.push(Tally { lang, count, bytes });
        self.files = self.files + count;
        self.bytes = self.bytes + bytes;
        assert(tallies_view(self.tallies@) =~= s.push(entry));
        assert(s.push(entry).drop_last() =~= s);
    }

    /// Counts one file of `size` bytes under `lang`.
    pub fn record(&mut self, lang: String, size: u64)
        requires
            old(self).wf(),
            old(self).file_total() + 1 <= u32::MAX,
            old(self).byte_total() + size <= u64::MAX,
        ensures
            final(self).wf(),
            final(self)@ == add_to(old(self)@, lang@, 1, size as nat),
            final(self).file_total() == old(self).file_total() + 1,
            final(self).byte_total() == old(self).byte_total() + size,
    {
        self.absorb(lang, 1, size);
    }

    /// Adds the totals of `other` to these, language by language.
    pub fn merge(&mut self, other: &Aggregate)
        requires
            old(self).wf(),
            other.wf(),
            old(self).file_total() + other.file_total() <= u32::MAX,
            old(self).byte_total() + other.byte_total() <= u64::MAX,
        ensures
            final(self).wf(),
            final(self)@ == merge_totals(old(self)@, other@),
            final(self).file_total() == old(self).file_total() + other.file_total(),
            final(self).byte_total() == old(self).byte_total() + other.byte_total(),
    {
        let ghost start = self@;
        let ghost f0 = self.file_total();
        let ghost b0 = self.byte_total();
        let ghost o = tallies_view(other.tallies@);
        let mut j: usize = 0;
        assert(o.take(0) =~= Seq::<(Seq<char>, nat, nat)>::empty());
        assert(merge_totals(start, to_totals(o.take(0))) =~= start);
        while j < other.tallies.len()
            invariant
                self.wf(),
                other.wf(),
                o == tallies_view(other.tallies@),
                j <= o.len(),
                self@ == merge_totals(start, to_totals(o.take(j as int))),
                self.file_total() == f0 + sum_counts(o.take(j as int)),
                self.byte_total() == b0 + sum_bytes(o.take(j as int)),
                f0 + other.file_total() <= u32::MAX,
                b0 + other.byte_total() <= u64::MAX,
            decreases o.len() - j,
        {
            proof {
                lemma_sum_prefix(o, j as int);
                lemma_to_totals_lookup(o.take(j as int));
                assert(o.take(j + 1).drop_last() =~= o.take(j as int));
                assert(!to_totals(o.take(j as int)).contains_key(o[j as int].0)) by {
                    if to_totals(o.take(j as int)).contains_key(o[j as int].0) {
                        let i = choose|i: int| 0 <= i < j && o.take(j as int)[i].0 == o[j as int].0;
                        assert(o[i].0 == o[j as int].0);
                    }
                }
                assert(merge_totals(start, to_totals(o.take(j + 1))) =~= add_to(
                    merge_totals(start, to_totals(o.take(j as int))),
                    o[j as int].0,
                    o[j as int].1,
                    o[j as int].2,
                ));
            }
            let t = &other.tallies[j];
            self.absorb(t.lang.clone(), t.count, t.bytes);
            j = j + 1;
        }
        assert(o.take(o.len() as int) =~= o);
    }

    /// The report of these totals under metric `k`: one entry per language
    /// with its share of the metric's sum, larger metric first and equal
    /// metrics by name; empty where the metric sums to zero.
    pub fn build(&self, k: Metric) -> (r: Vec<LanguageStat>)
        requires
            self.wf(),
        ensures
            is_report(stats_view(r@), self@, k),
    {
        let ghost s = tallies_view(self.tallies@);
        let ghost m = self@;
        proof {
            lemma_to_totals_lookup(s);
        }
        let whole = measure_of(k, self.files, self.bytes);
        let mut r: Vec<LanguageStat> = Vec::new();
        if whole == 0 {
            assert forall|key: Seq<char>| #[trigger] m.contains_key(key) implies measure(
                k,
                m[key].0,
                m[key].1,
            ) == 0 by {
                let t = choose|t: int| 0 <= t < s.len() && s[t].0 == key;
                lemma_sum_bounds(s, t);
            }
            assert(stats_view(r@) =~= Seq::empty());
            return r;
        }
        assert(s.len() > 0);
        assert(!all_zero(m, k)) by {
            if all_zero(m, k) {
                lemma_sum_zero(s, k);
            }
        }
        let mut j: usize = 0;
        assert(s.take(0) =~= Seq::<(Seq<char>, nat, nat)>::empty());
        assert(stats_view(r@) =~= Seq::empty());
        while j < self.tallies.len()
            invariant
                self.wf(),
                s == tallies_view(self.tallies@),
                m == self@,
                names_unique(s),
                forall|k2: Seq<char>| #[trigger]
                    to_totals(s).contains_key(k2) <==> exists|i: int| 0 <= i < s.len() && s[i].0 == k2,
                forall|i: int| 0 <= i < s.len() ==> #[trigger] to_totals(s)[s[i].0] == (s[i].1, s[i].2),
                whole == measure(k, sum_counts(s), sum_bytes(s)),
                j <= s.len(),
                sorted(k, stats_view(r@)),
                stats_view(r@).len() == j,
                sum_parts(stats_view(r@)) == measure(k, sum_counts(s.take(j as int)), sum_bytes(s.take(j as int))),
                forall|i: int| 0 <= i < stats_view(r@).len() ==> entry_of(m, k, #[trigger] stats_view(r@)[i], whole as nat),
                forall|i: int| 0 <= i < stats_view(r@).len() ==> #[trigger] named_before(s, stats_view(r@)[i].0, j as int),
                forall|t: int| 0 <= t < j ==> #[trigger] has_name(stats_view(r@), s[t].0),
            decreases s.len() - j,
        {
            let t = &self.tallies[j];
            let part = measure_of(k, t.count, t.bytes);
            let stat = LanguageStat {
                lang: t.lang.clone(),
                count: t.count,
                bytes: t.bytes,
                ratio: Ratio { part, whole },
            };
            let ghost old_r = stats_view(r@);
            let ghost x = stat@;
            proof {
                lemma_sum_prefix(s, j as int);
                if has_name(old_r, x.0) {
                    let i = choose|i: int| 0 <= i < old_r.len() && old_r[i].0 == x.0;
                    assert(named_before(s, old_r[i].0, j as int));
                    let u = choose|u: int| 0 <= u < j && s[u].0 == old_r[i].0;
                    assert(s[u].0 == s[j as int].0);
                }
            }
            let p = insert_sorted(&mut r, stat, k);
            proof {
                let n = stats_view(r@);
                lemma_sum_parts_insert(old_r, p as int, x);
                assert(entry_of(m, k, x, whole as nat));
                assert forall|i: int| 0 <= i < n.len() implies entry_of(m, k, #[trigger] n[i], whole as nat) by {
                    if i < p {
                        assert(n[i] == old_r[i]);
                    } else if i > p {
                        assert(n[i] == old_r[i - 1]);
                    }
                }
                assert forall|i: int| 0 <= i < n.len() implies #[trigger] named_before(s, n[i].0, j + 1) by {
                    if i < p {
                        assert(n[i] == old_r[i]);
                        assert(named_before(s, old_r[i].0, j as int));
                    } else if i > p {
                        assert(n[i] == old_r[i - 1]);
                        assert(named_before(s, old_r[i - 1].0, j as int));
                    } else {
                        assert(s[j as int].0 == n[i].0);
                    }
                }
                assert forall|t: int| 0 <= t < j + 1 implies #[trigger] has_name(n, s[t].0) by {
                    if t < j {
                        assert(has_name(old_r, s[t].0));
                        let i = choose|i: int| 0 <= i < old_r.len() && old_r[i].0 == s[t].0;
                        if i < p {
                            assert(n[i] == old_r[i]);
                        } else {
                            assert(n[i + 1] == old_r[i]);
                        }
                    } else {
                        assert(n[p as int] == x);
                    }
                }
            }
            j = j + 1;
        }
        proof {
            let n = stats_view(r@);
            assert(s.take(s.len() as int) =~= s);
            assert forall|key: Seq<char>| #[trigger] m.contains_key(key) implies has_name(n, key) by {
                let t = choose|t: int| 0 <= t < s.len() && s[t].0 == key;
                assert(has_name(n, s[t].0));
            }
        }
        r
    }
}

/// Some entry among the first `j` of `s` is named `name`.
pub open spec fn named_before(s: Seq<(Seq<char>, nat, nat)>, name: Seq<char>, j: int) -> bool {
    exists|t: int| 0 <= t < j && s[t].0 == name
}

proof fn lemma_sum_zero(s: Seq<(Seq<char>, nat, nat)>, k: Metric)
    requires
        names_unique(s),
        all_zero(to_totals(s), k),
    ensures
        measure(k, sum_counts(s), sum_bytes(s)) == 0,
    decreases s.len(),
{
    if s.len() > 0 {
        let p = s.drop_last();
        lemma_to_totals_lookup(s);
        lemma_to_totals_lookup(p);
        assert(to_totals(s)[s[s.len() - 1].0] == (s.last().1, s.last().2));
        assert(to_totals(s).contains_key(s.last().0));
        assert(measure(k, s.last().1, s.last().2) == 0);
        assert forall|key: Seq<char>| #[trigger] to_totals(p).contains_key(key) implies measure(
            k,
            to_totals(p)[key].0,
            to_totals(p)[key].1,
        ) == 0 by {
            let t = choose|t: int| 0 <= t < p.len() && p[t].0 == key;
            assert(s[t] == p[t]);
            assert(to_totals(s).contains_key(key));
        }
        lemma_sum_zero(p, k);
        assert(sum_counts(s) == sum_counts(p) + s.last().1);
        assert(sum_bytes(s) == sum_bytes(p) + s.last().2);
    }
}

} // verus!
