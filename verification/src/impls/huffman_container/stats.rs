//! Counts of the symbols seen, ordered by symbol.
use super::tree::sum_counts;
use crate::order::{lemma_lex_asymmetric, lemma_lex_irreflexive, lemma_lex_total, lemma_lex_transitive, lex_lt, SortKey};
use vstd::prelude::*;

verus! {

/// Counts of symbols, ordered by the symbols' keys.
pub struct Counts<T> {
    pub(crate) entries: Vec<(T, i64)>,
}

/// The keys of count entries.
pub open spec fn entry_keys<T: SortKey>(entries: Seq<(T, i64)>) -> Seq<Seq<int>> {
    entries.map_values(|e: (T, i64)| e.0.key())
}

/// The counts of count entries.
pub open spec fn entry_counts<T>(entries: Seq<(T, i64)>) -> Seq<i64> {
    entries.map_values(|e: (T, i64)| e.1)
}

/// The count of the entries with key `k`.
pub open spec fn count_of<T: SortKey>(entries: Seq<(T, i64)>, k: Seq<int>) -> int
    decreases entries.len(),
{
    if entries.len() == 0 {
        0
    } else {
        count_of(entries.drop_last(), k) + if entries.last().0.key() == k {
            entries.last().1 as int
        } else {
            0
        }
    }
}

proof fn lemma_count_of_update<T: SortKey>(s: Seq<(T, i64)>, i: int, v: (T, i64), k: Seq<int>)
    requires
        0 <= i < s.len(),
        v.0.key() == s[i].0.key(),
    ensures
        count_of(s.update(i, v), k) == count_of(s, k) + if s[i].0.key() == k {
            v.1 - s[i].1
        } else {
            0
        },
    decreases s.len(),
{
    if i == s.len() - 1 {
        assert(s.update(i, v).drop_last() == s.drop_last());
    } else {
        lemma_count_of_update(s.drop_last(), i, v, k);
        assert(s.update(i, v).drop_last() == s.drop_last().update(i, v));
    }
}

proof fn lemma_count_of_insert<T: SortKey>(s: Seq<(T, i64)>, i: int, v: (T, i64), k: Seq<int>)
    requires
        0 <= i <= s.len(),
    ensures
        count_of(s.insert(i, v), k) == count_of(s, k) + if v.0.key() == k {
            v.1 as int
        } else {
            0
        },
    decreases s.len(),
{
    if i == s.len() {
        assert(s.insert(i, v).drop_last() == s);
    } else {
        lemma_count_of_insert(s.drop_last(), i, v, k);
        assert(s.insert(i, v).drop_last() == s.drop_last().insert(i, v));
    }
}

/// With distinct keys, the count of an entry's key is its count.
pub proof fn lemma_count_of_distinct<T: SortKey>(s: Seq<(T, i64)>, i: int)
    requires
        0 <= i < s.len(),
        forall|a: int, b: int| 0 <= a < b < s.len() ==> (#[trigger] s[a]).0.key() != (#[trigger] s[b]).0.key(),
    ensures
        count_of(s, s[i].0.key()) == s[i].1,
    decreases s.len(),
{
    lemma_count_of_absent(s.drop_last(), s[i].0.key());
    if i < s.len() - 1 {
        lemma_count_of_distinct(s.drop_last(), i);
        assert(s.drop_last()[i] == s[i]);
    }
    if i == s.len() - 1 {
        assert forall|a: int| 0 <= a < s.drop_last().len() implies (#[trigger] s.drop_last()[a]).0.key() != s[i].0.key() by {
            assert(s.drop_last()[a] == s[a]);
        }
        lemma_count_of_absent(s.drop_last(), s[i].0.key());
    }
}

/// A key that no entry has counts zero.
pub proof fn lemma_count_of_absent<T: SortKey>(s: Seq<(T, i64)>, k: Seq<int>)
    ensures
        (forall|a: int| 0 <= a < s.len() ==> (#[trigger] s[a]).0.key() != k) ==> count_of(s, k) == 0,
    decreases s.len(),
{
    if s.len() > 0 {
        lemma_count_of_absent(s.drop_last(), k);
        if forall|a: int| 0 <= a < s.len() ==> (#[trigger] s[a]).0.key() != k {
            assert forall|a: int| 0 <= a < s.drop_last().len() implies (#[trigger] s.drop_last()[a]).0.key() != k by {
                assert(s.drop_last()[a] == s[a]);
            }
        }
    }
}

proof fn lemma_sum_counts_update(s: Seq<i64>, i: int, v: i64)
    requires
        0 <= i < s.len(),
    ensures
        sum_counts(s.update(i, v)) == sum_counts(s) - s[i] + v,
    decreases s.len(),
{
    if i == s.len() - 1 {
        assert(s.update(i, v).drop_last() == s.drop_last());
    } else {
        lemma_sum_counts_update(s.drop_last(), i, v);
        assert(s.update(i, v).drop_last() == s.drop_last().update(i, v));
    }
}

proof fn lemma_sum_counts_insert(s: Seq<i64>, i: int, v: i64)
    requires
        0 <= i <= s.len(),
    ensures
        sum_counts(s.insert(i, v)) == sum_counts(s) + v,
    decreases s.len(),
{
    if i == s.len() {
        assert(s.insert(i, v).drop_last() == s);
    } else {
        lemma_sum_counts_insert(s.drop_last(), i, v);
        assert(s.insert(i, v).drop_last() == s.drop_last().insert(i, v));
    }
}

/// A prefix of counts that are not negative sums to no more than all of them.
pub proof fn lemma_sum_counts_prefix(s: Seq<i64>, m: int)
    requires
        forall|k: int| 0 <= k < s.len() ==> s[k] >= 0,
        0 <= m <= s.len(),
    ensures
        0 <= sum_counts(s.take(m)) <= sum_counts(s),
    decreases s.len(),
{
    if m < s.len() {
        lemma_sum_counts_prefix(s.drop_last(), m);
        assert(s.drop_last().take(m) == s.take(m));
        assert forall|k: int| 0 <= k < s.drop_last().len() implies s.drop_last()[k] >= 0 by {}
    } else {
        assert(s.take(m) == s);
        if s.len() > 0 {
            lemma_sum_counts_nonneg(s, 0);
        }
    }
}

pub proof fn lemma_sum_counts_nonneg(s: Seq<i64>, i: int)
    requires
        forall|k: int| 0 <= k < s.len() ==> s[k] >= 0,
        0 <= i < s.len(),
    ensures
        0 <= s[i] <= sum_counts(s),
        sum_counts(s) >= 0,
    decreases s.len(),
{
    let d = s.drop_last();
    assert forall|k: int| 0 <= k < d.len() implies d[k] >= 0 by {
        assert(d[k] == s[k]);
    }
    assert(sum_counts(s) == sum_counts(d) + s.last());
    if i < s.len() - 1 {
        lemma_sum_counts_nonneg(d, i);
        assert(d[i] == s[i]);
    } else if s.len() > 1 {
        lemma_sum_counts_nonneg(d, 0);
    }
}

impl<T: SortKey> Counts<T> {
    /// The keys counted, in order.
    pub closed spec fn keys(&self) -> Seq<Seq<int>> {
        entry_keys(self.entries@)
    }

    /// The sum of all counts.
    pub closed spec fn total(&self) -> int {
        sum_counts(entry_counts(self.entries@))
    }

    /// The entries.
    pub closed spec fn spec_entries(&self) -> Seq<(T, i64)> {
        self.entries@
    }

    /// Keys strictly increase, and counts are not negative.
    pub closed spec fn wf(&self) -> bool {
        &&& forall|i: int, j: int|
            0 <= i < j < self.entries@.len() ==> lex_lt((#[trigger] self.entries@[i]).0.key(), (#[trigger] self.entries@[j]).0.key())
        &&& forall|i: int| 0 <= i < self.entries@.len() ==> (#[trigger] self.entries@[i]).1 >= 0
        &&& sum_counts(entry_counts(self.entries@)) <= i64::MAX
    }

    /// What well-formed counts offer: distinct keys, counts that are not negative, and a total
    /// that bounds each count.
    pub proof fn lemma_wf(&self)
        requires
            self.wf(),
        ensures
            self.keys().no_duplicates(),
            forall|a: int, b: int|
                0 <= a < b < self.spec_entries().len() ==> lex_lt((#[trigger] self.spec_entries()[a]).0.key(), (#[trigger] self.spec_entries()[b]).0.key()),
            self.keys().len() == self.spec_entries().len(),
            forall|m: int| 0 <= m < self.keys().len() ==> #[trigger] self.keys()[m] == self.spec_entries()[m].0.key(),
            forall|i: int| 0 <= i < self.spec_entries().len() ==> 0 <= (#[trigger] self.spec_entries()[i]).1,
            self.total() >= 0,
            self.total() <= i64::MAX,
            self.total() == sum_counts(entry_counts(self.spec_entries())),
    {
        let e = self.entries@;
        assert(e.len() == 0 ==> entry_counts(e) == Seq::<i64>::empty());
        assert forall|i: int, j: int| 0 <= i < self.keys().len() && 0 <= j < self.keys().len() && i != j implies self.keys()[i] != self.keys()[j] by {
            if i < j {
                lemma_lex_irreflexive(e[i].0.key());
                assert(lex_lt(e[i].0.key(), e[j].0.key()));
            } else {
                lemma_lex_irreflexive(e[j].0.key());
                assert(lex_lt(e[j].0.key(), e[i].0.key()));
            }
        }
        if e.len() > 0 {
            lemma_sum_counts_nonneg(entry_counts(e), 0);
        }
    }

    /// No counts.
    pub fn new() -> (r: Self)
        ensures
            r.wf(),
            r.keys() == Seq::<Seq<int>>::empty(),
            r.total() == 0,
    {
        let r = Counts { entries: Vec::new() };
        proof {
            assert(entry_keys(r.entries@) == Seq::<Seq<int>>::empty());
            assert(entry_counts(r.entries@) == Seq::<i64>::empty());
        }
        r
    }

    /// The number of symbols counted.
    pub fn len(&self) -> (r: usize)
        ensures
            r == self.spec_entries().len(),
    {
        self.entries.len()
    }

    /// The entry at `m`.
    pub fn entry(&self, m: usize) -> (r: &(T, i64))
        requires
            m < self.spec_entries().len(),
        ensures
            *r == self.spec_entries()[m as int],
    {
        &self.entries[m]
    }

    /// The entries, ordered by key.
    pub fn as_vec(&self) -> (r: &Vec<(T, i64)>)
        ensures
            r@ == self.spec_entries(),
    {
        &self.entries
    }

    /// Forgets all counts.
    pub fn clear(&mut self)
        ensures
            final(self).wf(),
            final(self).keys() == Seq::<Seq<int>>::empty(),
            final(self).total() == 0,
    {
        self.entries.clear();
        proof {
            assert(entry_keys(self.entries@) == Seq::<Seq<int>>::empty());
            assert(entry_counts(self.entries@) == Seq::<i64>::empty());
        }
    }

    /// The sum of all counts.
    pub fn total_count(&self) -> (r: i64)
        requires
            self.wf(),
        ensures
            r == self.total(),
    {
        proof {
            self.lemma_wf();
        }
        let mut sum: i64 = 0;
        let mut i: usize = 0;
        while i < self.entries.len()
            invariant
                self.wf(),
                0 <= i <= self.entries@.len(),
                sum == sum_counts(entry_counts(self.entries@.take(i as int))),
            decreases self.entries@.len() - i,
        {
            proof {
                let c = entry_counts(self.entries@);
                assert(entry_counts(self.entries@.take(i + 1)) == c.take(i + 1));
                assert(entry_counts(self.entries@.take(i as int)) == c.take(i as int));
                assert(c.take(i + 1).drop_last() == c.take(i as int));
                lemma_sum_counts_prefix(c, i + 1);
                lemma_sum_counts_nonneg(c, i as int);
            }
            sum = sum + self.entries[i].1;
            i = i + 1;
        }
        proof {
            assert(self.entries@.take(i as int) == self.entries@);
        }
        sum
    }

    /// Adds `count` to the count of `symbol`, which starts at zero.
    pub fn add(&mut self, symbol: &T, count: i64)
        requires
            old(self).wf(),
            count >= 0,
            old(self).total() + count <= i64::MAX,
        ensures
            final(self).wf(),
            final(self).keys().to_set() == old(self).keys().to_set().insert(symbol.key()),
            final(self).total() == old(self).total() + count,
            forall|k: Seq<int>| #[trigger] count_of(final(self).spec_entries(), k) == count_of(old(self).spec_entries(), k) + if k == symbol.key() {
                count as int
            } else {
                0
            },
    {
        proof {
            self.lemma_wf();
        }
        let ghost e0 = self.entries@;
        let mut i: usize = 0;
        while i < self.entries.len() && self.entries[i].0.key_lt(symbol)
            invariant
                0 <= i <= self.entries@.len(),
                self.entries@ == e0,
                forall|m: int| 0 <= m < i ==> lex_lt((#[trigger] e0[m]).0.key(), symbol.key()),
            decreases self.entries@.len() - i,
        {
            i = i + 1;
        }
        let ghost keys0 = entry_keys(e0);
        if i < self.entries.len() && self.entries[i].0.key_eq(symbol) {
            let c = self.entries[i].1;
            proof {
                lemma_sum_counts_nonneg(entry_counts(e0), i as int);
            }
            let x = self.entries[i].0.key_clone();
            self.entries.set(i, (x, c + count));
            proof {
                assert forall|k: Seq<int>| #[trigger] count_of(self.entries@, k) == count_of(e0, k) + if k == symbol.key() {
                    count as int
                } else {
                    0
                } by {
                    lemma_count_of_update(e0, i as int, (x, (c + count) as i64), k);
                }
                assert(entry_counts(self.entries@) == entry_counts(e0).update(i as int, (c + count) as i64));
                lemma_sum_counts_update(entry_counts(e0), i as int, (c + count) as i64);
                assert(entry_keys(self.entries@) == keys0);
                assert(keys0.to_set().contains(symbol.key())) by {
                    assert(keys0[i as int] == symbol.key());
                }
                assert(keys0.to_set().insert(symbol.key()) == keys0.to_set());
            }
        } else {
            let x = symbol.key_clone();
            proof {
                if i < e0.len() {
                    lemma_lex_total(e0[i as int].0.key(), symbol.key());
                }
            }
            self.entries.insert(i, (x, count));
            proof {
                let e1 = self.entries@;
                assert forall|k: Seq<int>| #[trigger] count_of(e1, k) == count_of(e0, k) + if k == symbol.key() {
                    count as int
                } else {
                    0
                } by {
                    lemma_count_of_insert(e0, i as int, (x, count), k);
                }
                assert(entry_counts(e1) == entry_counts(e0).insert(i as int, count));
                lemma_sum_counts_insert(entry_counts(e0), i as int, count);
                assert(entry_keys(e1) == keys0.insert(i as int, symbol.key()));
                assert forall|a: int, b: int| 0 <= a < b < e1.len() implies lex_lt((#[trigger] e1[a]).0.key(), (#[trigger] e1[b]).0.key()) by {
                    if b < i {
                        assert(e1[a] == e0[a] && e1[b] == e0[b]);
                    } else if b == i {
                        assert(e1[a] == e0[a]);
                    } else if a < i {
                        assert(e1[a] == e0[a] && e1[b] == e0[b - 1]);
                        if b - 1 > i {
                            assert(lex_lt(e0[i as int].0.key(), e0[b - 1].0.key()));
                            lemma_lex_transitive(symbol.key(), e0[i as int].0.key(), e0[b - 1].0.key());
                        }
                        lemma_lex_transitive(e0[a].0.key(), symbol.key(), e0[b - 1].0.key());
                    } else if a == i {
                        assert(e1[b] == e0[b - 1]);
                        if b - 1 > i {
                            lemma_lex_transitive(symbol.key(), e0[i as int].0.key(), e0[b - 1].0.key());
                        }
                    } else {
                        assert(e1[a] == e0[a - 1] && e1[b] == e0[b - 1]);
                    }
                }
                assert forall|k: int| 0 <= k < e1.len() implies (#[trigger] e1[k]).1 >= 0 by {
                    if k < i {
                        assert(e1[k] == e0[k]);
                    } else if k > i {
                        assert(e1[k] == e0[k - 1]);
                    }
                }
                assert(keys0.insert(i as int, symbol.key()).to_set() == keys0.to_set().insert(symbol.key())) by {
                    assert forall|k: Seq<int>| keys0.insert(i as int, symbol.key()).to_set().contains(k) <==> keys0.to_set().insert(symbol.key()).contains(k) by {
                        if keys0.insert(i as int, symbol.key()).to_set().contains(k) {
                            let m = choose|m: int| 0 <= m < keys0.len() + 1 && keys0.insert(i as int, symbol.key())[m] == k;
                            if m < i {
                                assert(keys0[m] == k);
                            } else if m > i {
                                assert(keys0[m - 1] == k);
                            }
                        }
                        if keys0.to_set().contains(k) && k != symbol.key() {
                            let m = choose|m: int| 0 <= m < keys0.len() && keys0[m] == k;
                            if m < i {
                                assert(keys0.insert(i as int, symbol.key())[m] == k);
                            } else {
                                assert(keys0.insert(i as int, symbol.key())[m + 1] == k);
                            }
                        }
                        if k == symbol.key() {
                            assert(keys0.insert(i as int, symbol.key())[i as int] == k);
                        }
                    }
                }
            }
        }
    }
}

} // verus!
