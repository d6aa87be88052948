//! A region that encodes its contents.
use vstd::prelude::*;

use crate::impls::slice_copy::OwnedRegion;
use crate::impls::storage::slice_swap;
use crate::order::{
    lemma_lex_asymmetric, lemma_lex_irreflexive, lemma_lex_total, lemma_lex_transitive, lex_lt,
    SortKey,
};
use crate::{Push, Region};

verus! {

/// The sum of the counts of the entries of `s` whose key is `k`.
pub open spec fn key_sum<T: SortKey>(s: Seq<(T, usize)>, k: Seq<int>) -> int
    decreases s.len(),
{
    if s.len() == 0 {
        0
    } else {
        key_sum(s.drop_last(), k) + if s.last().0.key() == k {
            s.last().1 as int
        } else {
            0
        }
    }
}

/// The entries of `s` are in order of their keys, equal keys next to each other.
pub open spec fn sorted_by_key<T: SortKey>(s: Seq<(T, usize)>) -> bool {
    forall|a: int, b: int| 0 <= a < b < s.len() ==> !lex_lt(#[trigger] s[b].0.key(), #[trigger] s[a].0.key())
}

/// `out` is the consolidation of `input`: one entry per key whose counts in `input` do
/// not sum to zero, holding that sum, in strictly increasing order of keys.
pub open spec fn consolidated<T: SortKey>(out: Seq<(T, usize)>, input: Seq<(T, usize)>) -> bool {
    &&& forall|a: int, b: int|
        0 <= a < b < out.len() ==> lex_lt(#[trigger] out[a].0.key(), #[trigger] out[b].0.key())
    &&& forall|a: int|
        0 <= a < out.len() ==> (#[trigger] out[a]).1 != 0 && out[a].1 == key_sum(
            input,
            out[a].0.key(),
        )
    &&& forall|p: int|
        0 <= p < input.len() && key_sum(input, (#[trigger] input[p]).0.key()) != 0 ==> exists|a: int|
            0 <= a < out.len() && (#[trigger] out[a].0.key()) == input[p].0.key()
}

/// The counts of a key in two concatenated sequences add up.
pub proof fn lemma_key_sum_concat<T: SortKey>(a: Seq<(T, usize)>, b: Seq<(T, usize)>, k: Seq<int>)
    ensures
        key_sum(a + b, k) == key_sum(a, k) + key_sum(b, k),
    decreases b.len(),
{
    if b.len() == 0 {
        assert(a + b =~= a);
    } else {
        assert((a + b).drop_last() =~= a + b.drop_last());
        lemma_key_sum_concat(a, b.drop_last(), k);
    }
}

/// The count of a key in a single entry.
pub proof fn lemma_key_sum_single<T: SortKey>(x: (T, usize), k: Seq<int>)
    ensures
        key_sum(seq![x], k) == if x.0.key() == k {
            x.1 as int
        } else {
            0
        },
{
    assert(seq![x].drop_last() =~= Seq::<(T, usize)>::empty());
    assert(key_sum(Seq::<(T, usize)>::empty(), k) == 0);
    assert(seq![x].last() == x);
}

/// Counts are never negative.
pub proof fn lemma_key_sum_nonneg<T: SortKey>(s: Seq<(T, usize)>, k: Seq<int>)
    ensures
        key_sum(s, k) >= 0,
    decreases s.len(),
{
    if s.len() > 0 {
        lemma_key_sum_nonneg(s.drop_last(), k);
    }
}

/// A sequence without the key `k` counts nothing for it.
pub proof fn lemma_key_sum_absent<T: SortKey>(s: Seq<(T, usize)>, k: Seq<int>)
    requires
        forall|p: int| 0 <= p < s.len() ==> (#[trigger] s[p]).0.key() != k,
    ensures
        key_sum(s, k) == 0,
    decreases s.len(),
{
    if s.len() > 0 {
        lemma_key_sum_absent(s.drop_last(), k);
    }
}

/// A key that counts something occurs in the sequence.
pub proof fn lemma_key_sum_present<T: SortKey>(s: Seq<(T, usize)>, k: Seq<int>)
    requires
        key_sum(s, k) != 0,
    ensures
        exists|p: int| 0 <= p < s.len() && (#[trigger] s[p]).0.key() == k,
{
    if forall|p: int| 0 <= p < s.len() ==> (#[trigger] s[p]).0.key() != k {
        lemma_key_sum_absent(s, k);
    }
}

/// Exchanging two entries keeps the count of every key.
pub proof fn lemma_key_sum_swap<T: SortKey>(s: Seq<(T, usize)>, i: int, j: int, k: Seq<int>)
    requires
        0 <= i < j < s.len(),
    ensures
        key_sum(s.update(i, s[j]).update(j, s[i]), k) == key_sum(s, k),
{
    let t = s.update(i, s[j]).update(j, s[i]);
    let p = s.subrange(0, i);
    let m = s.subrange(i + 1, j);
    let q = s.subrange(j + 1, s.len() as int);
    assert(s =~= p + seq![s[i]] + m + seq![s[j]] + q);
    assert(t =~= p + seq![s[j]] + m + seq![s[i]] + q);
    lemma_key_sum_concat(p + seq![s[i]] + m + seq![s[j]], q, k);
    lemma_key_sum_concat(p + seq![s[i]] + m, seq![s[j]], k);
    lemma_key_sum_concat(p + seq![s[i]], m, k);
    lemma_key_sum_concat(p, seq![s[i]], k);
    lemma_key_sum_concat(p + seq![s[j]] + m + seq![s[i]], q, k);
    lemma_key_sum_concat(p + seq![s[j]] + m, seq![s[i]], k);
    lemma_key_sum_concat(p + seq![s[j]], m, k);
    lemma_key_sum_concat(p, seq![s[j]], k);
}

/// Keys that do not sort before each other are ordered transitively.
proof fn lemma_key_le_transitive(a: Seq<int>, b: Seq<int>, c: Seq<int>)
    requires
        !lex_lt(b, a),
        !lex_lt(c, b),
    ensures
        !lex_lt(c, a),
{
    lemma_lex_total(a, b);
    lemma_lex_total(b, c);
    if lex_lt(c, a) {
        if a != b {
            lemma_lex_transitive(c, a, b);
        }
    }
}

/// Sorts `s` by key, keeping the order of entries with equal keys.
fn sort_by_key<T: SortKey>(s: &mut [(T, usize)])
    ensures
        final(s)@.len() == old(s)@.len(),
        sorted_by_key(final(s)@),
        forall|k: Seq<int>| #[trigger] key_sum(final(s)@, k) == key_sum(old(s)@, k),
{
    let n = s.len();
    if n < 2 {
        return ;
    }
    let mut i: usize = 1;
    while i < n
        invariant
            1 <= i <= n,
            n == s@.len(),
            n == old(s)@.len(),
            forall|a: int, b: int| 0 <= a < b < i ==> !lex_lt(#[trigger] s@[b].0.key(), #[trigger] s@[a].0.key()),
            forall|k: Seq<int>| #[trigger] key_sum(s@, k) == key_sum(old(s)@, k),
        decreases n - i,
    {
        let mut j: usize = i;
        while j > 0 && s[j].0.key_lt(&s[j - 1].0)
            invariant
                0 <= j <= i < n,
                n == s@.len(),
                forall|a: int, b: int|
                    0 <= a < b <= i && a != j && b != j ==> !lex_lt(#[trigger] s@[b].0.key(), #[trigger] s@[a].0.key()),
                forall|b: int| j < b <= i ==> lex_lt(s@[j as int].0.key(), #[trigger] s@[b].0.key()),
                forall|k: Seq<int>| #[trigger] key_sum(s@, k) == key_sum(old(s)@, k),
            decreases j,
        {
            let ghost before = s@;
            slice_swap(s, j - 1, j);
            proof {
                assert forall|k: Seq<int>| #[trigger] key_sum(s@, k) == key_sum(old(s)@, k) by {
                    lemma_key_sum_swap(before, j - 1, j as int, k);
                }
                let x = before[j as int].0.key();
                let y = before[j - 1].0.key();
                assert forall|b: int| j - 1 < b <= i implies lex_lt(s@[j - 1].0.key(), #[trigger] s@[b].0.key()) by {
                    if b > j {
                        assert(lex_lt(x, before[b].0.key()));
                    } else {
                        assert(lex_lt(x, y));
                    }
                }
                assert forall|a: int, b: int|
                    0 <= a < b <= i && a != j - 1 && b != j - 1 implies !lex_lt(#[trigger] s@[b].0.key(), #[trigger] s@[a].0.key()) by {
                    if b == j {
                        assert(s@[b] == before[j - 1]);
                        if a < j - 1 {
                            assert(!lex_lt(before[j - 1].0.key(), before[a].0.key()));
                        }
                    } else if a == j {
                        assert(s@[a] == before[j - 1]);
                        assert(s@[b] == before[b]);
                        assert(!lex_lt(before[b].0.key(), before[j - 1].0.key()));
                    } else {
                        assert(s@[a] == before[a] && s@[b] == before[b]);
                    }
                }
            }
            j = j - 1;
        }
        proof {
            assert forall|a: int, b: int| 0 <= a < b <= i implies !lex_lt(#[trigger] s@[b].0.key(), #[trigger] s@[a].0.key()) by {
                if b == j {
                    if a < j - 1 {
                        lemma_key_le_transitive(s@[a].0.key(), s@[j - 1].0.key(), s@[j as int].0.key());
                    }
                } else if a == j {
                    lemma_lex_asymmetric(s@[a].0.key(), s@[b].0.key());
                } else if a < j && j < b {
                    lemma_lex_asymmetric(s@[j as int].0.key(), s@[b].0.key());
                    if j > 0 {
                        if a < j - 1 {
                            lemma_key_le_transitive(s@[a].0.key(), s@[j - 1].0.key(), s@[j as int].0.key());
                        }
                    }
                    lemma_key_le_transitive(s@[a].0.key(), s@[j as int].0.key(), s@[b].0.key());
                }
            }
        }
        i = i + 1;
    }
}

/// Counting one more entry of a prefix.
proof fn lemma_key_sum_extend<T: SortKey>(s: Seq<(T, usize)>, i: int, k: Seq<int>)
    requires
        0 <= i < s.len(),
    ensures
        key_sum(s.subrange(0, i + 1), k) == key_sum(s.subrange(0, i), k) + if s[i].0.key() == k {
            s[i].1 as int
        } else {
            0
        },
{
    assert(s.subrange(0, i + 1).drop_last() =~= s.subrange(0, i));
}

/// A prefix counts no more than the whole sequence, and the rest counts the difference.
proof fn lemma_key_sum_split<T: SortKey>(s: Seq<(T, usize)>, i: int, k: Seq<int>)
    requires
        0 <= i <= s.len(),
    ensures
        key_sum(s, k) == key_sum(s.subrange(0, i), k) + key_sum(s.subrange(i, s.len() as int), k),
        key_sum(s.subrange(0, i), k) <= key_sum(s, k),
{
    assert(s =~= s.subrange(0, i) + s.subrange(i, s.len() as int));
    lemma_key_sum_concat(s.subrange(0, i), s.subrange(i, s.len() as int), k);
    lemma_key_sum_nonneg(s.subrange(i, s.len() as int), k);
}

/// In a sorted sequence, a key that sorts before the key at `i` is absent from `i` on.
proof fn lemma_sorted_suffix_absent<T: SortKey>(t: Seq<(T, usize)>, i: int, k: Seq<int>)
    requires
        sorted_by_key(t),
        0 <= i < t.len(),
        lex_lt(k, t[i].0.key()),
    ensures
        key_sum(t.subrange(i, t.len() as int), k) == 0,
{
    let u = t.subrange(i, t.len() as int);
    assert forall|p: int| 0 <= p < u.len() implies (#[trigger] u[p]).0.key() != k by {
        assert(u[p] == t[i + p]);
        if p > 0 {
            assert(!lex_lt(t[i + p].0.key(), t[i].0.key()));
        } else {
            lemma_lex_irreflexive(k);
        }
    }
    lemma_key_sum_absent(u, k);
}

/// In a sorted sequence, a key that sorts after the key at `i` is absent up to `i`.
proof fn lemma_sorted_prefix_absent<T: SortKey>(t: Seq<(T, usize)>, i: int, k: Seq<int>)
    requires
        sorted_by_key(t),
        0 <= i < t.len(),
        lex_lt(t[i].0.key(), k),
    ensures
        key_sum(t.subrange(0, i + 1), k) == 0,
{
    let u = t.subrange(0, i + 1);
    assert forall|p: int| 0 <= p < u.len() implies (#[trigger] u[p]).0.key() != k by {
        assert(u[p] == t[p]);
        if p < i {
            assert(!lex_lt(t[i].0.key(), t[p].0.key()));
        } else {
            lemma_lex_irreflexive(k);
        }
    }
    lemma_key_sum_absent(u, k);
}

/// Sorts and consolidates a slice, returning the valid prefix length.
///
/// The prefix holds one entry per key whose counts do not sum to zero, with that sum, in
/// increasing order of keys.
fn consolidate_slice<T: SortKey>(slice: &mut [(T, usize)]) -> (r: usize)
    requires
        forall|p: int|
            0 <= p < old(slice)@.len() ==> key_sum(old(slice)@, (#[trigger] old(slice)@[p]).0.key())
                <= usize::MAX,
    ensures
        r <= final(slice)@.len() == old(slice)@.len(),
        consolidated(final(slice)@.subrange(0, r as int), old(slice)@),
{
    let ghost orig = slice@;
    if slice.len() > 1 {
        sort_by_key(slice);
        let ghost t = slice@;
        let n = slice.len();
        proof {
            lemma_key_sum_extend(t, 0, t[0].0.key());
            assert(t.subrange(0, 0) =~= Seq::<(T, usize)>::empty());
        }
        let mut offset: usize = 0;
        let mut accum: usize = slice[offset].1;
        let mut index: usize = 1;
        while index < n
            invariant
                1 <= index <= n,
                n == slice@.len() == t.len() == orig.len(),
                sorted_by_key(t),
                forall|k: Seq<int>| #[trigger] key_sum(t, k) == key_sum(orig, k),
                forall|p: int| 0 <= p < orig.len() ==> key_sum(orig, (#[trigger] orig[p]).0.key()) <= usize::MAX,
                offset < index,
                forall|p: int| index - 1 <= p < n ==> #[trigger] slice@[p] == t[p],
                accum == key_sum(t.subrange(0, index as int), t[index - 1].0.key()),
                forall|a: int, b: int|
                    0 <= a < b < offset ==> lex_lt(#[trigger] slice@[a].0.key(), #[trigger] slice@[b].0.key()),
                forall|a: int|
                    0 <= a < offset ==> lex_lt((#[trigger] slice@[a]).0.key(), t[index - 1].0.key()),
                forall|a: int|
                    0 <= a < offset ==> (#[trigger] slice@[a]).1 != 0 && slice@[a].1 == key_sum(
                        t,
                        slice@[a].0.key(),
                    ),
                forall|p: int|
                    0 <= p < index && (#[trigger] t[p]).0.key() != t[index - 1].0.key() && key_sum(t, t[p].0.key()) != 0
                        ==> exists|a: int| 0 <= a < offset && (#[trigger] slice@[a].0.key()) == t[p].0.key(),
            decreases n - index,
        {
            let ghost kcur = t[index - 1].0.key();
            let ghost knext = t[index as int].0.key();
            proof {
                lemma_key_sum_extend(t, index as int, kcur);
                lemma_key_sum_extend(t, index as int, knext);
                lemma_key_sum_split(t, index + 1, kcur);
                assert(t[index as int] == slice@[index as int]);
            }
            if slice[index].0.key_eq(&slice[index - 1].0) {
                proof {
                    if key_sum(t, kcur) != 0 {
                        lemma_key_sum_present(orig, kcur);
                        let p = choose|p: int| 0 <= p < orig.len() && (#[trigger] orig[p]).0.key() == kcur;
                        assert(key_sum(orig, orig[p].0.key()) <= usize::MAX);
                    }
                    lemma_key_sum_nonneg(t.subrange(index + 1, n as int), kcur);
                }
                accum = accum + slice[index].1;
            } else {
                proof {
                    lemma_lex_total(kcur, knext);
                    assert(lex_lt(kcur, knext));
                    lemma_sorted_suffix_absent(t, index as int, kcur);
                    lemma_key_sum_split(t, index as int, kcur);
                    lemma_sorted_prefix_absent(t, index - 1, knext);
                }
                let ghost before = slice@;
                if accum != 0 {
                    slice_swap(slice, offset, index - 1);
                    slice[offset].1 = accum;
                    proof {
                        assert(slice@[offset as int].0.key() == kcur);
                        assert forall|a: int, b: int|
                            0 <= a < b < offset + 1 implies lex_lt(#[trigger] slice@[a].0.key(), #[trigger] slice@[b].0.key()) by {
                            assert(slice@[a] == before[a]);
                        }
                        assert forall|p: int|
                            0 <= p < index + 1 && (#[trigger] t[p]).0.key() != knext && key_sum(t, t[p].0.key()) != 0
                            implies exists|a: int| 0 <= a < offset + 1 && (#[trigger] slice@[a].0.key()) == t[p].0.key() by {
                            if t[p].0.key() == kcur {
                                assert(slice@[offset as int].0.key() == t[p].0.key());
                            } else if p == index {
                            } else {
                                let a = choose|a: int| 0 <= a < offset && (#[trigger] before[a].0.key()) == t[p].0.key();
                                assert(slice@[a] == before[a]);
                            }
                        }
                    }
                    offset = offset + 1;
                } else {
                    proof {
                        assert forall|p: int|
                            0 <= p < index + 1 && (#[trigger] t[p]).0.key() != knext && key_sum(t, t[p].0.key()) != 0
                            implies exists|a: int| 0 <= a < offset && (#[trigger] slice@[a].0.key()) == t[p].0.key() by {
                        }
                    }
                }
                proof {
                    assert forall|a: int| 0 <= a < offset implies lex_lt((#[trigger] slice@[a]).0.key(), knext) by {
                        if a < offset - 1 || accum == 0 {
                            lemma_lex_transitive(slice@[a].0.key(), kcur, knext);
                        }
                    }
                }
                accum = slice[index].1;
            }
            index = index + 1;
        }
        let ghost kcur = t[n - 1].0.key();
        proof {
            assert(t.subrange(0, n as int) =~= t);
        }
        let ghost pre = slice@;
        let ghost off0 = offset;
        if accum != 0 {
            let ghost before = slice@;
            slice_swap(slice, offset, n - 1);
            slice[offset].1 = accum;
            proof {
                assert(slice@[offset as int].0.key() == kcur);
                assert forall|a: int, b: int|
                    0 <= a < b < offset + 1 implies lex_lt(#[trigger] slice@[a].0.key(), #[trigger] slice@[b].0.key()) by {
                    assert(slice@[a] == before[a]);
                }
            }
            offset = offset + 1;
        }
        proof {
            assert(accum != 0 ==> offset == off0 + 1 && slice@[off0 as int].0.key() == kcur);
            assert(forall|a: int| 0 <= a < off0 ==> slice@[a] == pre[a]);
            let out = slice@.subrange(0, offset as int);
            assert forall|p: int|
                0 <= p < orig.len() && key_sum(orig, (#[trigger] orig[p]).0.key()) != 0 implies exists|a: int|
                0 <= a < out.len() && (#[trigger] out[a].0.key()) == orig[p].0.key() by {
                let k = orig[p].0.key();
                lemma_key_sum_present(t, k);
                let q = choose|q: int| 0 <= q < t.len() && (#[trigger] t[q]).0.key() == k;
                if k == kcur {
                    assert(out[off0 as int].0.key() == k);
                } else {
                    let a = choose|a: int| 0 <= a < off0 && (#[trigger] pre[a].0.key()) == t[q].0.key();
                    assert(out[a] == slice@[a]);
                }
            }
            assert forall|a: int| 0 <= a < out.len() implies (#[trigger] out[a]).1 != 0 && out[a].1
                == key_sum(orig, out[a].0.key()) by {
                assert(out[a] == slice@[a]);
            }
            assert forall|a: int, b: int| 0 <= a < b < out.len() implies lex_lt(#[trigger] out[a].0.key(), #[trigger] out[b].0.key()) by {
                assert(out[a] == slice@[a]);
                assert(out[b] == slice@[b]);
            }
        }
        offset
    } else {
        let mut count: usize = 0;
        if slice.len() == 1 {
            proof {
                assert(orig =~= seq![orig[0]]);
                lemma_key_sum_single(orig[0], orig[0].0.key());
            }
            if slice[0].1 != 0 {
                count = 1;
            }
        }
        proof {
            let out = slice@.subrange(0, count as int);
            if count == 1 {
                assert(out[0] == orig[0]);
            }
            assert forall|p: int|
                0 <= p < orig.len() && key_sum(orig, (#[trigger] orig[p]).0.key()) != 0 implies exists|a: int|
                0 <= a < out.len() && (#[trigger] out[a].0.key()) == orig[p].0.key() by {
                assert(p == 0);
                assert(count == 1);
                assert(out[0] == orig[0]);
            }
        }
        count
    }
}

/// Sorts and consolidates `vec[offset..]`.
///
/// The first `offset` entries stay; the rest is replaced by its consolidation.
fn consolidate_from<T: SortKey>(vec: &mut Vec<(T, usize)>, offset: usize)
    requires
        offset <= old(vec)@.len(),
        forall|p: int|
            offset <= p < old(vec)@.len() ==> key_sum(
                old(vec)@.subrange(offset as int, old(vec)@.len() as int),
                (#[trigger] old(vec)@[p]).0.key(),
            ) <= usize::MAX,
    ensures
        offset <= final(vec)@.len() <= old(vec)@.len(),
        final(vec)@.subrange(0, offset as int) == old(vec)@.subrange(0, offset as int),
        consolidated(
            final(vec)@.subrange(offset as int, final(vec)@.len() as int),
            old(vec)@.subrange(offset as int, old(vec)@.len() as int),
        ),
{
    let ghost tail0 = old(vec)@.subrange(offset as int, old(vec)@.len() as int);
    let mut tail = vec.split_off(offset);
    proof {
        assert forall|p: int| 0 <= p < tail0.len() implies key_sum(tail0, (#[trigger] tail0[p]).0.key())
            <= usize::MAX by {
            assert(tail0[p] == old(vec)@[offset + p]);
        }
    }
    let length = consolidate_slice(tail.as_mut_slice());
    let ghost sorted = tail@;
    tail.truncate(length);
    let ghost head = vec@;
    vec.append(&mut tail);
    proof {
        assert(vec@.subrange(0, offset as int) =~= head);
        assert(vec@.subrange(offset as int, vec@.len() as int) =~= sorted.subrange(0, length as int));
    }
}

/// Sorts and consolidates `vec`.
///
/// The result holds one entry per key whose counts do not sum to zero, with that sum, in
/// increasing order of keys.
fn consolidate<T: SortKey>(vec: &mut Vec<(T, usize)>)
    requires
        forall|p: int|
            0 <= p < old(vec)@.len() ==> key_sum(old(vec)@, (#[trigger] old(vec)@[p]).0.key())
                <= usize::MAX,
    ensures
        consolidated(final(vec)@, old(vec)@),
{
    proof {
        assert(old(vec)@.subrange(0, old(vec)@.len() as int) =~= old(vec)@);
    }
    consolidate_from(vec, 0);
    proof {
        assert(vec@.subrange(0, vec@.len() as int) =~= vec@);
    }
}

/// `x` goes before `y` when sorting by decreasing count, then increasing key.
pub open spec fn heavier<T: SortKey>(x: (T, usize), y: (T, usize)) -> bool {
    x.1 > y.1 || (x.1 == y.1 && lex_lt(x.0.key(), y.0.key()))
}

/// No two entries of `s` have the same key.
pub open spec fn distinct_keys<T: SortKey>(s: Seq<(T, usize)>) -> bool {
    forall|a: int, b: int| 0 <= a < b < s.len() ==> (#[trigger] s[a]).0.key() != (#[trigger] s[b]).0.key()
}

/// `s` is sorted by decreasing count, then increasing key.
pub open spec fn sorted_by_weight<T: SortKey>(s: Seq<(T, usize)>) -> bool {
    forall|a: int, b: int| 0 <= a < b < s.len() ==> heavier(#[trigger] s[a], #[trigger] s[b])
}

/// `t` holds the entries of `s`, possibly elsewhere.
pub open spec fn same_entries<T>(t: Seq<(T, usize)>, s: Seq<(T, usize)>) -> bool {
    t.to_multiset() == s.to_multiset()
}

/// Ordering by weight is a strict total order on entries with different keys.
proof fn lemma_heavier<T: SortKey>(x: (T, usize), y: (T, usize), z: (T, usize))
    ensures
        x.0.key() != y.0.key() ==> heavier(x, y) || heavier(y, x),
        heavier(x, y) ==> !heavier(y, x),
        !heavier(x, x),
        heavier(x, y) && heavier(y, z) ==> heavier(x, z),
{
    lemma_lex_total(x.0.key(), y.0.key());
    lemma_lex_asymmetric(x.0.key(), y.0.key());
    lemma_lex_irreflexive(x.0.key());
    if heavier(x, y) && heavier(y, z) && x.1 == y.1 && y.1 == z.1 {
        lemma_lex_transitive(x.0.key(), y.0.key(), z.0.key());
    }
}

/// Swapping two entries keeps the same entries.
proof fn lemma_swap_same_entries<T>(s: Seq<(T, usize)>, i: int, j: int)
    requires
        0 <= i < j < s.len(),
    ensures
        same_entries(s.update(i, s[j]).update(j, s[i]), s),
{
    let s1 = s.update(i, s[j]);
    vstd::seq_lib::to_multiset_update(s, i, s[j]);
    vstd::seq_lib::to_multiset_update(s1, j, s[i]);
    vstd::seq_lib::to_multiset_contains(s, s[i]);
    assert(s.contains(s[i]));
    let m = s.to_multiset();
    let s2 = s1.update(j, s[i]);
    assert(s1[j] == s[j]);
    assert(s1.to_multiset() == m.remove(s[i]).insert(s[j]));
    assert(s2.to_multiset() == s1.to_multiset().remove(s[j]).insert(s[i]));
    assert(m.count(s[i]) > 0);
    assert(m.remove(s[i]).insert(s[j]).remove(s[j]).insert(s[i]) =~= m);
}

/// Whether `x` goes before `y` when sorting by decreasing count, then increasing key.
fn is_heavier<T: SortKey>(x: &(T, usize), y: &(T, usize)) -> (r: bool)
    ensures
        r == heavier(*x, *y),
{
    x.1 > y.1 || (x.1 == y.1 && x.0.key_lt(&y.0))
}

/// Sorts entries with distinct keys by decreasing count, then increasing key.
fn sort_by_weight<T: SortKey>(s: &mut [(T, usize)])
    requires
        distinct_keys(old(s)@),
    ensures
        same_entries(final(s)@, old(s)@),
        distinct_keys(final(s)@),
        sorted_by_weight(final(s)@),
{
    let n = s.len();
    if n < 2 {
        return ;
    }
    let mut i: usize = 1;
    while i < n
        invariant
            1 <= i <= n,
            n == s@.len(),
            same_entries(s@, old(s)@),
            distinct_keys(s@),
            forall|a: int, b: int| 0 <= a < b < i ==> heavier(#[trigger] s@[a], #[trigger] s@[b]),
        decreases n - i,
    {
        let mut j: usize = i;
        while j > 0 && is_heavier(&s[j], &s[j - 1])
            invariant
                0 <= j <= i < n,
                n == s@.len(),
                same_entries(s@, old(s)@),
                distinct_keys(s@),
                forall|a: int, b: int|
                    0 <= a < b <= i && a != j && b != j ==> heavier(#[trigger] s@[a], #[trigger] s@[b]),
                forall|b: int| j < b <= i ==> heavier(s@[j as int], #[trigger] s@[b]),
            decreases j,
        {
            let ghost before = s@;
            slice_swap(s, j - 1, j);
            proof {
                lemma_swap_same_entries(before, j - 1, j as int);
                assert forall|a: int, b: int| 0 <= a < b < s@.len() implies (#[trigger] s@[a]).0.key()
                    != (#[trigger] s@[b]).0.key() by {
                    let ca = if a == j - 1 { j as int } else if a == j { j - 1 } else { a };
                    let cb = if b == j - 1 { j as int } else if b == j { j - 1 } else { b };
                    assert(s@[a] == before[ca] && s@[b] == before[cb]);
                    if ca < cb {
                        assert(before[ca].0.key() != before[cb].0.key());
                    } else {
                        assert(before[cb].0.key() != before[ca].0.key());
                    }
                }
                let x = before[j as int];
                let y = before[j - 1];
                assert forall|b: int| j - 1 < b <= i implies heavier(s@[j - 1], #[trigger] s@[b]) by {
                    if b > j {
                        assert(heavier(x, before[b]));
                    }
                }
                assert forall|a: int, b: int|
                    0 <= a < b <= i && a != j - 1 && b != j - 1 implies heavier(#[trigger] s@[a], #[trigger] s@[b]) by {
                    if b == j {
                        assert(s@[b] == y);
                        assert(heavier(before[a], y));
                    } else if a == j {
                        assert(s@[a] == y);
                        assert(s@[b] == before[b]);
                        assert(heavier(y, before[b]));
                    } else {
                        assert(s@[a] == before[a] && s@[b] == before[b]);
                    }
                }
            }
            j = j - 1;
        }
        proof {
            assert forall|a: int, b: int| 0 <= a < b <= i implies heavier(#[trigger] s@[a], #[trigger] s@[b]) by {
                if b == j {
                    if j > 0 {
                        lemma_heavier(s@[j - 1], s@[j as int], s@[a]);
                        assert(heavier(s@[j - 1], s@[j as int]));
                        if a < j - 1 {
                            lemma_heavier(s@[a], s@[j - 1], s@[j as int]);
                        }
                    }
                } else if a < j && j < b {
                    lemma_heavier(s@[j - 1], s@[j as int], s@[a]);
                    assert(heavier(s@[j - 1], s@[j as int]));
                    if a < j - 1 {
                        lemma_heavier(s@[a], s@[j - 1], s@[j as int]);
                    }
                    lemma_heavier(s@[a], s@[j as int], s@[b]);
                }
            }
        }
        i = i + 1;
    }
}

/// `out` lists, heaviest first, the keys of `input` whose counts do not sum to zero, each
/// with that sum, ties in increasing order of keys.
pub open spec fn heavy_hitters<T: SortKey>(out: Seq<(T, usize)>, input: Seq<(T, usize)>) -> bool {
    &&& sorted_by_weight(out)
    &&& distinct_keys(out)
    &&& forall|a: int|
        0 <= a < out.len() ==> (#[trigger] out[a]).1 != 0 && out[a].1 == key_sum(input, out[a].0.key())
    &&& forall|p: int|
        0 <= p < input.len() && key_sum(input, (#[trigger] input[p]).0.key()) != 0 ==> exists|a: int|
            0 <= a < out.len() && (#[trigger] out[a].0.key()) == input[p].0.key()
}

/// What [`MisraGries`] keeps of `input` when it tidies with room for `k` entries: the heavy
/// hitters, and, when there are more than `k`, the first `k` of them, each lightened by one
/// less than the weight of the first one dropped.
pub open spec fn tidied<T: SortKey>(out: Seq<(T, usize)>, input: Seq<(T, usize)>, k: int) -> bool {
    exists|c: Seq<(T, usize)>|
        #[trigger] heavy_hitters(c, input) && if c.len() > k {
            out.len() == k && forall|a: int|
                0 <= a < k ==> (#[trigger] out[a]).0 == c[a].0 && out[a].1 == c[a].1 - (c[k].1 - 1)
        } else {
            out == c
        }
}

/// Sorting a consolidation by weight gives the heavy hitters.
proof fn lemma_heavy_hitters<T: SortKey>(r: Seq<(T, usize)>, c: Seq<(T, usize)>, input: Seq<(T, usize)>)
    requires
        consolidated(c, input),
        same_entries(r, c),
        sorted_by_weight(r),
        distinct_keys(r),
    ensures
        heavy_hitters(r, input),
{
    assert forall|a: int| 0 <= a < r.len() implies (#[trigger] r[a]).1 != 0 && r[a].1 == key_sum(
        input,
        r[a].0.key(),
    ) by {
        vstd::seq_lib::to_multiset_contains(r, r[a]);
        vstd::seq_lib::to_multiset_contains(c, r[a]);
        assert(r.contains(r[a]));
        let b = choose|b: int| 0 <= b < c.len() && c[b] == r[a];
    }
    assert forall|p: int|
        0 <= p < input.len() && key_sum(input, (#[trigger] input[p]).0.key()) != 0 implies exists|a: int|
        0 <= a < r.len() && (#[trigger] r[a].0.key()) == input[p].0.key() by {
        let b = choose|b: int| 0 <= b < c.len() && (#[trigger] c[b].0.key()) == input[p].0.key();
        vstd::seq_lib::to_multiset_contains(c, c[b]);
        vstd::seq_lib::to_multiset_contains(r, c[b]);
        assert(c.contains(c[b]));
        let a = choose|a: int| 0 <= a < r.len() && r[a] == c[b];
        assert(r[a].0.key() == input[p].0.key());
    }
}

/// Consolidated entries have distinct keys.
proof fn lemma_consolidated_distinct<T: SortKey>(c: Seq<(T, usize)>, input: Seq<(T, usize)>)
    requires
        consolidated(c, input),
    ensures
        distinct_keys(c),
{
    assert forall|a: int, b: int| 0 <= a < b < c.len() implies (#[trigger] c[a]).0.key() != (#[trigger] c[b]).0.key() by {
        assert(lex_lt(c[a].0.key(), c[b].0.key()));
        lemma_lex_irreflexive(c[a].0.key());
    }
}

/// Every key of `s` sums to at most `usize::MAX`.
pub open spec fn sums_fit<T: SortKey>(s: Seq<(T, usize)>) -> bool {
    forall|p: int| 0 <= p < s.len() ==> key_sum(s, (#[trigger] s[p]).0.key()) <= usize::MAX
}

/// One update of a summary with room for `limit` entries: `entry` is appended, and the
/// summary is tidied down to half its room when the entries reach the limit.
pub open spec fn summary_step<T: SortKey>(before: Seq<(T, usize)>, entry: (T, usize), after: Seq<(T, usize)>, limit: nat) -> bool {
    if before.len() + 1 < limit {
        after == before.push(entry)
    } else {
        tidied(after, before.push(entry), (limit / 2) as int)
    }
}

/// `trace` lists what a summary with room for `limit` entries holds as `inputs` are
/// presented, in order, to an empty one: first nothing, then after each update.
pub open spec fn summary_trace<T: SortKey>(trace: Seq<Seq<(T, usize)>>, inputs: Seq<(T, usize)>, limit: nat) -> bool {
    &&& trace.len() == inputs.len() + 1
    &&& trace[0].len() == 0
    &&& forall|i: int| 0 <= i < inputs.len() ==> summary_step(#[trigger] trace[i], inputs[i], trace[i + 1], limit)
}

/// `out` is what a summary with room for `limit` entries can hold after `inputs` were
/// presented, in order, to an empty one.
pub open spec fn summarizes<T: SortKey>(out: Seq<(T, usize)>, inputs: Seq<(T, usize)>, limit: nat) -> bool {
    exists|trace: Seq<Seq<(T, usize)>>| #[trigger] summary_trace(trace, inputs, limit) && trace.last() == out
}

/// An empty summary summarizes nothing.
proof fn lemma_summarizes_empty<T: SortKey>(limit: nat)
    ensures
        summarizes(Seq::<(T, usize)>::empty(), Seq::empty(), limit),
{
    let trace = seq![Seq::<(T, usize)>::empty()];
    assert(summary_trace(trace, Seq::<(T, usize)>::empty(), limit));
}

/// Presenting one more entry extends a summary.
proof fn lemma_summarizes_push<T: SortKey>(prev: Seq<(T, usize)>, inputs: Seq<(T, usize)>, e: (T, usize), out: Seq<(T, usize)>, limit: nat)
    requires
        summarizes(prev, inputs, limit),
        summary_step(prev, e, out, limit),
    ensures
        summarizes(out, inputs.push(e), limit),
{
    let trace = choose|trace: Seq<Seq<(T, usize)>>| #[trigger] summary_trace(trace, inputs, limit) && trace.last() == prev;
    let t2 = trace.push(out);
    let s = inputs.push(e);
    assert forall|i: int| 0 <= i < s.len() implies summary_step(#[trigger] t2[i], s[i], t2[i + 1], limit) by {
        if i < inputs.len() {
            assert(t2[i] == trace[i]);
            assert(s[i] == inputs[i]);
            assert(summary_step(trace[i], inputs[i], trace[i + 1], limit));
        } else {
            assert(t2[i] == prev);
        }
    }
    assert(summary_trace(t2, s, limit));
}

/// Entries with the same keys and counts, in the same order, are heavy hitters alike.
proof fn lemma_heavy_hitters_rekey<T: SortKey>(out: Seq<(T, usize)>, out2: Seq<(T, usize)>, input: Seq<(T, usize)>)
    requires
        heavy_hitters(out, input),
        out2.len() == out.len(),
        forall|a: int| 0 <= a < out.len() ==> (#[trigger] out2[a]).0.key() == out[a].0.key() && out2[a].1 == out[a].1,
    ensures
        heavy_hitters(out2, input),
{
    assert forall|a: int, b: int| 0 <= a < b < out2.len() implies heavier(#[trigger] out2[a], #[trigger] out2[b]) by {
        assert(heavier(out[a], out[b]));
    }
    assert forall|a: int, b: int| 0 <= a < b < out2.len() implies (#[trigger] out2[a]).0.key() != (#[trigger] out2[b]).0.key() by {
        assert(out[a].0.key() != out[b].0.key());
    }
    assert forall|a: int| 0 <= a < out2.len() implies (#[trigger] out2[a]).1 != 0 && out2[a].1 == key_sum(input, out2[a].0.key()) by {
        assert(out[a].1 != 0);
    }
    assert forall|p: int|
        0 <= p < input.len() && key_sum(input, (#[trigger] input[p]).0.key()) != 0 implies exists|a: int|
            0 <= a < out2.len() && (#[trigger] out2[a].0.key()) == input[p].0.key() by {
        let a = choose|a: int| 0 <= a < out.len() && (#[trigger] out[a].0.key()) == input[p].0.key();
        assert(out2[a].0.key() == input[p].0.key());
    }
}

/// The lists one after the other.
pub open spec fn concat_all<A>(lists: Seq<Seq<A>>) -> Seq<A>
    decreases lists.len(),
{
    if lists.len() == 0 {
        Seq::empty()
    } else {
        concat_all(lists.drop_last()) + lists.last()
    }
}

/// Consolidates `v` and sorts it by decreasing count, then increasing key.
fn heavy_hitters_of<T: SortKey>(v: &mut Vec<(T, usize)>)
    requires
        sums_fit(old(v)@),
    ensures
        heavy_hitters(final(v)@, old(v)@),
{
    consolidate(v);
    let ghost c = v@;
    proof {
        lemma_consolidated_distinct(c, old(v)@);
    }
    sort_by_weight(v.as_mut_slice());
    proof {
        lemma_heavy_hitters(v@, c, old(v)@);
    }
}

/// `t` and `s` have entries with the same keys and counts, position by position.
pub open spec fn same_keys<T: SortKey>(t: Seq<(T, usize)>, s: Seq<(T, usize)>) -> bool {
    &&& t.len() == s.len()
    &&& forall|a: int| 0 <= a < t.len() ==> (#[trigger] t[a]).0.key() == s[a].0.key() && t[a].1 == s[a].1
}

/// The heavy hitters of a sequence are those of one with the same keys and counts.
proof fn lemma_heavy_hitters_same_keys<T: SortKey>(out: Seq<(T, usize)>, t: Seq<(T, usize)>, s: Seq<(T, usize)>)
    requires
        same_keys(t, s),
        heavy_hitters(out, t),
    ensures
        heavy_hitters(out, s),
{
    assert forall|k: Seq<int>| #[trigger] key_sum(t, k) == key_sum(s, k) by {
        lemma_same_keys_sum(t, s, k);
    }
    assert forall|p: int|
        0 <= p < s.len() && key_sum(s, (#[trigger] s[p]).0.key()) != 0 implies exists|a: int|
            0 <= a < out.len() && (#[trigger] out[a].0.key()) == s[p].0.key() by {
        assert(t[p].0.key() == s[p].0.key());
        assert(key_sum(t, t[p].0.key()) != 0);
    }
}

/// Sequences with the same keys and counts count every key alike.
proof fn lemma_same_keys_sum<T: SortKey>(t: Seq<(T, usize)>, s: Seq<(T, usize)>, k: Seq<int>)
    requires
        same_keys(t, s),
    ensures
        key_sum(t, k) == key_sum(s, k),
    decreases t.len(),
{
    if t.len() > 0 {
        assert(same_keys(t.drop_last(), s.drop_last())) by {
            assert forall|a: int| 0 <= a < t.drop_last().len() implies (#[trigger] t.drop_last()[a]).0.key() == s.drop_last()[a].0.key()
                && t.drop_last()[a].1 == s.drop_last()[a].1 by {
                assert(t[a].0.key() == s[a].0.key());
            }
        }
        lemma_same_keys_sum(t.drop_last(), s.drop_last(), k);
        assert(t.last().0.key() == s.last().0.key());
    }
}

/// Maintains a summary of "heavy hitters" in a presented collection of items.
///
/// The summary is allocated with room for a number of entries, its limit; when the entries
/// reach the limit, it tidies down to half of it.
pub struct MisraGries<T> {
    inner: Vec<(T, usize)>,
    limit: usize,
}

impl<T: SortKey> MisraGries<T> {
    /// The entries of the summary, with the counts they carry.
    pub closed spec fn view(&self) -> Seq<(T, usize)> {
        self.inner@
    }

    /// The number of entries the summary is allocated for.
    pub closed spec fn limit(&self) -> nat {
        self.limit as nat
    }

    /// Returns an empty summary with room for 1024 entries.
    pub fn new() -> (r: Self)
        ensures
            r@ == Seq::<(T, usize)>::empty(),
            r.limit() == 1024,
    {
        MisraGries { inner: Vec::with_capacity(1024), limit: 1024 }
    }

    /// Inserts an additional element to the summary.
    pub fn insert(&mut self, element: T)
        requires
            sums_fit(old(self)@.push((element, 1usize))),
        ensures
            final(self).limit() == old(self).limit(),
            if old(self)@.len() + 1 < old(self).limit() {
                final(self)@ == old(self)@.push((element, 1usize))
            } else {
                tidied(final(self)@, old(self)@.push((element, 1usize)), (old(self).limit() / 2) as int)
            },
            old(self)@.len() < old(self).limit() ==> final(self)@.len() < final(self).limit(),
    {
        self.update(element, 1);
    }

    /// Inserts multiple copies of an element to the summary.
    ///
    /// When the entries fill the allocation, the summary is tidied.
    pub fn update(&mut self, element: T, count: usize)
        requires
            sums_fit(old(self)@.push((element, count))),
        ensures
            final(self).limit() == old(self).limit(),
            if old(self)@.len() + 1 < old(self).limit() {
                final(self)@ == old(self)@.push((element, count))
            } else {
                tidied(final(self)@, old(self)@.push((element, count)), (old(self).limit() / 2) as int)
            },
            old(self)@.len() < old(self).limit() ==> final(self)@.len() < final(self).limit(),
    {
        self.inner.push((element, count));
        if self.inner.len() >= self.limit {
            self.tidy();
        }
    }

    /// Allocates a Misra-Gries summary which intends to hold up to `k` examples.
    ///
    /// After `n` insertions it will contain only elements that were inserted at least `n/k` times.
    /// The actual memory use is proportional to `2 * k`, so that we can amortize the consolidation.
    pub fn with_capacity(k: usize) -> (r: Self)
        requires
            2 * k <= usize::MAX,
        ensures
            r@ == Seq::<(T, usize)>::empty(),
            r.limit() == 2 * k,
    {
        MisraGries { inner: Vec::with_capacity(2 * k), limit: 2 * k }
    }

    /// Completes the summary, and extracts the items and their counts, heaviest first.
    pub fn done(self) -> (r: Vec<(T, usize)>)
        requires
            sums_fit(self@),
        ensures
            heavy_hitters(r@, self@),
    {
        let mut inner = self.inner;
        heavy_hitters_of(&mut inner);
        inner
    }

    /// Returns a summary with the same entries.
    pub fn copy(&self) -> (r: Self)
        ensures
            same_keys(r@, self@),
            r.limit() == self.limit(),
    {
        let mut inner: Vec<(T, usize)> = Vec::with_capacity(self.inner.len());
        let mut i: usize = 0;
        while i < self.inner.len()
            invariant
                0 <= i <= self.inner@.len(),
                inner@.len() == i,
                forall|a: int| 0 <= a < i ==> (#[trigger] inner@[a]).0.key() == self.inner@[a].0.key() && inner@[a].1 == self.inner@[a].1,
            decreases self.inner@.len() - i,
        {
            inner.push((self.inner[i].0.key_clone(), self.inner[i].1));
            i = i + 1;
        }
        MisraGries { inner, limit: self.limit }
    }

    /// Reduces the summary to at most half its limit: keeps the heaviest entries and
    /// lightens them by one less than the weight of the first entry dropped.
    fn tidy(&mut self)
        requires
            sums_fit(old(self)@),
        ensures
            final(self).limit() == old(self).limit(),
            tidied(final(self)@, old(self)@, (old(self).limit() / 2) as int),
            final(self)@.len() <= old(self).limit() / 2,
    {
        heavy_hitters_of(&mut self.inner);
        let ghost c = self.inner@;
        let k = self.limit / 2;
        if self.inner.len() > k {
            let sub_weight = self.inner[k].1 - 1;
            self.inner.truncate(k);
            let mut i: usize = 0;
            while i < k
                invariant
                    0 <= i <= k < c.len(),
                    self.limit == old(self).limit,
                    k == old(self).limit / 2,
                    self.inner@.len() == k,
                    heavy_hitters(c, old(self)@),
                    sub_weight == c[k as int].1 - 1,
                    forall|a: int| 0 <= a < i ==> (#[trigger] self.inner@[a]).0 == c[a].0 && self.inner@[a].1 == c[a].1 - sub_weight,
                    forall|a: int| i <= a < k ==> #[trigger] self.inner@[a] == c[a],
                decreases k - i,
            {
                assert(heavier(c[i as int], c[k as int]));
                self.inner[i].1 -= sub_weight;
                i = i + 1;
            }
            while self.inner.len() > 0 && self.inner[self.inner.len() - 1].1 == 0
                invariant
                    k < c.len(),
                    self.limit == old(self).limit,
                    k == old(self).limit / 2,
                    self.inner@.len() <= k,
                    heavy_hitters(c, old(self)@),
                    sub_weight == c[k as int].1 - 1,
                    forall|a: int| 0 <= a < self.inner@.len() ==> (#[trigger] self.inner@[a]).0 == c[a].0 && self.inner@[a].1 == c[a].1 - sub_weight,
                    self.inner@.len() == k,
                decreases self.inner@.len(),
            {
                assert(heavier(c[self.inner@.len() - 1], c[k as int]));
                self.inner.pop();
            }
            proof {
                assert(heavy_hitters(c, old(self)@));
                assert(tidied(self.inner@, old(self)@, k as int));
                assert(exists|k: int| #[trigger] tidied(self.inner@, old(self)@, k));
            }
        } else {
            proof {
                assert(heavy_hitters(c, old(self)@));
                assert(tidied(self.inner@, old(self)@, k as int));
                assert(exists|k: int| #[trigger] tidied(self.inner@, old(self)@, k));
            }
        }
        assert(self@ == self.inner@);
        assert(exists|k: int| #[trigger] tidied(self@, old(self)@, k));
    }
}

impl<T: SortKey> Default for MisraGries<T> {
    fn default() -> (r: Self)
        ensures
            r@ == Seq::<(T, usize)>::empty(),
    {
        Self::new()
    }
}

/// A map from `0 .. something` to `Option<&[u8]>`.
///
/// Non-empty slices are pushed in order, and can be retrieved by index.
/// Pushing an empty slice is equivalent to pushing `None`.
pub struct BytesMap {
    offsets: Vec<usize>,
    bytes: Vec<u8>,
}

impl BytesMap {
    /// The offsets start at zero, never decrease, and end at the number of bytes.
    pub closed spec fn wf(&self) -> bool {
        &&& self.offsets@.len() >= 1
        &&& self.offsets@[0] == 0
        &&& self.offsets@.last() == self.bytes@.len()
        &&& forall|a: int, b: int|
            0 <= a <= b < self.offsets@.len() ==> #[trigger] self.offsets@[a] <= #[trigger] self.offsets@[b]
    }

    /// The entry at `i`: the bytes between two offsets, or `None` where there are none.
    pub closed spec fn entry(&self, i: int) -> Option<Seq<u8>> {
        let lower = self.offsets@[i];
        let upper = self.offsets@[i + 1];
        if lower < upper {
            Some(self.bytes@.subrange(lower as int, upper as int))
        } else {
            None
        }
    }

    /// The entries of the map.
    pub closed spec fn view(&self) -> Seq<Option<Seq<u8>>> {
        Seq::new((self.offsets@.len() - 1) as nat, |i: int| self.entry(i))
    }

    /// Returns an empty map.
    pub fn new() -> (r: Self)
        ensures
            r.wf(),
            r@ == Seq::<Option<Seq<u8>>>::empty(),
    {
        let r = BytesMap { offsets: vec![0], bytes: Vec::new() };
        assert(r@ =~= Seq::<Option<Seq<u8>>>::empty());
        r
    }

    /// Appends an entry; an empty slice is a `None`.
    fn push(&mut self, input: Option<&[u8]>)
        requires
            old(self).wf(),
        ensures
            final(self).wf(),
            final(self)@ == old(self)@.push(
                match input {
                    Some(b) => if b@.len() > 0 {
                        Some(b@)
                    } else {
                        None
                    },
                    None => None,
                },
            ),
    {
        if let Some(bytes) = input {
            crate::impls::storage::push_slice(&mut self.bytes, bytes);
        }
        self.offsets.push(self.bytes.len());
        proof {
            let n = old(self).offsets@.len();
            assert forall|i: int| 0 <= i < n - 1 implies #[trigger] self.entry(i) == old(self).entry(i) by {
                assert(self.offsets@[i] == old(self).offsets@[i]);
                assert(self.offsets@[i + 1] == old(self).offsets@[i + 1]);
                assert(old(self).offsets@[i + 1] <= old(self).offsets@[n - 1]);
                assert(self.bytes@.subrange(self.offsets@[i] as int, self.offsets@[i + 1] as int)
                    =~= old(self).bytes@.subrange(self.offsets@[i] as int, self.offsets@[i + 1] as int));
            }
            if let Some(b) = input {
                assert(self.bytes@.subrange(old(self).bytes@.len() as int, self.bytes@.len() as int) =~= b@);
            }
            assert(self@ =~= old(self)@.push(
                match input {
                    Some(b) => if b@.len() > 0 {
                        Some(b@)
                    } else {
                        None
                    },
                    None => None,
                },
            )) by {
                assert(self@[n - 1] == self.entry(n - 1));
            }
        }
    }

    /// The entry at `index`, or `None` past the end.
    fn get(&self, index: usize) -> (r: Option<&[u8]>)
        requires
            self.wf(),
        ensures
            match r {
                Some(b) => index < self@.len() && self@[index as int] == Some(b@),
                None => index >= self@.len() || self@[index as int] is None,
            },
    {
        if index < self.offsets.len() - 1 {
            let lower = self.offsets[index];
            let upper = self.offsets[index + 1];
            if lower < upper {
                assert(self.offsets@[index + 1] <= self.offsets@[self.offsets@.len() - 1]);
                Some(vstd::slice::slice_subrange(self.bytes.as_slice(), lower, upper))
            } else {
                None
            }
        } else {
            None
        }
    }

    /// The number of entries.
    fn len(&self) -> (r: usize)
        requires
            self.wf(),
        ensures
            r == self@.len(),
    {
        self.offsets.len() - 1
    }
}

impl Default for BytesMap {
    fn default() -> (r: Self)
        ensures
            r.wf(),
            r@ == Seq::<Option<Seq<u8>>>::empty(),
    {
        Self::new()
    }
}

/// Counting one more entry.
proof fn lemma_key_sum_push<T: SortKey>(s: Seq<(T, usize)>, x: (T, usize), k: Seq<int>)
    ensures
        key_sum(s.push(x), k) == key_sum(s, k) + if x.0.key() == k {
            x.1 as int
        } else {
            0
        },
{
    assert(s.push(x).drop_last() =~= s);
}

/// With distinct keys, a key counts the entry that has it, or nothing.
proof fn lemma_key_sum_distinct<T: SortKey>(s: Seq<(T, usize)>, k: Seq<int>)
    requires
        distinct_keys(s),
    ensures
        key_sum(s, k) == 0 || exists|a: int| 0 <= a < s.len() && (#[trigger] s[a]).0.key() == k && key_sum(s, k) == s[a].1,
    decreases s.len(),
{
    if s.len() > 0 {
        let t = s.drop_last();
        assert forall|a: int, b: int| 0 <= a < b < t.len() implies (#[trigger] t[a]).0.key() != (#[trigger] t[b]).0.key() by {
            assert(t[a] == s[a] && t[b] == s[b]);
        }
        lemma_key_sum_distinct(t, k);
        if s.last().0.key() == k {
            assert forall|p: int| 0 <= p < t.len() implies (#[trigger] t[p]).0.key() != k by {
                assert(t[p] == s[p]);
                assert(s[p].0.key() != s[s.len() - 1].0.key());
            }
            lemma_key_sum_absent(t, k);
            assert(s[s.len() - 1].0.key() == k);
        } else if key_sum(t, k) != 0 {
            let a = choose|a: int| 0 <= a < t.len() && (#[trigger] t[a]).0.key() == k && key_sum(t, k) == t[a].1;
            assert(s[a] == t[a]);
        }
    }
}

/// Tidying never counts a key more often than it was counted.
proof fn lemma_tidied_sums<T: SortKey>(out: Seq<(T, usize)>, input: Seq<(T, usize)>, kk: int, k: Seq<int>)
    requires
        tidied(out, input, kk),
    ensures
        key_sum(out, k) <= key_sum(input, k),
{
    let c = choose|c: Seq<(T, usize)>| #[trigger] heavy_hitters(c, input) && if c.len() > kk {
        out.len() == kk && forall|a: int|
            0 <= a < kk ==> (#[trigger] out[a]).0 == c[a].0 && out[a].1 == c[a].1 - (c[kk].1 - 1)
    } else {
        out == c
    };
    lemma_key_sum_nonneg(input, k);
    if c.len() > kk {
        assert forall|a: int, b: int| 0 <= a < b < out.len() implies (#[trigger] out[a]).0.key() != (#[trigger] out[b]).0.key() by {
            assert(c[a].0.key() != c[b].0.key());
        }
        lemma_key_sum_distinct(out, k);
        if key_sum(out, k) != 0 {
            let a = choose|a: int| 0 <= a < out.len() && (#[trigger] out[a]).0.key() == k && key_sum(out, k) == out[a].1;
            assert(c[a].1 == key_sum(input, c[a].0.key()));
        }
    } else {
        lemma_key_sum_distinct(out, k);
        if key_sum(out, k) != 0 {
            let a = choose|a: int| 0 <= a < out.len() && (#[trigger] out[a]).0.key() == k && key_sum(out, k) == out[a].1;
            assert(out[a].1 == key_sum(input, out[a].0.key()));
        }
    }
}

/// Encode and decode byte strings.
///
/// A codec turns bytes into the bytes that are stored, [`Codec::decode`] turns stored bytes
/// back, and [`Codec::covers`] says for which bytes that gives back what was encoded.
pub trait Codec: Sized {
    /// The invariant of the codec.
    spec fn codec_wf(&self) -> bool;

    /// What decoding the stored bytes `stored` gives.
    spec fn decoded(&self, stored: Seq<u8>) -> Seq<u8>;

    /// Whether decoding the encoding of `bytes` gives back `bytes`.
    spec fn covers(&self, bytes: Seq<u8>) -> bool;

    /// Whether the codec can record `bytes` in its statistics.
    spec fn can_encode(&self, bytes: Seq<u8>) -> bool;

    /// Whether the statistics of `stats` can be combined.
    spec fn can_merge(stats: Seq<&Self>) -> bool;

    /// Whether the codec is one that [`Codec::new_from`] builds from the statistics of `stats`.
    spec fn built_from(&self, stats: Seq<&Self>) -> bool;

    /// Whether the codec is as [`Codec::new_codec`] returns it: without statistics or rules.
    spec fn is_new(&self) -> bool;

    /// Returns a codec without statistics or rules.
    fn new_codec() -> (r: Self)
        ensures
            r.codec_wf(),
            r.is_new(),
    ;

    /// Decodes stored bytes.
    fn decode<'a>(&'a self, bytes: &'a [u8]) -> (r: &'a [u8])
        requires
            self.codec_wf(),
            bytes@.len() > 0,
        ensures
            r@ == self.decoded(bytes@),
    ;

    /// Encodes `bytes` into `output`, returning the index of the stored bytes.
    ///
    /// Encoding also records statistics about the structure of the input; it does not
    /// change how stored bytes decode.
    fn encode<R: Region<Value = Seq<u8>> + for<'b> Push<&'b [u8]>>(&mut self, bytes: &[u8], output: &mut R) -> (index: R::Index)
        requires
            old(self).codec_wf(),
            old(self).can_encode(bytes@),
            old(output).wf(),
            forall|b: &[u8]| #[trigger] R::pushed_value(b) == b@,
            forall|r: R, b: &[u8]| #[trigger] r.push_requires(b),
        ensures
            final(self).codec_wf(),
            forall|s: Seq<u8>| #[trigger] final(self).decoded(s) == old(self).decoded(s),
            forall|s: Seq<u8>| #[trigger] final(self).covers(s) == old(self).covers(s),
            final(output).wf(),
            final(output).valid(index),
            final(output).value_at(index).len() > 0,
            crate::extends(*final(output), *old(output)),
            old(self).covers(bytes@) ==> final(self).decoded(final(output).value_at(index)) == bytes@,
    ;

    /// Constructs a new instance of `Self` from accumulated statistics.
    /// These statistics should cover the data the output expects to see.
    fn new_from(stats: &[&Self]) -> (r: Self)
        requires
            forall|i: int| 0 <= i < stats@.len() ==> (#[trigger] stats@[i]).codec_wf(),
            Self::can_merge(stats@),
        ensures
            r.codec_wf(),
            r.built_from(stats@),
    ;

    /// The bytes in use in each allocation the codec reports, in the order
    /// [`Codec::heap_size`] reports them.
    spec fn codec_heap(&self) -> Seq<usize>;

    /// Appends one `(size, capacity)` pair in bytes for each allocation the codec reports.
    fn heap_size(&self, sizes: &mut Vec<(usize, usize)>)
        ensures
            crate::reports(old(sizes)@, final(sizes)@, self.codec_heap()),
    ;
}

/// Diagnostic information about a [`DictionaryCodec`].
pub struct DictionaryReport {
    /// The number of tags seen as first bytes.
    pub tags_used: u32,
    /// The number of entries of the statistics.
    pub entries: usize,
    /// The number of bytes presented for encoding.
    pub total: usize,
    /// The number of bytes stored.
    pub bytes: usize,
    /// The number of bytes of the entries of the statistics.
    pub entry_bytes: usize,
}

/// A type that can both encode and decode sequences of byte slices.
///
/// Byte strings in the dictionary are stored as their one-byte tag; other byte strings are
/// stored as they are. A tag decodes to its dictionary entry, so a byte string that starts
/// with a tag of the dictionary and is not in it does not decode to itself.
pub struct DictionaryCodec {
    encode: Vec<(Vec<u8>, u8)>,
    decode: BytesMap,
    stats: (MisraGries<Vec<u8>>, [u64; 4]),
    bytes: usize,
    total: usize,
}

impl DictionaryCodec {
    /// The dictionary: byte strings and their tags.
    pub closed spec fn dictionary(&self) -> Seq<(Seq<u8>, u8)> {
        dictionary_of(self.encode@)
    }

    /// The byte string a tag decodes to, if any.
    pub closed spec fn tag_entry(&self, tag: u8) -> Option<Seq<u8>> {
        if (tag as int) < self.decode@.len() {
            self.decode@[tag as int]
        } else {
            None
        }
    }

    /// Whether `bytes` is in the dictionary.
    pub open spec fn in_dictionary(&self, bytes: Seq<u8>) -> bool {
        exists|a: int| 0 <= a < self.dictionary().len() && (#[trigger] self.dictionary()[a]).0 == bytes
    }

    /// The number of bytes presented for encoding so far.
    pub closed spec fn spec_total(&self) -> usize {
        self.total
    }

    /// The statistics of byte strings seen, with the counts they carry.
    pub closed spec fn spec_stats(&self) -> Seq<(Vec<u8>, usize)> {
        self.stats.0@
    }

    /// The number of distinct tags seen as first bytes: the set bits of the four tag words.
    pub closed spec fn spec_tags_used(&self) -> nat {
        crate::bitmap::word_ones(self.stats.1[0], 64) + crate::bitmap::word_ones(self.stats.1[1], 64)
            + crate::bitmap::word_ones(self.stats.1[2], 64) + crate::bitmap::word_ones(self.stats.1[3], 64)
    }

    /// Whether `tag` was seen as the first byte of bytes presented for encoding.
    pub closed spec fn tag_seen(&self, tag: u8) -> bool {
        (self.stats.1[(tag % 4) as int] >> ((tag >> 2u8) as u64)) & 1u64 != 0u64
    }

    /// The number of bytes stored so far.
    pub closed spec fn spec_bytes(&self) -> usize {
        self.bytes
    }

    /// Every tag of the dictionary decodes to its byte string, which is not empty; byte
    /// strings occur once; no entry of the statistics is empty or counts more than all
    /// bytes presented.
    pub closed spec fn wf(&self) -> bool {
        &&& self.decode.wf()
        &&& forall|a: int|
            0 <= a < self.encode@.len() ==> (#[trigger] self.encode@[a]).0@.len() > 0 && self.tag_entry(
                self.encode@[a].1,
            ) == Some(self.encode@[a].0@)
        &&& forall|a: int, b: int|
            0 <= a < b < self.encode@.len() ==> (#[trigger] self.encode@[a]).0@ != (#[trigger] self.encode@[b]).0@
        &&& forall|p: int| 0 <= p < self.stats.0@.len() ==> (#[trigger] self.stats.0@[p]).0@.len() > 0
        &&& forall|k: Seq<int>| #[trigger] key_sum(self.stats.0@, k) <= self.total
    }

    /// Returns a codec with an empty dictionary and no statistics.
    pub fn new() -> (r: Self)
        ensures
            r.wf(),
            r.dictionary() == Seq::<(Seq<u8>, u8)>::empty(),
            r.spec_total() == 0,
            r.spec_bytes() == 0,
            r.spec_stats().len() == 0,
            forall|t: u8| !#[trigger] r.tag_seen(t),
            forall|b: Seq<u8>| b.len() > 0 ==> #[trigger] r.covers(b),
    {
        let words: [u64; 4] = [0u64, 0u64, 0u64, 0u64];
        let r = DictionaryCodec {
            encode: Vec::new(),
            decode: BytesMap::new(),
            stats: (MisraGries::new(), words),
            bytes: 0,
            total: 0,
        };
        assert(r.dictionary() =~= Seq::<(Seq<u8>, u8)>::empty());
        assert forall|t: u8| !#[trigger] r.tag_seen(t) by {
            let sh = (t >> 2u8) as u64;
            assert(r.stats.1[(t % 4) as int] == 0u64);
            assert((0u64 >> sh) & 1u64 == 0u64) by (bit_vector);
        }
        r
    }

    /// The tag of `bytes` in the dictionary.
    fn lookup(&self, bytes: &[u8]) -> (r: Option<u8>)
        requires
            self.wf(),
        ensures
            match r {
                Some(t) => exists|a: int| 0 <= a < self.encode@.len() && (#[trigger] self.encode@[a]).0@ == bytes@ && self.encode@[a].1 == t,
                None => !self.in_dictionary(bytes@),
            },
    {
        let mut i: usize = 0;
        while i < self.encode.len()
            invariant
                0 <= i <= self.encode@.len(),
                forall|a: int| 0 <= a < i ==> (#[trigger] self.encode@[a]).0@ != bytes@,
            decreases self.encode@.len() - i,
        {
            if crate::impls::deduplicate::bytes_eq(self.encode[i].0.as_slice(), bytes) {
                return Some(self.encode[i].1);
            }
            i = i + 1;
        }
        proof {
            if self.in_dictionary(bytes@) {
                let a = choose|a: int| 0 <= a < self.dictionary().len() && (#[trigger] self.dictionary()[a]).0 == bytes@;
                assert(self.dictionary()[a].0 == self.encode@[a].0@);
            }
        }
        None
    }

    /// Diagnostic information about the state of the codec.
    pub fn report(&self) -> (r: DictionaryReport)
        requires
            self.wf(),
        ensures
            r.tags_used == self.spec_tags_used(),
            r.total == self.spec_total(),
            r.bytes == self.spec_bytes(),
            exists|hh: Seq<(Vec<u8>, usize)>|
                #[trigger] heavy_hitters(hh, self.spec_stats()) && r.entries == hh.len() && r.entry_bytes
                    == saturating_len_sum(hh),
    {
        let mut tags_used: u32 = 0;
        let mut i: usize = 0;
        while i < 4
            invariant
                0 <= i <= 4,
                tags_used <= 64 * i,
                tags_used == (if i > 0 { crate::bitmap::word_ones(self.stats.1[0], 64) } else { 0 })
                    + (if i > 1 { crate::bitmap::word_ones(self.stats.1[1], 64) } else { 0 })
                    + (if i > 2 { crate::bitmap::word_ones(self.stats.1[2], 64) } else { 0 })
                    + (if i > 3 { crate::bitmap::word_ones(self.stats.1[3], 64) } else { 0 }),
            decreases 4 - i,
        {
            let c = crate::bitmap::count_ones(self.stats.1[i]);
            tags_used = tags_used + c;
            i = i + 1;
        }
        let mg = self.stats.0.copy();
        let ghost mg_stats = mg@;
        proof {
            assert forall|p: int| 0 <= p < mg@.len() implies key_sum(mg@, (#[trigger] mg@[p]).0.key())
                <= usize::MAX by {
                lemma_same_keys_sum(mg@, self.stats.0@, mg@[p].0.key());
            }
        }
        let mg = mg.done();
        proof {
            lemma_heavy_hitters_same_keys(mg@, mg_stats, self.stats.0@);
        }
        let mut entry_bytes: usize = 0;
        let mut j: usize = 0;
        while j < mg.len()
            invariant
                0 <= j <= mg@.len(),
                entry_bytes == saturating_len_sum(mg@.subrange(0, j as int)),
            decreases mg@.len() - j,
        {
            proof {
                assert(mg@.subrange(0, j + 1).drop_last() =~= mg@.subrange(0, j as int));
            }
            entry_bytes = entry_bytes.saturating_add(mg[j].0.len());
            j = j + 1;
        }
        proof {
            assert(mg@.subrange(0, mg@.len() as int) =~= mg@);
            assert(heavy_hitters(mg@, self.spec_stats()));
        }
        DictionaryReport {
            tags_used,
            entries: mg.len(),
            total: self.total,
            bytes: self.bytes,
            entry_bytes,
        }
    }
}

/// The lengths of the byte strings of `s` summed, saturating at `usize::MAX`.
pub open spec fn saturating_len_sum(s: Seq<(Vec<u8>, usize)>) -> usize
    decreases s.len(),
{
    if s.len() == 0 {
        0
    } else {
        let total = saturating_len_sum(s.drop_last()) + s.last().0@.len();
        if total > usize::MAX {
            usize::MAX
        } else {
            total as usize
        }
    }
}

/// The byte strings and tags of dictionary entries.
pub open spec fn dictionary_of(encode: Seq<(Vec<u8>, u8)>) -> Seq<(Seq<u8>, u8)> {
    encode.map_values(|e: (Vec<u8>, u8)| (e.0@, e.1))
}

/// `hh` lists the heavy hitters, heaviest first, of `m`, which is what a summary with room
/// for 1024 entries holds after the heavy hitters of the statistics of each of `stats` were
/// presented to it in turn (`lists`).
pub open spec fn combined_heaviest(
    stats: Seq<&DictionaryCodec>,
    lists: Seq<Seq<(Vec<u8>, usize)>>,
    m: Seq<(Vec<u8>, usize)>,
    hh: Seq<(Vec<u8>, usize)>,
) -> bool {
    &&& lists.len() == stats.len()
    &&& forall|s: int| 0 <= s < stats.len() ==> heavy_hitters(#[trigger] lists[s], stats[s].spec_stats())
    &&& summarizes(m, concat_all(lists), 1024)
    &&& heavy_hitters(hh, m)
}

/// No codec of `stats` saw `tag` as a first byte.
pub open spec fn tag_free(stats: Seq<&DictionaryCodec>, tag: u8) -> bool {
    forall|s: int| 0 <= s < stats.len() ==> !(#[trigger] stats[s].tag_seen(tag))
}

/// Some codec of `stats` counts the key in its statistics.
pub open spec fn seen_by(stats: Seq<&DictionaryCodec>, key: Seq<int>) -> bool {
    exists|s: int| 0 <= s < stats.len() && key_sum((#[trigger] stats[s]).spec_stats(), key) != 0
}

/// Whether the dictionary gives `tag` to an entry.
pub open spec fn tag_used(dictionary: Seq<(Seq<u8>, u8)>, tag: u8) -> bool {
    exists|a: int| 0 <= a < dictionary.len() && (#[trigger] dictionary[a]).1 == tag
}

/// Bit `shift` of `a | b` is set where it is in `a` or in `b`.
proof fn lemma_or_bit(a: u64, b: u64, shift: u64)
    requires
        shift < 64,
    ensures
        (((a | b) >> shift) & 1u64 != 0u64) == (((a >> shift) & 1u64 != 0u64) || ((b >> shift) & 1u64 != 0u64)),
{
    assert((((a | b) >> shift) & 1u64 != 0u64) == (((a >> shift) & 1u64 != 0u64) || ((b >> shift) & 1u64 != 0u64))) by (bit_vector)
        requires
            shift < 64,
    ;
}

/// The bytes presented to the first `n` codecs of `stats`.
pub open spec fn total_presented(stats: Seq<&DictionaryCodec>, n: int) -> int
    decreases n,
{
    if n <= 0 {
        0
    } else {
        total_presented(stats, n - 1) + stats[n - 1].spec_total()
    }
}

/// Presented bytes only grow with more codecs.
proof fn lemma_total_presented_le(stats: Seq<&DictionaryCodec>, a: int, b: int)
    requires
        0 <= a <= b,
    ensures
        total_presented(stats, a) <= total_presented(stats, b),
    decreases b - a,
{
    if a < b {
        lemma_total_presented_le(stats, a, b - 1);
    }
}

/// The heavy hitters of a copy of a summary count no key more than the summary's bound.
proof fn lemma_list_sum_total<T: SortKey>(
    list: Seq<(T, usize)>,
    copy: Seq<(T, usize)>,
    orig: Seq<(T, usize)>,
    total: usize,
    k: Seq<int>,
)
    requires
        heavy_hitters(list, copy),
        same_keys(copy, orig),
        forall|k: Seq<int>| #[trigger] key_sum(orig, k) <= total,
    ensures
        key_sum(list, k) <= total,
{
    lemma_key_sum_distinct(list, k);
    if key_sum(list, k) != 0 {
        let a = choose|a: int| 0 <= a < list.len() && (#[trigger] list[a]).0.key() == k && key_sum(list, k) == list[a].1;
        lemma_same_keys_sum(copy, orig, k);
        assert(key_sum(orig, k) <= total);
    }
}

/// A heavy hitter of a summary of non-empty byte strings is not empty.
proof fn lemma_heavy_hitter_nonempty_list(list: Seq<(Vec<u8>, usize)>, input: Seq<(Vec<u8>, usize)>, j: int)
    requires
        heavy_hitters(list, input),
        forall|p: int| 0 <= p < input.len() ==> (#[trigger] input[p]).0@.len() > 0,
        0 <= j < list.len(),
    ensures
        list[j].0@.len() > 0,
{
    assert(list[j].1 != 0 && list[j].1 == key_sum(input, list[j].0.key()));
    lemma_key_sum_present(input, list[j].0.key());
    let p = choose|p: int| 0 <= p < input.len() && (#[trigger] input[p]).0.key() == list[j].0.key();
    assert(crate::order::bytes_key(list[j].0@).len() == list[j].0@.len());
    assert(crate::order::bytes_key(input[p].0@).len() == input[p].0@.len());
}

/// A heavy hitter of a copy of a summary of non-empty byte strings is not empty.
proof fn lemma_heavy_hitter_nonempty(
    list: Seq<(Vec<u8>, usize)>,
    copy: Seq<(Vec<u8>, usize)>,
    orig: Seq<(Vec<u8>, usize)>,
    j: int,
)
    requires
        heavy_hitters(list, copy),
        same_keys(copy, orig),
        forall|p: int| 0 <= p < orig.len() ==> (#[trigger] orig[p]).0@.len() > 0,
        0 <= j < list.len(),
    ensures
        list[j].0@.len() > 0,
{
    assert forall|p: int| 0 <= p < copy.len() implies (#[trigger] copy[p]).0@.len() > 0 by {
        assert(copy[p].0.key() == orig[p].0.key());
        assert(crate::order::bytes_key(copy[p].0@).len() == copy[p].0@.len());
        assert(crate::order::bytes_key(orig[p].0@).len() == orig[p].0@.len());
    }
    lemma_heavy_hitter_nonempty_list(list, copy, j);
}

/// The entries of a tidied summary have keys of the summary tidied.
proof fn lemma_tidied_keys<T: SortKey>(out: Seq<(T, usize)>, input: Seq<(T, usize)>, kk: int, a: int)
    requires
        tidied(out, input, kk),
        0 <= a < out.len(),
    ensures
        exists|p: int| 0 <= p < input.len() && (#[trigger] input[p]).0.key() == out[a].0.key(),
{
    let c = choose|c: Seq<(T, usize)>| #[trigger] heavy_hitters(c, input) && if c.len() > kk {
        out.len() == kk && forall|a: int|
            0 <= a < kk ==> (#[trigger] out[a]).0 == c[a].0 && out[a].1 == c[a].1 - (c[kk].1 - 1)
    } else {
        out == c
    };
    assert(out[a].0 == c[a].0);
    assert(c[a].1 != 0 && c[a].1 == key_sum(input, c[a].0.key()));
    lemma_key_sum_present(input, c[a].0.key());
}

/// A statistics entry has a key of what was recorded.
proof fn lemma_recorded_nonempty(
    out: Seq<(Vec<u8>, usize)>,
    input: Seq<(Vec<u8>, usize)>,
    kk: int,
)
    requires
        tidied(out, input, kk),
        forall|p: int| 0 <= p < input.len() ==> (#[trigger] input[p]).0@.len() > 0,
    ensures
        forall|a: int| 0 <= a < out.len() ==> (#[trigger] out[a]).0@.len() > 0,
{
    assert forall|a: int| 0 <= a < out.len() implies (#[trigger] out[a]).0@.len() > 0 by {
        lemma_tidied_keys(out, input, kk, a);
        let p = choose|p: int| 0 <= p < input.len() && (#[trigger] input[p]).0.key() == out[a].0.key();
        assert(crate::order::bytes_key(out[a].0@).len() == out[a].0@.len());
        assert(crate::order::bytes_key(input[p].0@).len() == input[p].0@.len());
    }
}

impl Codec for DictionaryCodec {
    open spec fn codec_wf(&self) -> bool {
        self.wf()
    }

    /// A stored byte string whose first byte is a tag of the dictionary decodes to the
    /// tag's entry; any other decodes to itself.
    open spec fn decoded(&self, stored: Seq<u8>) -> Seq<u8> {
        if stored.len() > 0 {
            match self.tag_entry(stored[0]) {
                Some(b) => b,
                None => stored,
            }
        } else {
            stored
        }
    }

    /// Bytes come back when they are in the dictionary or their first byte is no tag of it.
    open spec fn covers(&self, bytes: Seq<u8>) -> bool {
        bytes.len() > 0 && (self.in_dictionary(bytes) || self.tag_entry(bytes[0]) is None)
    }

    /// Encoding needs bytes, and the counts of bytes must not overflow.
    open spec fn can_encode(&self, bytes: Seq<u8>) -> bool {
        &&& bytes.len() > 0
        &&& self.spec_total() + bytes.len() <= usize::MAX
        &&& self.spec_bytes() + bytes.len() <= usize::MAX
    }

    /// The bytes presented to all codecs fit in a `usize`.
    open spec fn can_merge(stats: Seq<&Self>) -> bool {
        total_presented(stats, stats.len() as int) <= usize::MAX
    }

    /// An empty dictionary, no statistics, nothing counted.
    open spec fn is_new(&self) -> bool {
        &&& self.dictionary().len() == 0
        &&& self.spec_stats().len() == 0
        &&& self.spec_total() == 0
        &&& self.spec_bytes() == 0
        &&& forall|t: u8| !#[trigger] self.tag_seen(t)
    }

    fn new_codec() -> (r: Self) {
        Self::new()
    }

    fn decode<'a>(&'a self, bytes: &'a [u8]) -> (r: &'a [u8]) {
        if let Some(b) = self.decode.get(bytes[0] as usize) {
            b
        } else {
            bytes
        }
    }

    fn encode<R: Region<Value = Seq<u8>> + for<'b> Push<&'b [u8]>>(&mut self, bytes: &[u8], output: &mut R) -> (index: R::Index) {
        self.total = self.total + bytes.len();
        let found = self.lookup(bytes);
        let ghost dict = *self;
        let index = if let Some(b) = found {
            proof {
                let a = choose|a: int| 0 <= a < dict.encode@.len() && (#[trigger] dict.encode@[a]).0@ == bytes@ && dict.encode@[a].1 == b;
                assert(dict.tag_entry(b) == Some(bytes@));
            }
            self.bytes = self.bytes + 1;
            let tag: [u8; 1] = [b];
            let stored = tag.as_slice();
            assert(stored@ =~= seq![b]);
            let index = output.push(stored);
            assert(output.value_at(index) == seq![b]);
            assert(dict.decoded(seq![b]) == bytes@);
            index
        } else {
            self.bytes = self.bytes + bytes.len();
            let index = output.push(bytes);
            assert(output.value_at(index) == bytes@);
            assert(old(self).encode == dict.encode && old(self).decode == dict.decode);
            assert(old(self).dictionary() == dict.dictionary());
            assert(old(self).in_dictionary(bytes@) == dict.in_dictionary(bytes@));
            assert(old(self).covers(bytes@) ==> dict.decoded(bytes@) == bytes@);
            index
        };
        assert(old(self).covers(bytes@) ==> dict.decoded(output.value_at(index)) == bytes@);
        let mut owned: Vec<u8> = Vec::new();
        crate::impls::storage::push_slice(&mut owned, bytes);
        let ghost mg0 = self.stats.0@;
        proof {
            assert forall|p: int| 0 <= p < mg0.push((owned, 1usize)).len() implies key_sum(
                mg0.push((owned, 1usize)),
                (#[trigger] mg0.push((owned, 1usize))[p]).0.key(),
            ) <= usize::MAX by {
                lemma_key_sum_push(mg0, (owned, 1usize), mg0.push((owned, 1usize))[p].0.key());
            }
        }
        self.stats.0.insert(owned);
        proof {
            let pushed = mg0.push((owned, 1usize));
            assert forall|k: Seq<int>| #[trigger] key_sum(self.stats.0@, k) <= self.total by {
                lemma_key_sum_push(mg0, (owned, 1usize), k);
                if self.stats.0@ != pushed {
                    let kk = choose|kk: int| #[trigger] tidied(self.stats.0@, pushed, kk);
                    lemma_tidied_sums(self.stats.0@, pushed, kk, k);
                }
            }
            assert forall|p: int| 0 <= p < pushed.len() implies (#[trigger] pushed[p]).0@.len() > 0 by {
                if p < mg0.len() {
                    assert(pushed[p] == mg0[p]);
                }
            }
            if self.stats.0@ != pushed {
                let kk = choose|kk: int| #[trigger] tidied(self.stats.0@, pushed, kk);
                lemma_recorded_nonempty(self.stats.0@, pushed, kk);
            }
        }
        let tag = bytes[0];
        let tag_idx: usize = (tag % 4) as usize;
        assert(tag >> 2u8 < 64u8) by (bit_vector);
        let bit: u64 = 1u64 << (tag >> 2);
        self.stats.1[tag_idx] = self.stats.1[tag_idx] | bit;
        proof {
            assert(self.encode == dict.encode);
            assert(self.decode == dict.decode);
            assert(self.encode == old(self).encode);
            assert(self.decode == old(self).decode);
            assert(self.dictionary() == old(self).dictionary());
            assert forall|s: Seq<u8>| #[trigger] self.covers(s) == old(self).covers(s) by {
                assert(self.in_dictionary(s) == old(self).in_dictionary(s));
            }
        }
        index
    }

    /// A codec without statistics, whose dictionary gives free tags, in increasing order and
    /// lowest first, to byte strings that the statistics of `stats` saw.
    open spec fn built_from(&self, stats: Seq<&Self>) -> bool {
        &&& self.spec_stats().len() == 0
        &&& self.spec_total() == 0
        &&& self.spec_bytes() == 0
        &&& forall|a: int| 0 <= a < self.dictionary().len() ==> tag_free(stats, #[trigger] self.dictionary()[a].1)
        &&& forall|a: int, b: int|
            0 <= a < b < self.dictionary().len() ==> (#[trigger] self.dictionary()[a]).1 < (#[trigger] self.dictionary()[b]).1
        &&& forall|t1: u8, t2: u8|
            t1 < t2 && tag_free(stats, t1) && #[trigger] tag_used(self.dictionary(), t2) ==> #[trigger] tag_used(
                self.dictionary(),
                t1,
            )
        &&& forall|t: u8| #[trigger] self.tag_entry(t) is Some ==> tag_used(self.dictionary(), t)
        &&& forall|a: int|
            0 <= a < self.dictionary().len() ==> seen_by(stats, crate::order::bytes_key(#[trigger] self.dictionary()[a].0))
        &&& exists|lists: Seq<Seq<(Vec<u8>, usize)>>, m: Seq<(Vec<u8>, usize)>, hh: Seq<(Vec<u8>, usize)>|
            #[trigger] combined_heaviest(stats, lists, m, hh) && self.dictionary().len() <= hh.len() && (forall|a: int|
                0 <= a < self.dictionary().len() ==> crate::order::bytes_key(#[trigger] self.dictionary()[a].0) == hh[a].0.key())
                && (self.dictionary().len() == hh.len() || forall|t: u8| #[trigger] tag_free(stats, t) ==> tag_used(self.dictionary(), t))
    }

    /// A codec without statistics, whose dictionary gives the free tags, those no codec of
    /// `stats` saw as first bytes, in increasing order to the heaviest entries of the
    /// combined statistics, until either runs out.
    fn new_from(stats: &[&Self]) -> (r: Self)
        ensures
            r.spec_stats().len() == 0,
            r.spec_total() == 0,
            r.spec_bytes() == 0,
            forall|a: int| 0 <= a < r.dictionary().len() ==> tag_free(stats@, #[trigger] r.dictionary()[a].1),
            forall|a: int, b: int|
                0 <= a < b < r.dictionary().len() ==> (#[trigger] r.dictionary()[a]).1 < (#[trigger] r.dictionary()[b]).1,
            forall|t1: u8, t2: u8|
                t1 < t2 && tag_free(stats@, t1) && #[trigger] tag_used(r.dictionary(), t2) ==> #[trigger] tag_used(
                    r.dictionary(),
                    t1,
                ),
            forall|t: u8| #[trigger] r.tag_entry(t) is Some ==> tag_used(r.dictionary(), t),
            forall|a: int|
                0 <= a < r.dictionary().len() ==> seen_by(stats@, crate::order::bytes_key(#[trigger] r.dictionary()[a].0)),
    {
        let mut mg: MisraGries<Vec<u8>> = MisraGries::new();
        let mut i: usize = 0;
        let ghost mut lists: Seq<Seq<(Vec<u8>, usize)>> = Seq::empty();
        proof {
            lemma_summarizes_empty::<Vec<u8>>(1024);
            assert(concat_all(lists) =~= Seq::<(Vec<u8>, usize)>::empty());
        }
        while i < stats.len()
            invariant
                mg.limit() == 1024,
                lists.len() == i,
                forall|s: int| 0 <= s < i ==> heavy_hitters(#[trigger] lists[s], stats@[s].spec_stats()),
                summarizes(mg@, concat_all(lists), 1024),
                0 <= i <= stats@.len(),
                forall|j: int| 0 <= j < stats@.len() ==> (#[trigger] stats@[j]).codec_wf(),
                total_presented(stats@, stats@.len() as int) <= usize::MAX,
                forall|k: Seq<int>| #[trigger] key_sum(mg@, k) <= total_presented(stats@, i as int),
                forall|p: int| 0 <= p < mg@.len() ==> (#[trigger] mg@[p]).0@.len() > 0,
                forall|p: int| 0 <= p < mg@.len() ==> seen_by(stats@, (#[trigger] mg@[p]).0.key()),
            decreases stats@.len() - i,
        {
            let region = stats[i];
            let copy = region.stats.0.copy();
            proof {
                assert forall|p: int| 0 <= p < copy@.len() implies key_sum(copy@, (#[trigger] copy@[p]).0.key())
                    <= usize::MAX by {
                    lemma_same_keys_sum(copy@, region.stats.0@, copy@[p].0.key());
                    lemma_total_presented_le(stats@, i + 1, stats@.len() as int);
                }
            }
            let list = copy.done();
            proof {
                assert(heavy_hitters(list@, copy@));
                lemma_total_presented_le(stats@, i + 1, stats@.len() as int);
            }
            let mut j: usize = 0;
            let ghost mut pres: Seq<(Vec<u8>, usize)> = Seq::empty();
            proof {
                assert(concat_all(lists) + pres =~= concat_all(lists));
            }
            while j < list.len()
                invariant
                    0 <= j <= list@.len(),
                    mg.limit() == 1024,
                    pres.len() == j,
                    forall|a: int| 0 <= a < j ==> (#[trigger] pres[a]).0.key() == list@[a].0.key() && pres[a].1 == list@[a].1,
                    summarizes(mg@, concat_all(lists) + pres, 1024),
                    0 <= i < stats@.len(),
                    region == stats@[i as int],
                    region.codec_wf(),
                    heavy_hitters(list@, copy@),
                    same_keys(copy@, region.stats.0@),
                    total_presented(stats@, i + 1) <= usize::MAX,
                    forall|k: Seq<int>| #[trigger] key_sum(mg@, k) <= total_presented(stats@, i as int) + key_sum(list@.subrange(0, j as int), k),
                    forall|p: int| 0 <= p < mg@.len() ==> (#[trigger] mg@[p]).0@.len() > 0,
                    forall|p: int| 0 <= p < mg@.len() ==> seen_by(stats@, (#[trigger] mg@[p]).0.key()),
                decreases list@.len() - j,
            {
                let thing = list[j].0.key_clone();
                let count = list[j].1;
                let ghost before = mg@;
                proof {
                    assert forall|p: int| 0 <= p < before.push((thing, count)).len() implies key_sum(
                        before.push((thing, count)),
                        (#[trigger] before.push((thing, count))[p]).0.key(),
                    ) <= usize::MAX by {
                        let k = before.push((thing, count))[p].0.key();
                        lemma_key_sum_push(before, (thing, count), k);
                        lemma_key_sum_extend(list@, j as int, k);
                        lemma_key_sum_split(list@, j + 1, k);
                        lemma_list_sum_total(list@, copy@, region.stats.0@, region.total, k);
                    }
                }
                mg.update(thing, count);
                proof {
                    let pushed = before.push((thing, count));
                    lemma_summarizes_push(before, concat_all(lists) + pres, (thing, count), mg@, 1024);
                    assert((concat_all(lists) + pres).push((thing, count)) =~= concat_all(lists) + pres.push((thing, count)));
                    assert(pres.push((thing, count))[j as int] == (thing, count));
                    assert forall|a: int| 0 <= a < j + 1 implies (#[trigger] pres.push((thing, count))[a]).0.key() == list@[a].0.key()
                        && pres.push((thing, count))[a].1 == list@[a].1 by {
                        if a < j {
                            assert(pres.push((thing, count))[a] == pres[a]);
                        }
                    }
                    pres = pres.push((thing, count));
                    assert forall|k: Seq<int>| #[trigger] key_sum(mg@, k) <= total_presented(stats@, i as int) + key_sum(list@.subrange(0, j + 1), k) by {
                        lemma_key_sum_push(before, (thing, count), k);
                        lemma_key_sum_extend(list@, j as int, k);
                        if mg@ != pushed {
                            let kk = choose|kk: int| #[trigger] tidied(mg@, pushed, kk);
                            lemma_tidied_sums(mg@, pushed, kk, k);
                        }
                    }
                    lemma_heavy_hitter_nonempty(list@, copy@, region.stats.0@, j as int);
                    assert forall|p: int| 0 <= p < pushed.len() implies (#[trigger] pushed[p]).0@.len() > 0 by {
                        if p < before.len() {
                            assert(pushed[p] == before[p]);
                        } else {
                            assert(crate::order::bytes_key(thing@).len() == thing@.len());
                            assert(crate::order::bytes_key(list@[j as int].0@).len() == list@[j as int].0@.len());
                        }
                    }
                    if mg@ != pushed {
                        let kk = choose|kk: int| #[trigger] tidied(mg@, pushed, kk);
                        lemma_recorded_nonempty(mg@, pushed, kk);
                    }
                    assert(seen_by(stats@, list@[j as int].0.key())) by {
                        lemma_same_keys_sum(copy@, region.stats.0@, list@[j as int].0.key());
                        assert(key_sum(stats@[i as int].spec_stats(), list@[j as int].0.key()) != 0);
                    }
                    assert forall|p: int| 0 <= p < pushed.len() implies seen_by(stats@, (#[trigger] pushed[p]).0.key()) by {
                        if p < before.len() {
                            assert(pushed[p] == before[p]);
                        } else {
                            assert(crate::order::bytes_key(thing@) == crate::order::bytes_key(list@[j as int].0@));
                        }
                    }
                    assert forall|p: int| 0 <= p < mg@.len() implies seen_by(stats@, (#[trigger] mg@[p]).0.key()) by {
                        if mg@ != pushed {
                            let kk = choose|kk: int| #[trigger] tidied(mg@, pushed, kk);
                            lemma_tidied_keys(mg@, pushed, kk, p);
                            let q = choose|q: int| 0 <= q < pushed.len() && (#[trigger] pushed[q]).0.key() == mg@[p].0.key();
                            assert(seen_by(stats@, pushed[q].0.key()));
                        }
                    }
                }
                j = j + 1;
            }
            proof {
                assert(list@.subrange(0, list@.len() as int) =~= list@);
                assert forall|k: Seq<int>| #[trigger] key_sum(mg@, k) <= total_presented(stats@, i + 1) by {
                    lemma_list_sum_total(list@, copy@, region.stats.0@, region.total, k);
                }
                lemma_heavy_hitters_same_keys(list@, copy@, region.stats.0@);
                lemma_heavy_hitters_rekey(list@, pres, region.stats.0@);
                let old_lists = lists;
                lists = lists.push(pres);
                assert(lists.drop_last() == old_lists);
                assert(concat_all(lists) == concat_all(old_lists) + pres);
                assert forall|s: int| 0 <= s < i + 1 implies heavy_hitters(#[trigger] lists[s], stats@[s].spec_stats()) by {
                    if s < i {
                        assert(lists[s] == old_lists[s]);
                    }
                }
            }
            i = i + 1;
        }
        proof {
            lemma_total_presented_le(stats@, stats@.len() as int, stats@.len() as int);
        }
        let ghost m = mg@;
        let list = mg.done();
        let mut encode: Vec<(Vec<u8>, u8)> = Vec::new();
        let mut decode = BytesMap::new();
        let mut next: usize = 0;
        let mut tag: u32 = 0;
        while tag < 256
            invariant
                tag <= 256,
                next <= list@.len(),
                decode.wf(),
                heavy_hitters(list@, mg@),
                forall|p: int| 0 <= p < mg@.len() ==> (#[trigger] mg@[p]).0@.len() > 0,
                next < list@.len() ==> decode@.len() == tag,
                decode@.len() <= tag,
                encode@.len() == next,
                forall|a: int| 0 <= a < next ==> (#[trigger] encode@[a]).0.key() == list@[a].0.key(),
                forall|a: int|
                    0 <= a < encode@.len() ==> (#[trigger] encode@[a]).0@.len() > 0 && (encode@[a].1 as int) < decode@.len()
                        && decode@[encode@[a].1 as int] == Some(encode@[a].0@),
                forall|a: int| 0 <= a < encode@.len() ==> tag_free(stats@, (#[trigger] encode@[a]).1) && encode@[a].1 < tag,
                forall|p: int| 0 <= p < mg@.len() ==> seen_by(stats@, (#[trigger] mg@[p]).0.key()),
                forall|a: int| 0 <= a < encode@.len() ==> seen_by(stats@, (#[trigger] encode@[a]).0.key()),
                forall|a: int, b: int| 0 <= a < b < encode@.len() ==> (#[trigger] encode@[a]).1 < (#[trigger] encode@[b]).1,
                forall|t: u8| (t as u32) < tag && tag_free(stats@, t) && !(#[trigger] tag_used(dictionary_of(encode@), t))
                    ==> next == list@.len(),
                forall|t1: u8, t2: u8|
                    t1 < t2 && tag_free(stats@, t1) && #[trigger] tag_used(dictionary_of(encode@), t2) ==> #[trigger] tag_used(
                        dictionary_of(encode@),
                        t1,
                    ),
                forall|t: int| 0 <= t < decode@.len() && (#[trigger] decode@[t]) is Some ==> tag_used(dictionary_of(encode@), t as u8),
            decreases 256 - tag,
        {
            let tag_idx: usize = (tag % 4) as usize;
            assert(tag < 256u32 ==> tag >> 2u32 < 64u32) by (bit_vector);
            let shift: u64 = (tag >> 2) as u64;
            let ghost t8 = tag as u8;
            proof {
                assert(tag < 256u32 ==> (tag as u8) % 4u8 == (tag % 4u32) as u8 && ((tag as u8) >> 2u8) as u64 == (tag >> 2u32) as u64) by (bit_vector);
            }
            let mut or: u64 = 0;
            assert((0u64 >> shift) & 1u64 == 0u64) by (bit_vector);
            let mut s: usize = 0;
            while s < stats.len()
                invariant
                    0 <= s <= stats@.len(),
                    tag_idx < 4,
                    tag_idx == t8 % 4,
                    shift == (t8 >> 2u8) as u64,
                    shift < 64,
                    ((or >> shift) & 1u64 != 0u64) == exists|j: int| 0 <= j < s && #[trigger] stats@[j].tag_seen(t8),
                decreases stats@.len() - s,
            {
                let w = stats[s].stats.1[tag_idx];
                proof {
                    lemma_or_bit(or, w, shift);
                    assert(stats@[s as int].tag_seen(t8) == ((w >> shift) & 1u64 != 0u64));
                    if (or >> shift) & 1u64 != 0u64 {
                        let j = choose|j: int| 0 <= j < s && #[trigger] stats@[j].tag_seen(t8);
                        assert(0 <= j < s + 1 && stats@[j].tag_seen(t8));
                    }
                    if (w >> shift) & 1u64 != 0u64 {
                        assert(stats@[s as int].tag_seen(t8));
                    }
                }
                or = or | w;
                s = s + 1;
            }
            let ghost e0 = encode@;
            let ghost d0 = decode@;
            if (or >> shift) & 0x01 != 0 {
                proof {
                    let j = choose|j: int| 0 <= j < stats@.len() && #[trigger] stats@[j].tag_seen(t8);
                    assert(!tag_free(stats@, t8));
                }
                decode.push(None);
                proof {
                    assert forall|t: int| 0 <= t < decode@.len() && (#[trigger] decode@[t]) is Some implies tag_used(dictionary_of(encode@), t as u8) by {
                        assert(decode@[t] == d0[t]);
                    }
                    assert forall|a: int| 0 <= a < encode@.len() implies (#[trigger] encode@[a]).0@.len() > 0 && (encode@[a].1 as int) < decode@.len()
                        && decode@[encode@[a].1 as int] == Some(encode@[a].0@) by {
                        assert(decode@[encode@[a].1 as int] == d0[encode@[a].1 as int]);
                    }
                }
            } else if next < list.len() {
                proof {
                    lemma_heavy_hitter_nonempty_list(list@, mg@, next as int);
                    assert(tag_free(stats@, t8));
                    lemma_key_sum_present(mg@, list@[next as int].0.key());
                    let q = choose|q: int| 0 <= q < mg@.len() && (#[trigger] mg@[q]).0.key() == list@[next as int].0.key();
                    assert(seen_by(stats@, mg@[q].0.key()));
                }
                decode.push(Some(list[next].0.as_slice()));
                let word = list[next].0.key_clone();
                proof {
                    crate::order::lemma_bytes_key_injective(word@, list@[next as int].0@);
                    assert(decode@[tag as int] == Some(word@));
                    assert forall|a: int| 0 <= a < encode@.len() implies decode@[encode@[a].1 as int] == d0[encode@[a].1 as int] by {
                    }
                }
                encode.push((word, tag as u8));
                proof {
                    let dict = dictionary_of(encode@);
                    let dict0 = dictionary_of(e0);
                    assert(dict == dict0.push((word@, t8)));
                    assert(dict[next as int].1 == t8);
                    assert(tag_used(dict, t8));
                    assert forall|t: u8| #[trigger] tag_used(dict0, t) implies tag_used(dict, t) by {
                        let a = choose|a: int| 0 <= a < dict0.len() && (#[trigger] dict0[a]).1 == t;
                        assert(dict[a] == dict0[a]);
                    }
                    assert forall|t: u8| #[trigger] tag_used(dict, t) && t != t8 implies tag_used(dict0, t) by {
                        let a = choose|a: int| 0 <= a < dict.len() && (#[trigger] dict[a]).1 == t;
                        assert(a < dict0.len());
                        assert(dict0[a] == dict[a]);
                    }
                    assert forall|t: int| 0 <= t < decode@.len() && (#[trigger] decode@[t]) is Some implies tag_used(dict, t as u8) by {
                        if t < d0.len() {
                            assert(decode@[t] == d0[t]);
                            assert(tag_used(dict0, t as u8));
                        } else {
                            assert(t == tag);
                            assert(t as u8 == t8);
                        }
                    }
                    assert forall|t: u8| (t as u32) < tag + 1 && tag_free(stats@, t) && !(#[trigger] tag_used(dict, t))
                        implies next + 1 == list@.len() by {
                        if t == t8 {
                        } else {
                            assert(!tag_used(dict0, t));
                        }
                    }
                    assert forall|t1: u8, t2: u8|
                        t1 < t2 && tag_free(stats@, t1) && #[trigger] tag_used(dict, t2) implies #[trigger] tag_used(dict, t1) by {
                        if t2 == t8 {
                            if !tag_used(dict0, t1) {
                                assert((t1 as u32) < tag);
                            }
                        } else {
                            assert(tag_used(dict0, t2));
                            assert(tag_used(dict0, t1));
                        }
                    }
                }
                next = next + 1;
            }
            tag = tag + 1;
        }
        let r = DictionaryCodec {
            encode,
            decode,
            stats: (MisraGries::new(), [0u64; 4]),
            bytes: 0,
            total: 0,
        };
        proof {
            assert forall|a: int, b: int| 0 <= a < b < r.encode@.len() implies (#[trigger] r.encode@[a]).0@ != (#[trigger] r.encode@[b]).0@ by {
                assert(list@[a].0.key() != list@[b].0.key());
            }
            assert forall|k: Seq<int>| #[trigger] key_sum(r.stats.0@, k) <= r.total by {
            }
            let dict = r.dictionary();
            assert(combined_heaviest(stats@, lists, m, list@));
            assert(sorted_by_weight(list@));
            assert forall|a: int| 0 <= a < dict.len() implies crate::order::bytes_key(#[trigger] dict[a].0) == list@[a].0.key() by {
                assert(dict[a].0 == r.encode@[a].0@);
            }
            if next != list@.len() {
                assert forall|t: u8| #[trigger] tag_free(stats@, t) implies tag_used(dict, t) by {
                    assert((t as u32) < tag);
                }
            }
        }
        r
    }

    /// The dictionary codec reports no allocations.
    open spec fn codec_heap(&self) -> Seq<usize> {
        Seq::empty()
    }

    /// The codec does not report its allocations.
    fn heap_size(&self, sizes: &mut Vec<(usize, usize)>) {
        proof {
            crate::lemma_reports_none(sizes@);
        }
    }
}

impl Default for DictionaryCodec {
    fn default() -> (r: Self)
        ensures
            r.wf(),
    {
        Self::new()
    }
}

/// A region that encodes its data in a codec `C`.
///
/// Its regions cannot always be merged, as merging combines the codecs' statistics, so it
/// offers the operations of a region as methods of its own.
pub struct CodecRegion<C: Codec> {
    inner: OwnedRegion<u8>,
    codec: C,
}

/// The codecs of `regions`.
pub open spec fn codecs_of<C: Codec>(regions: Seq<&CodecRegion<C>>) -> Seq<&C> {
    regions.map_values(|r: &CodecRegion<C>| &r.spec_codec())
}

impl<C: Codec> CodecRegion<C> {
    /// The codec.
    pub closed spec fn spec_codec(&self) -> C {
        self.codec
    }

    /// The region holding the encoded bytes.
    pub closed spec fn spec_inner(&self) -> OwnedRegion<u8> {
        self.inner
    }

    /// The codec is well formed.
    pub open spec fn wf(&self) -> bool {
        self.spec_codec().codec_wf()
    }

    /// An index designates stored bytes, which are never empty.
    pub open spec fn valid(&self, index: (usize, usize)) -> bool {
        self.spec_inner().valid(index) && self.spec_inner().value_at(index).len() > 0
    }

    /// The bytes at `index`: the stored bytes, decoded.
    pub open spec fn value_at(&self, index: (usize, usize)) -> Seq<u8> {
        self.spec_codec().decoded(self.spec_inner().value_at(index))
    }

    /// Returns an empty region.
    pub fn new() -> (r: Self)
        ensures
            r.wf(),
    {
        CodecRegion { inner: OwnedRegion::new(), codec: C::new_codec() }
    }

    /// Construct a region that can absorb the contents of `regions` in the future, with a
    /// codec built from their statistics.
    pub fn merge_regions(regions: &[&Self]) -> (r: Self)
        requires
            forall|i: int| 0 <= i < regions@.len() ==> (#[trigger] regions@[i]).wf(),
            C::can_merge(codecs_of(regions@)),
        ensures
            r.wf(),
            r.spec_codec().built_from(codecs_of(regions@)),
            r.spec_inner().holds_nothing(),
    {
        let mut codecs: Vec<&C> = Vec::new();
        let mut inners: Vec<&OwnedRegion<u8>> = Vec::new();
        let mut i: usize = 0;
        while i < regions.len()
            invariant
                0 <= i <= regions@.len(),
                forall|j: int| 0 <= j < regions@.len() ==> (#[trigger] regions@[j]).wf(),
                codecs@.len() == i,
                inners@.len() == i,
                forall|j: int| 0 <= j < i ==> #[trigger] codecs@[j] == &regions@[j].spec_codec(),
            decreases regions@.len() - i,
        {
            codecs.push(&regions[i].codec);
            inners.push(&regions[i].inner);
            i = i + 1;
        }
        proof {
            assert(codecs@ =~= codecs_of(regions@));
        }
        let codec = C::new_from(codecs.as_slice());
        CodecRegion { inner: OwnedRegion::merge_regions(inners.as_slice()), codec }
    }

    /// The decoded bytes at `index`.
    pub fn index(&self, index: (usize, usize)) -> (r: &[u8])
        requires
            self.wf(),
            self.valid(index),
        ensures
            r@ == self.value_at(index),
    {
        self.codec.decode(self.inner.index(index))
    }

    /// Ensure that the region can absorb the items of `regions` without reallocation.
    pub fn reserve_regions(&mut self, regions: &[&Self])
        ensures
            final(self).spec_codec() == old(self).spec_codec(),
            final(self).spec_inner()@ == old(self).spec_inner()@,
    {
        let mut inners: Vec<&OwnedRegion<u8>> = Vec::new();
        let mut i: usize = 0;
        while i < regions.len()
            invariant
                0 <= i <= regions@.len(),
                inners@.len() == i,
            decreases regions@.len() - i,
        {
            inners.push(&regions[i].inner);
            i = i + 1;
        }
        self.inner.reserve_regions(inners.as_slice());
    }

    /// Resets the codec; the stored bytes stay.
    pub fn clear(&mut self)
        ensures
            final(self).wf(),
            final(self).spec_inner() == old(self).spec_inner(),
            final(self).spec_codec().is_new(),
    {
        self.codec = C::new_codec();
    }

    /// Appends one `(size, capacity)` pair for each allocation of the stored bytes, then
    /// those the codec reports.
    pub fn heap_size(&self, sizes: &mut Vec<(usize, usize)>)
        ensures
            crate::reports(old(sizes)@, final(sizes)@, self.spec_inner().heap_used() + self.spec_codec().codec_heap()),
    {
        let ghost s0 = sizes@;
        self.inner.heap_size(sizes);
        let ghost s1 = sizes@;
        self.codec.heap_size(sizes);
        proof {
            crate::lemma_reports_chain(s0, s1, sizes@, self.inner.heap_used(), self.codec.codec_heap());
        }
    }

    /// Encodes `item`, returning the index of the stored bytes.
    ///
    /// When the codec covers `item`, the index reads back `item`.
    pub fn push(&mut self, item: &[u8]) -> (index: (usize, usize))
        requires
            old(self).wf(),
            old(self).spec_codec().can_encode(item@),
        ensures
            final(self).wf(),
            final(self).valid(index),
            old(self).spec_codec().covers(item@) ==> final(self).value_at(index) == item@,
            forall|s: Seq<u8>| #[trigger] final(self).spec_codec().covers(s) == old(self).spec_codec().covers(s),
            forall|i: (usize, usize)| #[trigger] old(self).valid(i) ==> final(self).valid(i) && final(self).value_at(i) == old(self).value_at(i),
    {
        let index = self.codec.encode(item, &mut self.inner);
        index
    }
}

impl<C: Codec> Default for CodecRegion<C> {
    fn default() -> (r: Self)
        ensures
            r.wf(),
    {
        Self::new()
    }
}

} // verus!
