//! Consolidating regions.
//!
//! Consolidation is difficult in flat containers because:
//! * Sorting data is an odd operation. We can only permute the indexes, but
//!   not the region that resolve indexes.
//! * Permuting the index prevents sequential access through regions, which
//!   slows down scanning the data.
//! * It is the user's choice to destroy an existing sequential index or not.
//! * The actual consolidation needs to copy data to release data from regions. Or,
//!   it sits on inaccessible data until it's dropped, which may not be so bad.
use vstd::prelude::*;

use crate::impls::deduplicate::PushEq;
use crate::impls::mirror::MirrorRegion;
use crate::impls::storage::slice_swap;
use crate::impls::tuple::TupleABRegion;
use crate::order::{lemma_lex_asymmetric, lemma_lex_irreflexive, lemma_lex_singleton, lemma_lex_total, lemma_lex_transitive, lex_lt};
use crate::{FlatStack, Push, Region};

verus! {

/// A region whose values can be compared through their indices.
pub trait OrdRegion: Region {
    /// The sequence of integers by which values are ordered; equal for equal values only.
    spec fn value_key(v: Self::Value) -> Seq<int>;

    /// Values with the same key are the same value.
    proof fn lemma_value_key_injective(a: Self::Value, b: Self::Value)
        ensures
            Self::value_key(a) == Self::value_key(b) ==> a == b,
    ;

    /// Returns whether the value at `a` sorts strictly before the value at `b`.
    fn index_lt(&self, a: Self::Index, b: Self::Index) -> (r: bool)
        requires
            self.wf(),
            self.valid(a),
            self.valid(b),
        ensures
            r == lex_lt(Self::value_key(self.value_at(a)), Self::value_key(self.value_at(b))),
    ;

    /// Returns whether the values at `a` and `b` are equal.
    fn index_eq(&self, a: Self::Index, b: Self::Index) -> (r: bool)
        requires
            self.wf(),
            self.valid(a),
            self.valid(b),
        ensures
            r == (self.value_at(a) == self.value_at(b)),
    ;
}

impl OrdRegion for MirrorRegion<u8> {
    open spec fn value_key(v: u8) -> Seq<int> {
        seq![v as int]
    }

    proof fn lemma_value_key_injective(a: u8, b: u8) {
        if seq![a as int] == seq![b as int] {
            assert(seq![a as int][0] == seq![b as int][0]);
        }
    }

    fn index_lt(&self, a: u8, b: u8) -> (r: bool) {
        proof {
            lemma_lex_singleton(a as int, b as int);
        }
        a < b
    }

    fn index_eq(&self, a: u8, b: u8) -> (r: bool) {
        a == b
    }
}

impl OrdRegion for MirrorRegion<u32> {
    open spec fn value_key(v: u32) -> Seq<int> {
        seq![v as int]
    }

    proof fn lemma_value_key_injective(a: u32, b: u32) {
        if seq![a as int] == seq![b as int] {
            assert(seq![a as int][0] == seq![b as int][0]);
        }
    }

    fn index_lt(&self, a: u32, b: u32) -> (r: bool) {
        proof {
            lemma_lex_singleton(a as int, b as int);
        }
        a < b
    }

    fn index_eq(&self, a: u32, b: u32) -> (r: bool) {
        a == b
    }
}

impl OrdRegion for MirrorRegion<u64> {
    open spec fn value_key(v: u64) -> Seq<int> {
        seq![v as int]
    }

    proof fn lemma_value_key_injective(a: u64, b: u64) {
        if seq![a as int] == seq![b as int] {
            assert(seq![a as int][0] == seq![b as int][0]);
        }
    }

    fn index_lt(&self, a: u64, b: u64) -> (r: bool) {
        proof {
            lemma_lex_singleton(a as int, b as int);
        }
        a < b
    }

    fn index_eq(&self, a: u64, b: u64) -> (r: bool) {
        a == b
    }
}

impl OrdRegion for MirrorRegion<i64> {
    open spec fn value_key(v: i64) -> Seq<int> {
        seq![v as int]
    }

    proof fn lemma_value_key_injective(a: i64, b: i64) {
        if seq![a as int] == seq![b as int] {
            assert(seq![a as int][0] == seq![b as int][0]);
        }
    }

    fn index_lt(&self, a: i64, b: i64) -> (r: bool) {
        proof {
            lemma_lex_singleton(a as int, b as int);
        }
        a < b
    }

    fn index_eq(&self, a: i64, b: i64) -> (r: bool) {
        a == b
    }
}

impl<'b> PushEq<&'b u8> for MirrorRegion<u8> {
    fn item_eq(&self, item: &&'b u8, index: u8) -> (r: bool) {
        **item == index
    }
}

impl<'b> PushEq<&'b u32> for MirrorRegion<u32> {
    fn item_eq(&self, item: &&'b u32, index: u32) -> (r: bool) {
        **item == index
    }
}

impl<'b> PushEq<&'b u64> for MirrorRegion<u64> {
    fn item_eq(&self, item: &&'b u64, index: u64) -> (r: bool) {
        **item == index
    }
}

impl<'b> PushEq<&'b i64> for MirrorRegion<i64> {
    fn item_eq(&self, item: &&'b i64, index: i64) -> (r: bool) {
        **item == index
    }
}

/// The key of the first component of a value with a difference.
pub open spec fn diff_key<R: OrdRegion>(v: (R::Value, i64)) -> Seq<int> {
    R::value_key(v.0)
}

/// The values with a difference in `s` whose key is `k`, in order.
pub open spec fn key_filter<R: OrdRegion>(s: Seq<(R::Value, i64)>, k: Seq<int>) -> Seq<(R::Value, i64)> {
    s.filter(|v: (R::Value, i64)| diff_key::<R>(v) == k)
}

/// `s` is in order of the keys of its values.
pub open spec fn sorted_by_value<R: OrdRegion>(s: Seq<(R::Value, i64)>) -> bool {
    forall|a: int, b: int| 0 <= a < b < s.len() ==> !lex_lt(diff_key::<R>(#[trigger] s[b]), diff_key::<R>(#[trigger] s[a]))
}

/// What is emitted for a finished run: the value with its summed difference, unless zero.
pub open spec fn emit<V>(cur: (V, int)) -> Seq<(V, int)> {
    if cur.1 != 0 {
        seq![cur]
    } else {
        Seq::empty()
    }
}

/// The runs of equal values of `s` from `i` on, the first continuing the run `cur`, each
/// summed and dropped where the sum is zero.
pub open spec fn collapse_from<V>(s: Seq<(V, i64)>, i: int, cur: (V, int)) -> Seq<(V, int)>
    decreases s.len() - i,
{
    if i >= s.len() {
        emit(cur)
    } else if s[i].0 == cur.0 {
        collapse_from(s, i + 1, (cur.0, cur.1 + s[i].1))
    } else {
        emit(cur) + collapse_from(s, i + 1, (s[i].0, s[i].1 as int))
    }
}

/// Each run of equal values of `s`, with its differences summed; runs that sum to zero
/// are dropped.
pub open spec fn collapsed<V>(s: Seq<(V, i64)>) -> Seq<(V, int)> {
    if s.len() == 0 {
        Seq::empty()
    } else {
        collapse_from(s, 1, (s[0].0, s[0].1 as int))
    }
}

/// The partial sums of the runs of `s` from `i` on, the first continuing `cur`, fit in `i64`.
pub open spec fn sums_fit_from<V>(s: Seq<(V, i64)>, i: int, cur: (V, int)) -> bool
    decreases s.len() - i,
{
    if i >= s.len() {
        true
    } else if s[i].0 == cur.0 {
        i64::MIN <= cur.1 + s[i].1 <= i64::MAX && sums_fit_from(s, i + 1, (cur.0, cur.1 + s[i].1))
    } else {
        sums_fit_from(s, i + 1, (s[i].0, s[i].1 as int))
    }
}

/// The partial sums of the runs of `s` fit in `i64`.
pub open spec fn run_sums_fit<V>(s: Seq<(V, i64)>) -> bool {
    s.len() == 0 || sums_fit_from(s, 1, (s[0].0, s[0].1 as int))
}

/// Values with differences as integers.
pub open spec fn diffs_as_int<V>(s: Seq<(V, i64)>) -> Seq<(V, int)> {
    s.map_values(|e: (V, i64)| (e.0, e.1 as int))
}

/// The summed differences of the items of `s` whose value is `v`.
pub open spec fn value_total<V>(s: Seq<(V, int)>, v: V) -> int
    decreases s.len(),
{
    if s.len() == 0 {
        0
    } else {
        value_total(s.drop_last(), v) + if s.last().0 == v {
            s.last().1
        } else {
            0
        }
    }
}

/// The total of `v` over two sequences one after the other is the sum of their totals.
pub proof fn lemma_value_total_concat<V>(a: Seq<(V, int)>, b: Seq<(V, int)>, v: V)
    ensures
        value_total(a + b, v) == value_total(a, v) + value_total(b, v),
    decreases b.len(),
{
    if b.len() == 0 {
        assert(a + b =~= a);
    } else {
        lemma_value_total_concat(a, b.drop_last(), v);
        assert((a + b).drop_last() =~= a + b.drop_last());
    }
}

/// The total of `v` over a single item.
pub proof fn lemma_value_total_single<V>(x: (V, int), v: V)
    ensures
        value_total(seq![x], v) == if x.0 == v {
            x.1
        } else {
            0
        },
{
    assert(seq![x].drop_last() =~= Seq::<(V, int)>::empty());
    assert(seq![x].last() == x);
    assert(value_total(Seq::<(V, int)>::empty(), v) == 0);
}

/// Collapsing the runs from `i` on, continuing `cur`, keeps the total of every value.
proof fn lemma_collapse_from_totals<V>(s: Seq<(V, i64)>, i: int, cur: (V, int), v: V)
    requires
        0 <= i <= s.len(),
    ensures
        value_total(collapse_from(s, i, cur), v) == (if cur.0 == v {
            cur.1
        } else {
            0
        }) + value_total(diffs_as_int(s).skip(i), v),
    decreases s.len() - i,
{
    let t = diffs_as_int(s);
    lemma_value_total_single(cur, v);
    if i >= s.len() {
        assert(t.skip(i) =~= Seq::<(V, int)>::empty());
        if cur.1 == 0 {
            assert(emit(cur) =~= Seq::<(V, int)>::empty());
        } else {
            assert(emit(cur) =~= seq![cur]);
        }
    } else {
        assert(t.skip(i) =~= seq![t[i]] + t.skip(i + 1));
        lemma_value_total_concat(seq![t[i]], t.skip(i + 1), v);
        lemma_value_total_single(t[i], v);
        if s[i].0 == cur.0 {
            lemma_collapse_from_totals(s, i + 1, (cur.0, cur.1 + s[i].1), v);
        } else {
            lemma_collapse_from_totals(s, i + 1, (s[i].0, s[i].1 as int), v);
            lemma_value_total_concat(emit(cur), collapse_from(s, i + 1, (s[i].0, s[i].1 as int)), v);
            if cur.1 == 0 {
                assert(emit(cur) =~= Seq::<(V, int)>::empty());
            } else {
                assert(emit(cur) =~= seq![cur]);
            }
        }
    }
}

/// Collapsing keeps, for every value, the sum of its differences: a run whose differences
/// sum to zero is dropped, and every other run, whatever the sign of its sum, stays with
/// that sum.
pub proof fn law_collapsed_keeps_totals<V>(s: Seq<(V, i64)>, v: V)
    ensures
        value_total(collapsed(s), v) == value_total(diffs_as_int(s), v),
{
    if s.len() > 0 {
        let t = diffs_as_int(s);
        lemma_collapse_from_totals(s, 1, (s[0].0, s[0].1 as int), v);
        assert(t =~= seq![t[0]] + t.skip(1));
        lemma_value_total_concat(seq![t[0]], t.skip(1), v);
        lemma_value_total_single(t[0], v);
    } else {
        assert(diffs_as_int(s) =~= Seq::<(V, int)>::empty());
    }
}

/// Items emitted from the runs from `i` on, continuing `cur`, carry nonzero differences.
proof fn lemma_collapse_from_nonzero<V>(s: Seq<(V, i64)>, i: int, cur: (V, int))
    requires
        0 <= i <= s.len(),
    ensures
        forall|k: int| 0 <= k < collapse_from(s, i, cur).len() ==> (#[trigger] collapse_from(s, i, cur)[k]).1 != 0,
    decreases s.len() - i,
{
    if i >= s.len() {
        assert(collapse_from(s, i, cur) == emit(cur));
        if cur.1 == 0 {
            assert(emit(cur) =~= Seq::<(V, int)>::empty());
        } else {
            assert(emit(cur) =~= seq![cur]);
            assert(emit(cur)[0] == cur);
        }
    } else if s[i].0 == cur.0 {
        assert(collapse_from(s, i, cur) == collapse_from(s, i + 1, (cur.0, cur.1 + s[i].1)));
        lemma_collapse_from_nonzero(s, i + 1, (cur.0, cur.1 + s[i].1));
    } else {
        let rest = collapse_from(s, i + 1, (s[i].0, s[i].1 as int));
        assert(collapse_from(s, i, cur) == emit(cur) + rest);
        lemma_collapse_from_nonzero(s, i + 1, (s[i].0, s[i].1 as int));
        if cur.1 == 0 {
            assert(emit(cur) =~= Seq::<(V, int)>::empty());
            assert(emit(cur) + rest =~= rest);
        } else {
            assert(emit(cur) =~= seq![cur]);
            assert forall|k: int| 0 <= k < (emit(cur) + rest).len() implies (#[trigger] (emit(cur) + rest)[k]).1 != 0 by {
                if k == 0 {
                    assert((emit(cur) + rest)[k] == cur);
                } else {
                    assert((emit(cur) + rest)[k] == rest[k - 1]);
                }
            }
        }
    }
}

/// No item of a collapsed sequence has a zero difference.
pub proof fn law_collapsed_nonzero<V>(s: Seq<(V, i64)>)
    ensures
        forall|k: int| 0 <= k < collapsed(s).len() ==> (#[trigger] collapsed(s)[k]).1 != 0,
{
    if s.len() > 0 {
        lemma_collapse_from_nonzero(s, 1, (s[0].0, s[0].1 as int));
    }
}

/// The runs of a sorted sequence from `i` on, continuing the run of `s[i - 1]`, come out
/// in strictly increasing order of their values, none before the run's value.
proof fn lemma_collapse_from_sorted<R: OrdRegion>(s: Seq<(R::Value, i64)>, i: int, cur: (R::Value, int))
    requires
        1 <= i <= s.len(),
        sorted_by_value::<R>(s),
        cur.0 == s[i - 1].0,
    ensures
        forall|a: int, b: int|
            0 <= a < b < collapse_from(s, i, cur).len() ==> lex_lt(
                R::value_key((#[trigger] collapse_from(s, i, cur)[a]).0),
                R::value_key((#[trigger] collapse_from(s, i, cur)[b]).0),
            ),
        forall|a: int|
            0 <= a < collapse_from(s, i, cur).len() ==> !lex_lt(
                R::value_key((#[trigger] collapse_from(s, i, cur)[a]).0),
                R::value_key(cur.0),
            ),
    decreases s.len() - i,
{
    let kc = R::value_key(cur.0);
    lemma_lex_irreflexive(kc);
    if i >= s.len() {
        assert(collapse_from(s, i, cur) == emit(cur));
        if cur.1 == 0 {
            assert(emit(cur) =~= Seq::<(R::Value, int)>::empty());
        } else {
            assert(emit(cur) =~= seq![cur]);
            assert(emit(cur)[0] == cur);
        }
    } else if s[i].0 == cur.0 {
        assert(collapse_from(s, i, cur) == collapse_from(s, i + 1, (cur.0, cur.1 + s[i].1)));
        lemma_collapse_from_sorted::<R>(s, i + 1, (cur.0, cur.1 + s[i].1));
    } else {
        let nx = (s[i].0, s[i].1 as int);
        let rest = collapse_from(s, i + 1, nx);
        assert(collapse_from(s, i, cur) == emit(cur) + rest);
        lemma_collapse_from_sorted::<R>(s, i + 1, nx);
        let kn = R::value_key(s[i].0);
        assert(!lex_lt(diff_key::<R>(s[i]), diff_key::<R>(s[i - 1])));
        R::lemma_value_key_injective(s[i].0, cur.0);
        lemma_lex_total(kc, kn);
        assert(lex_lt(kc, kn));
        assert forall|b: int| 0 <= b < rest.len() implies lex_lt(kc, R::value_key((#[trigger] rest[b]).0)) by {
            let kb = R::value_key(rest[b].0);
            lemma_lex_total(kn, kb);
            if kb != kn {
                lemma_lex_transitive(kc, kn, kb);
            }
        }
        let out = emit(cur) + rest;
        if cur.1 == 0 {
            assert(emit(cur) =~= Seq::<(R::Value, int)>::empty());
            assert(out =~= rest);
            assert forall|a: int| 0 <= a < out.len() implies !lex_lt(R::value_key((#[trigger] out[a]).0), kc) by {
                lemma_lex_asymmetric(kc, R::value_key(rest[a].0));
            }
        } else {
            assert(emit(cur) =~= seq![cur]);
            assert forall|a: int, b: int| 0 <= a < b < out.len() implies lex_lt(
                R::value_key((#[trigger] out[a]).0),
                R::value_key((#[trigger] out[b]).0),
            ) by {
                assert(out[b] == rest[b - 1]);
                if a == 0 {
                    assert(out[a] == cur);
                } else {
                    assert(out[a] == rest[a - 1]);
                }
            }
            assert forall|a: int| 0 <= a < out.len() implies !lex_lt(R::value_key((#[trigger] out[a]).0), kc) by {
                if a == 0 {
                    assert(out[a] == cur);
                } else {
                    assert(out[a] == rest[a - 1]);
                    lemma_lex_asymmetric(kc, R::value_key(rest[a - 1].0));
                }
            }
        }
    }
}

/// Collapsing a sorted sequence gives each value at most once, in increasing order.
pub proof fn law_collapsed_sorted_distinct<R: OrdRegion>(s: Seq<(R::Value, i64)>)
    requires
        sorted_by_value::<R>(s),
    ensures
        forall|a: int, b: int|
            0 <= a < b < collapsed(s).len() ==> lex_lt(
                R::value_key((#[trigger] collapsed(s)[a]).0),
                R::value_key((#[trigger] collapsed(s)[b]).0),
            ),
{
    if s.len() > 0 {
        lemma_collapse_from_sorted::<R>(s, 1, (s[0].0, s[0].1 as int));
    }
}

/// Swapping two neighbours with different keys keeps the values of each key in order.
proof fn lemma_filter_swap<R: OrdRegion>(s: Seq<(R::Value, i64)>, j: int, k: Seq<int>)
    requires
        0 < j < s.len(),
        diff_key::<R>(s[j - 1]) != diff_key::<R>(s[j]),
    ensures
        key_filter::<R>(s.update(j - 1, s[j]).update(j, s[j - 1]), k) == key_filter::<R>(s, k),
{
    let pred = |v: (R::Value, i64)| diff_key::<R>(v) == k;
    let t = s.update(j - 1, s[j]).update(j, s[j - 1]);
    let p = s.subrange(0, j - 1);
    let q = s.subrange(j + 1, s.len() as int);
    let x = s[j - 1];
    let y = s[j];
    assert(s =~= p + seq![x] + seq![y] + q);
    assert(t =~= p + seq![y] + seq![x] + q);
    Seq::filter_distributes_over_add(p + seq![x] + seq![y], q, pred);
    Seq::filter_distributes_over_add(p + seq![x], seq![y], pred);
    Seq::filter_distributes_over_add(p, seq![x], pred);
    Seq::filter_distributes_over_add(p + seq![y] + seq![x], q, pred);
    Seq::filter_distributes_over_add(p + seq![y], seq![x], pred);
    Seq::filter_distributes_over_add(p, seq![y], pred);
    reveal_with_fuel(Seq::filter, 2);
    assert(seq![x].drop_last() =~= Seq::<(R::Value, i64)>::empty());
    assert(seq![y].drop_last() =~= Seq::<(R::Value, i64)>::empty());
    assert(Seq::<(R::Value, i64)>::empty().filter(pred) =~= Seq::<(R::Value, i64)>::empty());
    if pred(x) {
        assert(!pred(y));
        assert(seq![x].filter(pred) =~= seq![x]);
        assert(seq![y].filter(pred) =~= Seq::<(R::Value, i64)>::empty());
    } else if pred(y) {
        assert(seq![y].filter(pred) =~= seq![y]);
        assert(seq![x].filter(pred) =~= Seq::<(R::Value, i64)>::empty());
    } else {
        assert(seq![x].filter(pred) =~= Seq::<(R::Value, i64)>::empty());
        assert(seq![y].filter(pred) =~= Seq::<(R::Value, i64)>::empty());
    }
}

/// A stack of indices into a region that can be sorted and consolidated.
pub struct Consolidating<R: Region> {
    region: R,
    indices: Vec<R::Index>,
}

impl<R: Region> Consolidating<R> where R::Index: Copy {
    /// The region is well formed and every index is valid in it.
    pub closed spec fn wf(&self) -> bool {
        &&& self.region.wf()
        &&& forall|i: int| 0 <= i < self.indices@.len() ==> self.region.valid(#[trigger] self.indices@[i])
    }

    /// The region.
    pub closed spec fn spec_region(&self) -> R {
        self.region
    }

    /// The indices.
    pub closed spec fn spec_indices(&self) -> Seq<R::Index> {
        self.indices@
    }

    /// The values of the items, in order.
    pub closed spec fn view(&self) -> Seq<R::Value> {
        Seq::new(self.indices@.len(), |i: int| self.region.value_at(self.indices@[i]))
    }

    /// The stack that holds the region and indices of `stack`.
    pub closed spec fn spec_from_stack(stack: FlatStack<R>) -> Self {
        Consolidating { region: stack.spec_region(), indices: stack.spec_indices() }
    }

    /// Returns an empty stack.
    pub fn new() -> (r: Self)
        ensures
            r.wf(),
            r@ == Seq::<R::Value>::empty(),
    {
        let r = Consolidating { region: R::new_region(), indices: Vec::new() };
        assert(r@ =~= Seq::<R::Value>::empty());
        r
    }

    /// Takes over the region and indices of `stack`.
    pub fn from_flat_stack(stack: FlatStack<R>) -> (r: Self)
        ensures
            r == Self::spec_from_stack(stack),
            stack.wf() ==> r.wf() && r@ == stack@,
    {
        proof {
            stack.lemma_wf_parts();
        }
        let (region, indices) = stack.into_parts();
        let r = Consolidating { region, indices };
        assert(stack.wf() ==> r@ =~= stack@);
        r
    }

    /// Returns the element at the `offset` position.
    pub fn get(&self, offset: usize) -> (r: R::ReadItem<'_>)
        requires
            self.wf(),
            offset < self@.len(),
        ensures
            R::item_value(r) == self@[offset as int],
    {
        self.region.index(self.indices[offset])
    }

    /// Returns the number of indices in the stack.
    pub fn len(&self) -> (r: usize)
        ensures
            r == self@.len(),
    {
        self.indices.len()
    }

    /// Returns `true` if the stack holds no indices.
    pub fn is_empty(&self) -> (r: bool)
        ensures
            r == (self@.len() == 0),
    {
        self.indices.len() == 0
    }

    /// Turns the consolidating stack into a flat stack of the same region and indices.
    pub fn into_flat_stack(self) -> (r: FlatStack<R>)
        ensures
            r.spec_region() == self.spec_region(),
            r.spec_indices()@ == self.spec_indices(),
            self.wf() ==> r.wf() && r@ == self@,
    {
        let r = FlatStack::from_parts(self.region, self.indices);
        proof {
            r.lemma_wf_parts();
            assert(self.wf() ==> r@ =~= self@);
        }
        r
    }

    /// Iterate the items in this stack.
    pub fn iter(&self) -> (r: Iter<'_, R>)
        ensures
            r.stack() == *self,
            r.position() == 0,
    {
        Iter { stack: self, position: 0 }
    }
}

impl<R: Region> Default for Consolidating<R> where R::Index: Copy {
    fn default() -> (r: Self)
        ensures
            r.wf(),
            r@ == Seq::<R::Value>::empty(),
    {
        Self::new()
    }
}

impl<R: Region> From<FlatStack<R>> for Consolidating<R> where R::Index: Copy {
    fn from(stack: FlatStack<R>) -> (r: Self) {
        Self::from_flat_stack(stack)
    }
}

impl<R: Region> vstd::std_specs::convert::FromSpecImpl<FlatStack<R>> for Consolidating<R> where R::Index: Copy {
    open spec fn obeys_from_spec() -> bool {
        true
    }

    open spec fn from_spec(v: FlatStack<R>) -> Self {
        Consolidating::<R>::spec_from_stack(v)
    }
}

impl<R: OrdRegion + 'static> Consolidating<TupleABRegion<R, MirrorRegion<i64>>> where R::Index: Copy {
    /// Sorts the items by their values, keeping the order of items with equal values.
    pub fn sort(&mut self)
        requires
            old(self).wf(),
        ensures
            final(self).wf(),
            final(self).spec_region() == old(self).spec_region(),
            sorted_by_value::<R>(final(self)@),
            forall|k: Seq<int>| #[trigger] key_filter::<R>(final(self)@, k) == key_filter::<R>(old(self)@, k),
    {
        let n = self.indices.len();
        if n < 2 {
            return ;
        }
        let mut i: usize = 1;
        while i < n
            invariant
                1 <= i <= n,
                n == self.indices@.len(),
                self.wf(),
                self.region == old(self).region,
                forall|a: int, b: int| 0 <= a < b < i ==> !lex_lt(diff_key::<R>(#[trigger] self@[b]), diff_key::<R>(#[trigger] self@[a])),
                forall|k: Seq<int>| #[trigger] key_filter::<R>(self@, k) == key_filter::<R>(old(self)@, k),
            decreases n - i,
        {
            let mut j: usize = i;
            while j > 0 && self.region.region_a().index_lt(self.indices[j].0, self.indices[j - 1].0)
                invariant
                    0 <= j <= i < n,
                    n == self.indices@.len(),
                    self.wf(),
                    self.region == old(self).region,
                    forall|a: int, b: int|
                        0 <= a < b <= i && a != j && b != j ==> !lex_lt(diff_key::<R>(#[trigger] self@[b]), diff_key::<R>(#[trigger] self@[a])),
                    forall|b: int| j < b <= i ==> lex_lt(diff_key::<R>(self@[j as int]), diff_key::<R>(#[trigger] self@[b])),
                    forall|k: Seq<int>| #[trigger] key_filter::<R>(self@, k) == key_filter::<R>(old(self)@, k),
                decreases j,
            {
                let ghost before = self@;
                let ghost before_indices = self.indices@;
                slice_swap(self.indices.as_mut_slice(), j - 1, j);
                proof {
                    assert(self@ =~= before.update(j - 1, before[j as int]).update(j as int, before[j - 1]));
                    assert forall|x: int| 0 <= x < self.indices@.len() implies self.region.valid(#[trigger] self.indices@[x]) by {
                        if x == j - 1 {
                            assert(self.indices@[x] == before_indices[j as int]);
                        } else if x == j {
                            assert(self.indices@[x] == before_indices[j - 1]);
                        } else {
                            assert(self.indices@[x] == before_indices[x]);
                        }
                    }
                    let kx = diff_key::<R>(before[j as int]);
                    let ky = diff_key::<R>(before[j - 1]);
                    lemma_lex_irreflexive(kx);
                    assert forall|k: Seq<int>| #[trigger] key_filter::<R>(self@, k) == key_filter::<R>(old(self)@, k) by {
                        lemma_filter_swap::<R>(before, j as int, k);
                    }
                    assert forall|b: int| j - 1 < b <= i implies lex_lt(diff_key::<R>(self@[j - 1]), diff_key::<R>(#[trigger] self@[b])) by {
                        if b > j {
                            assert(lex_lt(kx, diff_key::<R>(before[b])));
                        }
                    }
                    assert forall|a: int, b: int|
                        0 <= a < b <= i && a != j - 1 && b != j - 1 implies !lex_lt(diff_key::<R>(#[trigger] self@[b]), diff_key::<R>(#[trigger] self@[a])) by {
                        if b == j {
                            assert(self@[b] == before[j - 1]);
                            assert(self@[a] == before[a]);
                        } else if a == j {
                            assert(self@[a] == before[j - 1]);
                            assert(self@[b] == before[b]);
                        } else {
                            assert(self@[a] == before[a] && self@[b] == before[b]);
                        }
                    }
                }
                j = j - 1;
            }
            proof {
                assert forall|a: int, b: int| 0 <= a < b <= i implies !lex_lt(diff_key::<R>(#[trigger] self@[b]), diff_key::<R>(#[trigger] self@[a])) by {
                    let ka = diff_key::<R>(self@[a]);
                    let kb = diff_key::<R>(self@[b]);
                    let kj = diff_key::<R>(self@[j as int]);
                    if b == j {
                        if a < j - 1 {
                            let kp = diff_key::<R>(self@[j - 1]);
                            lemma_lex_total(ka, kp);
                            lemma_lex_total(kp, kj);
                            if lex_lt(kj, ka) {
                                if ka != kp {
                                    lemma_lex_transitive(kj, ka, kp);
                                }
                            }
                        }
                    } else if a == j {
                        lemma_lex_asymmetric(kj, kb);
                    } else if a < j && j < b {
                        lemma_lex_asymmetric(kj, kb);
                        if lex_lt(kb, ka) {
                            if j > 0 {
                                let kp = diff_key::<R>(self@[j - 1]);
                                if a < j - 1 {
                                    lemma_lex_total(ka, kp);
                                    if ka != kp {
                                        lemma_lex_transitive(kb, ka, kp);
                                    }
                                }
                                lemma_lex_transitive(kj, kb, kp);
                                lemma_lex_asymmetric(kj, kp);
                            }
                        }
                    }
                }
            }
            i = i + 1;
        }
    }

    /// Consolidate a sorted representation: each run of equal values becomes one item with
    /// the sum of the run's differences, dropped where the sum is zero.
    pub fn consolidate(&self) -> (r: Self)
        where R: Push<<R as Region>::Owned>
        requires
            self.wf(),
            run_sums_fit(self@),
            forall|o: <R as Region>::Owned| #[trigger] R::pushed_value(o) == R::owned_value(o),
            forall|r: R, o: <R as Region>::Owned| #[trigger] r.push_requires(o),
        ensures
            r.wf(),
            diffs_as_int(r@) == collapsed(self@),
            forall|v: R::Value| #[trigger] value_total(diffs_as_int(r@), v) == value_total(diffs_as_int(self@), v),
            forall|k: int| 0 <= k < r@.len() ==> (#[trigger] r@[k]).1 != 0,
            sorted_by_value::<R>(self@) ==> forall|a: int, b: int|
                0 <= a < b < r@.len() ==> lex_lt(R::value_key((#[trigger] r@[a]).0), R::value_key((#[trigger] r@[b]).0)),
    {
        let r = self.consolidate_runs();
        proof {
            if sorted_by_value::<R>(self@) {
                law_collapsed_sorted_distinct::<R>(self@);
                assert forall|a: int, b: int| 0 <= a < b < r@.len() implies lex_lt(
                    R::value_key((#[trigger] r@[a]).0),
                    R::value_key((#[trigger] r@[b]).0),
                ) by {
                    assert(diffs_as_int(r@)[a] == collapsed(self@)[a]);
                    assert(diffs_as_int(r@)[b] == collapsed(self@)[b]);
                }
            }
            assert forall|v: R::Value| #[trigger] value_total(diffs_as_int(r@), v) == value_total(diffs_as_int(self@), v) by {
                law_collapsed_keeps_totals(self@, v);
            }
            law_collapsed_nonzero(self@);
            assert forall|k: int| 0 <= k < r@.len() implies (#[trigger] r@[k]).1 != 0 by {
                assert(diffs_as_int(r@)[k] == collapsed(self@)[k]);
            }
        }
        r
    }

    /// Each run of equal values becomes one item with the run's summed difference, dropped
    /// where the sum is zero.
    fn consolidate_runs(&self) -> (r: Self)
        where R: Push<<R as Region>::Owned>
        requires
            self.wf(),
            run_sums_fit(self@),
            forall|o: <R as Region>::Owned| #[trigger] R::pushed_value(o) == R::owned_value(o),
            forall|r: R, o: <R as Region>::Owned| #[trigger] r.push_requires(o),
        ensures
            r.wf(),
            diffs_as_int(r@) == collapsed(self@),
    {
        let mut new = Self::new();
        let n = self.indices.len();
        if n == 0 {
            proof {
                assert(diffs_as_int(new@) =~= collapsed(self@));
            }
            return new;
        }
        let ghost s = self@;
        let mut reference: (R::Index, i64) = self.indices[0];
        let mut index: usize = 1;
        proof {
            assert(diffs_as_int(new@) =~= Seq::<(R::Value, int)>::empty());
            assert(Seq::<(R::Value, int)>::empty() + collapsed(s) =~= collapsed(s));
        }
        while index < n
            invariant
                1 <= index <= n,
                n == self.indices@.len() == s.len(),
                s == self@,
                self.wf(),
                new.wf(),
                self.region.spec_a().valid(reference.0),
                forall|o: <R as Region>::Owned| #[trigger] R::pushed_value(o) == R::owned_value(o),
                forall|r: R, o: <R as Region>::Owned| #[trigger] r.push_requires(o),
                diffs_as_int(new@) + collapse_from(s, index as int, (self.region.spec_a().value_at(reference.0), reference.1 as int)) == collapsed(s),
                sums_fit_from(s, index as int, (self.region.spec_a().value_at(reference.0), reference.1 as int)),
            decreases n - index,
        {
            let (item, d) = self.indices[index];
            let ghost cur = (self.region.spec_a().value_at(reference.0), reference.1 as int);
            assert(self.region.valid(self.indices@[index as int]));
            assert(s[index as int] == (self.region.spec_a().value_at(item), d));
            if self.region.region_a().index_eq(reference.0, item) {
                reference.1 = reference.1 + d;
            } else {
                if reference.1 != 0 {
                    let owned = R::item_to_owned(self.region.region_a().index(reference.0));
                    let ghost before = new@;
                    let pushed = new.region.push((owned, reference.1));
                    new.indices.push(pushed);
                    proof {
                        assert(new@ =~= before.push((cur.0, reference.1)));
                        assert(diffs_as_int(new@) =~= diffs_as_int(before) + emit(cur));
                    }
                } else {
                    proof {
                        assert(emit(cur) =~= Seq::<(R::Value, int)>::empty());
                        assert(diffs_as_int(new@) + emit(cur) =~= diffs_as_int(new@));
                    }
                }
                proof {
                    assert(diffs_as_int(new@) + collapse_from(s, index + 1, (s[index as int].0, d as int)) =~= collapsed(s));
                }
                reference = (item, d);
            }
            index = index + 1;
        }
        let ghost cur = (self.region.spec_a().value_at(reference.0), reference.1 as int);
        if reference.1 != 0 {
            let owned = R::item_to_owned(self.region.region_a().index(reference.0));
            let ghost before = new@;
            let pushed = new.region.push((owned, reference.1));
            new.indices.push(pushed);
            proof {
                assert(new@ =~= before.push((cur.0, reference.1)));
                assert(diffs_as_int(new@) =~= diffs_as_int(before) + emit(cur));
            }
        } else {
            proof {
                assert(diffs_as_int(new@) + emit(cur) =~= diffs_as_int(new@));
            }
        }
        new
    }

    /// Appends `item`, or adds its difference to the last item when that has the same value,
    /// dropping the last item when its difference becomes zero.
    pub fn copy<'p, A>(&mut self, item: &'p (A, i64))
        where R: PushEq<&'p A>
        requires
            old(self).wf(),
            old(self).spec_region().spec_a().push_requires(&item.0),
            old(self)@.len() < usize::MAX,
            old(self)@.len() > 0 && old(self)@.last().0 == R::pushed_value(&item.0) ==> i64::MIN <= old(self)@.last().1 + item.1 <= i64::MAX,
        ensures
            final(self).wf(),
            final(self)@ == copied(old(self)@, R::pushed_value(&item.0), item.1),
            forall|k: int| 0 <= k < old(self)@.len() - 1 ==> #[trigger] final(self)@[k] == old(self)@[k],
            old(self)@.len() > 0 && old(self)@.last().0 == R::pushed_value(&item.0) && old(self)@.last().1 + item.1 == 0
                ==> final(self)@.len() == old(self)@.len() - 1,
            old(self)@.len() > 0 && old(self)@.last().0 == R::pushed_value(&item.0) && old(self)@.last().1 + item.1 != 0
                ==> final(self)@.len() == old(self)@.len() && final(self)@.last().0 == R::pushed_value(&item.0)
                && final(self)@.last().1 == old(self)@.last().1 + item.1,
            !(old(self)@.len() > 0 && old(self)@.last().0 == R::pushed_value(&item.0)) ==> final(self)@ == old(self)@.push(
                (R::pushed_value(&item.0), item.1),
            ),
    {
        proof {
            law_copied(old(self)@, R::pushed_value(&item.0), item.1);
        }
        let n = self.indices.len();
        if n > 0 {
            let (region_index, diff) = self.indices[n - 1];
            assert(self.region.valid(self.indices@[n - 1]));
            if self.region.region_a().item_eq(&&item.0, region_index) {
                let new_diff = diff + item.1;
                let ghost before = self@;
                self.indices.set(n - 1, (region_index, new_diff));
                if new_diff == 0 {
                    self.indices.pop();
                    proof {
                        assert(self@ =~= before.drop_last());
                    }
                } else {
                    proof {
                        assert(self@ =~= before.drop_last().push((before.last().0, new_diff)));
                    }
                }
                return ;
            }
        }
        let ghost before = self@;
        let index = self.region.push(item);
        self.indices.push(index);
        proof {
            assert forall|x: int| 0 <= x < self.indices@.len() implies self.region.valid(#[trigger] self.indices@[x]) by {
            }
            assert(self@ =~= before.push((R::pushed_value(&item.0), item.1)));
        }
    }
}

/// What [`Consolidating::copy`] makes of `s` for a value `v` with difference `d`.
pub open spec fn copied<V>(s: Seq<(V, i64)>, v: V, d: i64) -> Seq<(V, i64)> {
    if s.len() > 0 && s.last().0 == v {
        if s.last().1 + d == 0 {
            s.drop_last()
        } else {
            s.drop_last().push((v, (s.last().1 + d) as i64))
        }
    } else {
        s.push((v, d))
    }
}

/// Copying onto a stack keeps every item but the last. When the last item has the copied
/// value, whatever the signs of the differences, the stack does not grow: the last item
/// takes the summed difference, or goes where that sum is zero. Otherwise the copied value
/// and difference are appended.
pub proof fn law_copied<V>(s: Seq<(V, i64)>, v: V, d: i64)
    requires
        s.len() > 0 && s.last().0 == v ==> i64::MIN <= s.last().1 + d <= i64::MAX,
    ensures
        forall|k: int| 0 <= k < s.len() - 1 ==> #[trigger] copied(s, v, d)[k] == s[k],
        s.len() > 0 && s.last().0 == v && s.last().1 + d == 0 ==> copied(s, v, d).len() == s.len() - 1,
        s.len() > 0 && s.last().0 == v && s.last().1 + d != 0 ==> copied(s, v, d).len() == s.len() && copied(s, v, d).last() == (
            v,
            (s.last().1 + d) as i64,
        ) && copied(s, v, d).last().1 == s.last().1 + d,
        !(s.len() > 0 && s.last().0 == v) ==> copied(s, v, d) == s.push((v, d)),
{
    if s.len() > 0 && s.last().0 == v {
        assert forall|k: int| 0 <= k < s.len() - 1 implies #[trigger] copied(s, v, d)[k] == s[k] by {
            if s.last().1 + d == 0 {
                assert(copied(s, v, d) == s.drop_last());
            } else {
                assert(copied(s, v, d) == s.drop_last().push((v, (s.last().1 + d) as i64)));
            }
        }
    } else {
        assert forall|k: int| 0 <= k < s.len() - 1 implies #[trigger] copied(s, v, d)[k] == s[k] by {
            assert(copied(s, v, d) == s.push((v, d)));
        }
    }
}

/// An iterator over [`Consolidating`]. It yields [`Region::ReadItem`] elements, which
/// it obtains by looking up indices.
pub struct Iter<'a, R: Region> {
    stack: &'a Consolidating<R>,
    position: usize,
}

impl<'a, R: Region> Iter<'a, R> where R::Index: Copy {
    /// The stack being iterated.
    pub closed spec fn stack(&self) -> Consolidating<R> {
        *self.stack
    }

    /// The position of the next item.
    pub closed spec fn position(&self) -> nat {
        self.position as nat
    }

    /// Returns the next item, if any.
    pub fn next(&mut self) -> (r: Option<R::ReadItem<'a>>)
        requires
            old(self).stack().wf(),
        ensures
            final(self).stack() == old(self).stack(),
            old(self).position() < old(self).stack()@.len() ==> {
                &&& r.is_some()
                &&& R::item_value(r.unwrap()) == old(self).stack()@[old(self).position() as int]
                &&& final(self).position() == old(self).position() + 1
            },
            old(self).position() >= old(self).stack()@.len() ==> r.is_none() && final(self).position() == old(self).position(),
    {
        if self.position < self.stack.len() {
            let item = self.stack.get(self.position);
            self.position = self.position + 1;
            Some(item)
        } else {
            None
        }
    }
}

} // verus!
