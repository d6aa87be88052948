//! A region that negates on read.
//!
//! There is no [`Push`][crate::Push] implementation because it is not clearly defined
//! what it would indicate with respect to negating on read.
use vstd::prelude::*;

use crate::impls::mirror::MirrorRegion;
use crate::impls::offsets::OffsetContainer;
use crate::impls::tuple::{TupleABCRegion, TupleABRegion};
use crate::{FlatStack, Region};

verus! {

/// A region that presents the items of its inner region negated.
pub struct Negate<R>(R);

impl<R: Region> Negate<R> {
    /// The inner region.
    pub closed spec fn inner(&self) -> R {
        self.0
    }
}

impl<R: Region> Default for Negate<R> {
    fn default() -> (r: Self)
        ensures
            r.inner().wf(),
            r.inner().fresh(),
    {
        Negate(R::new_region())
    }
}

/// A value that can be negated: a tuple whose last component is a signed integer.
pub trait Negatable: Sized {
    /// The type of the negated value.
    type N;

    /// Whether negating does not overflow.
    spec fn negatable(&self) -> bool;

    /// The negated value.
    spec fn negated(&self) -> Self::N;

    /// Negates the value.
    fn negate(self) -> (r: Self::N)
        requires
            self.negatable(),
        ensures
            r == self.negated(),
    ;
}

impl<A> Negatable for (A, i8) {
    type N = (A, i8);

    /// Every value but the least can be negated.
    open spec fn negatable(&self) -> bool {
        self.1 != i8::MIN
    }

    open spec fn negated(&self) -> (A, i8) {
        (self.0, (-self.1) as i8)
    }

    fn negate(self) -> (r: (A, i8))
        ensures
            r.0 == self.0,
            r.1 == -self.1,
    {
        (self.0, -self.1)
    }
}

impl<A, B> Negatable for (A, B, i8) {
    type N = (A, B, i8);

    /// Every value but the least can be negated.
    open spec fn negatable(&self) -> bool {
        self.2 != i8::MIN
    }

    open spec fn negated(&self) -> (A, B, i8) {
        (self.0, self.1, (-self.2) as i8)
    }

    fn negate(self) -> (r: (A, B, i8))
        ensures
            r.0 == self.0,
            r.1 == self.1,
            r.2 == -self.2,
    {
        (self.0, self.1, -self.2)
    }
}

impl<A> Negatable for (A, i16) {
    type N = (A, i16);

    /// Every value but the least can be negated.
    open spec fn negatable(&self) -> bool {
        self.1 != i16::MIN
    }

    open spec fn negated(&self) -> (A, i16) {
        (self.0, (-self.1) as i16)
    }

    fn negate(self) -> (r: (A, i16))
        ensures
            r.0 == self.0,
            r.1 == -self.1,
    {
        (self.0, -self.1)
    }
}

impl<A, B> Negatable for (A, B, i16) {
    type N = (A, B, i16);

    /// Every value but the least can be negated.
    open spec fn negatable(&self) -> bool {
        self.2 != i16::MIN
    }

    open spec fn negated(&self) -> (A, B, i16) {
        (self.0, self.1, (-self.2) as i16)
    }

    fn negate(self) -> (r: (A, B, i16))
        ensures
            r.0 == self.0,
            r.1 == self.1,
            r.2 == -self.2,
    {
        (self.0, self.1, -self.2)
    }
}

impl<A> Negatable for (A, i32) {
    type N = (A, i32);

    /// Every value but the least can be negated.
    open spec fn negatable(&self) -> bool {
        self.1 != i32::MIN
    }

    open spec fn negated(&self) -> (A, i32) {
        (self.0, (-self.1) as i32)
    }

    fn negate(self) -> (r: (A, i32))
        ensures
            r.0 == self.0,
            r.1 == -self.1,
    {
        (self.0, -self.1)
    }
}

impl<A, B> Negatable for (A, B, i32) {
    type N = (A, B, i32);

    /// Every value but the least can be negated.
    open spec fn negatable(&self) -> bool {
        self.2 != i32::MIN
    }

    open spec fn negated(&self) -> (A, B, i32) {
        (self.0, self.1, (-self.2) as i32)
    }

    fn negate(self) -> (r: (A, B, i32))
        ensures
            r.0 == self.0,
            r.1 == self.1,
            r.2 == -self.2,
    {
        (self.0, self.1, -self.2)
    }
}

impl<A> Negatable for (A, i64) {
    type N = (A, i64);

    /// Every value but the least can be negated.
    open spec fn negatable(&self) -> bool {
        self.1 != i64::MIN
    }

    open spec fn negated(&self) -> (A, i64) {
        (self.0, (-self.1) as i64)
    }

    fn negate(self) -> (r: (A, i64))
        ensures
            r.0 == self.0,
            r.1 == -self.1,
    {
        (self.0, -self.1)
    }
}

impl<A, B> Negatable for (A, B, i64) {
    type N = (A, B, i64);

    /// Every value but the least can be negated.
    open spec fn negatable(&self) -> bool {
        self.2 != i64::MIN
    }

    open spec fn negated(&self) -> (A, B, i64) {
        (self.0, self.1, (-self.2) as i64)
    }

    fn negate(self) -> (r: (A, B, i64))
        ensures
            r.0 == self.0,
            r.1 == self.1,
            r.2 == -self.2,
    {
        (self.0, self.1, -self.2)
    }
}

impl<A> Negatable for (A, i128) {
    type N = (A, i128);

    /// Every value but the least can be negated.
    open spec fn negatable(&self) -> bool {
        self.1 != i128::MIN
    }

    open spec fn negated(&self) -> (A, i128) {
        (self.0, (-self.1) as i128)
    }

    fn negate(self) -> (r: (A, i128))
        ensures
            r.0 == self.0,
            r.1 == -self.1,
    {
        (self.0, -self.1)
    }
}

impl<A, B> Negatable for (A, B, i128) {
    type N = (A, B, i128);

    /// Every value but the least can be negated.
    open spec fn negatable(&self) -> bool {
        self.2 != i128::MIN
    }

    open spec fn negated(&self) -> (A, B, i128) {
        (self.0, self.1, (-self.2) as i128)
    }

    fn negate(self) -> (r: (A, B, i128))
        ensures
            r.0 == self.0,
            r.1 == self.1,
            r.2 == -self.2,
    {
        (self.0, self.1, -self.2)
    }
}

impl<A> Negatable for (A, isize) {
    type N = (A, isize);

    /// Every value but the least can be negated.
    open spec fn negatable(&self) -> bool {
        self.1 != isize::MIN
    }

    open spec fn negated(&self) -> (A, isize) {
        (self.0, (-self.1) as isize)
    }

    fn negate(self) -> (r: (A, isize))
        ensures
            r.0 == self.0,
            r.1 == -self.1,
    {
        (self.0, -self.1)
    }
}

impl<A, B> Negatable for (A, B, isize) {
    type N = (A, B, isize);

    /// Every value but the least can be negated.
    open spec fn negatable(&self) -> bool {
        self.2 != isize::MIN
    }

    open spec fn negated(&self) -> (A, B, isize) {
        (self.0, self.1, (-self.2) as isize)
    }

    fn negate(self) -> (r: (A, B, isize))
        ensures
            r.0 == self.0,
            r.1 == self.1,
            r.2 == -self.2,
    {
        (self.0, self.1, -self.2)
    }
}

/// A region whose read items can be negated, and what negation does to their values.
/// Reading a pair region with `i64` differences through [`Negate`] gives the first
/// component unchanged and the arithmetic negation of the stored difference.
pub proof fn law_negate_pair<A: Region + 'static>(r: Negate<TupleABRegion<A, MirrorRegion<i64>>>, i: (A::Index, i64))
    requires
        r.inner().valid(i),
        r.inner().value_at(i).1 != i64::MIN,
    ensures
        r.valid(i),
        r.value_at(i).0 == r.inner().value_at(i).0,
        r.value_at(i).1 == -r.inner().value_at(i).1,
{
}

/// Reading a triple region with `i64` differences through [`Negate`] gives the first two
/// components unchanged and the arithmetic negation of the stored difference.
pub proof fn law_negate_triple<A: Region + 'static, B: Region + 'static>(
    r: Negate<TupleABCRegion<A, B, MirrorRegion<i64>>>,
    i: (A::Index, B::Index, i64),
)
    requires
        r.inner().valid(i),
        r.inner().value_at(i).2 != i64::MIN,
    ensures
        r.valid(i),
        r.value_at(i).0 == r.inner().value_at(i).0,
        r.value_at(i).1 == r.inner().value_at(i).1,
        r.value_at(i).2 == -r.inner().value_at(i).2,
{
}

pub trait NegatableRegion: Region {
    /// Whether a value can be negated without overflow.
    spec fn value_negatable(value: Self::Value) -> bool;

    /// The negated value.
    spec fn negated_value(value: Self::Value) -> Self::Value;

    /// Negates a read item.
    fn negate_item<'a>(item: Self::ReadItem<'a>) -> (r: Self::ReadItem<'a>)
        requires
            Self::value_negatable(Self::item_value(item)),
        ensures
            Self::item_value(r) == Self::negated_value(Self::item_value(item)),
    ;
}

impl<A: Region + 'static> NegatableRegion for TupleABRegion<A, MirrorRegion<i8>> {
    open spec fn value_negatable(value: (A::Value, i8)) -> bool {
        value.1 != i8::MIN
    }

    open spec fn negated_value(value: (A::Value, i8)) -> (A::Value, i8) {
        (value.0, (-value.1) as i8)
    }

    fn negate_item<'a>(item: (A::ReadItem<'a>, i8)) -> (r: (A::ReadItem<'a>, i8))
        ensures
            r.0 == item.0,
            r.1 == -item.1,
    {
        item.negate()
    }
}

impl<A: Region + 'static, B: Region + 'static> NegatableRegion for TupleABCRegion<A, B, MirrorRegion<i8>> {
    open spec fn value_negatable(value: (A::Value, B::Value, i8)) -> bool {
        value.2 != i8::MIN
    }

    open spec fn negated_value(value: (A::Value, B::Value, i8)) -> (A::Value, B::Value, i8) {
        (value.0, value.1, (-value.2) as i8)
    }

    fn negate_item<'a>(item: (A::ReadItem<'a>, B::ReadItem<'a>, i8)) -> (r: (A::ReadItem<'a>, B::ReadItem<'a>, i8))
        ensures
            r.0 == item.0,
            r.1 == item.1,
            r.2 == -item.2,
    {
        item.negate()
    }
}

impl<A: Region + 'static> NegatableRegion for TupleABRegion<A, MirrorRegion<i16>> {
    open spec fn value_negatable(value: (A::Value, i16)) -> bool {
        value.1 != i16::MIN
    }

    open spec fn negated_value(value: (A::Value, i16)) -> (A::Value, i16) {
        (value.0, (-value.1) as i16)
    }

    fn negate_item<'a>(item: (A::ReadItem<'a>, i16)) -> (r: (A::ReadItem<'a>, i16))
        ensures
            r.0 == item.0,
            r.1 == -item.1,
    {
        item.negate()
    }
}

impl<A: Region + 'static, B: Region + 'static> NegatableRegion for TupleABCRegion<A, B, MirrorRegion<i16>> {
    open spec fn value_negatable(value: (A::Value, B::Value, i16)) -> bool {
        value.2 != i16::MIN
    }

    open spec fn negated_value(value: (A::Value, B::Value, i16)) -> (A::Value, B::Value, i16) {
        (value.0, value.1, (-value.2) as i16)
    }

    fn negate_item<'a>(item: (A::ReadItem<'a>, B::ReadItem<'a>, i16)) -> (r: (A::ReadItem<'a>, B::ReadItem<'a>, i16))
        ensures
            r.0 == item.0,
            r.1 == item.1,
            r.2 == -item.2,
    {
        item.negate()
    }
}

impl<A: Region + 'static> NegatableRegion for TupleABRegion<A, MirrorRegion<i32>> {
    open spec fn value_negatable(value: (A::Value, i32)) -> bool {
        value.1 != i32::MIN
    }

    open spec fn negated_value(value: (A::Value, i32)) -> (A::Value, i32) {
        (value.0, (-value.1) as i32)
    }

    fn negate_item<'a>(item: (A::ReadItem<'a>, i32)) -> (r: (A::ReadItem<'a>, i32))
        ensures
            r.0 == item.0,
            r.1 == -item.1,
    {
        item.negate()
    }
}

impl<A: Region + 'static, B: Region + 'static> NegatableRegion for TupleABCRegion<A, B, MirrorRegion<i32>> {
    open spec fn value_negatable(value: (A::Value, B::Value, i32)) -> bool {
        value.2 != i32::MIN
    }

    open spec fn negated_value(value: (A::Value, B::Value, i32)) -> (A::Value, B::Value, i32) {
        (value.0, value.1, (-value.2) as i32)
    }

    fn negate_item<'a>(item: (A::ReadItem<'a>, B::ReadItem<'a>, i32)) -> (r: (A::ReadItem<'a>, B::ReadItem<'a>, i32))
        ensures
            r.0 == item.0,
            r.1 == item.1,
            r.2 == -item.2,
    {
        item.negate()
    }
}

impl<A: Region + 'static> NegatableRegion for TupleABRegion<A, MirrorRegion<i64>> {
    open spec fn value_negatable(value: (A::Value, i64)) -> bool {
        value.1 != i64::MIN
    }

    open spec fn negated_value(value: (A::Value, i64)) -> (A::Value, i64) {
        (value.0, (-value.1) as i64)
    }

    fn negate_item<'a>(item: (A::ReadItem<'a>, i64)) -> (r: (A::ReadItem<'a>, i64))
        ensures
            r.0 == item.0,
            r.1 == -item.1,
    {
        item.negate()
    }
}

impl<A: Region + 'static, B: Region + 'static> NegatableRegion for TupleABCRegion<A, B, MirrorRegion<i64>> {
    open spec fn value_negatable(value: (A::Value, B::Value, i64)) -> bool {
        value.2 != i64::MIN
    }

    open spec fn negated_value(value: (A::Value, B::Value, i64)) -> (A::Value, B::Value, i64) {
        (value.0, value.1, (-value.2) as i64)
    }

    fn negate_item<'a>(item: (A::ReadItem<'a>, B::ReadItem<'a>, i64)) -> (r: (A::ReadItem<'a>, B::ReadItem<'a>, i64))
        ensures
            r.0 == item.0,
            r.1 == item.1,
            r.2 == -item.2,
    {
        item.negate()
    }
}

impl<A: Region + 'static> NegatableRegion for TupleABRegion<A, MirrorRegion<i128>> {
    open spec fn value_negatable(value: (A::Value, i128)) -> bool {
        value.1 != i128::MIN
    }

    open spec fn negated_value(value: (A::Value, i128)) -> (A::Value, i128) {
        (value.0, (-value.1) as i128)
    }

    fn negate_item<'a>(item: (A::ReadItem<'a>, i128)) -> (r: (A::ReadItem<'a>, i128))
        ensures
            r.0 == item.0,
            r.1 == -item.1,
    {
        item.negate()
    }
}

impl<A: Region + 'static, B: Region + 'static> NegatableRegion for TupleABCRegion<A, B, MirrorRegion<i128>> {
    open spec fn value_negatable(value: (A::Value, B::Value, i128)) -> bool {
        value.2 != i128::MIN
    }

    open spec fn negated_value(value: (A::Value, B::Value, i128)) -> (A::Value, B::Value, i128) {
        (value.0, value.1, (-value.2) as i128)
    }

    fn negate_item<'a>(item: (A::ReadItem<'a>, B::ReadItem<'a>, i128)) -> (r: (A::ReadItem<'a>, B::ReadItem<'a>, i128))
        ensures
            r.0 == item.0,
            r.1 == item.1,
            r.2 == -item.2,
    {
        item.negate()
    }
}

impl<A: Region + 'static> NegatableRegion for TupleABRegion<A, MirrorRegion<isize>> {
    open spec fn value_negatable(value: (A::Value, isize)) -> bool {
        value.1 != isize::MIN
    }

    open spec fn negated_value(value: (A::Value, isize)) -> (A::Value, isize) {
        (value.0, (-value.1) as isize)
    }

    fn negate_item<'a>(item: (A::ReadItem<'a>, isize)) -> (r: (A::ReadItem<'a>, isize))
        ensures
            r.0 == item.0,
            r.1 == -item.1,
    {
        item.negate()
    }
}

impl<A: Region + 'static, B: Region + 'static> NegatableRegion for TupleABCRegion<A, B, MirrorRegion<isize>> {
    open spec fn value_negatable(value: (A::Value, B::Value, isize)) -> bool {
        value.2 != isize::MIN
    }

    open spec fn negated_value(value: (A::Value, B::Value, isize)) -> (A::Value, B::Value, isize) {
        (value.0, value.1, (-value.2) as isize)
    }

    fn negate_item<'a>(item: (A::ReadItem<'a>, B::ReadItem<'a>, isize)) -> (r: (A::ReadItem<'a>, B::ReadItem<'a>, isize))
        ensures
            r.0 == item.0,
            r.1 == item.1,
            r.2 == -item.2,
    {
        item.negate()
    }
}

impl<R: NegatableRegion + 'static> Region for Negate<R> {
    type Owned = R::Owned;
    type ReadItem<'a> = R::ReadItem<'a>;
    type Index = R::Index;
    type Value = R::Value;

    open spec fn wf(&self) -> bool {
        self.inner().wf()
    }

    /// An index designates an item where it does in the inner region and the value
    /// there can be negated.
    open spec fn valid(&self, index: R::Index) -> bool {
        self.inner().valid(index) && R::value_negatable(self.inner().value_at(index))
    }

    open spec fn value_at(&self, index: R::Index) -> R::Value {
        R::negated_value(self.inner().value_at(index))
    }

    open spec fn item_value<'a>(item: R::ReadItem<'a>) -> R::Value {
        R::item_value(item)
    }

    open spec fn owned_value(owned: R::Owned) -> R::Value {
        R::owned_value(owned)
    }

    /// A fresh region wraps a fresh one.
    open spec fn fresh(&self) -> bool {
        self.inner().fresh()
    }

    open spec fn holds_nothing(&self) -> bool {
        self.inner().holds_nothing()
    }

    fn new_region() -> (r: Self) {
        Negate(R::new_region())
    }

    fn merge_regions(regions: &[&Self]) -> (r: Self) {
        let mut inners: Vec<&R> = Vec::new();
        let mut i: usize = 0;
        while i < regions.len()
            invariant
                0 <= i <= regions@.len(),
                forall|j: int| 0 <= j < regions@.len() ==> (#[trigger] regions@[j]).wf(),
                forall|j: int| 0 <= j < inners@.len() ==> (#[trigger] inners@[j]).wf(),
            decreases regions@.len() - i,
        {
            inners.push(&regions[i].0);
            i = i + 1;
        }
        Negate(R::merge_regions(inners.as_slice()))
    }

    fn index<'a>(&'a self, index: R::Index) -> (r: R::ReadItem<'a>) {
        R::negate_item(self.0.index(index))
    }

    fn reserve_regions(&mut self, regions: &[&Self]) {
        let mut inners: Vec<&R> = Vec::new();
        let mut i: usize = 0;
        while i < regions.len()
            invariant
                0 <= i <= regions@.len(),
                forall|j: int| 0 <= j < regions@.len() ==> (#[trigger] regions@[j]).wf(),
                forall|j: int| 0 <= j < inners@.len() ==> (#[trigger] inners@[j]).wf(),
            decreases regions@.len() - i,
        {
            inners.push(&regions[i].0);
            i = i + 1;
        }
        self.0.reserve_regions(inners.as_slice());
    }

    fn clear(&mut self) {
        self.0.clear();
    }

    open spec fn heap_used(&self) -> Seq<usize> {
        self.inner().heap_used()
    }

    fn heap_size(&self, sizes: &mut Vec<(usize, usize)>) {
        self.0.heap_size(sizes);
    }

    fn reborrow<'b, 'a: 'b>(item: R::ReadItem<'a>) -> (r: R::ReadItem<'b>) {
        R::reborrow(item)
    }

    fn item_to_owned<'a>(item: R::ReadItem<'a>) -> (r: R::Owned) {
        R::item_to_owned(item)
    }
}

impl<R: NegatableRegion + 'static, S: OffsetContainer<R::Index>> FlatStack<R, S> {
    /// Negate all contents.
    ///
    /// This consumes the stack and returns one with the inner region wrapped
    /// by [`Negate`], which negates elements on read. The result can be read where every
    /// value of the stack can be negated.
    pub fn negate(self) -> (r: FlatStack<Negate<R>, S>)
        requires
            self.wf(),
        ensures
            r.spec_region().inner() == self.spec_region(),
            r.spec_indices() == self.spec_indices(),
            r.wf() <==> forall|i: int| 0 <= i < self@.len() ==> R::value_negatable(#[trigger] self@[i]),
            r@ == self@.map_values(|v: R::Value| R::negated_value(v)),
    {
        let r = FlatStack::from_parts(Negate(self.region), self.indices);
        proof {
            self.lemma_wf_parts();
            r.lemma_wf_parts();
            assert(r@ =~= self@.map_values(|v: R::Value| R::negated_value(v)));
            if forall|i: int| 0 <= i < self@.len() ==> R::value_negatable(#[trigger] self@[i]) {
                assert forall|i: int| 0 <= i < r.spec_indices().offsets().len() implies r.spec_region().valid(
                    #[trigger] r.spec_indices().offsets()[i],
                ) by {
                    assert(R::value_negatable(self@[i]));
                }
            }
            if r.wf() {
                assert forall|i: int| 0 <= i < self@.len() implies R::value_negatable(#[trigger] self@[i]) by {
                    assert(r.spec_region().valid(r.spec_indices().offsets()[i]));
                }
            }
        }
        r
    }
}

} // verus!
