//! A region that stores slices.
use vstd::prelude::*;

use crate::impls::offsets::OffsetContainer;
use crate::{Push, Region, RegionPreference, ReserveItems};

verus! {

impl<T: RegionPreference> RegionPreference for Vec<T> where
    <T::Region as Region>::Index: Copy,
    T::Region: 'static,
 {
    type Owned = Vec<<T::Region as Region>::Owned>;
    type Region = SliceRegion<T::Region>;
}

impl<T: RegionPreference, const N: usize> RegionPreference for [T; N] where
    <T::Region as Region>::Index: Copy,
    T::Region: 'static,
 {
    type Owned = Vec<<T::Region as Region>::Owned>;
    type Region = SliceRegion<T::Region>;
}

/// A container representing slices of data.
///
/// Each pushed slice is pushed element by element into the inner region `C`, and the
/// container `O` remembers the index of each element. The index of a slice is the range of
/// its element indices in `O`.
///
/// Reading from this region is more involved than for others, because the data only exists in
/// an indexable representation. The read item is a [`ReadSlice`], which can be iterated or indexed.
pub struct SliceRegion<C: Region, O: OffsetContainer<C::Index> = Vec<<C as Region>::Index>> {
    /// Container of element indices.
    slices: O,
    /// Inner region.
    inner: C,
}

impl<C: Region, O: OffsetContainer<C::Index>> SliceRegion<C, O> {
    /// The inner region.
    pub closed spec fn spec_inner(&self) -> C {
        self.inner
    }

    /// The container of the element indices.
    pub closed spec fn spec_slices_container(&self) -> O {
        self.slices
    }

    /// The indices of all elements pushed so far, in order.
    pub closed spec fn spec_slices(&self) -> Seq<C::Index> {
        self.slices.offsets()
    }

    /// The inner region and the index container are well formed, and every element index is
    /// valid in the inner region.
    pub closed spec fn slices_wf(&self) -> bool {
        &&& self.inner.wf()
        &&& self.slices.offsets_wf()
        &&& forall|k: int|
            0 <= k < self.slices.offsets().len() ==> self.inner.valid(
                #[trigger] self.slices.offsets()[k],
            )
    }

    /// The values of the elements in `start..end`.
    pub open spec fn values_in(&self, start: int, end: int) -> Seq<C::Value> {
        Seq::new(
            (end - start) as nat,
            |k: int| self.spec_inner().value_at(self.spec_slices()[start + k]),
        )
    }

    /// Returns an empty region.
    pub fn new() -> (r: Self)
        ensures
            r.slices_wf(),
            r.spec_slices() == Seq::<C::Index>::empty(),
            r.spec_inner().fresh(),
    {
        SliceRegion { slices: O::new_offsets(), inner: C::new_region() }
    }

    /// The number of elements in all slices.
    pub fn len(&self) -> (r: usize)
        requires
            self.slices_wf(),
        ensures
            r == self.spec_slices().len(),
    {
        self.slices.len()
    }
}

impl<C: Region, O: OffsetContainer<C::Index>> Default for SliceRegion<C, O> {
    fn default() -> (r: Self)
        ensures
            r.slices_wf(),
            r.spec_slices() == Seq::<C::Index>::empty(),
            r.spec_inner().fresh(),
    {
        SliceRegion::new()
    }
}

impl<C: Region + 'static, O: OffsetContainer<C::Index> + 'static> Region for SliceRegion<C, O> {
    type Owned = Vec<C::Owned>;
    type ReadItem<'a> = ReadSlice<'a, C, O>;
    type Index = (usize, usize);
    type Value = Seq<C::Value>;

    open spec fn wf(&self) -> bool {
        self.slices_wf()
    }

    open spec fn valid(&self, index: (usize, usize)) -> bool {
        index.0 <= index.1 <= self.spec_slices().len()
    }

    open spec fn value_at(&self, index: (usize, usize)) -> Seq<C::Value> {
        self.values_in(index.0 as int, index.1 as int)
    }

    open spec fn item_value<'a>(item: ReadSlice<'a, C, O>) -> Seq<C::Value> {
        item@
    }

    open spec fn owned_value(owned: Vec<C::Owned>) -> Seq<C::Value> {
        crate::owned_values::<C>(owned@)
    }

    /// A fresh region holds no items.
    open spec fn fresh(&self) -> bool {
        self.spec_slices().len() == 0 && self.spec_inner().fresh()
    }

    open spec fn holds_nothing(&self) -> bool {
        self.spec_slices().len() == 0 && self.spec_inner().holds_nothing()
    }

    fn new_region() -> (r: Self) {
        SliceRegion::new()
    }

    fn merge_regions(regions: &[&Self]) -> (r: Self) {
        let mut inners: Vec<&C> = Vec::new();
        let mut i: usize = 0;
        while i < regions.len()
            invariant
                0 <= i <= regions@.len(),
                inners@.len() == i,
                forall|j: int| 0 <= j < regions@.len() ==> (#[trigger] regions@[j]).wf(),
                forall|j: int| 0 <= j < i ==> (#[trigger] inners@[j]).wf(),
            decreases regions@.len() - i,
        {
            inners.push(&regions[i].inner);
            i = i + 1;
        }
        SliceRegion { slices: O::new_offsets(), inner: C::merge_regions(inners.as_slice()) }
    }

    fn index<'a>(&'a self, index: (usize, usize)) -> (r: ReadSlice<'a, C, O>)
        ensures
            r.wf(),
            r.len_spec() == index.1 - index.0,
    {
        let r = ReadSlice(ReadSliceInner { region: self, start: index.0, end: index.1 });
        assert(r@ =~= self.value_at(index));
        r
    }

    fn reserve_regions(&mut self, regions: &[&Self]) {
        let mut inners: Vec<&C> = Vec::new();
        let mut i: usize = 0;
        let mut total: usize = 0;
        while i < regions.len()
            invariant
                0 <= i <= regions@.len(),
                inners@.len() == i,
                forall|j: int| 0 <= j < regions@.len() ==> (#[trigger] regions@[j]).wf(),
                forall|j: int| 0 <= j < i ==> (#[trigger] inners@[j]).wf(),
            decreases regions@.len() - i,
        {
            inners.push(&regions[i].inner);
            total = total.saturating_add(regions[i].slices.len());
            i = i + 1;
        }
        self.slices.reserve(total);
        let ghost old_inner = self.inner;
        self.inner.reserve_regions(inners.as_slice());
        proof {
            assert forall|k: int| 0 <= k < self.slices.offsets().len() implies self.inner.valid(
                #[trigger] self.slices.offsets()[k],
            ) by {
                assert(old_inner.valid(self.slices.offsets()[k]));
            }
            assert forall|i: (usize, usize)| #[trigger] old(self).valid(i) implies self.value_at(i)
                == old(self).value_at(i) by {
                assert forall|k: int| 0 <= k < i.1 - i.0 implies self.values_in(
                    i.0 as int,
                    i.1 as int,
                )[k] == old(self).values_in(i.0 as int, i.1 as int)[k] by {
                    assert(old_inner.valid(self.slices.offsets()[i.0 + k]));
                }
                assert(self.values_in(i.0 as int, i.1 as int) =~= old(self).values_in(
                    i.0 as int,
                    i.1 as int,
                ));
            }
        }
    }

    fn clear(&mut self)
        ensures
            final(self).spec_slices() == Seq::<C::Index>::empty(),
    {
        self.slices.clear();
        self.inner.clear();
    }

    open spec fn heap_used(&self) -> Seq<usize> {
        self.spec_slices_container().offsets_heap() + self.spec_inner().heap_used()
    }

    fn heap_size(&self, sizes: &mut Vec<(usize, usize)>) {
        let ghost s0 = sizes@;
        self.slices.heap_size(sizes);
        let ghost s1 = sizes@;
        self.inner.heap_size(sizes);
        proof {
            crate::lemma_reports_chain(s0, s1, sizes@, self.slices.offsets_heap(), self.inner.heap_used());
        }
    }

    fn reborrow<'b, 'a: 'b>(item: ReadSlice<'a, C, O>) -> (r: ReadSlice<'b, C, O>) {
        item
    }

    fn item_to_owned<'a>(item: ReadSlice<'a, C, O>) -> (r: Vec<C::Owned>) {
        item.into_owned()
    }
}

/// A helper to read data out of a slice region.
pub struct ReadSlice<'a, C: Region, O: OffsetContainer<C::Index>>(ReadSliceInner<'a, C, O>);

/// A slice of a slice region: the elements `start..end`.
struct ReadSliceInner<'a, C: Region, O: OffsetContainer<C::Index>> {
    region: &'a SliceRegion<C, O>,
    start: usize,
    end: usize,
}

impl<'a, C: Region, O: OffsetContainer<C::Index>> ReadSliceInner<'a, C, O> {
    /// The region is well formed and the range lies within its elements.
    #[verifier::type_invariant]
    pub closed spec fn wf(&self) -> bool {
        &&& self.region.slices_wf()
        &&& self.start <= self.end <= self.region.spec_slices().len()
    }

    /// The values of the elements in the range.
    pub closed spec fn view(&self) -> Seq<C::Value> {
        self.region.values_in(self.start as int, self.end as int)
    }

    /// Read the n-th item from the underlying region.
    pub fn get(&self, index: usize) -> (r: C::ReadItem<'a>)
        requires
            self.wf(),
            index < self@.len(),
        ensures
            C::item_value(r) == self@[index as int],
    {
        let element = self.region.slices.index(self.start + index);
        self.region.inner.index(element)
    }

    /// The number of elements in this slice.
    pub fn len(&self) -> (r: usize)
        requires
            self.wf(),
        ensures
            r == self@.len(),
    {
        self.end - self.start
    }

    /// Returns `true` if the slice is empty.
    pub fn is_empty(&self) -> (r: bool)
        requires
            self.wf(),
        ensures
            r == (self@.len() == 0),
    {
        self.start == self.end
    }
}

impl<'a, C: Region, O: OffsetContainer<C::Index>> ReadSlice<'a, C, O> {
    /// The slice refers to a well-formed region.
    pub closed spec fn wf(&self) -> bool {
        self.0.wf()
    }

    /// The values of the elements of the slice.
    pub closed spec fn view(&self) -> Seq<C::Value> {
        self.0@
    }

    /// The number of elements.
    pub open spec fn len_spec(&self) -> nat {
        self@.len()
    }

    /// Read the n-th item from the underlying region.
    pub fn get(&self, index: usize) -> (r: C::ReadItem<'a>)
        requires
            self.wf(),
            index < self@.len(),
        ensures
            C::item_value(r) == self@[index as int],
    {
        self.0.get(index)
    }

    /// The number of elements in this slice.
    pub fn len(&self) -> (r: usize)
        requires
            self.wf(),
        ensures
            r == self@.len(),
    {
        self.0.len()
    }

    /// Returns `true` if the slice is empty.
    pub fn is_empty(&self) -> (r: bool)
        requires
            self.wf(),
        ensures
            r == (self@.len() == 0),
    {
        self.0.is_empty()
    }

    /// Returns an iterator over all contained items.
    pub fn iter(&self) -> (r: ReadSliceIter<'a, C, O>)
        requires
            self.wf(),
        ensures
            r.wf(),
            r@ == self@,
    {
        let r = ReadSliceIter(ReadSliceIterInner {
            region: self.0.region,
            next: self.0.start,
            end: self.0.end,
        });
        assert(r@ =~= self@);
        r
    }

    /// Copies the values of the slice into a vector of owned items.
    pub fn into_owned(self) -> (r: Vec<C::Owned>)
        ensures
            crate::owned_values::<C>(r@) == self@,
    {
        proof {
            use_type_invariant(&self.0);
        }
        let mut out: Vec<C::Owned> = Vec::new();
        let len = self.len();
        let mut i: usize = 0;
        while i < len
            invariant
                self.wf(),
                len == self@.len(),
                0 <= i <= len,
                out@.len() == i,
                crate::owned_values::<C>(out@) == self@.subrange(0, i as int),
            decreases len - i,
        {
            let item = self.get(i);
            let owned = C::item_to_owned(item);
            let ghost prev = out@;
            out.push(owned);
            assert forall|k: int| 0 <= k < i + 1 implies crate::owned_values::<C>(out@)[k]
                == self@.subrange(0, i + 1)[k] by {
                if k < i {
                    assert(crate::owned_values::<C>(prev)[k] == self@.subrange(0, i as int)[k]);
                    assert(out@[k] == prev[k]);
                }
            }
            assert(crate::owned_values::<C>(out@) =~= self@.subrange(0, i + 1));
            i = i + 1;
        }
        assert(self@.subrange(0, len as int) =~= self@);
        out
    }
}

impl<'a, C: Region, O: OffsetContainer<C::Index>> Clone for ReadSlice<'a, C, O> {
    fn clone(&self) -> (r: Self)
        ensures
            r == *self,
    {
        proof {
            use_type_invariant(&self.0);
        }
        ReadSlice(ReadSliceInner { region: self.0.region, start: self.0.start, end: self.0.end })
    }
}

/// An iterator over the items read from a slice region.
pub struct ReadSliceIter<'a, C: Region, O: OffsetContainer<C::Index>>(ReadSliceIterInner<'a, C, O>);

/// An iterator over the items read from a slice region: the elements `next..end`.
pub struct ReadSliceIterInner<'a, C: Region, O: OffsetContainer<C::Index>> {
    region: &'a SliceRegion<C, O>,
    next: usize,
    end: usize,
}

impl<'a, C: Region, O: OffsetContainer<C::Index>> ReadSliceIterInner<'a, C, O> {
    /// The region is well formed and the range lies within its elements.
    pub closed spec fn wf(&self) -> bool {
        &&& self.region.slices_wf()
        &&& self.end <= self.region.spec_slices().len()
    }

    /// The values of the elements still to come.
    pub closed spec fn view(&self) -> Seq<C::Value> {
        if self.next <= self.end {
            self.region.values_in(self.next as int, self.end as int)
        } else {
            Seq::empty()
        }
    }

    /// Returns the next item, if any.
    pub fn next(&mut self) -> (r: Option<C::ReadItem<'a>>)
        requires
            old(self).wf(),
        ensures
            final(self).wf(),
            old(self)@.len() > 0 ==> r.is_some() && C::item_value(r.unwrap()) == old(self)@[0]
                && final(self)@ == old(self)@.drop_first(),
            old(self)@.len() == 0 ==> r.is_none() && final(self)@ == old(self)@,
    {
        if self.next < self.end {
            let element = self.region.slices.index(self.next);
            let item = self.region.inner.index(element);
            self.next = self.next + 1;
            assert(self@ =~= old(self)@.drop_first());
            Some(item)
        } else {
            None
        }
    }
}

impl<'a, C: Region, O: OffsetContainer<C::Index>> ReadSliceIter<'a, C, O> {
    /// The underlying iterator is well formed.
    pub closed spec fn wf(&self) -> bool {
        self.0.wf()
    }

    /// The values of the elements still to come.
    pub closed spec fn view(&self) -> Seq<C::Value> {
        self.0@
    }

    /// Returns the next item, if any.
    pub fn next(&mut self) -> (r: Option<C::ReadItem<'a>>)
        requires
            old(self).wf(),
        ensures
            final(self).wf(),
            old(self)@.len() > 0 ==> r.is_some() && C::item_value(r.unwrap()) == old(self)@[0]
                && final(self)@ == old(self)@.drop_first(),
            old(self)@.len() == 0 ==> r.is_none() && final(self)@ == old(self)@,
    {
        self.0.next()
    }
}

impl<C: Region + 'static, O: OffsetContainer<C::Index> + 'static> SliceRegion<C, O> {
    /// Proves that pushing an element keeps every earlier slice, and records the new one.
    proof fn lemma_push_element(
        old_r: Self,
        mid_inner: C,
        new_r: Self,
        element: C::Index,
    )
        requires
            old_r.slices_wf(),
            crate::extends(mid_inner, old_r.spec_inner()),
            mid_inner.valid(element),
            new_r.spec_inner() == mid_inner,
            new_r.spec_slices() == old_r.spec_slices().push(element),
            mid_inner.wf(),
            new_r.slices.offsets_wf(),
        ensures
            new_r.slices_wf(),
            crate::extends(new_r, old_r),
    {
        assert forall|k: int| 0 <= k < new_r.spec_slices().len() implies new_r.spec_inner().valid(
            #[trigger] new_r.spec_slices()[k],
        ) by {
            if k < old_r.spec_slices().len() {
                assert(old_r.spec_inner().valid(old_r.spec_slices()[k]));
            }
        }
        assert forall|i: (usize, usize)| #[trigger] old_r.valid(i) implies new_r.valid(i)
            && new_r.value_at(i) == old_r.value_at(i) by {
            assert forall|k: int| 0 <= k < i.1 - i.0 implies new_r.values_in(i.0 as int, i.1 as int)[k]
                == old_r.values_in(i.0 as int, i.1 as int)[k] by {
                assert(old_r.spec_inner().valid(old_r.spec_slices()[i.0 + k]));
            }
            assert(new_r.values_in(i.0 as int, i.1 as int) =~= old_r.values_in(
                i.0 as int,
                i.1 as int,
            ));
        }
    }
}

/// References to the elements of `s`.
pub open spec fn element_refs<'b, T>(s: Seq<T>) -> Seq<&'b T> {
    Seq::new(s.len(), |k: int| &s[k])
}

impl<C: Region + 'static, O: OffsetContainer<C::Index> + 'static> SliceRegion<C, O> {
    /// Pushes one element into the inner region and remembers its index.
    fn push_one<X>(&mut self, x: X)
        where C: Push<X>
        requires
            old(self).slices_wf(),
            old(self).spec_slices().len() < usize::MAX,
            old(self).spec_inner().push_requires(x),
        ensures
            final(self).slices_wf(),
            final(self).spec_slices().len() == old(self).spec_slices().len() + 1,
            crate::extends(*final(self), *old(self)),
            old(self).spec_inner().push_post(x, final(self).spec_inner()),
            final(self).spec_inner().value_at(final(self).spec_slices()[old(self).spec_slices().len() as int])
                == C::pushed_value(x),
            forall|k: int|
                0 <= k < old(self).spec_slices().len() ==> #[trigger] final(self).spec_inner().value_at(
                    final(self).spec_slices()[k],
                ) == old(self).spec_inner().value_at(old(self).spec_slices()[k]),
    {
        let ghost before = *self;
        let index = self.inner.push(x);
        let ghost mid_inner = self.inner;
        self.slices.push(index);
        proof {
            Self::lemma_push_element(before, mid_inner, *self, index);
            assert forall|k: int| 0 <= k < before.spec_slices().len() implies #[trigger] self.spec_inner().value_at(
                self.spec_slices()[k],
            ) == before.spec_inner().value_at(before.spec_slices()[k]) by {
                assert(before.spec_inner().valid(before.spec_slices()[k]));
            }
        }
    }
}

impl<'b, C: Region + Push<&'b T> + 'static, O: OffsetContainer<C::Index> + 'static, T> Push<
    &'b [T],
> for SliceRegion<C, O> {
    open spec fn pushed_value(item: &'b [T]) -> Seq<C::Value> {
        Seq::new(item@.len(), |k: int| C::pushed_value(&item@[k]))
    }

    open spec fn push_result(&self, item: &'b [T]) -> (usize, usize) {
        (self.spec_slices().len() as usize, (self.spec_slices().len() + item@.len()) as usize)
    }

    /// The inner region accepts the elements in turn.
    open spec fn push_requires(&self, item: &'b [T]) -> bool {
        &&& self.spec_slices().len() + item@.len() <= usize::MAX
        &&& crate::accepts_all(self.spec_inner(), element_refs(item@))
    }

    /// The region holds one more index for each element, which the inner region absorbed
    /// in turn.
    open spec fn push_post(&self, item: &'b [T], after: Self) -> bool {
        &&& after.spec_slices().len() == self.spec_slices().len() + item@.len()
        &&& crate::pushed_all(self.spec_inner(), element_refs(item@), after.spec_inner())
    }

    fn push(&mut self, item: &'b [T]) -> (index: (usize, usize)) {
        let ghost refs: Seq<&'b T> = element_refs(item@);
        let start = self.slices.len();
        let mut i: usize = 0;
        proof {
            assert(refs.skip(0) =~= refs);
        }
        while i < item.len()
            invariant
                0 <= i <= item@.len(),
                refs == element_refs::<'b, T>(item@),
                self.slices_wf(),
                start == old(self).spec_slices().len(),
                self.spec_slices().len() == start + i,
                old(self).push_requires(item),
                crate::extends(*self, *old(self)),
                forall|k: int| 0 <= k < i ==> self.spec_inner().value_at(#[trigger] self.spec_slices()[start + k])
                    == C::pushed_value(&item@[k]),
                crate::accepts_all(self.spec_inner(), refs.skip(i as int)),
                forall|after: C| #[trigger] crate::pushed_all(self.spec_inner(), refs.skip(i as int), after)
                    ==> crate::pushed_all(old(self).spec_inner(), refs, after),
            decreases item@.len() - i,
        {
            let ghost before = *self;
            let ghost rest = refs.skip(i as int);
            let element: &'b T = &item[i];
            assert(rest[0] == element);
            self.push_one(element);
            proof {
                assert(rest.drop_first() =~= refs.skip(i + 1));
                assert(before.spec_inner().push_post(rest[0], self.spec_inner()));
                assert forall|after: C| #[trigger] crate::pushed_all(self.spec_inner(), refs.skip(i + 1), after)
                    implies crate::pushed_all(old(self).spec_inner(), refs, after) by {
                    assert(crate::pushed_all(before.spec_inner(), rest, after));
                }
                assert forall|k: int| 0 <= k < i + 1 implies self.spec_inner().value_at(
                    #[trigger] self.spec_slices()[start + k],
                ) == C::pushed_value(&item@[k]) by {
                    if k < i {
                        assert(before.spec_inner().value_at(before.spec_slices()[start + k]) == C::pushed_value(&item@[k]));
                    }
                }
            }
            i = i + 1;
        }
        let end = self.slices.len();
        assert(self.value_at((start, end)) =~= Self::pushed_value(item));
        proof {
            assert(refs.skip(item@.len() as int).len() == 0);
            assert(crate::pushed_all(self.spec_inner(), refs.skip(item@.len() as int), self.spec_inner()));
        }
        (start, end)
    }
}

impl<'b, C: Region + Push<&'b T> + 'static, O: OffsetContainer<C::Index> + 'static, T> Push<
    &'b Vec<T>,
> for SliceRegion<C, O> {
    open spec fn pushed_value(item: &'b Vec<T>) -> Seq<C::Value> {
        Seq::new(item@.len(), |k: int| C::pushed_value(&item@[k]))
    }

    open spec fn push_result(&self, item: &'b Vec<T>) -> (usize, usize) {
        (self.spec_slices().len() as usize, (self.spec_slices().len() + item@.len()) as usize)
    }

    /// The inner region accepts the elements in turn.
    open spec fn push_requires(&self, item: &'b Vec<T>) -> bool {
        &&& self.spec_slices().len() + item@.len() <= usize::MAX
        &&& crate::accepts_all(self.spec_inner(), element_refs(item@))
    }

    /// The region holds one more index for each element, which the inner region absorbed
    /// in turn.
    open spec fn push_post(&self, item: &'b Vec<T>, after: Self) -> bool {
        &&& after.spec_slices().len() == self.spec_slices().len() + item@.len()
        &&& crate::pushed_all(self.spec_inner(), element_refs(item@), after.spec_inner())
    }

    fn push(&mut self, item: &'b Vec<T>) -> (index: (usize, usize)) {
        let slice: &'b [T] = item.as_slice();
        <Self as Push<&'b [T]>>::push(self, slice)
    }
}

impl<'b, C: Region + Push<&'b T> + 'static, O: OffsetContainer<C::Index> + 'static, T, const N: usize> Push<
    &'b [T; N],
> for SliceRegion<C, O> {
    open spec fn pushed_value(item: &'b [T; N]) -> Seq<C::Value> {
        Seq::new(item@.len(), |k: int| C::pushed_value(&item@[k]))
    }

    open spec fn push_result(&self, item: &'b [T; N]) -> (usize, usize) {
        (self.spec_slices().len() as usize, (self.spec_slices().len() + item@.len()) as usize)
    }

    /// The inner region accepts the elements in turn.
    open spec fn push_requires(&self, item: &'b [T; N]) -> bool {
        &&& self.spec_slices().len() + item@.len() <= usize::MAX
        &&& crate::accepts_all(self.spec_inner(), element_refs(item@))
    }

    /// The region holds one more index for each element, which the inner region absorbed
    /// in turn.
    open spec fn push_post(&self, item: &'b [T; N], after: Self) -> bool {
        &&& after.spec_slices().len() == self.spec_slices().len() + item@.len()
        &&& crate::pushed_all(self.spec_inner(), element_refs(item@), after.spec_inner())
    }

    fn push(&mut self, item: &'b [T; N]) -> (index: (usize, usize)) {
        let slice: &'b [T] = item.as_slice();
        <Self as Push<&'b [T]>>::push(self, slice)
    }
}

impl<C: Region + Push<T> + 'static, O: OffsetContainer<C::Index> + 'static, T, const N: usize> Push<
    [T; N],
> for SliceRegion<C, O> {
    open spec fn pushed_value(item: [T; N]) -> Seq<C::Value> {
        Seq::new(item@.len(), |k: int| C::pushed_value(item@[k]))
    }

    open spec fn push_result(&self, item: [T; N]) -> (usize, usize) {
        (self.spec_slices().len() as usize, (self.spec_slices().len() + item@.len()) as usize)
    }

    /// The inner region accepts the elements in turn.
    open spec fn push_requires(&self, item: [T; N]) -> bool {
        &&& self.spec_slices().len() + item@.len() <= usize::MAX
        &&& crate::accepts_all(self.spec_inner(), item@)
    }

    /// The region holds one more index for each element, which the inner region absorbed
    /// in turn.
    open spec fn push_post(&self, item: [T; N], after: Self) -> bool {
        &&& after.spec_slices().len() == self.spec_slices().len() + item@.len()
        &&& crate::pushed_all(self.spec_inner(), item@, after.spec_inner())
    }

    /// Pushes the items of the array, moved into a vector.
    fn push(&mut self, item: [T; N]) -> (index: (usize, usize)) {
        let items = crate::impls::storage::array_into_vec(item);
        <Self as Push<Vec<T>>>::push(self, items)
    }
}

impl<C: Region + Push<T> + 'static, O: OffsetContainer<C::Index> + 'static, T> Push<
    Vec<T>,
> for SliceRegion<C, O> {
    open spec fn pushed_value(item: Vec<T>) -> Seq<C::Value> {
        Seq::new(item@.len(), |k: int| C::pushed_value(item@[k]))
    }

    open spec fn push_result(&self, item: Vec<T>) -> (usize, usize) {
        (self.spec_slices().len() as usize, (self.spec_slices().len() + item@.len()) as usize)
    }

    /// The inner region accepts the elements in turn.
    open spec fn push_requires(&self, item: Vec<T>) -> bool {
        &&& self.spec_slices().len() + item@.len() <= usize::MAX
        &&& crate::accepts_all(self.spec_inner(), item@)
    }

    /// The region holds one more index for each element, which the inner region absorbed
    /// in turn.
    open spec fn push_post(&self, item: Vec<T>, after: Self) -> bool {
        &&& after.spec_slices().len() == self.spec_slices().len() + item@.len()
        &&& crate::pushed_all(self.spec_inner(), item@, after.spec_inner())
    }

    fn push(&mut self, item: Vec<T>) -> (index: (usize, usize)) {
        let ghost items = item@;
        // Reverse the items, so that popping yields them in order.
        let mut item = item;
        let mut reversed: Vec<T> = Vec::new();
        while item.len() > 0
            invariant
                items.len() == item@.len() + reversed@.len(),
                item@ == items.subrange(0, item@.len() as int),
                forall|k: int| 0 <= k < reversed@.len() ==> #[trigger] reversed@[k] == items[items.len() - 1 - k],
            decreases item@.len(),
        {
            let x = item.pop().unwrap();
            reversed.push(x);
        }
        let start = self.slices.len();
        let n = reversed.len();
        let mut i: usize = 0;
        proof {
            assert(items.skip(0) =~= items);
        }
        while i < n
            invariant
                0 <= i <= n,
                n == items.len(),
                reversed@.len() == n - i,
                forall|k: int| 0 <= k < reversed@.len() ==> #[trigger] reversed@[k] == items[items.len() - 1 - k],
                self.slices_wf(),
                start == old(self).spec_slices().len(),
                self.spec_slices().len() == start + i,
                old(self).push_requires(item),
                self.spec_slices().len() + (n - i) <= usize::MAX,
                crate::extends(*self, *old(self)),
                crate::accepts_all(self.spec_inner(), items.skip(i as int)),
                forall|after: C| #[trigger] crate::pushed_all(self.spec_inner(), items.skip(i as int), after)
                    ==> crate::pushed_all(old(self).spec_inner(), items, after),
                forall|k: int| 0 <= k < i ==> self.spec_inner().value_at(#[trigger] self.spec_slices()[start + k])
                    == C::pushed_value(items[k]),
            decreases n - i,
        {
            let ghost before = *self;
            let ghost rest = items.skip(i as int);
            let element = reversed.pop().unwrap();
            assert(element == items[i as int]);
            assert(rest[0] == element);
            self.push_one(element);
            proof {
                assert(rest.drop_first() =~= items.skip(i + 1));
                assert(before.spec_inner().push_post(rest[0], self.spec_inner()));
                assert forall|after: C| #[trigger] crate::pushed_all(self.spec_inner(), items.skip(i + 1), after)
                    implies crate::pushed_all(old(self).spec_inner(), items, after) by {
                    assert(crate::pushed_all(before.spec_inner(), rest, after));
                }
                assert forall|k: int| 0 <= k < i + 1 implies self.spec_inner().value_at(
                    #[trigger] self.spec_slices()[start + k],
                ) == C::pushed_value(items[k]) by {
                    if k < i {
                        assert(before.spec_inner().value_at(before.spec_slices()[start + k]) == C::pushed_value(items[k]));
                    }
                }
            }
            i = i + 1;
        }
        let end = self.slices.len();
        assert(self.value_at((start, end)) =~= Seq::new(items.len(), |k: int| C::pushed_value(items[k])));
        proof {
            assert(items.skip(items.len() as int).len() == 0);
            assert(crate::pushed_all(self.spec_inner(), items.skip(items.len() as int), self.spec_inner()));
        }
        (start, end)
    }
}

impl<'b, C: Region + ReserveItems<&'b T> + 'static, O: OffsetContainer<C::Index> + 'static, T> ReserveItems<
    &'b [T],
> for SliceRegion<C, O> {
    fn reserve_items(&mut self, items: &[&'b [T]]) {
        let mut flat: Vec<&'b T> = Vec::new();
        let mut i: usize = 0;
        while i < items.len()
            invariant
                0 <= i <= items@.len(),
            decreases items@.len() - i,
        {
            let slice: &'b [T] = items[i];
            let mut j: usize = 0;
            while j < slice.len()
                invariant
                    0 <= j <= slice@.len(),
                decreases slice@.len() - j,
            {
                let element: &'b T = &slice[j];
                flat.push(element);
                j = j + 1;
            }
            i = i + 1;
        }
        self.slices.reserve(1);
        let ghost old_inner = self.inner;
        self.inner.reserve_items(flat.as_slice());
        proof {
            assert forall|k: int| 0 <= k < self.slices.offsets().len() implies self.inner.valid(
                #[trigger] self.slices.offsets()[k],
            ) by {
                assert(old_inner.valid(self.slices.offsets()[k]));
            }
            assert forall|i: (usize, usize)| #[trigger] old(self).valid(i) implies self.value_at(i)
                == old(self).value_at(i) by {
                assert forall|k: int| 0 <= k < i.1 - i.0 implies self.values_in(
                    i.0 as int,
                    i.1 as int,
                )[k] == old(self).values_in(i.0 as int, i.1 as int)[k] by {
                    assert(old_inner.valid(self.slices.offsets()[i.0 + k]));
                }
                assert(self.values_in(i.0 as int, i.1 as int) =~= old(self).values_in(
                    i.0 as int,
                    i.1 as int,
                ));
            }
        }
    }
}

impl<'b, C: Region + ReserveItems<&'b T> + 'static, O: OffsetContainer<C::Index> + 'static, T> ReserveItems<
    &'b Vec<T>,
> for SliceRegion<C, O> {
    /// Reserves as for the slices of the vectors.
    fn reserve_items(&mut self, items: &[&'b Vec<T>]) {
        let mut slices: Vec<&'b [T]> = Vec::new();
        let mut i: usize = 0;
        while i < items.len()
            invariant
                0 <= i <= items@.len(),
            decreases items@.len() - i,
        {
            let v: &'b Vec<T> = items[i];
            slices.push(v.as_slice());
            i = i + 1;
        }
        ReserveItems::<&'b [T]>::reserve_items(self, slices.as_slice());
    }
}

impl<'b, C: Region + ReserveItems<&'b T> + 'static, O: OffsetContainer<C::Index> + 'static, T, const N: usize> ReserveItems<
    &'b [T; N],
> for SliceRegion<C, O> {
    /// Reserves as for the slices of the arrays.
    fn reserve_items(&mut self, items: &[&'b [T; N]]) {
        let mut slices: Vec<&'b [T]> = Vec::new();
        let mut i: usize = 0;
        while i < items.len()
            invariant
                0 <= i <= items@.len(),
            decreases items@.len() - i,
        {
            let a: &'b [T; N] = items[i];
            slices.push(a.as_slice());
            i = i + 1;
        }
        ReserveItems::<&'b [T]>::reserve_items(self, slices.as_slice());
    }
}

} // verus!
