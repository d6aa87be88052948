//! A region that stores slices of copy types.
use vstd::prelude::*;

use crate::impls::storage::{push_slice, vec_heap_size, PushStorage};
use crate::{CopyIter, IntoOwned, Push, Region, ReserveItems};

verus! {

/// A container for owned types.
///
/// The container can absorb any copy type, and stores an owned version of the type,
/// similarly to what vectors do. An index is the range of a pushed slice in the storage.
pub struct OwnedRegion<T> {
    slices: Vec<T>,
}

impl<T: Copy + 'static> OwnedRegion<T> {
    /// Appending elements keeps every range valid, designating the same elements.
    proof fn lemma_append_extends(old_r: Self, new_r: Self, item: Seq<T>)
        requires
            new_r@ == old_r@ + item,
        ensures
            crate::extends(new_r, old_r),
    {
        assert forall|i: (usize, usize)| #[trigger] old_r.valid(i) implies new_r.valid(i)
            && new_r.value_at(i) == old_r.value_at(i) by {
            assert(new_r@.subrange(i.0 as int, i.1 as int) =~= old_r@.subrange(i.0 as int, i.1 as int));
        }
    }

    /// The elements of all slices pushed so far, in order.
    pub closed spec fn view(&self) -> Seq<T> {
        self.slices@
    }

    /// Returns an empty region.
    pub fn new() -> (r: Self)
        ensures
            r@ == Seq::<T>::empty(),
    {
        OwnedRegion { slices: Vec::new() }
    }

    /// The number of elements in all slices.
    pub fn len(&self) -> (r: usize)
        ensures
            r == self@.len(),
    {
        self.slices.len()
    }

    /// Appends the elements of `item`, returning their range.
    fn push_elements(&mut self, item: &[T]) -> (r: (usize, usize))
        ensures
            final(self)@ == old(self)@ + item@,
            final(self)@.len() <= usize::MAX,
            r == (old(self)@.len() as usize, final(self)@.len() as usize),
            crate::extends(*final(self), *old(self)),
            final(self)@.subrange(r.0 as int, r.1 as int) == item@,
    {
        let start = self.slices.len();
        self.slices.push_storage(item);
        proof {
            Self::lemma_append_extends(*old(self), *self, item@);
            assert(self@.subrange(start as int, self@.len() as int) =~= item@);
        }
        (start, self.slices.len())
    }

    /// Reserves space for `additional` elements.
    fn reserve_elements(&mut self, additional: usize)
        ensures
            final(self)@ == old(self)@,
    {
        self.slices.reserve(additional);
    }
}

impl<T: Copy + 'static> Default for OwnedRegion<T> {
    fn default() -> (r: Self)
        ensures
            r@ == Seq::<T>::empty(),
    {
        OwnedRegion::new()
    }
}

impl<T: Copy + 'static> Region for OwnedRegion<T> {
    type Owned = Vec<T>;
    type ReadItem<'a> = &'a [T];
    type Index = (usize, usize);
    type Value = Seq<T>;

    open spec fn wf(&self) -> bool {
        true
    }

    open spec fn valid(&self, index: (usize, usize)) -> bool {
        index.0 <= index.1 <= self@.len()
    }

    open spec fn value_at(&self, index: (usize, usize)) -> Seq<T> {
        self@.subrange(index.0 as int, index.1 as int)
    }

    open spec fn item_value<'a>(item: &'a [T]) -> Seq<T> {
        item@
    }

    open spec fn owned_value(owned: Vec<T>) -> Seq<T> {
        owned@
    }

    /// A fresh region holds no items.
    open spec fn fresh(&self) -> bool {
        self@.len() == 0
    }

    fn new_region() -> (r: Self) {
        OwnedRegion::new()
    }

    fn merge_regions(regions: &[&Self]) -> (r: Self)
        ensures
            r@ == Seq::<T>::empty(),
    {
        let mut total: usize = 0;
        let mut i: usize = 0;
        while i < regions.len()
            invariant
                0 <= i <= regions@.len(),
            decreases regions@.len() - i,
        {
            total = total.saturating_add(regions[i].slices.len());
            i = i + 1;
        }
        OwnedRegion { slices: Vec::with_capacity(total) }
    }

    fn index<'a>(&'a self, index: (usize, usize)) -> (r: &'a [T]) {
        vstd::slice::slice_subrange(self.slices.as_slice(), index.0, index.1)
    }

    fn reserve_regions(&mut self, regions: &[&Self])
        ensures
            final(self)@ == old(self)@,
    {
        let mut total: usize = 0;
        let mut i: usize = 0;
        while i < regions.len()
            invariant
                0 <= i <= regions@.len(),
            decreases regions@.len() - i,
        {
            total = total.saturating_add(regions[i].slices.len());
            i = i + 1;
        }
        self.slices.reserve(total);
    }

    fn clear(&mut self)
        ensures
            final(self)@ == Seq::<T>::empty(),
    {
        self.slices.clear();
    }

    /// The bytes in use by the elements.
    closed spec fn heap_used(&self) -> Seq<usize> {
        seq![crate::impls::storage::vec_used(self.slices@)]
    }

    fn heap_size(&self, sizes: &mut Vec<(usize, usize)>)
        ensures
            final(sizes)@.len() == old(sizes)@.len() + 1,
            final(sizes)@[old(sizes)@.len() as int].0 == self@.len()
                * vstd::layout::size_of::<T>(),
    {
        let entry = vec_heap_size(&self.slices);
        proof {
            crate::lemma_reports_push(sizes@, entry);
        }
        sizes.push(entry);
    }

    fn reborrow<'b, 'a: 'b>(item: &'a [T]) -> (r: &'b [T]) {
        item
    }

    fn item_to_owned<'a>(item: &'a [T]) -> (r: Vec<T>) {
        item.into_owned()
    }
}

impl<'b, T: Copy + 'static> Push<&'b [T]> for OwnedRegion<T> {
    open spec fn pushed_value(item: &'b [T]) -> Seq<T> {
        item@
    }

    open spec fn push_result(&self, item: &'b [T]) -> (usize, usize) {
        (self@.len() as usize, (self@.len() + item@.len()) as usize)
    }

    open spec fn push_requires(&self, item: &'b [T]) -> bool {
        true
    }

    /// The region holds what it held, then the item.
    open spec fn push_post(&self, item: &'b [T], after: Self) -> bool {
        after@ == self@ + item@
    }

    fn push(&mut self, item: &'b [T]) -> (index: (usize, usize))
        ensures
            final(self)@ == old(self)@ + item@,
    {
        let r = self.push_elements(item);
        assert(self@.subrange(r.0 as int, r.1 as int) =~= item@);
        r
    }
}

impl<'b, 'c, T: Copy + 'static> Push<&'b &'c [T]> for OwnedRegion<T> {
    open spec fn pushed_value(item: &'b &'c [T]) -> Seq<T> {
        item@
    }

    open spec fn push_result(&self, item: &'b &'c [T]) -> (usize, usize) {
        (self@.len() as usize, (self@.len() + item@.len()) as usize)
    }

    open spec fn push_requires(&self, item: &'b &'c [T]) -> bool {
        true
    }

    /// The region holds what it held, then the item.
    open spec fn push_post(&self, item: &'b &'c [T], after: Self) -> bool {
        after@ == self@ + item@
    }

    fn push(&mut self, item: &'b &'c [T]) -> (index: (usize, usize))
        ensures
            final(self)@ == old(self)@ + item@,
    {
        let r = self.push_elements(*item);
        assert(self@.subrange(r.0 as int, r.1 as int) =~= item@);
        r
    }
}

impl<T: Copy + 'static, const N: usize> Push<[T; N]> for OwnedRegion<T> {
    open spec fn pushed_value(item: [T; N]) -> Seq<T> {
        item@
    }

    open spec fn push_result(&self, item: [T; N]) -> (usize, usize) {
        (self@.len() as usize, (self@.len() + N) as usize)
    }

    open spec fn push_requires(&self, item: [T; N]) -> bool {
        true
    }

    /// The region holds what it held, then the item.
    open spec fn push_post(&self, item: [T; N], after: Self) -> bool {
        after@ == self@ + item@
    }

    fn push(&mut self, item: [T; N]) -> (index: (usize, usize))
        ensures
            final(self)@ == old(self)@ + item@,
    {
        let start = self.slices.len();
        self.slices.push_storage(CopyIter(item));
        let r = (start, self.slices.len());
        proof {
            Self::lemma_append_extends(*old(self), *self, item@);
        }
        assert(self@.subrange(r.0 as int, r.1 as int) =~= item@);
        r
    }
}

impl<'b, T: Copy + 'static, const N: usize> Push<&'b [T; N]> for OwnedRegion<T> {
    open spec fn pushed_value(item: &'b [T; N]) -> Seq<T> {
        item@
    }

    open spec fn push_result(&self, item: &'b [T; N]) -> (usize, usize) {
        (self@.len() as usize, (self@.len() + N) as usize)
    }

    open spec fn push_requires(&self, item: &'b [T; N]) -> bool {
        true
    }

    /// The region holds what it held, then the item.
    open spec fn push_post(&self, item: &'b [T; N], after: Self) -> bool {
        after@ == self@ + item@
    }

    fn push(&mut self, item: &'b [T; N]) -> (index: (usize, usize))
        ensures
            final(self)@ == old(self)@ + item@,
    {
        let r = self.push_elements(item.as_slice());
        assert(self@.subrange(r.0 as int, r.1 as int) =~= item@);
        r
    }
}

impl<'b, 'c, T: Copy + 'static, const N: usize> Push<&'b &'c [T; N]> for OwnedRegion<T> {
    open spec fn pushed_value(item: &'b &'c [T; N]) -> Seq<T> {
        item@
    }

    open spec fn push_result(&self, item: &'b &'c [T; N]) -> (usize, usize) {
        (self@.len() as usize, (self@.len() + N) as usize)
    }

    open spec fn push_requires(&self, item: &'b &'c [T; N]) -> bool {
        true
    }

    /// The region holds what it held, then the item.
    open spec fn push_post(&self, item: &'b &'c [T; N], after: Self) -> bool {
        after@ == self@ + item@
    }

    fn push(&mut self, item: &'b &'c [T; N]) -> (index: (usize, usize))
        ensures
            final(self)@ == old(self)@ + item@,
    {
        let r = self.push_elements((*item).as_slice());
        assert(self@.subrange(r.0 as int, r.1 as int) =~= item@);
        r
    }
}

impl<T: Copy + 'static> Push<Vec<T>> for OwnedRegion<T> {
    open spec fn pushed_value(item: Vec<T>) -> Seq<T> {
        item@
    }

    open spec fn push_result(&self, item: Vec<T>) -> (usize, usize) {
        (self@.len() as usize, (self@.len() + item@.len()) as usize)
    }

    open spec fn push_requires(&self, item: Vec<T>) -> bool {
        true
    }

    /// The region holds what it held, then the item.
    open spec fn push_post(&self, item: Vec<T>, after: Self) -> bool {
        after@ == self@ + item@
    }

    fn push(&mut self, item: Vec<T>) -> (index: (usize, usize))
        ensures
            final(self)@ == old(self)@ + item@,
    {
        let mut item = item;
        let ghost v = item@;
        let start = self.slices.len();
        self.slices.push_storage(&mut item);
        let r = (start, self.slices.len());
        proof {
            Self::lemma_append_extends(*old(self), *self, v);
        }
        assert(self@.subrange(r.0 as int, r.1 as int) =~= v);
        r
    }
}

impl<'b, T: Copy + 'static> Push<&'b Vec<T>> for OwnedRegion<T> {
    open spec fn pushed_value(item: &'b Vec<T>) -> Seq<T> {
        item@
    }

    open spec fn push_result(&self, item: &'b Vec<T>) -> (usize, usize) {
        (self@.len() as usize, (self@.len() + item@.len()) as usize)
    }

    open spec fn push_requires(&self, item: &'b Vec<T>) -> bool {
        true
    }

    /// The region holds what it held, then the item.
    open spec fn push_post(&self, item: &'b Vec<T>, after: Self) -> bool {
        after@ == self@ + item@
    }

    fn push(&mut self, item: &'b Vec<T>) -> (index: (usize, usize))
        ensures
            final(self)@ == old(self)@ + item@,
    {
        let r = self.push_elements(item.as_slice());
        assert(self@.subrange(r.0 as int, r.1 as int) =~= item@);
        r
    }
}

impl<T: Copy + 'static, const N: usize> Push<CopyIter<[T; N]>> for OwnedRegion<T> {
    open spec fn pushed_value(item: CopyIter<[T; N]>) -> Seq<T> {
        item.0@
    }

    open spec fn push_result(&self, item: CopyIter<[T; N]>) -> (usize, usize) {
        (self@.len() as usize, (self@.len() + N) as usize)
    }

    open spec fn push_requires(&self, item: CopyIter<[T; N]>) -> bool {
        true
    }

    /// The region holds what it held, then the item.
    open spec fn push_post(&self, item: CopyIter<[T; N]>, after: Self) -> bool {
        after@ == self@ + item.0@
    }

    fn push(&mut self, item: CopyIter<[T; N]>) -> (index: (usize, usize))
        ensures
            final(self)@ == old(self)@ + item.0@,
    {
        let start = self.slices.len();
        self.slices.push_storage(item);
        let r = (start, self.slices.len());
        proof {
            Self::lemma_append_extends(*old(self), *self, item.0@);
        }
        assert(self@.subrange(r.0 as int, r.1 as int) =~= item.0@);
        r
    }
}

impl<'b, T: Copy + 'static> ReserveItems<&'b [T]> for OwnedRegion<T> {
    fn reserve_items(&mut self, items: &[&'b [T]])
        ensures
            final(self)@ == old(self)@,
    {
        let mut total: usize = 0;
        let mut i: usize = 0;
        while i < items.len()
            invariant
                0 <= i <= items@.len(),
            decreases items@.len() - i,
        {
            total = total.saturating_add(items[i].len());
            i = i + 1;
        }
        self.reserve_elements(total);
    }
}

impl<'b, T: Copy + 'static, const N: usize> ReserveItems<&'b [T; N]> for OwnedRegion<T> {
    fn reserve_items(&mut self, items: &[&'b [T; N]])
        ensures
            final(self)@ == old(self)@,
    {
        self.reserve_elements(match items.len().checked_mul(N) {
            Some(n) => n,
            None => usize::MAX,
        });
    }
}

impl<'b, T: Copy + 'static> ReserveItems<&'b Vec<T>> for OwnedRegion<T> {
    fn reserve_items(&mut self, items: &[&'b Vec<T>])
        ensures
            final(self)@ == old(self)@,
    {
        let mut total: usize = 0;
        let mut i: usize = 0;
        while i < items.len()
            invariant
                0 <= i <= items@.len(),
            decreases items@.len() - i,
        {
            total = total.saturating_add(items[i].len());
            i = i + 1;
        }
        self.reserve_elements(total);
    }
}

impl<T: Copy + 'static, const N: usize> ReserveItems<CopyIter<[T; N]>> for OwnedRegion<T> {
    fn reserve_items(&mut self, items: &[CopyIter<[T; N]>])
        ensures
            final(self)@ == old(self)@,
    {
        self.reserve_elements(match items.len().checked_mul(N) {
            Some(n) => n,
            None => usize::MAX,
        });
    }
}

} // verus!
