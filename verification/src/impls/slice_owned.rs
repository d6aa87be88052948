//! A region that stores slices of copy types, addressed by position.
use vstd::prelude::*;

use crate::impls::storage::{push_slice, vec_heap_size};
use crate::{CopyIter, IntoOwned, Push, Region, ReserveItems};

verus! {

/// A container for slices of copy types, indexed by the position of each slice.
///
/// The elements of all slices are stored one after another; the bounds record, for each
/// slice, the end of its elements.
pub struct OwnedRegion<T> {
    slices: Vec<T>,
    bounds: Vec<u64>,
}

impl<T: Copy + 'static> OwnedRegion<T> {
    /// The elements of all slices, in order.
    pub closed spec fn elements(&self) -> Seq<T> {
        self.slices@
    }

    /// The start of the slice at position `i`.
    pub closed spec fn start(&self, i: int) -> int {
        if i == 0 {
            0
        } else {
            self.bounds@[i - 1] as int
        }
    }

    /// The end of the slice at position `i`.
    pub closed spec fn end(&self, i: int) -> int {
        self.bounds@[i] as int
    }

    /// The slices, in order.
    pub closed spec fn view(&self) -> Seq<Seq<T>> {
        Seq::new(self.bounds@.len(), |i: int| self.slices@.subrange(self.start(i), self.end(i)))
    }

    /// The bounds never decrease and stay within the elements.
    pub closed spec fn bounds_wf(&self) -> bool {
        &&& forall|a: int, b: int|
            0 <= a <= b < self.bounds@.len() ==> #[trigger] self.bounds@[a] <= #[trigger] self.bounds@[b]
        &&& forall|a: int| 0 <= a < self.bounds@.len() ==> #[trigger] self.bounds@[a] <= self.slices@.len()
        &&& self.slices@.len() == if self.bounds@.len() == 0 {
            0
        } else {
            self.bounds@.last() as int
        }
    }

    /// Returns an empty region.
    pub fn new() -> (r: Self)
        ensures
            r.bounds_wf(),
            r@ == Seq::<Seq<T>>::empty(),
    {
        let r = OwnedRegion { slices: Vec::new(), bounds: Vec::new() };
        assert(r@ =~= Seq::<Seq<T>>::empty());
        r
    }

    /// The number of slices.
    pub fn len(&self) -> (r: usize)
        ensures
            r == self@.len(),
    {
        self.bounds.len()
    }

    /// Returns `true` if the region holds no slices.
    pub fn is_empty(&self) -> (r: bool)
        ensures
            r == (self@.len() == 0),
    {
        self.bounds.len() == 0
    }

    /// Appends the elements of `item` as one more slice, returning its position.
    fn push_elements(&mut self, item: &[T]) -> (r: usize)
        requires
            old(self).bounds_wf(),
        ensures
            final(self).bounds_wf(),
            final(self)@ == old(self)@.push(item@),
            r == old(self)@.len(),
    {
        let position = self.bounds.len();
        push_slice(&mut self.slices, item);
        let bound = self.slices.len() as u64;
        assert(bound == self.slices@.len());
        self.bounds.push(bound);
        proof {
            let n = old(self).bounds@.len();
            assert forall|i: int| 0 <= i < n implies #[trigger] self@[i] == old(self)@[i] by {
                assert(self.bounds@[i] == old(self).bounds@[i]);
                if i > 0 {
                    assert(self.bounds@[i - 1] == old(self).bounds@[i - 1]);
                }
                assert(old(self).bounds@[i] <= old(self).slices@.len());
                assert(self.slices@.subrange(self.start(i), self.end(i)) =~= old(self).slices@.subrange(old(self).start(i), old(self).end(i)));
            }
            if n > 0 {
                assert(old(self).bounds@[n - 1] <= old(self).slices@.len());
            }
            assert(self.slices@.subrange(self.start(n as int), self.end(n as int)) =~= item@);
            assert(self@ =~= old(self)@.push(item@));
        }
        position
    }

    /// Reserves room for `additional` elements and one more slice.
    fn reserve_elements(&mut self, additional: usize)
        ensures
            final(self)@ == old(self)@,
            final(self).bounds_wf() == old(self).bounds_wf(),
    {
        self.slices.reserve(additional);
        self.bounds.reserve(1);
        assert(self@ =~= old(self)@);
    }
}

impl<T: Copy + 'static> Default for OwnedRegion<T> {
    fn default() -> (r: Self)
        ensures
            r.bounds_wf(),
            r@ == Seq::<Seq<T>>::empty(),
    {
        OwnedRegion::new()
    }
}

impl<T: Copy + 'static> Region for OwnedRegion<T> {
    type Owned = Vec<T>;
    type ReadItem<'a> = &'a [T];
    type Index = usize;
    type Value = Seq<T>;

    open spec fn wf(&self) -> bool {
        self.bounds_wf()
    }

    open spec fn valid(&self, index: usize) -> bool {
        index < self@.len()
    }

    open spec fn value_at(&self, index: usize) -> Seq<T> {
        self@[index as int]
    }

    open spec fn item_value<'a>(item: &'a [T]) -> Seq<T> {
        item@
    }

    open spec fn owned_value(owned: Vec<T>) -> Seq<T> {
        owned@
    }

    /// A fresh region holds no items.
    open spec fn fresh(&self) -> bool {
        self@.len() == 0
    }

    fn new_region() -> (r: Self) {
        OwnedRegion::new()
    }

    fn merge_regions(regions: &[&Self]) -> (r: Self)
        ensures
            r@ == Seq::<Seq<T>>::empty(),
    {
        let mut elements: usize = 0;
        let mut slices: usize = 0;
        let mut i: usize = 0;
        while i < regions.len()
            invariant
                0 <= i <= regions@.len(),
            decreases regions@.len() - i,
        {
            elements = elements.saturating_add(regions[i].slices.len());
            slices = slices.saturating_add(regions[i].bounds.len());
            i = i + 1;
        }
        let r = OwnedRegion { slices: Vec::with_capacity(elements), bounds: Vec::with_capacity(slices) };
        assert(r@ =~= Seq::<Seq<T>>::empty());
        r
    }

    fn index<'a>(&'a self, index: usize) -> (r: &'a [T]) {
        proof {
            assert(self@.len() == self.bounds@.len());
            if index > 0 {
                assert(self.bounds@[index - 1] <= self.bounds@[index as int]);
            }
            assert(self.bounds@[index as int] <= self.slices@.len());
        }
        let n = self.slices.len();
        let start: usize = if index == 0 {
            0
        } else {
            let b: u64 = self.bounds[index - 1];
            assert(b <= n);
            b as usize
        };
        let e: u64 = self.bounds[index];
        assert(e <= n);
        let end: usize = e as usize;
        assert(start == self.start(index as int));
        assert(end == self.end(index as int));
        vstd::slice::slice_subrange(self.slices.as_slice(), start, end)
    }

    fn reserve_regions(&mut self, regions: &[&Self])
        ensures
            final(self)@ == old(self)@,
    {
        let mut elements: usize = 0;
        let mut slices: usize = 0;
        let mut i: usize = 0;
        while i < regions.len()
            invariant
                0 <= i <= regions@.len(),
            decreases regions@.len() - i,
        {
            elements = elements.saturating_add(regions[i].slices.len());
            slices = slices.saturating_add(regions[i].bounds.len());
            i = i + 1;
        }
        self.slices.reserve(elements);
        self.bounds.reserve(slices);
        assert(self@ =~= old(self)@);
    }

    fn clear(&mut self)
        ensures
            final(self)@ == Seq::<Seq<T>>::empty(),
    {
        self.slices.clear();
        self.bounds.clear();
        assert(self@ =~= Seq::<Seq<T>>::empty());
    }

    /// The bytes in use by the elements and by the bounds of the slices.
    closed spec fn heap_used(&self) -> Seq<usize> {
        seq![crate::impls::storage::vec_used(self.slices@), crate::impls::storage::vec_used(self.bounds@)]
    }

    fn heap_size(&self, sizes: &mut Vec<(usize, usize)>) {
        let ghost s0 = sizes@;
        crate::impls::storage::push_vec_heap(&self.slices, sizes);
        let ghost s1 = sizes@;
        crate::impls::storage::push_vec_heap(&self.bounds, sizes);
        proof {
            crate::lemma_reports_chain(s0, s1, sizes@, seq![crate::impls::storage::vec_used(self.slices@)], seq![crate::impls::storage::vec_used(self.bounds@)]);
            assert(seq![crate::impls::storage::vec_used(self.slices@)] + seq![crate::impls::storage::vec_used(self.bounds@)] =~= self.heap_used());
        }
    }

    fn reborrow<'b, 'a: 'b>(item: &'a [T]) -> (r: &'b [T]) {
        item
    }

    fn item_to_owned<'a>(item: &'a [T]) -> (r: Vec<T>) {
        item.into_owned()
    }
}

impl<'b, T: Copy + 'static> Push<&'b [T]> for OwnedRegion<T> {
    open spec fn pushed_value(item: &'b [T]) -> Seq<T> {
        item@
    }

    open spec fn push_result(&self, item: &'b [T]) -> usize {
        self@.len() as usize
    }

    open spec fn push_requires(&self, item: &'b [T]) -> bool {
        self@.len() < usize::MAX
    }

    /// The region holds what it held, then the item.
    open spec fn push_post(&self, item: &'b [T], after: Self) -> bool {
        after@ == self@.push(item@)
    }

    fn push(&mut self, item: &'b [T]) -> (index: usize)
        ensures
            final(self)@ == old(self)@.push(item@),
    {
        let index = self.push_elements(item);
        proof {
            assert forall|i: usize| #[trigger] old(self).valid(i) implies self.valid(i)
                && self.value_at(i) == old(self).value_at(i) by {
            }
        }
        index
    }
}

impl<'b, 'c, T: Copy + 'static> Push<&'b &'c [T]> for OwnedRegion<T> {
    open spec fn pushed_value(item: &'b &'c [T]) -> Seq<T> {
        item@
    }

    open spec fn push_result(&self, item: &'b &'c [T]) -> usize {
        self@.len() as usize
    }

    open spec fn push_requires(&self, item: &'b &'c [T]) -> bool {
        self@.len() < usize::MAX
    }

    /// The region holds what it held, then the item.
    open spec fn push_post(&self, item: &'b &'c [T], after: Self) -> bool {
        after@ == self@.push(item@)
    }

    fn push(&mut self, item: &'b &'c [T]) -> (index: usize)
        ensures
            final(self)@ == old(self)@.push(item@),
    {
        let index = self.push_elements(*item);
        proof {
            assert forall|i: usize| #[trigger] old(self).valid(i) implies self.valid(i)
                && self.value_at(i) == old(self).value_at(i) by {
            }
        }
        index
    }
}

impl<T: Copy + 'static, const N: usize> Push<[T; N]> for OwnedRegion<T> {
    open spec fn pushed_value(item: [T; N]) -> Seq<T> {
        item@
    }

    open spec fn push_result(&self, item: [T; N]) -> usize {
        self@.len() as usize
    }

    open spec fn push_requires(&self, item: [T; N]) -> bool {
        self@.len() < usize::MAX
    }

    /// The region holds what it held, then the item.
    open spec fn push_post(&self, item: [T; N], after: Self) -> bool {
        after@ == self@.push(item@)
    }

    fn push(&mut self, item: [T; N]) -> (index: usize)
        ensures
            final(self)@ == old(self)@.push(item@),
    {
        let index = self.push_elements(item.as_slice());
        proof {
            assert forall|i: usize| #[trigger] old(self).valid(i) implies self.valid(i)
                && self.value_at(i) == old(self).value_at(i) by {
            }
        }
        index
    }
}

impl<'b, T: Copy + 'static, const N: usize> Push<&'b [T; N]> for OwnedRegion<T> {
    open spec fn pushed_value(item: &'b [T; N]) -> Seq<T> {
        item@
    }

    open spec fn push_result(&self, item: &'b [T; N]) -> usize {
        self@.len() as usize
    }

    open spec fn push_requires(&self, item: &'b [T; N]) -> bool {
        self@.len() < usize::MAX
    }

    /// The region holds what it held, then the item.
    open spec fn push_post(&self, item: &'b [T; N], after: Self) -> bool {
        after@ == self@.push(item@)
    }

    fn push(&mut self, item: &'b [T; N]) -> (index: usize)
        ensures
            final(self)@ == old(self)@.push(item@),
    {
        let index = self.push_elements(item.as_slice());
        proof {
            assert forall|i: usize| #[trigger] old(self).valid(i) implies self.valid(i)
                && self.value_at(i) == old(self).value_at(i) by {
            }
        }
        index
    }
}

impl<'b, 'c, T: Copy + 'static, const N: usize> Push<&'b &'c [T; N]> for OwnedRegion<T> {
    open spec fn pushed_value(item: &'b &'c [T; N]) -> Seq<T> {
        item@
    }

    open spec fn push_result(&self, item: &'b &'c [T; N]) -> usize {
        self@.len() as usize
    }

    open spec fn push_requires(&self, item: &'b &'c [T; N]) -> bool {
        self@.len() < usize::MAX
    }

    /// The region holds what it held, then the item.
    open spec fn push_post(&self, item: &'b &'c [T; N], after: Self) -> bool {
        after@ == self@.push(item@)
    }

    fn push(&mut self, item: &'b &'c [T; N]) -> (index: usize)
        ensures
            final(self)@ == old(self)@.push(item@),
    {
        let index = self.push_elements((*item).as_slice());
        proof {
            assert forall|i: usize| #[trigger] old(self).valid(i) implies self.valid(i)
                && self.value_at(i) == old(self).value_at(i) by {
            }
        }
        index
    }
}

impl<T: Copy + 'static> Push<Vec<T>> for OwnedRegion<T> {
    open spec fn pushed_value(item: Vec<T>) -> Seq<T> {
        item@
    }

    open spec fn push_result(&self, item: Vec<T>) -> usize {
        self@.len() as usize
    }

    open spec fn push_requires(&self, item: Vec<T>) -> bool {
        self@.len() < usize::MAX
    }

    /// The region holds what it held, then the item.
    open spec fn push_post(&self, item: Vec<T>, after: Self) -> bool {
        after@ == self@.push(item@)
    }

    fn push(&mut self, item: Vec<T>) -> (index: usize)
        ensures
            final(self)@ == old(self)@.push(item@),
    {
        let index = self.push_elements(item.as_slice());
        proof {
            assert forall|i: usize| #[trigger] old(self).valid(i) implies self.valid(i)
                && self.value_at(i) == old(self).value_at(i) by {
            }
        }
        index
    }
}

impl<'b, T: Copy + 'static> Push<&'b Vec<T>> for OwnedRegion<T> {
    open spec fn pushed_value(item: &'b Vec<T>) -> Seq<T> {
        item@
    }

    open spec fn push_result(&self, item: &'b Vec<T>) -> usize {
        self@.len() as usize
    }

    open spec fn push_requires(&self, item: &'b Vec<T>) -> bool {
        self@.len() < usize::MAX
    }

    /// The region holds what it held, then the item.
    open spec fn push_post(&self, item: &'b Vec<T>, after: Self) -> bool {
        after@ == self@.push(item@)
    }

    fn push(&mut self, item: &'b Vec<T>) -> (index: usize)
        ensures
            final(self)@ == old(self)@.push(item@),
    {
        let index = self.push_elements(item.as_slice());
        proof {
            assert forall|i: usize| #[trigger] old(self).valid(i) implies self.valid(i)
                && self.value_at(i) == old(self).value_at(i) by {
            }
        }
        index
    }
}

impl<T: Copy + 'static, const N: usize> Push<CopyIter<[T; N]>> for OwnedRegion<T> {
    open spec fn pushed_value(item: CopyIter<[T; N]>) -> Seq<T> {
        item.0@
    }

    open spec fn push_result(&self, item: CopyIter<[T; N]>) -> usize {
        self@.len() as usize
    }

    open spec fn push_requires(&self, item: CopyIter<[T; N]>) -> bool {
        self@.len() < usize::MAX
    }

    /// The region holds what it held, then the item.
    open spec fn push_post(&self, item: CopyIter<[T; N]>, after: Self) -> bool {
        after@ == self@.push(item.0@)
    }

    fn push(&mut self, item: CopyIter<[T; N]>) -> (index: usize)
        ensures
            final(self)@ == old(self)@.push(item.0@),
    {
        let index = self.push_elements(item.0.as_slice());
        proof {
            assert forall|i: usize| #[trigger] old(self).valid(i) implies self.valid(i)
                && self.value_at(i) == old(self).value_at(i) by {
            }
        }
        index
    }
}

impl<'b, T: Copy + 'static> ReserveItems<&'b [T]> for OwnedRegion<T> {
    /// Reserves room for the elements of all items.
    fn reserve_items(&mut self, items: &[&'b [T]])
        ensures
            final(self)@ == old(self)@,
    {
        let mut total: usize = 0;
        let mut i: usize = 0;
        while i < items.len()
            invariant
                0 <= i <= items@.len(),
            decreases items@.len() - i,
        {
            total = total.saturating_add(items[i].len());
            i = i + 1;
        }
        self.reserve_elements(total);
    }
}

impl<'b, T: Copy + 'static, const N: usize> ReserveItems<&'b [T; N]> for OwnedRegion<T> {
    /// Reserves room for the elements of all items.
    fn reserve_items(&mut self, items: &[&'b [T; N]])
        ensures
            final(self)@ == old(self)@,
    {
        let mut total: usize = 0;
        let mut i: usize = 0;
        while i < items.len()
            invariant
                0 <= i <= items@.len(),
            decreases items@.len() - i,
        {
            total = total.saturating_add(N);
            i = i + 1;
        }
        self.reserve_elements(total);
    }
}

impl<'b, T: Copy + 'static> ReserveItems<&'b Vec<T>> for OwnedRegion<T> {
    /// Reserves room for the elements of all items.
    fn reserve_items(&mut self, items: &[&'b Vec<T>])
        ensures
            final(self)@ == old(self)@,
    {
        let mut total: usize = 0;
        let mut i: usize = 0;
        while i < items.len()
            invariant
                0 <= i <= items@.len(),
            decreases items@.len() - i,
        {
            total = total.saturating_add(items[i].len());
            i = i + 1;
        }
        self.reserve_elements(total);
    }
}

impl<T: Copy + 'static, const N: usize> ReserveItems<CopyIter<[T; N]>> for OwnedRegion<T> {
    /// Reserves room for the elements of all items.
    fn reserve_items(&mut self, items: &[CopyIter<[T; N]>])
        ensures
            final(self)@ == old(self)@,
    {
        let mut total: usize = 0;
        let mut i: usize = 0;
        while i < items.len()
            invariant
                0 <= i <= items@.len(),
            decreases items@.len() - i,
        {
            total = total.saturating_add(N);
            i = i + 1;
        }
        self.reserve_elements(total);
    }
}

} // verus!
