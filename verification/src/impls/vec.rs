//! Definitions to use `Vec<T>` as a region.
use vstd::prelude::*;

use crate::impls::storage::vec_heap_size;
use crate::{Region, ReserveItems};

verus! {

/// The sum of the lengths of `regions`.
pub open spec fn lengths_sum<T>(regions: Seq<&Vec<T>>) -> nat
    decreases regions.len(),
{
    if regions.len() == 0 {
        0
    } else {
        lengths_sum(regions.drop_last()) + regions.last()@.len()
    }
}

/// The total length of `regions`, saturating at `usize::MAX`.
fn total_len<T>(regions: &[&Vec<T>]) -> (r: usize)
    ensures
        r == if lengths_sum(regions@) > usize::MAX {
            usize::MAX as nat
        } else {
            lengths_sum(regions@)
        },
{
    let mut total: usize = 0;
    let mut i: usize = 0;
    proof {
        assert(regions@.take(0) =~= Seq::<&Vec<T>>::empty());
    }
    while i < regions.len()
        invariant
            0 <= i <= regions@.len(),
            total == if lengths_sum(regions@.take(i as int)) > usize::MAX {
                usize::MAX as nat
            } else {
                lengths_sum(regions@.take(i as int))
            },
        decreases regions@.len() - i,
    {
        proof {
            assert(regions@.take(i + 1).drop_last() =~= regions@.take(i as int));
            assert(regions@.take(i + 1).last() == regions@[i as int]);
        }
        total = match total.checked_add(regions[i].len()) {
            Some(t) => t,
            None => usize::MAX,
        };
        i = i + 1;
    }
    proof {
        assert(regions@.take(i as int) =~= regions@);
    }
    total
}

/// A vector is a region of its elements, indexed by position.
impl<T: Copy + 'static> Region for Vec<T> {
    type Owned = T;
    type ReadItem<'a> = &'a T;
    type Index = usize;
    type Value = T;

    open spec fn wf(&self) -> bool {
        true
    }

    open spec fn valid(&self, index: usize) -> bool {
        index < self@.len()
    }

    open spec fn value_at(&self, index: usize) -> T {
        self@[index as int]
    }

    open spec fn item_value<'a>(item: &'a T) -> T {
        *item
    }

    open spec fn owned_value(owned: T) -> T {
        owned
    }

    /// A fresh region holds no items.
    open spec fn fresh(&self) -> bool {
        self@.len() == 0
    }

    fn new_region() -> (r: Self)
        ensures
            r@ == Seq::<T>::empty(),
    {
        Vec::new()
    }

    /// A vector with room for the elements of all `regions`.
    fn merge_regions(regions: &[&Self]) -> (r: Self)
        ensures
            r@ == Seq::<T>::empty(),
    {
        Vec::with_capacity(total_len(regions))
    }

    fn index<'a>(&'a self, index: usize) -> (r: &'a T) {
        &self[index]
    }

    fn reserve_regions(&mut self, regions: &[&Self])
        ensures
            final(self)@ == old(self)@,
    {
        let additional = total_len(regions);
        self.reserve(additional);
    }

    fn clear(&mut self)
        ensures
            final(self)@ == Seq::<T>::empty(),
    {
        Vec::clear(self);
    }

    /// The bytes in use by the elements.
    open spec fn heap_used(&self) -> Seq<usize> {
        seq![crate::impls::storage::vec_used(self@)]
    }

    fn heap_size(&self, sizes: &mut Vec<(usize, usize)>) {
        crate::impls::storage::push_vec_heap(self, sizes);
    }

    fn reborrow<'b, 'a: 'b>(item: &'a T) -> (r: &'b T) {
        item
    }

    fn item_to_owned<'a>(item: &'a T) -> (r: T) {
        *item
    }
}

impl<T: Copy + 'static, D> ReserveItems<D> for Vec<T> {
    /// Reserves room for one element per item.
    fn reserve_items(&mut self, items: &[D])
        ensures
            final(self)@ == old(self)@,
    {
        self.reserve(items.len());
    }
}

} // verus!
