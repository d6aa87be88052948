//! A region that copies its inputs.
use vstd::prelude::*;

use crate::{Push, Region, RegionPreference, ReserveItems};

verus! {

/// A region for types where the read item type is equal to the index type.
///
/// This region is useful where the type is not larger than roughly two `usize`s (or 1.5x with
/// some optimizations), or looking up the value is too costly. For larger copy types, the memory
/// required to store the copy type and an index is only marginally bigger, with the benefit
/// that the index remains compact.
pub struct MirrorRegion<T> {
    _marker: core::marker::PhantomData<T>,
}

impl<T> MirrorRegion<T> {
    /// Returns the (storage-less) region.
    pub fn new() -> (r: Self) {
        MirrorRegion { _marker: core::marker::PhantomData }
    }
}

impl<T> Default for MirrorRegion<T> {
    fn default() -> (r: Self) {
        MirrorRegion { _marker: core::marker::PhantomData }
    }
}

impl<T: Copy + 'static> Region for MirrorRegion<T> {
    type Owned = T;
    type ReadItem<'a> = T;
    type Index = T;
    type Value = T;

    open spec fn wf(&self) -> bool {
        true
    }

    open spec fn valid(&self, index: T) -> bool {
        true
    }

    open spec fn value_at(&self, index: T) -> T {
        index
    }

    open spec fn item_value<'a>(item: T) -> T {
        item
    }

    open spec fn owned_value(owned: T) -> T {
        owned
    }

    fn new_region() -> (r: Self) {
        Self::new()
    }

    fn merge_regions(_regions: &[&Self]) -> (r: Self) {
        Self::new()
    }

    fn index<'a>(&'a self, index: T) -> (r: T) {
        index
    }

    fn reserve_regions(&mut self, _regions: &[&Self]) {
        // No storage
    }

    fn clear(&mut self) {
        // No storage
    }

    /// The region owns no allocation.
    open spec fn heap_used(&self) -> Seq<usize> {
        Seq::empty()
    }

    fn heap_size(&self, sizes: &mut Vec<(usize, usize)>)
        ensures
            final(sizes)@ == old(sizes)@,
    {
        // No storage
        proof {
            crate::lemma_reports_none(sizes@);
        }
    }

    fn reborrow<'b, 'a: 'b>(item: T) -> (r: T) {
        item
    }

    fn item_to_owned<'a>(item: T) -> (r: T) {
        item
    }
}

impl<T: Copy + 'static> Push<T> for MirrorRegion<T> {
    open spec fn pushed_value(item: T) -> T {
        item
    }

    open spec fn push_result(&self, item: T) -> T {
        item
    }

    open spec fn push_requires(&self, item: T) -> bool {
        true
    }

    fn push(&mut self, item: T) -> (index: T) {
        item
    }
}

impl<'b, T: Copy + 'static> Push<&'b T> for MirrorRegion<T> {
    open spec fn pushed_value(item: &'b T) -> T {
        *item
    }

    open spec fn push_result(&self, item: &'b T) -> T {
        *item
    }

    open spec fn push_requires(&self, item: &'b T) -> bool {
        true
    }

    fn push(&mut self, item: &'b T) -> (index: T) {
        *item
    }
}

impl<'b, 'c, T: Copy + 'static> Push<&'b &'c T> for MirrorRegion<T> {
    open spec fn pushed_value(item: &'b &'c T) -> T {
        **item
    }

    open spec fn push_result(&self, item: &'b &'c T) -> T {
        **item
    }

    open spec fn push_requires(&self, item: &'b &'c T) -> bool {
        true
    }

    fn push(&mut self, item: &'b &'c T) -> (index: T) {
        **item
    }
}

impl<T: Copy + 'static> ReserveItems<T> for MirrorRegion<T> {
    fn reserve_items(&mut self, _items: &[T]) {
        // No storage
    }
}

impl<'a, T: Copy + 'static> ReserveItems<&'a T> for MirrorRegion<T> {
    fn reserve_items(&mut self, _items: &[&'a T]) {
        // No storage
    }
}

impl RegionPreference for bool {
    type Owned = bool;
    type Region = MirrorRegion<bool>;
}

impl RegionPreference for char {
    type Owned = char;
    type Region = MirrorRegion<char>;
}

impl RegionPreference for u8 {
    type Owned = u8;
    type Region = MirrorRegion<u8>;
}

impl RegionPreference for u16 {
    type Owned = u16;
    type Region = MirrorRegion<u16>;
}

impl RegionPreference for u32 {
    type Owned = u32;
    type Region = MirrorRegion<u32>;
}

impl RegionPreference for u64 {
    type Owned = u64;
    type Region = MirrorRegion<u64>;
}

impl RegionPreference for u128 {
    type Owned = u128;
    type Region = MirrorRegion<u128>;
}

impl RegionPreference for usize {
    type Owned = usize;
    type Region = MirrorRegion<usize>;
}

impl RegionPreference for i8 {
    type Owned = i8;
    type Region = MirrorRegion<i8>;
}

impl RegionPreference for i16 {
    type Owned = i16;
    type Region = MirrorRegion<i16>;
}

impl RegionPreference for i32 {
    type Owned = i32;
    type Region = MirrorRegion<i32>;
}

impl RegionPreference for i64 {
    type Owned = i64;
    type Region = MirrorRegion<i64>;
}

impl RegionPreference for i128 {
    type Owned = i128;
    type Region = MirrorRegion<i128>;
}

impl RegionPreference for isize {
    type Owned = isize;
    type Region = MirrorRegion<isize>;
}

} // verus!
