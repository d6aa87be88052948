//! Simple deduplication of equal consecutive items.
use vstd::prelude::*;

use vstd::string::*;
use vstd::utf8::*;

use crate::impls::offsets::OffsetContainer;
use crate::impls::slice_copy::OwnedRegion;
use crate::impls::string::StringRegion;
use crate::{Push, Region};

verus! {

/// Compares an item that could be pushed with an item stored in the region.
pub trait PushEq<T>: Push<T> {
    /// Returns whether `item` has the value stored at `index`.
    fn item_eq(&self, item: &T, index: Self::Index) -> (r: bool)
        requires
            self.wf(),
            self.valid(index),
        ensures
            r == (Self::pushed_value(*item) == self.value_at(index)),
    ;
}

/// Returns whether two byte slices are equal.
pub fn bytes_eq(a: &[u8], b: &[u8]) -> (r: bool)
    ensures
        r == (a@ == b@),
{
    if a.len() != b.len() {
        return false;
    }
    let mut i: usize = 0;
    while i < a.len()
        invariant
            a@.len() == b@.len(),
            0 <= i <= a@.len(),
            a@.subrange(0, i as int) == b@.subrange(0, i as int),
        decreases a@.len() - i,
    {
        if a[i] != b[i] {
            assert(a@[i as int] != b@[i as int]);
            return false;
        }
        assert(a@.subrange(0, i + 1) =~= b@.subrange(0, i + 1)) by {
            assert(a@.subrange(0, i + 1) =~= a@.subrange(0, i as int).push(a@[i as int]));
            assert(b@.subrange(0, i + 1) =~= b@.subrange(0, i as int).push(b@[i as int]));
        }
        i = i + 1;
    }
    assert(a@ =~= a@.subrange(0, i as int));
    assert(b@ =~= b@.subrange(0, i as int));
    true
}

impl<'b> PushEq<&'b [u8]> for OwnedRegion<u8> {
    fn item_eq(&self, item: &&'b [u8], index: (usize, usize)) -> (r: bool) {
        let stored = self.index(index);
        bytes_eq(*item, stored)
    }
}

impl<'b> PushEq<&'b str> for StringRegion {
    fn item_eq(&self, item: &&'b str, index: (usize, usize)) -> (r: bool) {
        let stored = self.index(index);
        let r = bytes_eq((*item).as_bytes(), stored.as_bytes());
        proof {
            encode_utf8_decode_utf8(item@);
            encode_utf8_decode_utf8(stored@);
        }
        r
    }
}

impl<'b, 'c> PushEq<&'b &'c str> for StringRegion {
    fn item_eq(&self, item: &&'b &'c str, index: (usize, usize)) -> (r: bool) {
        let stored = self.index(index);
        let r = bytes_eq((**item).as_bytes(), stored.as_bytes());
        proof {
            encode_utf8_decode_utf8(item@);
            encode_utf8_decode_utf8(stored@);
        }
        r
    }
}

impl<'b> PushEq<&'b String> for StringRegion {
    fn item_eq(&self, item: &&'b String, index: (usize, usize)) -> (r: bool) {
        let stored = self.index(index);
        let r = bytes_eq((*item).as_str().as_bytes(), stored.as_bytes());
        proof {
            encode_utf8_decode_utf8(item@);
            encode_utf8_decode_utf8(stored@);
        }
        r
    }
}

impl PushEq<String> for StringRegion {
    fn item_eq(&self, item: &String, index: (usize, usize)) -> (r: bool) {
        let stored = self.index(index);
        let r = bytes_eq(item.as_str().as_bytes(), stored.as_bytes());
        proof {
            encode_utf8_decode_utf8(item@);
            encode_utf8_decode_utf8(stored@);
        }
        r
    }
}

/// A region to deduplicate consecutive equal items.
///
/// Pushing an item equal to the most recently pushed one returns the index of that item
/// instead of storing it again.
pub struct CollapseSequence<R: Region> {
    /// Inner region.
    inner: R,
    /// The index of the last pushed item.
    last_index: Option<R::Index>,
}

impl<R: Region> CollapseSequence<R> {
    /// The inner region.
    pub closed spec fn spec_inner(&self) -> R {
        self.inner
    }

    /// The index of the most recently stored item.
    pub closed spec fn spec_last_index(&self) -> Option<R::Index> {
        self.last_index
    }

    /// Returns an empty region.
    pub fn new() -> (r: Self)
        ensures
            r.spec_inner().wf(),
            r.spec_inner().fresh(),
            r.spec_last_index().is_none(),
    {
        CollapseSequence { inner: R::new_region(), last_index: None }
    }
}

impl<R: Region> Default for CollapseSequence<R> {
    fn default() -> (r: Self)
        ensures
            r.spec_inner().wf(),
            r.spec_inner().fresh(),
            r.spec_last_index().is_none(),
    {
        CollapseSequence::new()
    }
}

impl<R: Region + 'static> Region for CollapseSequence<R> where R::Index: Copy {
    type Owned = R::Owned;
    type ReadItem<'a> = R::ReadItem<'a>;
    type Index = R::Index;
    type Value = R::Value;

    open spec fn wf(&self) -> bool {
        &&& self.spec_inner().wf()
        &&& self.spec_last_index() matches Some(last) ==> self.spec_inner().valid(last)
    }

    open spec fn valid(&self, index: R::Index) -> bool {
        self.spec_inner().valid(index)
    }

    open spec fn value_at(&self, index: R::Index) -> R::Value {
        self.spec_inner().value_at(index)
    }

    open spec fn item_value<'a>(item: R::ReadItem<'a>) -> R::Value {
        R::item_value(item)
    }

    open spec fn owned_value(owned: R::Owned) -> R::Value {
        R::owned_value(owned)
    }

    /// A fresh region holds no items.
    open spec fn fresh(&self) -> bool {
        self.spec_inner().fresh() && self.spec_last_index().is_none()
    }

    open spec fn holds_nothing(&self) -> bool {
        self.spec_inner().holds_nothing() && self.spec_last_index().is_none()
    }

    fn new_region() -> (r: Self) {
        CollapseSequence::new()
    }

    fn merge_regions(regions: &[&Self]) -> (r: Self) {
        let mut inners: Vec<&R> = Vec::new();
        let mut i: usize = 0;
        while i < regions.len()
            invariant
                0 <= i <= regions@.len(),
                inners@.len() == i,
                forall|j: int| 0 <= j < regions@.len() ==> (#[trigger] regions@[j]).wf(),
                forall|j: int| 0 <= j < i ==> (#[trigger] inners@[j]).wf(),
            decreases regions@.len() - i,
        {
            inners.push(&regions[i].inner);
            i = i + 1;
        }
        CollapseSequence { inner: R::merge_regions(inners.as_slice()), last_index: None }
    }

    fn index<'a>(&'a self, index: R::Index) -> (r: R::ReadItem<'a>) {
        self.inner.index(index)
    }

    fn reserve_regions(&mut self, regions: &[&Self]) {
        let mut inners: Vec<&R> = Vec::new();
        let mut i: usize = 0;
        while i < regions.len()
            invariant
                0 <= i <= regions@.len(),
                inners@.len() == i,
                forall|j: int| 0 <= j < regions@.len() ==> (#[trigger] regions@[j]).wf(),
                forall|j: int| 0 <= j < i ==> (#[trigger] inners@[j]).wf(),
            decreases regions@.len() - i,
        {
            inners.push(&regions[i].inner);
            i = i + 1;
        }
        self.inner.reserve_regions(inners.as_slice());
    }

    fn clear(&mut self)
        ensures
            final(self).spec_last_index().is_none(),
    {
        self.inner.clear();
        self.last_index = None;
    }

    open spec fn heap_used(&self) -> Seq<usize> {
        self.spec_inner().heap_used()
    }

    fn heap_size(&self, sizes: &mut Vec<(usize, usize)>) {
        self.inner.heap_size(sizes);
    }

    fn reborrow<'b, 'a: 'b>(item: R::ReadItem<'a>) -> (r: R::ReadItem<'b>) {
        R::reborrow(item)
    }

    fn item_to_owned<'a>(item: R::ReadItem<'a>) -> (r: R::Owned) {
        R::item_to_owned(item)
    }
}

impl<R: Region + PushEq<T> + 'static, T> Push<T> for CollapseSequence<R> where R::Index: Copy {
    open spec fn pushed_value(item: T) -> R::Value {
        R::pushed_value(item)
    }

    /// An item equal to the last one gets the last index; any other item is stored.
    open spec fn push_result(&self, item: T) -> R::Index {
        match self.spec_last_index() {
            Some(last) => if R::pushed_value(item) == self.spec_inner().value_at(last) {
                last
            } else {
                self.spec_inner().push_result(item)
            },
            None => self.spec_inner().push_result(item),
        }
    }

    open spec fn push_requires(&self, item: T) -> bool {
        self.spec_inner().push_requires(item)
    }

    /// An item that collapses leaves the inner region as it was; any other is pushed into
    /// it. Either way the item's index is the last one.
    open spec fn push_post(&self, item: T, after: Self) -> bool {
        &&& after.spec_last_index() == Some(self.push_result(item))
        &&& match self.spec_last_index() {
            Some(last) => if R::pushed_value(item) == self.spec_inner().value_at(last) {
                after.spec_inner() == self.spec_inner()
            } else {
                self.spec_inner().push_post(item, after.spec_inner())
            },
            None => self.spec_inner().push_post(item, after.spec_inner()),
        }
    }

    fn push(&mut self, item: T) -> (index: R::Index)
        ensures
            final(self).spec_last_index() == Some(index),
    {
        if let Some(last_index) = self.last_index {
            if self.inner.item_eq(&item, last_index) {
                return last_index;
            }
        }
        let index = self.inner.push(item);
        self.last_index = Some(index);
        index
    }
}

/// Pushing an item equal to the most recently pushed one returns the index of that item.
pub proof fn lemma_repeated_push_collapses<R: Region + PushEq<T> + 'static, T>(
    region: CollapseSequence<R>,
    item: T,
    last: R::Index,
)
    where R::Index: Copy
    requires
        region.wf(),
        region.spec_last_index() == Some(last),
        region.value_at(last) == R::pushed_value(item),
    ensures
        region.push_result(item) == last,
{
}

/// Transform an index of `(usize, usize)` to a sequence of `0..`. Requires the pairs to
/// be dense, i.e., `(i, j)` is followed by `(j, k)`.
///
/// Defers to region `R` for storing items, and uses offset container `O` to
/// remeber indices. By default, `O` is `Vec<usize>`.
pub struct ConsecutiveOffsetPairs<R, O = Vec<usize>> where
    R: Region<Index = (usize, usize)>,
    O: OffsetContainer<usize>,
 {
    /// Wrapped region
    inner: R,
    /// Storage for offsets. Always stores element 0.
    offsets: O,
    /// The most recent end of the index pair of region `R`.
    last_index: usize,
}

impl<R: Region<Index = (usize, usize)>, O: OffsetContainer<usize>> ConsecutiveOffsetPairs<R, O> {
    /// The inner region.
    pub closed spec fn spec_inner(&self) -> R {
        self.inner
    }

    /// The container of the offsets.
    pub closed spec fn spec_offsets_container(&self) -> O {
        self.offsets
    }

    /// The offsets: `0`, then the end of each pushed item.
    pub closed spec fn spec_offsets(&self) -> Seq<usize> {
        self.offsets.offsets()
    }

    /// The end of the most recently pushed item.
    pub closed spec fn spec_last_index(&self) -> usize {
        self.last_index
    }

    /// The index into the inner region of the item at position `i`.
    pub open spec fn inner_index(&self, i: int) -> (usize, usize) {
        (self.spec_offsets()[i], self.spec_offsets()[i + 1])
    }

    /// Returns an empty region.
    pub fn new() -> (r: Self)
        ensures
            r.spec_inner().wf(),
            r.spec_inner().fresh(),
            r.offsets_wf(),
            r.spec_offsets() == seq![0usize],
            r.spec_last_index() == 0,
    {
        let mut offsets = O::new_offsets();
        offsets.push(0);
        let r = ConsecutiveOffsetPairs { inner: R::new_region(), offsets, last_index: 0 };
        r
    }
}

impl<R: Region<Index = (usize, usize)>, O: OffsetContainer<usize>> Default for ConsecutiveOffsetPairs<
    R,
    O,
> {
    fn default() -> (r: Self)
        ensures
            r.spec_inner().wf(),
            r.spec_offsets() == seq![0usize],
            r.spec_last_index() == 0,
    {
        ConsecutiveOffsetPairs::new()
    }
}

impl<R: Region<Index = (usize, usize)> + 'static, O: OffsetContainer<usize> + 'static> Region for ConsecutiveOffsetPairs<
    R,
    O,
> {
    type Owned = R::Owned;
    type ReadItem<'a> = R::ReadItem<'a>;
    type Index = usize;
    type Value = R::Value;

    /// The offsets start with 0 and end with the last end, and each consecutive pair
    /// designates an item of the inner region.
    open spec fn wf(&self) -> bool {
        &&& self.spec_inner().wf()
        &&& self.offsets_wf()
        &&& 1 <= self.spec_offsets().len() <= usize::MAX
        &&& self.spec_offsets()[0] == 0
        &&& self.spec_offsets().last() == self.spec_last_index()
        &&& forall|i: int|
            0 <= i < self.spec_offsets().len() - 1 ==> self.spec_inner().valid(
                #[trigger] self.inner_index(i),
            )
    }

    open spec fn valid(&self, index: usize) -> bool {
        index + 1 < self.spec_offsets().len()
    }

    open spec fn value_at(&self, index: usize) -> R::Value {
        self.spec_inner().value_at(self.inner_index(index as int))
    }

    open spec fn item_value<'a>(item: R::ReadItem<'a>) -> R::Value {
        R::item_value(item)
    }

    open spec fn owned_value(owned: R::Owned) -> R::Value {
        R::owned_value(owned)
    }

    /// A fresh region holds no items.
    open spec fn fresh(&self) -> bool {
        self.spec_offsets() == seq![0usize] && self.spec_last_index() == 0 && self.spec_inner().fresh()
    }

    open spec fn holds_nothing(&self) -> bool {
        self.spec_offsets() == seq![0usize] && self.spec_last_index() == 0 && self.spec_inner().holds_nothing()
    }

    fn new_region() -> (r: Self) {
        ConsecutiveOffsetPairs::new()
    }

    fn merge_regions(regions: &[&Self]) -> (r: Self) {
        let mut inners: Vec<&R> = Vec::new();
        let mut i: usize = 0;
        while i < regions.len()
            invariant
                0 <= i <= regions@.len(),
                inners@.len() == i,
                forall|j: int| 0 <= j < regions@.len() ==> (#[trigger] regions@[j]).wf(),
                forall|j: int| 0 <= j < i ==> (#[trigger] inners@[j]).wf(),
            decreases regions@.len() - i,
        {
            inners.push(&regions[i].inner);
            i = i + 1;
        }
        let mut offsets = O::new_offsets();
        offsets.push(0);
        ConsecutiveOffsetPairs { inner: R::merge_regions(inners.as_slice()), offsets, last_index: 0 }
    }

    fn index<'a>(&'a self, index: usize) -> (r: R::ReadItem<'a>) {
        let start = self.offsets.index(index);
        let end = self.offsets.index(index + 1);
        assert(self.spec_inner().valid(self.inner_index(index as int)));
        self.inner.index((start, end))
    }

    fn reserve_regions(&mut self, regions: &[&Self]) {
        let mut inners: Vec<&R> = Vec::new();
        let mut i: usize = 0;
        while i < regions.len()
            invariant
                0 <= i <= regions@.len(),
                inners@.len() == i,
                forall|j: int| 0 <= j < regions@.len() ==> (#[trigger] regions@[j]).wf(),
                forall|j: int| 0 <= j < i ==> (#[trigger] inners@[j]).wf(),
            decreases regions@.len() - i,
        {
            inners.push(&regions[i].inner);
            i = i + 1;
        }
        let ghost old_inner = self.inner;
        self.inner.reserve_regions(inners.as_slice());
        proof {
            assert forall|i: int| 0 <= i < self.spec_offsets().len() - 1 implies self.spec_inner().valid(
                #[trigger] self.inner_index(i),
            ) by {
                assert(old(self).inner_index(i) == self.inner_index(i));
                assert(old_inner.valid(old(self).inner_index(i)));
            }
        }
    }

    fn clear(&mut self) {
        self.last_index = 0;
        self.inner.clear();
        self.offsets.clear();
        self.offsets.push(0);
    }

    open spec fn heap_used(&self) -> Seq<usize> {
        self.spec_offsets_container().offsets_heap() + self.spec_inner().heap_used()
    }

    fn heap_size(&self, sizes: &mut Vec<(usize, usize)>) {
        let ghost s0 = sizes@;
        self.offsets.heap_size(sizes);
        let ghost s1 = sizes@;
        self.inner.heap_size(sizes);
        proof {
            crate::lemma_reports_chain(s0, s1, sizes@, self.offsets.offsets_heap(), self.inner.heap_used());
        }
    }

    fn reborrow<'b, 'a: 'b>(item: R::ReadItem<'a>) -> (r: R::ReadItem<'b>) {
        R::reborrow(item)
    }

    fn item_to_owned<'a>(item: R::ReadItem<'a>) -> (r: R::Owned) {
        R::item_to_owned(item)
    }
}

impl<R: Region<Index = (usize, usize)>, O: OffsetContainer<usize>> ConsecutiveOffsetPairs<R, O> {
    /// The offset container is well formed.
    pub closed spec fn offsets_wf(&self) -> bool {
        self.offsets.offsets_wf()
    }
}

impl<R: Region<Index = (usize, usize)> + Push<T> + 'static, O: OffsetContainer<usize> + 'static, T> Push<
    T,
> for ConsecutiveOffsetPairs<R, O> {
    open spec fn pushed_value(item: T) -> R::Value {
        R::pushed_value(item)
    }

    open spec fn push_result(&self, item: T) -> usize {
        (self.spec_offsets().len() - 1) as usize
    }

    /// The inner region must accept the item, and place it right after the last one.
    open spec fn push_requires(&self, item: T) -> bool {
        &&& self.spec_inner().push_requires(item)
        &&& self.spec_inner().push_result(item).0 == self.spec_last_index()
        &&& self.spec_offsets().len() < usize::MAX
    }

    /// The inner region absorbs the item, and its end becomes the last offset.
    open spec fn push_post(&self, item: T, after: Self) -> bool {
        &&& self.spec_inner().push_post(item, after.spec_inner())
        &&& after.spec_last_index() == self.spec_inner().push_result(item).1
        &&& after.spec_offsets() == self.spec_offsets().push(after.spec_last_index())
    }

    fn push(&mut self, item: T) -> (index: usize) {
        let ghost old_inner = self.inner;
        let index = self.inner.push(item);
        self.last_index = index.1;
        self.offsets.push(index.1);
        proof {
            let offs = self.spec_offsets();
            assert forall|i: int| 0 <= i < offs.len() - 1 implies self.spec_inner().valid(
                #[trigger] self.inner_index(i),
            ) by {
                if i < offs.len() - 2 {
                    assert(old(self).inner_index(i) == self.inner_index(i));
                    assert(old_inner.valid(old(self).inner_index(i)));
                }
            }
            assert forall|i: usize| #[trigger] old(self).valid(i) implies self.valid(i)
                && self.value_at(i) == old(self).value_at(i) by {
                assert(old(self).inner_index(i as int) == self.inner_index(i as int));
                assert(old_inner.valid(old(self).inner_index(i as int)));
            }
        }
        self.offsets.len() - 2
    }
}

impl<R: Region<Index = (usize, usize)> + PushEq<T> + 'static, O: OffsetContainer<usize> + 'static, T> PushEq<
    T,
> for ConsecutiveOffsetPairs<R, O> {
    fn item_eq(&self, item: &T, index: usize) -> (r: bool) {
        let start = self.offsets.index(index);
        let end = self.offsets.index(index + 1);
        assert(self.spec_inner().valid(self.inner_index(index as int)));
        self.inner.item_eq(item, (start, end))
    }
}

} // verus!
