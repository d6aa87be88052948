//! Storage abstractions to represent slices of data.
use vstd::prelude::*;

use crate::CopyIter;

verus! {

/// Calls `<[T]>::swap`, which the standard library documents to swap the elements at
/// positions `a` and `b`, and to panic if either is out of bounds.
///
/// The contract claims exactly that exchange for in-bounds positions.
#[verifier::external_body]
pub(crate) fn slice_swap<T>(s: &mut [T], a: usize, b: usize)
    requires
        a < old(s)@.len(),
        b < old(s)@.len(),
    ensures
        final(s)@ == old(s)@.update(a as int, old(s)@[b as int]).update(b as int, old(s)@[a as int]),
{
    s.swap(a, b)
}


/// Moves the items of an array into a new vector, in order: `Vec::from` on an array,
/// which std documents as allocating a vector and moving the array's items into it.
#[verifier::external_body]
pub(crate) fn array_into_vec<T, const N: usize>(array: [T; N]) -> (v: Vec<T>)
    ensures
        v@ == array@,
{
    Vec::from(array)
}

/// Calls `Vec::capacity`.
///
/// The standard library documents that a vector's capacity is never smaller than its
/// length, and that a vector never holds an allocation of more than `isize::MAX` bytes;
/// this is all the contract claims. The capacity itself depends on the allocation
/// history and is left open.
#[verifier::external_body]
pub(crate) fn vec_capacity<T>(v: &Vec<T>) -> (c: usize)
    ensures
        v@.len() <= c,
        c * vstd::layout::size_of::<T>() <= isize::MAX,
{
    v.capacity()
}

/// The bytes in use by a vector holding `items`.
pub open spec fn vec_used<T>(items: Seq<T>) -> usize {
    (items.len() * vstd::layout::size_of::<T>()) as usize
}

/// The number of bytes used and allocated by a vector: `(len * size_of::<T>(),
/// capacity * size_of::<T>())`.
pub fn vec_heap_size<T>(v: &Vec<T>) -> (r: (usize, usize))
    ensures
        r.0 == v@.len() * vstd::layout::size_of::<T>(),
        r.0 == vec_used(v@),
        r.0 <= r.1,
{
    let size_of_t = core::mem::size_of::<T>();
    let cap = vec_capacity(v);
    let len = v.len();
    proof {
        vstd::arithmetic::mul::lemma_mul_inequality(len as int, cap as int, size_of_t as int);
    }
    (len * size_of_t, cap * size_of_t)
}

/// Appends the `(size, capacity)` in bytes of a vector.
pub fn push_vec_heap<T>(v: &Vec<T>, sizes: &mut Vec<(usize, usize)>)
    ensures
        crate::reports(old(sizes)@, final(sizes)@, seq![vec_used(v@)]),
{
    let entry = vec_heap_size(v);
    proof {
        crate::lemma_reports_push(sizes@, entry);
    }
    sizes.push(entry);
}

/// Behavior to allocate storage.
///
/// This trait does not express opinions on how to populate itself and how to extract data.
/// The abstract state of a storage is the sequence of elements it holds, [`Storage::stored`].
pub trait Storage<T>: Sized {
    /// The well-formedness invariant of the storage.
    spec fn storage_wf(&self) -> bool;

    /// The elements held by the storage.
    spec fn stored(&self) -> Seq<T>;

    /// Allocate storage for at least `capacity` elements.
    fn with_capacity(capacity: usize) -> (r: Self)
        ensures
            r.storage_wf(),
            r.stored() == Seq::<T>::empty(),
    ;

    /// Allocate storage large enough to absorb `regions`'s contents.
    fn merge_regions(regions: &[&Self]) -> (r: Self)
        requires
            forall|i: int| 0 <= i < regions@.len() ==> (#[trigger] regions@[i]).storage_wf(),
        ensures
            r.storage_wf(),
            r.stored() == Seq::<T>::empty(),
    {
        let mut total: usize = 0;
        let mut i: usize = 0;
        while i < regions.len()
            invariant
                0 <= i <= regions@.len(),
                forall|j: int| 0 <= j < regions@.len() ==> (#[trigger] regions@[j]).storage_wf(),
            decreases regions@.len() - i,
        {
            total = total.saturating_add(regions[i].len());
            i = i + 1;
        }
        Self::with_capacity(total)
    }

    /// Reserve space for `additional` elements.
    fn reserve(&mut self, additional: usize)
        requires
            old(self).storage_wf(),
        ensures
            final(self).storage_wf(),
            final(self).stored() == old(self).stored(),
    ;

    /// Reserve space for `regions`.
    fn reserve_regions(&mut self, regions: &[&Self])
        requires
            old(self).storage_wf(),
            forall|i: int| 0 <= i < regions@.len() ==> (#[trigger] regions@[i]).storage_wf(),
        ensures
            final(self).storage_wf(),
            final(self).stored() == old(self).stored(),
    {
        let mut total: usize = 0;
        let mut i: usize = 0;
        while i < regions.len()
            invariant
                0 <= i <= regions@.len(),
                forall|j: int| 0 <= j < regions@.len() ==> (#[trigger] regions@[j]).storage_wf(),
            decreases regions@.len() - i,
        {
            total = total.saturating_add(regions[i].len());
            i = i + 1;
        }
        self.reserve(total);
    }

    /// Clear all contents, possibly retaining some allocations.
    fn clear(&mut self)
        requires
            old(self).storage_wf(),
        ensures
            final(self).storage_wf(),
            final(self).stored() == Seq::<T>::empty(),
    ;

    /// The bytes in use in each allocation the storage owns, in the order
    /// [`Storage::heap_size`] reports them.
    spec fn storage_heap(&self) -> Seq<usize>;

    /// Appends one `(size, capacity)` pair in bytes for each allocation the storage owns.
    fn heap_size(&self, sizes: &mut Vec<(usize, usize)>)
        requires
            self.storage_wf(),
        ensures
            crate::reports(old(sizes)@, final(sizes)@, self.storage_heap()),
    ;

    /// Returns the number of elements.
    fn len(&self) -> (r: usize)
        requires
            self.storage_wf(),
        ensures
            r == self.stored().len(),
    ;

    /// Returns `true` if empty, i.e., it doesn't contain any elements.
    fn is_empty(&self) -> (r: bool)
        requires
            self.storage_wf(),
        ensures
            r == (self.stored().len() == 0),
    ;
}

impl<T> Storage<T> for Vec<T> {
    open spec fn storage_wf(&self) -> bool {
        true
    }

    open spec fn stored(&self) -> Seq<T> {
        self@
    }

    fn with_capacity(capacity: usize) -> (r: Self) {
        Vec::with_capacity(capacity)
    }

    fn reserve(&mut self, additional: usize) {
        Vec::reserve(self, additional);
    }

    fn clear(&mut self) {
        Vec::clear(self);
    }

    open spec fn storage_heap(&self) -> Seq<usize> {
        seq![vec_used(self@)]
    }

    fn heap_size(&self, sizes: &mut Vec<(usize, usize)>) {
        push_vec_heap(self, sizes);
    }

    fn len(&self) -> (r: usize) {
        Vec::len(self)
    }

    fn is_empty(&self) -> (r: bool) {
        Vec::len(self) == 0
    }
}

/// Push an item into storage.
pub trait PushStorage<T>: Sized {
    /// Push an item into storage.
    fn push_storage(&mut self, item: T);
}

impl<'a, T> PushStorage<&'a mut Vec<T>> for Vec<T> {
    /// Moves the elements of `item` to the end of `self`, emptying `item`.
    fn push_storage(&mut self, item: &'a mut Vec<T>)
        ensures
            final(self)@ == old(self)@ + old(item)@,
            final(item)@ == Seq::<T>::empty(),
    {
        self.append(item);
    }
}

impl<'a, T: Copy> PushStorage<&'a [T]> for Vec<T> {
    /// Appends a copy of the elements of `item` to the end of `self`.
    fn push_storage(&mut self, item: &'a [T])
        ensures
            final(self)@ == old(self)@ + item@,
    {
        push_slice(self, item);
    }
}

impl<T: Copy, const N: usize> PushStorage<CopyIter<[T; N]>> for Vec<T> {
    /// Appends the elements of the wrapped array to the end of `self`.
    fn push_storage(&mut self, item: CopyIter<[T; N]>)
        ensures
            final(self)@ == old(self)@ + item.0@,
    {
        let arr = item.0;
        push_slice(self, arr.as_slice());
    }
}

/// Appends a copy of the elements of `item` to `v`.
pub fn push_slice<T: Copy>(v: &mut Vec<T>, item: &[T])
    ensures
        final(v)@ == old(v)@ + item@,
{
    let mut i: usize = 0;
    while i < item.len()
        invariant
            0 <= i <= item@.len(),
            v@ == old(v)@ + item@.subrange(0, i as int),
        decreases item@.len() - i,
    {
        v.push(item[i]);
        assert(item@.subrange(0, i + 1) =~= item@.subrange(0, i as int).push(item@[i as int]));
        i = i + 1;
    }
    assert(item@.subrange(0, item@.len() as int) =~= item@);
}

} // verus!
