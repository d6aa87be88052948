//! Types to store indexes.
use vstd::prelude::*;

use crate::impls::offsets::{stride_seq, OffsetContainer};
use crate::impls::storage::{vec_heap_size, Storage};

verus! {

/// A container to store indices.
pub trait IndexContainer<T>: Storage<T> {
    /// Lookup an index. May panic for invalid indexes.
    fn index(&self, index: usize) -> (r: T)
        requires
            self.storage_wf(),
            index < self.stored().len(),
        ensures
            r == self.stored()[index as int],
    ;

    /// Accepts a newly pushed element.
    fn push(&mut self, item: T)
        requires
            old(self).storage_wf(),
            old(self).stored().len() < usize::MAX,
        ensures
            final(self).storage_wf(),
            final(self).stored() == old(self).stored().push(item),
    ;

    /// Extend from a slice of elements.
    fn extend(&mut self, items: &[T])
        requires
            old(self).storage_wf(),
            old(self).stored().len() + items@.len() <= usize::MAX,
        ensures
            final(self).storage_wf(),
            final(self).stored() == old(self).stored() + items@,
    ;
}

impl<T: Copy> IndexContainer<T> for Vec<T> {
    fn index(&self, index: usize) -> (r: T) {
        self[index]
    }

    fn push(&mut self, item: T) {
        Vec::push(self, item);
    }

    fn extend(&mut self, items: &[T]) {
        crate::impls::storage::push_slice(self, items);
    }
}

/// A container for offsets that can represent strides of offsets.
///
/// Does not implement [`IndexContainer`] because it cannot accept arbitrary pushes. Instead,
/// its `push` method returns a boolean to indicate whether the push was successful or not.
///
/// This type can absorb sequences of the form `0, stride, 2 * stride, 3 * stride, ...` and
/// saturates in a repeated last element.
#[derive(Clone, Copy, Debug, PartialEq, Eq, Structural)]
pub enum Stride {
    /// No push has occurred.
    Empty,
    /// Pushed a single 0.
    Zero,
    /// `Striding(stride, count)`: `count` many steps of stride `stride` have been pushed.
    Striding(usize, usize),
    /// `Saturated(stride, count, reps)`: `count` many steps of stride `stride`, followed by
    /// `reps` repetitions of the last element have been pushed.
    Saturated(usize, usize, usize),
}

impl Stride {
    /// Every step pushed so far fits in a `usize`, as does the length.
    pub open spec fn wf(&self) -> bool {
        match *self {
            Stride::Empty => true,
            Stride::Zero => true,
            Stride::Striding(stride, count) => count >= 2 && stride * (count - 1) <= usize::MAX,
            Stride::Saturated(stride, count, reps) => {
                &&& count >= 2
                &&& reps >= 1
                &&& stride * (count - 1) <= usize::MAX
                &&& count + reps <= usize::MAX
            },
        }
    }

    /// The elements represented.
    pub open spec fn view(&self) -> Seq<usize> {
        match *self {
            Stride::Empty => Seq::empty(),
            Stride::Zero => seq![0usize],
            Stride::Striding(stride, count) => stride_seq(stride, count, 0),
            Stride::Saturated(stride, count, reps) => stride_seq(stride, count, reps),
        }
    }

    /// Whether a push of `item` is accepted in this state: `0` first, then anything
    /// (which fixes the stride), then the next step or a repetition of the last one, and
    /// once saturated, only repetitions of the last element.
    pub open spec fn accepts(&self, item: usize) -> bool {
        match *self {
            Stride::Empty => item == 0,
            Stride::Zero => true,
            Stride::Striding(stride, count) => item == stride * count || item == stride * (count - 1),
            Stride::Saturated(stride, count, _reps) => item == stride * (count - 1),
        }
    }

    /// The empty stride.
    pub fn new() -> (r: Self)
        ensures
            r.wf(),
            r@ == Seq::<usize>::empty(),
    {
        Stride::Empty
    }

    /// Accepts or rejects a newly pushed element.
    pub fn push(&mut self, item: usize) -> (accepted: bool)
        requires
            old(self).wf(),
            old(self)@.len() < usize::MAX,
        ensures
            final(self).wf(),
            accepted == old(self).accepts(item),
            accepted ==> final(self)@ == old(self)@.push(item),
            !accepted ==> *final(self) == *old(self),
    {
        match *self {
            Stride::Empty => {
                if item == 0 {
                    *self = Stride::Zero;
                    true
                } else {
                    false
                }
            },
            Stride::Zero => {
                *self = Stride::Striding(item, 2);
                assert(self@[0] == 0usize);
                assert(item * 1int == item) by (nonlinear_arith);
                assert(self@[1] == item);
                assert(self@ =~= seq![0usize].push(item));
                true
            },
            Stride::Striding(stride, count) => {
                let next = stride.checked_mul(count);
                if next.is_some() && item == next.unwrap() {
                    *self = Stride::Striding(stride, count + 1);
                    assert(self@ =~= old(self)@.push(item));
                    true
                } else if item == stride * (count - 1) {
                    *self = Stride::Saturated(stride, count, 1);
                    assert(self@ =~= old(self)@.push(item));
                    true
                } else {
                    false
                }
            },
            Stride::Saturated(stride, count, reps) => {
                if item == stride * (count - 1) {
                    *self = Stride::Saturated(stride, count, reps + 1);
                    assert(self@ =~= old(self)@.push(item));
                    true
                } else {
                    false
                }
            },
        }
    }

    /// Lookup the element at `index`.
    pub fn index(&self, index: usize) -> (r: usize)
        requires
            self.wf(),
            index < self@.len(),
        ensures
            r == self@[index as int],
    {
        match *self {
            Stride::Empty => { 0 },
            Stride::Zero => 0,
            Stride::Striding(stride, steps) => {
                proof {
                    vstd::arithmetic::mul::lemma_mul_inequality(
                        index as int,
                        steps - 1,
                        stride as int,
                    );
                    vstd::arithmetic::mul::lemma_mul_is_commutative(index as int, stride as int);
                    vstd::arithmetic::mul::lemma_mul_is_commutative(steps - 1, stride as int);
                }
                stride * index
            },
            Stride::Saturated(stride, steps, _reps) => {
                if index < steps {
                    proof {
                        vstd::arithmetic::mul::lemma_mul_inequality(
                            index as int,
                            steps - 1,
                            stride as int,
                        );
                        vstd::arithmetic::mul::lemma_mul_is_commutative(index as int, stride as int);
                        vstd::arithmetic::mul::lemma_mul_is_commutative(steps - 1, stride as int);
                    }
                    stride * index
                } else {
                    stride * (steps - 1)
                }
            },
        }
    }

    /// Returns the number of elements.
    pub fn len(&self) -> (r: usize)
        requires
            self.wf(),
        ensures
            r == self@.len(),
    {
        match *self {
            Stride::Empty => 0,
            Stride::Zero => 1,
            Stride::Striding(_stride, steps) => steps,
            Stride::Saturated(_stride, steps, reps) => steps + reps,
        }
    }

    /// Returns `true` if empty.
    pub fn is_empty(&self) -> (r: bool)
        requires
            self.wf(),
        ensures
            r == (self@.len() == 0),
    {
        match *self {
            Stride::Empty => true,
            _ => false,
        }
    }

    /// Removes all elements.
    pub fn clear(&mut self)
        ensures
            final(self).wf(),
            final(self)@ == Seq::<usize>::empty(),
    {
        *self = Stride::Empty;
    }

    /// Return an iterator over the elements.
    pub fn iter(&self) -> (r: StrideIter)
        requires
            self.wf(),
        ensures
            r.wf(),
            r@ == self@,
    {
        let r = StrideIter { strided: *self, index: 0 };
        assert(r@ =~= self@);
        r
    }
}

impl Default for Stride {
    fn default() -> (r: Self)
        ensures
            r == Stride::Empty,
    {
        Stride::Empty
    }
}

/// An iterator over the elements of a [`Stride`].
#[derive(Clone, Copy)]
pub struct StrideIter {
    strided: Stride,
    index: usize,
}

impl StrideIter {
    /// The iterated stride is well formed.
    pub closed spec fn wf(&self) -> bool {
        self.strided.wf()
    }

    /// The elements still to come.
    pub closed spec fn view(&self) -> Seq<usize> {
        if self.index <= self.strided@.len() {
            self.strided@.subrange(self.index as int, self.strided@.len() as int)
        } else {
            Seq::empty()
        }
    }

    /// Returns the next element, if any.
    pub fn next(&mut self) -> (r: Option<usize>)
        requires
            old(self).wf(),
        ensures
            final(self).wf(),
            old(self)@.len() > 0 ==> r == Some(old(self)@[0]) && final(self)@ == old(self)@.drop_first(),
            old(self)@.len() == 0 ==> r.is_none() && final(self)@ == old(self)@,
    {
        if self.index < self.strided.len() {
            let item = self.strided.index(self.index);
            self.index = self.index + 1;
            assert(self@ =~= old(self)@.drop_first());
            Some(item)
        } else {
            None
        }
    }
}

/// A list of unsigned integers that uses `u32` elements as long as they are small enough, and switches to `u64` once they are not.
#[derive(Clone, Debug)]
pub struct IndexList {
    /// Indexes that fit within a `u32`.
    pub smol: Vec<u32>,
    /// Indexes that either do not fit in a `u32`, or are inserted after some offset that did not fit.
    pub chonk: Vec<u64>,
}

impl IndexList {
    /// The length fits in a `usize`.
    pub open spec fn wf(&self) -> bool {
        self.smol@.len() + self.chonk@.len() <= usize::MAX
    }

    /// The indexes: the small ones, then the large ones.
    pub open spec fn view(&self) -> Seq<usize> {
        self.smol@.map_values(|x: u32| x as usize) + self.chonk@.map_values(|x: u64| x as usize)
    }

    /// Returns an empty list.
    pub fn new() -> (r: Self)
        ensures
            r.wf(),
            r@ == Seq::<usize>::empty(),
    {
        let r = IndexList { smol: Vec::new(), chonk: Vec::new() };
        assert(r@ =~= Seq::<usize>::empty());
        r
    }

    /// Allocate a new list with a specified capacity.
    pub fn with_capacity(cap: usize) -> (r: Self)
        ensures
            r.wf(),
            r@ == Seq::<usize>::empty(),
    {
        let r = IndexList { smol: Vec::with_capacity(cap), chonk: Vec::new() };
        assert(r@ =~= Seq::<usize>::empty());
        r
    }

    /// Inserts the index, as a `u32` if that is still on the table.
    pub fn push(&mut self, index: usize)
        requires
            old(self).wf(),
            old(self)@.len() < usize::MAX,
        ensures
            final(self).wf(),
            final(self)@ == old(self)@.push(index),
            old(self).chonk@.len() == 0 && index <= u32::MAX ==> final(self).chonk@.len() == 0,
    {
        if self.chonk.len() == 0 {
            if index <= u32::MAX as usize {
                self.smol.push(index as u32);
            } else {
                self.chonk.push(index as u64);
            }
        } else {
            self.chonk.push(index as u64);
        }
        assert(self@ =~= old(self)@.push(index));
    }

    /// Like [`std::ops::Index`], which we cannot implement as it must return a `&usize`.
    pub fn index(&self, index: usize) -> (r: usize)
        requires
            self.wf(),
            index < self@.len(),
        ensures
            r == self@[index as int],
    {
        if index < self.smol.len() {
            self.smol[index] as usize
        } else {
            let index = index - self.smol.len();
            self.chonk[index] as usize
        }
    }

    /// The number of offsets in the list.
    pub fn len(&self) -> (r: usize)
        requires
            self.wf(),
        ensures
            r == self@.len(),
    {
        self.smol.len() + self.chonk.len()
    }

    /// Returns `true` if this list contains no elements.
    pub fn is_empty(&self) -> (r: bool)
        ensures
            r == (self@.len() == 0),
    {
        self.smol.len() == 0 && self.chonk.len() == 0
    }

    /// Reserve space for `additional` elements.
    pub fn reserve(&mut self, additional: usize)
        ensures
            final(self).smol@ == old(self).smol@,
            final(self).chonk@ == old(self).chonk@,
    {
        self.smol.reserve(additional);
    }

    /// Remove all elements.
    pub fn clear(&mut self)
        ensures
            final(self).wf(),
            final(self)@ == Seq::<usize>::empty(),
    {
        self.smol.clear();
        self.chonk.clear();
        assert(self@ =~= Seq::<usize>::empty());
    }

    /// The bytes in use by the small and by the large indexes.
    pub open spec fn heap_used(&self) -> Seq<usize> {
        seq![crate::impls::storage::vec_used(self.smol@), crate::impls::storage::vec_used(self.chonk@)]
    }

    /// Appends the `(size, capacity)` in bytes of the small and the large indexes.
    fn heap_size(&self, sizes: &mut Vec<(usize, usize)>)
        ensures
            crate::reports(old(sizes)@, final(sizes)@, self.heap_used()),
            final(sizes)@[old(sizes)@.len() as int].0 == self.smol@.len() * 4,
            final(sizes)@[old(sizes)@.len() + 1int].0 == self.chonk@.len() * 8,
    {
        let ghost s0 = sizes@;
        let a = vec_heap_size(&self.smol);
        proof {
            crate::lemma_reports_push(sizes@, a);
        }
        sizes.push(a);
        let ghost s1 = sizes@;
        let b = vec_heap_size(&self.chonk);
        proof {
            crate::lemma_reports_push(sizes@, b);
        }
        sizes.push(b);
        proof {
            crate::lemma_reports_chain(s0, s1, sizes@, seq![a.0], seq![b.0]);
            assert(seq![a.0] + seq![b.0] =~= self.heap_used());
            assert(sizes@[s0.len() as int] == a);
        }
    }

    /// Return an iterator over the elements.
    pub fn iter(&self) -> (r: IndexListIter<'_>)
        requires
            self.wf(),
        ensures
            r.wf(),
            r@ == self@,
    {
        let r = IndexListIter { list: self, position: 0 };
        assert(r@ =~= self@);
        r
    }
}

impl Default for IndexList {
    fn default() -> (r: Self)
        ensures
            r.wf(),
            r@ == Seq::<usize>::empty(),
    {
        IndexList::new()
    }
}

impl Storage<usize> for IndexList {
    open spec fn storage_wf(&self) -> bool {
        self.wf()
    }

    open spec fn stored(&self) -> Seq<usize> {
        self@
    }

    fn with_capacity(capacity: usize) -> (r: Self) {
        IndexList::with_capacity(capacity)
    }

    fn reserve(&mut self, additional: usize) {
        IndexList::reserve(self, additional);
        assert(self@ =~= old(self)@);
    }

    fn clear(&mut self) {
        IndexList::clear(self);
    }

    open spec fn storage_heap(&self) -> Seq<usize> {
        self.heap_used()
    }

    fn heap_size(&self, sizes: &mut Vec<(usize, usize)>) {
        IndexList::heap_size(self, sizes);
    }

    fn len(&self) -> (r: usize) {
        IndexList::len(self)
    }

    fn is_empty(&self) -> (r: bool) {
        IndexList::is_empty(self)
    }
}

impl IndexContainer<usize> for IndexList {
    fn index(&self, index: usize) -> (r: usize) {
        IndexList::index(self, index)
    }

    fn push(&mut self, item: usize) {
        IndexList::push(self, item);
    }

    fn extend(&mut self, items: &[usize]) {
        let mut i: usize = 0;
        while i < items.len()
            invariant
                0 <= i <= items@.len(),
                self.wf(),
                self@ == old(self)@ + items@.subrange(0, i as int),
                old(self)@.len() + items@.len() <= usize::MAX,
            decreases items@.len() - i,
        {
            IndexList::push(self, items[i]);
            assert(items@.subrange(0, i + 1) =~= items@.subrange(0, i as int).push(items@[i as int]));
            i = i + 1;
        }
        assert(items@.subrange(0, items@.len() as int) =~= items@);
    }
}

impl OffsetContainer<usize> for IndexList {
    open spec fn offsets_wf(&self) -> bool {
        self.wf()
    }

    open spec fn offsets(&self) -> Seq<usize> {
        self@
    }

    fn new_offsets() -> (r: Self) {
        IndexList::new()
    }

    fn with_capacity(capacity: usize) -> (r: Self) {
        IndexList::with_capacity(capacity)
    }

    fn push(&mut self, item: usize) {
        IndexList::push(self, item);
    }

    fn index(&self, index: usize) -> (r: usize) {
        IndexList::index(self, index)
    }

    fn clear(&mut self) {
        IndexList::clear(self);
    }

    fn len(&self) -> (r: usize) {
        IndexList::len(self)
    }

    fn reserve(&mut self, additional: usize) {
        IndexList::reserve(self, additional);
        assert(self@ =~= old(self)@);
    }

    open spec fn offsets_heap(&self) -> Seq<usize> {
        self.heap_used()
    }

    fn heap_size(&self, sizes: &mut Vec<(usize, usize)>) {
        IndexList::heap_size(self, sizes);
    }
}

/// An iterator over the elements of an [`IndexList`].
pub struct IndexListIter<'a> {
    list: &'a IndexList,
    position: usize,
}

impl<'a> IndexListIter<'a> {
    /// The iterated list is well formed.
    pub closed spec fn wf(&self) -> bool {
        self.list.wf()
    }

    /// The elements still to come.
    pub closed spec fn view(&self) -> Seq<usize> {
        if self.position <= self.list@.len() {
            self.list@.subrange(self.position as int, self.list@.len() as int)
        } else {
            Seq::empty()
        }
    }

    /// Returns the next element, if any.
    pub fn next(&mut self) -> (r: Option<usize>)
        requires
            old(self).wf(),
        ensures
            final(self).wf(),
            old(self)@.len() > 0 ==> r == Some(old(self)@[0]) && final(self)@ == old(self)@.drop_first(),
            old(self)@.len() == 0 ==> r.is_none() && final(self)@ == old(self)@,
    {
        if self.position < self.list.len() {
            let item = self.list.index(self.position);
            self.position = self.position + 1;
            assert(self@ =~= old(self)@.drop_first());
            Some(item)
        } else {
            None
        }
    }
}

/// An offset container implementation that first tries to recognize strides, and then spills into
/// a regular offset list.
#[derive(Clone, Debug)]
pub struct IndexOptimized {
    strided: Stride,
    spilled: IndexList,
}

impl IndexOptimized {
    /// Both parts are well formed, the total length fits in a `usize`, and nothing is
    /// spilled before the stride has rejected a push.
    pub closed spec fn wf(&self) -> bool {
        &&& self.strided.wf()
        &&& self.spilled.wf()
        &&& self.strided@.len() + self.spilled@.len() <= usize::MAX
    }

    /// The indexes: those absorbed by the stride, then the spilled ones.
    pub closed spec fn view(&self) -> Seq<usize> {
        self.strided@ + self.spilled@
    }

    /// Returns an empty container.
    pub fn new() -> (r: Self)
        ensures
            r.wf(),
            r@ == Seq::<usize>::empty(),
    {
        let r = IndexOptimized { strided: Stride::new(), spilled: IndexList::new() };
        assert(r@ =~= Seq::<usize>::empty());
        r
    }

    /// Lookup an index.
    pub fn index(&self, index: usize) -> (r: usize)
        requires
            self.wf(),
            index < self@.len(),
        ensures
            r == self@[index as int],
    {
        if index < self.strided.len() {
            self.strided.index(index)
        } else {
            self.spilled.index(index - self.strided.len())
        }
    }

    /// Accepts a newly pushed element.
    pub fn push(&mut self, item: usize)
        requires
            old(self).wf(),
            old(self)@.len() < usize::MAX,
        ensures
            final(self).wf(),
            final(self)@ == old(self)@.push(item),
    {
        if self.spilled.is_empty() {
            let inserted = self.strided.push(item);
            if !inserted {
                self.spilled.push(item);
            }
        } else {
            self.spilled.push(item);
        }
        assert(self@ =~= old(self)@.push(item));
    }

    /// Returns the number of elements.
    pub fn len(&self) -> (r: usize)
        requires
            self.wf(),
        ensures
            r == self@.len(),
    {
        self.strided.len() + self.spilled.len()
    }

    /// Returns `true` if empty.
    pub fn is_empty(&self) -> (r: bool)
        requires
            self.wf(),
        ensures
            r == (self@.len() == 0),
    {
        self.strided.is_empty() && self.spilled.is_empty()
    }

    /// Removes all elements.
    pub fn clear(&mut self)
        ensures
            final(self).wf(),
            final(self)@ == Seq::<usize>::empty(),
    {
        self.spilled.clear();
        self.strided = Stride::new();
        assert(self@ =~= Seq::<usize>::empty());
    }

    /// Reserve space for `additional` elements; a stride needs no space.
    pub fn reserve(&mut self, additional: usize)
        requires
            old(self).wf(),
        ensures
            final(self).wf(),
            final(self)@ == old(self)@,
    {
        if !self.spilled.is_empty() {
            self.spilled.reserve(additional);
        }
        assert(self@ =~= old(self)@);
    }

    /// Return an iterator over the elements.
    pub fn iter(&self) -> (r: IndexOptimizedIter<'_>)
        requires
            self.wf(),
        ensures
            r.wf(),
            r@ == self@,
    {
        IndexOptimizedIter { strided: self.strided.iter(), spilled: self.spilled.iter() }
    }
}

impl Default for IndexOptimized {
    fn default() -> (r: Self)
        ensures
            r.wf(),
            r@ == Seq::<usize>::empty(),
    {
        IndexOptimized::new()
    }
}

impl Storage<usize> for IndexOptimized {
    open spec fn storage_wf(&self) -> bool {
        self.wf()
    }

    open spec fn stored(&self) -> Seq<usize> {
        self@
    }

    fn with_capacity(_capacity: usize) -> (r: Self) {
        // `self.strided` doesn't have any capacity, and we don't know the structure of the data.
        IndexOptimized::new()
    }

    fn clear(&mut self) {
        IndexOptimized::clear(self);
    }

    fn len(&self) -> (r: usize) {
        IndexOptimized::len(self)
    }

    fn is_empty(&self) -> (r: bool) {
        IndexOptimized::is_empty(self)
    }

    fn reserve(&mut self, additional: usize) {
        IndexOptimized::reserve(self, additional);
    }

    closed spec fn storage_heap(&self) -> Seq<usize> {
        self.spilled.heap_used()
    }

    fn heap_size(&self, sizes: &mut Vec<(usize, usize)>) {
        self.spilled.heap_size(sizes);
    }
}

impl IndexContainer<usize> for IndexOptimized {
    fn index(&self, index: usize) -> (r: usize) {
        IndexOptimized::index(self, index)
    }

    fn push(&mut self, item: usize) {
        IndexOptimized::push(self, item);
    }

    fn extend(&mut self, items: &[usize]) {
        let mut i: usize = 0;
        while i < items.len()
            invariant
                0 <= i <= items@.len(),
                self.wf(),
                self@ == old(self)@ + items@.subrange(0, i as int),
                old(self)@.len() + items@.len() <= usize::MAX,
            decreases items@.len() - i,
        {
            IndexOptimized::push(self, items[i]);
            assert(items@.subrange(0, i + 1) =~= items@.subrange(0, i as int).push(items@[i as int]));
            i = i + 1;
        }
        assert(items@.subrange(0, items@.len() as int) =~= items@);
    }
}

impl OffsetContainer<usize> for IndexOptimized {
    open spec fn offsets_wf(&self) -> bool {
        self.wf()
    }

    open spec fn offsets(&self) -> Seq<usize> {
        self@
    }

    fn new_offsets() -> (r: Self) {
        IndexOptimized::new()
    }

    fn with_capacity(_capacity: usize) -> (r: Self) {
        IndexOptimized::new()
    }

    fn push(&mut self, item: usize) {
        IndexOptimized::push(self, item);
    }

    fn index(&self, index: usize) -> (r: usize) {
        IndexOptimized::index(self, index)
    }

    fn clear(&mut self) {
        IndexOptimized::clear(self);
    }

    fn len(&self) -> (r: usize) {
        IndexOptimized::len(self)
    }

    fn reserve(&mut self, additional: usize) {
        IndexOptimized::reserve(self, additional);
    }

    closed spec fn offsets_heap(&self) -> Seq<usize> {
        self.spilled.heap_used()
    }

    fn heap_size(&self, sizes: &mut Vec<(usize, usize)>) {
        self.spilled.heap_size(sizes);
    }
}

/// An iterator over the elements of an [`IndexOptimized`].
pub struct IndexOptimizedIter<'a> {
    strided: StrideIter,
    spilled: IndexListIter<'a>,
}

impl<'a> IndexOptimizedIter<'a> {
    /// Both parts are well formed.
    pub closed spec fn wf(&self) -> bool {
        self.strided.wf() && self.spilled.wf()
    }

    /// The elements still to come.
    pub closed spec fn view(&self) -> Seq<usize> {
        self.strided@ + self.spilled@
    }

    /// Returns the next element, if any.
    pub fn next(&mut self) -> (r: Option<usize>)
        requires
            old(self).wf(),
        ensures
            final(self).wf(),
            old(self)@.len() > 0 ==> r == Some(old(self)@[0]) && final(self)@ == old(self)@.drop_first(),
            old(self)@.len() == 0 ==> r.is_none() && final(self)@ == old(self)@,
    {
        let first = self.strided.next();
        if first.is_some() {
            assert(self@ =~= old(self)@.drop_first());
            first
        } else {
            let r = self.spilled.next();
            assert(old(self)@ =~= old(self).spilled@);
            assert(self@ =~= self.spilled@);
            r
        }
    }
}

} // verus!
