//! Types to represent offsets.
use vstd::prelude::*;

use crate::impls::storage::vec_capacity;

verus! {

/// A container of offsets that can be pushed and looked up by position.
///
/// The abstract state of a container is the sequence of offsets pushed since it was
/// created or last cleared, given by [`OffsetContainer::offsets`].
pub trait OffsetContainer<T>: Sized {
    /// The well-formedness invariant of the container.
    spec fn offsets_wf(&self) -> bool;

    /// The sequence of offsets held by the container.
    spec fn offsets(&self) -> Seq<T>;

    /// Returns an empty container.
    fn new_offsets() -> (r: Self)
        ensures
            r.offsets_wf(),
            r.offsets() == Seq::<T>::empty(),
    ;

    /// Returns an empty container that can absorb `capacity` elements without reallocation.
    fn with_capacity(capacity: usize) -> (r: Self)
        ensures
            r.offsets_wf(),
            r.offsets() == Seq::<T>::empty(),
    ;

    /// Accepts a newly pushed element.
    fn push(&mut self, item: T)
        requires
            old(self).offsets_wf(),
            old(self).offsets().len() < usize::MAX,
        ensures
            final(self).offsets_wf(),
            final(self).offsets() == old(self).offsets().push(item),
    ;

    /// Lookup an index.
    fn index(&self, index: usize) -> (r: T)
        requires
            self.offsets_wf(),
            index < self.offsets().len(),
        ensures
            r == self.offsets()[index as int],
    ;

    /// Clear all contents.
    fn clear(&mut self)
        requires
            old(self).offsets_wf(),
        ensures
            final(self).offsets_wf(),
            final(self).offsets() == Seq::<T>::empty(),
    ;

    /// Returns the number of elements.
    fn len(&self) -> (r: usize)
        requires
            self.offsets_wf(),
        ensures
            r == self.offsets().len(),
    ;

    /// Returns `true` if empty.
    fn is_empty(&self) -> (r: bool)
        requires
            self.offsets_wf(),
        ensures
            r == (self.offsets().len() == 0),
    {
        self.len() == 0
    }

    /// Reserve space for `additional` elements.
    fn reserve(&mut self, additional: usize)
        requires
            old(self).offsets_wf(),
        ensures
            final(self).offsets_wf(),
            final(self).offsets() == old(self).offsets(),
    ;

    /// The bytes in use in each allocation the container owns, in the order
    /// [`OffsetContainer::heap_size`] reports them.
    spec fn offsets_heap(&self) -> Seq<usize>;

    /// Appends one `(size, capacity)` pair in bytes for each allocation the container owns.
    fn heap_size(&self, sizes: &mut Vec<(usize, usize)>)
        requires
            self.offsets_wf(),
        ensures
            crate::reports(old(sizes)@, final(sizes)@, self.offsets_heap()),
    ;
}

/// The bytes in use in the allocations of each of `containers`, in order.
pub open spec fn containers_heap<T, O: OffsetContainer<T>>(containers: Seq<O>) -> Seq<usize>
    decreases containers.len(),
{
    if containers.len() == 0 {
        Seq::empty()
    } else {
        containers_heap(containers.drop_last()) + containers.last().offsets_heap()
    }
}

impl<T: Copy> OffsetContainer<T> for Vec<T> {
    open spec fn offsets_wf(&self) -> bool {
        true
    }

    open spec fn offsets(&self) -> Seq<T> {
        self@
    }

    fn new_offsets() -> (r: Self) {
        Vec::new()
    }

    fn with_capacity(capacity: usize) -> (r: Self) {
        Vec::with_capacity(capacity)
    }

    fn push(&mut self, item: T) {
        Vec::push(self, item);
    }

    fn index(&self, index: usize) -> (r: T) {
        self[index]
    }

    fn clear(&mut self) {
        Vec::clear(self);
    }

    fn len(&self) -> (r: usize) {
        Vec::len(self)
    }

    fn reserve(&mut self, additional: usize) {
        Vec::reserve(self, additional);
    }

    open spec fn offsets_heap(&self) -> Seq<usize> {
        seq![crate::impls::storage::vec_used(self@)]
    }

    fn heap_size(&self, sizes: &mut Vec<(usize, usize)>) {
        crate::impls::storage::push_vec_heap(self, sizes);
    }
}

/// The elements an [`OffsetStride`] represents: `0, stride, 2 * stride, ...` for `count`
/// steps, followed by `reps` repetitions of the last step.
pub open spec fn stride_seq(stride: usize, count: usize, reps: usize) -> Seq<usize> {
    Seq::new(
        (count + reps) as nat,
        |i: int|
            if i < count {
                (stride * i) as usize
            } else {
                (stride * (count - 1)) as usize
            },
    )
}

/// Accepts offsets of the form `0, stride, 2 * stride, ...`, saturating in a repeated
/// last element.
enum OffsetStride {
    Empty,
    Zero,
    Striding(usize, usize),
    Saturated(usize, usize, usize),
}

impl OffsetStride {
    spec fn wf(&self) -> bool {
        match *self {
            OffsetStride::Empty => true,
            OffsetStride::Zero => true,
            OffsetStride::Striding(stride, count) => count >= 2 && stride * (count - 1) <= usize::MAX,
            OffsetStride::Saturated(stride, count, reps) => {
                &&& count >= 2
                &&& reps >= 1
                &&& stride * (count - 1) <= usize::MAX
                &&& count + reps <= usize::MAX
            },
        }
    }

    spec fn view(&self) -> Seq<usize> {
        match *self {
            OffsetStride::Empty => Seq::empty(),
            OffsetStride::Zero => seq![0usize],
            OffsetStride::Striding(stride, count) => stride_seq(stride, count, 0),
            OffsetStride::Saturated(stride, count, reps) => stride_seq(stride, count, reps),
        }
    }

    /// Whether a push of `item` is accepted in this state.
    spec fn accepts(&self, item: usize) -> bool {
        match *self {
            OffsetStride::Empty => item == 0,
            OffsetStride::Zero => true,
            OffsetStride::Striding(stride, count) => item == stride * count || item == stride * (count - 1),
            OffsetStride::Saturated(stride, count, _reps) => item == stride * (count - 1),
        }
    }

    fn new() -> (r: Self)
        ensures
            r.wf(),
            r.view() == Seq::<usize>::empty(),
    {
        OffsetStride::Empty
    }

    /// Accepts or rejects a newly pushed element.
    fn push(&mut self, item: usize) -> (accepted: bool)
        requires
            old(self).wf(),
            old(self).view().len() < usize::MAX,
        ensures
            final(self).wf(),
            accepted == old(self).accepts(item),
            accepted ==> final(self).view() == old(self).view().push(item),
            !accepted ==> final(self).view() == old(self).view(),
    {
        match *self {
            OffsetStride::Empty => {
                if item == 0 {
                    *self = OffsetStride::Zero;
                    true
                } else {
                    false
                }
            },
            OffsetStride::Zero => {
                *self = OffsetStride::Striding(item, 2);
                assert(self.view()[0] == 0usize);
                assert(item * 1int == item) by (nonlinear_arith);
                assert(self.view()[1] == item);
                assert(self.view() =~= seq![0usize].push(item));
                true
            },
            OffsetStride::Striding(stride, count) => {
                let next = stride.checked_mul(count);
                if next.is_some() && item == next.unwrap() {
                    *self = OffsetStride::Striding(stride, count + 1);
                    assert(self.view() =~= old(self).view().push(item));
                    true
                } else if item == stride * (count - 1) {
                    *self = OffsetStride::Saturated(stride, count, 1);
                    assert(self.view() =~= old(self).view().push(item));
                    true
                } else {
                    false
                }
            },
            OffsetStride::Saturated(stride, count, reps) => {
                if item == stride * (count - 1) {
                    *self = OffsetStride::Saturated(stride, count, reps + 1);
                    assert(self.view() =~= old(self).view().push(item));
                    true
                } else {
                    false
                }
            },
        }
    }

    fn index(&self, index: usize) -> (r: usize)
        requires
            self.wf(),
            index < self.view().len(),
        ensures
            r == self.view()[index as int],
    {
        match *self {
            OffsetStride::Empty => { 0 },
            OffsetStride::Zero => 0,
            OffsetStride::Striding(stride, _steps) => {
                proof {
                    vstd::arithmetic::mul::lemma_mul_inequality(
                        index as int,
                        _steps - 1,
                        stride as int,
                    );
                    vstd::arithmetic::mul::lemma_mul_is_commutative(index as int, stride as int);
                    vstd::arithmetic::mul::lemma_mul_is_commutative(_steps - 1, stride as int);
                }
                stride * index
            },
            OffsetStride::Saturated(stride, steps, _reps) => {
                if index < steps {
                    proof {
                        vstd::arithmetic::mul::lemma_mul_inequality(
                            index as int,
                            steps - 1,
                            stride as int,
                        );
                        vstd::arithmetic::mul::lemma_mul_is_commutative(index as int, stride as int);
                        vstd::arithmetic::mul::lemma_mul_is_commutative(steps - 1, stride as int);
                    }
                    stride * index
                } else {
                    stride * (steps - 1)
                }
            },
        }
    }

    fn len(&self) -> (r: usize)
        requires
            self.wf(),
        ensures
            r == self.view().len(),
    {
        match *self {
            OffsetStride::Empty => 0,
            OffsetStride::Zero => 1,
            OffsetStride::Striding(_stride, steps) => steps,
            OffsetStride::Saturated(_stride, steps, reps) => steps + reps,
        }
    }
}

/// A list of unsigned integers that uses `u32` elements as long as they are small enough, and switches to `u64` once they are not.
pub struct OffsetList {
    /// Length of a prefix of zero elements.
    pub zero_prefix: usize,
    /// Offsets that fit within a `u32`.
    pub smol: Vec<u32>,
    /// Offsets that either do not fit in a `u32`, or are inserted after some offset that did not fit.
    pub chonk: Vec<u64>,
}

impl OffsetList {
    /// The list is well formed when its length fits in a `usize`.
    pub open spec fn wf(&self) -> bool {
        self.zero_prefix + self.smol@.len() + self.chonk@.len() <= usize::MAX
    }

    /// The offsets in the list: the zero prefix, then the small, then the large offsets.
    pub open spec fn view(&self) -> Seq<usize> {
        Seq::new(self.zero_prefix as nat, |i: int| 0usize) + self.smol@.map_values(
            |x: u32| x as usize,
        ) + self.chonk@.map_values(|x: u64| x as usize)
    }

    /// Returns an empty list.
    pub fn new() -> (r: Self)
        ensures
            r.wf(),
            r@ == Seq::<usize>::empty(),
    {
        let r = OffsetList { zero_prefix: 0, smol: Vec::new(), chonk: Vec::new() };
        assert(r@ =~= Seq::<usize>::empty());
        r
    }

    /// Inserts the offset, as a `u32` if that is still on the table.
    pub fn push(&mut self, offset: usize)
        requires
            old(self).wf(),
            old(self)@.len() < usize::MAX,
        ensures
            final(self).wf(),
            final(self)@ == old(self)@.push(offset),
            final(self).chonk@.len() == 0 && old(self).smol@.len() == 0 && offset == 0 ==> final(self).zero_prefix == old(self).zero_prefix + 1,
    {
        if self.smol.len() == 0 && self.chonk.len() == 0 && offset == 0 {
            self.zero_prefix = self.zero_prefix + 1;
            assert(self@ =~= old(self)@.push(offset));
        } else if self.chonk.len() == 0 {
            if offset <= u32::MAX as usize {
                self.smol.push(offset as u32);
            } else {
                self.chonk.push(offset as u64);
            }
            assert(self@ =~= old(self)@.push(offset));
        } else {
            self.chonk.push(offset as u64);
            assert(self@ =~= old(self)@.push(offset));
        }
    }

    /// Like `std::ops::Index`, which we cannot implement as it must return a `&usize`.
    pub fn index(&self, index: usize) -> (r: usize)
        requires
            self.wf(),
            index < self@.len(),
        ensures
            r == self@[index as int],
    {
        if index < self.zero_prefix {
            0
        } else if index - self.zero_prefix < self.smol.len() {
            self.smol[index - self.zero_prefix] as usize
        } else {
            self.chonk[index - self.zero_prefix - self.smol.len()] as usize
        }
    }

    /// The number of offsets in the list.
    pub fn len(&self) -> (r: usize)
        requires
            self.wf(),
        ensures
            r == self@.len(),
    {
        self.zero_prefix + self.smol.len() + self.chonk.len()
    }

    /// Returns `true` if this list contains no elements.
    pub fn is_empty(&self) -> (r: bool)
        requires
            self.wf(),
        ensures
            r == (self@.len() == 0),
    {
        self.len() == 0
    }

    /// Reserve space for `additional` elements.
    pub fn reserve(&mut self, additional: usize)
        ensures
            final(self)@ == old(self)@,
            final(self).zero_prefix == old(self).zero_prefix,
            final(self).smol@ == old(self).smol@,
            final(self).chonk@ == old(self).chonk@,
    {
        self.smol.reserve(additional)
    }

    /// Remove all elements.
    pub fn clear(&mut self)
        ensures
            final(self).wf(),
            final(self)@ == Seq::<usize>::empty(),
    {
        self.zero_prefix = 0;
        self.smol.clear();
        self.chonk.clear();
        assert(self@ =~= Seq::<usize>::empty());
    }

    /// The bytes in use by the small and by the large offsets.
    pub open spec fn heap_used(&self) -> Seq<usize> {
        seq![crate::impls::storage::vec_used(self.smol@), crate::impls::storage::vec_used(self.chonk@)]
    }

    /// Appends the `(size, capacity)` in bytes of the small and the large offsets.
    fn heap_size(&self, sizes: &mut Vec<(usize, usize)>)
        ensures
            crate::reports(old(sizes)@, final(sizes)@, self.heap_used()),
    {
        let ghost s0 = sizes@;
        crate::impls::storage::push_vec_heap(&self.smol, sizes);
        let ghost s1 = sizes@;
        crate::impls::storage::push_vec_heap(&self.chonk, sizes);
        proof {
            crate::lemma_reports_chain(s0, s1, sizes@, seq![crate::impls::storage::vec_used(self.smol@)], seq![crate::impls::storage::vec_used(self.chonk@)]);
            assert(seq![crate::impls::storage::vec_used(self.smol@)] + seq![crate::impls::storage::vec_used(self.chonk@)] =~= self.heap_used());
        }
    }
}

/// An offset container that first tries to recognize strides, and then spills into an
/// [`OffsetList`].
pub struct OffsetOptimized {
    strided: OffsetStride,
    spilled: OffsetList,
}

impl OffsetOptimized {
    /// Well-formedness: both parts are well formed and the total length fits in a `usize`.
    pub closed spec fn wf(&self) -> bool {
        &&& self.strided.wf()
        &&& self.spilled.wf()
        &&& self.strided.view().len() + self.spilled@.len() <= usize::MAX
    }

    /// The offsets: those absorbed by the stride, then the spilled ones.
    pub closed spec fn view(&self) -> Seq<usize> {
        self.strided.view() + self.spilled@
    }

    /// Returns an empty container.
    pub fn new() -> (r: Self)
        ensures
            r.wf(),
            r@ == Seq::<usize>::empty(),
    {
        let r = OffsetOptimized { strided: OffsetStride::new(), spilled: OffsetList::new() };
        assert(r@ =~= Seq::<usize>::empty());
        r
    }
}

impl OffsetContainer<usize> for OffsetOptimized {
    open spec fn offsets_wf(&self) -> bool {
        self.wf()
    }

    open spec fn offsets(&self) -> Seq<usize> {
        self@
    }

    fn new_offsets() -> (r: Self) {
        OffsetOptimized::new()
    }

    fn with_capacity(_capacity: usize) -> (r: Self) {
        OffsetOptimized::new()
    }

    fn push(&mut self, item: usize) {
        if !self.spilled.is_empty() {
            self.spilled.push(item);
            assert(self@ =~= old(self)@.push(item));
        } else {
            let inserted = self.strided.push(item);
            if !inserted {
                self.spilled.push(item);
            }
            assert(self@ =~= old(self)@.push(item));
        }
    }

    fn index(&self, index: usize) -> (r: usize) {
        if index < self.strided.len() {
            self.strided.index(index)
        } else {
            self.spilled.index(index - self.strided.len())
        }
    }

    fn clear(&mut self) {
        self.spilled.clear();
        self.strided = OffsetStride::new();
        assert(self@ =~= Seq::<usize>::empty());
    }

    fn len(&self) -> (r: usize) {
        self.strided.len() + self.spilled.len()
    }

    fn reserve(&mut self, additional: usize) {
        if !self.spilled.is_empty() {
            self.spilled.reserve(additional);
        }
    }

    closed spec fn offsets_heap(&self) -> Seq<usize> {
        self.spilled.heap_used()
    }

    fn heap_size(&self, sizes: &mut Vec<(usize, usize)>) {
        self.spilled.heap_size(sizes);
    }
}

impl OffsetOptimized {
    /// Appends all `items`, in order.
    pub fn extend(&mut self, items: &[usize])
        requires
            old(self).wf(),
            old(self)@.len() + items@.len() <= usize::MAX,
        ensures
            final(self).wf(),
            final(self)@ == old(self)@ + items@,
    {
        let mut i: usize = 0;
        while i < items.len()
            invariant
                0 <= i <= items@.len(),
                self.wf(),
                self@ == old(self)@ + items@.subrange(0, i as int),
                old(self)@.len() + items@.len() <= usize::MAX,
            decreases items@.len() - i,
        {
            OffsetContainer::push(self, items[i]);
            assert(items@.subrange(0, i + 1) =~= items@.subrange(0, i as int).push(items@[i as int]));
            i = i + 1;
        }
        assert(items@.subrange(0, items@.len() as int) =~= items@);
    }
}

} // verus!
