//! Flat containers: regions that absorb nested data into dense allocations, and a stack of
//! indices into a region.
use vstd::prelude::*;

pub mod bitmap;
pub mod impls;
pub mod order;
pub mod rank_select;

use crate::impls::offsets::OffsetContainer;
pub use impls::mirror::MirrorRegion;
pub use impls::option::OptionRegion;
pub use impls::result::ResultRegion;
pub use impls::slice::SliceRegion;
pub use impls::slice_copy::OwnedRegion;
pub use impls::string::StringRegion;

verus! {

/// An index into a region. Automatically implemented for relevant types.
///
/// We require an index to be [`Copy`].
pub trait Index: Copy {

}

impl<T: Copy> Index for T {

}

/// A region to absorb presented data and present it as a type with a lifetime.
///
/// This type absorbs data and provides an index to look up an equivalent representation
/// of this data at a later time. It is up to an implementation to select the appropriate
/// presentation of the data, and what data it can absorb.
///
/// Abstractly, a region maps each index it can answer for ([`Region::valid`]) to a value
/// ([`Region::value_at`]); reading at an index yields an item whose value
/// ([`Region::item_value`]) is that value.
///
/// Implement the [`Push`] trait for all types that can be copied into a region.
pub trait Region: Sized {
    /// An owned type that can be constructed from a read item.
    type Owned;

    /// The type of the data that one gets out of the container.
    type ReadItem<'a> where Self: 'a;

    /// The type to index into the container. Should be treated
    /// as an opaque type, even if known.
    type Index;

    /// The mathematical value of an item.
    type Value;

    /// The invariant of the region.
    spec fn wf(&self) -> bool;

    /// Whether `index` designates an item of this region.
    spec fn valid(&self, index: Self::Index) -> bool;

    /// The value of the item at `index`.
    spec fn value_at(&self, index: Self::Index) -> Self::Value;

    /// The value of a read item.
    spec fn item_value<'a>(item: Self::ReadItem<'a>) -> Self::Value;

    /// The value of an owned item.
    spec fn owned_value(owned: Self::Owned) -> Self::Value;

    /// Whether the region is as [`Region::new_region`] returns it, holding no items.
    open spec fn fresh(&self) -> bool {
        true
    }

    /// Whether the region holds no items. A fresh region holds none; a region whose
    /// parts are shaped by other regions (columns) may hold none without being fresh.
    open spec fn holds_nothing(&self) -> bool {
        self.fresh()
    }

    /// Construct an empty region.
    fn new_region() -> (r: Self)
        ensures
            r.wf(),
            r.fresh(),
    ;

    /// Construct a region that can absorb the contents of `regions` in the future.
    fn merge_regions(regions: &[&Self]) -> (r: Self)
        requires
            forall|i: int| 0 <= i < regions@.len() ==> (#[trigger] regions@[i]).wf(),
        ensures
            r.wf(),
            r.holds_nothing(),
    ;

    /// Index into the container. The index must be obtained by
    /// pushing data into the container.
    fn index<'a>(&'a self, index: Self::Index) -> (r: Self::ReadItem<'a>)
        requires
            self.wf(),
            self.valid(index),
        ensures
            Self::item_value(r) == self.value_at(index),
    ;

    /// Ensure that the region can absorb the items of `regions` without reallocation
    fn reserve_regions(&mut self, regions: &[&Self])
        requires
            old(self).wf(),
            forall|i: int| 0 <= i < regions@.len() ==> (#[trigger] regions@[i]).wf(),
        ensures
            final(self).wf(),
            forall|i: Self::Index| #[trigger] final(self).valid(i) <==> old(self).valid(i),
            forall|i: Self::Index| #[trigger] old(self).valid(i) ==> final(self).value_at(i) == old(self).value_at(i),
    ;

    /// Remove all elements from this region, but retain allocations if possible.
    fn clear(&mut self)
        requires
            old(self).wf(),
        ensures
            final(self).wf(),
            final(self).holds_nothing(),
    ;

    /// The bytes in use in each allocation the region owns, in the order
    /// [`Region::heap_size`] reports them.
    spec fn heap_used(&self) -> Seq<usize>;

    /// Appends one `(size, capacity)` pair in bytes for each allocation the region owns.
    fn heap_size(&self, sizes: &mut Vec<(usize, usize)>)
        requires
            self.wf(),
        ensures
            reports(old(sizes)@, final(sizes)@, self.heap_used()),
    ;

    /// Converts a read item into one with a narrower lifetime.
    fn reborrow<'b, 'a: 'b>(item: Self::ReadItem<'a>) -> (r: Self::ReadItem<'b>)
        ensures
            Self::item_value(r) == Self::item_value(item),
    ;

    /// Converts a read item into an owned item of the same value.
    fn item_to_owned<'a>(item: Self::ReadItem<'a>) -> (r: Self::Owned)
        ensures
            Self::owned_value(r) == Self::item_value(item),
    ;
}

/// Every index valid in `old` is valid in `new` and designates the same value.
pub open spec fn extends<R: Region>(new: R, old: R) -> bool {
    forall|i: R::Index| #[trigger] old.valid(i) ==> new.valid(i) && new.value_at(i) == old.value_at(i)
}

/// Whether `column` accepts `item`, or, where there is no such column yet, whether every
/// fresh region does.
pub open spec fn accepts<R: Push<T>, T>(column: Option<R>, item: T) -> bool {
    match column {
        Some(r) => r.push_requires(item),
        None => forall|r: R| r.fresh() ==> #[trigger] r.push_requires(item),
    }
}

/// `after` is `column` after absorbing `item`, or, where there is no such column yet, a
/// fresh region after absorbing it.
pub open spec fn column_pushed<R: Push<T>, T>(column: Option<R>, item: T, after: R) -> bool {
    match column {
        Some(r) => r.push_post(item, after),
        None => exists|r: R| r.fresh() && #[trigger] r.push_post(item, after),
    }
}

/// Whether `region` accepts each of `items` in turn: it accepts the first, and whatever it
/// becomes by absorbing it accepts the rest.
pub open spec fn accepts_all<R: Push<T>, T>(region: R, items: Seq<T>) -> bool
    decreases items.len(),
{
    items.len() == 0 || (region.push_requires(items[0]) && forall|after: R|
        #[trigger] region.push_post(items[0], after) ==> accepts_all(after, items.drop_first()))
}

/// `after` is `region` after absorbing each of `items` in turn.
pub open spec fn pushed_all<R: Push<T>, T>(region: R, items: Seq<T>, after: R) -> bool
    decreases items.len(),
{
    if items.len() == 0 {
        after == region
    } else {
        exists|mid: R| #[trigger] region.push_post(items[0], mid) && pushed_all(mid, items.drop_first(), after)
    }
}

/// Where every region of its type accepts each item, a region accepts them all in turn.
pub proof fn lemma_accepts_all<R: Push<T>, T>(region: R, items: Seq<T>)
    requires
        forall|r: R, i: int| 0 <= i < items.len() ==> #[trigger] r.push_requires(items[i]),
    ensures
        accepts_all(region, items),
    decreases items.len(),
{
    if items.len() > 0 {
        assert(region.push_requires(items[0]));
        assert forall|after: R| #[trigger] region.push_post(items[0], after) implies accepts_all(
            after,
            items.drop_first(),
        ) by {
            assert forall|r: R, i: int| 0 <= i < items.drop_first().len() implies #[trigger] r.push_requires(
                items.drop_first()[i],
            ) by {
                assert(items.drop_first()[i] == items[i + 1]);
            }
            lemma_accepts_all(after, items.drop_first());
        }
    }
}

/// `after` is `before` followed by one `(size, capacity)` pair for each size of `used`, in
/// order, each with a capacity no smaller than its size.
pub open spec fn reports(before: Seq<(usize, usize)>, after: Seq<(usize, usize)>, used: Seq<usize>) -> bool {
    &&& after.len() == before.len() + used.len()
    &&& after.subrange(0, before.len() as int) == before
    &&& forall|k: int|
        0 <= k < used.len() ==> after[before.len() + k].0 == #[trigger] used[k] && after[before.len() + k].0
            <= after[before.len() + k].1
}

/// The bytes in use in the allocations of each of `regions`, in order.
pub open spec fn regions_heap<R: Region>(regions: Seq<R>) -> Seq<usize>
    decreases regions.len(),
{
    if regions.len() == 0 {
        Seq::empty()
    } else {
        regions_heap(regions.drop_last()) + regions.last().heap_used()
    }
}

/// Reporting nothing leaves the pairs as they are.
pub proof fn lemma_reports_none(s: Seq<(usize, usize)>)
    ensures
        reports(s, s, Seq::empty()),
{
    assert(s.subrange(0, s.len() as int) =~= s);
}

/// Pushing one pair reports its size.
pub proof fn lemma_reports_push(s: Seq<(usize, usize)>, e: (usize, usize))
    requires
        e.0 <= e.1,
    ensures
        reports(s, s.push(e), seq![e.0]),
{
    assert(s.push(e).subrange(0, s.len() as int) =~= s);
    assert(s.push(e)[s.len() as int] == e);
    assert(seq![e.0][0] == e.0);
}

/// Two reports in a row report the sizes of both.
pub proof fn lemma_reports_chain(
    s0: Seq<(usize, usize)>,
    s1: Seq<(usize, usize)>,
    s2: Seq<(usize, usize)>,
    u1: Seq<usize>,
    u2: Seq<usize>,
)
    requires
        reports(s0, s1, u1),
        reports(s1, s2, u2),
    ensures
        reports(s0, s2, u1 + u2),
{
    assert forall|k: int| 0 <= k < s0.len() implies s2[k] == s0[k] by {
        assert(s2.subrange(0, s1.len() as int)[k] == s1[k]);
        assert(s1.subrange(0, s0.len() as int)[k] == s0[k]);
    }
    assert(s2.subrange(0, s0.len() as int) =~= s0);
    assert forall|k: int| 0 <= k < (u1 + u2).len() implies s2[s0.len() + k].0 == #[trigger] (u1 + u2)[k]
        && s2[s0.len() + k].0 <= s2[s0.len() + k].1 by {
        if k < u1.len() {
            assert(u1[k] == (u1 + u2)[k]);
            assert(s2.subrange(0, s1.len() as int)[s0.len() + k] == s1[s0.len() + k]);
        } else {
            let j = k - u1.len();
            assert(u2[j] == (u1 + u2)[k]);
            assert(s1.len() + j == s0.len() + k);
        }
    }
}

/// The values of a sequence of owned items.
pub open spec fn owned_values<R: Region>(s: Seq<R::Owned>) -> Seq<R::Value> {
    Seq::new(s.len(), |i: int| R::owned_value(s[i]))
}

/// `new` and `old` answer for the same indices with the same values.
pub open spec fn same_items<R: Region>(new: R, old: R) -> bool {
    &&& extends(new, old)
    &&& forall|i: R::Index| #[trigger] new.valid(i) ==> old.valid(i)
}

/// A trait to let types express a default container type and an owned type, which can
/// be used to define regions in simpler terms.
pub trait RegionPreference {
    /// The owned type of the region.
    type Owned;
    /// The recommended container type.
    type Region: Region<Owned = Self::Owned>;
}

impl<'a, T: RegionPreference> RegionPreference for &'a T {
    type Owned = T::Owned;
    type Region = T::Region;
}

/// Push an item `T` into a region.
///
/// A push is deterministic: the index it returns is [`Push::push_result`] of the region
/// before the push, and it designates the value [`Push::pushed_value`] of the item.
pub trait Push<T>: Region {
    /// The value the region stores for `item`.
    spec fn pushed_value(item: T) -> Self::Value;

    /// The index a push of `item` returns.
    spec fn push_result(&self, item: T) -> Self::Index;

    /// What the region needs to absorb `item`.
    spec fn push_requires(&self, item: T) -> bool;

    /// What the region is after absorbing `item`, as far as it states it: a relation of the
    /// region before (`self`) and after (`after`).
    open spec fn push_post(&self, item: T, after: Self) -> bool {
        true
    }

    /// Push `item` into self, returning an index that allows to look up the
    /// corresponding read item.
    fn push(&mut self, item: T) -> (index: Self::Index)
        requires
            old(self).wf(),
            old(self).push_requires(item),
        ensures
            final(self).wf(),
            index == old(self).push_result(item),
            final(self).valid(index),
            final(self).value_at(index) == Self::pushed_value(item),
            extends(*final(self), *old(self)),
            old(self).push_post(item, *final(self)),
    ;
}

/// Reserve space in the receiving region.
///
/// Closely related to [`Push`], but separate because target type is likely different.
pub trait ReserveItems<T>: Region {
    /// Ensure that the region can absorb `items` without reallocation.
    fn reserve_items(&mut self, items: &[T])
        requires
            old(self).wf(),
        ensures
            final(self).wf(),
            same_items(*final(self), *old(self)),
    ;
}

/// A reference type corresponding to an owned type, supporting conversion in each direction.
pub trait IntoOwned<'a>: Sized {
    /// Owned type into which this type can be converted.
    type Owned;

    /// Conversion from an instance of this type to the owned type.
    fn into_owned(self) -> Self::Owned;

    /// Clones `self` onto an existing instance of the owned type.
    fn clone_onto(self, other: &mut Self::Owned);

    /// Borrows an owned instance as oneself.
    fn borrow_as(owned: &'a Self::Owned) -> Self;
}

impl<'a, T: Copy> IntoOwned<'a> for &'a [T] {
    type Owned = Vec<T>;

    /// Copies the slice into a new vector.
    fn into_owned(self) -> (r: Vec<T>)
        ensures
            r@ == self@,
    {
        let mut v = Vec::new();
        crate::impls::storage::push_slice(&mut v, self);
        v
    }

    /// Replaces the contents of `other` with a copy of the slice.
    fn clone_onto(self, other: &mut Vec<T>)
        ensures
            final(other)@ == self@,
    {
        other.clear();
        crate::impls::storage::push_slice(other, self);
    }

    /// Borrows the vector as a slice.
    fn borrow_as(owned: &'a Vec<T>) -> (r: &'a [T])
        ensures
            r@ == owned@,
    {
        owned.as_slice()
    }
}

impl<'a> IntoOwned<'a> for &'a str {
    type Owned = String;

    /// Copies the string slice into a new string.
    fn into_owned(self) -> (r: String)
        ensures
            r@ == self@,
    {
        self.to_owned()
    }

    /// Replaces `other` with a copy of the string slice.
    fn clone_onto(self, other: &mut String)
        ensures
            final(other)@ == self@,
    {
        *other = self.to_owned();
    }

    /// Borrows the string as a string slice.
    fn borrow_as(owned: &'a String) -> (r: &'a str)
        ensures
            r@ == owned@,
    {
        owned.as_str()
    }
}

/// A container for indices into a region.
pub struct FlatStack<R: Region, S: OffsetContainer<R::Index> = Vec<<R as Region>::Index>> {
    /// The indices, which we use to lookup items in the region.
    indices: S,
    /// A region to index into.
    region: R,
}

impl<R: Region, S: OffsetContainer<R::Index>> FlatStack<R, S> {
    /// The stack is well formed when its region is, and each of its indices is valid.
    pub closed spec fn wf(&self) -> bool {
        &&& self.region.wf()
        &&& self.indices.offsets_wf()
        &&& forall|i: int|
            0 <= i < self.indices.offsets().len() ==> self.region.valid(
                #[trigger] self.indices.offsets()[i],
            )
    }

    /// The region of the stack.
    pub closed spec fn spec_region(&self) -> R {
        self.region
    }

    /// The indices of the stack.
    pub closed spec fn spec_indices(&self) -> S {
        self.indices
    }

    /// The stack is well formed exactly when its region is, and each of its indices is valid.
    pub proof fn lemma_wf_parts(&self)
        ensures
            self.wf() <==> {
                &&& self.spec_region().wf()
                &&& self.spec_indices().offsets_wf()
                &&& forall|i: int|
                    0 <= i < self.spec_indices().offsets().len() ==> self.spec_region().valid(
                        #[trigger] self.spec_indices().offsets()[i],
                    )
            },
            self@ == Seq::new(
                self.spec_indices().offsets().len(),
                |i: int| self.spec_region().value_at(self.spec_indices().offsets()[i]),
            ),
    {
    }

    /// Assembles a stack from a region and indices into it.
    pub fn from_parts(region: R, indices: S) -> (r: Self)
        ensures
            r.spec_region() == region,
            r.spec_indices() == indices,
    {
        FlatStack { indices, region }
    }

    /// The values of the items in the stack, in order.
    pub closed spec fn view(&self) -> Seq<R::Value> {
        Seq::new(
            self.indices.offsets().len(),
            |i: int| self.region.value_at(self.indices.offsets()[i]),
        )
    }

    /// Returns an empty stack.
    pub fn new() -> (r: Self)
        ensures
            r.wf(),
            r@ == Seq::<R::Value>::empty(),
    {
        let r = FlatStack { indices: S::new_offsets(), region: R::new_region() };
        assert(r@ =~= Seq::<R::Value>::empty());
        r
    }

    /// Returns a flat stack that can absorb `capacity` indices without reallocation.
    ///
    /// Prefer [`Self::merge_capacity`] over this function to also pre-size the regions.
    pub fn with_capacity(capacity: usize) -> (r: Self)
        ensures
            r.wf(),
            r@ == Seq::<R::Value>::empty(),
    {
        let r = FlatStack { indices: S::with_capacity(capacity), region: R::new_region() };
        assert(r@ =~= Seq::<R::Value>::empty());
        r
    }

    /// Returns a flat stack that can absorb the contents of `stacks` without reallocation.
    pub fn merge_capacity(stacks: &[&Self]) -> (r: Self)
        requires
            forall|i: int| 0 <= i < stacks@.len() ==> (#[trigger] stacks@[i]).wf(),
        ensures
            r.wf(),
            r@ == Seq::<R::Value>::empty(),
            r.spec_region().holds_nothing(),
    {
        let mut regions: Vec<&R> = Vec::new();
        let mut i: usize = 0;
        while i < stacks.len()
            invariant
                0 <= i <= stacks@.len(),
                regions@.len() == i,
                forall|j: int| 0 <= j < stacks@.len() ==> (#[trigger] stacks@[j]).wf(),
                forall|j: int| 0 <= j < i ==> (#[trigger] regions@[j]) == stacks@[j].region,
            decreases stacks@.len() - i,
        {
            regions.push(&stacks[i].region);
            i = i + 1;
        }
        let region = R::merge_regions(regions.as_slice());
        let r = FlatStack { indices: S::new_offsets(), region };
        assert(r@ =~= Seq::<R::Value>::empty());
        r
    }

    /// Appends the element to the back of the stack.
    pub fn copy<T>(&mut self, item: T)
        where R: Push<T>
        requires
            old(self).wf(),
            old(self).spec_region().push_requires(item),
            old(self)@.len() < usize::MAX,
        ensures
            final(self).wf(),
            final(self)@ == old(self)@.push(R::pushed_value(item)),
            extends(final(self).spec_region(), old(self).spec_region()),
            old(self).spec_region().push_post(item, final(self).spec_region()),
    {
        let index = self.region.push(item);
        self.indices.push(index);
        assert(self@ =~= old(self)@.push(R::pushed_value(item)));
    }

    /// Returns the element at the `offset` position.
    pub fn get(&self, offset: usize) -> (r: R::ReadItem<'_>)
        requires
            self.wf(),
            offset < self@.len(),
        ensures
            R::item_value(r) == self@[offset as int],
    {
        let index = self.indices.index(offset);
        self.region.index(index)
    }

    /// Returns the number of indices in the stack.
    pub fn len(&self) -> (r: usize)
        requires
            self.wf(),
        ensures
            r == self@.len(),
    {
        self.indices.len()
    }

    /// Returns `true` if the stack contains no elements.
    pub fn is_empty(&self) -> (r: bool)
        requires
            self.wf(),
        ensures
            r == (self@.len() == 0),
    {
        self.indices.is_empty()
    }

    /// Reserves space to hold `additional` indices.
    pub fn reserve(&mut self, additional: usize)
        requires
            old(self).wf(),
        ensures
            final(self).wf(),
            final(self)@ == old(self)@,
            final(self).spec_region() == old(self).spec_region(),
    {
        self.indices.reserve(additional);
        assert(self@ =~= old(self)@);
    }

    /// Remove all elements while possibly retaining allocations.
    pub fn clear(&mut self)
        requires
            old(self).wf(),
        ensures
            final(self).wf(),
            final(self)@ == Seq::<R::Value>::empty(),
            final(self).spec_region().holds_nothing(),
    {
        self.indices.clear();
        self.region.clear();
        assert(self@ =~= Seq::<R::Value>::empty());
    }

    /// Reserve space for the items.
    pub fn reserve_items<T>(&mut self, items: &[T])
        where R: ReserveItems<T>
        requires
            old(self).wf(),
        ensures
            final(self).wf(),
            final(self)@ == old(self)@,
    {
        self.region.reserve_items(items);
        assert(self@ =~= old(self)@);
    }

    /// Reserve space for the regions.
    pub fn reserve_regions(&mut self, regions: &[&R])
        requires
            old(self).wf(),
            forall|i: int| 0 <= i < regions@.len() ==> (#[trigger] regions@[i]).wf(),
        ensures
            final(self).wf(),
            final(self)@ == old(self)@,
    {
        self.region.reserve_regions(regions);
        assert(self@ =~= old(self)@);
    }

    /// Appends one `(size, capacity)` pair in bytes for each allocation of the stack, the
    /// region's first.
    pub fn heap_size(&self, sizes: &mut Vec<(usize, usize)>)
        requires
            self.wf(),
        ensures
            reports(old(sizes)@, final(sizes)@, self.spec_region().heap_used() + self.spec_indices().offsets_heap()),
    {
        let ghost s0 = sizes@;
        self.region.heap_size(sizes);
        let ghost s1 = sizes@;
        self.indices.heap_size(sizes);
        proof {
            lemma_reports_chain(s0, s1, sizes@, self.region.heap_used(), self.indices.offsets_heap());
        }
    }

    /// Iterate the items in this stack.
    pub fn iter(&self) -> (r: Iter<'_, R, S>)
        requires
            self.wf(),
        ensures
            r.stack() == *self,
            r.position() == 0,
    {
        Iter { stack: self, position: 0 }
    }

    /// Appends all `items` to the stack, in order.
    pub fn extend<T: Copy>(&mut self, items: &[T])
        where R: Push<T>
        requires
            old(self).wf(),
            old(self)@.len() + items@.len() <= usize::MAX,
            accepts_all(old(self).spec_region(), items@),
        ensures
            final(self).wf(),
            final(self)@ == old(self)@ + items@.map_values(|t: T| R::pushed_value(t)),
            pushed_all(old(self).spec_region(), items@, final(self).spec_region()),
    {
        self.reserve(items.len());
        assert(items@.skip(0) =~= items@);
        let mut i: usize = 0;
        while i < items.len()
            invariant
                0 <= i <= items@.len(),
                self.wf(),
                self@ == old(self)@ + items@.subrange(0, i as int).map_values(
                    |t: T| R::pushed_value(t),
                ),
                old(self)@.len() + items@.len() <= usize::MAX,
                accepts_all(self.spec_region(), items@.skip(i as int)),
                forall|after: R| #[trigger] pushed_all(self.spec_region(), items@.skip(i as int), after)
                    ==> pushed_all(old(self).spec_region(), items@, after),
            decreases items@.len() - i,
        {
            let ghost r = self.region;
            let ghost rest = items@.skip(i as int);
            assert(rest[0] == items@[i as int]);
            self.copy(items[i]);
            proof {
                assert(rest.drop_first() =~= items@.skip(i + 1));
                assert(r.push_post(rest[0], self.region));
                assert forall|after: R| #[trigger] pushed_all(self.region, items@.skip(i + 1), after)
                    implies pushed_all(old(self).spec_region(), items@, after) by {
                    assert(pushed_all(r, rest, after));
                }
            }
            assert(items@.subrange(0, i + 1).map_values(|t: T| R::pushed_value(t))
                =~= items@.subrange(0, i as int).map_values(|t: T| R::pushed_value(t)).push(
                R::pushed_value(items@[i as int]),
            ));
            i = i + 1;
        }
        assert(items@.subrange(0, items@.len() as int) =~= items@);
        proof {
            assert(items@.skip(items@.len() as int).len() == 0);
            assert(pushed_all(self.region, items@.skip(items@.len() as int), self.region));
        }
    }

    /// Splits the stack into its region and its indices.
    pub fn into_parts(self) -> (r: (R, S))
        ensures
            r.0 == self.spec_region(),
            r.1 == self.spec_indices(),
    {
        (self.region, self.indices)
    }
}

impl<R: Region> FlatStack<R> where R::Index: Copy {
    /// Default implementation based on the preference of type `T`.
    pub fn default_impl<T: RegionPreference<Region = R>>() -> (r: Self)
        ensures
            r.wf(),
            r@ == Seq::<R::Value>::empty(),
    {
        Self::new()
    }

    /// Returns the total number of indices the stack can hold without reallocation.
    pub fn capacity(&self) -> (r: usize)
        requires
            self.wf(),
        ensures
            self@.len() <= r,
    {
        crate::impls::storage::vec_capacity(&self.indices)
    }
}

impl<R: Region, S: OffsetContainer<R::Index>> Default for FlatStack<R, S> {
    fn default() -> (r: Self)
        ensures
            r.wf(),
            r@ == Seq::<R::Value>::empty(),
    {
        Self::new()
    }
}

/// An iterator over [`FlatStack`]. It yields [`Region::ReadItem`] elements, which
/// it obtains by looking up indices.
pub struct Iter<'a, R: Region, S: OffsetContainer<R::Index>> {
    /// The stack to iterate.
    stack: &'a FlatStack<R, S>,
    /// The position of the next item.
    position: usize,
}

impl<'a, R: Region, S: OffsetContainer<R::Index>> Iter<'a, R, S> {
    /// The stack being iterated.
    pub closed spec fn stack(&self) -> FlatStack<R, S> {
        *self.stack
    }

    /// The position of the next item.
    pub closed spec fn position(&self) -> nat {
        self.position as nat
    }

    /// Returns the next item, if any.
    pub fn next(&mut self) -> (r: Option<R::ReadItem<'a>>)
        requires
            old(self).stack().wf(),
        ensures
            final(self).stack() == old(self).stack(),
            old(self).position() < old(self).stack()@.len() ==> {
                &&& r.is_some()
                &&& R::item_value(r.unwrap()) == old(self).stack()@[old(self).position() as int]
                &&& final(self).position() == old(self).position() + 1
            },
            old(self).position() >= old(self).stack()@.len() ==> r.is_none() && final(self).position() == old(self).position(),
    {
        if self.position < self.stack.len() {
            let item = self.stack.get(self.position);
            self.position = self.position + 1;
            Some(item)
        } else {
            None
        }
    }

    /// The number of items left.
    pub fn remaining(&self) -> (r: usize)
        requires
            self.stack().wf(),
        ensures
            r == if self.position() < self.stack()@.len() {
                self.stack()@.len() - self.position()
            } else {
                0
            },
    {
        let len = self.stack.len();
        if self.position < len {
            len - self.position
        } else {
            0
        }
    }
}

/// A type to wrap and copy iterators onto regions.
///
/// This only exists to avoid blanket implementations that might conflict with more specific
/// implementations offered by some regions.
pub struct CopyIter<I>(pub I);

} // verus!
