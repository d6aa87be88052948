//! Regions that store tuples.
use vstd::prelude::*;

use crate::{Push, Region, RegionPreference, ReserveItems};

verus! {

/// A region for a tuple of 1 component(s), each stored in its own region.
pub struct TupleARegion<A> {
    container_a: A,
}

impl<A: Region + 'static> TupleARegion<A> {
    /// The region of component 0.
    pub closed spec fn spec_a(&self) -> A {
        self.container_a
    }

    /// Returns an empty region.
    pub fn new() -> (r: Self)
        ensures
            r.wf(),
            r.spec_a().fresh(),
    {
        TupleARegion { container_a: A::new_region() }
    }
}

impl<A: Region + 'static> Default for TupleARegion<A> {
    fn default() -> (r: Self)
        ensures
            r.wf(),
    {
        Self::new()
    }
}

impl<A: Region + 'static> Region for TupleARegion<A> {
    type Owned = (A::Owned,);
    type ReadItem<'a> = (A::ReadItem<'a>,);
    type Index = (A::Index,);
    type Value = (A::Value,);

    open spec fn wf(&self) -> bool {
        self.spec_a().wf()
    }

    open spec fn valid(&self, index: (A::Index,)) -> bool {
        self.spec_a().valid(index.0)
    }

    open spec fn value_at(&self, index: (A::Index,)) -> (A::Value,) {
        (self.spec_a().value_at(index.0),)
    }

    open spec fn item_value<'a>(item: (A::ReadItem<'a>,)) -> (A::Value,) {
        (A::item_value(item.0),)
    }

    open spec fn owned_value(owned: (A::Owned,)) -> (A::Value,) {
        (A::owned_value(owned.0),)
    }

    /// A fresh region holds no items.
    open spec fn fresh(&self) -> bool {
        self.spec_a().fresh()
    }

    open spec fn holds_nothing(&self) -> bool {
        self.spec_a().holds_nothing()
    }

    fn new_region() -> (r: Self) {
        Self::new()
    }

    fn merge_regions(regions: &[&Self]) -> (r: Self) {
        let mut regions_a: Vec<&A> = Vec::new();
        let mut i: usize = 0;
        while i < regions.len()
            invariant
                0 <= i <= regions@.len(),
                forall|j: int| 0 <= j < regions@.len() ==> (#[trigger] regions@[j]).wf(),
                regions_a@.len() == i,
                forall|j: int| 0 <= j < i ==> (#[trigger] regions_a@[j]).wf(),
            decreases regions@.len() - i,
        {
            regions_a.push(&regions[i].container_a);
            i = i + 1;
        }
        TupleARegion { container_a: A::merge_regions(regions_a.as_slice()) }
    }

    fn reserve_regions(&mut self, regions: &[&Self]) {
        let mut regions_a: Vec<&A> = Vec::new();
        let mut i: usize = 0;
        while i < regions.len()
            invariant
                0 <= i <= regions@.len(),
                forall|j: int| 0 <= j < regions@.len() ==> (#[trigger] regions@[j]).wf(),
                regions_a@.len() == i,
                forall|j: int| 0 <= j < i ==> (#[trigger] regions_a@[j]).wf(),
            decreases regions@.len() - i,
        {
            regions_a.push(&regions[i].container_a);
            i = i + 1;
        }
        self.container_a.reserve_regions(regions_a.as_slice());
    }

    fn index<'a>(&'a self, index: (A::Index,)) -> (r: (A::ReadItem<'a>,)) {
        (self.container_a.index(index.0),)
    }

    fn clear(&mut self) {
        self.container_a.clear();
    }

    open spec fn heap_used(&self) -> Seq<usize> {
        self.spec_a().heap_used()
    }

    fn heap_size(&self, sizes: &mut Vec<(usize, usize)>) {
        self.container_a.heap_size(sizes);
    }

    fn reborrow<'b, 'a: 'b>(item: (A::ReadItem<'a>,)) -> (r: (A::ReadItem<'b>,)) {
        (A::reborrow(item.0),)
    }

    fn item_to_owned<'a>(item: (A::ReadItem<'a>,)) -> (r: (A::Owned,)) {
        (A::item_to_owned(item.0),)
    }
}

impl<A: RegionPreference> RegionPreference for (A,) where
    A::Region: 'static,
 {
    type Owned = (<A::Region as Region>::Owned,);
    type Region = TupleARegion<A::Region>;
}

impl<A: Region + Push<TA> + 'static, TA> Push<(TA,)> for TupleARegion<A> {
    open spec fn pushed_value(item: (TA,)) -> (A::Value,) {
        (A::pushed_value(item.0),)
    }

    open spec fn push_result(&self, item: (TA,)) -> (A::Index,) {
        (self.spec_a().push_result(item.0),)
    }

    open spec fn push_requires(&self, item: (TA,)) -> bool {
        self.spec_a().push_requires(item.0)
    }

    /// Each component region absorbs its component.
    open spec fn push_post(&self, item: (TA,), after: Self) -> bool {
        self.spec_a().push_post(item.0, after.spec_a())
    }

    fn push(&mut self, item: (TA,)) -> (index: (A::Index,)) {
        let (t0,) = item;
        let i0 = self.container_a.push(t0);
        (i0,)
    }
}

impl<'p, A: Region + Push<&'p TA> + 'static, TA> Push<&'p (TA,)> for TupleARegion<A> {
    open spec fn pushed_value(item: &'p (TA,)) -> (A::Value,) {
        (A::pushed_value(&item.0),)
    }

    open spec fn push_result(&self, item: &'p (TA,)) -> (A::Index,) {
        (self.spec_a().push_result(&item.0),)
    }

    open spec fn push_requires(&self, item: &'p (TA,)) -> bool {
        self.spec_a().push_requires(&item.0)
    }

    /// Each component region absorbs its component.
    open spec fn push_post(&self, item: &'p (TA,), after: Self) -> bool {
        self.spec_a().push_post(&item.0, after.spec_a())
    }

    fn push(&mut self, item: &'p (TA,)) -> (index: (A::Index,)) {
        let i0 = self.container_a.push(&item.0);
        (i0,)
    }
}

/// A region for a tuple of 2 component(s), each stored in its own region.
pub struct TupleABRegion<A, B> {
    container_a: A,
    container_b: B,
}

impl<A: Region + 'static, B: Region + 'static> TupleABRegion<A, B> {
    /// The region of component 0.
    pub closed spec fn spec_a(&self) -> A {
        self.container_a
    }

    /// The region of component 1.
    pub closed spec fn spec_b(&self) -> B {
        self.container_b
    }

    /// The region of component 0.
    pub fn region_a(&self) -> (r: &A)
        ensures
            *r == self.spec_a(),
    {
        &self.container_a
    }

    /// Returns an empty region.
    pub fn new() -> (r: Self)
        ensures
            r.wf(),
            r.spec_a().fresh(),
            r.spec_b().fresh(),
    {
        TupleABRegion { container_a: A::new_region(), container_b: B::new_region() }
    }
}

impl<A: Region + 'static, B: Region + 'static> Default for TupleABRegion<A, B> {
    fn default() -> (r: Self)
        ensures
            r.wf(),
    {
        Self::new()
    }
}

impl<A: Region + 'static, B: Region + 'static> Region for TupleABRegion<A, B> {
    type Owned = (A::Owned, B::Owned);
    type ReadItem<'a> = (A::ReadItem<'a>, B::ReadItem<'a>);
    type Index = (A::Index, B::Index);
    type Value = (A::Value, B::Value);

    open spec fn wf(&self) -> bool {
        self.spec_a().wf() && self.spec_b().wf()
    }

    open spec fn valid(&self, index: (A::Index, B::Index)) -> bool {
        self.spec_a().valid(index.0) && self.spec_b().valid(index.1)
    }

    open spec fn value_at(&self, index: (A::Index, B::Index)) -> (A::Value, B::Value) {
        (self.spec_a().value_at(index.0), self.spec_b().value_at(index.1))
    }

    open spec fn item_value<'a>(item: (A::ReadItem<'a>, B::ReadItem<'a>)) -> (A::Value, B::Value) {
        (A::item_value(item.0), B::item_value(item.1))
    }

    open spec fn owned_value(owned: (A::Owned, B::Owned)) -> (A::Value, B::Value) {
        (A::owned_value(owned.0), B::owned_value(owned.1))
    }

    /// A fresh region holds no items.
    open spec fn fresh(&self) -> bool {
        self.spec_a().fresh() && self.spec_b().fresh()
    }

    open spec fn holds_nothing(&self) -> bool {
        self.spec_a().holds_nothing() && self.spec_b().holds_nothing()
    }

    fn new_region() -> (r: Self) {
        Self::new()
    }

    fn merge_regions(regions: &[&Self]) -> (r: Self) {
        let mut regions_a: Vec<&A> = Vec::new();
        let mut regions_b: Vec<&B> = Vec::new();
        let mut i: usize = 0;
        while i < regions.len()
            invariant
                0 <= i <= regions@.len(),
                forall|j: int| 0 <= j < regions@.len() ==> (#[trigger] regions@[j]).wf(),
                regions_a@.len() == i,
                forall|j: int| 0 <= j < i ==> (#[trigger] regions_a@[j]).wf(),
                regions_b@.len() == i,
                forall|j: int| 0 <= j < i ==> (#[trigger] regions_b@[j]).wf(),
            decreases regions@.len() - i,
        {
            regions_a.push(&regions[i].container_a);
            regions_b.push(&regions[i].container_b);
            i = i + 1;
        }
        TupleABRegion { container_a: A::merge_regions(regions_a.as_slice()), container_b: B::merge_regions(regions_b.as_slice()) }
    }

    fn reserve_regions(&mut self, regions: &[&Self]) {
        let mut regions_a: Vec<&A> = Vec::new();
        let mut regions_b: Vec<&B> = Vec::new();
        let mut i: usize = 0;
        while i < regions.len()
            invariant
                0 <= i <= regions@.len(),
                forall|j: int| 0 <= j < regions@.len() ==> (#[trigger] regions@[j]).wf(),
                regions_a@.len() == i,
                forall|j: int| 0 <= j < i ==> (#[trigger] regions_a@[j]).wf(),
                regions_b@.len() == i,
                forall|j: int| 0 <= j < i ==> (#[trigger] regions_b@[j]).wf(),
            decreases regions@.len() - i,
        {
            regions_a.push(&regions[i].container_a);
            regions_b.push(&regions[i].container_b);
            i = i + 1;
        }
        self.container_a.reserve_regions(regions_a.as_slice());
        self.container_b.reserve_regions(regions_b.as_slice());
    }

    fn index<'a>(&'a self, index: (A::Index, B::Index)) -> (r: (A::ReadItem<'a>, B::ReadItem<'a>)) {
        (self.container_a.index(index.0), self.container_b.index(index.1))
    }

    fn clear(&mut self) {
        self.container_a.clear();
        self.container_b.clear();
    }

    open spec fn heap_used(&self) -> Seq<usize> {
        self.spec_a().heap_used() + self.spec_b().heap_used()
    }

    fn heap_size(&self, sizes: &mut Vec<(usize, usize)>) {
        let ghost s0 = sizes@;
        self.container_a.heap_size(sizes);
        let ghost s1 = sizes@;
        self.container_b.heap_size(sizes);
        proof {
            crate::lemma_reports_chain(s0, s1, sizes@, self.container_a.heap_used(), self.container_b.heap_used());
        }
    }

    fn reborrow<'b, 'a: 'b>(item: (A::ReadItem<'a>, B::ReadItem<'a>)) -> (r: (A::ReadItem<'b>, B::ReadItem<'b>)) {
        (A::reborrow(item.0), B::reborrow(item.1))
    }

    fn item_to_owned<'a>(item: (A::ReadItem<'a>, B::ReadItem<'a>)) -> (r: (A::Owned, B::Owned)) {
        (A::item_to_owned(item.0), B::item_to_owned(item.1))
    }
}

impl<A: RegionPreference, B: RegionPreference> RegionPreference for (A, B) where
    A::Region: 'static,
    B::Region: 'static,
 {
    type Owned = (<A::Region as Region>::Owned, <B::Region as Region>::Owned);
    type Region = TupleABRegion<A::Region, B::Region>;
}

impl<A: Region + Push<TA> + 'static, B: Region + Push<TB> + 'static, TA, TB> Push<(TA, TB)> for TupleABRegion<A, B> {
    open spec fn pushed_value(item: (TA, TB)) -> (A::Value, B::Value) {
        (A::pushed_value(item.0), B::pushed_value(item.1))
    }

    open spec fn push_result(&self, item: (TA, TB)) -> (A::Index, B::Index) {
        (self.spec_a().push_result(item.0), self.spec_b().push_result(item.1))
    }

    open spec fn push_requires(&self, item: (TA, TB)) -> bool {
        self.spec_a().push_requires(item.0) && self.spec_b().push_requires(item.1)
    }

    /// Each component region absorbs its component.
    open spec fn push_post(&self, item: (TA, TB), after: Self) -> bool {
        self.spec_a().push_post(item.0, after.spec_a()) && self.spec_b().push_post(item.1, after.spec_b())
    }

    fn push(&mut self, item: (TA, TB)) -> (index: (A::Index, B::Index)) {
        let (t0, t1) = item;
        let i0 = self.container_a.push(t0);
        let i1 = self.container_b.push(t1);
        (i0, i1)
    }
}

impl<'p, A: Region + Push<&'p TA> + 'static, B: Region + Push<&'p TB> + 'static, TA, TB> Push<&'p (TA, TB)> for TupleABRegion<A, B> {
    open spec fn pushed_value(item: &'p (TA, TB)) -> (A::Value, B::Value) {
        (A::pushed_value(&item.0), B::pushed_value(&item.1))
    }

    open spec fn push_result(&self, item: &'p (TA, TB)) -> (A::Index, B::Index) {
        (self.spec_a().push_result(&item.0), self.spec_b().push_result(&item.1))
    }

    open spec fn push_requires(&self, item: &'p (TA, TB)) -> bool {
        self.spec_a().push_requires(&item.0) && self.spec_b().push_requires(&item.1)
    }

    /// Each component region absorbs its component.
    open spec fn push_post(&self, item: &'p (TA, TB), after: Self) -> bool {
        self.spec_a().push_post(&item.0, after.spec_a()) && self.spec_b().push_post(&item.1, after.spec_b())
    }

    fn push(&mut self, item: &'p (TA, TB)) -> (index: (A::Index, B::Index)) {
        let i0 = self.container_a.push(&item.0);
        let i1 = self.container_b.push(&item.1);
        (i0, i1)
    }
}

/// A region for a tuple of 3 component(s), each stored in its own region.
pub struct TupleABCRegion<A, B, C> {
    container_a: A,
    container_b: B,
    container_c: C,
}

impl<A: Region + 'static, B: Region + 'static, C: Region + 'static> TupleABCRegion<A, B, C> {
    /// The region of component 0.
    pub closed spec fn spec_a(&self) -> A {
        self.container_a
    }

    /// The region of component 1.
    pub closed spec fn spec_b(&self) -> B {
        self.container_b
    }

    /// The region of component 2.
    pub closed spec fn spec_c(&self) -> C {
        self.container_c
    }

    /// Returns an empty region.
    pub fn new() -> (r: Self)
        ensures
            r.wf(),
            r.spec_a().fresh(),
            r.spec_b().fresh(),
            r.spec_c().fresh(),
    {
        TupleABCRegion { container_a: A::new_region(), container_b: B::new_region(), container_c: C::new_region() }
    }
}

impl<A: Region + 'static, B: Region + 'static, C: Region + 'static> Default for TupleABCRegion<A, B, C> {
    fn default() -> (r: Self)
        ensures
            r.wf(),
    {
        Self::new()
    }
}

impl<A: Region + 'static, B: Region + 'static, C: Region + 'static> Region for TupleABCRegion<A, B, C> {
    type Owned = (A::Owned, B::Owned, C::Owned);
    type ReadItem<'a> = (A::ReadItem<'a>, B::ReadItem<'a>, C::ReadItem<'a>);
    type Index = (A::Index, B::Index, C::Index);
    type Value = (A::Value, B::Value, C::Value);

    open spec fn wf(&self) -> bool {
        self.spec_a().wf() && self.spec_b().wf() && self.spec_c().wf()
    }

    open spec fn valid(&self, index: (A::Index, B::Index, C::Index)) -> bool {
        self.spec_a().valid(index.0) && self.spec_b().valid(index.1) && self.spec_c().valid(index.2)
    }

    open spec fn value_at(&self, index: (A::Index, B::Index, C::Index)) -> (A::Value, B::Value, C::Value) {
        (self.spec_a().value_at(index.0), self.spec_b().value_at(index.1), self.spec_c().value_at(index.2))
    }

    open spec fn item_value<'a>(item: (A::ReadItem<'a>, B::ReadItem<'a>, C::ReadItem<'a>)) -> (A::Value, B::Value, C::Value) {
        (A::item_value(item.0), B::item_value(item.1), C::item_value(item.2))
    }

    open spec fn owned_value(owned: (A::Owned, B::Owned, C::Owned)) -> (A::Value, B::Value, C::Value) {
        (A::owned_value(owned.0), B::owned_value(owned.1), C::owned_value(owned.2))
    }

    /// A fresh region holds no items.
    open spec fn fresh(&self) -> bool {
        self.spec_a().fresh() && self.spec_b().fresh() && self.spec_c().fresh()
    }

    open spec fn holds_nothing(&self) -> bool {
        self.spec_a().holds_nothing() && self.spec_b().holds_nothing() && self.spec_c().holds_nothing()
    }

    fn new_region() -> (r: Self) {
        Self::new()
    }

    fn merge_regions(regions: &[&Self]) -> (r: Self) {
        let mut regions_a: Vec<&A> = Vec::new();
        let mut regions_b: Vec<&B> = Vec::new();
        let mut regions_c: Vec<&C> = Vec::new();
        let mut i: usize = 0;
        while i < regions.len()
            invariant
                0 <= i <= regions@.len(),
                forall|j: int| 0 <= j < regions@.len() ==> (#[trigger] regions@[j]).wf(),
                regions_a@.len() == i,
                forall|j: int| 0 <= j < i ==> (#[trigger] regions_a@[j]).wf(),
                regions_b@.len() == i,
                forall|j: int| 0 <= j < i ==> (#[trigger] regions_b@[j]).wf(),
                regions_c@.len() == i,
                forall|j: int| 0 <= j < i ==> (#[trigger] regions_c@[j]).wf(),
            decreases regions@.len() - i,
        {
            regions_a.push(&regions[i].container_a);
            regions_b.push(&regions[i].container_b);
            regions_c.push(&regions[i].container_c);
            i = i + 1;
        }
        TupleABCRegion { container_a: A::merge_regions(regions_a.as_slice()), container_b: B::merge_regions(regions_b.as_slice()), container_c: C::merge_regions(regions_c.as_slice()) }
    }

    fn reserve_regions(&mut self, regions: &[&Self]) {
        let mut regions_a: Vec<&A> = Vec::new();
        let mut regions_b: Vec<&B> = Vec::new();
        let mut regions_c: Vec<&C> = Vec::new();
        let mut i: usize = 0;
        while i < regions.len()
            invariant
                0 <= i <= regions@.len(),
                forall|j: int| 0 <= j < regions@.len() ==> (#[trigger] regions@[j]).wf(),
                regions_a@.len() == i,
                forall|j: int| 0 <= j < i ==> (#[trigger] regions_a@[j]).wf(),
                regions_b@.len() == i,
                forall|j: int| 0 <= j < i ==> (#[trigger] regions_b@[j]).wf(),
                regions_c@.len() == i,
                forall|j: int| 0 <= j < i ==> (#[trigger] regions_c@[j]).wf(),
            decreases regions@.len() - i,
        {
            regions_a.push(&regions[i].container_a);
            regions_b.push(&regions[i].container_b);
            regions_c.push(&regions[i].container_c);
            i = i + 1;
        }
        self.container_a.reserve_regions(regions_a.as_slice());
        self.container_b.reserve_regions(regions_b.as_slice());
        self.container_c.reserve_regions(regions_c.as_slice());
    }

    fn index<'a>(&'a self, index: (A::Index, B::Index, C::Index)) -> (r: (A::ReadItem<'a>, B::ReadItem<'a>, C::ReadItem<'a>)) {
        (self.container_a.index(index.0), self.container_b.index(index.1), self.container_c.index(index.2))
    }

    fn clear(&mut self) {
        self.container_a.clear();
        self.container_b.clear();
        self.container_c.clear();
    }

    open spec fn heap_used(&self) -> Seq<usize> {
        self.spec_a().heap_used() + self.spec_b().heap_used() + self.spec_c().heap_used()
    }

    fn heap_size(&self, sizes: &mut Vec<(usize, usize)>) {
        let ghost s0 = sizes@;
        self.container_a.heap_size(sizes);
        let ghost s1 = sizes@;
        self.container_b.heap_size(sizes);
        let ghost s2 = sizes@;
        self.container_c.heap_size(sizes);
        proof {
            crate::lemma_reports_chain(s0, s1, s2, self.container_a.heap_used(), self.container_b.heap_used());
            crate::lemma_reports_chain(s0, s2, sizes@, self.container_a.heap_used() + self.container_b.heap_used(), self.container_c.heap_used());
        }
    }

    fn reborrow<'b, 'a: 'b>(item: (A::ReadItem<'a>, B::ReadItem<'a>, C::ReadItem<'a>)) -> (r: (A::ReadItem<'b>, B::ReadItem<'b>, C::ReadItem<'b>)) {
        (A::reborrow(item.0), B::reborrow(item.1), C::reborrow(item.2))
    }

    fn item_to_owned<'a>(item: (A::ReadItem<'a>, B::ReadItem<'a>, C::ReadItem<'a>)) -> (r: (A::Owned, B::Owned, C::Owned)) {
        (A::item_to_owned(item.0), B::item_to_owned(item.1), C::item_to_owned(item.2))
    }
}

impl<A: RegionPreference, B: RegionPreference, C: RegionPreference> RegionPreference for (A, B, C) where
    A::Region: 'static,
    B::Region: 'static,
    C::Region: 'static,
 {
    type Owned = (<A::Region as Region>::Owned, <B::Region as Region>::Owned, <C::Region as Region>::Owned);
    type Region = TupleABCRegion<A::Region, B::Region, C::Region>;
}

impl<A: Region + Push<TA> + 'static, B: Region + Push<TB> + 'static, C: Region + Push<TC> + 'static, TA, TB, TC> Push<(TA, TB, TC)> for TupleABCRegion<A, B, C> {
    open spec fn pushed_value(item: (TA, TB, TC)) -> (A::Value, B::Value, C::Value) {
        (A::pushed_value(item.0), B::pushed_value(item.1), C::pushed_value(item.2))
    }

    open spec fn push_result(&self, item: (TA, TB, TC)) -> (A::Index, B::Index, C::Index) {
        (self.spec_a().push_result(item.0), self.spec_b().push_result(item.1), self.spec_c().push_result(item.2))
    }

    open spec fn push_requires(&self, item: (TA, TB, TC)) -> bool {
        self.spec_a().push_requires(item.0) && self.spec_b().push_requires(item.1) && self.spec_c().push_requires(item.2)
    }

    /// Each component region absorbs its component.
    open spec fn push_post(&self, item: (TA, TB, TC), after: Self) -> bool {
        self.spec_a().push_post(item.0, after.spec_a()) && self.spec_b().push_post(item.1, after.spec_b()) && self.spec_c().push_post(item.2, after.spec_c())
    }

    fn push(&mut self, item: (TA, TB, TC)) -> (index: (A::Index, B::Index, C::Index)) {
        let (t0, t1, t2) = item;
        let i0 = self.container_a.push(t0);
        let i1 = self.container_b.push(t1);
        let i2 = self.container_c.push(t2);
        (i0, i1, i2)
    }
}

impl<'p, A: Region + Push<&'p TA> + 'static, B: Region + Push<&'p TB> + 'static, C: Region + Push<&'p TC> + 'static, TA, TB, TC> Push<&'p (TA, TB, TC)> for TupleABCRegion<A, B, C> {
    open spec fn pushed_value(item: &'p (TA, TB, TC)) -> (A::Value, B::Value, C::Value) {
        (A::pushed_value(&item.0), B::pushed_value(&item.1), C::pushed_value(&item.2))
    }

    open spec fn push_result(&self, item: &'p (TA, TB, TC)) -> (A::Index, B::Index, C::Index) {
        (self.spec_a().push_result(&item.0), self.spec_b().push_result(&item.1), self.spec_c().push_result(&item.2))
    }

    open spec fn push_requires(&self, item: &'p (TA, TB, TC)) -> bool {
        self.spec_a().push_requires(&item.0) && self.spec_b().push_requires(&item.1) && self.spec_c().push_requires(&item.2)
    }

    /// Each component region absorbs its component.
    open spec fn push_post(&self, item: &'p (TA, TB, TC), after: Self) -> bool {
        self.spec_a().push_post(&item.0, after.spec_a()) && self.spec_b().push_post(&item.1, after.spec_b()) && self.spec_c().push_post(&item.2, after.spec_c())
    }

    fn push(&mut self, item: &'p (TA, TB, TC)) -> (index: (A::Index, B::Index, C::Index)) {
        let i0 = self.container_a.push(&item.0);
        let i1 = self.container_b.push(&item.1);
        let i2 = self.container_c.push(&item.2);
        (i0, i1, i2)
    }
}

impl<'b, A: Region + ReserveItems<&'b TA> + 'static, TA> ReserveItems<&'b (TA,)> for TupleARegion<A> {
    /// Lets each component region reserve for its component of the items.
    fn reserve_items(&mut self, items: &[&'b (TA,)]) {
        let mut items_a: Vec<&'b TA> = Vec::new();
        let mut i: usize = 0;
        while i < items.len()
            invariant
                0 <= i <= items@.len(),
            decreases items@.len() - i,
        {
            let item: &'b (TA,) = items[i];
            items_a.push(&item.0);
            i = i + 1;
        }
        self.container_a.reserve_items(items_a.as_slice());
        proof {
            assert forall|i: (A::Index,)| #[trigger] self.valid(i) <==> old(self).valid(i) by {
                assert(self.spec_a().valid(i.0) <==> old(self).spec_a().valid(i.0));
            }
            assert forall|i: (A::Index,)| #[trigger] old(self).valid(i) implies self.valid(i) && self.value_at(i) == old(self).value_at(i) by {
                assert(old(self).spec_a().valid(i.0));
            }
        }
    }
}

impl<A: Region + ReserveItems<TA> + 'static, TA: Copy> ReserveItems<(TA,)> for TupleARegion<A> {
    /// Lets each component region reserve for its component of the items.
    fn reserve_items(&mut self, items: &[(TA,)]) {
        let mut items_a: Vec<TA> = Vec::new();
        let mut i: usize = 0;
        while i < items.len()
            invariant
                0 <= i <= items@.len(),
            decreases items@.len() - i,
        {
            let item: (TA,) = items[i];
            items_a.push(item.0);
            i = i + 1;
        }
        self.container_a.reserve_items(items_a.as_slice());
        proof {
            assert forall|i: (A::Index,)| #[trigger] self.valid(i) <==> old(self).valid(i) by {
                assert(self.spec_a().valid(i.0) <==> old(self).spec_a().valid(i.0));
            }
            assert forall|i: (A::Index,)| #[trigger] old(self).valid(i) implies self.valid(i) && self.value_at(i) == old(self).value_at(i) by {
                assert(old(self).spec_a().valid(i.0));
            }
        }
    }
}

impl<'b, A: Region + ReserveItems<&'b TA> + 'static, B: Region + ReserveItems<&'b TB> + 'static, TA, TB> ReserveItems<&'b (TA, TB)> for TupleABRegion<A, B> {
    /// Lets each component region reserve for its component of the items.
    fn reserve_items(&mut self, items: &[&'b (TA, TB)]) {
        let mut items_a: Vec<&'b TA> = Vec::new();
        let mut items_b: Vec<&'b TB> = Vec::new();
        let mut i: usize = 0;
        while i < items.len()
            invariant
                0 <= i <= items@.len(),
            decreases items@.len() - i,
        {
            let item: &'b (TA, TB) = items[i];
            items_a.push(&item.0);
            items_b.push(&item.1);
            i = i + 1;
        }
        self.container_a.reserve_items(items_a.as_slice());
        self.container_b.reserve_items(items_b.as_slice());
        proof {
            assert forall|i: (A::Index, B::Index)| #[trigger] self.valid(i) <==> old(self).valid(i) by {
                assert(self.spec_a().valid(i.0) <==> old(self).spec_a().valid(i.0));
                assert(self.spec_b().valid(i.1) <==> old(self).spec_b().valid(i.1));
            }
            assert forall|i: (A::Index, B::Index)| #[trigger] old(self).valid(i) implies self.valid(i) && self.value_at(i) == old(self).value_at(i) by {
                assert(old(self).spec_a().valid(i.0));
                assert(old(self).spec_b().valid(i.1));
            }
        }
    }
}

impl<A: Region + ReserveItems<TA> + 'static, B: Region + ReserveItems<TB> + 'static, TA: Copy, TB: Copy> ReserveItems<(TA, TB)> for TupleABRegion<A, B> {
    /// Lets each component region reserve for its component of the items.
    fn reserve_items(&mut self, items: &[(TA, TB)]) {
        let mut items_a: Vec<TA> = Vec::new();
        let mut items_b: Vec<TB> = Vec::new();
        let mut i: usize = 0;
        while i < items.len()
            invariant
                0 <= i <= items@.len(),
            decreases items@.len() - i,
        {
            let item: (TA, TB) = items[i];
            items_a.push(item.0);
            items_b.push(item.1);
            i = i + 1;
        }
        self.container_a.reserve_items(items_a.as_slice());
        self.container_b.reserve_items(items_b.as_slice());
        proof {
            assert forall|i: (A::Index, B::Index)| #[trigger] self.valid(i) <==> old(self).valid(i) by {
                assert(self.spec_a().valid(i.0) <==> old(self).spec_a().valid(i.0));
                assert(self.spec_b().valid(i.1) <==> old(self).spec_b().valid(i.1));
            }
            assert forall|i: (A::Index, B::Index)| #[trigger] old(self).valid(i) implies self.valid(i) && self.value_at(i) == old(self).value_at(i) by {
                assert(old(self).spec_a().valid(i.0));
                assert(old(self).spec_b().valid(i.1));
            }
        }
    }
}

impl<'b, A: Region + ReserveItems<&'b TA> + 'static, B: Region + ReserveItems<&'b TB> + 'static, C: Region + ReserveItems<&'b TC> + 'static, TA, TB, TC> ReserveItems<&'b (TA, TB, TC)> for TupleABCRegion<A, B, C> {
    /// Lets each component region reserve for its component of the items.
    fn reserve_items(&mut self, items: &[&'b (TA, TB, TC)]) {
        let mut items_a: Vec<&'b TA> = Vec::new();
        let mut items_b: Vec<&'b TB> = Vec::new();
        let mut items_c: Vec<&'b TC> = Vec::new();
        let mut i: usize = 0;
        while i < items.len()
            invariant
                0 <= i <= items@.len(),
            decreases items@.len() - i,
        {
            let item: &'b (TA, TB, TC) = items[i];
            items_a.push(&item.0);
            items_b.push(&item.1);
            items_c.push(&item.2);
            i = i + 1;
        }
        self.container_a.reserve_items(items_a.as_slice());
        self.container_b.reserve_items(items_b.as_slice());
        self.container_c.reserve_items(items_c.as_slice());
        proof {
            assert forall|i: (A::Index, B::Index, C::Index)| #[trigger] self.valid(i) <==> old(self).valid(i) by {
                assert(self.spec_a().valid(i.0) <==> old(self).spec_a().valid(i.0));
                assert(self.spec_b().valid(i.1) <==> old(self).spec_b().valid(i.1));
                assert(self.spec_c().valid(i.2) <==> old(self).spec_c().valid(i.2));
            }
            assert forall|i: (A::Index, B::Index, C::Index)| #[trigger] old(self).valid(i) implies self.valid(i) && self.value_at(i) == old(self).value_at(i) by {
                assert(old(self).spec_a().valid(i.0));
                assert(old(self).spec_b().valid(i.1));
                assert(old(self).spec_c().valid(i.2));
            }
        }
    }
}

impl<A: Region + ReserveItems<TA> + 'static, B: Region + ReserveItems<TB> + 'static, C: Region + ReserveItems<TC> + 'static, TA: Copy, TB: Copy, TC: Copy> ReserveItems<(TA, TB, TC)> for TupleABCRegion<A, B, C> {
    /// Lets each component region reserve for its component of the items.
    fn reserve_items(&mut self, items: &[(TA, TB, TC)]) {
        let mut items_a: Vec<TA> = Vec::new();
        let mut items_b: Vec<TB> = Vec::new();
        let mut items_c: Vec<TC> = Vec::new();
        let mut i: usize = 0;
        while i < items.len()
            invariant
                0 <= i <= items@.len(),
            decreases items@.len() - i,
        {
            let item: (TA, TB, TC) = items[i];
            items_a.push(item.0);
            items_b.push(item.1);
            items_c.push(item.2);
            i = i + 1;
        }
        self.container_a.reserve_items(items_a.as_slice());
        self.container_b.reserve_items(items_b.as_slice());
        self.container_c.reserve_items(items_c.as_slice());
        proof {
            assert forall|i: (A::Index, B::Index, C::Index)| #[trigger] self.valid(i) <==> old(self).valid(i) by {
                assert(self.spec_a().valid(i.0) <==> old(self).spec_a().valid(i.0));
                assert(self.spec_b().valid(i.1) <==> old(self).spec_b().valid(i.1));
                assert(self.spec_c().valid(i.2) <==> old(self).spec_c().valid(i.2));
            }
            assert forall|i: (A::Index, B::Index, C::Index)| #[trigger] old(self).valid(i) implies self.valid(i) && self.value_at(i) == old(self).value_at(i) by {
                assert(old(self).spec_a().valid(i.0));
                assert(old(self).spec_b().valid(i.1));
                assert(old(self).spec_c().valid(i.2));
            }
        }
    }
}

} // verus!
