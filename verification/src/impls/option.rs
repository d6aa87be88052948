//! A region that stores options.
use vstd::prelude::*;

use crate::{IntoOwned, Push, Region, RegionPreference, ReserveItems};

verus! {

impl<T: RegionPreference> RegionPreference for Option<T> where T::Region: 'static {
    type Owned = Option<<T::Region as Region>::Owned>;
    type Region = OptionRegion<T::Region>;
}

/// A region to hold [`Option`]s.
///
/// A `Some` item is stored in the inner region and its index is kept in the index of the
/// option; a `None` item takes no storage.
pub struct OptionRegion<R> {
    inner: R,
}

impl<R: Region + 'static> OptionRegion<R> {
    /// The region holding the contents of `Some` items.
    pub closed spec fn spec_inner(&self) -> R {
        self.inner
    }

    /// Returns an empty region.
    pub fn new() -> (r: Self)
        ensures
            r.wf(),
            r.spec_inner().fresh(),
    {
        OptionRegion { inner: R::new_region() }
    }
}

impl<R: Region + 'static> Default for OptionRegion<R> {
    fn default() -> (r: Self)
        ensures
            r.wf(),
    {
        Self::new()
    }
}

impl<R: Region + 'static> Region for OptionRegion<R> {
    type Owned = Option<R::Owned>;
    type ReadItem<'a> = Option<R::ReadItem<'a>>;
    type Index = Option<R::Index>;
    type Value = Option<R::Value>;

    open spec fn wf(&self) -> bool {
        self.spec_inner().wf()
    }

    open spec fn valid(&self, index: Option<R::Index>) -> bool {
        match index {
            Some(i) => self.spec_inner().valid(i),
            None => true,
        }
    }

    open spec fn value_at(&self, index: Option<R::Index>) -> Option<R::Value> {
        match index {
            Some(i) => Some(self.spec_inner().value_at(i)),
            None => None,
        }
    }

    open spec fn item_value<'a>(item: Option<R::ReadItem<'a>>) -> Option<R::Value> {
        match item {
            Some(x) => Some(R::item_value(x)),
            None => None,
        }
    }

    open spec fn owned_value(owned: Option<R::Owned>) -> Option<R::Value> {
        match owned {
            Some(x) => Some(R::owned_value(x)),
            None => None,
        }
    }

    /// A fresh region holds no items.
    open spec fn fresh(&self) -> bool {
        self.spec_inner().fresh()
    }

    open spec fn holds_nothing(&self) -> bool {
        self.spec_inner().holds_nothing()
    }

    fn new_region() -> (r: Self) {
        Self::new()
    }

    fn merge_regions(regions: &[&Self]) -> (r: Self) {
        let mut inners: Vec<&R> = Vec::new();
        let mut i: usize = 0;
        while i < regions.len()
            invariant
                0 <= i <= regions@.len(),
                forall|j: int| 0 <= j < regions@.len() ==> (#[trigger] regions@[j]).wf(),
                inners@.len() == i,
                forall|j: int| 0 <= j < i ==> (#[trigger] inners@[j]).wf(),
            decreases regions@.len() - i,
        {
            inners.push(&regions[i].inner);
            i = i + 1;
        }
        OptionRegion { inner: R::merge_regions(inners.as_slice()) }
    }

    fn index<'a>(&'a self, index: Option<R::Index>) -> (r: Option<R::ReadItem<'a>>) {
        match index {
            Some(i) => Some(self.inner.index(i)),
            None => None,
        }
    }

    fn reserve_regions(&mut self, regions: &[&Self]) {
        let mut inners: Vec<&R> = Vec::new();
        let mut i: usize = 0;
        while i < regions.len()
            invariant
                0 <= i <= regions@.len(),
                forall|j: int| 0 <= j < regions@.len() ==> (#[trigger] regions@[j]).wf(),
                inners@.len() == i,
                forall|j: int| 0 <= j < i ==> (#[trigger] inners@[j]).wf(),
            decreases regions@.len() - i,
        {
            inners.push(&regions[i].inner);
            i = i + 1;
        }
        self.inner.reserve_regions(inners.as_slice());
    }

    fn clear(&mut self) {
        self.inner.clear();
    }

    open spec fn heap_used(&self) -> Seq<usize> {
        self.spec_inner().heap_used()
    }

    fn heap_size(&self, sizes: &mut Vec<(usize, usize)>) {
        self.inner.heap_size(sizes);
    }

    fn reborrow<'b, 'a: 'b>(item: Option<R::ReadItem<'a>>) -> (r: Option<R::ReadItem<'b>>) {
        match item {
            Some(x) => Some(R::reborrow(x)),
            None => None,
        }
    }

    fn item_to_owned<'a>(item: Option<R::ReadItem<'a>>) -> (r: Option<R::Owned>) {
        match item {
            Some(x) => Some(R::item_to_owned(x)),
            None => None,
        }
    }
}

impl<'a, T: IntoOwned<'a>> IntoOwned<'a> for Option<T> {
    type Owned = Option<T::Owned>;

    /// Converts the item, if there is one.
    fn into_owned(self) -> (r: Option<T::Owned>)
        ensures
            match self {
                Some(x) => r is Some && call_ensures(T::into_owned, (x,), r->0),
                None => r is None,
            },
    {
        match self {
            Some(item) => Some(item.into_owned()),
            None => None,
        }
    }

    /// Makes `other` hold an owned copy of the item, if there is one: in place where
    /// `other` holds an item, converted otherwise.
    fn clone_onto(self, other: &mut Option<T::Owned>)
        ensures
            match self {
                Some(x) => *final(other) is Some && (*old(other) is None ==> call_ensures(
                    T::into_owned,
                    (x,),
                    (*final(other))->0,
                )),
                None => *final(other) is None,
            },
    {
        match self {
            Some(item) => match other {
                Some(target) => item.clone_onto(target),
                None => {
                    *other = Some(item.into_owned());
                },
            },
            None => {
                *other = None;
            },
        }
    }

    /// Borrows the owned item, if there is one.
    fn borrow_as(owned: &'a Option<T::Owned>) -> (r: Option<T>)
        ensures
            match owned {
                Some(x) => r is Some && call_ensures(T::borrow_as, (x,), r->0),
                None => r is None,
            },
    {
        match owned {
            Some(x) => Some(T::borrow_as(x)),
            None => None,
        }
    }
}

impl<R: Region + Push<T> + 'static, T> Push<Option<T>> for OptionRegion<R> {
    open spec fn pushed_value(item: Option<T>) -> Option<R::Value> {
        match item {
            Some(t) => Some(R::pushed_value(t)),
            None => None,
        }
    }

    open spec fn push_result(&self, item: Option<T>) -> Option<R::Index> {
        match item {
            Some(t) => Some(self.spec_inner().push_result(t)),
            None => None,
        }
    }

    open spec fn push_requires(&self, item: Option<T>) -> bool {
        match item {
            Some(t) => self.spec_inner().push_requires(t),
            None => true,
        }
    }

    /// The inner region absorbs the contents of `Some`, and stays as it was for `None`.
    open spec fn push_post(&self, item: Option<T>, after: Self) -> bool {
        match item {
            Some(t) => self.spec_inner().push_post(t, after.spec_inner()),
            None => after.spec_inner() == self.spec_inner(),
        }
    }

    fn push(&mut self, item: Option<T>) -> (index: Option<R::Index>) {
        match item {
            Some(t) => Some(self.inner.push(t)),
            None => None,
        }
    }
}

impl<'b, R: Region + Push<&'b T> + 'static, T> Push<&'b Option<T>> for OptionRegion<R> {
    open spec fn pushed_value(item: &'b Option<T>) -> Option<R::Value> {
        match item {
            Some(t) => Some(R::pushed_value(t)),
            None => None,
        }
    }

    open spec fn push_result(&self, item: &'b Option<T>) -> Option<R::Index> {
        match item {
            Some(t) => Some(self.spec_inner().push_result(t)),
            None => None,
        }
    }

    open spec fn push_requires(&self, item: &'b Option<T>) -> bool {
        match item {
            Some(t) => self.spec_inner().push_requires(t),
            None => true,
        }
    }

    /// The inner region absorbs the contents of `Some`, and stays as it was for `None`.
    open spec fn push_post(&self, item: &'b Option<T>, after: Self) -> bool {
        match item {
            Some(t) => self.spec_inner().push_post(t, after.spec_inner()),
            None => after.spec_inner() == self.spec_inner(),
        }
    }

    fn push(&mut self, item: &'b Option<T>) -> (index: Option<R::Index>) {
        match item {
            Some(t) => Some(self.inner.push(t)),
            None => None,
        }
    }
}

impl<R: Region + ReserveItems<T> + 'static, T: Copy> ReserveItems<Option<T>> for OptionRegion<R> {
    /// Reserves space for the contents of the `Some` items.
    fn reserve_items(&mut self, items: &[Option<T>]) {
        let mut some: Vec<T> = Vec::new();
        let mut i: usize = 0;
        while i < items.len()
            invariant
                0 <= i <= items@.len(),
            decreases items@.len() - i,
        {
            if let Some(t) = items[i] {
                some.push(t);
            }
            i = i + 1;
        }
        self.inner.reserve_items(some.as_slice());
    }
}

impl<'b, R: Region + ReserveItems<&'b T> + 'static, T> ReserveItems<&'b Option<T>> for OptionRegion<
    R,
> {
    /// Reserves space for the contents of the `Some` items.
    fn reserve_items(&mut self, items: &[&'b Option<T>]) {
        let mut some: Vec<&'b T> = Vec::new();
        let mut i: usize = 0;
        while i < items.len()
            invariant
                0 <= i <= items@.len(),
            decreases items@.len() - i,
        {
            if let Some(t) = items[i] {
                some.push(t);
            }
            i = i + 1;
        }
        self.inner.reserve_items(some.as_slice());
    }
}

} // verus!
