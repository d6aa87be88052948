//! A region that stores results.
use vstd::prelude::*;

use crate::{IntoOwned, Push, Region, RegionPreference, ReserveItems};

verus! {

impl<T: RegionPreference, E: RegionPreference> RegionPreference for Result<T, E> where
    T::Region: 'static,
    E::Region: 'static,
 {
    type Owned = Result<<T::Region as Region>::Owned, <E::Region as Region>::Owned>;
    type Region = ResultRegion<T::Region, E::Region>;
}

/// A region to hold [`Result`]s.
///
/// `Ok` items are stored in one region and `Err` items in another; the index of a result
/// holds the index in the region of its variant.
pub struct ResultRegion<T, E> {
    oks: T,
    errs: E,
}

impl<T: Region + 'static, E: Region + 'static> ResultRegion<T, E> {
    /// The region holding the contents of `Ok` items.
    pub closed spec fn spec_oks(&self) -> T {
        self.oks
    }

    /// The region holding the contents of `Err` items.
    pub closed spec fn spec_errs(&self) -> E {
        self.errs
    }

    /// Returns an empty region.
    pub fn new() -> (r: Self)
        ensures
            r.wf(),
            r.spec_oks().fresh(),
            r.spec_errs().fresh(),
    {
        ResultRegion { oks: T::new_region(), errs: E::new_region() }
    }
}

impl<T: Region + 'static, E: Region + 'static> Default for ResultRegion<T, E> {
    fn default() -> (r: Self)
        ensures
            r.wf(),
    {
        Self::new()
    }
}

impl<T: Region + 'static, E: Region + 'static> Region for ResultRegion<T, E> {
    type Owned = Result<T::Owned, E::Owned>;
    type ReadItem<'a> = Result<T::ReadItem<'a>, E::ReadItem<'a>>;
    type Index = Result<T::Index, E::Index>;
    type Value = Result<T::Value, E::Value>;

    open spec fn wf(&self) -> bool {
        self.spec_oks().wf() && self.spec_errs().wf()
    }

    open spec fn valid(&self, index: Result<T::Index, E::Index>) -> bool {
        match index {
            Ok(i) => self.spec_oks().valid(i),
            Err(i) => self.spec_errs().valid(i),
        }
    }

    open spec fn value_at(&self, index: Result<T::Index, E::Index>) -> Result<T::Value, E::Value> {
        match index {
            Ok(i) => Ok(self.spec_oks().value_at(i)),
            Err(i) => Err(self.spec_errs().value_at(i)),
        }
    }

    open spec fn item_value<'a>(item: Result<T::ReadItem<'a>, E::ReadItem<'a>>) -> Result<
        T::Value,
        E::Value,
    > {
        match item {
            Ok(x) => Ok(T::item_value(x)),
            Err(x) => Err(E::item_value(x)),
        }
    }

    open spec fn owned_value(owned: Result<T::Owned, E::Owned>) -> Result<T::Value, E::Value> {
        match owned {
            Ok(x) => Ok(T::owned_value(x)),
            Err(x) => Err(E::owned_value(x)),
        }
    }

    /// A fresh region holds no items.
    open spec fn fresh(&self) -> bool {
        self.spec_oks().fresh() && self.spec_errs().fresh()
    }

    open spec fn holds_nothing(&self) -> bool {
        self.spec_oks().holds_nothing() && self.spec_errs().holds_nothing()
    }

    fn new_region() -> (r: Self) {
        Self::new()
    }

    fn merge_regions(regions: &[&Self]) -> (r: Self) {
        let mut oks: Vec<&T> = Vec::new();
        let mut errs: Vec<&E> = Vec::new();
        let mut i: usize = 0;
        while i < regions.len()
            invariant
                0 <= i <= regions@.len(),
                forall|j: int| 0 <= j < regions@.len() ==> (#[trigger] regions@[j]).wf(),
                oks@.len() == i,
                errs@.len() == i,
                forall|j: int| 0 <= j < i ==> (#[trigger] oks@[j]).wf(),
                forall|j: int| 0 <= j < i ==> (#[trigger] errs@[j]).wf(),
            decreases regions@.len() - i,
        {
            oks.push(&regions[i].oks);
            errs.push(&regions[i].errs);
            i = i + 1;
        }
        ResultRegion {
            oks: T::merge_regions(oks.as_slice()),
            errs: E::merge_regions(errs.as_slice()),
        }
    }

    fn index<'a>(&'a self, index: Result<T::Index, E::Index>) -> (r: Result<
        T::ReadItem<'a>,
        E::ReadItem<'a>,
    >) {
        match index {
            Ok(i) => Ok(self.oks.index(i)),
            Err(i) => Err(self.errs.index(i)),
        }
    }

    fn reserve_regions(&mut self, regions: &[&Self]) {
        let mut oks: Vec<&T> = Vec::new();
        let mut errs: Vec<&E> = Vec::new();
        let mut i: usize = 0;
        while i < regions.len()
            invariant
                0 <= i <= regions@.len(),
                forall|j: int| 0 <= j < regions@.len() ==> (#[trigger] regions@[j]).wf(),
                oks@.len() == i,
                errs@.len() == i,
                forall|j: int| 0 <= j < i ==> (#[trigger] oks@[j]).wf(),
                forall|j: int| 0 <= j < i ==> (#[trigger] errs@[j]).wf(),
            decreases regions@.len() - i,
        {
            oks.push(&regions[i].oks);
            errs.push(&regions[i].errs);
            i = i + 1;
        }
        self.oks.reserve_regions(oks.as_slice());
        self.errs.reserve_regions(errs.as_slice());
    }

    fn clear(&mut self) {
        self.oks.clear();
        self.errs.clear();
    }

    open spec fn heap_used(&self) -> Seq<usize> {
        self.spec_oks().heap_used() + self.spec_errs().heap_used()
    }

    fn heap_size(&self, sizes: &mut Vec<(usize, usize)>) {
        let ghost s0 = sizes@;
        self.oks.heap_size(sizes);
        let ghost s1 = sizes@;
        self.errs.heap_size(sizes);
        proof {
            crate::lemma_reports_chain(s0, s1, sizes@, self.oks.heap_used(), self.errs.heap_used());
        }
    }

    fn reborrow<'b, 'a: 'b>(item: Result<T::ReadItem<'a>, E::ReadItem<'a>>) -> (r: Result<
        T::ReadItem<'b>,
        E::ReadItem<'b>,
    >) {
        match item {
            Ok(x) => Ok(T::reborrow(x)),
            Err(x) => Err(E::reborrow(x)),
        }
    }

    fn item_to_owned<'a>(item: Result<T::ReadItem<'a>, E::ReadItem<'a>>) -> (r: Result<
        T::Owned,
        E::Owned,
    >) {
        match item {
            Ok(x) => Ok(T::item_to_owned(x)),
            Err(x) => Err(E::item_to_owned(x)),
        }
    }
}

impl<'a, T: IntoOwned<'a>, E: IntoOwned<'a>> IntoOwned<'a> for Result<T, E> {
    type Owned = Result<T::Owned, E::Owned>;

    /// Converts the item of either variant.
    fn into_owned(self) -> (r: Result<T::Owned, E::Owned>)
        ensures
            match self {
                Ok(x) => r is Ok && call_ensures(T::into_owned, (x,), r->Ok_0),
                Err(x) => r is Err && call_ensures(E::into_owned, (x,), r->Err_0),
            },
    {
        match self {
            Ok(item) => Ok(item.into_owned()),
            Err(item) => Err(item.into_owned()),
        }
    }

    /// Makes `other` hold an owned copy of the item, of the same variant: in place where
    /// `other` holds that variant, converted otherwise.
    fn clone_onto(self, other: &mut Result<T::Owned, E::Owned>)
        ensures
            match self {
                Ok(x) => *final(other) is Ok && (*old(other) is Err ==> call_ensures(
                    T::into_owned,
                    (x,),
                    (*final(other))->Ok_0,
                )),
                Err(x) => *final(other) is Err && (*old(other) is Ok ==> call_ensures(
                    E::into_owned,
                    (x,),
                    (*final(other))->Err_0,
                )),
            },
    {
        match self {
            Ok(item) => match other {
                Ok(target) => item.clone_onto(target),
                Err(_) => {
                    *other = Ok(item.into_owned());
                },
            },
            Err(item) => match other {
                Err(target) => item.clone_onto(target),
                Ok(_) => {
                    *other = Err(item.into_owned());
                },
            },
        }
    }

    /// Borrows the owned item of either variant.
    fn borrow_as(owned: &'a Result<T::Owned, E::Owned>) -> (r: Result<T, E>)
        ensures
            match owned {
                Ok(x) => r is Ok && call_ensures(T::borrow_as, (x,), r->Ok_0),
                Err(x) => r is Err && call_ensures(E::borrow_as, (x,), r->Err_0),
            },
    {
        match owned {
            Ok(x) => Ok(T::borrow_as(x)),
            Err(x) => Err(E::borrow_as(x)),
        }
    }
}

impl<TC: Region + Push<T> + 'static, EC: Region + Push<E> + 'static, T, E> Push<Result<T, E>> for ResultRegion<
    TC,
    EC,
> {
    open spec fn pushed_value(item: Result<T, E>) -> Result<TC::Value, EC::Value> {
        match item {
            Ok(t) => Ok(TC::pushed_value(t)),
            Err(e) => Err(EC::pushed_value(e)),
        }
    }

    open spec fn push_result(&self, item: Result<T, E>) -> Result<TC::Index, EC::Index> {
        match item {
            Ok(t) => Ok(self.spec_oks().push_result(t)),
            Err(e) => Err(self.spec_errs().push_result(e)),
        }
    }

    open spec fn push_requires(&self, item: Result<T, E>) -> bool {
        match item {
            Ok(t) => self.spec_oks().push_requires(t),
            Err(e) => self.spec_errs().push_requires(e),
        }
    }

    /// The region of the variant absorbs its contents; the other stays as it was.
    open spec fn push_post(&self, item: Result<T, E>, after: Self) -> bool {
        match item {
            Ok(t) => self.spec_oks().push_post(t, after.spec_oks()) && after.spec_errs() == self.spec_errs(),
            Err(e) => self.spec_errs().push_post(e, after.spec_errs()) && after.spec_oks() == self.spec_oks(),
        }
    }

    fn push(&mut self, item: Result<T, E>) -> (index: Result<TC::Index, EC::Index>) {
        match item {
            Ok(t) => Ok(self.oks.push(t)),
            Err(e) => Err(self.errs.push(e)),
        }
    }
}

impl<'b, TC: Region + Push<&'b T> + 'static, EC: Region + Push<&'b E> + 'static, T, E> Push<
    &'b Result<T, E>,
> for ResultRegion<TC, EC> {
    open spec fn pushed_value(item: &'b Result<T, E>) -> Result<TC::Value, EC::Value> {
        match item {
            Ok(t) => Ok(TC::pushed_value(t)),
            Err(e) => Err(EC::pushed_value(e)),
        }
    }

    open spec fn push_result(&self, item: &'b Result<T, E>) -> Result<TC::Index, EC::Index> {
        match item {
            Ok(t) => Ok(self.spec_oks().push_result(t)),
            Err(e) => Err(self.spec_errs().push_result(e)),
        }
    }

    open spec fn push_requires(&self, item: &'b Result<T, E>) -> bool {
        match item {
            Ok(t) => self.spec_oks().push_requires(t),
            Err(e) => self.spec_errs().push_requires(e),
        }
    }

    /// The region of the variant absorbs its contents; the other stays as it was.
    open spec fn push_post(&self, item: &'b Result<T, E>, after: Self) -> bool {
        match item {
            Ok(t) => self.spec_oks().push_post(t, after.spec_oks()) && after.spec_errs() == self.spec_errs(),
            Err(e) => self.spec_errs().push_post(e, after.spec_errs()) && after.spec_oks() == self.spec_oks(),
        }
    }

    fn push(&mut self, item: &'b Result<T, E>) -> (index: Result<TC::Index, EC::Index>) {
        match item {
            Ok(t) => Ok(self.oks.push(t)),
            Err(e) => Err(self.errs.push(e)),
        }
    }
}

impl<
    TC: Region + ReserveItems<T> + 'static,
    EC: Region + ReserveItems<E> + 'static,
    T: Copy,
    E: Copy,
> ReserveItems<Result<T, E>> for ResultRegion<TC, EC> {
    /// Reserves space for the `Ok` and the `Err` contents.
    fn reserve_items(&mut self, items: &[Result<T, E>]) {
        let mut oks: Vec<T> = Vec::new();
        let mut errs: Vec<E> = Vec::new();
        let mut i: usize = 0;
        while i < items.len()
            invariant
                0 <= i <= items@.len(),
            decreases items@.len() - i,
        {
            match items[i] {
                Ok(t) => oks.push(t),
                Err(e) => errs.push(e),
            }
            i = i + 1;
        }
        self.oks.reserve_items(oks.as_slice());
        self.errs.reserve_items(errs.as_slice());
    }
}

impl<
    'b,
    TC: Region + ReserveItems<&'b T> + 'static,
    EC: Region + ReserveItems<&'b E> + 'static,
    T,
    E,
> ReserveItems<&'b Result<T, E>> for ResultRegion<TC, EC> {
    /// Reserves space for the `Ok` and the `Err` contents.
    fn reserve_items(&mut self, items: &[&'b Result<T, E>]) {
        let mut oks: Vec<&'b T> = Vec::new();
        let mut errs: Vec<&'b E> = Vec::new();
        let mut i: usize = 0;
        while i < items.len()
            invariant
                0 <= i <= items@.len(),
            decreases items@.len() - i,
        {
            match items[i] {
                Ok(t) => oks.push(t),
                Err(e) => errs.push(e),
            }
            i = i + 1;
        }
        self.oks.reserve_items(oks.as_slice());
        self.errs.reserve_items(errs.as_slice());
    }
}

} // verus!
