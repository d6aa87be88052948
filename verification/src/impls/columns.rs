//! A region to contain a variable number of columns.
use vstd::prelude::*;

use crate::impls::slice_owned::OwnedRegion;
use crate::impls::storage::vec_heap_size;
use crate::{CopyIter, Push, Region};

verus! {

/// A region that can store a variable number of elements per row.
///
/// The region is backed by a number of columns, where the number depends on
/// the length of the longest row encountered. For pushed row, the region
/// remembers the indices into each column that populated. Rows can have different
/// lengths, which means that only the first columns will contain a value.
///
/// All columns have the same type `R`. A row is addressed by its position.
pub struct ColumnsRegion<R: Region> {
    /// For each row, the index of each of its values in its column.
    indices: OwnedRegion<R::Index>,
    /// Storage for columns.
    inner: Vec<R>,
}

impl<R: Region + 'static> ColumnsRegion<R> where R::Index: Copy {
    /// The number of columns of the widest of `regions`.
    pub open spec fn widest(regions: Seq<&Self>) -> nat
        decreases regions.len(),
    {
        if regions.len() == 0 {
            0
        } else {
            let rest = Self::widest(regions.drop_last());
            if regions.last().columns().len() > rest {
                regions.last().columns().len()
            } else {
                rest
            }
        }
    }

    /// The columns.
    pub closed spec fn columns(&self) -> Seq<R> {
        self.inner@
    }

    /// For each row, the indices of its values in the columns.
    pub closed spec fn row_indices(&self) -> Seq<Seq<R::Index>> {
        self.indices@
    }

    /// The region holding the rows' indices.
    pub closed spec fn spec_indices(&self) -> OwnedRegion<R::Index> {
        self.indices
    }

    /// The column at `c`, if there is one yet.
    pub open spec fn column(&self, c: int) -> Option<R> {
        if 0 <= c < self.columns().len() {
            Some(self.columns()[c])
        } else {
            None
        }
    }

    /// The values of the row at `row`.
    pub open spec fn row_values(&self, row: int) -> Seq<R::Value> {
        Seq::new(
            self.row_indices()[row].len(),
            |c: int| self.columns()[c].value_at(self.row_indices()[row][c]),
        )
    }

    /// The rows, each the sequence of its values.
    pub open spec fn view(&self) -> Seq<Seq<R::Value>> {
        Seq::new(self.row_indices().len(), |row: int| self.row_values(row))
    }

    /// Every column is well formed, and every row has at most as many values as there are
    /// columns, each at a valid index of its column.
    pub closed spec fn columns_wf(&self) -> bool {
        &&& self.indices.bounds_wf()
        &&& forall|c: int| 0 <= c < self.inner@.len() ==> (#[trigger] self.inner@[c]).wf()
        &&& forall|row: int| 0 <= row < self.indices@.len() ==> (#[trigger] self.indices@[row]).len() <= self.inner@.len()
        &&& forall|row: int, c: int|
            0 <= row < self.indices@.len() && 0 <= c < self.indices@[row].len() ==> self.inner@[c].valid(
                #[trigger] self.indices@[row][c],
            )
    }

    /// Returns an empty region.
    pub fn new() -> (r: Self)
        ensures
            r.columns_wf(),
            r@ == Seq::<Seq<R::Value>>::empty(),
            r.columns().len() == 0,
            r.row_indices().len() == 0,
    {
        let r = ColumnsRegion { indices: OwnedRegion::new(), inner: Vec::new() };
        assert(r@ =~= Seq::<Seq<R::Value>>::empty());
        r
    }

    /// The number of rows.
    pub fn len(&self) -> (r: usize)
        ensures
            r == self@.len(),
    {
        self.indices.len()
    }

    /// Returns `true` if the region holds no rows.
    pub fn is_empty(&self) -> (r: bool)
        ensures
            r == (self@.len() == 0),
    {
        self.indices.is_empty()
    }

    /// Columns that only grew keep the values of all rows.
    proof fn lemma_grown_columns(old_r: Self, new_r: Self)
        requires
            old_r.columns_wf(),
            old_r.indices@.len() <= new_r.indices@.len(),
            forall|row: int| 0 <= row < old_r.indices@.len() ==> #[trigger] new_r.indices@[row] == old_r.indices@[row],
            old_r.inner@.len() <= new_r.inner@.len(),
            forall|c: int| 0 <= c < old_r.inner@.len() ==> crate::extends(#[trigger] new_r.inner@[c], old_r.inner@[c]),
        ensures
            forall|row: int| 0 <= row < old_r.indices@.len() ==> #[trigger] new_r.row_values(row) == old_r.row_values(row),
            forall|row: int, c: int|
                0 <= row < old_r.indices@.len() && 0 <= c < old_r.indices@[row].len() ==> new_r.inner@[c].valid(
                    #[trigger] new_r.indices@[row][c],
                ),
    {
        assert forall|row: int| 0 <= row < old_r.indices@.len() implies #[trigger] new_r.row_values(row) == old_r.row_values(row) by {
            assert forall|c: int| 0 <= c < old_r.indices@[row].len() implies new_r.row_values(row)[c] == old_r.row_values(row)[c] by {
                assert(old_r.inner@[c].valid(old_r.indices@[row][c]));
                assert(crate::extends(new_r.inner@[c], old_r.inner@[c]));
            }
            assert(new_r.row_values(row) =~= old_r.row_values(row));
        }
        assert forall|row: int, c: int|
            0 <= row < old_r.indices@.len() && 0 <= c < old_r.indices@[row].len() implies new_r.inner@[c].valid(
                #[trigger] new_r.indices@[row][c],
            ) by {
            assert(old_r.inner@[c].valid(old_r.indices@[row][c]));
            assert(crate::extends(new_r.inner@[c], old_r.inner@[c]));
        }
    }

    /// Adds empty columns until there are `n`.
    fn ensure_columns(&mut self, n: usize)
        requires
            old(self).columns_wf(),
        ensures
            final(self).columns_wf(),
            final(self)@ == old(self)@,
            final(self).inner@.len() == if n > old(self).inner@.len() {
                n as nat
            } else {
                old(self).inner@.len()
            },
            final(self).indices == old(self).indices,
            forall|c: int| 0 <= c < old(self).inner@.len() ==> #[trigger] final(self).inner@[c] == old(self).inner@[c],
            forall|c: int| old(self).inner@.len() <= c < final(self).inner@.len() ==> (#[trigger] final(self).inner@[c]).fresh(),
    {
        while self.inner.len() < n
            invariant
                self.columns_wf(),
                self.indices == old(self).indices,
                self.inner@.len() >= old(self).inner@.len(),
                self.inner@.len() > old(self).inner@.len() ==> self.inner@.len() <= n,
                forall|c: int| 0 <= c < old(self).inner@.len() ==> #[trigger] self.inner@[c] == old(self).inner@[c],
                forall|c: int| old(self).inner@.len() <= c < self.inner@.len() ==> (#[trigger] self.inner@[c]).fresh(),
            decreases n - self.inner@.len(),
        {
            let ghost before = *self;
            self.inner.push(R::new_region());
            proof {
                assert forall|c: int| 0 <= c < before.inner@.len() implies #[trigger] self.inner@[c] == before.inner@[c] by {
                }
                assert forall|c: int| old(self).inner@.len() <= c < self.inner@.len() implies (#[trigger] self.inner@[c]).fresh() by {
                    if c < before.inner@.len() {
                        assert(self.inner@[c] == before.inner@[c]);
                    }
                }
                assert forall|row: int, c: int|
                    0 <= row < self.indices@.len() && 0 <= c < self.indices@[row].len() implies self.inner@[c].valid(
                        #[trigger] self.indices@[row][c],
                    ) by {
                    assert(before.inner@[c].valid(before.indices@[row][c]));
                }
            }
        }
        proof {
            assert forall|row: int| 0 <= row < self.indices@.len() implies #[trigger] self.row_values(row) == old(self).row_values(row) by {
                assert(self.row_values(row) =~= old(self).row_values(row));
            }
            assert(self@ =~= old(self)@);
        }
    }

    /// Pushes a row of references to values.
    fn push_row_refs<'b, T>(&mut self, item: &'b [T]) -> (row: usize)
        where R: Push<&'b T>
        requires
            old(self).columns_wf(),
            old(self)@.len() < usize::MAX,
            forall|c: int| 0 <= c < item@.len() ==> #[trigger] crate::accepts(old(self).column(c), &item@[c]),
        ensures
            final(self).columns_wf(),
            row == old(self)@.len(),
            final(self)@ == old(self)@.push(item@.map_values(|t: T| R::pushed_value(&t))),
            final(self).columns().len() == if item@.len() > old(self).columns().len() {
                item@.len()
            } else {
                old(self).columns().len()
            },
            forall|c: int| 0 <= c < item@.len() ==> #[trigger] crate::column_pushed(old(self).column(c), &item@[c], final(self).columns()[c]),
            forall|c: int| item@.len() <= c < old(self).columns().len() ==> #[trigger] final(self).columns()[c] == old(self).columns()[c],
    {
        self.ensure_columns(item.len());
        let ghost cols0 = self.inner@;
        proof {
            assert forall|x: int| 0 <= x < item@.len() implies (#[trigger] cols0[x]).push_requires(&item@[x]) by {
                assert(crate::accepts(old(self).column(x), &item@[x]));
                if x >= old(self).inner@.len() {
                    assert(cols0[x].fresh());
                }
            }
        }
        let mut idx: Vec<R::Index> = Vec::new();
        let mut c: usize = 0;
        while c < item.len()
            invariant
                0 <= c <= item@.len() <= self.inner@.len(),
                self.inner@.len() == cols0.len(),
                self.indices == old(self).indices,
                old(self).columns_wf(),
                self.indices.bounds_wf(),
                forall|x: int| 0 <= x < item@.len() ==> (#[trigger] cols0[x]).push_requires(&item@[x]),
                forall|x: int| 0 <= x < cols0.len() ==> (#[trigger] cols0[x]).wf(),
                forall|x: int| 0 <= x < old(self).inner@.len() ==> #[trigger] cols0[x] == old(self).inner@[x],
                forall|x: int| 0 <= x < self.inner@.len() ==> (#[trigger] self.inner@[x]).wf(),
                forall|x: int| 0 <= x < self.inner@.len() ==> crate::extends(#[trigger] self.inner@[x], cols0[x]),
                forall|x: int| c <= x < self.inner@.len() ==> #[trigger] self.inner@[x] == cols0[x],
                idx@.len() == c,
                forall|x: int| 0 <= x < c ==> (#[trigger] self.inner@[x]).valid(idx@[x]),
                forall|x: int| 0 <= x < c ==> (#[trigger] self.inner@[x]).value_at(idx@[x]) == R::pushed_value(&item@[x]),
                forall|x: int| 0 <= x < c ==> #[trigger] cols0[x].push_post(&item@[x], self.inner@[x]),
            decreases item@.len() - c,
        {
            let ghost before = self.inner@;
            let i = self.inner[c].push(&item[c]);
            proof {
                assert(self.inner@[c as int].valid(i));
                assert forall|x: int| 0 <= x < c implies (#[trigger] self.inner@[x]).valid(idx@[x]) by {
                    assert(self.inner@[x] == before[x]);
                }
                assert forall|x: int| 0 <= x < c + 1 implies #[trigger] cols0[x].push_post(&item@[x], self.inner@[x]) by {
                    if x < c {
                        assert(self.inner@[x] == before[x]);
                    }
                }
            }
            idx.push(i);
            c = c + 1;
        }
        let ghost rows0 = self.indices@;
        let row = self.indices.push(idx.as_slice());
        proof {
            assert forall|x: int| 0 <= x < old(self).inner@.len() implies crate::extends(#[trigger] self.inner@[x], old(self).inner@[x]) by {
            }
            assert(self.indices@ == rows0.push(idx@));
            Self::lemma_grown_columns(*old(self), *self);
            assert forall|x: int| 0 <= x < item@.len() implies #[trigger] crate::column_pushed(old(self).column(x), &item@[x], self.columns()[x]) by {
                assert(cols0[x].push_post(&item@[x], self.inner@[x]));
                if x >= old(self).inner@.len() {
                    assert(cols0[x].fresh());
                }
            }
            assert forall|rw: int, x: int|
                0 <= rw < self.indices@.len() && 0 <= x < self.indices@[rw].len() implies self.inner@[x].valid(
                    #[trigger] self.indices@[rw][x],
                ) by {
                if rw == rows0.len() {
                    assert(self.indices@[rw] == idx@);
                }
            }
            assert(self.row_values(rows0.len() as int) =~= item@.map_values(|t: T| R::pushed_value(&t)));
            assert(self@ =~= old(self)@.push(item@.map_values(|t: T| R::pushed_value(&t))));
        }
        row
    }

    /// Pushes a row of copies of values.
    fn push_row_copies<'b, T: Copy>(&mut self, item: &'b [T]) -> (row: usize)
        where R: Push<T>
        requires
            old(self).columns_wf(),
            old(self)@.len() < usize::MAX,
            forall|c: int| 0 <= c < item@.len() ==> #[trigger] crate::accepts(old(self).column(c), item@[c]),
        ensures
            final(self).columns_wf(),
            row == old(self)@.len(),
            final(self)@ == old(self)@.push(item@.map_values(|t: T| R::pushed_value(t))),
            final(self).columns().len() == if item@.len() > old(self).columns().len() {
                item@.len()
            } else {
                old(self).columns().len()
            },
            forall|c: int| 0 <= c < item@.len() ==> #[trigger] crate::column_pushed(old(self).column(c), item@[c], final(self).columns()[c]),
            forall|c: int| item@.len() <= c < old(self).columns().len() ==> #[trigger] final(self).columns()[c] == old(self).columns()[c],
    {
        self.ensure_columns(item.len());
        let ghost cols0 = self.inner@;
        proof {
            assert forall|x: int| 0 <= x < item@.len() implies (#[trigger] cols0[x]).push_requires(item@[x]) by {
                assert(crate::accepts(old(self).column(x), item@[x]));
                if x >= old(self).inner@.len() {
                    assert(cols0[x].fresh());
                }
            }
        }
        let mut idx: Vec<R::Index> = Vec::new();
        let mut c: usize = 0;
        while c < item.len()
            invariant
                0 <= c <= item@.len() <= self.inner@.len(),
                self.inner@.len() == cols0.len(),
                self.indices == old(self).indices,
                old(self).columns_wf(),
                self.indices.bounds_wf(),
                forall|x: int| 0 <= x < item@.len() ==> (#[trigger] cols0[x]).push_requires(item@[x]),
                forall|x: int| 0 <= x < cols0.len() ==> (#[trigger] cols0[x]).wf(),
                forall|x: int| 0 <= x < old(self).inner@.len() ==> #[trigger] cols0[x] == old(self).inner@[x],
                forall|x: int| 0 <= x < self.inner@.len() ==> (#[trigger] self.inner@[x]).wf(),
                forall|x: int| 0 <= x < self.inner@.len() ==> crate::extends(#[trigger] self.inner@[x], cols0[x]),
                forall|x: int| c <= x < self.inner@.len() ==> #[trigger] self.inner@[x] == cols0[x],
                idx@.len() == c,
                forall|x: int| 0 <= x < c ==> (#[trigger] self.inner@[x]).valid(idx@[x]),
                forall|x: int| 0 <= x < c ==> (#[trigger] self.inner@[x]).value_at(idx@[x]) == R::pushed_value(item@[x]),
                forall|x: int| 0 <= x < c ==> #[trigger] cols0[x].push_post(item@[x], self.inner@[x]),
            decreases item@.len() - c,
        {
            let ghost before = self.inner@;
            let i = self.inner[c].push(item[c]);
            proof {
                assert(self.inner@[c as int].valid(i));
                assert forall|x: int| 0 <= x < c implies (#[trigger] self.inner@[x]).valid(idx@[x]) by {
                    assert(self.inner@[x] == before[x]);
                }
                assert forall|x: int| 0 <= x < c + 1 implies #[trigger] cols0[x].push_post(item@[x], self.inner@[x]) by {
                    if x < c {
                        assert(self.inner@[x] == before[x]);
                    }
                }
            }
            idx.push(i);
            c = c + 1;
        }
        let ghost rows0 = self.indices@;
        let row = self.indices.push(idx.as_slice());
        proof {
            assert forall|x: int| 0 <= x < old(self).inner@.len() implies crate::extends(#[trigger] self.inner@[x], old(self).inner@[x]) by {
            }
            assert(self.indices@ == rows0.push(idx@));
            Self::lemma_grown_columns(*old(self), *self);
            assert forall|x: int| 0 <= x < item@.len() implies #[trigger] crate::column_pushed(old(self).column(x), item@[x], self.columns()[x]) by {
                assert(cols0[x].push_post(item@[x], self.inner@[x]));
                if x >= old(self).inner@.len() {
                    assert(cols0[x].fresh());
                }
            }
            assert forall|rw: int, x: int|
                0 <= rw < self.indices@.len() && 0 <= x < self.indices@[rw].len() implies self.inner@[x].valid(
                    #[trigger] self.indices@[rw][x],
                ) by {
                if rw == rows0.len() {
                    assert(self.indices@[rw] == idx@);
                }
            }
            assert(self.row_values(rows0.len() as int) =~= item@.map_values(|t: T| R::pushed_value(t)));
            assert(self@ =~= old(self)@.push(item@.map_values(|t: T| R::pushed_value(t))));
        }
        row
    }
}

impl<R: Region + 'static> Default for ColumnsRegion<R> where R::Index: Copy {
    fn default() -> (r: Self)
        ensures
            r.columns_wf(),
            r@ == Seq::<Seq<R::Value>>::empty(),
    {
        Self::new()
    }
}

/// Read the values of a row.
pub struct ReadColumns<'a, R: Region + 'static>(ReadColumnsInner<'a, R>) where R::Index: Copy;

/// A row of a columns region.
struct ReadColumnsInner<'a, R: Region + 'static> where R::Index: Copy {
    region: &'a ColumnsRegion<R>,
    row: usize,
}

impl<'a, R: Region + 'static> ReadColumnsInner<'a, R> where R::Index: Copy {
    /// The region is well formed and holds the row.
    #[verifier::type_invariant]
    closed spec fn inv(&self) -> bool {
        self.region.columns_wf() && self.row < self.region@.len()
    }
}

impl<'a, R: Region + 'static> ReadColumns<'a, R> where R::Index: Copy {
    /// The region read from.
    pub closed spec fn spec_region(&self) -> ColumnsRegion<R> {
        *self.0.region
    }

    /// The position of the row.
    pub closed spec fn spec_row(&self) -> usize {
        self.0.row
    }

    /// The values of the row.
    pub open spec fn view(&self) -> Seq<R::Value> {
        self.spec_region()@[self.spec_row() as int]
    }

    /// Get the element at `offset`.
    pub fn get(&self, offset: usize) -> (r: R::ReadItem<'a>)
        requires
            offset < self@.len(),
        ensures
            R::item_value(r) == self@[offset as int],
    {
        proof {
            use_type_invariant(&self.0);
        }
        let region = self.0.region;
        let indices = region.indices.index(self.0.row);
        proof {
            assert(region.inner@[offset as int].valid(region.indices@[self.0.row as int][offset as int]));
        }
        region.inner[offset].index(indices[offset])
    }

    /// Returns the length of this row.
    pub fn len(&self) -> (r: usize)
        ensures
            r == self@.len(),
    {
        proof {
            use_type_invariant(&self.0);
        }
        self.0.region.indices.index(self.0.row).len()
    }

    /// Returns `true` if this row is empty.
    pub fn is_empty(&self) -> (r: bool)
        ensures
            r == (self@.len() == 0),
    {
        self.len() == 0
    }

    /// Iterate the individual values of a row.
    pub fn iter(&self) -> (r: ReadColumnsIter<'a, R>)
        ensures
            r.spec_items() == *self,
            r.position() == 0,
    {
        proof {
            use_type_invariant(&self.0);
        }
        ReadColumnsIter { items: ReadColumns(ReadColumnsInner { region: self.0.region, row: self.0.row }), position: 0 }
    }

    /// Copies the values of the row into owned values.
    pub fn into_owned(&self) -> (r: Vec<R::Owned>)
        ensures
            crate::owned_values::<R>(r@) == self@,
    {
        let mut out: Vec<R::Owned> = Vec::new();
        let len = self.len();
        let mut i: usize = 0;
        while i < len
            invariant
                len == self@.len(),
                0 <= i <= len,
                out@.len() == i,
                crate::owned_values::<R>(out@) == self@.subrange(0, i as int),
            decreases len - i,
        {
            let owned = R::item_to_owned(self.get(i));
            let ghost prev = out@;
            out.push(owned);
            assert forall|k: int| 0 <= k < i + 1 implies crate::owned_values::<R>(out@)[k]
                == self@.subrange(0, i + 1)[k] by {
                if k < i {
                    assert(crate::owned_values::<R>(prev)[k] == self@.subrange(0, i as int)[k]);
                    assert(out@[k] == prev[k]);
                }
            }
            assert(crate::owned_values::<R>(out@) =~= self@.subrange(0, i + 1));
            i = i + 1;
        }
        assert(self@.subrange(0, len as int) =~= self@);
        out
    }
}

impl<'a, R: Region + 'static> Clone for ReadColumns<'a, R> where R::Index: Copy {
    fn clone(&self) -> (r: Self)
        ensures
            r@ == self@,
    {
        proof {
            use_type_invariant(&self.0);
        }
        ReadColumns(ReadColumnsInner { region: self.0.region, row: self.0.row })
    }
}

/// An iterator over the elements of a row.
pub struct ReadColumnsIter<'a, R: Region + 'static> where R::Index: Copy {
    items: ReadColumns<'a, R>,
    position: usize,
}

impl<'a, R: Region + 'static> ReadColumnsIter<'a, R> where R::Index: Copy {
    /// The row iterated.
    pub closed spec fn spec_items(&self) -> ReadColumns<'a, R> {
        self.items
    }

    /// The position of the next value.
    pub closed spec fn position(&self) -> nat {
        self.position as nat
    }

    /// Returns the next value of the row, if any.
    pub fn next(&mut self) -> (r: Option<R::ReadItem<'a>>)
        ensures
            final(self).spec_items()@ == old(self).spec_items()@,
            old(self).position() < old(self).spec_items()@.len() ==> {
                &&& r.is_some()
                &&& R::item_value(r.unwrap()) == old(self).spec_items()@[old(self).position() as int]
                &&& final(self).position() == old(self).position() + 1
            },
            old(self).position() >= old(self).spec_items()@.len() ==> r.is_none(),
    {
        if self.position < self.items.len() {
            let item = self.items.get(self.position);
            self.position = self.position + 1;
            Some(item)
        } else {
            None
        }
    }
}

impl<R: Region + 'static> Region for ColumnsRegion<R> where R::Index: Copy {
    type Owned = Vec<R::Owned>;
    type ReadItem<'a> = ReadColumns<'a, R>;
    type Index = usize;
    type Value = Seq<R::Value>;

    open spec fn wf(&self) -> bool {
        self.columns_wf()
    }

    open spec fn valid(&self, index: usize) -> bool {
        index < self@.len()
    }

    open spec fn value_at(&self, index: usize) -> Seq<R::Value> {
        self@[index as int]
    }

    open spec fn item_value<'a>(item: ReadColumns<'a, R>) -> Seq<R::Value> {
        item@
    }

    open spec fn owned_value(owned: Vec<R::Owned>) -> Seq<R::Value> {
        crate::owned_values::<R>(owned@)
    }

    /// A fresh region holds no items.
    open spec fn fresh(&self) -> bool {
        self.columns().len() == 0 && self.row_indices().len() == 0
    }

    /// No rows, and no column holds an item.
    open spec fn holds_nothing(&self) -> bool {
        &&& self.row_indices().len() == 0
        &&& forall|c: int| 0 <= c < self.columns().len() ==> (#[trigger] self.columns()[c]).holds_nothing()
    }

    fn new_region() -> (r: Self) {
        Self::new()
    }

    /// A region with a column for each column of `regions`, each merged from those.
    fn merge_regions(regions: &[&Self]) -> (r: Self)
        ensures
            r.columns().len() == Self::widest(regions@),
    {
        let mut cols: usize = 0;
        let mut i: usize = 0;
        proof {
            assert(regions@.take(0) =~= Seq::<&Self>::empty());
        }
        while i < regions.len()
            invariant
                0 <= i <= regions@.len(),
                cols == Self::widest(regions@.take(i as int)),
            decreases regions@.len() - i,
        {
            proof {
                assert(regions@.take(i + 1).drop_last() =~= regions@.take(i as int));
                assert(regions@.take(i + 1).last() == regions@[i as int]);
            }
            if regions[i].inner.len() > cols {
                cols = regions[i].inner.len();
            }
            i = i + 1;
        }
        proof {
            assert(regions@.take(i as int) =~= regions@);
        }
        let mut inner: Vec<R> = Vec::with_capacity(cols);
        let mut col: usize = 0;
        while col < cols
            invariant
                0 <= col <= cols,
                inner@.len() == col,
                forall|j: int| 0 <= j < regions@.len() ==> (#[trigger] regions@[j]).wf(),
                forall|c: int| 0 <= c < col ==> (#[trigger] inner@[c]).wf(),
                forall|c: int| 0 <= c < col ==> (#[trigger] inner@[c]).holds_nothing(),
            decreases cols - col,
        {
            let mut parts: Vec<&R> = Vec::new();
            let mut j: usize = 0;
            while j < regions.len()
                invariant
                    0 <= j <= regions@.len(),
                    forall|j: int| 0 <= j < regions@.len() ==> (#[trigger] regions@[j]).wf(),
                    forall|p: int| 0 <= p < parts@.len() ==> (#[trigger] parts@[p]).wf(),
                decreases regions@.len() - j,
            {
                if col < regions[j].inner.len() {
                    parts.push(&regions[j].inner[col]);
                }
                j = j + 1;
            }
            inner.push(R::merge_regions(parts.as_slice()));
            col = col + 1;
        }
        let mut indices: Vec<&OwnedRegion<R::Index>> = Vec::new();
        let mut j: usize = 0;
        while j < regions.len()
            invariant
                0 <= j <= regions@.len(),
                forall|j: int| 0 <= j < regions@.len() ==> (#[trigger] regions@[j]).wf(),
                forall|p: int| 0 <= p < indices@.len() ==> (#[trigger] indices@[p]).wf(),
            decreases regions@.len() - j,
        {
            indices.push(&regions[j].indices);
            j = j + 1;
        }
        let r = ColumnsRegion { indices: OwnedRegion::merge_regions(indices.as_slice()), inner };
        r
    }

    fn index<'a>(&'a self, index: usize) -> (r: ReadColumns<'a, R>) {
        ReadColumns(ReadColumnsInner { region: self, row: index })
    }

    fn reserve_regions(&mut self, regions: &[&Self])
        ensures
            final(self).columns().len() == if Self::widest(regions@) > old(self).columns().len() {
                Self::widest(regions@)
            } else {
                old(self).columns().len()
            },
    {
        let mut i: usize = 0;
        proof {
            assert(regions@.take(0) =~= Seq::<&Self>::empty());
        }
        while i < regions.len()
            invariant
                0 <= i <= regions@.len(),
                self.inner@.len() == if Self::widest(regions@.take(i as int)) > old(self).inner@.len() {
                    Self::widest(regions@.take(i as int))
                } else {
                    old(self).inner@.len()
                },
                self.columns_wf(),
                self@ == old(self)@,
                self.indices@ == old(self).indices@,
                self.inner@.len() >= old(self).inner@.len(),
                forall|c: int| 0 <= c < old(self).inner@.len() ==> #[trigger] self.inner@[c] == old(self).inner@[c],
            decreases regions@.len() - i,
        {
            let ghost before = *self;
            proof {
                assert(regions@.take(i + 1).drop_last() =~= regions@.take(i as int));
                assert(regions@.take(i + 1).last() == regions@[i as int]);
            }
            self.ensure_columns(regions[i].inner.len());
            i = i + 1;
        }
        proof {
            assert(regions@.take(i as int) =~= regions@);
        }
        let ghost grown = *self;
        let mut col: usize = 0;
        while col < self.inner.len()
            invariant
                0 <= col <= self.inner@.len() == grown.inner@.len(),
                grown.columns_wf(),
                self.indices == grown.indices,
                forall|j: int| 0 <= j < regions@.len() ==> (#[trigger] regions@[j]).wf(),
                forall|c: int| 0 <= c < self.inner@.len() ==> (#[trigger] self.inner@[c]).wf(),
                forall|c: int| 0 <= c < self.inner@.len() ==> crate::same_items(#[trigger] self.inner@[c], grown.inner@[c]),
            decreases grown.inner@.len() - col,
        {
            let mut parts: Vec<&R> = Vec::new();
            let mut j: usize = 0;
            while j < regions.len()
                invariant
                    0 <= j <= regions@.len(),
                    forall|j: int| 0 <= j < regions@.len() ==> (#[trigger] regions@[j]).wf(),
                    forall|p: int| 0 <= p < parts@.len() ==> (#[trigger] parts@[p]).wf(),
                decreases regions@.len() - j,
            {
                if col < regions[j].inner.len() {
                    parts.push(&regions[j].inner[col]);
                }
                j = j + 1;
            }
            let ghost before = self.inner@;
            self.inner[col].reserve_regions(parts.as_slice());
            proof {
                assert forall|c: int| 0 <= c < self.inner@.len() implies crate::same_items(#[trigger] self.inner@[c], grown.inner@[c]) by {
                    if c != col {
                        assert(self.inner@[c] == before[c]);
                    } else {
                        assert(crate::same_items(before[c], grown.inner@[c]));
                    }
                }
            }
            col = col + 1;
        }
        let mut indices: Vec<&OwnedRegion<R::Index>> = Vec::new();
        let mut j: usize = 0;
        while j < regions.len()
            invariant
                0 <= j <= regions@.len(),
                forall|j: int| 0 <= j < regions@.len() ==> (#[trigger] regions@[j]).wf(),
                forall|p: int| 0 <= p < indices@.len() ==> (#[trigger] indices@[p]).wf(),
            decreases regions@.len() - j,
        {
            indices.push(&regions[j].indices);
            j = j + 1;
        }
        self.indices.reserve_regions(indices.as_slice());
        proof {
            assert(self.indices@ == grown.indices@);
            assert forall|c: int| 0 <= c < grown.inner@.len() implies crate::extends(#[trigger] self.inner@[c], grown.inner@[c]) by {
            }
            assert forall|row: int, c: int|
                0 <= row < self.indices@.len() && 0 <= c < self.indices@[row].len() implies self.inner@[c].valid(
                    #[trigger] self.indices@[row][c],
                ) by {
                assert(grown.inner@[c].valid(grown.indices@[row][c]));
            }
            assert forall|row: int| 0 <= row < self.indices@.len() implies #[trigger] self.row_values(row) == grown.row_values(row) by {
                assert forall|c: int| 0 <= c < self.indices@[row].len() implies self.row_values(row)[c] == grown.row_values(row)[c] by {
                    assert(grown.inner@[c].valid(grown.indices@[row][c]));
                }
                assert(self.row_values(row) =~= grown.row_values(row));
            }
            assert(self@ =~= grown@);
            assert forall|i: usize| #[trigger] self.valid(i) <==> old(self).valid(i) by {
            }
        }
    }

    fn clear(&mut self) {
        let mut col: usize = 0;
        while col < self.inner.len()
            invariant
                0 <= col <= self.inner@.len(),
                forall|c: int| 0 <= c < self.inner@.len() ==> (#[trigger] self.inner@[c]).wf(),
                self.indices.bounds_wf(),
                forall|c: int| 0 <= c < col ==> (#[trigger] self.inner@[c]).holds_nothing(),
            decreases self.inner@.len() - col,
        {
            self.inner[col].clear();
            col = col + 1;
        }
        self.indices.clear();
        proof {
            assert(self.indices@.len() == 0);
        }
    }

    /// The bytes in use by the vector of columns, then by each column, then by the rows'
    /// indices.
    open spec fn heap_used(&self) -> Seq<usize> {
        seq![crate::impls::storage::vec_used(self.columns())] + crate::regions_heap(self.columns())
            + self.spec_indices().heap_used()
    }

    fn heap_size(&self, sizes: &mut Vec<(usize, usize)>) {
        let ghost s0 = sizes@;
        crate::impls::storage::push_vec_heap(&self.inner, sizes);
        let ghost s1 = sizes@;
        let mut col: usize = 0;
        proof {
            crate::lemma_reports_none(s1);
            assert(self.inner@.take(0) =~= Seq::<R>::empty());
        }
        while col < self.inner.len()
            invariant
                0 <= col <= self.inner@.len(),
                forall|c: int| 0 <= c < self.inner@.len() ==> (#[trigger] self.inner@[c]).wf(),
                crate::reports(s1, sizes@, crate::regions_heap(self.inner@.take(col as int))),
            decreases self.inner@.len() - col,
        {
            let ghost s2 = sizes@;
            self.inner[col].heap_size(sizes);
            proof {
                crate::lemma_reports_chain(s1, s2, sizes@, crate::regions_heap(self.inner@.take(col as int)), self.inner@[col as int].heap_used());
                assert(self.inner@.take(col + 1).drop_last() =~= self.inner@.take(col as int));
                assert(self.inner@.take(col + 1).last() == self.inner@[col as int]);
            }
            col = col + 1;
        }
        proof {
            assert(self.inner@.take(col as int) =~= self.inner@);
            crate::lemma_reports_chain(s0, s1, sizes@, seq![crate::impls::storage::vec_used(self.inner@)], crate::regions_heap(self.inner@));
        }
        let ghost s3 = sizes@;
        self.indices.heap_size(sizes);
        proof {
            crate::lemma_reports_chain(s0, s3, sizes@, seq![crate::impls::storage::vec_used(self.inner@)] + crate::regions_heap(self.inner@), self.indices.heap_used());
        }
    }

    fn reborrow<'b, 'a: 'b>(item: ReadColumns<'a, R>) -> (r: ReadColumns<'b, R>) {
        item
    }

    fn item_to_owned<'a>(item: ReadColumns<'a, R>) -> (r: Vec<R::Owned>) {
        item.into_owned()
    }
}

impl<'b, R: Region + Push<&'b T> + 'static, T> Push<&'b [T]> for ColumnsRegion<R> where R::Index: Copy {
    open spec fn pushed_value(item: &'b [T]) -> Seq<R::Value> {
        item@.map_values(|t: T| R::pushed_value(&t))
    }

    open spec fn push_result(&self, item: &'b [T]) -> usize {
        self@.len() as usize
    }

    /// Every column, or a fresh one where there is none yet, must accept its value of the row.
    open spec fn push_requires(&self, item: &'b [T]) -> bool {
        &&& self@.len() < usize::MAX
        &&& forall|c: int| 0 <= c < item@.len() ==> #[trigger] crate::accepts(self.column(c), &item@[c])
    }

    /// Each column, or a fresh one where there was none, absorbs its value of the row; the
    /// other columns stay as they were.
    open spec fn push_post(&self, item: &'b [T], after: Self) -> bool {
        &&& after@ == self@.push(Self::pushed_value(item))
        &&& after.columns().len() == if item@.len() > self.columns().len() {
            item@.len()
        } else {
            self.columns().len()
        }
        &&& forall|c: int| 0 <= c < item@.len() ==> #[trigger] crate::column_pushed(self.column(c), &item@[c], after.columns()[c])
        &&& forall|c: int| item@.len() <= c < self.columns().len() ==> #[trigger] after.columns()[c] == self.columns()[c]
    }

    fn push(&mut self, item: &'b [T]) -> (index: usize)
        ensures
            final(self)@ == old(self)@.push(Self::pushed_value(item)),
    {
        let row = self.push_row_refs(item);
        proof {
            assert forall|i: usize| #[trigger] old(self).valid(i) implies self.valid(i)
                && self.value_at(i) == old(self).value_at(i) by {
                assert(self@[i as int] == old(self)@[i as int]);
            }
        }
        row
    }
}

impl<'b, R: Region + Push<&'b T> + 'static, T, const N: usize> Push<&'b [T; N]> for ColumnsRegion<R> where R::Index: Copy {
    open spec fn pushed_value(item: &'b [T; N]) -> Seq<R::Value> {
        item@.map_values(|t: T| R::pushed_value(&t))
    }

    open spec fn push_result(&self, item: &'b [T; N]) -> usize {
        self@.len() as usize
    }

    /// Every column, or a fresh one where there is none yet, must accept its value of the row.
    open spec fn push_requires(&self, item: &'b [T; N]) -> bool {
        &&& self@.len() < usize::MAX
        &&& forall|c: int| 0 <= c < item@.len() ==> #[trigger] crate::accepts(self.column(c), &item@[c])
    }

    /// Each column, or a fresh one where there was none, absorbs its value of the row; the
    /// other columns stay as they were.
    open spec fn push_post(&self, item: &'b [T; N], after: Self) -> bool {
        &&& after@ == self@.push(Self::pushed_value(item))
        &&& after.columns().len() == if item@.len() > self.columns().len() {
            item@.len()
        } else {
            self.columns().len()
        }
        &&& forall|c: int| 0 <= c < item@.len() ==> #[trigger] crate::column_pushed(self.column(c), &item@[c], after.columns()[c])
        &&& forall|c: int| item@.len() <= c < self.columns().len() ==> #[trigger] after.columns()[c] == self.columns()[c]
    }

    fn push(&mut self, item: &'b [T; N]) -> (index: usize)
        ensures
            final(self)@ == old(self)@.push(Self::pushed_value(item)),
    {
        let row = self.push_row_refs(item.as_slice());
        proof {
            assert forall|i: usize| #[trigger] old(self).valid(i) implies self.valid(i)
                && self.value_at(i) == old(self).value_at(i) by {
                assert(self@[i as int] == old(self)@[i as int]);
            }
        }
        row
    }
}

impl<'b, R: Region + Push<&'b T> + 'static, T> Push<&'b Vec<T>> for ColumnsRegion<R> where R::Index: Copy {
    open spec fn pushed_value(item: &'b Vec<T>) -> Seq<R::Value> {
        item@.map_values(|t: T| R::pushed_value(&t))
    }

    open spec fn push_result(&self, item: &'b Vec<T>) -> usize {
        self@.len() as usize
    }

    /// Every column, or a fresh one where there is none yet, must accept its value of the row.
    open spec fn push_requires(&self, item: &'b Vec<T>) -> bool {
        &&& self@.len() < usize::MAX
        &&& forall|c: int| 0 <= c < item@.len() ==> #[trigger] crate::accepts(self.column(c), &item@[c])
    }

    /// Each column, or a fresh one where there was none, absorbs its value of the row; the
    /// other columns stay as they were.
    open spec fn push_post(&self, item: &'b Vec<T>, after: Self) -> bool {
        &&& after@ == self@.push(Self::pushed_value(item))
        &&& after.columns().len() == if item@.len() > self.columns().len() {
            item@.len()
        } else {
            self.columns().len()
        }
        &&& forall|c: int| 0 <= c < item@.len() ==> #[trigger] crate::column_pushed(self.column(c), &item@[c], after.columns()[c])
        &&& forall|c: int| item@.len() <= c < self.columns().len() ==> #[trigger] after.columns()[c] == self.columns()[c]
    }

    fn push(&mut self, item: &'b Vec<T>) -> (index: usize)
        ensures
            final(self)@ == old(self)@.push(Self::pushed_value(item)),
    {
        let row = self.push_row_refs(item.as_slice());
        proof {
            assert forall|i: usize| #[trigger] old(self).valid(i) implies self.valid(i)
                && self.value_at(i) == old(self).value_at(i) by {
                assert(self@[i as int] == old(self)@[i as int]);
            }
        }
        row
    }
}

impl<'b, R: Region + Push<&'b T> + 'static, T> Push<CopyIter<&'b [T]>> for ColumnsRegion<R> where R::Index: Copy {
    open spec fn pushed_value(item: CopyIter<&'b [T]>) -> Seq<R::Value> {
        item.0@.map_values(|t: T| R::pushed_value(&t))
    }

    open spec fn push_result(&self, item: CopyIter<&'b [T]>) -> usize {
        self@.len() as usize
    }

    /// Every column, or a fresh one where there is none yet, must accept its value of the row.
    open spec fn push_requires(&self, item: CopyIter<&'b [T]>) -> bool {
        &&& self@.len() < usize::MAX
        &&& forall|c: int| 0 <= c < item.0@.len() ==> #[trigger] crate::accepts(self.column(c), &item.0@[c])
    }

    /// Each column, or a fresh one where there was none, absorbs its value of the row; the
    /// other columns stay as they were.
    open spec fn push_post(&self, item: CopyIter<&'b [T]>, after: Self) -> bool {
        &&& after@ == self@.push(Self::pushed_value(item))
        &&& after.columns().len() == if item.0@.len() > self.columns().len() {
            item.0@.len()
        } else {
            self.columns().len()
        }
        &&& forall|c: int| 0 <= c < item.0@.len() ==> #[trigger] crate::column_pushed(self.column(c), &item.0@[c], after.columns()[c])
        &&& forall|c: int| item.0@.len() <= c < self.columns().len() ==> #[trigger] after.columns()[c] == self.columns()[c]
    }

    fn push(&mut self, item: CopyIter<&'b [T]>) -> (index: usize)
        ensures
            final(self)@ == old(self)@.push(Self::pushed_value(item)),
    {
        let row = self.push_row_refs(item.0);
        proof {
            assert forall|i: usize| #[trigger] old(self).valid(i) implies self.valid(i)
                && self.value_at(i) == old(self).value_at(i) by {
                assert(self@[i as int] == old(self)@[i as int]);
            }
        }
        row
    }
}

impl<R: Region + Push<T> + 'static, T: Copy, const N: usize> Push<[T; N]> for ColumnsRegion<R> where R::Index: Copy {
    open spec fn pushed_value(item: [T; N]) -> Seq<R::Value> {
        item@.map_values(|t: T| R::pushed_value(t))
    }

    open spec fn push_result(&self, item: [T; N]) -> usize {
        self@.len() as usize
    }

    /// Every column, or a fresh one where there is none yet, must accept its value of the row.
    open spec fn push_requires(&self, item: [T; N]) -> bool {
        &&& self@.len() < usize::MAX
        &&& forall|c: int| 0 <= c < item@.len() ==> #[trigger] crate::accepts(self.column(c), item@[c])
    }

    /// Each column, or a fresh one where there was none, absorbs its value of the row; the
    /// other columns stay as they were.
    open spec fn push_post(&self, item: [T; N], after: Self) -> bool {
        &&& after@ == self@.push(Self::pushed_value(item))
        &&& after.columns().len() == if item@.len() > self.columns().len() {
            item@.len()
        } else {
            self.columns().len()
        }
        &&& forall|c: int| 0 <= c < item@.len() ==> #[trigger] crate::column_pushed(self.column(c), item@[c], after.columns()[c])
        &&& forall|c: int| item@.len() <= c < self.columns().len() ==> #[trigger] after.columns()[c] == self.columns()[c]
    }

    fn push(&mut self, item: [T; N]) -> (index: usize)
        ensures
            final(self)@ == old(self)@.push(Self::pushed_value(item)),
    {
        let row = self.push_row_copies(item.as_slice());
        proof {
            assert forall|i: usize| #[trigger] old(self).valid(i) implies self.valid(i)
                && self.value_at(i) == old(self).value_at(i) by {
                assert(self@[i as int] == old(self)@[i as int]);
            }
        }
        row
    }
}

impl<R: Region + Push<T> + 'static, T: Copy> Push<Vec<T>> for ColumnsRegion<R> where R::Index: Copy {
    open spec fn pushed_value(item: Vec<T>) -> Seq<R::Value> {
        item@.map_values(|t: T| R::pushed_value(t))
    }

    open spec fn push_result(&self, item: Vec<T>) -> usize {
        self@.len() as usize
    }

    /// Every column, or a fresh one where there is none yet, must accept its value of the row.
    open spec fn push_requires(&self, item: Vec<T>) -> bool {
        &&& self@.len() < usize::MAX
        &&& forall|c: int| 0 <= c < item@.len() ==> #[trigger] crate::accepts(self.column(c), item@[c])
    }

    /// Each column, or a fresh one where there was none, absorbs its value of the row; the
    /// other columns stay as they were.
    open spec fn push_post(&self, item: Vec<T>, after: Self) -> bool {
        &&& after@ == self@.push(Self::pushed_value(item))
        &&& after.columns().len() == if item@.len() > self.columns().len() {
            item@.len()
        } else {
            self.columns().len()
        }
        &&& forall|c: int| 0 <= c < item@.len() ==> #[trigger] crate::column_pushed(self.column(c), item@[c], after.columns()[c])
        &&& forall|c: int| item@.len() <= c < self.columns().len() ==> #[trigger] after.columns()[c] == self.columns()[c]
    }

    fn push(&mut self, item: Vec<T>) -> (index: usize)
        ensures
            final(self)@ == old(self)@.push(Self::pushed_value(item)),
    {
        let row = self.push_row_copies(item.as_slice());
        proof {
            assert forall|i: usize| #[trigger] old(self).valid(i) implies self.valid(i)
                && self.value_at(i) == old(self).value_at(i) by {
                assert(self@[i as int] == old(self)@[i as int]);
            }
        }
        row
    }
}

} // verus!
