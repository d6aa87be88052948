//! A region to contain a fixed number of columns.
use vstd::prelude::*;

use crate::impls::offsets::OffsetContainer;
use crate::{CopyIter, Push, Region};

verus! {

/// A region that can store a fixed number of elements per row.
///
/// The region is backed by a number of columns, where the number depends on
/// the length of the first row encountered. For pushed row, the region
/// remembers the indices into each column that populated. All rows must have the
/// same length.
///
/// All columns have the same type `R`, indexes into `R` are stored in an `O`: [`OffsetContainer`].
pub struct FixedColumnsRegion<R: Region, O: OffsetContainer<R::Index>> {
    /// Offsets into individual columns.
    offsets: Vec<O>,
    /// Storage for columns.
    inner: Vec<R>,
}

impl<R: Region + 'static, O: OffsetContainer<R::Index> + 'static> FixedColumnsRegion<R, O> {
    /// The number of columns of the widest of `regions`.
    pub open spec fn widest(regions: Seq<&Self>) -> nat
        decreases regions.len(),
    {
        if regions.len() == 0 {
            0
        } else {
            let rest = Self::widest(regions.drop_last());
            if regions.last().columns().len() > rest {
                regions.last().columns().len()
            } else {
                rest
            }
        }
    }

    /// The columns.
    pub closed spec fn columns(&self) -> Seq<R> {
        self.inner@
    }

    /// The offset containers, one for each column.
    pub closed spec fn spec_offset_containers(&self) -> Seq<O> {
        self.offsets@
    }

    /// For column `c`, the index in that column of the value of each row.
    pub closed spec fn column_offsets(&self, c: int) -> Seq<R::Index> {
        self.offsets@[c].offsets()
    }

    /// The column at `c`, if there is one yet.
    pub open spec fn column(&self, c: int) -> Option<R> {
        if 0 <= c < self.columns().len() {
            Some(self.columns()[c])
        } else {
            None
        }
    }

    /// The number of rows: as many as the first column has values, none without columns.
    pub open spec fn rows(&self) -> nat {
        if self.columns().len() == 0 {
            0
        } else {
            self.column_offsets(0).len()
        }
    }

    /// The values of the row at `row`, one per column.
    pub open spec fn row_values(&self, row: int) -> Seq<R::Value> {
        Seq::new(
            self.columns().len(),
            |c: int| self.columns()[c].value_at(self.column_offsets(c)[row]),
        )
    }

    /// The rows, each the sequence of its values.
    pub open spec fn view(&self) -> Seq<Seq<R::Value>> {
        Seq::new(self.rows(), |row: int| self.row_values(row))
    }

    /// Every column has its offsets, every column and offset container is well formed,
    /// every column has a value for every row, and each such value is stored in its column.
    pub closed spec fn columns_wf(&self) -> bool {
        &&& self.offsets@.len() == self.inner@.len()
        &&& forall|c: int| 0 <= c < self.inner@.len() ==> (#[trigger] self.inner@[c]).wf()
        &&& forall|c: int| 0 <= c < self.offsets@.len() ==> (#[trigger] self.offsets@[c]).offsets_wf()
        &&& forall|c: int|
            0 <= c < self.offsets@.len() ==> (#[trigger] self.offsets@[c]).offsets().len() == self.rows()
        &&& forall|row: int, c: int|
            0 <= row < self.rows() && 0 <= c < self.inner@.len() ==> self.inner@[c].valid(
                #[trigger] self.offsets@[c].offsets()[row],
            )
    }

    /// Column `x` of `self` is column `x` of `mid` with one more value, `value`, whose index
    /// its offsets remember last.
    closed spec fn column_grown(&self, mid: &Self, x: int, value: R::Value) -> bool {
        &&& self.inner@[x].wf()
        &&& self.offsets@[x].offsets_wf()
        &&& crate::extends(self.inner@[x], mid.inner@[x])
        &&& self.offsets@[x].offsets().len() == mid.offsets@[x].offsets().len() + 1
        &&& forall|k: int|
            0 <= k < mid.offsets@[x].offsets().len() ==> #[trigger] self.offsets@[x].offsets()[k]
                == mid.offsets@[x].offsets()[k]
        &&& self.inner@[x].valid(self.offsets@[x].offsets().last())
        &&& self.inner@[x].value_at(self.offsets@[x].offsets().last()) == value
    }

    /// Returns an empty region.
    pub fn new() -> (r: Self)
        ensures
            r.columns_wf(),
            r@ == Seq::<Seq<R::Value>>::empty(),
            r.columns().len() == 0,
    {
        let r = FixedColumnsRegion { offsets: Vec::new(), inner: Vec::new() };
        assert(r@ =~= Seq::<Seq<R::Value>>::empty());
        r
    }

    /// Ensures that the region has a width of exactly `columns`, by creating fresh columns
    /// where it has none yet.
    fn ensure_columns(&mut self, columns: usize)
        requires
            old(self).columns_wf(),
            old(self).columns().len() == 0 || columns == old(self).columns().len(),
        ensures
            final(self).columns_wf(),
            final(self)@ == old(self)@,
            final(self).columns().len() == columns,
            final(self).rows() == old(self).rows(),
            old(self).columns().len() != 0 ==> *final(self) == *old(self),
            old(self).columns().len() == 0 ==> forall|c: int|
                0 <= c < columns ==> (#[trigger] final(self).columns()[c]).fresh(),
    {
        if self.inner.len() == 0 {
            while self.inner.len() < columns
                invariant
                    self.inner@.len() == self.offsets@.len(),
                    self.inner@.len() <= columns,
                    forall|c: int| 0 <= c < self.inner@.len() ==> (#[trigger] self.inner@[c]).wf(),
                    forall|c: int| 0 <= c < self.inner@.len() ==> (#[trigger] self.inner@[c]).fresh(),
                    forall|c: int| 0 <= c < self.offsets@.len() ==> (#[trigger] self.offsets@[c]).offsets_wf(),
                    forall|c: int| 0 <= c < self.offsets@.len() ==> (#[trigger] self.offsets@[c]).offsets().len() == 0,
                decreases columns - self.inner@.len(),
            {
                self.inner.push(R::new_region());
                self.offsets.push(O::new_offsets());
            }
            assert(self.rows() == 0);
            assert(self@ =~= old(self)@);
        }
    }

    /// Pushes `value` into column `c` and remembers its index there.
    fn push_value<T>(&mut self, c: usize, value: T)
        where R: Push<T>
        requires
            c < old(self).inner@.len() == old(self).offsets@.len(),
            old(self).inner@[c as int].wf(),
            old(self).inner@[c as int].push_requires(value),
            old(self).offsets@[c as int].offsets_wf(),
            old(self).offsets@[c as int].offsets().len() < usize::MAX,
        ensures
            final(self).inner@.len() == old(self).inner@.len(),
            final(self).offsets@.len() == old(self).offsets@.len(),
            forall|x: int| 0 <= x < old(self).inner@.len() && x != c ==> #[trigger] final(self).inner@[x] == old(self).inner@[x],
            forall|x: int| 0 <= x < old(self).offsets@.len() && x != c ==> #[trigger] final(self).offsets@[x] == old(self).offsets@[x],
            final(self).column_grown(old(self), c as int, R::pushed_value(value)),
            old(self).inner@[c as int].push_post(value, final(self).inner@[c as int]),
    {
        let index = self.inner[c].push(value);
        self.offsets[c].push(index);
    }

    /// After every column of `mid` grew by the value of `values` at its position, the
    /// region holds one more row, `values`.
    proof fn lemma_row_pushed(mid: Self, fin: Self, values: Seq<R::Value>)
        requires
            mid.columns_wf(),
            mid.inner@.len() == values.len() > 0,
            fin.inner@.len() == mid.inner@.len(),
            fin.offsets@.len() == mid.offsets@.len(),
            forall|x: int| 0 <= x < values.len() ==> #[trigger] fin.column_grown(&mid, x, values[x]),
        ensures
            fin.columns_wf(),
            fin.rows() == mid.rows() + 1,
            fin@ == mid@.push(values),
    {
        assert(fin.column_grown(&mid, 0, values[0]));
        assert(fin.rows() == mid.rows() + 1);
        assert forall|c: int| 0 <= c < fin.offsets@.len() implies (#[trigger] fin.offsets@[c]).offsets().len() == fin.rows() by {
            assert(fin.column_grown(&mid, c, values[c]));
        }
        assert forall|row: int, c: int| 0 <= row < fin.rows() && 0 <= c < fin.inner@.len() implies fin.inner@[c].valid(
            #[trigger] fin.offsets@[c].offsets()[row],
        ) by {
            assert(fin.column_grown(&mid, c, values[c]));
            if row < mid.rows() {
                assert(fin.offsets@[c].offsets()[row] == mid.offsets@[c].offsets()[row]);
                assert(mid.inner@[c].valid(mid.offsets@[c].offsets()[row]));
            }
        }
        assert forall|c: int| 0 <= c < fin.inner@.len() implies (#[trigger] fin.inner@[c]).wf() by {
            assert(fin.column_grown(&mid, c, values[c]));
        }
        assert forall|c: int| 0 <= c < fin.offsets@.len() implies (#[trigger] fin.offsets@[c]).offsets_wf() by {
            assert(fin.column_grown(&mid, c, values[c]));
        }
        assert forall|row: int| 0 <= row < mid.rows() implies #[trigger] fin.row_values(row) == mid.row_values(row) by {
            assert forall|c: int| 0 <= c < values.len() implies fin.row_values(row)[c] == mid.row_values(row)[c] by {
                assert(fin.column_grown(&mid, c, values[c]));
                assert(fin.offsets@[c].offsets()[row] == mid.offsets@[c].offsets()[row]);
                assert(mid.inner@[c].valid(mid.offsets@[c].offsets()[row]));
            }
            assert(fin.row_values(row) =~= mid.row_values(row));
        }
        assert forall|c: int| 0 <= c < values.len() implies fin.row_values(mid.rows() as int)[c] == values[c] by {
            assert(fin.column_grown(&mid, c, values[c]));
        }
        assert(fin.row_values(mid.rows() as int) =~= values);
        assert(fin@ =~= mid@.push(values));
    }

    /// Pushes a row of references to values.
    fn push_row_refs<'b, T>(&mut self, item: &'b [T]) -> (row: usize)
        where R: Push<&'b T>
        requires
            old(self).columns_wf(),
            old(self)@.len() < usize::MAX,
            item@.len() > 0,
            old(self).columns().len() == 0 || item@.len() == old(self).columns().len(),
            forall|c: int| 0 <= c < item@.len() ==> #[trigger] crate::accepts(old(self).column(c), &item@[c]),
        ensures
            final(self).columns_wf(),
            row == old(self)@.len(),
            final(self)@ == old(self)@.push(item@.map_values(|t: T| R::pushed_value(&t))),
            final(self).columns().len() == item@.len(),
            forall|c: int| 0 <= c < item@.len() ==> #[trigger] crate::column_pushed(old(self).column(c), &item@[c], final(self).columns()[c]),
    {
        self.ensure_columns(item.len());
        let ghost mid = *self;
        let ghost values = item@.map_values(|t: T| R::pushed_value(&t));
        proof {
            assert forall|x: int| 0 <= x < item@.len() implies (#[trigger] mid.inner@[x]).push_requires(&item@[x]) by {
                assert(crate::accepts(old(self).column(x), &item@[x]));
                if old(self).columns().len() == 0 {
                    assert(mid.columns()[x].fresh());
                }
            }
            assert(mid.offsets@[0].offsets().len() == mid.rows());
        }
        let mut c: usize = 0;
        while c < item.len()
            invariant
                mid.columns_wf(),
                mid.rows() < usize::MAX,
                0 <= c <= item@.len(),
                item@.len() == mid.inner@.len(),
                values == item@.map_values(|t: T| R::pushed_value(&t)),
                self.inner@.len() == mid.inner@.len(),
                self.offsets@.len() == mid.offsets@.len(),
                forall|x: int| 0 <= x < item@.len() ==> (#[trigger] mid.inner@[x]).push_requires(&item@[x]),
                forall|x: int| 0 <= x < c ==> #[trigger] self.column_grown(&mid, x, values[x]),
                forall|x: int| 0 <= x < c ==> #[trigger] mid.inner@[x].push_post(&item@[x], self.inner@[x]),
                forall|x: int| c <= x < item@.len() ==> #[trigger] self.inner@[x] == mid.inner@[x],
                forall|x: int| c <= x < item@.len() ==> #[trigger] self.offsets@[x] == mid.offsets@[x],
            decreases item@.len() - c,
        {
            let ghost before = *self;
            proof {
                assert(mid.inner@[c as int].wf());
                assert(mid.offsets@[c as int].offsets_wf());
                assert(mid.offsets@[c as int].offsets().len() == mid.rows());
            }
            self.push_value(c, &item[c]);
            proof {
                assert forall|x: int| 0 <= x < c + 1 implies #[trigger] self.column_grown(&mid, x, values[x]) by {
                    if x < c {
                        assert(before.column_grown(&mid, x, values[x]));
                        assert(self.inner@[x] == before.inner@[x]);
                        assert(self.offsets@[x] == before.offsets@[x]);
                    }
                }
                assert forall|x: int| 0 <= x < c + 1 implies #[trigger] mid.inner@[x].push_post(&item@[x], self.inner@[x]) by {
                    if x < c {
                        assert(self.inner@[x] == before.inner@[x]);
                    }
                }
            }
            c = c + 1;
        }
        proof {
            Self::lemma_row_pushed(mid, *self, values);
            assert(self.column_grown(&mid, 0, values[0]));
            assert forall|x: int| 0 <= x < item@.len() implies #[trigger] crate::column_pushed(old(self).column(x), &item@[x], self.columns()[x]) by {
                assert(mid.inner@[x].push_post(&item@[x], self.inner@[x]));
                if old(self).columns().len() == 0 {
                    assert(mid.columns()[x].fresh());
                }
            }
        }
        self.offsets[0].len() - 1
    }

    /// Pushes a row of values, moving each into its column.
    fn push_row_owned<T>(&mut self, item: Vec<T>) -> (row: usize)
        where R: Push<T>
        requires
            old(self).columns_wf(),
            old(self)@.len() < usize::MAX,
            item@.len() > 0,
            old(self).columns().len() == 0 || item@.len() == old(self).columns().len(),
            forall|c: int| 0 <= c < item@.len() ==> #[trigger] crate::accepts(old(self).column(c), item@[c]),
        ensures
            final(self).columns_wf(),
            row == old(self)@.len(),
            final(self)@ == old(self)@.push(item@.map_values(|t: T| R::pushed_value(t))),
            final(self).columns().len() == item@.len(),
            forall|c: int| 0 <= c < item@.len() ==> #[trigger] crate::column_pushed(old(self).column(c), item@[c], final(self).columns()[c]),
    {
        let ghost all = item@;
        self.ensure_columns(item.len());
        let ghost mid = *self;
        let ghost values = all.map_values(|t: T| R::pushed_value(t));
        proof {
            assert forall|x: int| 0 <= x < all.len() implies (#[trigger] mid.inner@[x]).push_requires(all[x]) by {
                assert(crate::accepts(old(self).column(x), all[x]));
                if old(self).columns().len() == 0 {
                    assert(mid.columns()[x].fresh());
                }
            }
            assert(mid.offsets@[0].offsets().len() == mid.rows());
        }
        let mut rest = item;
        while rest.len() > 0
            invariant
                mid.columns_wf(),
                mid.rows() < usize::MAX,
                all.len() == mid.inner@.len(),
                rest@.len() <= all.len(),
                rest@ == all.subrange(0, rest@.len() as int),
                values == all.map_values(|t: T| R::pushed_value(t)),
                self.inner@.len() == mid.inner@.len(),
                self.offsets@.len() == mid.offsets@.len(),
                forall|x: int| 0 <= x < all.len() ==> (#[trigger] mid.inner@[x]).push_requires(all[x]),
                forall|x: int| rest@.len() <= x < all.len() ==> #[trigger] self.column_grown(&mid, x, values[x]),
                forall|x: int| rest@.len() <= x < all.len() ==> #[trigger] mid.inner@[x].push_post(all[x], self.inner@[x]),
                forall|x: int| 0 <= x < rest@.len() ==> #[trigger] self.inner@[x] == mid.inner@[x],
                forall|x: int| 0 <= x < rest@.len() ==> #[trigger] self.offsets@[x] == mid.offsets@[x],
            decreases rest@.len(),
        {
            let ghost before = *self;
            let c = rest.len() - 1;
            let value = rest.pop().unwrap();
            proof {
                assert(value == all[c as int]);
                assert(mid.inner@[c as int].wf());
                assert(mid.offsets@[c as int].offsets_wf());
                assert(mid.offsets@[c as int].offsets().len() == mid.rows());
                assert(rest@ =~= all.subrange(0, rest@.len() as int));
            }
            self.push_value(c, value);
            proof {
                assert forall|x: int| rest@.len() <= x < all.len() implies #[trigger] self.column_grown(&mid, x, values[x]) by {
                    if x > c {
                        assert(before.column_grown(&mid, x, values[x]));
                        assert(self.inner@[x] == before.inner@[x]);
                        assert(self.offsets@[x] == before.offsets@[x]);
                    }
                }
                assert forall|x: int| rest@.len() <= x < all.len() implies #[trigger] mid.inner@[x].push_post(all[x], self.inner@[x]) by {
                    if x > c {
                        assert(self.inner@[x] == before.inner@[x]);
                    }
                }
            }
        }
        proof {
            Self::lemma_row_pushed(mid, *self, values);
            assert(self.column_grown(&mid, 0, values[0]));
            assert forall|x: int| 0 <= x < all.len() implies #[trigger] crate::column_pushed(old(self).column(x), all[x], self.columns()[x]) by {
                assert(mid.inner@[x].push_post(all[x], self.inner@[x]));
                if old(self).columns().len() == 0 {
                    assert(mid.columns()[x].fresh());
                }
            }
        }
        self.offsets[0].len() - 1
    }
}

impl<R: Region + 'static, O: OffsetContainer<R::Index> + 'static> Default for FixedColumnsRegion<R, O> {
    fn default() -> (r: Self)
        ensures
            r.columns_wf(),
            r@ == Seq::<Seq<R::Value>>::empty(),
            r.columns().len() == 0,
    {
        Self::new()
    }
}

/// Read the values of a row.
pub struct ReadColumns<'a, R: Region + 'static, O: OffsetContainer<R::Index> + 'static>(
    ReadColumnsInner<'a, R, O>,
);

/// A row of a fixed columns region.
struct ReadColumnsInner<'a, R: Region + 'static, O: OffsetContainer<R::Index> + 'static> {
    /// Storage for columns.
    columns: &'a FixedColumnsRegion<R, O>,
    /// Row index.
    index: usize,
}

impl<'a, R: Region + 'static, O: OffsetContainer<R::Index> + 'static> ReadColumnsInner<'a, R, O> {
    /// The region is well formed and holds the row.
    #[verifier::type_invariant]
    closed spec fn inv(&self) -> bool {
        self.columns.columns_wf() && self.index < self.columns@.len()
    }
}

impl<'a, R: Region + 'static, O: OffsetContainer<R::Index> + 'static> ReadColumns<'a, R, O> {
    /// The region read from.
    pub closed spec fn spec_region(&self) -> FixedColumnsRegion<R, O> {
        *self.0.columns
    }

    /// The position of the row.
    pub closed spec fn spec_row(&self) -> usize {
        self.0.index
    }

    /// The values of the row.
    pub open spec fn view(&self) -> Seq<R::Value> {
        self.spec_region()@[self.spec_row() as int]
    }

    /// Iterate the individual values of a row.
    pub fn iter(&self) -> (r: ReadColumnsIter<'a, R, O>)
        ensures
            r.spec_items()@ == self@,
            r.position() == 0,
    {
        proof {
            use_type_invariant(&self.0);
        }
        ReadColumnsIter {
            items: ReadColumns(ReadColumnsInner { columns: self.0.columns, index: self.0.index }),
            position: 0,
        }
    }

    /// Get the element at `offset`.
    pub fn get(&self, offset: usize) -> (r: R::ReadItem<'a>)
        requires
            offset < self@.len(),
        ensures
            R::item_value(r) == self@[offset as int],
    {
        proof {
            use_type_invariant(&self.0);
        }
        let columns = self.0.columns;
        proof {
            assert(columns.offsets@[offset as int].offsets().len() == columns.rows());
            assert(columns.inner@[offset as int].valid(columns.offsets@[offset as int].offsets()[self.0.index as int]));
        }
        let index = columns.offsets[offset].index(self.0.index);
        columns.inner[offset].index(index)
    }

    /// Returns the length of this row.
    pub fn len(&self) -> (r: usize)
        ensures
            r == self@.len(),
    {
        proof {
            use_type_invariant(&self.0);
        }
        self.0.columns.inner.len()
    }

    /// Returns `true` if this row is empty.
    pub fn is_empty(&self) -> (r: bool)
        ensures
            r == (self@.len() == 0),
    {
        proof {
            use_type_invariant(&self.0);
        }
        self.0.columns.inner.len() == 0
    }

    /// Copies the values of the row into owned values.
    pub fn into_owned(&self) -> (r: Vec<R::Owned>)
        ensures
            crate::owned_values::<R>(r@) == self@,
    {
        let mut out: Vec<R::Owned> = Vec::new();
        let len = self.len();
        let mut i: usize = 0;
        while i < len
            invariant
                len == self@.len(),
                0 <= i <= len,
                out@.len() == i,
                crate::owned_values::<R>(out@) == self@.subrange(0, i as int),
            decreases len - i,
        {
            let owned = R::item_to_owned(self.get(i));
            let ghost prev = out@;
            out.push(owned);
            assert forall|k: int| 0 <= k < i + 1 implies crate::owned_values::<R>(out@)[k]
                == self@.subrange(0, i + 1)[k] by {
                if k < i {
                    assert(crate::owned_values::<R>(prev)[k] == self@.subrange(0, i as int)[k]);
                    assert(out@[k] == prev[k]);
                }
            }
            assert(crate::owned_values::<R>(out@) =~= self@.subrange(0, i + 1));
            i = i + 1;
        }
        assert(self@.subrange(0, len as int) =~= self@);
        out
    }
}

impl<'a, R: Region + 'static, O: OffsetContainer<R::Index> + 'static> Clone for ReadColumns<'a, R, O> {
    fn clone(&self) -> (r: Self)
        ensures
            r@ == self@,
    {
        proof {
            use_type_invariant(&self.0);
        }
        ReadColumns(ReadColumnsInner { columns: self.0.columns, index: self.0.index })
    }
}

/// An iterator over the elements of a row.
pub struct ReadColumnsIter<'a, R: Region + 'static, O: OffsetContainer<R::Index> + 'static> {
    items: ReadColumns<'a, R, O>,
    position: usize,
}

impl<'a, R: Region + 'static, O: OffsetContainer<R::Index> + 'static> ReadColumnsIter<'a, R, O> {
    /// The row iterated.
    pub closed spec fn spec_items(&self) -> ReadColumns<'a, R, O> {
        self.items
    }

    /// The position of the next value.
    pub closed spec fn position(&self) -> nat {
        self.position as nat
    }

    /// Returns the next value of the row, if any.
    pub fn next(&mut self) -> (r: Option<R::ReadItem<'a>>)
        ensures
            final(self).spec_items()@ == old(self).spec_items()@,
            old(self).position() < old(self).spec_items()@.len() ==> {
                &&& r.is_some()
                &&& R::item_value(r.unwrap()) == old(self).spec_items()@[old(self).position() as int]
                &&& final(self).position() == old(self).position() + 1
            },
            old(self).position() >= old(self).spec_items()@.len() ==> r.is_none(),
    {
        if self.position < self.items.len() {
            let item = self.items.get(self.position);
            self.position = self.position + 1;
            Some(item)
        } else {
            None
        }
    }
}

impl<R: Region + 'static, O: OffsetContainer<R::Index> + 'static> Region for FixedColumnsRegion<R, O> {
    type Owned = Vec<R::Owned>;
    type ReadItem<'a> = ReadColumns<'a, R, O>;
    type Index = usize;
    type Value = Seq<R::Value>;

    open spec fn wf(&self) -> bool {
        self.columns_wf()
    }

    open spec fn valid(&self, index: usize) -> bool {
        index < self@.len()
    }

    open spec fn value_at(&self, index: usize) -> Seq<R::Value> {
        self@[index as int]
    }

    open spec fn item_value<'a>(item: ReadColumns<'a, R, O>) -> Seq<R::Value> {
        item@
    }

    open spec fn owned_value(owned: Vec<R::Owned>) -> Seq<R::Value> {
        crate::owned_values::<R>(owned@)
    }

    /// A fresh region has no columns yet.
    open spec fn fresh(&self) -> bool {
        self.columns().len() == 0
    }

    /// No rows, and no column holds an item.
    open spec fn holds_nothing(&self) -> bool {
        forall|c: int|
            0 <= c < self.columns().len() ==> (#[trigger] self.columns()[c]).holds_nothing() && self.column_offsets(c).len() == 0
    }

    fn new_region() -> (r: Self) {
        Self::new()
    }

    /// A region with as many columns as the widest of `regions`, each merged from theirs.
    fn merge_regions(regions: &[&Self]) -> (r: Self)
        ensures
            r.columns().len() == Self::widest(regions@),
    {
        let mut cols: usize = 0;
        let mut i: usize = 0;
        proof {
            assert(regions@.take(0) =~= Seq::<&Self>::empty());
        }
        while i < regions.len()
            invariant
                0 <= i <= regions@.len(),
                cols == Self::widest(regions@.take(i as int)),
            decreases regions@.len() - i,
        {
            proof {
                assert(regions@.take(i + 1).drop_last() =~= regions@.take(i as int));
                assert(regions@.take(i + 1).last() == regions@[i as int]);
            }
            if regions[i].inner.len() > cols {
                cols = regions[i].inner.len();
            }
            i = i + 1;
        }
        proof {
            assert(regions@.take(i as int) =~= regions@);
        }
        let mut inner: Vec<R> = Vec::with_capacity(cols);
        let mut offsets: Vec<O> = Vec::with_capacity(cols);
        let mut col: usize = 0;
        while col < cols
            invariant
                0 <= col <= cols,
                inner@.len() == col,
                offsets@.len() == col,
                forall|j: int| 0 <= j < regions@.len() ==> (#[trigger] regions@[j]).wf(),
                forall|c: int| 0 <= c < col ==> (#[trigger] inner@[c]).wf(),
                forall|c: int| 0 <= c < col ==> (#[trigger] offsets@[c]).offsets_wf(),
                forall|c: int| 0 <= c < col ==> (#[trigger] offsets@[c]).offsets().len() == 0,
                forall|c: int| 0 <= c < col ==> (#[trigger] inner@[c]).holds_nothing(),
            decreases cols - col,
        {
            let mut parts: Vec<&R> = Vec::new();
            let mut j: usize = 0;
            while j < regions.len()
                invariant
                    0 <= j <= regions@.len(),
                    forall|j: int| 0 <= j < regions@.len() ==> (#[trigger] regions@[j]).wf(),
                    forall|p: int| 0 <= p < parts@.len() ==> (#[trigger] parts@[p]).wf(),
                decreases regions@.len() - j,
            {
                if col < regions[j].inner.len() {
                    parts.push(&regions[j].inner[col]);
                }
                j = j + 1;
            }
            inner.push(R::merge_regions(parts.as_slice()));
            offsets.push(O::new_offsets());
            col = col + 1;
        }
        let r = FixedColumnsRegion { offsets, inner };
        assert(r.rows() == 0);
        r
    }

    fn index<'a>(&'a self, index: usize) -> (r: ReadColumns<'a, R, O>) {
        ReadColumns(ReadColumnsInner { columns: self, index })
    }

    /// Gives a region without columns those of the widest of `regions`, then lets each
    /// column reserve for the columns of `regions` at its position.
    fn reserve_regions(&mut self, regions: &[&Self])
        ensures
            final(self).columns().len() == if old(self).columns().len() == 0 {
                Self::widest(regions@)
            } else {
                old(self).columns().len()
            },
    {
        if self.inner.len() == 0 {
            let mut cols: usize = 0;
            let mut i: usize = 0;
            proof {
                assert(regions@.take(0) =~= Seq::<&Self>::empty());
            }
            while i < regions.len()
                invariant
                    0 <= i <= regions@.len(),
                    cols == Self::widest(regions@.take(i as int)),
                decreases regions@.len() - i,
            {
                proof {
                    assert(regions@.take(i + 1).drop_last() =~= regions@.take(i as int));
                    assert(regions@.take(i + 1).last() == regions@[i as int]);
                }
                if regions[i].inner.len() > cols {
                    cols = regions[i].inner.len();
                }
                i = i + 1;
            }
            proof {
                assert(regions@.take(i as int) =~= regions@);
            }
            self.ensure_columns(cols);
        }
        let ghost grown = *self;
        proof {
            assert forall|i: usize| #[trigger] self.valid(i) <==> old(self).valid(i) by {
            }
        }
        let mut col: usize = 0;
        while col < self.inner.len()
            invariant
                0 <= col <= self.inner@.len() == grown.inner@.len(),
                grown.columns_wf(),
                self.offsets == grown.offsets,
                forall|j: int| 0 <= j < regions@.len() ==> (#[trigger] regions@[j]).wf(),
                forall|c: int| 0 <= c < self.inner@.len() ==> (#[trigger] self.inner@[c]).wf(),
                forall|c: int| 0 <= c < self.inner@.len() ==> crate::same_items(#[trigger] self.inner@[c], grown.inner@[c]),
            decreases grown.inner@.len() - col,
        {
            let mut parts: Vec<&R> = Vec::new();
            let mut j: usize = 0;
            while j < regions.len()
                invariant
                    0 <= j <= regions@.len(),
                    forall|j: int| 0 <= j < regions@.len() ==> (#[trigger] regions@[j]).wf(),
                    forall|p: int| 0 <= p < parts@.len() ==> (#[trigger] parts@[p]).wf(),
                decreases regions@.len() - j,
            {
                if col < regions[j].inner.len() {
                    parts.push(&regions[j].inner[col]);
                }
                j = j + 1;
            }
            let ghost before = self.inner@;
            self.inner[col].reserve_regions(parts.as_slice());
            proof {
                assert forall|c: int| 0 <= c < self.inner@.len() implies crate::same_items(#[trigger] self.inner@[c], grown.inner@[c]) by {
                    if c != col {
                        assert(self.inner@[c] == before[c]);
                    } else {
                        assert(crate::same_items(before[c], grown.inner@[c]));
                    }
                }
            }
            col = col + 1;
        }
        proof {
            assert(self.rows() == grown.rows());
            assert forall|row: int, c: int| 0 <= row < self.rows() && 0 <= c < self.inner@.len() implies self.inner@[c].valid(
                #[trigger] self.offsets@[c].offsets()[row],
            ) by {
                assert(grown.inner@[c].valid(grown.offsets@[c].offsets()[row]));
            }
            assert forall|row: int| 0 <= row < self.rows() implies #[trigger] self.row_values(row) == grown.row_values(row) by {
                assert forall|c: int| 0 <= c < self.inner@.len() implies self.row_values(row)[c] == grown.row_values(row)[c] by {
                    assert(grown.offsets@[c].offsets().len() == grown.rows());
                    assert(grown.inner@[c].valid(grown.offsets@[c].offsets()[row]));
                }
                assert(self.row_values(row) =~= grown.row_values(row));
            }
            assert(self@ =~= grown@);
        }
    }

    /// Removes all rows; the columns stay.
    fn clear(&mut self) {
        let mut col: usize = 0;
        while col < self.inner.len()
            invariant
                0 <= col <= self.inner@.len(),
                self.inner@.len() == self.offsets@.len(),
                forall|c: int| 0 <= c < self.inner@.len() ==> (#[trigger] self.inner@[c]).wf(),
                forall|c: int| 0 <= c < self.offsets@.len() ==> (#[trigger] self.offsets@[c]).offsets_wf(),
                forall|c: int| 0 <= c < col ==> (#[trigger] self.offsets@[c]).offsets().len() == 0,
                forall|c: int| 0 <= c < col ==> (#[trigger] self.inner@[c]).holds_nothing(),
            decreases self.inner@.len() - col,
        {
            self.inner[col].clear();
            self.offsets[col].clear();
            col = col + 1;
        }
        proof {
            assert(self.rows() == 0);
        }
    }

    /// The bytes in use by each column, then by the offsets of each column.
    open spec fn heap_used(&self) -> Seq<usize> {
        crate::regions_heap(self.columns()) + crate::impls::offsets::containers_heap::<R::Index, O>(self.spec_offset_containers())
    }

    fn heap_size(&self, sizes: &mut Vec<(usize, usize)>) {
        let ghost s0 = sizes@;
        let mut col: usize = 0;
        proof {
            crate::lemma_reports_none(s0);
            assert(self.inner@.take(0) =~= Seq::<R>::empty());
        }
        while col < self.inner.len()
            invariant
                0 <= col <= self.inner@.len(),
                forall|c: int| 0 <= c < self.inner@.len() ==> (#[trigger] self.inner@[c]).wf(),
                crate::reports(s0, sizes@, crate::regions_heap(self.inner@.take(col as int))),
            decreases self.inner@.len() - col,
        {
            let ghost s2 = sizes@;
            self.inner[col].heap_size(sizes);
            proof {
                crate::lemma_reports_chain(s0, s2, sizes@, crate::regions_heap(self.inner@.take(col as int)), self.inner@[col as int].heap_used());
                assert(self.inner@.take(col + 1).drop_last() =~= self.inner@.take(col as int));
                assert(self.inner@.take(col + 1).last() == self.inner@[col as int]);
            }
            col = col + 1;
        }
        proof {
            assert(self.inner@.take(col as int) =~= self.inner@);
        }
        let ghost s1 = sizes@;
        let mut col: usize = 0;
        proof {
            crate::lemma_reports_none(s1);
            assert(self.offsets@.take(0) =~= Seq::<O>::empty());
        }
        while col < self.offsets.len()
            invariant
                0 <= col <= self.offsets@.len(),
                forall|c: int| 0 <= c < self.offsets@.len() ==> (#[trigger] self.offsets@[c]).offsets_wf(),
                crate::reports(s1, sizes@, crate::impls::offsets::containers_heap::<R::Index, O>(self.offsets@.take(col as int))),
            decreases self.offsets@.len() - col,
        {
            let ghost s2 = sizes@;
            self.offsets[col].heap_size(sizes);
            proof {
                crate::lemma_reports_chain(s1, s2, sizes@, crate::impls::offsets::containers_heap::<R::Index, O>(self.offsets@.take(col as int)), self.offsets@[col as int].offsets_heap());
                assert(self.offsets@.take(col + 1).drop_last() =~= self.offsets@.take(col as int));
                assert(self.offsets@.take(col + 1).last() == self.offsets@[col as int]);
            }
            col = col + 1;
        }
        proof {
            assert(self.offsets@.take(col as int) =~= self.offsets@);
            crate::lemma_reports_chain(s0, s1, sizes@, crate::regions_heap(self.inner@), crate::impls::offsets::containers_heap::<R::Index, O>(self.offsets@));
        }
    }

    fn reborrow<'b, 'a: 'b>(item: ReadColumns<'a, R, O>) -> (r: ReadColumns<'b, R, O>) {
        item
    }

    fn item_to_owned<'a>(item: ReadColumns<'a, R, O>) -> (r: Vec<R::Owned>) {
        item.into_owned()
    }
}

impl<'b, R: Region + Push<&'b T> + 'static, O: OffsetContainer<R::Index> + 'static, T> Push<&'b [T]> for FixedColumnsRegion<R, O> {
    open spec fn pushed_value(item: &'b [T]) -> Seq<R::Value> {
        item@.map_values(|t: T| R::pushed_value(&t))
    }

    open spec fn push_result(&self, item: &'b [T]) -> usize {
        self@.len() as usize
    }

    /// A row has one value for each column: as many as the region has columns, or, for
    /// the first row, at least one. Every column, or a fresh one where there is none yet,
    /// must accept its value.
    open spec fn push_requires(&self, item: &'b [T]) -> bool {
        &&& self@.len() < usize::MAX
        &&& item@.len() > 0
        &&& (self.columns().len() == 0 || item@.len() == self.columns().len())
        &&& forall|c: int| 0 <= c < item@.len() ==> #[trigger] crate::accepts(self.column(c), &item@[c])
    }

    /// Each column, or a fresh one where there was none, absorbs its value of the row.
    open spec fn push_post(&self, item: &'b [T], after: Self) -> bool {
        &&& after@ == self@.push(Self::pushed_value(item))
        &&& after.columns().len() == item@.len()
        &&& forall|c: int| 0 <= c < item@.len() ==> #[trigger] crate::column_pushed(self.column(c), &item@[c], after.columns()[c])
    }

    fn push(&mut self, item: &'b [T]) -> (index: usize)
        ensures
            final(self)@ == old(self)@.push(Self::pushed_value(item)),
            final(self).columns().len() == item@.len(),
    {
        let row = self.push_row_refs(item);
        proof {
            assert forall|i: usize| #[trigger] old(self).valid(i) implies self.valid(i)
                && self.value_at(i) == old(self).value_at(i) by {
                assert(self@[i as int] == old(self)@[i as int]);
            }
        }
        row
    }
}

impl<'b, R: Region + Push<&'b T> + 'static, O: OffsetContainer<R::Index> + 'static, T> Push<&'b Vec<T>> for FixedColumnsRegion<R, O> {
    open spec fn pushed_value(item: &'b Vec<T>) -> Seq<R::Value> {
        item@.map_values(|t: T| R::pushed_value(&t))
    }

    open spec fn push_result(&self, item: &'b Vec<T>) -> usize {
        self@.len() as usize
    }

    /// A row has one value for each column: as many as the region has columns, or, for
    /// the first row, at least one. Every column, or a fresh one where there is none yet,
    /// must accept its value.
    open spec fn push_requires(&self, item: &'b Vec<T>) -> bool {
        &&& self@.len() < usize::MAX
        &&& item@.len() > 0
        &&& (self.columns().len() == 0 || item@.len() == self.columns().len())
        &&& forall|c: int| 0 <= c < item@.len() ==> #[trigger] crate::accepts(self.column(c), &item@[c])
    }

    /// Each column, or a fresh one where there was none, absorbs its value of the row.
    open spec fn push_post(&self, item: &'b Vec<T>, after: Self) -> bool {
        &&& after@ == self@.push(Self::pushed_value(item))
        &&& after.columns().len() == item@.len()
        &&& forall|c: int| 0 <= c < item@.len() ==> #[trigger] crate::column_pushed(self.column(c), &item@[c], after.columns()[c])
    }

    fn push(&mut self, item: &'b Vec<T>) -> (index: usize)
        ensures
            final(self)@ == old(self)@.push(Self::pushed_value(item)),
            final(self).columns().len() == item@.len(),
    {
        let row = self.push_row_refs(item.as_slice());
        proof {
            assert forall|i: usize| #[trigger] old(self).valid(i) implies self.valid(i)
                && self.value_at(i) == old(self).value_at(i) by {
                assert(self@[i as int] == old(self)@[i as int]);
            }
        }
        row
    }
}

impl<'b, R: Region + Push<&'b T> + 'static, O: OffsetContainer<R::Index> + 'static, T> Push<CopyIter<&'b [T]>> for FixedColumnsRegion<R, O> {
    open spec fn pushed_value(item: CopyIter<&'b [T]>) -> Seq<R::Value> {
        item.0@.map_values(|t: T| R::pushed_value(&t))
    }

    open spec fn push_result(&self, item: CopyIter<&'b [T]>) -> usize {
        self@.len() as usize
    }

    /// A row has one value for each column: as many as the region has columns, or, for
    /// the first row, at least one. Every column, or a fresh one where there is none yet,
    /// must accept its value.
    open spec fn push_requires(&self, item: CopyIter<&'b [T]>) -> bool {
        &&& self@.len() < usize::MAX
        &&& item.0@.len() > 0
        &&& (self.columns().len() == 0 || item.0@.len() == self.columns().len())
        &&& forall|c: int| 0 <= c < item.0@.len() ==> #[trigger] crate::accepts(self.column(c), &item.0@[c])
    }

    /// Each column, or a fresh one where there was none, absorbs its value of the row.
    open spec fn push_post(&self, item: CopyIter<&'b [T]>, after: Self) -> bool {
        &&& after@ == self@.push(Self::pushed_value(item))
        &&& after.columns().len() == item.0@.len()
        &&& forall|c: int| 0 <= c < item.0@.len() ==> #[trigger] crate::column_pushed(self.column(c), &item.0@[c], after.columns()[c])
    }

    fn push(&mut self, item: CopyIter<&'b [T]>) -> (index: usize)
        ensures
            final(self)@ == old(self)@.push(Self::pushed_value(item)),
            final(self).columns().len() == item.0@.len(),
    {
        let row = self.push_row_refs(item.0);
        proof {
            assert forall|i: usize| #[trigger] old(self).valid(i) implies self.valid(i)
                && self.value_at(i) == old(self).value_at(i) by {
                assert(self@[i as int] == old(self)@[i as int]);
            }
        }
        row
    }
}

impl<R: Region + Push<T> + 'static, O: OffsetContainer<R::Index> + 'static, T> Push<Vec<T>> for FixedColumnsRegion<R, O> {
    open spec fn pushed_value(item: Vec<T>) -> Seq<R::Value> {
        item@.map_values(|t: T| R::pushed_value(t))
    }

    open spec fn push_result(&self, item: Vec<T>) -> usize {
        self@.len() as usize
    }

    /// A row has one value for each column: as many as the region has columns, or, for
    /// the first row, at least one. Every column, or a fresh one where there is none yet,
    /// must accept its value.
    open spec fn push_requires(&self, item: Vec<T>) -> bool {
        &&& self@.len() < usize::MAX
        &&& item@.len() > 0
        &&& (self.columns().len() == 0 || item@.len() == self.columns().len())
        &&& forall|c: int| 0 <= c < item@.len() ==> #[trigger] crate::accepts(self.column(c), item@[c])
    }

    /// Each column, or a fresh one where there was none, absorbs its value of the row.
    open spec fn push_post(&self, item: Vec<T>, after: Self) -> bool {
        &&& after@ == self@.push(Self::pushed_value(item))
        &&& after.columns().len() == item@.len()
        &&& forall|c: int| 0 <= c < item@.len() ==> #[trigger] crate::column_pushed(self.column(c), item@[c], after.columns()[c])
    }

    fn push(&mut self, item: Vec<T>) -> (index: usize)
        ensures
            final(self)@ == old(self)@.push(Self::pushed_value(item)),
            final(self).columns().len() == item@.len(),
    {
        let row = self.push_row_owned(item);
        proof {
            assert forall|i: usize| #[trigger] old(self).valid(i) implies self.valid(i)
                && self.value_at(i) == old(self).value_at(i) by {
                assert(self@[i as int] == old(self)@[i as int]);
            }
        }
        row
    }
}

} // verus!
