//! A region that stores strings.
use vstd::prelude::*;
use vstd::string::*;
use vstd::utf8::*;

use crate::impls::slice_copy::OwnedRegion;
use crate::{Push, Region, RegionPreference, ReserveItems};

verus! {

/// Calls `std::str::from_utf8`, which the standard library documents to return the bytes
/// as a string slice when they are valid UTF-8.
///
/// The contract claims that for valid UTF-8 input the string slice returned has exactly
/// `bytes` as its encoding.
#[verifier::external_body]
fn str_from_utf8<'a>(bytes: &'a [u8]) -> (r: &'a str)
    requires
        valid_utf8(bytes@),
    ensures
        r.spec_bytes() == bytes@,
{
    std::str::from_utf8(bytes).unwrap()
}

/// A region to store strings and read `&str`.
///
/// Delegates to an [`OwnedRegion`] to store the UTF-8 encoding of each string.
pub struct StringRegion {
    inner: OwnedRegion<u8>,
}

impl StringRegion {
    /// The encoded bytes of all strings pushed so far.
    pub closed spec fn bytes(&self) -> Seq<u8> {
        self.inner@
    }

    /// The region holding the encoded bytes.
    pub closed spec fn spec_inner(&self) -> OwnedRegion<u8> {
        self.inner
    }

    /// Returns an empty region.
    pub fn new() -> (r: Self)
        ensures
            r.bytes() == Seq::<u8>::empty(),
    {
        StringRegion { inner: OwnedRegion::new() }
    }

    /// Pushes the encoding of `item`.
    fn push_str(&mut self, item: &str) -> (index: (usize, usize))
        ensures
            index == (old(self).bytes().len() as usize, (old(self).bytes().len()
                + item.spec_bytes().len()) as usize),
            final(self).bytes() == old(self).bytes() + item.spec_bytes(),
            final(self).valid(index),
            final(self).value_at(index) == item@,
            crate::extends(*final(self), *old(self)),
    {
        let bytes = item.as_bytes();
        let index = self.inner.push(bytes);
        proof {
            encode_utf8_valid_utf8(item@);
            encode_utf8_decode_utf8(item@);
            assert forall|i: (usize, usize)| #[trigger] old(self).valid(i) implies self.valid(i)
                && self.value_at(i) == old(self).value_at(i) by {
                assert(old(self).inner.valid(i));
            }
        }
        index
    }
}

impl Default for StringRegion {
    fn default() -> (r: Self)
        ensures
            r.bytes() == Seq::<u8>::empty(),
    {
        StringRegion::new()
    }
}

impl Region for StringRegion {
    type Owned = String;
    type ReadItem<'a> = &'a str;
    type Index = (usize, usize);
    type Value = Seq<char>;

    open spec fn wf(&self) -> bool {
        true
    }

    /// A range is valid if it is valid for the bytes and holds valid UTF-8.
    open spec fn valid(&self, index: (usize, usize)) -> bool {
        &&& index.0 <= index.1 <= self.bytes().len()
        &&& valid_utf8(self.bytes().subrange(index.0 as int, index.1 as int))
    }

    open spec fn value_at(&self, index: (usize, usize)) -> Seq<char> {
        decode_utf8(self.bytes().subrange(index.0 as int, index.1 as int))
    }

    open spec fn item_value<'a>(item: &'a str) -> Seq<char> {
        item@
    }

    open spec fn owned_value(owned: String) -> Seq<char> {
        owned@
    }

    /// A fresh region holds no items.
    open spec fn fresh(&self) -> bool {
        self.bytes().len() == 0
    }

    fn new_region() -> (r: Self) {
        StringRegion::new()
    }

    fn merge_regions(regions: &[&Self]) -> (r: Self) {
        let mut inners: Vec<&OwnedRegion<u8>> = Vec::new();
        let mut i: usize = 0;
        while i < regions.len()
            invariant
                0 <= i <= regions@.len(),
            decreases regions@.len() - i,
        {
            inners.push(&regions[i].inner);
            i = i + 1;
        }
        StringRegion { inner: OwnedRegion::merge_regions(inners.as_slice()) }
    }

    fn index<'a>(&'a self, index: (usize, usize)) -> (r: &'a str) {
        let bytes = self.inner.index(index);
        let r = str_from_utf8(bytes);
        proof {
            encode_utf8_decode_utf8(r@);
        }
        r
    }

    fn reserve_regions(&mut self, regions: &[&Self]) {
        let mut inners: Vec<&OwnedRegion<u8>> = Vec::new();
        let mut i: usize = 0;
        while i < regions.len()
            invariant
                0 <= i <= regions@.len(),
            decreases regions@.len() - i,
        {
            inners.push(&regions[i].inner);
            i = i + 1;
        }
        self.inner.reserve_regions(inners.as_slice());
    }

    fn clear(&mut self) {
        self.inner.clear();
    }

    /// The bytes in use by the stored bytes.
    open spec fn heap_used(&self) -> Seq<usize> {
        self.spec_inner().heap_used()
    }

    fn heap_size(&self, sizes: &mut Vec<(usize, usize)>) {
        self.inner.heap_size(sizes);
    }

    fn reborrow<'b, 'a: 'b>(item: &'a str) -> (r: &'b str) {
        item
    }

    fn item_to_owned<'a>(item: &'a str) -> (r: String) {
        item.to_owned()
    }
}

impl RegionPreference for String {
    type Owned = String;
    type Region = StringRegion;
}

impl<'a> RegionPreference for &'a str {
    type Owned = String;
    type Region = StringRegion;
}

impl<'b> Push<&'b str> for StringRegion {
    open spec fn pushed_value(item: &'b str) -> Seq<char> {
        item@
    }

    open spec fn push_result(&self, item: &'b str) -> (usize, usize) {
        (self.bytes().len() as usize, (self.bytes().len() + item.spec_bytes().len()) as usize)
    }

    open spec fn push_requires(&self, item: &'b str) -> bool {
        true
    }

    /// The encoding of the item follows the bytes stored before.
    open spec fn push_post(&self, item: &'b str, after: Self) -> bool {
        after.bytes() == self.bytes() + item.spec_bytes()
    }

    fn push(&mut self, item: &'b str) -> (index: (usize, usize)) {
        self.push_str(item)
    }
}

impl<'b, 'c> Push<&'b &'c str> for StringRegion {
    open spec fn pushed_value(item: &'b &'c str) -> Seq<char> {
        item@
    }

    open spec fn push_result(&self, item: &'b &'c str) -> (usize, usize) {
        (self.bytes().len() as usize, (self.bytes().len() + item.spec_bytes().len()) as usize)
    }

    open spec fn push_requires(&self, item: &'b &'c str) -> bool {
        true
    }

    /// The encoding of the item follows the bytes stored before.
    open spec fn push_post(&self, item: &'b &'c str, after: Self) -> bool {
        after.bytes() == self.bytes() + item.spec_bytes()
    }

    fn push(&mut self, item: &'b &'c str) -> (index: (usize, usize)) {
        self.push_str(*item)
    }
}

impl Push<String> for StringRegion {
    open spec fn pushed_value(item: String) -> Seq<char> {
        item@
    }

    open spec fn push_result(&self, item: String) -> (usize, usize) {
        (self.bytes().len() as usize, (self.bytes().len() + encode_utf8(item@).len()) as usize)
    }

    open spec fn push_requires(&self, item: String) -> bool {
        true
    }

    /// The encoding of the item follows the bytes stored before.
    open spec fn push_post(&self, item: String, after: Self) -> bool {
        after.bytes() == self.bytes() + encode_utf8(item@)
    }

    fn push(&mut self, item: String) -> (index: (usize, usize)) {
        self.push_str(item.as_str())
    }
}

impl<'b> Push<&'b String> for StringRegion {
    open spec fn pushed_value(item: &'b String) -> Seq<char> {
        item@
    }

    open spec fn push_result(&self, item: &'b String) -> (usize, usize) {
        (self.bytes().len() as usize, (self.bytes().len() + encode_utf8(item@).len()) as usize)
    }

    open spec fn push_requires(&self, item: &'b String) -> bool {
        true
    }

    /// The encoding of the item follows the bytes stored before.
    open spec fn push_post(&self, item: &'b String, after: Self) -> bool {
        after.bytes() == self.bytes() + encode_utf8(item@)
    }

    fn push(&mut self, item: &'b String) -> (index: (usize, usize)) {
        self.push_str(item.as_str())
    }
}

impl<'b> ReserveItems<&'b str> for StringRegion {
    fn reserve_items(&mut self, items: &[&'b str]) {
        let mut bytes: Vec<&'b [u8]> = Vec::new();
        let mut i: usize = 0;
        while i < items.len()
            invariant
                0 <= i <= items@.len(),
            decreases items@.len() - i,
        {
            bytes.push(items[i].as_bytes());
            i = i + 1;
        }
        self.inner.reserve_items(bytes.as_slice());
    }
}

impl<'b, 'c> ReserveItems<&'b &'c str> for StringRegion {
    fn reserve_items(&mut self, items: &[&'b &'c str]) {
        let mut bytes: Vec<&'c [u8]> = Vec::new();
        let mut i: usize = 0;
        while i < items.len()
            invariant
                0 <= i <= items@.len(),
            decreases items@.len() - i,
        {
            bytes.push((*items[i]).as_bytes());
            i = i + 1;
        }
        self.inner.reserve_items(bytes.as_slice());
    }
}

impl<'b> ReserveItems<&'b String> for StringRegion {
    fn reserve_items(&mut self, items: &[&'b String]) {
        let mut bytes: Vec<&'b [u8]> = Vec::new();
        let mut i: usize = 0;
        while i < items.len()
            invariant
                0 <= i <= items@.len(),
            decreases items@.len() - i,
        {
            bytes.push(items[i].as_str().as_bytes());
            i = i + 1;
        }
        self.inner.reserve_items(bytes.as_slice());
    }
}

} // verus!
