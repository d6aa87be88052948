//! Bitmaps
use vstd::prelude::*;

use crate::impls::storage::vec_heap_size;
use crate::{Push, Region, ReserveItems};

verus! {

/// Whether bit `k` of `w` is set.
pub open spec fn bit(w: u64, k: nat) -> bool {
    k < 64 && w & (1u64 << (k as u64)) != 0
}

/// The number of set bits among the low `n` bits of `w`.
pub open spec fn word_ones(w: u64, n: nat) -> nat
    decreases n,
{
    if n == 0 {
        0
    } else {
        word_ones(w, (n - 1) as nat) + if bit(w, (n - 1) as nat) {
            1nat
        } else {
            0nat
        }
    }
}

/// The number of `true` values among the first `n` elements of `s`.
pub open spec fn ones(s: Seq<bool>, n: nat) -> nat
    decreases n,
{
    if n == 0 {
        0
    } else {
        ones(s, (n - 1) as nat) + if s[n - 1] {
            1nat
        } else {
            0nat
        }
    }
}

/// Adding a bit above all set bits of a word keeps the lower bits and sets the new bit.
proof fn lemma_or_shift(w: u64, b: u64, n: u64, k: u64)
    by (bit_vector)
    requires
        n < 64,
        k < 64,
        b <= 1,
        w >> n == 0,
    ensures
        k < n ==> ((w | (b << n)) & (1u64 << k) != 0) == (w & (1u64 << k) != 0),
        k == n ==> ((w | (b << n)) & (1u64 << k) != 0) == (b == 1),
        n < 63 ==> (w | (b << n)) >> (n + 1) as u64 == 0,
{
}

/// Counts the set bits of a word.
pub fn count_ones(w: u64) -> (r: u32)
    ensures
        r == word_ones(w, 64),
        r <= 64,
{
    let mut count: u32 = 0;
    let mut k: u64 = 0;
    while k < 64
        invariant
            k <= 64,
            count == word_ones(w, k as nat),
            count <= k,
        decreases 64 - k,
    {
        if w & (1u64 << k) != 0 {
            count = count + 1;
        }
        k = k + 1;
    }
    count
}

/// A growable sequence of booleans, packed into 64-bit words.
#[derive(Clone, Debug)]
pub struct Bools {
    values: Vec<u64>,
    last_word: u64,
    last_bits: u8,
}

impl Bools {
    /// The last word holds fewer than 64 bits, all its higher bits are clear, and the length
    /// fits in a `usize`.
    pub closed spec fn wf(&self) -> bool {
        &&& self.last_bits < 64
        &&& self.last_word >> (self.last_bits as u64) == 0
        &&& self.values@.len() * 64 + self.last_bits <= usize::MAX
    }

    /// The full words.
    pub closed spec fn spec_values(&self) -> Seq<u64> {
        self.values@
    }

    /// The partially filled last word.
    pub closed spec fn spec_last_word(&self) -> u64 {
        self.last_word
    }

    /// The number of bits in the last word.
    pub closed spec fn spec_last_bits(&self) -> u8 {
        self.last_bits
    }

    /// The number of full words.
    pub closed spec fn full_blocks(&self) -> nat {
        self.values@.len()
    }

    /// The word holding bit `i`.
    pub closed spec fn word_at(&self, block: int) -> u64 {
        if block == self.values@.len() {
            self.last_word
        } else {
            self.values@[block]
        }
    }

    /// The block at `index`: a full word and 64, or the last word and its number of bits.
    pub closed spec fn spec_block(&self, index: int) -> (u64, u8) {
        if index == self.values@.len() {
            (self.last_word, self.last_bits)
        } else {
            (self.values@[index], 64u8)
        }
    }

    /// The booleans held.
    pub closed spec fn view(&self) -> Seq<bool> {
        Seq::new(
            (self.values@.len() * 64 + self.last_bits) as nat,
            |i: int| bit(self.word_at(i / 64), (i % 64) as nat),
        )
    }

    /// An empty bitmap.
    pub fn new() -> (r: Self)
        ensures
            r.wf(),
            r@ == Seq::<bool>::empty(),
            r.full_blocks() == 0,
            r.spec_last_bits() == 0,
    {
        let r = Bools { values: Vec::new(), last_word: 0, last_bits: 0 };
        assert(0u64 >> 0u64 == 0) by (bit_vector);
        assert(r@ =~= Seq::<bool>::empty());
        r
    }

    /// Number of blocks in the bitmap.
    pub fn blocks(&self) -> (r: usize)
        requires
            self.wf(),
        ensures
            r == self.full_blocks() + if self.spec_last_bits() > 0 {
                1nat
            } else {
                0nat
            },
    {
        if self.last_bits > 0 {
            self.values.len() + 1
        } else {
            self.values.len()
        }
    }

    /// Value of the last block.
    pub fn last_block(&self) -> (r: (u64, u8))
        requires
            self.wf(),
        ensures
            r == if self.spec_last_bits() > 0 || self.spec_values().len() == 0 {
                (self.spec_last_word(), self.spec_last_bits())
            } else {
                (self.spec_values()[self.spec_values().len() - 1], 64u8)
            },
    {
        if self.last_bits > 0 || self.values.len() == 0 {
            (self.last_word, self.last_bits)
        } else {
            (self.values[self.values.len() - 1], 64)
        }
    }

    /// Value of the block at the given index.
    pub fn block(&self, index: usize) -> (r: (u64, u8))
        requires
            self.wf(),
            index <= self.full_blocks(),
        ensures
            r == self.spec_block(index as int),
    {
        if index == self.values.len() {
            (self.last_word, self.last_bits)
        } else {
            (self.values[index], 64)
        }
    }

    /// The number of booleans.
    pub fn len(&self) -> (r: usize)
        requires
            self.wf(),
        ensures
            r == self@.len(),
    {
        self.values.len() * 64 + self.last_bits as usize
    }

    /// Returns `true` if there are no booleans.
    pub fn is_empty(&self) -> (r: bool)
        requires
            self.wf(),
        ensures
            r == (self@.len() == 0),
    {
        self.values.len() == 0 && self.last_bits == 0
    }

    /// Removes all booleans.
    pub fn clear(&mut self)
        ensures
            final(self).wf(),
            final(self)@ == Seq::<bool>::empty(),
            final(self).full_blocks() == 0,
    {
        self.values.clear();
        self.last_word = 0;
        self.last_bits = 0;
        assert(0u64 >> 0u64 == 0) by (bit_vector);
        assert(self@ =~= Seq::<bool>::empty());
    }

    /// The boolean at `index`.
    pub fn index(&self, index: usize) -> (r: bool)
        requires
            self.wf(),
            index < self@.len(),
        ensures
            r == self@[index as int],
    {
        let block = index / 64;
        let word = if block == self.values.len() {
            self.last_word
        } else {
            self.values[block]
        };
        let bit = (index % 64) as u64;
        word & (1u64 << bit) != 0
    }

    /// Appends a boolean.
    pub fn push(&mut self, item: bool)
        requires
            old(self).wf(),
            old(self)@.len() < usize::MAX,
        ensures
            final(self).wf(),
            final(self)@ == old(self)@.push(item),
    {
        let ghost old_word = self.last_word;
        let n = self.last_bits as u64;
        let b: u64 = if item {
            1
        } else {
            0
        };
        let new_word = self.last_word | (b << n);
        proof {
            assert forall|k: u64| k < 64 implies (k < n ==> (new_word & (1u64 << k) != 0) == (
            old_word & (1u64 << k) != 0)) && (k == n ==> (new_word & (1u64 << k) != 0) == item)
                by {
                lemma_or_shift(old_word, b, n, k);
            }
            lemma_or_shift(old_word, b, n, 0);
        }
        self.last_word = new_word;
        self.last_bits = self.last_bits + 1;
        let ghost mid = *self;
        // If we have filled the last word, push it to the values and reset the last word
        if self.last_bits == 64 {
            self.values.push(self.last_word);
            self.last_word = 0;
            self.last_bits = 0;
            assert(0u64 >> 0u64 == 0) by (bit_vector);
        }
        proof {
            let len = old(self)@.len();
            let nv = old(self).values@.len();
            assert forall|i: int| 0 <= i < len + 1 implies #[trigger] self@[i] == old(self)@.push(
            item)[i] by {
                vstd::arithmetic::div_mod::lemma_fundamental_div_mod(i, 64);
                if i < nv * 64 {
                    assert(i / 64 < nv) by {
                        vstd::arithmetic::div_mod::lemma_div_is_ordered(i, nv * 64 - 1, 64);
                        vstd::arithmetic::div_mod::lemma_div_multiples_vanish_fancy(nv as int, 0, 64);
                        vstd::arithmetic::div_mod::lemma_fundamental_div_mod_converse(
                            nv * 64 - 1,
                            64,
                            nv - 1,
                            63,
                        );
                    }
                    assert(self.word_at(i / 64) == old(self).word_at(i / 64));
                } else {
                    assert(i / 64 == nv && i % 64 == i - nv * 64) by {
                        vstd::arithmetic::div_mod::lemma_fundamental_div_mod_converse(
                            i,
                            64,
                            nv as int,
                            i - nv * 64,
                        );
                    }
                    let k = (i - nv * 64) as u64;
                    if self.last_bits == 0 && n == 63 {
                        assert(self.word_at(i / 64) == new_word);
                    } else {
                        assert(self.word_at(i / 64) == new_word);
                    }
                    if k < n {
                        assert((new_word & (1u64 << k) != 0) == (old_word & (1u64 << k) != 0));
                    } else {
                        assert(k == n);
                        assert((new_word & (1u64 << k) != 0) == item);
                    }
                }
            }
            assert(self@ =~= old(self)@.push(item));
        }
    }

    /// Appends one `(size, capacity)` pair in bytes for the full words.
    pub fn heap_size(&self, sizes: &mut Vec<(usize, usize)>)
        ensures
            crate::reports(old(sizes)@, final(sizes)@, Region::heap_used(self)),
            final(sizes)@[old(sizes)@.len() as int].0 == self.full_blocks() * 8,
    {
        let entry = vec_heap_size(&self.values);
        proof {
            crate::lemma_reports_push(sizes@, entry);
        }
        sizes.push(entry);
    }

    /// Reserves space for the full words needed by `additional` more booleans.
    pub fn reserve(&mut self, additional: usize)
        requires
            old(self).wf(),
        ensures
            final(self).wf(),
            final(self)@ == old(self)@,
            final(self).full_blocks() == old(self).full_blocks(),
    {
        self.values.reserve((additional / 64).saturating_add(1));
        assert(self@ =~= old(self)@);
    }
}

impl Default for Bools {
    fn default() -> (r: Self)
        ensures
            r.wf(),
            r@ == Seq::<bool>::empty(),
    {
        Bools::new()
    }
}

impl Region for Bools {
    type Owned = bool;
    type ReadItem<'a> = bool;
    type Index = usize;
    type Value = bool;

    open spec fn wf(&self) -> bool {
        Bools::wf(self)
    }

    open spec fn valid(&self, index: usize) -> bool {
        index < self@.len()
    }

    open spec fn value_at(&self, index: usize) -> bool {
        self@[index as int]
    }

    open spec fn item_value<'a>(item: bool) -> bool {
        item
    }

    open spec fn owned_value(owned: bool) -> bool {
        owned
    }

    /// A fresh region holds no items.
    open spec fn fresh(&self) -> bool {
        self@.len() == 0
    }

    fn new_region() -> (r: Self) {
        Bools::new()
    }

    fn merge_regions(regions: &[&Self]) -> (r: Self) {
        let mut total: usize = 0;
        let mut i: usize = 0;
        while i < regions.len()
            invariant
                0 <= i <= regions@.len(),
                forall|j: int| 0 <= j < regions@.len() ==> (#[trigger] regions@[j]).wf(),
            decreases regions@.len() - i,
        {
            total = total.saturating_add(regions[i].values.len());
            i = i + 1;
        }
        let r = Bools { values: Vec::with_capacity(total), last_word: 0, last_bits: 0 };
        assert(0u64 >> 0u64 == 0) by (bit_vector);
        r
    }

    fn index<'a>(&'a self, index: usize) -> (r: bool) {
        Bools::index(self, index)
    }

    fn reserve_regions(&mut self, regions: &[&Self]) {
        let mut total: usize = 0;
        let mut i: usize = 0;
        while i < regions.len()
            invariant
                0 <= i <= regions@.len(),
                forall|j: int| 0 <= j < regions@.len() ==> (#[trigger] regions@[j]).wf(),
            decreases regions@.len() - i,
        {
            total = total.saturating_add(regions[i].values.len());
            i = i + 1;
        }
        self.values.reserve(total);
        assert(self@ =~= old(self)@);
    }

    fn clear(&mut self) {
        Bools::clear(self);
    }

    /// The bytes in use by the full words.
    closed spec fn heap_used(&self) -> Seq<usize> {
        seq![crate::impls::storage::vec_used(self.values@)]
    }

    fn heap_size(&self, sizes: &mut Vec<(usize, usize)>) {
        Bools::heap_size(self, sizes);
    }

    fn reborrow<'b, 'a: 'b>(item: bool) -> (r: bool) {
        item
    }

    fn item_to_owned<'a>(item: bool) -> (r: bool) {
        item
    }
}

impl Push<bool> for Bools {
    open spec fn pushed_value(item: bool) -> bool {
        item
    }

    open spec fn push_result(&self, item: bool) -> usize {
        self@.len() as usize
    }

    open spec fn push_requires(&self, item: bool) -> bool {
        self@.len() < usize::MAX
    }

    /// The region holds what it held, then the item.
    open spec fn push_post(&self, item: bool, after: Self) -> bool {
        after@ == self@.push(item)
    }

    fn push(&mut self, item: bool) -> (index: usize) {
        let index = self.len();
        Bools::push(self, item);
        index
    }
}

impl<'b> Push<&'b bool> for Bools {
    open spec fn pushed_value(item: &'b bool) -> bool {
        *item
    }

    open spec fn push_result(&self, item: &'b bool) -> usize {
        self@.len() as usize
    }

    open spec fn push_requires(&self, item: &'b bool) -> bool {
        self@.len() < usize::MAX
    }

    /// The region holds what it held, then the item.
    open spec fn push_post(&self, item: &'b bool, after: Self) -> bool {
        after@ == self@.push(*item)
    }

    fn push(&mut self, item: &'b bool) -> (index: usize) {
        let index = self.len();
        Bools::push(self, *item);
        index
    }
}

impl ReserveItems<bool> for Bools {
    fn reserve_items(&mut self, items: &[bool]) {
        Bools::reserve(self, items.len());
    }
}

impl Bools {
    /// The number of blocks.
    pub open spec fn spec_blocks(&self) -> nat {
        self.full_blocks() + if self.spec_last_bits() > 0 {
            1nat
        } else {
            0nat
        }
    }

    /// The last block, as [`Bools::last_block`] returns it.
    pub open spec fn spec_last_block(&self) -> (u64, u8) {
        if self.spec_last_bits() > 0 || self.spec_values().len() == 0 {
            (self.spec_last_word(), self.spec_last_bits())
        } else {
            (self.spec_values()[self.spec_values().len() - 1], 64u8)
        }
    }

    /// The length in terms of full blocks.
    pub proof fn lemma_len_blocks(&self)
        requires
            self.wf(),
        ensures
            self@.len() == self.full_blocks() * 64 + self.spec_last_bits(),
            self.spec_last_bits() < 64,
            self@.len() / 1024 == self.full_blocks() / 16,
            self@.len() / 64 == self.full_blocks(),
    {
        let n = self.full_blocks() as int;
        let b = self.spec_last_bits() as int;
        vstd::arithmetic::div_mod::lemma_fundamental_div_mod_converse(
            n * 64 + b,
            64,
            n,
            b,
        );
        vstd::arithmetic::div_mod::lemma_fundamental_div_mod(n, 16);
        let q = n / 16;
        let r = n % 16;
        vstd::arithmetic::div_mod::lemma_fundamental_div_mod_converse(
            n * 64 + b,
            1024,
            q,
            r * 64 + b,
        );
    }

    /// What a block holds: block `b` holds the booleans from `64 * b` on, as many as its
    /// width, which is 64 for a full block and the number of remaining booleans for the last
    /// one; its other bits are clear. The last block is the partial one, or the last full one
    /// where there is no partial one.
    pub proof fn lemma_block_bits(&self, block: int)
        requires
            self.wf(),
            0 <= block <= self.full_blocks(),
        ensures
            self.spec_block(block).1 == if block == self.full_blocks() {
                self.spec_last_bits() as int
            } else {
                64
            },
            forall|k: nat| k < self.spec_block(block).1 ==> #[trigger] bit(self.spec_block(block).0, k) == self@[64 * block + k],
            forall|k: nat| self.spec_block(block).1 <= k ==> !#[trigger] bit(self.spec_block(block).0, k),
            self.spec_last_block() == if self.spec_last_bits() > 0 || self.full_blocks() == 0 {
                self.spec_block(self.full_blocks() as int)
            } else {
                self.spec_block(self.full_blocks() - 1)
            },
    {
        self.lemma_len_blocks();
        let (w, b) = self.spec_block(block);
        assert forall|k: nat| k < b implies #[trigger] bit(w, k) == self@[64 * block + k] by {
            let i = 64 * block + k;
            vstd::arithmetic::div_mod::lemma_fundamental_div_mod_converse(i, 64, block, k as int);
        }
        if block == self.full_blocks() {
            let lw = self.last_word;
            let lb = self.last_bits;
            assert forall|k: nat| lb <= k implies !#[trigger] bit(lw, k) by {
                if k < 64 {
                    let kk = k as u64;
                    assert(lw >> (lb as u64) == 0 && (lb as u64) <= kk && kk < 64 ==> lw & (1u64 << kk) == 0) by (bit_vector);
                }
            }
        }
    }

    /// The set bits of a full block extend the count of the preceding blocks.
    pub proof fn lemma_block_ones(&self, block: int)
        requires
            self.wf(),
            0 <= block < self.full_blocks(),
        ensures
            ones(self@, (64 * (block + 1)) as nat) == ones(self@, (64 * block) as nat) + word_ones(
                self.spec_block(block).0,
                64,
            ),
    {
        self.lemma_len_blocks();
        self.lemma_block_ones_upto(block, 64);
    }

    proof fn lemma_block_ones_upto(&self, block: int, j: nat)
        requires
            self.wf(),
            0 <= block < self.full_blocks(),
            j <= 64,
            self@.len() == self.full_blocks() * 64 + self.spec_last_bits(),
        ensures
            ones(self@, (64 * block + j) as nat) == ones(self@, (64 * block) as nat) + word_ones(
                self.spec_block(block).0,
                j,
            ),
        decreases j,
    {
        if j > 0 {
            self.lemma_block_ones_upto(block, (j - 1) as nat);
            let i = 64 * block + j - 1;
            vstd::arithmetic::div_mod::lemma_fundamental_div_mod_converse(i, 64, block, j - 1);
            assert(i < self@.len());
            assert(self@[i] == bit(self.spec_block(block).0, (j - 1) as nat));
        }
    }
}

} // verus!
