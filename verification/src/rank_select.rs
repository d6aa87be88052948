//! Rank select structures
use vstd::prelude::*;

use crate::bitmap::{bit, count_ones, ones, word_ones, Bools};
use crate::{Push, Region, ReserveItems};

verus! {

/// The sum of the set bits of `counts[lo..hi]`.
pub open spec fn count_ones_sum(counts: Seq<u64>, lo: int, hi: int) -> int
    decreases hi - lo,
{
    if lo >= hi {
        0
    } else {
        count_ones_sum(counts, lo, hi - 1) + word_ones(counts[hi - 1], 64)
    }
}

/// The first chunk at or after `c` whose count exceeds `rank`, or the number of counts.
pub open spec fn select_chunk(counts: Seq<u64>, rank: u64, c: nat) -> nat
    decreases counts.len() - c,
{
    if c < counts.len() && counts[c as int] <= rank {
        select_chunk(counts, rank, c + 1)
    } else {
        c
    }
}

/// Advances over whole blocks from `block` while their set bits keep `count` at most `rank`.
pub open spec fn select_block(b: Bools, rank: u64, block: nat, count: int) -> (nat, int)
    decreases b.spec_blocks() - block,
{
    if block < b.spec_blocks() && count + word_ones(b.spec_block(block as int).0, 64) <= rank {
        select_block(b, rank, block + 1, count + word_ones(b.spec_block(block as int).0, 64))
    } else {
        (block, count)
    }
}

/// Scans the bits of `word` below `bits` from `shift`: the first set bit at which
/// `count + 1 == rank`, where `count` grows by the value of each bit passed.
pub open spec fn select_scan(word: u64, bits: nat, shift: nat, count: int, rank: u64) -> Option<nat>
    decreases bits - shift,
{
    if shift < bits {
        if bit(word, shift) && count + 1 == rank {
            Some(shift)
        } else {
            select_scan(word, bits, shift + 1, count + (word & (1u64 << (shift as u64))), rank)
        }
    } else {
        None
    }
}

/// Whether the scan of [`select_scan`] computes a value beyond `u64::MAX`.
pub open spec fn select_scan_overflows(word: u64, bits: nat, shift: nat, count: int, rank: u64) -> bool
    decreases bits - shift,
{
    if shift < bits {
        if bit(word, shift) && count + 1 > u64::MAX {
            true
        } else if bit(word, shift) && count + 1 == rank {
            false
        } else {
            count + (word & (1u64 << (shift as u64))) > u64::MAX || select_scan_overflows(
                word,
                bits,
                shift + 1,
                count + (word & (1u64 << (shift as u64))),
                rank,
            )
        }
    } else {
        false
    }
}

/// A bitmap with counts of set bits per 1024 bits, to answer rank queries.
#[derive(Clone, Debug)]
pub struct RankSelect {
    counts: Vec<u64>,
    values: Bools,
}

impl RankSelect {
    /// The counts are the number of set bits in each prefix of 1024, `16 * k` full blocks,
    /// and there is one count per complete 1024 bits. The length leaves room for counting.
    pub closed spec fn wf(&self) -> bool {
        &&& self.values.wf()
        &&& self.values@.len() * 4 + 4096 <= usize::MAX
        &&& self.counts@.len() == self.values.full_blocks() / 16
        &&& forall|k: int|
            0 <= k < self.counts@.len() ==> #[trigger] self.counts@[k] == ones(
                self.values@,
                (1024 * (k + 1)) as nat,
            )
    }

    /// The booleans held.
    pub closed spec fn view(&self) -> Seq<bool> {
        self.values@
    }

    /// The counts of set bits per prefix of 1024 booleans.
    pub closed spec fn spec_counts(&self) -> Seq<u64> {
        self.counts@
    }

    /// The bitmap.
    pub closed spec fn spec_values(&self) -> Bools {
        self.values
    }

    /// What [`RankSelect::rank`] computes: the count of the preceding chunk, plus the set
    /// bits of the counts from the chunk's first block up to the block of `index`, plus the
    /// set bits of the last block below the bit of `index`.
    pub open spec fn spec_rank(&self, index: usize) -> int {
        let bit = index % 64;
        let block = index / 64;
        let chunk = block / 16;
        (if chunk > 0 {
            self.spec_counts()[chunk - 1] as int
        } else {
            0
        }) + count_ones_sum(self.spec_counts(), chunk * 16, block as int) + word_ones(
            self.spec_values().spec_last_block().0,
            bit as nat,
        )
    }

    /// Whether [`RankSelect::rank`] only looks at counts that exist.
    pub open spec fn rank_defined(&self, index: usize) -> bool {
        let block = index / 64;
        let chunk = block / 16;
        &&& chunk > 0 ==> chunk - 1 < self.spec_counts().len()
        &&& chunk * 16 < block ==> block <= self.spec_counts().len()
    }

    /// The chunk, block and count at which [`RankSelect::select`] starts to scan the last block.
    pub open spec fn select_start(&self, rank: u64) -> (nat, int) {
        let chunk = select_chunk(self.spec_counts(), rank, 0);
        let count: int = if chunk < self.spec_counts().len() {
            self.spec_counts()[chunk as int] as int
        } else {
            0
        };
        select_block(self.spec_values(), rank, chunk * 16, count)
    }

    /// What [`RankSelect::select`] returns.
    pub open spec fn spec_select(&self, rank: u64) -> Option<usize> {
        let (block, count) = self.select_start(rank);
        let (word, bits) = self.spec_values().spec_last_block();
        match select_scan(word, bits as nat, 0, count, rank) {
            Some(shift) => Some((block * 64 + shift) as usize),
            None => None,
        }
    }

    /// Whether [`RankSelect::select`] computes within `u64`.
    pub open spec fn select_defined(&self, rank: u64) -> bool {
        let (block, count) = self.select_start(rank);
        let (word, bits) = self.spec_values().spec_last_block();
        !select_scan_overflows(word, bits as nat, 0, count, rank)
    }

    /// An empty structure.
    pub fn new() -> (r: Self)
        ensures
            r.wf(),
            r@ == Seq::<bool>::empty(),
    {
        RankSelect { counts: Vec::new(), values: Bools::new() }
    }

    /// The number of booleans.
    pub fn len(&self) -> (r: usize)
        requires
            self.wf(),
        ensures
            r == self@.len(),
    {
        self.values.len()
    }

    /// Returns `true` if there are no booleans.
    pub fn is_empty(&self) -> (r: bool)
        requires
            self.wf(),
        ensures
            r == (self@.len() == 0),
    {
        self.values.is_empty()
    }

    /// The boolean at `index`.
    pub fn index_as(&self, index: usize) -> (r: bool)
        requires
            self.wf(),
            index < self@.len(),
        ensures
            r == self@[index as int],
    {
        self.values.index(index)
    }

    /// Removes all booleans.
    pub fn clear(&mut self)
        ensures
            final(self).wf(),
            final(self)@ == Seq::<bool>::empty(),
    {
        self.counts.clear();
        self.values.clear();
    }

    /// Counts set bits, per the counts and the last block.
    pub fn rank(&self, index: usize) -> (r: usize)
        requires
            self.wf(),
            self.rank_defined(index),
        ensures
            r == self.spec_rank(index),
    {
        let bit = index % 64;
        let block = index / 64;
        let chunk = block / 16;
        proof {
            self.lemma_counts_bounded();
        }
        let mut count: usize = if chunk > 0 {
            self.counts[chunk - 1] as usize
        } else {
            0
        };
        let ghost base = count as int;
        let mut j = chunk * 16;
        while j < block
            invariant
                self.wf(),
                chunk * 16 <= j <= block,
                chunk * 16 < block ==> block <= self.counts@.len(),
                count == base + count_ones_sum(self.counts@, chunk * 16, j as int),
                base <= self@.len(),
                count_ones_sum(self.counts@, chunk * 16, j as int) <= 64 * (j - chunk * 16),
                block - chunk * 16 < 16,
            decreases block - j,
        {
            let c = count_ones(self.counts[j]);
            proof {
                lemma_word_ones_le(self.counts@[j as int], 64);
            }
            count = count + c as usize;
            j = j + 1;
        }
        let word = self.values.last_block().0;
        proof {
            let b = bit as u64;
            assert(b < 64 ==> (1u64 << b) >= 1) by (bit_vector);
        }
        let mask: u64 = (1u64 << bit as u64) - 1;
        let bits = word & mask;
        proof {
            lemma_masked_ones(word, bit as u64);
            lemma_word_ones_le(bits, 64);
        }
        count + count_ones(bits) as usize
    }

    /// Finds a position for `rank` per the counts, the blocks, and a scan of the last block.
    pub fn select(&self, rank: u64) -> (r: Option<usize>)
        requires
            self.wf(),
            self.select_defined(rank),
        ensures
            r == self.spec_select(rank),
    {
        proof {
            self.lemma_counts_bounded();
            self.values.lemma_len_blocks();
        }
        let mut chunk: usize = 0;
        while chunk < self.counts.len() && self.counts[chunk] <= rank
            invariant
                self.wf(),
                chunk <= self.counts@.len(),
                select_chunk(self.counts@, rank, chunk as nat) == select_chunk(self.counts@, rank, 0),
            decreases self.counts@.len() - chunk,
        {
            chunk = chunk + 1;
        }
        let mut count: u64 = if chunk < self.counts.len() {
            self.counts[chunk]
        } else {
            0
        };
        let mut block = chunk * 16;
        proof {
            assert(self.values.full_blocks() / 16 * 16 <= self.values.full_blocks());
        }
        proof {
            self.values.lemma_len_blocks();
            lemma_word_ones_le(self.values.spec_block(block as int).0, 64);
        }
        while block < self.values.blocks() && count + count_ones(self.values.block(block).0) as u64
            <= rank
            invariant
                self.wf(),
                block <= self.values.full_blocks() + 1,
                self.values@.len() == self.values.full_blocks() * 64 + self.values.spec_last_bits(),
                count <= self@.len() + 64 + 64 * block,
                select_block(self.values, rank, block as nat, count as int) == self.select_start(
                    rank,
                ),
            decreases self.values.full_blocks() + 1 - block,
        {
            proof {
                lemma_word_ones_le(self.values.spec_block(block as int).0, 64);
            }
            count = count + count_ones(self.values.block(block).0) as u64;
            block = block + 1;
        }
        let (last_word, last_bits) = self.values.last_block();
        let mut shift: u8 = 0;
        while shift < last_bits
            invariant
                self.wf(),
                (last_word, last_bits) == self.values.spec_last_block(),
                last_bits <= 64,
                shift <= last_bits,
                block <= self.values.full_blocks() + 1,
                self.values@.len() == self.values.full_blocks() * 64 + self.values.spec_last_bits(),
                select_scan(last_word, last_bits as nat, shift as nat, count as int, rank)
                    == select_scan(
                    last_word,
                    last_bits as nat,
                    0,
                    self.select_start(rank).1,
                    rank,
                ),
                !select_scan_overflows(last_word, last_bits as nat, shift as nat, count as int, rank),
                self.select_start(rank).0 == block,
            decreases last_bits - shift,
        {
            if last_word & (1u64 << shift as u64) != 0 && count + 1 == rank {
                return Some(block * 64 + shift as usize);
            }
            count = count + (last_word & (1u64 << shift as u64));
            shift = shift + 1;
        }
        None
    }

    /// Appends a boolean, and the count of every completed 1024 booleans.
    pub fn push(&mut self, item: bool)
        requires
            old(self).wf(),
            (old(self)@.len() + 1) * 4 + 4096 <= usize::MAX,
        ensures
            final(self).wf(),
            final(self)@ == old(self)@.push(item),
    {
        proof {
            old(self).values.lemma_len_blocks();
        }
        self.values.push(item);
        proof {
            self.values.lemma_len_blocks();
            assert forall|k: int| 0 <= k < self.counts@.len() implies #[trigger] self.counts@[k]
                == ones(self.values@, (1024 * (k + 1)) as nat) by {
                lemma_ones_push_prefix(old(self).values@, item, (1024 * (k + 1)) as nat);
            }
        }
        while self.counts.len() < self.values.len() / 1024
            invariant
                self.values.wf(),
                self.values@ == old(self)@.push(item),
                self.values@.len() * 4 + 4096 <= usize::MAX,
                self.counts@.len() <= self.values.full_blocks() / 16,
                self.values@.len() / 1024 == self.values.full_blocks() / 16,
                forall|k: int|
                    0 <= k < self.counts@.len() ==> #[trigger] self.counts@[k] == ones(
                        self.values@,
                        (1024 * (k + 1)) as nat,
                    ),
            decreases self.values.full_blocks() / 16 - self.counts@.len(),
        {
            let mut count: u64 = if self.counts.len() == 0 {
                0
            } else {
                self.counts[self.counts.len() - 1]
            };
            let lower = self.counts.len() * 16;
            let upper = lower + 16;
            let ghost k = self.counts@.len() as int;
            proof {
                lemma_ones_le(self.values@, (1024 * k) as nat);
                self.values.lemma_len_blocks();
            }
            let mut index = lower;
            while index < upper
                invariant
                    self.values.wf(),
                    lower == 16 * k,
                    upper == lower + 16,
                    upper <= self.values.full_blocks(),
                    lower <= index <= upper,
                    count == ones(self.values@, (64 * index) as nat),
                    count <= 64 * index,
                    self.values@.len() * 4 + 4096 <= usize::MAX,
                    self.values@.len() == self.values.full_blocks() * 64 + self.values.spec_last_bits(),
                decreases upper - index,
            {
                let c = count_ones(self.values.block(index).0);
                proof {
                    self.values.lemma_block_ones(index as int);
                    lemma_word_ones_le(self.values.spec_block(index as int).0, 64);
                }
                count = count + c as u64;
                index = index + 1;
            }
            self.counts.push(count);
        }
    }

    /// Proves that the counts are bounded by the length.
    /// There is one count per complete 1024 booleans, of the set booleans up to its end.
    pub proof fn lemma_counts(&self)
        requires
            self.wf(),
        ensures
            self.spec_values().wf(),
            self.spec_values()@ == self@,
            self.spec_counts().len() == self@.len() / 1024,
            forall|k: int| 0 <= k < self.spec_counts().len() ==> #[trigger] self.spec_counts()[k] == ones(self@, (1024 * (k + 1)) as nat),
    {
        self.values.lemma_len_blocks();
    }

    proof fn lemma_counts_bounded(&self)
        requires
            self.wf(),
        ensures
            forall|k: int| 0 <= k < self.counts@.len() ==> #[trigger] self.counts@[k] <= self@.len(),
    {
        assert forall|k: int| 0 <= k < self.counts@.len() implies #[trigger] self.counts@[k]
            <= self@.len() by {
            self.values.lemma_len_blocks();
            lemma_ones_le(self.values@, (1024 * (k + 1)) as nat);
        }
    }
}

/// Masking the bits below `n` keeps exactly the set bits below `n`.
proof fn lemma_masked_ones(w: u64, n: u64)
    requires
        n < 64,
    ensures
        word_ones(w & (((1u64 << n) - 1) as u64), 64) == word_ones(w, n as nat),
{
    assert forall|k: u64| k < 64 implies ((w & (((1u64 << n) - 1) as u64)) & (1u64 << k) != 0) == (k < n && (w
        & (1u64 << k) != 0)) by {
        assert(n < 64 && k < 64 ==> ((w & (((1u64 << n) - 1) as u64)) & (1u64 << k) != 0) == (k < n && (w & (
        1u64 << k) != 0))) by (bit_vector);
    }
    lemma_word_ones_mask(w, n, 64);
}

proof fn lemma_word_ones_mask(w: u64, n: u64, m: nat)
    requires
        n < 64,
        m <= 64,
        forall|k: u64|
            k < 64 ==> ((w & (((1u64 << n) - 1) as u64)) & (1u64 << k) != 0) == (k < n && (w & (1u64 << k)
                != 0)),
    ensures
        word_ones(w & (((1u64 << n) - 1) as u64), m) == word_ones(w, if m < n {
            m
        } else {
            n as nat
        }),
    decreases m,
{
    if m > 0 {
        lemma_word_ones_mask(w, n, (m - 1) as nat);
        let k = (m - 1) as u64;
        assert(((w & (((1u64 << n) - 1) as u64)) & (1u64 << k) != 0) == (k < n && (w & (1u64 << k) != 0)));
    }
}

/// A word has at most `n` set bits below `n`.
pub proof fn lemma_word_ones_le(w: u64, n: nat)
    ensures
        word_ones(w, n) <= n,
    decreases n,
{
    if n > 0 {
        lemma_word_ones_le(w, (n - 1) as nat);
    }
}

/// Appending does not change the count of a prefix.
pub proof fn lemma_ones_push_prefix(s: Seq<bool>, x: bool, n: nat)
    requires
        n <= s.len(),
    ensures
        ones(s.push(x), n) == ones(s, n),
    decreases n,
{
    if n > 0 {
        lemma_ones_push_prefix(s, x, (n - 1) as nat);
    }
}

/// A prefix count is at most the prefix length.
pub proof fn lemma_ones_le(s: Seq<bool>, n: nat)
    ensures
        ones(s, n) <= n,
    decreases n,
{
    if n > 0 {
        lemma_ones_le(s, (n - 1) as nat);
    }
}

impl Default for RankSelect {
    fn default() -> (r: Self)
        ensures
            r.wf(),
            r@ == Seq::<bool>::empty(),
    {
        RankSelect::new()
    }
}

impl Region for RankSelect {
    type Owned = bool;
    type ReadItem<'a> = bool;
    type Index = usize;
    type Value = bool;

    open spec fn wf(&self) -> bool {
        RankSelect::wf(self)
    }

    open spec fn valid(&self, index: usize) -> bool {
        index < self@.len()
    }

    open spec fn value_at(&self, index: usize) -> bool {
        self@[index as int]
    }

    open spec fn item_value<'a>(item: bool) -> bool {
        item
    }

    open spec fn owned_value(owned: bool) -> bool {
        owned
    }

    /// A fresh region holds no items.
    open spec fn fresh(&self) -> bool {
        self@.len() == 0
    }

    fn new_region() -> (r: Self) {
        RankSelect::new()
    }

    fn merge_regions(regions: &[&Self]) -> (r: Self) {
        RankSelect::new()
    }

    fn index<'a>(&'a self, index: usize) -> (r: bool) {
        self.index_as(index)
    }

    fn reserve_regions(&mut self, regions: &[&Self]) {
    }

    fn clear(&mut self) {
        RankSelect::clear(self);
    }

    /// The bytes in use by the counts, then by the booleans.
    closed spec fn heap_used(&self) -> Seq<usize> {
        seq![crate::impls::storage::vec_used(self.counts@)] + self.values.heap_used()
    }

    fn heap_size(&self, sizes: &mut Vec<(usize, usize)>) {
        let ghost s0 = sizes@;
        crate::impls::storage::push_vec_heap(&self.counts, sizes);
        let ghost s1 = sizes@;
        self.values.heap_size(sizes);
        proof {
            crate::lemma_reports_chain(s0, s1, sizes@, seq![crate::impls::storage::vec_used(self.counts@)], self.values.heap_used());
        }
    }

    fn reborrow<'b, 'a: 'b>(item: bool) -> (r: bool) {
        item
    }

    fn item_to_owned<'a>(item: bool) -> (r: bool) {
        item
    }
}

impl Push<bool> for RankSelect {
    open spec fn pushed_value(item: bool) -> bool {
        item
    }

    open spec fn push_result(&self, item: bool) -> usize {
        self@.len() as usize
    }

    open spec fn push_requires(&self, item: bool) -> bool {
        (self@.len() + 1) * 4 + 4096 <= usize::MAX
    }

    /// The region holds what it held, then the item.
    open spec fn push_post(&self, item: bool, after: Self) -> bool {
        after@ == self@.push(item)
    }

    fn push(&mut self, item: bool) -> (index: usize) {
        let index = self.len();
        RankSelect::push(self, item);
        index
    }
}

impl ReserveItems<bool> for RankSelect {
    fn reserve_items(&mut self, items: &[bool]) {
        self.counts.reserve(items.len() / 1024 + 1);
        self.values.reserve(items.len());
    }
}

} // verus!
