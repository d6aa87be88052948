//! A slice container that Huffman encodes its contents.
use vstd::prelude::*;

pub mod bitstream;
pub mod codes;
pub mod cover;
pub mod decoder;
pub mod encoder;
pub mod huffman;
pub mod merge;
pub mod stats;
pub mod tables;
pub mod tree;

use self::bitstream::{bits_of, bytes_bits, lemma_bits_of_len, lemma_bits_of_split, lemma_bytes_bits_len, lemma_bytes_bits_push};
use self::codes::{encoded, parse, Codeword};
use self::decoder::{BitIterator, Decoder};
use self::encoder::{all_coded, keys_of, Encoder};
use self::huffman::Huffman;
use self::stats::Counts;
use crate::order::SortKey;
use crate::IntoOwned;
use vstd::arithmetic::power2::{lemma_pow2_pos, pow2};

verus! {

/// The first `bits` bits of a byte string.
pub open spec fn stream(bytes: Seq<u8>, bits: nat) -> Seq<bool> {
    bytes_bits(bytes).take(bits as int)
}

/// `bytes` holds `bits` bits: it has just the bytes they need.
pub open spec fn holds_bits(bytes: Seq<u8>, bits: nat) -> bool {
    bits <= 8 * bytes.len() < bits + 8
}

/// Encodes `symbols` and appends their bits to the `bits` valid bits of `bytes`, returning
/// the range of bits they take.
///
/// The first three arguments are an encoded container's state.
pub fn push_symbols<T: SortKey>(
    huffman: &Huffman<T>,
    bytes: &mut Vec<u8>,
    bits: &mut usize,
    symbols: &[T],
) -> (r: (usize, usize))
    requires
        huffman.wf(),
        all_coded(huffman.spec_codes(), symbols@),
        holds_bits(old(bytes)@, *old(bits) as nat),
        *old(bits) + encoded(huffman.spec_codes(), keys_of(symbols@)).len() <= usize::MAX,
    ensures
        holds_bits(final(bytes)@, *final(bits) as nat),
        r == (*old(bits), *final(bits)),
        stream(final(bytes)@, *final(bits) as nat) == stream(old(bytes)@, *old(bits) as nat) + encoded(
            huffman.spec_codes(),
            keys_of(symbols@),
        ),
{
    let ghost cs = huffman.spec_codes();
    let ghost added = encoded(cs, keys_of(symbols@));
    let ghost before = stream(bytes@, *bits as nat);
    proof {
        lemma_bytes_bits_len(bytes@);
    }
    // We'll only append bits, and start at the number of bits we have already.
    let start = *bits;
    // Any incomplete byte is peeled off and handed to the encoder, so its bits are counted
    // once, when the encoder hands them back.
    *bits = *bits - (*bits % 8);
    let initially = if start % 8 == 0 {
        proof {
            vstd::arithmetic::power2::lemma2_to64();
            assert(bits_of(0, 0) == Seq::<bool>::empty());
            assert(stream(bytes@, *bits as nat) == before);
        }
        (0u8, 0usize)
    } else {
        let b = start % 8;
        let ghost bs0 = bytes@;
        let last = match bytes.pop() {
            Some(x) => x,
            None => 0,
        };
        proof {
            vstd::arithmetic::power2::lemma2_to64();
            assert(bs0 == bytes@.push(last));
            lemma_bytes_bits_push(bytes@, last);
            lemma_bytes_bits_len(bytes@);
            lemma_bits_of_len(last as nat, 8);
            lemma_bits_of_split(last as nat, 8, b as nat);
            vstd::bits::lemma_u8_shr_is_div(last, (8 - b) as u8);
            lemma_pow2_pos((8 - b) as nat);
            vstd::arithmetic::power2::lemma_pow2_adds(b as nat, (8 - b) as nat);
            assert(b as nat + (8 - b) as nat == 8);
            vstd::arithmetic::mul::lemma_mul_is_commutative(pow2(b as nat) as int, pow2((8 - b) as nat) as int);
            assert(last < pow2((8 - b) as nat) * pow2(b as nat));
            vstd::arithmetic::div_mod::lemma_multiply_divide_lt(last as int, pow2((8 - b) as nat) as int, pow2(b as nat) as int);
            assert(bytes_bits(bs0).take(start as int) == bytes_bits(bytes@) + bits_of(last as nat, 8).take(b as int));
            assert(bytes_bits(bytes@).take(*bits as int) == bytes_bits(bytes@));
        }
        let shift: usize = 8 - b;
        let byte = last >> shift;
        proof {
            assert((last >> (shift as u8)) == (last >> shift)) by (bit_vector)
                requires
                    shift <= 8,
            ;
        }
        (byte, b)
    };
    let mut encoder = Encoder::new(huffman, initially, symbols);
    proof {
        assert(stream(bytes@, *bits as nat) + encoder.remaining() == before + added);
        assert(*bits % 8 == 0 && 8 * bytes@.len() == *bits);
        lemma_bits_of_len(initially.0 as nat, initially.1 as nat);
    }
    // Each encoded byte is pushed, and the number of bits maintained. Whole and partial
    // bytes are told apart by `Ok` and `Err`.
    loop
        invariant
            encoder.wf(),
            encoder.spec_codes() == cs,
            cs == huffman.spec_codes(),
            stream(bytes@, *bits as nat) + encoder.remaining() == before + added,
            holds_bits(bytes@, *bits as nat),
            encoder.remaining().len() > 0 ==> *bits % 8 == 0 && 8 * bytes@.len() == *bits,
            before.len() == start,
            *bits + encoder.remaining().len() == start + added.len(),
            start + added.len() <= usize::MAX,
        ensures
            stream(bytes@, *bits as nat) == before + added,
            holds_bits(bytes@, *bits as nat),
        decreases encoder.remaining().len(),
    {
        let ghost rem = encoder.remaining();
        let ghost bs0 = bytes@;
        match encoder.next() {
            Some(Ok(byte)) => {
                proof {
                    lemma_bits_of_len(byte as nat, 8);
                }
                bytes.push(byte);
                *bits = *bits + 8;
                proof {
                    lemma_bytes_bits_push(bs0, byte);
                    lemma_bytes_bits_len(bs0);
                    lemma_bytes_bits_len(bytes@);
                    assert(stream(bytes@, *bits as nat) == stream(bs0, (*bits - 8) as nat) + bits_of(byte as nat, 8));
                }
            },
            Some(Err((byte, bs))) => {
                let ghost v = byte as nat / pow2((8 - bs) as nat);
                proof {
                    lemma_bits_of_len(v, bs as nat);
                    lemma_bits_of_len(byte as nat, 8);
                    vstd::arithmetic::power2::lemma2_to64();
                    lemma_pow2_pos((8 - bs) as nat);
                    vstd::arithmetic::power2::lemma_pow2_adds(bs as nat, (8 - bs) as nat);
                    assert(bs as nat + (8 - bs) as nat == 8);
                    vstd::arithmetic::mul::lemma_mul_is_commutative(pow2(bs as nat) as int, pow2((8 - bs) as nat) as int);
                    assert(byte < pow2((8 - bs) as nat) * pow2(bs as nat));
                    vstd::arithmetic::div_mod::lemma_multiply_divide_lt(byte as int, pow2((8 - bs) as nat) as int, pow2(bs as nat) as int);
                    lemma_bits_of_split(byte as nat, 8, bs as nat);
                }
                bytes.push(byte);
                *bits = *bits + bs;
                proof {
                    lemma_bytes_bits_push(bs0, byte);
                    lemma_bytes_bits_len(bs0);
                    lemma_bytes_bits_len(bytes@);
                    assert(stream(bytes@, *bits as nat) == stream(bs0, (*bits - bs) as nat) + bits_of(byte as nat, 8).take(bs as int));
                }
            },
            None => {
                proof {
                    assert(encoder.remaining().len() == 0);
                }
                break;
            },
        }
    }
    (start, *bits)
}


/// Wrapper around a Huffman code and byte slices, decodable to a symbol sequence.
pub struct Encoded<'a, T: SortKey> {
    /// The code.
    huffman: &'a Huffman<T>,
    /// The data itself.
    bytes: &'a [u8],
    /// Bit addressed range, start and end, of valid bits.
    ///
    /// This may start or end within a byte, and be less than a byte in total.
    bit_range: (usize, usize),
}

/// The bits `range` of the bytes hold whole codes.
pub open spec fn decodable<T: SortKey>(huffman: &Huffman<T>, bytes: Seq<u8>, range: (usize, usize)) -> bool {
    &&& huffman.wf()
    &&& huffman.spec_codes().len() > 0
    &&& range.0 <= range.1 <= 8 * bytes.len()
    &&& parse(huffman.spec_codes(), bytes_bits(bytes).subrange(range.0 as int, range.1 as int)) is Some
}

impl<'a, T: SortKey> Encoded<'a, T> {
    /// The bits hold whole codes.
    #[verifier::type_invariant]
    spec fn inv(self) -> bool {
        decodable(self.huffman, self.bytes@, self.bit_range)
    }

    /// The keys of the symbols encoded.
    pub closed spec fn value(&self) -> Seq<Seq<int>> {
        parse(self.huffman.spec_codes(), bytes_bits(self.bytes@).subrange(self.bit_range.0 as int, self.bit_range.1 as int))->0
    }

    /// The bits `bit_range` of `bytes`, in `huffman`'s code.
    pub fn new(huffman: &'a Huffman<T>, bytes: &'a [u8], bit_range: (usize, usize)) -> (r: Self)
        requires
            decodable(huffman, bytes@, bit_range),
        ensures
            r.value() == parse(huffman.spec_codes(), bytes_bits(bytes@).subrange(bit_range.0 as int, bit_range.1 as int))->0,
    {
        Encoded { huffman, bytes, bit_range }
    }

    /// A decoder of the encoded symbols.
    pub fn decode(&self) -> (r: Decoder<'a, T>)
        ensures
            r.wf(),
            parse(r.spec_codes(), r.rest()) is Some,
            r.decoded() == self.value(),
    {
        proof {
            use_type_invariant(self);
        }
        let iter = BitIterator::new(self.bytes, self.bit_range);
        self.huffman.decode(iter)
    }

    /// The encoded symbols, decoded.
    pub fn symbols(&self) -> (r: Vec<T>)
        ensures
            keys_of(r@) == self.value(),
    {
        let mut decoder = self.decode();
        let mut out: Vec<T> = Vec::new();
        proof {
            assert(keys_of(out@) == Seq::<Seq<int>>::empty());
            assert(Seq::<Seq<int>>::empty() + decoder.decoded() == decoder.decoded());
        }
        loop
            invariant
                decoder.wf(),
                parse(decoder.spec_codes(), decoder.rest()) is Some,
                keys_of(out@) + decoder.decoded() == self.value(),
            ensures
                keys_of(out@) == self.value(),
            decreases decoder.rest().len(),
        {
            let ghost d0 = decoder.decoded();
            let ghost o0 = out@;
            match decoder.next() {
                Some(s) => {
                    out.push(s.key_clone());
                    proof {
                        assert(keys_of(out@) == keys_of(o0).push(s.key()));
                        assert(keys_of(o0) + d0 == keys_of(o0) + (seq![s.key()] + decoder.decoded()));
                        assert(keys_of(o0).push(s.key()) + decoder.decoded() == keys_of(o0) + (seq![s.key()] + decoder.decoded()));
                    }
                },
                None => {
                    proof {
                        assert(decoder.rest().len() == 0);
                        assert(decoder.rest() == Seq::<bool>::empty());
                        assert(decoder.decoded() == Seq::<Seq<int>>::empty());
                        assert(keys_of(out@) + Seq::<Seq<int>>::empty() == keys_of(out@));
                    }
                    break;
                },
            }
        }
        out
    }
}

impl<'a, T: SortKey> Clone for Encoded<'a, T> {
    fn clone(&self) -> (r: Self)
        ensures
            r == *self,
    {
        proof {
            use_type_invariant(self);
        }
        Encoded { huffman: self.huffman, bytes: self.bytes, bit_range: self.bit_range }
    }
}

/// Copies of the symbols of a slice.
fn copy_symbols<T: SortKey>(symbols: &[T]) -> (r: Vec<T>)
    ensures
        keys_of(r@) == keys_of(symbols@),
{
    let mut out: Vec<T> = Vec::new();
    let mut i: usize = 0;
    while i < symbols.len()
        invariant
            0 <= i <= symbols@.len(),
            keys_of(out@) == keys_of(symbols@.take(i as int)),
        decreases symbols@.len() - i,
    {
        let ghost o0 = out@;
        out.push(symbols[i].key_clone());
        proof {
            assert(symbols@.take(i + 1) == symbols@.take(i as int).push(symbols@[i as int]));
            assert(keys_of(out@) =~= keys_of(o0).push(symbols@[i as int].key()));
            assert(keys_of(symbols@.take(i + 1)) =~= keys_of(symbols@.take(i as int)).push(symbols@[i as int].key()));
        }
        i = i + 1;
    }
    proof {
        assert(symbols@.take(i as int) == symbols@);
    }
    out
}

/// A read item of a [`HuffmanContainer`]: either encoded symbols or a slice of them.
pub struct Wrapped<'a, T: SortKey> {
    inner: Result<Encoded<'a, T>, &'a [T]>,
}

impl<'a, T: SortKey> Wrapped<'a, T> {
    /// The keys of the symbols.
    pub closed spec fn value(&self) -> Seq<Seq<int>> {
        match self.inner {
            Ok(encoded) => encoded.value(),
            Err(symbols) => keys_of(symbols@),
        }
    }

    /// Returns either a decoder, or the symbols themselves.
    pub fn decode(&self) -> (r: Result<Decoder<'a, T>, &'a [T]>)
        ensures
            r matches Ok(d) ==> d.wf() && parse(d.spec_codes(), d.rest()) is Some && d.decoded() == self.value(),
            r matches Err(s) ==> keys_of(s@) == self.value(),
    {
        match &self.inner {
            Ok(encoded) => Ok(encoded.decode()),
            Err(symbols) => Err(*symbols),
        }
    }

    /// A wrapper around an encoded sequence.
    pub fn encoded(e: Encoded<'a, T>) -> (r: Self)
        ensures
            r.value() == e.value(),
    {
        Wrapped { inner: Ok(e) }
    }

    /// A wrapper around a decoded sequence.
    pub fn decoded(d: &'a [T]) -> (r: Self)
        ensures
            r.value() == keys_of(d@),
    {
        Wrapped { inner: Err(d) }
    }
}

impl<'a, T: SortKey> IntoOwned<'a> for Wrapped<'a, T> {
    type Owned = Vec<T>;

    /// The symbols, decoded where they are encoded.
    fn into_owned(self) -> (r: Vec<T>)
        ensures
            keys_of(r@) == self.value(),
    {
        match &self.inner {
            Ok(encoded) => encoded.symbols(),
            Err(symbols) => copy_symbols(symbols),
        }
    }

    /// Replaces the contents of `other` with the symbols.
    fn clone_onto(self, other: &mut Vec<T>)
        ensures
            keys_of(final(other)@) == self.value(),
    {
        *other = self.into_owned();
    }

    /// Borrows the symbols of `owned`.
    fn borrow_as(owned: &'a Vec<T>) -> (r: Self)
        ensures
            r.value() == keys_of(owned@),
    {
        Wrapped { inner: Err(owned.as_slice()) }
    }
}


/// A container that holds slices of symbols, plainly or Huffman encoded.
pub struct HuffmanContainer<T: SortKey> {
    /// Either encoded data or raw data.
    ///
    /// Encoded data is a code, a list of bytes, and a number of valid bits.
    inner: Result<(Huffman<T>, Vec<u8>, usize), Vec<T>>,
    /// Counts of the number of each symbol we've seen.
    stats: Counts<T>,
}

/// The union of the symbols counted by `regions`.
pub open spec fn all_keys<T: SortKey>(regions: Seq<&HuffmanContainer<T>>) -> Set<Seq<int>>
    decreases regions.len(),
{
    if regions.len() == 0 {
        Set::empty()
    } else {
        all_keys(regions.drop_last()).union(regions.last().stats_keys())
    }
}

/// The count of the symbol with key `k` over all `regions`.
pub open spec fn all_count<T: SortKey>(regions: Seq<&HuffmanContainer<T>>, k: Seq<int>) -> int
    decreases regions.len(),
{
    if regions.len() == 0 {
        0
    } else {
        all_count(regions.drop_last(), k) + stats::count_of(regions.last().stats_entries(), k)
    }
}

/// `es` lists each symbol counted in `regions`, ordered by key, with its count over all of them.
pub open spec fn merged_counts<T: SortKey>(regions: Seq<&HuffmanContainer<T>>, es: Seq<(T, i64)>) -> bool {
    &&& forall|a: int, b: int| 0 <= a < b < es.len() ==> crate::order::lex_lt((#[trigger] es[a]).0.key(), (#[trigger] es[b]).0.key())
    &&& stats::entry_keys(es).to_set() == all_keys(regions)
    &&& forall|i: int| 0 <= i < es.len() ==> (#[trigger] es[i]).1 == all_count(regions, es[i].0.key())
}

/// The sum of the symbol counts of `regions`.
pub open spec fn all_total<T: SortKey>(regions: Seq<&HuffmanContainer<T>>) -> int
    decreases regions.len(),
{
    if regions.len() == 0 {
        0
    } else {
        all_total(regions.drop_last()) + regions.last().stats_total()
    }
}

impl<T: SortKey> HuffmanContainer<T> {
    /// The contents are encoded.
    pub closed spec fn is_encoded(&self) -> bool {
        self.inner is Ok
    }

    /// The codes of an encoded container, none for a plain one.
    pub closed spec fn codes(&self) -> Seq<Codeword> {
        match self.inner {
            Ok((huffman, _, _)) => huffman.spec_codes(),
            Err(_) => Seq::empty(),
        }
    }

    /// The number of encoded bits, or of plain symbols.
    pub closed spec fn size(&self) -> nat {
        match self.inner {
            Ok((_, _, bits)) => bits as nat,
            Err(raw) => raw@.len(),
        }
    }

    /// The symbols counted.
    pub closed spec fn stats_keys(&self) -> Set<Seq<int>> {
        self.stats.keys().to_set()
    }

    /// The counted symbols with their counts, ordered by key.
    pub closed spec fn stats_entries(&self) -> Seq<(T, i64)> {
        self.stats.spec_entries()
    }

    /// The number of symbols counted.
    pub closed spec fn stats_total(&self) -> int {
        self.stats.total()
    }

    /// The counts and the encoded bits are consistent.
    pub closed spec fn wf(&self) -> bool {
        &&& self.stats.wf()
        &&& match self.inner {
            Ok((huffman, bytes, bits)) => huffman.wf() && holds_bits(bytes@, bits as nat),
            Err(_) => true,
        }
    }

    /// Whether `index` designates a range of pushed symbols.
    pub closed spec fn valid(&self, index: (usize, usize)) -> bool {
        match self.inner {
            Ok((huffman, bytes, bits)) => index.1 <= bits && decodable(&huffman, bytes@, index),
            Err(raw) => index.0 <= index.1 <= raw@.len(),
        }
    }

    /// The keys of the symbols at `index`.
    pub closed spec fn value_at(&self, index: (usize, usize)) -> Seq<Seq<int>> {
        match self.inner {
            Ok((huffman, bytes, _)) => parse(
                huffman.spec_codes(),
                bytes_bits(bytes@).subrange(index.0 as int, index.1 as int),
            )->0,
            Err(raw) => keys_of(raw@.subrange(index.0 as int, index.1 as int)),
        }
    }

    /// What a push of symbols with keys `keys` needs: room for their counts, and, where
    /// encoded, a code for each key and room for the bits.
    pub open spec fn can_push(&self, keys: Seq<Seq<int>>) -> bool {
        &&& self.stats_total() + keys.len() <= i64::MAX
        &&& if self.is_encoded() {
            &&& forall|k: int| 0 <= k < keys.len() ==> codes::has_key(self.codes(), #[trigger] keys[k])
            &&& self.size() + encoded(self.codes(), keys).len() <= usize::MAX
        } else {
            self.size() + keys.len() <= usize::MAX
        }
    }

    /// An empty, plain container.
    pub fn new() -> (r: Self)
        ensures
            r.wf(),
            !r.is_encoded(),
            r.size() == 0,
            r.stats_keys() == Set::<Seq<int>>::empty(),
            r.stats_total() == 0,
    {
        HuffmanContainer { inner: Err(Vec::new()), stats: Counts::new() }
    }

    /// The number of encoded bits and of symbols counted, for an encoded container.
    pub fn stats_summary(&self) -> (r: Option<(usize, i64)>)
        requires
            self.wf(),
        ensures
            r is Some <==> self.is_encoded(),
            r matches Some((bits, symbols)) ==> bits == self.size() && symbols == self.stats_total(),
    {
        match &self.inner {
            Ok((_, _, bits)) => Some((*bits, self.stats.total_count())),
            Err(_) => None,
        }
    }

    /// Counts the symbols of `item`.
    fn count(stats: &mut Counts<T>, item: &[T])
        requires
            old(stats).wf(),
            old(stats).total() + item@.len() <= i64::MAX,
        ensures
            final(stats).wf(),
            final(stats).total() == old(stats).total() + item@.len(),
            final(stats).keys().to_set() == old(stats).keys().to_set().union(keys_of(item@).to_set()),
    {
        let mut i: usize = 0;
        while i < item.len()
            invariant
                0 <= i <= item@.len(),
                stats.wf(),
                stats.total() == old(stats).total() + i,
                old(stats).total() + item@.len() <= i64::MAX,
                stats.keys().to_set() == old(stats).keys().to_set().union(keys_of(item@.take(i as int)).to_set()),
            decreases item@.len() - i,
        {
            stats.add(&item[i], 1);
            proof {
                let k0 = keys_of(item@.take(i as int));
                assert(keys_of(item@.take(i + 1)) == k0.push(item@[i as int].key()));
                lemma_to_set_push(k0, item@[i as int].key());
            }
            i = i + 1;
        }
        proof {
            assert(item@.take(i as int) == item@);
        }
    }

    /// Pushes the symbols of `item`, returning the range that holds them.
    pub fn push(&mut self, item: &[T]) -> (r: (usize, usize))
        requires
            old(self).wf(),
            old(self).can_push(keys_of(item@)),
        ensures
            final(self).wf(),
            final(self).is_encoded() == old(self).is_encoded(),
            final(self).codes() == old(self).codes(),
            r == (old(self).size() as usize, final(self).size() as usize),
            !final(self).is_encoded() || final(self).codes().len() > 0 ==> final(self).valid(r) && final(self).value_at(r)
                == keys_of(item@),
            forall|i: (usize, usize)|
                #[trigger] old(self).valid(i) ==> final(self).valid(i) && final(self).value_at(i) == old(self).value_at(i),
            final(self).stats_keys() == old(self).stats_keys().union(keys_of(item@).to_set()),
            final(self).stats_total() == old(self).stats_total() + item@.len(),
    {
        Self::count(&mut self.stats, item);
        match &mut self.inner {
            Ok((huffman, bytes, bits)) => {
                let ghost b0 = bytes@;
                let ghost n0 = *bits;
                proof {
                    assert forall|k: int| 0 <= k < item@.len() implies codes::has_key(huffman.spec_codes(), (#[trigger] item@[k]).key()) by {
                        assert(keys_of(item@)[k] == item@[k].key());
                    }
                }
                let r = push_symbols(huffman, bytes, bits, item);
                proof {
                    let cs = huffman.spec_codes();
                    let added = encoded(cs, keys_of(item@));
                    lemma_bytes_bits_len(bytes@);
                    lemma_bytes_bits_len(b0);
                    let st = stream(bytes@, *bits as nat);
                    assert(st == stream(b0, n0 as nat) + added);
                    assert(st.len() == *bits);
                    assert(stream(b0, n0 as nat).len() == n0);
                    assert(bytes_bits(bytes@).subrange(n0 as int, *bits as int) == st.subrange(n0 as int, *bits as int));
                    assert(st.subrange(n0 as int, *bits as int) == added);
                    if cs.len() > 0 {
                        huffman.lemma_wf();
                        assert forall|k: int| 0 <= k < keys_of(item@).len() implies codes::has_key(cs, #[trigger] keys_of(item@)[k]) by {
                            assert(codes::has_key(cs, item@[k].key()));
                        }
                        codes::lemma_parse_encoded(cs, keys_of(item@));
                    }
                    assert forall|i: (usize, usize)| i.0 <= i.1 <= n0 implies #[trigger] bytes_bits(bytes@).subrange(i.0 as int, i.1 as int)
                        == bytes_bits(b0).subrange(i.0 as int, i.1 as int) by {
                        assert(stream(bytes@, *bits as nat).len() == *bits);
                        assert(stream(b0, n0 as nat).len() == n0);
                        assert(bytes_bits(bytes@).subrange(i.0 as int, i.1 as int) == stream(bytes@, *bits as nat).subrange(i.0 as int, i.1 as int));
                        assert(bytes_bits(b0).subrange(i.0 as int, i.1 as int) == stream(b0, n0 as nat).subrange(i.0 as int, i.1 as int));
                    }
                }
                r
            },
            Err(raw) => {
                let ghost r0 = raw@;
                let start = raw.len();
                let mut i: usize = 0;
                while i < item.len()
                    invariant
                        0 <= i <= item@.len(),
                        raw@.len() == r0.len() + i,
                        r0.len() + item@.len() <= usize::MAX,
                        raw@.subrange(0, r0.len() as int) == r0,
                        keys_of(raw@.subrange(r0.len() as int, raw@.len() as int)) == keys_of(item@.take(i as int)),
                    decreases item@.len() - i,
                {
                    let ghost before = raw@;
                    raw.push(item[i].key_clone());
                    proof {
                        assert(raw@.subrange(0, r0.len() as int) == before.subrange(0, r0.len() as int));
                        assert(raw@.subrange(r0.len() as int, raw@.len() as int) == before.subrange(r0.len() as int, before.len() as int).push(raw@.last()));
                        assert(item@.take(i + 1) == item@.take(i as int).push(item@[i as int]));
                        assert(keys_of(raw@.subrange(r0.len() as int, raw@.len() as int)) =~= keys_of(before.subrange(r0.len() as int, before.len() as int)).push(item@[i as int].key()));
                        assert(keys_of(item@.take(i + 1)) =~= keys_of(item@.take(i as int)).push(item@[i as int].key()));
                    }
                    i = i + 1;
                }
                proof {
                    assert(item@.take(i as int) == item@);
                    assert forall|j: (usize, usize)| j.0 <= j.1 <= r0.len() implies #[trigger] raw@.subrange(j.0 as int, j.1 as int)
                        == r0.subrange(j.0 as int, j.1 as int) by {
                        assert(raw@.subrange(j.0 as int, j.1 as int) == raw@.subrange(0, r0.len() as int).subrange(j.0 as int, j.1 as int));
                    }
                }
                (start, raw.len())
            },
        }
    }

    /// The symbols at `index`.
    pub fn index(&self, index: (usize, usize)) -> (r: Wrapped<'_, T>)
        requires
            self.wf(),
            self.valid(index),
        ensures
            r.value() == self.value_at(index),
    {
        match &self.inner {
            Ok((huffman, bytes, _)) => Wrapped::encoded(Encoded::new(huffman, bytes.as_slice(), index)),
            Err(raw) => Wrapped::decoded(vstd::slice::slice_subrange(raw.as_slice(), index.0, index.1)),
        }
    }

    /// An encoded container whose code is built from the symbol counts of `regions`.
    ///
    /// A code needs no symbols or at least two, and codes that fit: at most 57 bits, the
    /// shortest at most 8.
    pub fn merge_regions(regions: &[&Self]) -> (r: Self)
        requires
            forall|i: int| 0 <= i < regions@.len() ==> (#[trigger] regions@[i]).wf(),
            all_total(regions@) <= i64::MAX,
            all_keys(regions@).len() != 1,
            all_keys(regions@).len() <= usize::MAX / 4,
            forall|es: Seq<(T, i64)>|
                #[trigger] merged_counts(regions@, es) ==> super::huffman_container::merge::codes_fit(stats::entry_counts(es)),
        ensures
            r.wf(),
            r.is_encoded(),
            r.size() == 0,
            r.stats_total() == 0,
            forall|k: Seq<int>| all_keys(regions@).contains(k) ==> codes::has_key(r.codes(), k),
            exists|es: Seq<(T, i64)>|
                #[trigger] merged_counts(regions@, es) && forall|i: int|
                    0 <= i < es.len() ==> codes::code_length(r.codes(), (#[trigger] es[i]).0.key())
                        == super::huffman_container::merge::leaf_depth(
                        super::huffman_container::merge::huffman_tree(stats::entry_counts(es)),
                        i,
                    ),
    {
        let mut counts: Counts<T> = Counts::new();
        let mut i: usize = 0;
        proof {
            counts.lemma_wf();
            assert(counts.spec_entries().len() == 0);
            assert(regions@.take(0) =~= Seq::<&Self>::empty());
            assert forall|k: Seq<int>| #[trigger] stats::count_of(counts.spec_entries(), k) == all_count(regions@.take(0), k) by {
            }
        }
        while i < regions.len()
            invariant
                0 <= i <= regions@.len(),
                forall|j: int| 0 <= j < regions@.len() ==> (#[trigger] regions@[j]).wf(),
                counts.wf(),
                counts.keys().to_set() == all_keys(regions@.take(i as int)),
                counts.total() == all_total(regions@.take(i as int)),
                forall|k: Seq<int>| #[trigger] stats::count_of(counts.spec_entries(), k) == all_count(regions@.take(i as int), k),
                all_total(regions@) <= i64::MAX,
            decreases regions@.len() - i,
        {
            let region = regions[i];
            let ghost k0 = counts.keys().to_set();
            let ghost t0 = counts.total();
            proof {
                lemma_all_total_prefix(regions@, i as int + 1);
                region.stats.lemma_wf();
                assert(regions@.take(i + 1).drop_last() == regions@.take(i as int));
                assert(regions@.take(i + 1).last() == region);
            }
            let mut m: usize = 0;
            while m < region.stats.len()
                invariant
                    0 <= m <= region.stats.spec_entries().len(),
                    region.wf(),
                    counts.wf(),
                    counts.keys().to_set() == k0.union(region.stats.keys().take(m as int).to_set()),
                    forall|k: Seq<int>| #[trigger] stats::count_of(counts.spec_entries(), k) == all_count(regions@.take(i as int), k)
                        + stats::count_of(region.stats.spec_entries().take(m as int), k),
                    counts.total() == t0 + super::huffman_container::tree::sum_counts(stats::entry_counts(region.stats.spec_entries()).take(m as int)),
                    t0 + region.stats_total() <= i64::MAX,
                decreases region.stats.spec_entries().len() - m,
            {
                let entry = region.stats.entry(m);
                proof {
                    region.stats.lemma_wf();
                    let c = stats::entry_counts(region.stats.spec_entries());
                    stats::lemma_sum_counts_prefix(c, m as int + 1);
                    assert(c.take(m + 1).drop_last() == c.take(m as int));
                    assert(c[m as int] == entry.1);
                }
                counts.add(&entry.0, entry.1);
                proof {
                    let se = region.stats.spec_entries();
                    assert(se.take(m + 1).drop_last() == se.take(m as int));
                    assert(se.take(m + 1).last() == se[m as int]);
                    region.stats.lemma_wf();
                    let ks = region.stats.keys();
                    assert(ks[m as int] == entry.0.key());
                    assert(ks.take(m + 1) == ks.take(m as int).push(entry.0.key()));
                    lemma_to_set_push(ks.take(m as int), entry.0.key());
                }
                m = m + 1;
            }
            proof {
                assert(region.stats.keys().take(m as int) == region.stats.keys());
                assert(stats::entry_counts(region.stats.spec_entries()).take(m as int) == stats::entry_counts(region.stats.spec_entries()));
                assert(region.stats.spec_entries().take(m as int) == region.stats.spec_entries());
                assert(region.stats_entries() == region.stats.spec_entries());
            }
            i = i + 1;
        }
        proof {
            assert(regions@.take(i as int) == regions@);
            counts.lemma_wf();
            counts.keys().unique_seq_to_set();
            let es = counts.spec_entries();
            assert forall|a: int, b: int| 0 <= a < b < es.len() implies (#[trigger] es[a]).0.key() != (#[trigger] es[b]).0.key() by {
                assert(counts.keys()[a] == es[a].0.key());
                assert(counts.keys()[b] == es[b].0.key());
            }
            assert(stats::entry_keys(es) =~= counts.keys());
            assert forall|i: int| 0 <= i < es.len() implies (#[trigger] es[i]).1 == all_count(regions@, es[i].0.key()) by {
                stats::lemma_count_of_distinct(es, i);
            }
            assert(merged_counts(regions@, es));
            assert(stats::entry_counts(es) =~= es.map_values(|e: (T, i64)| e.1));
            assert(counts.keys().len() == all_keys(regions@).len());
        }
        let total = counts.total_count();
        let huffman = Huffman::create_from(counts.as_vec());
        let bytes: Vec<u8> = Vec::with_capacity(total as usize);
        proof {
            assert forall|k: Seq<int>| all_keys(regions@).contains(k) implies codes::has_key(huffman.spec_codes(), k) by {
                let m = choose|m: int| 0 <= m < counts.keys().len() && counts.keys()[m] == k;
                assert(counts.spec_entries()[m].0.key() == k);
            }
            let es = counts.spec_entries();
            assert(stats::entry_keys(es) =~= counts.keys());
            assert forall|i: int| 0 <= i < es.len() implies (#[trigger] es[i]).1 == all_count(regions@, es[i].0.key()) by {
                stats::lemma_count_of_distinct(es, i);
            }
            assert(merged_counts(regions@, es));
            assert(stats::entry_counts(es) =~= es.map_values(|e: (T, i64)| e.1));
        }
        HuffmanContainer { inner: Ok((huffman, bytes, 0)), stats: Counts::new() }
    }

    /// Removes all symbols, leaving an empty plain container.
    pub fn clear(&mut self)
        ensures
            final(self).wf(),
            !final(self).is_encoded(),
            final(self).size() == 0,
            final(self).stats_total() == 0,
            final(self).stats_keys() == Set::<Seq<int>>::empty(),
    {
        let encoded = match &self.inner {
            Ok(_) => true,
            Err(_) => false,
        };
        if encoded {
            self.inner = Err(Vec::new());
        } else {
            match &mut self.inner {
                Ok(_) => {},
                Err(vec) => vec.clear(),
            }
        }
        self.stats.clear();
    }

    /// Converts a read item into one with a narrower lifetime.
    pub fn reborrow<'b, 'a: 'b>(item: Wrapped<'a, T>) -> (r: Wrapped<'b, T>)
        ensures
            r.value() == item.value(),
    {
        item
    }

    /// Pushes the symbols of a read item, returning the range that holds them.
    pub fn push_wrapped(&mut self, item: Wrapped<'_, T>) -> (r: (usize, usize))
        requires
            old(self).wf(),
            old(self).can_push(item.value()),
        ensures
            final(self).wf(),
            final(self).is_encoded() == old(self).is_encoded(),
            final(self).codes() == old(self).codes(),
            r == (old(self).size() as usize, final(self).size() as usize),
            !final(self).is_encoded() || final(self).codes().len() > 0 ==> final(self).valid(r) && final(self).value_at(r)
                == item.value(),
            forall|i: (usize, usize)|
                #[trigger] old(self).valid(i) ==> final(self).valid(i) && final(self).value_at(i) == old(self).value_at(i),
            final(self).stats_keys() == old(self).stats_keys().union(item.value().to_set()),
            final(self).stats_total() == old(self).stats_total() + item.value().len(),
    {
        let symbols = item.into_owned();
        self.push(symbols.as_slice())
    }
}

proof fn lemma_to_set_push(s: Seq<Seq<int>>, x: Seq<int>)
    ensures
        s.push(x).to_set() == s.to_set().insert(x),
{
    assert forall|y: Seq<int>| s.push(x).to_set().contains(y) <==> s.to_set().insert(x).contains(y) by {
        if s.push(x).to_set().contains(y) {
            let m = choose|m: int| 0 <= m < s.len() + 1 && s.push(x)[m] == y;
            if m < s.len() {
                assert(s[m] == y);
            }
        }
        if s.to_set().contains(y) {
            let m = choose|m: int| 0 <= m < s.len() && s[m] == y;
            assert(s.push(x)[m] == y);
        }
        if y == x {
            assert(s.push(x)[s.len() as int] == y);
        }
    }
}

proof fn lemma_all_total_prefix<T: SortKey>(regions: Seq<&HuffmanContainer<T>>, m: int)
    requires
        0 <= m <= regions.len(),
        forall|i: int| 0 <= i < regions.len() ==> (#[trigger] regions[i]).wf(),
    ensures
        0 <= all_total(regions.take(m)) <= all_total(regions),
    decreases regions.len(),
{
    if regions.len() > 0 {
        regions.last().stats.lemma_wf();
        if m < regions.len() {
            assert forall|i: int| 0 <= i < regions.drop_last().len() implies (#[trigger] regions.drop_last()[i]).wf() by {
                assert(regions.drop_last()[i] == regions[i]);
            }
            lemma_all_total_prefix(regions.drop_last(), m);
            assert(regions.drop_last().take(m) == regions.take(m));
        } else {
            assert(regions.take(m) == regions);
            assert forall|i: int| 0 <= i < regions.drop_last().len() implies (#[trigger] regions.drop_last()[i]).wf() by {
                assert(regions.drop_last()[i] == regions[i]);
            }
            lemma_all_total_prefix(regions.drop_last(), regions.len() - 1);
            assert(regions.drop_last().take(regions.len() - 1) == regions.drop_last());
        }
    }
}

impl<T: SortKey> Default for HuffmanContainer<T> {
    fn default() -> (r: Self)
        ensures
            r.wf(),
            !r.is_encoded(),
            r.size() == 0,
            r.stats_total() == 0,
    {
        Self::new()
    }
}

} // verus!
