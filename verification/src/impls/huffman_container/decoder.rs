//! Bits read out of a byte slice, and a tabled Huffman decoder over them.
use super::bitstream::{
    bits_of, bits_value, bytes_bits, lemma_bits_of_concat, lemma_bits_of_len, lemma_bits_of_split, lemma_bits_of_value,
    lemma_bytes_bits_byte, lemma_bytes_bits_len, lemma_padded8_value, lemma_value_of_bits, lemma_window_byte,
    lemma_window_prefix, padded8, window,
};
use super::codes::{block_start, block_width, canonical, in_block, lemma_starts_with_block, parse, starts_with, Codeword};
use super::huffman::Huffman;
use super::tables::{entry_width, lemma_lookup, table_width, tables_ok, Decode};
use crate::order::SortKey;
use vstd::arithmetic::power2::{lemma_pow2_adds, lemma_pow2_pos, pow2};
use vstd::prelude::*;

verus! {

/// An iterator over bits in a byte slice.
///
/// It returns a byte at a time and the number of bits in that byte, in its low bits. This
/// is mostly a whole byte, but the first and last may be partial.
pub struct BitIterator<'a> {
    /// Byte storage within which the addressed bits live.
    bytes: &'a [u8],
    /// Bit addressed range, start and end, of valid bits.
    bit_range: (usize, usize),
}

impl<'a> BitIterator<'a> {
    /// The bits left to read.
    pub closed spec fn rest(&self) -> Seq<bool> {
        bytes_bits(self.bytes@).subrange(self.bit_range.0 as int, self.bit_range.1 as int)
    }

    /// The range lies within the bytes.
    pub closed spec fn wf(&self) -> bool {
        self.bit_range.0 <= self.bit_range.1 <= 8 * self.bytes@.len()
    }

    /// The reading position is at a byte boundary, or all is read.
    pub closed spec fn aligned(&self) -> bool {
        self.bit_range.0 % 8 == 0 || self.bit_range.0 == self.bit_range.1
    }

    /// The bits `lower..upper` of `bytes`.
    pub fn new(bytes: &'a [u8], bit_range: (usize, usize)) -> (r: Self)
        requires
            bit_range.0 <= bit_range.1 <= 8 * bytes@.len(),
        ensures
            r.wf(),
            r.rest() == bytes_bits(bytes@).subrange(bit_range.0 as int, bit_range.1 as int),
    {
        BitIterator { bytes, bit_range }
    }

    /// Reads the bits up to the end of the current byte or of the range, whichever is
    /// first.
    pub fn next(&mut self) -> (r: Option<(u8, usize)>)
        requires
            old(self).wf(),
        ensures
            final(self).wf(),
            final(self).aligned(),
            r is None <==> old(self).rest().len() == 0,
            r is None ==> final(self).rest() == old(self).rest(),
            r matches Some((x, n)) ==> 1 <= n <= 8 && x < pow2(n as nat) && old(self).rest() == bits_of(x as nat, n as nat)
                + final(self).rest(),
            r matches Some((x, n)) ==> old(self).aligned() && n < 8 ==> final(self).rest().len() == 0,
    {
        proof {
            lemma_bytes_bits_len(self.bytes@);
        }
        if self.bit_range.0 < self.bit_range.1 {
            let lo = self.bit_range.0;
            let hi = self.bit_range.1;
            let byte = self.bytes[lo / 8];
            let bits = if hi - lo < 8 - lo % 8 {
                hi - lo
            } else {
                8 - lo % 8
            };
            let ghost o = (lo % 8) as nat;
            let ghost n = bits as nat;
            let ghost y = byte as nat / pow2((8 - o - n) as nat);
            proof {
                vstd::arithmetic::power2::lemma2_to64();
                vstd::bits::lemma_u8_shr_is_div(byte, (8 - lo % 8 - bits) as u8);
                lemma_bytes_bits_byte(self.bytes@, (lo / 8) as int);
                let bb = bytes_bits(self.bytes@);
                let s8 = bits_of(byte as nat, 8);
                lemma_bits_of_len(byte as nat, 8);
                lemma_bits_of_split(byte as nat, 8, o + n);
                lemma_pow2_pos((8 - o - n) as nat);
                lemma_pow2_adds((8 - o - n) as nat, o + n);
                assert(byte < pow2((8 - o - n) as nat) * pow2(o + n)) by {
                    assert((8 - o - n) as nat + (o + n) == 8);
                }
                vstd::arithmetic::div_mod::lemma_multiply_divide_lt(byte as int, pow2((8 - o - n) as nat) as int, pow2(o + n) as int);
                lemma_bits_of_split(y, o + n, o);
                assert(((o + n) - o) as nat == n);
                assert(bb.subrange(lo as int, lo + n) == s8.subrange(o as int, (o + n) as int)) by {
                    assert(lo == 8 * (lo / 8) + o);
                    assert forall|m: int| 0 <= m < n implies #[trigger] bb.subrange(lo as int, lo + n)[m] == s8.subrange(o as int, (o + n) as int)[m] by {
                        assert(bb.subrange(8 * (lo / 8), 8 * (lo / 8) + 8)[o + m] == bb[lo + m]);
                    }
                }
                assert(s8.subrange(o as int, (o + n) as int) == s8.take((o + n) as int).skip(o as int));
                assert(self.rest() == bb.subrange(lo as int, lo + n) + bb.subrange(lo + n, hi as int));
            }
            let shifted = byte >> (8 - lo % 8 - bits);
            proof {
                vstd::bits::lemma_u16_shl_is_mul(1, bits as u16);
            }
            let mask = ((1u16 << bits) - 1) as u8;
            proof {
                if bits < 8 {
                    vstd::bits::lemma_u8_low_bits_mask_is_mod(shifted, n);
                    vstd::bits::lemma_u8_pow2_no_overflow(n);
                    assert(mask == vstd::bits::low_bits_mask(n) as u8);
                } else {
                    assert(mask == 255);
                    assert(shifted & 255 == shifted) by (bit_vector);
                    vstd::arithmetic::div_mod::lemma_small_mod(shifted as nat, 256);
                }
                vstd::arithmetic::div_mod::lemma_mod_bound(y as int, pow2(n) as int);
            }
            let byte = shifted & mask;
            self.bit_range.0 = self.bit_range.0 + bits;
            proof {
                assert(byte as nat == y % pow2(n));
            }
            Some((byte, bits))
        } else {
            None
        }
    }
}

/// A tabled Huffman decoder, handing out one symbol at a time.
pub struct Decoder<'a, T> {
    huffman: &'a Huffman<T>,
    bytes: BitIterator<'a>,
    /// Bits read and not yet decoded, in the low `pending_bits` bits.
    pending_byte: u16,
    pending_bits: usize,
}

/// A window in a code's block starts with the code.
proof fn lemma_window_code(w: nat, c: Codeword)
    requires
        in_block(w, c),
        c.len <= 64,
    ensures
        w / pow2((64 - c.len) as nat) == c.code,
{
    lemma_pow2_pos((64 - c.len) as nat);
    vstd::arithmetic::div_mod::lemma_fundamental_div_mod_converse(
        w as int,
        pow2((64 - c.len) as nat) as int,
        c.code as int,
        (w - block_start(c)) as int,
    );
    vstd::arithmetic::mul::lemma_mul_is_commutative(pow2((64 - c.len) as nat) as int, c.code as int);
}

impl<'a, T: SortKey> Decoder<'a, T> {
    /// The codes in use.
    pub closed spec fn spec_codes(&self) -> Seq<Codeword> {
        self.huffman.spec_codes()
    }

    /// The bits left to decode.
    pub closed spec fn rest(&self) -> Seq<bool> {
        bits_of(self.pending_byte as nat, self.pending_bits as nat) + self.bytes.rest()
    }

    /// The keys left to decode.
    pub open spec fn decoded(&self) -> Seq<Seq<int>> {
        parse(self.spec_codes(), self.rest())->0
    }

    /// The decoder is consistent.
    pub closed spec fn wf(&self) -> bool {
        &&& self.huffman.wf()
        &&& self.huffman.spec_codes().len() > 0
        &&& self.bytes.wf()
        &&& self.bytes.aligned()
        &&& self.pending_bits <= 15
        &&& self.pending_byte < pow2(self.pending_bits as nat)
    }

    /// A decoder of the bits of `bytes`.
    pub fn new(huffman: &'a Huffman<T>, mut bytes: BitIterator<'a>) -> (r: Self)
        requires
            huffman.wf(),
            huffman.spec_codes().len() > 0,
            bytes.wf(),
        ensures
            r.wf(),
            r.spec_codes() == huffman.spec_codes(),
            r.rest() == bytes.rest(),
    {
        let ghost all = bytes.rest();
        // Read an initial, potentially partial, byte to start the process.
        let (pending_byte, pending_bits) = match bytes.next() {
            Some(x) => x,
            None => (0, 0),
        };
        proof {
            vstd::arithmetic::power2::lemma2_to64();
            if pending_bits == 0 {
                assert(bits_of(0, 0) + bytes.rest() == bytes.rest());
            }
        }
        Decoder { huffman, bytes, pending_byte: pending_byte as u16, pending_bits }
    }

    /// Decodes the next symbol, or nothing once all bits are decoded.
    pub fn next(&mut self) -> (r: Option<&'a T>)
        requires
            old(self).wf(),
            parse(old(self).spec_codes(), old(self).rest()) is Some,
        ensures
            final(self).wf(),
            final(self).spec_codes() == old(self).spec_codes(),
            parse(final(self).spec_codes(), final(self).rest()) is Some,
            r is None <==> old(self).rest().len() == 0,
            r is None ==> final(self).rest() == old(self).rest(),
            r matches Some(s) ==> old(self).decoded() == seq![s.key()] + final(self).decoded() && final(self).rest().len()
                < old(self).rest().len(),
    {
        let huffman: &'a Huffman<T> = self.huffman;
        let ghost cs = self.spec_codes();
        let ghost orig = self.rest();
        let ghost w = window(orig);
        let ghost j: int = if orig.len() > 0 {
            choose|i: int| 0 <= i < cs.len() && 1 <= cs[i].len && starts_with(orig, #[trigger] cs[i])
        } else {
            0
        };
        proof {
            huffman.lemma_wf();
            lemma_first_window(cs, orig, j);
            assert(orig.skip(0) == orig);
            assert(huffman.spec_maps()[0]@.len() == 256);
            vstd::arithmetic::div_mod::lemma_basic_div(w as int, pow2(64) as int);
            assert(table_width(0) == pow2(64));
        }
        let mut k: usize = 0;
        let ghost mut d: nat = 0;
        loop
            invariant
                self.wf(),
                self.huffman == huffman,
                self.spec_codes() == cs,
                cs == old(self).spec_codes(),
                canonical(cs),
                cs.len() >= 2,
                cs[0].len <= 8,
                tables_ok(huffman.spec_maps(), huffman.spec_meta(), cs, cs.len() as int, cs.len() as int, 0),
                orig == old(self).rest(),
                parse(cs, orig) is Some,
                w == window(orig),
                w < pow2(64),
                0 <= j < cs.len(),
                w / pow2((64 - cs[j].len) as nat) == cs[j].code,
                orig.len() > 0 ==> starts_with(orig, cs[j]),
                orig.len() == 0 ==> j == 0 && d == 0,
                8 * d < cs[j].len,
                8 * d <= orig.len(),
                self.rest() == orig.skip(8 * d as int),
                d <= 7,
                0 <= k < huffman.spec_maps().len(),
                huffman.spec_meta()[k as int] == (w / table_width(d), d),
            decreases 8 - d,
        {
            if self.pending_bits < 8 {
                let ghost it0 = self.bytes.rest();
                match self.bytes.next() {
                    Some((next_byte, next_bits)) => {
                        proof {
                            lemma_refill(self.pending_byte, self.pending_bits, next_byte, next_bits, self.bytes.rest());
                        }
                        self.pending_byte = (self.pending_byte << next_bits) + next_byte as u16;
                        self.pending_bits = self.pending_bits + next_bits;
                    },
                    None => {},
                }
            }
            proof {
                lemma_lookup(huffman.spec_maps(), huffman.spec_meta(), cs, k as int, d, w, j);
            }
            if self.pending_bits < 8 {
                // All bits are read; the remaining ones, padded, name the last symbol.
                proof {
                    assert(self.bytes.rest().len() == 0);
                    assert(self.rest() == bits_of(self.pending_byte as nat, self.pending_bits as nat));
                    lemma_index_end(orig, d, self.pending_byte, self.pending_bits);
                }
                let byte = (self.pending_byte << (8 - self.pending_bits)) as usize;
                match huffman.table_entry(k, byte) {
                    Decode::Symbol(s, bits) => {
                        if *bits <= self.pending_bits {
                            proof {
                                lemma_consume(self.pending_byte, self.pending_bits, *bits, self.bytes.rest());
                                lemma_decoded_first(cs, orig, j, d, *bits as nat);
                            }
                            self.pending_bits = self.pending_bits - *bits;
                            self.pending_byte = self.pending_byte & ((1u16 << self.pending_bits) - 1);
                            return Some(s);
                        } else if self.pending_bits == 0 {
                            return None;
                        } else {
                            proof {
                                assert(false);
                            }
                            return None;
                        }
                    },
                    _ => {
                        proof {
                            assert(false);
                        }
                        return None;
                    },
                }
            }
            proof {
                lemma_index_main(orig, d, self.pending_byte, self.pending_bits, self.bytes.rest());
            }
            let byte = (self.pending_byte >> (self.pending_bits - 8)) as usize;
            match huffman.table_entry(k, byte) {
                Decode::Symbol(s, bits) => {
                    proof {
                        lemma_consume(self.pending_byte, self.pending_bits, *bits, self.bytes.rest());
                        lemma_decoded_first(cs, orig, j, d, *bits as nat);
                    }
                    self.pending_bits = self.pending_bits - *bits;
                    self.pending_byte = self.pending_byte & ((1u16 << self.pending_bits) - 1);
                    return Some(s);
                },
                Decode::Further(next) => {
                    proof {
                        lemma_consume(self.pending_byte, self.pending_bits, 8usize, self.bytes.rest());
                        assert(orig.skip(8 * d as int).skip(8) == orig.skip(8 * (d + 1) as int));
                        assert(table_width(d + 1) == entry_width(d)) by {
                            assert((64 - 8 * (d + 1)) as nat == (56 - 8 * d) as nat);
                        }
                    }
                    self.pending_bits = self.pending_bits - 8;
                    self.pending_byte = self.pending_byte & ((1u16 << self.pending_bits) - 1);
                    k = *next;
                    proof {
                        d = d + 1;
                    }
                },
                Decode::Void => {
                    proof {
                        assert(false);
                    }
                    return None;
                },
            }
        }
    }
}

/// The window of the bits left starts with their first code, or is zero where none are
/// left, and starts then with the first code.
proof fn lemma_first_window(cs: Seq<Codeword>, orig: Seq<bool>, j: int)
    requires
        canonical(cs),
        cs.len() >= 1,
        parse(cs, orig) is Some,
        orig.len() > 0 ==> j == choose|i: int| 0 <= i < cs.len() && 1 <= cs[i].len && starts_with(orig, #[trigger] cs[i]),
        orig.len() == 0 ==> j == 0,
    ensures
        0 <= j < cs.len(),
        window(orig) < pow2(64),
        window(orig) / pow2((64 - cs[j].len) as nat) == cs[j].code,
        orig.len() > 0 ==> starts_with(orig, cs[j]),
        8 * 0 < cs[j].len,
{
    lemma_window_prefix(orig, 0);
    let w = window(orig);
    if orig.len() > 0 {
        lemma_starts_with_block(orig, cs[j]);
        lemma_window_code(w, cs[j]);
    } else {
        assert(super::bitstream::padded64(orig) == super::bitstream::zeros(64));
        super::bitstream::lemma_zeros_value(64);
        lemma_pow2_pos((64 - cs[0].len) as nat);
        assert(block_start(cs[0]) == 0);
        if cs[0].code > 0 {
            vstd::arithmetic::mul::lemma_mul_strictly_positive(cs[0].code as int, pow2((64 - cs[0].len) as nat) as int);
        }
        vstd::arithmetic::div_mod::lemma_small_mod(0, pow2((64 - cs[0].len) as nat));
        assert(w == 0);
        vstd::arithmetic::div_mod::lemma_div_of0(pow2((64 - cs[0].len) as nat) as int);
    }
}

/// Dropping the first `r` of `pb` pending bits keeps their low `pb - r` bits.
proof fn lemma_consume(p: u16, pb: usize, r: usize, it: Seq<bool>)
    requires
        r <= pb <= 15,
        p < pow2(pb as nat),
    ensures
        (1u16 << ((pb - r) as usize)) == pow2((pb - r) as nat),
        (p & (((1u16 << ((pb - r) as usize)) - 1) as u16)) as nat == p as nat % pow2((pb - r) as nat),
        (p & (((1u16 << ((pb - r) as usize)) - 1) as u16)) < pow2((pb - r) as nat),
        (bits_of(p as nat, pb as nat) + it).skip(r as int) == bits_of(
            (p & (((1u16 << ((pb - r) as usize)) - 1) as u16)) as nat,
            (pb - r) as nat,
        ) + it,
{
    let x: usize = (pb - r) as usize;
    vstd::arithmetic::power2::lemma2_to64();
    vstd::bits::lemma_u16_pow2_no_overflow(x as nat);
    vstd::bits::lemma_u16_shl_is_mul(1, x as u16);
    assert((1u16 << x) == (1u16 << (x as u16))) by (bit_vector)
        requires
            x < 16,
    ;
    vstd::bits::lemma_u16_low_bits_mask_is_mod(p, x as nat);
    lemma_bits_of_split(p as nat, pb as nat, r as nat);
    lemma_bits_of_len(p as nat, pb as nat);
    vstd::arithmetic::div_mod::lemma_mod_bound(p as int, pow2(x as nat) as int);
    let s = bits_of(p as nat, pb as nat);
    assert((s + it).skip(r as int) == s.skip(r as int) + it);
}

/// Appending a chunk of `n` bits to `pb` pending bits.
proof fn lemma_refill(p: u16, pb: usize, x: u8, n: usize, it: Seq<bool>)
    requires
        pb < 8,
        1 <= n <= 8,
        p < pow2(pb as nat),
        x < pow2(n as nat),
    ensures
        (p << n) as int + x as int <= u16::MAX,
        ((p << n) + x as u16) as nat == p as nat * pow2(n as nat) + x as nat,
        ((p << n) + x as u16) < pow2((pb + n) as nat),
        bits_of(p as nat, pb as nat) + (bits_of(x as nat, n as nat) + it) == bits_of(((p << n) + x as u16) as nat, (pb + n) as nat) + it,
{
    vstd::arithmetic::power2::lemma2_to64();
    lemma_pow2_adds(pb as nat, n as nat);
    lemma_pow2_pos(n as nat);
    assert(p * pow2(n as nat) + x < pow2((pb + n) as nat)) by (nonlinear_arith)
        requires
            p < pow2(pb as nat),
            x < pow2(n as nat),
            pow2((pb + n) as nat) == pow2(pb as nat) * pow2(n as nat),
    ;
    vstd::arithmetic::power2::lemma_pow2_strictly_increases((pb + n) as nat, 16);
    assert(p * pow2(n as nat) <= u16::MAX);
    vstd::bits::lemma_u16_shl_is_mul(p, n as u16);
    assert((p << n) == (p << (n as u16))) by (bit_vector)
        requires
            n < 16,
    ;
    lemma_bits_of_concat(p as nat, pb as nat, x as nat, n as nat);
}

/// Once fewer than eight bits remain, their padded byte is the entry to look up.
proof fn lemma_index_end(orig: Seq<bool>, d: nat, p: u16, pb: usize)
    requires
        d <= 7,
        pb < 8,
        p < pow2(pb as nat),
        orig.len() >= 8 * d,
        orig.skip(8 * d as int) == bits_of(p as nat, pb as nat),
    ensures
        (p << ((8 - pb) as usize)) < 256,
        (window(orig) / entry_width(d)) % 256 == (p << ((8 - pb) as usize)) as nat,
        orig.len() == 8 * d + pb,
{
    let rest = orig.skip(8 * d as int);
    lemma_bits_of_len(p as nat, pb as nat);
    lemma_window_byte(orig, d);
    lemma_padded8_value(rest);
    lemma_value_of_bits(p as nat, pb as nat);
    vstd::arithmetic::div_mod::lemma_small_mod(p as nat, pow2(pb as nat));
    vstd::arithmetic::power2::lemma2_to64();
    lemma_pow2_adds(pb as nat, (8 - pb) as nat);
    lemma_pow2_pos((8 - pb) as nat);
    assert(p * pow2((8 - pb) as nat) < 256) by (nonlinear_arith)
        requires
            p < pow2(pb as nat),
            pow2(pb as nat) * pow2((8 - pb) as nat) == 256,
            pow2((8 - pb) as nat) > 0,
    ;
    vstd::bits::lemma_u16_shl_is_mul(p, (8 - pb) as u16);
    assert((p << ((8 - pb) as usize)) == (p << ((8 - pb) as u16))) by (bit_vector)
        requires
            pb < 8,
    ;
}

/// With at least eight bits pending, their first byte is the entry to look up.
proof fn lemma_index_main(orig: Seq<bool>, d: nat, p: u16, pb: usize, it: Seq<bool>)
    requires
        d <= 7,
        8 <= pb <= 15,
        p < pow2(pb as nat),
        orig.len() >= 8 * d,
        orig.skip(8 * d as int) == bits_of(p as nat, pb as nat) + it,
    ensures
        (p >> ((pb - 8) as usize)) < 256,
        (window(orig) / entry_width(d)) % 256 == (p >> ((pb - 8) as usize)) as nat,
        orig.len() >= 8 * d + 8,
{
    let rest = orig.skip(8 * d as int);
    lemma_bits_of_len(p as nat, pb as nat);
    lemma_window_byte(orig, d);
    lemma_padded8_value(rest);
    lemma_bits_of_split(p as nat, pb as nat, 8);
    assert(rest.take(8) == bits_of(p as nat, pb as nat).take(8));
    vstd::arithmetic::power2::lemma2_to64();
    lemma_pow2_pos((pb - 8) as nat);
    lemma_pow2_adds(8, (pb - 8) as nat);
    vstd::arithmetic::div_mod::lemma_multiply_divide_lt(p as int, pow2((pb - 8) as nat) as int, 256);
    lemma_value_of_bits(p as nat / pow2((pb - 8) as nat), 8);
    vstd::arithmetic::div_mod::lemma_small_mod(p as nat / pow2((pb - 8) as nat), 256);
    vstd::bits::lemma_u16_shr_is_div(p, (pb - 8) as u16);
    assert((p >> ((pb - 8) as usize)) == (p >> ((pb - 8) as u16))) by (bit_vector)
        requires
            8 <= pb <= 15,
    ;
}

/// Decoding the first code of `orig`, after `8 * d + r` of its bits.
proof fn lemma_decoded_first(cs: Seq<Codeword>, orig: Seq<bool>, j: int, d: nat, r: nat)
    requires
        canonical(cs),
        0 <= j < cs.len(),
        starts_with(orig, cs[j]),
        cs[j].len == 8 * d + r,
        parse(cs, orig) is Some,
    ensures
        orig.skip(8 * d as int).skip(r as int) == orig.skip(cs[j].len as int),
        parse(cs, orig.skip(cs[j].len as int)) is Some,
        parse(cs, orig)->0 == seq![cs[j].key] + parse(cs, orig.skip(cs[j].len as int))->0,
        orig.skip(cs[j].len as int).len() < orig.len(),
{
    super::codes::lemma_parse_first(cs, orig, j);
    assert(orig.skip(8 * d as int).skip(r as int) == orig.skip(cs[j].len as int));
}

} // verus!
