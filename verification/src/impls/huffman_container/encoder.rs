//! A tabled Huffman encoder, handing out one byte at a time.
use super::bitstream::{bits_of, lemma_bits_of_concat, lemma_bits_of_len, lemma_bits_of_split};
use super::codes::{canonical, code_bits, encoded, has_key, key_index, lemma_key_index, max_code_len, Codeword};
use super::huffman::Huffman;
use crate::order::SortKey;
use vstd::arithmetic::power2::{lemma_pow2_adds, lemma_pow2_pos, lemma_pow2_strictly_increases, pow2};
use vstd::prelude::*;

verus! {

/// The keys of a sequence of symbols.
pub open spec fn keys_of<T: SortKey>(symbols: Seq<T>) -> Seq<Seq<int>> {
    symbols.map_values(|s: T| s.key())
}

/// Every symbol has a code.
pub open spec fn all_coded<T: SortKey>(cs: Seq<Codeword>, symbols: Seq<T>) -> bool {
    forall|i: int| 0 <= i < symbols.len() ==> has_key(cs, (#[trigger] symbols[i]).key())
}

/// An encoder of a sequence of symbols, after an initial partial byte.
pub struct Encoder<'a, T> {
    huffman: &'a Huffman<T>,
    symbols: &'a [T],
    position: usize,
    /// Bits encoded and not yet handed out, in the low `pending_bits` bits.
    pending_byte: u64,
    pending_bits: usize,
}

impl<'a, T: SortKey> Encoder<'a, T> {
    /// The codes in use.
    pub closed spec fn spec_codes(&self) -> Seq<Codeword> {
        self.huffman.spec_codes()
    }

    /// The bits still to hand out: those pending, then the codes of the symbols not yet read.
    pub closed spec fn remaining(&self) -> Seq<bool> {
        bits_of(self.pending_byte as nat, self.pending_bits as nat) + encoded(
            self.spec_codes(),
            keys_of(self.symbols@.skip(self.position as int)),
        )
    }

    /// The encoder is consistent.
    pub closed spec fn wf(&self) -> bool {
        &&& self.huffman.wf()
        &&& self.pending_bits <= 64
        &&& self.pending_byte < pow2(self.pending_bits as nat)
        &&& self.position <= self.symbols@.len()
        &&& all_coded(self.huffman.spec_codes(), self.symbols@)
    }

    /// An encoder of `symbols` that starts with the `initially.1` low bits of `initially.0`.
    pub fn new(huffman: &'a Huffman<T>, initially: (u8, usize), symbols: &'a [T]) -> (r: Self)
        requires
            huffman.wf(),
            initially.1 < 8,
            initially.0 < pow2(initially.1 as nat),
            all_coded(huffman.spec_codes(), symbols@),
        ensures
            r.wf(),
            r.spec_codes() == huffman.spec_codes(),
            r.remaining() == bits_of(initially.0 as nat, initially.1 as nat) + encoded(
                huffman.spec_codes(),
                keys_of(symbols@),
            ),
    {
        let r = Encoder {
            huffman,
            symbols,
            position: 0,
            pending_byte: initially.0 as u64,
            pending_bits: initially.1,
        };
        proof {
            assert(symbols@.skip(0) == symbols@);
        }
        r
    }

    /// Hands out the next whole byte, or the last partial byte with its number of bits (its
    /// bits are the high ones and the low ones are zero), or nothing once all bits are out.
    pub fn next(&mut self) -> (r: Option<Result<u8, (u8, usize)>>)
        requires
            old(self).wf(),
        ensures
            final(self).wf(),
            final(self).spec_codes() == old(self).spec_codes(),
            r is None ==> old(self).remaining().len() == 0 && final(self).remaining().len() == 0,
            r matches Some(Ok(byte)) ==> old(self).remaining() == bits_of(byte as nat, 8) + final(self).remaining(),
            r matches Some(Err((byte, bits))) ==> 1 <= bits <= 7 && old(self).remaining() == bits_of(
                byte as nat / pow2((8 - bits) as nat),
                bits as nat,
            ) && (byte as nat) % pow2((8 - bits) as nat) == 0 && final(self).remaining().len() == 0,
    {
        let ghost start = self.remaining();
        while self.pending_bits < 8
            invariant
                self.wf(),
                self.remaining() == start,
                start == old(self).remaining(),
                self.spec_codes() == old(self).spec_codes(),
            decreases self.symbols@.len() - self.position,
        {
            if self.position < self.symbols.len() {
                let ghost cs = self.spec_codes();
                let ghost rest = keys_of(self.symbols@.skip(self.position as int));
                let symbol = &self.symbols[self.position];
                proof {
                    assert(has_key(cs, self.symbols@[self.position as int].key()));
                    lemma_key_index(cs, symbol.key());
                    self.huffman.lemma_wf();
                }
                let code = self.huffman.lookup(symbol);
                let (bits, code) = match code {
                    Some(c) => c,
                    None => {
                        proof {
                            assert(false);
                        }
                        (0, 0)
                    },
                };
                proof {
                    let c = cs[key_index(cs, symbol.key())];
                    assert(1 <= c.len <= max_code_len() && c.code < pow2(c.len));
                    assert(rest[0] == symbol.key());
                    assert(rest.drop_first() == keys_of(self.symbols@.skip(self.position + 1)));
                    assert(encoded(cs, rest) == code_bits(c) + encoded(cs, rest.drop_first()));
                    lemma_pow2_adds(self.pending_bits as nat, bits as nat);
                    vstd::arithmetic::power2::lemma2_to64();
                    lemma_pow2_pos(bits as nat);
                    assert(self.pending_byte * pow2(bits as nat) < pow2((self.pending_bits + bits) as nat)) by (nonlinear_arith)
                        requires
                            self.pending_byte < pow2(self.pending_bits as nat),
                            pow2((self.pending_bits + bits) as nat) == pow2(self.pending_bits as nat) * pow2(bits as nat),
                            pow2(bits as nat) > 0,
                    ;
                    if self.pending_bits + bits < 64 {
                        lemma_pow2_strictly_increases((self.pending_bits + bits) as nat, 64);
                    }
                    assert(self.pending_byte * pow2(bits as nat) + code < pow2((self.pending_bits + bits) as nat)) by (nonlinear_arith)
                        requires
                            self.pending_byte < pow2(self.pending_bits as nat),
                            pow2((self.pending_bits + bits) as nat) == pow2(self.pending_bits as nat) * pow2(bits as nat),
                            code < pow2(bits as nat),
                    ;
                    vstd::bits::lemma_u64_shl_is_mul(self.pending_byte, bits as u64);
                    lemma_bits_of_concat(self.pending_byte as nat, self.pending_bits as nat, code as nat, bits as nat);
                }
                self.pending_byte = self.pending_byte << bits;
                self.pending_byte = self.pending_byte + code;
                self.pending_bits = self.pending_bits + bits;
                self.position = self.position + 1;
            } else {
                proof {
                    assert(self.symbols@.skip(self.position as int).len() == 0);
                    assert(keys_of(self.symbols@.skip(self.position as int)).len() == 0);
                    assert(self.remaining() == bits_of(self.pending_byte as nat, self.pending_bits as nat));
                    lemma_bits_of_len(self.pending_byte as nat, self.pending_bits as nat);
                }
                if self.pending_bits > 0 {
                    let bits = self.pending_bits;
                    proof {
                        vstd::arithmetic::power2::lemma2_to64();
                        lemma_pow2_adds(bits as nat, (8 - bits) as nat);
                        lemma_pow2_pos((8 - bits) as nat);
                        assert(self.pending_byte * pow2((8 - bits) as nat) < 256) by (nonlinear_arith)
                            requires
                                self.pending_byte < pow2(bits as nat),
                                pow2(bits as nat) * pow2((8 - bits) as nat) == 256,
                                pow2((8 - bits) as nat) > 0,
                        ;
                        vstd::bits::lemma_u64_shl_is_mul(self.pending_byte, (8 - bits) as u64);
                        vstd::arithmetic::div_mod::lemma_div_by_multiple(self.pending_byte as int, pow2((8 - bits) as nat) as int);
                        vstd::arithmetic::div_mod::lemma_mod_multiples_basic(self.pending_byte as int, pow2((8 - bits) as nat) as int);
                    }
                    let byte = self.pending_byte << (8 - self.pending_bits);
                    self.pending_bits = 0;
                    self.pending_byte = 0;
                    proof {
                        assert(bits_of(0, 0) == Seq::<bool>::empty());
                        assert(self.remaining() == Seq::<bool>::empty());
                        assert((byte as u8) as nat == byte as nat);
                    }
                    return Some(Err((byte as u8, bits)));
                } else {
                    return None;
                }
            }
        }
        let ghost p = self.pending_byte as nat;
        let ghost pb = self.pending_bits as nat;
        proof {
            lemma_bits_of_split(p, pb, 8);
            vstd::bits::lemma_u64_shr_is_div(self.pending_byte, (self.pending_bits - 8) as u64);
            lemma_pow2_adds(8, (pb - 8) as nat);
            lemma_pow2_pos((pb - 8) as nat);
            vstd::arithmetic::power2::lemma2_to64();
            vstd::arithmetic::div_mod::lemma_div_is_ordered(p as int, pow2(pb) as int - 1, pow2((pb - 8) as nat) as int);
            assert(p / pow2((pb - 8) as nat) < 256) by {
                vstd::arithmetic::div_mod::lemma_multiply_divide_lt(p as int, pow2((pb - 8) as nat) as int, 256);
            }
        }
        let byte = self.pending_byte >> (self.pending_bits - 8);
        self.pending_bits = self.pending_bits - 8;
        proof {
            vstd::bits::lemma_u64_pow2_no_overflow(self.pending_bits as nat);
            vstd::bits::lemma_u64_shl_is_mul(1, self.pending_bits as u64);
            vstd::bits::lemma_u64_low_bits_mask_is_mod(self.pending_byte, self.pending_bits as nat);
            vstd::arithmetic::div_mod::lemma_mod_bound(p as int, pow2((pb - 8) as nat) as int);
        }
        self.pending_byte = self.pending_byte & ((1u64 << self.pending_bits) - 1);
        proof {
            assert((byte as u8) as nat == byte as nat);
            lemma_bits_of_len(p, pb);
            let sb = bits_of(p, pb);
            assert(sb == sb.take(8) + sb.skip(8));
            assert(byte as nat == p / pow2((pb - 8) as nat));
            assert(self.pending_byte as nat == p % pow2((pb - 8) as nat));
            let e = encoded(self.spec_codes(), keys_of(self.symbols@.skip(self.position as int)));
            assert(start == sb + e);
            assert(self.remaining() == sb.skip(8) + e);
            assert(sb + e == sb.take(8) + (sb.skip(8) + e));
        }
        Some(Ok(byte as u8))
    }
}

} // verus!
