//! Encoding and decoding state for Huffman codes.
use super::codes::{block_start, block_width, canonical, code_length, complete, has_key, key_index, lemma_key_index, Codeword};
use super::merge::{codes_fit, huffman_tree, leaf_at_depth, leaf_depth, leaves_distinct, lemma_leaf_depth};
use super::tables::{tables_ok, DecodeTables};
use super::tree::{build_tree, depths_bounded, forks_distinct, has_level, tree_ok, Node, leaf_levels, level_weight, levels_weight, sort_levels, sorted_by_level, sum_counts};
use crate::order::SortKey;
use vstd::arithmetic::power2::{lemma_pow2_adds, lemma_pow2_pos, pow2};
use vstd::prelude::*;

verus! {

/// Encoding and decoding state for Huffman codes.
pub struct Huffman<T> {
    /// For each symbol, the code `(bits, code)`: the low `bits` bits of `code`.
    pub(crate) encode: Vec<(T, (usize, u64))>,
    /// Byte-by-byte decoder.
    pub(crate) decode: DecodeTables<T>,
    /// The codes, in canonical order.
    pub(crate) codes: Ghost<Seq<Codeword>>,
}

/// The codeword of an encoding entry.
pub open spec fn entry_codeword<T: SortKey>(e: (T, (usize, u64))) -> Codeword {
    Codeword { key: e.0.key(), len: e.1.0 as nat, code: e.1.1 as nat }
}

/// The first code for `key` is `(bits, code)`.
pub open spec fn first_code(cs: Seq<Codeword>, key: Seq<int>, c: (usize, u64)) -> bool {
    c.0 as nat == cs[key_index(cs, key)].len && c.1 as nat == cs[key_index(cs, key)].code
}

impl<T: SortKey> Huffman<T> {
    /// The codes, in canonical order.
    pub closed spec fn spec_codes(&self) -> Seq<Codeword> {
        self.codes@
    }

    /// The codes are canonical and cover every window, the encoding entries list them, and
    /// the decoding tables hold them; or there are no codes at all.
    pub closed spec fn wf(&self) -> bool {
        let cs = self.codes@;
        &&& canonical(cs)
        &&& self.encode@.len() == cs.len()
        &&& forall|i: int| 0 <= i < cs.len() ==> #[trigger] entry_codeword(self.encode@[i]) == cs[i]
        &&& cs.len() == 0 || (cs.len() >= 2 && complete(cs) && cs[0].len <= 8)
        &&& tables_ok(self.decode.maps@, self.decode.meta@, cs, cs.len() as int, cs.len() as int, 0)
    }

    /// The decoding tables.
    pub closed spec fn spec_maps(&self) -> Seq<Vec<super::tables::Decode<T>>> {
        self.decode.maps@
    }

    /// The prefix and depth of each decoding table.
    pub closed spec fn spec_meta(&self) -> Seq<(nat, nat)> {
        self.decode.meta@
    }

    /// What a well-formed code offers: canonical codes that cover every window, with a
    /// first code of at most eight bits, and decoding tables that hold them.
    pub proof fn lemma_wf(&self)
        requires
            self.wf(),
        ensures
            canonical(self.spec_codes()),
            self.spec_codes().len() == 0 || (self.spec_codes().len() >= 2 && complete(self.spec_codes())
                && self.spec_codes()[0].len <= 8),
            tables_ok(
                self.spec_maps(),
                self.spec_meta(),
                self.spec_codes(),
                self.spec_codes().len() as int,
                self.spec_codes().len() as int,
                0,
            ),
    {
    }

    /// A well-formed coder with codes has no invalid decoding entry: each names a symbol or
    /// leads to a further table, so every byte sequence can be looked up.
    pub proof fn lemma_no_void(&self)
        requires
            self.wf(),
            self.spec_codes().len() > 0,
        ensures
            forall|k: int, b: int|
                0 <= k < self.spec_maps().len() && 0 <= b < 256 ==> !(#[trigger] self.spec_maps()[k]@[b] is Void),
    {
        super::cover::lemma_no_void(self.spec_maps(), self.spec_meta(), self.spec_codes());
    }

    /// The entry `b` of decoding table `k`.
    pub fn table_entry(&self, k: usize, b: usize) -> (r: &super::tables::Decode<T>)
        requires
            k < self.spec_maps().len(),
            b < self.spec_maps()[k as int]@.len(),
        ensures
            *r == self.spec_maps()[k as int]@[b as int],
    {
        &self.decode.maps[k][b]
    }

    /// The code for a key, if it has one.
    pub fn lookup(&self, symbol: &T) -> (r: Option<(usize, u64)>)
        requires
            self.wf(),
        ensures
            r is Some <==> has_key(self.spec_codes(), symbol.key()),
            r is Some ==> first_code(self.spec_codes(), symbol.key(), r->0),
    {
        let mut i: usize = 0;
        while i < self.encode.len()
            invariant
                self.wf(),
                0 <= i <= self.encode@.len(),
                forall|m: int| 0 <= m < i ==> (#[trigger] self.spec_codes()[m]).key != symbol.key(),
            decreases self.encode@.len() - i,
        {
            if self.encode[i].0.key_eq(symbol) {
                proof {
                    let cs = self.spec_codes();
                    assert(entry_codeword(self.encode@[i as int]) == cs[i as int]);
                    assert(cs[i as int].key == symbol.key());
                    lemma_key_index(cs, symbol.key());
                    if key_index(cs, symbol.key()) < i {
                        assert(cs[key_index(cs, symbol.key())].key != symbol.key());
                    }
                }
                return Some(self.encode[i].1);
            }
            proof {
                assert(entry_codeword(self.encode@[i as int]) == self.spec_codes()[i as int]);
            }
            i = i + 1;
        }
        proof {
            lemma_key_index(self.spec_codes(), symbol.key());
        }
        None
    }
}


/// The summed weights of the first `m` depths.
pub open spec fn prefix_weight(levels: Seq<(usize, usize)>, m: int) -> nat {
    levels_weight(levels.take(m))
}

proof fn lemma_prefix_weight_step(levels: Seq<(usize, usize)>, m: int)
    requires
        0 <= m < levels.len(),
    ensures
        prefix_weight(levels, m + 1) == prefix_weight(levels, m) + level_weight(levels[m].0),
        prefix_weight(levels, m + 1) <= levels_weight(levels),
{
    assert(levels.take(m + 1).drop_last() == levels.take(m));
    super::tree::lemma_levels_weight_concat(levels.take(m + 1), levels.skip(m + 1));
    assert(levels.take(m + 1) + levels.skip(m + 1) == levels);
}

/// One step of canonical code assignment: the code shifted to the new length starts at the
/// running window, stays below the length's limit, and its successor starts at the next.
proof fn lemma_canon_step(code: nat, prev: nat, level: nat, s: nat, s_next: nat)
    requires
        prev <= level <= 57,
        1 <= level,
        code * pow2((64 - prev) as nat) == s,
        s + pow2((64 - level) as nat) == s_next,
        s_next <= pow2(64),
    ensures
        code * pow2((level - prev) as nat) * pow2((64 - level) as nat) == s,
        code * pow2((level - prev) as nat) < pow2(level),
        (code * pow2((level - prev) as nat) + 1) * pow2((64 - level) as nat) == s_next,
{
    let a = pow2((level - prev) as nat);
    let w = pow2((64 - level) as nat);
    lemma_pow2_adds((level - prev) as nat, (64 - level) as nat);
    assert((level - prev) as nat + (64 - level) as nat == (64 - prev) as nat);
    lemma_pow2_adds(level, (64 - level) as nat);
    assert(level + (64 - level) as nat == 64);
    lemma_pow2_pos((64 - level) as nat);
    let x = code * a;
    assert(x * w == s) by (nonlinear_arith)
        requires
            code * pow2((64 - prev) as nat) == s,
            pow2((64 - prev) as nat) == a * w,
            x == code * a,
    ;
    assert(x < pow2(level)) by (nonlinear_arith)
        requires
            x * w + w <= pow2(level) * w,
            w > 0,
    ;
    assert((x + 1) * w == s_next) by (nonlinear_arith)
        requires
            x * w == s,
            s + w == s_next,
    ;
}

proof fn lemma_start_bound(cs: Seq<Codeword>, i: int)
    requires
        canonical(cs),
        0 <= i < cs.len(),
    ensures
        block_start(cs[i]) + block_width(cs[i]) <= (i + 1) * block_width(cs[0]),
    decreases i,
{
    let w0 = block_width(cs[0]);
    if i == 0 {
    } else {
        lemma_start_bound(cs, i - 1);
        let k = i - 1;
        assert(block_start(cs[k + 1]) == block_start(cs[k]) + block_width(cs[k]));
        assert(cs[0].len <= cs[i].len);
        if cs[0].len < cs[i].len {
            vstd::arithmetic::power2::lemma_pow2_strictly_increases((64 - cs[i].len) as nat, (64 - cs[0].len) as nat);
        }
        assert((i + 1) * w0 == i * w0 + w0) by (nonlinear_arith);
    }
}

/// Codes that follow the depths of the leaves: each symbol has a code, as long as the depth
/// of its leaf.
proof fn lemma_codes_of_levels<T: SortKey>(
    counts: Seq<(T, i64)>,
    weights: Seq<i64>,
    tree: Seq<Node>,
    levels: Seq<(usize, usize)>,
    cs: Seq<Codeword>,
)
    requires
        weights == counts.map_values(|e: (T, i64)| e.1),
        tree == huffman_tree(weights),
        tree_ok(tree, counts.len()),
        forks_distinct(tree, Seq::empty()),
        leaves_distinct(tree, Seq::empty()),
        forall|i: int, j: int|
            0 <= i < j < counts.len() ==> (#[trigger] counts[i]).0.key() != (#[trigger] counts[j]).0.key(),
        forall|i: int| 0 <= i < counts.len() ==> #[trigger] has_level(levels, i),
        forall|k: int| 0 <= k < levels.len() ==> (#[trigger] levels[k]).1 < counts.len(),
        forall|k: int| 0 <= k < levels.len() ==> leaf_at_depth(tree, (#[trigger] levels[k]).1 as int, levels[k].0 as nat),
        cs.len() == levels.len(),
        forall|m: int| 0 <= m < cs.len() ==> (#[trigger] cs[m]).key == counts[levels[m].1 as int].0.key() && cs[m].len == levels[m].0,
    ensures
        forall|i: int| 0 <= i < counts.len() ==> has_key(cs, (#[trigger] counts[i]).0.key()),
        forall|i: int| 0 <= i < counts.len() ==> code_length(cs, (#[trigger] counts[i]).0.key()) == leaf_depth(huffman_tree(weights), i),
{
    let n = counts.len();
    assert forall|i: int| 0 <= i < n implies has_key(cs, (#[trigger] counts[i]).0.key()) by {
        assert(has_level(levels, i));
        let k = choose|k: int| 0 <= k < levels.len() && #[trigger] levels[k].1 == i;
        assert(cs[k].key == counts[i].0.key());
    }
    assert forall|i: int| 0 <= i < n implies code_length(cs, (#[trigger] counts[i]).0.key()) == leaf_depth(huffman_tree(weights), i) by {
        let key = counts[i].0.key();
        assert(has_key(cs, key));
        lemma_key_index(cs, key);
        let k = key_index(cs, key);
        let s = levels[k].1 as int;
        assert(cs[k].key == counts[s].0.key());
        if s < i {
            assert(counts[s].0.key() != counts[i].0.key());
        } else if i < s {
            assert(counts[i].0.key() != counts[s].0.key());
        }
        assert(leaf_at_depth(tree, levels[k].1 as int, levels[k].0 as nat));
        lemma_leaf_depth(tree, n, i, levels[k].0 as nat);
    }
}

/// Leaves at depths no deeper than 57 keep the whole tree within 57 forks of the root.
proof fn lemma_depths_bounded(counts: Seq<i64>, tree: Seq<Node>, n: nat)
    requires
        tree_ok(tree, n),
        forks_distinct(tree, Seq::empty()),
        leaves_distinct(tree, Seq::empty()),
        tree == huffman_tree(counts),
        counts.len() == n,
        codes_fit(counts),
    ensures
        depths_bounded(tree, n),
        n > 0 ==> exists|i: int| 0 <= i < n && #[trigger] leaf_depth(tree, i) <= 8,
{
    reveal(codes_fit);
    assert forall|i: int, d: nat| 0 <= i < n && #[trigger] leaf_at_depth(tree, i, d) implies d <= 57 by {
        lemma_leaf_depth(tree, n, i, d);
    }
}

impl<T: SortKey> Huffman<T> {
    /// The code of a symbol with the given counts: each symbol of `counts` gets a code whose
    /// length is the depth of its leaf in the Huffman tree of the counts.
    #[verifier::rlimit(100)]
    #[verifier::spinoff_prover]
    pub fn create_from(counts: &Vec<(T, i64)>) -> (r: Self)
        requires
            counts@.len() != 1,
            counts@.len() <= usize::MAX / 4,
            codes_fit(counts@.map_values(|e: (T, i64)| e.1)),
            forall|i: int| 0 <= i < counts@.len() ==> 0 <= (#[trigger] counts@[i]).1,
            forall|i: int, j: int|
                0 <= i < j < counts@.len() ==> (#[trigger] counts@[i]).0.key() != (#[trigger] counts@[j]).0.key(),
            sum_counts(counts@.map_values(|e: (T, i64)| e.1)) <= i64::MAX,
        ensures
            r.wf(),
            forall|i: int| 0 <= i < counts@.len() ==> has_key(r.spec_codes(), (#[trigger] counts@[i]).0.key()),
            forall|i: int|
                0 <= i < counts@.len() ==> code_length(r.spec_codes(), (#[trigger] counts@[i]).0.key())
                    == leaf_depth(huffman_tree(counts@.map_values(|e: (T, i64)| e.1)), i),
    {
        let n = counts.len();
        if n == 0 {
            let decode = DecodeTables::new();
            let ghost cs = Seq::<Codeword>::empty();
            proof {
                assert(tables_ok(decode.maps@, decode.meta@, cs, 0, 0, 0));
            }
            return Huffman { encode: Vec::new(), decode, codes: Ghost(cs) };
        }
        let mut weights: Vec<i64> = Vec::new();
        let mut i: usize = 0;
        while i < n
            invariant
                n == counts@.len(),
                0 <= i <= n,
                weights@ == counts@.map_values(|e: (T, i64)| e.1).take(i as int),
            decreases n - i,
        {
            weights.push(counts[i].1);
            proof {
                assert(weights@ == counts@.map_values(|e: (T, i64)| e.1).take(i + 1));
            }
            i = i + 1;
        }
        proof {
            assert(weights@ == counts@.map_values(|e: (T, i64)| e.1));
        }
        let tree = build_tree(&weights);
        proof {
            lemma_depths_bounded(weights@, tree@, n as nat);
        }
        let mut levels = leaf_levels(&tree, n);
        proof {
            assert(levels@.len() <= 2 * n - 1);
        }
        let ghost walked = levels@;
        sort_levels(&mut levels, n);
        proof {
            assert forall|k: int| 0 <= k < levels@.len() implies leaf_at_depth(tree@, (#[trigger] levels@[k]).1 as int, levels@[k].0 as nat) by {
                assert(walked.contains(levels@[k]));
                let w = choose|w: int| 0 <= w < walked.len() && walked[w] == levels@[k];
                assert(leaf_at_depth(tree@, walked[w].1 as int, walked[w].0 as nat));
            }
        }
        // Canonical codes: each the successor of the last, shifted to its length.
        let mut encode: Vec<(T, (usize, u64))> = Vec::new();
        let mut code: u64 = 0;
        let mut prev_level: usize = 0;
        let ghost mut cs = Seq::<Codeword>::empty();
        let mut idx: usize = 0;
        let len = levels.len();
        proof {
            vstd::arithmetic::power2::lemma2_to64();
            assert(levels@.take(0) == Seq::<(usize, usize)>::empty());
        }
        while idx < len
            invariant
                len == levels@.len(),
                n == counts@.len(),
                0 <= idx <= len,
                sorted_by_level(levels@),
                levels_weight(levels@) == pow2(64),
                forall|k: int| 0 <= k < levels@.len() ==> 1 <= (#[trigger] levels@[k]).0 <= 57 && levels@[k].1 < n,
                prev_level <= 57,
                idx == 0 ==> prev_level == 0 && code == 0,
                idx > 0 ==> prev_level == levels@[idx - 1].0,
                code as nat * pow2((64 - prev_level) as nat) == prefix_weight(levels@, idx as int),
                cs.len() == idx,
                encode@.len() == idx,
                forall|m: int| 0 <= m < idx ==> #[trigger] entry_codeword(encode@[m]) == cs[m],
                forall|m: int| 0 <= m < idx ==> (#[trigger] cs[m]).key == counts@[levels@[m].1 as int].0.key() && cs[m].len == levels@[m].0,
                forall|m: int| 0 <= m < idx ==> block_start(#[trigger] cs[m]) == prefix_weight(levels@, m),
                canonical(cs),
            decreases len - idx,
        {
            let (level, sym) = levels[idx];
            let ghost x: nat = code as nat * pow2((level - prev_level) as nat);
            proof {
                lemma_prefix_weight_step(levels@, idx as int);
                if idx > 0 {
                    assert(levels@[idx - 1].0 <= levels@[idx as int].0);
                }
                lemma_canon_step(code as nat, prev_level as nat, level as nat, prefix_weight(levels@, idx as int), prefix_weight(levels@, idx + 1));
                vstd::bits::lemma_u64_pow2_no_overflow((level - prev_level) as nat);
                vstd::arithmetic::power2::lemma_pow2_strictly_increases(level as nat, 64);
                vstd::arithmetic::power2::lemma2_to64();
                assert(code as nat * pow2((level - prev_level) as nat) < pow2(level as nat));
            }
            if prev_level != level {
                proof {
                    vstd::bits::lemma_u64_shl_is_mul(code, (level - prev_level) as u64);
                }
                code = code << ((level - prev_level) as u64);
                prev_level = level;
            } else {
                proof {
                    assert(pow2(0) == 1) by {
                        vstd::arithmetic::power2::lemma2_to64();
                    }
                    assert((level - prev_level) as nat == 0);
                    assert(pow2((level - prev_level) as nat) == 1);
                    vstd::arithmetic::mul::lemma_mul_basics(code as int);
                    assert(x == code);
                }
            }
            proof {
                assert(code == x);
                assert(code < pow2(level as nat));
                assert((x + 1) * pow2((64 - level) as nat) == prefix_weight(levels@, idx + 1));
                assert(x * pow2((64 - level) as nat) == prefix_weight(levels@, idx as int));
            }
            let ghost cs0 = cs;
            proof {
                cs = cs.push(Codeword { key: counts@[sym as int].0.key(), len: level as nat, code: code as nat });
            }
            encode.push((counts[sym].0.key_clone(), (level, code)));
            proof {
                assert(entry_codeword(encode@[idx as int]) == cs[idx as int]);
                assert forall|m: int| 0 <= m < idx + 1 implies #[trigger] entry_codeword(encode@[m]) == cs[m] by {
                    if m < idx {
                        assert(cs[m] == cs0[m]);
                    }
                }
                assert forall|i: int, j: int| 0 <= i <= j < cs.len() implies (#[trigger] cs[i]).len <= (#[trigger] cs[j]).len by {
                    assert(levels@[i].0 <= levels@[j].0);
                }
                assert forall|i: int| 0 <= i < cs.len() - 1 implies #[trigger] block_start(cs[i + 1]) == block_start(cs[i]) + block_width(cs[i]) by {
                    lemma_prefix_weight_step(levels@, i);
                }
            }
            code = code + 1;
            idx = idx + 1;
        }
        proof {
            assert(levels@.take(len as int) == levels@);
            if len > 0 {
                lemma_prefix_weight_step(levels@, len - 1);
            }
            assert forall|m: int| 0 < m <= len implies #[trigger] prefix_weight(levels@, m) <= pow2(64) by {
                lemma_prefix_weight_step(levels@, m - 1);
            }
            lemma_codes_of_levels(counts@, weights@, tree@, levels@, cs);
            let s = choose|i: int| 0 <= i < n && #[trigger] leaf_depth(tree@, i) <= 8;
            lemma_key_index(cs, counts@[s].0.key());
            assert(code_length(cs, counts@[s].0.key()) <= 8);
            assert(cs[key_index(cs, counts@[s].0.key())].len <= 8);
            assert(cs[0].len <= 8);
        }
        // The decoding tables.
        let mut decode = DecodeTables::new();
        let mut j: usize = 0;
        proof {
            assert(tables_ok(decode.maps@, decode.meta@, cs, 0, 0, 0));
        }
        while j < len
            invariant
                0 <= j <= len,
                len == levels@.len(),
                len == cs.len(),
                len == encode@.len(),
                canonical(cs),
                forall|m: int| 0 <= m < len ==> #[trigger] entry_codeword(encode@[m]) == cs[m],
                forall|m: int| 0 <= m < len ==> block_start(#[trigger] cs[m]) == prefix_weight(levels@, m),
                forall|m: int| 0 < m <= len ==> #[trigger] prefix_weight(levels@, m) <= pow2(64),
                tables_ok(decode.maps@, decode.meta@, cs, j as int, j as int, 0),
            decreases len - j,
        {
            let bits = encode[j].1.0;
            let c = encode[j].1.1;
            proof {
                assert(entry_codeword(encode@[j as int]) == cs[j as int]);
                lemma_prefix_weight_step(levels@, j as int);
                assert(prefix_weight(levels@, j + 1) <= pow2(64));
                vstd::arithmetic::power2::lemma2_to64();
                lemma_pow2_pos((64 - bits) as nat);
                lemma_pow2_pos((64 - levels@[j as int].0) as nat);
                assert(c as nat * pow2((64 - bits) as nat) == block_start(cs[j as int]));
                assert(c as nat * pow2((64 - bits) as nat) < pow2(64));
                vstd::bits::lemma_u64_shl_is_mul(c, (64 - bits) as u64);
            }
            decode.insert_decode(&encode[j].0, bits, c << ((64 - bits) as u64), Ghost(cs), Ghost(j as int));
            j = j + 1;
        }
        proof {
            assert(has_level(levels@, 0));
            assert(has_level(levels@, 1));
            let k0 = choose|k: int| 0 <= k < levels@.len() && #[trigger] levels@[k].1 == 0;
            let k1 = choose|k: int| 0 <= k < levels@.len() && #[trigger] levels@[k].1 == 1;
            assert(k0 != k1);
            assert(len >= 2);
            if len > 0 {
                assert(complete(cs)) by {
                    let last = (len - 1) as int;
                    assert(cs.last() == cs[last]);
                    lemma_prefix_weight_step(levels@, last);
                }
            }
        }
        Huffman { encode, decode, codes: Ghost(cs) }
    }
}


impl<T: SortKey> Huffman<T> {
    /// Encodes the provided symbols, after the `initially.1` low bits of `initially.0`, as a
    /// sequence of bytes.
    ///
    /// The last byte may only contain partial information, and is handed out with its
    /// number of bits.
    pub fn encode<'a>(&'a self, initially: (u8, usize), symbols: &'a [T]) -> (r: super::encoder::Encoder<'a, T>)
        requires
            self.wf(),
            initially.1 < 8,
            initially.0 < pow2(initially.1 as nat),
            super::encoder::all_coded(self.spec_codes(), symbols@),
        ensures
            r.wf(),
            r.spec_codes() == self.spec_codes(),
            r.remaining() == super::bitstream::bits_of(initially.0 as nat, initially.1 as nat) + super::codes::encoded(
                self.spec_codes(),
                super::encoder::keys_of(symbols@),
            ),
    {
        super::encoder::Encoder::new(self, initially, symbols)
    }

    /// Decodes the provided bits as a sequence of symbols.
    pub fn decode<'a>(&'a self, bytes: super::decoder::BitIterator<'a>) -> (r: super::decoder::Decoder<'a, T>)
        requires
            self.wf(),
            self.spec_codes().len() > 0,
            bytes.wf(),
        ensures
            r.wf(),
            r.spec_codes() == self.spec_codes(),
            r.rest() == bytes.rest(),
    {
        super::decoder::Decoder::new(self, bytes)
    }
}

} // verus!

