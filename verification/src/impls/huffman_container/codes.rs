//! Canonical prefix codes, described by the blocks of 64-bit windows they claim.
use super::bitstream::{bits_of, lemma_bits_of_len, lemma_value_of_bits, lemma_window_prefix, window};
use vstd::arithmetic::power2::{lemma_pow2_adds, lemma_pow2_pos, pow2};
use vstd::prelude::*;

verus! {

/// A symbol's code: the symbol's key, the code's length in bits, and the code.
pub struct Codeword {
    pub key: Seq<int>,
    pub len: nat,
    pub code: nat,
}

/// The longest code the encoder's 64-bit buffer can take next to a partial byte.
pub open spec fn max_code_len() -> nat {
    57
}

/// The smallest 64-bit window that starts with the code.
pub open spec fn block_start(c: Codeword) -> nat {
    c.code * pow2((64 - c.len) as nat)
}

/// The number of 64-bit windows that start with the code.
pub open spec fn block_width(c: Codeword) -> nat {
    pow2((64 - c.len) as nat)
}

/// The 64-bit window `w` starts with the code.
pub open spec fn in_block(w: nat, c: Codeword) -> bool {
    block_start(c) <= w < block_start(c) + block_width(c)
}

/// The bits of the code.
pub open spec fn code_bits(c: Codeword) -> Seq<bool> {
    bits_of(c.code, c.len)
}

/// The bit string `s` starts with the code.
pub open spec fn starts_with(s: Seq<bool>, c: Codeword) -> bool {
    c.len <= s.len() && s.take(c.len as int) == code_bits(c)
}

/// Codes in canonical order: nonempty, at most `max_code_len` bits long, ordered by
/// length, and their blocks of windows lie side by side from window zero.
pub open spec fn canonical(cs: Seq<Codeword>) -> bool {
    &&& forall|i: int|
        0 <= i < cs.len() ==> 1 <= (#[trigger] cs[i]).len <= max_code_len() && cs[i].code < pow2(
            cs[i].len,
        )
    &&& forall|i: int, j: int| 0 <= i <= j < cs.len() ==> (#[trigger] cs[i]).len <= (#[trigger] cs[j]).len
    &&& cs.len() > 0 ==> block_start(cs[0]) == 0
    &&& forall|i: int|
        0 <= i < cs.len() - 1 ==> #[trigger] block_start(cs[i + 1]) == block_start(cs[i])
            + block_width(cs[i])
}

/// The blocks of the codes cover every 64-bit window.
pub open spec fn complete(cs: Seq<Codeword>) -> bool {
    cs.len() > 0 && block_start(cs.last()) + block_width(cs.last()) == pow2(64)
}

/// The index of the first code for `key` at or after `i`, or `-1`.
pub open spec fn find_key(cs: Seq<Codeword>, key: Seq<int>, i: int) -> int
    decreases cs.len() - i,
{
    if i < 0 || i >= cs.len() {
        -1
    } else if cs[i].key == key {
        i
    } else {
        find_key(cs, key, i + 1)
    }
}

/// The length of the first code for `key`.
pub open spec fn code_length(cs: Seq<Codeword>, key: Seq<int>) -> nat {
    cs[key_index(cs, key)].len
}

/// The index of the first code for `key`.
pub open spec fn key_index(cs: Seq<Codeword>, key: Seq<int>) -> int {
    find_key(cs, key, 0)
}

proof fn lemma_find_key(cs: Seq<Codeword>, key: Seq<int>, i: int)
    requires
        0 <= i <= cs.len(),
    ensures
        find_key(cs, key, i) == -1 || (i <= find_key(cs, key, i) < cs.len() && cs[find_key(cs, key, i)].key == key),
        find_key(cs, key, i) == -1 <==> forall|m: int| i <= m < cs.len() ==> cs[m].key != key,
        forall|m: int| i <= m < find_key(cs, key, i) ==> cs[m].key != key,
    decreases cs.len() - i,
{
    if i < cs.len() && cs[i].key != key {
        lemma_find_key(cs, key, i + 1);
    }
}

/// The first code for a key that has one.
pub proof fn lemma_key_index(cs: Seq<Codeword>, key: Seq<int>)
    ensures
        has_key(cs, key) <==> 0 <= key_index(cs, key) < cs.len(),
        has_key(cs, key) ==> cs[key_index(cs, key)].key == key,
        forall|m: int| 0 <= m < key_index(cs, key) ==> cs[m].key != key,
{
    lemma_find_key(cs, key, 0);
}

/// Some code is for `key`.
pub open spec fn has_key(cs: Seq<Codeword>, key: Seq<int>) -> bool {
    exists|i: int| 0 <= i < cs.len() && cs[i].key == key
}

/// The bits that encode a sequence of keys.
pub open spec fn encoded(cs: Seq<Codeword>, keys: Seq<Seq<int>>) -> Seq<bool>
    decreases keys.len(),
{
    if keys.len() == 0 {
        Seq::empty()
    } else {
        code_bits(cs[key_index(cs, keys[0])]) + encoded(cs, keys.drop_first())
    }
}

/// The keys that a bit string encodes, if it is a sequence of whole codes.
pub open spec fn parse(cs: Seq<Codeword>, s: Seq<bool>) -> Option<Seq<Seq<int>>>
    decreases s.len(),
{
    if s.len() == 0 {
        Some(Seq::empty())
    } else if exists|i: int| 0 <= i < cs.len() && 1 <= cs[i].len && starts_with(s, #[trigger] cs[i]) {
        let i = choose|i: int| 0 <= i < cs.len() && 1 <= cs[i].len && starts_with(s, #[trigger] cs[i]);
        match parse(cs, s.skip(cs[i].len as int)) {
            Some(rest) => Some(seq![cs[i].key] + rest),
            None => None,
        }
    } else {
        None
    }
}

/// Block starts increase along canonical codes.
pub proof fn lemma_blocks_ordered(cs: Seq<Codeword>, i: int, j: int)
    requires
        canonical(cs),
        0 <= i < j < cs.len(),
    ensures
        block_start(cs[i]) + block_width(cs[i]) <= block_start(cs[j]),
    decreases j - i,
{
    if j > i + 1 {
        lemma_blocks_ordered(cs, i, j - 1);
        let k = j - 1;
        assert(block_start(cs[k + 1]) == block_start(cs[k]) + block_width(cs[k]));
    } else {
        assert(block_start(cs[i + 1]) == block_start(cs[i]) + block_width(cs[i]));
    }
}

/// A window lies in the block of at most one canonical code.
pub proof fn lemma_block_unique(cs: Seq<Codeword>, w: nat, i: int, j: int)
    requires
        canonical(cs),
        0 <= i < cs.len(),
        0 <= j < cs.len(),
        in_block(w, cs[i]),
        in_block(w, cs[j]),
    ensures
        i == j,
{
    if i < j {
        lemma_blocks_ordered(cs, i, j);
    }
    if j < i {
        lemma_blocks_ordered(cs, j, i);
    }
}

/// A bit string that starts with a code has its window in the code's block.
pub proof fn lemma_starts_with_block(s: Seq<bool>, c: Codeword)
    requires
        starts_with(s, c),
        1 <= c.len <= 64,
        c.code < pow2(c.len),
    ensures
        in_block(window(s), c),
{
    lemma_window_prefix(s, c.len);
    lemma_value_of_bits(c.code, c.len);
    vstd::arithmetic::div_mod::lemma_small_mod(c.code, pow2(c.len));
    let w = window(s);
    let p = pow2((64 - c.len) as nat);
    lemma_pow2_pos((64 - c.len) as nat);
    vstd::arithmetic::div_mod::lemma_fundamental_div_mod(w as int, p as int);
    assert(w == p * (w / p) + w % p);
    assert(w / p == c.code);
    vstd::arithmetic::mul::lemma_mul_is_commutative(p as int, c.code as int);
}

/// Canonical codes parse what they encode.
pub proof fn lemma_parse_encoded(cs: Seq<Codeword>, keys: Seq<Seq<int>>)
    requires
        canonical(cs),
        forall|k: int| 0 <= k < keys.len() ==> has_key(cs, #[trigger] keys[k]),
    ensures
        parse(cs, encoded(cs, keys)) == Some(keys),
    decreases keys.len(),
{
    let s = encoded(cs, keys);
    if keys.len() > 0 {
        assert(has_key(cs, keys[0]));
        lemma_key_index(cs, keys[0]);
        let i0 = key_index(cs, keys[0]);
        let c = cs[i0];
        let rest = encoded(cs, keys.drop_first());
        lemma_bits_of_len(c.code, c.len);
        assert(s == code_bits(c) + rest);
        assert(s.take(c.len as int) == code_bits(c));
        assert(starts_with(s, c));
        let i = choose|i: int| 0 <= i < cs.len() && 1 <= cs[i].len && starts_with(s, #[trigger] cs[i]);
        lemma_starts_with_block(s, cs[i]);
        lemma_starts_with_block(s, c);
        lemma_block_unique(cs, window(s), i, i0);
        assert(s.skip(c.len as int) == rest);
        assert forall|k: int| 0 <= k < keys.drop_first().len() implies has_key(
            cs,
            #[trigger] keys.drop_first()[k],
        ) by {
            assert(keys.drop_first()[k] == keys[k + 1]);
        }
        lemma_parse_encoded(cs, keys.drop_first());
        assert(seq![keys[0]] + keys.drop_first() == keys);
    }
}

/// Parsing a concatenation of two whole code sequences.
pub proof fn lemma_parse_concat(cs: Seq<Codeword>, a: Seq<bool>, b: Seq<bool>)
    requires
        canonical(cs),
        parse(cs, a) is Some,
        parse(cs, b) is Some,
    ensures
        parse(cs, a + b) == Some(parse(cs, a)->0 + parse(cs, b)->0),
    decreases a.len(),
{
    if a.len() == 0 {
        assert(a + b == b);
        assert(parse(cs, a)->0 + parse(cs, b)->0 == parse(cs, b)->0);
    } else {
        let i = choose|i: int| 0 <= i < cs.len() && 1 <= cs[i].len && starts_with(a, #[trigger] cs[i]);
        let s = a + b;
        assert(s.take(cs[i].len as int) == a.take(cs[i].len as int));
        assert(starts_with(s, cs[i]));
        let j = choose|j: int| 0 <= j < cs.len() && 1 <= cs[j].len && starts_with(s, #[trigger] cs[j]);
        lemma_starts_with_block(s, cs[i]);
        lemma_starts_with_block(s, cs[j]);
        lemma_block_unique(cs, window(s), i, j);
        assert(s.skip(cs[i].len as int) == a.skip(cs[i].len as int) + b);
        lemma_parse_concat(cs, a.skip(cs[i].len as int), b);
        let ra = parse(cs, a.skip(cs[i].len as int))->0;
        let rb = parse(cs, b)->0;
        assert(seq![cs[i].key] + (ra + rb) == (seq![cs[i].key] + ra) + rb);
    }
}


/// Encoding a concatenation of keys concatenates the encodings.
pub proof fn lemma_encoded_concat(cs: Seq<Codeword>, a: Seq<Seq<int>>, b: Seq<Seq<int>>)
    ensures
        encoded(cs, a + b) == encoded(cs, a) + encoded(cs, b),
    decreases a.len(),
{
    if a.len() == 0 {
        assert(a + b == b);
    } else {
        assert((a + b)[0] == a[0]);
        assert((a + b).drop_first() == a.drop_first() + b);
        lemma_encoded_concat(cs, a.drop_first(), b);
    }
}

/// Encoding one key gives its first code.
pub proof fn lemma_encoded_one(cs: Seq<Codeword>, key: Seq<int>)
    ensures
        encoded(cs, seq![key]) == code_bits(cs[key_index(cs, key)]),
{
    assert(seq![key].drop_first().len() == 0);
    assert(encoded(cs, seq![key].drop_first()) == Seq::<bool>::empty());
    assert(code_bits(cs[key_index(cs, key)]) + Seq::<bool>::empty() == code_bits(cs[key_index(cs, key)]));
}


/// Parsing a bit string that starts with a code gives the code's key, then the parse of the
/// rest.
pub proof fn lemma_parse_first(cs: Seq<Codeword>, s: Seq<bool>, j: int)
    requires
        canonical(cs),
        0 <= j < cs.len(),
        starts_with(s, cs[j]),
    ensures
        s.len() > 0,
        parse(cs, s) == (match parse(cs, s.skip(cs[j].len as int)) {
            Some(rest) => Some(seq![cs[j].key] + rest),
            None => None,
        }),
{
    assert(1 <= cs[j].len);
    let i = choose|i: int| 0 <= i < cs.len() && 1 <= cs[i].len && starts_with(s, #[trigger] cs[i]);
    lemma_starts_with_block(s, cs[i]);
    lemma_starts_with_block(s, cs[j]);
    lemma_block_unique(cs, window(s), i, j);
}

} // verus!
