//! Byte-indexed decoding tables for canonical codes.
//!
//! Table `k` reads the byte at depth `d` of the input, after `8 * d` bits that lead to it.
//! Each of its 256 entries either names the symbol whose code starts with the bits read so
//! far, or leads to a table for the next byte, or is still empty.
use super::codes::{block_start, canonical, Codeword};
use crate::order::SortKey;
use vstd::arithmetic::power2::{lemma_pow2_adds, lemma_pow2_pos, lemma_pow2_strictly_increases, pow2};
use vstd::prelude::*;

verus! {

/// An entry of a decoding table.
pub enum Decode<T> {
    /// An as-yet unfilled slot.
    Void,
    /// The symbol, and the number of bits of this table's byte its code takes.
    Symbol(T, usize),
    /// The table for the next byte.
    Further(usize),
}

/// The number of windows an entry of a table at depth `d` stands for.
pub open spec fn entry_width(d: nat) -> nat {
    pow2((56 - 8 * d) as nat)
}

/// The number of windows a table at depth `d` stands for.
pub open spec fn table_width(d: nat) -> nat {
    pow2((64 - 8 * d) as nat)
}

/// The entry with the `8 * d + 8`-bit prefix `q` lies within the block of code `c`.
pub open spec fn entry_in_code(q: nat, d: nat, c: Codeword) -> bool {
    c.len <= 8 * d + 8 && q / pow2((8 * d + 8 - c.len) as nat) == c.code
}

/// Code `c` is longer than the entry with prefix `q` and starts within it.
pub open spec fn code_through(q: nat, d: nat, c: Codeword) -> bool {
    c.len > 8 * d + 8 && block_start(c) / entry_width(d) == q
}

/// Code `c` is longer than the `8 * d`-bit prefix `p` and starts with it.
pub open spec fn table_for(p: nat, d: nat, c: Codeword) -> bool {
    c.len > 8 * d && block_start(c) / table_width(d) == p
}

/// One of the first `m` codes contains the entry.
pub open spec fn covered(cs: Seq<Codeword>, m: int, q: nat, d: nat) -> bool {
    exists|i: int| 0 <= i < m && #[trigger] entry_in_code(q, d, cs[i])
}

/// One of the first `m` codes passes through the entry.
pub open spec fn passed(cs: Seq<Codeword>, m: int, q: nat, d: nat) -> bool {
    exists|i: int| 0 <= i < m && #[trigger] code_through(q, d, cs[i])
}

/// The first `m` codes need a table for prefix `p` at depth `d`.
pub open spec fn needed(cs: Seq<Codeword>, m: int, p: nat, d: nat) -> bool {
    (p == 0 && d == 0) || exists|i: int| 0 <= i < m && #[trigger] table_for(p, d, cs[i])
}

/// The entry holds what the first `m` codes put there.
pub open spec fn entry_ok<T: SortKey>(
    e: Decode<T>,
    meta: Seq<(nat, nat)>,
    cs: Seq<Codeword>,
    m: int,
    q: nat,
    d: nat,
) -> bool {
    if covered(cs, m, q, d) {
        e matches Decode::Symbol(s, r) && 1 <= r <= 8 && exists|i: int|
            0 <= i < m && #[trigger] entry_in_code(q, d, cs[i]) && cs[i].key == s.key() && cs[i].len
                == 8 * d + r
    } else if passed(cs, m, q, d) {
        e matches Decode::Further(c) && 0 <= c < meta.len() && meta[c as int] == (q, d + 1)
    } else {
        e is Void
    }
}

/// The tables hold what the codes put there: the first `hi` codes in tables shallower than
/// `cut`, the first `lo` codes in the others. Each table is known by its prefix and depth.
pub open spec fn tables_ok<T: SortKey>(
    maps: Seq<Vec<Decode<T>>>,
    meta: Seq<(nat, nat)>,
    cs: Seq<Codeword>,
    lo: int,
    hi: int,
    cut: nat,
) -> bool {
    &&& maps.len() == meta.len()
    &&& maps.len() >= 1
    &&& meta[0] == (0nat, 0nat)
    &&& forall|k1: int, k2: int|
        0 <= k1 < k2 < meta.len() ==> #[trigger] meta[k1] != #[trigger] meta[k2]
    &&& forall|k: int|
        0 <= k < maps.len() ==> {
            &&& (#[trigger] maps[k])@.len() == 256
            &&& meta[k].1 <= 7
            &&& meta[k].0 < pow2(8 * meta[k].1)
            &&& needed(cs, if meta[k].1 <= cut { hi } else { lo }, meta[k].0, meta[k].1)
        }
    &&& forall|k: int, b: int|
        0 <= k < maps.len() && 0 <= b < 256 ==> entry_ok(
            #[trigger] maps[k]@[b],
            meta,
            cs,
            if meta[k].1 < cut {
                hi
            } else {
                lo
            },
            meta[k].0 * 256 + b as nat,
            meta[k].1,
        )
}

pub proof fn lemma_div_div(x: nat, a: nat, b: nat)
    ensures
        x / pow2(a) / pow2(b) == x / pow2(a + b),
{
    lemma_pow2_pos(a);
    lemma_pow2_pos(b);
    lemma_pow2_adds(a, b);
    vstd::arithmetic::div_mod::lemma_div_denominator(x as int, pow2(a) as int, pow2(b) as int);
}

pub proof fn lemma_mul_div(x: nat, a: nat, b: nat)
    requires
        b <= a,
    ensures
        (x * pow2(a)) / pow2(b) == x * pow2((a - b) as nat),
{
    lemma_pow2_pos(b);
    lemma_pow2_adds((a - b) as nat, b);
    assert(x * pow2(a) == (x * pow2((a - b) as nat)) * pow2(b)) by (nonlinear_arith)
        requires
            pow2(a) == pow2((a - b) as nat) * pow2(b),
    ;
    vstd::arithmetic::div_mod::lemma_div_by_multiple((x * pow2((a - b) as nat)) as int, pow2(b) as int);
}

pub proof fn lemma_mul_div_down(x: nat, a: nat, b: nat)
    requires
        a <= b,
    ensures
        (x * pow2(a)) / pow2(b) == x / pow2((b - a) as nat),
{
    lemma_pow2_pos(a);
    lemma_pow2_pos((b - a) as nat);
    lemma_pow2_adds((b - a) as nat, a);
    let y = x / pow2((b - a) as nat);
    let r = x % pow2((b - a) as nat);
    vstd::arithmetic::div_mod::lemma_fundamental_div_mod(x as int, pow2((b - a) as nat) as int);
    assert(x * pow2(a) == y * pow2(b) + r * pow2(a)) by (nonlinear_arith)
        requires
            x == pow2((b - a) as nat) * y + r,
            pow2(b) == pow2((b - a) as nat) * pow2(a),
    ;
    assert(r * pow2(a) < pow2(b)) by (nonlinear_arith)
        requires
            0 <= r < pow2((b - a) as nat),
            pow2(b) == pow2((b - a) as nat) * pow2(a),
            pow2(a) > 0,
    ;
    vstd::arithmetic::div_mod::lemma_fundamental_div_mod_converse(
        (x * pow2(a)) as int,
        pow2(b) as int,
        y as int,
        (r * pow2(a)) as int,
    );
}

/// The prefix of a code's first window is the prefix of the code.
pub proof fn lemma_start_prefix_short(c: Codeword, n: nat)
    requires
        n <= c.len <= 64,
    ensures
        block_start(c) / pow2((64 - n) as nat) == c.code / pow2((c.len - n) as nat),
{
    lemma_mul_div_down(c.code, (64 - c.len) as nat, (64 - n) as nat);
}

/// The prefix of a code's first window, past the code, is the code followed by zeros.
pub proof fn lemma_start_prefix_long(c: Codeword, n: nat)
    requires
        c.len <= n <= 64,
    ensures
        block_start(c) / pow2((64 - n) as nat) == c.code * pow2((n - c.len) as nat),
{
    lemma_mul_div(c.code, (64 - c.len) as nat, (64 - n) as nat);
}

/// A window in a code's block is the code's first window or later, before the next code's.
pub proof fn lemma_start_in_block(s: nat, c: Codeword)
    requires
        c.len <= 64,
        s / pow2((64 - c.len) as nat) == c.code,
    ensures
        block_start(c) <= s < block_start(c) + pow2((64 - c.len) as nat),
{
    let p = pow2((64 - c.len) as nat);
    lemma_pow2_pos((64 - c.len) as nat);
    vstd::arithmetic::div_mod::lemma_fundamental_div_mod(s as int, p as int);
    vstd::arithmetic::mul::lemma_mul_is_commutative(p as int, c.code as int);
}

/// No code's first window lies in another code's block.
pub proof fn lemma_start_outside(cs: Seq<Codeword>, i: int, j: int)
    requires
        canonical(cs),
        0 <= i < cs.len(),
        0 <= j < cs.len(),
        i != j,
    ensures
        block_start(cs[i]) / pow2((64 - cs[j].len) as nat) != cs[j].code,
{
    if block_start(cs[i]) / pow2((64 - cs[j].len) as nat) == cs[j].code {
        lemma_start_in_block(block_start(cs[i]), cs[j]);
        if i < j {
            super::codes::lemma_blocks_ordered(cs, i, j);
            lemma_pow2_pos((64 - cs[i].len) as nat);
        } else {
            super::codes::lemma_blocks_ordered(cs, j, i);
        }
    }
}


/// Facts about the prefix of a code's first window at the bytes of depth `d`.
pub proof fn lemma_prefix_facts(c: Codeword, d: nat)
    requires
        1 <= c.len <= 57,
        c.code < pow2(c.len),
        d <= 7,
    ensures
        c.len <= 8 * d + 8 ==> block_start(c) / entry_width(d) == c.code * pow2((8 * d + 8 - c.len) as nat),
        c.len > 8 * d + 8 ==> block_start(c) / entry_width(d) == c.code / pow2((c.len - 8 * d - 8) as nat),
        block_start(c) / table_width(d) == (block_start(c) / entry_width(d)) / 256,
        block_start(c) / entry_width(d) < pow2(8 * d + 8),
{
    if c.len <= 8 * d + 8 {
        lemma_start_prefix_long(c, 8 * d + 8);
        lemma_pow2_pos((8 * d + 8 - c.len) as nat);
        lemma_pow2_adds(c.len, (8 * d + 8 - c.len) as nat);
        assert(c.code * pow2((8 * d + 8 - c.len) as nat) < pow2(8 * d + 8)) by (nonlinear_arith)
            requires
                c.code < pow2(c.len),
                pow2(8 * d + 8) == pow2(c.len) * pow2((8 * d + 8 - c.len) as nat),
                pow2((8 * d + 8 - c.len) as nat) > 0,
        ;
    } else {
        lemma_start_prefix_short(c, 8 * d + 8);
        lemma_pow2_pos((c.len - 8 * d - 8) as nat);
        lemma_pow2_adds((8 * d + 8) as nat, (c.len - 8 * d - 8) as nat);
        vstd::arithmetic::div_mod::lemma_div_is_ordered(c.code as int, pow2(c.len) as int - 1, pow2((c.len - 8 * d - 8) as nat) as int);
        assert(pow2(c.len) == pow2(8 * d + 8) * pow2((c.len - 8 * d - 8) as nat));
        vstd::arithmetic::div_mod::lemma_div_multiples_vanish(pow2(8 * d + 8) as int, pow2((c.len - 8 * d - 8) as nat) as int);
        vstd::arithmetic::mul::lemma_mul_is_commutative(pow2(8 * d + 8) as int, pow2((c.len - 8 * d - 8) as nat) as int);
        assert((pow2(c.len) as int - 1) / (pow2((c.len - 8 * d - 8) as nat) as int) < pow2(8 * d + 8)) by {
            vstd::arithmetic::div_mod::lemma_div_is_ordered(pow2(c.len) as int - 1, pow2(c.len) as int, pow2((c.len - 8 * d - 8) as nat) as int);
            if (pow2(c.len) as int - 1) / (pow2((c.len - 8 * d - 8) as nat) as int) == pow2(8 * d + 8) {
                vstd::arithmetic::div_mod::lemma_fundamental_div_mod(pow2(c.len) as int - 1, pow2((c.len - 8 * d - 8) as nat) as int);
                assert(false) by (nonlinear_arith)
                    requires
                        pow2(c.len) as int - 1 == pow2((c.len - 8 * d - 8) as nat) * ((pow2(c.len) as int - 1) / (pow2((c.len - 8 * d - 8) as nat) as int)) + (pow2(c.len) as int - 1) % (pow2((c.len - 8 * d - 8) as nat) as int),
                        (pow2(c.len) as int - 1) / (pow2((c.len - 8 * d - 8) as nat) as int) == pow2(8 * d + 8),
                        pow2(c.len) == pow2(8 * d + 8) * pow2((c.len - 8 * d - 8) as nat),
                        (pow2(c.len) as int - 1) % (pow2((c.len - 8 * d - 8) as nat) as int) >= 0,
                ;
            }
        }
    }
    lemma_div_div(block_start(c), (56 - 8 * d) as nat, 8);
    assert((56 - 8 * d) as nat + 8 == (64 - 8 * d) as nat);
    vstd::arithmetic::power2::lemma2_to64();
}

/// An entry reached by the first window of code `j` at a depth its code outlasts lies
/// in no other code's block, and no other code with the same prefix passes it.
pub proof fn lemma_entry_prefix_of(cs: Seq<Codeword>, j: int, i: int, d: nat)
    requires
        canonical(cs),
        0 <= i < cs.len(),
        0 <= j < cs.len(),
        i != j,
        d <= 7,
    ensures
        !entry_in_code(block_start(cs[j]) / entry_width(d), d, cs[i]),
{
    let q0 = block_start(cs[j]) / entry_width(d);
    if entry_in_code(q0, d, cs[i]) {
        lemma_div_div(block_start(cs[j]), (56 - 8 * d) as nat, (8 * d + 8 - cs[i].len) as nat);
        assert((56 - 8 * d) as nat + (8 * d + 8 - cs[i].len) as nat == (64 - cs[i].len) as nat);
        lemma_start_outside(cs, j, i);
    }
}


proof fn lemma_split_prefix(p: nat, b: nat)
    requires
        b < 256,
    ensures
        (p * 256 + b) / 256 == p,
        (p * 256 + b) % 256 == b,
{
    vstd::arithmetic::div_mod::lemma_fundamental_div_mod_converse((p * 256 + b) as int, 256, p as int, b as int);
}

/// The entries of a fresh table under the entry `q0` at depth `d`, which no code covers or
/// passes, are covered or passed by none either.
proof fn lemma_fresh_entries(cs: Seq<Codeword>, m: int, q0: nat, d: nat, b: nat)
    requires
        canonical(cs),
        0 <= m <= cs.len(),
        d < 7,
        b < 256,
        !covered(cs, m, q0, d),
        !passed(cs, m, q0, d),
    ensures
        !covered(cs, m, q0 * 256 + b, d + 1),
        !passed(cs, m, q0 * 256 + b, d + 1),
{
    let q = q0 * 256 + b;
    lemma_split_prefix(q0, b);
    vstd::arithmetic::power2::lemma2_to64();
    if covered(cs, m, q, d + 1) {
        let i = choose|i: int| 0 <= i < m && #[trigger] entry_in_code(q, d + 1, cs[i]);
        let l = cs[i].len;
        if l <= 8 * d + 8 {
            lemma_div_div(q, 8, (8 * d + 8 - l) as nat);
            assert(8 + (8 * d + 8 - l) as nat == (8 * (d + 1) + 8 - l) as nat);
            assert(entry_in_code(q0, d, cs[i]));
        } else {
            lemma_prefix_facts(cs[i], d);
            lemma_div_div(q, (8 * (d + 1) + 8 - l) as nat, (l - 8 * d - 8) as nat);
            assert((8 * (d + 1) + 8 - l) as nat + (l - 8 * d - 8) as nat == 8);
            assert(code_through(q0, d, cs[i]));
        }
    }
    if passed(cs, m, q, d + 1) {
        let i = choose|i: int| 0 <= i < m && #[trigger] code_through(q, d + 1, cs[i]);
        lemma_div_div(block_start(cs[i]), (56 - 8 * (d + 1)) as nat, 8);
        assert((56 - 8 * (d + 1)) as nat + 8 == (56 - 8 * d) as nat);
        assert(code_through(q0, d, cs[i]));
    }
}

/// Moving the walk of code `j` one table down, through an existing or a fresh table, keeps
/// the tables as the codes need them.
pub proof fn lemma_descend<T: SortKey>(
    m0: Seq<Vec<Decode<T>>>,
    t0: Seq<(nat, nat)>,
    m1: Seq<Vec<Decode<T>>>,
    t1: Seq<(nat, nat)>,
    cs: Seq<Codeword>,
    j: int,
    k: int,
    d: nat,
    c: usize,
)
    requires
        canonical(cs),
        0 <= j < cs.len(),
        tables_ok(m0, t0, cs, j, j + 1, d),
        0 <= k < m0.len(),
        t0[k] == (block_start(cs[j]) / table_width(d), d),
        cs[j].len > 8 * d + 8,
        m1.len() == t1.len(),
        0 <= c < m1.len(),
        t1[c as int] == (block_start(cs[j]) / entry_width(d), d + 1),
        m1[k]@.len() == 256,
        m1[k]@[((block_start(cs[j]) / entry_width(d)) % 256) as int] == Decode::<T>::Further(c),
        forall|k2: int, b: int|
            0 <= k2 < m0.len() && 0 <= b < 256 && (k2 != k || b != (block_start(cs[j]) / entry_width(d)) % 256)
                ==> #[trigger] m1[k2]@[b] == m0[k2]@[b],
        forall|k2: int| 0 <= k2 < m0.len() && k2 != k ==> (#[trigger] m1[k2])@.len() == 256,
        m1.len() == m0.len() ==> t1 == t0 && m0[k]@[((block_start(cs[j]) / entry_width(d)) % 256) as int] == Decode::<T>::Further(c),
        m1.len() != m0.len() ==> {
            &&& m1.len() == m0.len() + 1
            &&& c == m0.len()
            &&& t1 == t0.push((block_start(cs[j]) / entry_width(d), d + 1))
            &&& m0[k]@[((block_start(cs[j]) / entry_width(d)) % 256) as int] is Void
            &&& m1[c as int]@.len() == 256
            &&& forall|b: int| 0 <= b < 256 ==> (#[trigger] m1[c as int]@[b]) is Void
        },
    ensures
        tables_ok(m1, t1, cs, j, j + 1, d + 1),
{
    let sj = block_start(cs[j]);
    let q0 = sj / entry_width(d);
    let byte = q0 % 256;
    let p = t0[k].0;
    lemma_prefix_facts(cs[j], d);
    vstd::arithmetic::div_mod::lemma_fundamental_div_mod(q0 as int, 256);
    assert(q0 == p * 256 + byte);
    assert(table_width(d + 1) == entry_width(d)) by {
        assert((64 - 8 * (d + 1)) as nat == (56 - 8 * d) as nat);
    }
    assert(!covered(cs, j, q0, d)) by {
        if covered(cs, j, q0, d) {
            let i = choose|i: int| 0 <= i < j && #[trigger] entry_in_code(q0, d, cs[i]);
            lemma_entry_prefix_of(cs, j, i, d);
        }
    }
    assert(entry_ok(m0[k]@[byte as int], t0, cs, j, p * 256 + byte, d));
    let fresh = m1.len() != m0.len();
    if fresh {
        assert(!passed(cs, j, q0, d));
    }
    assert(t1[0] == t0[0]);
    assert(m1.len() >= 1);
    assert(code_through(q0, d, cs[j]));
    assert(table_for(q0, d + 1, cs[j]));
    // Metas of existing tables are distinct from the fresh one.
    assert forall|k1: int, k2: int|
        0 <= k1 < k2 < t1.len() implies #[trigger] t1[k1] != #[trigger] t1[k2] by {
        if fresh && k2 == c as int {
            assert(t1[k1] == t0[k1]);
            if t0[k1] == (q0, d + 1) {
                assert(m0[k1]@.len() == 256);
                assert(needed(cs, j, q0, d + 1));
                let i = choose|i: int| 0 <= i < j && #[trigger] table_for(q0, d + 1, cs[i]);
                assert(code_through(q0, d, cs[i]));
            }
        } else {
            assert(t1[k1] == t0[k1] && t1[k2] == t0[k2]);
        }
    }
    assert forall|k2: int|
        0 <= k2 < m1.len() implies {
            &&& (#[trigger] m1[k2])@.len() == 256
            &&& t1[k2].1 <= 7
            &&& t1[k2].0 < pow2(8 * t1[k2].1)
            &&& needed(cs, if t1[k2].1 <= d + 1 { j + 1 } else { j }, t1[k2].0, t1[k2].1)
        } by {
        if fresh && k2 == c as int {
            assert(needed(cs, j + 1, q0, d + 1));
        } else {
            assert(t1[k2] == t0[k2]);
            assert(m0[k2]@.len() == 256);
            if t0[k2].1 == d + 1 {
                assert(needed(cs, j, t0[k2].0, t0[k2].1));
                if !(t0[k2].0 == 0 && t0[k2].1 == 0) {
                    let i = choose|i: int| 0 <= i < j && #[trigger] table_for(t0[k2].0, t0[k2].1, cs[i]);
                    assert(0 <= i < j + 1 && table_for(t0[k2].0, t0[k2].1, cs[i]));
                }
            }
        }
    }
    assert forall|k2: int, b: int|
        0 <= k2 < m1.len() && 0 <= b < 256 implies entry_ok(
            #[trigger] m1[k2]@[b],
            t1,
            cs,
            if t1[k2].1 < d + 1 { j + 1 } else { j },
            t1[k2].0 * 256 + b as nat,
            t1[k2].1,
        ) by {
        let q = t1[k2].0 * 256 + b as nat;
        lemma_split_prefix(t1[k2].0, b as nat);
        if fresh && k2 == c as int {
            lemma_fresh_entries(cs, j, q0, d, b as nat);
            assert(q == q0 * 256 + b as nat);
            assert(m1[k2]@[b] is Void);
            assert(entry_ok(m1[k2]@[b], t1, cs, j, q, d + 1));
        } else {
            assert(t1[k2] == t0[k2]);
            let e0 = m0[k2]@[b];
            assert(entry_ok(e0, t0, cs, if t0[k2].1 < d { j + 1 } else { j }, q, t0[k2].1));
            if t0[k2].1 == d {
                if k2 == k && b == byte {
                    assert(passed(cs, j + 1, q0, d));
                    if covered(cs, j + 1, q0, d) {
                        let i = choose|i: int| 0 <= i < j + 1 && #[trigger] entry_in_code(q0, d, cs[i]);
                        if i < j {
                            lemma_entry_prefix_of(cs, j, i, d);
                        }
                    }
                    assert(q == q0);
                    assert(entry_ok(m1[k2]@[b], t1, cs, j + 1, q, d));
                } else {
                    assert(m1[k2]@[b] == e0);
                    if covered(cs, j + 1, q, d) {
                        let i = choose|i: int| 0 <= i < j + 1 && #[trigger] entry_in_code(q, d, cs[i]);
                        assert(i != j);
                        assert(covered(cs, j, q, d));
                    }
                    if passed(cs, j + 1, q, d) && !passed(cs, j, q, d) {
                        let i = choose|i: int| 0 <= i < j + 1 && #[trigger] code_through(q, d, cs[i]);
                        assert(i == j);
                        assert(q == q0);
                        assert(t0[k2] == t0[k]);
                        if k2 != k {
                            if k2 < k {
                                assert(t0[k2] != t0[k]);
                            } else {
                                assert(t0[k] != t0[k2]);
                            }
                        }
                    }
                    if let Decode::Further(cc) = e0 {
                        assert(t1[cc as int] == t0[cc as int]);
                    }
                }
            } else {
                assert(m1[k2]@[b] == e0);
                if let Decode::Further(cc) = e0 {
                    assert(t1[cc as int] == t0[cc as int]);
                }
            }
        }
    }
}


/// Filling the entries that code `j` covers in the last table of its walk completes its
/// insertion.
pub proof fn lemma_fill<T: SortKey>(
    m0: Seq<Vec<Decode<T>>>,
    t0: Seq<(nat, nat)>,
    m1: Seq<Vec<Decode<T>>>,
    cs: Seq<Codeword>,
    j: int,
    k: int,
    d: nat,
)
    requires
        canonical(cs),
        0 <= j < cs.len(),
        tables_ok(m0, t0, cs, j, j + 1, d),
        0 <= k < m0.len(),
        t0[k] == (block_start(cs[j]) / table_width(d), d),
        8 * d < cs[j].len <= 8 * d + 8,
        m1.len() == m0.len(),
        forall|k2: int| 0 <= k2 < m0.len() && k2 != k ==> (#[trigger] m1[k2])@ == m0[k2]@,
        m1[k]@.len() == 256,
        forall|b: int|
            0 <= b < 256 ==> {
                let lo = (block_start(cs[j]) / entry_width(d)) % 256;
                if lo <= b < lo + pow2((8 * d + 8 - cs[j].len) as nat) {
                    (#[trigger] m1[k]@[b]) matches Decode::Symbol(s, r) && s.key() == cs[j].key && r == cs[j].len - 8 * d
                } else {
                    m1[k]@[b] == m0[k]@[b]
                }
            },
    ensures
        tables_ok(m1, t0, cs, j + 1, j + 1, 0),
{
    let sj = block_start(cs[j]);
    let l = cs[j].len;
    let q0 = sj / entry_width(d);
    let lo = q0 % 256;
    let p = t0[k].0;
    let e = (8 * d + 8 - l) as nat;
    let cnt = pow2(e);
    lemma_prefix_facts(cs[j], d);
    vstd::arithmetic::div_mod::lemma_fundamental_div_mod(q0 as int, 256);
    assert(q0 == p * 256 + lo);
    lemma_pow2_pos(e);
    // The covered entries all lie in this table, from `lo` on.
    assert forall|q: nat| #[trigger] entry_in_code(q, d, cs[j]) <==> q0 <= q < q0 + cnt by {
        assert(q0 == cs[j].code * cnt);
        if entry_in_code(q, d, cs[j]) {
            vstd::arithmetic::div_mod::lemma_fundamental_div_mod(q as int, cnt as int);
            vstd::arithmetic::mul::lemma_mul_is_commutative(cnt as int, cs[j].code as int);
        }
        if q0 <= q < q0 + cnt {
            vstd::arithmetic::div_mod::lemma_fundamental_div_mod_converse(
                q as int,
                cnt as int,
                cs[j].code as int,
                (q - q0) as int,
            );
            vstd::arithmetic::mul::lemma_mul_is_commutative(cnt as int, cs[j].code as int);
        }
    }
    assert(lo + cnt <= 256) by {
        let z = pow2((l - 8 * d) as nat);
        lemma_pow2_pos((l - 8 * d) as nat);
        lemma_pow2_adds(e, (l - 8 * d) as nat);
        assert(e + (l - 8 * d) as nat == 8);
        vstd::arithmetic::power2::lemma2_to64();
        assert(cnt * z == 256);
        vstd::arithmetic::div_mod::lemma_mod_breakdown(q0 as int, cnt as int, z as int);
        vstd::arithmetic::mul::lemma_mul_is_commutative(cs[j].code as int, cnt as int);
        vstd::arithmetic::div_mod::lemma_div_multiples_vanish(cs[j].code as int, cnt as int);
        vstd::arithmetic::div_mod::lemma_mod_multiples_basic(cs[j].code as int, cnt as int);
        let x = (q0 / cnt) % z;
        assert(q0 % 256 == cnt * x + q0 % cnt);
        assert(q0 % cnt == 0);
        assert(x <= z - 1);
        vstd::arithmetic::mul::lemma_mul_inequality(x as int, z - 1, cnt as int);
        vstd::arithmetic::mul::lemma_mul_is_commutative(x as int, cnt as int);
        vstd::arithmetic::mul::lemma_mul_is_commutative((z - 1) as int, cnt as int);
        vstd::arithmetic::mul::lemma_mul_is_distributive_sub(cnt as int, z as int, 1);
    }
    assert forall|k2: int|
        0 <= k2 < m1.len() implies {
            &&& (#[trigger] m1[k2])@.len() == 256
            &&& t0[k2].1 <= 7
            &&& t0[k2].0 < pow2(8 * t0[k2].1)
            &&& needed(cs, if t0[k2].1 <= 0 { j + 1 } else { j + 1 }, t0[k2].0, t0[k2].1)
        } by {
        assert(m0[k2]@.len() == 256);
        if !(t0[k2].0 == 0 && t0[k2].1 == 0) {
            let m = if t0[k2].1 <= d { j + 1 } else { j };
            assert(needed(cs, m, t0[k2].0, t0[k2].1));
            let i = choose|i: int| 0 <= i < m && #[trigger] table_for(t0[k2].0, t0[k2].1, cs[i]);
            assert(0 <= i < j + 1);
        }
    }
    assert forall|k2: int, b: int|
        0 <= k2 < m1.len() && 0 <= b < 256 implies entry_ok(
            #[trigger] m1[k2]@[b],
            t0,
            cs,
            if t0[k2].1 < 0 { j + 1 } else { j + 1 },
            t0[k2].0 * 256 + b as nat,
            t0[k2].1,
        ) by {
        let q = t0[k2].0 * 256 + b as nat;
        let d2 = t0[k2].1;
        lemma_split_prefix(t0[k2].0, b as nat);
        let e0 = m0[k2]@[b];
        assert(m0[k2]@.len() == 256);
        assert(entry_ok(e0, t0, cs, if d2 < d { j + 1 } else { j }, q, d2));
        if d2 < d {
            assert(m1[k2]@[b] == e0);
        } else if d2 == d {
            if k2 == k && lo <= b < lo + cnt {
                assert(entry_in_code(q, d, cs[j]));
            } else {
                assert(m1[k2]@[b] == e0);
                if entry_in_code(q, d, cs[j]) {
                    assert(q / 256 == q0 / 256);
                    assert(t0[k2] == t0[k]);
                    if k2 != k {
                        if k2 < k {
                            assert(t0[k2] != t0[k]);
                        } else {
                            assert(t0[k] != t0[k2]);
                        }
                    }
                }
                assert(!entry_in_code(q, d, cs[j]));
                assert(!code_through(q, d, cs[j]));
                if covered(cs, j + 1, q, d) {
                    let i = choose|i: int| 0 <= i < j + 1 && #[trigger] entry_in_code(q, d, cs[i]);
                    assert(covered(cs, j, q, d));
                }
                if passed(cs, j + 1, q, d) {
                    let i = choose|i: int| 0 <= i < j + 1 && #[trigger] code_through(q, d, cs[i]);
                    assert(passed(cs, j, q, d));
                }
            }
        } else {
            assert(m1[k2]@[b] == e0);
            assert(!code_through(q, d2, cs[j]));
            if entry_in_code(q, d2, cs[j]) {
                assert(needed(cs, j, t0[k2].0, d2));
                let i = choose|i: int| 0 <= i < j && #[trigger] table_for(t0[k2].0, d2, cs[i]);
                lemma_div_div(q, 8, (8 * d2 - l) as nat);
                assert(8 + (8 * d2 - l) as nat == (8 * d2 + 8 - l) as nat);
                lemma_div_div(block_start(cs[i]), (64 - 8 * d2) as nat, (8 * d2 - l) as nat);
                assert((64 - 8 * d2) as nat + (8 * d2 - l) as nat == (64 - l) as nat);
                lemma_start_outside(cs, i, j);
            }
            if covered(cs, j + 1, q, d2) {
                let i = choose|i: int| 0 <= i < j + 1 && #[trigger] entry_in_code(q, d2, cs[i]);
                assert(covered(cs, j, q, d2));
            }
            if passed(cs, j + 1, q, d2) {
                let i = choose|i: int| 0 <= i < j + 1 && #[trigger] code_through(q, d2, cs[i]);
                assert(passed(cs, j, q, d2));
            }
        }
    }
}


/// Byte-indexed decoding tables: table 0 reads the first byte of a code.
pub struct DecodeTables<T> {
    pub maps: Vec<Vec<Decode<T>>>,
    /// The prefix and depth each table stands for.
    pub meta: Ghost<Seq<(nat, nat)>>,
}

/// A table whose entries are all unfilled.
pub fn new_map<T>() -> (m: Vec<Decode<T>>)
    ensures
        m@.len() == 256,
        forall|b: int| 0 <= b < 256 ==> (#[trigger] m@[b]) is Void,
{
    let mut vec: Vec<Decode<T>> = Vec::with_capacity(256);
    let mut i: usize = 0;
    while i < 256
        invariant
            i <= 256,
            vec@.len() == i,
            forall|b: int| 0 <= b < i ==> (#[trigger] vec@[b]) is Void,
        decreases 256 - i,
    {
        vec.push(Decode::Void);
        i = i + 1;
    }
    vec
}

proof fn lemma_shifted_byte(s: u64, sh: u64)
    by (bit_vector)
    requires
        sh <= 56,
    ensures
        (s << sh) >> 56u64 == (s >> ((56 - sh) as u64)) & 0xff,
{
}

proof fn lemma_shifted_code(s: u64, sh: u64)
    by (bit_vector)
    requires
        sh <= 48,
    ensures
        (s << sh) << 8u64 == s << ((sh + 8) as u64),
{
}

proof fn lemma_byte_of(s: u64, d: nat)
    requires
        d <= 7,
    ensures
        (s >> ((56 - 8 * d) as u64)) & 0xff == (s as nat / entry_width(d)) % 256,
{
    vstd::bits::lemma_u64_shr_is_div(s, (56 - 8 * d) as u64);
    let x = s >> ((56 - 8 * d) as u64);
    vstd::bits::lemma_u64_low_bits_mask_is_mod(x, 8);
    vstd::bits::lemma_low_bits_mask_values();
    vstd::arithmetic::power2::lemma2_to64();
}

impl<T: SortKey> DecodeTables<T> {
    /// Tables with only the first table, unfilled.
    pub fn new() -> (r: Self)
        ensures
            r.maps@.len() == 1,
            r.meta@ == seq![(0nat, 0nat)],
            forall|b: int| 0 <= b < 256 ==> (#[trigger] r.maps@[0]@[b]) is Void,
            r.maps@[0]@.len() == 256,
            forall|cs: Seq<Codeword>| #[trigger] tables_ok(r.maps@, r.meta@, cs, 0, 0, 0),
    {
        let mut maps: Vec<Vec<Decode<T>>> = Vec::new();
        maps.push(new_map());
        let ghost meta = seq![(0nat, 0nat)];
        let r = DecodeTables { maps, meta: Ghost(meta) };
        proof {
            vstd::arithmetic::power2::lemma2_to64();
            assert forall|cs: Seq<Codeword>| #[trigger] tables_ok(r.maps@, r.meta@, cs, 0, 0, 0) by {
                assert forall|k2: int, b: int| 0 <= k2 < r.maps@.len() && 0 <= b < 256 implies entry_ok(
                    #[trigger] r.maps@[k2]@[b],
                    r.meta@,
                    cs,
                    0,
                    r.meta@[k2].0 * 256 + b as nat,
                    r.meta@[k2].1,
                ) by {
                    assert(r.maps@[k2]@[b] is Void);
                }
            }
        }
        r
    }

    /// Inserts the symbol of code `j`, whose first window is `code` and whose length is
    /// `bits`, walking down the tables and adding those it needs.
    pub fn insert_decode(
        &mut self,
        symbol: &T,
        bits: usize,
        code: u64,
        Ghost(cs): Ghost<Seq<Codeword>>,
        Ghost(j): Ghost<int>,
    )
        requires
            canonical(cs),
            0 <= j < cs.len(),
            tables_ok(old(self).maps@, old(self).meta@, cs, j, j, 0),
            symbol.key() == cs[j].key,
            bits == cs[j].len,
            code == block_start(cs[j]),
        ensures
            tables_ok(final(self).maps@, final(self).meta@, cs, j + 1, j + 1, 0),
    {
        let ghost s64: u64 = code;
        let ghost mut d: nat = 0;
        let mut k: usize = 0;
        let mut bits = bits;
        let mut code = code;
        proof {
            let maps = self.maps@;
            let meta = self.meta@;
            assert forall|k2: int|
                0 <= k2 < maps.len() implies needed(cs, if meta[k2].1 <= 0 { j + 1 } else { j }, meta[k2].0, meta[k2].1) by {
                assert(maps[k2]@.len() == 256);
                if meta[k2].1 == 0 {
                    assert(meta[k2].0 < pow2(0));
                    vstd::arithmetic::power2::lemma2_to64();
                } else {
                    assert(needed(cs, j, meta[k2].0, meta[k2].1));
                    let i = choose|i: int| 0 <= i < j && #[trigger] table_for(meta[k2].0, meta[k2].1, cs[i]);
                }
            }
            assert(code == s64 << 0u64) by (bit_vector)
                requires
                    code == s64,
            ;
            vstd::arithmetic::power2::lemma2_to64();
            lemma_div_div(block_start(cs[j]), 0, 64);
            vstd::arithmetic::power2::lemma_pow2_pos(64);
            super::bitstream::lemma_value_bound(Seq::<bool>::empty());
            assert(block_start(cs[j]) < pow2(64)) by {
                assert(code <= u64::MAX);
            }
        }
        loop
            invariant
                canonical(cs),
                0 <= j < cs.len(),
                symbol.key() == cs[j].key,
                tables_ok(self.maps@, self.meta@, cs, j, j + 1, d),
                0 <= k < self.maps@.len(),
                self.meta@[k as int] == (block_start(cs[j]) / table_width(d), d),
                8 * d < cs[j].len,
                bits == cs[j].len - 8 * d,
                d <= 7,
                code == s64 << ((8 * d) as u64),
                s64 == block_start(cs[j]),
            decreases 8 - d,
        {
            let ghost q0 = block_start(cs[j]) / entry_width(d);
            proof {
                lemma_shifted_byte(s64, (8 * d) as u64);
                lemma_byte_of(s64, d);
                assert((56 - (8 * d) as u64) as u64 == (56 - 8 * d) as u64);
                assert(self.maps@[k as int]@.len() == 256);
            }
            let byte = (code >> 56) as usize;
            assert(byte == q0 % 256);
            if bits <= 8 {
                proof {
                    vstd::arithmetic::power2::lemma2_to64();
                    vstd::bits::lemma_usize_pow2_no_overflow((8 - bits) as nat);
                    vstd::bits::lemma_usize_shl_is_mul(1, (8 - bits) as usize);
                    lemma_prefix_facts(cs[j], d);
                    lemma_pow2_pos((8 - bits) as nat);
                    assert((8 - bits) as nat == (8 * d + 8 - cs[j].len) as nat);
                }
                let count: usize = 1usize << (8 - bits);
                let ghost m0 = self.maps@;
                let ghost t0 = self.meta@;
                // The entries this code covers start at `byte` and stay within the table.
                proof {
                    assert(byte + count <= 256) by {
                        let cnt = pow2((8 * d + 8 - cs[j].len) as nat);
                        assert(count == cnt);
                        lemma_fill_range(cs[j], d);
                    }
                }
                let mut off: usize = 0;
                while off < count
                    invariant
                        0 <= off <= count,
                        byte + count <= 256,
                        0 <= k < m0.len(),
                        self.maps@.len() == m0.len(),
                        m0[k as int]@.len() == 256,
                        self.maps@[k as int]@.len() == 256,
                        forall|k2: int| 0 <= k2 < m0.len() && k2 != k ==> (#[trigger] self.maps@[k2])@ == m0[k2]@,
                        forall|b: int|
                            0 <= b < 256 ==> if byte <= b < byte + off {
                                (#[trigger] self.maps@[k as int]@[b]) matches Decode::Symbol(s, r) && s.key() == cs[j].key && r == bits
                            } else {
                                self.maps@[k as int]@[b] == m0[k as int]@[b]
                            },
                        symbol.key() == cs[j].key,
                        self.meta@ == t0,
                    decreases count - off,
                {
                    let s = symbol.key_clone();
                    self.maps[k].set(byte + off, Decode::Symbol(s, bits));
                    off = off + 1;
                }
                proof {
                    lemma_fill(m0, t0, self.maps@, cs, j, k as int, d);
                }
                return;
            }
            proof {
                lemma_prefix_facts(cs[j], d);
                vstd::arithmetic::div_mod::lemma_fundamental_div_mod(q0 as int, 256);
                assert(!covered(cs, j, q0, d)) by {
                    if covered(cs, j, q0, d) {
                        let i = choose|i: int| 0 <= i < j && #[trigger] entry_in_code(q0, d, cs[i]);
                        lemma_entry_prefix_of(cs, j, i, d);
                    }
                }
                assert(self.meta@[k as int].0 * 256 + byte as nat == q0);
            }
            let ghost m0 = self.maps@;
            let ghost t0 = self.meta@;
            let is_void = match &self.maps[k][byte] {
                Decode::Void => true,
                _ => false,
            };
            if is_void {
                let c = self.maps.len();
                self.maps.push(new_map());
                self.maps[k].set(byte, Decode::Further(c));
                proof {
                    self.meta@ = self.meta@.push((q0, d + 1));
                }
            }
            let next = match &self.maps[k][byte] {
                Decode::Further(c) => *c,
                _ => {
                    proof {
                        assert(false);
                    }
                    0
                },
            };
            proof {
                lemma_shifted_code(s64, (8 * d) as u64);
                lemma_descend(m0, t0, self.maps@, self.meta@, cs, j, k as int, d, next);
                assert(table_width(d + 1) == entry_width(d)) by {
                    assert((64 - 8 * (d + 1)) as nat == (56 - 8 * d) as nat);
                }
                assert(((8 * d) as u64 + 8) as u64 == (8 * (d + 1)) as u64);
            }
            k = next;
            bits = bits - 8;
            code = code << 8;
            proof {
                d = d + 1;
            }
        }
    }
}

/// The entries a code covers in the last table of its walk start at the byte of its first
/// window and stay within the table.
proof fn lemma_fill_range(c: Codeword, d: nat)
    requires
        1 <= c.len <= 57,
        c.code < pow2(c.len),
        d <= 7,
        8 * d < c.len <= 8 * d + 8,
    ensures
        (block_start(c) / entry_width(d)) % 256 + pow2((8 * d + 8 - c.len) as nat) <= 256,
{
    let q0 = block_start(c) / entry_width(d);
    let e = (8 * d + 8 - c.len) as nat;
    let cnt = pow2(e);
    let z = pow2((c.len - 8 * d) as nat);
    lemma_prefix_facts(c, d);
    lemma_pow2_pos(e);
    lemma_pow2_pos((c.len - 8 * d) as nat);
    lemma_pow2_adds(e, (c.len - 8 * d) as nat);
    assert(e + (c.len - 8 * d) as nat == 8);
    vstd::arithmetic::power2::lemma2_to64();
    assert(cnt * z == 256);
    vstd::arithmetic::div_mod::lemma_mod_breakdown(q0 as int, cnt as int, z as int);
    vstd::arithmetic::mul::lemma_mul_is_commutative(c.code as int, cnt as int);
    vstd::arithmetic::div_mod::lemma_div_multiples_vanish(c.code as int, cnt as int);
    vstd::arithmetic::div_mod::lemma_mod_multiples_basic(c.code as int, cnt as int);
    let x = (q0 / cnt) % z;
    assert(q0 % 256 == cnt * x + q0 % cnt);
    assert(q0 % cnt == 0);
    assert(x <= z - 1);
    vstd::arithmetic::mul::lemma_mul_inequality(x as int, z - 1, cnt as int);
    vstd::arithmetic::mul::lemma_mul_is_commutative(x as int, cnt as int);
    vstd::arithmetic::mul::lemma_mul_is_commutative((z - 1) as int, cnt as int);
    vstd::arithmetic::mul::lemma_mul_is_distributive_sub(cnt as int, z as int, 1);
}


/// In tables that hold all codes, the entry a window meets at depth `d`, on the way to the
/// code whose block holds the window, names that code if it ends within the entry's byte,
/// and leads to the next table otherwise.
pub proof fn lemma_lookup<T: SortKey>(
    maps: Seq<Vec<Decode<T>>>,
    meta: Seq<(nat, nat)>,
    cs: Seq<Codeword>,
    k: int,
    d: nat,
    w: nat,
    j: int,
)
    requires
        canonical(cs),
        0 <= j < cs.len(),
        tables_ok(maps, meta, cs, cs.len() as int, cs.len() as int, 0),
        0 <= k < maps.len(),
        meta[k] == (w / table_width(d), d),
        w / pow2((64 - cs[j].len) as nat) == cs[j].code,
        8 * d < cs[j].len,
    ensures
        d <= 7,
        maps[k]@.len() == 256,
        ({
            let e = maps[k]@[((w / entry_width(d)) % 256) as int];
            &&& cs[j].len <= 8 * d + 8 ==> (e matches Decode::Symbol(s, r) && s.key() == cs[j].key && cs[j].len == 8 * d + r
                && 1 <= r <= 8)
            &&& cs[j].len > 8 * d + 8 ==> (e matches Decode::Further(c) && 0 <= c < maps.len() && meta[c as int] == (
                w / table_width(d + 1),
                d + 1,
            ) && d + 1 <= 7)
        }),
{
    let n = cs.len() as int;
    let q = w / entry_width(d);
    let b = q % 256;
    assert(maps[k]@.len() == 256);
    lemma_div_div(w, (56 - 8 * d) as nat, 8);
    assert((56 - 8 * d) as nat + 8 == (64 - 8 * d) as nat);
    vstd::arithmetic::power2::lemma2_to64();
    vstd::arithmetic::div_mod::lemma_fundamental_div_mod(q as int, 256);
    assert(meta[k].0 * 256 + b == q);
    assert(entry_ok(maps[k]@[b as int], meta, cs, n, q, d));
    assert(table_width(d + 1) == entry_width(d)) by {
        assert((64 - 8 * (d + 1)) as nat == (56 - 8 * d) as nat);
    }
    lemma_start_in_block(w, cs[j]);
    // A code that contains the entry holds the window, so it is code `j`.
    assert forall|i: int| 0 <= i < n && #[trigger] entry_in_code(q, d, cs[i]) implies i == j by {
        lemma_div_div(w, (56 - 8 * d) as nat, (8 * d + 8 - cs[i].len) as nat);
        assert((56 - 8 * d) as nat + (8 * d + 8 - cs[i].len) as nat == (64 - cs[i].len) as nat);
        lemma_start_in_block(w, cs[i]);
        super::codes::lemma_block_unique(cs, w, i, j);
    }
    if cs[j].len <= 8 * d + 8 {
        lemma_div_div(w, (56 - 8 * d) as nat, (8 * d + 8 - cs[j].len) as nat);
        assert((56 - 8 * d) as nat + (8 * d + 8 - cs[j].len) as nat == (64 - cs[j].len) as nat);
        assert(entry_in_code(q, d, cs[j]));
    } else {
        lemma_prefix_facts(cs[j], d);
        lemma_div_div(w, (64 - cs[j].len) as nat, (cs[j].len - 8 * d - 8) as nat);
        assert((64 - cs[j].len) as nat + (cs[j].len - 8 * d - 8) as nat == (56 - 8 * d) as nat);
        assert(code_through(q, d, cs[j]));
        if covered(cs, n, q, d) {
            let i = choose|i: int| 0 <= i < n && #[trigger] entry_in_code(q, d, cs[i]);
            assert(i == j);
        }
    }
}

} // verus!
