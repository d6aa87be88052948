//! Complete codes fill every decoding table entry.
use super::codes::{block_start, block_width, canonical, complete, in_block, Codeword};
use super::tables::{
    code_through, covered, entry_in_code, entry_ok, entry_width, lemma_mul_div, lemma_mul_div_down, passed,
    tables_ok, Decode,
};
use crate::order::SortKey;
use vstd::arithmetic::power2::{lemma_pow2_adds, lemma_pow2_pos, pow2};
use vstd::prelude::*;

verus! {

/// A window before the end of the block of code `j` lies in the block of that code or of
/// an earlier one.
proof fn lemma_window_in_block(cs: Seq<Codeword>, w: nat, j: int)
    requires
        canonical(cs),
        0 <= j < cs.len(),
        w < block_start(cs[j]) + block_width(cs[j]),
    ensures
        exists|i: int| 0 <= i <= j && #[trigger] in_block(w, cs[i]),
    decreases j,
{
    if w >= block_start(cs[j]) {
        assert(in_block(w, cs[j]));
    } else {
        assert(j > 0);
        assert(block_start(cs[(j - 1) + 1]) == block_start(cs[j - 1]) + block_width(cs[j - 1]));
        lemma_window_in_block(cs, w, j - 1);
        let i = choose|i: int| 0 <= i <= j - 1 && #[trigger] in_block(w, cs[i]);
        assert(in_block(w, cs[i]));
    }
}

/// Tables that hold a code covering every window have a meaning for every entry: each
/// names a symbol or leads to a further table.
pub proof fn lemma_no_void<T: SortKey>(maps: Seq<Vec<Decode<T>>>, meta: Seq<(nat, nat)>, cs: Seq<Codeword>)
    requires
        canonical(cs),
        complete(cs),
        tables_ok(maps, meta, cs, cs.len() as int, cs.len() as int, 0),
    ensures
        forall|k: int, b: int| 0 <= k < maps.len() && 0 <= b < 256 ==> !(#[trigger] maps[k]@[b] is Void),
{
    assert forall|k: int, b: int| 0 <= k < maps.len() && 0 <= b < 256 implies !(#[trigger] maps[k]@[b] is Void) by {
        let n = cs.len() as int;
        let d = meta[k].1;
        let p = meta[k].0;
        let q = p * 256 + b as nat;
        assert(entry_ok(maps[k]@[b], meta, cs, n, q, d));
        vstd::arithmetic::power2::lemma2_to64();
        lemma_pow2_adds(8 * d, 8);
        assert(q < pow2(8 * d + 8)) by (nonlinear_arith)
            requires
                p < pow2(8 * d),
                0 <= b < 256,
                q == p * 256 + b,
                pow2(8 * d + 8) == pow2(8 * d) * 256,
        ;
        let a = (56 - 8 * d) as nat;
        let w = q * pow2(a);
        lemma_pow2_adds(8 * d + 8, a);
        assert((8 * d + 8) + a == 64);
        lemma_pow2_pos(a);
        assert(w < pow2(64)) by (nonlinear_arith)
            requires
                pow2(a) > 0,
                q < pow2(8 * d + 8),
                w == q * pow2(a),
                pow2(64) == pow2(8 * d + 8) * pow2(a),
        ;
        lemma_window_in_block(cs, w, n - 1);
        let j = choose|i: int| 0 <= i <= n - 1 && #[trigger] in_block(w, cs[i]);
        let c = cs[j];
        let e = (64 - c.len) as nat;
        lemma_pow2_pos(e);
        vstd::arithmetic::div_mod::lemma_fundamental_div_mod_converse(
            w as int,
            pow2(e) as int,
            c.code as int,
            (w - block_start(c)) as int,
        );
        vstd::arithmetic::mul::lemma_mul_is_commutative(pow2(e) as int, c.code as int);
        assert(w / pow2(e) == c.code);
        if c.len <= 8 * d + 8 {
            lemma_mul_div_down(q, a, e);
            assert((e - a) as nat == (8 * d + 8 - c.len) as nat);
            assert(entry_in_code(q, d, cs[j]));
            assert(covered(cs, n, q, d));
        } else {
            lemma_mul_div(q, a, e);
            let f = (a - e) as nat;
            assert(c.code == q * pow2(f));
            lemma_pow2_adds(f, e);
            assert(f + e == a);
            assert(block_start(c) == w) by (nonlinear_arith)
                requires
                    block_start(c) == c.code * pow2(e),
                    c.code == q * pow2(f),
                    pow2(a) == pow2(f) * pow2(e),
                    w == q * pow2(a),
            ;
            lemma_pow2_pos(a);
            vstd::arithmetic::div_mod::lemma_div_by_multiple(q as int, pow2(a) as int);
            assert(block_start(c) / entry_width(d) == q);
            assert(code_through(q, d, cs[j]));
            assert(passed(cs, n, q, d));
        }
    }
}

} // verus!
