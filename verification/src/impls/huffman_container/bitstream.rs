//! Bit strings, most significant bit first, and the numbers they denote.
use vstd::arithmetic::div_mod::lemma_fundamental_div_mod_converse;
use vstd::arithmetic::power2::{lemma_pow2_adds, lemma_pow2_pos, lemma_pow2_unfold, pow2};
use vstd::prelude::*;

verus! {

/// The number a string of bits denotes, most significant bit first.
pub open spec fn bits_value(s: Seq<bool>) -> nat
    decreases s.len(),
{
    if s.len() == 0 {
        0
    } else {
        bits_value(s.drop_last()) * 2 + (if s.last() {
            1nat
        } else {
            0nat
        })
    }
}

/// The `n` low bits of `x`, most significant bit first.
pub open spec fn bits_of(x: nat, n: nat) -> Seq<bool>
    decreases n,
{
    if n == 0 {
        Seq::empty()
    } else {
        bits_of(x / 2, (n - 1) as nat).push(x % 2 == 1)
    }
}

/// The first 64 bits of `s`, padded with zero bits where `s` is shorter.
pub open spec fn padded64(s: Seq<bool>) -> Seq<bool> {
    if s.len() >= 64 {
        s.take(64)
    } else {
        s + Seq::new((64 - s.len()) as nat, |i: int| false)
    }
}

/// The number the first 64 bits of `s` denote, where `s` is padded with zero bits.
pub open spec fn window(s: Seq<bool>) -> nat {
    bits_value(padded64(s))
}

pub proof fn lemma_bits_of_len(x: nat, n: nat)
    ensures
        bits_of(x, n).len() == n,
    decreases n,
{
    if n > 0 {
        lemma_bits_of_len(x / 2, (n - 1) as nat);
    }
}

pub proof fn lemma_value_bound(s: Seq<bool>)
    ensures
        bits_value(s) < pow2(s.len()),
    decreases s.len(),
{
    if s.len() == 0 {
        vstd::arithmetic::power2::lemma2_to64();
    } else {
        lemma_value_bound(s.drop_last());
        lemma_pow2_unfold(s.len());
    }
}

pub proof fn lemma_value_of_bits(x: nat, n: nat)
    ensures
        bits_value(bits_of(x, n)) == x % pow2(n),
    decreases n,
{
    lemma_bits_of_len(x, n);
    if n == 0 {
        vstd::arithmetic::power2::lemma2_to64();
    } else {
        let m = (n - 1) as nat;
        lemma_value_of_bits(x / 2, m);
        assert(bits_of(x, n).drop_last() == bits_of(x / 2, m));
        lemma_pow2_unfold(n);
        lemma_pow2_pos(m);
        vstd::arithmetic::div_mod::lemma_mod_breakdown(x as int, 2, pow2(m) as int);
        vstd::arithmetic::mul::lemma_mul_is_commutative(2, pow2(m) as int);
    }
}

pub proof fn lemma_bits_of_value(s: Seq<bool>)
    ensures
        bits_of(bits_value(s), s.len()) == s,
    decreases s.len(),
{
    if s.len() > 0 {
        let t = s.drop_last();
        lemma_bits_of_value(t);
        let v = bits_value(s);
        assert(v / 2 == bits_value(t));
        assert(v % 2 == 1 <==> s.last());
        assert(s == t.push(s.last()));
    }
}

pub proof fn lemma_value_concat(a: Seq<bool>, b: Seq<bool>)
    ensures
        bits_value(a + b) == bits_value(a) * pow2(b.len()) + bits_value(b),
    decreases b.len(),
{
    if b.len() == 0 {
        assert(a + b == a);
        vstd::arithmetic::power2::lemma2_to64();
        assert(bits_value(a + b) == bits_value(a) * pow2(b.len()) + bits_value(b));
    } else {
        let c = b.drop_last();
        lemma_value_concat(a, c);
        assert((a + b).drop_last() == a + c);
        assert((a + b).last() == b.last());
        lemma_pow2_unfold(b.len());
        let x = bits_value(a);
        let p = pow2(c.len());
        assert((x * p + bits_value(c)) * 2 == x * (2 * p) + bits_value(c) * 2) by (nonlinear_arith);
        assert(b.drop_last() == c);
        assert(bits_value(a + b) == bits_value(a + c) * 2 + (if b.last() { 1nat } else { 0nat }));
        assert(bits_value(b) == bits_value(c) * 2 + (if b.last() { 1nat } else { 0nat }));
        assert(pow2(b.len()) == 2 * p);
        assert(x * pow2(b.len()) == x * (2 * p));
        assert(bits_value(a + b) == bits_value(a) * pow2(b.len()) + bits_value(b));
    }
}

/// Joining two bit strings joins the numbers they denote.
pub proof fn lemma_bits_of_concat(x: nat, n: nat, y: nat, m: nat)
    requires
        x < pow2(n),
        y < pow2(m),
    ensures
        bits_of(x * pow2(m) + y, n + m) == bits_of(x, n) + bits_of(y, m),
{
    let s = bits_of(x, n) + bits_of(y, m);
    lemma_bits_of_len(x, n);
    lemma_bits_of_len(y, m);
    lemma_value_concat(bits_of(x, n), bits_of(y, m));
    lemma_value_of_bits(x, n);
    lemma_value_of_bits(y, m);
    vstd::arithmetic::div_mod::lemma_small_mod(x, pow2(n));
    vstd::arithmetic::div_mod::lemma_small_mod(y, pow2(m));
    lemma_bits_of_value(s);
}

/// The first `k` bits of a bit string denote its number divided by the weight of the rest,
/// and the rest denotes the remainder.
pub proof fn lemma_value_split(s: Seq<bool>, k: nat)
    requires
        k <= s.len(),
    ensures
        bits_value(s.take(k as int)) == bits_value(s) / pow2((s.len() - k) as nat),
        bits_value(s.skip(k as int)) == bits_value(s) % pow2((s.len() - k) as nat),
{
    let a = s.take(k as int);
    let b = s.skip(k as int);
    assert(a + b == s);
    lemma_value_concat(a, b);
    lemma_value_bound(b);
    lemma_pow2_pos(b.len());
    lemma_fundamental_div_mod_converse(
        bits_value(s) as int,
        pow2(b.len()) as int,
        bits_value(a) as int,
        bits_value(b) as int,
    );
}

/// Splitting the bits of a number splits the number by a power of two.
pub proof fn lemma_bits_of_split(x: nat, n: nat, k: nat)
    requires
        x < pow2(n),
        k <= n,
    ensures
        bits_of(x, n).take(k as int) == bits_of(x / pow2((n - k) as nat), k),
        bits_of(x, n).skip(k as int) == bits_of(x % pow2((n - k) as nat), (n - k) as nat),
{
    let s = bits_of(x, n);
    lemma_bits_of_len(x, n);
    lemma_value_of_bits(x, n);
    vstd::arithmetic::div_mod::lemma_small_mod(x, pow2(n));
    lemma_value_split(s, k);
    lemma_bits_of_value(s.take(k as int));
    lemma_bits_of_value(s.skip(k as int));
}

/// The first `l` bits of a bit string are the bits of its window divided by the weight of
/// the other `64 - l`.
pub proof fn lemma_window_prefix(s: Seq<bool>, l: nat)
    requires
        l <= s.len(),
        l <= 64,
    ensures
        window(s) / pow2((64 - l) as nat) == bits_value(s.take(l as int)),
        window(s) < pow2(64),
{
    let p = padded64(s);
    assert(p.len() == 64);
    assert(p.take(l as int) == s.take(l as int));
    lemma_value_split(p, l);
    lemma_value_bound(p);
}


/// The bits of a byte string, each byte most significant bit first.
pub open spec fn bytes_bits(bytes: Seq<u8>) -> Seq<bool>
    decreases bytes.len(),
{
    if bytes.len() == 0 {
        Seq::empty()
    } else {
        bytes_bits(bytes.drop_last()) + bits_of(bytes.last() as nat, 8)
    }
}

pub proof fn lemma_bytes_bits_len(bytes: Seq<u8>)
    ensures
        bytes_bits(bytes).len() == 8 * bytes.len(),
    decreases bytes.len(),
{
    if bytes.len() > 0 {
        lemma_bytes_bits_len(bytes.drop_last());
        lemma_bits_of_len(bytes.last() as nat, 8);
    }
}

pub proof fn lemma_bytes_bits_push(bytes: Seq<u8>, b: u8)
    ensures
        bytes_bits(bytes.push(b)) == bytes_bits(bytes) + bits_of(b as nat, 8),
{
    assert(bytes.push(b).drop_last() == bytes);
}

/// The bits of byte `i` of a byte string.
pub proof fn lemma_bytes_bits_byte(bytes: Seq<u8>, i: int)
    requires
        0 <= i < bytes.len(),
    ensures
        bytes_bits(bytes).subrange(8 * i, 8 * i + 8) == bits_of(bytes[i] as nat, 8),
    decreases bytes.len(),
{
    lemma_bytes_bits_len(bytes.drop_last());
    lemma_bits_of_len(bytes.last() as nat, 8);
    let a = bytes_bits(bytes.drop_last());
    let b = bits_of(bytes.last() as nat, 8);
    if i == bytes.len() - 1 {
        assert((a + b).subrange(8 * i, 8 * i + 8) == b);
    } else {
        lemma_bytes_bits_byte(bytes.drop_last(), i);
        assert((a + b).subrange(8 * i, 8 * i + 8) == a.subrange(8 * i, 8 * i + 8));
    }
}


/// `n` zero bits.
pub open spec fn zeros(n: nat) -> Seq<bool> {
    Seq::new(n, |i: int| false)
}

pub proof fn lemma_zeros_value(n: nat)
    ensures
        bits_value(zeros(n)) == 0,
    decreases n,
{
    if n > 0 {
        assert(zeros(n).drop_last() == zeros((n - 1) as nat));
        lemma_zeros_value((n - 1) as nat);
    }
}

/// The first eight bits of `s`, padded with zero bits where `s` is shorter.
pub open spec fn padded8(s: Seq<bool>) -> Seq<bool> {
    if s.len() >= 8 {
        s.take(8)
    } else {
        s + zeros((8 - s.len()) as nat)
    }
}

/// Byte `d` of the window of `s` is the padded byte of `s` that starts after `8 * d` bits.
pub proof fn lemma_window_byte(s: Seq<bool>, d: nat)
    requires
        d <= 7,
        8 * d <= s.len(),
    ensures
        (window(s) / pow2((56 - 8 * d) as nat)) % 256 == bits_value(padded8(s.skip(8 * d as int))),
{
    let p = padded64(s);
    assert(p.len() == 64);
    lemma_value_split(p, 8 * d + 8);
    assert((64 - (8 * d + 8)) as nat == (56 - 8 * d) as nat);
    let t = p.take(8 * d as int + 8);
    lemma_value_split(t, 8 * d);
    assert((t.len() - 8 * d) as nat == 8);
    vstd::arithmetic::power2::lemma2_to64();
    assert(t.skip(8 * d as int) == padded8(s.skip(8 * d as int)));
}

/// The value of the first eight padded bits.
pub proof fn lemma_padded8_value(s: Seq<bool>)
    ensures
        s.len() >= 8 ==> bits_value(padded8(s)) == bits_value(s.take(8)),
        s.len() < 8 ==> bits_value(padded8(s)) == bits_value(s) * pow2((8 - s.len()) as nat),
{
    if s.len() < 8 {
        lemma_value_concat(s, zeros((8 - s.len()) as nat));
        lemma_zeros_value((8 - s.len()) as nat);
    }
}

} // verus!
