//! Keys that verified code can compare, sort and consolidate.
use vstd::prelude::*;

verus! {

/// Lexicographic order on sequences of integers: `a` sorts strictly before `b`.
pub open spec fn lex_lt(a: Seq<int>, b: Seq<int>) -> bool
    decreases a.len(),
{
    if a.len() == 0 {
        b.len() > 0
    } else if b.len() == 0 {
        false
    } else if a[0] < b[0] {
        true
    } else if a[0] > b[0] {
        false
    } else {
        lex_lt(a.drop_first(), b.drop_first())
    }
}

/// No sequence sorts before itself.
pub proof fn lemma_lex_irreflexive(a: Seq<int>)
    ensures
        !lex_lt(a, a),
    decreases a.len(),
{
    if a.len() > 0 {
        lemma_lex_irreflexive(a.drop_first());
    }
}

/// The order is transitive.
pub proof fn lemma_lex_transitive(a: Seq<int>, b: Seq<int>, c: Seq<int>)
    requires
        lex_lt(a, b),
        lex_lt(b, c),
    ensures
        lex_lt(a, c),
    decreases a.len(),
{
    if a.len() > 0 && b.len() > 0 && c.len() > 0 && a[0] == b[0] && b[0] == c[0] {
        lemma_lex_transitive(a.drop_first(), b.drop_first(), c.drop_first());
    }
}

/// Two different sequences are ordered one way or the other.
pub proof fn lemma_lex_total(a: Seq<int>, b: Seq<int>)
    ensures
        a == b || lex_lt(a, b) || lex_lt(b, a),
    decreases a.len(),
{
    if a.len() > 0 && b.len() > 0 && a[0] == b[0] {
        lemma_lex_total(a.drop_first(), b.drop_first());
        if a.drop_first() == b.drop_first() {
            assert(a =~= seq![a[0]] + a.drop_first());
            assert(b =~= seq![b[0]] + b.drop_first());
        }
    } else if a.len() == 0 && b.len() == 0 {
        assert(a =~= b);
    }
}

/// A sequence does not sort before a sequence that sorts before it.
pub proof fn lemma_lex_asymmetric(a: Seq<int>, b: Seq<int>)
    ensures
        lex_lt(a, b) ==> !lex_lt(b, a),
{
    if lex_lt(a, b) && lex_lt(b, a) {
        lemma_lex_transitive(a, b, a);
        lemma_lex_irreflexive(a);
    }
}

/// Singletons compare as their elements do.
pub proof fn lemma_lex_singleton(x: int, y: int)
    ensures
        lex_lt(seq![x], seq![y]) == (x < y),
{
    reveal_with_fuel(lex_lt, 2);
    assert(seq![x].drop_first() =~= Seq::<int>::empty());
    assert(seq![y].drop_first() =~= Seq::<int>::empty());
}

/// A key of a sort: the sequence of integers by which it is compared.
pub trait SortKey: Sized {
    /// The sequence of integers that orders and identifies the key.
    spec fn key(&self) -> Seq<int>;

    /// Returns whether `self` sorts strictly before `other`.
    fn key_lt(&self, other: &Self) -> (r: bool)
        ensures
            r == lex_lt(self.key(), other.key()),
    ;

    /// Returns whether `self` and `other` are the same key.
    fn key_eq(&self, other: &Self) -> (r: bool)
        ensures
            r == (self.key() == other.key()),
    ;

    /// Returns a copy of the key.
    fn key_clone(&self) -> (r: Self)
        ensures
            r.key() == self.key(),
    ;
}

impl SortKey for u8 {
    open spec fn key(&self) -> Seq<int> {
        seq![*self as int]
    }

    fn key_lt(&self, other: &Self) -> (r: bool) {
        proof {
            lemma_lex_singleton(*self as int, *other as int);
        }
        *self < *other
    }

    fn key_eq(&self, other: &Self) -> (r: bool) {
        proof {
            if self.key() == other.key() {
                assert(self.key()[0] == other.key()[0]);
            }
        }
        *self == *other
    }

    fn key_clone(&self) -> (r: Self) {
        *self
    }
}

impl SortKey for u32 {
    open spec fn key(&self) -> Seq<int> {
        seq![*self as int]
    }

    fn key_lt(&self, other: &Self) -> (r: bool) {
        proof {
            lemma_lex_singleton(*self as int, *other as int);
        }
        *self < *other
    }

    fn key_eq(&self, other: &Self) -> (r: bool) {
        proof {
            if self.key() == other.key() {
                assert(self.key()[0] == other.key()[0]);
            }
        }
        *self == *other
    }

    fn key_clone(&self) -> (r: Self) {
        *self
    }
}

impl SortKey for u64 {
    open spec fn key(&self) -> Seq<int> {
        seq![*self as int]
    }

    fn key_lt(&self, other: &Self) -> (r: bool) {
        proof {
            lemma_lex_singleton(*self as int, *other as int);
        }
        *self < *other
    }

    fn key_eq(&self, other: &Self) -> (r: bool) {
        proof {
            if self.key() == other.key() {
                assert(self.key()[0] == other.key()[0]);
            }
        }
        *self == *other
    }

    fn key_clone(&self) -> (r: Self) {
        *self
    }
}

impl SortKey for i64 {
    open spec fn key(&self) -> Seq<int> {
        seq![*self as int]
    }

    fn key_lt(&self, other: &Self) -> (r: bool) {
        proof {
            lemma_lex_singleton(*self as int, *other as int);
        }
        *self < *other
    }

    fn key_eq(&self, other: &Self) -> (r: bool) {
        proof {
            if self.key() == other.key() {
                assert(self.key()[0] == other.key()[0]);
            }
        }
        *self == *other
    }

    fn key_clone(&self) -> (r: Self) {
        *self
    }
}

impl SortKey for usize {
    open spec fn key(&self) -> Seq<int> {
        seq![*self as int]
    }

    fn key_lt(&self, other: &Self) -> (r: bool) {
        proof {
            lemma_lex_singleton(*self as int, *other as int);
        }
        *self < *other
    }

    fn key_eq(&self, other: &Self) -> (r: bool) {
        proof {
            if self.key() == other.key() {
                assert(self.key()[0] == other.key()[0]);
            }
        }
        *self == *other
    }

    fn key_clone(&self) -> (r: Self) {
        *self
    }
}

/// The bytes of a sequence as integers.
pub open spec fn bytes_key(b: Seq<u8>) -> Seq<int> {
    b.map_values(|x: u8| x as int)
}

/// Byte sequences with the same key are the same sequence.
pub proof fn lemma_bytes_key_injective(a: Seq<u8>, b: Seq<u8>)
    requires
        bytes_key(a) == bytes_key(b),
    ensures
        a == b,
{
    assert(bytes_key(a).len() == a.len());
    assert(bytes_key(b).len() == b.len());
    assert forall|i: int| 0 <= i < a.len() implies a[i] == b[i] by {
        assert(bytes_key(a)[i] == a[i] as int);
        assert(bytes_key(b)[i] == b[i] as int);
    }
    assert(a =~= b);
}

/// Compares byte sequences lexicographically from position `i`, which both share up to.
fn bytes_lt_from(a: &[u8], b: &[u8], i: usize) -> (r: bool)
    requires
        i <= a@.len(),
        i <= b@.len(),
    ensures
        r == lex_lt(bytes_key(a@).skip(i as int), bytes_key(b@).skip(i as int)),
    decreases a@.len() - i,
{
    let ghost ka = bytes_key(a@).skip(i as int);
    let ghost kb = bytes_key(b@).skip(i as int);
    if i == a.len() {
        return i < b.len();
    }
    if i == b.len() {
        return false;
    }
    assert(ka[0] == a@[i as int] as int);
    assert(kb[0] == b@[i as int] as int);
    if a[i] < b[i] {
        return true;
    }
    if a[i] > b[i] {
        return false;
    }
    assert(ka.drop_first() =~= bytes_key(a@).skip(i + 1));
    assert(kb.drop_first() =~= bytes_key(b@).skip(i + 1));
    bytes_lt_from(a, b, i + 1)
}

impl SortKey for Vec<u8> {
    open spec fn key(&self) -> Seq<int> {
        bytes_key(self@)
    }

    fn key_lt(&self, other: &Self) -> (r: bool) {
        assert(bytes_key(self@).skip(0) =~= bytes_key(self@));
        assert(bytes_key(other@).skip(0) =~= bytes_key(other@));
        bytes_lt_from(self.as_slice(), other.as_slice(), 0)
    }

    fn key_eq(&self, other: &Self) -> (r: bool) {
        let r = crate::impls::deduplicate::bytes_eq(self.as_slice(), other.as_slice());
        proof {
            if self.key() == other.key() {
                lemma_bytes_key_injective(self@, other@);
            }
        }
        r
    }

    fn key_clone(&self) -> (r: Self) {
        let mut v: Vec<u8> = Vec::new();
        crate::impls::storage::push_slice(&mut v, self.as_slice());
        v
    }
}

} // verus!
