//! Strict total orders, and the lexicographic order on byte keys.

use vstd::prelude::*;

verus! {

/// The outcome of comparing two values.
#[derive(Debug, Clone, Copy, PartialEq, Eq)]
pub enum Comparison {
    Less,
    Equal,
    Greater,
}

/// A type with a strict total order that agrees with equality: of two
/// values exactly one is the case, `a.lt(b)`, `a == b` or `b.lt(a)`.
pub trait TotalOrder: Sized + Copy {
    /// `self` comes strictly before `other`.
    spec fn lt(self, other: Self) -> bool;

    /// Nothing comes before itself.
    proof fn lemma_irreflexive(a: Self)
        ensures
            !a.lt(a),
    ;

    /// Coming before carries over.
    proof fn lemma_transitive(a: Self, b: Self, c: Self)
        requires
            a.lt(b),
            b.lt(c),
        ensures
            a.lt(c),
    ;

    /// Two values that differ are ordered one way or the other.
    proof fn lemma_connected(a: Self, b: Self)
        ensures
            a.lt(b) || a == b || b.lt(a),
    ;

    /// Three-way comparison under `lt`.
    fn compare(&self, other: &Self) -> (c: Comparison)
        ensures
            c == Comparison::Less <==> self.lt(*other),
            c == Comparison::Equal <==> *self == *other,
            c == Comparison::Greater <==> other.lt(*self),
    ;
}

/// `a.lt(b)` and `b.lt(a)` never hold together.
pub proof fn lemma_asymmetric<T: TotalOrder>(a: T, b: T)
    requires
        a.lt(b),
    ensures
        !b.lt(a),
        a != b,
{
    T::lemma_irreflexive(a);
    if b.lt(a) {
        T::lemma_transitive(a, b, a);
    }
}

/// The two keys hold the same byte at every index below `k`.
pub open spec fn agree_before(a: Seq<u8>, b: Seq<u8>, k: int) -> bool {
    forall|j: int| 0 <= j < k ==> a[j] == b[j]
}

/// Lexicographic order on keys: at the first index where they differ, `a`
/// holds the smaller byte.
pub open spec fn lex_lt(a: Seq<u8>, b: Seq<u8>) -> bool {
    exists|k: int|
        0 <= k < a.len() && k < b.len() && #[trigger] agree_before(a, b, k) && a[k] < b[k]
}

/// No key comes before itself.
pub proof fn lemma_lex_irreflexive(a: Seq<u8>)
    ensures
        !lex_lt(a, a),
{
}

/// Coming before carries over: the earlier of the two first differences decides.
pub proof fn lemma_lex_transitive(a: Seq<u8>, b: Seq<u8>, c: Seq<u8>)
    requires
        lex_lt(a, b),
        lex_lt(b, c),
    ensures
        lex_lt(a, c),
{
    let k1 = choose|k: int|
        0 <= k < a.len() && k < b.len() && #[trigger] agree_before(a, b, k) && a[k] < b[k];
    let k2 = choose|k: int|
        0 <= k < b.len() && k < c.len() && #[trigger] agree_before(b, c, k) && b[k] < c[k];
    if k1 <= k2 {
        assert(agree_before(a, c, k1));
    } else {
        assert(agree_before(a, c, k2));
    }
}

/// Keys of one length that agree below `k` are ordered one way or the other,
/// or are the same key.
pub proof fn lemma_lex_connected_from(a: Seq<u8>, b: Seq<u8>, k: int)
    requires
        a.len() == b.len(),
        0 <= k <= a.len(),
        agree_before(a, b, k),
    ensures
        lex_lt(a, b) || a == b || lex_lt(b, a),
    decreases a.len() - k,
{
    if k == a.len() {
        assert(a =~= b);
    } else if a[k] < b[k] {
    } else if b[k] < a[k] {
        assert(agree_before(b, a, k));
    } else {
        assert(agree_before(a, b, k + 1));
        lemma_lex_connected_from(a, b, k + 1);
    }
}

/// Keys that agree below `k` and differ at `k` are ordered by their bytes
/// at `k`, and in no other way.
pub proof fn lemma_lex_decided(a: Seq<u8>, b: Seq<u8>, k: int)
    requires
        0 <= k < a.len(),
        k < b.len(),
        agree_before(a, b, k),
        a[k] < b[k],
    ensures
        lex_lt(a, b),
        !lex_lt(b, a),
        a != b,
{
    if lex_lt(b, a) {
        lemma_lex_transitive(a, b, a);
        lemma_lex_irreflexive(a);
    }
}

/// Keys of one length are ordered one way or the other, or are the same key.
pub proof fn lemma_lex_connected(a: Seq<u8>, b: Seq<u8>)
    requires
        a.len() == b.len(),
    ensures
        lex_lt(a, b) || a == b || lex_lt(b, a),
{
    assert(agree_before(a, b, 0));
    lemma_lex_connected_from(a, b, 0);
}

impl TotalOrder for u64 {
    open spec fn lt(self, other: Self) -> bool {
        self < other
    }

    proof fn lemma_irreflexive(a: Self) {
    }

    proof fn lemma_transitive(a: Self, b: Self, c: Self) {
    }

    proof fn lemma_connected(a: Self, b: Self) {
    }

    fn compare(&self, other: &Self) -> (c: Comparison) {
        if *self < *other {
            Comparison::Less
        } else if *self == *other {
            Comparison::Equal
        } else {
            Comparison::Greater
        }
    }
}

} // verus!
