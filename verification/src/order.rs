//! Strict byte-lexicographic order on byte strings.
//!
//! Dictionary keys are raw byte strings and the canonical wire form keeps
//! them in strictly ascending byte-lexicographic order.  This module defines
//! that order as a spec function, proves the order-theoretic facts the rest
//! of the crate leans on (asymmetry, totality, transitivity), and provides a
//! verified three-way comparison on `Vec<u8>` keys.

use vstd::prelude::*;

verus! {

/// `a` comes strictly before `b` when both agree up to position `i` and are
/// compared from position `i` on: at the first position where they differ,
/// `a` holds the smaller byte, or `a` runs out of bytes first.
pub open spec fn lex_lt_from(a: Seq<u8>, b: Seq<u8>, i: int) -> bool
    decreases a.len() - i,
{
    if i >= b.len() {
        false
    } else if i >= a.len() {
        true
    } else if a[i] < b[i] {
        true
    } else if a[i] > b[i] {
        false
    } else {
        lex_lt_from(a, b, i + 1)
    }
}

/// `a` comes strictly before `b` in byte-lexicographic order.
pub open spec fn lex_lt(a: Seq<u8>, b: Seq<u8>) -> bool {
    lex_lt_from(a, b, 0)
}

proof fn lemma_lex_lt_from_asym(a: Seq<u8>, b: Seq<u8>, i: int)
    requires
        lex_lt_from(a, b, i),
    ensures
        !lex_lt_from(b, a, i),
    decreases a.len() - i,
{
    if i < a.len() && i < b.len() && a[i] == b[i] {
        lemma_lex_lt_from_asym(a, b, i + 1);
    }
}

/// The order is asymmetric: a key strictly below another is neither equal
/// to it nor strictly above it.
pub proof fn lemma_lex_lt_asym(a: Seq<u8>, b: Seq<u8>)
    requires
        lex_lt(a, b),
    ensures
        !lex_lt(b, a),
        a != b,
{
    lemma_lex_lt_from_asym(a, b, 0);
    if a == b {
        lemma_lex_lt_from_asym(a, a, 0);
    }
}

proof fn lemma_lex_lt_from_total(a: Seq<u8>, b: Seq<u8>, i: int)
    requires
        0 <= i,
        forall|j: int| 0 <= j < i ==> a[j] == b[j],
        i <= a.len(),
        i <= b.len(),
    ensures
        lex_lt_from(a, b, i) || lex_lt_from(b, a, i) || a == b,
    decreases a.len() - i,
{
    if i >= a.len() && i >= b.len() {
        assert(a =~= b);
    } else if i >= a.len() || i >= b.len() {
    } else if a[i] == b[i] {
        lemma_lex_lt_from_total(a, b, i + 1);
    }
}

/// The order is total: two keys are comparable or equal.
pub proof fn lemma_lex_lt_total(a: Seq<u8>, b: Seq<u8>)
    ensures
        lex_lt(a, b) || lex_lt(b, a) || a == b,
{
    lemma_lex_lt_from_total(a, b, 0);
}

proof fn lemma_lex_lt_from_irrefl(a: Seq<u8>, i: int)
    ensures
        !lex_lt_from(a, a, i),
    decreases a.len() - i,
{
    if i < a.len() {
        lemma_lex_lt_from_irrefl(a, i + 1);
    }
}

/// No key is strictly below itself.
pub proof fn lemma_lex_lt_irrefl(a: Seq<u8>)
    ensures
        !lex_lt(a, a),
{
    lemma_lex_lt_from_irrefl(a, 0);
}

proof fn lemma_lex_lt_from_trans(a: Seq<u8>, b: Seq<u8>, c: Seq<u8>, i: int)
    requires
        lex_lt_from(a, b, i),
        lex_lt_from(b, c, i),
    ensures
        lex_lt_from(a, c, i),
    decreases a.len() - i,
{
    if i < a.len() && i < b.len() && i < c.len() && a[i] == b[i] && b[i] == c[i] {
        lemma_lex_lt_from_trans(a, b, c, i + 1);
    }
}

/// The order is transitive.
pub proof fn lemma_lex_lt_trans(a: Seq<u8>, b: Seq<u8>, c: Seq<u8>)
    requires
        lex_lt(a, b),
        lex_lt(b, c),
    ensures
        lex_lt(a, c),
{
    lemma_lex_lt_from_trans(a, b, c, 0);
}

/// Three-way comparison result for byte-string keys.
pub enum KeyOrder {
    Less,
    Equal,
    Greater,
}

/// Verified three-way comparison of two byte-string keys under `lex_lt`.
pub fn key_compare(a: &Vec<u8>, b: &Vec<u8>) -> (r: KeyOrder)
    ensures
        (r is Less) == lex_lt(a@, b@),
        (r is Equal) == (a@ == b@),
        (r is Greater) == lex_lt(b@, a@),
{
    let mut i: usize = 0;
    while i < a.len() && i < b.len()
        invariant
            0 <= i <= a.len(),
            i <= b.len(),
            forall|j: int| 0 <= j < i ==> a@[j] == b@[j],
            lex_lt(a@, b@) == lex_lt_from(a@, b@, i as int),
            lex_lt(b@, a@) == lex_lt_from(b@, a@, i as int),
        decreases a.len() - i,
    {
        if a[i] < b[i] {
            proof {
                assert(lex_lt(a@, b@));
                lemma_lex_lt_asym(a@, b@);
            }
            return KeyOrder::Less;
        }
        if a[i] > b[i] {
            proof {
                assert(lex_lt(b@, a@));
                lemma_lex_lt_asym(b@, a@);
            }
            return KeyOrder::Greater;
        }
        i = i + 1;
    }
    if a.len() == b.len() {
        proof {
            assert(a@ =~= b@);
            assert(!lex_lt_from(a@, b@, i as int));
            assert(!lex_lt_from(b@, a@, i as int));
        }
        KeyOrder::Equal
    } else if i == a.len() {
        proof {
            assert(lex_lt_from(a@, b@, i as int));
            lemma_lex_lt_asym(a@, b@);
        }
        KeyOrder::Less
    } else {
        proof {
            assert(lex_lt_from(b@, a@, i as int));
            lemma_lex_lt_asym(b@, a@);
        }
        KeyOrder::Greater
    }
}

} // verus!
