//! Lexicographic order on byte strings.
//!
//! Keys of the store are ordered bytewise: the first differing byte decides,
//! and a proper prefix sorts before every extension of it. This module defines
//! the order as a specification, proves that it is total, and provides the
//! executable comparison the store uses.

use vstd::prelude::*;

verus! {

/// `lex_le_at(a, b, i)`: `a` is lexicographically at most `b`, comparing from
/// position `i` on (both agree on everything before `i`).
pub open spec fn lex_le_at(a: Seq<u8>, b: Seq<u8>, i: int) -> bool
    decreases a.len() - i,
{
    if i >= a.len() {
        true
    } else if i >= b.len() {
        false
    } else if a[i] < b[i] {
        true
    } else if a[i] > b[i] {
        false
    } else {
        lex_le_at(a, b, i + 1)
    }
}

/// `a` is lexicographically at most `b`.
pub open spec fn lex_le(a: Seq<u8>, b: Seq<u8>) -> bool {
    lex_le_at(a, b, 0)
}

/// `a` is lexicographically strictly below `b`.
pub open spec fn lex_lt(a: Seq<u8>, b: Seq<u8>) -> bool {
    lex_le(a, b) && a != b
}

/// The order is total: two byte strings always compare one way or the other.
pub proof fn lemma_lex_total_at(a: Seq<u8>, b: Seq<u8>, i: int)
    requires
        0 <= i,
    ensures
        lex_le_at(a, b, i) || lex_le_at(b, a, i),
    decreases a.len() - i,
{
    if i < a.len() && i < b.len() && a[i] == b[i] {
        lemma_lex_total_at(a, b, i + 1);
    }
}

/// Two byte strings that compare at most each other from a position where they
/// agree are equal from that position on.
pub proof fn lemma_lex_antisym_at(a: Seq<u8>, b: Seq<u8>, i: int)
    requires
        0 <= i,
        lex_le_at(a, b, i),
        lex_le_at(b, a, i),
        a.subrange(0, i) == b.subrange(0, i),
        i <= a.len(),
        i <= b.len(),
    ensures
        a == b,
    decreases a.len() - i,
{
    if i >= a.len() {
        assert(i >= b.len());
        assert(a =~= a.subrange(0, i));
        assert(b =~= b.subrange(0, i));
    } else {
        assert(i < b.len());
        assert(a[i] == b[i]);
        assert(a.subrange(0, i + 1) =~= b.subrange(0, i + 1));
        lemma_lex_antisym_at(a, b, i + 1);
    }
}

/// The order is antisymmetric.
pub proof fn lemma_lex_antisym(a: Seq<u8>, b: Seq<u8>)
    requires
        lex_le(a, b),
        lex_le(b, a),
    ensures
        a == b,
{
    assert(a.subrange(0, 0) =~= b.subrange(0, 0));
    lemma_lex_antisym_at(a, b, 0);
}

/// The order is transitive.
pub proof fn lemma_lex_trans_at(a: Seq<u8>, b: Seq<u8>, c: Seq<u8>, i: int)
    requires
        0 <= i,
        lex_le_at(a, b, i),
        lex_le_at(b, c, i),
    ensures
        lex_le_at(a, c, i),
    decreases a.len() - i,
{
    if i < a.len() {
        assert(i < b.len());
        assert(i < c.len());
        if a[i] == b[i] && b[i] == c[i] {
            lemma_lex_trans_at(a, b, c, i + 1);
        }
    }
}

/// Transitivity at the top level.
pub proof fn lemma_lex_trans(a: Seq<u8>, b: Seq<u8>, c: Seq<u8>)
    requires
        lex_le(a, b),
        lex_le(b, c),
    ensures
        lex_le(a, c),
{
    lemma_lex_trans_at(a, b, c, 0);
}

/// Strict-below composed with at-most stays strictly below.
pub proof fn lemma_lex_lt_le_trans(a: Seq<u8>, b: Seq<u8>, c: Seq<u8>)
    requires
        lex_lt(a, b),
        lex_le(b, c),
    ensures
        lex_lt(a, c),
{
    lemma_lex_trans(a, b, c);
    if a == c {
        lemma_lex_antisym(a, b);
    }
}

/// At-most composed with strict-below stays strictly below.
pub proof fn lemma_lex_le_lt_trans(a: Seq<u8>, b: Seq<u8>, c: Seq<u8>)
    requires
        lex_le(a, b),
        lex_lt(b, c),
    ensures
        lex_lt(a, c),
{
    lemma_lex_trans(a, b, c);
    if a == c {
        lemma_lex_antisym(b, c);
    }
}

/// `p` is a prefix of `k`.
pub open spec fn has_prefix(k: Seq<u8>, p: Seq<u8>) -> bool {
    p.len() <= k.len() && k.subrange(0, p.len() as int) == p
}

/// A prefix sorts at or below every byte string it starts.
pub proof fn lemma_prefix_le(k: Seq<u8>, p: Seq<u8>)
    requires
        has_prefix(k, p),
    ensures
        lex_le(p, k),
{
    lemma_prefix_le_at(k, p, 0);
}

proof fn lemma_prefix_le_at(k: Seq<u8>, p: Seq<u8>, i: int)
    requires
        0 <= i <= p.len(),
        has_prefix(k, p),
    ensures
        lex_le_at(p, k, i),
    decreases p.len() - i,
{
    if i < p.len() {
        assert(p[i] == k.subrange(0, p.len() as int)[i]);
        if p[i] == k[i] {
            lemma_prefix_le_at(k, p, i + 1);
        }
    }
}

/// The byte strings sharing a prefix are contiguous in the order: anything
/// between two of them shares the prefix too.
pub proof fn lemma_prefix_range(p: Seq<u8>, a: Seq<u8>, b: Seq<u8>, c: Seq<u8>)
    requires
        has_prefix(a, p),
        has_prefix(c, p),
        lex_le(a, b),
        lex_le(b, c),
    ensures
        has_prefix(b, p),
{
    assert(b.subrange(0, 0) =~= p.subrange(0, 0));
    lemma_prefix_range_at(p, a, b, c, 0);
}

proof fn lemma_prefix_range_at(p: Seq<u8>, a: Seq<u8>, b: Seq<u8>, c: Seq<u8>, i: int)
    requires
        0 <= i <= p.len(),
        has_prefix(a, p),
        has_prefix(c, p),
        lex_le_at(a, b, i),
        lex_le_at(b, c, i),
        b.subrange(0, i) == p.subrange(0, i),
        i <= b.len(),
    ensures
        has_prefix(b, p),
    decreases p.len() - i,
{
    if i < p.len() {
        assert(a.subrange(0, p.len() as int)[i] == p[i]);
        assert(c.subrange(0, p.len() as int)[i] == p[i]);
    }
    if i == p.len() {
        assert(b.subrange(0, p.len() as int) == p);
    } else {
        assert(i < a.len() && i < c.len());
        assert(i < b.len()) by {
            if i >= b.len() {
                assert(!lex_le_at(b, c, i) == false);
            }
        }
        assert(b[i] == p[i]) by {
            if b[i] < p[i] {
                assert(!lex_le_at(a, b, i));
            }
            if b[i] > p[i] {
                assert(!lex_le_at(b, c, i));
            }
        }
        assert(b.subrange(0, i + 1) =~= p.subrange(0, i + 1));
        lemma_prefix_range_at(p, a, b, c, i + 1);
    }
}

/// Three-way outcome of an executable comparison.
#[derive(Clone, Copy, PartialEq, Eq, Debug)]
pub enum Cmp {
    Below,
    Equal,
    Above,
}

/// Compare two byte strings in the lexicographic order.
pub fn bytes_cmp(a: &Vec<u8>, b: &Vec<u8>) -> (r: Cmp)
    ensures
        r == Cmp::Below ==> lex_lt(a@, b@),
        r == Cmp::Equal ==> a@ == b@,
        r == Cmp::Above ==> lex_lt(b@, a@),
{
    let mut i: usize = 0;
    loop
        invariant
            0 <= i <= a.len(),
            i <= b.len(),
            a@.subrange(0, i as int) == b@.subrange(0, i as int),
            lex_le(a@, b@) == lex_le_at(a@, b@, i as int),
            lex_le(b@, a@) == lex_le_at(b@, a@, i as int),
        decreases a.len() - i,
    {
        if i == a.len() {
            if i == b.len() {
                proof {
                    lemma_lex_antisym(a@, b@);
                }
                return Cmp::Equal;
            }
            proof {
                if a@ == b@ {
                    assert(a@.len() == b@.len());
                }
            }
            return Cmp::Below;
        }
        if i == b.len() {
            proof {
                if a@ == b@ {
                    assert(a@.len() == b@.len());
                }
            }
            return Cmp::Above;
        }
        let x = a[i];
        let y = b[i];
        if x < y {
            proof {
                if a@ == b@ {
                    assert(a@[i as int] == b@[i as int]);
                }
            }
            return Cmp::Below;
        }
        if x > y {
            proof {
                if a@ == b@ {
                    assert(a@[i as int] == b@[i as int]);
                }
            }
            return Cmp::Above;
        }
        proof {
            assert(a@.subrange(0, i + 1) =~= b@.subrange(0, i + 1));
        }
        i = i + 1;
    }
}

/// `k` starts with `p`, executably.
pub fn bytes_has_prefix(k: &Vec<u8>, p: &Vec<u8>) -> (r: bool)
    ensures
        r == has_prefix(k@, p@),
{
    if p.len() > k.len() {
        return false;
    }
    let mut i: usize = 0;
    while i < p.len()
        invariant
            0 <= i <= p.len(),
            p.len() <= k.len(),
            k@.subrange(0, i as int) == p@.subrange(0, i as int),
        decreases p.len() - i,
    {
        if k[i] != p[i] {
            proof {
                if has_prefix(k@, p@) {
                    assert(k@.subrange(0, p@.len() as int)[i as int] == p@[i as int]);
                }
            }
            return false;
        }
        proof {
            assert(k@.subrange(0, i + 1) =~= p@.subrange(0, i + 1));
        }
        i = i + 1;
    }
    proof {
        assert(k@.subrange(0, p@.len() as int) =~= p@);
    }
    true
}

} // verus!
