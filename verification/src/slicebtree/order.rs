//! The order of keys: byte strings compared byte by byte, a proper prefix
//! before what it is a prefix of.

use vstd::prelude::*;

verus! {

/// How one key stands to another.
#[derive(Debug, Clone, Copy, PartialEq, Eq, Structural)]
pub enum KeyOrder {
    Less,
    Equal,
    Greater,
}

/// `a` comes before `b`, given that the two agree on their first `i` bytes.
pub open spec fn lex_lt_from(a: Seq<u8>, b: Seq<u8>, i: int) -> bool
    decreases b.len() - i,
{
    if i < 0 || i >= b.len() {
        false
    } else if i >= a.len() {
        true
    } else if a[i] != b[i] {
        a[i] < b[i]
    } else {
        lex_lt_from(a, b, i + 1)
    }
}

/// `a` comes before `b` in the order of keys.
pub open spec fn lex_lt(a: Seq<u8>, b: Seq<u8>) -> bool {
    lex_lt_from(a, b, 0)
}

/// The keys `ks` rise strictly from one to the next.
pub open spec fn strictly_sorted(ks: Seq<Seq<u8>>) -> bool {
    forall|i: int, j: int| 0 <= i < j < ks.len() ==> lex_lt(#[trigger] ks[i], #[trigger] ks[j])
}

/// Two keys that agree on their first `i` bytes: one comes before the other,
/// or they are the same key, and only one of the three holds.
pub proof fn lemma_lex_total_from(a: Seq<u8>, b: Seq<u8>, i: int)
    requires
        0 <= i <= a.len(),
        i <= b.len(),
        a.subrange(0, i) == b.subrange(0, i),
    ensures
        lex_lt_from(a, b, i) || lex_lt_from(b, a, i) || a == b,
        !(lex_lt_from(a, b, i) && lex_lt_from(b, a, i)),
        a == b ==> !lex_lt_from(a, b, i),
    decreases a.len() + b.len() - i,
{
    if i >= a.len() || i >= b.len() {
        if i >= a.len() && i >= b.len() {
            assert(a =~= a.subrange(0, i));
            assert(b =~= b.subrange(0, i));
        }
    } else if a[i] == b[i] {
        assert(a.subrange(0, i + 1) =~= a.subrange(0, i).push(a[i]));
        assert(b.subrange(0, i + 1) =~= b.subrange(0, i).push(b[i]));
        lemma_lex_total_from(a, b, i + 1);
    }
}

/// Of two keys one comes before the other, or they are the same key; only
/// one of the three holds.
pub proof fn lemma_lex_total(a: Seq<u8>, b: Seq<u8>)
    ensures
        lex_lt(a, b) || lex_lt(b, a) || a == b,
        !(lex_lt(a, b) && lex_lt(b, a)),
        a == b ==> !lex_lt(a, b),
{
    assert(a.subrange(0, 0) =~= b.subrange(0, 0));
    lemma_lex_total_from(a, b, 0);
}

/// What comes before a key that comes before a third comes before the third,
/// given that the three agree on their first `i` bytes.
pub proof fn lemma_lex_trans_from(a: Seq<u8>, b: Seq<u8>, c: Seq<u8>, i: int)
    requires
        0 <= i,
        lex_lt_from(a, b, i),
        lex_lt_from(b, c, i),
    ensures
        lex_lt_from(a, c, i),
    decreases c.len() - i,
{
    if i < a.len() && a[i] == b[i] && b[i] == c[i] {
        lemma_lex_trans_from(a, b, c, i + 1);
    }
}

/// The order of keys is transitive.
pub proof fn lemma_lex_trans(a: Seq<u8>, b: Seq<u8>, c: Seq<u8>)
    requires
        lex_lt(a, b),
        lex_lt(b, c),
    ensures
        lex_lt(a, c),
{
    lemma_lex_trans_from(a, b, c, 0);
}

/// Compares two keys byte by byte.
pub fn compare_keys(a: &[u8], b: &[u8]) -> (r: KeyOrder)
    ensures
        r == KeyOrder::Less <==> lex_lt(a@, b@),
        r == KeyOrder::Equal <==> a@ == b@,
        r == KeyOrder::Greater <==> lex_lt(b@, a@),
{
    let mut i: usize = 0;
    proof {
        lemma_lex_total(a@, b@);
    }
    while i < a.len() && i < b.len()
        invariant
            i <= a@.len(),
            i <= b@.len(),
            a@.subrange(0, i as int) == b@.subrange(0, i as int),
            lex_lt(a@, b@) == lex_lt_from(a@, b@, i as int),
            lex_lt(b@, a@) == lex_lt_from(b@, a@, i as int),
        decreases a@.len() - i,
    {
        if a[i] < b[i] {
            return KeyOrder::Less;
        }
        if a[i] > b[i] {
            return KeyOrder::Greater;
        }
        proof {
            assert(a@.subrange(0, i + 1) =~= a@.subrange(0, i as int).push(a@[i as int]));
            assert(b@.subrange(0, i + 1) =~= b@.subrange(0, i as int).push(b@[i as int]));
        }
        i += 1;
    }
    proof {
        lemma_lex_total_from(a@, b@, i as int);
    }
    if i < b.len() {
        KeyOrder::Less
    } else if i < a.len() {
        KeyOrder::Greater
    } else {
        KeyOrder::Equal
    }
}

} // verus!
