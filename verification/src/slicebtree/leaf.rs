//! What a leaf holds: the map from its keys to its values.

use crate::slicebtree::order::{lemma_lex_total, lex_lt, strictly_sorted};
use vstd::prelude::*;

verus! {

/// The key `k` stands at `i` among the keys `ks`.
pub open spec fn key_at(ks: Seq<Seq<u8>>, k: Seq<u8>, i: int) -> bool {
    0 <= i < ks.len() && ks[i] == k
}

/// Where the key `k` stands among the keys `ks`.
pub open spec fn index_of_key(ks: Seq<Seq<u8>>, k: Seq<u8>) -> int {
    choose|i: int| key_at(ks, k, i)
}

/// The map that takes each of the keys `ks` to the value at its index in
/// `cs`.
pub open spec fn pairs_map(ks: Seq<Seq<u8>>, cs: Seq<Seq<u8>>) -> Map<Seq<u8>, Seq<u8>> {
    Map::new(|k: Seq<u8>| exists|i: int| key_at(ks, k, i), |k: Seq<u8>| cs[index_of_key(ks, k)])
}

/// Keys that rise strictly stand at one index each.
pub proof fn lemma_key_index(ks: Seq<Seq<u8>>, k: Seq<u8>, i: int)
    requires
        strictly_sorted(ks),
        key_at(ks, k, i),
    ensures
        index_of_key(ks, k) == i,
{
    let j = index_of_key(ks, k);
    assert(key_at(ks, k, j));
    lemma_lex_total(k, k);
    if i < j {
        assert(lex_lt(ks[i], ks[j]));
    } else if j < i {
        assert(lex_lt(ks[j], ks[i]));
    }
}

/// What the map of a leaf holds for a key that stands at `i`.
pub proof fn lemma_pairs_map_at(ks: Seq<Seq<u8>>, cs: Seq<Seq<u8>>, i: int)
    requires
        strictly_sorted(ks),
        0 <= i < ks.len(),
    ensures
        pairs_map(ks, cs).dom().contains(ks[i]),
        pairs_map(ks, cs)[ks[i]] == cs[i],
{
    assert(key_at(ks, ks[i], i));
    lemma_key_index(ks, ks[i], i);
}

/// The map of a leaf without keys is empty.
pub proof fn lemma_pairs_map_empty(ks: Seq<Seq<u8>>, cs: Seq<Seq<u8>>)
    requires
        ks.len() == 0,
    ensures
        pairs_map(ks, cs) == Map::<Seq<u8>, Seq<u8>>::empty(),
{
    assert(pairs_map(ks, cs) =~= Map::<Seq<u8>, Seq<u8>>::empty());
}

/// A key and a value put into a leaf at one index put the pair into its map.
pub proof fn lemma_pairs_map_insert(
    ks: Seq<Seq<u8>>,
    cs: Seq<Seq<u8>>,
    i: int,
    k: Seq<u8>,
    c: Seq<u8>,
)
    requires
        strictly_sorted(ks),
        strictly_sorted(ks.insert(i, k)),
        ks.len() == cs.len(),
        0 <= i <= ks.len(),
        forall|j: int| 0 <= j < ks.len() ==> #[trigger] ks[j] != k,
    ensures
        pairs_map(ks.insert(i, k), cs.insert(i, c)) == pairs_map(ks, cs).insert(k, c),
{
    let ks2 = ks.insert(i, k);
    let cs2 = cs.insert(i, c);
    let m = pairs_map(ks, cs).insert(k, c);
    let m2 = pairs_map(ks2, cs2);
    assert forall|q: Seq<u8>| m2.dom().contains(q) == m.dom().contains(q) by {
        if m2.dom().contains(q) {
            let j = choose|j: int| key_at(ks2, q, j);
            if j < i {
                assert(key_at(ks, q, j));
            } else if j > i {
                assert(key_at(ks, q, j - 1));
            }
        }
        if m.dom().contains(q) {
            if q == k {
                assert(key_at(ks2, q, i));
            } else {
                let j = choose|j: int| key_at(ks, q, j);
                if j < i {
                    assert(key_at(ks2, q, j));
                } else {
                    assert(key_at(ks2, q, j + 1));
                }
            }
        }
    }
    assert forall|q: Seq<u8>| m2.dom().contains(q) implies m2[q] == m[q] by {
        let j = choose|j: int| key_at(ks2, q, j);
        lemma_key_index(ks2, q, j);
        if j < i {
            assert(key_at(ks, q, j));
            lemma_key_index(ks, q, j);
        } else if j > i {
            assert(key_at(ks, q, j - 1));
            lemma_key_index(ks, q, j - 1);
        }
    }
    assert(m2 =~= m);
}

/// A key and its value taken out of a leaf are taken out of its map.
pub proof fn lemma_pairs_map_remove(ks: Seq<Seq<u8>>, cs: Seq<Seq<u8>>, i: int)
    requires
        strictly_sorted(ks),
        strictly_sorted(ks.remove(i)),
        ks.len() == cs.len(),
        0 <= i < ks.len(),
    ensures
        pairs_map(ks.remove(i), cs.remove(i)) == pairs_map(ks, cs).remove(ks[i]),
{
    let ks2 = ks.remove(i);
    let cs2 = cs.remove(i);
    let m = pairs_map(ks, cs).remove(ks[i]);
    let m2 = pairs_map(ks2, cs2);
    assert forall|q: Seq<u8>| m2.dom().contains(q) == m.dom().contains(q) by {
        if m2.dom().contains(q) {
            let j = choose|j: int| key_at(ks2, q, j);
            let j0 = if j < i {
                j
            } else {
                j + 1
            };
            assert(key_at(ks, q, j0));
            if q == ks[i] {
                lemma_key_index(ks, q, j0);
                lemma_key_index(ks, q, i);
            }
        }
        if m.dom().contains(q) {
            let j = choose|j: int| key_at(ks, q, j);
            assert(j != i);
            if j < i {
                assert(key_at(ks2, q, j));
            } else {
                assert(key_at(ks2, q, j - 1));
            }
        }
    }
    assert forall|q: Seq<u8>| m2.dom().contains(q) implies m2[q] == m[q] by {
        let j = choose|j: int| key_at(ks2, q, j);
        lemma_key_index(ks2, q, j);
        let j0 = if j < i {
            j
        } else {
            j + 1
        };
        assert(key_at(ks, q, j0));
        lemma_key_index(ks, q, j0);
    }
    assert(m2 =~= m);
}

/// Another value at the index of a key is another value for it in the map.
pub proof fn lemma_pairs_map_update(ks: Seq<Seq<u8>>, cs: Seq<Seq<u8>>, i: int, c: Seq<u8>)
    requires
        strictly_sorted(ks),
        ks.len() == cs.len(),
        0 <= i < ks.len(),
    ensures
        pairs_map(ks, cs.update(i, c)) == pairs_map(ks, cs).insert(ks[i], c),
{
    let cs2 = cs.update(i, c);
    let m = pairs_map(ks, cs).insert(ks[i], c);
    let m2 = pairs_map(ks, cs2);
    assert forall|q: Seq<u8>| m2.dom().contains(q) == m.dom().contains(q) by {
        if q == ks[i] {
            assert(key_at(ks, q, i));
        }
    }
    assert forall|q: Seq<u8>| m2.dom().contains(q) implies m2[q] == m[q] by {
        let j = choose|j: int| key_at(ks, q, j);
        lemma_key_index(ks, q, j);
        if q == ks[i] {
            lemma_key_index(ks, q, i);
        }
    }
    assert(m2 =~= m);
}

/// A key that a leaf does not hold is not in its map.
pub proof fn lemma_pairs_map_absent(ks: Seq<Seq<u8>>, cs: Seq<Seq<u8>>, k: Seq<u8>)
    requires
        forall|j: int| 0 <= j < ks.len() ==> #[trigger] ks[j] != k,
    ensures
        !pairs_map(ks, cs).dom().contains(k),
{
    if pairs_map(ks, cs).dom().contains(k) {
        let j = choose|j: int| key_at(ks, k, j);
        assert(ks[j] != k);
    }
}

} // verus!
