//! Machine words stored in a byte buffer, eight bytes each, least significant byte first.

use vstd::bytes::{
    lemma_auto_spec_u64_to_from_le_bytes, spec_u64_from_le_bytes, spec_u64_to_le_bytes,
    u64_from_le_bytes, u64_to_le_bytes,
};
use vstd::prelude::*;
use vstd::slice::slice_subrange;

verus! {

/// The word stored in `s` at byte offset `off`.
pub open spec fn word_at(s: Seq<u8>, off: int) -> usize {
    spec_u64_from_le_bytes(s.subrange(off, off + 8)) as usize
}

/// `s` with the word `v` stored at byte offset `off`.
pub open spec fn with_word(s: Seq<u8>, off: int, v: usize) -> Seq<u8> {
    Seq::new(
        s.len(),
        |i: int|
            if off <= i < off + 8 {
                spec_u64_to_le_bytes(v as u64)[i - off]
            } else {
                s[i]
            },
    )
}

/// Storing a word changes the eight bytes it covers and nothing else.
pub proof fn lemma_with_word(s: Seq<u8>, off: int, v: usize)
    requires
        0 <= off,
        off + 8 <= s.len(),
    ensures
        with_word(s, off, v).len() == s.len(),
        word_at(with_word(s, off, v), off) == v,
        forall|p: int|
            0 <= p && p + 8 <= s.len() && (p + 8 <= off || off + 8 <= p) ==> #[trigger] word_at(
                with_word(s, off, v),
                p,
            ) == word_at(s, p),
        forall|a: int, b: int|
            0 <= a <= b <= s.len() && (b <= off || off + 8 <= a) ==> #[trigger] with_word(
                s,
                off,
                v,
            ).subrange(a, b) == s.subrange(a, b),
{
    let t = with_word(s, off, v);
    lemma_auto_spec_u64_to_from_le_bytes();
    assert(t.subrange(off, off + 8) =~= spec_u64_to_le_bytes(v as u64));
    assert forall|p: int|
        0 <= p && p + 8 <= s.len() && (p + 8 <= off || off + 8 <= p) implies #[trigger] word_at(
        t,
        p,
    ) == word_at(s, p) by {
        assert(t.subrange(p, p + 8) =~= s.subrange(p, p + 8));
    }
    assert forall|a: int, b: int|
        0 <= a <= b <= s.len() && (b <= off || off + 8 <= a) implies #[trigger] t.subrange(a, b)
        == s.subrange(a, b) by {
        assert(t.subrange(a, b) =~= s.subrange(a, b));
    }
}

/// Two buffers of one length that agree on the bytes from `lo` up to `hi`.
#[verifier::opaque]
pub open spec fn same_bytes(s: Seq<u8>, t: Seq<u8>, lo: int, hi: int) -> bool {
    &&& s.len() == t.len()
    &&& forall|j: int| lo <= j < hi ==> s[j] == t[j]
}

/// A word reads the same in two buffers that agree on its eight bytes.
pub proof fn lemma_same_word(s: Seq<u8>, t: Seq<u8>, p: int)
    requires
        0 <= p,
        p + 8 <= s.len(),
        same_bytes(s, t, p, p + 8),
    ensures
        word_at(s, p) == word_at(t, p),
{
    reveal(same_bytes);
    assert(s.subrange(p, p + 8) =~= t.subrange(p, p + 8));
}

/// Buffers that agree on a range agree on every part of it, whichever of
/// the two is named first.
pub proof fn lemma_same_bytes_within(s: Seq<u8>, t: Seq<u8>, lo: int, hi: int, a: int, b: int)
    requires
        same_bytes(s, t, lo, hi),
        lo <= a,
        b <= hi,
    ensures
        same_bytes(s, t, a, b),
        same_bytes(t, s, a, b),
{
    reveal(same_bytes);
}

/// A word inside a range on which two buffers agree reads the same in both.
pub proof fn lemma_word_kept(s: Seq<u8>, t: Seq<u8>, lo: int, hi: int, p: int)
    requires
        same_bytes(s, t, lo, hi),
        0 <= lo <= p,
        p + 8 <= hi <= s.len(),
    ensures
        word_at(s, p) == word_at(t, p),
{
    lemma_same_bytes_within(s, t, lo, hi, p, p + 8);
    lemma_same_word(s, t, p);
}

/// Reads the word stored at byte offset `off`.
pub fn read_word(buf: &Vec<u8>, off: usize) -> (v: usize)
    requires
        off + 8 <= buf.len(),
    ensures
        v == word_at(buf@, off as int),
{
    let x = u64_from_le_bytes(slice_subrange(buf.as_slice(), off, off + 8));
    x as usize
}

/// Stores the word `v` at byte offset `off`.
pub fn write_word(buf: &mut Vec<u8>, off: usize, v: usize)
    requires
        off + 8 <= old(buf).len(),
    ensures
        final(buf).len() == old(buf).len(),
        word_at(final(buf)@, off as int) == v,
        same_bytes(final(buf)@, old(buf)@, 0, off as int),
        same_bytes(final(buf)@, old(buf)@, off + 8, old(buf).len() as int),
{
    proof {
        reveal(same_bytes);
    }
    let bytes = u64_to_le_bytes(v as u64);
    let mut i: usize = 0;
    while i < 8
        invariant
            i <= 8,
            off + 8 <= buf.len(),
            buf.len() == old(buf).len(),
            bytes@ == spec_u64_to_le_bytes(v as u64),
            bytes@.len() == 8,
            forall|j: int|
                0 <= j < buf.len() ==> buf@[j] == if off <= j < off + i {
                    bytes@[j - off]
                } else {
                    old(buf)@[j]
                },
        decreases 8 - i,
    {
        buf.set(off + i, bytes[i]);
        i += 1;
    }
    assert(buf@ =~= with_word(old(buf)@, off as int, v));
    proof {
        lemma_with_word(old(buf)@, off as int, v);
    }
}

/// Reads the word stored at byte offset `off` of a slice.
pub fn read_word_in(buf: &[u8], off: usize) -> (v: usize)
    requires
        off + 8 <= buf@.len(),
    ensures
        v == word_at(buf@, off as int),
{
    let len = buf.len();
    assert(off + 8 <= len);
    let x = u64_from_le_bytes(slice_subrange(buf, off, off + 8));
    x as usize
}

/// The bytes of the words `ws`, one word after the other.
pub open spec fn words_bytes(ws: Seq<usize>) -> Seq<u8> {
    Seq::new(8 * ws.len(), |j: int| spec_u64_to_le_bytes(ws[j / 8] as u64)[j % 8])
}

/// Word `k` of `ws` stands at byte offset `8 * k` of its bytes.
pub proof fn lemma_words_bytes(ws: Seq<usize>, k: int)
    requires
        0 <= k < ws.len(),
    ensures
        words_bytes(ws).len() == 8 * ws.len(),
        word_at(words_bytes(ws), 8 * k) == ws[k],
{
    lemma_auto_spec_u64_to_from_le_bytes();
    let bytes = words_bytes(ws);
    let part = bytes.subrange(8 * k, 8 * k + 8);
    let word = spec_u64_to_le_bytes(ws[k] as u64);
    assert(part.len() == 8);
    assert forall|m: int| 0 <= m < 8 implies part[m] == word[m] by {
        assert((8 * k + m) / 8 == k);
        assert((8 * k + m) % 8 == m);
    }
    assert(part =~= word);
}

/// Writes the words `ws` down as bytes, one word after the other.
pub fn words_to_bytes(ws: &Vec<usize>) -> (out: Vec<u8>)
    requires
        8 * ws@.len() <= usize::MAX,
    ensures
        out@ == words_bytes(ws@),
{
    let mut out: Vec<u8> = Vec::new();
    let mut k: usize = 0;
    while k < ws.len()
        invariant
            k <= ws@.len(),
            8 * ws@.len() <= usize::MAX,
            out@.len() == 8 * k,
            forall|j: int|
                0 <= j < out@.len() ==> out@[j] == spec_u64_to_le_bytes(ws@[j / 8] as u64)[j % 8],
        decreases ws@.len() - k,
    {
        let bytes = u64_to_le_bytes(ws[k] as u64);
        let mut m: usize = 0;
        while m < 8
            invariant
                m <= 8,
                k < ws@.len(),
                8 * ws@.len() <= usize::MAX,
                bytes@ == spec_u64_to_le_bytes(ws@[k as int] as u64),
                bytes@.len() == 8,
                out@.len() == 8 * k + m,
                forall|j: int|
                    0 <= j < out@.len() ==> out@[j] == spec_u64_to_le_bytes(ws@[j / 8] as u64)[j
                        % 8],
            decreases 8 - m,
        {
            proof {
                assert((8 * k + m) / 8 == k as int);
                assert((8 * k + m) % 8 == m as int);
            }
            out.push(bytes[m]);
            m += 1;
        }
        k += 1;
    }
    assert(out@ =~= words_bytes(ws@));
    out
}

} // verus!
