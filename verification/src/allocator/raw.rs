//! Block headers and object headers as bytes of the buffer.

use crate::allocator::pool::{HEADER_SIZE, OVERHEAD, PAGE_SIZE};
use crate::allocator::view::{free_block, BlockView};
use crate::allocator::words::{
    lemma_same_word, read_word, same_bytes, word_at, write_word,
};
use vstd::prelude::*;

verus! {

/// The block whose header stands at offset `b` of `s`.
pub open spec fn raw_block(s: Seq<u8>, b: int) -> BlockView {
    let tag = word_at(s, b + 8);
    if tag == 0 {
        free_block(b as usize, word_at(s, b), word_at(s, b + 16))
    } else {
        BlockView {
            start: b as usize,
            prev: word_at(s, b),
            tag,
            next: word_at(s, b + 16),
            strong: word_at(s, b + 24),
            weak: word_at(s, b + 32),
            size: word_at(s, b + 40),
            data: s.subrange(b + 48, b + 48 + word_at(s, b + 40)),
        }
    }
}

/// A block reads the same in two buffers that agree from its header to the
/// end of its payload.
pub proof fn lemma_same_block(s: Seq<u8>, t: Seq<u8>, b: int, e: int)
    requires
        0 <= b,
        b + HEADER_SIZE <= e <= s.len(),
        same_bytes(s, t, b, e),
        word_at(s, b + 8) != 0 ==> b + OVERHEAD + word_at(s, b + 40) <= e,
    ensures
        raw_block(s, b) == raw_block(t, b),
{
    reveal(same_bytes);
    lemma_same_word(s, t, b);
    lemma_same_word(s, t, b + 8);
    lemma_same_word(s, t, b + 16);
    if word_at(s, b + 8) != 0 {
        lemma_same_word(s, t, b + 24);
        lemma_same_word(s, t, b + 32);
        lemma_same_word(s, t, b + 40);
        let n = word_at(s, b + 40);
        assert(s.subrange(b + 48, b + 48 + n) =~= t.subrange(b + 48, b + 48 + n));
    }
}

/// A block whose bytes behind the `prev` word agree in two buffers reads
/// the same in both but for `prev`.
pub proof fn lemma_same_block_but_prev(s: Seq<u8>, t: Seq<u8>, b: int, e: int)
    requires
        0 <= b,
        b + HEADER_SIZE <= e <= s.len(),
        same_bytes(s, t, b + 8, e),
        word_at(s, b + 8) != 0 ==> b + OVERHEAD + word_at(s, b + 40) <= e,
    ensures
        raw_block(t, b) == (BlockView { prev: word_at(t, b), ..raw_block(s, b) }),
{
    reveal(same_bytes);
    lemma_same_word(s, t, b + 8);
    lemma_same_word(s, t, b + 16);
    if word_at(s, b + 8) != 0 {
        lemma_same_word(s, t, b + 24);
        lemma_same_word(s, t, b + 32);
        lemma_same_word(s, t, b + 40);
        let n = word_at(s, b + 40);
        assert(s.subrange(b + 48, b + 48 + n) =~= t.subrange(b + 48, b + 48 + n));
    }
}

/// Writes the three words of a block header at offset `b`.
pub(crate) fn write_header(buf: &mut Vec<u8>, b: usize, prev: usize, tag: usize, next: usize)
    requires
        b + HEADER_SIZE <= old(buf).len(),
    ensures
        final(buf).len() == old(buf).len(),
        word_at(final(buf)@, b as int) == prev,
        word_at(final(buf)@, b + 8) == tag,
        word_at(final(buf)@, b + 16) == next,
        same_bytes(final(buf)@, old(buf)@, 0, b as int),
        same_bytes(final(buf)@, old(buf)@, b + HEADER_SIZE, old(buf).len() as int),
{
    proof {
        reveal(same_bytes);
    }
    write_word(buf, b, prev);
    let ghost s1 = buf@;
    write_word(buf, b + 8, tag);
    let ghost s2 = buf@;
    write_word(buf, b + 16, next);
    proof {
        lemma_same_word(buf@, s1, b as int);
        lemma_same_word(buf@, s2, b + 8);
    }
}

/// Writes a block header at `index`. A block that is not free takes the next
/// tag from the counter in the metadata page.
pub(crate) fn make_skip_entry(buf: &mut Vec<u8>, index: usize, prev: usize, next: usize, is_free: bool)
    requires
        old(buf).len() >= PAGE_SIZE + OVERHEAD,
        index + HEADER_SIZE <= old(buf).len() - PAGE_SIZE + HEADER_SIZE,
        !is_free ==> word_at(old(buf)@, old(buf).len() - PAGE_SIZE + HEADER_SIZE + 8) < usize::MAX,
    ensures
        final(buf).len() == old(buf).len(),
        word_at(final(buf)@, index as int) == prev,
        word_at(final(buf)@, index + 16) == next,
        word_at(final(buf)@, index + 8) == if is_free {
            0
        } else {
            word_at(old(buf)@, old(buf).len() - PAGE_SIZE + HEADER_SIZE + 8)
        },
        word_at(final(buf)@, final(buf).len() - PAGE_SIZE + HEADER_SIZE + 8) == word_at(
            old(buf)@,
            old(buf).len() - PAGE_SIZE + HEADER_SIZE + 8,
        ) + if is_free {
            0int
        } else {
            1int
        },
        same_bytes(final(buf)@, old(buf)@, 0, index as int),
        same_bytes(
            final(buf)@,
            old(buf)@,
            index + HEADER_SIZE,
            old(buf).len() - PAGE_SIZE + HEADER_SIZE + 8,
        ),
        same_bytes(
            final(buf)@,
            old(buf)@,
            old(buf).len() - PAGE_SIZE + HEADER_SIZE + 16,
            old(buf).len() as int,
        ),
{
    proof {
        reveal(same_bytes);
    }
    let counter = buf.len() - PAGE_SIZE + HEADER_SIZE + 8;
    if is_free {
        write_header(buf, index, prev, 0, next);
        proof {
            lemma_same_word(buf@, old(buf)@, counter as int);
        }
    } else {
        let tag = read_word(buf, counter);
        write_word(buf, counter, tag + 1);
        let ghost s1 = buf@;
        write_header(buf, index, prev, tag, next);
        proof {
            lemma_same_word(buf@, s1, counter as int);
        }
    }
}

/// Writes an object header for `size` bytes of payload, with no reference
/// yet, behind the block header at `b`.
pub(crate) fn init_object(buf: &mut Vec<u8>, b: usize, size: usize)
    requires
        b + OVERHEAD <= old(buf).len(),
    ensures
        final(buf).len() == old(buf).len(),
        word_at(final(buf)@, b + 24) == 0,
        word_at(final(buf)@, b + 32) == 0,
        word_at(final(buf)@, b + 40) == size,
        same_bytes(final(buf)@, old(buf)@, 0, b + HEADER_SIZE),
        same_bytes(final(buf)@, old(buf)@, b + OVERHEAD, old(buf).len() as int),
{
    proof {
        reveal(same_bytes);
    }
    write_word(buf, b + 24, 0);
    let ghost s1 = buf@;
    write_word(buf, b + 32, 0);
    let ghost s2 = buf@;
    write_word(buf, b + 40, size);
    proof {
        lemma_same_word(buf@, s1, b + 24);
        lemma_same_word(buf@, s2, b + 32);
    }
}

/// Cuts the block from `b` to `e` in two at `cut`: the part from `cut` on
/// becomes a free block, linked between the two.
pub(crate) fn split_block(buf: &mut Vec<u8>, b: usize, cut: usize, e: usize)
    requires
        b + HEADER_SIZE <= cut,
        cut + HEADER_SIZE <= e,
        e + 8 <= old(buf).len(),
    ensures
        final(buf).len() == old(buf).len(),
        word_at(final(buf)@, b + 16) == cut,
        word_at(final(buf)@, cut as int) == b,
        word_at(final(buf)@, cut + 8) == 0,
        word_at(final(buf)@, cut + 16) == e,
        word_at(final(buf)@, e as int) == cut,
        same_bytes(final(buf)@, old(buf)@, 0, b + 16),
        same_bytes(final(buf)@, old(buf)@, b + HEADER_SIZE, cut as int),
        same_bytes(final(buf)@, old(buf)@, cut + HEADER_SIZE, e as int),
        same_bytes(final(buf)@, old(buf)@, e + 8, old(buf).len() as int),
{
    proof {
        reveal(same_bytes);
    }
    write_header(buf, cut, b, 0, e);
    let ghost s1 = buf@;
    write_word(buf, e, cut);
    let ghost s2 = buf@;
    write_word(buf, b + 16, cut);
    proof {
        lemma_same_word(buf@, s1, cut as int);
        lemma_same_word(buf@, s1, cut + 8);
        lemma_same_word(buf@, s1, cut + 16);
        lemma_same_word(buf@, s2, e as int);
    }
}

/// What claiming the free block from `b` to `e` does to the buffer: `s` is
/// the buffer after it, `t` the one before.
pub open spec fn claimed_bytes(
    s: Seq<u8>,
    t: Seq<u8>,
    b: int,
    e: int,
    chunk: int,
    size: usize,
    tag: usize,
) -> bool {
    let cut = b + chunk;
    let split = e - cut >= HEADER_SIZE;
    let meta = t.len() - PAGE_SIZE + HEADER_SIZE;
    &&& s.len() == t.len()
    &&& word_at(s, b) == word_at(t, b)
    &&& word_at(s, b + 8) == tag
    &&& word_at(s, b + 16) == if split {
        cut as usize
    } else {
        word_at(t, b + 16)
    }
    &&& word_at(s, b + 24) == 0
    &&& word_at(s, b + 32) == 0
    &&& word_at(s, b + 40) == size
    &&& same_bytes(s, t, 0, b)
    &&& same_bytes(s, t, b + OVERHEAD, if split {
        cut
    } else {
        e
    })
    &&& split ==> {
        &&& word_at(s, cut) == b
        &&& word_at(s, cut + 8) == 0
        &&& word_at(s, cut + 16) == e
        &&& word_at(s, e) == cut
        &&& same_bytes(s, t, cut + HEADER_SIZE, e)
    }
    &&& !split ==> same_bytes(s, t, e, e + 8)
    &&& same_bytes(s, t, e + 8, meta + 8)
    &&& word_at(s, meta + 8) == tag + 1
    &&& same_bytes(s, t, meta + 16, t.len() as int)
}

/// Turns the free block from `b` to `e` into an allocated one for `size`
/// bytes that carries `tag`, with no reference yet. What the block does not
/// need becomes a free block of its own, if a header fits there.
pub(crate) fn claim_block(buf: &mut Vec<u8>, b: usize, e: usize, chunk: usize, size: usize, tag: usize)
    requires
        old(buf).len() >= PAGE_SIZE + OVERHEAD,
        b + OVERHEAD + size <= b + chunk <= e <= old(buf).len() - PAGE_SIZE,
        tag < usize::MAX,
    ensures
        claimed_bytes(final(buf)@, old(buf)@, b as int, e as int, chunk as int, size, tag),
{
    proof {
        reveal(same_bytes);
    }
    let meta = buf.len() - PAGE_SIZE + HEADER_SIZE;
    let cut = b + chunk;
    write_word(buf, b + 8, tag);
    let ghost s1 = buf@;
    write_word(buf, meta + 8, tag + 1);
    let ghost s2 = buf@;
    proof {
        lemma_same_word(s2, s1, b + 8);
        lemma_same_word(s2, old(buf)@, b as int);
        lemma_same_word(s2, old(buf)@, b + 16);
        lemma_same_word(s2, old(buf)@, e as int);
    }
    if e - cut >= HEADER_SIZE {
        split_block(buf, b, cut, e);
        let ghost s3 = buf@;
        proof {
            lemma_same_word(s3, s2, b as int);
            lemma_same_word(s3, s2, b + 8);
            lemma_same_word(s3, s2, meta + 8);
        }
        init_object(buf, b, size);
        proof {
            let s = buf@;
            lemma_same_word(s, s3, b as int);
            lemma_same_word(s, s3, b + 8);
            lemma_same_word(s, s3, b + 16);
            lemma_same_word(s, s3, meta + 8);
            lemma_same_word(s, s3, cut as int);
            lemma_same_word(s, s3, cut + 8);
            lemma_same_word(s, s3, cut + 16);
            lemma_same_word(s, s3, e as int);
        }
    } else {
        init_object(buf, b, size);
        proof {
            let s = buf@;
            lemma_same_word(s, s2, b as int);
            lemma_same_word(s, s2, b + 8);
            lemma_same_word(s, s2, b + 16);
            lemma_same_word(s, s2, meta + 8);
        }
    }
}

/// What freeing a block does to the buffer: the bytes from `low` up to
/// `next` have become one free block. `s` is the buffer after it, `t` the
/// one before.
pub open spec fn released_bytes(s: Seq<u8>, t: Seq<u8>, low: int, next: int) -> bool {
    &&& s.len() == t.len()
    &&& same_bytes(s, t, 0, low + 8)
    &&& word_at(s, low + 8) == 0
    &&& word_at(s, low + 16) == next
    &&& word_at(s, next) == low
    &&& same_bytes(s, t, next + 8, t.len() as int)
}

/// Frees the block at `start` and makes one free block of the bytes from
/// `low`, which is `start` or a free block before it, up to `next`.
pub(crate) fn release_block(buf: &mut Vec<u8>, start: usize, low: usize, next: usize)
    requires
        low == start || (low + HEADER_SIZE <= start && word_at(old(buf)@, low + 8) == 0),
        start + HEADER_SIZE <= next,
        next + 8 <= old(buf).len(),
    ensures
        released_bytes(final(buf)@, old(buf)@, low as int, next as int),
{
    proof {
        reveal(same_bytes);
    }
    write_word(buf, start + 8, 0);
    let ghost s1 = buf@;
    write_word(buf, low + 16, next);
    let ghost s2 = buf@;
    write_word(buf, next, low);
    proof {
        let s = buf@;
        lemma_same_word(s, s2, low + 16);
        if low == start {
            lemma_same_word(s2, s1, low + 8);
            lemma_same_word(s, s2, low + 8);
        } else {
            lemma_same_word(s, old(buf)@, low + 8);
        }
    }
}

/// A block whose bytes agree in two buffers but for the strong count reads
/// the same in both but for that count.
pub proof fn lemma_block_with_strong(s: Seq<u8>, t: Seq<u8>, b: int, e: int)
    requires
        0 <= b,
        b + OVERHEAD <= e <= s.len(),
        same_bytes(s, t, b, b + HEADER_SIZE),
        same_bytes(s, t, b + HEADER_SIZE + 8, e),
        word_at(s, b + 8) != 0,
        b + OVERHEAD + word_at(s, b + 40) <= e,
    ensures
        raw_block(t, b) == (BlockView { strong: word_at(t, b + 24), ..raw_block(s, b) }),
{
    reveal(same_bytes);
    lemma_same_word(s, t, b);
    lemma_same_word(s, t, b + 8);
    lemma_same_word(s, t, b + 16);
    lemma_same_word(s, t, b + 32);
    lemma_same_word(s, t, b + 40);
    let n = word_at(s, b + 40);
    assert(s.subrange(b + 48, b + 48 + n) =~= t.subrange(b + 48, b + 48 + n));
}

/// A block whose two headers agree in two buffers reads the same in both
/// but for its payload.
pub proof fn lemma_block_with_data(s: Seq<u8>, t: Seq<u8>, b: int)
    requires
        0 <= b,
        b + OVERHEAD <= s.len(),
        same_bytes(s, t, b, b + OVERHEAD),
        word_at(s, b + 8) != 0,
    ensures
        raw_block(t, b) == (BlockView {
            data: t.subrange(b + 48, b + 48 + word_at(s, b + 40)),
            ..raw_block(s, b)
        }),
{
    reveal(same_bytes);
    lemma_same_word(s, t, b);
    lemma_same_word(s, t, b + 8);
    lemma_same_word(s, t, b + 16);
    lemma_same_word(s, t, b + 24);
    lemma_same_word(s, t, b + 32);
    lemma_same_word(s, t, b + 40);
}

/// Copies `data` into the buffer from offset `at` on.
pub(crate) fn copy_bytes(buf: &mut Vec<u8>, at: usize, data: &[u8])
    requires
        at + data@.len() <= old(buf).len(),
    ensures
        final(buf).len() == old(buf).len(),
        final(buf)@.subrange(at as int, at + data@.len()) == data@,
        same_bytes(final(buf)@, old(buf)@, 0, at as int),
        same_bytes(final(buf)@, old(buf)@, at + data@.len(), old(buf).len() as int),
{
    proof {
        reveal(same_bytes);
    }
    let n = data.len();
    let mut k: usize = 0;
    while k < n
        invariant
            k <= n,
            n == data@.len(),
            at + n <= buf.len(),
            buf.len() == old(buf).len(),
            forall|j: int|
                0 <= j < buf.len() ==> buf@[j] == if at <= j < at + k {
                    data@[j - at]
                } else {
                    old(buf)@[j]
                },
        decreases n - k,
    {
        buf.set(at + k, data[k]);
        k += 1;
    }
    assert(buf@.subrange(at as int, at + data@.len()) =~= data@);
}

} // verus!
