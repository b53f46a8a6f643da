//! A heap inside one byte buffer: a doubly linked list of blocks, free and
//! allocated alike, followed by one page of metadata.

use crate::allocator::arc::{
    ArcByteSlice, ArcByteSliceInner, PersistedArcByteSlice, ARC_INNER_SIZE,
};
use crate::allocator::raw::{
    claim_block, claimed_bytes, copy_bytes, lemma_block_with_data, lemma_block_with_strong,
    lemma_same_block, lemma_same_block_but_prev, make_skip_entry, raw_block, release_block,
    released_bytes,
};
use crate::allocator::text::{append_decimal, append_truth};
use crate::allocator::view::{
    align8, block_info, block_text, blocks_text, chunk_size, free_block, BlockInfo, BlockView,
    PoolView,
};
use crate::allocator::words::{
    lemma_same_bytes_within, lemma_same_word, lemma_word_kept, read_word, same_bytes, word_at,
    write_word,
};
use crate::LodestoneError;
use vstd::prelude::*;
use vstd::slice::{slice_subrange, slice_to_vec};
use vstd::string::StringExecFns;

verus! {

/// The metadata at the end of the buffer takes one page.
pub const PAGE_SIZE: usize = 4096;

/// Marks the two ends of the block list, and a handle that denotes nothing.
pub const BUFFER_END: usize = usize::MAX;

/// The bytes of a block header: `prev`, `id_tag`, `next`.
pub const HEADER_SIZE: usize = 24;

/// What every allocation costs besides its payload.
pub const OVERHEAD: usize = 48;

/// The payload that fits in one page behind a block header.
pub const FIRST_OR_SINGLE_CONTENT_SIZE: usize = 4072;

/// The heap: the buffer it manages, room for the metadata page included.
pub struct Pool {
    buffer: Vec<u8>,
    /// Where each block starts, lowest first; the last entry is the sentinel.
    starts: Ghost<Seq<int>>,
}

/// The blocks that start at `st`, the last of which is the sentinel, and
/// the metadata, as they stand in the buffer `s` of `len` bytes.
#[verifier::opaque]
pub closed spec fn pool_view(s: Seq<u8>, len: usize, st: Seq<int>) -> PoolView {
    let meta = s.len() - PAGE_SIZE + HEADER_SIZE;
    PoolView {
        buffer_size: len,
        blocks: Seq::new((st.len() - 1) as nat, |i: int| raw_block(s, st[i])),
        lowest_known_free_index: word_at(s, meta),
        next_id_tag: word_at(s, meta + 8),
    }
}

/// The starts of a block list that ends in the sentinel at `end`: they rise
/// from one to the next.
#[verifier::opaque]
pub closed spec fn starts_wf(st: Seq<int>, end: int) -> bool {
    &&& st.len() >= 2
    &&& st.last() == end
    &&& forall|i: int| 0 <= i < st.len() ==> 0 <= #[trigger] st[i] <= end
    &&& forall|i: int, j: int| 0 <= i < j < st.len() ==> #[trigger] st[i] < #[trigger] st[j]
}

/// What `starts_wf` says of the starts at `i` and `j`.
pub proof fn lemma_starts(st: Seq<int>, end: int, i: int, j: int)
    requires
        starts_wf(st, end),
        0 <= i <= j < st.len(),
    ensures
        st.len() >= 2,
        st.last() == end,
        0 <= st[i] <= st[j] <= end,
        i < j ==> st[i] < st[j],
        st[j] == end ==> j == st.len() - 1,
{
    reveal(starts_wf);
}

/// A block list holds a block and the sentinel at least.
pub proof fn lemma_starts_len(st: Seq<int>, end: int)
    requires
        starts_wf(st, end),
    ensures
        st.len() >= 2,
        st.last() == end,
{
    reveal(starts_wf);
}

/// A start put between two neighbours keeps the starts rising.
pub proof fn lemma_starts_insert(st: Seq<int>, end: int, k: int, v: int)
    requires
        starts_wf(st, end),
        0 <= k < st.len() - 1,
        st[k] < v < st[k + 1],
    ensures
        starts_wf(st.insert(k + 1, v), end),
{
    reveal(starts_wf);
    let t = st.insert(k + 1, v);
    assert forall|i: int, j: int| 0 <= i < j < t.len() implies #[trigger] t[i] < #[trigger] t[j] by {
        let i0 = if i <= k {
            i
        } else {
            i - 1
        };
        let j0 = if j <= k {
            j
        } else {
            j - 1
        };
        if i != k + 1 && j != k + 1 {
            assert(st[i0] < st[j0]);
        } else if i == k + 1 {
            assert(st[k + 1] <= st[j0]);
        } else {
            assert(st[i0] <= st[k]);
        }
    }
    assert forall|i: int| 0 <= i < t.len() implies 0 <= #[trigger] t[i] <= end by {
        if i <= k {
            assert(0 <= st[i] <= end);
        } else if i > k + 1 {
            assert(0 <= st[i - 1] <= end);
        } else {
            assert(0 <= st[k]);
            assert(st[k + 1] <= end);
        }
    }
}

/// Starts taken out of the middle keep the starts rising.
pub proof fn lemma_starts_remove(st: Seq<int>, end: int, lo: int, hi: int)
    requires
        starts_wf(st, end),
        0 <= lo <= hi < st.len() - 1,
    ensures
        starts_wf(st.subrange(0, lo + 1) + st.subrange(hi + 1, st.len() as int), end),
{
    reveal(starts_wf);
    let t = st.subrange(0, lo + 1) + st.subrange(hi + 1, st.len() as int);
    assert forall|i: int, j: int| 0 <= i < j < t.len() implies #[trigger] t[i] < #[trigger] t[j] by {
        let i0 = if i <= lo {
            i
        } else {
            i + hi - lo
        };
        let j0 = if j <= lo {
            j
        } else {
            j + hi - lo
        };
        assert(st[i0] < st[j0]);
    }
    assert forall|i: int| 0 <= i < t.len() implies 0 <= #[trigger] t[i] <= end by {
        let i0 = if i <= lo {
            i
        } else {
            i + hi - lo
        };
        assert(0 <= st[i0] <= end);
    }
}

impl View for Pool {
    type V = PoolView;

    closed spec fn view(&self) -> PoolView {
        pool_view(self.buffer@, self.buffer.len(), self.starts@)
    }
}

impl Pool {
    /// The bytes of the buffer as they stand.
    pub closed spec fn bytes(&self) -> Seq<u8> {
        self.buffer@
    }

    /// The sentinel closes the block list just before the metadata.
    pub closed spec fn sentinel_wf(&self) -> bool {
        let s = self.buffer@;
        let st = self.starts@;
        let end = s.len() - PAGE_SIZE;
        &&& s.len() >= PAGE_SIZE + OVERHEAD
        &&& starts_wf(st, end)
        &&& word_at(s, end) == st[st.len() - 2]
        &&& word_at(s, end + 8) != 0
        &&& word_at(s, end + 8) < word_at(s, end + HEADER_SIZE + 8)
        &&& word_at(s, end + 16) == BUFFER_END
    }

    /// The buffer holds a well-formed block list.
    pub open spec fn wf(&self) -> bool {
        self.sentinel_wf() && self@.wf()
    }

    /// Lays out an empty heap in the buffer: one free block before the
    /// metadata page, which starts with the sentinel.
    fn lay_out(&mut self)
        requires
            old(self).buffer.len() >= PAGE_SIZE + OVERHEAD,
        ensures
            final(self).wf(),
            final(self)@ == PoolView::initial(old(self).buffer.len()),
    {
        let last = self.buffer.len() - PAGE_SIZE;
        write_word(&mut self.buffer, last + HEADER_SIZE, 0);
        let ghost s0 = self.buffer@;
        write_word(&mut self.buffer, last + HEADER_SIZE + 8, 1);
        let ghost s1 = self.buffer@;
        make_skip_entry(&mut self.buffer, 0, BUFFER_END, last, true);
        let ghost s2 = self.buffer@;
        make_skip_entry(&mut self.buffer, last, 0, BUFFER_END, false);
        proof {
            self.starts@ = seq![0int, last as int];
            reveal(same_bytes);
            reveal(pool_view);
            reveal(starts_wf);
            let s = self.buffer@;
            let len = old(self).buffer.len();
            lemma_same_word(s, s2, 0);
            lemma_same_word(s, s2, 8);
            lemma_same_word(s, s2, 16);
            lemma_same_word(s1, s0, last + HEADER_SIZE);
            lemma_same_word(s2, s1, last + HEADER_SIZE);
            lemma_same_word(s, s2, last + HEADER_SIZE);
            assert(raw_block(s, 0) == free_block(0, BUFFER_END, last));
            assert(self@.blocks =~= PoolView::initial(len).blocks);
            assert(self@ == PoolView::initial(len));
            assert(self@.block_linked(0));
            reveal_with_fuel(PoolView::first_fit_from, 2);
        }
    }

    /// Lays out an empty heap in `buf`: one free block before the metadata
    /// page, which starts with the sentinel.
    pub fn new(buf: Vec<u8>) -> (pool: Pool)
        requires
            buf.len() >= PAGE_SIZE + OVERHEAD,
        ensures
            pool.wf(),
            pool@ == PoolView::initial(buf.len()),
    {
        let mut pool = Pool { buffer: buf, starts: Ghost(Seq::empty()) };
        pool.lay_out();
        pool
    }

    /// Removes every object from the pool and fills the buffer with zeros:
    /// what is left is an empty heap, with the tag counter where a new
    /// pool has it.
    pub fn clear(&mut self)
        requires
            old(self).inv(),
        ensures
            final(self).wf(),
            final(self)@ == PoolView::initial(old(self)@.buffer_size),
    {
        proof {
            reveal(pool_view);
        }
        let mut i: usize = 0;
        while i < self.buffer.len()
            invariant
                self.buffer.len() == old(self).buffer.len(),
            decreases self.buffer.len() - i,
        {
            self.buffer.set(i, 0);
            i += 1;
        }
        self.lay_out();
    }
}

/// Rounds `size` up to the next multiple of eight.
pub fn byte_align(size: usize) -> (r: usize)
    requires
        size + 7 <= usize::MAX,
    ensures
        r == align8(size as int),
{
    let spill: usize = if size % 8 == 0 {
        0
    } else {
        1
    };
    8 * (size / 8 + spill)
}

impl Pool {
    /// The block list is closed by the sentinel and linked throughout.
    pub open spec fn inv(&self) -> bool {
        self.sentinel_wf() && self@.linked()
    }

    /// The pool `after` reads as `model`, if each of its blocks and its
    /// metadata do.
    proof fn lemma_view_is(&self, model: PoolView)
        requires
            model.buffer_size == self.buffer.len(),
            model.blocks.len() == self.starts@.len() - 1,
            forall|j: int|
                0 <= j < model.blocks.len() ==> raw_block(self.buffer@, self.starts@[j])
                    == #[trigger] model.blocks[j],
            model.lowest_known_free_index == word_at(
                self.buffer@,
                self.buffer@.len() - PAGE_SIZE + HEADER_SIZE,
            ),
            model.next_id_tag == word_at(
                self.buffer@,
                self.buffer@.len() - PAGE_SIZE + HEADER_SIZE + 8,
            ),
        ensures
            self@ == model,
    {
        reveal(pool_view);
        assert(self@.blocks =~= model.blocks);
    }

    /// What the view shows is what stands in the buffer.
    proof fn lemma_view(&self)
        requires
            self.sentinel_wf(),
        ensures
            self@.buffer_size == self.buffer@.len(),
            self@.blocks.len() == self.starts@.len() - 1,
            self@.lowest_known_free_index == word_at(
                self.buffer@,
                self.buffer@.len() - PAGE_SIZE + HEADER_SIZE,
            ),
            self@.next_id_tag == word_at(
                self.buffer@,
                self.buffer@.len() - PAGE_SIZE + HEADER_SIZE + 8,
            ),
            forall|j: int|
                0 <= j < self.starts@.len() - 1 ==> #[trigger] self@.blocks[j] == raw_block(
                    self.buffer@,
                    self.starts@[j],
                ),
    {
        reveal(pool_view);
        lemma_starts_len(self.starts@, self.buffer@.len() - PAGE_SIZE);
    }

    /// How block `j` of the view lies in the buffer.
    proof fn lemma_block(&self, j: int)
        requires
            self.inv(),
            0 <= j < self@.blocks.len(),
        ensures
            self@.blocks.len() == self.starts@.len() - 1,
            self@.buffer_size == self.buffer@.len(),
            self@.blocks[j] == raw_block(self.buffer@, self.starts@[j]),
            self@.blocks[j].start == self.starts@[j],
            self@.blocks[j].next == self.starts@[j + 1],
            self@.blocks[j].prev == word_at(self.buffer@, self.starts@[j]),
            self@.blocks[j].tag == word_at(self.buffer@, self.starts@[j] + 8),
            self@.blocks[j].next == word_at(self.buffer@, self.starts@[j] + 16),
            0 <= self.starts@[j],
            self.starts@[j] + HEADER_SIZE <= self.starts@[j + 1],
            self.starts@[j + 1] <= self.buffer@.len() - PAGE_SIZE,
            self.starts@[j + 1] == self.buffer@.len() - PAGE_SIZE <==> j + 1 == self@.blocks.len(),
            self@.block_linked(j),
    {
        self.lemma_view();
        let end = self.buffer@.len() - PAGE_SIZE;
        lemma_starts(self.starts@, end, j, j + 1);
        assert(self@.block_linked(j));
        if j + 1 < self@.blocks.len() {
            assert(self@.block_linked(j + 1));
        }
    }

    /// The starts of the blocks rise from one to the next.
    proof fn lemma_block_order(&self, i: int, j: int)
        requires
            self.inv(),
            0 <= i <= j <= self@.blocks.len(),
        ensures
            self.starts@.len() == self@.blocks.len() + 1,
            0 <= self.starts@[i] <= self.starts@[j] <= self.buffer@.len() - PAGE_SIZE,
            i < j ==> self.starts@[i] < self.starts@[j],
    {
        self.lemma_view();
        lemma_starts(self.starts@, self.buffer@.len() - PAGE_SIZE, i, j);
    }

    /// The size of the buffer in bytes.
    pub fn buffer_size(&self) -> (n: usize)
        ensures
            n == self@.buffer_size,
    {
        proof {
            reveal(pool_view);
        }
        self.buffer.len()
    }

    /// The hint: where the lowest free block starts, or `BUFFER_END`.
    pub fn lowest_known_free_index(&self) -> (n: usize)
        requires
            self.inv(),
        ensures
            n == self@.lowest_known_free_index,
    {
        proof {
            self.lemma_view();
        }
        read_word(&self.buffer, self.buffer.len() - PAGE_SIZE + HEADER_SIZE)
    }

    /// The tag that the next allocation will carry.
    pub fn next_id_tag(&self) -> (n: usize)
        requires
            self.inv(),
        ensures
            n == self@.next_id_tag,
    {
        proof {
            self.lemma_view();
        }
        read_word(&self.buffer, self.buffer.len() - PAGE_SIZE + HEADER_SIZE + 8)
    }

    /// Walks the list from the block at `start` to the first free block that
    /// spans at least `size` bytes. Returns where it starts, or `BUFFER_END`.
    fn next_free_block_larger_than(&self, size: usize, start: usize, Ghost(k): Ghost<int>) -> (r: (
        usize,
        Ghost<int>,
    ))
        requires
            self.inv(),
            0 <= k < self@.blocks.len(),
            start == self@.blocks[k].start,
        ensures
            r.1@ == self@.first_fit_from(size as int, k),
            r.0 == self@.start_or_end(r.1@),
            r.1@ == -1 || k <= r.1@ < self@.blocks.len(),
    {
        let end = self.buffer.len() - PAGE_SIZE;
        let mut cur = start;
        let ghost mut j = k;
        loop
            invariant
                self.inv(),
                end == self.buffer.len() - PAGE_SIZE,
                0 <= k <= j < self@.blocks.len(),
                cur == self@.blocks[j].start,
                self@.first_fit_from(size as int, k) == self@.first_fit_from(size as int, j),
            decreases self@.blocks.len() - j,
        {
            proof {
                self.lemma_block(j);
            }
            let tag = read_word(&self.buffer, cur + 8);
            let next = read_word(&self.buffer, cur + 16);
            if tag == 0 && next - cur >= size {
                return (cur, Ghost(j));
            }
            if next == end {
                assert(self@.first_fit_from(size as int, j + 1) == -1);
                return (BUFFER_END, Ghost(-1));
            }
            proof {
                self.lemma_block(j + 1);
                j = j + 1;
            }
            cur = next;
        }
    }

    /// Enumerates the blocks from the lowest offset up, without the sentinel.
    pub fn get_debug_blocks(&self) -> (ret: Vec<BlockInfo>)
        requires
            self.inv(),
        ensures
            ret@.len() == self@.blocks.len(),
            forall|i: int| 0 <= i < ret@.len() ==> ret@[i] == block_info(#[trigger] self@.blocks[i]),
    {
        let end = self.buffer.len() - PAGE_SIZE;
        let mut ret: Vec<BlockInfo> = Vec::new();
        let mut cur: usize = 0;
        let ghost mut j = 0int;
        loop
            invariant
                self.inv(),
                end == self.buffer.len() - PAGE_SIZE,
                0 <= j < self@.blocks.len(),
                cur == self@.blocks[j].start,
                ret@.len() == j,
                forall|i: int| 0 <= i < j ==> ret@[i] == block_info(#[trigger] self@.blocks[i]),
            decreases self@.blocks.len() - j,
        {
            proof {
                self.lemma_block(j);
            }
            let prev = read_word(&self.buffer, cur);
            let tag = read_word(&self.buffer, cur + 8);
            let next = read_word(&self.buffer, cur + 16);
            let span = next - cur;
            let capacity: usize = if span >= OVERHEAD {
                span - OVERHEAD
            } else {
                0
            };
            ret.push(BlockInfo { start: cur, capacity, next, prev, is_free: tag == 0 });
            if next == end {
                return ret;
            }
            proof {
                self.lemma_block(j + 1);
                j = j + 1;
            }
            cur = next;
        }
    }
}

impl Pool {
    /// Sets the hint in the metadata page.
    fn set_hint(&mut self, idx: usize)
        requires
            old(self).inv(),
        ensures
            final(self).inv(),
            final(self)@ == old(self)@.with_hint(idx),
            same_bytes(
                final(self).bytes(),
                old(self).bytes(),
                0,
                old(self).bytes().len() - PAGE_SIZE + HEADER_SIZE,
            ),
    {
        let meta = self.buffer.len() - PAGE_SIZE + HEADER_SIZE;
        write_word(&mut self.buffer, meta, idx);
        proof {
            let s = self.buffer@;
            let t = old(self).buffer@;
            let end = meta - HEADER_SIZE;
            old(self).lemma_view();
            lemma_word_kept(s, t, meta + 8, t.len() as int, meta + 8);
            lemma_word_kept(s, t, 0, meta as int, end);
            lemma_same_bytes_within(s, t, 0, meta as int, end + 8, end + HEADER_SIZE);
            old(self).lemma_sentinel_kept(self);
            assert forall|j: int| 0 <= j < old(self)@.blocks.len() implies raw_block(
                s,
                self.starts@[j],
            ) == #[trigger] old(self)@.with_hint(idx).blocks[j] by {
                old(self).lemma_block(j);
                old(self).lemma_block_kept(s, 0, meta as int, j);
            }
            self.lemma_view_is(old(self)@.with_hint(idx));
            assert forall|j: int| 0 <= j < self@.blocks.len() implies #[trigger] self@.block_linked(
                j,
            ) by {
                assert(old(self)@.block_linked(j));
            }
        }
    }

    /// Looks from the hint on for the first free block that spans enough for
    /// `size` bytes of payload. Returns where it starts and the bytes that
    /// the allocation takes.
    fn find_fit(&self, size: usize) -> (res: Option<(usize, Ghost<int>, usize)>)
        requires
            self.wf(),
        ensures
            match res {
                Some((start, gi, chunked)) => {
                    &&& gi@ == self@.first_fit(chunk_size(size as int))
                    &&& 0 <= gi@ < self@.blocks.len()
                    &&& start == self@.blocks[gi@].start
                    &&& chunked == chunk_size(size as int)
                    &&& self@.fits(gi@, chunked as int)
                    &&& 0 <= self@.first_fit(0) <= gi@
                },
                None => self@.first_fit(chunk_size(size as int)) < 0,
            },
    {
        let meta = self.buffer.len() - PAGE_SIZE + HEADER_SIZE;
        let ghost v0 = self@;
        let ghost chunk = chunk_size(size as int);
        proof {
            self.lemma_view();
            v0.lemma_first_fit(chunk, 0);
            v0.lemma_first_fit(0, 0);
        }
        if size > usize::MAX - OVERHEAD - 7 {
            proof {
                let r = v0.first_fit(chunk);
                if r >= 0 {
                    assert(v0.block_linked(r));
                }
            }
            return None;
        }
        let chunked = byte_align(size) + OVERHEAD;
        let hint = read_word(&self.buffer, meta);
        let ghost h = v0.first_fit(0);
        if hint == BUFFER_END {
            proof {
                if h >= 0 {
                    assert(v0.block_linked(h));
                }
                let r = v0.first_fit(chunk);
                if r >= 0 {
                    assert(v0.block_linked(r));
                    assert(v0.fits(r, 0));
                }
            }
            return None;
        }
        proof {
            assert(h >= 0);
            assert(v0.block_linked(h));
            // no block below the hint is free, so none of them fits
            assert forall|j: int| 0 <= j < h implies !v0.fits(j, chunk) by {
                assert(v0.block_linked(j));
                assert(!v0.fits(j, 0));
            }
            let r = v0.first_fit_from(chunk, h);
            v0.lemma_first_fit(chunk, h);
            if r >= 0 {
                v0.lemma_first_fit_is(chunk, 0, r);
            } else {
                v0.lemma_first_fit_none(chunk, 0);
            }
        }
        let (start, Ghost(i)) = self.next_free_block_larger_than(chunked, hint, Ghost(h));
        if start == BUFFER_END {
            proof {
                if i >= 0 {
                    assert(v0.block_linked(i));
                }
            }
            return None;
        }
        Some((start, Ghost(i), chunked))
    }

    /// Block `j` reads in `t` as it does here, if `t` agrees with this buffer
    /// on a range that holds the block.
    proof fn lemma_block_kept(&self, t: Seq<u8>, lo: int, hi: int, j: int)
        requires
            self.inv(),
            0 <= j < self@.blocks.len(),
            same_bytes(t, self.buffer@, lo, hi),
            lo <= self.starts@[j],
            self.starts@[j + 1] <= hi,
        ensures
            raw_block(t, self.starts@[j]) == self@.blocks[j],
    {
        self.lemma_block(j);
        lemma_same_bytes_within(t, self.buffer@, lo, hi, self.starts@[j], self.starts@[j + 1]);
        lemma_same_block(self.buffer@, t, self.starts@[j], self.starts@[j + 1]);
    }

    /// Block `j` reads in `t` as it does here but for `prev`, if `t` agrees
    /// with this buffer on a range that holds the block behind that word.
    proof fn lemma_block_kept_but_prev(&self, t: Seq<u8>, lo: int, hi: int, j: int)
        requires
            self.inv(),
            0 <= j < self@.blocks.len(),
            same_bytes(t, self.buffer@, lo, hi),
            lo <= self.starts@[j] + 8,
            self.starts@[j + 1] <= hi,
        ensures
            raw_block(t, self.starts@[j]) == (BlockView {
                prev: word_at(t, self.starts@[j]),
                ..self@.blocks[j]
            }),
    {
        self.lemma_block(j);
        lemma_same_bytes_within(t, self.buffer@, lo, hi, self.starts@[j] + 8, self.starts@[j + 1]);
        lemma_same_block_but_prev(self.buffer@, t, self.starts@[j], self.starts@[j + 1]);
    }

    /// The sentinel stands in `after` as it does here, where `after` agrees
    /// with this buffer on the sentinel's tag and `next`.
    proof fn lemma_sentinel_kept(&self, after: &Pool)
        requires
            self.sentinel_wf(),
            after.buffer@.len() == self.buffer@.len(),
            starts_wf(after.starts@, self.buffer@.len() - PAGE_SIZE),
            word_at(after.buffer@, self.buffer@.len() - PAGE_SIZE) == after.starts@[
                after.starts@.len() - 2
            ],
            same_bytes(
                after.buffer@,
                self.buffer@,
                self.buffer@.len() - PAGE_SIZE + 8,
                self.buffer@.len() - PAGE_SIZE + HEADER_SIZE,
            ),
            word_at(after.buffer@, self.buffer@.len() - PAGE_SIZE + HEADER_SIZE + 8) >= word_at(
                self.buffer@,
                self.buffer@.len() - PAGE_SIZE + HEADER_SIZE + 8,
            ),
        ensures
            after.sentinel_wf(),
    {
        let end = self.buffer@.len() - PAGE_SIZE;
        lemma_word_kept(after.buffer@, self.buffer@, end + 8, end + HEADER_SIZE, end + 8);
        lemma_word_kept(after.buffer@, self.buffer@, end + 8, end + HEADER_SIZE, end + 16);
    }

    /// The starts of the blocks after block `i` has been claimed in a chunk
    /// of `chunk` bytes.
    closed spec fn starts_after_claim(&self, i: int, chunk: int) -> Seq<int> {
        if self.starts@[i + 1] - (self.starts@[i] + chunk) >= HEADER_SIZE {
            self.starts@.insert(i + 1, self.starts@[i] + chunk)
        } else {
            self.starts@
        }
    }

    /// After a claim the sentinel still closes the list.
    proof fn lemma_claim_sentinel(&self, after: &Pool, i: int, chunk: int, size: usize)
        requires
            self.inv(),
            0 <= i < self@.blocks.len(),
            self@.fits(i, chunk),
            chunk == chunk_size(size as int),
            self@.next_id_tag < usize::MAX,
            claimed_bytes(
                after.buffer@,
                self.buffer@,
                self.starts@[i],
                self.starts@[i + 1],
                chunk,
                size,
                self@.next_id_tag,
            ),
            after.starts@ == self.starts_after_claim(i, chunk),
        ensures
            after.sentinel_wf(),
            after.buffer.len() == self.buffer.len(),
            after.starts@.len() - 1 == self@.claimed(i, size, 0, Seq::empty()).len(),
            word_at(after.buffer@, after.buffer@.len() - PAGE_SIZE + HEADER_SIZE)
                == self@.lowest_known_free_index,
            word_at(after.buffer@, after.buffer@.len() - PAGE_SIZE + HEADER_SIZE + 8)
                == self@.next_id_tag + 1,
    {
        let s0 = self.buffer@;
        let s = after.buffer@;
        let st0 = self.starts@;
        let st = after.starts@;
        let start = st0[i];
        let following = st0[i + 1];
        let cut = start + chunk;
        let split = following - cut >= HEADER_SIZE;
        let end = s0.len() - PAGE_SIZE;
        let meta = end + HEADER_SIZE;
        self.lemma_view();
        self.lemma_block(i);
        self.lemma_block_order(i + 1, self@.blocks.len() as int);
        self.lemma_block_order(self@.blocks.len() - 1, self@.blocks.len() as int);
        if following != end {
            self.lemma_block(i + 1);
        }
        lemma_same_bytes_within(s, s0, following + 8, meta + 8, end + 8, end + HEADER_SIZE);
        if following != end {
            lemma_word_kept(s, s0, following + 8, meta + 8, end);
        } else if !split {
            lemma_word_kept(s, s0, end, end + 8, end);
        }
        if split {
            lemma_starts_insert(st0, end, i, cut);
        }
        assert(st[st.len() - 2] == if following == end && split {
            cut
        } else {
            st0[st0.len() - 2]
        });
        assert(word_at(s, end) == st[st.len() - 2]);
        self.lemma_sentinel_kept(after);
        lemma_word_kept(s, s0, following + 8, meta + 8, meta);
    }

    /// After a claim the blocks read as the model says.
    #[verifier::rlimit(50)]
    proof fn lemma_claim_blocks(&self, after: &Pool, i: int, chunk: int, size: usize, j: int)
        requires
            self.inv(),
            0 <= i < self@.blocks.len(),
            self@.fits(i, chunk),
            chunk == chunk_size(size as int),
            self@.next_id_tag < usize::MAX,
            claimed_bytes(
                after.buffer@,
                self.buffer@,
                self.starts@[i],
                self.starts@[i + 1],
                chunk,
                size,
                self@.next_id_tag,
            ),
            after.starts@ == self.starts_after_claim(i, chunk),
            0 <= j < after.starts@.len() - 1,
        ensures
            raw_block(after.buffer@, after.starts@[j]) == self@.claimed(
                i,
                size,
                0,
                self.buffer@.subrange(
                    self.starts@[i] + OVERHEAD,
                    self.starts@[i] + OVERHEAD + size,
                ),
            )[j],
    {
        let s0 = self.buffer@;
        let s = after.buffer@;
        let st0 = self.starts@;
        let start = st0[i];
        let following = st0[i + 1];
        let cut = start + chunk;
        let split = following - cut >= HEADER_SIZE;
        let data = s0.subrange(start + OVERHEAD, start + OVERHEAD + size);
        let end = s0.len() - PAGE_SIZE;
        let meta = end + HEADER_SIZE;
        self.lemma_block(i);
        if following != end {
            self.lemma_block(i + 1);
        }
        if j < i {
            self.lemma_block(j);
            self.lemma_block_order(j + 1, i);
            self.lemma_block_kept(s, 0, start, j);
        } else if j == i {
            assert(s.subrange(start + OVERHEAD, start + OVERHEAD + size) =~= data) by {
                reveal(same_bytes);
            }
        } else if split && j == i + 1 {
        } else {
            let j0 = if split {
                j - 1
            } else {
                j
            };
            self.lemma_block(j0);
            if j0 == i + 1 {
                if split {
                    self.lemma_block_kept_but_prev(s, following + 8, meta + 8, j0);
                } else {
                    assert(same_bytes(s, s0, following as int, meta + 8)) by {
                        reveal(same_bytes);
                    }
                    self.lemma_block_kept(s, following, meta + 8, j0);
                }
            } else {
                self.lemma_block_order(i + 2, j0);
                self.lemma_block_kept(s, following + 8, meta + 8, j0);
            }
        }
    }

    /// The pool `after` is this pool with block `i` claimed, if its buffer is
    /// this buffer with that block's bytes claimed.
    proof fn lemma_claim(&self, after: &Pool, i: int, chunk: int, size: usize)
        requires
            self.inv(),
            0 <= i < self@.blocks.len(),
            self@.fits(i, chunk),
            chunk == chunk_size(size as int),
            self@.next_id_tag < usize::MAX,
            claimed_bytes(
                after.buffer@,
                self.buffer@,
                self.starts@[i],
                self.starts@[i + 1],
                chunk,
                size,
                self@.next_id_tag,
            ),
            after.starts@ == self.starts_after_claim(i, chunk),
        ensures
            after.inv(),
            after@ == self@.after_claim(
                i,
                size,
                0,
                self.buffer@.subrange(
                    self.starts@[i] + OVERHEAD,
                    self.starts@[i] + OVERHEAD + size,
                ),
            ),
    {
        let data = self.buffer@.subrange(
            self.starts@[i] + OVERHEAD,
            self.starts@[i] + OVERHEAD + size,
        );
        let model = self@.after_claim(i, size, 0, data);
        self.lemma_view();
        self.lemma_block(i);
        self.lemma_claim_sentinel(after, i, chunk, size);
        assert forall|j: int| 0 <= j < model.blocks.len() implies raw_block(
            after.buffer@,
            after.starts@[j],
        ) == #[trigger] model.blocks[j] by {
            self.lemma_claim_blocks(after, i, chunk, size, j);
        }
        after.lemma_view_is(model);
        self@.lemma_claimed_linked(i, size, 0, data);
    }

    /// Claims block `i`, which fits, for `size` bytes of payload.
    fn claim(&mut self, start: usize, Ghost(i): Ghost<int>, chunked: usize, size: usize)
        requires
            old(self).inv(),
            0 <= i < old(self)@.blocks.len(),
            old(self)@.blocks[i].start == start,
            old(self)@.fits(i, chunked as int),
            chunked == chunk_size(size as int),
            old(self)@.next_id_tag < usize::MAX,
        ensures
            final(self).inv(),
            start + OVERHEAD + size <= old(self)@.blocks[i].next,
            final(self)@ == old(self)@.after_claim(
                i,
                size,
                0,
                old(self).bytes().subrange(start + OVERHEAD, start + OVERHEAD + size),
            ),
    {
        let meta = self.buffer.len() - PAGE_SIZE + HEADER_SIZE;
        proof {
            self.lemma_view();
            self.lemma_block(i);
        }
        let tag = read_word(&self.buffer, meta + 8);
        let following = read_word(&self.buffer, start + 16);
        let ghost st0 = self.starts@;
        claim_block(&mut self.buffer, start, following, chunked, size, tag);
        let cut = start + chunked;
        if following - cut >= HEADER_SIZE {
            proof {
                self.starts@ = st0.insert(i + 1, cut as int);
            }
        }
        proof {
            old(self).lemma_claim(self, i, chunked as int, size);
        }
    }

    /// Moves the hint from block `i`, which is no longer free, to the next
    /// free block.
    fn refresh_hint(&mut self, start: usize, Ghost(i): Ghost<int>)
        requires
            old(self).inv(),
            0 <= i < old(self)@.blocks.len(),
            old(self)@.blocks[i].start == start,
            forall|j: int| 0 <= j < i ==> (#[trigger] old(self)@.blocks[j]).tag != 0,
        ensures
            final(self).inv(),
            final(self)@ == old(self)@.rehinted(),
            same_bytes(
                final(self).bytes(),
                old(self).bytes(),
                0,
                old(self).bytes().len() - PAGE_SIZE + HEADER_SIZE,
            ),
    {
        let (idx, Ghost(r)) = self.next_free_block_larger_than(0, start, Ghost(i));
        proof {
            let v = self@;
            v.lemma_first_fit(0, i);
            if r >= 0 {
                v.lemma_first_fit_is(0, 0, r);
            } else {
                v.lemma_first_fit_none(0, 0);
            }
        }
        self.set_hint(idx);
    }

    /// Claims the first free block from the hint on that spans enough for
    /// `size` bytes of payload. The block's object has no reference yet.
    /// Returns where the block starts.
    fn malloc_inner(&mut self, size: usize) -> (res: Result<(usize, Ghost<int>), LodestoneError>)
        requires
            old(self).wf(),
        ensures
            final(self).inv(),
            match res {
                Ok((start, gi)) => {
                    let i = gi@;
                    &&& i == old(self)@.first_fit(chunk_size(size as int))
                    &&& 0 <= i < old(self)@.blocks.len()
                    &&& old(self)@.next_id_tag < usize::MAX
                    &&& start == old(self)@.blocks[i].start
                    &&& start + OVERHEAD + size <= old(self)@.blocks[i].next
                    &&& final(self)@ == old(self)@.after_claim(
                        i,
                        size,
                        0,
                        old(self).bytes().subrange(start + OVERHEAD, start + OVERHEAD + size),
                    ).rehinted()
                },
                Err(e) => {
                    &&& e == LodestoneError::OutOfMemory
                    &&& *final(self) == *old(self)
                    &&& (old(self)@.first_fit(chunk_size(size as int)) < 0 || old(
                        self,
                    )@.next_id_tag == usize::MAX)
                },
            },
    {
        let meta = self.buffer.len() - PAGE_SIZE + HEADER_SIZE;
        let ghost v0 = self@;
        let (start, Ghost(i), chunked) = match self.find_fit(size) {
            Some(found) => found,
            None => { return Err(LodestoneError::OutOfMemory); },
        };
        proof {
            self.lemma_view();
        }
        let tag = read_word(&self.buffer, meta + 8);
        if tag == usize::MAX {
            return Err(LodestoneError::OutOfMemory);
        }
        let hint = read_word(&self.buffer, meta);
        let ghost h = v0.first_fit(0);
        let ghost data = self.buffer@.subrange(start + OVERHEAD, start + OVERHEAD + size);
        proof {
            v0.lemma_first_fit(0, 0);
            self.lemma_block(i);
            self.lemma_block(h);
            self.lemma_block_order(h, i);
        }
        self.claim(start, Ghost(i), chunked, size);
        proof {
            v0.lemma_claimed_agrees(i, size, 0, data);
        }
        if start == hint {
            proof {
                assert(i == h);
                assert forall|j: int| 0 <= j < i implies (#[trigger] self@.blocks[j]).tag != 0 by {
                    assert(v0.block_linked(j));
                    assert(!v0.fits(j, 0));
                }
            }
            self.refresh_hint(start, Ghost(i));
        } else {
            proof {
                let w = self@;
                assert(h < i);
                assert(w.fits(h, 0));
                assert forall|j: int| 0 <= j < h implies !w.fits(j, 0) by {
                    assert(!v0.fits(j, 0));
                }
                w.lemma_first_fit_is(0, 0, h);
                assert(w == w.rehinted());
            }
        }
        Ok((start, Ghost(i)))
    }
}

impl Pool {
    /// The starts of the blocks after block `i` has been freed.
    closed spec fn starts_after_free(&self, i: int) -> Seq<int> {
        self.starts@.subrange(0, self@.merge_low(i) + 1) + self.starts@.subrange(
            self@.merge_high(i) + 1,
            self.starts@.len() as int,
        )
    }

    /// After a free the sentinel still closes the list.
    proof fn lemma_release_sentinel(&self, after: &Pool, i: int)
        requires
            self.inv(),
            0 <= i < self@.blocks.len(),
            released_bytes(
                after.buffer@,
                self.buffer@,
                self.starts@[self@.merge_low(i)],
                self.starts@[self@.merge_high(i) + 1],
            ),
            after.starts@ == self.starts_after_free(i),
        ensures
            after.sentinel_wf(),
            after.buffer.len() == self.buffer.len(),
            after.starts@.len() - 1 == self@.released(i).len(),
            word_at(after.buffer@, after.buffer@.len() - PAGE_SIZE + HEADER_SIZE)
                == self@.lowest_known_free_index,
            word_at(after.buffer@, after.buffer@.len() - PAGE_SIZE + HEADER_SIZE + 8)
                == self@.next_id_tag,
    {
        let s0 = self.buffer@;
        let s = after.buffer@;
        let st0 = self.starts@;
        let st = after.starts@;
        let lo = self@.merge_low(i);
        let hi = self@.merge_high(i);
        let low = st0[lo];
        let next = st0[hi + 1];
        let end = s0.len() - PAGE_SIZE;
        let meta = end + HEADER_SIZE;
        self.lemma_view();
        self.lemma_block(lo);
        self.lemma_block(hi);
        self.lemma_block_order(self@.blocks.len() - 1, self@.blocks.len() as int);
        if next != end {
            self.lemma_block(hi + 1);
            self.lemma_block_order(hi + 2, self@.blocks.len() as int);
        }
        lemma_same_bytes_within(s, s0, next + 8, s0.len() as int, end + 8, end + HEADER_SIZE);
        if next != end {
            lemma_word_kept(s, s0, next + 8, s0.len() as int, end);
        }
        lemma_starts_remove(st0, end, lo, hi);
        assert(st[st.len() - 2] == if next == end {
            low
        } else {
            st0[st0.len() - 2]
        });
        assert(word_at(s, end) == st[st.len() - 2]);
        lemma_word_kept(s, s0, next + 8, s0.len() as int, meta);
        lemma_word_kept(s, s0, next + 8, s0.len() as int, meta + 8);
        self.lemma_sentinel_kept(after);
    }

    /// After a free the blocks read as the model says.
    #[verifier::rlimit(50)]
    proof fn lemma_release_blocks(&self, after: &Pool, i: int, j: int)
        requires
            self.inv(),
            0 <= i < self@.blocks.len(),
            released_bytes(
                after.buffer@,
                self.buffer@,
                self.starts@[self@.merge_low(i)],
                self.starts@[self@.merge_high(i) + 1],
            ),
            after.starts@ == self.starts_after_free(i),
            0 <= j < after.starts@.len() - 1,
        ensures
            raw_block(after.buffer@, after.starts@[j]) == self@.released(i)[j],
    {
        let s0 = self.buffer@;
        let s = after.buffer@;
        let st0 = self.starts@;
        let lo = self@.merge_low(i);
        let hi = self@.merge_high(i);
        let low = st0[lo];
        let next = st0[hi + 1];
        self.lemma_view();
        self.lemma_block(lo);
        self.lemma_block(hi);
        if j < lo {
            self.lemma_block(j);
            self.lemma_block_order(j + 1, lo);
            self.lemma_block_kept(s, 0, low + 8, j);
        } else if j == lo {
            lemma_word_kept(s, s0, 0, low + 8, low);
        } else {
            let j0 = j + hi - lo;
            self.lemma_block(j0);
            self.lemma_block(hi + 1);
            if j0 == hi + 1 {
                self.lemma_block_kept_but_prev(s, next + 8, s0.len() as int, j0);
            } else {
                self.lemma_block_order(hi + 2, j0);
                self.lemma_block_kept(s, next + 8, s0.len() as int, j0);
            }
        }
    }

    /// The pool `after` is this pool with block `i` freed, if its buffer is
    /// this buffer with that block's bytes released.
    proof fn lemma_release(&self, after: &Pool, i: int)
        requires
            self.inv(),
            0 <= i < self@.blocks.len(),
            released_bytes(
                after.buffer@,
                self.buffer@,
                self.starts@[self@.merge_low(i)],
                self.starts@[self@.merge_high(i) + 1],
            ),
            after.starts@ == self.starts_after_free(i),
        ensures
            after.inv(),
            after@ == self@.with_blocks(self@.released(i)),
    {
        let model = self@.with_blocks(self@.released(i));
        self.lemma_view();
        self.lemma_release_sentinel(after, i);
        assert forall|j: int| 0 <= j < model.blocks.len() implies raw_block(
            after.buffer@,
            after.starts@[j],
        ) == #[trigger] model.blocks[j] by {
            self.lemma_release_blocks(after, i, j);
        }
        after.lemma_view_is(model);
        self@.lemma_released_linked(i);
    }

    /// Frees block `i` and merges it with the free blocks beside it.
    fn free_inner(&mut self, start: usize, Ghost(i): Ghost<int>)
        requires
            old(self).inv(),
            old(self)@.lowest_known_free_index == old(self)@.lowest_free(),
            0 <= i < old(self)@.blocks.len(),
            old(self)@.blocks[i].start == start,
            old(self)@.blocks[i].tag != 0,
        ensures
            final(self).inv(),
            final(self)@ == old(self)@.after_free(i),
    {
        let meta = self.buffer.len() - PAGE_SIZE + HEADER_SIZE;
        proof {
            self.lemma_view();
            self.lemma_block(i);
            if i > 0 {
                self.lemma_block(i - 1);
            }
            if i + 1 < self@.blocks.len() {
                self.lemma_block(i + 1);
            }
        }
        let prev_idx = read_word(&self.buffer, start);
        let next_idx = read_word(&self.buffer, start + 16);
        let hint = read_word(&self.buffer, meta);
        let mut next_after = next_idx;
        if next_idx != BUFFER_END && read_word(&self.buffer, next_idx + 8) == 0 {
            next_after = read_word(&self.buffer, next_idx + 16);
        }
        let mut low = start;
        if prev_idx != BUFFER_END && read_word(&self.buffer, prev_idx + 8) == 0 {
            low = prev_idx;
        }
        proof {
            assert(low == self.starts@[self@.merge_low(i)]);
            assert(next_after == self.starts@[self@.merge_high(i) + 1]);
        }
        release_block(&mut self.buffer, start, low, next_after);
        proof {
            self.starts@ = old(self).starts_after_free(i);
            old(self).lemma_release(self, i);
            old(self)@.lemma_released_lowest(i);
        }
        if start < hint {
            self.set_hint(start);
        }
    }
}

/// An offset into the buffer, and what stands there: an object header, the
/// payload behind one, or the block header before one.
#[derive(Debug, Clone, Copy, PartialEq, Eq, Structural)]
pub enum IndexType {
    ArcByteSliceStart(usize),
    DataStart(usize),
    SkipListStart(usize),
}

impl IndexType {
    /// Where the block header of the block that this offset belongs to
    /// stands.
    pub open spec fn block_start(self) -> int {
        match self {
            IndexType::ArcByteSliceStart(i) => i - HEADER_SIZE,
            IndexType::DataStart(i) => i - OVERHEAD,
            IndexType::SkipListStart(i) => i as int,
        }
    }
}

/// Where the payload of the block that `index` belongs to starts.
pub fn index_to_data_offset(index: IndexType) -> (offset: usize)
    requires
        0 <= index.block_start(),
        index.block_start() + OVERHEAD <= usize::MAX,
    ensures
        offset == index.block_start() + OVERHEAD,
{
    match index {
        IndexType::ArcByteSliceStart(i) => i + ARC_INNER_SIZE,
        IndexType::DataStart(i) => i,
        IndexType::SkipListStart(i) => i + OVERHEAD,
    }
}

/// Where the object header of the block that `index` belongs to stands.
pub fn index_to_arc_offset(index: IndexType) -> (offset: usize)
    requires
        0 <= index.block_start(),
        index.block_start() + HEADER_SIZE <= usize::MAX,
    ensures
        offset == index.block_start() + HEADER_SIZE,
{
    match index {
        IndexType::ArcByteSliceStart(i) => i,
        IndexType::DataStart(i) => i - ARC_INNER_SIZE,
        IndexType::SkipListStart(i) => i + HEADER_SIZE,
    }
}

/// Where the block header of the block that `index` belongs to stands.
pub fn index_to_skip_list_header(index: IndexType) -> (offset: usize)
    requires
        0 <= index.block_start(),
    ensures
        offset == index.block_start(),
{
    match index {
        IndexType::ArcByteSliceStart(i) => i - HEADER_SIZE,
        IndexType::DataStart(i) => i - OVERHEAD,
        IndexType::SkipListStart(i) => i,
    }
}

impl Pool {
    /// The handle `arc` denotes an allocation of this pool.
    pub open spec fn holds(&self, arc: &ArcByteSlice) -> bool {
        self@.is_live(arc.arc_inner_index as int)
    }

    /// The pool `after` differs from this pool in block `i` only, if its
    /// buffer differs from this buffer only inside that block, behind its
    /// header.
    proof fn lemma_touch(&self, after: &Pool, i: int)
        requires
            self.inv(),
            0 <= i < self@.blocks.len(),
            after.starts@ == self.starts@,
            same_bytes(after.buffer@, self.buffer@, 0, self.starts@[i] + HEADER_SIZE),
            same_bytes(
                after.buffer@,
                self.buffer@,
                self.starts@[i + 1],
                self.buffer@.len() as int,
            ),
        ensures
            after.sentinel_wf(),
            after@ == self@.with_blocks(
                self@.blocks.update(i, raw_block(after.buffer@, self.starts@[i])),
            ),
    {
        let s0 = self.buffer@;
        let s = after.buffer@;
        let len = s0.len() as int;
        let end = len - PAGE_SIZE;
        let meta = end + HEADER_SIZE;
        let b = self.starts@[i];
        let e = self.starts@[i + 1];
        let model = self@.with_blocks(self@.blocks.update(i, raw_block(s, b)));
        assert(s.len() == s0.len()) by {
            reveal(same_bytes);
        }
        self.lemma_view();
        self.lemma_block(i);
        self.lemma_block_order(i + 1, self@.blocks.len() as int);
        lemma_word_kept(s, s0, e, len, end);
        lemma_word_kept(s, s0, e, len, meta);
        lemma_word_kept(s, s0, e, len, meta + 8);
        lemma_same_bytes_within(s, s0, e, len, end + 8, end + HEADER_SIZE);
        self.lemma_sentinel_kept(after);
        assert forall|j: int| 0 <= j < model.blocks.len() implies raw_block(
            s,
            after.starts@[j],
        ) == #[trigger] model.blocks[j] by {
            if j < i {
                self.lemma_block(j);
                self.lemma_block_order(j + 1, i);
                self.lemma_block_kept(s, 0, b + HEADER_SIZE, j);
            } else if j > i {
                self.lemma_block(j);
                self.lemma_block_order(i + 1, j);
                self.lemma_block_kept(s, e, len, j);
            }
        }
        after.lemma_view_is(model);
    }

    /// Sets the strong count of block `i`.
    fn set_strong(&mut self, inner_index: usize, Ghost(i): Ghost<int>, strong: usize)
        requires
            old(self).inv(),
            old(self)@.has_object(i, inner_index as int),
        ensures
            final(self).inv(),
            final(self)@ == old(self)@.with_strong(i, strong),
    {
        proof {
            self.lemma_block(i);
            self.lemma_view();
        }
        write_word(&mut self.buffer, inner_index, strong);
        proof {
            let s0 = old(self).buffer@;
            let s = self.buffer@;
            let b = self.starts@[i];
            let e = self.starts@[i + 1];
            lemma_same_bytes_within(s, s0, 0, inner_index as int, 0, b + HEADER_SIZE);
            lemma_same_bytes_within(s, s0, 0, inner_index as int, b, b + HEADER_SIZE);
            lemma_same_bytes_within(s, s0, inner_index + 8, s0.len() as int, e, s0.len() as int);
            lemma_same_bytes_within(s, s0, inner_index + 8, s0.len() as int, b + 32, e);
            old(self).lemma_touch(self, i);
            lemma_block_with_strong(s0, s, b, e);
            old(self)@.lemma_with_strong(i, strong);
        }
    }

    /// Overwrites the payload of block `i` with `data`, which has its size.
    fn fill(&mut self, start: usize, Ghost(i): Ghost<int>, data: &[u8])
        requires
            old(self).inv(),
            old(self)@.has_object(i, start + HEADER_SIZE),
            old(self)@.blocks[i].size == data@.len(),
        ensures
            final(self).inv(),
            final(self)@ == old(self)@.with_data(i, data@),
    {
        proof {
            self.lemma_block(i);
            self.lemma_view();
        }
        copy_bytes(&mut self.buffer, start + OVERHEAD, data);
        proof {
            let s0 = old(self).buffer@;
            let s = self.buffer@;
            let b = self.starts@[i];
            let e = self.starts@[i + 1];
            let n = data@.len();
            lemma_same_bytes_within(s, s0, 0, b + OVERHEAD, 0, b + HEADER_SIZE);
            lemma_same_bytes_within(s, s0, 0, b + OVERHEAD, b, b + OVERHEAD);
            lemma_same_bytes_within(s, s0, b + OVERHEAD + n, s0.len() as int, e, s0.len() as int);
            old(self).lemma_touch(self, i);
            lemma_block_with_data(s0, s, b);
            old(self)@.lemma_with_data(i, data@);
        }
    }

    /// Finds the block whose object header stands at `inner_index`, if there
    /// is one, by walking the list from its start.
    fn locate(&self, inner_index: usize) -> (r: Option<Ghost<int>>)
        requires
            self.inv(),
        ensures
            match r {
                Some(gi) => {
                    &&& 0 <= gi@ < self@.blocks.len()
                    &&& self@.blocks[gi@].start + HEADER_SIZE == inner_index
                },
                None => !self@.is_live(inner_index as int),
            },
    {
        if inner_index < HEADER_SIZE {
            proof {
                self@.lemma_not_live(inner_index as int);
            }
            return None;
        }
        let target = inner_index - HEADER_SIZE;
        let end = self.buffer.len() - PAGE_SIZE;
        let mut cur: usize = 0;
        let ghost mut j = 0int;
        proof {
            assert(self@.block_linked(0));
        }
        loop
            invariant
                self.inv(),
                end == self.buffer.len() - PAGE_SIZE,
                target + HEADER_SIZE == inner_index,
                0 <= j < self@.blocks.len(),
                cur == self@.blocks[j].start,
                forall|k: int| 0 <= k < j ==> (#[trigger] self@.blocks[k]).start != target,
            decreases self@.blocks.len() - j,
        {
            proof {
                self.lemma_block(j);
            }
            if cur == target {
                return Some(Ghost(j));
            }
            let next = read_word(&self.buffer, cur + 16);
            if cur > target || next == end {
                proof {
                    assert forall|k: int| 0 <= k < self@.blocks.len() implies (
                    #[trigger] self@.blocks[k]).start + HEADER_SIZE != inner_index by {
                        if k > j {
                            self@.lemma_starts_ordered(j, k);
                        }
                    }
                    self@.lemma_not_live(inner_index as int);
                }
                return None;
            }
            proof {
                self.lemma_block(j + 1);
                j = j + 1;
            }
            cur = next;
        }
    }

    /// The index of the block that a live handle denotes.
    proof fn lemma_holds(&self, inner_index: usize) -> (i: int)
        requires
            self.inv(),
            self@.is_live(inner_index as int),
        ensures
            i == self@.index_of(inner_index as int),
            self@.has_object(i, inner_index as int),
            self.starts@[i] + HEADER_SIZE == inner_index,
            self.starts@[i] + OVERHEAD + self@.blocks[i].size <= self.starts@[i + 1],
            self.starts@[i + 1] <= self.buffer@.len() - PAGE_SIZE,
            self@.blocks[i] == raw_block(self.buffer@, self.starts@[i]),
    {
        let i = self@.index_of(inner_index as int);
        self.lemma_block(i);
        i
    }
}

impl Pool {
    /// Allocates `size` bytes and returns a live handle to them. The payload
    /// holds what the buffer held there before.
    pub fn make_new(&mut self, size: usize) -> (res: Result<ArcByteSlice, LodestoneError>)
        requires
            old(self).wf(),
        ensures
            final(self).wf(),
            match res {
                Ok(arc) => {
                    let i = old(self)@.first_fit(chunk_size(size as int));
                    let start = old(self)@.blocks[i].start;
                    &&& 0 <= i < old(self)@.blocks.len()
                    &&& old(self)@.next_id_tag < usize::MAX
                    &&& arc.arc_inner_index == start + HEADER_SIZE
                    &&& final(self).holds(&arc)
                    &&& final(self)@.index_of(arc.arc_inner_index as int) == i
                    &&& final(self)@ == old(self)@.after_malloc(
                        i,
                        size,
                        old(self).bytes().subrange(start + OVERHEAD, start + OVERHEAD + size),
                    )
                },
                Err(e) => {
                    &&& e == LodestoneError::OutOfMemory
                    &&& final(self)@ == old(self)@
                    &&& (old(self)@.first_fit(chunk_size(size as int)) < 0 || old(
                        self,
                    )@.next_id_tag == usize::MAX)
                },
            },
    {
        let (start, Ghost(i)) = match self.malloc_inner(size) {
            Ok(found) => found,
            Err(e) => { return Err(e); },
        };
        let ghost v0 = old(self)@;
        let ghost stale = old(self).bytes().subrange(start + OVERHEAD, start + OVERHEAD + size);
        proof {
            old(self).lemma_view();
            v0.lemma_first_fit(chunk_size(size as int), 0);
            assert(v0.block_linked(i));
            v0.lemma_claimed_agrees(i, size, 0, stale);
            assert(self@.has_object(i, start + HEADER_SIZE));
            self@.lemma_index_of(i, start + HEADER_SIZE);
        }
        let arc = ArcByteSlice::new(index_to_arc_offset(IndexType::SkipListStart(start)), self);
        proof {
            let w = v0.after_malloc(i, size, stale);
            v0.lemma_claim_lowest(i, size, 0, stale, 1, stale);
            assert(self@.blocks =~= w.blocks);
            v0.lemma_after_malloc(i, size, stale);
            w.lemma_index_of(i, start + HEADER_SIZE);
        }
        Ok(arc)
    }

    /// Allocates room for `data` and copies it there. Returns a live handle
    /// to the copy.
    pub fn malloc(&mut self, data: &[u8]) -> (res: Result<ArcByteSlice, LodestoneError>)
        requires
            old(self).wf(),
        ensures
            final(self).wf(),
            match res {
                Ok(arc) => {
                    let i = old(self)@.first_fit(chunk_size(data@.len() as int));
                    &&& 0 <= i < old(self)@.blocks.len()
                    &&& old(self)@.next_id_tag < usize::MAX
                    &&& arc.arc_inner_index == old(self)@.blocks[i].start + HEADER_SIZE
                    &&& final(self).holds(&arc)
                    &&& final(self)@.index_of(arc.arc_inner_index as int) == i
                    &&& final(self)@ == old(self)@.after_malloc(i, data@.len() as usize, data@)
                },
                Err(e) => {
                    &&& e == LodestoneError::OutOfMemory
                    &&& final(self)@ == old(self)@
                    &&& (old(self)@.first_fit(chunk_size(data@.len() as int)) < 0 || old(
                        self,
                    )@.next_id_tag == usize::MAX)
                },
            },
    {
        let size = data.len();
        let (start, Ghost(i)) = match self.malloc_inner(size) {
            Ok(found) => found,
            Err(e) => { return Err(e); },
        };
        let ghost v0 = old(self)@;
        let ghost stale = old(self).bytes().subrange(start + OVERHEAD, start + OVERHEAD + size);
        proof {
            old(self).lemma_view();
            v0.lemma_first_fit(chunk_size(size as int), 0);
            assert(v0.block_linked(i));
            v0.lemma_claimed_agrees(i, size, 0, stale);
            assert(self@.has_object(i, start + HEADER_SIZE));
        }
        self.fill(start, Ghost(i), data);
        proof {
            assert(self@.has_object(i, start + HEADER_SIZE));
            self@.lemma_index_of(i, start + HEADER_SIZE);
        }
        let arc = ArcByteSlice::new(index_to_arc_offset(IndexType::SkipListStart(start)), self);
        proof {
            let w = v0.after_malloc(i, size, data@);
            v0.lemma_claim_lowest(i, size, 0, stale, 1, data@);
            assert(self@.blocks =~= w.blocks);
            v0.lemma_after_malloc(i, size, data@);
            w.lemma_index_of(i, start + HEADER_SIZE);
        }
        Ok(arc)
    }

    /// Allocates a block of the size of `from`'s and copies the payload of
    /// `from` there. Returns a live handle to the copy.
    pub fn clone(&mut self, from: &ArcByteSlice) -> (res: Result<ArcByteSlice, LodestoneError>)
        requires
            old(self).wf(),
            old(self).holds(from),
        ensures
            final(self).wf(),
            match res {
                Ok(arc) => {
                    let data = old(self)@.object(from.arc_inner_index as int).data;
                    let i = old(self)@.first_fit(chunk_size(data.len() as int));
                    &&& 0 <= i < old(self)@.blocks.len()
                    &&& old(self)@.next_id_tag < usize::MAX
                    &&& arc.arc_inner_index == old(self)@.blocks[i].start + HEADER_SIZE
                    &&& final(self).holds(&arc)
                    &&& final(self)@.index_of(arc.arc_inner_index as int) == i
                    &&& final(self)@ == old(self)@.after_malloc(i, data.len() as usize, data)
                },
                Err(e) => {
                    &&& e == LodestoneError::OutOfMemory
                    &&& final(self)@ == old(self)@
                    &&& (old(self)@.first_fit(
                        chunk_size(old(self)@.object(from.arc_inner_index as int).data.len() as int),
                    ) < 0 || old(self)@.next_id_tag == usize::MAX)
                },
            },
    {
        let data = slice_to_vec(self.deref(from));
        self.malloc(data.as_slice())
    }

    /// Frees the block that `arc` denotes, whatever its counts, and merges it
    /// with the free blocks beside it.
    pub fn free(&mut self, arc: &ArcByteSlice)
        requires
            old(self).wf(),
            old(self).holds(arc),
        ensures
            final(self).wf(),
            final(self)@ == old(self)@.after_free(old(self)@.index_of(arc.arc_inner_index as int)),
    {
        let ghost i = self.lemma_holds(arc.arc_inner_index);
        let start = index_to_skip_list_header(IndexType::ArcByteSliceStart(arc.arc_inner_index));
        self.free_inner(start, Ghost(i));
        proof {
            old(self)@.lemma_after_free(i);
        }
    }

    /// The payload that `arc` denotes.
    pub fn deref<'a>(&'a self, arc: &ArcByteSlice) -> (data: &'a [u8])
        requires
            self.inv(),
            self.holds(arc),
        ensures
            data@ == self@.object(arc.arc_inner_index as int).data,
    {
        let ghost i = self.lemma_holds(arc.arc_inner_index);
        let size = read_word(&self.buffer, arc.arc_inner_index + 16);
        let at = index_to_data_offset(IndexType::ArcByteSliceStart(arc.arc_inner_index));
        slice_subrange(self.buffer.as_slice(), at, at + size)
    }

    /// Overwrites the payload that `arc` denotes with `data`, which has its
    /// size.
    pub fn store(&mut self, arc: &ArcByteSlice, data: &[u8])
        requires
            old(self).wf(),
            old(self).holds(arc),
            old(self)@.object(arc.arc_inner_index as int).size == data@.len(),
        ensures
            final(self).wf(),
            final(self)@ == old(self)@.after_store(arc.arc_inner_index as int, data@),
    {
        let ghost i = self.lemma_holds(arc.arc_inner_index);
        self.fill(arc.arc_inner_index - HEADER_SIZE, Ghost(i), data);
        proof {
            old(self)@.lemma_with_data(i, data@);
        }
    }

    /// The object header that stands at `inner_index`.
    pub fn index_to_arc_inner(&self, inner_index: usize) -> (inner: ArcByteSliceInner)
        requires
            self.inv(),
            self@.is_live(inner_index as int),
        ensures
            inner.strong == self@.object(inner_index as int).strong,
            inner.weak == self@.object(inner_index as int).weak,
            inner.size == self@.object(inner_index as int).size,
    {
        let ghost i = self.lemma_holds(inner_index);
        ArcByteSliceInner {
            strong: read_word(&self.buffer, inner_index),
            weak: read_word(&self.buffer, inner_index + 8),
            size: read_word(&self.buffer, inner_index + 16),
        }
    }

    /// Where the object header of `arc` stands in the buffer.
    pub fn _inner_offset(&self, arc: &ArcByteSlice) -> (offset: usize)
        ensures
            offset == arc.arc_inner_index,
    {
        arc.arc_inner_index
    }

    /// The tag of the allocation that `arc` denotes.
    pub fn _get_id_tag(&self, arc: &ArcByteSlice) -> (tag: usize)
        requires
            self.inv(),
            self.holds(arc),
        ensures
            tag == self@.object(arc.arc_inner_index as int).tag,
            tag != 0,
    {
        let ghost i = self.lemma_holds(arc.arc_inner_index);
        read_word(&self.buffer, arc.arc_inner_index - 16)
    }

    /// Adds a strong reference to the object at `inner_index`.
    pub fn retain(&mut self, inner_index: usize)
        requires
            old(self).inv(),
            old(self)@.is_live(inner_index as int),
        ensures
            final(self).inv(),
            final(self)@ == old(self)@.after_retain(inner_index as int),
            final(self)@.is_live(inner_index as int),
            final(self)@.index_of(inner_index as int) == old(self)@.index_of(inner_index as int),
            old(self).wf() ==> final(self).wf(),
    {
        let ghost i = self.lemma_holds(inner_index);
        let strong = read_word(&self.buffer, inner_index);
        let raised = if strong < usize::MAX {
            strong + 1
        } else {
            strong
        };
        self.set_strong(inner_index, Ghost(i), raised);
        proof {
            old(self)@.lemma_with_strong(i, raised);
            self@.lemma_index_of(i, inner_index as int);
        }
    }

    /// Gives back a strong reference to the object at `inner_index`, and
    /// frees the block if it was the last one. Returns whether it was.
    pub fn release(&mut self, inner_index: usize) -> (freed: bool)
        requires
            old(self).wf(),
            old(self)@.is_live(inner_index as int),
        ensures
            final(self).wf(),
            final(self)@ == old(self)@.after_release(inner_index as int),
            freed == old(self)@.frees(inner_index as int),
    {
        let ghost i = self.lemma_holds(inner_index);
        let strong = read_word(&self.buffer, inner_index);
        if strong == usize::MAX {
            false
        } else if strong == 1 {
            self.free_inner(inner_index - HEADER_SIZE, Ghost(i));
            proof {
                old(self)@.lemma_after_free(i);
            }
            true
        } else {
            self.set_strong(inner_index, Ghost(i), strong - 1);
            proof {
                old(self)@.lemma_with_strong(i, (strong - 1) as usize);
            }
            false
        }
    }

    /// Turns a persisted handle into a live one, if the block it names still
    /// carries its tag.
    pub fn clone_persisted_to_arc(&mut self, persisted: &PersistedArcByteSlice) -> (res: Result<
        ArcByteSlice,
        LodestoneError,
    >)
        requires
            old(self).wf(),
        ensures
            final(self).wf(),
            match res {
                Ok(arc) => {
                    &&& old(self)@.is_valid(persisted.arc_inner_index as int, persisted.id_tag)
                    &&& arc.arc_inner_index == persisted.arc_inner_index
                    &&& final(self).holds(&arc)
                    &&& final(self)@ == old(self)@.after_retain(persisted.arc_inner_index as int)
                },
                Err(e) => {
                    &&& e == LodestoneError::InvalidReference
                    &&& !old(self)@.is_valid(persisted.arc_inner_index as int, persisted.id_tag)
                    &&& final(self)@ == old(self)@
                },
            },
    {
        if !self.is_valid(persisted) {
            return Err(LodestoneError::InvalidReference);
        }
        Ok(ArcByteSlice::new(persisted.arc_inner_index, self))
    }

    /// Whether the block that `persisted` names still carries its tag.
    pub fn is_valid(&self, persisted: &PersistedArcByteSlice) -> (valid: bool)
        requires
            self.inv(),
        ensures
            valid == self@.is_valid(persisted.arc_inner_index as int, persisted.id_tag),
    {
        match self.locate(persisted.arc_inner_index) {
            None => false,
            Some(gi) => {
                let ghost i = gi@;
                proof {
                    self.lemma_block(i);
                    if self@.blocks[i].tag != 0 {
                        self@.lemma_index_of(i, persisted.arc_inner_index as int);
                    } else {
                        if self@.is_live(persisted.arc_inner_index as int) {
                            let j = self@.index_of(persisted.arc_inner_index as int);
                            assert(self@.has_object(j, persisted.arc_inner_index as int));
                            if i < j {
                                self@.lemma_starts_ordered(i, j);
                            } else if j < i {
                                self@.lemma_starts_ordered(j, i);
                            }
                        }
                    }
                }
                let tag = read_word(&self.buffer, persisted.arc_inner_index - 16);
                tag != 0 && tag == persisted.id_tag
            },
        }
    }
}

/// Appends one line of the block enumeration to `out`.
fn append_block(out: &mut String, b: &BlockInfo)
    ensures
        final(out)@ == old(out)@ + block_text(*b),
{
    out.append("_B { start: ");
    append_decimal(out, b.start);
    out.append(", capacity: ");
    append_decimal(out, b.capacity);
    out.append(", next: ");
    append_decimal(out, b.next);
    out.append(", prev: ");
    append_decimal(out, b.prev);
    out.append(", is_free: ");
    append_truth(out, b.is_free);
    out.append(" }");
    assert(out@ =~= old(out)@ + block_text(*b));
}

impl Pool {
    /// The pool as text: the size of the buffer, the metadata and the
    /// blocks from the lowest offset up.
    pub fn debug_string(&self) -> (text: String)
        requires
            self.inv(),
        ensures
            text@ == self@.text(),
    {
        let blocks = self.get_debug_blocks();
        let mut out = String::from_str("Pool { buffer_size: ");
        append_decimal(&mut out, self.buffer_size());
        out.append(", metadata: Metadata { lowest_known_free_index: ");
        append_decimal(&mut out, self.lowest_known_free_index());
        out.append(", next_id_tag: AtomicUsize(");
        append_decimal(&mut out, self.next_id_tag());
        out.append(") }, blocks: [");
        let ghost head = out@;
        let mut k: usize = 0;
        while k < blocks.len()
            invariant
                k <= blocks.len(),
                blocks@.len() == self@.blocks.len(),
                forall|i: int|
                    0 <= i < blocks@.len() ==> blocks@[i] == block_info(#[trigger] self@.blocks[i]),
                out@ == head + blocks_text(self@.blocks, k as int),
            decreases blocks.len() - k,
        {
            let ghost before = out@;
            if k > 0 {
                out.append(", ");
            }
            append_block(&mut out, &blocks[k]);
            proof {
                assert(blocks@[k as int] == block_info(self@.blocks[k as int]));
                assert(out@ =~= head + blocks_text(self@.blocks, k + 1));
            }
            k += 1;
        }
        out.append("] }");
        assert(out@ =~= self@.text());
        out
    }
}

impl Pool {
    /// The payload that `persisted` names, if the block still carries its
    /// tag. No reference is taken.
    pub fn peek<'a>(&'a self, persisted: &PersistedArcByteSlice) -> (data: Option<&'a [u8]>)
        requires
            self.inv(),
        ensures
            match data {
                Some(bytes) => {
                    &&& self@.is_valid(persisted.arc_inner_index as int, persisted.id_tag)
                    &&& bytes@ == self@.object(persisted.arc_inner_index as int).data
                },
                None => !self@.is_valid(persisted.arc_inner_index as int, persisted.id_tag),
            },
    {
        if !self.is_valid(persisted) {
            return None;
        }
        let ghost i = self.lemma_holds(persisted.arc_inner_index);
        let size = read_word(&self.buffer, persisted.arc_inner_index + 16);
        let at = index_to_data_offset(IndexType::ArcByteSliceStart(persisted.arc_inner_index));
        Some(slice_subrange(self.buffer.as_slice(), at, at + size))
    }
}

impl Pool {
    /// Allocates one page and returns a live handle to it. The page holds
    /// what the buffer held there before.
    pub fn alloc_page(&mut self) -> (res: Result<ArcByteSlice, LodestoneError>)
        requires
            old(self).wf(),
        ensures
            final(self).wf(),
            match res {
                Ok(arc) => {
                    let i = old(self)@.first_fit(chunk_size(PAGE_SIZE as int));
                    let start = old(self)@.blocks[i].start;
                    &&& old(self)@.can_alloc(PAGE_SIZE as int)
                    &&& arc.arc_inner_index == old(self)@.alloc_place(PAGE_SIZE as int)
                    &&& final(self).holds(&arc)
                    &&& final(self)@ == old(self)@.after_malloc(
                        i,
                        PAGE_SIZE,
                        old(self).bytes().subrange(start + OVERHEAD, start + OVERHEAD + PAGE_SIZE),
                    )
                },
                Err(e) => {
                    &&& e == LodestoneError::OutOfMemory
                    &&& final(self)@ == old(self)@
                    &&& !old(self)@.can_alloc(PAGE_SIZE as int)
                },
            },
    {
        self.make_new(PAGE_SIZE)
    }

    /// How many blocks are allocated.
    pub fn live_count(&self) -> (count: usize)
        requires
            self.inv(),
        ensures
            count == self@.live_count(),
    {
        let end = self.buffer.len() - PAGE_SIZE;
        let mut count: usize = 0;
        let mut cur: usize = 0;
        let ghost mut j = 0int;
        loop
            invariant
                self.inv(),
                end == self.buffer.len() - PAGE_SIZE,
                0 <= j < self@.blocks.len(),
                cur == self@.blocks[j].start,
                count == self@.allocated_among(j),
                count <= j,
                HEADER_SIZE * j <= cur,
            decreases self@.blocks.len() - j,
        {
            proof {
                self.lemma_block(j);
            }
            let tag = read_word(&self.buffer, cur + 8);
            let next = read_word(&self.buffer, cur + 16);
            if tag != 0 {
                count += 1;
            }
            if next == end {
                return count;
            }
            proof {
                self.lemma_block(j + 1);
                j = j + 1;
            }
            cur = next;
        }
    }
}

} // verus!
