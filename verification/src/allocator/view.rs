//! The state of the heap as a list of blocks, and what allocating and
//! freeing do to it.

use crate::allocator::pool::{BUFFER_END, HEADER_SIZE, OVERHEAD, PAGE_SIZE};
use crate::allocator::text::{decimal, truth};
use vstd::prelude::*;

verus! {

/// One block of the list, as the headers in the buffer describe it. A free
/// block has the tag 0 and no object: its counts and size read as 0.
pub struct BlockView {
    pub start: usize,
    pub prev: usize,
    pub tag: usize,
    pub next: usize,
    pub strong: usize,
    pub weak: usize,
    pub size: usize,
    pub data: Seq<u8>,
}

/// The state of a pool: its blocks from the lowest offset up, without the
/// sentinel that closes the list, and the two words of metadata.
pub struct PoolView {
    pub buffer_size: usize,
    pub blocks: Seq<BlockView>,
    pub lowest_known_free_index: usize,
    pub next_id_tag: usize,
}

/// `n` rounded up to the next multiple of eight.
pub open spec fn align8(n: int) -> int {
    if n % 8 == 0 {
        n
    } else {
        n + 8 - n % 8
    }
}

/// The bytes that a block for `n` bytes of payload takes.
pub open spec fn chunk_size(n: int) -> int {
    align8(n) + OVERHEAD
}

/// A free block that starts at `start`.
pub open spec fn free_block(start: usize, prev: usize, next: usize) -> BlockView {
    BlockView { start, prev, tag: 0, next, strong: 0, weak: 0, size: 0, data: Seq::empty() }
}

impl PoolView {
    /// Where the block list ends and the sentinel stands.
    pub open spec fn region_end(self) -> int {
        self.buffer_size - PAGE_SIZE
    }

    /// The bytes from the start of block `i` to the start of the next one.
    pub open spec fn span(self, i: int) -> int {
        self.blocks[i].next - self.blocks[i].start
    }

    /// Block `i` is free and spans at least `chunk` bytes.
    pub open spec fn fits(self, i: int, chunk: int) -> bool {
        self.blocks[i].tag == 0 && self.span(i) >= chunk
    }

    /// The first block at or after `from` that fits `chunk`, or -1.
    pub open spec fn first_fit_from(self, chunk: int, from: int) -> int
        decreases self.blocks.len() - from,
    {
        if from < 0 || from >= self.blocks.len() {
            -1
        } else if self.fits(from, chunk) {
            from
        } else {
            self.first_fit_from(chunk, from + 1)
        }
    }

    /// The first block that fits `chunk`, or -1.
    pub open spec fn first_fit(self, chunk: int) -> int {
        self.first_fit_from(chunk, 0)
    }

    /// The start of block `i`, or `BUFFER_END` where there is no such block.
    pub open spec fn start_or_end(self, i: int) -> usize {
        if 0 <= i < self.blocks.len() {
            self.blocks[i].start
        } else {
            BUFFER_END
        }
    }

    /// The start of the lowest free block, or `BUFFER_END`.
    pub open spec fn lowest_free(self) -> usize {
        self.start_or_end(self.first_fit(0))
    }

    /// Block `i` lies inside the block region, is linked to its two
    /// neighbours, holds its payload, and has no free block behind it if it
    /// is free itself.
    pub open spec fn block_linked(self, i: int) -> bool {
        let b = self.blocks[i];
        &&& b.start + HEADER_SIZE <= b.next
        &&& b.next <= self.region_end()
        &&& b.prev == self.start_or_end(i - 1)
        &&& i + 1 < self.blocks.len() ==> b.next == self.blocks[i + 1].start
        &&& i + 1 == self.blocks.len() ==> b.next == self.region_end()
        &&& b.tag < self.next_id_tag
        &&& b.data.len() == b.size
        &&& b.tag != 0 ==> b.start + OVERHEAD + b.size <= b.next
        &&& b.tag == 0 ==> b == free_block(b.start, b.prev, b.next)
        &&& b.tag == 0 && i + 1 < self.blocks.len() ==> self.blocks[i + 1].tag != 0
    }

    /// The blocks tile the buffer up to the metadata page, each linked to its
    /// two neighbours, and no two free blocks touch.
    pub open spec fn linked(self) -> bool {
        &&& self.buffer_size >= PAGE_SIZE + OVERHEAD
        &&& self.blocks.len() >= 1
        &&& self.blocks[0].start == 0
        &&& forall|i: int| 0 <= i < self.blocks.len() ==> #[trigger] self.block_linked(i)
    }

    /// Every allocated block holds at least one strong reference.
    pub open spec fn counted(self) -> bool {
        forall|i: int|
            0 <= i < self.blocks.len() && (#[trigger] self.blocks[i]).tag != 0
                ==> self.blocks[i].strong >= 1
    }

    /// The block list is linked, every allocated block is referenced, and the
    /// hint names the lowest free block.
    pub open spec fn wf(self) -> bool {
        &&& self.linked()
        &&& self.counted()
        &&& self.lowest_known_free_index == self.lowest_free()
    }

    /// The blocks after block `i`, which is free, has been claimed for `size`
    /// bytes: what it does not need is split off as a free block, provided
    /// that a block header fits there.
    pub open spec fn claimed(self, i: int, size: usize, strong: usize, data: Seq<u8>) -> Seq<
        BlockView,
    > {
        let b = self.blocks[i];
        let cut = b.start + chunk_size(size as int);
        if b.next - cut >= HEADER_SIZE {
            let taken = BlockView {
                start: b.start,
                prev: b.prev,
                tag: self.next_id_tag,
                next: cut as usize,
                strong,
                weak: 0,
                size,
                data,
            };
            let two = self.blocks.update(i, taken).insert(
                i + 1,
                free_block(cut as usize, b.start, b.next),
            );
            if i + 1 < self.blocks.len() {
                two.update(i + 2, BlockView { prev: cut as usize, ..self.blocks[i + 1] })
            } else {
                two
            }
        } else {
            self.blocks.update(
                i,
                BlockView {
                    start: b.start,
                    prev: b.prev,
                    tag: self.next_id_tag,
                    next: b.next,
                    strong,
                    weak: 0,
                    size,
                    data,
                },
            )
        }
    }

    /// This pool with the hint `idx`.
    pub open spec fn with_hint(self, idx: usize) -> PoolView {
        PoolView { lowest_known_free_index: idx, ..self }
    }

    /// This pool with the hint set to the lowest free block.
    pub open spec fn rehinted(self) -> PoolView {
        self.with_hint(self.lowest_free())
    }

    /// The pool after block `i` has been claimed and the tag counter has
    /// advanced; the hint is as it was.
    pub open spec fn after_claim(self, i: int, size: usize, strong: usize, data: Seq<u8>) -> PoolView {
        PoolView {
            blocks: self.claimed(i, size, strong, data),
            next_id_tag: (self.next_id_tag + 1) as usize,
            ..self
        }
    }

    /// The pool after an allocation of `size` bytes that hold `data`, from
    /// block `i`: the block carries the next tag and one strong reference.
    pub open spec fn after_malloc(self, i: int, size: usize, data: Seq<u8>) -> PoolView {
        self.after_claim(i, size, 1, data).rehinted()
    }

    /// What `first_fit_from` returns: the block it names fits, and none
    /// between `from` and it does.
    pub proof fn lemma_first_fit(self, chunk: int, from: int)
        requires
            0 <= from <= self.blocks.len(),
        ensures
            ({
                let r = self.first_fit_from(chunk, from);
                &&& r == -1 || from <= r < self.blocks.len()
                &&& r >= 0 ==> self.fits(r, chunk)
                &&& forall|j: int|
                    from <= j < (if r >= 0 {
                        r
                    } else {
                        self.blocks.len() as int
                    }) ==> !self.fits(j, chunk)
            }),
        decreases self.blocks.len() - from,
    {
        if from < self.blocks.len() && !self.fits(from, chunk) {
            self.lemma_first_fit(chunk, from + 1);
        }
    }

    /// A block that fits, with none before it that does, is the first fit.
    pub proof fn lemma_first_fit_is(self, chunk: int, from: int, r: int)
        requires
            0 <= from <= r < self.blocks.len(),
            self.fits(r, chunk),
            forall|j: int| from <= j < r ==> !self.fits(j, chunk),
        ensures
            self.first_fit_from(chunk, from) == r,
        decreases r - from,
    {
        if from < r {
            self.lemma_first_fit_is(chunk, from + 1, r);
        }
    }

    /// Where no block fits, there is no first fit.
    pub proof fn lemma_first_fit_none(self, chunk: int, from: int)
        requires
            0 <= from <= self.blocks.len(),
            forall|j: int| from <= j < self.blocks.len() ==> !self.fits(j, chunk),
        ensures
            self.first_fit_from(chunk, from) == -1,
        decreases self.blocks.len() - from,
    {
        if from < self.blocks.len() {
            self.lemma_first_fit_none(chunk, from + 1);
        }
    }

    /// Claiming a block that fits leaves the list linked.
    pub proof fn lemma_claimed_linked(self, i: int, size: usize, strong: usize, data: Seq<u8>)
        requires
            self.linked(),
            0 <= i < self.blocks.len(),
            self.fits(i, chunk_size(size as int)),
            data.len() == size,
            self.next_id_tag < usize::MAX,
        ensures
            self.after_claim(i, size, strong, data).linked(),
    {
        let w = self.after_claim(i, size, strong, data);
        let b = self.blocks[i];
        let cut = b.start + chunk_size(size as int);
        assert(self.block_linked(i));
        if i + 1 < self.blocks.len() {
            assert(self.block_linked(i + 1));
        }
        if i > 0 {
            assert(self.block_linked(i - 1));
        }
        assert forall|j: int| 0 <= j < w.blocks.len() implies #[trigger] w.block_linked(j) by {
            if b.next - cut >= HEADER_SIZE {
                if j < i {
                    assert(self.block_linked(j));
                } else if j > i + 1 {
                    assert(self.block_linked(j - 1));
                }
            } else {
                assert(self.block_linked(j));
            }
        }
    }

    /// Claiming block `i` leaves the blocks below it as they are.
    pub proof fn lemma_claimed_agrees(self, i: int, size: usize, strong: usize, data: Seq<u8>)
        requires
            0 <= i < self.blocks.len(),
        ensures
            self.claimed(i, size, strong, data).len() >= self.blocks.len(),
            forall|j: int| 0 <= j < i ==> self.claimed(i, size, strong, data)[j] == self.blocks[j],
            self.claimed(i, size, strong, data)[i].tag == self.next_id_tag,
            self.claimed(i, size, strong, data)[i].start == self.blocks[i].start,
    {
    }

    /// The lowest block that block `i` merges with when it is freed: the
    /// one before it if that is free, else itself.
    pub open spec fn merge_low(self, i: int) -> int {
        if i > 0 && self.blocks[i - 1].tag == 0 {
            i - 1
        } else {
            i
        }
    }

    /// The highest block that block `i` merges with when it is freed: the
    /// one behind it if that is free, else itself.
    pub open spec fn merge_high(self, i: int) -> int {
        if i + 1 < self.blocks.len() && self.blocks[i + 1].tag == 0 {
            i + 1
        } else {
            i
        }
    }

    /// The blocks after block `i` has been freed and merged with the free
    /// blocks beside it.
    pub open spec fn released(self, i: int) -> Seq<BlockView> {
        let lo = self.merge_low(i);
        let hi = self.merge_high(i);
        let merged = free_block(self.blocks[lo].start, self.blocks[lo].prev, self.blocks[hi].next);
        let head = self.blocks.subrange(0, lo).push(merged);
        if hi + 1 < self.blocks.len() {
            head.push(BlockView { prev: merged.start, ..self.blocks[hi + 1] })
                + self.blocks.subrange(hi + 2, self.blocks.len() as int)
        } else {
            head
        }
    }

    /// This pool with the blocks `blocks`.
    pub open spec fn with_blocks(self, blocks: Seq<BlockView>) -> PoolView {
        PoolView { blocks, ..self }
    }

    /// The pool after block `i` has been freed.
    pub open spec fn after_free(self, i: int) -> PoolView {
        self.with_blocks(self.released(i)).rehinted()
    }

    /// This pool with `strong` as the strong count of block `i`.
    pub open spec fn with_strong(self, i: int, strong: usize) -> PoolView {
        self.with_blocks(self.blocks.update(i, BlockView { strong, ..self.blocks[i] }))
    }

    /// This pool with `data` as the payload of block `i`.
    pub open spec fn with_data(self, i: int, data: Seq<u8>) -> PoolView {
        self.with_blocks(self.blocks.update(i, BlockView { data, ..self.blocks[i] }))
    }

    /// Freeing an allocated block leaves the list linked.
    pub proof fn lemma_released_linked(self, i: int)
        requires
            self.linked(),
            0 <= i < self.blocks.len(),
        ensures
            self.with_blocks(self.released(i)).linked(),
    {
        let w = self.with_blocks(self.released(i));
        let lo = self.merge_low(i);
        let hi = self.merge_high(i);
        assert(self.block_linked(i));
        assert(self.block_linked(lo));
        assert(self.block_linked(hi));
        if lo > 0 {
            assert(self.block_linked(lo - 1));
        }
        if lo > 1 {
            assert(self.block_linked(lo - 2));
        }
        if hi + 1 < self.blocks.len() {
            assert(self.block_linked(hi + 1));
        }
        assert forall|j: int| 0 <= j < w.blocks.len() implies #[trigger] w.block_linked(j) by {
            if j < lo {
                assert(self.block_linked(j));
            } else if j > lo {
                assert(self.block_linked(j + hi - lo));
            }
        }
    }

    /// After a free the lowest free block is the merged one, unless a lower
    /// one was free before.
    pub proof fn lemma_released_lowest(self, i: int)
        requires
            self.linked(),
            0 <= i < self.blocks.len(),
            self.blocks[i].tag != 0,
        ensures
            self.with_blocks(self.released(i)).lowest_free() == if self.lowest_free()
                < self.blocks[i].start {
                self.lowest_free()
            } else {
                self.blocks[i].start
            },
    {
        let w = self.with_blocks(self.released(i));
        let lo = self.merge_low(i);
        let hi = self.merge_high(i);
        let h = self.first_fit(0);
        self.lemma_first_fit(0, 0);
        self.lemma_starts_ordered(lo, i);
        self.lemma_starts_ordered(lo, hi);
        assert(self.block_linked(lo));
        assert(self.block_linked(hi));
        assert(w.fits(lo, 0));
        if lo < i {
            assert(self.fits(lo, 0));
        }
        if 0 <= h < lo {
            self.lemma_starts_ordered(h, i);
            assert(w.fits(h, 0)) by {
                assert(self.block_linked(h));
            }
            assert forall|j: int| 0 <= j < h implies !w.fits(j, 0) by {
                assert(!self.fits(j, 0));
            }
            w.lemma_first_fit_is(0, 0, h);
        } else {
            assert forall|j: int| 0 <= j < lo implies !w.fits(j, 0) by {
                assert(!self.fits(j, 0));
            }
            w.lemma_first_fit_is(0, 0, lo);
            if h >= 0 {
                assert(self.block_linked(h));
                self.lemma_starts_ordered(lo, h);
                if h > i {
                    self.lemma_starts_ordered(i, h);
                }
            }
        }
    }

    /// Blocks further up start further up.
    pub proof fn lemma_starts_ordered(self, i: int, j: int)
        requires
            self.linked(),
            0 <= i <= j < self.blocks.len(),
        ensures
            self.blocks[i].start <= self.blocks[j].start,
            i < j ==> self.blocks[i].start + HEADER_SIZE <= self.blocks[j].start,
        decreases j - i,
    {
        if i < j {
            assert(self.block_linked(j - 1));
            self.lemma_starts_ordered(i, j - 1);
        }
    }

    /// Block `i` is allocated and its object header stands at `inner_index`.
    pub open spec fn has_object(self, i: int, inner_index: int) -> bool {
        &&& 0 <= i < self.blocks.len()
        &&& self.blocks[i].tag != 0
        &&& self.blocks[i].start + HEADER_SIZE == inner_index
    }

    /// An allocated block has its object header at `inner_index`.
    pub open spec fn is_live(self, inner_index: int) -> bool {
        exists|i: int| self.has_object(i, inner_index)
    }

    /// The block whose object header stands at `inner_index`.
    pub open spec fn index_of(self, inner_index: int) -> int {
        choose|i: int| self.has_object(i, inner_index)
    }

    /// The allocated block whose object header stands at `inner_index`.
    pub open spec fn object(self, inner_index: int) -> BlockView {
        self.blocks[self.index_of(inner_index)]
    }

    /// The handle `(inner_index, id_tag)` denotes an allocation of this pool.
    pub open spec fn is_valid(self, inner_index: int, id_tag: usize) -> bool {
        self.is_live(inner_index) && self.object(inner_index).tag == id_tag
    }

    /// At most one block has its object header at a given offset.
    pub proof fn lemma_index_of(self, i: int, inner_index: int)
        requires
            self.linked(),
            self.has_object(i, inner_index),
        ensures
            self.is_live(inner_index),
            self.index_of(inner_index) == i,
    {
        let j = self.index_of(inner_index);
        assert(self.has_object(j, inner_index));
        if i < j {
            self.lemma_starts_ordered(i, j);
        } else if j < i {
            self.lemma_starts_ordered(j, i);
        }
    }

    /// No block has its object header at `inner_index` if none of the
    /// blocks starts a header's length before it.
    pub proof fn lemma_not_live(self, inner_index: int)
        requires
            forall|j: int|
                0 <= j < self.blocks.len() ==> (#[trigger] self.blocks[j]).start + HEADER_SIZE
                    != inner_index,
        ensures
            !self.is_live(inner_index),
    {
        if self.is_live(inner_index) {
            let j = self.index_of(inner_index);
            assert(self.has_object(j, inner_index));
            assert(self.blocks[j].start + HEADER_SIZE != inner_index);
        }
    }

    /// Two pools whose blocks agree on start, tag and `next` have the same
    /// first fit.
    pub proof fn lemma_first_fit_same(self, other: PoolView, chunk: int, from: int)
        requires
            0 <= from,
            self.blocks.len() == other.blocks.len(),
            forall|j: int|
                0 <= j < self.blocks.len() ==> {
                    &&& (#[trigger] self.blocks[j]).start == other.blocks[j].start
                    &&& self.blocks[j].tag == other.blocks[j].tag
                    &&& self.blocks[j].next == other.blocks[j].next
                },
        ensures
            self.first_fit_from(chunk, from) == other.first_fit_from(chunk, from),
        decreases self.blocks.len() - from,
    {
        if from < self.blocks.len() {
            assert(self.blocks[from].start == other.blocks[from].start);
            self.lemma_first_fit_same(other, chunk, from + 1);
        }
    }

    /// Another strong count on an allocated block leaves the pool well-formed
    /// as long as it is not 0.
    pub proof fn lemma_with_strong(self, i: int, strong: usize)
        requires
            self.linked(),
            0 <= i < self.blocks.len(),
            self.blocks[i].tag != 0,
        ensures
            self.with_strong(i, strong).linked(),
            self.with_strong(i, strong).lowest_free() == self.lowest_free(),
            self.counted_but(i) && strong >= 1 ==> self.with_strong(i, strong).counted(),
    {
        let w = self.with_strong(i, strong);
        assert forall|j: int| 0 <= j < w.blocks.len() implies #[trigger] w.block_linked(j) by {
            assert(self.block_linked(j));
        }
        self.lemma_first_fit_same(w, 0, 0);
    }

    /// Every allocated block but block `i` holds a strong reference.
    pub open spec fn counted_but(self, i: int) -> bool {
        forall|j: int|
            0 <= j < self.blocks.len() && j != i && (#[trigger] self.blocks[j]).tag != 0
                ==> self.blocks[j].strong >= 1
    }

    /// Other bytes of the same length in an allocated block leave the pool
    /// well-formed.
    pub proof fn lemma_with_data(self, i: int, data: Seq<u8>)
        requires
            self.linked(),
            0 <= i < self.blocks.len(),
            self.blocks[i].tag != 0,
            data.len() == self.blocks[i].size,
        ensures
            self.with_data(i, data).linked(),
            self.with_data(i, data).lowest_free() == self.lowest_free(),
            self.counted() ==> self.with_data(i, data).counted(),
    {
        let w = self.with_data(i, data);
        assert forall|j: int| 0 <= j < w.blocks.len() implies #[trigger] w.block_linked(j) by {
            assert(self.block_linked(j));
        }
        self.lemma_first_fit_same(w, 0, 0);
    }

    /// An allocation from the first fit leaves the pool well-formed.
    pub proof fn lemma_after_malloc(self, i: int, size: usize, data: Seq<u8>)
        requires
            self.wf(),
            0 <= i < self.blocks.len(),
            self.fits(i, chunk_size(size as int)),
            data.len() == size,
            self.next_id_tag < usize::MAX,
        ensures
            self.after_malloc(i, size, data).wf(),
            self.after_malloc(i, size, data).has_object(i, self.blocks[i].start + HEADER_SIZE),
    {
        let w = self.after_malloc(i, size, data);
        self.lemma_claimed_linked(i, size, 1, data);
        self.after_claim(i, size, 1, data).lemma_first_fit_same(w, 0, 0);
        assert(self.block_linked(i));
        assert forall|j: int| 0 <= j < w.blocks.len() implies #[trigger] w.block_linked(j) by {
            assert(self.after_claim(i, size, 1, data).block_linked(j));
        }
        assert forall|j: int|
            0 <= j < w.blocks.len() && (#[trigger] w.blocks[j]).tag != 0 implies w.blocks[j].strong
            >= 1 by {
            let cut = self.blocks[i].start + chunk_size(size as int);
            if self.blocks[i].next - cut >= HEADER_SIZE {
                if j < i {
                    assert(self.blocks[j].tag != 0);
                } else if j > i + 1 {
                    assert(self.blocks[j - 1].tag != 0);
                }
            } else {
                if j != i {
                    assert(self.blocks[j].tag != 0);
                }
            }
        }
    }

    /// Freeing an allocated block leaves the pool well-formed.
    pub proof fn lemma_after_free(self, i: int)
        requires
            self.linked(),
            self.counted_but(i),
            0 <= i < self.blocks.len(),
            self.blocks[i].tag != 0,
        ensures
            self.after_free(i).wf(),
    {
        let w = self.after_free(i);
        let lo = self.merge_low(i);
        let hi = self.merge_high(i);
        self.lemma_released_linked(i);
        self.with_blocks(self.released(i)).lemma_first_fit_same(w, 0, 0);
        assert forall|j: int| 0 <= j < w.blocks.len() implies #[trigger] w.block_linked(j) by {
            assert(self.with_blocks(self.released(i)).block_linked(j));
        }
        assert forall|j: int|
            0 <= j < w.blocks.len() && (#[trigger] w.blocks[j]).tag != 0 implies w.blocks[j].strong
            >= 1 by {
            if j < lo {
                assert(self.blocks[j].tag != 0);
            } else if j > lo {
                assert(self.blocks[j + hi - lo].tag != 0);
            }
        }
    }

    /// The payload and the count that a claimed block starts with do not
    /// change where the lowest free block is.
    pub proof fn lemma_claim_lowest(
        self,
        i: int,
        size: usize,
        strong: usize,
        data: Seq<u8>,
        strong2: usize,
        data2: Seq<u8>,
    )
        requires
            0 <= i < self.blocks.len(),
        ensures
            self.after_claim(i, size, strong, data).lowest_free() == self.after_claim(
                i,
                size,
                strong2,
                data2,
            ).lowest_free(),
    {
        self.after_claim(i, size, strong, data).lemma_first_fit_same(
            self.after_claim(i, size, strong2, data2),
            0,
            0,
        );
    }

    /// The strong count after one more reference. A count that has reached
    /// the largest number stays there.
    pub open spec fn raised(strong: usize) -> usize {
        if strong < usize::MAX {
            (strong + 1) as usize
        } else {
            strong
        }
    }

    /// The pool after one more strong reference to the object at
    /// `inner_index`.
    pub open spec fn after_retain(self, inner_index: int) -> PoolView {
        let i = self.index_of(inner_index);
        self.with_strong(i, Self::raised(self.blocks[i].strong))
    }

    /// The pool after one strong reference to the object at `inner_index`
    /// has been given back: the block is freed with the last one. A count
    /// that has reached the largest number stays there, and the block is
    /// never freed.
    pub open spec fn after_release(self, inner_index: int) -> PoolView {
        let i = self.index_of(inner_index);
        if self.blocks[i].strong == usize::MAX {
            self
        } else if self.blocks[i].strong == 1 {
            self.after_free(i)
        } else {
            self.with_strong(i, (self.blocks[i].strong - 1) as usize)
        }
    }

    /// Giving back a strong reference to the object at `inner_index` frees
    /// its block.
    pub open spec fn frees(self, inner_index: int) -> bool {
        self.object(inner_index).strong == 1
    }

    /// The pool after the object at `inner_index` has got the payload
    /// `data`.
    pub open spec fn after_store(self, inner_index: int, data: Seq<u8>) -> PoolView {
        self.with_data(self.index_of(inner_index), data)
    }

    /// An allocation of `size` bytes succeeds: a free block fits it, and the
    /// tag counter has a tag left.
    pub open spec fn can_alloc(self, size: int) -> bool {
        self.first_fit(chunk_size(size)) >= 0 && self.next_id_tag < usize::MAX
    }

    /// Where the object header of the next allocation of `size` bytes will
    /// stand.
    pub open spec fn alloc_place(self, size: int) -> int {
        self.blocks[self.first_fit(chunk_size(size))].start + HEADER_SIZE
    }

    /// The pool after an allocation that holds `data`.
    pub open spec fn after_alloc(self, data: Seq<u8>) -> PoolView {
        self.after_malloc(self.first_fit(chunk_size(data.len() as int)), data.len() as usize, data)
    }

    /// This pool and `other` differ in the tag counter at most.
    pub open spec fn same_layout(self, other: PoolView) -> bool {
        &&& self.buffer_size == other.buffer_size
        &&& self.blocks == other.blocks
        &&& self.lowest_known_free_index == other.lowest_known_free_index
    }

    /// How many of the first `n` blocks are allocated.
    pub open spec fn allocated_among(self, n: int) -> nat
        decreases n,
    {
        if n <= 0 {
            0
        } else {
            self.allocated_among(n - 1) + if self.blocks[n - 1].tag != 0 {
                1nat
            } else {
                0nat
            }
        }
    }

    /// How many blocks are allocated.
    pub open spec fn live_count(self) -> nat {
        self.allocated_among(self.blocks.len() as int)
    }

    /// The pool over a fresh buffer of `buffer_size` bytes: one free block.
    pub open spec fn initial(buffer_size: usize) -> PoolView {
        PoolView {
            buffer_size,
            blocks: seq![free_block(0, BUFFER_END, (buffer_size - PAGE_SIZE) as usize)],
            lowest_known_free_index: 0,
            next_id_tag: 2,
        }
    }
}

/// One line of the block enumeration.
#[derive(Debug, Clone, Copy, PartialEq, Eq, Structural)]
pub struct BlockInfo {
    pub start: usize,
    pub capacity: usize,
    pub next: usize,
    pub prev: usize,
    pub is_free: bool,
}

/// What the enumeration says of a block: its payload capacity is what its
/// span leaves after the two headers.
pub open spec fn block_info(b: BlockView) -> BlockInfo {
    BlockInfo {
        start: b.start,
        capacity: if b.next - b.start >= OVERHEAD {
            (b.next - b.start - OVERHEAD) as usize
        } else {
            0
        },
        next: b.next,
        prev: b.prev,
        is_free: b.tag == 0,
    }
}

/// One line of the block enumeration as text.
pub open spec fn block_text(b: BlockInfo) -> Seq<char> {
    "_B { start: "@ + decimal(b.start as nat) + ", capacity: "@ + decimal(b.capacity as nat)
        + ", next: "@ + decimal(b.next as nat) + ", prev: "@ + decimal(b.prev as nat)
        + ", is_free: "@ + truth(b.is_free) + " }"@
}

/// The first `n` lines of the block enumeration as text, with a comma and a
/// space between two of them.
pub open spec fn blocks_text(blocks: Seq<BlockView>, n: int) -> Seq<char>
    decreases n,
{
    if n <= 0 {
        Seq::empty()
    } else if n == 1 {
        block_text(block_info(blocks[0]))
    } else {
        blocks_text(blocks, n - 1) + ", "@ + block_text(block_info(blocks[n - 1]))
    }
}

impl PoolView {
    /// The pool as text: the size of the buffer, the metadata and the
    /// blocks.
    pub open spec fn text(self) -> Seq<char> {
        "Pool { buffer_size: "@ + decimal(self.buffer_size as nat)
            + ", metadata: Metadata { lowest_known_free_index: "@ + decimal(
            self.lowest_known_free_index as nat,
        ) + ", next_id_tag: AtomicUsize("@ + decimal(self.next_id_tag as nat) + ") }, blocks: ["@
            + blocks_text(self.blocks, self.blocks.len() as int) + "] }"@
    }
}

} // verus!
