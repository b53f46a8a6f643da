//! What holds of every well-formed pool, and what allocating, retaining,
//! releasing and freeing leave as it is.

use crate::allocator::pool::{BUFFER_END, HEADER_SIZE, OVERHEAD, PAGE_SIZE};
use crate::allocator::view::{block_info, chunk_size, BlockView, PoolView};
use vstd::prelude::*;

verus! {

impl PoolView {
    /// This pool with `tag` as the tag of the next allocation.
    pub open spec fn with_next_tag(self, tag: usize) -> PoolView {
        PoolView { next_id_tag: tag, ..self }
    }

    /// The object at `x` is in `other` what it is here.
    pub open spec fn same_object(self, other: PoolView, x: int) -> bool {
        &&& other.is_live(x)
        &&& other.object(x).tag == self.object(x).tag
        &&& other.object(x).strong == self.object(x).strong
        &&& other.object(x).weak == self.object(x).weak
        &&& other.object(x).size == self.object(x).size
        &&& other.object(x).data == self.object(x).data
    }

    /// The object at `x` is in `other` what it is here, but for its strong
    /// count.
    pub open spec fn same_payload(self, other: PoolView, x: int) -> bool {
        &&& other.is_live(x)
        &&& other.object(x).tag == self.object(x).tag
        &&& other.object(x).weak == self.object(x).weak
        &&& other.object(x).size == self.object(x).size
        &&& other.object(x).data == self.object(x).data
    }

    /// The spans of the first `n` blocks, added up.
    pub open spec fn total_span(self, n: int) -> int
        decreases n,
    {
        if n <= 0 {
            0
        } else {
            self.total_span(n - 1) + self.span(n - 1)
        }
    }

    /// The payload capacities of the first `n` blocks, each with the bytes
    /// of its two headers, added up.
    pub open spec fn total_capacity(self, n: int) -> int
        decreases n,
    {
        if n <= 0 {
            0
        } else {
            self.total_capacity(n - 1) + block_info(self.blocks[n - 1]).capacity + OVERHEAD
        }
    }

    /// The block list is doubly linked: each block's `next` is where the
    /// block behind it starts, whose `prev` is where the block itself starts;
    /// the first block's `prev` is `BUFFER_END`, and the last block's `next`
    /// is the sentinel, where the metadata page begins.
    pub proof fn law_doubly_linked(self)
        requires
            self.wf(),
        ensures
            self.blocks[0].start == 0,
            self.blocks[0].prev == BUFFER_END,
            self.blocks.last().next == self.buffer_size - PAGE_SIZE,
            forall|i: int|
                0 <= i < self.blocks.len() - 1 ==> (#[trigger] self.blocks[i]).next
                    == self.blocks[i + 1].start,
            forall|i: int|
                0 < i < self.blocks.len() ==> (#[trigger] self.blocks[i]).prev == self.blocks[i
                    - 1].start,
            forall|i: int, j: int|
                0 <= i < j < self.blocks.len() ==> (#[trigger] self.blocks[i]).start < (
                #[trigger] self.blocks[j]).start,
    {
        assert(self.block_linked(0));
        assert(self.block_linked(self.blocks.len() - 1));
        assert forall|i: int| 0 <= i < self.blocks.len() - 1 implies (
        #[trigger] self.blocks[i]).next == self.blocks[i + 1].start by {
            assert(self.block_linked(i));
        }
        assert forall|i: int| 0 < i < self.blocks.len() implies (#[trigger] self.blocks[i]).prev
            == self.blocks[i - 1].start by {
            assert(self.block_linked(i));
        }
        assert forall|i: int, j: int| 0 <= i < j < self.blocks.len() implies (
        #[trigger] self.blocks[i]).start < (#[trigger] self.blocks[j]).start by {
            self.lemma_starts_ordered(i, j);
        }
    }

    /// No two free blocks touch.
    pub proof fn law_no_adjacent_free(self)
        requires
            self.wf(),
        ensures
            forall|i: int|
                0 <= i < self.blocks.len() - 1 && (#[trigger] self.blocks[i]).tag == 0
                    ==> self.blocks[i + 1].tag != 0,
    {
        assert forall|i: int|
            0 <= i < self.blocks.len() - 1 && (#[trigger] self.blocks[i]).tag == 0 implies self.blocks[i
            + 1].tag != 0 by {
            assert(self.block_linked(i));
        }
    }

    /// The spans of the first `n` blocks end where block `n` starts.
    pub proof fn lemma_total_span(self, n: int)
        requires
            self.linked(),
            1 <= n <= self.blocks.len(),
        ensures
            self.total_span(n) == self.blocks[n - 1].next,
        decreases n,
    {
        assert(self.block_linked(n - 1));
        if n > 1 {
            self.lemma_total_span(n - 1);
            assert(self.block_linked(n - 2));
        } else {
            assert(self.total_span(0) == 0);
        }
    }

    /// The blocks tile the buffer up to the metadata page: their spans add
    /// up to the size of the buffer less that page.
    pub proof fn law_spans_fill_buffer(self)
        requires
            self.wf(),
        ensures
            self.total_span(self.blocks.len() as int) == self.buffer_size - PAGE_SIZE,
    {
        self.lemma_total_span(self.blocks.len() as int);
        assert(self.block_linked(self.blocks.len() - 1));
    }

    /// Where every block spans its two headers at least, the payload
    /// capacities of the blocks, free and allocated, and the headers of each
    /// add up to the size of the buffer less the metadata page.
    pub proof fn law_capacity_fills_buffer(self)
        requires
            self.wf(),
            forall|i: int| 0 <= i < self.blocks.len() ==> #[trigger] self.span(i) >= OVERHEAD,
        ensures
            self.total_capacity(self.blocks.len() as int) == self.buffer_size - PAGE_SIZE,
    {
        self.law_spans_fill_buffer();
        self.lemma_total_capacity(self.blocks.len() as int);
    }

    /// Capacities and headers add up to the spans while every block spans
    /// its two headers.
    pub proof fn lemma_total_capacity(self, n: int)
        requires
            0 <= n <= self.blocks.len(),
            forall|i: int| 0 <= i < self.blocks.len() ==> #[trigger] self.span(i) >= OVERHEAD,
        ensures
            self.total_capacity(n) == self.total_span(n),
        decreases n,
    {
        if n > 0 {
            self.lemma_total_capacity(n - 1);
            assert(self.span(n - 1) >= OVERHEAD);
        }
    }

    /// An allocated block of a well-formed pool holds a strong reference,
    /// and its tag is lower than that of any allocation to come.
    pub proof fn law_live_is_counted(self, x: int)
        requires
            self.wf(),
            self.is_live(x),
        ensures
            self.object(x).strong >= 1,
            0 < self.object(x).tag < self.next_id_tag,
    {
        let i = self.index_of(x);
        assert(self.has_object(i, x));
        assert(self.block_linked(i));
    }

    /// An allocation followed by freeing what it returned restores the block
    /// list and the hint: only the tag counter has advanced.
    pub proof fn law_malloc_free_restores(self, i: int, size: usize, data: Seq<u8>)
        requires
            self.wf(),
            0 <= i < self.blocks.len(),
            self.fits(i, chunk_size(size as int)),
            data.len() == size,
            self.next_id_tag < usize::MAX,
        ensures
            self.after_malloc(i, size, data).after_free(i) == self.with_next_tag(
                (self.next_id_tag + 1) as usize,
            ),
            self.same_layout(self.after_malloc(i, size, data).after_free(i)),
    {
        self.lemma_malloc_free(i, size, data, (self.next_id_tag + 1) as usize);
        assert(self.after_malloc(i, size, data).with_next_tag((self.next_id_tag + 1) as usize)
            == self.after_malloc(i, size, data));
    }

    /// Freeing what an allocation returned restores the block list and the
    /// hint, whatever the tag counter has become since.
    pub proof fn lemma_malloc_free(self, i: int, size: usize, data: Seq<u8>, tag: usize)
        requires
            self.wf(),
            0 <= i < self.blocks.len(),
            self.fits(i, chunk_size(size as int)),
            data.len() == size,
            self.next_id_tag < usize::MAX,
        ensures
            self.after_malloc(i, size, data).with_next_tag(tag).after_free(i) == self.with_next_tag(
                tag,
            ),
    {
        let m = self.after_malloc(i, size, data).with_next_tag(tag);
        let f = m.after_free(i);
        let goal = self.with_next_tag(tag);
        self.lemma_after_malloc(i, size, data);
        assert(self.block_linked(i));
        if i > 0 {
            assert(self.block_linked(i - 1));
        }
        if i + 1 < self.blocks.len() {
            assert(self.block_linked(i + 1));
        }
        assert(m.merge_low(i) == i);
        assert(f.blocks =~= self.blocks);
        goal.lemma_first_fit_same(self, 0, 0);
        m.with_blocks(m.released(i)).lemma_first_fit_same(goal, 0, 0);
    }

    /// A later tag counter leaves a pool well-formed, with the objects it
    /// has.
    pub proof fn lemma_with_next_tag(self, tag: usize)
        requires
            self.wf(),
            tag >= self.next_id_tag,
        ensures
            self.with_next_tag(tag).wf(),
            forall|x: int| self.with_next_tag(tag).is_live(x) == self.is_live(x),
            forall|x: int|
                self.is_live(x) ==> self.with_next_tag(tag).index_of(x) == self.index_of(x),
    {
        let w = self.with_next_tag(tag);
        assert forall|j: int| 0 <= j < w.blocks.len() implies #[trigger] w.block_linked(j) by {
            assert(self.block_linked(j));
        }
        self.lemma_first_fit_same(w, 0, 0);
        assert forall|x: int| w.is_live(x) == self.is_live(x) by {
            if self.is_live(x) {
                assert(w.has_object(self.index_of(x), x));
            }
            if w.is_live(x) {
                assert(self.has_object(w.index_of(x), x));
            }
        }
        assert forall|x: int| self.is_live(x) implies w.index_of(x) == self.index_of(x) by {
            let j = self.index_of(x);
            assert(self.has_object(j, x));
            assert(w.has_object(j, x));
            w.lemma_index_of(j, x);
        }
    }

    /// Once the block of the object at `x` is freed, no handle to `x` is
    /// valid.
    pub proof fn law_freed_is_dead(self, x: int)
        requires
            self.wf(),
            self.is_live(x),
        ensures
            !self.after_free(self.index_of(x)).is_live(x),
    {
        let i = self.index_of(x);
        let w = self.after_free(i);
        let lo = self.merge_low(i);
        let hi = self.merge_high(i);
        assert(self.has_object(i, x));
        self.lemma_after_free(i);
        if w.is_live(x) {
            let j = w.index_of(x);
            assert(w.has_object(j, x));
            if j < lo {
                self.lemma_starts_ordered(j, i);
            } else if j == lo {
            } else {
                self.lemma_starts_ordered(i, j + hi - lo);
            }
        }
    }

    /// An allocation leaves every other object as it is, and the object it
    /// makes is live: it holds `data`, carries the tag that was next, and
    /// has one strong reference.
    pub proof fn lemma_malloc_keeps(self, i: int, size: usize, data: Seq<u8>, x: int)
        requires
            self.wf(),
            0 <= i < self.blocks.len(),
            self.fits(i, chunk_size(size as int)),
            data.len() == size,
            self.next_id_tag < usize::MAX,
        ensures
            self.is_live(x) ==> self.same_object(self.after_malloc(i, size, data), x),
            self.is_live(x) ==> x != self.blocks[i].start + HEADER_SIZE,
            !self.is_live(self.blocks[i].start + HEADER_SIZE),
            self.after_malloc(i, size, data).is_live(self.blocks[i].start + HEADER_SIZE),
            self.after_malloc(i, size, data).object(self.blocks[i].start + HEADER_SIZE) == (
            BlockView {
                tag: self.next_id_tag,
                strong: 1,
                weak: 0,
                size,
                data,
                ..self.after_malloc(i, size, data).object(self.blocks[i].start + HEADER_SIZE)
            }),
    {
        let w = self.after_malloc(i, size, data);
        let new = self.blocks[i].start + HEADER_SIZE;
        let cut = self.blocks[i].start + chunk_size(size as int);
        let split = self.blocks[i].next - cut >= HEADER_SIZE;
        self.lemma_after_malloc(i, size, data);
        w.lemma_index_of(i, new);
        assert(self.block_linked(i));
        if self.is_live(new) {
            let j = self.index_of(new);
            assert(self.has_object(j, new));
            if j < i {
                self.lemma_starts_ordered(j, i);
            } else if j > i {
                self.lemma_starts_ordered(i, j);
            }
        }
        if self.is_live(x) {
            let j = self.index_of(x);
            assert(self.has_object(j, x));
            let j2 = if split && j > i {
                j + 1
            } else {
                j
            };
            assert(w.has_object(j2, x));
            w.lemma_index_of(j2, x);
        }
    }

    /// One more strong reference to the object at `y` leaves every other
    /// object as it is, and that object but for its count.
    pub proof fn lemma_retain_keeps(self, y: int, x: int)
        requires
            self.linked(),
            self.is_live(y),
        ensures
            self.is_live(x) && x != y ==> self.same_object(self.after_retain(y), x),
            self.same_payload(self.after_retain(y), y),
            self.after_retain(y).object(y).strong == Self::raised(self.object(y).strong),
            self.after_retain(y).is_live(x) ==> self.is_live(x),
    {
        let w = self.after_retain(y);
        let i = self.index_of(y);
        assert(self.has_object(i, y));
        self.lemma_with_strong(i, Self::raised(self.blocks[i].strong));
        assert(w.has_object(i, y));
        w.lemma_index_of(i, y);
        if self.is_live(x) && x != y {
            let j = self.index_of(x);
            assert(self.has_object(j, x));
            assert(w.has_object(j, x));
            w.lemma_index_of(j, x);
        }
        if w.is_live(x) {
            let j = w.index_of(x);
            assert(w.has_object(j, x));
            assert(self.has_object(j, x));
        }
    }

    /// Another payload for the object at `y` leaves every other object as it
    /// is, and that object but for its payload.
    pub proof fn lemma_store_keeps(self, y: int, data: Seq<u8>, x: int)
        requires
            self.linked(),
            self.is_live(y),
            data.len() == self.object(y).size,
        ensures
            self.is_live(x) && x != y ==> self.same_object(self.after_store(y, data), x),
            self.after_store(y, data).is_live(y),
            self.after_store(y, data).object(y) == (BlockView { data, ..self.object(y) }),
    {
        let w = self.after_store(y, data);
        let i = self.index_of(y);
        assert(self.has_object(i, y));
        self.lemma_with_data(i, data);
        assert(w.has_object(i, y));
        w.lemma_index_of(i, y);
        if self.is_live(x) && x != y {
            let j = self.index_of(x);
            assert(self.has_object(j, x));
            assert(w.has_object(j, x));
            w.lemma_index_of(j, x);
        }
    }

    /// Freeing block `i` leaves every object but its own as it is.
    pub proof fn lemma_free_keeps(self, i: int, x: int)
        requires
            self.linked(),
            self.counted_but(i),
            0 <= i < self.blocks.len(),
            self.blocks[i].tag != 0,
            self.is_live(x),
            x != self.blocks[i].start + HEADER_SIZE,
        ensures
            self.same_object(self.after_free(i), x),
    {
        let w = self.after_free(i);
        let lo = self.merge_low(i);
        let hi = self.merge_high(i);
        let j = self.index_of(x);
        assert(self.has_object(j, x));
        self.lemma_after_free(i);
        let j2 = if j < lo {
            j
        } else {
            j - (hi - lo)
        };
        assert(j != i);
        assert(w.has_object(j2, x));
        w.lemma_index_of(j2, x);
    }

    /// Giving back a strong reference to the object at `y` leaves every other
    /// object as it is, and that object but for its count unless it is
    /// freed.
    pub proof fn lemma_release_keeps(self, y: int, x: int)
        requires
            self.wf(),
            self.is_live(y),
            self.is_live(x),
        ensures
            x != y ==> self.same_object(self.after_release(y), x),
            !self.frees(y) ==> self.same_payload(self.after_release(y), y),
            !self.frees(y) && self.object(y).strong < usize::MAX ==> self.after_release(
                y,
            ).object(y).strong == self.object(y).strong - 1,
    {
        let w = self.after_release(y);
        let i = self.index_of(y);
        assert(self.has_object(i, y));
        if self.blocks[i].strong == usize::MAX {
        } else if self.blocks[i].strong == 1 {
            if x != y {
                self.lemma_free_keeps(i, x);
            }
        } else {
            let s = (self.blocks[i].strong - 1) as usize;
            self.lemma_with_strong(i, s);
            assert(w.has_object(i, y));
            w.lemma_index_of(i, y);
            if x != y {
                let j = self.index_of(x);
                assert(self.has_object(j, x));
                assert(w.has_object(j, x));
                w.lemma_index_of(j, x);
            }
        }
    }

    /// Giving back a strong reference leaves the pool well-formed.
    pub proof fn lemma_after_release(self, y: int)
        requires
            self.wf(),
            self.is_live(y),
        ensures
            self.after_release(y).wf(),
    {
        let i = self.index_of(y);
        assert(self.has_object(i, y));
        if self.blocks[i].strong == usize::MAX {
        } else if self.blocks[i].strong == 1 {
            self.lemma_after_free(i);
        } else {
            self.lemma_with_strong(i, (self.blocks[i].strong - 1) as usize);
        }
    }

    /// Another payload of the same size leaves the pool well-formed.
    pub proof fn lemma_after_store(self, y: int, data: Seq<u8>)
        requires
            self.wf(),
            self.is_live(y),
            data.len() == self.object(y).size,
        ensures
            self.after_store(y, data).wf(),
    {
        let i = self.index_of(y);
        assert(self.has_object(i, y));
        self.lemma_with_data(i, data);
    }
}

} // verus!
