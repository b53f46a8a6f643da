//! A page of memory read and written as machine words.

use crate::allocator::words::{read_word, same_bytes, word_at, write_word};
use vstd::prelude::*;

verus! {

/// A page is a run of bytes; a full one holds 4096 of them.
pub type Page = Vec<u8>;

/// The word that stands for the signed number `v`: its two's complement.
pub fn signed_word(v: isize) -> (w: usize)
    ensures
        w == v as usize,
{
    v as usize
}

/// The signed number that the word `w` stands for.
pub fn word_signed(w: usize) -> (v: isize)
    ensures
        v == w as isize,
{
    w as isize
}

/// Memory that can be read and written as machine words, at its start or at
/// any offset that leaves room for one.
pub trait FlexibleMemory {
    /// The bytes of the memory.
    spec fn bytes(&self) -> Seq<u8>;

    /// The word at the start of the memory.
    fn transmute_page(&self) -> (w: usize)
        requires
            self.bytes().len() >= 8,
        ensures
            w == word_at(self.bytes(), 0),
    ;

    /// The word at `offset`.
    fn transmute_segment(&self, offset: usize) -> (w: usize)
        requires
            offset + 8 <= self.bytes().len(),
        ensures
            w == word_at(self.bytes(), offset as int),
    ;

    /// Stores `value` at the start of the memory.
    fn transmute_page_mut(&mut self, value: usize)
        requires
            old(self).bytes().len() >= 8,
        ensures
            final(self).bytes().len() == old(self).bytes().len(),
            word_at(final(self).bytes(), 0) == value,
            forall|j: int|
                8 <= j < old(self).bytes().len() ==> final(self).bytes()[j] == old(self).bytes()[j],
    ;

    /// Stores `value` at `offset`.
    fn transmute_segment_mut(&mut self, offset: usize, value: usize)
        requires
            offset + 8 <= old(self).bytes().len(),
        ensures
            final(self).bytes().len() == old(self).bytes().len(),
            word_at(final(self).bytes(), offset as int) == value,
            forall|j: int|
                0 <= j < old(self).bytes().len() && !(offset <= j < offset + 8) ==> final(self).bytes()[j]
                    == old(self).bytes()[j],
    ;
}

impl FlexibleMemory for Page {
    open spec fn bytes(&self) -> Seq<u8> {
        self@
    }

    fn transmute_page(&self) -> (w: usize) {
        read_word(self, 0)
    }

    fn transmute_segment(&self, offset: usize) -> (w: usize) {
        read_word(self, offset)
    }

    fn transmute_page_mut(&mut self, value: usize) {
        proof {
            reveal(same_bytes);
        }
        write_word(self, 0, value);
    }

    fn transmute_segment_mut(&mut self, offset: usize, value: usize) {
        proof {
            reveal(same_bytes);
        }
        write_word(self, offset, value);
    }
}

} // verus!
