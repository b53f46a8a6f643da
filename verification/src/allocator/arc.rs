//! Handles to the allocations of a pool: the live handle, which stands for
//! one strong reference as long as it is held, and the persisted handle,
//! which is plain data and can be stored inside the pool itself.

use crate::allocator::pool::{Pool, BUFFER_END};
use crate::LodestoneError;
use vstd::prelude::*;

verus! {

/// The bytes of an object header: `strong`, `weak`, `size`.
pub const ARC_INNER_SIZE: usize = 24;

/// A live handle. It holds one strong reference to the block whose object
/// header stands at `arc_inner_index`, from `new` or `clone` until `release`.
#[derive(Debug)]
pub struct ArcByteSlice {
    pub arc_inner_index: usize,
}

/// An object header as it is kept in the buffer.
#[derive(Debug, Clone, Copy, PartialEq, Eq, Structural)]
pub struct ArcByteSliceInner {
    pub strong: usize,
    pub weak: usize,
    pub size: usize,
}

/// A handle that can be written down: where the object header stands, and
/// the tag of the allocation. It holds one strong reference, which only
/// `release` gives back.
#[derive(Debug, PartialEq, Eq, Structural)]
pub struct PersistedArcByteSlice {
    pub arc_inner_index: usize,
    pub id_tag: usize,
}

impl ArcByteSliceInner {
    /// Makes this the header of an object of `size` bytes that nothing
    /// refers to yet.
    pub fn init(&mut self, size: usize)
        ensures
            *final(self) == (ArcByteSliceInner { strong: 0, weak: 0, size }),
    {
        self.strong = 0;
        self.weak = 0;
        self.size = size;
    }
}

impl ArcByteSlice {
    /// Takes a strong reference to the object at `inner_index` and returns
    /// the live handle that stands for it.
    pub fn new(inner_index: usize, pool: &mut Pool) -> (arc: ArcByteSlice)
        requires
            old(pool).inv(),
            old(pool)@.is_live(inner_index as int),
        ensures
            arc.arc_inner_index == inner_index,
            final(pool).inv(),
            final(pool).holds(&arc),
            final(pool)@ == old(pool)@.after_retain(inner_index as int),
            final(pool)@.index_of(inner_index as int) == old(pool)@.index_of(inner_index as int),
            old(pool).wf() ==> final(pool).wf(),
    {
        pool.retain(inner_index);
        ArcByteSlice { arc_inner_index: inner_index }
    }

    /// The strong count of the object that this handle denotes.
    pub fn get_ref_count(&self, pool: &Pool) -> (count: usize)
        requires
            pool.inv(),
            pool.holds(self),
        ensures
            count == pool@.object(self.arc_inner_index as int).strong,
    {
        pool.index_to_arc_inner(self.arc_inner_index).strong
    }

    /// The object header that this handle denotes.
    pub fn inner(&self, pool: &Pool) -> (inner: ArcByteSliceInner)
        requires
            pool.inv(),
            pool.holds(self),
        ensures
            inner.strong == pool@.object(self.arc_inner_index as int).strong,
            inner.weak == pool@.object(self.arc_inner_index as int).weak,
            inner.size == pool@.object(self.arc_inner_index as int).size,
    {
        pool.index_to_arc_inner(self.arc_inner_index)
    }

    /// Takes another strong reference and returns it as a handle that can be
    /// written down.
    pub fn clone_to_persisted(&self, pool: &mut Pool) -> (persisted: PersistedArcByteSlice)
        requires
            old(pool).wf(),
            old(pool).holds(self),
        ensures
            final(pool).wf(),
            persisted.arc_inner_index == self.arc_inner_index,
            persisted.id_tag == old(pool)@.object(self.arc_inner_index as int).tag,
            final(pool)@ == old(pool)@.after_retain(self.arc_inner_index as int),
            final(pool)@.is_valid(persisted.arc_inner_index as int, persisted.id_tag),
    {
        let id_tag = pool._get_id_tag(self);
        pool.retain(self.arc_inner_index);
        PersistedArcByteSlice { arc_inner_index: self.arc_inner_index, id_tag }
    }

    /// Takes another strong reference and returns the live handle that
    /// stands for it.
    pub fn clone(&self, pool: &mut Pool) -> (arc: ArcByteSlice)
        requires
            old(pool).wf(),
            old(pool).holds(self),
        ensures
            final(pool).wf(),
            arc.arc_inner_index == self.arc_inner_index,
            final(pool).holds(&arc),
            final(pool)@ == old(pool)@.after_retain(self.arc_inner_index as int),
    {
        ArcByteSlice::new(self.arc_inner_index, pool)
    }

    /// Gives the strong reference of this handle back. The block is freed
    /// if it was the last one.
    pub fn release(self, pool: &mut Pool)
        requires
            old(pool).wf(),
            old(pool).holds(&self),
        ensures
            final(pool).wf(),
            final(pool)@ == old(pool)@.after_release(self.arc_inner_index as int),
    {
        pool.release(self.arc_inner_index);
    }

    /// The payload that this handle denotes.
    pub fn deref<'a>(&self, pool: &'a Pool) -> (data: &'a [u8])
        requires
            pool.inv(),
            pool.holds(self),
        ensures
            data@ == pool@.object(self.arc_inner_index as int).data,
    {
        pool.deref(self)
    }
}

impl PersistedArcByteSlice {
    /// The handle that denotes nothing.
    pub open spec fn null() -> PersistedArcByteSlice {
        PersistedArcByteSlice { arc_inner_index: BUFFER_END, id_tag: 0 }
    }

    /// Turns this handle into a live one, if the block it names still
    /// carries its tag.
    pub fn clone_to_arc_byte_slice(&self, pool: &mut Pool) -> (res: Result<
        ArcByteSlice,
        LodestoneError,
    >)
        requires
            old(pool).wf(),
        ensures
            final(pool).wf(),
            match res {
                Ok(arc) => {
                    &&& old(pool)@.is_valid(self.arc_inner_index as int, self.id_tag)
                    &&& arc.arc_inner_index == self.arc_inner_index
                    &&& final(pool).holds(&arc)
                    &&& final(pool)@ == old(pool)@.after_retain(self.arc_inner_index as int)
                },
                Err(e) => {
                    &&& e == LodestoneError::InvalidReference
                    &&& !old(pool)@.is_valid(self.arc_inner_index as int, self.id_tag)
                    &&& final(pool)@ == old(pool)@
                },
            },
    {
        pool.clone_persisted_to_arc(self)
    }

    /// The tag of the allocation that this handle was taken from.
    pub fn get_id_tag(&self) -> (tag: usize)
        ensures
            tag == self.id_tag,
    {
        self.id_tag
    }

    /// Takes another strong reference and returns it as a second handle.
    pub fn clone(&self, pool: &mut Pool) -> (res: Result<PersistedArcByteSlice, LodestoneError>)
        requires
            old(pool).wf(),
        ensures
            final(pool).wf(),
            match res {
                Ok(copy) => {
                    &&& old(pool)@.is_valid(self.arc_inner_index as int, self.id_tag)
                    &&& copy == *self
                    &&& final(pool)@ == old(pool)@.after_retain(self.arc_inner_index as int)
                },
                Err(e) => {
                    &&& e == LodestoneError::InvalidReference
                    &&& !old(pool)@.is_valid(self.arc_inner_index as int, self.id_tag)
                    &&& final(pool)@ == old(pool)@
                },
            },
    {
        match self.retain(pool) {
            Ok(()) => Ok(
                PersistedArcByteSlice {
                    arc_inner_index: self.arc_inner_index,
                    id_tag: self.id_tag,
                },
            ),
            Err(e) => Err(e),
        }
    }

    /// Takes another strong reference to the allocation that this handle
    /// names.
    pub fn retain(&self, pool: &mut Pool) -> (res: Result<(), LodestoneError>)
        requires
            old(pool).wf(),
        ensures
            final(pool).wf(),
            match res {
                Ok(_) => {
                    &&& old(pool)@.is_valid(self.arc_inner_index as int, self.id_tag)
                    &&& final(pool)@ == old(pool)@.after_retain(self.arc_inner_index as int)
                },
                Err(e) => {
                    &&& e == LodestoneError::InvalidReference
                    &&& !old(pool)@.is_valid(self.arc_inner_index as int, self.id_tag)
                    &&& final(pool)@ == old(pool)@
                },
            },
    {
        if !pool.is_valid(self) {
            return Err(LodestoneError::InvalidReference);
        }
        pool.retain(self.arc_inner_index);
        Ok(())
    }

    /// Gives the strong reference of this handle back and makes it the
    /// handle that denotes nothing. Returns whether the block was freed,
    /// which it is if this was the last reference.
    pub fn release(&mut self, pool: &mut Pool) -> (res: Result<bool, LodestoneError>)
        requires
            old(pool).wf(),
        ensures
            final(pool).wf(),
            match res {
                Ok(freed) => {
                    &&& old(pool)@.is_valid(old(self).arc_inner_index as int, old(self).id_tag)
                    &&& *final(self) == PersistedArcByteSlice::null()
                    &&& final(pool)@ == old(pool)@.after_release(old(self).arc_inner_index as int)
                    &&& freed == old(pool)@.frees(old(self).arc_inner_index as int)
                },
                Err(e) => {
                    &&& e == LodestoneError::InvalidReference
                    &&& !old(pool)@.is_valid(old(self).arc_inner_index as int, old(self).id_tag)
                    &&& *final(self) == *old(self)
                    &&& final(pool)@ == old(pool)@
                },
            },
    {
        if !pool.is_valid(self) {
            return Err(LodestoneError::InvalidReference);
        }
        let freed = pool.release(self.arc_inner_index);
        self.id_tag = 0;
        self.arc_inner_index = BUFFER_END;
        Ok(freed)
    }
}

} // verus!
