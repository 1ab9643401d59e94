//! Types for safely allocating memory.

use crate::error::Error;
use crate::heap::{
    allocate, allocate_zeroed, deallocate, len_verdict, reallocate, reallocate_inplace, verdict,
};
use crate::raw::{between, claimed, holds, moved, resized, valid_request, zeros, RawHeap, Regions};
use vstd::arithmetic::power2::is_pow2;
use vstd::prelude::*;

verus! {

/// An owned, allocated block of memory.
///
/// The address is never null, the length is never zero nor more than the
/// largest offset a pointer can take, and the alignment is a power of two.
#[derive(Debug)]
pub struct Allocation {
    /// The address of the allocated block of memory.
    ptr: usize,
    /// The length in bytes of the allocation.
    len: usize,
    /// The alignment in bytes of the allocation.
    align: usize,
}

impl Allocation {
    /// The address of the block.
    pub closed spec fn spec_as_ptr(&self) -> usize {
        self.ptr
    }

    /// The length in bytes of the block.
    pub closed spec fn spec_len(&self) -> usize {
        self.len
    }

    /// The alignment in bytes of the block.
    pub closed spec fn spec_align(&self) -> usize {
        self.align
    }

    /// The handle made of an address, a length and an alignment.
    pub closed spec fn spec_from_raw(ptr: usize, len: usize, align: usize) -> Allocation {
        Allocation { ptr, len, align }
    }

    /// The address, length and alignment that make up the handle.
    pub closed spec fn spec_into_raw(self) -> (usize, usize, usize) {
        (self.ptr, self.len, self.align)
    }

    /// What holds of every handle.
    #[verifier::type_invariant]
    pub open spec fn wf(&self) -> bool {
        self.spec_as_ptr() != 0 && valid_request(self.spec_len(), self.spec_align())
    }

    /// The handle's block is a live region of a heap with these regions, of
    /// the handle's length and alignment.
    pub open spec fn live_in(&self, regions: Regions) -> bool {
        holds(regions, self.spec_as_ptr(), self.spec_len(), self.spec_align())
    }

    /// Allocates a block of memory using the specified length and alignment.
    pub fn new<H: RawHeap>(heap: &mut H, len: usize, align: usize) -> (r: Result<
        Allocation,
        Error,
    >)
        requires
            old(heap).wf(),
        ensures
            final(heap).wf(),
            verdict(len, align) is Err ==> r == Err::<Allocation, Error>(
                verdict(len, align)->Err_0,
            ) && *final(heap) == *old(heap),
            verdict(len, align) is Ok ==> match r {
                Ok(a) => a.len() == len && a.align() == align && a.live_in(final(heap).regions())
                    && claimed(old(heap).regions(), final(heap).regions(), a.as_ptr(), len, align),
                Err(e) => e == Error::NotEnoughMemory && final(heap).regions() == old(
                    heap,
                ).regions(),
            },
    {
        match allocate(heap, len, align) {
            Err(e) => Err(e),
            Ok(ptr) => Ok(Allocation::from_raw(ptr, len, align)),
        }
    }

    /// Allocates a block of memory with all bytes initialized to zero, using
    /// the specified length and alignment.
    pub fn zeroed<H: RawHeap>(heap: &mut H, len: usize, align: usize) -> (r: Result<
        Allocation,
        Error,
    >)
        requires
            old(heap).wf(),
        ensures
            final(heap).wf(),
            verdict(len, align) is Err ==> r == Err::<Allocation, Error>(
                verdict(len, align)->Err_0,
            ) && *final(heap) == *old(heap),
            verdict(len, align) is Ok ==> match r {
                Ok(a) => a.len() == len && a.align() == align && a.live_in(final(heap).regions())
                    && claimed(old(heap).regions(), final(heap).regions(), a.as_ptr(), len, align)
                    && final(heap).regions()[a.as_ptr()].bytes == zeros(len),
                Err(e) => e == Error::NotEnoughMemory && final(heap).regions() == old(
                    heap,
                ).regions(),
            },
    {
        match allocate_zeroed(heap, len, align) {
            Err(e) => Err(e),
            Ok(ptr) => Ok(Allocation::from_raw(ptr, len, align)),
        }
    }

    /// Takes ownership of an address, length and alignment, and treats the
    /// three as an existing allocation.
    ///
    /// Nothing is checked: the caller answers for the block being live in the
    /// heap that the handle is then used with, under this length and
    /// alignment.
    #[verifier::when_used_as_spec(spec_from_raw)]
    pub fn from_raw(ptr: usize, len: usize, align: usize) -> (a: Allocation)
        requires
            ptr != 0,
            valid_request(len, align),
        ensures
            a == Allocation::spec_from_raw(ptr, len, align),
            a.as_ptr() == ptr,
            a.len() == len,
            a.align() == align,
    {
        Allocation { ptr, len, align }
    }

    /// Consumes an allocation without freeing associated memory, returning
    /// its address, length and alignment.
    ///
    /// Care must be taken to ensure that the memory is correctly freed after
    /// calling this method. This can be done by reconstructing the allocation
    /// via `Allocation::from_raw` and releasing it immediately afterwards.
    #[verifier::when_used_as_spec(spec_into_raw)]
    pub fn into_raw(self) -> (raw: (usize, usize, usize))
        ensures
            raw == self.spec_into_raw(),
            raw == (self.as_ptr(), self.len(), self.align()),
            raw.0 != 0,
            valid_request(raw.1, raw.2),
    {
        proof {
            use_type_invariant(&self);
        }
        (self.ptr, self.len, self.align)
    }

    /// Resizes an existing allocation.
    ///
    /// On failure, returns an error without modifying the existing
    /// allocation.
    pub fn resize<H: RawHeap>(&mut self, heap: &mut H, new_len: usize) -> (r: Result<(), Error>)
        requires
            old(heap).wf(),
            old(self).live_in(old(heap).regions()),
        ensures
            final(heap).wf(),
            final(self).live_in(final(heap).regions()),
            final(self).align() == old(self).align(),
            r is Err ==> *final(self) == *old(self) && final(heap).regions() == old(heap).regions(),
            len_verdict(new_len) is Err ==> r == Err::<(), Error>(len_verdict(new_len)->Err_0)
                && *final(heap) == *old(heap),
            len_verdict(new_len) is Ok ==> match r {
                Ok(()) => final(self).len() == new_len && moved(
                    old(heap).regions(),
                    final(heap).regions(),
                    old(self).as_ptr(),
                    final(self).as_ptr(),
                    new_len,
                    old(self).align(),
                ),
                Err(e) => e == Error::NotEnoughMemory,
            },
    {
        proof {
            use_type_invariant(&*self);
        }
        match reallocate(heap, self.ptr, self.len, new_len, self.align) {
            Err(e) => Err(e),
            Ok(ptr) => {
                self.ptr = ptr;
                self.len = new_len;
                Ok(())
            },
        }
    }

    /// Resizes an existing allocation without moving it.
    ///
    /// The allocation ends up as long as the heap could make it where it
    /// stands: `new_len` at best, its length before at worst. On failure,
    /// returns an error without modifying the existing allocation.
    pub fn resize_in_place<H: RawHeap>(&mut self, heap: &mut H, new_len: usize) -> (r: Result<
        (),
        Error,
    >)
        requires
            old(heap).wf(),
            old(self).live_in(old(heap).regions()),
        ensures
            final(heap).wf(),
            final(self).live_in(final(heap).regions()),
            final(self).as_ptr() == old(self).as_ptr(),
            final(self).align() == old(self).align(),
            r is Err ==> *final(self) == *old(self) && final(heap).regions() == old(heap).regions(),
            len_verdict(new_len) is Err ==> r == Err::<(), Error>(len_verdict(new_len)->Err_0)
                && *final(heap) == *old(heap),
            new_len <= old(self).len() ==> r != Err::<(), Error>(Error::NotEnoughMemory),
            len_verdict(new_len) is Ok ==> r is Ok && between(
                old(self).len(),
                new_len,
                final(self).len(),
            ) && resized(
                old(heap).regions(),
                final(heap).regions(),
                old(self).as_ptr(),
                final(self).len(),
            ),
    {
        proof {
            use_type_invariant(&*self);
        }
        match reallocate_inplace(heap, self.ptr, self.len, new_len, self.align) {
            Err(e) => Err(e),
            Ok(len) => {
                self.len = len;
                Ok(())
            },
        }
    }

    /// Creates a new memory allocation with the same length, alignment and
    /// contents as an existing allocation.
    pub fn duplicate<H: RawHeap>(&self, heap: &mut H) -> (r: Result<Allocation, Error>)
        requires
            old(heap).wf(),
            self.live_in(old(heap).regions()),
        ensures
            final(heap).wf(),
            self.live_in(final(heap).regions()),
            final(heap).regions()[self.as_ptr()] == old(heap).regions()[self.as_ptr()],
            match r {
                Ok(twin) => twin.len() == self.len() && twin.align() == self.align()
                    && twin.as_ptr() != self.as_ptr() && twin.live_in(final(heap).regions())
                    && claimed(
                    old(heap).regions(),
                    final(heap).regions(),
                    twin.as_ptr(),
                    self.len(),
                    self.align(),
                ) && final(heap).regions()[twin.as_ptr()].bytes == old(
                    heap,
                ).regions()[self.as_ptr()].bytes,
                Err(e) => e == Error::NotEnoughMemory && final(heap).regions() == old(
                    heap,
                ).regions(),
            },
    {
        proof {
            use_type_invariant(self);
        }
        match Allocation::new(heap, self.len, self.align) {
            Err(e) => Err(e),
            Ok(twin) => {
                let ghost claimed_regions = heap.regions();
                heap.raw_copy(self.ptr, twin.ptr, self.len);
                proof {
                    let source = old(heap).regions()[self.ptr].bytes;
                    let target = claimed_regions[twin.ptr].bytes;
                    assert(source.take(self.len as int) + target.skip(self.len as int) =~= source);
                    assert(heap.regions() =~= old(heap).regions().insert(
                        twin.ptr,
                        heap.regions()[twin.ptr],
                    ));
                }
                Ok(twin)
            },
        }
    }

    /// Gives the block back to the heap, which ends the handle.
    pub fn release<H: RawHeap>(self, heap: &mut H)
        requires
            old(heap).wf(),
            self.live_in(old(heap).regions()),
        ensures
            final(heap).wf(),
            final(heap).regions() == old(heap).regions().remove(self.as_ptr()),
    {
        deallocate(heap, self.ptr, self.len, self.align)
    }

    /// Returns the address of the allocated block of memory.
    #[verifier::when_used_as_spec(spec_as_ptr)]
    pub fn as_ptr(&self) -> (ptr: usize)
        ensures
            ptr == self.spec_as_ptr(),
            ptr != 0,
    {
        proof {
            use_type_invariant(self);
        }
        self.ptr
    }

    /// Returns the address of the allocated block of memory, for writing
    /// through.
    pub fn as_mut_ptr(&mut self) -> (ptr: usize)
        ensures
            ptr == old(self).as_ptr(),
            ptr != 0,
            *final(self) == *old(self),
    {
        proof {
            use_type_invariant(&*self);
        }
        self.ptr
    }

    /// Returns the length in bytes of the allocated block of memory.
    #[verifier::when_used_as_spec(spec_len)]
    pub fn len(&self) -> (len: usize)
        ensures
            len == self.spec_len(),
            0 < len <= isize::MAX,
    {
        proof {
            use_type_invariant(self);
        }
        self.len
    }

    /// Returns the alignment in bytes of the allocated block of memory.
    #[verifier::when_used_as_spec(spec_align)]
    pub fn align(&self) -> (align: usize)
        ensures
            align == self.spec_align(),
            is_pow2(align as int),
    {
        proof {
            use_type_invariant(self);
        }
        self.align
    }
}

/// Taking a handle apart and putting the three parts together again gives
/// the handle back: the same address, length and alignment, and so the same
/// block with the same bytes in every heap.
pub proof fn lemma_raw_round_trip(a: Allocation)
    ensures
        ({
            let (ptr, len, align) = a.into_raw();
            Allocation::from_raw(ptr, len, align) == a
        }),
{
}

/// Putting three parts together and taking the handle apart again gives the
/// three parts back.
pub proof fn lemma_raw_parts_kept(ptr: usize, len: usize, align: usize)
    ensures
        Allocation::from_raw(ptr, len, align).into_raw() == (ptr, len, align),
        Allocation::from_raw(ptr, len, align).as_ptr() == ptr,
        Allocation::from_raw(ptr, len, align).len() == len,
        Allocation::from_raw(ptr, len, align).align() == align,
{
}

} // verus!
