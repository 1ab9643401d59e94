//! Low-level memory allocation: the checks made on every request, the raw
//! heap that serves the checked requests, and the checked operations.

use crate::error::Error;
use crate::raw::{between, claimed, holds, moved, resized, valid_request, zeros, RawHeap};
use vstd::arithmetic::power2::is_pow2;
use vstd::prelude::*;

verus! {

/// `usize::is_power_of_two` is taken at its documented word: it returns `true`
/// exactly when its argument is `2^k` for some `k`.
pub assume_specification[ usize::is_power_of_two ](n: usize) -> (r: bool)
    ensures
        r == is_pow2(n as int),
;

/// The verdict on the length of a request: zero is refused as such, and a
/// length beyond the largest offset a pointer can take cannot be satisfied.
pub open spec fn len_verdict(len: usize) -> Result<(), Error> {
    if len == 0 {
        Err(Error::ZeroLength)
    } else if len > isize::MAX {
        Err(Error::NotEnoughMemory)
    } else {
        Ok(())
    }
}

/// The verdict on the alignment of a request: it must be a power of two.
pub open spec fn align_verdict(align: usize) -> Result<(), Error> {
    if is_pow2(align as int) {
        Ok(())
    } else {
        Err(Error::BadAlignment)
    }
}

/// The verdict on a request: the length is judged first, and the alignment
/// only once the length has passed.
pub open spec fn verdict(len: usize, align: usize) -> Result<(), Error> {
    match len_verdict(len) {
        Err(e) => Err(e),
        Ok(()) => align_verdict(align),
    }
}

/// Performs sanity checks on the length of a requested memory allocation.
pub fn check_len(len: usize) -> (r: Result<(), Error>)
    ensures
        r == len_verdict(len),
{
    if len == 0 {
        Err(Error::ZeroLength)
    } else if len > isize::MAX as usize {
        Err(Error::NotEnoughMemory)
    } else {
        Ok(())
    }
}

/// Performs sanity checks on the alignment of a requested memory allocation.
pub fn check_align(align: usize) -> (r: Result<(), Error>)
    ensures
        r == align_verdict(align),
{
    if usize::is_power_of_two(align) {
        Ok(())
    } else {
        Err(Error::BadAlignment)
    }
}

/// Performs sanity checks on the length and alignment of a requested memory
/// allocation.
pub fn check_len_and_align(len: usize, align: usize) -> (r: Result<(), Error>)
    ensures
        r == verdict(len, align),
        r is Ok <==> valid_request(len, align),
{
    match check_len(len) {
        Err(e) => Err(e),
        Ok(()) => check_align(align),
    }
}

/// Performs sanity checks on an address returned from an allocation function:
/// the null address stands for a refusal.
pub fn check_ptr(ptr: usize) -> (r: Result<usize, Error>)
    ensures
        r == (if ptr == 0 { Err::<usize, Error>(Error::NotEnoughMemory) } else { Ok(ptr) }),
{
    if ptr == 0 {
        Err(Error::NotEnoughMemory)
    } else {
        Ok(ptr)
    }
}

/// Allocates a block of memory using the specified length and alignment.
///
/// A request that fails the checks is refused before the heap hears of it.
/// One that passes is handed to the heap, and a null answer is reported as
/// want of memory.
pub fn allocate<H: RawHeap>(heap: &mut H, len: usize, align: usize) -> (r: Result<usize, Error>)
    requires
        old(heap).wf(),
    ensures
        final(heap).wf(),
        verdict(len, align) is Err ==> r == Err::<usize, Error>(verdict(len, align)->Err_0)
            && *final(heap) == *old(heap),
        verdict(len, align) is Ok ==> match r {
            Ok(ptr) => claimed(old(heap).regions(), final(heap).regions(), ptr, len, align),
            Err(e) => e == Error::NotEnoughMemory && final(heap).regions() == old(heap).regions(),
        },
{
    match check_len_and_align(len, align) {
        Err(e) => Err(e),
        Ok(()) => check_ptr(heap.raw_allocate(len, align)),
    }
}

/// Allocates a block of memory with all bytes initialized to zero, using the
/// specified length and alignment.
pub fn allocate_zeroed<H: RawHeap>(heap: &mut H, len: usize, align: usize) -> (r: Result<
    usize,
    Error,
>)
    requires
        old(heap).wf(),
    ensures
        final(heap).wf(),
        verdict(len, align) is Err ==> r == Err::<usize, Error>(verdict(len, align)->Err_0)
            && *final(heap) == *old(heap),
        verdict(len, align) is Ok ==> match r {
            Ok(ptr) => claimed(old(heap).regions(), final(heap).regions(), ptr, len, align)
                && final(heap).regions()[ptr].bytes == zeros(len),
            Err(e) => e == Error::NotEnoughMemory && final(heap).regions() == old(heap).regions(),
        },
{
    match check_len_and_align(len, align) {
        Err(e) => Err(e),
        Ok(()) => check_ptr(heap.raw_allocate_zeroed(len, align)),
    }
}

/// Resizes an existing allocation to the specified length.
///
/// The `old_len` and `align` parameters are respectively the length and
/// alignment of the existing allocation, which is at `ptr`.
///
/// If successful, the allocation is at the address returned, and `ptr` is no
/// longer the address of anything unless it is that address. On failure,
/// returns an `Error` without affecting the existing allocation.
pub fn reallocate<H: RawHeap>(
    heap: &mut H,
    ptr: usize,
    old_len: usize,
    len: usize,
    align: usize,
) -> (r: Result<usize, Error>)
    requires
        old(heap).wf(),
        holds(old(heap).regions(), ptr, old_len, align),
    ensures
        final(heap).wf(),
        verdict(len, align) is Err ==> r == Err::<usize, Error>(verdict(len, align)->Err_0)
            && *final(heap) == *old(heap),
        verdict(len, align) is Ok ==> match r {
            Ok(new_ptr) => moved(
                old(heap).regions(),
                final(heap).regions(),
                ptr,
                new_ptr,
                len,
                align,
            ),
            Err(e) => e == Error::NotEnoughMemory && final(heap).regions() == old(heap).regions(),
        },
{
    match check_len_and_align(len, align) {
        Err(e) => Err(e),
        Ok(()) => check_ptr(heap.raw_reallocate(ptr, old_len, len, align)),
    }
}

/// Resizes an existing allocation without moving it.
///
/// The `old_len` and `align` parameters are respectively the length and
/// alignment of the existing allocation, which is at `ptr`.
///
/// Returns the length that the allocation has afterwards. Where the heap
/// cannot do all that was asked, that length lies short of `len`, and this is
/// no error. On failure, returns an `Error` without affecting the existing
/// allocation.
pub fn reallocate_inplace<H: RawHeap>(
    heap: &mut H,
    ptr: usize,
    old_len: usize,
    len: usize,
    align: usize,
) -> (r: Result<usize, Error>)
    requires
        old(heap).wf(),
        holds(old(heap).regions(), ptr, old_len, align),
    ensures
        final(heap).wf(),
        verdict(len, align) is Err ==> r == Err::<usize, Error>(verdict(len, align)->Err_0)
            && *final(heap) == *old(heap),
        verdict(len, align) is Ok ==> r is Ok && between(old_len, len, r->Ok_0) && resized(
            old(heap).regions(),
            final(heap).regions(),
            ptr,
            r->Ok_0,
        ),
{
    match check_len_and_align(len, align) {
        Err(e) => Err(e),
        Ok(()) => Ok(heap.raw_reallocate_inplace(ptr, old_len, len, align)),
    }
}

/// Deallocates a block of memory, which `(ptr, len, align)` must describe
/// exactly.
pub fn deallocate<H: RawHeap>(heap: &mut H, ptr: usize, len: usize, align: usize)
    requires
        old(heap).wf(),
        holds(old(heap).regions(), ptr, len, align),
    ensures
        final(heap).wf(),
        final(heap).regions() == old(heap).regions().remove(ptr),
{
    heap.raw_deallocate(ptr, len, align)
}

/// A length of zero is refused as such, whatever the alignment.
pub proof fn lemma_zero_length_refused(align: usize)
    ensures
        verdict(0, align) == Err::<(), Error>(Error::ZeroLength),
{
}

/// Given a length that is not zero, an alignment that is not a power of two
/// is refused as such.
pub proof fn lemma_bad_alignment_refused(len: usize, align: usize)
    requires
        len != 0,
        len <= isize::MAX,
        !is_pow2(align as int),
    ensures
        verdict(len, align) == Err::<(), Error>(Error::BadAlignment),
{
}

/// A length beyond the largest offset a pointer can take is refused for want
/// of memory, whatever the alignment.
pub proof fn lemma_oversized_length_refused(len: usize, align: usize)
    requires
        len > isize::MAX,
    ensures
        verdict(len, align) == Err::<(), Error>(Error::NotEnoughMemory),
{
}

} // verus!
