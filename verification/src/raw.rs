//! The raw heap: the allocator beneath the checked operations, and the model
//! of memory in which its behaviour is stated.
//!
//! A raw heap hands out regions of memory by address. The model of a heap is
//! the map from the address of each live region to what the region holds. The
//! null address, zero, is never a region's address: it is how a raw heap
//! refuses.

use vstd::arithmetic::power2::is_pow2;
use vstd::prelude::*;

verus! {

/// One live region of memory, as the model sees it.
pub struct Region {
    /// The alignment that the region was requested with.
    pub align: usize,
    /// The bytes of the region, first byte first. A region that was not
    /// zeroed starts out with bytes that nothing is known of.
    pub bytes: Seq<u8>,
}

/// The live regions of a heap, each under the address of its first byte.
pub type Regions = Map<usize, Region>;

/// A request that may be handed to a raw heap: the length is not zero and no
/// more than the largest offset a pointer can take, and the alignment is a
/// power of two.
pub open spec fn valid_request(len: usize, align: usize) -> bool {
    0 < len <= isize::MAX && is_pow2(align as int)
}

/// `(ptr, len, align)` describes a live region exactly.
pub open spec fn holds(regions: Regions, ptr: usize, len: usize, align: usize) -> bool {
    &&& regions.contains_key(ptr)
    &&& regions[ptr].bytes.len() == len
    &&& regions[ptr].align == align
}

/// The `len` bytes from `ptr` on belong to no region of `regions`.
pub open spec fn vacant(regions: Regions, ptr: usize, len: usize) -> bool {
    forall|q: usize| #[trigger]
        regions.contains_key(q) ==> ptr + len <= q || q + regions[q].bytes.len() <= ptr
}

/// `len` bytes that are all zero.
pub open spec fn zeros(len: usize) -> Seq<u8> {
    Seq::new(len as nat, |i: int| 0u8)
}

/// `after` is `before` with one more region: `len` bytes at `ptr`, which is
/// not null, is a multiple of `align`, and lay in no region before.
pub open spec fn claimed(
    before: Regions,
    after: Regions,
    ptr: usize,
    len: usize,
    align: usize,
) -> bool {
    &&& ptr != 0
    &&& ptr as int % align as int == 0
    &&& !before.contains_key(ptr)
    &&& vacant(before, ptr, len)
    &&& after == before.insert(ptr, after[ptr])
    &&& after[ptr].align == align
    &&& after[ptr].bytes.len() == len
}

/// `after` is `before` with the region at `ptr` replaced by one of `len` bytes
/// at `new_ptr`, which may or may not be `ptr`. The new region starts with the
/// bytes of the old one, as many as both have room for.
pub open spec fn moved(
    before: Regions,
    after: Regions,
    ptr: usize,
    new_ptr: usize,
    len: usize,
    align: usize,
) -> bool {
    let kept = if before[ptr].bytes.len() <= len {
        before[ptr].bytes.len() as int
    } else {
        len as int
    };
    &&& new_ptr != 0
    &&& new_ptr as int % align as int == 0
    &&& !before.remove(ptr).contains_key(new_ptr)
    &&& vacant(before.remove(ptr), new_ptr, len)
    &&& after == before.remove(ptr).insert(new_ptr, after[new_ptr])
    &&& after[new_ptr].align == align
    &&& after[new_ptr].bytes.len() == len
    &&& after[new_ptr].bytes.take(kept) == before[ptr].bytes.take(kept)
}

/// `after` is `before` with the region at `ptr` now `granted` bytes long, at
/// the same address and with the same alignment. The region keeps its leading
/// bytes, as many as it had and still has room for.
pub open spec fn resized(before: Regions, after: Regions, ptr: usize, granted: usize) -> bool {
    let kept = if before[ptr].bytes.len() <= granted {
        before[ptr].bytes.len() as int
    } else {
        granted as int
    };
    &&& vacant(before.remove(ptr), ptr, granted)
    &&& after == before.insert(ptr, after[ptr])
    &&& after[ptr].align == before[ptr].align
    &&& after[ptr].bytes.len() == granted
    &&& after[ptr].bytes.take(kept) == before[ptr].bytes.take(kept)
}

/// `granted` lies between `old_len` and `len`, whichever way round they are.
pub open spec fn between(old_len: usize, len: usize, granted: usize) -> bool {
    if old_len <= len {
        old_len <= granted <= len
    } else {
        len <= granted <= old_len
    }
}

/// `after` is `before` with the first `count` bytes of the region at `dst`
/// replaced by the first `count` bytes of the region at `src`.
pub open spec fn copied(
    before: Regions,
    after: Regions,
    src: usize,
    dst: usize,
    count: usize,
) -> bool {
    after == before.insert(
        dst,
        Region {
            align: before[dst].align,
            bytes: before[src].bytes.take(count as int) + before[dst].bytes.skip(count as int),
        },
    )
}

/// A region that is claimed leaves every region that was live as it was, and
/// shares no byte with any of them.
pub proof fn lemma_claim_spares_the_rest(
    before: Regions,
    after: Regions,
    ptr: usize,
    len: usize,
    align: usize,
    other: usize,
)
    requires
        claimed(before, after, ptr, len, align),
        before.contains_key(other),
    ensures
        other != ptr,
        after.contains_key(other),
        after[other] == before[other],
        ptr + len <= other || other + before[other].bytes.len() <= ptr,
{
}

/// A region that is moved leaves every other region as it was, and shares no
/// byte with any of them where it ends up.
pub proof fn lemma_move_spares_the_rest(
    before: Regions,
    after: Regions,
    ptr: usize,
    new_ptr: usize,
    len: usize,
    align: usize,
    other: usize,
)
    requires
        moved(before, after, ptr, new_ptr, len, align),
        before.contains_key(other),
        other != ptr,
    ensures
        other != new_ptr,
        after.contains_key(other),
        after[other] == before[other],
        new_ptr + len <= other || other + before[other].bytes.len() <= new_ptr,
{
    assert(before.remove(ptr).contains_key(other));
}

/// A region that is resized where it stands leaves every other region as it
/// was, and shares no byte with any of them at its new length.
pub proof fn lemma_resize_spares_the_rest(
    before: Regions,
    after: Regions,
    ptr: usize,
    granted: usize,
    other: usize,
)
    requires
        resized(before, after, ptr, granted),
        before.contains_key(other),
        other != ptr,
    ensures
        after.contains_key(other),
        after[other] == before[other],
        ptr + granted <= other || other + before[other].bytes.len() <= ptr,
{
    assert(before.remove(ptr).contains_key(other));
}

/// The memory allocator that the checked operations of this crate call, with
/// what they rely on.
///
/// The methods take only requests that have passed the checks, and regions
/// that are live and exactly described: they need not defend themselves. A
/// heap may refuse any request for memory; what it may not do is answer a
/// request with memory that is in use, lose a region, or change the bytes of
/// a region that the request did not name.
pub trait RawHeap {
    /// The live regions. A heap that the verifier reads says here what they
    /// are; of any other, nothing is known of them but what the methods
    /// below promise.
    open spec fn regions(&self) -> Regions {
        arbitrary()
    }

    /// What the heap needs to hold of itself between calls.
    open spec fn wf(&self) -> bool {
        true
    }

    /// Asks for `len` bytes aligned to `align`. Returns the address of the
    /// new region, or null where the heap refuses.
    fn raw_allocate(&mut self, len: usize, align: usize) -> (ptr: usize)
        requires
            old(self).wf(),
            valid_request(len, align),
        ensures
            final(self).wf(),
            ptr == 0 ==> final(self).regions() == old(self).regions(),
            ptr != 0 ==> claimed(old(self).regions(), final(self).regions(), ptr, len, align),
    ;

    /// As `raw_allocate`, with every byte of the new region zero.
    fn raw_allocate_zeroed(&mut self, len: usize, align: usize) -> (ptr: usize)
        requires
            old(self).wf(),
            valid_request(len, align),
        ensures
            final(self).wf(),
            ptr == 0 ==> final(self).regions() == old(self).regions(),
            ptr != 0 ==> claimed(old(self).regions(), final(self).regions(), ptr, len, align),
            ptr != 0 ==> final(self).regions()[ptr].bytes == zeros(len),
    ;

    /// Asks for the region at `ptr` to become `len` bytes long, moving it
    /// where the heap must. Returns the address of the region afterwards, or
    /// null where the heap refuses; the region is then as it was.
    fn raw_reallocate(
        &mut self,
        ptr: usize,
        old_len: usize,
        len: usize,
        align: usize,
    ) -> (new_ptr: usize)
        requires
            old(self).wf(),
            holds(old(self).regions(), ptr, old_len, align),
            valid_request(len, align),
        ensures
            final(self).wf(),
            new_ptr == 0 ==> final(self).regions() == old(self).regions(),
            new_ptr != 0 ==> moved(
                old(self).regions(),
                final(self).regions(),
                ptr,
                new_ptr,
                len,
                align,
            ),
    ;

    /// Asks for the region at `ptr` to become `len` bytes long where it is.
    /// Returns the length that the region has afterwards: `len` where the
    /// heap could do all that was asked, `old_len` where it could do nothing,
    /// or a length between the two.
    fn raw_reallocate_inplace(
        &mut self,
        ptr: usize,
        old_len: usize,
        len: usize,
        align: usize,
    ) -> (granted: usize)
        requires
            old(self).wf(),
            holds(old(self).regions(), ptr, old_len, align),
            valid_request(len, align),
        ensures
            final(self).wf(),
            between(old_len, len, granted),
            resized(old(self).regions(), final(self).regions(), ptr, granted),
    ;

    /// Gives the region at `ptr` back to the heap.
    fn raw_deallocate(&mut self, ptr: usize, len: usize, align: usize)
        requires
            old(self).wf(),
            holds(old(self).regions(), ptr, len, align),
        ensures
            final(self).wf(),
            final(self).regions() == old(self).regions().remove(ptr),
    ;

    /// Copies the first `count` bytes of the region at `src` over the first
    /// `count` bytes of the region at `dst`, which is another region.
    fn raw_copy(&mut self, src: usize, dst: usize, count: usize)
        requires
            old(self).wf(),
            src != dst,
            old(self).regions().contains_key(src),
            old(self).regions().contains_key(dst),
            count <= old(self).regions()[src].bytes.len(),
            count <= old(self).regions()[dst].bytes.len(),
        ensures
            final(self).wf(),
            copied(old(self).regions(), final(self).regions(), src, dst, count),
    ;
}

} // verus!
