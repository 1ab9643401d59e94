//! A raw heap made of safe Rust: a table of byte vectors under addresses that
//! it makes up.
//!
//! The table serves a window of addresses from one up to a limit, from the
//! bottom. It never hands an address out twice, so what it does depends on
//! the requests it has seen and on nothing else: it is the heap to run the
//! checked operations against where each refusal has to be foreseen.
//!
//! The bytes of a region are kept in a vector, so a window should be no
//! larger than the memory at hand can back.

use crate::raw::{claimed, vacant, valid_request, RawHeap, Region, Regions};
use vstd::arithmetic::div_mod::{lemma_fundamental_div_mod, lemma_mod_multiples_basic};
use vstd::arithmetic::power2::is_pow2;
use vstd::prelude::*;

verus! {

/// The byte that a region is filled with where it was not asked to be zeroed.
pub const FRESH: u8 = 0xCD;

/// One region of the table.
struct Block {
    addr: usize,
    align: usize,
    bytes: Vec<u8>,
}

/// A raw heap that keeps its regions in a table.
pub struct TableHeap {
    /// The live regions, in no particular order.
    blocks: Vec<Block>,
    /// The lowest address that no region has reached yet.
    frontier: usize,
    /// The address that no region may reach beyond.
    limit: usize,
}

spec fn listed(blocks: Seq<Block>, ptr: usize) -> bool {
    exists|i: int| 0 <= i < blocks.len() && (#[trigger] blocks[i]).addr == ptr
}

spec fn index_of(blocks: Seq<Block>, ptr: usize) -> int {
    choose|i: int| 0 <= i < blocks.len() && (#[trigger] blocks[i]).addr == ptr
}

spec fn region_of(block: Block) -> Region {
    Region { align: block.align, bytes: block.bytes@ }
}

spec fn table(blocks: Seq<Block>) -> Regions {
    Map::new(
        |ptr: usize| listed(blocks, ptr),
        |ptr: usize| region_of(blocks[index_of(blocks, ptr)]),
    )
}

spec fn apart(a: Block, b: Block) -> bool {
    a.addr + a.bytes@.len() <= b.addr || b.addr + b.bytes@.len() <= a.addr
}

/// The frontier is above the null address, no block is empty, all lie below
/// the frontier, and no two share a byte.
spec fn orderly(blocks: Seq<Block>, frontier: usize) -> bool {
    &&& frontier > 0
    &&& forall|i: int|
        0 <= i < blocks.len() ==> {
            &&& (#[trigger] blocks[i]).bytes@.len() > 0
            &&& blocks[i].addr + blocks[i].bytes@.len() <= frontier
        }
    &&& forall|i: int, j: int|
        0 <= i < blocks.len() && 0 <= j < blocks.len() && i != j ==> apart(
            #[trigger] blocks[i],
            #[trigger] blocks[j],
        )
}

/// In an orderly table the block at an index is the one found under its
/// address.
proof fn lemma_found(blocks: Seq<Block>, frontier: usize, i: int)
    requires
        orderly(blocks, frontier),
        0 <= i < blocks.len(),
    ensures
        listed(blocks, blocks[i].addr),
        index_of(blocks, blocks[i].addr) == i,
        table(blocks).contains_key(blocks[i].addr),
        table(blocks)[blocks[i].addr] == region_of(blocks[i]),
{
    let k = index_of(blocks, blocks[i].addr);
    if k != i {
        assert(apart(blocks[k], blocks[i]));
    }
}

/// An orderly table is the map that holds each of its blocks under its
/// address and nothing else.
proof fn lemma_table_is(blocks: Seq<Block>, frontier: usize, regions: Regions)
    requires
        orderly(blocks, frontier),
        forall|i: int|
            0 <= i < blocks.len() ==> regions.contains_key((#[trigger] blocks[i]).addr)
                && regions[blocks[i].addr] == region_of(blocks[i]),
        forall|ptr: usize| #[trigger] regions.contains_key(ptr) ==> listed(blocks, ptr),
    ensures
        table(blocks) == regions,
{
    assert forall|ptr: usize| #[trigger]
        table(blocks).contains_key(ptr) implies regions.contains_key(ptr) && regions[ptr] == table(
        blocks,
    )[ptr] by {
        let k = index_of(blocks, ptr);
        lemma_found(blocks, frontier, k);
    }
    assert(table(blocks) =~= regions);
}

/// `len` bytes that all hold `FRESH`.
pub open spec fn fresh(len: nat) -> Seq<u8> {
    Seq::new(len, |i: int| FRESH)
}

/// The first multiple of `align` that is no less than `addr`.
pub open spec fn round_up(addr: usize, align: usize) -> int {
    let rem = addr as int % align as int;
    if rem == 0 {
        addr as int
    } else {
        addr + align - rem
    }
}

/// Where a new region of `len` bytes aligned to `align` goes in a table with
/// this frontier and limit: at the first multiple of `align` from the
/// frontier on, unless it would then reach beyond the limit.
pub open spec fn placement(frontier: usize, limit: usize, len: usize, align: usize) -> Option<
    usize,
> {
    let start = round_up(frontier, align);
    if start + len <= limit {
        Some(start as usize)
    } else {
        None
    }
}

/// The length that a region of `old_len` bytes at `ptr` has after it was
/// asked to become `len` bytes long where it stands, in a table with this
/// frontier and limit.
pub open spec fn inplace_grant(
    frontier: usize,
    limit: usize,
    ptr: usize,
    old_len: usize,
    len: usize,
) -> int {
    if len <= old_len {
        len as int
    } else if ptr + old_len == frontier && frontier <= limit {
        if len - old_len <= limit - frontier {
            len as int
        } else {
            old_len + (limit - frontier)
        }
    } else {
        old_len as int
    }
}

proof fn lemma_pow2_positive(n: usize)
    requires
        is_pow2(n as int),
    ensures
        n > 0,
{
    reveal(is_pow2);
}

/// A block placed at or above the frontier joins an orderly table as a new
/// region, on room that was vacant.
proof fn lemma_pushed(blocks: Seq<Block>, frontier: usize, block: Block, new_frontier: usize)
    requires
        orderly(blocks, frontier),
        block.bytes@.len() > 0,
        frontier <= block.addr,
        block.addr + block.bytes@.len() <= new_frontier,
    ensures
        orderly(blocks.push(block), new_frontier),
        !table(blocks).contains_key(block.addr),
        vacant(table(blocks), block.addr, block.bytes@.len() as usize),
        table(blocks.push(block)) == table(blocks).insert(block.addr, region_of(block)),
{
    let grown = blocks.push(block);
    let regions = table(blocks).insert(block.addr, region_of(block));
    assert forall|q: usize| #[trigger] table(blocks).contains_key(q) implies q + table(
        blocks,
    )[q].bytes.len() <= block.addr by {
        lemma_found(blocks, frontier, index_of(blocks, q));
    }
    assert forall|i: int| 0 <= i < grown.len() implies regions.contains_key(
        (#[trigger] grown[i]).addr,
    ) && regions[grown[i].addr] == region_of(grown[i]) by {
        if i < blocks.len() {
            lemma_found(blocks, frontier, i);
        }
    }
    assert forall|p: usize| #[trigger] regions.contains_key(p) implies listed(grown, p) by {
        if p == block.addr {
            assert(grown[blocks.len() as int].addr == p);
        } else {
            assert(grown[index_of(blocks, p)].addr == p);
        }
    }
    lemma_table_is(grown, new_frontier, regions);
}

/// Taking a block out of an orderly table takes its region out of the map.
proof fn lemma_removed(blocks: Seq<Block>, frontier: usize, i: int)
    requires
        orderly(blocks, frontier),
        0 <= i < blocks.len(),
    ensures
        orderly(blocks.remove(i), frontier),
        table(blocks.remove(i)) == table(blocks).remove(blocks[i].addr),
{
    let rest = blocks.remove(i);
    let regions = table(blocks).remove(blocks[i].addr);
    assert forall|k: int| 0 <= k < rest.len() implies regions.contains_key(
        (#[trigger] rest[k]).addr,
    ) && regions[rest[k].addr] == region_of(rest[k]) by {
        let m = if k < i {
            k
        } else {
            k + 1
        };
        assert(rest[k] == blocks[m]);
        assert(apart(blocks[m], blocks[i]));
        lemma_found(blocks, frontier, m);
    }
    assert forall|p: usize| #[trigger] regions.contains_key(p) implies listed(rest, p) by {
        let m = index_of(blocks, p);
        lemma_found(blocks, frontier, i);
        let k = if m < i {
            m
        } else {
            m - 1
        };
        assert(rest[k].addr == p);
    }
    lemma_table_is(rest, frontier, regions);
}

/// A block of an orderly table may change its bytes, and may change its
/// length where it shrinks or is the topmost block: its region changes with
/// it, and runs into no other.
proof fn lemma_updated(
    blocks: Seq<Block>,
    frontier: usize,
    i: int,
    block: Block,
    new_frontier: usize,
)
    requires
        orderly(blocks, frontier),
        0 <= i < blocks.len(),
        block.addr == blocks[i].addr,
        block.bytes@.len() > 0,
        frontier <= new_frontier,
        block.addr + block.bytes@.len() <= new_frontier,
        block.bytes@.len() <= blocks[i].bytes@.len() || blocks[i].addr + blocks[i].bytes@.len()
            == frontier,
    ensures
        orderly(blocks.update(i, block), new_frontier),
        vacant(table(blocks).remove(block.addr), block.addr, block.bytes@.len() as usize),
        table(blocks.update(i, block)) == table(blocks).insert(block.addr, region_of(block)),
{
    let changed = blocks.update(i, block);
    let regions = table(blocks).insert(block.addr, region_of(block));
    assert forall|k: int| 0 <= k < blocks.len() && k != i implies apart(
        #[trigger] blocks[k],
        block,
    ) by {
        assert(apart(blocks[k], blocks[i]));
    }
    assert forall|q: usize| #[trigger]
        table(blocks).remove(block.addr).contains_key(q) implies block.addr + block.bytes@.len()
        <= q || q + table(blocks).remove(block.addr)[q].bytes.len() <= block.addr by {
        let k = index_of(blocks, q);
        lemma_found(blocks, frontier, k);
        assert(apart(blocks[k], block));
    }
    assert forall|k: int| 0 <= k < changed.len() implies regions.contains_key(
        (#[trigger] changed[k]).addr,
    ) && regions[changed[k].addr] == region_of(changed[k]) by {
        if k != i {
            lemma_found(blocks, frontier, k);
            assert(apart(blocks[k], blocks[i]));
        }
    }
    assert forall|p: usize| #[trigger] regions.contains_key(p) implies listed(changed, p) by {
        if p == block.addr {
            assert(changed[i].addr == p);
        } else {
            assert(changed[index_of(blocks, p)].addr == p);
        }
    }
    lemma_table_is(changed, new_frontier, regions);
}

impl TableHeap {
    /// The lowest address that no region has reached yet.
    pub closed spec fn frontier(&self) -> usize {
        self.frontier
    }

    /// The address that no region may reach beyond.
    pub closed spec fn limit(&self) -> usize {
        self.limit
    }

    /// A heap with no region, which serves the addresses from one up to
    /// `limit`.
    pub fn new(limit: usize) -> (heap: TableHeap)
        ensures
            heap.wf(),
            heap.regions() == Map::<usize, Region>::empty(),
            heap.frontier() == 1,
            heap.limit() == limit,
    {
        let heap = TableHeap { blocks: Vec::new(), frontier: 1, limit };
        assert(heap.regions() =~= Map::<usize, Region>::empty());
        heap
    }

    /// The index of the block at `ptr`.
    fn find(&self, ptr: usize) -> (at: Option<usize>)
        ensures
            match at {
                Some(i) => i < self.blocks.len() && self.blocks[i as int].addr == ptr,
                None => !listed(self.blocks@, ptr),
            },
    {
        let mut i: usize = 0;
        while i < self.blocks.len()
            invariant
                i <= self.blocks.len(),
                forall|k: int| 0 <= k < i ==> (#[trigger] self.blocks[k]).addr != ptr,
            decreases self.blocks.len() - i,
        {
            if self.blocks[i].addr == ptr {
                return Some(i);
            }
            i += 1;
        }
        None
    }

    /// Reads the byte at `offset` in the region at `ptr`; `None` where there
    /// is no such region or no such byte in it.
    pub fn read(&self, ptr: usize, offset: usize) -> (byte: Option<u8>)
        requires
            self.wf(),
        ensures
            byte == (if self.regions().contains_key(ptr) && offset
                < self.regions()[ptr].bytes.len() {
                Some(self.regions()[ptr].bytes[offset as int])
            } else {
                None
            }),
    {
        match self.find(ptr) {
            None => None,
            Some(i) => {
                proof {
                    lemma_found(self.blocks@, self.frontier, i as int);
                }
                if offset < self.blocks[i].bytes.len() {
                    Some(self.blocks[i].bytes[offset])
                } else {
                    None
                }
            },
        }
    }

    /// Writes `byte` at `offset` in the region at `ptr`, and says whether
    /// there was such a byte to write to.
    pub fn write(&mut self, ptr: usize, offset: usize, byte: u8) -> (done: bool)
        requires
            old(self).wf(),
        ensures
            final(self).wf(),
            final(self).frontier() == old(self).frontier(),
            final(self).limit() == old(self).limit(),
            done == (old(self).regions().contains_key(ptr) && offset
                < old(self).regions()[ptr].bytes.len()),
            done ==> final(self).regions() == old(self).regions().insert(
                ptr,
                Region {
                    align: old(self).regions()[ptr].align,
                    bytes: old(self).regions()[ptr].bytes.update(offset as int, byte),
                },
            ),
            !done ==> final(self).regions() == old(self).regions(),
    {
        match self.find(ptr) {
            None => false,
            Some(i) => {
                proof {
                    lemma_found(self.blocks@, self.frontier, i as int);
                }
                if offset < self.blocks[i].bytes.len() {
                    self.blocks[i].bytes[offset] = byte;
                    proof {
                        assert(self.blocks@ =~= old(self).blocks@.update(
                            i as int,
                            self.blocks@[i as int],
                        ));
                        lemma_updated(
                            old(self).blocks@,
                            old(self).frontier,
                            i as int,
                            self.blocks@[i as int],
                            self.frontier,
                        );
                    }
                    true
                } else {
                    false
                }
            },
        }
    }

    /// Finds room for `len` bytes aligned to `align` above every region so
    /// far.
    fn place(&self, len: usize, align: usize) -> (at: Option<usize>)
        requires
            align > 0,
        ensures
            at == placement(self.frontier, self.limit, len, align),
            at matches Some(start) ==> {
                &&& self.frontier <= start
                &&& start as int % align as int == 0
                &&& start + len <= self.limit
            },
    {
        let rem: usize = self.frontier % align;
        let pad: usize = if rem == 0 {
            0
        } else {
            align - rem
        };
        if self.frontier > self.limit || pad > self.limit - self.frontier {
            return None;
        }
        let start: usize = self.frontier + pad;
        if len > self.limit - start {
            return None;
        }
        proof {
            if rem != 0 {
                let whole = self.frontier as int / align as int;
                lemma_fundamental_div_mod(self.frontier as int, align as int);
                lemma_mod_multiples_basic(whole + 1, align as int);
                assert(start == (whole + 1) * align) by (nonlinear_arith)
                    requires
                        self.frontier == align * whole + rem,
                        start == self.frontier + align - rem,
                ;
            }
        }
        Some(start)
    }

    /// Claims room for a region of `len` bytes that all hold `fill`.
    fn claim(&mut self, len: usize, align: usize, fill: u8) -> (ptr: usize)
        requires
            old(self).wf(),
            valid_request(len, align),
        ensures
            final(self).wf(),
            final(self).limit() == old(self).limit(),
            match placement(old(self).frontier(), old(self).limit(), len, align) {
                Some(start) => {
                    &&& ptr == start
                    &&& final(self).frontier() == start + len
                    &&& claimed(old(self).regions(), final(self).regions(), ptr, len, align)
                    &&& final(self).regions()[ptr].bytes == Seq::new(len as nat, |i: int| fill)
                },
                None => ptr == 0 && *final(self) == *old(self),
            },
    {
        proof {
            lemma_pow2_positive(align);
        }
        match self.place(len, align) {
            None => 0,
            Some(start) => {
                let bytes: Vec<u8> = vec![fill; len];
                assert(bytes@ =~= Seq::new(len as nat, |i: int| fill));
                let block = Block { addr: start, align, bytes };
                proof {
                    lemma_pushed(self.blocks@, self.frontier, block, (start + len) as usize);
                }
                self.blocks.push(block);
                self.frontier = start + len;
                start
            },
        }
    }
}

impl RawHeap for TableHeap {
    closed spec fn regions(&self) -> Regions {
        table(self.blocks@)
    }

    closed spec fn wf(&self) -> bool {
        orderly(self.blocks@, self.frontier)
    }

    /// Places the region above every region so far, at the first multiple of
    /// `align`, and fills it with `FRESH`. Refuses where the region would
    /// reach beyond the limit.
    fn raw_allocate(&mut self, len: usize, align: usize) -> (ptr: usize)
        ensures
            final(self).limit() == old(self).limit(),
            match placement(old(self).frontier(), old(self).limit(), len, align) {
                Some(start) => {
                    &&& ptr == start
                    &&& final(self).frontier() == start + len
                    &&& final(self).regions()[ptr].bytes == fresh(len as nat)
                },
                None => ptr == 0 && *final(self) == *old(self),
            },
    {
        self.claim(len, align, FRESH)
    }

    /// As `raw_allocate`, with the region filled with zero.
    fn raw_allocate_zeroed(&mut self, len: usize, align: usize) -> (ptr: usize)
        ensures
            final(self).limit() == old(self).limit(),
            match placement(old(self).frontier(), old(self).limit(), len, align) {
                Some(start) => ptr == start && final(self).frontier() == start + len,
                None => ptr == 0 && *final(self) == *old(self),
            },
    {
        self.claim(len, align, 0)
    }

    /// Moves the region to where a new one of `len` bytes would be placed,
    /// and fills what it gains with `FRESH`. Refuses where such a region
    /// would reach beyond the limit.
    fn raw_reallocate(
        &mut self,
        ptr: usize,
        old_len: usize,
        len: usize,
        align: usize,
    ) -> (new_ptr: usize)
        ensures
            final(self).limit() == old(self).limit(),
            match placement(old(self).frontier(), old(self).limit(), len, align) {
                Some(start) => {
                    &&& new_ptr == start
                    &&& final(self).frontier() == start + len
                    &&& final(self).regions()[new_ptr].bytes == if len <= old_len {
                        old(self).regions()[ptr].bytes.take(len as int)
                    } else {
                        old(self).regions()[ptr].bytes + fresh((len - old_len) as nat)
                    }
                },
                None => new_ptr == 0 && *final(self) == *old(self),
            },
    {
        proof {
            lemma_pow2_positive(align);
        }
        match (self.place(len, align), self.find(ptr)) {
            (Some(start), Some(i)) => {
                proof {
                    lemma_found(self.blocks@, self.frontier, i as int);
                    lemma_removed(self.blocks@, self.frontier, i as int);
                }
                let mut block = self.blocks.remove(i);
                block.bytes.resize(len, FRESH);
                block.addr = start;
                assert(block.bytes@ =~= if len <= old_len {
                    old(self).regions()[ptr].bytes.take(len as int)
                } else {
                    old(self).regions()[ptr].bytes + fresh((len - old_len) as nat)
                });
                proof {
                    let kept = if old_len <= len {
                        old_len as int
                    } else {
                        len as int
                    };
                    assert(block.bytes@.take(kept) =~= old(self).regions()[ptr].bytes.take(kept));
                    lemma_pushed(self.blocks@, self.frontier, block, (start + len) as usize);
                }
                self.blocks.push(block);
                self.frontier = start + len;
                start
            },
            _ => 0,
        }
    }

    /// Shrinks the region where it stands. Lets it grow only where it is the
    /// topmost region, and then as far as asked or up to the limit, whichever
    /// comes first; what it gains is filled with `FRESH`.
    fn raw_reallocate_inplace(
        &mut self,
        ptr: usize,
        old_len: usize,
        len: usize,
        align: usize,
    ) -> (granted: usize)
        ensures
            final(self).limit() == old(self).limit(),
            granted == inplace_grant(old(self).frontier(), old(self).limit(), ptr, old_len, len),
            final(self).frontier() == if granted > old_len {
                (ptr + granted) as usize
            } else {
                old(self).frontier()
            },
            final(self).regions()[ptr].bytes == if granted <= old_len {
                old(self).regions()[ptr].bytes.take(granted as int)
            } else {
                old(self).regions()[ptr].bytes + fresh((granted - old_len) as nat)
            },
    {
        match self.find(ptr) {
            None => old_len,
            Some(i) => {
                proof {
                    lemma_found(self.blocks@, self.frontier, i as int);
                }
                let granted: usize = if len <= old_len {
                    len
                } else if ptr + old_len == self.frontier && self.frontier <= self.limit {
                    let room: usize = self.limit - self.frontier;
                    if len - old_len <= room {
                        len
                    } else {
                        old_len + room
                    }
                } else {
                    old_len
                };
                self.blocks[i].bytes.resize(granted, FRESH);
                assert(self.blocks@[i as int].bytes@ =~= if granted <= old_len {
                    old(self).regions()[ptr].bytes.take(granted as int)
                } else {
                    old(self).regions()[ptr].bytes + fresh((granted - old_len) as nat)
                });
                if granted > old_len {
                    self.frontier = ptr + granted;
                }
                proof {
                    let kept = if old_len <= granted {
                        old_len as int
                    } else {
                        granted as int
                    };
                    assert(self.blocks@[i as int].bytes@.take(kept) =~= old(
                        self,
                    ).regions()[ptr].bytes.take(kept));
                    assert(self.blocks@ =~= old(self).blocks@.update(
                        i as int,
                        self.blocks@[i as int],
                    ));
                    lemma_updated(
                        old(self).blocks@,
                        old(self).frontier,
                        i as int,
                        self.blocks@[i as int],
                        self.frontier,
                    );
                }
                granted
            },
        }
    }

    /// Takes the region out of the table. Its addresses are not served
    /// again.
    fn raw_deallocate(&mut self, ptr: usize, len: usize, align: usize)
        ensures
            final(self).frontier() == old(self).frontier(),
            final(self).limit() == old(self).limit(),
    {
        match self.find(ptr) {
            None => {},
            Some(i) => {
                proof {
                    lemma_found(self.blocks@, self.frontier, i as int);
                    lemma_removed(self.blocks@, self.frontier, i as int);
                }
                let _ = self.blocks.remove(i);
            },
        }
    }

    /// Copies byte by byte, from the first on.
    fn raw_copy(&mut self, src: usize, dst: usize, count: usize)
        ensures
            final(self).frontier() == old(self).frontier(),
            final(self).limit() == old(self).limit(),
    {
        match (self.find(src), self.find(dst)) {
            (Some(i), Some(j)) => {
                proof {
                    lemma_found(self.blocks@, self.frontier, i as int);
                    lemma_found(self.blocks@, self.frontier, j as int);
                }
                let ghost source = self.blocks@[i as int].bytes@;
                let ghost target = self.blocks@[j as int].bytes@;
                let mut k: usize = 0;
                while k < count
                    invariant
                        k <= count,
                        count <= source.len(),
                        count <= target.len(),
                        i != j,
                        i < self.blocks@.len(),
                        j < self.blocks@.len(),
                        self.blocks@.len() == old(self).blocks@.len(),
                        forall|m: int|
                            0 <= m < self.blocks@.len() && m != j ==> self.blocks@[m] == old(
                                self,
                            ).blocks@[m],
                        self.blocks@[j as int].addr == dst,
                        self.blocks@[j as int].align == old(self).blocks@[j as int].align,
                        self.blocks@[i as int].bytes@ == source,
                        self.blocks@[j as int].bytes@ == source.take(k as int) + target.skip(
                            k as int,
                        ),
                        self.frontier == old(self).frontier,
                        self.limit == old(self).limit,
                    decreases count - k,
                {
                    let byte: u8 = self.blocks[i].bytes[k];
                    self.blocks[j].bytes[k] = byte;
                    assert(self.blocks@[j as int].bytes@ =~= source.take(k + 1) + target.skip(
                        k + 1,
                    ));
                    k += 1;
                }
                proof {
                    assert(self.blocks@ =~= old(self).blocks@.update(
                        j as int,
                        self.blocks@[j as int],
                    ));
                    lemma_updated(
                        old(self).blocks@,
                        old(self).frontier,
                        j as int,
                        self.blocks@[j as int],
                        self.frontier,
                    );
                    assert(region_of(self.blocks@[j as int]) == Region {
                        align: old(self).regions()[dst].align,
                        bytes: old(self).regions()[src].bytes.take(count as int) + old(
                            self,
                        ).regions()[dst].bytes.skip(count as int),
                    });
                }
            },
            _ => {},
        }
    }
}

} // verus!
