use memalloc::allocation::Allocation;
use memalloc::error::Error;
use memalloc::heap::{allocate, allocate_zeroed, deallocate, reallocate, reallocate_inplace};
use memalloc::table::{TableHeap, FRESH};

const MAX_LEN: usize = isize::MAX as usize;

fn fill(heap: &mut TableHeap, ptr: usize, len: usize, byte: u8) {
    for i in 0..len {
        assert!(heap.write(ptr, i, byte));
    }
}

fn all(heap: &TableHeap, ptr: usize, len: usize, byte: u8) -> bool {
    (0..len).all(|i| heap.read(ptr, i) == Some(byte)) && heap.read(ptr, len) == None
}

#[test]
fn duplicate_of_a_pattern() {
    let mut heap = TableHeap::new(1 << 16);
    let a = Allocation::new(&mut heap, 16, 8).unwrap();
    fill(&mut heap, a.as_ptr(), 16, 0xAA);
    let twin = a.duplicate(&mut heap).unwrap();
    assert_ne!(twin.as_ptr(), a.as_ptr());
    assert_eq!(twin.len(), 16);
    assert_eq!(twin.align(), 8);
    assert!(all(&heap, twin.as_ptr(), 16, 0xAA));
    assert!(all(&heap, a.as_ptr(), 16, 0xAA));
    assert_eq!(a.len(), 16);
    assert_eq!(a.align(), 8);
    twin.release(&mut heap);
    a.release(&mut heap);
}

#[test]
fn zeroed_allocation_reads_zero() {
    let mut heap = TableHeap::new(1 << 16);
    let a = Allocation::zeroed(&mut heap, 32, 4).unwrap();
    assert_eq!(a.len(), 32);
    assert_eq!(a.align(), 4);
    assert_eq!(a.as_ptr() % 4, 0);
    assert!(all(&heap, a.as_ptr(), 32, 0));
}

#[test]
fn plain_allocation_is_not_zeroed_by_the_table() {
    let mut heap = TableHeap::new(1 << 16);
    let a = Allocation::new(&mut heap, 32, 4).unwrap();
    assert!(all(&heap, a.as_ptr(), 32, FRESH));
}

#[test]
fn resize_to_a_page_keeps_the_first_bytes() {
    let mut heap = TableHeap::new(1 << 16);
    let mut a = Allocation::new(&mut heap, 8, 4).unwrap();
    for i in 0..8 {
        assert!(heap.write(a.as_ptr(), i, 0xA0 + i as u8));
    }
    assert_eq!(a.resize(&mut heap, 4096), Ok(()));
    assert_eq!(a.len(), 4096);
    assert_eq!(a.align(), 4);
    assert_eq!(a.as_ptr() % 4, 0);
    for i in 0..8 {
        assert_eq!(heap.read(a.as_ptr(), i), Some(0xA0 + i as u8));
    }
    assert_eq!(heap.read(a.as_ptr(), 4095), Some(FRESH));
    assert_eq!(heap.read(a.as_ptr(), 4096), None);
}

#[test]
fn resize_in_place_to_less() {
    let mut heap = TableHeap::new(1 << 16);
    let mut a = Allocation::new(&mut heap, 4096, 4).unwrap();
    let before = a.as_ptr();
    fill(&mut heap, before, 4096, 0x33);
    assert_eq!(a.resize_in_place(&mut heap, 8), Ok(()));
    assert!(a.len() <= 4096);
    assert_eq!(a.len(), 8);
    assert_eq!(a.as_ptr(), before);
    assert_eq!(a.align(), 4);
    assert!(all(&heap, before, 8, 0x33));
}

#[test]
fn resize_in_place_to_more_is_best_effort() {
    let mut heap = TableHeap::new(100);
    let mut a = Allocation::new(&mut heap, 10, 2).unwrap();
    let before = a.as_ptr();
    assert_eq!(a.resize_in_place(&mut heap, 1000), Ok(()));
    assert_eq!(a.len(), 98);
    assert_eq!(a.as_ptr(), before);
    let mut b = Allocation::new(&mut heap, 1, 1);
    assert_eq!(b.as_mut().err(), Some(&mut Error::NotEnoughMemory));
}

#[test]
fn resize_in_place_below_another_leaves_the_length() {
    let mut heap = TableHeap::new(1000);
    let mut a = Allocation::new(&mut heap, 10, 2).unwrap();
    let _b = Allocation::new(&mut heap, 10, 2).unwrap();
    let before = a.as_ptr();
    assert_eq!(a.resize_in_place(&mut heap, 20), Ok(()));
    assert_eq!(a.len(), 10);
    assert_eq!(a.as_ptr(), before);
}

#[test]
fn failed_resize_leaves_the_allocation() {
    let mut heap = TableHeap::new(64);
    let mut a = Allocation::new(&mut heap, 16, 8).unwrap();
    let before = a.as_ptr();
    fill(&mut heap, before, 16, 0x77);
    assert_eq!(a.resize(&mut heap, 4096), Err(Error::NotEnoughMemory));
    assert_eq!(a.len(), 16);
    assert_eq!(a.align(), 8);
    assert_eq!(a.as_ptr(), before);
    assert!(all(&heap, before, 16, 0x77));
    assert_eq!(a.resize(&mut heap, 0), Err(Error::ZeroLength));
    assert_eq!(a.resize(&mut heap, MAX_LEN + 1), Err(Error::NotEnoughMemory));
    assert_eq!(a.len(), 16);
    assert_eq!(a.as_ptr(), before);
    assert!(all(&heap, before, 16, 0x77));
}

#[test]
fn failed_resize_in_place_leaves_the_allocation() {
    let mut heap = TableHeap::new(64);
    let mut a = Allocation::new(&mut heap, 16, 8).unwrap();
    let before = a.as_ptr();
    fill(&mut heap, before, 16, 0x78);
    assert_eq!(a.resize_in_place(&mut heap, 0), Err(Error::ZeroLength));
    assert_eq!(a.resize_in_place(&mut heap, MAX_LEN + 1), Err(Error::NotEnoughMemory));
    assert_eq!(a.len(), 16);
    assert_eq!(a.as_ptr(), before);
    assert!(all(&heap, before, 16, 0x78));
}

#[test]
fn raw_parts_round_trip() {
    let mut heap = TableHeap::new(1 << 16);
    let a = Allocation::new(&mut heap, 24, 16).unwrap();
    let ptr = a.as_ptr();
    fill(&mut heap, ptr, 24, 0x11);
    let raw = a.into_raw();
    assert_eq!(raw, (ptr, 24, 16));
    assert!(all(&heap, ptr, 24, 0x11));
    let back = Allocation::from_raw(raw.0, raw.1, raw.2);
    assert_eq!(back.as_ptr(), ptr);
    assert_eq!(back.len(), 24);
    assert_eq!(back.align(), 16);
    assert!(all(&heap, back.as_ptr(), 24, 0x11));
    let twin = back.duplicate(&mut heap).unwrap();
    assert!(all(&heap, twin.as_ptr(), 24, 0x11));
    back.release(&mut heap);
    assert_eq!(heap.read(ptr, 0), None);
}

#[test]
fn accessors_stay_put() {
    let mut heap = TableHeap::new(1 << 16);
    let mut a = Allocation::new(&mut heap, 40, 8).unwrap();
    let ptr = a.as_ptr();
    let _twin = a.duplicate(&mut heap).unwrap();
    assert_eq!(a.as_mut_ptr(), ptr);
    assert_eq!(a.as_ptr(), ptr);
    assert_eq!(a.len(), 40);
    assert_eq!(a.len(), 40);
    assert_eq!(a.align(), 8);
    assert_eq!(a.align(), 8);
    assert_eq!(format!("{:?}", a), format!("Allocation {{ ptr: {}, len: 40, align: 8 }}", ptr));
}

#[test]
fn bad_requests_never_reach_the_heap() {
    let mut heap = TableHeap::new(100);
    assert_eq!(Allocation::new(&mut heap, 0, 8).err(), Some(Error::ZeroLength));
    assert_eq!(Allocation::new(&mut heap, 0, 3).err(), Some(Error::ZeroLength));
    assert_eq!(Allocation::zeroed(&mut heap, 0, 0).err(), Some(Error::ZeroLength));
    for align in [0usize, 3, 5, 6, 7, 12] {
        assert_eq!(Allocation::new(&mut heap, 8, align).err(), Some(Error::BadAlignment));
        assert_eq!(Allocation::zeroed(&mut heap, 8, align).err(), Some(Error::BadAlignment));
    }
    assert_eq!(Allocation::new(&mut heap, MAX_LEN + 1, 8).err(), Some(Error::NotEnoughMemory));
    assert_eq!(Allocation::zeroed(&mut heap, usize::MAX, 3).err(), Some(Error::NotEnoughMemory));
    let a = Allocation::new(&mut heap, 1, 1).unwrap();
    assert_eq!(a.as_ptr(), 1);
}

#[test]
fn allocation_fails_where_the_heap_refuses() {
    let mut heap = TableHeap::new(16);
    assert_eq!(Allocation::new(&mut heap, 16, 1).err(), Some(Error::NotEnoughMemory));
    assert_eq!(Allocation::zeroed(&mut heap, 16, 1).err(), Some(Error::NotEnoughMemory));
    let a = Allocation::new(&mut heap, 15, 1).unwrap();
    assert_eq!(a.duplicate(&mut heap).err(), Some(Error::NotEnoughMemory));
    assert!(all(&heap, a.as_ptr(), 15, FRESH));
}

#[test]
fn release_gives_the_block_back() {
    let mut heap = TableHeap::new(1 << 16);
    let a = Allocation::new(&mut heap, 16, 8).unwrap();
    let b = Allocation::new(&mut heap, 16, 8).unwrap();
    let (pa, pb) = (a.as_ptr(), b.as_ptr());
    a.release(&mut heap);
    assert_eq!(heap.read(pa, 0), None);
    assert_eq!(heap.read(pb, 0), Some(FRESH));
    b.release(&mut heap);
    assert_eq!(heap.read(pb, 0), None);
}

#[test]
fn checked_operations_by_address() {
    let mut heap = TableHeap::new(1 << 16);
    assert_eq!(allocate(&mut heap, 0, 8), Err(Error::ZeroLength));
    assert_eq!(allocate(&mut heap, 8, 6), Err(Error::BadAlignment));
    assert_eq!(allocate_zeroed(&mut heap, MAX_LEN + 1, 8), Err(Error::NotEnoughMemory));
    let p = allocate(&mut heap, 8, 8).unwrap();
    assert_eq!(p, 8);
    let z = allocate_zeroed(&mut heap, 8, 8).unwrap();
    assert_eq!(z, 16);
    assert!(all(&heap, z, 8, 0));
    fill(&mut heap, p, 8, 0x42);
    assert_eq!(reallocate(&mut heap, p, 8, 0, 8), Err(Error::ZeroLength));
    assert_eq!(reallocate(&mut heap, p, 8, 1 << 20, 8), Err(Error::NotEnoughMemory));
    assert!(all(&heap, p, 8, 0x42));
    let q = reallocate(&mut heap, p, 8, 16, 8).unwrap();
    assert_eq!(q, 24);
    assert_eq!(heap.read(q, 7), Some(0x42));
    assert_eq!(heap.read(q, 8), Some(FRESH));
    assert_eq!(reallocate_inplace(&mut heap, q, 16, 0, 8), Err(Error::ZeroLength));
    assert_eq!(reallocate_inplace(&mut heap, q, 16, usize::MAX, 8), Err(Error::NotEnoughMemory));
    assert_eq!(reallocate_inplace(&mut heap, q, 16, 4, 8), Ok(4));
    assert_eq!(reallocate_inplace(&mut heap, z, 8, 64, 8), Ok(8));
    deallocate(&mut heap, q, 4, 8);
    assert_eq!(heap.read(q, 0), None);
    assert!(all(&heap, z, 8, 0));
}
