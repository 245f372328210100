use reason::address::{PhysicalAddress, PAGE_SIZE};
use reason::bitmap::Bitmap;
use reason::pmm::{BitmapAllocator, MemmapEntry, MemoryMapEntryType};

fn allocator(pages: u64) -> BitmapAllocator {
    BitmapAllocator::new(vec![
        MemmapEntry { base: 0, len: PAGE_SIZE, typ: MemoryMapEntryType::Reserved },
        MemmapEntry { base: 0x10_0000, len: pages * PAGE_SIZE, typ: MemoryMapEntryType::Usable },
    ])
}

#[test]
fn bitmap_reserves_its_own_pages() {
    let b = Bitmap::install(256);
    assert_eq!(b.used_pages, 1);
    assert!(b.is_used(0));
    assert!(!b.is_used(1));
    let big = Bitmap::install(300_000);
    assert_eq!(big.used_pages, 10);
    assert!(big.is_used(9));
    assert!(!big.is_used(10));
    let empty = Bitmap::install(0);
    assert!(empty.is_full());
}

#[test]
fn first_page_is_past_the_bitmap() {
    let mut pmm = allocator(16);
    assert_eq!(pmm.used_pages(1), 1);
    assert_eq!(pmm.allocate_page(), Some(PhysicalAddress::new(0x10_0000 + PAGE_SIZE)));
    assert_eq!(pmm.used_pages(1), 2);
}

#[test]
fn alloc_free_alloc_reuses_the_frame() {
    let mut pmm = allocator(16);
    let p = pmm.allocate_page().unwrap();
    pmm.free_page(p);
    assert_eq!(pmm.allocate_page(), Some(p));
}

#[test]
fn single_cleared_bit_is_found_again() {
    let mut pmm = allocator(8);
    let mut frames = Vec::new();
    while let Some(p) = pmm.allocate_page() {
        frames.push(p);
    }
    assert_eq!(frames.len(), 7);
    let p = frames[3];
    pmm.free_page(p);
    assert_eq!(pmm.allocate_page(), Some(p));
    assert_eq!(pmm.allocate_page(), None);
}

#[test]
fn reverse_free_then_reallocate_reuses_all() {
    let mut pmm = allocator(32);
    let before = pmm.used_pages(1);
    let mut frames = Vec::new();
    for _ in 0..10 {
        frames.push(pmm.allocate_page().unwrap());
    }
    assert_eq!(pmm.used_pages(1), before + 10);
    for p in frames.iter().rev() {
        pmm.free_page(*p);
    }
    assert_eq!(pmm.used_pages(1), before);
    let mut again = Vec::new();
    for _ in 0..10 {
        again.push(pmm.allocate_page().unwrap());
    }
    let mut a: Vec<u64> = frames.iter().map(|p| p.as_addr()).collect();
    let mut b: Vec<u64> = again.iter().map(|p| p.as_addr()).collect();
    a.sort();
    b.sort();
    assert_eq!(a, b);
    assert_eq!(pmm.used_pages(1), before + 10);
}

#[test]
fn used_pages_counts_outstanding_frames() {
    let mut pmm = allocator(16);
    let base = pmm.used_pages(1);
    let a = pmm.allocate_page().unwrap();
    let b = pmm.allocate_page().unwrap();
    let _c = pmm.allocate_page().unwrap();
    pmm.free_page(b);
    assert_eq!(pmm.used_pages(1), base + 2);
    pmm.free_page(a);
    assert_eq!(pmm.used_pages(1), base + 1);
}

#[test]
fn full_allocator_returns_none() {
    let mut pmm = allocator(2);
    assert!(pmm.allocate_page().is_some());
    assert_eq!(pmm.allocate_page(), None);
    assert_eq!(pmm.used_pages(1), pmm.total_pages(1));
}

#[test]
fn reserved_entries_hand_out_nothing() {
    let mut pmm = BitmapAllocator::new(vec![MemmapEntry {
        base: 0,
        len: 16 * PAGE_SIZE,
        typ: MemoryMapEntryType::Reserved,
    }]);
    assert_eq!(pmm.allocate_page(), None);
}

#[test]
fn freeing_an_address_inside_a_frame_frees_the_frame() {
    let mut pmm = allocator(16);
    let p = pmm.allocate_page().unwrap();
    let used = pmm.used_pages(1);
    pmm.free_page(PhysicalAddress::new(p.as_addr() + 0x123));
    assert_eq!(pmm.used_pages(1), used - 1);
    assert_eq!(pmm.allocate_page(), Some(p));
}
