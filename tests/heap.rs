use reason::address::{VirtualAddress, PAGE_SIZE};
use reason::heap::{ExplicitFreeList, HEADER_SIZE};
use reason::memory::initialize;
use reason::paging::PhysicalMemory;
use reason::pmm::{MemmapEntry, MemoryMapEntryType};

const HHDM: u64 = 0xffff_8000_0000_0000;
const KERNEL_END: u64 = 0xffff_c000_0010_0123;

fn memory_map(frames: u64) -> Vec<MemmapEntry> {
    vec![
        MemmapEntry { base: 0, len: PAGE_SIZE, typ: MemoryMapEntryType::Reserved },
        MemmapEntry { base: PAGE_SIZE, len: (frames - 1) * PAGE_SIZE, typ: MemoryMapEntryType::Usable },
    ]
}

fn heap_with(frames: usize) -> ExplicitFreeList {
    let memory = PhysicalMemory::new(frames, HHDM);
    initialize(memory, memory_map(frames as u64), KERNEL_END).expect("heap")
}

fn used_frames(heap: &ExplicitFreeList) -> usize {
    let pmm = heap.virtual_memory_manager().frame_allocator();
    let mut total = 0;
    for k in 0..pmm.entry_count() {
        total += pmm.used_pages(k);
    }
    total
}

#[test]
fn alloc_free_alloc_returns_same_address() {
    let mut heap = heap_with(64);
    let a = heap.allocate(16).unwrap();
    heap.free(a);
    let b = heap.allocate(16).unwrap();
    assert_eq!(a, b);
}

#[test]
fn alloc_free_alloc_same_address_after_reuse() {
    let mut heap = heap_with(64);
    for _ in 0..10 {
        let a = heap.allocate(8).unwrap();
        heap.free(a);
    }
    let a = heap.allocate(8).unwrap();
    heap.free(a);
    assert_eq!(heap.allocate(8).unwrap(), a);
}

#[test]
fn freeing_three_neighbours_leaves_one_block() {
    let mut heap = heap_with(64);
    let a = heap.allocate(16).unwrap();
    let b = heap.allocate(16).unwrap();
    let c = heap.allocate(16).unwrap();
    heap.free(a);
    heap.free(c);
    heap.free(b);
    let region = heap.region(0);
    let sizes = region.free_block_sizes();
    assert_eq!(sizes, vec![(3 * 16 + 4 * HEADER_SIZE) as u32]);
    assert_eq!(region.free_count(), 1);
    assert_eq!(region.block_count(), 1);
}

#[test]
fn freeing_next_to_a_free_block_merges_once() {
    let mut heap = heap_with(64);
    let a = heap.allocate(16).unwrap();
    let b = heap.allocate(16).unwrap();
    let _c = heap.allocate(16).unwrap();
    heap.free(a);
    heap.free(b);
    let region = heap.region(0);
    assert_eq!(region.free_block_sizes(), vec![(2 * 16 + 2 * HEADER_SIZE) as u32]);
    assert_eq!(region.block_count(), 2);
}

#[test]
fn freeing_before_a_free_block_merges_forward() {
    let mut heap = heap_with(64);
    let a = heap.allocate(16).unwrap();
    let b = heap.allocate(16).unwrap();
    let _c = heap.allocate(16).unwrap();
    heap.free(b);
    heap.free(a);
    let region = heap.region(0);
    assert_eq!(region.free_block_sizes(), vec![(2 * 16 + 2 * HEADER_SIZE) as u32]);
    assert_eq!(region.block(0).address + HEADER_SIZE, a.as_addr());
    assert!(!region.block(0).left.is_used);
    assert_eq!(region.block(0).left, region.block(0).right);
}

#[test]
fn aligned_allocation_keeps_padding_private() {
    let mut heap = heap_with(64);
    let a = heap.alloc_aligned(16, 64).unwrap();
    assert_eq!(a.as_addr() & 0x3f, 0);
    let start = heap.region(0).get_payload_address().as_addr();
    let b = heap.allocate(16).unwrap();
    assert!(b.as_addr() >= a.as_addr() + 16);
    assert!(!(b.as_addr() >= start && b.as_addr() < a.as_addr()));
    let block = heap.region(0).block(0);
    assert!(block.left.is_used);
    assert!(block.address + HEADER_SIZE <= a.as_addr());
    assert!(a.as_addr() + 16 <= block.address + HEADER_SIZE + block.left.size as u64);
}

#[test]
fn million_small_allocations_do_not_overlap() {
    let mut heap = heap_with(9000);
    let mut last_end: u64 = 0;
    let mut used = used_frames(&heap);
    for _ in 0..1_000_000u32 {
        let a = heap.allocate(8).unwrap().as_addr();
        assert!(a >= last_end);
        last_end = a + 8;
        let now = used_frames(&heap);
        assert!(now >= used);
        used = now;
    }
    assert!(heap.region_count() > 1);
}

#[test]
fn first_allocation_of_a_fresh_region_follows_its_header() {
    let mut heap = heap_with(64);
    let a = heap.allocate(16).unwrap();
    let start = heap.region(0).get_payload_address().as_addr();
    assert_eq!(a.as_addr(), start + HEADER_SIZE);
    let cursor = KERNEL_END - (KERNEL_END % PAGE_SIZE) + PAGE_SIZE;
    assert_eq!(start, cursor + 8 + 40);
}

#[test]
fn exact_fill_then_new_region() {
    let mut heap = heap_with(64);
    let _a = heap.allocate(16).unwrap();
    let region = heap.region(0);
    let room = region.get_end_address().as_addr() - region.get_current_address().as_addr();
    let fill = room - 2 * HEADER_SIZE;
    let b = heap.allocate(fill).unwrap();
    assert_eq!(heap.region_count(), 1);
    assert_eq!(heap.region(0).get_current_address(), heap.region(0).get_end_address());
    assert!(b.as_addr() + fill <= heap.region(0).get_end_address().as_addr());
    let _c = heap.allocate(16).unwrap();
    assert_eq!(heap.region_count(), 2);
}

#[test]
fn page_alignment_gives_page_aligned_address() {
    let mut heap = heap_with(64);
    let _ = heap.allocate(24).unwrap();
    let a = heap.alloc_aligned(100, PAGE_SIZE).unwrap();
    assert_eq!(a.as_addr() % PAGE_SIZE, 0);
}

#[test]
fn free_outside_the_heap_is_ignored() {
    let mut heap = heap_with(64);
    let a = heap.allocate(16).unwrap();
    heap.free(VirtualAddress::new(0x1000));
    assert_eq!(heap.region(0).free_count(), 0);
    heap.free(a);
    heap.free(a);
    assert_eq!(heap.region(0).free_count(), 1);
}

#[test]
fn out_of_frames_gives_none() {
    let mut heap = heap_with(8);
    assert!(heap.allocate(3 * PAGE_SIZE).is_none());
}

#[test]
fn first_fit_takes_the_earliest_freed_block() {
    let mut heap = heap_with(64);
    let a = heap.allocate(32).unwrap();
    let _x = heap.allocate(16).unwrap();
    let b = heap.allocate(32).unwrap();
    let _y = heap.allocate(16).unwrap();
    heap.free(b);
    heap.free(a);
    assert_eq!(heap.allocate(24).unwrap(), b);
    assert_eq!(heap.allocate(24).unwrap(), a);
}

#[test]
fn small_free_block_is_skipped() {
    let mut heap = heap_with(64);
    let a = heap.allocate(16).unwrap();
    let _x = heap.allocate(16).unwrap();
    heap.free(a);
    let b = heap.allocate(64).unwrap();
    assert_ne!(a, b);
    assert_eq!(heap.region(0).free_count(), 1);
}

#[test]
fn objects_are_page_runs_past_their_node() {
    let mut vmm = manager_with(64);
    let cursor = vmm.current_address().as_addr();
    let o = vmm.allocate_object(100).unwrap();
    assert_eq!(o.base.as_addr(), cursor + 8);
    assert_eq!(o.length, PAGE_SIZE);
    assert!(o.is_used);
    assert_eq!(vmm.current_address().as_addr(), cursor + PAGE_SIZE);
    let root = vmm.pagemap();
    assert!(vmm.physical_memory().translate_address(root, VirtualAddress::new(cursor)).is_some());
    let big = vmm.allocate_object(2 * PAGE_SIZE).unwrap();
    assert_eq!(big.length, 3 * PAGE_SIZE);
    for k in 0..3 {
        let page = VirtualAddress::new(cursor + PAGE_SIZE + k * PAGE_SIZE);
        assert!(vmm.physical_memory().translate_address(root, page).is_some());
    }
    let beyond = VirtualAddress::new(cursor + 4 * PAGE_SIZE);
    assert!(vmm.physical_memory().translate_address(root, beyond).is_none());
    assert_eq!(vmm.object_count(), 2);
    let freed = vmm.free_object(o.base).unwrap();
    assert!(!freed.is_used);
    assert_eq!(vmm.object_count(), 1);
    assert!(vmm.free_object(VirtualAddress::new(0x1234)).is_none());
}

fn manager_with(frames: usize) -> reason::vmm::VirtualMemoryManager {
    let mut memory = PhysicalMemory::new(frames, HHDM);
    let mut pmm = reason::pmm::BitmapAllocator::new(memory_map(frames as u64));
    let root = reason::paging::new_pagemap(&mut memory, &mut pmm).unwrap();
    let flags = reason::paging::VirtualMemoryFlags::from_bits(reason::paging::FLAG_WRITEABLE);
    reason::vmm::VirtualMemoryManager::new(memory, pmm, root, VirtualAddress::new(0x4000_0000), flags)
}
