use reason::address::{PhysicalAddress, VirtualAddress, PAGE_SIZE};
use reason::paging::{
    new_pagemap, set_flags, unmap, PhysicalMemory, VirtualMemoryFlags, FLAG_EXECUTABLE,
    FLAG_USER_ACCESSIBLE, FLAG_WRITEABLE, PTE_NOT_EXECUTABLE,
};
use reason::pmm::{BitmapAllocator, MemmapEntry, MemoryMapEntryType};

const HHDM: u64 = 0xffff_8000_0000_0000;

fn setup(frames: u64) -> (PhysicalMemory, BitmapAllocator, VirtualAddress) {
    let mut memory = PhysicalMemory::new(frames as usize, HHDM);
    let mut pmm = BitmapAllocator::new(vec![
        MemmapEntry { base: 0, len: PAGE_SIZE, typ: MemoryMapEntryType::Reserved },
        MemmapEntry { base: PAGE_SIZE, len: (frames - 1) * PAGE_SIZE, typ: MemoryMapEntryType::Usable },
    ]);
    let root = new_pagemap(&mut memory, &mut pmm).unwrap();
    (memory, pmm, root)
}

#[test]
fn map_write_read_unmap_faults() {
    let (mut memory, mut pmm, root) = setup(64);
    let v = VirtualAddress::new(0xDEAD_B000);
    let frame = pmm.allocate_page().unwrap();
    assert!(reason::paging::map(&mut memory, &mut pmm, root, v, frame, VirtualMemoryFlags::from_bits(FLAG_WRITEABLE)));
    assert!(memory.write_u64(root, v, 25));
    assert_eq!(memory.read_u64(root, v), Some(25));
    assert_eq!(memory.translate_address(root, v), Some(frame));
    unmap(&mut memory, &mut pmm, root, v, frame);
    assert_eq!(memory.read_u64(root, v), None);
    assert!(!memory.write_u64(root, v, 1));
}

#[test]
fn read_of_unmapped_page_faults() {
    let (memory, _pmm, root) = setup(16);
    assert_eq!(memory.read_u64(root, VirtualAddress::new(0x4000)), None);
}

#[test]
fn write_lands_at_the_offset_in_the_frame() {
    let (mut memory, mut pmm, root) = setup(64);
    let v = VirtualAddress::new(0x7000_0000);
    let frame = pmm.allocate_page().unwrap();
    assert!(reason::paging::map(&mut memory, &mut pmm, root, v, frame, VirtualMemoryFlags::empty()));
    let w = VirtualAddress::new(0x7000_0010);
    assert!(memory.write_u64(root, w, 0xabcd));
    assert_eq!(memory.read_u64(root, w), Some(0xabcd));
    assert_eq!(memory.read_u64(root, v), Some(0));
    assert_eq!(
        memory.translate_address(root, w),
        Some(PhysicalAddress::new(frame.as_addr() + 0x10))
    );
}

#[test]
fn map_unmap_map_matches_single_map() {
    let (mut memory, mut pmm, root) = setup(64);
    let v = VirtualAddress::new(0x40_0000);
    let frame = pmm.allocate_page().unwrap();
    let flags = VirtualMemoryFlags::from_bits(FLAG_WRITEABLE);
    assert!(reason::paging::map(&mut memory, &mut pmm, root, v, frame, flags));
    let tables_used = pmm.used_pages(1);
    unmap(&mut memory, &mut pmm, root, v, frame);
    let again = pmm.allocate_page().unwrap();
    assert_eq!(again, frame);
    assert!(reason::paging::map(&mut memory, &mut pmm, root, v, again, flags));
    assert_eq!(pmm.used_pages(1), tables_used);
    assert_eq!(memory.translate_address(root, v), Some(frame));
}

#[test]
fn second_page_in_same_table_needs_no_new_table() {
    let (mut memory, mut pmm, root) = setup(64);
    let flags = VirtualMemoryFlags::from_bits(FLAG_WRITEABLE);
    let f1 = pmm.allocate_page().unwrap();
    assert!(reason::paging::map(&mut memory, &mut pmm, root, VirtualAddress::new(0x40_0000), f1, flags));
    let before = pmm.used_pages(1);
    let f2 = pmm.allocate_page().unwrap();
    assert!(reason::paging::map(&mut memory, &mut pmm, root, VirtualAddress::new(0x40_1000), f2, flags));
    assert_eq!(pmm.used_pages(1), before + 1);
    assert_eq!(memory.translate_address(root, VirtualAddress::new(0x40_0000)), Some(f1));
    assert_eq!(memory.translate_address(root, VirtualAddress::new(0x40_1000)), Some(f2));
}

#[test]
fn entry_flags_follow_the_mapping_flags() {
    let p = PhysicalAddress::new(0x5000);
    assert_eq!(set_flags(p, VirtualMemoryFlags::from_bits(FLAG_WRITEABLE | FLAG_EXECUTABLE)), 0x5003);
    assert_eq!(set_flags(p, VirtualMemoryFlags::empty()), 0x5001 | PTE_NOT_EXECUTABLE);
    assert_eq!(
        set_flags(p, VirtualMemoryFlags::from_bits(FLAG_USER_ACCESSIBLE | FLAG_EXECUTABLE)),
        0x5005
    );
}

#[test]
fn indexes_split_the_address() {
    assert_eq!(VirtualAddress::new(0xDEAD_B000).get_indexes(), (0, 3, 245, 219));
    assert_eq!(VirtualAddress::new(0xffff_8000_0000_0000).get_indexes(), (256, 0, 0, 0));
}

#[test]
fn out_of_frames_map_fails() {
    let (mut memory, mut pmm, root) = setup(4);
    let flags = VirtualMemoryFlags::empty();
    let frame = pmm.allocate_page().unwrap();
    assert!(!reason::paging::map(&mut memory, &mut pmm, root, VirtualAddress::new(0x1000_0000), frame, flags));
}
