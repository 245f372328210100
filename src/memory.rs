//! Bringing up the three layers: frames, virtual-memory objects, heap.
use vstd::prelude::*;

use crate::address::{VirtualAddress, PAGE_SIZE};
use crate::heap::ExplicitFreeList;
use crate::paging::{
    consistent, new_pagemap, PhysicalMemory, VirtualMemoryFlags, FLAG_EXECUTABLE, FLAG_WRITEABLE,
};
use crate::pmm::{valid_memory_map, BitmapAllocator, MemmapEntry, MemoryMapEntryType};

verus! {

/// The direct map starts on a page boundary, the memory map fits the
/// physical memory, each usable region is small
/// enough for its bitmap to be indexed, and no frame holds a page table yet.
pub open spec fn can_initialize(memory: &PhysicalMemory, memmap: Seq<MemmapEntry>) -> bool {
    &&& memory.wf()
    &&& memory.hhdm() % PAGE_SIZE == 0
    &&& valid_memory_map(memmap)
    &&& forall|k: int|
        0 <= k < memmap.len() && memmap[k].typ == MemoryMapEntryType::Usable ==> {
            &&& memmap[k].len / PAGE_SIZE + 8 <= usize::MAX
            &&& memmap[k].base + memmap[k].len <= memory.frame_count() * PAGE_SIZE
        }
    &&& forall|f: int| 0 <= f < memory.frame_count() ==> !memory.holds_table(f)
}

/// Builds the frame allocator from the memory map, a top-level page table,
/// the object manager with its cursor at `kernel_end` rounded up to a page
/// and writeable, executable mappings, and an empty heap over it. `None`
/// means that no frame was left for the page table.
pub fn initialize(memory: PhysicalMemory, memmap: Vec<MemmapEntry>, kernel_end: u64) -> (r: Option<ExplicitFreeList>)
    requires
        can_initialize(&memory, memmap@),
        kernel_end + PAGE_SIZE <= u64::MAX,
    ensures
        match r {
            Some(heap) => {
                &&& heap.wf()
                &&& heap.region_nodes().len() == 0
                &&& heap.manager().cursor() == crate::utils::align_up_spec(kernel_end as int, PAGE_SIZE as int)
                &&& heap.manager().base() == heap.manager().cursor()
                &&& heap.manager().objects().len() == 0
                &&& heap.manager().frames().entries() == memmap@
            },
            None => forall|k: int|
                0 <= k < memmap@.len() && memmap@[k].typ == MemoryMapEntryType::Usable
                    ==> crate::bitmap::reserved_pages_spec((memmap@[k].len / PAGE_SIZE) as int)
                    >= memmap@[k].len / PAGE_SIZE,
        },
{
    let ghost entries = memmap@;
    let mut memory = memory;
    let mut pmm = BitmapAllocator::new(memmap);
    proof {
        assert forall|f: int| #[trigger] memory.holds_table(f) implies !pmm.is_free(f * PAGE_SIZE) by {
        }
    }
    let ghost pmm0 = pmm;
    let pagemap = match new_pagemap(&mut memory, &mut pmm) {
        Some(p) => p,
        None => {
            proof {
                assert forall|k: int|
                    0 <= k < entries.len() && entries[k].typ == MemoryMapEntryType::Usable implies
                    crate::bitmap::reserved_pages_spec((entries[k].len / PAGE_SIZE) as int)
                    >= entries[k].len / PAGE_SIZE by {
                    assert(!pmm0.available(k));
                    assert(pmm0.usable(k));
                }
            }
            return None;
        },
    };
    let heap_start = crate::utils::align_up(kernel_end, PAGE_SIZE);
    let flags = VirtualMemoryFlags::from_bits(FLAG_WRITEABLE | FLAG_EXECUTABLE);
    let vmm = crate::vmm::VirtualMemoryManager::new(
        memory,
        pmm,
        pagemap,
        VirtualAddress::new(heap_start),
        flags,
    );
    Some(ExplicitFreeList::new(vmm))
}

} // verus!
