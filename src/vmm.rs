//! The virtual-memory object manager: reserves runs of kernel virtual pages
//! from a bump cursor and backs each page with a fresh frame.
use vstd::prelude::*;

use crate::address::{PhysicalAddress, VirtualAddress, PAGE_SIZE};
use crate::linked_list::{SinglyLinkedList, SinglyLinkedListNode, LIST_PTR_SIZE};
use crate::paging::{consistent, PhysicalMemory, VirtualMemoryFlags};
use crate::pmm::BitmapAllocator;

verus! {

/// A run of virtual pages backed by frames. `base` is the first usable byte,
/// just past the list node that records the object; `length` counts the
/// whole run, node included.
#[derive(Clone, Copy, PartialEq, Eq, Structural, Debug)]
pub struct VirtualMemoryObject {
    pub base: VirtualAddress,
    pub flags: VirtualMemoryFlags,
    pub length: u64,
    pub is_used: bool,
}

impl VirtualMemoryObject {
    pub fn new(base: VirtualAddress, length: u64, flags: VirtualMemoryFlags) -> (r: Self)
        ensures
            r.base == base,
            r.length == length,
            r.flags == flags,
            r.is_used,
    {
        VirtualMemoryObject { is_used: true, length, flags, base }
    }
}

/// Hands out multi-page virtual ranges of the kernel's address space.
pub struct VirtualMemoryManager {
    pagemap: VirtualAddress,
    flags: VirtualMemoryFlags,
    base_address: VirtualAddress,
    current_address: VirtualAddress,
    allocated_objects: SinglyLinkedList<VirtualMemoryObject>,
    memory: PhysicalMemory,
    pmm: BitmapAllocator,
}

impl VirtualMemoryManager {
    pub closed spec fn cursor(&self) -> u64 {
        self.current_address@
    }

    pub closed spec fn base(&self) -> u64 {
        self.base_address@
    }

    pub closed spec fn default_flags(&self) -> VirtualMemoryFlags {
        self.flags
    }

    pub closed spec fn root(&self) -> VirtualAddress {
        self.pagemap
    }

    pub closed spec fn objects(&self) -> Seq<SinglyLinkedListNode<VirtualMemoryObject>> {
        self.allocated_objects.nodes()
    }

    pub closed spec fn mem(&self) -> PhysicalMemory {
        self.memory
    }

    pub closed spec fn frames(&self) -> BitmapAllocator {
        self.pmm
    }

    /// Object `j` sits at its node's address, spans whole pages, and lies
    /// below the next object.
    pub open spec fn object_placed(&self, j: int) -> bool {
        let n = self.objects()[j];
        &&& n.data.base@ == n.address@ + LIST_PTR_SIZE
        &&& n.data.length % PAGE_SIZE == 0
        &&& n.data.length >= PAGE_SIZE
        &&& self.base() <= n.address@
        &&& n.address@ + n.data.length <= self.cursor()
        &&& j + 1 < self.objects().len() ==> n.address@ + n.data.length
            <= self.objects()[j + 1].address@
    }

    /// Start of page `k` of object `j`.
    pub open spec fn page_of(&self, j: int, k: int) -> u64 {
        (self.objects()[j].address@ + k * PAGE_SIZE) as u64
    }

    /// Every page of every object translates to a frame.
    pub open spec fn objects_backed(&self) -> bool {
        forall|j: int, k: int|
            0 <= j < self.objects().len() && 0 <= k < self.objects()[j].data.length as int / (PAGE_SIZE as int)
                ==> (#[trigger] self.mem().translate(self.mem().frame_of(self.root()@), self.page_of(j, k))) is Some
    }

    pub open spec fn wf(&self) -> bool {
        &&& self.objects_backed()
        &&& self.mem().wf()
        &&& self.frames().wf()
        &&& consistent(&self.mem(), &self.frames())
        &&& self.mem().valid_table_address(self.root()@, 4)
        &&& self.base() % PAGE_SIZE == 0
        &&& self.cursor() % PAGE_SIZE == 0
        &&& self.base() <= self.cursor()
        &&& forall|j: int| 0 <= j < self.objects().len() ==> #[trigger] self.object_placed(j)
    }

    /// Starts handing out virtual ranges at `base_address`, mapping them
    /// through the tables at `pagemap` with `flags`.
    pub fn new(
        memory: PhysicalMemory,
        pmm: BitmapAllocator,
        pagemap: VirtualAddress,
        base_address: VirtualAddress,
        flags: VirtualMemoryFlags,
    ) -> (r: Self)
        requires
            memory.wf(),
            pmm.wf(),
            consistent(&memory, &pmm),
            memory.valid_table_address(pagemap@, 4),
            memory.hhdm() % PAGE_SIZE == 0,
            base_address@ % PAGE_SIZE == 0,
        ensures
            r.wf(),
            r.cursor() == base_address@,
            r.base() == base_address@,
            r.objects().len() == 0,
            r.default_flags() == flags,
            r.mem() == memory,
            r.frames() == pmm,
            r.root() == pagemap,
    {
        VirtualMemoryManager {
            pagemap,
            base_address,
            current_address: base_address,
            allocated_objects: SinglyLinkedList::new(),
            flags,
            memory,
            pmm,
        }
    }

    pub fn physical_memory(&self) -> (r: &PhysicalMemory)
        ensures
            *r == self.mem(),
    {
        &self.memory
    }

    pub fn frame_allocator(&self) -> (r: &BitmapAllocator)
        ensures
            *r == self.frames(),
    {
        &self.pmm
    }

    pub fn pagemap(&self) -> (r: VirtualAddress)
        ensures
            r == self.root(),
    {
        self.pagemap
    }

    /// The next virtual address to be handed out.
    pub fn current_address(&self) -> (r: VirtualAddress)
        ensures
            r@ == self.cursor(),
    {
        self.current_address
    }

    pub fn object_count(&self) -> (r: usize)
        ensures
            r == self.objects().len(),
    {
        self.allocated_objects.len()
    }

    /// Reserves `size` bytes past a list node, rounded up to whole pages,
    /// maps each page to a fresh frame and records the object. `None` means
    /// that the frames or the virtual address space ran out.
    pub fn allocate_object(&mut self, size: u64) -> (r: Option<VirtualMemoryObject>)
        requires
            old(self).wf(),
        ensures
            final(self).wf(),
            final(self).base() == old(self).base(),
            final(self).root() == old(self).root(),
            final(self).default_flags() == old(self).default_flags(),
            final(self).cursor() >= old(self).cursor(),
            final(self).mem().hhdm() == old(self).mem().hhdm(),
            final(self).mem().frame_count() == old(self).mem().frame_count(),
            old(self).frames().only_took(&final(self).frames()),
            match r {
                Some(o) => {
                    let pages = (size + LIST_PTR_SIZE + PAGE_SIZE - 1) / (PAGE_SIZE as int);
                    &&& o.base@ == old(self).cursor() + LIST_PTR_SIZE
                    &&& o.length == pages * PAGE_SIZE
                    &&& o.is_used
                    &&& o.flags == old(self).default_flags()
                    &&& final(self).cursor() == old(self).cursor() + o.length
                    &&& final(self).objects() == old(self).objects().push(
                        SinglyLinkedListNode { address: VirtualAddress(old(self).cursor()), data: o },
                    )
                },
                None => {
                    ||| old(self).cursor() + size + LIST_PTR_SIZE + PAGE_SIZE > u64::MAX
                    ||| forall|k: int|
                        0 <= k < final(self).frames().entries().len()
                            ==> !final(self).frames().available(k)
                },
            },
            old(self).cursor() + size + LIST_PTR_SIZE + PAGE_SIZE <= u64::MAX && old(self).frames().free_frames()
                >= 4 * ((size + LIST_PTR_SIZE + PAGE_SIZE - 1) / (PAGE_SIZE as int)) ==> r.is_some(),
            final(self).frames().free_frames() >= old(self).frames().free_frames() - 4 * ((size
                + LIST_PTR_SIZE + PAGE_SIZE - 1) / (PAGE_SIZE as int)),
    {
        let node_size = self.allocated_objects.list_node_size();
        if size > u64::MAX - node_size - PAGE_SIZE || self.current_address.as_addr() > u64::MAX
            - (size + node_size + PAGE_SIZE) {
            return None;
        }
        let pages = crate::utils::div_ceil(size + node_size, PAGE_SIZE);
        let length = pages * PAGE_SIZE;
        assert(length <= size + node_size + PAGE_SIZE - 1);
        let cursor = self.current_address.as_addr();
        let mut i: u64 = 0;
        while i < pages
            invariant
                self.wf(),
                i <= pages,
                pages * PAGE_SIZE == length,
                length <= size + node_size + PAGE_SIZE - 1,
                cursor + size + node_size + PAGE_SIZE <= u64::MAX,
                cursor == self.cursor(),
                cursor == old(self).cursor(),
                self.base() == old(self).base(),
                self.root() == old(self).root(),
                self.default_flags() == old(self).default_flags(),
                self.objects() == old(self).objects(),
                self.current_address == old(self).current_address,
                self.mem().hhdm() == old(self).mem().hhdm(),
                self.mem().frame_count() == old(self).mem().frame_count(),
                self.mem().frame_of(self.root()@) == old(self).mem().frame_of(old(self).root()@),
                old(self).frames().only_took(&self.frames()),
                pages == (size + LIST_PTR_SIZE + PAGE_SIZE - 1) / (PAGE_SIZE as int),
                self.frames().free_frames() >= old(self).frames().free_frames() - 4 * i,
                forall|kk: int|
                    0 <= kk < i ==> (#[trigger] self.mem().translate(
                        self.mem().frame_of(self.root()@),
                        (cursor + kk * PAGE_SIZE) as u64,
                    )) is Some,
            decreases pages - i,
        {
            assert(i * PAGE_SIZE < length) by (nonlinear_arith)
                requires
                    i < pages,
                    pages * 4096 == length,
                    PAGE_SIZE == 4096,
            ;
            assert((cursor + i * PAGE_SIZE) % (PAGE_SIZE as int) == 0) by (nonlinear_arith)
                requires
                    cursor % 4096 == 0,
                    PAGE_SIZE == 4096,
            ;
            let virt = VirtualAddress::new(cursor + i * PAGE_SIZE);
            let ghost s0 = *self;
            let ghost pmm0 = self.pmm;
            let page = match self.pmm.allocate_page() {
                Some(p) => p,
                None => {
                    proof {
                        assert(old(self).frames().free_frames() < 4 * pages);
                    }
                    return None;
                },
            };
            proof {
                old(self).frames().lemma_only_took_trans(&pmm0, &self.pmm);
            }
            proof {
                let k = choose|k: int|
                    0 <= k < pmm0.entries().len() && pmm0.usable(k) && pmm0.entries()[k].base
                        <= page@ && page@ + PAGE_SIZE <= pmm0.entries()[k].base
                        + pmm0.entries()[k].len;
                assert(page@ + PAGE_SIZE <= self.memory.frame_count() * PAGE_SIZE);
                assert forall|h: int| #[trigger] self.memory.holds_table(h) implies !self.pmm.is_free(
                    h * PAGE_SIZE,
                ) by {}
                assert forall|k2: int|
                    0 <= k2 < self.pmm.entries().len() && self.pmm.usable(k2) implies self.pmm.entries()[k2].base
                        + self.pmm.entries()[k2].len <= self.memory.frame_count() * PAGE_SIZE by {
                    assert(pmm0.usable(k2));
                }
            }
            let ghost mem0 = self.memory;
            let ghost pmm1 = self.pmm;
            let mapped = crate::paging::map(&mut self.memory, &mut self.pmm, self.pagemap, virt, page, self.flags);
            proof {
                old(self).frames().lemma_only_took_trans(&pmm0, &pmm1);
                old(self).frames().lemma_only_took_trans(&pmm1, &self.pmm);
                assert(mem0.is_table(mem0.frame_of(self.pagemap@), 4));
                assert(self.memory.is_table(mem0.frame_of(self.pagemap@), 4));
                assert forall|j: int| 0 <= j < self.objects().len() implies #[trigger] self.object_placed(j) by {
                    assert(s0.object_placed(j));
                }
                let root = mem0.frame_of(self.pagemap@);
                assert forall|j: int, k: int|
                    0 <= j < self.objects().len() && 0 <= k < self.objects()[j].data.length as int / (PAGE_SIZE as int)
                        implies (#[trigger] self.mem().translate(self.mem().frame_of(self.root()@), self.page_of(j, k))) is Some by {
                    assert(s0.mem().translate(root, s0.page_of(j, k)) is Some);
                    crate::paging::lemma_mapped_stays_mapped(&mem0, &self.memory, root, self.page_of(j, k));
                }
                assert forall|kk: int|
                    0 <= kk < i implies (#[trigger] self.mem().translate(
                        self.mem().frame_of(self.root()@),
                        (cursor + kk * PAGE_SIZE) as u64,
                    )) is Some by {
                    assert(mem0.translate(root, (cursor + kk * PAGE_SIZE) as u64) is Some);
                    crate::paging::lemma_mapped_stays_mapped(&mem0, &self.memory, root, (cursor + kk * PAGE_SIZE) as u64);
                }
            }
            if !mapped {
                proof {
                    assert(old(self).frames().free_frames() < 4 * pages);
                }
                return None;
            }
            proof {
                assert(self.mem().translate(self.mem().frame_of(self.root()@), (cursor + i * PAGE_SIZE) as u64) is Some);
            }
            i = i + 1;
        }
        let object = VirtualMemoryObject::new(
            VirtualAddress::new(cursor + node_size),
            length,
            self.flags,
        );
        let ghost s1 = *self;
        self.allocated_objects.append_to_address(self.current_address, object);
        self.current_address = VirtualAddress::new(cursor + length);
        proof {
            assert(length >= PAGE_SIZE);
            assert forall|j: int| 0 <= j < self.objects().len() implies #[trigger] self.object_placed(j) by {
                if j < old(self).objects().len() {
                    assert(old(self).object_placed(j));
                }
            }
            let n_old = old(self).objects().len() as int;
            assert(length as int / (PAGE_SIZE as int) == pages) by (nonlinear_arith)
                requires
                    length == pages * 4096,
                    PAGE_SIZE == 4096,
            ;
            assert forall|j: int, k: int|
                0 <= j < self.objects().len() && 0 <= k < self.objects()[j].data.length as int / (PAGE_SIZE as int)
                    implies (#[trigger] self.mem().translate(self.mem().frame_of(self.root()@), self.page_of(j, k))) is Some by {
                if j == n_old {
                    assert(self.page_of(j, k) == (cursor + k * PAGE_SIZE) as u64);
                } else {
                    assert(self.objects()[j] == s1.objects()[j]);
                    assert(self.page_of(j, k) == s1.page_of(j, k));
                    assert(s1.mem().translate(s1.mem().frame_of(s1.root()@), s1.page_of(j, k)) is Some);
                }
            }
        }
        Some(object)
    }

    /// Detaches the object whose usable range starts at `address` and hands
    /// it back marked unused. The range itself is not reused.
    pub fn free_object(&mut self, address: VirtualAddress) -> (r: Option<VirtualMemoryObject>)
        requires
            old(self).wf(),
        ensures
            final(self).wf(),
            final(self).cursor() == old(self).cursor(),
            final(self).mem() == old(self).mem(),
            final(self).frames() == old(self).frames(),
            forall|k: int|
                0 <= k < old(self).objects().len() && old(self).objects()[k].data.base == address
                    ==> r == Some(
                    VirtualMemoryObject { is_used: false, ..old(self).objects()[k].data },
                ) && final(self).objects() == old(self).objects().remove(k),
            (forall|k: int|
                0 <= k < old(self).objects().len() ==> old(self).objects()[k].data.base != address)
                ==> r.is_none() && final(self).objects() == old(self).objects(),
    {
        if address.as_addr() < LIST_PTR_SIZE || self.allocated_objects.len() == 0 {
            proof {
                assert forall|k: int| 0 <= k < old(self).objects().len() implies old(self).objects()[k].data.base != address by {
                    assert(old(self).object_placed(k));
                }
            }
            return None;
        }
        let node_address = VirtualAddress::new(address.as_addr() - LIST_PTR_SIZE);
        proof {
            self.lemma_objects_ordered();
            assert forall|k: int| 0 <= k < old(self).objects().len() implies (old(self).objects()[k].address
                == node_address <==> old(self).objects()[k].data.base == address) by {
                assert(old(self).object_placed(k));
            }
        }
        let removed = self.allocated_objects.remove(node_address);
        proof {
            if exists|k: int| 0 <= k < old(self).objects().len() && old(self).objects()[k].address == node_address {
                let k = choose|k: int| 0 <= k < old(self).objects().len() && old(self).objects()[k].address == node_address;
                assert forall|j: int| 0 <= j < k implies old(self).objects()[j].address != node_address by {
                    assert(old(self).objects()[j].address@ < old(self).objects()[k].address@);
                }
                assert(self.objects() == old(self).objects().remove(k));
                assert forall|j: int, kk: int|
                    0 <= j < self.objects().len() && 0 <= kk < self.objects()[j].data.length as int / (PAGE_SIZE as int)
                        implies (#[trigger] self.mem().translate(self.mem().frame_of(self.root()@), self.page_of(j, kk))) is Some by {
                    let j0 = if j < k { j } else { j + 1 };
                    assert(self.objects()[j] == old(self).objects()[j0]);
                    assert(self.page_of(j, kk) == old(self).page_of(j0, kk));
                    assert(old(self).mem().translate(old(self).mem().frame_of(old(self).root()@), old(self).page_of(j0, kk)) is Some);
                }
                assert forall|j: int| 0 <= j < self.objects().len() implies #[trigger] self.object_placed(j) by {
                    if j < k {
                        assert(old(self).object_placed(j));
                        if j + 1 == k && k + 1 < old(self).objects().len() {
                            assert(old(self).objects()[k].address@ < old(self).objects()[k + 1].address@);
                        }
                    } else {
                        assert(old(self).object_placed(j + 1));
                    }
                }
            } else {
                assert(self.objects() == old(self).objects());
                assert forall|j: int| 0 <= j < self.objects().len() implies #[trigger] self.object_placed(j) by {
                    assert(old(self).object_placed(j));
                }
                assert forall|j: int, kk: int|
                    0 <= j < self.objects().len() && 0 <= kk < self.objects()[j].data.length as int / (PAGE_SIZE as int)
                        implies (#[trigger] self.mem().translate(self.mem().frame_of(self.root()@), self.page_of(j, kk))) is Some by {
                    assert(self.page_of(j, kk) == old(self).page_of(j, kk));
                }
            }
        }
        match removed {
            Some(o) => Some(VirtualMemoryObject { is_used: false, ..o }),
            None => None,
        }
    }

    /// Object addresses strictly increase along the list.
    proof fn lemma_objects_ordered(&self)
        requires
            self.wf(),
        ensures
            forall|a: int, b: int|
                0 <= a < b < self.objects().len() ==> self.objects()[a].address@
                    < self.objects()[b].address@,
    {
        assert forall|a: int, b: int| 0 <= a < b < self.objects().len() implies self.objects()[a].address@
            < self.objects()[b].address@ by {
            self.lemma_ordered_from(a, b);
        }
    }

    proof fn lemma_ordered_from(&self, a: int, b: int)
        requires
            self.wf(),
            0 <= a < b < self.objects().len(),
        ensures
            self.objects()[a].address@ < self.objects()[b].address@,
        decreases b - a,
    {
        assert(self.object_placed(a));
        if b > a + 1 {
            self.lemma_ordered_from(a + 1, b);
        }
    }
}

} // verus!
