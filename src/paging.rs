//! Four-level page tables over a model of physical memory.
//!
//! Physical memory is a run of 4 KiB frames. A frame may hold a page table
//! (512 entries and the level of the table in the tree) and holds data words.
//! The kernel reaches physical address `p` at virtual address
//! `p + hhdm_offset`.
use vstd::prelude::*;

use crate::address::{PhysicalAddress, VirtualAddress, PAGE_SIZE};
use crate::pmm::BitmapAllocator;

verus! {

pub const PTE_PRESENT: u64 = 1;
pub const PTE_WRITEABLE: u64 = 2;
pub const PTE_USER_ACCESSIBLE: u64 = 4;
pub const PTE_NOT_EXECUTABLE: u64 = 0x8000_0000_0000_0000;
pub const PTE_ADDRESS_MASK: u64 = 0x000f_ffff_ffff_f000;

/// Entries in one page table.
pub const TABLE_ENTRIES: usize = 512;

/// Frames that a 52-bit physical address can reach.
pub const MAX_FRAMES: u64 = 0x100_0000_0000;

/// Access rights of a mapping.
#[derive(Clone, Copy, PartialEq, Eq, Structural, Debug)]
pub struct VirtualMemoryFlags {
    pub bits: u8,
}

pub const FLAG_WRITEABLE: u8 = 1;
pub const FLAG_EXECUTABLE: u8 = 2;
pub const FLAG_USER_ACCESSIBLE: u8 = 4;

impl VirtualMemoryFlags {
    pub fn empty() -> (r: Self)
        ensures
            r.bits == 0,
    {
        VirtualMemoryFlags { bits: 0 }
    }

    pub fn from_bits(bits: u8) -> (r: Self)
        ensures
            r.bits == bits,
    {
        VirtualMemoryFlags { bits }
    }

    pub open spec fn has(&self, flag: u8) -> bool {
        self.bits & flag == flag
    }

    /// Whether every flag of `other` is set here.
    pub fn contains(&self, other: u8) -> (r: bool)
        ensures
            r == self.has(other),
    {
        self.bits & other == other
    }

    /// The flags of both.
    pub fn union(&self, other: VirtualMemoryFlags) -> (r: Self)
        ensures
            r.bits == self.bits | other.bits,
    {
        VirtualMemoryFlags { bits: self.bits | other.bits }
    }
}

/// The entry that maps to `addr` with `flags`: always present; writeable,
/// user-accessible and not-executable bits as the flags ask.
pub open spec fn entry_for(addr: u64, flags: VirtualMemoryFlags) -> u64 {
    addr | PTE_PRESENT | (if flags.has(FLAG_WRITEABLE) {
        PTE_WRITEABLE
    } else {
        0
    }) | (if flags.has(FLAG_USER_ACCESSIBLE) {
        PTE_USER_ACCESSIBLE
    } else {
        0
    }) | (if flags.has(FLAG_EXECUTABLE) {
        0
    } else {
        PTE_NOT_EXECUTABLE
    })
}

pub open spec fn present(e: u64) -> bool {
    e & PTE_PRESENT == PTE_PRESENT
}

/// The frame number that an entry points to.
pub open spec fn target(e: u64) -> int {
    (e & PTE_ADDRESS_MASK) as int / PAGE_SIZE as int
}

/// The index into the table of a level (4 down to 1) for a virtual address.
pub open spec fn table_index(v: u64, level: int) -> int {
    if level == 4 {
        ((v >> 39u64) & 0x1ffu64) as int
    } else if level == 3 {
        ((v >> 30u64) & 0x1ffu64) as int
    } else if level == 2 {
        ((v >> 21u64) & 0x1ffu64) as int
    } else {
        ((v >> 12u64) & 0x1ffu64) as int
    }
}

proof fn lemma_entry_for(addr: u64, w: u64, u: u64, nx: u64)
    requires
        addr & 0xfffu64 == 0,
        addr < 0x10_0000_0000_0000u64,
        w == 0 || w == 2,
        u == 0 || u == 4,
        nx == 0 || nx == 0x8000_0000_0000_0000u64,
    ensures
        (addr | 1u64 | w | u | nx) & 1u64 == 1u64,
        (addr | 1u64 | w | u | nx) & 0x000f_ffff_ffff_f000u64 == addr,
{
    assert((addr | 1u64 | w | u | nx) & 1u64 == 1u64) by (bit_vector);
    assert((addr | 1u64 | w | u | nx) & 0x000f_ffff_ffff_f000u64 == addr) by (bit_vector)
        requires
            addr & 0xfffu64 == 0,
            addr < 0x10_0000_0000_0000u64,
            w == 0 || w == 2,
            u == 0 || u == 4,
            nx == 0 || nx == 0x8000_0000_0000_0000u64,
    ;
}

proof fn lemma_page_aligned(p: u64)
    requires
        p % 4096 == 0,
    ensures
        p & 0xfffu64 == 0,
{
    assert(p & 0xfffu64 == 0) by (bit_vector)
        requires
            p % 4096 == 0,
    ;
}

proof fn lemma_masked(e: u64)
    ensures
        (e & 0x000f_ffff_ffff_f000u64) % 4096 == 0,
        (e & 0x000f_ffff_ffff_f000u64) < 0x10_0000_0000_0000u64,
{
    assert((e & 0x000f_ffff_ffff_f000u64) % 4096 == 0) by (bit_vector);
    assert((e & 0x000f_ffff_ffff_f000u64) < 0x10_0000_0000_0000u64) by (bit_vector);
}

proof fn lemma_index_bound(v: u64, s: u64)
    ensures
        (v >> s) & 0x1ffu64 < 512,
{
    assert((v >> s) & 0x1ffu64 < 512) by (bit_vector);
}

/// A page table: its level in the tree and its 512 entries.
pub struct PageTable {
    pub level: u8,
    pub entries: Vec<u64>,
}

/// What a frame's table looks like to contracts.
pub struct TableView {
    pub level: u8,
    pub entries: Seq<u64>,
}

/// Physical memory: for each frame, its page table if it holds one, and the
/// data words of all frames.
pub struct PhysicalMemory {
    hhdm_offset: u64,
    tables: Vec<Option<PageTable>>,
    data: Vec<u64>,
}

impl PhysicalMemory {
    pub closed spec fn hhdm(&self) -> u64 {
        self.hhdm_offset
    }

    pub closed spec fn frame_count(&self) -> int {
        self.tables@.len() as int
    }

    /// The data words of physical memory; word `w` is at address `8 * w`.
    pub closed spec fn words(&self) -> Seq<u64> {
        self.data@
    }

    pub closed spec fn tables(&self) -> Seq<Option<TableView>> {
        self.tables@.map_values(
            |t: Option<PageTable>|
                match t {
                    Some(t) => Some(TableView { level: t.level, entries: t.entries@ }),
                    None => None,
                },
        )
    }

    /// Frame `f` holds a page table of level `l`.
    pub open spec fn is_table(&self, f: int, l: int) -> bool {
        &&& 0 <= f < self.frame_count()
        &&& self.tables()[f] is Some
        &&& self.tables()[f]->0.level == l
    }

    pub open spec fn holds_table(&self, f: int) -> bool {
        0 <= f < self.frame_count() && self.tables()[f] is Some
    }

    pub open spec fn entry(&self, f: int, i: int) -> u64 {
        self.tables()[f]->0.entries[i]
    }

    pub open spec fn level(&self, f: int) -> int {
        self.tables()[f]->0.level as int
    }

    pub open spec fn wf(&self) -> bool {
        &&& self.words().len() == self.frame_count() * 512
        &&& self.frame_count() <= MAX_FRAMES
        &&& self.hhdm() + self.frame_count() * PAGE_SIZE <= u64::MAX
        &&& forall|f: int|
            #![trigger self.tables()[f]]
            self.holds_table(f) ==> {
                &&& 1 <= self.level(f) <= 4
                &&& self.tables()[f]->0.entries.len() == 512
            }
        &&& forall|f: int, i: int|
            #![trigger self.entry(f, i)]
            self.holds_table(f) && 0 <= i < 512 && present(self.entry(f, i)) ==> {
                &&& target(self.entry(f, i)) < self.frame_count()
                &&& self.level(f) > 1 ==> self.is_table(
                    target(self.entry(f, i)),
                    self.level(f) - 1,
                )
            }
        &&& self.tree()
    }

    /// No table is linked from two entries: the tables form a tree.
    pub open spec fn tree(&self) -> bool {
        forall|f: int, i: int, g: int, j: int|
            #![trigger self.entry(f, i), self.entry(g, j)]
            self.holds_table(f) && self.holds_table(g) && self.level(f) > 1 && self.level(g) > 1 && 0
                <= i < 512 && 0 <= j < 512 && present(self.entry(f, i)) && present(self.entry(g, j))
                && target(self.entry(f, i)) == target(self.entry(g, j)) ==> f == g && i == j
    }

    /// The frame of the next table on the walk of `v` below table `f`.
    pub open spec fn next_table(&self, f: int, v: u64) -> int {
        target(self.entry(f, table_index(v, self.level(f))))
    }

    /// The tables of levels 4, 3 and 2 on the walk of `v` are all present.
    pub open spec fn walk_complete(&self, root: int, v: u64) -> bool {
        let f3 = self.next_table(root, v);
        let f2 = self.next_table(f3, v);
        &&& self.is_table(root, 4)
        &&& present(self.entry(root, table_index(v, 4)))
        &&& present(self.entry(f3, table_index(v, 3)))
        &&& present(self.entry(f2, table_index(v, 2)))
    }

    /// The level-1 table on the walk of `v`.
    pub open spec fn leaf_table(&self, root: int, v: u64) -> int {
        self.next_table(self.next_table(self.next_table(root, v), v), v)
    }

    /// The physical address that `v` translates to, or `None` where the
    /// walk meets an absent entry.
    pub open spec fn translate(&self, root: int, v: u64) -> Option<int> {
        let f1 = self.leaf_table(root, v);
        let e1 = self.entry(f1, table_index(v, 1));
        if self.walk_complete(root, v) && present(e1) {
            Some(target(e1) * PAGE_SIZE + v % PAGE_SIZE)
        } else {
            None
        }
    }

    /// The word that a read of `v` returns, or `None` for a page fault.
    pub open spec fn read_spec(&self, root: int, v: u64) -> Option<u64> {
        match self.translate(root, v) {
            Some(p) => Some(self.words()[p / 8]),
            None => None,
        }
    }

    /// The frame number of the table that the kernel reaches at `table`.
    pub open spec fn frame_of(&self, table: u64) -> int {
        (table - self.hhdm()) / PAGE_SIZE as int
    }

    /// `table` is a kernel address of a level-`l` table.
    pub open spec fn valid_table_address(&self, table: u64, l: int) -> bool {
        &&& table >= self.hhdm()
        &&& (table - self.hhdm()) % PAGE_SIZE as int == 0
        &&& self.is_table(self.frame_of(table), l)
    }

    pub fn hhdm_offset(&self) -> (r: u64)
        ensures
            r == self.hhdm(),
    {
        self.hhdm_offset
    }

    /// Physical memory of `frames` frames, all zero and holding no table.
    pub fn new(frames: usize, hhdm_offset: u64) -> (r: Self)
        requires
            frames <= MAX_FRAMES,
            hhdm_offset + frames * PAGE_SIZE <= u64::MAX,
            frames * 512 <= usize::MAX,
        ensures
            r.wf(),
            r.frame_count() == frames,
            r.hhdm() == hhdm_offset,
            forall|f: int| 0 <= f < frames ==> !r.holds_table(f),
            forall|w: int| 0 <= w < frames * 512 ==> r.words()[w] == 0,
    {
        let mut tables: Vec<Option<PageTable>> = Vec::new();
        let mut k: usize = 0;
        while k < frames
            invariant
                k <= frames,
                tables@.len() == k,
                forall|f: int| 0 <= f < k ==> tables@[f] is None,
            decreases frames - k,
        {
            tables.push(None);
            k = k + 1;
        }
        let mut data: Vec<u64> = Vec::new();
        let n = frames * 512;
        let mut k: usize = 0;
        while k < n
            invariant
                k <= n,
                data@.len() == k,
                forall|w: int| 0 <= w < k ==> data@[w] == 0,
            decreases n - k,
        {
            data.push(0);
            k = k + 1;
        }
        let r = PhysicalMemory { hhdm_offset, tables, data };
        assert forall|f: int| 0 <= f < frames implies !r.holds_table(f) by {
            assert(r.tables@[f] is None);
        }
        r
    }

    /// Entry `i` of the table in frame `f`.
    fn read_entry(&self, f: usize, i: usize) -> (r: u64)
        requires
            self.holds_table(f as int),
            self.wf(),
            i < 512,
        ensures
            r == self.entry(f as int, i as int),
    {
        match &self.tables[f] {
            Some(t) => t.entries[i],
            None => 0,
        }
    }

    /// The level of the table in frame `f`.
    fn read_level(&self, f: usize) -> (r: u8)
        requires
            self.holds_table(f as int),
        ensures
            r == self.level(f as int),
    {
        match &self.tables[f] {
            Some(t) => t.level,
            None => 0,
        }
    }

    /// Writes entry `i` of the table in frame `f`.
    fn write_entry(&mut self, f: usize, i: usize, e: u64)
        requires
            old(self).holds_table(f as int),
            old(self).tables()[f as int]->0.entries.len() == 512,
            i < 512,
        ensures
            final(self).tables() == old(self).tables().update(
                f as int,
                Some(
                    TableView {
                        level: old(self).tables()[f as int]->0.level,
                        entries: old(self).tables()[f as int]->0.entries.update(i as int, e),
                    },
                ),
            ),
            final(self).words() == old(self).words(),
            final(self).hhdm() == old(self).hhdm(),
            final(self).frame_count() == old(self).frame_count(),
    {
        match &mut self.tables[f] {
            Some(t) => {
                t.entries.set(i, e);
            },
            None => {},
        }
        assert(self.tables() =~= old(self).tables().update(
            f as int,
            Some(
                TableView {
                    level: old(self).tables()[f as int]->0.level,
                    entries: old(self).tables()[f as int]->0.entries.update(i as int, e),
                },
            ),
        ));
    }

    /// Places an empty table of level `level` in frame `f`.
    fn install_table(&mut self, f: usize, level: u8)
        requires
            0 <= f < old(self).frame_count(),
        ensures
            final(self).tables() == old(self).tables().update(
                f as int,
                Some(TableView { level, entries: Seq::new(512, |i: int| 0u64) }),
            ),
            final(self).words() == old(self).words(),
            final(self).hhdm() == old(self).hhdm(),
            final(self).frame_count() == old(self).frame_count(),
    {
        let mut entries: Vec<u64> = Vec::new();
        let mut k: usize = 0;
        while k < TABLE_ENTRIES
            invariant
                k <= 512,
                entries@.len() == k,
                forall|j: int| 0 <= j < k ==> entries@[j] == 0,
            decreases 512 - k,
        {
            entries.push(0);
            k = k + 1;
        }
        assert(entries@ =~= Seq::new(512, |i: int| 0u64));
        self.tables.set(f, Some(PageTable { level, entries }));
        assert(self.tables() =~= old(self).tables().update(
            f as int,
            Some(TableView { level, entries: Seq::new(512, |i: int| 0u64) }),
        ));
    }
}


/// The frame allocator hands out only frames of this memory, and no frame
/// that holds a page table counts as free.
pub open spec fn consistent(mem: &PhysicalMemory, pmm: &BitmapAllocator) -> bool {
    &&& forall|k: int|
        0 <= k < pmm.entries().len() && pmm.usable(k) ==> pmm.entries()[k].base
            + pmm.entries()[k].len <= mem.frame_count() * PAGE_SIZE
    &&& forall|f: int| #[trigger] mem.holds_table(f) ==> !pmm.is_free(f * PAGE_SIZE)
}

/// Every table stays a table of the same level.
pub open spec fn tables_kept(old_mem: &PhysicalMemory, new_mem: &PhysicalMemory) -> bool {
    &&& new_mem.frame_count() == old_mem.frame_count()
    &&& new_mem.hhdm() == old_mem.hhdm()
    &&& forall|g: int, l: int| #[trigger] old_mem.is_table(g, l) ==> new_mem.is_table(g, l)
}

/// Every entry of every old table is unchanged but entry `i` of table `f`.
pub open spec fn entries_kept_except(
    old_mem: &PhysicalMemory,
    new_mem: &PhysicalMemory,
    f: int,
    i: int,
) -> bool {
    forall|g: int, j: int|
        old_mem.holds_table(g) && 0 <= j < 512 && !(g == f && j == i) ==> #[trigger] new_mem.entry(
            g,
            j,
        ) == old_mem.entry(g, j)
}

/// Every present entry of every old table is still there, or, in a level-1
/// table, replaced by another present entry.
pub open spec fn present_entries_kept(old_mem: &PhysicalMemory, new_mem: &PhysicalMemory) -> bool {
    forall|g: int, j: int|
        old_mem.holds_table(g) && 0 <= j < 512 && present(old_mem.entry(g, j)) ==> {
            ||| #[trigger] new_mem.entry(g, j) == old_mem.entry(g, j)
            ||| old_mem.level(g) == 1 && present(new_mem.entry(g, j))
        }
}

proof fn lemma_present_kept_trans(a: &PhysicalMemory, b: &PhysicalMemory, c: &PhysicalMemory)
    requires
        tables_kept(a, b),
        present_entries_kept(a, b),
        tables_kept(b, c),
        present_entries_kept(b, c),
    ensures
        tables_kept(a, c),
        present_entries_kept(a, c),
{
    assert forall|g: int, j: int|
        a.holds_table(g) && 0 <= j < 512 && present(a.entry(g, j)) implies {
            ||| #[trigger] c.entry(g, j) == a.entry(g, j)
            ||| a.level(g) == 1 && present(c.entry(g, j))
        } by {
        assert(a.is_table(g, a.level(g)));
        assert(b.is_table(g, a.level(g)));
        assert(b.entry(g, j) == a.entry(g, j) || (a.level(g) == 1 && present(b.entry(g, j))));
        assert(c.entry(g, j) == b.entry(g, j) || (b.level(g) == 1 && present(c.entry(g, j))));
    }
    assert forall|g: int, l: int| #[trigger] a.is_table(g, l) implies c.is_table(g, l) by {
        assert(b.is_table(g, l));
    }
}

/// Pages that translate keep translating when tables and their present
/// entries are kept.
pub proof fn lemma_mapped_stays_mapped(m: &PhysicalMemory, m2: &PhysicalMemory, root: int, v: u64)
    requires
        m.wf(),
        m2.wf(),
        tables_kept(m, m2),
        present_entries_kept(m, m2),
        m.translate(root, v) is Some,
    ensures
        m2.translate(root, v) is Some,
{
    lemma_index_bound(v, 39);
    lemma_index_bound(v, 30);
    lemma_index_bound(v, 21);
    lemma_index_bound(v, 12);
    let f3 = m.next_table(root, v);
    assert(present(m.entry(root, table_index(v, 4))));
    assert(m.is_table(f3, 3));
    let f2 = m.next_table(f3, v);
    assert(present(m.entry(f3, table_index(v, 3))));
    assert(m.is_table(f2, 2));
    let f1 = m.next_table(f2, v);
    assert(present(m.entry(f2, table_index(v, 2))));
    assert(m.is_table(f1, 1));
    assert(m2.is_table(root, 4) && m2.is_table(f3, 3) && m2.is_table(f2, 2) && m2.is_table(f1, 1));
    assert(m2.entry(root, table_index(v, 4)) == m.entry(root, table_index(v, 4)));
    assert(m2.entry(f3, table_index(v, 3)) == m.entry(f3, table_index(v, 3)));
    assert(m2.entry(f2, table_index(v, 2)) == m.entry(f2, table_index(v, 2)));
    assert(present(m2.entry(f1, table_index(v, 1))));
}


/// The tree shape is kept when every present entry of a table above the
/// leaves was already there.
proof fn lemma_tree_kept(a: &PhysicalMemory, b: &PhysicalMemory)
    requires
        a.tree(),
        forall|f: int, j: int|
            #![trigger b.entry(f, j)]
            b.holds_table(f) && b.level(f) > 1 && 0 <= j < 512 && present(b.entry(f, j)) ==> a.holds_table(f)
                && a.level(f) == b.level(f) && a.entry(f, j) == b.entry(f, j),
    ensures
        b.tree(),
{
    assert forall|f: int, i: int, g: int, j: int|
        #![trigger b.entry(f, i), b.entry(g, j)]
        b.holds_table(f) && b.holds_table(g) && b.level(f) > 1 && b.level(g) > 1 && 0 <= i < 512 && 0
            <= j < 512 && present(b.entry(f, i)) && present(b.entry(g, j)) && target(b.entry(f, i))
            == target(b.entry(g, j)) implies f == g && i == j by {
        assert(a.entry(f, i) == b.entry(f, i));
        assert(a.entry(g, j) == b.entry(g, j));
    }
}

/// The page-table entry for `addr` with `flags`.
pub fn set_flags(addr: PhysicalAddress, flags: VirtualMemoryFlags) -> (r: u64)
    ensures
        r == entry_for(addr@, flags),
        addr@ % PAGE_SIZE == 0 && addr@ < 0x10_0000_0000_0000u64 ==> present(r) && (r
            & PTE_ADDRESS_MASK) == addr@,
{
    let w: u64 = if flags.contains(FLAG_WRITEABLE) {
        PTE_WRITEABLE
    } else {
        0
    };
    let u: u64 = if flags.contains(FLAG_USER_ACCESSIBLE) {
        PTE_USER_ACCESSIBLE
    } else {
        0
    };
    let nx: u64 = if flags.contains(FLAG_EXECUTABLE) {
        0
    } else {
        PTE_NOT_EXECUTABLE
    };
    proof {
        if addr@ % PAGE_SIZE == 0 && addr@ < 0x10_0000_0000_0000u64 {
            lemma_page_aligned(addr@);
            lemma_entry_for(addr@, w, u, nx);
        }
    }
    addr.as_addr() | PTE_PRESENT | w | u | nx
}

impl VirtualAddress {
    /// The table indexes of levels 4, 3, 2 and 1 for this address.
    pub fn get_indexes(&self) -> (r: (usize, usize, usize, usize))
        ensures
            r.0 == table_index(self@, 4),
            r.1 == table_index(self@, 3),
            r.2 == table_index(self@, 2),
            r.3 == table_index(self@, 1),
            r.0 < 512 && r.1 < 512 && r.2 < 512 && r.3 < 512,
    {
        let addr = self.as_addr();
        proof {
            lemma_index_bound(addr, 39);
            lemma_index_bound(addr, 30);
            lemma_index_bound(addr, 21);
            lemma_index_bound(addr, 12);
        }
        (
            ((addr >> 39u64) & 0x1ffu64) as usize,
            ((addr >> 30u64) & 0x1ffu64) as usize,
            ((addr >> 21u64) & 0x1ffu64) as usize,
            ((addr >> 12u64) & 0x1ffu64) as usize,
        )
    }
}

/// The kernel address of the table that the register value `cr3` names.
pub fn pagemap_from_cr3(mem: &PhysicalMemory, cr3: u64) -> (r: VirtualAddress)
    requires
        mem.wf(),
        (cr3 & PTE_ADDRESS_MASK) < mem.frame_count() * PAGE_SIZE,
    ensures
        r@ == (cr3 & PTE_ADDRESS_MASK) + mem.hhdm(),
{
    VirtualAddress::new((cr3 & PTE_ADDRESS_MASK) + mem.hhdm_offset())
}

impl PhysicalMemory {
    /// Follows entry `index` of the table at `table` to the next level down.
    /// An absent entry gets a fresh zeroed table when `should_allocate`;
    /// `None` means that no frame was left for it.
    pub fn get_next_level(
        &mut self,
        pmm: &mut BitmapAllocator,
        table: VirtualAddress,
        index: usize,
        flags: VirtualMemoryFlags,
        should_allocate: bool,
    ) -> (r: Option<VirtualAddress>)
        requires
            old(self).wf(),
            old(pmm).wf(),
            consistent(old(self), old(pmm)),
            old(self).valid_table_address(table@, old(self).level(old(self).frame_of(table@))),
            old(self).level(old(self).frame_of(table@)) > 1,
            index < 512,
            !should_allocate ==> present(old(self).entry(old(self).frame_of(table@), index as int)),
        ensures
            ({
                let f = old(self).frame_of(table@);
                let l = old(self).level(f);
                &&& final(self).wf()
                &&& final(pmm).wf()
                &&& consistent(final(self), final(pmm))
                &&& tables_kept(old(self), final(self))
                &&& entries_kept_except(old(self), final(self), f, index as int)
                &&& present_entries_kept(old(self), final(self))
                &&& final(self).words() == old(self).words()
                &&& final(pmm).entries() == old(pmm).entries()
                &&& forall|g: int| final(pmm).is_free(g) ==> old(pmm).is_free(g)
                &&& present(old(self).entry(f, index as int)) ==> final(self).tables()
                    == old(self).tables() && *final(pmm) == *old(pmm)
                &&& old(pmm).only_took(final(pmm))
                &&& only_linked_new_tables(old(self), final(self))
                &&& grew(old(self), final(self), old(pmm), final(pmm))
                &&& final(pmm).free_frames() >= old(pmm).free_frames() - 1
                &&& final(self).entry(f, index as int) != old(self).entry(f, index as int)
                    ==> !present(old(self).entry(f, index as int))
                &&& forall|h: int|
                    #![trigger final(self).tables()[h]]
                    final(self).holds_table(h) && !old(self).holds_table(h) ==> {
                        &&& h == target(final(self).entry(f, index as int))
                        &&& old(pmm).is_free(h * PAGE_SIZE)
                        &&& forall|j: int| 0 <= j < 512 ==> final(self).entry(h, j) == 0
                    }
                &&& forall|x: int|
                    old(pmm).is_free(x) && !final(pmm).is_free(x) ==> x % PAGE_SIZE as int == 0
                        && final(self).holds_table(x / PAGE_SIZE as int) && !old(self).holds_table(
                        x / PAGE_SIZE as int,
                    )
                &&& match r {
                    Some(n) => {
                        &&& present(final(self).entry(f, index as int))
                        &&& n@ == final(self).hhdm() + target(final(self).entry(f, index as int))
                            * PAGE_SIZE
                        &&& final(self).frame_of(n@) == target(final(self).entry(f, index as int))
                        &&& final(self).valid_table_address(n@, l - 1)
                    },
                    None => {
                        &&& !present(old(self).entry(f, index as int))
                        &&& old(pmm).free_frames() == 0
                        &&& forall|k: int|
                            0 <= k < old(pmm).entries().len() ==> !old(pmm).available(k)
                        &&& final(self).tables() == old(self).tables()
                        &&& *final(pmm) == *old(pmm)
                    },
                }
            }),
    {
        let fu = (table.as_addr() - self.hhdm_offset) / PAGE_SIZE;
        let n = self.tables.len();
        assert(fu < n);
        let f = fu as usize;
        let level = self.read_level(f);
        let entry = self.read_entry(f, index);
        if entry & PTE_PRESENT == PTE_PRESENT {
            proof {
                lemma_masked(entry);
            }
            let next = (entry & PTE_ADDRESS_MASK) + self.hhdm_offset;
            proof {
                pmm.lemma_only_took_refl();
            }
            return Some(VirtualAddress::new(next));
        }
        let page = match pmm.allocate_page() {
            Some(p) => p,
            None => {
                return None;
            },
        };
        let ghost g: int = page@ as int / PAGE_SIZE as int;
        proof {
            let k = choose|k: int|
                0 <= k < old(pmm).entries().len() && old(pmm).usable(k)
                    && old(pmm).entries()[k].base <= page@ && page@ + PAGE_SIZE
                    <= old(pmm).entries()[k].base + old(pmm).entries()[k].len;
            assert(page@ + PAGE_SIZE <= self.frame_count() * PAGE_SIZE);
            assert(g * PAGE_SIZE == page@);
            if self.holds_table(g) {
                assert(!old(pmm).is_free(g * PAGE_SIZE));
            }
            lemma_page_aligned(page@);
        }
        assert(self.tables()[f as int]->0.entries.len() == 512);
        let gu = page.as_addr() / PAGE_SIZE;
        assert(gu < n);
        let new_frame = gu as usize;
        self.install_table(new_frame, level - 1);
        let e = set_flags(page, flags);
        self.write_entry(f, index, e);
        proof {
            let fi = f as int;
            assert(g != fi);
            assert forall|h: int| #[trigger] self.holds_table(h) implies !pmm.is_free(h * PAGE_SIZE) by {
                if h != g {
                    assert(old(self).holds_table(h));
                }
            }
            assert forall|h: int, l2: int| #[trigger] old(self).is_table(h, l2) implies self.is_table(h, l2) by {
            }
            assert forall|h: int|
                #![trigger self.tables()[h]]
                self.holds_table(h) implies {
                    &&& 1 <= self.level(h) <= 4
                    &&& self.tables()[h]->0.entries.len() == 512
                } by {
                if h != g && h != fi {
                    assert(old(self).tables()[h] == self.tables()[h]);
                }
            }
            assert forall|h: int, j: int|
                #![trigger self.entry(h, j)]
                self.holds_table(h) && 0 <= j < 512 && present(self.entry(h, j)) implies {
                    &&& target(self.entry(h, j)) < self.frame_count()
                    &&& self.level(h) > 1 ==> self.is_table(target(self.entry(h, j)), self.level(h) - 1)
                } by {
                if h == g {
                    assert(self.entry(h, j) == 0u64);
                    assert(0u64 & 1u64 == 0u64) by (bit_vector);
                } else if h == fi && j == index {
                    assert(self.entry(h, j) == e);
                } else {
                    assert(old(self).holds_table(h));
                    assert(self.entry(h, j) == old(self).entry(h, j));
                    assert(old(self).entry(h, j) == old(self).entry(h, j));
                }
            }
        }
        assert forall|k: int|
            0 <= k < pmm.entries().len() && pmm.usable(k) implies pmm.entries()[k].base
                + pmm.entries()[k].len <= self.frame_count() * PAGE_SIZE by {
            assert(old(pmm).usable(k));
        }
        assert(consistent(self, pmm));
        assert(tables_kept(old(self), self));
        proof {
            let fi = f as int;
            assert forall|f1: int, i1: int, g1: int, j1: int|
                #![trigger self.entry(f1, i1), self.entry(g1, j1)]
                self.holds_table(f1) && self.holds_table(g1) && self.level(f1) > 1 && self.level(g1) > 1 && 0
                    <= i1 < 512 && 0 <= j1 < 512 && present(self.entry(f1, i1)) && present(self.entry(g1, j1))
                    && target(self.entry(f1, i1)) == target(self.entry(g1, j1)) implies f1 == g1 && i1 == j1 by {
                assert(0u64 & 1u64 == 0u64) by (bit_vector);
                if f1 == g {
                    assert(self.entry(f1, i1) == 0u64);
                } else if g1 == g {
                    assert(self.entry(g1, j1) == 0u64);
                } else if f1 == fi && i1 == index && !(g1 == fi && j1 == index) {
                    assert(self.entry(g1, j1) == old(self).entry(g1, j1));
                    assert(old(self).holds_table(g1));
                    assert(old(self).is_table(target(old(self).entry(g1, j1)), old(self).level(g1) - 1));
                } else if g1 == fi && j1 == index && !(f1 == fi && i1 == index) {
                    assert(self.entry(f1, i1) == old(self).entry(f1, i1));
                    assert(old(self).holds_table(f1));
                    assert(old(self).is_table(target(old(self).entry(f1, i1)), old(self).level(f1) - 1));
                } else if !(f1 == fi && i1 == index) {
                    assert(self.entry(f1, i1) == old(self).entry(f1, i1));
                    assert(self.entry(g1, j1) == old(self).entry(g1, j1));
                    assert(old(self).holds_table(f1) && old(self).holds_table(g1));
                }
            }
        }
        assert(entries_kept_except(old(self), self, f as int, index as int));
        assert(present(self.entry(f as int, index as int)));
        assert(target(self.entry(f as int, index as int)) == g);
        assert(self.valid_table_address((page@ + self.hhdm()) as u64, level - 1));
        Some(VirtualAddress::new(page.as_addr() + self.hhdm_offset))
    }
}


/// The tables after entry `table_index(v, 1)` of the level-1 table on the
/// walk of `v` is set to `e`.
pub open spec fn set_leaf(mem: &PhysicalMemory, root: int, v: u64, e: u64) -> Seq<Option<TableView>> {
    let f1 = mem.leaf_table(root, v);
    mem.tables().update(
        f1,
        Some(
            TableView {
                level: mem.tables()[f1]->0.level,
                entries: mem.tables()[f1]->0.entries.update(table_index(v, 1), e),
            },
        ),
    )
}


/// Entry `j` of frame `g` as it was: zero where `g` held no table.
pub open spec fn entry_before(old_mem: &PhysicalMemory, g: int, j: int) -> u64 {
    if old_mem.holds_table(g) {
        old_mem.entry(g, j)
    } else {
        0
    }
}

/// Entry `j` of table `g` was absent and now links to a table that is new.
pub open spec fn links_new_table(old_mem: &PhysicalMemory, new_mem: &PhysicalMemory, g: int, j: int) -> bool {
    &&& !present(entry_before(old_mem, g, j))
    &&& present(new_mem.entry(g, j))
    &&& !old_mem.holds_table(target(new_mem.entry(g, j)))
    &&& new_mem.holds_table(target(new_mem.entry(g, j)))
}

/// Every entry of every table, new tables counted as zeroed, is as it was
/// but for entries that were absent and now link to new tables.
pub open spec fn only_linked_new_tables(old_mem: &PhysicalMemory, new_mem: &PhysicalMemory) -> bool {
    forall|g: int, j: int|
        new_mem.holds_table(g) && 0 <= j < 512 ==> #[trigger] new_mem.entry(g, j) == entry_before(old_mem, g, j)
            || links_new_table(old_mem, new_mem, g, j)
}

/// As `only_linked_new_tables`, and also the leaf entry of `v` may be set.
pub open spec fn changed_only_for(old_mem: &PhysicalMemory, new_mem: &PhysicalMemory, root: int, v: u64) -> bool {
    forall|g: int, j: int|
        new_mem.holds_table(g) && 0 <= j < 512 ==> {
            ||| #[trigger] new_mem.entry(g, j) == entry_before(old_mem, g, j)
            ||| links_new_table(old_mem, new_mem, g, j)
            ||| g == new_mem.leaf_table(root, v) && j == table_index(v, 1)
        }
}

proof fn lemma_linked_trans(a: &PhysicalMemory, b: &PhysicalMemory, c: &PhysicalMemory)
    requires
        tables_kept(a, b),
        tables_kept(b, c),
        only_linked_new_tables(a, b),
        only_linked_new_tables(b, c),
        forall|h: int| #[trigger] c.holds_table(h) ==> 0 <= h < c.frame_count(),
    ensures
        only_linked_new_tables(a, c),
{
    assert forall|x: int| a.holds_table(x) implies b.holds_table(x) && c.holds_table(x) by {
        assert(a.is_table(x, a.level(x)));
        assert(b.is_table(x, a.level(x)));
    }
    assert forall|x: int| b.holds_table(x) implies c.holds_table(x) by {
        assert(b.is_table(x, b.level(x)));
    }
    assert forall|g: int, j: int|
        c.holds_table(g) && 0 <= j < 512 implies #[trigger] c.entry(g, j) == entry_before(a, g, j)
            || links_new_table(a, c, g, j) by {
        let ea = entry_before(a, g, j);
        let eb = entry_before(b, g, j);
        let ec = c.entry(g, j);
        if b.holds_table(g) {
            assert(b.entry(g, j) == ea || links_new_table(a, b, g, j));
        } else {
            assert(!a.holds_table(g));
        }
        assert(ec == eb || links_new_table(b, c, g, j));
        if ec == eb {
            if eb != ea {
                assert(b.holds_table(target(eb)));
            }
        }
    }
}


/// From `a` with allocator `pa` to `b` with allocator `pb`, only new,
/// zeroed tables were added, in frames that were free, and linked in
/// through entries that were absent; no other frame was taken.
pub open spec fn grew(a: &PhysicalMemory, b: &PhysicalMemory, pa: &BitmapAllocator, pb: &BitmapAllocator) -> bool {
    &&& tables_kept(a, b)
    &&& only_linked_new_tables(a, b)
    &&& pa.only_took(pb)
    &&& forall|h: int|
        #![trigger b.tables()[h]]
        b.holds_table(h) && !a.holds_table(h) ==> pa.is_free(h * PAGE_SIZE)
    &&& forall|x: int|
        pa.is_free(x) && !pb.is_free(x) ==> x % PAGE_SIZE as int == 0 && b.holds_table(
            x / PAGE_SIZE as int,
        ) && !a.holds_table(x / PAGE_SIZE as int)
}

proof fn lemma_grew_trans(
    a: &PhysicalMemory,
    b: &PhysicalMemory,
    c: &PhysicalMemory,
    pa: &BitmapAllocator,
    pb: &BitmapAllocator,
    pc: &BitmapAllocator,
)
    requires
        grew(a, b, pa, pb),
        grew(b, c, pb, pc),
        forall|h: int| #[trigger] c.holds_table(h) ==> 0 <= h < c.frame_count(),
    ensures
        grew(a, c, pa, pc),
{
    lemma_linked_trans(a, b, c);
    pa.lemma_only_took_trans(pb, pc);
    assert forall|x: int| a.holds_table(x) implies b.holds_table(x) && c.holds_table(x) by {
        assert(a.is_table(x, a.level(x)));
        assert(b.is_table(x, a.level(x)));
    }
    assert forall|x: int| b.holds_table(x) implies c.holds_table(x) by {
        assert(b.is_table(x, b.level(x)));
    }
    assert forall|g: int, l: int| #[trigger] a.is_table(g, l) implies c.is_table(g, l) by {
        assert(b.is_table(g, l));
    }
    assert forall|h: int|
        #![trigger c.tables()[h]]
        c.holds_table(h) && !a.holds_table(h) implies pa.is_free(h * PAGE_SIZE) by {
        if !b.holds_table(h) {
            assert(pb.is_free(h * PAGE_SIZE));
        }
    }
}

/// Maps the page at `virtual_addr` to the frame at `physical_addr`,
/// creating the missing tables on the way. `false` means that no frame was
/// left for a table.
pub fn map(
    mem: &mut PhysicalMemory,
    pmm: &mut BitmapAllocator,
    pml4: VirtualAddress,
    virtual_addr: VirtualAddress,
    physical_addr: PhysicalAddress,
    flags: VirtualMemoryFlags,
) -> (r: bool)
    requires
        old(mem).wf(),
        old(pmm).wf(),
        consistent(old(mem), old(pmm)),
        old(mem).valid_table_address(pml4@, 4),
        virtual_addr@ % PAGE_SIZE == 0,
        physical_addr@ % PAGE_SIZE == 0,
        physical_addr@ < old(mem).frame_count() * PAGE_SIZE,
    ensures
        final(mem).wf(),
        final(pmm).wf(),
        consistent(final(mem), final(pmm)),
        tables_kept(old(mem), final(mem)),
        present_entries_kept(old(mem), final(mem)),
        final(mem).words() == old(mem).words(),
        final(pmm).entries() == old(pmm).entries(),
        forall|g: int| final(pmm).is_free(g) ==> old(pmm).is_free(g),
        old(pmm).only_took(final(pmm)),
        old(pmm).free_frames() >= 3 ==> r,
        final(pmm).free_frames() >= old(pmm).free_frames() - 3,
        !r ==> final(pmm).free_frames() == 0,
        changed_only_for(old(mem), final(mem), old(mem).frame_of(pml4@), virtual_addr@),
        forall|h: int|
            #![trigger final(mem).tables()[h]]
            final(mem).holds_table(h) && !old(mem).holds_table(h) ==> old(pmm).is_free(h * PAGE_SIZE),
        forall|x: int|
            old(pmm).is_free(x) && !final(pmm).is_free(x) ==> x % PAGE_SIZE as int == 0
                && final(mem).holds_table(x / PAGE_SIZE as int) && !old(mem).holds_table(x / PAGE_SIZE as int),
        r ==> final(mem).translate(old(mem).frame_of(pml4@), virtual_addr@) == Some(
            physical_addr@ as int,
        ),
        r ==> final(mem).entry(
            final(mem).leaf_table(old(mem).frame_of(pml4@), virtual_addr@),
            table_index(virtual_addr@, 1),
        ) == entry_for(physical_addr@, flags),
        !r ==> forall|k: int| 0 <= k < final(pmm).entries().len() ==> !final(pmm).available(k),
        old(mem).walk_complete(old(mem).frame_of(pml4@), virtual_addr@) ==> r
            && final(pmm).bitmaps() == old(pmm).bitmaps() && final(mem).tables() == set_leaf(
            old(mem),
            old(mem).frame_of(pml4@),
            virtual_addr@,
            entry_for(physical_addr@, flags),
        ),
{
    let ghost root = mem.frame_of(pml4@);
    let ghost m0 = *mem;
    let ghost p0 = *pmm;
    let (pml4_index, pml3_index, pml2_index, pml1_index) = virtual_addr.get_indexes();
    let pml3 = match mem.get_next_level(pmm, pml4, pml4_index, flags, true) {
        Some(t) => t,
        None => {
            return false;
        },
    };
    let ghost m1 = *mem;
    let ghost p1 = *pmm;
    let ghost f3 = m1.frame_of(pml3@);
    let pml2 = match mem.get_next_level(pmm, pml3, pml3_index, flags, true) {
        Some(t) => t,
        None => {
            proof {
                lemma_present_kept_trans(&m0, &m1, mem);
                lemma_grew_trans(&m0, &m1, mem, &p0, &p1, pmm);
                assert(changed_only_for(&m0, mem, root, virtual_addr@));
            }
            return false;
        },
    };
    let ghost m2 = *mem;
    let ghost p2 = *pmm;
    let ghost f2 = m2.frame_of(pml2@);
    let pml1 = match mem.get_next_level(pmm, pml2, pml2_index, flags, true) {
        Some(t) => t,
        None => {
            proof {
                lemma_present_kept_trans(&m0, &m1, &m2);
                lemma_present_kept_trans(&m0, &m2, mem);
                lemma_grew_trans(&m0, &m1, &m2, &p0, &p1, &p2);
                lemma_grew_trans(&m0, &m2, mem, &p0, &p2, pmm);
                assert(changed_only_for(&m0, mem, root, virtual_addr@));
            }
            return false;
        },
    };
    let ghost m3 = *mem;
    let ghost p3 = *pmm;
    let ghost f1 = m3.frame_of(pml1@);
    let entry = set_flags(physical_addr, flags);
    let fu = (pml1.as_addr() - mem.hhdm_offset) / PAGE_SIZE;
    let n = mem.tables.len();
    assert(fu < n);
    let f = fu as usize;
    assert(f == f1);
    mem.write_entry(f, pml1_index, entry);
    proof {
        assert(m0.is_table(root, 4));
        assert(m1.is_table(root, 4));
        assert(m2.is_table(root, 4) && m2.is_table(f3, 3));
        assert(m3.is_table(root, 4) && m3.is_table(f3, 3) && m3.is_table(f2, 2));
        assert(mem.is_table(root, 4) && mem.is_table(f3, 3) && mem.is_table(f2, 2) && mem.is_table(f1, 1));
        assert(m1.holds_table(root));
        assert(m2.entry(root, pml4_index as int) == m1.entry(root, pml4_index as int));
        assert(m3.entry(root, pml4_index as int) == m2.entry(root, pml4_index as int));
        assert(m2.holds_table(f3));
        assert(m3.entry(f3, pml3_index as int) == m2.entry(f3, pml3_index as int));
        assert(mem.entry(root, pml4_index as int) == m3.entry(root, pml4_index as int));
        assert(mem.entry(f3, pml3_index as int) == m3.entry(f3, pml3_index as int));
        assert(mem.entry(f2, pml2_index as int) == m3.entry(f2, pml2_index as int));
        assert(mem.entry(f1, pml1_index as int) == entry);
        assert(mem.next_table(root, virtual_addr@) == f3);
        assert(mem.next_table(f3, virtual_addr@) == f2);
        assert(mem.next_table(f2, virtual_addr@) == f1);
        assert(mem.walk_complete(root, virtual_addr@));
        lemma_page_aligned(physical_addr@);
        assert(target(entry) * PAGE_SIZE == physical_addr@);
        assert forall|h: int, l: int| #[trigger] m3.is_table(h, l) implies mem.is_table(h, l) by {}
        assert forall|h: int|
            #![trigger mem.tables()[h]]
            mem.holds_table(h) implies {
                &&& 1 <= mem.level(h) <= 4
                &&& mem.tables()[h]->0.entries.len() == 512
            } by {
            assert(m3.holds_table(h));
        }
        assert forall|h: int, j: int|
            #![trigger mem.entry(h, j)]
            mem.holds_table(h) && 0 <= j < 512 && present(mem.entry(h, j)) implies {
                &&& target(mem.entry(h, j)) < mem.frame_count()
                &&& mem.level(h) > 1 ==> mem.is_table(target(mem.entry(h, j)), mem.level(h) - 1)
            } by {
            assert(m3.holds_table(h));
            if !(h == f1 && j == pml1_index) {
                assert(mem.entry(h, j) == m3.entry(h, j));
            } else {
                assert(target(entry) < mem.frame_count());
            }
        }
        assert forall|h: int| #[trigger] mem.holds_table(h) implies !pmm.is_free(h * PAGE_SIZE) by {
            assert(m3.holds_table(h));
        }
        assert forall|g: int, j: int|
            m3.holds_table(g) && 0 <= j < 512 && present(m3.entry(g, j)) implies {
                ||| #[trigger] mem.entry(g, j) == m3.entry(g, j)
                ||| m3.level(g) == 1 && present(mem.entry(g, j))
            } by {
            if !(g == f1 && j == pml1_index) {
                assert(mem.entry(g, j) == m3.entry(g, j));
            }
        }
        lemma_present_kept_trans(&m0, &m1, &m2);
        lemma_present_kept_trans(&m0, &m2, &m3);
        lemma_present_kept_trans(&m0, &m3, mem);
        lemma_grew_trans(&m0, &m1, &m2, &p0, &p1, &p2);
        lemma_grew_trans(&m0, &m2, &m3, &p0, &p2, &p3);
        assert forall|x: int| m3.holds_table(x) <==> mem.holds_table(x) by {}
        assert forall|g: int, j: int|
            #![trigger mem.entry(g, j)]
            mem.holds_table(g) && mem.level(g) > 1 && 0 <= j < 512 && present(mem.entry(g, j)) implies m3.holds_table(g)
                && m3.level(g) == mem.level(g) && m3.entry(g, j) == mem.entry(g, j) by {
            assert(g != f1);
        }
        lemma_tree_kept(&m3, mem);
        assert forall|g: int, j: int|
            mem.holds_table(g) && 0 <= j < 512 implies {
                ||| #[trigger] mem.entry(g, j) == entry_before(&m0, g, j)
                ||| links_new_table(&m0, mem, g, j)
                ||| g == mem.leaf_table(root, virtual_addr@) && j == table_index(virtual_addr@, 1)
            } by {
            if !(g == f1 && j == pml1_index) {
                assert(mem.entry(g, j) == m3.entry(g, j));
                assert(m3.entry(g, j) == entry_before(&m0, g, j) || links_new_table(&m0, &m3, g, j));
            }
        }
        assert forall|h: int|
            #![trigger mem.tables()[h]]
            mem.holds_table(h) && !m0.holds_table(h) implies p0.is_free(h * PAGE_SIZE) by {
            assert(m3.holds_table(h));
        }
        if m0.walk_complete(root, virtual_addr@) {
            assert(m3.tables() == m0.tables());
            assert(f3 == m0.next_table(root, virtual_addr@));
            assert(f1 == m0.leaf_table(root, virtual_addr@));
            assert(mem.tables() =~= set_leaf(&m0, root, virtual_addr@, entry_for(physical_addr@, flags)));
        }
    }
    true
}


/// Removes the mapping of the page at `virtual_addr` and gives its frame back
/// to the frame allocator.
pub fn unmap(
    mem: &mut PhysicalMemory,
    pmm: &mut BitmapAllocator,
    pml4: VirtualAddress,
    virtual_addr: VirtualAddress,
    physical_addr: PhysicalAddress,
)
    requires
        old(mem).wf(),
        old(pmm).wf(),
        consistent(old(mem), old(pmm)),
        old(mem).valid_table_address(pml4@, 4),
        virtual_addr@ % PAGE_SIZE == 0,
        physical_addr@ % PAGE_SIZE == 0,
        old(mem).translate(old(mem).frame_of(pml4@), virtual_addr@) is Some,
        old(pmm).is_allocated(
            old(mem).translate(old(mem).frame_of(pml4@), virtual_addr@)->0,
        ),
        !old(mem).holds_table(
            old(mem).translate(old(mem).frame_of(pml4@), virtual_addr@)->0 / PAGE_SIZE as int,
        ),
    ensures
        final(mem).wf(),
        final(pmm).wf(),
        consistent(final(mem), final(pmm)),
        tables_kept(old(mem), final(mem)),
        final(mem).words() == old(mem).words(),
        final(pmm).entries() == old(pmm).entries(),
        final(mem).tables() == set_leaf(old(mem), old(mem).frame_of(pml4@), virtual_addr@, 0),
        final(mem).translate(old(mem).frame_of(pml4@), virtual_addr@) is None,
        final(pmm).free_frames() == old(pmm).free_frames() + 1,
        forall|g: int| #[trigger]
            final(pmm).is_free(g) <==> (old(pmm).is_free(g) || g == old(mem).translate(
                old(mem).frame_of(pml4@),
                virtual_addr@,
            )->0),
{
    let ghost root = mem.frame_of(pml4@);
    let flags = VirtualMemoryFlags::empty();
    let (pml4_index, pml3_index, pml2_index, pml1_index) = virtual_addr.get_indexes();
    let pml3 = match mem.get_next_level(pmm, pml4, pml4_index, flags, false) {
        Some(t) => t,
        None => {
            return ;
        },
    };
    let pml2 = match mem.get_next_level(pmm, pml3, pml3_index, flags, false) {
        Some(t) => t,
        None => {
            return ;
        },
    };
    let pml1 = match mem.get_next_level(pmm, pml2, pml2_index, flags, false) {
        Some(t) => t,
        None => {
            return ;
        },
    };
    let ghost m = *mem;
    assert(m.tables() == old(mem).tables());
    let fu = (pml1.as_addr() - mem.hhdm_offset) / PAGE_SIZE;
    let n = mem.tables.len();
    assert(fu < n);
    let f = fu as usize;
    assert(f == old(mem).leaf_table(root, virtual_addr@));
    let entry = mem.read_entry(f, pml1_index);
    proof {
        lemma_masked(entry);
    }
    let addr = entry & PTE_ADDRESS_MASK;
    assert(addr as int == old(mem).translate(root, virtual_addr@)->0);
    pmm.free_page(PhysicalAddress::new(addr));
    mem.write_entry(f, pml1_index, 0);
    proof {
        assert(0u64 & 1u64 == 0u64) by (bit_vector);
        assert(mem.tables() =~= set_leaf(old(mem), root, virtual_addr@, 0));
        assert forall|h: int, l: int| #[trigger] old(mem).is_table(h, l) implies mem.is_table(h, l) by {}
        assert forall|h: int|
            #![trigger mem.tables()[h]]
            mem.holds_table(h) implies {
                &&& 1 <= mem.level(h) <= 4
                &&& mem.tables()[h]->0.entries.len() == 512
            } by {
            assert(old(mem).holds_table(h));
        }
        assert forall|h: int, j: int|
            #![trigger mem.entry(h, j)]
            mem.holds_table(h) && 0 <= j < 512 && present(mem.entry(h, j)) implies {
                &&& target(mem.entry(h, j)) < mem.frame_count()
                &&& mem.level(h) > 1 ==> mem.is_table(target(mem.entry(h, j)), mem.level(h) - 1)
            } by {
            assert(old(mem).holds_table(h));
            assert(mem.entry(h, j) == old(mem).entry(h, j));
        }
        assert forall|h: int| #[trigger] mem.holds_table(h) implies !pmm.is_free(h * PAGE_SIZE) by {
            assert(old(mem).holds_table(h));
            assert(!old(pmm).is_free(h * PAGE_SIZE));
            if h * PAGE_SIZE == addr {
                assert(h == addr as int / PAGE_SIZE as int);
            }
        }
        assert forall|k: int|
            0 <= k < pmm.entries().len() && pmm.usable(k) implies pmm.entries()[k].base
                + pmm.entries()[k].len <= mem.frame_count() * PAGE_SIZE by {
            assert(old(pmm).usable(k));
        }
        assert(mem.next_table(root, virtual_addr@) == old(mem).next_table(root, virtual_addr@));
        assert(mem.leaf_table(root, virtual_addr@) == f);
        assert forall|g: int, j: int|
            #![trigger mem.entry(g, j)]
            mem.holds_table(g) && mem.level(g) > 1 && 0 <= j < 512 && present(mem.entry(g, j)) implies old(mem).holds_table(g)
                && old(mem).level(g) == mem.level(g) && old(mem).entry(g, j) == mem.entry(g, j) by {
            assert(old(mem).holds_table(g));
            assert(mem.entry(g, j) == old(mem).entry(g, j));
        }
        lemma_tree_kept(old(mem), mem);
    }
}

impl PhysicalMemory {
    /// The physical address that `virtual_addr` translates to through the
    /// tables at `pml4`, or `None` where an entry on the walk is absent.
    pub fn translate_address(&self, pml4: VirtualAddress, virtual_addr: VirtualAddress) -> (r:
        Option<PhysicalAddress>)
        requires
            self.wf(),
            self.valid_table_address(pml4@, 4),
        ensures
            match self.translate(self.frame_of(pml4@), virtual_addr@) {
                Some(p) => r is Some && r->0@ == p,
                None => r is None,
            },
    {
        let ghost root = self.frame_of(pml4@);
        let (i4, i3, i2, i1) = virtual_addr.get_indexes();
        let n = self.tables.len();
        let fu = (pml4.as_addr() - self.hhdm_offset) / PAGE_SIZE;
        assert(fu < n);
        let f4 = fu as usize;
        let e4 = self.read_entry(f4, i4);
        if e4 & PTE_PRESENT != PTE_PRESENT {
            return None;
        }
        proof { lemma_masked(e4); }
        let f3 = ((e4 & PTE_ADDRESS_MASK) / PAGE_SIZE) as usize;
        assert(self.is_table(f3 as int, 3));
        let e3 = self.read_entry(f3, i3);
        if e3 & PTE_PRESENT != PTE_PRESENT {
            return None;
        }
        proof { lemma_masked(e3); }
        let f2 = ((e3 & PTE_ADDRESS_MASK) / PAGE_SIZE) as usize;
        assert(self.is_table(f2 as int, 2));
        let e2 = self.read_entry(f2, i2);
        if e2 & PTE_PRESENT != PTE_PRESENT {
            return None;
        }
        proof { lemma_masked(e2); }
        let f1 = ((e2 & PTE_ADDRESS_MASK) / PAGE_SIZE) as usize;
        assert(self.is_table(f1 as int, 1));
        let e1 = self.read_entry(f1, i1);
        if e1 & PTE_PRESENT != PTE_PRESENT {
            return None;
        }
        proof { lemma_masked(e1); }
        assert(target(e1) < self.frame_count());
        let offset = virtual_addr.as_addr() % PAGE_SIZE;
        Some(PhysicalAddress::new((e1 & PTE_ADDRESS_MASK) + offset))
    }

    proof fn lemma_translate_in_bounds(&self, root: int, v: u64)
        requires
            self.wf(),
            self.is_table(root, 4),
            self.translate(root, v) is Some,
        ensures
            0 <= self.translate(root, v)->0 < self.frame_count() * PAGE_SIZE,
            0 <= self.translate(root, v)->0 / 8 < self.words().len(),
    {
        lemma_index_bound(v, 39);
        lemma_index_bound(v, 30);
        lemma_index_bound(v, 21);
        lemma_index_bound(v, 12);
        let f3 = self.next_table(root, v);
        assert(present(self.entry(root, table_index(v, 4))));
        let f2 = self.next_table(f3, v);
        assert(self.is_table(f3, 3));
        assert(present(self.entry(f3, table_index(v, 3))));
        let f1 = self.next_table(f2, v);
        assert(self.is_table(f2, 2));
        assert(present(self.entry(f2, table_index(v, 2))));
        assert(self.is_table(f1, 1));
        assert(present(self.entry(f1, table_index(v, 1))));
        let t = target(self.entry(f1, table_index(v, 1)));
        assert(t < self.frame_count());
        let p = self.translate(root, v)->0;
        assert(p < self.frame_count() * PAGE_SIZE) by (nonlinear_arith)
            requires
                p == t * 4096 + v % 4096,
                0 <= t < self.frame_count(),
                PAGE_SIZE == 4096,
        ;
    }

    proof fn lemma_wf_same_tables(&self, other: &Self)
        requires
            other.wf(),
            self.tables() == other.tables(),
            self.frame_count() == other.frame_count(),
            self.words().len() == other.words().len(),
            self.hhdm() == other.hhdm(),
        ensures
            self.wf(),
    {
        assert forall|h: int|
            #![trigger self.tables()[h]]
            self.holds_table(h) implies {
                &&& 1 <= self.level(h) <= 4
                &&& self.tables()[h]->0.entries.len() == 512
            } by {
            assert(other.holds_table(h));
        }
        assert forall|h: int, j: int|
            #![trigger self.entry(h, j)]
            self.holds_table(h) && 0 <= j < 512 && present(self.entry(h, j)) implies {
                &&& target(self.entry(h, j)) < self.frame_count()
                &&& self.level(h) > 1 ==> self.is_table(target(self.entry(h, j)), self.level(h) - 1)
            } by {
            assert(other.holds_table(h));
            assert(self.entry(h, j) == other.entry(h, j));
        }
        lemma_tree_kept(other, self);
    }

    /// Reads the word at `virtual_addr`; `None` is a page fault.
    pub fn read_u64(&self, pml4: VirtualAddress, virtual_addr: VirtualAddress) -> (r: Option<u64>)
        requires
            self.wf(),
            self.valid_table_address(pml4@, 4),
            virtual_addr@ % 8 == 0,
        ensures
            r == self.read_spec(self.frame_of(pml4@), virtual_addr@),
    {
        match self.translate_address(pml4, virtual_addr) {
            Some(p) => {
                proof {
                    self.lemma_translate_in_bounds(self.frame_of(pml4@), virtual_addr@);
                }
                let n = self.data.len();
                let wu = p.as_addr() / 8;
                assert(wu < n);
                let w = wu as usize;
                Some(self.data[w])
            },
            None => None,
        }
    }

    /// Writes `value` at `virtual_addr`; `false` is a page fault. A read at
    /// the same address then returns `value`.
    pub fn write_u64(&mut self, pml4: VirtualAddress, virtual_addr: VirtualAddress, value: u64) -> (r: bool)
        requires
            old(self).wf(),
            old(self).valid_table_address(pml4@, 4),
            virtual_addr@ % 8 == 0,
        ensures
            final(self).wf(),
            final(self).tables() == old(self).tables(),
            final(self).hhdm() == old(self).hhdm(),
            final(self).frame_count() == old(self).frame_count(),
            r == old(self).translate(old(self).frame_of(pml4@), virtual_addr@) is Some,
            r ==> final(self).words() == old(self).words().update(
                old(self).translate(old(self).frame_of(pml4@), virtual_addr@)->0 / 8,
                value,
            ),
            !r ==> final(self).words() == old(self).words(),
            r ==> final(self).read_spec(old(self).frame_of(pml4@), virtual_addr@) == Some(value),
    {
        match self.translate_address(pml4, virtual_addr) {
            Some(p) => {
                proof {
                    self.lemma_translate_in_bounds(self.frame_of(pml4@), virtual_addr@);
                }
                let n = self.data.len();
                let wu = p.as_addr() / 8;
                assert(wu < n);
                let w = wu as usize;
                self.data.set(w, value);
                assert(self.tables() == old(self).tables());
                proof {
                    self.lemma_wf_same_tables(old(self));
                }
                true
            },
            None => false,
        }
    }
}

/// A fresh, empty top-level table, or `None` when no frame is left.
pub fn new_pagemap(mem: &mut PhysicalMemory, pmm: &mut BitmapAllocator) -> (r: Option<VirtualAddress>)
    requires
        old(mem).wf(),
        old(pmm).wf(),
        consistent(old(mem), old(pmm)),
    ensures
        final(mem).wf(),
        final(pmm).wf(),
        consistent(final(mem), final(pmm)),
        tables_kept(old(mem), final(mem)),
        final(mem).words() == old(mem).words(),
        final(pmm).entries() == old(pmm).entries(),
        forall|g: int| final(pmm).is_free(g) ==> old(pmm).is_free(g),
        match r {
            Some(t) => final(mem).valid_table_address(t@, 4) && forall|v: u64|
                final(mem).translate(final(mem).frame_of(t@), v) is None,
            None => forall|k: int| 0 <= k < old(pmm).entries().len() ==> !old(pmm).available(k),
        },
        r.is_none() <==> old(pmm).free_frames() == 0,
        r.is_some() ==> final(pmm).free_frames() == old(pmm).free_frames() - 1,
        old(pmm).only_took(final(pmm)),
        r.is_none() ==> *final(pmm) == *old(pmm) && *final(mem) == *old(mem),
{
    let page = match pmm.allocate_page() {
        Some(p) => p,
        None => {
            return None;
        },
    };
    let ghost g: int = page@ as int / PAGE_SIZE as int;
    proof {
        let k = choose|k: int|
            0 <= k < old(pmm).entries().len() && old(pmm).usable(k)
                && old(pmm).entries()[k].base <= page@ && page@ + PAGE_SIZE
                <= old(pmm).entries()[k].base + old(pmm).entries()[k].len;
        assert(page@ + PAGE_SIZE <= mem.frame_count() * PAGE_SIZE);
        assert(g * PAGE_SIZE == page@);
        if mem.holds_table(g) {
            assert(!old(pmm).is_free(g * PAGE_SIZE));
        }
    }
    let n = mem.tables.len();
    let gu = page.as_addr() / PAGE_SIZE;
    assert(gu < n);
    mem.install_table(gu as usize, 4);
    proof {
        assert(0u64 & 1u64 == 0u64) by (bit_vector);
        assert forall|h: int, l: int| #[trigger] old(mem).is_table(h, l) implies mem.is_table(h, l) by {}
        assert forall|h: int|
            #![trigger mem.tables()[h]]
            mem.holds_table(h) implies {
                &&& 1 <= mem.level(h) <= 4
                &&& mem.tables()[h]->0.entries.len() == 512
            } by {
            if h != g {
                assert(old(mem).holds_table(h));
            }
        }
        assert forall|h: int, j: int|
            #![trigger mem.entry(h, j)]
            mem.holds_table(h) && 0 <= j < 512 && present(mem.entry(h, j)) implies {
                &&& target(mem.entry(h, j)) < mem.frame_count()
                &&& mem.level(h) > 1 ==> mem.is_table(target(mem.entry(h, j)), mem.level(h) - 1)
            } by {
            if h != g {
                assert(old(mem).holds_table(h));
                assert(mem.entry(h, j) == old(mem).entry(h, j));
            }
        }
        assert forall|h: int| #[trigger] mem.holds_table(h) implies !pmm.is_free(h * PAGE_SIZE) by {
            if h != g {
                assert(old(mem).holds_table(h));
            }
        }
        assert forall|k: int|
            0 <= k < pmm.entries().len() && pmm.usable(k) implies pmm.entries()[k].base
                + pmm.entries()[k].len <= mem.frame_count() * PAGE_SIZE by {
            assert(old(pmm).usable(k));
        }
    }
    let t = VirtualAddress::new(page.as_addr() + mem.hhdm_offset);
    proof {
        assert(mem.frame_of(t@) == g);
        assert forall|v: u64| mem.translate(mem.frame_of(t@), v) is None by {
            lemma_index_bound(v, 39);
            assert(mem.entry(g, table_index(v, 4)) == 0);
        }
        assert forall|h: int, j: int|
            #![trigger mem.entry(h, j)]
            mem.holds_table(h) && mem.level(h) > 1 && 0 <= j < 512 && present(mem.entry(h, j)) implies old(mem).holds_table(h)
                && old(mem).level(h) == mem.level(h) && old(mem).entry(h, j) == mem.entry(h, j) by {
            if h == g {
                assert(mem.entry(h, j) == 0);
                assert(0u64 & 1u64 == 0u64) by (bit_vector);
            } else {
                assert(old(mem).holds_table(h));
            }
        }
        lemma_tree_kept(old(mem), mem);
    }
    Some(t)
}


/// Mapping a page, unmapping it and mapping it again with the same entry
/// leaves the tables exactly as after the first mapping: the unmapping keeps
/// every table on the walk, so the second mapping allocates nothing and only
/// restores the one entry that the unmapping cleared.
pub proof fn lemma_map_unmap_map(
    m1: &PhysicalMemory,
    m2: &PhysicalMemory,
    m3: &PhysicalMemory,
    root: int,
    v: u64,
    e: u64,
)
    requires
        m1.wf(),
        m1.is_table(root, 4),
        m1.translate(root, v) is Some,
        m1.entry(m1.leaf_table(root, v), table_index(v, 1)) == e,
        m2.frame_count() == m1.frame_count(),
        m2.tables() == set_leaf(m1, root, v, 0),
        m3.tables() == set_leaf(m2, root, v, e),
    ensures
        m2.walk_complete(root, v),
        m3.tables() == m1.tables(),
{
    lemma_index_bound(v, 39);
    lemma_index_bound(v, 30);
    lemma_index_bound(v, 21);
    lemma_index_bound(v, 12);
    let f3 = m1.next_table(root, v);
    assert(present(m1.entry(root, table_index(v, 4))));
    assert(m1.is_table(f3, 3));
    let f2 = m1.next_table(f3, v);
    assert(present(m1.entry(f3, table_index(v, 3))));
    assert(m1.is_table(f2, 2));
    let f1 = m1.next_table(f2, v);
    assert(present(m1.entry(f2, table_index(v, 2))));
    assert(m1.is_table(f1, 1));
    assert(m2.entry(root, table_index(v, 4)) == m1.entry(root, table_index(v, 4)));
    assert(m2.entry(f3, table_index(v, 3)) == m1.entry(f3, table_index(v, 3)));
    assert(m2.entry(f2, table_index(v, 2)) == m1.entry(f2, table_index(v, 2)));
    assert(m2.leaf_table(root, v) == f1);
    assert(m2.walk_complete(root, v));
    assert(m1.tables()[f1]->0.entries.update(table_index(v, 1), 0).update(table_index(v, 1), e)
        =~= m1.tables()[f1]->0.entries);
    assert(m3.tables() =~= m1.tables());
}

} // verus!
