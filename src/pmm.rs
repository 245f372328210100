//! The frame allocator: one bitmap per usable region of the firmware memory
//! map, searched region by region.
use vstd::prelude::*;

use crate::address::{PhysicalAddress, PAGE_SIZE};
use crate::bitmap::Bitmap;

verus! {

/// The kind of a memory-map entry, as the firmware reports it.
#[derive(Clone, Copy, PartialEq, Eq, Structural, Debug)]
pub enum MemoryMapEntryType {
    Usable,
    Reserved,
    AcpiReclaimable,
    AcpiNvs,
    BadMemory,
    BootloaderReclaimable,
    KernelAndModules,
    Framebuffer,
}

/// One entry of the firmware memory map.
#[derive(Clone, Copy, PartialEq, Eq, Structural, Debug)]
pub struct MemmapEntry {
    pub base: u64,
    pub len: u64,
    pub typ: MemoryMapEntryType,
}

/// Hands out and takes back 4 KiB physical frames.
pub struct BitmapAllocator {
    entries: Vec<MemmapEntry>,
    bitmaps: Vec<Bitmap>,
}

/// The entries that a frame allocator can be built from: usable entries are
/// page-aligned, do not wrap around, and do not overlap.
pub open spec fn valid_memory_map(entries: Seq<MemmapEntry>) -> bool {
    &&& forall|k: int|
        0 <= k < entries.len() && entries[k].typ == MemoryMapEntryType::Usable ==> {
            &&& entries[k].base % PAGE_SIZE == 0
            &&& entries[k].base + entries[k].len <= u64::MAX
        }
    &&& forall|k: int, j: int|
        0 <= k < entries.len() && 0 <= j < entries.len() && k != j && entries[k].typ
            == MemoryMapEntryType::Usable && entries[j].typ == MemoryMapEntryType::Usable ==> (
        entries[k].base + entries[k].len <= entries[j].base || entries[j].base + entries[j].len
            <= entries[k].base)
}


/// Free frames among the first `n` regions.
pub open spec fn free_in(entries: Seq<MemmapEntry>, bitmaps: Seq<Bitmap>, n: nat) -> int
    decreases n,
{
    if n == 0 {
        0
    } else {
        free_in(entries, bitmaps, (n - 1) as nat) + if entries[n - 1].typ == MemoryMapEntryType::Usable {
            bitmaps[n - 1].total_pages - bitmaps[n - 1].used_pages
        } else {
            0
        }
    }
}

proof fn lemma_free_in_zero(entries: Seq<MemmapEntry>, bitmaps: Seq<Bitmap>, n: nat)
    requires
        n <= bitmaps.len(),
        n <= entries.len(),
        forall|k: int| 0 <= k < n ==> #[trigger] bitmaps[k].used_pages <= bitmaps[k].total_pages,
    ensures
        free_in(entries, bitmaps, n) >= 0,
        free_in(entries, bitmaps, n) == 0 <==> forall|k: int|
            0 <= k < n && entries[k].typ == MemoryMapEntryType::Usable ==> bitmaps[k].used_pages
                >= bitmaps[k].total_pages,
    decreases n,
{
    if n > 0 {
        lemma_free_in_zero(entries, bitmaps, (n - 1) as nat);
        assert(bitmaps[n - 1].used_pages <= bitmaps[n - 1].total_pages);
    }
}

proof fn lemma_free_in_update(entries: Seq<MemmapEntry>, bitmaps: Seq<Bitmap>, k: int, b: Bitmap, n: nat)
    requires
        0 <= k < bitmaps.len(),
        n <= bitmaps.len(),
        b.total_pages == bitmaps[k].total_pages,
    ensures
        free_in(entries, bitmaps.update(k, b), n) == free_in(entries, bitmaps, n) - if k < n
            && entries[k].typ == MemoryMapEntryType::Usable {
            b.used_pages - bitmaps[k].used_pages
        } else {
            0
        },
    decreases n,
{
    if n > 0 {
        lemma_free_in_update(entries, bitmaps, k, b, (n - 1) as nat);
    }
}

impl BitmapAllocator {
    pub closed spec fn entries(&self) -> Seq<MemmapEntry> {
        self.entries@
    }

    pub closed spec fn bitmaps(&self) -> Seq<Bitmap> {
        self.bitmaps@
    }

    pub open spec fn usable(&self, k: int) -> bool {
        self.entries()[k].typ == MemoryMapEntryType::Usable
    }

    /// Address of frame `i` of region `k`.
    pub open spec fn frame(&self, k: int, i: int) -> int {
        self.entries()[k].base + i * PAGE_SIZE
    }

    /// Whether region `k` still has a clear bit.
    pub open spec fn available(&self, k: int) -> bool {
        self.usable(k) && self.bitmaps()[k].used_pages < self.bitmaps()[k].total_pages
    }

    pub open spec fn wf(&self) -> bool {
        &&& self.entries().len() == self.bitmaps().len()
        &&& valid_memory_map(self.entries())
        &&& forall|k: int| 0 <= k < self.bitmaps().len() ==> (#[trigger] self.bitmaps()[k]).wf()
        &&& forall|k: int|
            0 <= k < self.bitmaps().len() ==> if self.usable(k) {
                (#[trigger] self.bitmaps()[k]).total_pages == self.entries()[k].len / PAGE_SIZE
            } else {
                self.bitmaps()[k].total_pages == 0
            }
        &&& forall|k: int, i: int|
            0 <= k < self.bitmaps().len() && self.usable(k) && 0 <= i < self.reserved(k) && i
                < self.bitmaps()[k].total_pages ==> #[trigger] self.bitmaps()[k].is_set(i)
    }

    /// Number of frames that the allocator can still hand out.
    pub open spec fn free_frames(&self) -> int {
        free_in(self.entries(), self.bitmaps(), self.bitmaps().len())
    }

    /// `after` differs from this allocator only by frames handed out: no
    /// frame came back, and no region's count of used frames went down.
    pub open spec fn only_took(&self, after: &Self) -> bool {
        &&& after.entries() == self.entries()
        &&& after.bitmaps().len() == self.bitmaps().len()
        &&& forall|k: int|
            0 <= k < self.bitmaps().len() ==> (#[trigger] after.bitmaps()[k]).used_pages
                >= self.bitmaps()[k].used_pages
        &&& forall|g: int| after.is_free(g) ==> self.is_free(g)
        &&& after.free_frames() <= self.free_frames()
    }

    pub proof fn lemma_only_took_trans(&self, b: &Self, c: &Self)
        requires
            self.only_took(b),
            b.only_took(c),
        ensures
            self.only_took(c),
    {
        assert forall|k: int| 0 <= k < self.bitmaps().len() implies (#[trigger] c.bitmaps()[k]).used_pages
            >= self.bitmaps()[k].used_pages by {
            assert(b.bitmaps()[k].used_pages >= self.bitmaps()[k].used_pages);
        }
    }

    pub proof fn lemma_only_took_refl(&self)
        ensures
            self.only_took(self),
    {
    }

    /// A well-formed allocator has no free frame exactly when no region is
    /// available.
    pub proof fn lemma_free_frames_zero(&self)
        requires
            self.wf(),
        ensures
            self.free_frames() >= 0,
            self.free_frames() == 0 <==> forall|k: int|
                0 <= k < self.entries().len() ==> !self.available(k),
    {
        assert forall|k: int| 0 <= k < self.bitmaps().len() implies #[trigger] self.bitmaps()[k].used_pages
            <= self.bitmaps()[k].total_pages by {
            assert(self.bitmaps()[k].wf());
        }
        lemma_free_in_zero(self.entries(), self.bitmaps(), self.bitmaps().len());
        if self.free_frames() == 0 {
            assert forall|k: int| 0 <= k < self.entries().len() implies !self.available(k) by {
                if self.usable(k) {
                    assert(self.bitmaps()[k].used_pages >= self.bitmaps()[k].total_pages);
                }
            }
        } else {
            if forall|k: int| 0 <= k < self.entries().len() ==> !self.available(k) {
                assert forall|k: int|
                    0 <= k < self.bitmaps().len() && self.entries()[k].typ == MemoryMapEntryType::Usable
                        implies self.bitmaps()[k].used_pages >= self.bitmaps()[k].total_pages by {
                    assert(!self.available(k));
                }
            }
        }
    }

    /// Frames at the start of region `k` that hold its bitmap.
    pub open spec fn reserved(&self, k: int) -> int {
        crate::bitmap::reserved_pages_spec(self.bitmaps()[k].total_pages as int)
    }

    /// Frame `i` of region `k` is `p` and is in use.
    pub open spec fn used_at(&self, k: int, i: int, p: int) -> bool {
        &&& 0 <= k < self.entries().len()
        &&& self.usable(k)
        &&& 0 <= i < self.bitmaps()[k].total_pages
        &&& p == self.frame(k, i)
        &&& self.bitmaps()[k].is_set(i)
    }

    /// Frame `i` of region `k` is `p` and is free.
    pub open spec fn free_at(&self, k: int, i: int, p: int) -> bool {
        &&& 0 <= k < self.entries().len()
        &&& self.usable(k)
        &&& 0 <= i < self.bitmaps()[k].total_pages
        &&& p == self.frame(k, i)
        &&& !self.bitmaps()[k].is_set(i)
    }

    /// Whether `p` is a frame that the allocator may still hand out.
    pub open spec fn is_free(&self, p: int) -> bool {
        exists|k: int, i: int| self.free_at(k, i, p)
    }

    /// Whether `p` is a handed-out frame that may be given back: it is in use
    /// and does not hold its region's bitmap.
    pub open spec fn is_allocated(&self, p: int) -> bool {
        exists|k: int, i: int| self.reserved(k) <= i && self.used_at(k, i, p)
    }

    /// Number of regions, usable or not.
    pub fn entry_count(&self) -> (r: usize)
        ensures
            r == self.entries().len(),
    {
        self.entries.len()
    }

    /// Frames of region `k` that are in use.
    pub fn used_pages(&self, k: usize) -> (r: usize)
        requires
            k < self.bitmaps().len(),
        ensures
            r == self.bitmaps()[k as int].used_pages,
    {
        self.bitmaps[k].used_pages
    }

    /// Frames of region `k` in all.
    pub fn total_pages(&self, k: usize) -> (r: usize)
        requires
            k < self.bitmaps().len(),
        ensures
            r == self.bitmaps()[k as int].total_pages,
    {
        self.bitmaps[k].total_pages
    }

    /// Installs a bitmap in every usable entry of the memory map.
    pub fn new(memmap: Vec<MemmapEntry>) -> (r: Self)
        requires
            valid_memory_map(memmap@),
            forall|k: int|
                0 <= k < memmap@.len() && memmap@[k].typ == MemoryMapEntryType::Usable
                    ==> memmap@[k].len / PAGE_SIZE + 8 <= usize::MAX,
        ensures
            r.wf(),
            r.entries() == memmap@,
            forall|k: int|
                0 <= k < memmap@.len() && r.usable(k) ==> {
                    &&& r.bitmaps()[k].used_pages == crate::bitmap::reserved_pages_spec(
                        r.bitmaps()[k].total_pages as int,
                    )
                    &&& forall|i: int|
                        0 <= i < r.bitmaps()[k].total_pages ==> (r.bitmaps()[k].is_set(i)
                            <==> i < r.bitmaps()[k].used_pages)
                },
    {
        let mut bitmaps: Vec<Bitmap> = Vec::new();
        let mut k: usize = 0;
        while k < memmap.len()
            invariant
                k <= memmap@.len(),
                bitmaps@.len() == k,
                valid_memory_map(memmap@),
                forall|j: int|
                    0 <= j < memmap@.len() && memmap@[j].typ == MemoryMapEntryType::Usable
                        ==> memmap@[j].len / PAGE_SIZE + 8 <= usize::MAX,
                forall|j: int| 0 <= j < k ==> (#[trigger] bitmaps@[j]).wf(),
                forall|j: int|
                    0 <= j < k ==> if memmap@[j].typ == MemoryMapEntryType::Usable {
                        &&& bitmaps@[j].total_pages == memmap@[j].len / PAGE_SIZE
                        &&& bitmaps@[j].used_pages == crate::bitmap::reserved_pages_spec(
                            bitmaps@[j].total_pages as int,
                        )
                        &&& forall|i: int|
                            0 <= i < bitmaps@[j].total_pages ==> (bitmaps@[j].is_set(i) <==> i
                                < bitmaps@[j].used_pages)
                    } else {
                        bitmaps@[j].total_pages == 0
                    },
            decreases memmap@.len() - k,
        {
            let entry = memmap[k];
            let total: u64 = if entry.typ == MemoryMapEntryType::Usable {
                entry.len / PAGE_SIZE
            } else {
                0
            };
            bitmaps.push(Bitmap::install(total as usize));
            k = k + 1;
        }
        BitmapAllocator { entries: memmap, bitmaps }
    }

    /// Takes one free frame: the first region with a clear bit wins, and
    /// within it the next-fit search picks the frame.
    pub fn allocate_page(&mut self) -> (r: Option<PhysicalAddress>)
        requires
            old(self).wf(),
        ensures
            final(self).wf(),
            final(self).entries() == old(self).entries(),
            r.is_none() <==> forall|k: int| 0 <= k < old(self).entries().len() ==> !old(self).available(k),
            r.is_none() ==> *final(self) == *old(self),
            r.is_none() <==> old(self).free_frames() == 0,
            r.is_some() ==> final(self).free_frames() == old(self).free_frames() - 1,
            old(self).only_took(final(self)),
            forall|g: int| r.is_some() && g != r->0@ ==> (#[trigger] final(self).is_free(g) <==> old(self).is_free(g)),
            match r {
                Some(p) => exists|k: int, i: int|
                    {
                        &&& 0 <= k < old(self).entries().len()
                        &&& old(self).available(k)
                        &&& (forall|j: int| 0 <= j < k ==> !old(self).available(j))
                        &&& old(self).bitmaps()[k].next_fit(i)
                        &&& old(self).bitmaps()[k].takes(&final(self).bitmaps()[k], i)
                        &&& p@ == old(self).frame(k, i)
                        &&& final(self).bitmaps() == old(self).bitmaps().update(k, final(self).bitmaps()[k])
                    },
                None => true,
            },
            match r {
                Some(p) => {
                    &&& old(self).is_free(p@ as int)
                    &&& !final(self).is_free(p@ as int)
                    &&& p@ % PAGE_SIZE == 0
                    &&& exists|k: int|
                        0 <= k < old(self).entries().len() && old(self).usable(k)
                            && old(self).entries()[k].base <= p@ && p@ + PAGE_SIZE
                            <= old(self).entries()[k].base + old(self).entries()[k].len
                    &&& forall|g: int| final(self).is_free(g) ==> old(self).is_free(g)
                    &&& forall|g: int| #[trigger] final(self).is_allocated(g) <==> (old(self).is_allocated(g) || g == p@)
                },
                None => true,
            },
    {
        let mut k: usize = 0;
        while k < self.entries.len()
            invariant
                *self == *old(self),
                self.wf(),
                k <= self.entries@.len(),
                forall|j: int| 0 <= j < k ==> !self.available(j),
            decreases self.entries@.len() - k,
        {
            if self.entries[k].typ == MemoryMapEntryType::Usable && !self.bitmaps[k].is_full() {
                let ghost old_bm = self.bitmaps@[k as int];
                let index = self.bitmaps[k].get_free_index();
                match index {
                    Some(i) => {
                        proof {
                            self.lemma_take_frame(old(self), k as int, i as int);
                            old(self).lemma_free_frames_zero();
                        }
                        let base = self.entries[k].base;
                        assert(i < old_bm.total_pages);
                        assert(i * PAGE_SIZE + base <= self.entries@[k as int].len + base) by (nonlinear_arith)
                            requires i < old_bm.total_pages, old_bm.total_pages == self.entries@[k as int].len / PAGE_SIZE;
                        assert(old(self).available(k as int));
                        return Some(PhysicalAddress::new(base + i as u64 * PAGE_SIZE));
                    },
                    None => {
                        assert(false);
                        return None;
                    },
                }
            }
            k = k + 1;
        }
        proof {
            self.lemma_free_frames_zero();
        }
        None
    }

    /// Gives back the frame that holds `addr` to the region that owns it.
    pub fn free_page(&mut self, addr: PhysicalAddress)
        requires
            old(self).wf(),
            old(self).is_allocated(addr@ - addr@ % PAGE_SIZE),
        ensures
            final(self).wf(),
            final(self).entries() == old(self).entries(),
            forall|g: int| #[trigger] final(self).is_free(g) <==> (old(self).is_free(g) || g == addr@ - addr@ % PAGE_SIZE),
            forall|g: int| #[trigger] final(self).is_allocated(g) <==> (old(self).is_allocated(g) && g != addr@ - addr@ % PAGE_SIZE),
            final(self).free_frames() == old(self).free_frames() + 1,
            exists|k: int, i: int|
                {
                    &&& old(self).reserved(k) <= i
                    &&& #[trigger] old(self).used_at(k, i, addr@ - addr@ % PAGE_SIZE)
                    &&& final(self).bitmaps()[k].used_pages == old(self).bitmaps()[k].used_pages - 1
                    &&& final(self).bitmaps()[k].last_index_used == old(self).bitmaps()[k].last_index_used
                    &&& final(self).bitmaps() == old(self).bitmaps().update(k, final(self).bitmaps()[k])
                },
    {
        let a = addr.as_addr();
        let mut k: usize = 0;
        while k < self.entries.len()
            invariant
                *self == *old(self),
                self.wf(),
                k <= self.entries@.len(),
                a == addr@,
                old(self).is_allocated(addr@ - addr@ % PAGE_SIZE),
                forall|j: int, i: int| 0 <= j < k && self.reserved(j) <= i ==> !#[trigger] self.used_at(j, i, a - a % PAGE_SIZE),
            decreases self.entries@.len() - k,
        {
            let entry = self.entries[k];
            let total = self.bitmaps[k].total_pages as u64;
            proof {
                if entry.typ == MemoryMapEntryType::Usable {
                    assert(total * 4096 <= entry.len) by (nonlinear_arith)
                        requires
                            total == entry.len / 4096,
                    ;
                } else {
                    assert(total == 0);
                }
            }
            if entry.typ == MemoryMapEntryType::Usable && entry.base < a && a - entry.base < total * PAGE_SIZE {
                let index = ((a - entry.base) / PAGE_SIZE) as usize;
                proof {
                    self.lemma_owner(k as int, a as int);
                }
                self.bitmaps[k].set_free(index);
                proof {
                    self.lemma_give_back(old(self), k as int, index as int);
                }
                return;
            }
            proof {
                assert forall|i: int| self.reserved(k as int) <= i implies !#[trigger] self.used_at(k as int, i, a - a % PAGE_SIZE) by {
                    if self.used_at(k as int, i, a - a % PAGE_SIZE) {
                        self.lemma_frame_in_entry(k as int, i);
                        assert(self.reserved(k as int) >= 1);
                        assert(i * PAGE_SIZE < self.bitmaps@[k as int].total_pages * PAGE_SIZE) by (nonlinear_arith)
                            requires i < self.bitmaps@[k as int].total_pages;
                        assert(a % PAGE_SIZE < PAGE_SIZE);
                    }
                }
            }
            k = k + 1;
        }
        proof {
            let (kk, ii) = choose|kk: int, ii: int| self.reserved(kk) <= ii && #[trigger] self.used_at(kk, ii, a - a % PAGE_SIZE);
            assert(!self.used_at(kk, ii, a - a % PAGE_SIZE));
        }
    }
    proof fn lemma_frame_in_entry(&self, k: int, i: int)
        requires
            self.wf(),
            0 <= k < self.entries().len(),
            self.usable(k),
            0 <= i < self.bitmaps()[k].total_pages,
        ensures
            self.entries()[k].base <= self.frame(k, i),
            self.frame(k, i) + PAGE_SIZE <= self.entries()[k].base + self.entries()[k].len,
            self.frame(k, i) % (PAGE_SIZE as int) == 0,
    {
        let len = self.entries()[k].len;
        let t = self.bitmaps()[k].total_pages;
        assert(t == len / PAGE_SIZE);
        assert(i * PAGE_SIZE + PAGE_SIZE <= len) by (nonlinear_arith)
            requires
                0 <= i < t,
                t == len / 4096,
                PAGE_SIZE == 4096,
        ;
        assert((self.entries()[k].base + i * 4096) % 4096 == 0) by (nonlinear_arith)
            requires
                self.entries()[k].base % 4096 == 0,
        ;
    }

    /// Frames of two regions, or two frames of one region, coincide only
    /// when they are the same frame of the same region.
    proof fn lemma_frame_unique(&self, k: int, i: int, k2: int, i2: int)
        requires
            self.wf(),
            0 <= k < self.entries().len(),
            self.usable(k),
            0 <= i < self.bitmaps()[k].total_pages,
            0 <= k2 < self.entries().len(),
            self.usable(k2),
            0 <= i2 < self.bitmaps()[k2].total_pages,
            self.frame(k, i) == self.frame(k2, i2),
        ensures
            k == k2,
            i == i2,
    {
        self.lemma_frame_in_entry(k, i);
        self.lemma_frame_in_entry(k2, i2);
    }

    proof fn lemma_take_frame(&self, prev: &Self, k: int, i: int)
        requires
            prev.wf(),
            0 <= k < prev.entries().len(),
            prev.available(k),
            self.entries() == prev.entries(),
            self.bitmaps().len() == prev.bitmaps().len(),
            forall|j: int| 0 <= j < self.bitmaps().len() && j != k ==> self.bitmaps()[j] == prev.bitmaps()[j],
            self.bitmaps()[k].wf(),
            prev.bitmaps()[k].next_fit(i),
            prev.bitmaps()[k].takes(&self.bitmaps()[k], i),
        ensures
            self.wf(),
            self.bitmaps() == prev.bitmaps().update(k, self.bitmaps()[k]),
            prev.is_free(prev.frame(k, i)),
            !self.is_free(prev.frame(k, i)),
            prev.frame(k, i) % (PAGE_SIZE as int) == 0,
            prev.frame(k, i) + PAGE_SIZE <= prev.entries()[k].base + prev.entries()[k].len,
            prev.entries()[k].base <= prev.frame(k, i),
            forall|g: int| self.is_free(g) ==> prev.is_free(g),
            forall|g: int| #[trigger] self.is_allocated(g) <==> (prev.is_allocated(g) || g == prev.frame(k, i)),
            self.free_frames() == prev.free_frames() - 1,
            prev.only_took(self),
            forall|g: int| g != prev.frame(k, i) ==> (#[trigger] self.is_free(g) <==> prev.is_free(g)),
    {
        lemma_free_in_update(prev.entries(), prev.bitmaps(), k, self.bitmaps()[k], prev.bitmaps().len());
        let p = prev.frame(k, i);
        assert(self.bitmaps() =~= prev.bitmaps().update(k, self.bitmaps()[k]));
        assert(i >= prev.reserved(k)) by {
            if i < prev.reserved(k) {
                assert(prev.bitmaps()[k].is_set(i));
            }
        }
        assert forall|j: int| 0 <= j < self.bitmaps().len() implies (#[trigger] self.bitmaps()[j]).wf() by {
            if j != k {
                assert(prev.bitmaps()[j].wf());
            }
        }
        assert forall|j: int, i2: int|
            0 <= j < self.bitmaps().len() && self.usable(j) && 0 <= i2 < self.reserved(j) && i2
                < self.bitmaps()[j].total_pages implies #[trigger] self.bitmaps()[j].is_set(i2) by {
            assert(prev.bitmaps()[j].is_set(i2));
        }
        assert forall|j: int| 0 <= j < self.bitmaps().len() && self.usable(j) implies (#[trigger] self.bitmaps()[j]).total_pages == self.entries()[j].len / PAGE_SIZE by {
            assert(prev.bitmaps()[j].total_pages == prev.entries()[j].len / PAGE_SIZE);
        }
        assert forall|j: int| 0 <= j < self.bitmaps().len() && !self.usable(j) implies (#[trigger] self.bitmaps()[j]).total_pages == 0 by {
            assert(prev.bitmaps()[j].total_pages == 0);
        }
        assert(prev.free_at(k, i, p));
        prev.lemma_frame_in_entry(k, i);
        assert forall|k2: int, i2: int| !self.free_at(k2, i2, p) by {
            if self.free_at(k2, i2, p) {
                prev.lemma_frame_unique(k, i, k2, i2);
            }
        }
        assert forall|g: int| self.is_free(g) implies prev.is_free(g) by {
            let (k2, i2) = choose|k2: int, i2: int| self.free_at(k2, i2, g);
            assert(prev.free_at(k2, i2, g));
        }
        assert forall|g: int| g != p implies (#[trigger] self.is_free(g) <==> prev.is_free(g)) by {
            if prev.is_free(g) {
                let (k2, i2) = choose|k2: int, i2: int| prev.free_at(k2, i2, g);
                assert(self.free_at(k2, i2, g));
            }
        }
        assert forall|g: int| #[trigger] self.is_allocated(g) <==> (prev.is_allocated(g) || g == p) by {
            if self.is_allocated(g) {
                let (k2, i2) = choose|k2: int, i2: int| self.reserved(k2) <= i2 && self.used_at(k2, i2, g);
                if !(k2 == k && i2 == i) {
                    assert(prev.used_at(k2, i2, g));
                }
            }
            if prev.is_allocated(g) {
                let (k2, i2) = choose|k2: int, i2: int| prev.reserved(k2) <= i2 && prev.used_at(k2, i2, g);
                assert(self.used_at(k2, i2, g));
            }
            if g == p {
                assert(self.used_at(k, i, g));
            }
        }
    }

    proof fn lemma_owner(&self, k: int, a: int)
        requires
            self.wf(),
            a >= 0,
            self.is_allocated(a - a % PAGE_SIZE as int),
            0 <= k < self.entries().len(),
            self.usable(k),
            self.entries()[k].base < a,
            a - self.entries()[k].base < self.bitmaps()[k].total_pages * PAGE_SIZE,
        ensures
            self.used_at(k, (a - self.entries()[k].base) / (PAGE_SIZE as int), a - a % PAGE_SIZE as int),
            self.reserved(k) <= (a - self.entries()[k].base) / (PAGE_SIZE as int),
    {
        let fs = a - a % PAGE_SIZE as int;
        let (k2, i2) = choose|k2: int, i2: int| self.reserved(k2) <= i2 && self.used_at(k2, i2, fs);
        self.lemma_frame_in_entry(k2, i2);
        let t = self.bitmaps()[k].total_pages;
        let base = self.entries()[k].base;
        assert(t * PAGE_SIZE <= self.entries()[k].len) by (nonlinear_arith)
            requires
                t == self.entries()[k].len / 4096,
                PAGE_SIZE == 4096,
        ;
        assert(fs <= a < fs + PAGE_SIZE);
        assert(k2 == k);
        assert((a - base) / (PAGE_SIZE as int) == i2) by (nonlinear_arith)
            requires
                fs == base + i2 * 4096,
                fs <= a < fs + 4096,
                PAGE_SIZE == 4096,
        ;
    }

    proof fn lemma_give_back(&self, prev: &Self, k: int, i: int)
        requires
            prev.wf(),
            prev.reserved(k) <= i,
            prev.used_at(k, i, prev.frame(k, i)),
            self.entries() == prev.entries(),
            self.bitmaps().len() == prev.bitmaps().len(),
            forall|j: int| 0 <= j < self.bitmaps().len() && j != k ==> self.bitmaps()[j] == prev.bitmaps()[j],
            self.bitmaps()[k].wf(),
            self.bitmaps()[k].total_pages == prev.bitmaps()[k].total_pages,
            self.bitmaps()[k].used_pages == prev.bitmaps()[k].used_pages - 1,
            !self.bitmaps()[k].is_set(i),
            forall|j: int|
                0 <= j < prev.bitmaps()[k].total_pages && j != i ==> self.bitmaps()[k].is_set(j)
                    == prev.bitmaps()[k].is_set(j),
        ensures
            self.wf(),
            self.bitmaps() == prev.bitmaps().update(k, self.bitmaps()[k]),
            forall|g: int| #[trigger] self.is_free(g) <==> (prev.is_free(g) || g == prev.frame(k, i)),
            forall|g: int| #[trigger] self.is_allocated(g) <==> (prev.is_allocated(g) && g != prev.frame(k, i)),
            self.free_frames() == prev.free_frames() + 1,
    {
        lemma_free_in_update(prev.entries(), prev.bitmaps(), k, self.bitmaps()[k], prev.bitmaps().len());
        let p = prev.frame(k, i);
        assert(self.bitmaps() =~= prev.bitmaps().update(k, self.bitmaps()[k]));
        prev.lemma_frame_in_entry(k, i);
        assert forall|j: int| 0 <= j < self.bitmaps().len() implies (#[trigger] self.bitmaps()[j]).wf() by {
            if j != k {
                assert(prev.bitmaps()[j].wf());
            }
        }
        assert forall|j: int, i2: int|
            0 <= j < self.bitmaps().len() && self.usable(j) && 0 <= i2 < self.reserved(j) && i2
                < self.bitmaps()[j].total_pages implies #[trigger] self.bitmaps()[j].is_set(i2) by {
            assert(prev.bitmaps()[j].is_set(i2));
        }
        assert forall|j: int| 0 <= j < self.bitmaps().len() && self.usable(j) implies (#[trigger] self.bitmaps()[j]).total_pages == self.entries()[j].len / PAGE_SIZE by {
            assert(prev.bitmaps()[j].total_pages == prev.entries()[j].len / PAGE_SIZE);
        }
        assert forall|j: int| 0 <= j < self.bitmaps().len() && !self.usable(j) implies (#[trigger] self.bitmaps()[j]).total_pages == 0 by {
            assert(prev.bitmaps()[j].total_pages == 0);
        }
        assert forall|g: int| #[trigger] self.is_free(g) <==> (prev.is_free(g) || g == p) by {
            if self.is_free(g) {
                let (k2, i2) = choose|k2: int, i2: int| self.free_at(k2, i2, g);
                if !(k2 == k && i2 == i) {
                    assert(prev.free_at(k2, i2, g));
                }
            }
            if prev.is_free(g) {
                let (k2, i2) = choose|k2: int, i2: int| prev.free_at(k2, i2, g);
                assert(self.free_at(k2, i2, g));
            }
            if g == p {
                assert(self.free_at(k, i, g));
            }
        }
        assert forall|g: int| #[trigger] self.is_allocated(g) <==> (prev.is_allocated(g) && g != p) by {
            if self.is_allocated(g) {
                let (k2, i2) = choose|k2: int, i2: int| self.reserved(k2) <= i2 && self.used_at(k2, i2, g);
                assert(prev.used_at(k2, i2, g));
                if g == p {
                    prev.lemma_frame_in_entry(k2, i2);
                    prev.lemma_frame_unique(k, i, k2, i2);
                }
            }
            if prev.is_allocated(g) && g != p {
                let (k2, i2) = choose|k2: int, i2: int| prev.reserved(k2) <= i2 && prev.used_at(k2, i2, g);
                assert(self.used_at(k2, i2, g));
            }
        }
    }
}


/// In a well-formed allocator each region's `used_pages` is the number of
/// its frames marked in use: those handed out and not given back, and those
/// that hold the region's own bitmap. Every allocation and free keeps the
/// allocator well formed and moves the count of one region by one.
pub proof fn lemma_used_pages_counts(pmm: &BitmapAllocator, k: int)
    requires
        pmm.wf(),
        0 <= k < pmm.entries().len(),
    ensures
        pmm.bitmaps()[k].used_pages == crate::bitmap::count_set(
            pmm.bitmaps()[k].data@,
            pmm.bitmaps()[k].total_pages as nat,
        ),
        pmm.bitmaps()[k].used_pages <= pmm.bitmaps()[k].total_pages,
{
    assert(pmm.bitmaps()[k].wf());
}

/// Freeing a frame when every other frame is in use, then allocating, hands
/// the same frame out again: after the free it is the only free frame, and
/// an allocation only hands out a free frame.
pub proof fn lemma_free_then_allocate_returns_it(
    full: &BitmapAllocator,
    freed: &BitmapAllocator,
    phys: int,
    again: int,
)
    requires
        forall|g: int| !full.is_free(g),
        forall|g: int| #[trigger] freed.is_free(g) <==> (full.is_free(g) || g == phys),
        freed.is_free(again),
    ensures
        again == phys,
{
}

} // verus!
