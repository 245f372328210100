//! The kernel heap: an explicit free list of boundary-tagged blocks inside
//! regions obtained from the virtual-memory object manager.
//!
//! A block is a left header, a payload and a right header, the two headers
//! identical. Blocks follow each other without gaps from the start of a
//! region's payload area up to its bump cursor. Free blocks are linked, in
//! the order they were freed, through a list node placed at the start of
//! their payload.
use vstd::prelude::*;

use crate::address::{VirtualAddress, PAGE_SIZE};
use crate::linked_list::{DoublyLinkedList, SinglyLinkedList, SinglyLinkedListNode, LIST_PTR_SIZE};
use crate::utils::align_up_spec;
use crate::vmm::VirtualMemoryManager;

verus! {

/// Size of one block header, in bytes.
pub const HEADER_SIZE: u64 = 8;

/// Size of the free-list node that a free block holds in its payload; no
/// payload is smaller.
pub const FREE_NODE_SIZE: u64 = 16;

/// Largest request, and largest alignment, that the heap serves.
pub const MAX_REQUEST: u64 = 0x8000_0000;

/// Room left above the object manager's cursor below which the heap
/// counts the virtual address space as exhausted.
pub const ADDRESS_HEADROOM: u64 = 0x4_0000_0000;

/// Size of a region's list node and record, placed before its payload.
pub const REGION_HEADER_SIZE: u64 = 40;

/// A block header: payload size in bytes and whether the block is in use.
#[derive(Clone, Copy, PartialEq, Eq, Structural, Debug)]
pub struct BlockHeader {
    pub size: u32,
    pub is_used: bool,
}

/// A block: the address of its left header and both its headers.
#[derive(Clone, Copy, PartialEq, Eq, Structural, Debug)]
pub struct Block {
    pub address: u64,
    pub left: BlockHeader,
    pub right: BlockHeader,
}

/// First byte past the right header of `b`.
pub open spec fn block_end(b: Block) -> int {
    b.address + 2 * HEADER_SIZE + b.left.size
}

/// Address of the payload of `b`, where its free-list node lives.
pub open spec fn payload_of(b: Block) -> int {
    b.address + HEADER_SIZE
}

/// `a` is the free-list node address of a free block of `blocks`.
pub open spec fn free_node_of(blocks: Seq<Block>, a: int) -> bool {
    exists|i: int| 0 <= i < blocks.len() && payload_of(blocks[i]) == a && !blocks[i].left.is_used
}

/// The block whose free-list node is at `a` has payload size `size`.
pub open spec fn size_of_node(blocks: Seq<Block>, a: int, size: u32) -> bool {
    exists|i: int| 0 <= i < blocks.len() && payload_of(blocks[i]) == a && blocks[i].left.size == size
}


/// Payload size of a block made for `size` bytes after `padding` bytes of
/// alignment padding: rounded up to 8 bytes, and no less than a free-list
/// node.
pub open spec fn payload_size_for(size: int, padding: int) -> int {
    let s = align_up_spec(size + padding, 8);
    if s < FREE_NODE_SIZE {
        FREE_NODE_SIZE as int
    } else {
        s
    }
}

/// Bytes between `payload` and the next multiple of `alignment`.
pub open spec fn padding_for(payload: int, alignment: int) -> int {
    align_up_spec(payload, alignment) - payload
}

/// The free block whose node is at `a` can serve `size` bytes aligned to
/// `alignment`.
pub open spec fn node_fits(blocks: Seq<Block>, a: int, size: int, alignment: int) -> bool {
    exists|i: int|
        0 <= i < blocks.len() && payload_of(blocks[i]) == a && blocks[i].left.size >= size
            + padding_for(a, alignment)
}

/// `b` marked used or free in both headers.
pub open spec fn with_used(b: Block, used: bool) -> Block {
    Block {
        address: b.address,
        left: BlockHeader { size: b.left.size, is_used: used },
        right: BlockHeader { size: b.left.size, is_used: used },
    }
}

/// The blocks with positions `lo..=hi` replaced by `merged`.
pub open spec fn merge_window(blocks: Seq<Block>, lo: int, hi: int, merged: Block) -> Seq<Block> {
    blocks.subrange(0, lo).push(merged) + blocks.subrange(hi + 1, blocks.len() as int)
}


/// The payload of `b` holds address `a`.
pub open spec fn payload_holds(b: Block, a: int) -> bool {
    payload_of(b) <= a < payload_of(b) + b.left.size
}

/// The first block of the window that freeing block `i` merges.
pub open spec fn window_lo(blocks: Seq<Block>, i: int) -> int {
    if i > 0 && !blocks[i - 1].left.is_used {
        i - 1
    } else {
        i
    }
}

/// The last block of the window that freeing block `i` merges.
pub open spec fn window_hi(blocks: Seq<Block>, i: int) -> int {
    if i + 1 < blocks.len() && !blocks[i + 1].left.is_used {
        i + 1
    } else {
        i
    }
}

/// Sum of the payload sizes of blocks `lo..=hi`.
pub open spec fn window_sum(blocks: Seq<Block>, lo: int, hi: int) -> int
    decreases hi - lo,
{
    if hi <= lo {
        blocks[lo].left.size as int
    } else {
        window_sum(blocks, lo, hi - 1) + blocks[hi].left.size
    }
}

/// The free block that covers blocks `lo..=hi`: their payloads and the
/// headers between them.
pub open spec fn merged_block(blocks: Seq<Block>, lo: int, hi: int) -> Block {
    let size = (window_sum(blocks, lo, hi) + 2 * HEADER_SIZE * (hi - lo)) as u32;
    Block {
        address: blocks[lo].address,
        left: BlockHeader { size, is_used: false },
        right: BlockHeader { size, is_used: false },
    }
}

proof fn lemma_merge_window_index(blocks: Seq<Block>, lo: int, hi: int, merged: Block, m: int)
    requires
        0 <= lo <= hi < blocks.len(),
        0 <= m < blocks.len() - (hi - lo),
    ensures
        merge_window(blocks, lo, hi, merged).len() == blocks.len() - (hi - lo),
        m < lo ==> merge_window(blocks, lo, hi, merged)[m] == blocks[m],
        m == lo ==> merge_window(blocks, lo, hi, merged)[m] == merged,
        m > lo ==> merge_window(blocks, lo, hi, merged)[m] == blocks[m + (hi - lo)],
{
    let w = merge_window(blocks, lo, hi, merged);
    let a = blocks.subrange(0, lo).push(merged);
    let b = blocks.subrange(hi + 1, blocks.len() as int);
    assert(w == a + b);
    if m > lo {
        assert(w[m] == b[m - lo - 1]);
    } else {
        assert(w[m] == a[m]);
    }
}

proof fn lemma_seq_remove_contains(s: Seq<u64>, k: int, y: u64)
    requires
        s.no_duplicates(),
        0 <= k < s.len(),
    ensures
        s.remove(k).contains(y) <==> (s.contains(y) && y != s[k]),
        s.remove(k).no_duplicates(),
{
    if s.remove(k).contains(y) {
        let m = choose|m: int| 0 <= m < s.remove(k).len() && s.remove(k)[m] == y;
        if m < k {
            assert(s[m] == y);
        } else {
            assert(s[m + 1] == y);
        }
    }
    if s.contains(y) && y != s[k] {
        let m = choose|m: int| 0 <= m < s.len() && s[m] == y;
        if m < k {
            assert(s.remove(k)[m] == y);
        } else {
            assert(s.remove(k)[m - 1] == y);
        }
    }
    assert forall|a: int, b: int| 0 <= a < b < s.remove(k).len() implies s.remove(k)[a] != s.remove(k)[b] by {
        let a2 = if a < k { a } else { a + 1 };
        let b2 = if b < k { b } else { b + 1 };
        assert(s.remove(k)[a] == s[a2]);
        assert(s.remove(k)[b] == s[b2]);
    }
}

proof fn lemma_seq_push_contains(s: Seq<u64>, x: u64, y: u64)
    requires
        s.no_duplicates(),
        !s.contains(x),
    ensures
        s.push(x).contains(y) <==> (s.contains(y) || y == x),
        s.push(x).no_duplicates(),
{
    if s.push(x).contains(y) {
        let m = choose|m: int| 0 <= m < s.push(x).len() && s.push(x)[m] == y;
        if m < s.len() {
            assert(s[m] == y);
        }
    }
    if s.contains(y) {
        let m = choose|m: int| 0 <= m < s.len() && s[m] == y;
        assert(s.push(x)[m] == y);
    }
    if y == x {
        assert(s.push(x)[s.len() as int] == y);
    }
    assert forall|a: int, b: int| 0 <= a < b < s.push(x).len() implies s.push(x)[a] != s.push(x)[b] by {
        if b == s.len() {
            assert(s.contains(s[a]));
        }
    }
}

/// A region of the heap.
pub struct HeapRegion {
    base: u64,
    end: u64,
    total_allocated: u64,
    blocks: Vec<Block>,
    free_blocks: DoublyLinkedList<()>,
}

impl HeapRegion {
    /// Where the first block starts.
    pub closed spec fn payload_start(&self) -> int {
        self.base as int
    }

    /// The end of the region's range.
    pub closed spec fn end_address(&self) -> int {
        self.end as int
    }

    /// Bytes bumped off the payload area so far.
    pub closed spec fn allocated(&self) -> int {
        self.total_allocated as int
    }

    /// The blocks in address order.
    pub closed spec fn blocks(&self) -> Seq<Block> {
        self.blocks@
    }

    /// Free-list node addresses, head first.
    pub closed spec fn free_list(&self) -> Seq<u64> {
        self.free_blocks.addresses()
    }

    /// Where the next bumped block starts.
    pub open spec fn current(&self) -> int {
        self.payload_start() + self.allocated()
    }

    /// Each block is well formed: identical headers, a payload that can hold
    /// a free-list node, sizes in 8-byte steps.
    pub open spec fn block_ok(&self, i: int) -> bool {
        let b = self.blocks()[i];
        &&& b.left == b.right
        &&& b.left.size >= FREE_NODE_SIZE
        &&& b.left.size % 8 == 0
    }

    /// Block `i` ends where block `i + 1` starts.
    pub open spec fn adjacent(&self, i: int) -> bool {
        block_end(self.blocks()[i]) == self.blocks()[i + 1].address
    }

    pub open spec fn wf(&self) -> bool {
        &&& self.payload_start() % 8 == 0
        &&& self.payload_start() <= self.current() <= self.end_address()
        &&& self.end_address() - self.payload_start() <= u32::MAX
        &&& self.end_address() <= u64::MAX - u32::MAX
        &&& forall|i: int| 0 <= i < self.blocks().len() ==> #[trigger] self.block_ok(i)
        &&& forall|i: int| 0 <= i < self.blocks().len() - 1 ==> #[trigger] self.adjacent(i)
        &&& self.blocks().len() == 0 ==> self.allocated() == 0
        &&& self.blocks().len() > 0 ==> self.blocks()[0].address == self.payload_start()
            && block_end(self.blocks().last()) == self.current()
        &&& self.free_list().no_duplicates()
        &&& forall|j: int|
            0 <= j < self.free_list().len() ==> free_node_of(self.blocks(), #[trigger] self.free_list()[j] as int)
        &&& forall|i: int|
            0 <= i < self.blocks().len() && !(#[trigger] self.blocks()[i]).left.is_used
                ==> self.free_list().contains(payload_of(self.blocks()[i]) as u64)
    }

    /// Block addresses increase along the region.
    pub proof fn lemma_ordered(&self, a: int, b: int)
        requires
            self.wf(),
            0 <= a < b < self.blocks().len(),
        ensures
            block_end(self.blocks()[a]) <= self.blocks()[b].address,
            self.blocks()[a].address < self.blocks()[b].address,
        decreases b - a,
    {
        assert(self.adjacent(a));
        assert(self.block_ok(a));
        if b > a + 1 {
            self.lemma_ordered(a + 1, b);
            assert(self.block_ok(a + 1));
        }
    }

    /// Every block lies inside the bumped part of the region.
    pub proof fn lemma_inside(&self, i: int)
        requires
            self.wf(),
            0 <= i < self.blocks().len(),
        ensures
            self.payload_start() <= self.blocks()[i].address,
            block_end(self.blocks()[i]) <= self.current(),
    {
        if i > 0 {
            self.lemma_ordered(0, i);
        }
        if i < self.blocks().len() - 1 {
            self.lemma_ordered(i, self.blocks().len() - 1);
            assert(self.block_ok(self.blocks().len() - 1));
        }
    }

    /// A free-list node belongs to exactly one block.
    pub proof fn lemma_node_unique(&self, i: int, k: int)
        requires
            self.wf(),
            0 <= i < self.blocks().len(),
            0 <= k < self.blocks().len(),
            payload_of(self.blocks()[i]) == payload_of(self.blocks()[k]),
        ensures
            i == k,
    {
        if i < k {
            self.lemma_ordered(i, k);
        } else if k < i {
            self.lemma_ordered(k, i);
        }
    }

    /// A region whose payload area is `[base, end)`, with no block yet.
    pub fn new(base: u64, end: u64) -> (r: Self)
        requires
            base % 8 == 0,
            base <= end,
            end - base <= u32::MAX,
            end <= u64::MAX - u32::MAX,
        ensures
            r.wf(),
            r.payload_start() == base,
            r.end_address() == end,
            r.allocated() == 0,
            r.blocks().len() == 0,
            r.free_list().len() == 0,
    {
        let r = HeapRegion {
            base,
            end,
            total_allocated: 0,
            blocks: Vec::new(),
            free_blocks: DoublyLinkedList::new(),
        };
        assert(r.free_list() =~= Seq::<u64>::empty());
        r
    }

    pub fn get_payload_address(&self) -> (r: VirtualAddress)
        ensures
            r@ == self.payload_start(),
    {
        VirtualAddress::new(self.base)
    }

    pub fn get_end_address(&self) -> (r: VirtualAddress)
        ensures
            r@ == self.end_address(),
    {
        VirtualAddress::new(self.end)
    }

    pub fn get_current_address(&self) -> (r: VirtualAddress)
        requires
            self.wf(),
        ensures
            r@ == self.current(),
    {
        VirtualAddress::new(self.base + self.total_allocated)
    }

    pub fn free_count(&self) -> (r: usize)
        ensures
            r == self.free_list().len(),
    {
        self.free_blocks.len()
    }

    pub fn block_count(&self) -> (r: usize)
        ensures
            r == self.blocks().len(),
    {
        self.blocks.len()
    }

    /// The block at position `i`, in address order.
    pub fn block(&self, i: usize) -> (r: Block)
        requires
            i < self.blocks().len(),
        ensures
            r == self.blocks()[i as int],
    {
        self.blocks[i]
    }

    /// Payload sizes of the free blocks, in free-list order.
    pub fn free_block_sizes(&self) -> (r: Vec<u32>)
        requires
            self.wf(),
        ensures
            r@.len() == self.free_list().len(),
            forall|j: int|
                0 <= j < r@.len() ==> size_of_node(self.blocks(), self.free_list()[j] as int, #[trigger] r@[j]),
    {
        let mut r: Vec<u32> = Vec::new();
        let mut it = self.free_blocks.iter();
        let mut j: usize = 0;
        while j < self.free_blocks.len()
            invariant
                self.wf(),
                it.list == &self.free_blocks,
                it.index == j,
                j <= self.free_blocks.nodes().len(),
                r@.len() == j,
                forall|jj: int|
                    0 <= jj < j ==> size_of_node(self.blocks(), self.free_list()[jj] as int, #[trigger] r@[jj]),
            decreases self.free_blocks.nodes().len() - j,
        {
            let node = it.next();
            let a = match node {
                Some(a) => a.as_addr(),
                None => 0,
            };
            proof {
                assert(a == self.free_list()[j as int]);
                assert(free_node_of(self.blocks(), self.free_list()[j as int] as int));
            }
            let i = match self.find_block_at(a - HEADER_SIZE) {
                Some(i) => i,
                None => {
                    proof {
                        let k = choose|k: int| 0 <= k < self.blocks().len() && payload_of(self.blocks()[k]) == a && !self.blocks()[k].left.is_used;
                        assert(self.blocks()[k].address == a - HEADER_SIZE);
                    }
                    0
                },
            };
            r.push(self.blocks[i].left.size);
            j = j + 1;
        }
        r
    }

    /// Bumps a new used block off the end of the bumped part, its payload
    /// padded so that the address handed out is a multiple of `alignment`.
    /// Returns the block's address and the padding, or `None` when the rest
    /// of the region is too small.
    pub fn allocate_block_aligned(&mut self, size: u64, alignment: u64) -> (r: Option<(u64, u64)>)
        requires
            old(self).wf(),
            0 < size <= MAX_REQUEST,
            0 < alignment <= MAX_REQUEST,
        ensures
            final(self).wf(),
            final(self).payload_start() == old(self).payload_start(),
            final(self).end_address() == old(self).end_address(),
            final(self).free_list() == old(self).free_list(),
            ({
                let a = old(self).current();
                let pad = padding_for(a + HEADER_SIZE, alignment as int);
                let ps = payload_size_for(size as int, pad);
                match r {
                    Some((addr, padding)) => {
                        &&& addr == a
                        &&& padding == pad
                        &&& (addr + HEADER_SIZE + padding) % (alignment as int) == 0
                        &&& final(self).blocks() == old(self).blocks().push(
                            Block {
                                address: addr,
                                left: BlockHeader { size: ps as u32, is_used: true },
                                right: BlockHeader { size: ps as u32, is_used: true },
                            },
                        )
                        &&& final(self).allocated() == old(self).allocated() + 2 * HEADER_SIZE + ps
                    },
                    None => {
                        &&& a + 2 * HEADER_SIZE + ps > old(self).end_address()
                        &&& *final(self) == *old(self)
                    },
                }
            }),
    {
        let current = self.base + self.total_allocated;
        let payload = current + HEADER_SIZE;
        let aligned = crate::utils::align_up(payload, alignment);
        let padding = aligned - payload;
        let need = crate::utils::align_up(size + padding, 8);
        let payload_size = if need < FREE_NODE_SIZE {
            FREE_NODE_SIZE
        } else {
            need
        };
        let total = 2 * HEADER_SIZE + payload_size;
        if total > self.end - current {
            return None;
        }
        let header = BlockHeader { size: payload_size as u32, is_used: true };
        let block = Block { address: current, left: header, right: header };
        let ghost old_blocks = self.blocks@;
        self.blocks.push(block);
        self.total_allocated = self.total_allocated + total;
        proof {
            assert(payload_size % 8 == 0) by {
                crate::utils::lemma_align_up((size + padding) as int, 8);
            }
            assert forall|i: int| 0 <= i < self.blocks().len() implies #[trigger] self.block_ok(i) by {
                if i < old_blocks.len() {
                    assert(old(self).block_ok(i));
                }
            }
            assert forall|i: int| 0 <= i < self.blocks().len() - 1 implies #[trigger] self.adjacent(i) by {
                if i < old_blocks.len() - 1 {
                    assert(old(self).adjacent(i));
                }
            }
            assert forall|j: int|
                0 <= j < self.free_list().len() implies free_node_of(self.blocks(), #[trigger] self.free_list()[j] as int) by {
                assert(free_node_of(old_blocks, self.free_list()[j] as int));
                let k = choose|k: int| 0 <= k < old_blocks.len() && payload_of(old_blocks[k]) == self.free_list()[j] as int && !old_blocks[k].left.is_used;
                assert(self.blocks()[k] == old_blocks[k]);
            }
            assert forall|i: int|
                0 <= i < self.blocks().len() && !(#[trigger] self.blocks()[i]).left.is_used
                    implies self.free_list().contains(payload_of(self.blocks()[i]) as u64) by {
                assert(old_blocks[i] == self.blocks()[i]);
            }
        }
        Some((current, padding))
    }

    /// First-fit search of this region's free list for a block that can
    /// serve `size` bytes aligned to `alignment`; the block found is marked
    /// used, unlinked, and the aligned address in its payload returned.
    pub fn take_free_block(&mut self, size: u64, alignment: u64) -> (r: Option<u64>)
        requires
            old(self).wf(),
            0 < size <= MAX_REQUEST,
            0 < alignment <= MAX_REQUEST,
        ensures
            final(self).wf(),
            final(self).payload_start() == old(self).payload_start(),
            final(self).end_address() == old(self).end_address(),
            final(self).allocated() == old(self).allocated(),
            match r {
                Some(addr) => exists|j: int, i: int|
                    #![trigger old(self).free_list()[j], old(self).blocks()[i]]
                    {
                        let a = old(self).free_list()[j] as int;
                        &&& 0 <= j < old(self).free_list().len()
                        &&& (forall|jj: int|
                            0 <= jj < j ==> !node_fits(
                                old(self).blocks(),
                                old(self).free_list()[jj] as int,
                                size as int,
                                alignment as int,
                            ))
                        &&& 0 <= i < old(self).blocks().len()
                        &&& payload_of(old(self).blocks()[i]) == a
                        &&& !old(self).blocks()[i].left.is_used
                        &&& old(self).blocks()[i].left.size >= size + padding_for(a, alignment as int)
                        &&& addr == a + padding_for(a, alignment as int)
                        &&& addr % alignment == 0
                        &&& final(self).free_list() == old(self).free_list().remove(j)
                        &&& final(self).blocks() == old(self).blocks().update(
                            i,
                            with_used(old(self).blocks()[i], true),
                        )
                    },
                None => {
                    &&& forall|j: int|
                        0 <= j < old(self).free_list().len() ==> !node_fits(
                            old(self).blocks(),
                            old(self).free_list()[j] as int,
                            size as int,
                            alignment as int,
                        )
                    &&& *final(self) == *old(self)
                },
            },
    {
        let n = self.free_blocks.len();
        let mut j: usize = 0;
        while j < n
            invariant
                self.wf(),
                n == self.free_list().len(),
                j <= n,
                *self == *old(self),
                0 < size <= MAX_REQUEST,
                0 < alignment <= MAX_REQUEST,
                forall|jj: int|
                    0 <= jj < j ==> !node_fits(
                        self.blocks(),
                        self.free_list()[jj] as int,
                        size as int,
                        alignment as int,
                    ),
            decreases n - j,
        {
            let mut it = self.free_blocks.iter();
            it.index = j;
            let a = match it.next() {
                Some(x) => x.as_addr(),
                None => 0,
            };
            proof {
                assert(a == self.free_list()[j as int]);
                assert(free_node_of(self.blocks(), a as int));
            }
            let i = match self.find_block_at(a - HEADER_SIZE) {
                Some(i) => i,
                None => {
                    proof {
                        let k = choose|k: int| 0 <= k < self.blocks().len() && payload_of(self.blocks()[k]) == a && !self.blocks()[k].left.is_used;
                        assert(self.blocks()[k].address == a - HEADER_SIZE);
                    }
                    return None;
                },
            };
            proof {
                self.lemma_inside(i as int);
                let k = choose|k: int| 0 <= k < self.blocks().len() && payload_of(self.blocks()[k]) == a && !self.blocks()[k].left.is_used;
                self.lemma_node_unique(i as int, k);
            }
            let aligned = crate::utils::align_up(a, alignment);
            let padding = aligned - a;
            let block = self.blocks[i];
            if block.left.size as u64 >= size + padding {
                let ghost old_fl = self.free_list();
                let ghost old_blocks = self.blocks();
                self.blocks.set(i, Block {
                    address: block.address,
                    left: BlockHeader { size: block.left.size, is_used: true },
                    right: BlockHeader { size: block.left.size, is_used: true },
                });
                let ghost old_nodes = self.free_blocks.nodes();
                self.free_blocks.remove(VirtualAddress::new(a));
                proof {
                    assert forall|jj: int| 0 <= jj < j implies old_nodes[jj].address@ != a by {
                        assert(old_fl[jj] == old_nodes[jj].address@);
                    }
                    assert(old_nodes[j as int].address@ == a);
                    assert(self.free_blocks.nodes() == old_nodes.remove(j as int));
                    assert(self.free_list() =~= old_fl.remove(j as int));
                    self.lemma_after_take(old(self), i as int, j as int);
                    assert(node_fits(old_blocks, a as int, size as int, alignment as int));
                }
                return Some(aligned);
            }
            proof {
                assert forall|k: int| 0 <= k < self.blocks().len() && payload_of(self.blocks()[k]) == a implies !(self.blocks()[k].left.size >= size + padding_for(a as int, alignment as int)) by {
                    self.lemma_node_unique(i as int, k);
                }
            }
            j = j + 1;
        }
        None
    }

    proof fn lemma_after_take(&self, prev: &Self, i: int, j: int)
        requires
            prev.wf(),
            0 <= i < prev.blocks().len(),
            0 <= j < prev.free_list().len(),
            payload_of(prev.blocks()[i]) == prev.free_list()[j],
            !prev.blocks()[i].left.is_used,
            self.blocks() == prev.blocks().update(i, with_used(prev.blocks()[i], true)),
            self.free_list() == prev.free_list().remove(j),
            self.base == prev.base,
            self.end == prev.end,
            self.total_allocated == prev.total_allocated,
        ensures
            self.wf(),
    {
        assert forall|k: int| 0 <= k < self.blocks().len() implies #[trigger] self.block_ok(k) by {
            assert(prev.block_ok(k));
        }
        assert forall|k: int| 0 <= k < self.blocks().len() - 1 implies #[trigger] self.adjacent(k) by {
            assert(prev.adjacent(k));
        }
        if self.blocks().len() > 0 {
            assert(self.blocks().last().address == prev.blocks().last().address);
        }
        let s = prev.free_list();
        assert forall|y: u64| self.free_list().contains(y) <==> (s.contains(y) && y != s[j]) by {
            lemma_seq_remove_contains(s, j, y);
        }
        lemma_seq_remove_contains(s, j, 0);
        assert forall|m: int|
            0 <= m < self.free_list().len() implies free_node_of(self.blocks(), #[trigger] self.free_list()[m] as int) by {
            let y = self.free_list()[m];
            assert(self.free_list().contains(y));
            let m2 = choose|m2: int| 0 <= m2 < s.len() && s[m2] == y;
            assert(free_node_of(prev.blocks(), s[m2] as int));
            let k = choose|k: int| 0 <= k < prev.blocks().len() && payload_of(prev.blocks()[k]) == y as int && !prev.blocks()[k].left.is_used;
            if k == i {
                assert(y == s[j]);
            }
            assert(self.blocks()[k] == prev.blocks()[k]);
        }
        assert forall|k: int|
            0 <= k < self.blocks().len() && !(#[trigger] self.blocks()[k]).left.is_used
                implies self.free_list().contains(payload_of(self.blocks()[k]) as u64) by {
            assert(k != i);
            assert(prev.blocks()[k] == self.blocks()[k]);
            prev.lemma_inside(k);
            prev.lemma_inside(i);
            assert(s.contains(payload_of(prev.blocks()[k]) as u64));
            if payload_of(self.blocks()[k]) == s[j] {
                prev.lemma_node_unique(i, k);
            }
            assert(payload_of(prev.blocks()[k]) as u64 != s[j]);
        }
    }

    /// Some used block's payload holds `address`.
    pub open spec fn releasable(&self, address: int) -> bool {
        exists|i: int|
            0 <= i < self.blocks().len() && payload_holds(#[trigger] self.blocks()[i], address)
        && self.blocks()[i].left.is_used
    }

    /// `after` is this region once the used block whose payload holds
    /// `address` is freed: the block and its free neighbours become one free
    /// block whose payload is their payloads and the headers between them,
    /// the neighbours' nodes leave the free list and the merged block's node
    /// joins at its tail.
    pub open spec fn released(&self, after: &HeapRegion, address: int) -> bool {
        exists|i: int|
        #![trigger self.blocks()[i]]
        {
            let ob = self.blocks();
            let lo = window_lo(ob, i);
            let hi = window_hi(ob, i);
            let m = merged_block(ob, lo, hi);
            let ofl = self.free_list();
            &&& 0 <= i < ob.len()
            &&& payload_holds(ob[i], address)
            &&& ob[i].left.is_used
            &&& after.blocks() == merge_window(ob, lo, hi, m)
            &&& m.left.size == window_sum(ob, lo, hi) + 2 * HEADER_SIZE * (hi - lo)
            &&& (lo == i && hi == i) ==> after.free_list() == ofl.push(
                payload_of(m) as u64,
            )
            &&& (lo < i && hi == i) ==> exists|k: int|
                0 <= k < ofl.len() && ofl[k] == payload_of(ob[lo]) && after.free_list()
                    == ofl.remove(k).push(payload_of(m) as u64)
            &&& (lo == i && hi > i) ==> exists|k: int|
                0 <= k < ofl.len() && ofl[k] == payload_of(ob[hi]) && after.free_list()
                    == ofl.remove(k).push(payload_of(m) as u64)
            &&& (lo < i && hi > i) ==> exists|k1: int, k2: int|
                0 <= k1 < ofl.len() && ofl[k1] == payload_of(ob[lo]) && 0 <= k2 < ofl.len()
                    - 1 && ofl.remove(k1)[k2] == payload_of(ob[hi]) && after.free_list()
                    == ofl.remove(k1).remove(k2).push(payload_of(m) as u64)
        }
    }

    /// Position of the block whose payload holds `address`.
    fn find_block_containing(&self, address: u64) -> (r: Option<usize>)
        requires
            self.wf(),
        ensures
            match r {
                Some(i) => i < self.blocks().len() && payload_holds(self.blocks()[i as int], address as int),
                None => forall|i: int|
                    0 <= i < self.blocks().len() ==> !payload_holds(self.blocks()[i], address as int),
            },
    {
        let mut i: usize = 0;
        while i < self.blocks.len()
            invariant
                self.wf(),
                i <= self.blocks@.len(),
                forall|k: int| 0 <= k < i ==> !payload_holds(self.blocks@[k], address as int),
            decreases self.blocks@.len() - i,
        {
            let b = self.blocks[i];
            proof {
                self.lemma_inside(i as int);
            }
            if b.address + HEADER_SIZE <= address && address < b.address + HEADER_SIZE + b.left.size as u64 {
                return Some(i);
            }
            i = i + 1;
        }
        None
    }

    /// Frees the used block whose payload holds `address` and merges it with
    /// whichever of its neighbours are free. Returns whether a block was
    /// freed: an address in no block's payload, or in a free block's, is
    /// ignored.
    #[verifier::rlimit(60)]
    pub fn release(&mut self, address: u64) -> (r: bool)
        requires
            old(self).wf(),
        ensures
            final(self).wf(),
            final(self).payload_start() == old(self).payload_start(),
            final(self).end_address() == old(self).end_address(),
            final(self).allocated() == old(self).allocated(),
            r == old(self).releasable(address as int),
            !r ==> final(self).blocks() == old(self).blocks() && final(self).free_list() == old(
                self,
            ).free_list(),
            r ==> old(self).released(final(self), address as int),
    {
        let i = match self.find_block_containing(address) {
            Some(i) => i,
            None => {
                return false;
            },
        };
        if !self.blocks[i].left.is_used {
            proof {
                assert forall|k: int|
                    0 <= k < old(self).blocks().len() && payload_holds(old(self).blocks()[k], address as int)
                    implies !old(self).blocks()[k].left.is_used by {
                    if k != i as int {
                        if k < i {
                            self.lemma_ordered(k, i as int);
                        } else {
                            self.lemma_ordered(i as int, k);
                        }
                    }
                }
            }
            return false;
        }
        let ghost ob = self.blocks();
        let ghost ofl = self.free_list();
        let n = self.blocks.len();
        let prev_free = i > 0 && !self.blocks[i - 1].left.is_used;
        let next_free = i + 1 < n && !self.blocks[i + 1].left.is_used;
        let lo: usize = if prev_free { i - 1 } else { i };
        let hi: usize = if next_free { i + 1 } else { i };
        let first = self.blocks[lo];
        let last = self.blocks[hi];
        proof {
            self.lemma_inside(hi as int);
            self.lemma_inside(lo as int);
            self.lemma_window(lo as int, i as int, hi as int);
        }
        let size = (last.address + 2 * HEADER_SIZE + last.left.size as u64 - first.address
            - 2 * HEADER_SIZE) as u32;
        let header = BlockHeader { size, is_used: false };
        let merged = Block { address: first.address, left: header, right: header };
        assert(merged == merged_block(ob, lo as int, hi as int));
        proof {
            if prev_free {
                assert(!ob[lo as int].left.is_used);
                assert(ofl.contains(payload_of(ob[lo as int]) as u64));
            }
            if next_free {
                assert(!ob[hi as int].left.is_used);
                assert(ofl.contains(payload_of(ob[hi as int]) as u64));
            }
        }
        let ghost k1: int = if prev_free {
            choose|k: int| 0 <= k < ofl.len() && ofl[k] == payload_of(ob[lo as int]) as u64
        } else {
            0
        };
        let ghost nodes0 = self.free_blocks.nodes();
        if prev_free {
            self.free_blocks.remove(VirtualAddress::new(first.address + HEADER_SIZE));
            proof {
                assert forall|j: int| 0 <= j < k1 implies nodes0[j].address@ != first.address + HEADER_SIZE by {
                    assert(ofl[j] == nodes0[j].address@);
                }
                assert(nodes0[k1].address@ == ofl[k1]);
                assert(nodes0[k1].address == VirtualAddress((first.address + HEADER_SIZE) as u64));
                assert(self.free_blocks.nodes() == nodes0.remove(k1));
                assert(self.free_list() =~= ofl.remove(k1));
            }
        }
        let ghost fl1 = self.free_list();
        proof {
            if prev_free {
                lemma_seq_remove_contains(ofl, k1, 0);
                if next_free {
                    lemma_seq_remove_contains(ofl, k1, payload_of(ob[hi as int]) as u64);
                    old(self).lemma_ordered(lo as int, hi as int);
                }
            }
            if next_free {
                assert(fl1.contains(payload_of(ob[hi as int]) as u64));
            }
        }
        let ghost k2: int = if next_free {
            choose|k: int| 0 <= k < fl1.len() && fl1[k] == payload_of(ob[hi as int]) as u64
        } else {
            0
        };
        let ghost nodes1 = self.free_blocks.nodes();
        if next_free {
            self.free_blocks.remove(VirtualAddress::new(last.address + HEADER_SIZE));
            proof {
                assert(fl1.no_duplicates());
                assert forall|j: int| 0 <= j < k2 implies nodes1[j].address@ != last.address + HEADER_SIZE by {
                    assert(fl1[j] == nodes1[j].address@);
                }
                assert(nodes1[k2].address@ == fl1[k2]);
                assert(nodes1[k2].address == VirtualAddress((last.address + HEADER_SIZE) as u64));
                assert(self.free_blocks.nodes() == nodes1.remove(k2));
                assert(self.free_list() =~= fl1.remove(k2));
            }
        }
        let ghost fl2 = self.free_list();
        self.blocks.set(lo, merged);
        if hi > lo {
            self.blocks.remove(lo + 1);
        }
        if hi > lo + 1 {
            self.blocks.remove(lo + 1);
        }
        let ghost nodes2 = self.free_blocks.nodes();
        self.free_blocks.append_to_address(VirtualAddress::new(first.address + HEADER_SIZE), ());
        proof {
            assert(self.free_list() =~= fl2.push((first.address + HEADER_SIZE) as u64));
            assert(self.blocks() =~= merge_window(ob, lo as int, hi as int, merged));
            let x = (first.address + HEADER_SIZE) as u64;
            assert forall|y: u64| fl2.contains(y) <==> (ofl.contains(y) && !(prev_free && y == payload_of(ob[lo as int])) && !(next_free && y == payload_of(ob[hi as int]))) by {
                if prev_free {
                    lemma_seq_remove_contains(ofl, k1, y);
                }
                if next_free {
                    lemma_seq_remove_contains(fl1, k2, y);
                }
            }
            if prev_free {
                lemma_seq_remove_contains(ofl, k1, 0);
            }
            if next_free {
                lemma_seq_remove_contains(fl1, k2, 0);
            }
            assert(fl2.no_duplicates());
            if !prev_free {
                if ofl.contains(x) {
                    let j = choose|j: int| 0 <= j < ofl.len() && ofl[j] == x;
                    assert(free_node_of(ob, ofl[j] as int));
                    let k = choose|k: int| 0 <= k < ob.len() && payload_of(ob[k]) == x as int && !ob[k].left.is_used;
                    old(self).lemma_node_unique(i as int, k);
                }
            }
            assert(!fl2.contains(x));
            assert forall|y: u64| self.free_list().contains(y) <==> (fl2.contains(y) || y == x) by {
                lemma_seq_push_contains(fl2, x, y);
            }
            lemma_seq_push_contains(fl2, x, 0);
            self.lemma_after_merge(old(self), i as int, lo as int, hi as int);
            if prev_free && next_free {
                assert(fl1 == ofl.remove(k1));
            }
            assert forall|k: int|
                0 <= k < ob.len() && payload_holds(ob[k], address as int) implies k == i by {
                if k < i {
                    old(self).lemma_ordered(k, i as int);
                } else if k > i {
                    old(self).lemma_ordered(i as int, k);
                }
            }
        }
        true
    }

    /// The window that freeing block `i` merges ends where its blocks' sizes
    /// and inner headers say, inside the region.
    proof fn lemma_window(&self, lo: int, i: int, hi: int)
        requires
            self.wf(),
            0 <= i < self.blocks().len(),
            lo == window_lo(self.blocks(), i),
            hi == window_hi(self.blocks(), i),
        ensures
            0 <= lo <= i <= hi < self.blocks().len(),
            block_end(self.blocks()[hi]) - self.blocks()[lo].address - 2 * HEADER_SIZE == window_sum(
                self.blocks(),
                lo,
                hi,
            ) + 2 * HEADER_SIZE * (hi - lo),
            FREE_NODE_SIZE <= window_sum(self.blocks(), lo, hi) + 2 * HEADER_SIZE * (hi - lo)
                <= u32::MAX,
            (window_sum(self.blocks(), lo, hi) + 2 * HEADER_SIZE * (hi - lo)) % 8 == 0,
            self.payload_start() <= self.blocks()[lo].address,
            block_end(self.blocks()[hi]) <= self.current(),
    {
        let b = self.blocks();
        self.lemma_inside(lo);
        self.lemma_inside(hi);
        assert(self.block_ok(lo));
        assert(self.block_ok(hi));
        assert(self.block_ok(i));
        assert(window_sum(b, lo, lo) == b[lo].left.size);
        if hi == lo + 1 {
            assert(self.adjacent(lo));
            assert(window_sum(b, lo, hi) == window_sum(b, lo, lo) + b[hi].left.size);
        }
        if hi == lo + 2 {
            assert(self.adjacent(lo));
            assert(self.adjacent(lo + 1));
            assert(window_sum(b, lo, lo + 1) == window_sum(b, lo, lo) + b[lo + 1].left.size);
            assert(window_sum(b, lo, hi) == window_sum(b, lo, lo + 1) + b[hi].left.size);
        }
    }

    proof fn lemma_after_merge(&self, prev: &Self, i: int, lo: int, hi: int)
        requires
            prev.wf(),
            0 <= i < prev.blocks().len(),
            prev.blocks()[i].left.is_used,
            lo == window_lo(prev.blocks(), i),
            hi == window_hi(prev.blocks(), i),
            self.blocks() == merge_window(prev.blocks(), lo, hi, merged_block(prev.blocks(), lo, hi)),
            self.base == prev.base,
            self.end == prev.end,
            self.total_allocated == prev.total_allocated,
            self.free_list().no_duplicates(),
            forall|y: u64|
                self.free_list().contains(y) <==> ((prev.free_list().contains(y) && !(lo < i && y
                    == payload_of(prev.blocks()[lo])) && !(hi > i && y == payload_of(
                    prev.blocks()[hi],
                ))) || y == payload_of(prev.blocks()[lo])),
        ensures
            self.wf(),
    {
        let ob = prev.blocks();
        let nb = self.blocks();
        let d = hi - lo;
        let mb = merged_block(ob, lo, hi);
        prev.lemma_window(lo, i, hi);
        lemma_merge_window_index(ob, lo, hi, mb, 0);
        assert(mb.left.size == window_sum(ob, lo, hi) + 2 * HEADER_SIZE * (hi - lo));
        assert(block_end(mb) == block_end(ob[hi]));
        assert forall|m: int| 0 <= m < nb.len() implies #[trigger] self.block_ok(m) by {
            lemma_merge_window_index(ob, lo, hi, mb, m);
            if m < lo {
                assert(prev.block_ok(m));
            } else if m > lo {
                assert(prev.block_ok(m + d));
            }
        }
        assert forall|m: int| 0 <= m < nb.len() - 1 implies #[trigger] self.adjacent(m) by {
            lemma_merge_window_index(ob, lo, hi, mb, m);
            lemma_merge_window_index(ob, lo, hi, mb, m + 1);
            if m < lo {
                assert(prev.adjacent(m));
            } else if m == lo {
                assert(prev.adjacent(hi));
            } else {
                assert(prev.adjacent(m + d));
            }
        }
        lemma_merge_window_index(ob, lo, hi, mb, nb.len() - 1);
        if nb.len() - 1 > lo {
            assert(nb.last() == ob.last());
        }
        let fl = self.free_list();
        let ofl = prev.free_list();
        assert forall|j: int| 0 <= j < fl.len() implies free_node_of(nb, #[trigger] fl[j] as int) by {
            let y = fl[j];
            assert(fl.contains(y));
            if y == payload_of(ob[lo]) {
                lemma_merge_window_index(ob, lo, hi, mb, lo);
                assert(payload_of(nb[lo]) == y);
            } else {
                let j2 = choose|j2: int| 0 <= j2 < ofl.len() && ofl[j2] == y;
                assert(free_node_of(ob, ofl[j2] as int));
                let k = choose|k: int| 0 <= k < ob.len() && payload_of(ob[k]) == y as int && !ob[k].left.is_used;
                assert(k != i);
                assert(k != lo);
                assert(k != hi);
                if k < lo {
                    lemma_merge_window_index(ob, lo, hi, mb, k);
                    assert(nb[k] == ob[k]);
                } else {
                    lemma_merge_window_index(ob, lo, hi, mb, k - d);
                    assert(nb[k - d] == ob[k]);
                }
            }
        }
        assert forall|m: int|
            0 <= m < nb.len() && !(#[trigger] nb[m]).left.is_used implies fl.contains(
                payload_of(nb[m]) as u64,
            ) by {
            lemma_merge_window_index(ob, lo, hi, mb, m);
            if m != lo {
                let k = if m < lo { m } else { m + d };
                assert(nb[m] == ob[k]);
                assert(ofl.contains(payload_of(ob[k]) as u64));
                prev.lemma_inside(k);
                prev.lemma_inside(lo);
                prev.lemma_inside(hi);
                if payload_of(ob[k]) == payload_of(ob[lo]) {
                    prev.lemma_node_unique(k, lo);
                }
                if payload_of(ob[k]) == payload_of(ob[hi]) {
                    prev.lemma_node_unique(k, hi);
                }
            }
        }
    }

    /// Position of the block whose left header is at `address`.
    fn find_block_at(&self, address: u64) -> (r: Option<usize>)
        requires
            self.wf(),
        ensures
            match r {
                Some(i) => i < self.blocks().len() && self.blocks()[i as int].address == address,
                None => forall|i: int|
                    0 <= i < self.blocks().len() ==> self.blocks()[i].address != address,
            },
    {
        let mut i: usize = 0;
        while i < self.blocks.len()
            invariant
                i <= self.blocks@.len(),
                forall|k: int| 0 <= k < i ==> self.blocks@[k].address != address,
            decreases self.blocks@.len() - i,
        {
            if self.blocks[i].address == address {
                return Some(i);
            }
            i = i + 1;
        }
        None
    }
}


/// Bytes asked of the object manager for a region that must hold one block
/// of `size` bytes at any alignment padding below `alignment`: the region's
/// node and record, two headers, the payload with its padding, and slack for
/// rounding.
pub open spec fn region_request(size: int, alignment: int) -> int {
    REGION_HEADER_SIZE + 2 * HEADER_SIZE + FREE_NODE_SIZE + HEADER_SIZE + size + alignment
}

/// The free-list node `j` of region `k` is the first, in region order and
/// then free-list order, that can serve the request.
pub open spec fn first_fit(regions: Seq<SinglyLinkedListNode<HeapRegion>>, k: int, j: int, size: int, alignment: int) -> bool {
    &&& 0 <= k < regions.len()
    &&& 0 <= j < regions[k].data.free_list().len()
    &&& node_fits(regions[k].data.blocks(), regions[k].data.free_list()[j] as int, size, alignment)
    &&& forall|jj: int|
        0 <= jj < j ==> !node_fits(
            regions[k].data.blocks(),
            regions[k].data.free_list()[jj] as int,
            size,
            alignment,
        )
    &&& forall|kk: int| 0 <= kk < k ==> #[trigger] no_fit(regions[kk].data, size, alignment)
}

/// `address` lies in the range of `region` past its record.
pub open spec fn region_contains(region: HeapRegion, address: int) -> bool {
    region.payload_start() <= address < region.end_address()
}

/// No free block of `region` can serve the request.
pub open spec fn no_fit(region: HeapRegion, size: int, alignment: int) -> bool {
    forall|j: int|
        0 <= j < region.free_list().len() ==> !node_fits(
            region.blocks(),
            #[trigger] region.free_list()[j] as int,
            size,
            alignment,
        )
}

/// The kernel heap: regions of boundary-tagged blocks, each with its own
/// free list, backed by objects of the virtual-memory manager.
pub struct ExplicitFreeList {
    vmm: VirtualMemoryManager,
    regions: SinglyLinkedList<HeapRegion>,
    has_free_blocks: bool,
}

impl ExplicitFreeList {
    pub closed spec fn manager(&self) -> VirtualMemoryManager {
        self.vmm
    }

    pub closed spec fn region_nodes(&self) -> Seq<SinglyLinkedListNode<HeapRegion>> {
        self.regions.nodes()
    }

    pub closed spec fn may_have_free(&self) -> bool {
        self.has_free_blocks
    }

    /// Region `k` starts just past its node and ends below the next region.
    pub open spec fn region_placed(&self, k: int) -> bool {
        let r = self.region_nodes()[k];
        &&& r.data.wf()
        &&& r.address@ + REGION_HEADER_SIZE == r.data.payload_start()
        &&& r.data.end_address() <= self.manager().cursor()
        &&& k + 1 < self.region_nodes().len() ==> r.data.end_address()
            <= self.region_nodes()[k + 1].address@
    }

    pub open spec fn wf(&self) -> bool {
        &&& self.manager().wf()
        &&& forall|k: int| 0 <= k < self.region_nodes().len() ==> #[trigger] self.region_placed(k)
        &&& !self.may_have_free() ==> forall|k: int|
            0 <= k < self.region_nodes().len() ==> (#[trigger] self.region_nodes()[k]).data.free_list().len() == 0
    }

    /// A heap with no region yet, taking its regions from `vmm`.
    pub fn new(vmm: VirtualMemoryManager) -> (r: Self)
        requires
            vmm.wf(),
        ensures
            r.wf(),
            r.manager() == vmm,
            r.region_nodes().len() == 0,
    {
        ExplicitFreeList { vmm, regions: SinglyLinkedList::new(), has_free_blocks: false }
    }

    pub fn virtual_memory_manager(&self) -> (r: &VirtualMemoryManager)
        ensures
            *r == self.manager(),
    {
        &self.vmm
    }

    pub fn region_count(&self) -> (r: usize)
        ensures
            r == self.region_nodes().len(),
    {
        self.regions.len()
    }

    /// Region `k`, in the order the regions were made.
    pub fn region(&self, k: usize) -> (r: &HeapRegion)
        requires
            k < self.region_nodes().len(),
        ensures
            *r == self.region_nodes()[k as int].data,
    {
        self.regions.get(k)
    }

    /// The object manager has no frame left, or too little virtual address
    /// space above its cursor.
    pub open spec fn out_of_memory(&self) -> bool {
        ||| forall|k: int|
            0 <= k < self.manager().frames().entries().len() ==> !self.manager().frames().available(k)
        ||| self.manager().cursor() + ADDRESS_HEADROOM > u64::MAX
    }

    proof fn lemma_vmm_grew(&self, prev: &Self)
        requires
            prev.wf(),
            self.region_nodes() == prev.region_nodes(),
            self.may_have_free() == prev.may_have_free(),
            self.manager().wf(),
            self.manager().cursor() >= prev.manager().cursor(),
        ensures
            self.wf(),
    {
        assert forall|k: int| 0 <= k < self.region_nodes().len() implies #[trigger] self.region_placed(k) by {
            assert(prev.region_placed(k));
        }
    }

    /// Gets a new region from the object manager, big enough for one block
    /// of `size` bytes aligned to `alignment`, and appends it.
    #[verifier::rlimit(60)]
    #[verifier::spinoff_prover]
    fn allocate_region(&mut self, size: u64, alignment: u64) -> (r: bool)
        requires
            old(self).wf(),
            0 < size,
            0 < alignment,
            size + alignment <= MAX_REQUEST,
        ensures
            final(self).wf(),
            final(self).manager().base() == old(self).manager().base(),
            r ==> final(self).region_nodes().len() == old(self).region_nodes().len() + 1,
            r ==> final(self).region_nodes().drop_last() == old(self).region_nodes(),
            r ==> final(self).region_nodes().last().data.blocks().len() == 0,
            r ==> final(self).region_nodes().last().data.free_list().len() == 0,
            r ==> final(self).region_nodes().last().data.end_address()
                - final(self).region_nodes().last().data.payload_start() >= size + alignment + 40,
            r ==> final(self).region_nodes().last().data.payload_start() == old(self).manager().cursor()
                + LIST_PTR_SIZE + REGION_HEADER_SIZE,
            !r ==> final(self).region_nodes() == old(self).region_nodes(),
            !r ==> final(self).out_of_memory(),
            final(self).may_have_free() == old(self).may_have_free(),
            r ==> final(self).region_nodes().last().data.allocated() == 0,
            old(self).manager().frames().only_took(&final(self).manager().frames()),
    {
        let request = REGION_HEADER_SIZE + 2 * HEADER_SIZE + FREE_NODE_SIZE + HEADER_SIZE + size + alignment;
        let ghost v0 = self.vmm;
        let object = match self.vmm.allocate_object(request) {
            Some(o) => o,
            None => {
                proof {
                    self.lemma_vmm_grew(old(self));
                }
                return false;
            },
        };
        let base = object.base.as_addr();
        assert(object.length >= request + LIST_PTR_SIZE) by (nonlinear_arith)
            requires
                object.length == (request + 8 + 4096 - 1) / 4096 * 4096,
        ;
        let end = base - LIST_PTR_SIZE + object.length;
        assert(end - (base + REGION_HEADER_SIZE) <= 0xffff_ffffu64);
        if end > u64::MAX - 0xffff_ffffu64 {
            proof {
                self.lemma_vmm_grew(old(self));
            }
            return false;
        }
        let region = HeapRegion::new(base + REGION_HEADER_SIZE, end);
        self.regions.append_to_address(object.base, region);
        proof {
            if !self.has_free_blocks {
                assert forall|k: int| 0 <= k < self.region_nodes().len() implies (#[trigger] self.region_nodes()[k]).data.free_list().len() == 0 by {
                    if k < old(self).region_nodes().len() {
                        assert(self.region_nodes()[k] == old(self).region_nodes()[k]);
                    }
                }
            }
            assert forall|k: int| 0 <= k < self.region_nodes().len() implies #[trigger] self.region_placed(k) by {
                if k < old(self).region_nodes().len() {
                    assert(old(self).region_placed(k));
                    assert(self.region_nodes()[k] == old(self).region_nodes()[k]);
                }
            }
            assert(self.region_nodes().drop_last() =~= old(self).region_nodes());
        }
        true
    }

    proof fn lemma_wf_same(&self, other: &Self)
        requires
            other.wf(),
            self.region_nodes() == other.region_nodes(),
            self.manager() == other.manager(),
            other.may_have_free() ==> self.may_have_free(),
        ensures
            self.wf(),
    {
        assert forall|k: int| 0 <= k < self.region_nodes().len() implies #[trigger] self.region_placed(k) by {
            assert(other.region_placed(k));
        }
        if !self.may_have_free() {
            assert forall|k: int| 0 <= k < self.region_nodes().len() implies (#[trigger] self.region_nodes()[k]).data.free_list().len() == 0 by {
                assert(other.region_nodes()[k].data.free_list().len() == 0);
            }
        }
    }

    /// What freeing `address` did, from this heap to `after`.
    pub open spec fn freed_as(&self, after: &Self, address: int) -> bool {
        let regions = self.region_nodes();
        &&& after.manager() == self.manager()
        &&& (forall|k: int| 0 <= k < regions.len() ==> !region_contains(regions[k].data, address))
            ==> after.region_nodes() == regions
        &&& forall|k: int|
            0 <= k < regions.len() && region_contains(regions[k].data, address) && (forall|kk: int|
                0 <= kk < k ==> !region_contains(regions[kk].data, address)) ==> exists|d: HeapRegion|
                {
                    &&& after.region_nodes() == regions.update(
                        k,
                        SinglyLinkedListNode { address: regions[k].address, data: d },
                    )
                    &&& if regions[k].data.releasable(address) {
                        regions[k].data.released(&d, address)
                    } else {
                        d.blocks() == regions[k].data.blocks() && d.free_list()
                            == regions[k].data.free_list()
                    }
                }
    }

    /// The bumped part of `region` has room for a block serving `size`
    /// bytes aligned to `alignment`.
    pub open spec fn bump_fits(region: HeapRegion, size: int, alignment: int) -> bool {
        let a = region.current();
        a + 2 * HEADER_SIZE + payload_size_for(size, padding_for(a + HEADER_SIZE, alignment))
            <= region.end_address()
    }

    /// The address that bumping a block off `region` hands out.
    pub open spec fn bump_result(region: HeapRegion, alignment: int) -> int {
        let p = region.current() + HEADER_SIZE;
        p + padding_for(p, alignment)
    }

    /// What an allocation of `size` bytes aligned to `alignment` that
    /// returned `r` did, from this heap to `after`.
    pub open spec fn allocated_as(&self, after: &Self, size: int, alignment: int, r: Option<VirtualAddress>) -> bool {
        &&& self.no_free_blocks() && r.is_some() ==> after.no_free_blocks()
        &&& match r {
            None => {
                &&& after.out_of_memory()
                &&& !(exists|k: int, j: int| first_fit(self.region_nodes(), k, j, size, alignment))
                &&& !(self.region_nodes().len() > 0 && Self::bump_fits(
                    self.region_nodes().last().data,
                    size,
                    alignment,
                ))
                &&& after.region_nodes() == self.region_nodes()
            },
            Some(a) => {
                let regions = self.region_nodes();
                &&& (a@ as int) % alignment == 0
                &&& (exists|k: int, j: int| first_fit(regions, k, j, size, alignment))
                    ==> exists|k: int, j: int|
                    first_fit(regions, k, j, size, alignment) && a@
                        == regions[k].data.free_list()[j] + padding_for(
                        regions[k].data.free_list()[j] as int,
                        alignment,
                    )
                &&& (forall|k: int|
                    0 <= k < regions.len() ==> no_fit(regions[k].data, size, alignment))
                    ==> if regions.len() > 0 && Self::bump_fits(
                    regions.last().data,
                    size,
                    alignment,
                ) {
                    a@ == Self::bump_result(regions.last().data, alignment)
                        && after.region_nodes().len() == regions.len()
                } else {
                    &&& after.region_nodes().len() == regions.len() + 1
                    &&& a@ == after.region_nodes().last().data.payload_start() + HEADER_SIZE
                        + padding_for(
                        after.region_nodes().last().data.payload_start() + HEADER_SIZE,
                        alignment,
                    )
                    &&& after.region_nodes().last().data.payload_start() == self.manager().cursor() + LIST_PTR_SIZE + REGION_HEADER_SIZE
                }
            },
        }
    }

    /// Block `b` of region `k`.
    pub open spec fn block_at(&self, k: int, b: int) -> Block {
        self.region_nodes()[k].data.blocks()[b]
    }

    /// Block `b` of region `k` is in use and its payload meets `[lo, hi)`.
    pub open spec fn used_block_meets(&self, k: int, b: int, lo: int, hi: int) -> bool {
        &&& 0 <= k < self.region_nodes().len()
        &&& 0 <= b < self.region_nodes()[k].data.blocks().len()
        &&& self.block_at(k, b).left.is_used
        &&& payload_of(self.block_at(k, b)) < hi
        &&& lo < payload_of(self.block_at(k, b)) + self.block_at(k, b).left.size
    }

    /// The allocation at `a` of `size` bytes aligned to `alignment` sits in a
    /// block in use, at the first aligned address of its payload, and fits.
    pub open spec fn holds_allocation(&self, a: int, size: int, alignment: int) -> bool {
        exists|k: int, b: int|
            {
                &&& 0 <= k < self.region_nodes().len()
                &&& 0 <= b < self.region_nodes()[k].data.blocks().len()
                &&& (#[trigger] self.block_at(k, b)).left.is_used
                &&& a == payload_of(self.block_at(k, b)) + padding_for(payload_of(self.block_at(k, b)), alignment)
                &&& self.block_at(k, b).left.size >= size + padding_for(payload_of(self.block_at(k, b)), alignment)
            }
    }

    /// An allocation of `size` bytes that returned `r` lies in a block in
    /// use afterwards and meets no block that was in use before: it is
    /// disjoint from every allocation live at the time.
    pub open spec fn allocation_disjoint(&self, after: &Self, size: int, alignment: int, r: Option<VirtualAddress>) -> bool {
        match r {
            Some(a) => {
                &&& after.holds_allocation(a@ as int, size, alignment)
                &&& forall|k: int, b: int| !#[trigger] self.used_block_meets(k, b, a@ as int, a@ + size)
            },
            None => true,
        }
    }

    /// Regions lie in order, each ending before the next one's node.
    pub proof fn lemma_regions_ordered(&self, k1: int, k2: int)
        requires
            self.wf(),
            0 <= k1 < k2 < self.region_nodes().len(),
        ensures
            self.region_nodes()[k1].data.end_address() + REGION_HEADER_SIZE
                <= self.region_nodes()[k2].data.payload_start(),
        decreases k2 - k1,
    {
        assert(self.region_placed(k1));
        assert(self.region_placed(k1 + 1));
        if k2 > k1 + 1 {
            self.lemma_regions_ordered(k1 + 1, k2);
        }
    }

    /// A used block of region `k` lies in `[payload_start, current)`.
    proof fn lemma_block_in_region(&self, k: int, b: int)
        requires
            self.wf(),
            0 <= k < self.region_nodes().len(),
            0 <= b < self.region_nodes()[k].data.blocks().len(),
        ensures
            self.region_nodes()[k].data.payload_start() <= self.region_nodes()[k].data.blocks()[b].address,
            block_end(self.region_nodes()[k].data.blocks()[b]) <= self.region_nodes()[k].data.current(),
            self.region_nodes()[k].data.current() <= self.region_nodes()[k].data.end_address(),
            self.region_nodes()[k].data.end_address() <= self.manager().cursor(),
    {
        assert(self.region_placed(k));
        self.region_nodes()[k].data.lemma_inside(b);
    }

    /// `[lo, hi)`, inside the payload of free block `i` of region `k0`,
    /// meets no used block.
    proof fn lemma_disjoint_from_free_block(&self, k0: int, i: int, lo: int, hi: int)
        requires
            self.wf(),
            0 <= k0 < self.region_nodes().len(),
            0 <= i < self.region_nodes()[k0].data.blocks().len(),
            !self.block_at(k0, i).left.is_used,
            payload_of(self.block_at(k0, i)) <= lo,
            hi <= payload_of(self.block_at(k0, i)) + self.block_at(k0, i).left.size,
        ensures
            forall|k: int, b: int| !#[trigger] self.used_block_meets(k, b, lo, hi),
    {
        assert forall|k: int, b: int| !#[trigger] self.used_block_meets(k, b, lo, hi) by {
            if self.used_block_meets(k, b, lo, hi) {
                let region = self.region_nodes()[k0].data;
                self.lemma_block_in_region(k, b);
                self.lemma_block_in_region(k0, i);
                assert(self.region_placed(k));
                assert(self.region_placed(k0));
                assert(region.block_ok(i));
                if k == k0 {
                    if b < i {
                        region.lemma_ordered(b, i);
                    } else if b > i {
                        region.lemma_ordered(i, b);
                    }
                } else if k < k0 {
                    self.lemma_regions_ordered(k, k0);
                } else {
                    self.lemma_regions_ordered(k0, k);
                }
            }
        }
    }

    /// `[lo, hi)`, inside `[start, end)`, meets no used block when every
    /// region lies wholly below `start` or above `end`, but region `k0`, whose
    /// blocks all end by `start`.
    proof fn lemma_meets_nothing(&self, lo: int, hi: int, start: int, end: int, k0: int)
        requires
            self.wf(),
            start <= lo,
            hi <= end,
            forall|k: int|
                0 <= k < self.region_nodes().len() && k != k0 ==> self.region_nodes()[k].data.end_address() <= start
                    || end <= self.region_nodes()[k].data.payload_start(),
            0 <= k0 < self.region_nodes().len() ==> self.region_nodes()[k0].data.current() <= start,
        ensures
            forall|k: int, b: int| !#[trigger] self.used_block_meets(k, b, lo, hi),
    {
        assert forall|k: int, b: int| !#[trigger] self.used_block_meets(k, b, lo, hi) by {
            if self.used_block_meets(k, b, lo, hi) {
                self.lemma_block_in_region(k, b);
                assert(self.region_nodes()[k].data.block_ok(b));
                assert(self.region_placed(k));
            }
        }
    }

    /// No region has a free block.
    pub open spec fn no_free_blocks(&self) -> bool {
        forall|k: int|
            0 <= k < self.region_nodes().len() ==> (#[trigger] self.region_nodes()[k]).data.free_list().len() == 0
    }


    /// The block that bumping `size` bytes aligned to `alignment` makes at
    /// address `c`.
    pub open spec fn bumped_block(c: int, size: int, alignment: int) -> Block {
        let ps = payload_size_for(size, padding_for(c + HEADER_SIZE, alignment)) as u32;
        Block {
            address: c as u64,
            left: BlockHeader { size: ps, is_used: true },
            right: BlockHeader { size: ps, is_used: true },
        }
    }

    /// `after` holds the same regions but region `k`, which has the same
    /// node and bounds and now holds `blocks`, `free_list` and `allocated`.
    pub open spec fn region_replaced(
        &self,
        after: &Self,
        k: int,
        blocks: Seq<Block>,
        free_list: Seq<u64>,
        allocated: int,
    ) -> bool {
        let regions = self.region_nodes();
        let r = after.region_nodes()[k];
        &&& after.region_nodes().len() == regions.len()
        &&& forall|kk: int| 0 <= kk < regions.len() && kk != k ==> after.region_nodes()[kk] == regions[kk]
        &&& r.address == regions[k].address
        &&& r.data.payload_start() == regions[k].data.payload_start()
        &&& r.data.end_address() == regions[k].data.end_address()
        &&& r.data.blocks() == blocks
        &&& r.data.free_list() == free_list
        &&& r.data.allocated() == allocated
    }

    /// What an allocation did to the heap's regions and frames: blocks in
    /// use stay as they were; the free-list path marks the first-fit block
    /// used and unlinks it; the bump path appends a block at the bump cursor
    /// of the last region; otherwise a new region holding just the new block
    /// is appended. Only the last case touches the object manager, and no
    /// frame is ever given back.
    pub open spec fn alloc_effect(&self, after: &Self, size: int, alignment: int, r: Option<VirtualAddress>) -> bool {
        let regions = self.region_nodes();
        let nr = regions.len() as int;
        let some_fit = exists|k: int, j: int| first_fit(regions, k, j, size, alignment);
        let tail_fits = nr > 0 && Self::bump_fits(regions.last().data, size, alignment);
        &&& self.manager().frames().only_took(&after.manager().frames())
        &&& forall|k: int, b: int|
            0 <= k < nr && 0 <= b < regions[k].data.blocks().len() && (#[trigger] self.block_at(k, b)).left.is_used
                ==> k < after.region_nodes().len() && b < after.region_nodes()[k].data.blocks().len()
                && after.block_at(k, b) == self.block_at(k, b)
        &&& r.is_some() && some_fit ==> {
            &&& after.manager() == self.manager()
            &&& exists|k: int, j: int, i: int|
                #![trigger regions[k].data.free_list()[j], regions[k].data.blocks()[i]]
                {
                    let region = regions[k].data;
                    &&& first_fit(regions, k, j, size, alignment)
                    &&& 0 <= i < region.blocks().len()
                    &&& payload_of(region.blocks()[i]) == region.free_list()[j]
                    &&& self.region_replaced(
                        after,
                        k,
                        region.blocks().update(i, with_used(region.blocks()[i], true)),
                        region.free_list().remove(j),
                        region.allocated(),
                    )
                }
        }
        &&& r.is_some() && !some_fit && tail_fits ==> {
            let last = regions.last().data;
            let b = Self::bumped_block(last.current(), size, alignment);
            &&& after.manager() == self.manager()
            &&& self.region_replaced(
                after,
                nr - 1,
                last.blocks().push(b),
                last.free_list(),
                last.allocated() + 2 * HEADER_SIZE + b.left.size,
            )
        }
        &&& r.is_some() && !some_fit && !tail_fits ==> {
            let fresh = after.region_nodes().last().data;
            let b = Self::bumped_block(fresh.payload_start(), size, alignment);
            &&& after.region_nodes().len() == nr + 1
            &&& after.region_nodes().drop_last() == regions
            &&& fresh.blocks() == seq![b]
            &&& fresh.free_list().len() == 0
            &&& fresh.allocated() == 2 * HEADER_SIZE + b.left.size
        }
    }

    /// Allocates `size` bytes aligned to `alignment`. The first free block
    /// that can serve the request, by region order and then free-list order,
    /// is used; failing that, a block is bumped off the last region; failing
    /// that, off a new region. `None` means that memory ran out.
    #[verifier::rlimit(100)]
    #[verifier::spinoff_prover]
    pub fn alloc_aligned(&mut self, size: u64, alignment: u64) -> (r: Option<VirtualAddress>)
        requires
            old(self).wf(),
            0 < size,
            0 < alignment,
            size + alignment <= MAX_REQUEST,
        ensures
            final(self).wf(),
            old(self).allocated_as(final(self), size as int, alignment as int, r),
            old(self).allocation_disjoint(final(self), size as int, alignment as int, r),
            old(self).alloc_effect(final(self), size as int, alignment as int, r),
    {
        let ghost regions0 = self.regions.nodes();
        if self.has_free_blocks {
            let n = self.regions.len();
            let mut any_free = false;
            let mut k: usize = 0;
            while k < n
                invariant
                    self.wf(),
                    old(self).wf(),
                    self.has_free_blocks,
                    n == regions0.len(),
                    self.region_nodes() == regions0,
                    self.manager() == old(self).manager(),
                    regions0 == old(self).region_nodes(),
                    k <= n,
                    0 < size,
                    0 < alignment,
                    size + alignment <= MAX_REQUEST,
                    forall|kk: int| 0 <= kk < k ==> #[trigger] no_fit(regions0[kk].data, size as int, alignment as int),
                    !any_free ==> forall|kk: int| 0 <= kk < k ==> (#[trigger] regions0[kk]).data.free_list().len() == 0,
                decreases n - k,
            {
                proof {
                    assert(self.region_placed(k as int));
                }
                let ghost before = self.regions.nodes()[k as int];
                let region = self.regions.get_mut(k);
                let taken = region.take_free_block(size, alignment);
                match taken {
                    Some(a) => {
                        proof {
                            let rk = self.region_nodes()[k as int];
                            assert forall|kk: int| 0 <= kk < self.region_nodes().len() implies #[trigger] self.region_placed(kk) by {
                                assert(old(self).region_placed(kk));
                                if kk + 1 == k {
                                    assert(self.region_nodes()[kk + 1].address == regions0[kk + 1].address);
                                }
                            }
                            let (j, i) = choose|j: int, i: int|
                                #![trigger before.data.free_list()[j], before.data.blocks()[i]]
                                {
                                    let aa = before.data.free_list()[j] as int;
                                    &&& 0 <= j < before.data.free_list().len()
                                    &&& (forall|jj: int|
                                        0 <= jj < j ==> !node_fits(
                                            before.data.blocks(),
                                            before.data.free_list()[jj] as int,
                                            size as int,
                                            alignment as int,
                                        ))
                                    &&& 0 <= i < before.data.blocks().len()
                                    &&& payload_of(before.data.blocks()[i]) == aa
                                    &&& !before.data.blocks()[i].left.is_used
                                    &&& before.data.blocks()[i].left.size >= size + padding_for(aa, alignment as int)
                                    &&& a == aa + padding_for(aa, alignment as int)
                                };
                            assert(first_fit(regions0, k as int, j, size as int, alignment as int));
                            assert forall|k2: int, j2: int| #[trigger] first_fit(regions0, k2, j2, size as int, alignment as int) implies k2 == k && j2 == j by {
                                if k2 < k {
                                    assert(no_fit(regions0[k2].data, size as int, alignment as int));
                                } else if k2 > k {
                                    assert(no_fit(regions0[k as int].data, size as int, alignment as int));
                                    assert(!node_fits(regions0[k as int].data.blocks(), regions0[k as int].data.free_list()[j] as int, size as int, alignment as int));
                                } else if j2 < j {
                                } else if j2 > j {
                                }
                            }
                            let aa = before.data.free_list()[j] as int;
                            crate::utils::lemma_align_up(aa, alignment as int);
                            old(self).lemma_disjoint_from_free_block(k as int, i, a as int, a + size);
                            assert(self.block_at(k as int, i).left.is_used);
                            assert(payload_of(self.block_at(k as int, i)) == aa);
                            assert(self.holds_allocation(a as int, size as int, alignment as int));
                            assert(regions0[k as int].data.free_list().len() > 0);
                        }
                        return Some(VirtualAddress::new(a));
                    },
                    None => {},
                }
                proof {
                    assert(self.region_nodes() =~= regions0);
                    self.lemma_wf_same(old(self));
                }
                if self.regions.get(k).free_count() > 0 {
                    any_free = true;
                }
                k = k + 1;
            }
            self.has_free_blocks = any_free;
            proof {
                if !any_free {
                    assert forall|kk: int| 0 <= kk < self.region_nodes().len() implies (#[trigger] self.region_nodes()[kk]).data.free_list().len() == 0 by {
                        assert(regions0[kk].data.free_list().len() == 0);
                    }
                }
                assert forall|k: int| 0 <= k < self.region_nodes().len() implies #[trigger] self.region_placed(k) by {
                    assert(old(self).region_placed(k));
                }
            }
        }
        proof {
            assert forall|k: int| 0 <= k < regions0.len() implies no_fit(regions0[k].data, size as int, alignment as int) by {
                if !old(self).has_free_blocks {
                    assert(regions0[k].data.free_list().len() == 0);
                }
            }
            assert forall|k: int, j: int| !first_fit(regions0, k, j, size as int, alignment as int) by {
                if first_fit(regions0, k, j, size as int, alignment as int) {
                    assert(no_fit(regions0[k].data, size as int, alignment as int));
                }
            }
        }
        let n = self.regions.len();
        if n > 0 {
            proof {
                assert(old(self).region_placed(n - 1));
            }
            let ghost before = self.regions.nodes()[n - 1];
            let tail = self.regions.get_mut(n - 1);
            match tail.allocate_block_aligned(size, alignment) {
                Some((address, padding)) => {
                    proof {
                        assert forall|kk: int| 0 <= kk < self.region_nodes().len() implies #[trigger] self.region_placed(kk) by {
                            assert(old(self).region_placed(kk));
                        }
                        crate::utils::lemma_align_up((address + HEADER_SIZE) as int, alignment as int);
                        crate::utils::lemma_align_up(size + padding, 8);
                        assert forall|kk: int|
                            0 <= kk < old(self).region_nodes().len() && kk != n - 1 implies old(self).region_nodes()[kk].data.end_address() <= address
                                || u64::MAX <= old(self).region_nodes()[kk].data.payload_start() by {
                            old(self).lemma_regions_ordered(kk, n - 1);
                            assert(old(self).region_placed(n - 1));
                        }
                        old(self).lemma_meets_nothing(
                            (address + HEADER_SIZE + padding) as int,
                            address + HEADER_SIZE + padding + size,
                            address as int,
                            u64::MAX as int,
                            n - 1,
                        );
                        assert(self.block_at(n - 1, before.data.blocks().len() as int).left.is_used);
                        assert(self.holds_allocation((address + HEADER_SIZE + padding) as int, size as int, alignment as int));
                        if old(self).no_free_blocks() {
                            assert forall|kk: int| 0 <= kk < self.region_nodes().len() implies (#[trigger] self.region_nodes()[kk]).data.free_list().len() == 0 by {
                                assert(old(self).region_nodes()[kk].data.free_list().len() == 0);
                            }
                        }
                        if !self.has_free_blocks {
                            assert forall|kk: int| 0 <= kk < self.region_nodes().len() implies (#[trigger] self.region_nodes()[kk]).data.free_list().len() == 0 by {
                                assert(regions0[kk].data.free_list().len() == 0);
                            }
                        }
                    }
                    return Some(VirtualAddress::new(address + HEADER_SIZE + padding));
                },
                None => {},
            }
            proof {
                assert(self.region_nodes() =~= regions0);
                assert forall|k: int| 0 <= k < self.region_nodes().len() implies #[trigger] self.region_placed(k) by {
                    assert(old(self).region_placed(k));
                }
            }
        }
        if !self.allocate_region(size, alignment) {
            return None;
        }
        let n = self.regions.len();
        proof {
            assert(self.region_placed(n - 1));
            let fresh = self.region_nodes()[n - 1].data;
            let p = fresh.current() + HEADER_SIZE;
            let pad = padding_for(p, alignment as int);
            crate::utils::lemma_align_up(p, alignment as int);
            crate::utils::lemma_align_up(size + pad, 8);
            assert(Self::bump_fits(fresh, size as int, alignment as int));
        }
        let ghost fresh = self.region_nodes()[n - 1].data;
        let ghost nodes1 = self.region_nodes();
        let tail = self.regions.get_mut(n - 1);
        let res = tail.allocate_block_aligned(size, alignment);
        match res {
            Some((address, padding)) => {
                proof {
                    assert forall|kk: int| 0 <= kk < self.region_nodes().len() implies #[trigger] self.region_placed(kk) by {
                        if kk < n - 1 {
                            assert(self.region_nodes()[kk] == regions0[kk]);
                            assert(old(self).region_placed(kk));
                        }
                    }
                    crate::utils::lemma_align_up((address + HEADER_SIZE) as int, alignment as int);
                    crate::utils::lemma_align_up(size + padding, 8);
                    assert forall|kk: int|
                        0 <= kk < old(self).region_nodes().len() && kk != -1 implies old(self).region_nodes()[kk].data.end_address() <= old(self).manager().cursor()
                            || u64::MAX <= old(self).region_nodes()[kk].data.payload_start() by {
                        assert(old(self).region_placed(kk));
                    }
                    old(self).lemma_meets_nothing(
                        (address + HEADER_SIZE + padding) as int,
                        address + HEADER_SIZE + padding + size,
                        old(self).manager().cursor() as int,
                        u64::MAX as int,
                        -1,
                    );
                    assert(self.block_at(n - 1, 0).left.is_used);
                    assert(self.holds_allocation((address + HEADER_SIZE + padding) as int, size as int, alignment as int));
                    assert(self.region_nodes() == nodes1.update(n - 1, self.region_nodes()[n - 1]));
                    assert(self.region_nodes().drop_last() =~= nodes1.drop_last());
                    assert(self.region_nodes()[n - 1].data.blocks() =~= seq![Self::bumped_block(fresh.payload_start(), size as int, alignment as int)]);
                    assert forall|k: int, b: int|
                        0 <= k < regions0.len() && 0 <= b < regions0[k].data.blocks().len() && (#[trigger] old(self).block_at(k, b)).left.is_used
                            implies k < self.region_nodes().len() && b < self.region_nodes()[k].data.blocks().len()
                            && self.block_at(k, b) == old(self).block_at(k, b) by {
                        assert(self.region_nodes()[k] == regions0[k]);
                    }
                    if old(self).no_free_blocks() {
                        assert forall|kk: int| 0 <= kk < self.region_nodes().len() implies (#[trigger] self.region_nodes()[kk]).data.free_list().len() == 0 by {
                            if kk < n - 1 {
                                assert(self.region_nodes()[kk] == old(self).region_nodes()[kk]);
                                assert(old(self).region_nodes()[kk].data.free_list().len() == 0);
                            }
                        }
                    }
                }
                Some(VirtualAddress::new(address + HEADER_SIZE + padding))
            },
            None => {
                proof {
                    assert(Self::bump_fits(fresh, size as int, alignment as int));
                    assert(false);
                }
                None
            },
        }
    }

    /// Allocates `size` bytes at 1-byte alignment.
    pub fn allocate(&mut self, size: u64) -> (r: Option<VirtualAddress>)
        requires
            old(self).wf(),
            0 < size < MAX_REQUEST,
        ensures
            final(self).wf(),
            old(self).allocated_as(final(self), size as int, 1, r),
            old(self).allocation_disjoint(final(self), size as int, 1, r),
            old(self).alloc_effect(final(self), size as int, 1, r),
    {
        self.alloc_aligned(size, 1)
    }

    /// Frees the allocation at `address`: the first region whose range holds
    /// it releases the block whose payload holds it. An address in no region,
    /// or in no used block, is ignored.
    pub fn free(&mut self, address: VirtualAddress)
        requires
            old(self).wf(),
        ensures
            final(self).wf(),
            old(self).freed_as(final(self), address@ as int),
    {
        let n = self.regions.len();
        let a = address.as_addr();
        let mut k: usize = 0;
        while k < n
            invariant
                self.wf(),
                *self == *old(self),
                n == self.region_nodes().len(),
                k <= n,
                a == address@,
                forall|kk: int| 0 <= kk < k ==> !region_contains(self.region_nodes()[kk].data, a as int),
            decreases n - k,
        {
            let region = self.regions.get(k);
            if region.get_payload_address().as_addr() <= a && a < region.get_end_address().as_addr() {
                proof {
                    assert(self.region_placed(k as int));
                }
                let ghost before = self.region_nodes()[k as int];
                let released = self.regions.get_mut(k).release(a);
                if released {
                    self.has_free_blocks = true;
                }
                proof {
                    assert forall|kk: int| 0 <= kk < self.region_nodes().len() implies #[trigger] self.region_placed(kk) by {
                        assert(old(self).region_placed(kk));
                    }
                    if !self.has_free_blocks {
                        assert forall|kk: int| 0 <= kk < self.region_nodes().len() implies (#[trigger] self.region_nodes()[kk]).data.free_list().len() == 0 by {
                            assert(old(self).region_nodes()[kk].data.free_list().len() == 0);
                        }
                    }
                    let d = self.region_nodes()[k as int].data;
                    assert(self.region_nodes() == old(self).region_nodes().update(
                        k as int,
                        SinglyLinkedListNode { address: before.address, data: d },
                    ));
                }
                return;
            }
            k = k + 1;
        }
    }
}

/// Allocating `size` bytes, freeing them and allocating `size` bytes again
/// succeeds and returns the same address, when the heap had no free block to
/// start with:
/// the freed block has no free neighbour to merge with, becomes the only
/// free block, and is the first that fits.
pub proof fn lemma_alloc_free_alloc(
    h0: &ExplicitFreeList,
    h1: &ExplicitFreeList,
    h2: &ExplicitFreeList,
    h3: &ExplicitFreeList,
    size: int,
    alignment: int,
    a: VirtualAddress,
    r2: Option<VirtualAddress>,
)
    requires
        h0.wf(),
        h1.wf(),
        h2.wf(),
        h0.no_free_blocks(),
        0 < size,
        0 < alignment,
        h0.allocated_as(h1, size, alignment, Some(a)),
        h0.allocation_disjoint(h1, size, alignment, Some(a)),
        h1.freed_as(h2, a@ as int),
        h2.allocated_as(h3, size, alignment, r2),
    ensures
        r2 == Some(a),
{
    assert(h1.no_free_blocks());
    let (k, b) = choose|k: int, b: int|
        {
            &&& 0 <= k < h1.region_nodes().len()
            &&& 0 <= b < h1.region_nodes()[k].data.blocks().len()
            &&& (#[trigger] h1.block_at(k, b)).left.is_used
            &&& a@ == payload_of(h1.block_at(k, b)) + padding_for(payload_of(h1.block_at(k, b)), alignment)
            &&& h1.block_at(k, b).left.size >= size + padding_for(payload_of(h1.block_at(k, b)), alignment)
        };
    let regions = h1.region_nodes();
    let r1 = regions[k].data;
    let ob = r1.blocks();
    let p = payload_of(ob[b]);
    let pad = padding_for(p, alignment);
    crate::utils::lemma_align_up(p, alignment);
    h1.lemma_block_in_region(k, b);
    assert(h1.region_placed(k));
    assert(r1.block_ok(b));
    assert(region_contains(r1, a@ as int));
    assert forall|kk: int| 0 <= kk < k implies !region_contains(regions[kk].data, a@ as int) by {
        h1.lemma_regions_ordered(kk, k);
    }
    assert(r1.releasable(a@ as int)) by {
        assert(payload_holds(ob[b], a@ as int));
    }
    let d = choose|d: HeapRegion|
        {
            &&& h2.region_nodes() == regions.update(
                k,
                SinglyLinkedListNode { address: regions[k].address, data: d },
            )
            &&& if regions[k].data.releasable(a@ as int) {
                regions[k].data.released(&d, a@ as int)
            } else {
                d.blocks() == regions[k].data.blocks() && d.free_list() == regions[k].data.free_list()
            }
        };
    assert(r1.released(&d, a@ as int));
    let i = choose|i: int|
        #![trigger ob[i]]
        {
            let lo = window_lo(ob, i);
            let hi = window_hi(ob, i);
            let m = merged_block(ob, lo, hi);
            let ofl = r1.free_list();
            &&& 0 <= i < ob.len()
            &&& payload_holds(ob[i], a@ as int)
            &&& ob[i].left.is_used
            &&& d.blocks() == merge_window(ob, lo, hi, m)
            &&& m.left.size == window_sum(ob, lo, hi) + 2 * HEADER_SIZE * (hi - lo)
            &&& (lo == i && hi == i) ==> d.free_list() == ofl.push(payload_of(m) as u64)
        };
    if i < b {
        r1.lemma_ordered(i, b);
    } else if i > b {
        r1.lemma_ordered(b, i);
    }
    assert(i == b);
    assert(r1.free_list().len() == 0);
    if b > 0 {
        assert(ob[b - 1].left.is_used) by {
            if !ob[b - 1].left.is_used {
                assert(r1.free_list().contains(payload_of(ob[b - 1]) as u64));
            }
        }
    }
    if b + 1 < ob.len() {
        assert(ob[b + 1].left.is_used) by {
            if !ob[b + 1].left.is_used {
                assert(r1.free_list().contains(payload_of(ob[b + 1]) as u64));
            }
        }
    }
    assert(window_lo(ob, b) == b && window_hi(ob, b) == b);
    let m = merged_block(ob, b, b);
    assert(window_sum(ob, b, b) == ob[b].left.size);
    assert(d.free_list() == r1.free_list().push(payload_of(m) as u64));
    assert(d.free_list() =~= seq![p as u64]);
    lemma_merge_window_index(ob, b, b, m, b);
    let regions2 = h2.region_nodes();
    assert(regions2[k].data == d);
    assert(node_fits(d.blocks(), p, size, alignment)) by {
        assert(d.blocks()[b] == m);
        assert(payload_of(d.blocks()[b]) == p);
    }
    assert forall|kk: int| 0 <= kk < k implies #[trigger] no_fit(regions2[kk].data, size, alignment) by {
        assert(regions2[kk] == regions[kk]);
        assert(regions[kk].data.free_list().len() == 0);
    }
    assert(first_fit(regions2, k, 0, size, alignment));
    assert(r2.is_some());
    let a2 = r2->0;
    let (k2, j2) = choose|k2: int, j2: int|
        first_fit(regions2, k2, j2, size, alignment) && a2@ == regions2[k2].data.free_list()[j2]
            + padding_for(regions2[k2].data.free_list()[j2] as int, alignment);
    if k2 < k {
        assert(regions2[k2] == regions[k2]);
        assert(regions[k2].data.free_list().len() == 0);
    } else if k2 > k {
        assert(no_fit(regions2[k].data, size, alignment));
        assert(!node_fits(d.blocks(), d.free_list()[0] as int, size, alignment));
    }
    assert(k2 == k && j2 == 0);
}

} // verus!
