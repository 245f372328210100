//! A bit array recording which frames of one memory region are in use.
use vstd::prelude::*;

use crate::address::PAGE_SIZE;

verus! {

/// Size of the bitmap record that heads each usable region, in bytes.
pub const BITMAP_SIZE: u64 = 32;

/// Whether bit `i` of the byte array `data` is set.
pub open spec fn bit(data: Seq<u8>, i: int) -> bool {
    (data[i / 8] >> ((i % 8) as u8)) & 1u8 == 1u8
}

/// Number of set bits among the first `n` bits of `data`.
pub open spec fn count_set(data: Seq<u8>, n: nat) -> nat
    decreases n,
{
    if n == 0 {
        0
    } else {
        count_set(data, (n - 1) as nat) + if bit(data, n - 1) {
            1nat
        } else {
            0nat
        }
    }
}

/// Pages reserved at the start of a region of `total` pages, enough to hold
/// the bitmap record and its bit array.
pub open spec fn reserved_pages_spec(total: int) -> int {
    let needed = (BITMAP_SIZE + (total + 7) / 8 + PAGE_SIZE - 1) / (PAGE_SIZE as int);
    if needed < total {
        needed
    } else {
        total
    }
}

proof fn lemma_count_le(data: Seq<u8>, n: nat)
    ensures
        count_set(data, n) <= n,
    decreases n,
{
    if n > 0 {
        lemma_count_le(data, (n - 1) as nat);
    }
}

/// Changing one bit from clear to set raises the count by one if the bit is
/// counted.
proof fn lemma_count_flip(a: Seq<u8>, b: Seq<u8>, i: int, n: nat)
    requires
        0 <= i,
        !bit(a, i),
        bit(b, i),
        forall|j: int| 0 <= j < n && j != i ==> bit(a, j) == bit(b, j),
    ensures
        count_set(b, n) == count_set(a, n) + if i < n {
            1int
        } else {
            0int
        },
    decreases n,
{
    if n > 0 {
        lemma_count_flip(a, b, i, (n - 1) as nat);
    }
}

/// If fewer than `n` of the first `n` bits are set, one of them is clear.
proof fn lemma_clear_exists(data: Seq<u8>, n: nat) -> (i: int)
    requires
        count_set(data, n) < n,
    ensures
        0 <= i < n,
        !bit(data, i),
    decreases n,
{
    if bit(data, n - 1) {
        lemma_clear_exists(data, (n - 1) as nat)
    } else {
        n - 1
    }
}

proof fn lemma_set_bit_byte(b: u8, c: u8, c2: u8)
    requires
        c < 8,
        c2 < 8,
    ensures
        (((b | (1u8 << c)) >> c2) & 1u8 == 1u8) == (c2 == c || (b >> c2) & 1u8 == 1u8),
{
    assert((((b | (1u8 << c)) >> c2) & 1u8 == 1u8) == (c2 == c || (b >> c2) & 1u8 == 1u8))
        by (bit_vector)
        requires
            c < 8,
            c2 < 8,
    ;
}

proof fn lemma_clear_bit_byte(b: u8, c: u8, c2: u8)
    requires
        c < 8,
        c2 < 8,
    ensures
        (((b & !(1u8 << c)) >> c2) & 1u8 == 1u8) == (c2 != c && (b >> c2) & 1u8 == 1u8),
{
    assert((((b & !(1u8 << c)) >> c2) & 1u8 == 1u8) == (c2 != c && (b >> c2) & 1u8 == 1u8))
        by (bit_vector)
        requires
            c < 8,
            c2 < 8,
    ;
}

/// Which frames of a region are used, one bit per frame, with a next-fit
/// search hint.
pub struct Bitmap {
    pub last_index_used: usize,
    pub used_pages: usize,
    pub total_pages: usize,
    pub data: Vec<u8>,
}

impl Bitmap {
    /// Whether frame `i` of the region is marked used.
    #[verifier::inline]
    pub open spec fn is_set(&self, i: int) -> bool {
        bit(self.data@, i)
    }

    pub open spec fn wf(&self) -> bool {
        &&& self.total_pages <= self.data@.len() * 8
        &&& self.used_pages <= self.total_pages
        &&& self.used_pages == count_set(self.data@, self.total_pages as nat)
    }

    /// The bitmap after `i` is marked used, with the counter and hint as the
    /// search leaves them.
    pub open spec fn takes(&self, next: &Bitmap, i: int) -> bool {
        &&& next.total_pages == self.total_pages
        &&& next.used_pages == self.used_pages + 1
        &&& next.last_index_used == i + 1
        &&& next.data@.len() == self.data@.len()
        &&& next.is_set(i)
        &&& forall|j: int| 0 <= j < self.total_pages && j != i ==> next.is_set(j) == self.is_set(j)
    }

    /// The frame that the next-fit search picks: the first clear bit from
    /// the hint (or from 0 once the hint has passed `used_pages`) up to
    /// `used_pages`, else the first clear bit from 0.
    pub open spec fn next_fit(&self, i: int) -> bool {
        let start = if self.last_index_used > self.used_pages {
            0
        } else {
            self.last_index_used as int
        };
        &&& 0 <= i <= self.used_pages
        &&& !self.is_set(i)
        &&& ((start <= i && forall|j: int| start <= j < i ==> self.is_set(j)) || ((forall|j: int|
            start <= j <= self.used_pages ==> self.is_set(j)) && forall|j: int|
            0 <= j < i ==> self.is_set(j)))
    }

    /// A bitmap for a region of `total_pages` pages whose first pages are
    /// reserved for the bitmap itself.
    pub fn install(total_pages: usize) -> (r: Bitmap)
        requires
            total_pages + 8 <= usize::MAX,
        ensures
            r.wf(),
            r.total_pages == total_pages,
            r.used_pages == reserved_pages_spec(total_pages as int),
            r.last_index_used == r.used_pages,
            total_pages > 0 ==> r.used_pages >= 1,
            forall|i: int| 0 <= i < total_pages ==> (r.is_set(i) <==> i < r.used_pages),
    {
        let bytes: usize = (total_pages + 7) / 8;
        let mut data: Vec<u8> = Vec::new();
        let mut k: usize = 0;
        while k < bytes
            invariant
                k <= bytes,
                data@.len() == k,
                forall|j: int| 0 <= j < k ==> data@[j] == 0u8,
            decreases bytes - k,
        {
            data.push(0u8);
            k = k + 1;
        }
        let t = total_pages as u64;
        let needed = (BITMAP_SIZE + (t + 7) / 8 + PAGE_SIZE - 1) / PAGE_SIZE;
        let reserved: usize = if (needed as usize) < total_pages {
            needed as usize
        } else {
            total_pages
        };
        let mut bitmap = Bitmap { last_index_used: reserved, used_pages: 0, total_pages, data };
        assert forall|i: int| 0 <= i < total_pages implies !bit(bitmap.data@, i) by {
            let b = bitmap.data@[i / 8];
            assert(b == 0u8);
            lemma_zero_byte((i % 8) as u8);
        }
        proof {
            lemma_count_zero(bitmap.data@, total_pages as nat);
            assert(reserved >= 1 || total_pages == 0);
        }
        let mut i: usize = 0;
        while i < reserved
            invariant
                i <= reserved <= total_pages,
                bitmap.wf(),
                bitmap.total_pages == total_pages,
                bitmap.last_index_used == reserved,
                bitmap.used_pages == i,
                forall|j: int| 0 <= j < total_pages ==> (bitmap.is_set(j) <==> j < i),
            decreases reserved - i,
        {
            bitmap.set_used(i);
            i = i + 1;
        }
        bitmap
    }

    /// Marks frame `index` used.
    pub fn set_used(&mut self, index: usize)
        requires
            old(self).wf(),
            index < old(self).total_pages,
            !old(self).is_set(index as int),
        ensures
            final(self).wf(),
            final(self).total_pages == old(self).total_pages,
            final(self).last_index_used == old(self).last_index_used,
            final(self).used_pages == old(self).used_pages + 1,
            final(self).data@.len() == old(self).data@.len(),
            final(self).is_set(index as int),
            forall|j: int|
                0 <= j < old(self).total_pages && j != index ==> final(self).is_set(j) == old(
                    self,
                ).is_set(j),
    {
        let row = index / 8;
        let col = (index % 8) as u8;
        let old_data = Ghost(self.data@);
        let value = self.data[row] | (1u8 << col);
        self.data.set(row, value);
        proof {
            assert forall|j: int| 0 <= j < self.data@.len() * 8 implies bit(self.data@, j) == (j
                == index || bit(old_data@, j)) by {
                if j / 8 == row as int {
                    lemma_set_bit_byte(old_data@[row as int], col, (j % 8) as u8);
                }
            }
            lemma_count_flip(old_data@, self.data@, index as int, self.total_pages as nat);
            lemma_count_le(self.data@, self.total_pages as nat);
        }
        self.used_pages = self.used_pages + 1;
    }

    /// Marks frame `index` free.
    pub fn set_free(&mut self, index: usize)
        requires
            old(self).wf(),
            index < old(self).total_pages,
            old(self).is_set(index as int),
        ensures
            final(self).wf(),
            final(self).total_pages == old(self).total_pages,
            final(self).last_index_used == old(self).last_index_used,
            final(self).used_pages == old(self).used_pages - 1,
            final(self).data@.len() == old(self).data@.len(),
            !final(self).is_set(index as int),
            forall|j: int|
                0 <= j < old(self).total_pages && j != index ==> final(self).is_set(j) == old(
                    self,
                ).is_set(j),
    {
        let row = index / 8;
        let col = (index % 8) as u8;
        let old_data = Ghost(self.data@);
        let value = self.data[row] & !(1u8 << col);
        self.data.set(row, value);
        proof {
            assert forall|j: int| 0 <= j < self.data@.len() * 8 implies bit(self.data@, j) == (j
                != index && bit(old_data@, j)) by {
                if j / 8 == row as int {
                    lemma_clear_bit_byte(old_data@[row as int], col, (j % 8) as u8);
                }
            }
            lemma_count_flip(self.data@, old_data@, index as int, self.total_pages as nat);
            lemma_count_le(self.data@, self.total_pages as nat);
        }
        self.used_pages = self.used_pages - 1;
    }

    /// Whether frame `index` is marked used.
    pub fn is_used(&self, index: usize) -> (r: bool)
        requires
            index < self.data@.len() * 8,
        ensures
            r == self.is_set(index as int),
    {
        let row = index / 8;
        let col = (index % 8) as u8;
        (self.data[row] >> col) & 1u8 == 1u8
    }

    pub fn is_full(&self) -> (r: bool)
        ensures
            r == (self.total_pages == self.used_pages),
    {
        self.total_pages == self.used_pages
    }

    /// Takes a free frame by next-fit search and marks it used.
    pub fn get_free_index(&mut self) -> (r: Option<usize>)
        requires
            old(self).wf(),
        ensures
            final(self).wf(),
            old(self).used_pages < old(self).total_pages ==> match r {
                Some(i) => old(self).next_fit(i as int) && old(self).takes(final(self), i as int),
                None => false,
            },
            old(self).used_pages >= old(self).total_pages ==> r.is_none() && final(self).data@ == old(
                self,
            ).data@ && final(self).used_pages == old(self).used_pages && final(self).total_pages
                == old(self).total_pages && final(self).last_index_used == old(
                self,
            ).last_index_used,
    {
        if self.used_pages >= self.total_pages {
            return None;
        }
        if self.last_index_used > self.used_pages {
            self.last_index_used = 0;
        }
        let start = self.last_index_used;
        let used = self.used_pages;
        let mut i: usize = start;
        while i <= used
            invariant
                start <= i <= used + 1,
                used < self.total_pages,
                self.wf(),
                self.data@ == old(self).data@,
                self.total_pages == old(self).total_pages,
                self.used_pages == old(self).used_pages,
                start == self.last_index_used,
                start == (if old(self).last_index_used > old(self).used_pages {
                    0
                } else {
                    old(self).last_index_used
                }),
                used == self.used_pages,
                forall|j: int| start <= j < i ==> self.is_set(j),
            decreases used + 1 - i,
        {
            if !self.is_used(i) {
                self.set_used(i);
                self.last_index_used = i + 1;
                return Some(i);
            }
            i = i + 1;
        }
        let mut i: usize = 0;
        while i <= used
            invariant
                i <= used + 1,
                used < self.total_pages,
                self.wf(),
                self.data@ == old(self).data@,
                self.total_pages == old(self).total_pages,
                self.used_pages == old(self).used_pages,
                start == self.last_index_used,
                start == (if old(self).last_index_used > old(self).used_pages {
                    0
                } else {
                    old(self).last_index_used
                }),
                used == self.used_pages,
                forall|j: int| start <= j <= used ==> self.is_set(j),
                forall|j: int| 0 <= j < i ==> self.is_set(j),
            decreases used + 1 - i,
        {
            if !self.is_used(i) {
                self.set_used(i);
                self.last_index_used = i + 1;
                return Some(i);
            }
            i = i + 1;
        }
        proof {
            lemma_count_prefix(self.data@, (self.used_pages + 1) as nat, self.total_pages as nat);
            let c = lemma_clear_exists(self.data@, (self.used_pages + 1) as nat);
            assert(self.is_set(c));
        }
        None
    }
}

proof fn lemma_zero_byte(c: u8)
    ensures
        (0u8 >> c) & 1u8 == 0u8,
{
    assert((0u8 >> c) & 1u8 == 0u8) by (bit_vector);
}

proof fn lemma_count_zero(data: Seq<u8>, n: nat)
    requires
        forall|j: int| 0 <= j < n ==> !bit(data, j),
    ensures
        count_set(data, n) == 0,
    decreases n,
{
    if n > 0 {
        lemma_count_zero(data, (n - 1) as nat);
    }
}

/// The count of a longer prefix is at least that of a shorter one, and
/// grows by at most the added length.
proof fn lemma_count_prefix(data: Seq<u8>, m: nat, n: nat)
    requires
        m <= n,
    ensures
        count_set(data, m) <= count_set(data, n),
        count_set(data, n) <= count_set(data, m) + (n - m),
    decreases n - m,
{
    if m < n {
        lemma_count_prefix(data, m, (n - 1) as nat);
    }
}

} // verus!
