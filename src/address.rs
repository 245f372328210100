use vstd::prelude::*;

verus! {

/// Size of a page and of a frame, in bytes.
pub const PAGE_SIZE: u64 = 4096;

/// A physical memory address.
#[derive(Clone, Copy, PartialEq, Eq, Structural, Debug)]
pub struct PhysicalAddress(pub u64);

/// A virtual memory address.
#[derive(Clone, Copy, PartialEq, Eq, Structural, Debug)]
pub struct VirtualAddress(pub u64);

impl View for PhysicalAddress {
    type V = u64;

    open spec fn view(&self) -> u64 {
        self.0
    }
}

impl View for VirtualAddress {
    type V = u64;

    open spec fn view(&self) -> u64 {
        self.0
    }
}

impl PhysicalAddress {
    /// The address as a pointer-sized integer.
    pub fn as_ptr(&self) -> (r: usize)
        ensures
            r == self@ as usize,
    {
        self.0 as usize
    }

    pub fn as_addr(&self) -> (r: u64)
        ensures
            r == self@,
    {
        self.0
    }

    pub fn new(addr: u64) -> (r: Self)
        ensures
            r@ == addr,
    {
        PhysicalAddress(addr)
    }

    pub fn is_aligned_to(&self, size: u64) -> (r: bool)
        requires
            size > 0,
        ensures
            r == (self@ % size == 0),
    {
        self.0 % size == 0
    }

    pub fn is_page_aligned(&self) -> (r: bool)
        ensures
            r == (self@ % PAGE_SIZE == 0),
    {
        self.0 % PAGE_SIZE == 0
    }

    pub fn is_null(&self) -> (r: bool)
        ensures
            r == (self@ == 0),
    {
        self.0 == 0
    }

    /// Distance from this address up to the next multiple of `alignment`.
    pub fn align_up_offset(&self, alignment: u64) -> (r: u64)
        requires
            alignment > 0,
        ensures
            r == (alignment - self@ % alignment) % (alignment as int),
            r < alignment,
            (self@ + r) % (alignment as int) == 0,
    {
        let r = (alignment - (self.0 % alignment)) % alignment;
        proof {
            lemma_align_offset(self@ as int, alignment as int);
        }
        r
    }

    /// This address moved up by `offset` bytes.
    pub fn add_offset(&self, offset: u64) -> (r: Self)
        requires
            self@ + offset <= u64::MAX,
        ensures
            r@ == self@ + offset,
    {
        PhysicalAddress(self.0 + offset)
    }
}

impl VirtualAddress {
    pub fn new(addr: u64) -> (r: Self)
        ensures
            r@ == addr,
    {
        VirtualAddress(addr)
    }

    pub fn is_aligned_to(&self, size: u64) -> (r: bool)
        requires
            size > 0,
        ensures
            r == (self@ % size == 0),
    {
        self.0 % size == 0
    }

    pub fn as_addr(&self) -> (r: u64)
        ensures
            r == self@,
    {
        self.0
    }

    /// The address as a pointer-sized integer.
    pub fn as_ptr(&self) -> (r: usize)
        ensures
            r == self@ as usize,
    {
        self.0 as usize
    }

    pub fn is_page_aligned(&self) -> (r: bool)
        ensures
            r == (self@ % PAGE_SIZE == 0),
    {
        self.0 % PAGE_SIZE == 0
    }

    pub fn is_null(&self) -> (r: bool)
        ensures
            r == (self@ == 0),
    {
        self.0 == 0
    }

    /// Distance from this address up to the next multiple of `alignment`.
    pub fn align_up_offset(&self, alignment: u64) -> (r: u64)
        requires
            alignment > 0,
        ensures
            r == (alignment - self@ % alignment) % (alignment as int),
            r < alignment,
            (self@ + r) % (alignment as int) == 0,
    {
        let r = (alignment - (self.0 % alignment)) % alignment;
        proof {
            lemma_align_offset(self@ as int, alignment as int);
        }
        r
    }

    /// This address moved up by `offset` bytes.
    pub fn add_offset(&self, offset: u64) -> (r: Self)
        requires
            self@ + offset <= u64::MAX,
        ensures
            r@ == self@ + offset,
    {
        VirtualAddress(self.0 + offset)
    }

    /// The distance in bytes from `other` up to this address.
    pub fn distance_from(&self, other: VirtualAddress) -> (r: u64)
        requires
            other@ <= self@,
        ensures
            r == self@ - other@,
    {
        self.0 - other.0
    }
}

proof fn lemma_align_offset(a: int, n: int)
    requires
        a >= 0,
        n > 0,
    ensures
        0 <= (n - a % n) % n < n,
        (a + (n - a % n) % n) % n == 0,
{
    let r = a % n;
    let q = a / n;
    assert(a == q * n + r && 0 <= r < n) by (nonlinear_arith)
        requires n > 0, r == a % n, q == a / n;
    if r == 0 {
        assert((n - r) % n == 0) by (nonlinear_arith) requires n > 0, r == 0;
        assert((a + 0) % n == 0) by (nonlinear_arith) requires a == q * n, n > 0;
    } else {
        assert((n - r) % n == n - r) by (nonlinear_arith) requires n > 0, 0 < r < n;
        assert((a + (n - r)) % n == 0) by (nonlinear_arith)
            requires a == q * n + r, n > 0;
    }
}

/// Conversion of a plain integer into a typed address.
pub trait IntoAddress {
    spec fn address_value(&self) -> u64;

    fn as_virtual(&self) -> (r: VirtualAddress)
        ensures
            r@ == self.address_value(),
    ;

    fn as_physical(&self) -> (r: PhysicalAddress)
        ensures
            r@ == self.address_value(),
    ;
}

impl IntoAddress for u64 {
    open spec fn address_value(&self) -> u64 {
        *self
    }

    fn as_virtual(&self) -> (r: VirtualAddress) {
        VirtualAddress::new(*self)
    }

    fn as_physical(&self) -> (r: PhysicalAddress) {
        PhysicalAddress::new(*self)
    }
}

impl IntoAddress for u32 {
    open spec fn address_value(&self) -> u64 {
        *self as u64
    }

    fn as_virtual(&self) -> (r: VirtualAddress) {
        VirtualAddress::new(*self as u64)
    }

    fn as_physical(&self) -> (r: PhysicalAddress) {
        PhysicalAddress::new(*self as u64)
    }
}

} // verus!
