use vstd::prelude::*;

verus! {

/// The smallest multiple of `align` that is not below `addr`.
pub open spec fn align_up_spec(addr: int, align: int) -> int {
    ((addr + align - 1) / align) * align
}

/// The largest multiple of `align` that is not above `addr`.
pub open spec fn align_down_spec(addr: int, align: int) -> int {
    (addr / align) * align
}

/// Facts about rounding up that callers use: the result is a multiple of
/// `align` and lies in `[addr, addr + align)`.
pub proof fn lemma_align_up(addr: int, align: int)
    requires
        addr >= 0,
        align > 0,
    ensures
        align_up_spec(addr, align) % align == 0,
        addr <= align_up_spec(addr, align) < addr + align,
        addr % align == 0 ==> align_up_spec(addr, align) == addr,
{
    let q = (addr + (align - 1)) / align;
    let r = (addr + align - 1) % align;
    assert(addr + align - 1 == q * align + r) by (nonlinear_arith)
        requires align > 0, q == (addr + align - 1) / align, r == (addr + align - 1) % align;
    assert(0 <= r < align) by (nonlinear_arith)
        requires align > 0, r == (addr + align - 1) % align;
    assert((q * align) % align == 0) by (nonlinear_arith)
        requires align > 0;
    if addr % align == 0 {
        let k = addr / align;
        assert(addr == k * align) by (nonlinear_arith)
            requires align > 0, addr % align == 0, k == addr / align;
        assert((addr + align - 1) / align == k) by (nonlinear_arith)
            requires align > 0, addr == k * align;
    }
}

/// Facts about rounding down: the result is a multiple of `align` and lies
/// in `(addr - align, addr]`.
pub proof fn lemma_align_down(addr: int, align: int)
    requires
        addr >= 0,
        align > 0,
    ensures
        align_down_spec(addr, align) % align == 0,
        addr - align < align_down_spec(addr, align) <= addr,
{
    let q = addr / align;
    let r = addr % align;
    assert(addr == q * align + r) by (nonlinear_arith)
        requires align > 0, q == addr / align, r == addr % align;
    assert(0 <= r < align) by (nonlinear_arith)
        requires align > 0, r == addr % align;
    assert((q * align) % align == 0) by (nonlinear_arith)
        requires align > 0;
}

/// Rounds `addr` up to the next multiple of `align`.
pub fn align_up(addr: u64, align: u64) -> (r: u64)
    requires
        align > 0,
        addr + align - 1 <= u64::MAX,
    ensures
        r == align_up_spec(addr as int, align as int),
        r % align == 0,
        addr <= r < addr + align,
{
    proof {
        lemma_align_up(addr as int, align as int);
    }
    let q = (addr + (align - 1)) / align;
    assert(q * align <= addr + align - 1) by (nonlinear_arith)
        requires align > 0, q == (addr as int + align - 1) / (align as int);
    q * align
}

/// Rounds `addr` down to the previous multiple of `align`.
pub fn align_down(addr: u64, align: u64) -> (r: u64)
    requires
        align > 0,
    ensures
        r == align_down_spec(addr as int, align as int),
        r % align == 0,
        addr - align < r <= addr,
{
    proof {
        lemma_align_down(addr as int, align as int);
    }
    let q = addr / align;
    assert(q * align <= addr) by (nonlinear_arith)
        requires align > 0, q == (addr as int) / (align as int);
    q * align
}

/// Number of `unit`-sized pieces needed to cover `n` bytes.
pub fn div_ceil(n: u64, unit: u64) -> (r: u64)
    requires
        unit > 0,
    ensures
        r == (n as int + unit - 1) / (unit as int),
        r * unit >= n,
        n > 0 ==> (r - 1) * unit < n,
{
    let q = n / unit;
    let rem = n % unit;
    assert(n == q * unit + rem) by (nonlinear_arith)
        requires unit > 0, q == (n as int) / (unit as int), rem == (n as int) % (unit as int);
    let r = if rem == 0 {
        q
    } else {
        assert(q < u64::MAX) by (nonlinear_arith)
            requires q == (n as int) / (unit as int), unit > 1, n <= u64::MAX;
        q + 1
    };
    assert(r == (n as int + unit - 1) / (unit as int)) by (nonlinear_arith)
        requires unit > 0, n == q * unit + rem, 0 <= rem < unit,
            r == (if rem == 0 { q as int } else { q + 1 });
    assert(r * unit >= n && (n > 0 ==> (r - 1) * unit < n)) by (nonlinear_arith)
        requires unit > 0, n == q * unit + rem, 0 <= rem < unit,
            r == (if rem == 0 { q as int } else { q + 1 });
    r
}

} // verus!
