//! Memory management subsystem: page arithmetic and address types.
use vstd::prelude::*;

pub mod frame;
pub mod heap;
pub mod page;
pub mod phys;

verus! {

/// Page size (4 KiB)
pub const PAGE_SIZE: usize = 4096;

/// Page size shift
pub const PAGE_SHIFT: usize = 12;

/// The largest multiple of `PAGE_SIZE` that is at most `addr`.
pub open spec fn floor_page(addr: int) -> int {
    addr - addr % (PAGE_SIZE as int)
}

/// The smallest multiple of `PAGE_SIZE` that is at least `addr`.
pub open spec fn ceil_page(addr: int) -> int {
    floor_page(addr + PAGE_SIZE - 1)
}

/// Align address down to page boundary
pub fn page_floor(addr: usize) -> (r: usize)
    ensures
        r == floor_page(addr as int),
        r % PAGE_SIZE == 0,
        r <= addr < r + PAGE_SIZE,
{
    assert(addr & !4095usize == addr - addr % 4096) by (bit_vector);
    addr & !(PAGE_SIZE - 1)
}

/// Align address up to page boundary
pub fn page_ceil(addr: usize) -> (r: usize)
    requires
        addr + PAGE_SIZE - 1 <= usize::MAX,
    ensures
        r == ceil_page(addr as int),
        r % PAGE_SIZE == 0,
        addr <= r < addr + PAGE_SIZE,
{
    let x: usize = addr + (PAGE_SIZE - 1);
    assert(x & !4095usize == x - x % 4096) by (bit_vector);
    x & !(PAGE_SIZE - 1)
}

/// Physical address type
#[derive(Debug, Clone, Copy, PartialEq, Eq, Structural, PartialOrd, Ord)]
pub struct PhysAddr(pub usize);

/// Virtual address type
#[derive(Debug, Clone, Copy, PartialEq, Eq, Structural, PartialOrd, Ord)]
pub struct VirtAddr(pub usize);

/// Index of the Sv39 page-table level `level` (0, 1 or 2) for virtual address `addr`:
/// nine bits starting at bit `12 + 9 * level`.
pub open spec fn vpn_index(addr: int, level: int) -> int {
    (addr / (PAGE_SIZE as int) / pow512(level)) % 512
}

/// `512` raised to `level`, for the three Sv39 levels.
pub open spec fn pow512(level: int) -> int {
    if level <= 0 { 1 } else if level == 1 { 512 } else { 262144 }
}

impl PhysAddr {
    pub fn new(addr: usize) -> (r: Self)
        ensures
            r.0 == addr,
    {
        PhysAddr(addr)
    }

    pub fn as_usize(self) -> (r: usize)
        ensures
            r == self.0,
    {
        self.0
    }

    /// Offset of the address within its page.
    pub fn page_offset(self) -> (r: usize)
        ensures
            r == self.0 % PAGE_SIZE,
    {
        let a = self.0;
        assert(a & 4095usize == a % 4096) by (bit_vector);
        a & (PAGE_SIZE - 1)
    }

    /// Number of the page that holds the address.
    pub fn page_number(self) -> (r: usize)
        ensures
            r == self.0 / PAGE_SIZE,
    {
        let a = self.0;
        assert(a >> 12usize == a / 4096) by (bit_vector);
        a >> PAGE_SHIFT
    }
}

impl VirtAddr {
    pub fn new(addr: usize) -> (r: Self)
        ensures
            r.0 == addr,
    {
        VirtAddr(addr)
    }

    pub fn as_usize(self) -> (r: usize)
        ensures
            r == self.0,
    {
        self.0
    }

    /// Offset of the address within its page.
    pub fn page_offset(self) -> (r: usize)
        ensures
            r == self.0 % PAGE_SIZE,
    {
        let a = self.0;
        assert(a & 4095usize == a % 4096) by (bit_vector);
        a & (PAGE_SIZE - 1)
    }

    /// VPN[0]: the page-table index at level 0 (bits 12..21).
    pub fn vpn0(self) -> (r: usize)
        ensures
            r == vpn_index(self.0 as int, 0),
            r < 512,
    {
        let a = self.0;
        assert((a >> 12usize) & 0x1FFusize == (a / 4096) % 512) by (bit_vector);
        (a >> 12) & 0x1FF
    }

    /// VPN[1]: the page-table index at level 1 (bits 21..30).
    pub fn vpn1(self) -> (r: usize)
        ensures
            r == vpn_index(self.0 as int, 1),
            r < 512,
    {
        let a = self.0;
        assert((a >> 21usize) & 0x1FFusize == (a / 4096 / 512) % 512) by (bit_vector);
        (a >> 21) & 0x1FF
    }

    /// VPN[2]: the page-table index at level 2 (bits 30..39).
    pub fn vpn2(self) -> (r: usize)
        ensures
            r == vpn_index(self.0 as int, 2),
            r < 512,
    {
        let a = self.0;
        assert((a >> 30usize) & 0x1FFusize == (a / 4096 / 262144) % 512) by (bit_vector);
        (a >> 30) & 0x1FF
    }
}

} // verus!
