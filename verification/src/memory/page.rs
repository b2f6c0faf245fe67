//! Sv39 page table management
//!
//! RISC-V Sv39 uses 3-level page tables with 512 entries per level.
//! Virtual addresses: 39 bits (512 GiB address space)
//! Physical addresses: 56 bits
use vstd::prelude::*;
use super::{PhysAddr, VirtAddr, PAGE_SIZE, vpn_index, floor_page};
use super::frame::{FrameAllocator, FrameView, alloc_frame, alloc_frame_spec, zero_frame};
use super::phys::{PhysMemory, PhysView, PHYS_LIMIT, lemma_write_effect, lemma_zero_effect};

verus! {

/// Page table entry flags
#[derive(Debug, Clone, Copy, PartialEq, Eq, Structural)]
pub enum PteFlags {
    Valid,
    Read,
    Write,
    Execute,
    User,
    Global,
    Accessed,
    Dirty,
}

impl PteFlags {
    /// The bit of the flag in an entry.
    pub open spec fn spec_bits(self) -> u64 {
        match self {
            PteFlags::Valid => 1,
            PteFlags::Read => 2,
            PteFlags::Write => 4,
            PteFlags::Execute => 8,
            PteFlags::User => 16,
            PteFlags::Global => 32,
            PteFlags::Accessed => 64,
            PteFlags::Dirty => 128,
        }
    }

    /// The bit of the flag in an entry (`1 << position`).
    pub fn bits(self) -> (r: u64)
        ensures
            r == self.spec_bits(),
    {
        match self {
            PteFlags::Valid => 1,
            PteFlags::Read => 2,
            PteFlags::Write => 4,
            PteFlags::Execute => 8,
            PteFlags::User => 16,
            PteFlags::Global => 32,
            PteFlags::Accessed => 64,
            PteFlags::Dirty => 128,
        }
    }
}

/// Valid | Read | Write
pub const PTE_RW: u64 = 0x7;

/// Valid | Read | Execute
pub const PTE_RX: u64 = 0xB;

/// Valid | Read | Write | Execute
pub const PTE_RWX: u64 = 0xF;

/// Valid | Read | Write | User
pub const PTE_USER_RW: u64 = 0x17;

/// Valid | Read | Execute | User
pub const PTE_USER_RX: u64 = 0x1B;

/// Valid | Read | Write | Execute | User
pub const PTE_USER_RWX: u64 = 0x1F;

/// Mask of the 44-bit physical page number once shifted down.
pub const PPN_MASK: u64 = 0xFFF_FFFF_FFFF;

/// The raw entry that `PageTableEntry::new(ppn, flags)` holds.
pub open spec fn pte_new(ppn: usize, flags: u64) -> u64 {
    ((ppn as u64) << 10u64) | flags
}

/// Whether entry `e` has its Valid bit set.
pub open spec fn pte_valid(e: u64) -> bool {
    e & 1u64 != 0
}

/// Whether entry `e` has one of R, W, X set.
pub open spec fn pte_leaf(e: u64) -> bool {
    e & 0xEu64 != 0
}

/// The physical page number in entry `e`.
pub open spec fn pte_ppn(e: u64) -> usize {
    ((e >> 10u64) & PPN_MASK) as usize
}

/// The physical address that entry `e` points to.
pub open spec fn pte_addr(e: u64) -> usize {
    pte_ppn(e) << 12usize
}

/// A page table entry
#[derive(Clone, Copy)]
pub struct PageTableEntry(u64);

impl View for PageTableEntry {
    type V = u64;

    closed spec fn view(&self) -> u64 {
        self.0
    }
}

impl PageTableEntry {
    pub fn empty() -> (r: Self)
        ensures
            r@ == 0,
    {
        PageTableEntry(0)
    }

    pub fn new(ppn: usize, flags: u64) -> (r: Self)
        ensures
            r@ == pte_new(ppn, flags),
    {
        PageTableEntry(((ppn as u64) << 10) | flags)
    }

    pub fn is_valid(&self) -> (r: bool)
        ensures
            r == pte_valid(self@),
    {
        self.0 & PteFlags::Valid.bits() != 0
    }

    /// A leaf entry has R, W, or X set
    pub fn is_leaf(&self) -> (r: bool)
        ensures
            r == pte_leaf(self@),
            r == (self@ & PteFlags::Read.spec_bits() != 0 || self@ & PteFlags::Write.spec_bits()
                != 0 || self@ & PteFlags::Execute.spec_bits() != 0),
    {
        proof {
            lemma_leaf_flags(self@, 0, 0);
        }
        assert(2u64 | 4u64 | 8u64 == 14u64) by (bit_vector);
        self.0 & (PteFlags::Read.bits() | PteFlags::Write.bits() | PteFlags::Execute.bits()) != 0
    }

    pub fn ppn(&self) -> (r: usize)
        ensures
            r == pte_ppn(self@),
    {
        ((self.0 >> 10) & PPN_MASK) as usize
    }

    pub fn flags(&self) -> (r: u64)
        ensures
            r == self@ & 0x3FF,
            r < 1024,
    {
        let e = self.0;
        assert(e & 0x3FFu64 < 1024) by (bit_vector);
        e & 0x3FF
    }

    pub fn phys_addr(&self) -> (r: PhysAddr)
        ensures
            r.0 == pte_addr(self@),
    {
        PhysAddr::new(self.ppn() << 12)
    }
}

/// A page table (512 entries, 4 KiB)
pub struct PageTable {
    entries: Vec<PageTableEntry>,
}

impl View for PageTable {
    type V = Seq<u64>;

    closed spec fn view(&self) -> Seq<u64> {
        self.entries@.map_values(|e: PageTableEntry| e@)
    }
}

impl PageTable {
    /// Every table holds exactly 512 entries.
    pub closed spec fn wf(&self) -> bool {
        self.entries.len() == 512
    }

    /// Create an empty page table
    pub fn empty() -> (t: Self)
        ensures
            t.wf(),
            t@ == Seq::new(512, |i: int| 0u64),
    {
        let mut entries: Vec<PageTableEntry> = Vec::new();
        let mut i: usize = 0;
        while i < 512
            invariant
                i <= 512,
                entries.len() == i,
                forall|k: int| 0 <= k < i ==> #[trigger] entries@[k]@ == 0,
            decreases 512 - i,
        {
            entries.push(PageTableEntry::empty());
            i = i + 1;
        }
        let t = PageTable { entries };
        assert(t@ =~= Seq::new(512, |i: int| 0u64));
        t
    }

    /// Get entry at index
    pub fn get(&self, index: usize) -> (r: PageTableEntry)
        requires
            self.wf(),
            index < 512,
        ensures
            r@ == self@[index as int],
            self@.len() == 512,
    {
        self.entries[index]
    }

    /// Set entry at index
    pub fn set(&mut self, index: usize, entry: PageTableEntry)
        requires
            old(self).wf(),
            index < 512,
        ensures
            final(self).wf(),
            final(self)@ == old(self)@.update(index as int, entry@),
    {
        self.entries.set(index, entry);
        assert(self@ =~= old(self)@.update(index as int, entry@));
    }
}

// ---------------------------------------------------------------------------
// Entry laws

/// An entry built from a page number below 2^44 and flags below 2^10 gives both back.
pub proof fn lemma_entry_fields(ppn: usize, flags: u64)
    requires
        ppn < 0x1000_0000_0000,
        flags < 1024,
    ensures
        pte_ppn(pte_new(ppn, flags)) == ppn,
        pte_new(ppn, flags) & 0x3FF == flags,
        pte_valid(pte_new(ppn, flags)) == (flags & 1 != 0),
{
    assert(((((((ppn as u64) << 10u64) | flags) >> 10u64) & 0xFFF_FFFF_FFFFu64) as usize) == ppn)
        by (bit_vector)
        requires
            (ppn as u64) < 0x1000_0000_0000u64,
            flags < 1024u64,
    ;
    assert(((((ppn as u64) << 10u64) | flags) & 0x3FFu64) == flags) by (bit_vector)
        requires
            flags < 1024u64,
    ;
    assert(((((ppn as u64) << 10u64) | flags) & 1u64 != 0) == (flags & 1u64 != 0)) by (bit_vector);
}

/// An entry is a leaf exactly when it grants read, write or execute access: when one
/// of the Read, Write or Execute flag bits is set in it. An entry built from a page
/// number and flags is a leaf exactly when the flags hold one of those bits, whatever
/// the page number; so Valid|Read alone makes a leaf.
pub proof fn lemma_leaf_flags(e: u64, ppn: usize, flags: u64)
    ensures
        pte_leaf(e) <== e & PteFlags::Read.spec_bits() != 0,
        pte_leaf(e) <== e & PteFlags::Write.spec_bits() != 0,
        pte_leaf(e) <== e & PteFlags::Execute.spec_bits() != 0,
        pte_leaf(e) ==> e & PteFlags::Read.spec_bits() != 0 || e & PteFlags::Write.spec_bits()
            != 0 || e & PteFlags::Execute.spec_bits() != 0,
        pte_leaf(pte_new(ppn, flags)) == (flags & PteFlags::Read.spec_bits() != 0 || flags
            & PteFlags::Write.spec_bits() != 0 || flags & PteFlags::Execute.spec_bits() != 0),
        pte_leaf(pte_new(ppn, PteFlags::Valid.spec_bits() | PteFlags::Read.spec_bits())),
{
    assert(e & 2u64 != 0 ==> pte_leaf(e)) by (bit_vector);
    assert(e & 4u64 != 0 ==> pte_leaf(e)) by (bit_vector);
    assert(e & 8u64 != 0 ==> pte_leaf(e)) by (bit_vector);
    assert(pte_leaf(e) ==> e & 2u64 != 0 || e & 4u64 != 0 || e & 8u64 != 0) by (bit_vector);
    let x = ppn as u64;
    assert(pte_leaf((x << 10u64) | flags) == (flags & 2u64 != 0 || flags & 4u64 != 0 || flags
        & 8u64 != 0)) by (bit_vector);
    assert(pte_leaf((x << 10u64) | (1u64 | 2u64))) by (bit_vector);
}

/// An entry for the page at page-aligned physical address `addr` below 2^56 points
/// back at `addr`.
pub proof fn lemma_entry_addr(addr: usize, flags: u64)
    requires
        addr % 4096 == 0,
        addr < PHYS_LIMIT,
        flags < 1024,
    ensures
        pte_addr(pte_new(addr / 4096, flags)) == addr,
        pte_valid(pte_new(addr / 4096, flags)) == (flags & 1 != 0),
        flags == 1 ==> pte_valid(pte_new(addr / 4096, flags)),
{
    let x = addr / 4096;
    assert(((((x as u64) << 10u64) | flags) & 1u64 != 0) == (flags & 1u64 != 0)) by (bit_vector);
    assert(1u64 & 1u64 != 0u64) by (bit_vector);
    assert((((((((addr / 4096) as u64) << 10u64) | flags) >> 10u64) & 0xFFF_FFFF_FFFFu64) as usize)
        << 12usize == addr) by (bit_vector)
        requires
            addr % 4096 == 0,
            (addr as u64) < 0x0100_0000_0000_0000u64,
            flags < 1024u64,
    ;
}

// ---------------------------------------------------------------------------
// Mapping

/// The page-table state that `map` and `map_range` act on, and whether they succeeded.
#[verifier::ext_equal]
pub struct MapView {
    pub ok: bool,
    pub root: Seq<u64>,
    pub mem: PhysView,
    pub frames: FrameView,
}

/// Every frame that the allocator can hand out lies in memory `m`.
pub open spec fn mem_covers(m: PhysView, v: FrameView) -> bool {
    &&& m.base <= v.start
    &&& v.start + v.count * 4096 <= m.base + m.words.len() * 8
}

/// Root index `i2` holds a valid entry.
pub open spec fn l1_valid(root: Seq<u64>, i2: int) -> bool {
    pte_valid(root[i2])
}

/// The level-1 table that root entry `i2` points to.
pub open spec fn l1_addr(root: Seq<u64>, i2: int) -> int {
    pte_addr(root[i2]) as int
}

/// Entry `i1` of the level-1 table below root entry `i2`.
pub open spec fn l0_entry(root: Seq<u64>, mem: PhysView, i2: int, i1: int) -> u64 {
    mem.page_word(l1_addr(root, i2), i1)
}

/// The walk through root entry `i2` and level-1 entry `i1` reaches a level-0 table.
pub open spec fn l0_valid(root: Seq<u64>, mem: PhysView, i2: int, i1: int) -> bool {
    l1_valid(root, i2) && pte_valid(l0_entry(root, mem, i2, i1))
}

/// The level-0 table that level-1 entry `i1` below root entry `i2` points to.
pub open spec fn l0_addr(root: Seq<u64>, mem: PhysView, i2: int, i1: int) -> int {
    pte_addr(l0_entry(root, mem, i2, i1)) as int
}

/// `map` only follows entries into tables that lie in memory.
pub open spec fn map_safe(root: Seq<u64>, mem: PhysView, v: FrameView, vaddr: int) -> bool {
    let i2 = vpn_index(vaddr, 2);
    let i1 = vpn_index(vaddr, 1);
    &&& root.len() == 512
    &&& mem.wf()
    &&& v.wf()
    &&& mem_covers(mem, v)
    &&& l1_valid(root, i2) ==> mem.holds_page(l1_addr(root, i2))
    &&& l0_valid(root, mem, i2, i1) ==> mem.holds_page(l0_addr(root, mem, i2, i1))
}

/// The level-2 step of `map` at root index `i2`: a valid entry is kept; an invalid one
/// gets a fresh frame from the allocator, zeroed and entered with only the Valid flag.
/// The flag is false when no frame is left.
pub open spec fn ensure_l1(root: Seq<u64>, mem: PhysView, fv: FrameView, i2: int) -> (
    bool,
    Seq<u64>,
    PhysView,
    FrameView,
) {
    if l1_valid(root, i2) {
        (true, root, mem, fv)
    } else {
        match alloc_frame_spec(fv).0 {
            None => (false, root, mem, fv),
            Some(f) => (
                true,
                root.update(i2, pte_new((f / 4096) as usize, 1)),
                mem.zero_page(f),
                alloc_frame_spec(fv).1,
            ),
        }
    }
}

/// The level-1 step of `map` at entry `i1` of the table below root entry `i2`, in the
/// same way.
pub open spec fn ensure_l0(root: Seq<u64>, mem: PhysView, fv: FrameView, i2: int, i1: int) -> (
    bool,
    PhysView,
    FrameView,
) {
    if l0_valid(root, mem, i2, i1) {
        (true, mem, fv)
    } else {
        match alloc_frame_spec(fv).0 {
            None => (false, mem, fv),
            Some(f) => (
                true,
                mem.zero_page(f).write(l1_addr(root, i2), i1, pte_new((f / 4096) as usize, 1)),
                alloc_frame_spec(fv).1,
            ),
        }
    }
}

/// What `map(root, vaddr, paddr, flags)` does: the two upper levels are ensured (when
/// no frame is left the mapping stops with what was done so far), then the level-0
/// entry gets `paddr`'s page number with `flags`.
#[verifier::opaque]
pub open spec fn map_spec(
    root: Seq<u64>,
    mem: PhysView,
    fv: FrameView,
    vaddr: int,
    paddr: int,
    flags: u64,
) -> MapView {
    let i2 = vpn_index(vaddr, 2);
    let i1 = vpn_index(vaddr, 1);
    let i0 = vpn_index(vaddr, 0);
    let leaf = pte_new((paddr / 4096) as usize, flags);
    let (ok1, root1, mem1, fv1) = ensure_l1(root, mem, fv, i2);
    if !ok1 {
        MapView { ok: false, root: root1, mem: mem1, frames: fv1 }
    } else {
        let (ok2, mem2, fv2) = ensure_l0(root1, mem1, fv1, i2, i1);
        if !ok2 {
            MapView { ok: false, root: root1, mem: mem2, frames: fv2 }
        } else {
            MapView {
                ok: true,
                root: root1,
                mem: mem2.write(l0_addr(root1, mem2, i2, i1), i0, leaf),
                frames: fv2,
            }
        }
    }
}

/// A frame that `alloc_frame` hands out lies inside the memory.
proof fn lemma_fresh_frame_in_memory(mem: PhysView, fv: FrameView)
    requires
        mem.wf(),
        fv.wf(),
        mem_covers(mem, fv),
        alloc_frame_spec(fv).0 is Some,
    ensures
        mem.holds_page(alloc_frame_spec(fv).0->0),
        alloc_frame_spec(fv).1.wf(),
        mem_covers(mem, alloc_frame_spec(fv).1),
        alloc_frame_spec(fv).0->0 < PHYS_LIMIT,
{
    let s = choose|s: int| fv.is_first_fit(s, 1);
    assert(fv.window_free(s, 1));
    let c = fv.claim(s, 1);
    assert forall|i: int| #[trigger] c.allocated.contains(i) implies 0 <= i < c.count by {
        if !fv.allocated.contains(i) {
            assert(vstd::set_lib::set_int_range(s, s + 1).contains(i));
        }
    }
    assert(c.allocated =~= fv.allocated.insert(s));
}

/// Map a virtual address to a physical address
///
/// Creates intermediate page tables as needed.
pub fn map(
    root: &mut PageTable,
    mem: &mut PhysMemory,
    frames: &mut FrameAllocator,
    vaddr: VirtAddr,
    paddr: PhysAddr,
    flags: u64,
) -> (r: Result<(), &'static str>)
    requires
        old(root).wf(),
        old(frames).wf(),
        map_safe(old(root)@, old(mem)@, old(frames)@, vaddr.0 as int),
    ensures
        final(root).wf(),
        final(frames).wf(),
        final(mem)@.wf(),
        mem_covers(final(mem)@, final(frames)@),
        ({
            let o = map_spec(
                old(root)@,
                old(mem)@,
                old(frames)@,
                vaddr.0 as int,
                paddr.0 as int,
                flags,
            );
            &&& (r is Ok) == o.ok
            &&& final(root)@ == o.root
            &&& final(mem)@ == o.mem
            &&& final(frames)@ == o.frames
        }),
        r matches Err(e) ==> e@ == "out of memory"@,
{
    proof {
        reveal(map_spec);
    }
    let vpn0 = vaddr.vpn0();
    let vpn1 = vaddr.vpn1();
    let vpn2 = vaddr.vpn2();
    let ghost fv = frames@;
    let ghost m = mem@;

    // Level 2 -> Level 1
    let l2_entry = root.get(vpn2);
    let l1_table: usize = if l2_entry.is_valid() {
        l2_entry.phys_addr().as_usize()
    } else {
        let frame = match alloc_frame(frames) {
            Some(f) => f,
            None => {
                return Err("out of memory");
            },
        };
        proof {
            lemma_fresh_frame_in_memory(m, fv);
            lemma_entry_addr(frame.0, 1);
        }
        zero_frame(mem, frame);
        let entry = PageTableEntry::new(frame.page_number(), PteFlags::Valid.bits());
        root.set(vpn2, entry);
        frame.as_usize()
    };
    let ghost fv1 = frames@;
    let ghost m1 = mem@;
    let ghost r1 = root@;
    proof {
        assert(l1_table as int == l1_addr(r1, vpn2 as int));
        assert(l1_valid(r1, vpn2 as int));
        if pte_valid(l2_entry@) {
            assert(m1 == m);
            assert(fv1 == fv);
        } else {
            assert(m1.words.len() == m.words.len());
            assert(m1.page_word(l1_table as int, vpn1 as int) == 0);
            assert(!pte_valid(0u64)) by (bit_vector);
        }
        assert(mem_covers(m1, fv1));
    }

    // Level 1 -> Level 0
    let l1_entry = PageTableEntry(mem.read(l1_table, vpn1));
    let l0_table: usize = if l1_entry.is_valid() {
        l1_entry.phys_addr().as_usize()
    } else {
        let frame = match alloc_frame(frames) {
            Some(f) => f,
            None => {
                return Err("out of memory");
            },
        };
        proof {
            lemma_fresh_frame_in_memory(m1, fv1);
            lemma_entry_addr(frame.0, 1);
        }
        zero_frame(mem, frame);
        let entry = PageTableEntry::new(frame.page_number(), PteFlags::Valid.bits());
        let ghost z = mem@;
        mem.write(l1_table, vpn1, entry.0);
        proof {
            lemma_write_effect(z, l1_table as int, vpn1 as int, entry@, l1_table as int, vpn1 as int);
        }
        frame.as_usize()
    };
    proof {
        assert(l0_table as int == l0_addr(r1, mem@, vpn2 as int, vpn1 as int));
    }

    // Level 0 - leaf entry
    proof {
        assert(mem@.words.len() == m.words.len());
        assert(mem_covers(mem@, frames@));
    }
    let entry = PageTableEntry::new(paddr.page_number(), flags);
    mem.write(l0_table, vpn0, entry.0);
    Ok(())
}

/// What `map_range` does from page `addr` on: identity-map each page below `end`,
/// stopping at the first failure.
pub open spec fn map_range_spec(
    root: Seq<u64>,
    mem: PhysView,
    fv: FrameView,
    addr: int,
    end: int,
    flags: u64,
) -> MapView
    decreases end + PAGE_SIZE - addr,
{
    if addr >= end {
        MapView { ok: true, root, mem, frames: fv }
    } else {
        let o = map_spec(root, mem, fv, addr, addr, flags);
        if !o.ok {
            o
        } else {
            map_range_spec(o.root, o.mem, o.frames, addr + PAGE_SIZE, end, flags)
        }
    }
}

/// Every `map` that `map_range_spec` performs is safe.
pub open spec fn map_range_safe(
    root: Seq<u64>,
    mem: PhysView,
    fv: FrameView,
    addr: int,
    end: int,
    flags: u64,
) -> bool
    decreases end + PAGE_SIZE - addr,
{
    addr >= end || {
        &&& map_safe(root, mem, fv, addr)
        &&& {
            let o = map_spec(root, mem, fv, addr, addr, flags);
            o.ok ==> map_range_safe(o.root, o.mem, o.frames, addr + PAGE_SIZE, end, flags)
        }
    }
}

/// Map a range of pages (identity mapping)
pub fn map_range(
    root: &mut PageTable,
    mem: &mut PhysMemory,
    frames: &mut FrameAllocator,
    start: usize,
    end: usize,
    flags: u64,
) -> (r: Result<(), &'static str>)
    requires
        old(root).wf(),
        old(frames).wf(),
        old(mem)@.wf(),
        end <= usize::MAX - 4095,
        map_range_safe(
            old(root)@,
            old(mem)@,
            old(frames)@,
            floor_page(start as int),
            end as int,
            flags,
        ),
    ensures
        final(root).wf(),
        final(frames).wf(),
        final(mem)@.wf(),
        ({
            let o = map_range_spec(
                old(root)@,
                old(mem)@,
                old(frames)@,
                floor_page(start as int),
                end as int,
                flags,
            );
            &&& (r is Ok) == o.ok
            &&& final(root)@ == o.root
            &&& final(mem)@ == o.mem
            &&& final(frames)@ == o.frames
        }),
        r matches Err(e) ==> e@ == "out of memory"@,
{
    let ghost whole = map_range_spec(
        root@,
        mem@,
        frames@,
        floor_page(start as int),
        end as int,
        flags,
    );
    let mut addr = super::page_floor(start);
    while addr < end
        invariant
            root.wf(),
            frames.wf(),
            end <= usize::MAX - 4095,
            map_range_safe(root@, mem@, frames@, addr as int, end as int, flags),
            map_range_spec(root@, mem@, frames@, addr as int, end as int, flags) == whole,
            whole == map_range_spec(
                old(root)@,
                old(mem)@,
                old(frames)@,
                floor_page(start as int),
                end as int,
                flags,
            ),
            mem@.wf(),
        decreases end + PAGE_SIZE - addr,
    {
        let res = map(root, mem, frames, VirtAddr::new(addr), PhysAddr::new(addr), flags);
        match res {
            Ok(()) => {},
            Err(e) => {
                return Err(e);
            },
        }
        addr = addr + PAGE_SIZE;
    }
    Ok(())
}

/// What `init_kernel_mapping` does: identity-map the kernel from `0x8000_0000` up to
/// `kernel_end` read-write-execute, then the UART page read-write.
pub open spec fn kernel_mapping_spec(
    root: Seq<u64>,
    mem: PhysView,
    fv: FrameView,
    kernel_end: int,
) -> MapView {
    let o = map_range_spec(root, mem, fv, KERNEL_START as int, kernel_end, PTE_RWX);
    if !o.ok {
        o
    } else {
        map_spec(o.root, o.mem, o.frames, UART_PAGE as int, UART_PAGE as int, PTE_RW)
    }
}

/// Where the kernel image starts.
pub const KERNEL_START: usize = 0x8000_0000;

/// The UART's MMIO page.
pub const UART_PAGE: usize = 0x1000_0000;

/// Set up identity mapping for kernel: the kernel image up to `kernel_end`, then the
/// UART page for I/O.
pub fn init_kernel_mapping(
    root: &mut PageTable,
    mem: &mut PhysMemory,
    frames: &mut FrameAllocator,
    kernel_end: usize,
) -> (r: Result<(), &'static str>)
    requires
        old(root).wf(),
        old(frames).wf(),
        old(mem)@.wf(),
        kernel_end <= usize::MAX - 4095,
        map_range_safe(old(root)@, old(mem)@, old(frames)@, KERNEL_START as int, kernel_end as int, PTE_RWX),
        ({
            let o = map_range_spec(
                old(root)@,
                old(mem)@,
                old(frames)@,
                KERNEL_START as int,
                kernel_end as int,
                PTE_RWX,
            );
            o.ok ==> map_safe(o.root, o.mem, o.frames, UART_PAGE as int)
        }),
    ensures
        final(root).wf(),
        final(frames).wf(),
        final(mem)@.wf(),
        ({
            let o = kernel_mapping_spec(old(root)@, old(mem)@, old(frames)@, kernel_end as int);
            &&& (r is Ok) == o.ok
            &&& final(root)@ == o.root
            &&& final(mem)@ == o.mem
            &&& final(frames)@ == o.frames
        }),
        r matches Err(e) ==> e@ == "out of memory"@,
{
    // Identity map kernel memory region
    assert(floor_page(KERNEL_START as int) == KERNEL_START as int);
    match map_range(root, mem, frames, KERNEL_START, kernel_end, PTE_RWX) {
        Ok(()) => {},
        Err(e) => {
            return Err(e);
        },
    }
    // Map UART for I/O
    match map(root, mem, frames, VirtAddr::new(UART_PAGE), PhysAddr::new(UART_PAGE), PTE_RW) {
        Ok(()) => {},
        Err(e) => {
            return Err(e);
        },
    }
    Ok(())
}

/// The `satp` value that activates the Sv39 table at physical address `root`:
/// MODE = 8 in bits 60..64 and the table's page number below.
pub fn satp_value(root: PhysAddr) -> (r: u64)
    ensures
        r == (8u64 << 60u64) | ((root.0 as u64) >> 12u64),
{
    (8u64 << 60) | ((root.as_usize() as u64) >> 12)
}

// ---------------------------------------------------------------------------
// Translation laws

/// Sv39 virtual addresses lie below 2^39.
pub const SV39_LIMIT: u64 = 0x80_0000_0000;

/// `i` indexes an entry of a table.
pub open spec fn is_index(i: int) -> bool {
    0 <= i < 512
}

/// The page at address `a` is an allocated frame of `v`.
pub open spec fn frame_allocated(v: FrameView, a: int) -> bool {
    &&& v.start <= a
    &&& (a - v.start) % 4096 == 0
    &&& v.allocated.contains((a - v.start) / 4096)
}

/// Page `a` is an allocated frame that lies in memory.
pub open spec fn table_ok(mem: PhysView, fv: FrameView, a: int) -> bool {
    frame_allocated(fv, a) && mem.holds_page(a)
}

/// Entry `i0` of the level-0 table reached through `i2` and `i1`.
pub open spec fn leaf(root: Seq<u64>, mem: PhysView, i2: int, i1: int, i0: int) -> u64 {
    mem.page_word(l0_addr(root, mem, i2, i1), i0)
}

/// The tree below `root` is sound: every table it reaches is an allocated frame in
/// memory, no level-1 table is also a level-0 table, and no table is reached twice.
#[verifier::opaque]
pub open spec fn tree_ok(root: Seq<u64>, mem: PhysView, fv: FrameView) -> bool {
    &&& root.len() == 512
    &&& mem.wf()
    &&& fv.wf()
    &&& mem_covers(mem, fv)
    &&& forall|i2: int|
        is_index(i2) && l1_valid(root, i2) ==> table_ok(mem, fv, #[trigger] l1_addr(root, i2))
    &&& forall|i2: int, i1: int|
        is_index(i2) && is_index(i1) && #[trigger] l0_valid(root, mem, i2, i1) ==> table_ok(
            mem,
            fv,
            l0_addr(root, mem, i2, i1),
        )
    &&& forall|i2: int, j2: int, j1: int|
        is_index(i2) && is_index(j2) && is_index(j1) && l1_valid(root, i2) && l0_valid(
            root,
            mem,
            j2,
            j1,
        ) ==> #[trigger] l1_addr(root, i2) != #[trigger] l0_addr(root, mem, j2, j1)
    &&& forall|i2: int, j2: int|
        is_index(i2) && is_index(j2) && l1_valid(root, i2) && l1_valid(root, j2) && #[trigger] l1_addr(
            root,
            i2,
        ) == #[trigger] l1_addr(root, j2) ==> i2 == j2
    &&& forall|i2: int, i1: int, j2: int, j1: int|
        is_index(i2) && is_index(i1) && is_index(j2) && is_index(j1) && l0_valid(root, mem, i2, i1)
            && l0_valid(root, mem, j2, j1) && #[trigger] l0_addr(root, mem, i2, i1)
            == #[trigger] l0_addr(root, mem, j2, j1) ==> i2 == j2 && i1 == j1
}

/// The leaf entry that the three-level walk for `vaddr` reaches, or `None` where an
/// upper-level entry is not valid.
pub open spec fn walk(root: Seq<u64>, mem: PhysView, vaddr: int) -> Option<u64> {
    let i2 = vpn_index(vaddr, 2);
    let i1 = vpn_index(vaddr, 1);
    if l0_valid(root, mem, i2, i1) {
        Some(leaf(root, mem, i2, i1, vpn_index(vaddr, 0)))
    } else {
        None
    }
}

/// `e` when it is a valid entry.
pub open spec fn valid_entry(e: u64) -> Option<u64> {
    if pte_valid(e) {
        Some(e)
    } else {
        None
    }
}

/// The valid leaf entry that translates `vaddr`, if any.
pub open spec fn translation(root: Seq<u64>, mem: PhysView, vaddr: int) -> Option<u64> {
    match walk(root, mem, vaddr) {
        Some(e) => valid_entry(e),
        None => None,
    }
}

/// `v` and `w` use the same entry at every level.
pub open spec fn same_vpns(v: int, w: int) -> bool {
    &&& vpn_index(v, 2) == vpn_index(w, 2)
    &&& vpn_index(v, 1) == vpn_index(w, 1)
    &&& vpn_index(v, 0) == vpn_index(w, 0)
}

/// The frame that `alloc_frame` hands out is not an allocated frame, every allocated
/// frame stays allocated, and the new one is allocated afterwards.
proof fn lemma_fresh_frame(mem: PhysView, fv: FrameView)
    requires
        mem.wf(),
        fv.wf(),
        mem_covers(mem, fv),
        alloc_frame_spec(fv).0 is Some,
    ensures
        !frame_allocated(fv, alloc_frame_spec(fv).0->0),
        forall|a: int| frame_allocated(fv, a) ==> #[trigger] frame_allocated(alloc_frame_spec(fv).1, a),
        frame_allocated(alloc_frame_spec(fv).1, alloc_frame_spec(fv).0->0),
        mem.holds_page(alloc_frame_spec(fv).0->0),
        alloc_frame_spec(fv).1.wf(),
        mem_covers(mem, alloc_frame_spec(fv).1),
        pte_valid(pte_new((alloc_frame_spec(fv).0->0 / 4096) as usize, 1)),
        pte_addr(pte_new((alloc_frame_spec(fv).0->0 / 4096) as usize, 1)) == alloc_frame_spec(
            fv,
        ).0->0,
{
    lemma_fresh_frame_in_memory(mem, fv);
    let s = choose|s: int| fv.is_first_fit(s, 1);
    let f = alloc_frame_spec(fv).0->0;
    assert(f == fv.start + s * 4096);
    assert((f - fv.start) / 4096 == s);
    assert(vstd::set_lib::set_int_range(s, s + 1).contains(s));
    assert(!fv.allocated.contains(s));
    lemma_entry_addr(f as usize, 1);
}

/// The vpn indices of an address are table indices.
proof fn lemma_vpn_indices(v: int)
    requires
        0 <= v,
    ensures
        is_index(vpn_index(v, 2)),
        is_index(vpn_index(v, 1)),
        is_index(vpn_index(v, 0)),
{
}

/// The level-2 step of `map` keeps the tree sound and changes no walk: a new level-1
/// table is all zeros, so nothing is reached through it yet.
proof fn lemma_ensure_l1(root: Seq<u64>, mem: PhysView, fv: FrameView, i2: int)
    requires
        tree_ok(root, mem, fv),
        is_index(i2),
        ensure_l1(root, mem, fv, i2).0,
    ensures
        ({
            let (ok, r1, m1, f1) = ensure_l1(root, mem, fv, i2);
            &&& tree_ok(r1, m1, f1)
            &&& l1_valid(r1, i2)
            &&& forall|a: int| frame_allocated(fv, a) ==> #[trigger] frame_allocated(f1, a)
            &&& forall|j2: int, j1: int|
                is_index(j2) && is_index(j1) ==> (#[trigger] l0_valid(r1, m1, j2, j1) == l0_valid(
                    root,
                    mem,
                    j2,
                    j1,
                ))
            &&& forall|j2: int, j1: int|
                is_index(j2) && is_index(j1) && l0_valid(root, mem, j2, j1) ==> #[trigger] l0_addr(
                    r1,
                    m1,
                    j2,
                    j1,
                ) == l0_addr(root, mem, j2, j1)
            &&& forall|j2: int, j1: int, j0: int|
                is_index(j2) && is_index(j1) && is_index(j0) && l0_valid(root, mem, j2, j1)
                    ==> #[trigger] leaf(r1, m1, j2, j1, j0) == leaf(root, mem, j2, j1, j0)
        }),
{
    reveal(tree_ok);
    if l1_valid(root, i2) {
        return;
    }
    lemma_fresh_frame(mem, fv);
    let f = alloc_frame_spec(fv).0->0;
    let f1 = alloc_frame_spec(fv).1;
    let r1 = root.update(i2, pte_new((f / 4096) as usize, 1));
    let m1 = mem.zero_page(f);
    assert(m1.wf()) by {
        lemma_zero_effect(mem, f, f, 0);
    }
    assert(m1.base == mem.base && m1.words.len() == mem.words.len());
    assert(l1_addr(r1, i2) == f);
    // Entries of the new table are zero.
    assert forall|j1: int| is_index(j1) implies l0_entry(r1, m1, i2, j1) == 0 by {
        lemma_zero_effect(mem, f, f, j1);
    }
    assert(!pte_valid(0u64)) by (bit_vector);
    // Other level-1 tables are untouched.
    assert forall|j2: int, j1: int| is_index(j2) && is_index(j1) && j2 != i2 && l1_valid(root, j2)
        implies #[trigger] l0_entry(r1, m1, j2, j1) == l0_entry(root, mem, j2, j1) by {
        assert(table_ok(mem, fv, l1_addr(root, j2)));
        lemma_zero_effect(mem, f, l1_addr(root, j2), j1);
    }
    assert forall|j2: int, j1: int| is_index(j2) && is_index(j1) implies (#[trigger] l0_valid(
        r1,
        m1,
        j2,
        j1,
    ) == l0_valid(root, mem, j2, j1)) by {
        if j2 != i2 && l1_valid(root, j2) {
            assert(l0_entry(r1, m1, j2, j1) == l0_entry(root, mem, j2, j1));
        }
    }
    assert forall|j2: int, j1: int, j0: int|
        is_index(j2) && is_index(j1) && is_index(j0) && l0_valid(root, mem, j2, j1)
            implies #[trigger] leaf(r1, m1, j2, j1, j0) == leaf(root, mem, j2, j1, j0) by {
        assert(l0_entry(r1, m1, j2, j1) == l0_entry(root, mem, j2, j1));
        assert(table_ok(mem, fv, l0_addr(root, mem, j2, j1)));
        lemma_zero_effect(mem, f, l0_addr(root, mem, j2, j1), j0);
    }
    // The tree stays sound.
    assert forall|j2: int| is_index(j2) && l1_valid(r1, j2) implies table_ok(
        m1,
        f1,
        #[trigger] l1_addr(r1, j2),
    ) by {
        if j2 != i2 {
            assert(table_ok(mem, fv, l1_addr(root, j2)));
        }
    }
    assert forall|j2: int, j1: int| is_index(j2) && is_index(j1) && #[trigger] l0_valid(
        r1,
        m1,
        j2,
        j1,
    ) implies table_ok(m1, f1, l0_addr(r1, m1, j2, j1)) by {
        assert(l0_entry(r1, m1, j2, j1) == l0_entry(root, mem, j2, j1));
        assert(table_ok(mem, fv, l0_addr(root, mem, j2, j1)));
    }
    assert forall|k2: int, j2: int, j1: int|
        is_index(k2) && is_index(j2) && is_index(j1) && l1_valid(r1, k2) && l0_valid(r1, m1, j2, j1)
            implies #[trigger] l1_addr(r1, k2) != #[trigger] l0_addr(r1, m1, j2, j1) by {
        assert(l0_entry(r1, m1, j2, j1) == l0_entry(root, mem, j2, j1));
        assert(table_ok(mem, fv, l0_addr(root, mem, j2, j1)));
        if k2 != i2 {
            assert(l1_addr(root, k2) != l0_addr(root, mem, j2, j1));
        }
    }
    assert forall|k2: int, j2: int|
        is_index(k2) && is_index(j2) && l1_valid(r1, k2) && l1_valid(r1, j2) && #[trigger] l1_addr(
            r1,
            k2,
        ) == #[trigger] l1_addr(r1, j2) implies k2 == j2 by {
        if k2 != i2 {
            assert(table_ok(mem, fv, l1_addr(root, k2)));
        }
        if j2 != i2 {
            assert(table_ok(mem, fv, l1_addr(root, j2)));
        }
    }
    assert forall|k2: int, k1: int, j2: int, j1: int|
        is_index(k2) && is_index(k1) && is_index(j2) && is_index(j1) && l0_valid(r1, m1, k2, k1)
            && l0_valid(r1, m1, j2, j1) && #[trigger] l0_addr(r1, m1, k2, k1) == #[trigger] l0_addr(
            r1,
            m1,
            j2,
            j1,
        ) implies k2 == j2 && k1 == j1 by {
        assert(l0_entry(r1, m1, k2, k1) == l0_entry(root, mem, k2, k1));
        assert(l0_entry(r1, m1, j2, j1) == l0_entry(root, mem, j2, j1));
    }
}

/// The level-1 step of `map` keeps the tree sound and changes no walk other than the
/// one through (`i2`, `i1`); a new level-0 table there is all zeros.
proof fn lemma_ensure_l0(root: Seq<u64>, mem: PhysView, fv: FrameView, i2: int, i1: int)
    requires
        tree_ok(root, mem, fv),
        is_index(i2),
        is_index(i1),
        l1_valid(root, i2),
        ensure_l0(root, mem, fv, i2, i1).0,
    ensures
        ({
            let (ok, m2, f2) = ensure_l0(root, mem, fv, i2, i1);
            &&& tree_ok(root, m2, f2)
            &&& l0_valid(root, m2, i2, i1)
            &&& forall|j2: int, j1: int|
                is_index(j2) && is_index(j1) && !(j2 == i2 && j1 == i1) ==> (#[trigger] l0_valid(
                    root,
                    m2,
                    j2,
                    j1,
                ) == l0_valid(root, mem, j2, j1))
            &&& forall|j2: int, j1: int, j0: int|
                is_index(j2) && is_index(j1) && is_index(j0) && l0_valid(root, mem, j2, j1)
                    ==> #[trigger] leaf(root, m2, j2, j1, j0) == leaf(root, mem, j2, j1, j0)
            &&& !l0_valid(root, mem, i2, i1) ==> forall|j0: int|
                is_index(j0) ==> #[trigger] leaf(root, m2, i2, i1, j0) == 0
        }),
{
    reveal(tree_ok);
    if l0_valid(root, mem, i2, i1) {
        return;
    }
    lemma_fresh_frame(mem, fv);
    let f = alloc_frame_spec(fv).0->0;
    let f2 = alloc_frame_spec(fv).1;
    let a1 = l1_addr(root, i2);
    let e = pte_new((f / 4096) as usize, 1);
    let z = mem.zero_page(f);
    let m2 = z.write(a1, i1, e);
    assert(table_ok(mem, fv, a1));
    lemma_zero_effect(mem, f, a1, i1);
    lemma_write_effect(z, a1, i1, e, a1, i1);
    assert(m2.base == mem.base && m2.words.len() == mem.words.len());
    assert(l0_entry(root, m2, i2, i1) == e);
    assert(l0_addr(root, m2, i2, i1) == f);
    // Other level-1 entries are untouched.
    assert forall|j2: int, j1: int|
        is_index(j2) && is_index(j1) && !(j2 == i2 && j1 == i1) && l1_valid(root, j2)
            implies #[trigger] l0_entry(root, m2, j2, j1) == l0_entry(root, mem, j2, j1) by {
        let t = l1_addr(root, j2);
        assert(table_ok(mem, fv, t));
        lemma_zero_effect(mem, f, t, j1);
        lemma_write_effect(z, a1, i1, e, t, j1);
    }
    assert forall|j2: int, j1: int| is_index(j2) && is_index(j1) && !(j2 == i2 && j1 == i1) implies (
    #[trigger] l0_valid(root, m2, j2, j1) == l0_valid(root, mem, j2, j1)) by {
        if l1_valid(root, j2) {
            assert(l0_entry(root, m2, j2, j1) == l0_entry(root, mem, j2, j1));
        }
    }
    // Leaves of existing level-0 tables are untouched.
    assert forall|j2: int, j1: int, j0: int|
        is_index(j2) && is_index(j1) && is_index(j0) && l0_valid(root, mem, j2, j1)
            implies #[trigger] leaf(root, m2, j2, j1, j0) == leaf(root, mem, j2, j1, j0) by {
        assert(l0_entry(root, m2, j2, j1) == l0_entry(root, mem, j2, j1));
        let t = l0_addr(root, mem, j2, j1);
        assert(table_ok(mem, fv, t));
        assert(t != a1);
        lemma_zero_effect(mem, f, t, j0);
        lemma_write_effect(z, a1, i1, e, t, j0);
    }
    // The new level-0 table is all zeros.
    assert forall|j0: int| is_index(j0) implies #[trigger] leaf(root, m2, i2, i1, j0) == 0 by {
        lemma_zero_effect(mem, f, f, j0);
        lemma_write_effect(z, a1, i1, e, f, j0);
    }
    // The tree stays sound.
    assert forall|j2: int| is_index(j2) && l1_valid(root, j2) implies table_ok(
        m2,
        f2,
        #[trigger] l1_addr(root, j2),
    ) by {
        assert(table_ok(mem, fv, l1_addr(root, j2)));
    }
    assert forall|j2: int, j1: int| is_index(j2) && is_index(j1) && #[trigger] l0_valid(
        root,
        m2,
        j2,
        j1,
    ) implies table_ok(m2, f2, l0_addr(root, m2, j2, j1)) by {
        if !(j2 == i2 && j1 == i1) {
            assert(l0_entry(root, m2, j2, j1) == l0_entry(root, mem, j2, j1));
            assert(table_ok(mem, fv, l0_addr(root, mem, j2, j1)));
        }
    }
    assert forall|k2: int, j2: int, j1: int|
        is_index(k2) && is_index(j2) && is_index(j1) && l1_valid(root, k2) && l0_valid(
            root,
            m2,
            j2,
            j1,
        ) implies #[trigger] l1_addr(root, k2) != #[trigger] l0_addr(root, m2, j2, j1) by {
        assert(table_ok(mem, fv, l1_addr(root, k2)));
        if !(j2 == i2 && j1 == i1) {
            assert(l0_entry(root, m2, j2, j1) == l0_entry(root, mem, j2, j1));
        }
    }
    assert forall|k2: int, k1: int, j2: int, j1: int|
        is_index(k2) && is_index(k1) && is_index(j2) && is_index(j1) && l0_valid(root, m2, k2, k1)
            && l0_valid(root, m2, j2, j1) && #[trigger] l0_addr(root, m2, k2, k1) == #[trigger] l0_addr(
            root,
            m2,
            j2,
            j1,
        ) implies k2 == j2 && k1 == j1 by {
        if !(k2 == i2 && k1 == i1) {
            assert(l0_entry(root, m2, k2, k1) == l0_entry(root, mem, k2, k1));
            assert(table_ok(mem, fv, l0_addr(root, mem, k2, k1)));
        }
        if !(j2 == i2 && j1 == i1) {
            assert(l0_entry(root, m2, j2, j1) == l0_entry(root, mem, j2, j1));
            assert(table_ok(mem, fv, l0_addr(root, mem, j2, j1)));
        }
    }
}

/// Writing leaf `i0` of the level-0 table reached through (`i2`, `i1`) keeps the tree
/// sound and changes that one leaf only.
proof fn lemma_write_leaf(
    root: Seq<u64>,
    mem: PhysView,
    fv: FrameView,
    i2: int,
    i1: int,
    i0: int,
    w: u64,
)
    requires
        tree_ok(root, mem, fv),
        is_index(i2),
        is_index(i1),
        is_index(i0),
        l0_valid(root, mem, i2, i1),
    ensures
        ({
            let m3 = mem.write(l0_addr(root, mem, i2, i1), i0, w);
            &&& tree_ok(root, m3, fv)
            &&& forall|j2: int, j1: int|
                is_index(j2) && is_index(j1) ==> (#[trigger] l0_valid(root, m3, j2, j1) == l0_valid(
                    root,
                    mem,
                    j2,
                    j1,
                ))
            &&& forall|j2: int, j1: int, j0: int|
                is_index(j2) && is_index(j1) && is_index(j0) && l0_valid(root, mem, j2, j1)
                    ==> #[trigger] leaf(root, m3, j2, j1, j0) == if j2 == i2 && j1 == i1 && j0
                    == i0 {
                    w
                } else {
                    leaf(root, mem, j2, j1, j0)
                }
        }),
{
    reveal(tree_ok);
    let t = l0_addr(root, mem, i2, i1);
    let m3 = mem.write(t, i0, w);
    assert(table_ok(mem, fv, t));
    lemma_write_effect(mem, t, i0, w, t, i0);
    assert(m3.base == mem.base && m3.words.len() == mem.words.len());
    assert forall|j2: int, j1: int| is_index(j2) && is_index(j1) && l1_valid(root, j2) implies #[trigger] l0_entry(
        root,
        m3,
        j2,
        j1,
    ) == l0_entry(root, mem, j2, j1) by {
        let a = l1_addr(root, j2);
        assert(table_ok(mem, fv, a));
        assert(a != t);
        lemma_write_effect(mem, t, i0, w, a, j1);
    }
    assert forall|j2: int, j1: int| is_index(j2) && is_index(j1) implies (#[trigger] l0_valid(
        root,
        m3,
        j2,
        j1,
    ) == l0_valid(root, mem, j2, j1)) by {
        if l1_valid(root, j2) {
            assert(l0_entry(root, m3, j2, j1) == l0_entry(root, mem, j2, j1));
        }
    }
    assert forall|j2: int, j1: int, j0: int|
        is_index(j2) && is_index(j1) && is_index(j0) && l0_valid(root, mem, j2, j1)
            implies #[trigger] leaf(root, m3, j2, j1, j0) == if j2 == i2 && j1 == i1 && j0 == i0 {
            w
        } else {
            leaf(root, mem, j2, j1, j0)
        } by {
        assert(l0_entry(root, m3, j2, j1) == l0_entry(root, mem, j2, j1));
        let u = l0_addr(root, mem, j2, j1);
        assert(table_ok(mem, fv, u));
        lemma_write_effect(mem, t, i0, w, u, j0);
    }
    assert forall|j2: int| is_index(j2) && l1_valid(root, j2) implies table_ok(
        m3,
        fv,
        #[trigger] l1_addr(root, j2),
    ) by {
        assert(table_ok(mem, fv, l1_addr(root, j2)));
    }
    assert forall|j2: int, j1: int| is_index(j2) && is_index(j1) && #[trigger] l0_valid(
        root,
        m3,
        j2,
        j1,
    ) implies table_ok(m3, fv, l0_addr(root, m3, j2, j1)) by {
        assert(l0_entry(root, m3, j2, j1) == l0_entry(root, mem, j2, j1));
        assert(table_ok(mem, fv, l0_addr(root, mem, j2, j1)));
    }
    assert forall|k2: int, j2: int, j1: int|
        is_index(k2) && is_index(j2) && is_index(j1) && l1_valid(root, k2) && l0_valid(
            root,
            m3,
            j2,
            j1,
        ) implies #[trigger] l1_addr(root, k2) != #[trigger] l0_addr(root, m3, j2, j1) by {
        assert(l0_entry(root, m3, j2, j1) == l0_entry(root, mem, j2, j1));
        assert(l1_addr(root, k2) != l0_addr(root, mem, j2, j1));
    }
    assert forall|k2: int, k1: int, j2: int, j1: int|
        is_index(k2) && is_index(k1) && is_index(j2) && is_index(j1) && l0_valid(root, m3, k2, k1)
            && l0_valid(root, m3, j2, j1) && #[trigger] l0_addr(root, m3, k2, k1) == #[trigger] l0_addr(
            root,
            m3,
            j2,
            j1,
        ) implies k2 == j2 && k1 == j1 by {
        assert(l0_entry(root, m3, k2, k1) == l0_entry(root, mem, k2, k1));
        assert(l0_entry(root, m3, j2, j1) == l0_entry(root, mem, j2, j1));
    }
}

/// A sound tree meets what `map` needs.
pub proof fn lemma_tree_ok_map_safe(root: Seq<u64>, mem: PhysView, fv: FrameView, vaddr: int)
    requires
        tree_ok(root, mem, fv),
        0 <= vaddr,
    ensures
        map_safe(root, mem, fv, vaddr),
{
    reveal(tree_ok);
    lemma_vpn_indices(vaddr);
    let i2 = vpn_index(vaddr, 2);
    let i1 = vpn_index(vaddr, 1);
    if l1_valid(root, i2) {
        assert(table_ok(mem, fv, l1_addr(root, i2)));
    }
    if l0_valid(root, mem, i2, i1) {
        assert(table_ok(mem, fv, l0_addr(root, mem, i2, i1)));
    }
}

/// On a sound tree, a successful `map` of `vaddr` keeps the tree sound, makes the walk
/// for `vaddr` reach the entry for `paddr` with `flags`, and changes the translation of
/// no address that uses another entry at some level.
pub proof fn lemma_map_translation(
    root: Seq<u64>,
    mem: PhysView,
    fv: FrameView,
    vaddr: int,
    paddr: int,
    flags: u64,
)
    requires
        tree_ok(root, mem, fv),
        0 <= vaddr,
    ensures
        map_safe(root, mem, fv, vaddr),
        ({
            let o = map_spec(root, mem, fv, vaddr, paddr, flags);
            let e = pte_new((paddr / 4096) as usize, flags);
            o.ok ==> {
                &&& tree_ok(o.root, o.mem, o.frames)
                &&& walk(o.root, o.mem, vaddr) == Some(e)
                &&& translation(o.root, o.mem, vaddr) == valid_entry(e)
                &&& forall|v: int|
                    0 <= v && !same_vpns(v, vaddr) ==> #[trigger] translation(o.root, o.mem, v)
                        == translation(root, mem, v)
                &&& forall|v: int|
                    0 <= v && !same_vpns(v, vaddr) && walk(root, mem, v) is Some
                        ==> #[trigger] walk(o.root, o.mem, v) == walk(root, mem, v)
            }
        }),
        ({
            let o = map_spec(root, mem, fv, vaddr, paddr, flags);
            !o.ok ==> {
                &&& tree_ok(o.root, o.mem, o.frames)
                &&& forall|v: int|
                    0 <= v ==> #[trigger] translation(o.root, o.mem, v) == translation(root, mem, v)
            }
        }),
{
    reveal(map_spec);
    lemma_tree_ok_map_safe(root, mem, fv, vaddr);
    lemma_vpn_indices(vaddr);
    let i2 = vpn_index(vaddr, 2);
    let i1 = vpn_index(vaddr, 1);
    let i0 = vpn_index(vaddr, 0);
    let e = pte_new((paddr / 4096) as usize, flags);
    let o = map_spec(root, mem, fv, vaddr, paddr, flags);
    if !ensure_l1(root, mem, fv, i2).0 {
        return;
    }
    let (ok1, r1, m1, f1) = ensure_l1(root, mem, fv, i2);
    lemma_ensure_l1(root, mem, fv, i2);
    if !ensure_l0(r1, m1, f1, i2, i1).0 {
        assert forall|v: int| 0 <= v implies #[trigger] translation(r1, m1, v) == translation(
            root,
            mem,
            v,
        ) by {
            lemma_vpn_indices(v);
            let j2 = vpn_index(v, 2);
            let j1 = vpn_index(v, 1);
            let j0 = vpn_index(v, 0);
            assert(l0_valid(r1, m1, j2, j1) == l0_valid(root, mem, j2, j1));
            if l0_valid(root, mem, j2, j1) {
                assert(leaf(r1, m1, j2, j1, j0) == leaf(root, mem, j2, j1, j0));
            }
        }
        return;
    }
    let (ok2, m2, f2) = ensure_l0(r1, m1, f1, i2, i1);
    lemma_ensure_l0(r1, m1, f1, i2, i1);
    lemma_write_leaf(r1, m2, f2, i2, i1, i0, e);
    let m3 = m2.write(l0_addr(r1, m2, i2, i1), i0, e);
    assert(o.root == r1 && o.mem == m3 && o.frames == f2);
    assert(walk(r1, m3, vaddr) == Some(e));
    assert forall|v: int| 0 <= v && !same_vpns(v, vaddr) implies #[trigger] translation(
        r1,
        m3,
        v,
    ) == translation(root, mem, v) by {
        lemma_vpn_indices(v);
        let j2 = vpn_index(v, 2);
        let j1 = vpn_index(v, 1);
        let j0 = vpn_index(v, 0);
        if !(j2 == i2 && j1 == i1) {
            assert(l0_valid(r1, m1, j2, j1) == l0_valid(root, mem, j2, j1));
            assert(l0_valid(r1, m2, j2, j1) == l0_valid(r1, m1, j2, j1));
            assert(l0_valid(r1, m3, j2, j1) == l0_valid(r1, m2, j2, j1));
            if l0_valid(root, mem, j2, j1) {
                assert(leaf(r1, m1, j2, j1, j0) == leaf(root, mem, j2, j1, j0));
                assert(leaf(r1, m2, j2, j1, j0) == leaf(r1, m1, j2, j1, j0));
                assert(leaf(r1, m3, j2, j1, j0) == leaf(r1, m2, j2, j1, j0));
            }
        } else {
            assert(j0 != i0);
            assert(l0_valid(r1, m1, j2, j1) == l0_valid(root, mem, j2, j1));
            assert(l0_valid(r1, m3, j2, j1) == l0_valid(r1, m2, j2, j1));
            if l0_valid(root, mem, j2, j1) {
                assert(leaf(r1, m1, j2, j1, j0) == leaf(root, mem, j2, j1, j0));
                assert(leaf(r1, m2, j2, j1, j0) == leaf(r1, m1, j2, j1, j0));
                assert(leaf(r1, m3, j2, j1, j0) == leaf(r1, m2, j2, j1, j0));
            } else {
                assert(leaf(r1, m2, j2, j1, j0) == 0);
                assert(leaf(r1, m3, j2, j1, j0) == leaf(r1, m2, j2, j1, j0));
                assert(!pte_valid(0u64)) by (bit_vector);
            }
        }
    }
    assert forall|v: int| 0 <= v && !same_vpns(v, vaddr) && walk(root, mem, v) is Some
        implies #[trigger] walk(r1, m3, v) == walk(root, mem, v) by {
        lemma_vpn_indices(v);
        let j2 = vpn_index(v, 2);
        let j1 = vpn_index(v, 1);
        let j0 = vpn_index(v, 0);
        assert(l0_valid(root, mem, j2, j1));
        assert(l0_valid(r1, m1, j2, j1));
        assert(leaf(r1, m1, j2, j1, j0) == leaf(root, mem, j2, j1, j0));
        if !(j2 == i2 && j1 == i1) {
            assert(l0_valid(r1, m2, j2, j1) == l0_valid(r1, m1, j2, j1));
        }
        assert(l0_valid(r1, m2, j2, j1));
        assert(leaf(r1, m2, j2, j1, j0) == leaf(r1, m1, j2, j1, j0));
        assert(l0_valid(r1, m3, j2, j1) == l0_valid(r1, m2, j2, j1));
        assert(leaf(r1, m3, j2, j1, j0) == leaf(r1, m2, j2, j1, j0));
    }
}

/// Two addresses below 2^39 in different pages differ in some vpn index.
proof fn lemma_distinct_pages(a: int, b: int)
    requires
        0 <= a < SV39_LIMIT,
        0 <= b < SV39_LIMIT,
        a / 4096 != b / 4096,
    ensures
        !same_vpns(a, b),
{
    let x = a / 4096;
    let y = b / 4096;
    assert(x < 134217728 && y < 134217728);
    assert(x == 512 * (x / 512) + x % 512) by (nonlinear_arith);
    assert(y == 512 * (y / 512) + y % 512) by (nonlinear_arith);
    let xx = x / 512;
    let yy = y / 512;
    assert(xx == 512 * (xx / 512) + xx % 512) by (nonlinear_arith);
    assert(yy == 512 * (yy / 512) + yy % 512) by (nonlinear_arith);
    assert(xx / 512 == x / 262144) by {
        vstd::arithmetic::div_mod::lemma_div_denominator(x, 512, 512);
    }
    assert(yy / 512 == y / 262144) by {
        vstd::arithmetic::div_mod::lemma_div_denominator(y, 512, 512);
    }
    assert(x / 262144 < 512 && y / 262144 < 512);
    assert((x / 262144) % 512 == x / 262144);
    assert((y / 262144) % 512 == y / 262144);
}

/// On a sound tree and below 2^39, a successful `map_range` identity-maps every page
/// of the range with `flags`, keeps the tree sound, and changes the translation of no
/// address outside the range's pages. Its preconditions hold throughout.
#[verifier::spinoff_prover]
#[verifier::rlimit(40)]
pub proof fn lemma_map_range_translation(
    root: Seq<u64>,
    mem: PhysView,
    fv: FrameView,
    addr: int,
    end: int,
    flags: u64,
)
    requires
        tree_ok(root, mem, fv),
        0 <= addr,
        addr % 4096 == 0,
        end <= SV39_LIMIT,
    ensures
        map_range_safe(root, mem, fv, addr, end, flags),
        ({
            let o = map_range_spec(root, mem, fv, addr, end, flags);
            o.ok ==> {
                &&& tree_ok(o.root, o.mem, o.frames)
                &&& forall|p: int|
                    addr <= p < end && p % 4096 == 0 ==> #[trigger] walk(o.root, o.mem, p) == Some(
                        pte_new((p / 4096) as usize, flags),
                    )
                &&& forall|v: int|
                    0 <= v < SV39_LIMIT && (v < addr || floor_page(v) >= end) ==> #[trigger] translation(
                        o.root,
                        o.mem,
                        v,
                    ) == translation(root, mem, v)
                &&& forall|v: int|
                    0 <= v < SV39_LIMIT && (v < addr || floor_page(v) >= end) && walk(root, mem, v) is Some
                        ==> #[trigger] walk(o.root, o.mem, v) == walk(root, mem, v)
            }
        }),
    decreases end + PAGE_SIZE - addr,
{
    if addr >= end {
        return;
    }
    lemma_map_translation(root, mem, fv, addr, addr, flags);
    let o1 = map_spec(root, mem, fv, addr, addr, flags);
    let o = map_range_spec(root, mem, fv, addr, end, flags);
    if !o1.ok {
        return;
    }
    lemma_map_range_translation(o1.root, o1.mem, o1.frames, addr + PAGE_SIZE, end, flags);
    assert(o == map_range_spec(o1.root, o1.mem, o1.frames, addr + PAGE_SIZE, end, flags));
    if !o.ok {
        return;
    }
    assert(addr / 4096 * 4096 == addr);
    // The first page keeps its mapping.
    assert(translation(o.root, o.mem, addr) == translation(o1.root, o1.mem, addr));
    assert forall|p: int| addr <= p < end && p % 4096 == 0 implies #[trigger] walk(
        o.root,
        o.mem,
        p,
    ) == Some(pte_new((p / 4096) as usize, flags)) by {
        if p == addr {
            assert(walk(o1.root, o1.mem, addr) == Some(pte_new((addr / 4096) as usize, flags)));
            assert(walk(o.root, o.mem, addr) == walk(o1.root, o1.mem, addr));
        }
    }
    assert forall|v: int| 0 <= v < SV39_LIMIT && (v < addr || floor_page(v) >= end) implies #[trigger] translation(
        o.root,
        o.mem,
        v,
    ) == translation(root, mem, v) by {
        assert(v < addr + PAGE_SIZE || floor_page(v) >= end);
        assert(v / 4096 != addr / 4096);
        lemma_distinct_pages(v, addr);
    }
    assert forall|v: int|
        0 <= v < SV39_LIMIT && (v < addr || floor_page(v) >= end) && walk(root, mem, v) is Some
            implies #[trigger] walk(o.root, o.mem, v) == walk(root, mem, v) by {
        assert(v / 4096 != addr / 4096);
        lemma_distinct_pages(v, addr);
        assert(walk(o1.root, o1.mem, v) == walk(root, mem, v));
    }
}

/// An empty root table makes a sound tree.
pub proof fn lemma_empty_tree_ok(mem: PhysView, fv: FrameView)
    requires
        mem.wf(),
        fv.wf(),
        mem_covers(mem, fv),
    ensures
        tree_ok(Seq::new(512, |i: int| 0u64), mem, fv),
{
    reveal(tree_ok);
    assert(!pte_valid(0u64)) by (bit_vector);
}

/// On a sound tree, a successful `init_kernel_mapping` identity-maps every kernel page
/// from `KERNEL_START` up to `kernel_end` read-write-execute and the UART page
/// read-write, and keeps the tree sound. Its preconditions hold on such a tree.
pub proof fn lemma_kernel_mapping(root: Seq<u64>, mem: PhysView, fv: FrameView, kernel_end: int)
    requires
        tree_ok(root, mem, fv),
        kernel_end <= SV39_LIMIT,
    ensures
        map_range_safe(root, mem, fv, KERNEL_START as int, kernel_end, PTE_RWX),
        ({
            let o = map_range_spec(root, mem, fv, KERNEL_START as int, kernel_end, PTE_RWX);
            o.ok ==> map_safe(o.root, o.mem, o.frames, UART_PAGE as int)
        }),
        ({
            let k = kernel_mapping_spec(root, mem, fv, kernel_end);
            k.ok ==> {
                &&& tree_ok(k.root, k.mem, k.frames)
                &&& forall|p: int|
                    KERNEL_START <= p < kernel_end && p % 4096 == 0 ==> #[trigger] walk(
                        k.root,
                        k.mem,
                        p,
                    ) == Some(pte_new((p / 4096) as usize, PTE_RWX))
                &&& walk(k.root, k.mem, UART_PAGE as int) == Some(
                    pte_new(UART_PAGE / 4096, PTE_RW),
                )
            }
        }),
{
    lemma_map_range_translation(root, mem, fv, KERNEL_START as int, kernel_end, PTE_RWX);
    let o = map_range_spec(root, mem, fv, KERNEL_START as int, kernel_end, PTE_RWX);
    if o.ok {
        lemma_map_translation(o.root, o.mem, o.frames, UART_PAGE as int, UART_PAGE as int, PTE_RW);
        let k = kernel_mapping_spec(root, mem, fv, kernel_end);
        assert forall|p: int| k.ok && KERNEL_START <= p < kernel_end && p % 4096 == 0 implies #[trigger] walk(
            k.root,
            k.mem,
            p,
        ) == Some(pte_new((p / 4096) as usize, PTE_RWX)) by {
            assert(walk(o.root, o.mem, p) == Some(pte_new((p / 4096) as usize, PTE_RWX)));
            assert(p / 4096 >= 0x80000);
            assert((UART_PAGE as int) / 4096 == 0x10000);
            lemma_distinct_pages(p, UART_PAGE as int);
            let o2 = map_spec(o.root, o.mem, o.frames, UART_PAGE as int, UART_PAGE as int, PTE_RW);
            assert(k == o2);
            assert(!same_vpns(p, UART_PAGE as int));
            assert(walk(o2.root, o2.mem, p) == walk(o.root, o.mem, p));
        }
    }
}

} // verus!
