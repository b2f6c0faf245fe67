//! Kernel heap allocator
//!
//! Simple bump allocator for kernel heap. Can be upgraded to a more
//! sophisticated allocator later.
use vstd::prelude::*;
use vstd::arithmetic::power2::{pow2, lemma_pow2_pos};
use vstd::bits::{low_bits_mask, lemma_usize_low_bits_mask_is_mod};
use super::{PhysAddr, PAGE_SIZE};
use super::frame::{FrameAllocator, alloc_contiguous, alloc_outcome};
use super::phys::{PhysMemory, PhysView};
use super::page::mem_covers;

verus! {

/// Number of pages for initial heap (256 KiB)
pub const HEAP_PAGES: usize = 64;

/// The abstract state of a bump allocator.
pub struct HeapView {
    pub start: int,
    pub end: int,
    pub next: int,
    pub allocations: int,
}

impl HeapView {
    pub open spec fn wf(self) -> bool {
        &&& 0 <= self.start <= self.next <= self.end <= usize::MAX
        &&& 0 <= self.allocations <= usize::MAX
    }
}

/// `align` is a power of two, as every layout's alignment is.
pub open spec fn is_power_of_two(align: usize) -> bool {
    exists|k: nat| k < usize::BITS && pow2(k) == align
}

/// The smallest multiple of `align` that is at least `x`.
pub open spec fn align_up(x: int, align: int) -> int {
    (x + align - 1) / align * align
}

/// A block of `size` bytes aligned to `align` still fits below `end`.
pub open spec fn block_fits(h: HeapView, size: int, align: int) -> bool {
    align_up(h.next, align) + size <= h.end
}

/// The state after a block of `size` bytes aligned to `align` is handed out.
pub open spec fn after_block(h: HeapView, size: int, align: int) -> HeapView {
    HeapView { next: align_up(h.next, align) + size, allocations: h.allocations + 1, ..h }
}

/// Heap allocator state
pub struct BumpAllocator {
    start: usize,
    end: usize,
    next: usize,
    allocations: usize,
}

impl View for BumpAllocator {
    type V = HeapView;

    closed spec fn view(&self) -> HeapView {
        HeapView {
            start: self.start as int,
            end: self.end as int,
            next: self.next as int,
            allocations: self.allocations as int,
        }
    }
}

proof fn lemma_align_mask(x: usize, align: usize)
    requires
        is_power_of_two(align),
    ensures
        align >= 1,
        x & !((align - 1) as usize) == x - x % align,
{
    let k = choose|k: nat| k < usize::BITS && pow2(k) == align;
    lemma_pow2_pos(k);
    lemma_usize_low_bits_mask_is_mod(x, k);
    let m = (align - 1) as usize;
    assert(low_bits_mask(k) as usize == m);
    assert(x & !m == x - (x & m)) by (bit_vector);
}

impl BumpAllocator {
    /// An allocator with an empty region.
    pub fn new() -> (h: Self)
        ensures
            h@ == (HeapView { start: 0, end: 0, next: 0, allocations: 0 }),
            h@.wf(),
    {
        BumpAllocator { start: 0, end: 0, next: 0, allocations: 0 }
    }

    /// First byte of the region.
    pub fn start(&self) -> (r: usize)
        ensures
            r == self@.start,
    {
        self.start
    }

    /// Hand out the `size` bytes from `start` on, from the beginning.
    pub fn init(&mut self, start: usize, size: usize)
        requires
            start + size <= usize::MAX,
        ensures
            final(self)@ == (HeapView {
                start: start as int,
                end: start + size,
                next: start as int,
                allocations: 0,
            }),
            final(self)@.wf(),
    {
        self.start = start;
        self.end = start + size;
        self.next = start;
        self.allocations = 0;
    }

    /// Allocate `size` bytes aligned to `align`: the block starts at the first multiple
    /// of `align` at or after `next`. The address is returned, or 0 (null) when the
    /// block would pass the end of the region, in which case nothing changes.
    pub fn allocate(&mut self, size: usize, align: usize) -> (r: usize)
        requires
            old(self)@.wf(),
            is_power_of_two(align),
            old(self)@.next + align - 1 <= usize::MAX,
            align_up(old(self)@.next, align as int) + size <= usize::MAX,
            align_up(old(self)@.next, align as int) + size <= old(self)@.end
                ==> old(self)@.allocations < usize::MAX,
        ensures
            final(self)@.wf(),
            if block_fits(old(self)@, size as int, align as int) {
                &&& r == align_up(old(self)@.next, align as int)
                &&& final(self)@ == after_block(old(self)@, size as int, align as int)
            } else {
                &&& r == 0
                &&& final(self)@ == old(self)@
            },
    {
        // Align up
        proof {
            lemma_align_mask(0, align);
        }
        let x = self.next + (align - 1);
        proof {
            lemma_align_mask(x, align);
            assert(x - x % align == (x / align) * align) by (nonlinear_arith)
                requires
                    align > 0,
            ;
            assert(x - x % align >= self.next) by (nonlinear_arith)
                requires
                    align > 0,
                    x == self.next + align - 1,
            ;
        }
        let aligned = x & !(align - 1);
        let end = aligned + size;
        if end > self.end {
            return 0;
        }
        self.next = end;
        self.allocations = self.allocations + 1;
        aligned
    }

    /// Release a block. A bump allocator never reuses memory; only the count of
    /// live allocations drops.
    pub fn dealloc(&mut self, ptr: usize, size: usize, align: usize)
        requires
            old(self)@.wf(),
            old(self)@.allocations > 0,
        ensures
            final(self)@.wf(),
            final(self)@ == (HeapView { allocations: old(self)@.allocations - 1, ..old(self)@ }),
    {
        self.allocations = self.allocations - 1;
    }
}

/// Physical memory after the `n` pages from `addr` on are filled with zeros.
pub open spec fn zero_pages(m: PhysView, addr: int, n: int) -> PhysView {
    PhysView {
        words: Seq::new(
            m.words.len(),
            |k: int|
                if m.word_index(addr, 0) <= k < m.word_index(addr, 512 * n) {
                    0u64
                } else {
                    m.words[k]
                },
        ),
        ..m
    }
}

/// Zeroing `n` pages from `addr` reads as zero in every word of each of those pages,
/// leaves every word outside them as it was, and keeps the memory's size and base.
/// This is zeroing the pages one at a time: the `n + 1` pages from `addr` are the `n`
/// pages and then the page after them.
pub proof fn lemma_zero_pages(m: PhysView, addr: int, n: int)
    requires
        m.wf(),
        0 <= n,
        addr % 4096 == 0,
        m.base <= addr,
        addr + n * 4096 <= m.base + m.words.len() * 8,
    ensures
        zero_pages(m, addr, n).wf(),
        zero_pages(m, addr, n).base == m.base,
        zero_pages(m, addr, n).words.len() == m.words.len(),
        forall|j: int, i: int|
            0 <= j < n && 0 <= i < 512 ==> #[trigger] zero_pages(m, addr, n).page_word(
                addr + j * 4096,
                i,
            ) == 0,
        forall|k: int|
            0 <= k < m.words.len() && !(addr <= m.base + 8 * k < addr + n * 4096)
                ==> #[trigger] zero_pages(m, addr, n).words[k] == m.words[k],
        zero_pages(m, addr, n + 1) == zero_pages(m, addr, n).zero_page(addr + n * 4096),
{
    let z = zero_pages(m, addr, n);
    assert forall|j: int, i: int| 0 <= j < n && 0 <= i < 512 implies #[trigger] z.page_word(
        addr + j * 4096,
        i,
    ) == 0 by {
        assert((addr + j * 4096 - m.base) / 8 + i == (addr - m.base) / 8 + j * 512 + i);
    }
    assert forall|k: int|
        0 <= k < m.words.len() && !(addr <= m.base + 8 * k < addr + n * 4096)
            implies #[trigger] z.words[k] == m.words[k] by {
        assert((addr - m.base) % 8 == 0);
    }
    assert((addr + n * 4096 - m.base) / 8 == (addr - m.base) / 8 + 512 * n);
    assert(zero_pages(m, addr, n + 1) =~= z.zero_page(addr + n * 4096));
}

/// Initialize the kernel heap: take `HEAP_PAGES` contiguous frames, zero them, and
/// hand them to a fresh bump allocator.
pub fn init(frames: &mut FrameAllocator, mem: &mut PhysMemory) -> (heap: BumpAllocator)
    requires
        old(frames).wf(),
        old(mem)@.wf(),
        mem_covers(old(mem)@, old(frames)@),
        exists|s: int| old(frames)@.window_free(s, HEAP_PAGES as int),
    ensures
        final(frames).wf(),
        final(mem)@.wf(),
        alloc_outcome(old(frames)@, final(frames)@, HEAP_PAGES as int, Some(PhysAddr(heap@.start as usize))),
        heap@ == (HeapView {
            start: heap@.start,
            end: heap@.start + HEAP_PAGES * PAGE_SIZE,
            next: heap@.start,
            allocations: 0,
        }),
        heap@.wf(),
        final(mem)@ == zero_pages(old(mem)@, heap@.start, HEAP_PAGES as int),
        forall|j: int, i: int|
            0 <= j < HEAP_PAGES && 0 <= i < 512 ==> #[trigger] final(mem)@.page_word(
                heap@.start + j * 4096,
                i,
            ) == 0,
{
    // Allocate frames for heap
    let heap_frames = match alloc_contiguous(frames, HEAP_PAGES) {
        Some(a) => a,
        None => {
            // ruled out: a free run of `HEAP_PAGES` frames exists
            proof {
                let s = choose|s: int| old(frames)@.window_free(s, HEAP_PAGES as int);
                assert(old(frames)@.window_free(s, HEAP_PAGES as int));
            }
            unreached()
        },
    };
    let heap_start = heap_frames.as_usize();
    let heap_size = HEAP_PAGES * PAGE_SIZE;
    let ghost v = old(frames)@;
    let ghost m = mem@;
    proof {
        old(frames).lemma_view_wf();
        let s = (heap_start - v.start) / 4096;
        assert(v.window_free(s, HEAP_PAGES as int));
        assert(heap_start == v.start + s * 4096);
        assert(heap_start + heap_size <= v.start + v.count * 4096);
        let st = v.start;
        assert(heap_start % 4096 == 0) by (nonlinear_arith)
            requires
                heap_start == st + s * 4096,
                st % 4096 == 0,
        ;
    }

    // Zero the heap memory
    let mut i: usize = 0;
    while i < HEAP_PAGES
        invariant
            i <= HEAP_PAGES,
            m.wf(),
            m.holds_page(heap_start as int),
            heap_start + HEAP_PAGES * 4096 <= m.base + m.words.len() * 8,
            heap_start % 4096 == 0,
            mem@ == zero_pages(m, heap_start as int, i as int),
        decreases HEAP_PAGES - i,
    {
        mem.zero_page(heap_start + i * PAGE_SIZE);
        proof {
            assert(mem@ =~= zero_pages(m, heap_start as int, i + 1));
        }
        i = i + 1;
    }

    // Initialize the allocator
    let mut heap = BumpAllocator::new();
    heap.init(heap_start, heap_size);
    heap
}

/// Get heap statistics: (bytes handed out, bytes in the region, live allocations).
pub fn stats(heap: &BumpAllocator) -> (r: (usize, usize, usize))
    requires
        heap@.wf(),
    ensures
        r.0 == heap@.next - heap@.start,
        r.1 == heap@.end - heap@.start,
        r.2 == heap@.allocations,
{
    let used = heap.next - heap.start;
    let total = heap.end - heap.start;
    (used, total, heap.allocations)
}

/// A block starts at the first multiple of `align` at or after `x`.
pub proof fn lemma_align_up(x: int, align: int)
    requires
        x >= 0,
        align >= 1,
    ensures
        x <= align_up(x, align) < x + align,
        align_up(x, align) % align == 0,
{
    let y = x + align - 1;
    assert(y / align * align <= y && y < y / align * align + align) by (nonlinear_arith)
        requires
            align >= 1,
            y >= 0,
    ;
    assert((y / align * align) % align == 0) by (nonlinear_arith)
        requires
            align >= 1,
    ;
}

/// Two blocks handed out one after the other are aligned, lie inside the region and
/// do not overlap.
pub proof fn lemma_blocks_disjoint(h: HeapView, size1: int, align1: int, size2: int, align2: int)
    requires
        h.wf(),
        size1 >= 0,
        size2 >= 0,
        align1 >= 1,
        align2 >= 1,
        block_fits(h, size1, align1),
        block_fits(after_block(h, size1, align1), size2, align2),
    ensures
        ({
            let a1 = align_up(h.next, align1);
            let a2 = align_up(after_block(h, size1, align1).next, align2);
            &&& h.start <= a1
            &&& a1 % align1 == 0
            &&& a2 % align2 == 0
            &&& a1 + size1 <= a2
            &&& a2 + size2 <= h.end
        }),
{
    lemma_align_up(h.next, align1);
    lemma_align_up(after_block(h, size1, align1).next, align2);
}

} // verus!
