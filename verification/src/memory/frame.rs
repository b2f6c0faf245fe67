//! Physical frame allocator
//!
//! Simple bitmap-based allocator for physical memory frames.
use vstd::prelude::*;
use vstd::std_specs::bits::axiom_u64_trailing_zeros;
use vstd::set_lib::{set_int_range, lemma_int_range, lemma_len_subset};
use super::{PhysAddr, PAGE_SIZE, page_ceil, page_floor, ceil_page, floor_page};
use super::phys::PhysMemory;

verus! {

/// Maximum number of frames we can track (128 MiB with 4K pages)
pub const MAX_FRAMES: usize = 32768;

/// Number of 64-bit words in the allocation bitmap
pub const BITMAP_WORDS: usize = 512;

/// Whether bit `b` of word `w` is set.
pub open spec fn bit_set(w: u64, b: int) -> bool {
    (w >> (b as u64)) & 1u64 == 1u64
}

/// Whether frame `i` is marked in bitmap `bm`.
pub open spec fn bit_at(bm: Seq<u64>, i: int) -> bool {
    bit_set(bm[i / 64], i % 64)
}

/// The frames that bitmap `bm` marks as allocated.
pub open spec fn marked(bm: Seq<u64>) -> Set<int> {
    Set::new(|i: int| 0 <= i < MAX_FRAMES && bit_at(bm, i))
}

/// The abstract state of a frame allocator.
#[verifier::ext_equal]
pub struct FrameView {
    /// Indices of the frames that are marked allocated.
    pub allocated: Set<int>,
    /// First byte of allocatable memory (page aligned).
    pub start: int,
    /// End of allocatable memory (page aligned).
    pub end: int,
    /// Number of frames that can be handed out.
    pub count: int,
    /// Number of allocated frames: always the size of `allocated`.
    pub used: int,
}

impl FrameView {
    /// Invariant of every allocator state.
    pub open spec fn wf(self) -> bool {
        &&& 0 <= self.start <= self.end <= usize::MAX
        &&& self.start % 4096 == 0
        &&& self.end % 4096 == 0
        &&& self.count == if (self.end - self.start) / 4096 < MAX_FRAMES {
            (self.end - self.start) / 4096
        } else {
            MAX_FRAMES as int
        }
        &&& self.allocated.finite()
        &&& forall|i: int| #[trigger] self.allocated.contains(i) ==> 0 <= i < self.count
        &&& self.used == self.allocated.len()
    }

    /// Physical address of frame `i`.
    pub open spec fn frame_addr(self, i: int) -> int {
        self.start + i * 4096
    }

    /// Frames `s .. s + n` all lie below `count` and none is allocated.
    pub open spec fn window_free(self, s: int, n: int) -> bool {
        &&& 0 <= s
        &&& s + n <= self.count
        &&& forall|j: int| s <= j < s + n ==> !#[trigger] self.allocated.contains(j)
    }

    /// `s` is the lowest start of a free window of `n` frames.
    pub open spec fn is_first_fit(self, s: int, n: int) -> bool {
        &&& self.window_free(s, n)
        &&& forall|t: int| 0 <= t < s ==> !#[trigger] self.window_free(t, n)
    }

    /// The state after frames `s .. s + n` are marked and counted.
    pub open spec fn claim(self, s: int, n: int) -> FrameView {
        FrameView {
            allocated: self.allocated.union(set_int_range(s, s + n)),
            used: self.used + n,
            ..self
        }
    }

    /// `free` of `addr` does not fault on this state: an address inside `[start, end)`
    /// names a frame that the bitmap can hold.
    pub open spec fn can_release(self, addr: int) -> bool {
        self.start <= addr < self.end ==> (addr - self.start) / 4096 < MAX_FRAMES
    }

    /// The state after `free` of `addr`: an allocated frame inside `[start, end)` is
    /// unmarked and the counter drops by one; any other address changes nothing.
    pub open spec fn release(self, addr: int) -> FrameView {
        if self.start <= addr < self.end && self.allocated.contains((addr - self.start) / 4096) {
            FrameView {
                allocated: self.allocated.remove((addr - self.start) / 4096),
                used: self.used - 1,
                ..self
            }
        } else {
            self
        }
    }

    /// The state after freeing the `n` pages that start at `addr`, in increasing order.
    pub open spec fn release_many(self, addr: int, n: int) -> FrameView
        decreases n,
    {
        if n <= 0 {
            self
        } else {
            self.release_many(addr, n - 1).release(addr + (n - 1) * 4096)
        }
    }

    /// None of the `n` frees that `release_many` describes faults.
    pub open spec fn can_release_many(self, addr: int, n: int) -> bool
        decreases n,
    {
        n <= 0 || (self.can_release_many(addr, n - 1) && self.release_many(addr, n - 1).can_release(
            addr + (n - 1) * 4096,
        ))
    }
}

/// What an allocation of `n` contiguous frames does: for `n == 0` nothing; otherwise
/// the lowest free window of `n` frames is claimed and its address returned, or, when
/// there is none, nothing changes and `None` comes back.
pub open spec fn alloc_outcome(v: FrameView, v2: FrameView, n: int, r: Option<PhysAddr>) -> bool {
    if n <= 0 {
        r is None && v2 == v
    } else {
        match r {
            Some(a) => {
                let s = (a.0 - v.start) / 4096;
                &&& a.0 == v.frame_addr(s)
                &&& v.is_first_fit(s, n)
                &&& v2 == v.claim(s, n)
            },
            None => {
                &&& v2 == v
                &&& forall|s: int| !#[trigger] v.window_free(s, n)
            },
        }
    }
}

/// The lowest free frame below `count`, if any.
pub open spec fn first_free(v: FrameView) -> Option<int> {
    if exists|s: int| v.is_first_fit(s, 1) {
        Some(choose|s: int| v.is_first_fit(s, 1))
    } else {
        None
    }
}

/// The address that `alloc_frame` hands out on state `v`, and the state it leaves.
pub open spec fn alloc_frame_spec(v: FrameView) -> (Option<int>, FrameView) {
    match first_free(v) {
        Some(s) => (Some(v.frame_addr(s)), v.claim(s, 1)),
        None => (None, v),
    }
}

/// The address held by an optional `PhysAddr`.
pub open spec fn opt_addr(r: Option<PhysAddr>) -> Option<int> {
    match r {
        Some(a) => Some(a.0 as int),
        None => None,
    }
}

/// Bitmap-based allocator for physical memory frames.
pub struct FrameAllocator {
    /// Bitmap for tracking frame allocation
    bitmap: Vec<u64>,
    /// Start of allocatable physical memory
    start: usize,
    /// End of allocatable physical memory
    end: usize,
    /// Number of allocatable frames
    count: usize,
    /// Number of allocated frames
    used: usize,
}

impl View for FrameAllocator {
    type V = FrameView;

    closed spec fn view(&self) -> FrameView {
        FrameView {
            allocated: marked(self.bitmap@),
            start: self.start as int,
            end: self.end as int,
            count: self.count as int,
            used: self.used as int,
        }
    }
}

impl FrameAllocator {
    /// Invariant of the allocator.
    pub closed spec fn wf(&self) -> bool {
        &&& self.bitmap.len() == BITMAP_WORDS
        &&& self@.wf()
    }

    /// A well-formed allocator has a well-formed abstract state.
    pub proof fn lemma_view_wf(&self)
        requires
            self.wf(),
        ensures
            self@.wf(),
    {
    }
}

// ---------------------------------------------------------------------------
// Bit-level facts

proof fn lemma_bit_or(w: u64, b: u64, j: u64)
    requires
        b < 64,
        j < 64,
    ensures
        bit_set(w | (1u64 << b), j as int) == (j == b || bit_set(w, j as int)),
{
    assert(((w | (1u64 << b)) >> j) & 1u64 == 1u64 <==> (j == b || (w >> j) & 1u64 == 1u64))
        by (bit_vector)
        requires
            b < 64,
            j < 64,
    ;
}

proof fn lemma_bit_clear(w: u64, b: u64, j: u64)
    requires
        b < 64,
        j < 64,
    ensures
        bit_set(w & !(1u64 << b), j as int) == (j != b && bit_set(w, j as int)),
{
    assert(((w & !(1u64 << b)) >> j) & 1u64 == 1u64 <==> (j != b && (w >> j) & 1u64 == 1u64))
        by (bit_vector)
        requires
            b < 64,
            j < 64,
    ;
}

proof fn lemma_bit_test(w: u64, b: u64)
    requires
        b < 64,
    ensures
        (w & (1u64 << b) != 0) == bit_set(w, b as int),
{
    assert((w & (1u64 << b) != 0) <==> (w >> b) & 1u64 == 1u64) by (bit_vector)
        requires
            b < 64,
    ;
}

proof fn lemma_full_word(w: u64, j: u64)
    requires
        w == u64::MAX,
        j < 64,
    ensures
        bit_set(w, j as int),
{
    assert((w >> j) & 1u64 == 1u64) by (bit_vector)
        requires
            w == 0xffff_ffff_ffff_ffffu64,
            j < 64,
    ;
}

proof fn lemma_not_bit(w: u64, j: u64)
    requires
        j < 64,
    ensures
        ((!w) >> j) & 1u64 == 0u64 <==> bit_set(w, j as int),
        ((!w) >> j) & 1u64 == 1u64 <==> !bit_set(w, j as int),
{
    assert(((!w) >> j) & 1u64 == 0u64 <==> (w >> j) & 1u64 == 1u64) by (bit_vector)
        requires
            j < 64,
    ;
    assert(((!w) >> j) & 1u64 == 1u64 <==> (w >> j) & 1u64 != 1u64) by (bit_vector)
        requires
            j < 64,
    ;
}

proof fn lemma_zero_word(j: u64)
    requires
        j < 64,
    ensures
        !bit_set(0u64, j as int),
{
    assert((0u64 >> j) & 1u64 != 1u64) by (bit_vector);
}

// ---------------------------------------------------------------------------
// Bitmap-level facts

proof fn lemma_mark(bm: Seq<u64>, idx: int)
    requires
        bm.len() == BITMAP_WORDS,
        0 <= idx < MAX_FRAMES,
    ensures
        marked(bm.update(idx / 64, bm[idx / 64] | (1u64 << ((idx % 64) as u64)))) =~= marked(
            bm,
        ).insert(idx),
{
    let bm2 = bm.update(idx / 64, bm[idx / 64] | (1u64 << ((idx % 64) as u64)));
    assert forall|j: int| 0 <= j < MAX_FRAMES implies bit_at(bm2, j) == (j == idx || bit_at(bm, j)) by {
        if j / 64 == idx / 64 {
            lemma_bit_or(bm[idx / 64], (idx % 64) as u64, (j % 64) as u64);
        }
    }
}

proof fn lemma_unmark(bm: Seq<u64>, idx: int)
    requires
        bm.len() == BITMAP_WORDS,
        0 <= idx < MAX_FRAMES,
    ensures
        marked(bm.update(idx / 64, bm[idx / 64] & !(1u64 << ((idx % 64) as u64)))) =~= marked(
            bm,
        ).remove(idx),
{
    let bm2 = bm.update(idx / 64, bm[idx / 64] & !(1u64 << ((idx % 64) as u64)));
    assert forall|j: int| 0 <= j < MAX_FRAMES implies bit_at(bm2, j) == (j != idx && bit_at(bm, j)) by {
        if j / 64 == idx / 64 {
            lemma_bit_clear(bm[idx / 64], (idx % 64) as u64, (j % 64) as u64);
        }
    }
}

/// The allocated set of a well-formed state has at most `count` elements.
proof fn lemma_allocated_bound(v: FrameView)
    requires
        v.wf(),
    ensures
        v.allocated.len() <= v.count,
        v.used <= v.count,
        v.count <= MAX_FRAMES,
{
    lemma_int_range(0, v.count);
    lemma_len_subset(v.allocated, set_int_range(0, v.count));
}

// ---------------------------------------------------------------------------
// Allocator operations

/// Initialize the frame allocator over `[heap_start, heap_end)`: the region is shrunk to
/// whole pages and at most `MAX_FRAMES` frames of it are handed out.
pub fn init(heap_start: usize, heap_end: usize) -> (fa: FrameAllocator)
    requires
        heap_start + PAGE_SIZE - 1 <= usize::MAX,
        ceil_page(heap_start as int) <= floor_page(heap_end as int),
    ensures
        fa.wf(),
        fa@.allocated == Set::<int>::empty(),
        fa@.start == ceil_page(heap_start as int),
        fa@.end == floor_page(heap_end as int),
        fa@.count == if (fa@.end - fa@.start) / 4096 < MAX_FRAMES {
            (fa@.end - fa@.start) / 4096
        } else {
            MAX_FRAMES as int
        },
        fa@.used == 0,
{
    let start = page_ceil(heap_start);
    let end = page_floor(heap_end);
    let count = (end - start) / PAGE_SIZE;
    let bitmap: Vec<u64> = vec![0u64; BITMAP_WORDS];
    let count = if count < MAX_FRAMES {
        count
    } else {
        MAX_FRAMES
    };
    let fa = FrameAllocator { bitmap, start, end, count, used: 0 };
    proof {
        assert forall|i: int| 0 <= i < MAX_FRAMES implies !bit_at(bitmap@, i) by {
            lemma_zero_word((i % 64) as u64);
        }
        assert(marked(bitmap@) =~= Set::<int>::empty());
    }
    fa
}

/// Index of the lowest free frame, if one lies below `count`.
fn find_free_frame(fa: &FrameAllocator) -> (r: Option<usize>)
    requires
        fa.wf(),
    ensures
        match r {
            Some(idx) => fa@.is_first_fit(idx as int, 1) && idx < MAX_FRAMES,
            None => forall|s: int| !#[trigger] fa@.window_free(s, 1),
        },
{
    let count = fa.count;
    let ghost v = fa@;
    proof {
        lemma_allocated_bound(v);
    }
    let mut i: usize = 0;
    while i < BITMAP_WORDS
        invariant
            fa.wf(),
            fa@ == v,
            count == v.count,
            i <= BITMAP_WORDS,
            forall|j: int| 0 <= j < 64 * i ==> #[trigger] bit_at(fa.bitmap@, j),
        decreases BITMAP_WORDS - i,
    {
        let slot = fa.bitmap[i];
        if slot != u64::MAX {
            // Find first zero bit
            let inv = !slot;
            proof {
                assert(slot != 0xffff_ffff_ffff_ffffu64 ==> !slot != 0u64) by (bit_vector);
                axiom_u64_trailing_zeros(inv);
            }
            let bit = inv.trailing_zeros() as usize;
            let frame_idx = i * 64 + bit;
            proof {
                assert forall|j: int| 0 <= j < frame_idx implies #[trigger] bit_at(fa.bitmap@, j) by {
                    if j >= 64 * i {
                        assert(j / 64 == i as int);
                        lemma_not_bit(slot, (j % 64) as u64);
                    }
                }
                lemma_not_bit(slot, bit as u64);
                assert(frame_idx / 64 == i as int);
                assert(frame_idx % 64 == bit as int);
                assert(!bit_at(fa.bitmap@, frame_idx as int));
            }
            if frame_idx >= count {
                proof {
                    assert forall|s: int| !#[trigger] v.window_free(s, 1) by {
                        if 0 <= s && s + 1 <= v.count {
                            assert(bit_at(fa.bitmap@, s));
                            assert(v.allocated.contains(s));
                        }
                    }
                }
                return None;
            }
            proof {
                assert(v.window_free(frame_idx as int, 1));
                assert forall|t: int| 0 <= t < frame_idx implies !#[trigger] v.window_free(t, 1) by {
                    assert(bit_at(fa.bitmap@, t));
                    assert(v.allocated.contains(t));
                }
            }
            return Some(frame_idx);
        }
        proof {
            assert forall|j: int| 0 <= j < 64 * (i + 1) implies #[trigger] bit_at(fa.bitmap@, j) by {
                if j >= 64 * i {
                    assert(j / 64 == i as int);
                    lemma_full_word(slot, (j % 64) as u64);
                }
            }
        }
        i = i + 1;
    }
    proof {
        assert forall|s: int| !#[trigger] v.window_free(s, 1) by {
            if 0 <= s && s + 1 <= v.count {
                assert(bit_at(fa.bitmap@, s));
                assert(v.allocated.contains(s));
            }
        }
    }
    None
}

/// Mark frame `idx` allocated, which must be free, and count it.
fn mark_frame(fa: &mut FrameAllocator, idx: usize)
    requires
        old(fa).wf(),
        old(fa)@.window_free(idx as int, 1),
    ensures
        final(fa).wf(),
        final(fa)@ == old(fa)@.claim(idx as int, 1),
{
    let ghost v = fa@;
    proof {
        lemma_allocated_bound(v);
    }
    let ghost bm = fa.bitmap@;
    let slot = idx / 64;
    let bit = (idx % 64) as u64;
    let word = fa.bitmap[slot];
    fa.bitmap.set(slot, word | (1u64 << bit));
    fa.used = fa.used + 1;
    proof {
        let fi = idx as int;
        lemma_mark(bm, fi);
        assert(fa.bitmap@ =~= bm.update(fi / 64, bm[fi / 64] | (1u64 << ((fi % 64) as u64))));
        assert(set_int_range(fi, fi + 1) =~= set![fi]);
        assert(v.allocated.insert(fi) =~= v.allocated.union(set_int_range(fi, fi + 1)));
    }
}

/// At most one start is the first fit of a single frame.
proof fn lemma_first_fit_unique(v: FrameView)
    ensures
        forall|s: int, t: int| v.is_first_fit(s, 1) && v.is_first_fit(t, 1) ==> s == t,
{
    assert forall|s: int, t: int| v.is_first_fit(s, 1) && v.is_first_fit(t, 1) implies s == t by {
        if s < t {
            assert(!v.window_free(s, 1));
        } else if t < s {
            assert(!v.window_free(t, 1));
        }
    }
}

/// Allocate a single physical frame: the lowest free frame, if there is one.
pub fn alloc_frame(fa: &mut FrameAllocator) -> (r: Option<PhysAddr>)
    requires
        old(fa).wf(),
    ensures
        final(fa).wf(),
        alloc_outcome(old(fa)@, final(fa)@, 1, r),
        (opt_addr(r), final(fa)@) == alloc_frame_spec(old(fa)@),
{
    proof {
        lemma_first_fit_unique(fa@);
    }
    match find_free_frame(fa) {
        None => None,
        Some(frame_idx) => {
            mark_frame(fa, frame_idx);
            let addr = fa.start + frame_idx * PAGE_SIZE;
            Some(PhysAddr::new(addr))
        },
    }
}

/// First allocated frame in `start .. start + n`, if any.
fn first_used_in(fa: &FrameAllocator, start: usize, n: usize) -> (r: Option<usize>)
    requires
        fa.wf(),
        start + n <= fa@.count,
    ensures
        match r {
            Some(idx) => {
                &&& start <= idx < start + n
                &&& fa@.allocated.contains(idx as int)
            },
            None => forall|j: int| start <= j < start + n ==> !#[trigger] fa@.allocated.contains(j),
        },
{
    proof {
        lemma_allocated_bound(fa@);
    }
    let mut i: usize = 0;
    while i < n
        invariant
            fa.wf(),
            start + n <= fa@.count <= MAX_FRAMES,
            i <= n,
            forall|j: int| start <= j < start + i ==> !#[trigger] fa@.allocated.contains(j),
        decreases n - i,
    {
        let idx = start + i;
        let slot = idx / 64;
        let bit = (idx % 64) as u64;
        proof {
            lemma_bit_test(fa.bitmap@[slot as int], bit);
        }
        if fa.bitmap[slot] & (1u64 << bit) != 0 {
            proof {
                assert(bit_at(fa.bitmap@, idx as int));
            }
            return Some(idx);
        }
        proof {
            assert(!bit_at(fa.bitmap@, idx as int));
        }
        i = i + 1;
    }
    None
}

/// Lowest start of a window of `n` free frames below `count`.
fn find_window(fa: &FrameAllocator, n: usize) -> (r: Option<usize>)
    requires
        fa.wf(),
        n >= 1,
    ensures
        match r {
            Some(s) => fa@.is_first_fit(s as int, n as int),
            None => forall|s: int| !#[trigger] fa@.window_free(s, n as int),
        },
{
    let total = fa.count;
    let mut start: usize = 0;
    proof {
        lemma_allocated_bound(fa@);
    }
    while start + n <= total
        invariant
            fa.wf(),
            total == fa@.count,
            total <= MAX_FRAMES,
            n >= 1,
            start <= total,
            start == 0 || n <= total,
            forall|t: int| 0 <= t < start ==> !#[trigger] fa@.window_free(t, n as int),
        decreases total - start,
    {
        match first_used_in(fa, start, n) {
            None => {
                return Some(start);
            },
            Some(idx) => {
                proof {
                    assert forall|t: int| 0 <= t < idx + 1 implies !#[trigger] fa@.window_free(
                        t,
                        n as int,
                    ) by {
                        if t >= start {
                            assert(t <= idx < t + n);
                        }
                    }
                }
                start = idx + 1;
            },
        }
    }
    None
}

/// Mark frame `idx`, which must be free, without counting it.
fn mark_bit(fa: &mut FrameAllocator, idx: usize)
    requires
        old(fa).bitmap.len() == BITMAP_WORDS,
        idx < MAX_FRAMES,
    ensures
        final(fa).bitmap.len() == BITMAP_WORDS,
        final(fa)@ == (FrameView { allocated: old(fa)@.allocated.insert(idx as int), ..old(fa)@ }),
{
    let ghost bm = fa.bitmap@;
    let slot = idx / 64;
    let bit = (idx % 64) as u64;
    let word = fa.bitmap[slot];
    fa.bitmap.set(slot, word | (1u64 << bit));
    proof {
        let fi = idx as int;
        lemma_mark(bm, fi);
        assert(fa.bitmap@ =~= bm.update(fi / 64, bm[fi / 64] | (1u64 << ((fi % 64) as u64))));
    }
}

/// Allocate multiple contiguous physical frames: the lowest run of `count` free frames.
pub fn alloc_contiguous(fa: &mut FrameAllocator, count: usize) -> (r: Option<PhysAddr>)
    requires
        old(fa).wf(),
    ensures
        final(fa).wf(),
        alloc_outcome(old(fa)@, final(fa)@, count as int, r),
{
    if count == 0 {
        return None;
    }
    if count == 1 {
        return alloc_frame(fa);
    }
    let ghost v = fa@;
    match find_window(fa, count) {
        None => None,
        Some(start) => {
            proof {
                lemma_allocated_bound(v);
            }
            // Mark all frames as allocated
            let mut i: usize = 0;
            while i < count
                invariant
                    fa.bitmap.len() == BITMAP_WORDS,
                    v.wf(),
                    v.count <= MAX_FRAMES,
                    v.window_free(start as int, count as int),
                    i <= count,
                    fa@.allocated.finite(),
                    fa@ == (FrameView {
                        allocated: v.allocated.union(set_int_range(start as int, start + i)),
                        ..v
                    }),
                    fa@.allocated.len() == v.allocated.len() + i,
                decreases count - i,
            {
                let ghost before = fa@.allocated;
                proof {
                    assert(!fa@.allocated.contains(start + i));
                }
                mark_bit(fa, start + i);
                proof {
                    assert(v.allocated.union(set_int_range(start as int, start + i + 1)) =~= before.insert(
                        start + i,
                    ));
                }
                i = i + 1;
            }
            proof {
                lemma_int_range(0, v.count);
                lemma_len_subset(fa@.allocated, set_int_range(0, v.count));
            }
            fa.used = fa.used + count;
            let addr = fa.start + start * PAGE_SIZE;
            Some(PhysAddr::new(addr))
        },
    }
}

/// A state that `release` reaches from a well-formed one is well-formed.
proof fn lemma_release_wf(v: FrameView, addr: int)
    requires
        v.wf(),
        v.can_release(addr),
    ensures
        v.release(addr).wf(),
{
    if v.start <= addr < v.end {
        let idx = (addr - v.start) / 4096;
        if v.allocated.contains(idx) {
            assert(v.allocated.remove(idx).len() == v.allocated.len() - 1);
        }
    }
}

/// Free a physical frame: an allocated frame inside the allocator's region is unmarked
/// and the counter of allocated frames drops by one; any other address is ignored.
pub fn free(fa: &mut FrameAllocator, addr: PhysAddr)
    requires
        old(fa).wf(),
        old(fa)@.can_release(addr.0 as int),
    ensures
        final(fa).wf(),
        final(fa)@ == old(fa)@.release(addr.0 as int),
{
    let frame_addr = addr.as_usize();
    if frame_addr < fa.start || frame_addr >= fa.end {
        return;
    }
    let ghost v = fa@;
    let ghost bm = fa.bitmap@;
    let frame_idx = (frame_addr - fa.start) / PAGE_SIZE;
    let slot = frame_idx / 64;
    let bit = (frame_idx % 64) as u64;
    let word = fa.bitmap[slot];
    proof {
        lemma_bit_test(word, bit);
        lemma_allocated_bound(v);
    }
    if word & (1u64 << bit) == 0 {
        // the frame is not allocated
        return;
    }
    fa.bitmap.set(slot, word & !(1u64 << bit));
    fa.used = fa.used - 1;
    proof {
        let fi = frame_idx as int;
        lemma_unmark(bm, fi);
        assert(fa.bitmap@ =~= bm.update(fi / 64, bm[fi / 64] & !(1u64 << ((fi % 64) as u64))));
        lemma_release_wf(v, addr.0 as int);
    }
}

/// Freeing the first `i + 1` pages is possible when freeing all `n` is.
proof fn lemma_can_release_prefix(v: FrameView, addr: int, i: int, n: int)
    requires
        0 <= i < n,
        v.can_release_many(addr, n),
    ensures
        v.can_release_many(addr, i + 1),
    decreases n,
{
    if i + 1 < n {
        lemma_can_release_prefix(v, addr, i, n - 1);
    }
}

/// Free multiple contiguous frames, one page after the other.
pub fn free_contiguous(fa: &mut FrameAllocator, addr: PhysAddr, count: usize)
    requires
        old(fa).wf(),
        count == 0 || addr.0 + (count - 1) * PAGE_SIZE <= usize::MAX,
        old(fa)@.can_release_many(addr.0 as int, count as int),
    ensures
        final(fa).wf(),
        final(fa)@ == old(fa)@.release_many(addr.0 as int, count as int),
{
    let ghost v = fa@;
    let mut i: usize = 0;
    while i < count
        invariant
            fa.wf(),
            v.wf(),
            i <= count,
            count == 0 || addr.0 + (count - 1) * PAGE_SIZE <= usize::MAX,
            v.can_release_many(addr.0 as int, count as int),
            fa@ == v.release_many(addr.0 as int, i as int),
        decreases count - i,
    {
        proof {
            lemma_can_release_prefix(v, addr.0 as int, i as int, count as int);
        }
        free(fa, PhysAddr::new(addr.as_usize() + i * PAGE_SIZE));
        i = i + 1;
    }
}

/// Get allocation statistics: (frames allocated, frames available in total).
pub fn stats(fa: &FrameAllocator) -> (r: (usize, usize))
    requires
        fa.wf(),
    ensures
        r.0 == fa@.used,
        r.0 == fa@.allocated.len(),
        r.1 == fa@.count,
        r.0 <= r.1,
{
    proof {
        lemma_allocated_bound(fa@);
    }
    (fa.used, fa.count)
}

/// Zero out a frame
pub fn zero_frame(mem: &mut PhysMemory, addr: PhysAddr)
    requires
        old(mem)@.wf(),
        old(mem)@.holds_page(addr.0 as int),
    ensures
        final(mem)@.wf(),
        final(mem)@ == old(mem)@.zero_page(addr.0 as int),
{
    mem.zero_page(addr.as_usize());
}

// ---------------------------------------------------------------------------
// Laws

/// A successful allocation of `n` frames returns a page-aligned address inside the
/// allocator's region whose `n` frames were free before and are allocated after.
pub proof fn lemma_alloc_returns_fresh_frames(v: FrameView, v2: FrameView, n: int, a: PhysAddr)
    requires
        v.wf(),
        alloc_outcome(v, v2, n, Some(a)),
    ensures
        n >= 1,
        a.0 % 4096 == 0,
        v.start <= a.0,
        a.0 + n * 4096 <= v.end,
        forall|k: int|
            0 <= k < n ==> {
                &&& !v.allocated.contains((a.0 - v.start) / 4096 + k)
                &&& #[trigger] v2.allocated.contains((a.0 - v.start) / 4096 + k)
            },
        v2.used == v.used + n,
{
    let s = (a.0 - v.start) / 4096;
    assert forall|k: int| 0 <= k < n implies #[trigger] v2.allocated.contains(s + k) by {
        assert(set_int_range(s, s + n).contains(s + k));
    }
}

/// The state in the middle of undoing a claim of `s .. s + n` with frees.
proof fn lemma_release_claimed(v: FrameView, s: int, n: int, k: int)
    requires
        v.wf(),
        v.window_free(s, n),
        0 <= k <= n,
    ensures
        v.claim(s, n).can_release_many(v.frame_addr(s), k),
        v.claim(s, n).release_many(v.frame_addr(s), k) == (FrameView {
            allocated: v.allocated.union(set_int_range(s + k, s + n)),
            used: v.used + n - k,
            ..v
        }),
    decreases k,
{
    let c = v.claim(s, n);
    let addr = v.frame_addr(s);
    if k > 0 {
        lemma_release_claimed(v, s, n, k - 1);
        let prev = c.release_many(addr, k - 1);
        let a = addr + (k - 1) * 4096;
        lemma_allocated_bound(v);
        assert(a - v.start == (s + k - 1) * 4096);
        assert((a - v.start) / 4096 == s + k - 1);
        assert(a < v.end) by {
            assert(s + k - 1 < v.count);
            assert(v.count <= (v.end - v.start) / 4096);
        }
        assert(prev.allocated.remove(s + k - 1) =~= v.allocated.union(set_int_range(s + k, s + n)));
    } else {
        assert(c.allocated =~= v.allocated.union(set_int_range(s, s + n)));
    }
}

/// Freeing the frame that `alloc_frame` returned gives back the state from before
/// the allocation.
pub proof fn lemma_free_undoes_alloc_frame(v: FrameView, v2: FrameView, a: PhysAddr)
    requires
        v.wf(),
        alloc_outcome(v, v2, 1, Some(a)),
    ensures
        v2.can_release(a.0 as int),
        v2.release(a.0 as int) == v,
{
    let s = (a.0 - v.start) / 4096;
    lemma_release_claimed(v, s, 1, 1);
    assert(v.allocated.union(set_int_range(s + 1, s + 1)) =~= v.allocated);
}

/// Freeing the `n` frames that `alloc_contiguous` returned, with `free_contiguous`,
/// gives back the state from before the allocation.
pub proof fn lemma_free_contiguous_undoes_alloc_contiguous(
    v: FrameView,
    v2: FrameView,
    n: int,
    a: PhysAddr,
)
    requires
        v.wf(),
        alloc_outcome(v, v2, n, Some(a)),
    ensures
        a.0 + (n - 1) * 4096 <= usize::MAX,
        v2.can_release_many(a.0 as int, n),
        v2.release_many(a.0 as int, n) == v,
{
    let s = (a.0 - v.start) / 4096;
    lemma_alloc_returns_fresh_frames(v, v2, n, a);
    lemma_release_claimed(v, s, n, n);
    assert(v.allocated.union(set_int_range(s + n, s + n)) =~= v.allocated);
}

/// On every state the allocator can reach, the counter is the number of allocated
/// frames, which never exceeds the number of allocatable frames.
pub proof fn lemma_used_counts_allocated(v: FrameView)
    requires
        v.wf(),
    ensures
        v.used == v.allocated.len(),
        0 <= v.used <= v.count <= MAX_FRAMES,
{
    lemma_allocated_bound(v);
}

} // verus!
