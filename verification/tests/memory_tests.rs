use corn_sprite::memory::frame::{
    alloc_contiguous, alloc_frame, free, free_contiguous, init as frame_init, stats as frame_stats,
    zero_frame, MAX_FRAMES,
};
use corn_sprite::memory::heap::{init as heap_init, stats as heap_stats, BumpAllocator, HEAP_PAGES};
use corn_sprite::memory::phys::PhysMemory;
use corn_sprite::memory::{page_ceil, page_floor, PhysAddr, VirtAddr, PAGE_SHIFT, PAGE_SIZE};

const BASE: usize = 0x8000_0000;

#[test]
fn page_constants() {
    assert_eq!(PAGE_SIZE, 4096);
    assert_eq!(PAGE_SHIFT, 12);
}

#[test]
fn page_floor_rounds_down() {
    assert_eq!(page_floor(0x1234), 0x1000);
    assert_eq!(page_floor(0x2000), 0x2000);
    assert_eq!(page_floor(0), 0);
    assert_eq!(page_floor(0xFFF), 0);
}

#[test]
fn page_ceil_rounds_up() {
    assert_eq!(page_ceil(0x1234), 0x2000);
    assert_eq!(page_ceil(0x2000), 0x2000);
    assert_eq!(page_ceil(0), 0);
    assert_eq!(page_ceil(1), 0x1000);
}

#[test]
fn phys_addr_parts() {
    let a = PhysAddr::new(0x8000_1234);
    assert_eq!(a.as_usize(), 0x8000_1234);
    assert_eq!(a.page_offset(), 0x234);
    assert_eq!(a.page_number(), 0x80001);
    assert_eq!(PhysAddr::new(5), PhysAddr(5));
    assert!(PhysAddr::new(4) < PhysAddr::new(5));
}

#[test]
fn virt_addr_parts() {
    // vpn2 = 3, vpn1 = 0x155, vpn0 = 0x0AA, offset = 0x123
    let a = VirtAddr::new((3 << 30) | (0x155 << 21) | (0x0AA << 12) | 0x123);
    assert_eq!(a.page_offset(), 0x123);
    assert_eq!(a.vpn0(), 0x0AA);
    assert_eq!(a.vpn1(), 0x155);
    assert_eq!(a.vpn2(), 3);
    assert_eq!(a.as_usize(), (3 << 30) | (0x155 << 21) | (0x0AA << 12) | 0x123);
    let top = VirtAddr::new(0x7F_FFFF_FFFF);
    assert_eq!(top.vpn0(), 0x1FF);
    assert_eq!(top.vpn1(), 0x1FF);
    assert_eq!(top.vpn2(), 0x1FF);
}

#[test]
fn frame_init_shrinks_to_whole_pages() {
    let fa = frame_init(BASE + 1, BASE + 10 * 4096 + 7);
    // start rounds up to BASE + 4096, end rounds down to BASE + 10 pages
    assert_eq!(frame_stats(&fa), (0, 9));
}

#[test]
fn frame_init_caps_at_max_frames() {
    let fa = frame_init(0, (MAX_FRAMES + 100) * 4096);
    assert_eq!(frame_stats(&fa), (0, MAX_FRAMES));
}

#[test]
fn frame_alloc_hands_out_lowest_free_frame() {
    let mut fa = frame_init(BASE, BASE + 4 * 4096);
    assert_eq!(alloc_frame(&mut fa), Some(PhysAddr(BASE)));
    assert_eq!(alloc_frame(&mut fa), Some(PhysAddr(BASE + 4096)));
    assert_eq!(alloc_frame(&mut fa), Some(PhysAddr(BASE + 2 * 4096)));
    assert_eq!(frame_stats(&fa), (3, 4));
    free(&mut fa, PhysAddr(BASE + 4096));
    assert_eq!(frame_stats(&fa), (2, 4));
    // the freed frame is the lowest free one again
    assert_eq!(alloc_frame(&mut fa), Some(PhysAddr(BASE + 4096)));
    assert_eq!(alloc_frame(&mut fa), Some(PhysAddr(BASE + 3 * 4096)));
    assert_eq!(alloc_frame(&mut fa), None);
    assert_eq!(frame_stats(&fa), (4, 4));
}

#[test]
fn frame_alloc_crosses_bitmap_words() {
    let mut fa = frame_init(0, 100 * 4096);
    for i in 0..70 {
        assert_eq!(alloc_frame(&mut fa), Some(PhysAddr(i * 4096)));
    }
    free(&mut fa, PhysAddr(65 * 4096));
    assert_eq!(alloc_frame(&mut fa), Some(PhysAddr(65 * 4096)));
    assert_eq!(alloc_frame(&mut fa), Some(PhysAddr(70 * 4096)));
}

#[test]
fn frame_free_outside_region_is_ignored() {
    let mut fa = frame_init(BASE, BASE + 4 * 4096);
    alloc_frame(&mut fa);
    free(&mut fa, PhysAddr(BASE - 4096));
    free(&mut fa, PhysAddr(BASE + 4 * 4096));
    assert_eq!(frame_stats(&fa), (1, 4));
}

#[test]
fn frame_free_then_alloc_restores() {
    let mut fa = frame_init(BASE, BASE + 8 * 4096);
    let a = alloc_frame(&mut fa).unwrap();
    free(&mut fa, a);
    assert_eq!(frame_stats(&fa), (0, 8));
    assert_eq!(alloc_frame(&mut fa), Some(a));
}

#[test]
fn frame_alloc_contiguous_first_fit() {
    let mut fa = frame_init(BASE, BASE + 8 * 4096);
    assert_eq!(alloc_contiguous(&mut fa, 0), None);
    assert_eq!(alloc_frame(&mut fa), Some(PhysAddr(BASE)));
    assert_eq!(alloc_frame(&mut fa), Some(PhysAddr(BASE + 4096)));
    assert_eq!(alloc_frame(&mut fa), Some(PhysAddr(BASE + 2 * 4096)));
    free(&mut fa, PhysAddr(BASE + 4096));
    // the hole at frame 1 is too small for 2 frames
    assert_eq!(alloc_contiguous(&mut fa, 2), Some(PhysAddr(BASE + 3 * 4096)));
    assert_eq!(frame_stats(&fa), (4, 8));
    // a single frame goes into the hole
    assert_eq!(alloc_contiguous(&mut fa, 1), Some(PhysAddr(BASE + 4096)));
    assert_eq!(alloc_contiguous(&mut fa, 4), None);
    assert_eq!(alloc_contiguous(&mut fa, 3), Some(PhysAddr(BASE + 5 * 4096)));
    assert_eq!(frame_stats(&fa), (8, 8));
    assert_eq!(alloc_contiguous(&mut fa, 1), None);
}

#[test]
fn frame_alloc_contiguous_too_large() {
    let mut fa = frame_init(BASE, BASE + 8 * 4096);
    assert_eq!(alloc_contiguous(&mut fa, 9), None);
    assert_eq!(alloc_contiguous(&mut fa, usize::MAX), None);
    assert_eq!(frame_stats(&fa), (0, 8));
    assert_eq!(alloc_contiguous(&mut fa, 8), Some(PhysAddr(BASE)));
}

#[test]
fn frame_free_contiguous_undoes_alloc_contiguous() {
    let mut fa = frame_init(BASE, BASE + 8 * 4096);
    alloc_frame(&mut fa);
    let a = alloc_contiguous(&mut fa, 3).unwrap();
    assert_eq!(a, PhysAddr(BASE + 4096));
    assert_eq!(frame_stats(&fa), (4, 8));
    free_contiguous(&mut fa, a, 3);
    assert_eq!(frame_stats(&fa), (1, 8));
    assert_eq!(alloc_contiguous(&mut fa, 7), Some(PhysAddr(BASE + 4096)));
}

#[test]
fn frame_stats_used_at_most_count() {
    let mut fa = frame_init(BASE, BASE + 3 * 4096);
    while alloc_frame(&mut fa).is_some() {}
    let (used, count) = frame_stats(&fa);
    assert_eq!((used, count), (3, 3));
    assert!(used <= count);
}

#[test]
fn phys_memory_read_write_zero() {
    let mut mem = PhysMemory::new(BASE, 2);
    assert_eq!(mem.base(), BASE);
    assert_eq!(mem.pages(), 2);
    assert!(mem.holds_page(BASE + 4096));
    assert!(!mem.holds_page(BASE + 2 * 4096));
    assert!(!mem.holds_page(BASE + 8));
    assert_eq!(mem.read(BASE + 4096, 3), 0);
    mem.write(BASE + 4096, 3, 0xABCD);
    mem.write(BASE, 511, 7);
    assert_eq!(mem.read(BASE + 4096, 3), 0xABCD);
    assert_eq!(mem.read(BASE, 511), 7);
    zero_frame(&mut mem, PhysAddr(BASE + 4096));
    assert_eq!(mem.read(BASE + 4096, 3), 0);
    assert_eq!(mem.read(BASE, 511), 7);
}

#[test]
fn bump_allocator_aligns_and_bumps() {
    let mut h = BumpAllocator::new();
    assert_eq!(heap_stats(&h), (0, 0, 0));
    h.init(0x1000, 0x100);
    assert_eq!(heap_stats(&h), (0, 0x100, 0));
    assert_eq!(h.allocate(3, 1), 0x1000);
    assert_eq!(h.allocate(8, 8), 0x1008);
    assert_eq!(heap_stats(&h), (0x10, 0x100, 2));
    assert_eq!(h.allocate(1, 64), 0x1040);
    // does not fit: null, nothing changes
    assert_eq!(h.allocate(0x100, 1), 0);
    assert_eq!(heap_stats(&h), (0x41, 0x100, 3));
    h.dealloc(0x1000, 3, 1);
    assert_eq!(heap_stats(&h), (0x41, 0x100, 2));
    // an exact fit is accepted
    assert_eq!(h.allocate(0xBF, 1), 0x1041);
    assert_eq!(heap_stats(&h), (0x100, 0x100, 3));
}

#[test]
fn bump_blocks_do_not_overlap() {
    let mut h = BumpAllocator::new();
    h.init(0x2000, 0x1000);
    let a1 = h.allocate(10, 4);
    let a2 = h.allocate(20, 16);
    assert_eq!(a1 % 4, 0);
    assert_eq!(a2 % 16, 0);
    assert!(a1 + 10 <= a2);
    assert!(a2 + 20 <= 0x3000);
}

#[test]
fn heap_init_takes_zeroed_frames() {
    let mut fa = frame_init(BASE, BASE + 80 * 4096);
    let mut mem = PhysMemory::new(BASE, 80);
    alloc_frame(&mut fa);
    mem.write(BASE + 4096, 0, 99);
    mem.write(BASE + 70 * 4096, 0, 55);
    let h = heap_init(&mut fa, &mut mem);
    assert_eq!(heap_stats(&h), (0, HEAP_PAGES * 4096, 0));
    assert_eq!(frame_stats(&fa), (1 + HEAP_PAGES, 80));
    assert_eq!(mem.read(BASE + 4096, 0), 0);
    assert_eq!(mem.read(BASE + 70 * 4096, 0), 55);
    let mut h = h;
    assert_eq!(h.allocate(16, 16), BASE + 4096);
}

#[test]
fn frame_free_of_unallocated_frame_changes_nothing() {
    let mut fa = frame_init(BASE, BASE + 4 * 4096);
    let a = alloc_frame(&mut fa).unwrap();
    assert_eq!(a, PhysAddr(BASE));
    // frame 2 lies in the region but was never handed out
    free(&mut fa, PhysAddr(BASE + 2 * 4096));
    assert_eq!(frame_stats(&fa), (1, 4));
    // freeing the same frame twice lowers the count once
    free(&mut fa, a);
    free(&mut fa, a);
    assert_eq!(frame_stats(&fa), (0, 4));
    // the counter still counts allocated frames: all four can be handed out
    for _ in 0..4 {
        assert!(alloc_frame(&mut fa).is_some());
    }
    assert_eq!(frame_stats(&fa), (4, 4));
    assert!(alloc_frame(&mut fa).is_none());
}

#[test]
fn phys_memory_from_words_keeps_the_words() {
    let mut words = vec![0u64; 1024];
    words[3] = 5;
    words[512 + 7] = 9;
    let mem = PhysMemory::from_words(0x2000, words);
    assert_eq!((mem.base(), mem.pages()), (0x2000, 2));
    assert_eq!(mem.read(0x2000, 3), 5);
    assert_eq!(mem.read(0x3000, 7), 9);
    assert_eq!(mem.read(0x3000, 3), 0);
}
