use corn_sprite::memory::frame::{alloc_frame, init as frame_init, stats as frame_stats};
use corn_sprite::memory::page::{
    init_kernel_mapping, map_range, satp_value, PageTable, PageTableEntry, PteFlags,
    KERNEL_START, PTE_RW, PTE_RWX, PTE_RX, PTE_USER_RW, PTE_USER_RWX, PTE_USER_RX, UART_PAGE,
};
use corn_sprite::memory::phys::PhysMemory;
use corn_sprite::memory::{page, PhysAddr, VirtAddr};

const BASE: usize = 0x8000_0000;

/// Follow the three levels for `vaddr`, as the hardware does.
fn walk(root: &PageTable, mem: &PhysMemory, vaddr: usize) -> Option<PageTableEntry> {
    let v = VirtAddr::new(vaddr);
    let e2 = root.get(v.vpn2());
    if !e2.is_valid() {
        return None;
    }
    let t1 = e2.phys_addr().as_usize();
    let e1 = mem.read(t1, v.vpn1());
    let e1 = PageTableEntry::new((e1 >> 10) as usize, e1 & 0x3FF);
    if !e1.is_valid() {
        return None;
    }
    let t0 = e1.phys_addr().as_usize();
    let e0 = mem.read(t0, v.vpn0());
    Some(PageTableEntry::new((e0 >> 10) as usize, e0 & 0x3FF))
}

#[test]
fn pte_flag_bits() {
    assert_eq!(PteFlags::Valid.bits(), 1);
    assert_eq!(PteFlags::Read.bits(), 2);
    assert_eq!(PteFlags::Write.bits(), 4);
    assert_eq!(PteFlags::Execute.bits(), 8);
    assert_eq!(PteFlags::User.bits(), 16);
    assert_eq!(PteFlags::Global.bits(), 32);
    assert_eq!(PteFlags::Accessed.bits(), 64);
    assert_eq!(PteFlags::Dirty.bits(), 128);
    assert_eq!(PTE_RW, 1 | 2 | 4);
    assert_eq!(PTE_RX, 1 | 2 | 8);
    assert_eq!(PTE_RWX, PTE_RW | 8);
    assert_eq!(PTE_USER_RW, PTE_RW | 16);
    assert_eq!(PTE_USER_RX, PTE_RX | 16);
    assert_eq!(PTE_USER_RWX, PTE_RWX | 16);
}

#[test]
fn pte_fields_round_trip() {
    let e = PageTableEntry::new(0x80001, PTE_RWX);
    assert_eq!(e.ppn(), 0x80001);
    assert_eq!(e.flags(), PTE_RWX);
    assert!(e.is_valid());
    assert!(e.is_leaf());
    assert_eq!(e.phys_addr(), PhysAddr(0x8000_1000));
    let d = PageTableEntry::new(0x80002, 1);
    assert!(d.is_valid());
    assert!(!d.is_leaf());
    let z = PageTableEntry::empty();
    assert!(!z.is_valid());
    assert_eq!(z.ppn(), 0);
    assert_eq!(z.flags(), 0);
    // the page number keeps 44 bits
    let big = PageTableEntry::new(0xFFF_FFFF_FFFF, 0);
    assert_eq!(big.ppn(), 0xFFF_FFFF_FFFF);
}

#[test]
fn page_table_get_set() {
    let mut t = PageTable::empty();
    for i in 0..512 {
        assert!(!t.get(i).is_valid());
    }
    t.set(7, PageTableEntry::new(3, PTE_RW));
    assert_eq!(t.get(7).ppn(), 3);
    assert_eq!(t.get(7).flags(), PTE_RW);
    assert!(!t.get(6).is_valid());
    assert!(!t.get(8).is_valid());
}

#[test]
fn map_creates_tables_and_leaf() {
    let mut fa = frame_init(BASE, BASE + 16 * 4096);
    let mut mem = PhysMemory::new(BASE, 16);
    let mut root = PageTable::empty();
    let va = (2 << 30) | (5 << 21) | (9 << 12);
    assert_eq!(page::map(&mut root, &mut mem, &mut fa, VirtAddr::new(va), PhysAddr::new(0x1234_5000), PTE_RW), Ok(()));
    // two intermediate tables were taken from the allocator
    assert_eq!(frame_stats(&fa), (2, 16));
    let e2 = root.get(2);
    assert!(e2.is_valid());
    assert!(!e2.is_leaf());
    assert_eq!(e2.phys_addr(), PhysAddr(BASE));
    assert_eq!(mem.read(BASE, 5) & 0x3FF, 1);
    let leaf = walk(&root, &mem, va).unwrap();
    assert_eq!(leaf.ppn(), 0x12345);
    assert_eq!(leaf.flags(), PTE_RW);
    // a second page in the same level-0 table needs no new frame
    assert_eq!(page::map(&mut root, &mut mem, &mut fa, VirtAddr::new(va + 4096), PhysAddr::new(0x9000), PTE_RX), Ok(()));
    assert_eq!(frame_stats(&fa), (2, 16));
    assert_eq!(walk(&root, &mem, va + 4096).unwrap().ppn(), 9);
    assert_eq!(walk(&root, &mem, va).unwrap().ppn(), 0x12345);
    assert!(walk(&root, &mem, va + (1 << 21)).is_none());
}

#[test]
fn map_reports_out_of_memory() {
    let mut fa = frame_init(BASE, BASE + 4096);
    let mut mem = PhysMemory::new(BASE, 1);
    let mut root = PageTable::empty();
    // one frame is enough for the level-1 table but not for the level-0 table
    let r = page::map(&mut root, &mut mem, &mut fa, VirtAddr::new(0x4000_0000), PhysAddr::new(0), PTE_RW);
    assert_eq!(r, Err("out of memory"));
    assert!(root.get(1).is_valid());
    assert_eq!(frame_stats(&fa), (1, 1));
    let mut fa2 = frame_init(BASE, BASE);
    let mut root2 = PageTable::empty();
    let r2 = page::map(&mut root2, &mut mem, &mut fa2, VirtAddr::new(0), PhysAddr::new(0), PTE_RW);
    assert_eq!(r2, Err("out of memory"));
    assert!(!root2.get(0).is_valid());
}

#[test]
fn map_range_identity_maps_each_page() {
    let mut fa = frame_init(BASE, BASE + 16 * 4096);
    let mut mem = PhysMemory::new(BASE, 16);
    let mut root = PageTable::empty();
    assert_eq!(map_range(&mut root, &mut mem, &mut fa, 0x10_0800, 0x10_3001, PTE_RWX), Ok(()));
    for page in [0x10_0000usize, 0x10_1000, 0x10_2000, 0x10_3000] {
        let e = walk(&root, &mem, page).unwrap();
        assert_eq!(e.phys_addr(), PhysAddr(page));
        assert_eq!(e.flags(), PTE_RWX);
    }
    assert!(walk(&root, &mem, 0x10_4000).unwrap().flags() == 0);
    assert_eq!(frame_stats(&fa), (2, 16));
    // an empty range maps nothing
    assert_eq!(map_range(&mut root, &mut mem, &mut fa, 0x20_0000, 0x20_0000, PTE_RW), Ok(()));
    assert_eq!(frame_stats(&fa), (2, 16));
}

#[test]
fn kernel_mapping_maps_kernel_and_uart() {
    let mut fa = frame_init(BASE + 0x10_0000, BASE + 0x10_0000 + 16 * 4096);
    let mut mem = PhysMemory::new(BASE + 0x10_0000, 16);
    let mut root = PageTable::empty();
    assert_eq!(init_kernel_mapping(&mut root, &mut mem, &mut fa, KERNEL_START + 0x2000), Ok(()));
    assert_eq!(walk(&root, &mem, KERNEL_START).unwrap().phys_addr(), PhysAddr(KERNEL_START));
    assert_eq!(walk(&root, &mem, KERNEL_START + 0x1000).unwrap().flags(), PTE_RWX);
    assert_eq!(walk(&root, &mem, UART_PAGE).unwrap().phys_addr(), PhysAddr(UART_PAGE));
    assert_eq!(walk(&root, &mem, UART_PAGE).unwrap().flags(), PTE_RW);
    assert_eq!(frame_stats(&fa), (4, 16));
}

#[test]
fn kernel_mapping_runs_out_of_frames() {
    let mut fa = frame_init(BASE, BASE + 3 * 4096);
    let mut mem = PhysMemory::new(BASE, 3);
    let mut root = PageTable::empty();
    assert_eq!(init_kernel_mapping(&mut root, &mut mem, &mut fa, KERNEL_START + 0x1000), Err("out of memory"));
    assert!(walk(&root, &mem, KERNEL_START).is_some());
}

#[test]
fn satp_selects_sv39() {
    assert_eq!(satp_value(PhysAddr(0x8020_0000)), (8u64 << 60) | 0x80200);
    assert_eq!(satp_value(PhysAddr(0)), 8u64 << 60);
}

#[test]
fn alloc_frame_after_map() {
    let mut fa = frame_init(BASE, BASE + 4 * 4096);
    let mut mem = PhysMemory::new(BASE, 4);
    let mut root = PageTable::empty();
    page::map(&mut root, &mut mem, &mut fa, VirtAddr::new(0), PhysAddr::new(0), PTE_RW).unwrap();
    assert_eq!(alloc_frame(&mut fa), Some(PhysAddr(BASE + 2 * 4096)));
}
