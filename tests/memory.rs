use os_core::frame::FrameAllocator;
use os_core::memory::MemorySet;
use os_core::page_table::{tran_vir_to_phy, PageTable};
use os_core::pte::{PageTableEntry, PTE_R, PTE_U, PTE_V, PTE_W, PTE_X};
use os_core::syscall::{sys_mmap, sys_munmap, sys_sbrk, Heap, HEAP_PERM};

fn fresh_space() -> MemorySet {
    MemorySet::new(FrameAllocator::new(0x80000, 0x80400)).unwrap()
}

#[test]
fn pte_packs_frame_and_flags() {
    let e = PageTableEntry::new(0x8_1234, PTE_V | PTE_R | PTE_X);
    assert_eq!(e.ppn(), 0x8_1234);
    assert_eq!(e.flags(), PTE_V | PTE_R | PTE_X);
    assert_eq!(e.bits, (0x8_1234u64 << 10) | 0b1011);
    assert!(e.is_valid());
    assert!(e.readable());
    assert!(!e.writable());
    assert!(e.executable());
    let z = PageTableEntry::empty();
    assert_eq!(z.bits, 0);
    assert!(!z.is_valid());
}

#[test]
fn frame_allocator_reuses_given_back_frames() {
    let mut fa = FrameAllocator::new(10, 12);
    assert_eq!(fa.free_frames(), 2);
    assert_eq!(fa.frame_alloc(), Some(10));
    assert_eq!(fa.frame_alloc(), Some(11));
    assert_eq!(fa.frame_alloc(), None);
    fa.frame_dealloc(10);
    assert_eq!(fa.free_frames(), 1);
    assert_eq!(fa.frame_alloc(), Some(10));
}

#[test]
fn map_then_translate_gives_the_frame() {
    let mut fa = FrameAllocator::new(100, 200);
    let mut pt = PageTable::new(&mut fa).unwrap();
    assert!(pt.translate(0x12345).is_none());
    assert!(pt.map(0x12345, 0x777, PTE_R | PTE_W, &mut fa));
    let e = pt.translate(0x12345).unwrap();
    assert_eq!(e.ppn(), 0x777);
    assert_eq!(e.flags(), PTE_V | PTE_R | PTE_W);
    // a neighbour in the same leaf table stays unmapped
    assert!(pt.translate(0x12346).is_none());
    assert!(pt.map(0x12346, 0x778, PTE_R, &mut fa));
    assert_eq!(pt.translate(0x12345).unwrap().ppn(), 0x777);
    assert_eq!(pt.translate(0x12346).unwrap().ppn(), 0x778);
    // root, one middle and one leaf table
    assert_eq!(fa.free_frames(), 97);
}

#[test]
fn map_on_mapped_page_fails_and_keeps_mapping() {
    let mut fa = FrameAllocator::new(100, 200);
    let mut pt = PageTable::new(&mut fa).unwrap();
    assert!(pt.map(5, 0x500, PTE_R, &mut fa));
    let free = fa.free_frames();
    assert!(!pt.map(5, 0x600, PTE_W, &mut fa));
    assert_eq!(fa.free_frames(), free);
    let e = pt.translate(5).unwrap();
    assert_eq!(e.ppn(), 0x500);
    assert_eq!(e.flags(), PTE_V | PTE_R);
}

#[test]
fn unmap_on_unmapped_page_fails() {
    let mut fa = FrameAllocator::new(100, 200);
    let mut pt = PageTable::new(&mut fa).unwrap();
    assert!(!pt.unmap(9));
    assert!(pt.map(9, 0x900, PTE_R, &mut fa));
    assert!(pt.unmap(9));
    assert!(pt.translate(9).is_none());
    assert!(!pt.unmap(9));
}

#[test]
fn map_fails_when_frames_run_out() {
    let mut fa = FrameAllocator::new(100, 102);
    let mut pt = PageTable::new(&mut fa).unwrap();
    // the root took one frame; the middle table takes the last one
    assert!(!pt.map(1, 0x900, PTE_R, &mut fa));
    assert!(pt.translate(1).is_none());
}

#[test]
fn mmap_then_translate_both_pages() {
    let mut ms = fresh_space();
    assert_eq!(sys_mmap(&mut ms, 0x10000, 8192, 0x3), 0);
    let a = ms.page_table.translate(0x10).unwrap();
    let b = ms.page_table.translate(0x11).unwrap();
    assert!(a.readable() && a.writable() && !a.executable());
    assert_eq!(a.flags() & PTE_U, PTE_U);
    assert!(b.readable() && b.writable());
    assert_ne!(a.ppn(), b.ppn());
    assert!(ms.page_table.translate(0x12).is_none());
    assert_eq!(sys_munmap(&mut ms, 0x10000, 8192), 0);
    assert!(ms.page_table.translate(0x10).is_none());
    assert!(ms.page_table.translate(0x11).is_none());
}

#[test]
fn mmap_munmap_round_trip_gives_frames_back() {
    let mut ms = fresh_space();
    assert_eq!(sys_mmap(&mut ms, 0x20000, 4096, 0x1), 0);
    let after_first = ms.frame_allocator.free_frames();
    assert_eq!(sys_munmap(&mut ms, 0x20000, 4096), 0);
    assert_eq!(ms.frame_allocator.free_frames(), after_first + 1);
    assert_eq!(ms.areas.len(), 0);
    assert_eq!(sys_munmap(&mut ms, 0x20000, 4096), -1);
    // mapping again reuses the tables, so it costs one frame
    assert_eq!(sys_mmap(&mut ms, 0x20000, 4096, 0x1), 0);
    assert_eq!(ms.frame_allocator.free_frames(), after_first);
}

#[test]
fn mmap_rounds_length_up_to_pages() {
    let mut ms = fresh_space();
    assert_eq!(sys_mmap(&mut ms, 0x30000, 4097, 0x4), 0);
    assert!(ms.page_table.translate(0x30).unwrap().executable());
    assert!(ms.page_table.translate(0x31).is_some());
    assert!(ms.page_table.translate(0x32).is_none());
    assert_eq!(sys_munmap(&mut ms, 0x30000, 8192), 0);
}

#[test]
fn mmap_rejects_bad_arguments() {
    let mut ms = fresh_space();
    assert_eq!(sys_mmap(&mut ms, 0x10001, 4096, 0x3), -1);
    assert_eq!(sys_mmap(&mut ms, 0x10000, 4096, 0x0), -1);
    assert_eq!(sys_mmap(&mut ms, 0x10000, 4096, 0x8), -1);
    assert_eq!(sys_mmap(&mut ms, 0x10000, 4096, 0xf), -1);
    assert_eq!(ms.areas.len(), 0);
}

#[test]
fn empty_ranges_succeed_without_change() {
    let mut ms = fresh_space();
    let free = ms.frame_allocator.free_frames();
    assert_eq!(sys_mmap(&mut ms, 0x10000, 0, 0x1), 0);
    assert_eq!(ms.areas.len(), 0);
    assert_eq!(ms.frame_allocator.free_frames(), free);
    assert_eq!(sys_munmap(&mut ms, 0x10000, 0), 0);
    // the checks on start and port still apply
    assert_eq!(sys_mmap(&mut ms, 0x10001, 0, 0x1), -1);
    assert_eq!(sys_mmap(&mut ms, 0x10000, 0, 0x9), -1);
}

#[test]
fn mmap_rejects_overlap_without_change() {
    let mut ms = fresh_space();
    assert_eq!(sys_mmap(&mut ms, 0x10000, 8192, 0x3), 0);
    let free = ms.frame_allocator.free_frames();
    assert_eq!(sys_mmap(&mut ms, 0x11000, 8192, 0x3), -1);
    assert_eq!(ms.frame_allocator.free_frames(), free);
    assert!(ms.page_table.translate(0x12).is_none());
    assert_eq!(ms.areas.len(), 1);
}

#[test]
fn mmap_fails_when_frames_run_short() {
    // four frames left: two pages and their two new table levels fit exactly
    let mut ms = MemorySet::new(FrameAllocator::new(0, 5)).unwrap();
    assert_eq!(sys_mmap(&mut ms, 0x10000, 8192, 0x3), 0);
    assert_eq!(ms.frame_allocator.free_frames(), 0);
    // three frames left: the second page finds none and the first is undone
    let mut ms = MemorySet::new(FrameAllocator::new(0, 4)).unwrap();
    assert_eq!(sys_mmap(&mut ms, 0x10000, 8192, 0x3), -1);
    assert!(ms.page_table.translate(0x10).is_none());
    assert_eq!(ms.areas.len(), 0);
    // the two table levels stay; the page's frame came back
    assert_eq!(ms.frame_allocator.free_frames(), 1);
    assert_eq!(sys_mmap(&mut ms, 0x10000, 4096, 0x3), 0);
}

#[test]
fn munmap_of_middle_pages_keeps_both_ends() {
    let mut ms = fresh_space();
    assert_eq!(sys_mmap(&mut ms, 0x10000, 4 * 4096, 0x3), 0);
    let f0 = ms.page_table.translate(0x10).unwrap().ppn();
    let f3 = ms.page_table.translate(0x13).unwrap().ppn();
    let free = ms.frame_allocator.free_frames();
    assert_eq!(sys_munmap(&mut ms, 0x11000, 2 * 4096), 0);
    assert_eq!(ms.frame_allocator.free_frames(), free + 2);
    assert!(ms.page_table.translate(0x11).is_none());
    assert!(ms.page_table.translate(0x12).is_none());
    assert_eq!(ms.page_table.translate(0x10).unwrap().ppn(), f0);
    assert_eq!(ms.page_table.translate(0x13).unwrap().ppn(), f3);
    assert_eq!(ms.areas.len(), 2);
    assert_eq!((ms.areas[0].start_vpn, ms.areas[0].end_vpn), (0x10, 0x11));
    assert_eq!((ms.areas[1].start_vpn, ms.areas[1].end_vpn), (0x13, 0x14));
    assert_eq!(ms.areas[1].frames, vec![f3]);
    // a range with an unmapped page in it fails whole
    assert_eq!(sys_munmap(&mut ms, 0x10000, 2 * 4096), -1);
    assert!(ms.page_table.translate(0x10).is_some());
    assert_eq!(sys_munmap(&mut ms, 0x10000, 4096), 0);
    assert_eq!(sys_munmap(&mut ms, 0x13000, 4096), 0);
    assert_eq!(ms.areas.len(), 0);
}

#[test]
fn munmap_rejects_unaligned_or_unmapped_ranges() {
    let mut ms = fresh_space();
    assert_eq!(sys_mmap(&mut ms, 0x10000, 8192, 0x3), 0);
    assert_eq!(sys_munmap(&mut ms, 0x10001, 4096), -1);
    assert_eq!(sys_munmap(&mut ms, 0x40000, 4096), -1);
    assert_eq!(sys_munmap(&mut ms, 0x11000, 8192), -1);
    assert!(ms.page_table.translate(0x10).is_some());
    assert!(ms.page_table.translate(0x11).is_some());
}

#[test]
fn munmap_rounds_length_up() {
    let mut ms = fresh_space();
    assert_eq!(sys_mmap(&mut ms, 0x10000, 8192, 0x3), 0);
    assert_eq!(sys_munmap(&mut ms, 0x10000, 100), 0);
    assert!(ms.page_table.translate(0x10).is_none());
    assert!(ms.page_table.translate(0x11).is_some());
}

#[test]
fn munmap_spans_adjacent_regions() {
    let mut ms = fresh_space();
    assert_eq!(sys_mmap(&mut ms, 0x10000, 8192, 0x3), 0);
    assert_eq!(sys_mmap(&mut ms, 0x12000, 8192, 0x1), 0);
    let free = ms.frame_allocator.free_frames();
    assert_eq!(sys_munmap(&mut ms, 0x11000, 8192), 0);
    assert_eq!(ms.frame_allocator.free_frames(), free + 2);
    assert!(ms.page_table.translate(0x10).is_some());
    assert!(ms.page_table.translate(0x11).is_none());
    assert!(ms.page_table.translate(0x12).is_none());
    assert!(ms.page_table.translate(0x13).unwrap().readable());
    assert_eq!(ms.areas.len(), 2);
    assert_eq!(sys_munmap(&mut ms, 0x10000, 4 * 4096), -1);
    assert!(ms.page_table.translate(0x10).is_some());
}

#[test]
fn token_holds_mode_and_root() {
    let mut fa = FrameAllocator::new(0x80123, 0x80200);
    let pt = PageTable::new(&mut fa).unwrap();
    assert_eq!(pt.root_ppn, 0x80123);
    assert_eq!(pt.token(), (8u64 << 60) | 0x80123);
}

#[test]
fn virtual_address_to_frame() {
    let mut fa = FrameAllocator::new(100, 200);
    let mut pt = PageTable::new(&mut fa).unwrap();
    assert!(pt.map(0x42, 0x999, PTE_R, &mut fa));
    assert_eq!(tran_vir_to_phy(&pt, 0x42abc), Some(0x999));
    assert_eq!(tran_vir_to_phy(&pt, 0x43000), None);
}

#[test]
fn sbrk_grows_and_shrinks_the_heap() {
    let mut ms = fresh_space();
    let mut heap = Heap { heap_bottom: 0x40000, program_brk: 0x40000 };
    assert_eq!(sys_sbrk(&mut ms, &mut heap, 100), 0x40000);
    assert_eq!(heap.program_brk, 0x40064);
    let e = ms.page_table.translate(0x40).unwrap();
    assert_eq!(e.flags(), HEAP_PERM | PTE_V);
    assert!(e.readable() && e.writable() && !e.executable());
    assert!(ms.page_table.translate(0x41).is_none());
    assert_eq!(sys_sbrk(&mut ms, &mut heap, 5000), 0x40064);
    assert!(ms.page_table.translate(0x41).is_some());
    assert_eq!(ms.areas.len(), 1);
    assert_eq!((ms.areas[0].start_vpn, ms.areas[0].end_vpn), (0x40, 0x42));
    assert_eq!(sys_sbrk(&mut ms, &mut heap, -5000), 0x40064 + 5000);
    assert!(ms.page_table.translate(0x41).is_none());
    assert!(ms.page_table.translate(0x40).is_some());
    assert_eq!(sys_sbrk(&mut ms, &mut heap, -200), -1);
    assert_eq!(heap.program_brk, 0x40064);
    assert_eq!(sys_sbrk(&mut ms, &mut heap, -100), 0x40064);
    assert!(ms.page_table.translate(0x40).is_none());
    assert_eq!(ms.areas.len(), 0);
    assert_eq!(sys_sbrk(&mut ms, &mut heap, 0), 0x40000);
    assert_eq!(sys_sbrk(&mut ms, &mut heap, 1), 0x40000);
    assert!(ms.page_table.translate(0x40).is_some());
}

#[test]
fn sbrk_fails_over_mapped_pages() {
    let mut ms = fresh_space();
    let mut heap = Heap { heap_bottom: 0x40000, program_brk: 0x40000 };
    assert_eq!(sys_mmap(&mut ms, 0x41000, 4096, 0x1), 0);
    assert_eq!(sys_sbrk(&mut ms, &mut heap, 4096), 0x40000);
    assert_eq!(sys_sbrk(&mut ms, &mut heap, 4096), -1);
    assert_eq!(heap.program_brk, 0x41000);
    assert!(ms.page_table.translate(0x41).unwrap().readable());
    assert!(!ms.page_table.translate(0x41).unwrap().writable());
}
