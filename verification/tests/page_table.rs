use acore::kernel::mm::address::{PhysAddr, PhysPageNum, VirtAddr, VirtPageNum};
use acore::kernel::mm::frame_allocator::{frame_alloc, FrameTracker, StackFrameAllocator};
use acore::kernel::mm::memory::PhysMemory;
use acore::kernel::mm::page_table::{
    translated_byte_buffer, PTEFlags, PageTable, PageTableEntry, PTE_R, PTE_U, PTE_V, PTE_W,
    PTE_X,
};

const BASE: usize = 0x80000;

fn machine(frames: usize) -> (PhysMemory, StackFrameAllocator) {
    let mem = PhysMemory::new(PhysPageNum(BASE), frames);
    let mut fa = StackFrameAllocator::new();
    fa.init(PhysPageNum(BASE), PhysPageNum(BASE + frames));
    (mem, fa)
}

#[test]
fn entry_gives_back_page_number_and_flags() {
    let e = PageTableEntry::new(PhysPageNum(0x12345), PTEFlags { bits: PTE_R | PTE_V });
    assert_eq!(e.bits, (0x12345u64 << 10) | 3);
    assert_eq!(e.ppn(), PhysPageNum(0x12345));
    assert_eq!(e.flags().bits, PTE_R | PTE_V);
    assert!(e.is_valid());
    assert!(e.readable());
    assert!(!e.writable());
    assert!(!e.executable());
    assert!(e.is_leaf());
    let d = PageTableEntry::new(PhysPageNum(7), PTEFlags { bits: PTE_V });
    assert!(d.is_valid());
    assert!(!d.is_leaf());
    assert!(!PageTableEntry::empty().is_valid());
}

#[test]
fn flags_combine_bit_by_bit() {
    let rw = PTEFlags { bits: PTE_R }.union(PTEFlags { bits: PTE_W });
    assert_eq!(rw.bits, 6);
    assert_eq!(rw.intersection(PTEFlags { bits: PTE_W | PTE_X }).bits, PTE_W);
    assert_eq!(PTEFlags::from_bits(0x1f), Some(PTEFlags { bits: 0x1f }));
    assert_eq!(PTEFlags::empty().bits, 0);
}

#[test]
fn virtual_page_splits_into_three_indexes() {
    let vpn = VirtPageNum((3 << 18) | (5 << 9) | 7);
    assert_eq!(vpn.indexes(), [3, 5, 7]);
    let va = VirtAddr(0x1234_5678);
    assert_eq!(va.floor(), VirtPageNum(0x12345));
    assert_eq!(va.page_offset(), 0x678);
}

#[test]
fn frames_come_fresh_then_last_returned_first() {
    let mut fa = StackFrameAllocator::new();
    fa.init(PhysPageNum(10), PhysPageNum(13));
    assert_eq!(fa.allocate(), Some(PhysPageNum(10)));
    assert_eq!(fa.allocate(), Some(PhysPageNum(11)));
    assert!(fa.can_dealloc(PhysPageNum(10)));
    assert!(!fa.can_dealloc(PhysPageNum(12)));
    fa.dealloc(PhysPageNum(10));
    assert!(!fa.can_dealloc(PhysPageNum(10)));
    assert_eq!(fa.allocate(), Some(PhysPageNum(10)));
    assert_eq!(fa.allocate(), Some(PhysPageNum(12)));
    assert_eq!(fa.allocate(), None);
}

#[test]
fn frame_alloc_clears_the_frame() {
    let (mut mem, mut fa) = machine(2);
    mem.write(PhysPageNum(BASE), 5, 0xdead);
    let t: FrameTracker = frame_alloc(&mut fa, &mut mem).unwrap();
    assert_eq!(t.ppn, PhysPageNum(BASE));
    assert_eq!(t.used, 0);
    assert_eq!(mem.read(PhysPageNum(BASE), 5), 0);
    let _second = frame_alloc(&mut fa, &mut mem).unwrap();
    assert!(frame_alloc(&mut fa, &mut mem).is_none());
}

#[test]
fn map_then_translate_gives_the_mapping() {
    let (mut mem, mut fa) = machine(8);
    let mut pt = PageTable::new(&mut fa, &mut mem);
    let vpn = VirtPageNum(0x12345);
    assert!(pt.translate(&mem, vpn).is_none());
    pt.map(&mut mem, &mut fa, vpn, PhysPageNum(0x90000), PTEFlags { bits: PTE_R | PTE_W | PTE_U });
    let e = pt.translate(&mem, vpn).unwrap();
    assert_eq!(e.ppn(), PhysPageNum(0x90000));
    assert_eq!(e.flags().bits, PTE_R | PTE_W | PTE_U | PTE_V);
    assert!(e.is_valid());
    // a neighbour in the same last-level page is reached but not mapped
    let n = pt.translate(&mem, VirtPageNum(0x12346)).unwrap();
    assert!(!n.is_valid());
    // a page under another root entry is not reached at all
    assert!(pt.translate(&mem, VirtPageNum(0x7ffffff)).is_none());
    assert_eq!(
        pt.translate_va(&mem, VirtAddr(0x1234_5abc)),
        Some(PhysAddr(0x90000 * 0x1000 + 0xabc))
    );
}

#[test]
fn map_allocates_only_missing_directory_pages() {
    let (mut mem, mut fa) = machine(5);
    let mut pt = PageTable::new(&mut fa, &mut mem);
    pt.map(&mut mem, &mut fa, VirtPageNum(0x100), PhysPageNum(1), PTEFlags { bits: PTE_R });
    assert_eq!(fa.allocate(), Some(PhysPageNum(BASE + 3)));
    pt.map(&mut mem, &mut fa, VirtPageNum(0x101), PhysPageNum(2), PTEFlags { bits: PTE_R });
    assert_eq!(fa.allocate(), Some(PhysPageNum(BASE + 4)));
    assert_eq!(pt.translate(&mem, VirtPageNum(0x101)).unwrap().ppn(), PhysPageNum(2));
}

#[test]
fn unmap_takes_back_one_mapping() {
    let (mut mem, mut fa) = machine(8);
    let mut pt = PageTable::new(&mut fa, &mut mem);
    let a = VirtPageNum(0x400);
    let b = VirtPageNum(0x401);
    pt.map(&mut mem, &mut fa, a, PhysPageNum(0x11), PTEFlags { bits: PTE_R });
    pt.map(&mut mem, &mut fa, b, PhysPageNum(0x22), PTEFlags { bits: PTE_W });
    pt.unmap(&mut mem, b);
    assert!(!pt.translate(&mem, b).unwrap().is_valid());
    let e = pt.translate(&mem, a).unwrap();
    assert_eq!(e.ppn(), PhysPageNum(0x11));
    assert!(e.readable());
    // and the page can be mapped again
    pt.map(&mut mem, &mut fa, b, PhysPageNum(0x33), PTEFlags { bits: PTE_X });
    assert_eq!(pt.translate(&mem, b).unwrap().ppn(), PhysPageNum(0x33));
}

#[test]
fn token_names_the_same_table() {
    let (mut mem, mut fa) = machine(8);
    let mut pt = PageTable::new(&mut fa, &mut mem);
    pt.map(&mut mem, &mut fa, VirtPageNum(0x55), PhysPageNum(0x66), PTEFlags { bits: PTE_R });
    let token = pt.token();
    assert_eq!(token, (8usize << 60) | BASE);
    let other = PageTable::from_token(token);
    assert_eq!(other.token(), token);
    assert_eq!(other.translate(&mem, VirtPageNum(0x55)), pt.translate(&mem, VirtPageNum(0x55)));
}

#[test]
fn byte_buffer_is_cut_at_page_ends() {
    let (mut mem, mut fa) = machine(8);
    let mut pt = PageTable::new(&mut fa, &mut mem);
    pt.map(&mut mem, &mut fa, VirtPageNum(0x10), PhysPageNum(0x70), PTEFlags { bits: PTE_R });
    pt.map(&mut mem, &mut fa, VirtPageNum(0x11), PhysPageNum(0x50), PTEFlags { bits: PTE_R });
    let token = pt.token();
    let pieces = translated_byte_buffer(&mem, token, 0x10ff0, 0x20);
    assert_eq!(
        pieces,
        vec![(PhysPageNum(0x70), 0xff0, 0x1000), (PhysPageNum(0x50), 0, 0x10)]
    );
    let total: usize = pieces.iter().map(|(_, lo, hi)| hi - lo).sum();
    assert_eq!(total, 0x20);
    let one = translated_byte_buffer(&mem, token, 0x11000, 0x1000);
    assert_eq!(one, vec![(PhysPageNum(0x50), 0, 0x1000)]);
    assert!(translated_byte_buffer(&mem, token, 0x11000, 0).is_empty());
}

#[test]
fn memory_bytes_are_little_endian_in_entries() {
    let (mut mem, _fa) = machine(2);
    mem.write(PhysPageNum(BASE), 1, 0x0807_0605_0403_0201);
    let pa = BASE * 0x1000 + 8;
    assert_eq!(mem.read_byte(PhysAddr(pa)), 0x01);
    assert_eq!(mem.read_byte(PhysAddr(pa + 7)), 0x08);
    mem.write_byte(PhysAddr(pa + 2), 0xff);
    assert_eq!(mem.read(PhysPageNum(BASE), 1), 0x0807_0605_04ff_0201);
    assert_eq!(mem.read_byte(PhysAddr(pa + 1)), 0x02);
}

fn put_str(mem: &mut PhysMemory, pa: usize, s: &[u8]) {
    for (i, b) in s.iter().enumerate() {
        mem.write_byte(PhysAddr(pa + i), *b);
    }
}

#[test]
fn strings_are_read_up_to_the_zero_across_pages() {
    let (mut mem, mut fa) = machine(8);
    let mut pt = PageTable::new(&mut fa, &mut mem);
    pt.map(&mut mem, &mut fa, VirtPageNum(0x20), PhysPageNum(BASE + 6), PTEFlags { bits: PTE_R });
    pt.map(&mut mem, &mut fa, VirtPageNum(0x21), PhysPageNum(BASE + 7), PTEFlags { bits: PTE_R });
    put_str(&mut mem, (BASE + 6) * 0x1000 + 0xffd, b"ini");
    put_str(&mut mem, (BASE + 7) * 0x1000, b"tproc\0");
    let token = pt.token();
    let s = acore::kernel::mm::page_table::translated_string(&mem, token, 0x20ffd);
    assert_eq!(s, b"initproc".to_vec());
    let empty = acore::kernel::mm::page_table::translated_string(&mem, token, 0x21005);
    assert!(empty.is_empty());
}

#[test]
fn memory_knows_its_frames() {
    let (mem, _fa) = machine(4);
    assert!(mem.holds(PhysPageNum(BASE)));
    assert!(mem.holds(PhysPageNum(BASE + 3)));
    assert!(!mem.holds(PhysPageNum(BASE + 4)));
    assert!(!mem.holds(PhysPageNum(BASE - 1)));
}

#[test]
fn physical_addresses_round_to_frames() {
    assert_eq!(PhysAddr(0x8020_1234).floor(), PhysPageNum(0x80201));
    assert_eq!(PhysAddr(0x8020_1234).ceil(), PhysPageNum(0x80202));
    assert_eq!(PhysAddr(0x8020_1000).ceil(), PhysPageNum(0x80201));
}

#[test]
fn pages_reached_checks_every_page_of_a_range() {
    let (mut mem, mut fa) = machine(8);
    let mut pt = PageTable::new(&mut fa, &mut mem);
    pt.map(&mut mem, &mut fa, VirtPageNum(0x10), PhysPageNum(0x70), PTEFlags { bits: PTE_R });
    let token = pt.token();
    assert!(acore::kernel::mm::page_table::pages_reached(&mem, token, 0x10000, 0x1000));
    assert!(acore::kernel::mm::page_table::pages_reached(&mem, token, 0x10ff0, 0x20));
    assert!(acore::kernel::mm::page_table::pages_reached(&mem, token, 0x5000_0000, 0));
    assert!(!acore::kernel::mm::page_table::pages_reached(&mem, token, 0x5000_0000, 1));
}
