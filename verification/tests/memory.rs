use oshit::memory::frame_alloc::StackFrameAllocator;
use oshit::memory::{PTEFlags, PageTableEntry, PhysAddr, PhysPageNum, UserBuffer, VirtAddr, VirtPageNum};

#[test]
fn virt_addr_page_split() {
    let va = VirtAddr(0x1234_5678);
    assert_eq!(va.to_vpn(), VirtPageNum(0x12345));
    assert_eq!(va.page_offset(), 0x678);
    assert_eq!(va.to_vpn_ceil(), VirtPageNum(0x12346));
    assert_eq!(VirtAddr(0x2000).to_vpn_ceil(), VirtPageNum(2));
}

#[test]
fn phys_addr_page_split() {
    let pa = PhysAddr(0x8020_0abc);
    assert_eq!(pa.to_vpn(), PhysPageNum(0x80200));
    assert_eq!(pa.page_offset(), 0xabc);
    assert_eq!(pa.to_vpn_ceil(), PhysPageNum(0x80201));
    assert_eq!(PhysPageNum(0x80200).head_pa(), PhysAddr(0x8020_0000));
}

#[test]
fn address_conversions() {
    assert_eq!(PhysPageNum::from(PhysAddr(0x3fff)), PhysPageNum(3));
    assert_eq!(PhysAddr::from(PhysPageNum(3)), PhysAddr(0x3000));
    assert_eq!(VirtPageNum::from(VirtAddr(0x5001)), VirtPageNum(5));
    assert_eq!(VirtAddr::from(VirtPageNum(5)), VirtAddr(0x5000));
    assert_eq!(VirtAddr(10) + 5, VirtAddr(15));
    assert_eq!(PhysPageNum(7) - 2, PhysPageNum(5));
    assert_eq!(3usize + VirtPageNum(4), VirtPageNum(7));
}

#[test]
fn vpn_indexes() {
    let vpn = VirtPageNum((3 << 18) | (5 << 9) | 7);
    assert_eq!(vpn.indexes(), [3, 5, 7]);
    assert_eq!(VirtPageNum(0x7FF_FFFF).indexes(), [511, 511, 511]);
}

#[test]
fn pte_round_trip() {
    let flags = PTEFlags::V().union(PTEFlags::R()).union(PTEFlags::W());
    let pte = PageTableEntry::new(PhysPageNum(0x80400), flags);
    assert_eq!(pte.ppn(), PhysPageNum(0x80400));
    assert_eq!(pte.flags(), flags);
    assert!(pte.valid());
    assert!(pte.readable());
    assert!(pte.writable());
    assert!(!pte.executable());
    assert!(!pte.dirty());
    assert!(!PageTableEntry::empty().valid());
}

#[test]
fn pte_modify_access_keeps_ppn() {
    let mut pte = PageTableEntry::new(PhysPageNum(42), PTEFlags::V().union(PTEFlags::R()));
    pte.modify_access(PTEFlags::V().union(PTEFlags::X()));
    assert_eq!(pte.ppn(), PhysPageNum(42));
    assert!(pte.executable());
    assert!(!pte.readable());
}

#[test]
fn pte_flag_bits() {
    assert_eq!(PTEFlags::D().bits(), 128);
    assert!(PTEFlags::from_bits(0x0f).unwrap().contains(PTEFlags::X()));
    assert_eq!(PTEFlags::R().union(PTEFlags::W()).intersection(PTEFlags::W()).bits(), 4);
    assert_eq!(PTEFlags::empty().bits(), 0);
}

#[test]
fn frame_allocator_hands_out_in_order() {
    let mut a = StackFrameAllocator::new(PhysPageNum(10), PhysPageNum(13));
    assert_eq!(a.alloc_page(), Some(PhysPageNum(10)));
    assert_eq!(a.alloc_page(), Some(PhysPageNum(11)));
    assert_eq!(a.alloc_page(), Some(PhysPageNum(12)));
    assert_eq!(a.alloc_page(), None);
}

#[test]
fn frame_free_then_alloc_gives_it_back() {
    let mut a = StackFrameAllocator::new(PhysPageNum(10), PhysPageNum(20));
    let p = a.alloc_page().unwrap();
    let q = a.alloc_page().unwrap();
    assert_ne!(p, q);
    a.free(p);
    assert_eq!(a.alloc_page(), Some(p));
}

#[test]
fn frame_free_refuses_unknown_and_double() {
    let mut a = StackFrameAllocator::new(PhysPageNum(10), PhysPageNum(20));
    let p = a.alloc_page().unwrap();
    a.free(PhysPageNum(15));
    assert_eq!(a.freed.len(), 0);
    a.free(p);
    a.free(p);
    assert_eq!(a.freed.len(), 1);
}

#[test]
fn frame_alloc_continuous() {
    let mut a = StackFrameAllocator::new(PhysPageNum(10), PhysPageNum(20));
    assert_eq!(a.alloc_continuous(4), Some(PhysPageNum(10)));
    assert_eq!(a.alloc_page(), Some(PhysPageNum(14)));
    assert_eq!(a.alloc_continuous(6), None);
    assert_eq!(a.alloc_continuous(5), Some(PhysPageNum(15)));
}

#[test]
fn frame_allocator_test() {
    let mut a = StackFrameAllocator::new(PhysPageNum(0x80400), PhysPageNum(0x80410));
    let mut v = Vec::new();
    for _i in 0..5 {
        v.push(a.alloc_page().unwrap());
    }
    for p in v.drain(..) {
        a.free(p);
    }
    for _i in 0..5 {
        v.push(a.alloc_page().unwrap());
    }
    let mut sorted = v.clone();
    sorted.sort();
    sorted.dedup();
    assert_eq!(sorted.len(), 5);
    assert!(v.iter().all(|p| p.0 >= 0x80400 && p.0 < 0x80405));
}

fn buffer() -> UserBuffer {
    UserBuffer::new(vec![vec![1, 2, 3], vec![], vec![4, 5], vec![6]])
}

#[test]
fn user_buffer_len_and_bytes() {
    let b = buffer();
    assert_eq!(b.len(), 6);
    assert_eq!(b.clone_bytes(), vec![1, 2, 3, 4, 5, 6]);
    assert_eq!(b.get(3), 4);
    assert_eq!(b.get(5), 6);
}

#[test]
fn user_buffer_write_across_pieces() {
    let mut b = buffer();
    b.write_bytes(&[9, 8, 7], 2);
    assert_eq!(b.clone_bytes(), vec![1, 2, 9, 8, 7, 6]);
    assert_eq!(b.parts[0], vec![1, 2, 9]);
    assert_eq!(b.parts[2], vec![8, 7]);
}

#[test]
fn user_buffer_set_one_byte() {
    let mut b = buffer();
    b.set(4, 0xAA);
    assert_eq!(b.clone_bytes(), vec![1, 2, 3, 4, 0xAA, 6]);
}

#[test]
fn user_buffer_iterates_all_bytes() {
    let b = buffer();
    let mut it = b.iter();
    let mut seen = Vec::new();
    while let Some(x) = it.next() {
        seen.push(x);
    }
    assert_eq!(seen, vec![1, 2, 3, 4, 5, 6]);
    assert_eq!(it.next(), None);
}

use oshit::memory::pagetable::PageTable;

#[test]
fn page_table_map_translate_unmap() {
    let mut a = StackFrameAllocator::new(PhysPageNum(0x80000), PhysPageNum(0x80100));
    let mut t = PageTable::new(&mut a);
    assert_eq!(t.get_satp(), (8usize << 60) | 0x80000);
    let vpn = VirtPageNum(0x12345);
    assert_eq!(t.translate(vpn), None);
    t.map(vpn, PhysPageNum(0x90000), PTEFlags::R().union(PTEFlags::W()), &mut a);
    let e = t.translate(vpn).unwrap();
    assert!(e.valid());
    assert!(e.readable() && e.writable() && !e.executable());
    assert_eq!(e.ppn(), PhysPageNum(0x90000));
    // root, one level-1 node and one leaf node were taken from the allocator
    assert_eq!(a.alloc_page(), Some(PhysPageNum(0x80003)));
    // a neighbour in the same leaf node has an empty entry; another root slot has none
    assert!(!t.translate(VirtPageNum(0x12346)).unwrap().valid());
    assert_eq!(t.translate(VirtPageNum(0x400_0000 >> 1)), None);
    assert_eq!(t.translate_va(VirtAddr(0x1234_5abc)), Some(PhysAddr(0x9000_0abc)));
    assert_eq!(t.modify_access(vpn, PTEFlags::V().union(PTEFlags::X())), Some(()));
    let e = t.translate(vpn).unwrap();
    assert!(e.valid() && e.executable() && !e.readable());
    assert_eq!(e.ppn(), PhysPageNum(0x90000));
    t.unmap(vpn);
    assert!(!t.translate(vpn).unwrap().valid());
    assert_eq!(t.modify_access(VirtPageNum(1 << 18), PTEFlags::R()), None);
}

#[test]
fn page_table_maps_pages_apart() {
    let mut a = StackFrameAllocator::new(PhysPageNum(0x80000), PhysPageNum(0x80100));
    let mut t = PageTable::new(&mut a);
    t.map(VirtPageNum(1), PhysPageNum(0x100), PTEFlags::R(), &mut a);
    t.map(VirtPageNum(2), PhysPageNum(0x200), PTEFlags::W(), &mut a);
    t.map(VirtPageNum(1 << 18), PhysPageNum(0x300), PTEFlags::X(), &mut a);
    assert_eq!(t.translate(VirtPageNum(1)).unwrap().ppn(), PhysPageNum(0x100));
    assert_eq!(t.translate(VirtPageNum(2)).unwrap().ppn(), PhysPageNum(0x200));
    assert_eq!(t.translate(VirtPageNum(1 << 18)).unwrap().ppn(), PhysPageNum(0x300));
    t.unmap(VirtPageNum(2));
    assert!(t.translate(VirtPageNum(1)).unwrap().valid());
    assert!(!t.translate(VirtPageNum(2)).unwrap().valid());
    t.map(VirtPageNum(2), PhysPageNum(0x222), PTEFlags::R(), &mut a);
    assert_eq!(t.translate(VirtPageNum(2)).unwrap().ppn(), PhysPageNum(0x222));
}

use oshit::memory::layout::{MapType, MemLayout, Segment, SegmentFlags, VMAFlags};

fn rw_user() -> SegmentFlags {
    SegmentFlags { bits: 2 | 4 | 16 }
}

#[test]
fn segment_bounds_from_addresses() {
    let s = Segment::new(VirtAddr(0x10010), VirtAddr(0x12001), MapType::Framed, rw_user(), VMAFlags { bits: 0 }, None, 0);
    assert_eq!(s.head_offset, 0x10);
    assert_eq!(s.start, VirtPageNum(0x10));
    assert_eq!(s.end, VirtPageNum(0x13));
    assert!(s.frames.is_empty());
    let c = Segment::clone_from(&s);
    assert_eq!((c.start, c.end, c.head_offset), (s.start, s.end, s.head_offset));
}

#[test]
fn layout_maps_framed_segment() {
    let mut a = StackFrameAllocator::new(PhysPageNum(0x80000), PhysPageNum(0x80400));
    let mut l = MemLayout::new(&mut a);
    let seg = Segment::new(VirtAddr(0x10000), VirtAddr(0x13000), MapType::Framed, rw_user(), VMAFlags { bits: 0 }, None, 0);
    l.add_segment(seg, &mut a);
    assert_eq!(l.segments.len(), 1);
    for v in 0x10..0x13usize {
        let e = l.translate(VirtPageNum(v)).unwrap();
        assert!(e.valid() && e.readable() && e.writable());
        assert_eq!(e.ppn(), l.segments[0].frames[&v]);
    }
    assert!(!l.translate(VirtPageNum(0x13)).unwrap().valid());
    let mut frames: Vec<_> = l.segments[0].frames.values().copied().collect();
    frames.sort();
    frames.dedup();
    assert_eq!(frames.len(), 3);
    assert_eq!(l.get_satp() & 0xFFF_FFFF_FFFF, 0x80000);
}

#[test]
fn identity_segment_maps_same_frame() {
    let mut a = StackFrameAllocator::new(PhysPageNum(0x80000), PhysPageNum(0x80100));
    let mut pt = PageTable::new(&mut a);
    let mut s = Segment::new(VirtAddr(0x8020_0000), VirtAddr(0x8020_2000), MapType::Identity, SegmentFlags { bits: 2 | 8 }, VMAFlags { bits: 0 }, None, 0);
    s.map_pages(&mut pt, &mut a);
    let e = pt.translate(VirtPageNum(0x80201)).unwrap();
    assert_eq!(e.ppn(), PhysPageNum(0x80201));
    assert!(e.executable() && !e.writable());
    assert_eq!(
        s.map_page(&mut pt, VirtPageNum(0x1), &mut a),
        Err("Trying to map a page that is not in this Segment.")
    );
    s.unmap_page(&mut pt, VirtPageNum(0x80200), &mut a);
    assert!(!pt.translate(VirtPageNum(0x80200)).unwrap().valid());
    assert!(pt.translate(VirtPageNum(0x80201)).unwrap().valid());
}

#[test]
fn framed_unmap_gives_frame_back() {
    let mut a = StackFrameAllocator::new(PhysPageNum(0x80000), PhysPageNum(0x80100));
    let mut pt = PageTable::new(&mut a);
    let mut s = Segment::new(VirtAddr(0x4000), VirtAddr(0x5000), MapType::Framed, rw_user(), VMAFlags { bits: 0 }, None, 0);
    assert_eq!(s.map_page(&mut pt, VirtPageNum(4), &mut a), Ok(()));
    let frame = s.frames[&4];
    assert_eq!(pt.translate(VirtPageNum(4)).unwrap().ppn(), frame);
    assert_eq!(s.unmap_page(&mut pt, VirtPageNum(4), &mut a), None);
    assert!(s.frames.is_empty());
    assert_eq!(a.alloc_page(), Some(frame));
}

#[test]
fn framed_map_out_of_frames() {
    let mut a = StackFrameAllocator::new(PhysPageNum(0x80000), PhysPageNum(0x80001));
    let mut pt = PageTable::new(&mut a);
    let mut s = Segment::new(VirtAddr(0x4000), VirtAddr(0x5000), MapType::Framed, rw_user(), VMAFlags { bits: 0 }, None, 0);
    assert_eq!(s.map_page(&mut pt, VirtPageNum(4), &mut a), Err("OOM!"));
    assert_eq!(pt.translate(VirtPageNum(4)), None);
}

#[test]
fn file_mapping_written_page_goes_back() {
    let mut a = StackFrameAllocator::new(PhysPageNum(0x80000), PhysPageNum(0x80100));
    let mut pt = PageTable::new(&mut a);
    let mut s = Segment::new(VirtAddr(0x20000), VirtAddr(0x24000), MapType::VMA, SegmentFlags { bits: 0 }, VMAFlags { bits: 2 | 4 }, Some(9), 0x1000);
    assert_eq!(s.map_page(&mut pt, VirtPageNum(0x21), &mut a), Ok(()));
    assert_eq!(pt.translate(VirtPageNum(0x21)), None);
    // a page touched and written
    pt.map(VirtPageNum(0x22), PhysPageNum(0x90000), PTEFlags::R().union(PTEFlags::W()).union(PTEFlags::D()), &mut a);
    // a page touched but not written
    pt.map(VirtPageNum(0x23), PhysPageNum(0x90001), PTEFlags::R(), &mut a);
    assert_eq!(s.unmap_page(&mut pt, VirtPageNum(0x22), &mut a), Some((2 * 4096 + 0x1000, PhysPageNum(0x90000))));
    assert!(!pt.translate(VirtPageNum(0x22)).unwrap().valid());
    assert_eq!(s.unmap_page(&mut pt, VirtPageNum(0x23), &mut a), None);
    assert!(pt.translate(VirtPageNum(0x23)).unwrap().valid());
}

#[test]
fn layout_drop_segment_unmaps_and_frees() {
    let mut a = StackFrameAllocator::new(PhysPageNum(0x80000), PhysPageNum(0x80400));
    let mut l = MemLayout::new(&mut a);
    let text = Segment::new(VirtAddr(0x1000), VirtAddr(0x3000), MapType::Framed, SegmentFlags { bits: 2 | 8 | 16 }, VMAFlags { bits: 0 }, None, 0);
    let data = Segment::new(VirtAddr(0x5000), VirtAddr(0x6000), MapType::Framed, rw_user(), VMAFlags { bits: 0 }, None, 0);
    l.add_segment(text, &mut a);
    l.add_segment(data, &mut a);
    let data_frame = l.segments[1].frames[&5];
    assert_eq!(l.drop_segment(VirtPageNum(0x9), &mut a), vec![]);
    assert_eq!(l.segments.len(), 2);
    assert_eq!(l.drop_segment(VirtPageNum(0x5), &mut a), vec![]);
    assert_eq!(l.segments.len(), 1);
    assert!(!l.translate(VirtPageNum(5)).unwrap().valid());
    assert!(l.translate(VirtPageNum(1)).unwrap().valid());
    assert_eq!(a.alloc_page(), Some(data_frame));
}

#[test]
fn file_mapping_unmap_pages_collects_writes() {
    let mut a = StackFrameAllocator::new(PhysPageNum(0x80000), PhysPageNum(0x80100));
    let mut pt = PageTable::new(&mut a);
    let mut s = Segment::new(VirtAddr(0x20000), VirtAddr(0x23000), MapType::VMA, SegmentFlags { bits: 0 }, VMAFlags { bits: 2 | 4 }, Some(3), 0);
    pt.map(VirtPageNum(0x20), PhysPageNum(0x90000), PTEFlags::W().union(PTEFlags::D()), &mut a);
    pt.map(VirtPageNum(0x22), PhysPageNum(0x90002), PTEFlags::W().union(PTEFlags::D()), &mut a);
    let w = s.unmap_pages(&mut pt, &mut a);
    assert_eq!(w, vec![(0, PhysPageNum(0x90000)), (0x2000, PhysPageNum(0x90002))]);
    assert!(!pt.translate(VirtPageNum(0x20)).unwrap().valid());
    assert!(!pt.translate(VirtPageNum(0x22)).unwrap().valid());
}

use std::collections::BTreeMap;

fn unmapped_segment(start: usize, end: usize, map_type: MapType) -> Segment {
    Segment {
        head_offset: 0,
        start: VirtPageNum(start),
        end: VirtPageNum(end),
        frames: BTreeMap::new(),
        map_type,
        seg_flags: rw_user(),
        vma_flags: VMAFlags { bits: 0 },
        file: None,
        offset: 0,
    }
}

#[test]
fn continuous_space_in_empty_layout_is_at_the_top() {
    let mut a = StackFrameAllocator::new(PhysPageNum(0x80000), PhysPageNum(0x80100));
    let l = MemLayout::new(&mut a);
    assert_eq!(l.get_continuous_space(8192), Some(VirtPageNum(0xffff_ffff_ff000 - 2)));
    assert_eq!(l.get_continuous_space(100), Some(VirtPageNum(0xffff_ffff_ff000)));
}

#[test]
fn continuous_space_keeps_a_page_from_segments() {
    let top = 0xffff_ffff_ff000usize;
    let mut a = StackFrameAllocator::new(PhysPageNum(0x80000), PhysPageNum(0x80100));
    let mut l = MemLayout::new(&mut a);
    l.segments.push(unmapped_segment(top - 4, top, MapType::VMA));
    assert_eq!(l.get_continuous_space(8192), Some(VirtPageNum(top - 7)));
}

fn layout_with_data() -> (StackFrameAllocator, MemLayout) {
    let mut a = StackFrameAllocator::new(PhysPageNum(0x80000), PhysPageNum(0x80400));
    let mut l = MemLayout::new(&mut a);
    let seg = Segment::new(VirtAddr(0x10000), VirtAddr(0x13000), MapType::Framed, rw_user(), VMAFlags { bits: 0 }, None, 0);
    l.add_segment(seg, &mut a);
    (a, l)
}

#[test]
fn layout_modify_access_of_a_range() {
    let (mut a, mut l) = layout_with_data();
    let before = l.translate(VirtPageNum(0x10)).unwrap().ppn();
    assert_eq!(l.modify_access(VirtAddr(0x10000), 0x2000, PTEFlags::R(), false, false, &mut a), Some(()));
    for v in 0x10..0x12usize {
        let e = l.translate(VirtPageNum(v)).unwrap();
        assert!(e.valid() && e.readable() && !e.writable());
    }
    assert_eq!(l.translate(VirtPageNum(0x10)).unwrap().ppn(), before);
    assert!(l.translate(VirtPageNum(0x12)).unwrap().writable());
    assert_eq!(l.segments.len(), 1);
}

#[test]
fn layout_modify_access_grows_up_and_down() {
    let (mut a, mut l) = layout_with_data();
    assert_eq!(l.modify_access(VirtAddr(0x11000), 0, PTEFlags::X(), true, false, &mut a), Some(()));
    assert!(l.translate(VirtPageNum(0x10)).unwrap().writable());
    assert!(l.translate(VirtPageNum(0x11)).unwrap().executable());
    assert!(l.translate(VirtPageNum(0x12)).unwrap().executable());
    let (mut a, mut l) = layout_with_data();
    assert_eq!(l.modify_access(VirtAddr(0x11800), 0, PTEFlags::X(), false, true, &mut a), Some(()));
    assert!(l.translate(VirtPageNum(0x10)).unwrap().executable());
    assert!(l.translate(VirtPageNum(0x11)).unwrap().executable());
    assert!(l.translate(VirtPageNum(0x12)).unwrap().writable());
    assert_eq!(l.modify_access(VirtAddr(0x40000), 0, PTEFlags::X(), true, false, &mut a), None);
}

#[test]
fn layout_modify_access_refuses_other_segments() {
    let mut a = StackFrameAllocator::new(PhysPageNum(0x80000), PhysPageNum(0x80100));
    let mut l = MemLayout::new(&mut a);
    let seg = Segment::new(VirtAddr(0x8020_0000), VirtAddr(0x8020_2000), MapType::Identity, rw_user(), VMAFlags { bits: 0 }, None, 0);
    l.add_segment(seg, &mut a);
    assert_eq!(l.modify_access(VirtAddr(0x8020_0000), 0x1000, PTEFlags::R(), false, false, &mut a), None);
    assert!(l.translate(VirtPageNum(0x80200)).unwrap().writable());
}

#[test]
fn layout_modify_access_stops_at_an_unmapped_page() {
    let mut a = StackFrameAllocator::new(PhysPageNum(0x80000), PhysPageNum(0x80100));
    let mut l = MemLayout::new(&mut a);
    l.segments.push(unmapped_segment(0x30, 0x32, MapType::Framed));
    assert_eq!(l.modify_access(VirtAddr(0x30000), 0x2000, PTEFlags::R(), false, false, &mut a), None);
    assert_eq!(l.translate(VirtPageNum(0x30)), None);
}

#[test]
fn layout_modify_access_adds_a_segment() {
    let (mut a, mut l) = layout_with_data();
    assert_eq!(l.modify_access(VirtAddr(0x20000), 0x1800, PTEFlags::R().union(PTEFlags::V()), false, false, &mut a), Some(()));
    assert_eq!(l.segments.len(), 2);
    assert_eq!((l.segments[1].start, l.segments[1].end), (VirtPageNum(0x20), VirtPageNum(0x22)));
    assert_eq!(l.segments[1].map_type, MapType::Framed);
    assert_eq!(l.segments[1].seg_flags, SegmentFlags { bits: 16 | 2 });
    for v in 0x20..0x22usize {
        let e = l.translate(VirtPageNum(v)).unwrap();
        assert!(e.valid() && e.readable() && !e.writable());
        assert_eq!(e.ppn(), l.segments[1].frames[&v]);
    }
}

fn vma_rw() -> VMAFlags {
    VMAFlags { bits: 2 | 4 }
}

#[test]
fn add_vma_at_an_address() {
    let mut a = StackFrameAllocator::new(PhysPageNum(0x80000), PhysPageNum(0x80100));
    let mut l = MemLayout::new(&mut a);
    assert_eq!(l.add_vma(7, 0x2800, VirtAddr(0x100000), vma_rw(), 0x1000, 0x8000, &mut a), Ok(VirtAddr(0x100000)));
    let s = &l.segments[0];
    assert_eq!((s.start, s.end), (VirtPageNum(0x100), VirtPageNum(0x103)));
    assert_eq!((s.map_type, s.file, s.offset, s.vma_flags), (MapType::VMA, Some(7), 0x1000, vma_rw()));
    assert_eq!(l.translate(VirtPageNum(0x100)), None);
    // a mapping shorter than the file covers its own length
    assert_eq!(l.add_vma(8, 0x10000, VirtAddr(0x200000), vma_rw(), 0, 0x1001, &mut a), Ok(VirtAddr(0x200000)));
    assert_eq!(l.segments[1].end, VirtPageNum(0x202));
}

#[test]
fn add_vma_refuses_overlaps() {
    let mut a = StackFrameAllocator::new(PhysPageNum(0x80000), PhysPageNum(0x80100));
    let mut l = MemLayout::new(&mut a);
    l.add_vma(7, 0x4000, VirtAddr(0x100000), vma_rw(), 0, 0x4000, &mut a).unwrap();
    assert_eq!(l.add_vma(8, 0x1000, VirtAddr(0x102000), vma_rw(), 0, 0x1000, &mut a), Err("Overlapped mmap segment"));
    assert_eq!(l.add_vma(8, 0x2000, VirtAddr(0xff000), vma_rw(), 0, 0x2000, &mut a), Err("Overlapped mmap segment"));
    // ending right at the start of a segment is no overlap
    assert_eq!(l.add_vma(8, 0x1000, VirtAddr(0xff000), vma_rw(), 0, 0x1000, &mut a), Ok(VirtAddr(0xff000)));
    assert_eq!(l.segments.len(), 2);
}

#[test]
fn add_vma_anywhere_takes_the_top() {
    let top = 0xffff_ffff_ff000usize;
    let mut a = StackFrameAllocator::new(PhysPageNum(0x80000), PhysPageNum(0x80100));
    let mut l = MemLayout::new(&mut a);
    let at = l.add_vma(7, 0x2000, VirtAddr(0), vma_rw(), 0, 0x2000, &mut a).unwrap();
    assert_eq!(at, VirtAddr((top - 2) * 4096));
    assert_eq!((l.segments[0].start, l.segments[0].end), (VirtPageNum(top - 2), VirtPageNum(top)));
    let at2 = l.add_vma_anywhere(8, 0x1000, vma_rw(), 0, 0x1000, &mut a).unwrap();
    assert_eq!(at2, VirtAddr((top - 4) * 4096));
}

#[test]
fn drop_vma_keeps_the_parts_around() {
    let mut a = StackFrameAllocator::new(PhysPageNum(0x80000), PhysPageNum(0x80100));
    let mut l = MemLayout::new(&mut a);
    l.add_vma(7, 0x4000, VirtAddr(0x100000), vma_rw(), 0x10000, 0x4000, &mut a).unwrap();
    assert_eq!(l.find_vma(VirtPageNum(0x101), VirtPageNum(0x102)), Ok(0));
    let (w, r) = l.drop_vma(VirtPageNum(0x101), VirtPageNum(0x102), 0x4000, &mut a);
    assert_eq!((w, r), (vec![], Ok(())));
    assert_eq!(l.segments.len(), 2);
    assert_eq!((l.segments[0].start, l.segments[0].end, l.segments[0].offset), (VirtPageNum(0x100), VirtPageNum(0x101), 0x10000));
    assert_eq!((l.segments[1].start, l.segments[1].end, l.segments[1].offset), (VirtPageNum(0x102), VirtPageNum(0x104), 0x12000));
    assert_eq!(l.segments[1].file, Some(7));
}

#[test]
fn drop_vma_errors() {
    let mut a = StackFrameAllocator::new(PhysPageNum(0x80000), PhysPageNum(0x80100));
    let mut l = MemLayout::new(&mut a);
    l.add_vma(7, 0x4000, VirtAddr(0x100000), vma_rw(), 0, 0x4000, &mut a).unwrap();
    assert_eq!(l.drop_vma(VirtPageNum(0x200), VirtPageNum(0x201), 0x4000, &mut a), (vec![], Err("No such VMA Region")));
    assert_eq!(l.drop_vma(VirtPageNum(0xff), VirtPageNum(0x101), 0x4000, &mut a), (vec![], Err("Bad Drop VMA Region.")));
    assert_eq!(l.segments.len(), 1);
    // the whole mapping goes with no part left
    assert_eq!(l.drop_vma(VirtPageNum(0x100), VirtPageNum(0x104), 0x4000, &mut a), (vec![], Ok(())));
    assert_eq!(l.segments.len(), 0);
}

#[test]
fn alter_segment_grows_and_shrinks() {
    let (mut a, mut l) = layout_with_data();
    assert_eq!(l.alter_segment(VirtPageNum(0x13), VirtPageNum(0x15), &mut a), Some(()));
    assert_eq!(l.segments[0].end, VirtPageNum(0x15));
    for v in 0x10..0x15usize {
        let e = l.translate(VirtPageNum(v)).unwrap();
        assert!(e.valid() && e.writable());
        assert_eq!(e.ppn(), l.segments[0].frames[&v]);
    }
    let freed = l.segments[0].frames[&0x14];
    assert_eq!(l.alter_segment(VirtPageNum(0x15), VirtPageNum(0x11), &mut a), Some(()));
    assert_eq!(l.segments[0].end, VirtPageNum(0x11));
    assert!(l.translate(VirtPageNum(0x10)).unwrap().valid());
    for v in 0x11..0x15usize {
        assert!(!l.translate(VirtPageNum(v)).unwrap().valid());
    }
    assert_eq!(l.segments[0].frames.len(), 1);
    assert_eq!(a.alloc_page(), Some(freed));
    assert_eq!(l.alter_segment(VirtPageNum(0x99), VirtPageNum(0x9a), &mut a), None);
}

#[test]
fn adjust_end_without_frames_moves_the_end_only() {
    let mut a = StackFrameAllocator::new(PhysPageNum(0x80000), PhysPageNum(0x80004));
    let mut l = MemLayout::new(&mut a);
    let seg = Segment::new(VirtAddr(0x10000), VirtAddr(0x11000), MapType::Framed, rw_user(), VMAFlags { bits: 0 }, None, 0);
    l.add_segment(seg, &mut a);
    assert_eq!(l.alter_segment(VirtPageNum(0x11), VirtPageNum(0x12), &mut a), None);
    assert_eq!(l.segments[0].end, VirtPageNum(0x12));
    assert!(!l.translate(VirtPageNum(0x11)).unwrap().valid());
    assert!(l.translate(VirtPageNum(0x10)).unwrap().valid());
}

#[test]
fn lazy_copy_vma_maps_the_filled_frame() {
    let mut a = StackFrameAllocator::new(PhysPageNum(0x80000), PhysPageNum(0x80100));
    let mut l = MemLayout::new(&mut a);
    l.add_vma(7, 0x4000, VirtAddr(0x100000), vma_rw(), 0, 0x4000, &mut a).unwrap();
    assert_eq!(l.lazy_vma_at(VirtAddr(0x101234), VMAFlags { bits: 8 }), Err("No such vma segment!"));
    assert_eq!(l.lazy_vma_at(VirtAddr(0x201234), VMAFlags { bits: 2 }), Err("No such vma segment!"));
    assert_eq!(l.lazy_vma_at(VirtAddr(0x101234), VMAFlags { bits: 2 }), Ok(0));
    assert_eq!(l.segments[0].lazy_file_offset(VirtAddr(0x101234)), 0x1000);
    let frame = a.alloc_page().unwrap();
    assert_eq!(l.lazy_copy_vma(VirtAddr(0x101234), VMAFlags { bits: 2 }, frame, &mut a), Ok(()));
    let e = l.translate(VirtPageNum(0x101)).unwrap();
    assert!(e.valid() && e.readable() && e.writable() && !e.executable());
    assert!(e.flags().contains(PTEFlags::U()));
    assert_eq!(e.ppn(), frame);
    assert_eq!(l.segments[0].frames[&0x101], frame);
    assert_eq!(l.lazy_copy_vma(VirtAddr(0x300000), VMAFlags { bits: 2 }, frame, &mut a), Err("No such vma segment!"));
}

#[test]
fn map_lazy_vma_refuses_pages_outside() {
    let mut a = StackFrameAllocator::new(PhysPageNum(0x80000), PhysPageNum(0x80100));
    let mut pt = PageTable::new(&mut a);
    let mut s = Segment::new(VirtAddr(0x20000), VirtAddr(0x22000), MapType::VMA, SegmentFlags { bits: 0 }, vma_rw(), Some(3), 0);
    let frame = a.alloc_page().unwrap();
    assert_eq!(s.map_lazy_vma(&mut pt, VirtAddr(0x22000), frame, &mut a), Err("Trying to map a page that is not in this Segment."));
    assert!(s.frames.is_empty());
}

#[test]
fn drop_vma_of_a_mapping_placed_at_the_top() {
    let top = 0xffff_ffff_ff000usize;
    let mut a = StackFrameAllocator::new(PhysPageNum(0x80000), PhysPageNum(0x80100));
    let mut l = MemLayout::new(&mut a);
    l.add_vma_anywhere(7, 0x2000, vma_rw(), 0, 0x2000, &mut a).unwrap();
    let (w, r) = l.drop_vma(VirtPageNum(top - 1), VirtPageNum(top), 0x2000, &mut a);
    assert_eq!((w, r), (vec![], Ok(())));
    assert_eq!(l.segments.len(), 1);
    assert_eq!((l.segments[0].start, l.segments[0].end), (VirtPageNum(top - 2), VirtPageNum(top - 1)));
    let (w, r) = l.drop_vma(VirtPageNum(top - 2), VirtPageNum(top - 1), 0x2000, &mut a);
    assert_eq!((w, r), (vec![], Ok(())));
    assert!(l.segments.is_empty());
}

#[test]
fn kernel_layout_maps_sections_and_trampoline() {
    let mut a = StackFrameAllocator::new(PhysPageNum(0x100000), PhysPageNum(0x100000 + 200000));
    let mmio = [(0x0C00_0000usize, 0x3000usize)];
    let l = MemLayout::new_kernel(
        (0x8020_0000, 0x8020_2000),
        (0x8020_2000, 0x8020_3000),
        (0x8020_3000, 0x8020_4000),
        (0x8020_4000, 0x8020_5000),
        0x8020_5000,
        &mmio,
        0x8020_1000,
        &mut a,
    );
    assert_eq!(l.segments.len(), 6);
    let text = l.translate(VirtPageNum(0x80201)).unwrap();
    assert!(text.valid() && text.readable() && text.executable() && !text.writable());
    assert_eq!(text.ppn(), PhysPageNum(0x80201));
    let ro = l.translate(VirtPageNum(0x80203)).unwrap();
    assert!(ro.readable() && !ro.writable() && !ro.executable());
    let bss = l.translate(VirtPageNum(0x80204)).unwrap();
    assert!(bss.readable() && bss.writable());
    let mem = l.translate(VirtPageNum(0x8ffff)).unwrap();
    assert!(mem.valid() && mem.writable());
    assert_eq!(mem.ppn(), PhysPageNum(0x8ffff));
    assert!(l.translate(VirtPageNum(0x0C002)).unwrap().writable());
    assert!(l.translate(VirtPageNum(0x0C003)).map_or(true, |e| !e.valid()));
    let tr = l.translate(VirtPageNum(usize::MAX / 4096)).unwrap();
    assert!(tr.valid() && tr.executable() && tr.readable());
    assert_eq!(tr.ppn(), PhysPageNum(0x80201));
}

use oshit::memory::layout::{AuxType, ProgramHeader};

#[test]
fn user_layout_from_program_headers() {
    let mut a = StackFrameAllocator::new(PhysPageNum(0x80000), PhysPageNum(0x80400));
    let hs = [
        ProgramHeader { load: true, vaddr: 0x10000, mem_size: 0x1800, offset: 0, file_size: 0x1800, flags: 5 },
        ProgramHeader { load: false, vaddr: 0, mem_size: 0, offset: 0, file_size: 0, flags: 0 },
        ProgramHeader { load: true, vaddr: 0x20000, mem_size: 0x1000, offset: 0x2000, file_size: 0x800, flags: 6 },
    ];
    let (l, top, stack, entry, aux) = MemLayout::new_elf_from_headers(&hs, 64, 56, 0x10010, 0x8020_1000, &mut a);
    assert_eq!(l.segments.len(), 5);
    assert_eq!((l.segments[0].start, l.segments[0].end), (VirtPageNum(0x10), VirtPageNum(0x12)));
    assert_eq!(l.segments[0].seg_flags, SegmentFlags { bits: 16 | 2 | 8 });
    assert_eq!((l.segments[1].start, l.segments[1].end), (VirtPageNum(0x20), VirtPageNum(0x21)));
    assert_eq!(l.segments[1].seg_flags, SegmentFlags { bits: 16 | 2 | 4 });
    assert_eq!(top, 0x21000);
    let tv = usize::MAX / 4096;
    assert_eq!(stack, (tv - 1) * 4096 - 4096);
    assert_eq!((l.segments[4].start, l.segments[4].end), (VirtPageNum(tv - 34), VirtPageNum(tv - 2)));
    assert_eq!(entry, 0x10010);
    assert_eq!(aux.len(), 21);
    assert_eq!((aux[10].aux_type, aux[10].value), (AuxType::PHDR, 0x10040));
    assert_eq!((aux[12].aux_type, aux[12].value), (AuxType::PHNUM, 3));
    assert_eq!((aux[15].aux_type, aux[15].value), (AuxType::ENTRY, 0x10010));
    let e = l.translate(VirtPageNum(0x11)).unwrap();
    assert!(e.valid() && e.readable() && e.executable() && !e.writable());
    assert!(e.flags().contains(PTEFlags::U()));
    assert_eq!(e.ppn(), l.segments[0].frames[&0x11]);
    let s = l.translate(VirtPageNum(tv - 3)).unwrap();
    assert!(s.valid() && s.writable() && s.flags().contains(PTEFlags::U()));
    let t = l.translate(VirtPageNum(tv)).unwrap();
    assert!(t.executable() && t.readable());
    assert_eq!(t.ppn(), PhysPageNum(0x80201));
}
