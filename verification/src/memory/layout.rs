//! Segments of a memory layout: ranges of virtual pages mapped in a page table.
use vstd::prelude::*;
use std::collections::BTreeMap;
use crate::config::{MEM_END, PAGE_SIZE, TRAMPOLINE, TRAP_CONTEXT, USER_STACK_SIZE};
use super::addresses::{vpn_index, PhysPageNum, VirtAddr, VirtPageNum};
use super::frame_alloc::StackFrameAllocator;
use super::pagetable::{frames_fit, lemma_same_slot_leaf, pte_ppn, pte_valid, same_slot, spare_frames, PTEFlags, PageTable, PageTableEntry};

verus! {

/// How the pages of a segment get their frames.
#[derive(Clone, Copy, PartialEq, Eq, Structural, Debug)]
pub enum MapType {
    /// Each page is mapped to the frame of the same number.
    Identity,
    /// Each page gets a frame of the allocator.
    Framed,
    /// The pages of a mapped file, given frames when first touched.
    VMA,
}

/// Access flags of a segment, as bits: `R` 2, `W` 4, `X` 8, `U` 16, the same
/// bits as those of a page table entry.
#[derive(Clone, Copy, PartialEq, Eq, Structural, Debug)]
pub struct SegmentFlags {
    pub bits: u8,
}

/// Access flags of a file mapping, as bits: `R` 2, `W` 4, `X` 8.
#[derive(Clone, Copy, PartialEq, Eq, Structural, Debug)]
pub struct VMAFlags {
    pub bits: u8,
}

/// A range of virtual pages of a memory layout, `[start, end)`, with the
/// frames it got from the allocator.
pub struct Segment {
    /// The offset of the segment's first byte in its first page.
    pub head_offset: usize,
    /// The first page.
    pub start: VirtPageNum,
    /// The page after the last one.
    pub end: VirtPageNum,
    /// The frames allocated for the pages, by page number.
    pub frames: BTreeMap<usize, PhysPageNum>,
    pub map_type: MapType,
    pub seg_flags: SegmentFlags,
    pub vma_flags: VMAFlags,
    /// The handle of the mapped file, for a file mapping.
    pub file: Option<u64>,
    /// Where in the file the mapping starts.
    pub offset: usize,
}

/// The entry that `PageTable::map` makes for frame `ppn` with the bits `flags`.
pub open spec fn mapped_entry(ppn: usize, flags: u8) -> PageTableEntry {
    PageTableEntry { bits: ((ppn as u64) << 10u64) | ((flags | 1u8) as u64) }
}

/// A table and an allocator that can serve a page table walk: the table is
/// well formed, owns no free page, and the allocator hands out page numbers
/// that fit in an entry.
pub open spec fn table_ok(pt: PageTable, alloc: StackFrameAllocator) -> bool {
    &&& pt.wf()
    &&& alloc.wf()
    &&& frames_fit(alloc)
    &&& pt.frame_set().disjoint(alloc.free_pages())
}

impl Segment {
    /// Whether `vpn` lies in the segment.
    pub open spec fn holds(&self, vpn: usize) -> bool {
        self.start.0 <= vpn < self.end.0
    }

    /// The segment of the addresses `[start, stop)`, with no frame yet.
    pub fn new(
        start: VirtAddr,
        stop: VirtAddr,
        map_type: MapType,
        seg_flags: SegmentFlags,
        vma_flags: VMAFlags,
        file: Option<u64>,
        offset: usize,
    ) -> (r: Self)
        requires
            stop.0 > 0,
        ensures
            r.head_offset == start.0 % PAGE_SIZE,
            r.start.0 == start.0 / PAGE_SIZE,
            r.end.0 == (stop.0 - 1) / PAGE_SIZE as int + 1,
            r.frames@ == Map::<usize, PhysPageNum>::empty(),
            r.map_type == map_type,
            r.seg_flags == seg_flags,
            r.vma_flags == vma_flags,
            r.file == file,
            r.offset == offset,
    {
        Segment {
            head_offset: start.0 % PAGE_SIZE,
            start: start.to_vpn(),
            end: stop.to_vpn_ceil(),
            frames: BTreeMap::new(),
            map_type,
            seg_flags,
            vma_flags,
            file,
            offset,
        }
    }

    /// A segment over the same pages as `src`, with no frame yet.
    pub fn clone_from(src: &Segment) -> (r: Self)
        ensures
            r.head_offset == src.head_offset,
            r.start == src.start,
            r.end == src.end,
            r.frames@ == Map::<usize, PhysPageNum>::empty(),
            r.map_type == src.map_type,
            r.seg_flags == src.seg_flags,
            r.vma_flags == src.vma_flags,
            r.file == src.file,
            r.offset == src.offset,
    {
        Segment {
            head_offset: src.head_offset,
            start: src.start,
            end: src.end,
            frames: BTreeMap::new(),
            map_type: src.map_type,
            seg_flags: src.seg_flags,
            vma_flags: src.vma_flags,
            file: src.file,
            offset: src.offset,
        }
    }
}


impl Segment {
    /// Maps page `vpn` of the segment in `pt`: an identity segment to the frame
    /// of the same number, a framed one to a frame taken from `alloc` (an error
    /// when it has none left); a file mapping waits for its first touch. An
    /// error for a page outside the segment.
    pub fn map_page(&mut self, pt: &mut PageTable, vpn: VirtPageNum, alloc: &mut StackFrameAllocator) -> (r:
        Result<(), &'static str>)
        requires
            table_ok(*old(pt), *old(alloc)),
            old(self).holds(vpn.0) && old(self).map_type != MapType::VMA ==> old(pt).mapped(vpn.0) is None,
            old(self).holds(vpn.0) && old(self).map_type == MapType::Identity ==> spare_frames(*old(alloc))
                >= 2,
            old(self).holds(vpn.0) && old(self).map_type == MapType::Framed ==> {
                &&& spare_frames(*old(alloc)) == 0 || spare_frames(*old(alloc)) >= 3
                &&& !old(self).frames@.contains_key(vpn.0)
            },
        ensures
            table_ok(*final(pt), *final(alloc)),
            final(pt).root() == old(pt).root(),
            final(self).start == old(self).start,
            final(self).end == old(self).end,
            final(self).map_type == old(self).map_type,
            final(self).seg_flags == old(self).seg_flags,
            final(self).vma_flags == old(self).vma_flags,
            final(self).file == old(self).file,
            final(self).offset == old(self).offset,
            final(self).head_offset == old(self).head_offset,
            final(alloc).free_pages().subset_of(old(alloc).free_pages()),
            frames_owned(*old(self), *old(pt), *old(alloc)) ==> frames_owned(*final(self), *final(pt), *final(alloc)),
            spare_frames(*final(alloc)) >= spare_frames(*old(alloc)) - if old(self).map_type == MapType::Framed {
                3int
            } else {
                2int
            },
            !old(self).holds(vpn.0) ==> {
                &&& r is Err
                &&& r->Err_0@ == "Trying to map a page that is not in this Segment."@
                &&& final(self).frames@ == old(self).frames@
                &&& *final(pt) == *old(pt)
                &&& *final(alloc) == *old(alloc)
            },
            old(self).holds(vpn.0) && old(self).map_type == MapType::VMA ==> {
                &&& r is Ok
                &&& final(self).frames@ == old(self).frames@
                &&& *final(pt) == *old(pt)
                &&& *final(alloc) == *old(alloc)
            },
            old(self).holds(vpn.0) && old(self).map_type == MapType::Framed && spare_frames(*old(alloc))
                == 0 ==> {
                &&& r is Err
                &&& r->Err_0@ == "OOM!"@
                &&& final(self).frames@ == old(self).frames@
                &&& *final(pt) == *old(pt)
                &&& final(alloc).free_pages() == old(alloc).free_pages()
            },
            old(self).holds(vpn.0) && old(self).map_type == MapType::Identity ==> {
                &&& r is Ok
                &&& final(self).frames@ == old(self).frames@
                &&& forall|v: usize|
                    #[trigger] final(pt).mapped(v) == if same_slot(v, vpn.0) {
                        Some(mapped_entry(vpn.0, old(self).seg_flags.bits))
                    } else {
                        old(pt).mapped(v)
                    }
            },
            old(self).holds(vpn.0) && old(self).map_type == MapType::Framed && spare_frames(*old(alloc))
                >= 3 ==> {
                let p = final(self).frames@[vpn.0];
                &&& r is Ok
                &&& final(self).frames@ == old(self).frames@.insert(vpn.0, p)
                &&& old(alloc).free_pages().contains(p.0)
                &&& !final(alloc).free_pages().contains(p.0)
                &&& !final(pt).frame_set().contains(p.0)
                &&& forall|v: usize|
                    #[trigger] final(pt).mapped(v) == if same_slot(v, vpn.0) {
                        Some(mapped_entry(p.0, old(self).seg_flags.bits))
                    } else {
                        old(pt).mapped(v)
                    }
            },
    {
        if vpn.0 < self.start.0 || vpn.0 >= self.end.0 {
            proof {
                reveal_strlit("Trying to map a page that is not in this Segment.");
            }
            return Err("Trying to map a page that is not in this Segment.");
        }
        let flags = PTEFlags::from_bits(self.seg_flags.bits).unwrap();
        match self.map_type {
            MapType::Identity => {
                pt.map(vpn, PhysPageNum(vpn.0), flags, alloc);
                proof {
                    if frames_owned(*old(self), *old(pt), *old(alloc)) {
                        assert forall|k: usize| #[trigger] self.frames@.contains_key(k) implies !pt.frame_set().contains(
                            self.frames@[k].0,
                        ) && !alloc.free_pages().contains(self.frames@[k].0) by {
                            assert(!old(alloc).free_pages().contains(self.frames@[k].0));
                        }
                    }
                }
                Ok(())
            },
            MapType::Framed => {
                let ghost a0 = *alloc;
                match alloc.alloc_page() {
                    Some(p) => {
                        proof {
                            assert(!old(pt).frame_set().contains(p.0));
                        }
                        let ghost f0 = self.frames@;
                        self.frames.insert(vpn.0, p);
                        let ghost a1 = *alloc;
                        proof {
                            assert(spare_frames(a1) == spare_frames(a0) - 1);
                        }
                        pt.map(vpn, p, flags, alloc);
                        proof {
                            assert(self.frames@[vpn.0] == p);
                            assert(!a1.free_pages().contains(p.0));
                            assert(!pt.frame_set().contains(p.0));
                            if frames_owned(*old(self), *old(pt), *old(alloc)) {
                                assert forall|k: usize| #[trigger] self.frames@.contains_key(k) implies !pt.frame_set().contains(
                                    self.frames@[k].0,
                                ) && !alloc.free_pages().contains(self.frames@[k].0) by {
                                    if k != vpn.0 {
                                        assert(f0.contains_key(k));
                                        assert(!a0.free_pages().contains(f0[k].0));
                                    }
                                }
                                assert forall|k: usize, m: usize|
                                    #[trigger] self.frames@.contains_key(k) && #[trigger] self.frames@.contains_key(m)
                                        && k != m implies self.frames@[k] != self.frames@[m] by {
                                    if k != vpn.0 && m != vpn.0 {
                                        assert(f0.contains_key(k) && f0.contains_key(m));
                                    } else if k == vpn.0 {
                                        assert(f0.contains_key(m));
                                        assert(!a0.free_pages().contains(f0[m].0));
                                    } else {
                                        assert(f0.contains_key(k));
                                        assert(!a0.free_pages().contains(f0[k].0));
                                    }
                                }
                            }
                        }
                        Ok(())
                    },
                    None => {
                        proof {
                            reveal_strlit("OOM!");
                        }
                        Err("OOM!")
                    },
                }
            },
            MapType::VMA => Ok(()),
        }
    }
}


/// The frames of a segment are its own: distinct, none of them a node of the
/// page table or free in the allocator.
pub open spec fn frames_owned(seg: Segment, pt: PageTable, alloc: StackFrameAllocator) -> bool {
    &&& forall|k: usize|
        #[trigger] seg.frames@.contains_key(k) ==> !pt.frame_set().contains(seg.frames@[k].0)
            && !alloc.free_pages().contains(seg.frames@[k].0)
    &&& forall|k: usize, m: usize|
        #[trigger] seg.frames@.contains_key(k) && #[trigger] seg.frames@.contains_key(m) && k != m
            ==> seg.frames@[k] != seg.frames@[m]
}

/// Whether a leaf entry records a write: the dirty bit.
pub open spec fn pte_dirty(e: PageTableEntry) -> bool {
    (e.bits / 128) % 2 == 1
}

impl Segment {
    /// Unmaps page `vpn` of the segment from `pt`, and gives a framed page's frame
    /// back to `alloc`. A page of a file mapping is unmapped only when it is
    /// mapped, written and the mapping is writable; its frame is then handed
    /// back, together with where in the file the page belongs, for the caller to
    /// write the page there. Other pages of a file mapping stay as they are.
    pub fn unmap_page(&mut self, pt: &mut PageTable, vpn: VirtPageNum, alloc: &mut StackFrameAllocator) -> (r:
        Option<(usize, PhysPageNum)>)
        requires
            table_ok(*old(pt), *old(alloc)),
            frames_owned(*old(self), *old(pt), *old(alloc)),
            old(self).map_type != MapType::VMA ==> old(pt).mapped(vpn.0) is Some,
            old(self).map_type == MapType::VMA ==> old(self).start.0 <= vpn.0 && (vpn.0 - old(
                self,
            ).start.0) * 4096 + old(self).offset <= usize::MAX,
        ensures
            table_ok(*final(pt), *final(alloc)),
            frames_owned(*final(self), *final(pt), *final(alloc)),
            final(pt).root() == old(pt).root(),
            final(pt).frame_set() == old(pt).frame_set(),
            final(self).start == old(self).start,
            final(self).end == old(self).end,
            final(self).map_type == old(self).map_type,
            final(self).seg_flags == old(self).seg_flags,
            final(self).vma_flags == old(self).vma_flags,
            final(self).file == old(self).file,
            final(self).offset == old(self).offset,
            final(self).head_offset == old(self).head_offset,
            old(alloc).free_pages().subset_of(final(alloc).free_pages()),
            final(alloc).free_pages().subset_of(old(alloc).free_pages().union(
                if old(self).frames@.contains_key(vpn.0) {
                    set![old(self).frames@[vpn.0].0]
                } else {
                    Set::<usize>::empty()
                },
            )),
            ({
                let unmapped = old(self).map_type != MapType::VMA || (old(pt).mapped(vpn.0) matches Some(e)
                    && pte_dirty(e) && old(self).vma_flags.bits & 4 != 0);
                &&& unmapped ==> {
                    &&& final(self).frames@ == if old(self).map_type == MapType::Identity {
                        old(self).frames@
                    } else {
                        old(self).frames@.remove(vpn.0)
                    }
                    &&& forall|v: usize|
                        #[trigger] final(pt).leaf(v) == if same_slot(v, vpn.0) {
                            Some(PageTableEntry { bits: 0 })
                        } else {
                            old(pt).leaf(v)
                        }
                }
                &&& !unmapped ==> final(self).frames@ == old(self).frames@ && *final(pt) == *old(pt)
                    && *final(alloc) == *old(alloc)
                &&& (old(self).map_type == MapType::VMA && unmapped) ==> r == Some(
                    (
                        ((vpn.0 - old(self).start.0) * 4096 + old(self).offset) as usize,
                        PhysPageNum(pte_ppn(old(pt).mapped(vpn.0)->0)),
                    ),
                )
                &&& !(old(self).map_type == MapType::VMA && unmapped) ==> r is None
            }),
    {
        let mut writeback: Option<(usize, PhysPageNum)> = None;
        if self.map_type == MapType::VMA {
            match pt.walk(vpn) {
                Some(pte) => {
                    if self.vma_flags.bits & 4 != 0 && pte.dirty() && pte.valid() {
                        let off = (vpn - self.start) * PAGE_SIZE + self.offset;
                        writeback = Some((off, pte.ppn()));
                    } else {
                        return None;
                    }
                },
                None => {
                    return None;
                },
            }
        }
        if self.map_type != MapType::Identity {
            let ghost f0 = self.frames@;
            let removed = self.frames.remove(&vpn.0);
            match removed {
                Some(p) => {
                    proof {
                        assert(f0.contains_key(vpn.0) && f0[vpn.0] == p);
                    }
                    alloc.free(p);
                    proof {
                        assert(alloc.free_pages().subset_of(old(alloc).free_pages().insert(p.0)));
                    }
                },
                None => {},
            }
        }
        pt.unmap(vpn);
        writeback
    }
}


/// The number of page numbers an SV39 table tells apart: 27 bits.
pub open spec fn vpn_space() -> int {
    0x800_0000
}

/// A page number below `vpn_space()` selects the same slots as `v` exactly
/// when it is the low 27 bits of `v`.
proof fn lemma_same_slot_low(v: usize, u: usize)
    requires
        u < vpn_space(),
    ensures
        same_slot(v, u) <==> u == v % 0x800_0000,
{
    let a = v % 0x800_0000usize;
    assert((v / 262144) % 512 == (a / 262144) % 512 && (v / 512) % 512 == (a / 512) % 512 && v % 512
        == a % 512) by (bit_vector)
        requires
            a == v % 0x800_0000usize,
    ;
    assert(a < 0x800_0000usize && u < 0x800_0000usize && (a / 262144) % 512 == (u / 262144) % 512 && (a
        / 512) % 512 == (u / 512) % 512 && a % 512 == u % 512 ==> a == u) by (bit_vector);
    assert(a < 0x800_0000);
}

/// The first page of the block of `vpn_space()` pages that holds page `p`:
/// pages of one block select distinct slots of a page table.
pub open spec fn block_of(p: usize) -> int {
    p - p % 0x800_0000
}

/// A page `u` of the block that starts at page `base` selects the same slots
/// as `v` exactly when it is `base` plus the low 27 bits of `v`.
proof fn lemma_same_slot_block(v: usize, u: usize, base: usize)
    requires
        base % 0x800_0000 == 0,
        base <= u < base + vpn_space(),
    ensures
        same_slot(v, u) <==> u == base + v % 0x800_0000,
{
    let w = (u - base) as usize;
    lemma_same_slot_low(v, w);
    assert((u / 262144) % 512 == (w / 262144) % 512 && (u / 512) % 512 == (w / 512) % 512 && u % 512
        == w % 512) by (bit_vector)
        requires
            base % 0x800_0000usize == 0,
            w < 0x800_0000usize,
            u == base + w,
    ;
    assert(vpn_index(u, 2) == vpn_index(w, 2) && vpn_index(u, 1) == vpn_index(w, 1) && vpn_index(u, 0)
        == vpn_index(w, 0));
}

impl Segment {
    /// How many pages of the allocator mapping the segment may take: two nodes of
    /// the page table per page, and the page's frame for a framed segment; none
    /// for a file mapping, whose pages are mapped when first touched.
    pub open spec fn pages_needed(&self) -> int {
        if self.end.0 <= self.start.0 || self.map_type == MapType::VMA {
            0
        } else {
            (self.end.0 - self.start.0) * if self.map_type == MapType::Framed {
                3int
            } else {
                2int
            }
        }
    }

    /// What page `v` maps to once every page of the segment is mapped, given
    /// its frames `frames`: for an identity or framed segment, a page whose slot
    /// (its low 27 bits, in the block of the segment's start, see `block_of`)
    /// lies in the segment maps to its frame with the segment's flags.
    pub open spec fn mapped_by(&self, frames: Map<usize, PhysPageNum>, v: usize) -> Option<PageTableEntry> {
        let u = (block_of(self.start.0) + v % 0x800_0000) as usize;
        if self.map_type != MapType::VMA && self.start.0 <= u < self.end.0 {
            Some(
                mapped_entry(
                    if self.map_type == MapType::Identity {
                        u
                    } else {
                        frames[u].0
                    },
                    self.seg_flags.bits,
                ),
            )
        } else {
            None
        }
    }

    /// Maps every page of the segment in `pt` (see `map_page`); none of them
    /// may be mapped yet. A file mapping maps nothing: its pages wait for their
    /// first touch.
    pub fn map_pages(&mut self, pt: &mut PageTable, alloc: &mut StackFrameAllocator)
        requires
            table_ok(*old(pt), *old(alloc)),
            frames_owned(*old(self), *old(pt), *old(alloc)),
            old(self).map_type != MapType::VMA ==> old(self).end.0 <= block_of(old(self).start.0) + vpn_space(),
            spare_frames(*old(alloc)) >= old(self).pages_needed(),
            old(self).map_type != MapType::VMA ==> forall|v: usize|
                old(self).holds(v) ==> #[trigger] old(pt).mapped(v) is None,
            old(self).map_type == MapType::Framed ==> forall|v: usize|
                old(self).holds(v) ==> !#[trigger] old(self).frames@.contains_key(v),
        ensures
            spare_frames(*final(alloc)) >= spare_frames(*old(alloc)) - old(self).pages_needed(),
            old(self).map_type == MapType::VMA ==> *final(pt) == *old(pt) && *final(alloc) == *old(alloc),
            table_ok(*final(pt), *final(alloc)),
            frames_owned(*final(self), *final(pt), *final(alloc)),
            final(pt).root() == old(pt).root(),
            final(self).start == old(self).start,
            final(self).end == old(self).end,
            final(self).map_type == old(self).map_type,
            final(self).seg_flags == old(self).seg_flags,
            final(self).vma_flags == old(self).vma_flags,
            final(self).file == old(self).file,
            final(self).offset == old(self).offset,
            final(self).head_offset == old(self).head_offset,
            final(alloc).free_pages().subset_of(old(alloc).free_pages()),
            old(self).map_type == MapType::Framed ==> forall|k: usize|
                #[trigger] final(self).frames@.contains_key(k) <==> old(self).frames@.contains_key(k)
                    || old(self).holds(k),
            old(self).map_type == MapType::Framed ==> forall|k: usize|
                old(self).holds(k) ==> old(alloc).free_pages().contains(#[trigger] final(self).frames@[k].0),
            old(self).map_type != MapType::Framed ==> final(self).frames@ == old(self).frames@,
            forall|k: usize|
                #[trigger] old(self).frames@.contains_key(k) ==> final(self).frames@[k] == old(self).frames@[k],
            forall|v: usize|
                #[trigger] final(pt).mapped(v) == match old(self).mapped_by(final(self).frames@, v) {
                    Some(e) => Some(e),
                    None => old(pt).mapped(v),
                },
    {
        if self.end.0 <= self.start.0 || self.map_type == MapType::VMA {
            proof {
                assert forall|v: usize| #[trigger] pt.mapped(v) == match old(self).mapped_by(self.frames@, v) {
                    Some(e) => Some(e),
                    None => old(pt).mapped(v),
                } by {}
            }
            return;
        }
        let mut i = self.start.0;
        let ghost base = (self.start.0 - self.start.0 % 0x800_0000) as usize;
        while i < self.end.0
            invariant
                self.start == old(self).start,
                self.end == old(self).end,
                self.map_type == old(self).map_type,
                self.seg_flags == old(self).seg_flags,
                self.vma_flags == old(self).vma_flags,
                self.file == old(self).file,
                self.offset == old(self).offset,
                self.head_offset == old(self).head_offset,
                self.start.0 <= i <= self.end.0,
                self.end.0 <= block_of(self.start.0) + vpn_space(),
                base == block_of(self.start.0),
                base % 0x800_0000 == 0,
                table_ok(*pt, *alloc),
                frames_owned(*self, *pt, *alloc),
                pt.root() == old(pt).root(),
                alloc.free_pages().subset_of(old(alloc).free_pages()),
                spare_frames(*alloc) >= (self.end.0 - i) * if self.map_type == MapType::Framed {
                    3int
                } else {
                    2int
                },
                spare_frames(*alloc) >= spare_frames(*old(alloc)) - (i - self.start.0) * if self.map_type
                    == MapType::Framed {
                    3int
                } else {
                    2int
                },
                self.map_type != MapType::VMA ==> forall|v: usize|
                    i <= v < self.end.0 ==> #[trigger] pt.mapped(v) is None,
                self.map_type == MapType::Framed ==> forall|v: usize|
                    i <= v < self.end.0 ==> !#[trigger] self.frames@.contains_key(v),
                self.map_type == MapType::Framed ==> forall|k: usize|
                    #[trigger] self.frames@.contains_key(k) <==> old(self).frames@.contains_key(k)
                        || (self.start.0 <= k < i),
                self.map_type == MapType::Framed ==> forall|k: usize|
                    self.start.0 <= k < i ==> old(alloc).free_pages().contains(#[trigger] self.frames@[k].0),
                self.map_type != MapType::Framed ==> self.frames@ == old(self).frames@,
                forall|k: usize|
                    #[trigger] old(self).frames@.contains_key(k) ==> self.frames@[k] == old(self).frames@[k],
                forall|v: usize|
                    #[trigger] pt.mapped(v) == if self.map_type != MapType::VMA && self.start.0 <= base + v
                        % 0x800_0000 < i {
                        Some(
                            mapped_entry(
                                if self.map_type == MapType::Identity {
                                    (base + v % 0x800_0000) as usize
                                } else {
                                    self.frames@[(base + v % 0x800_0000) as usize].0
                                },
                                self.seg_flags.bits,
                            ),
                        )
                    } else {
                        old(pt).mapped(v)
                    },
            decreases self.end.0 - i,
        {
            let ghost pt0 = *pt;
            let ghost f0 = self.frames@;
            let ghost a0 = *alloc;
            let r = self.map_page(pt, VirtPageNum(i), alloc);
            proof {
                assert forall|v: usize|
                    #[trigger] pt.mapped(v) == if self.map_type != MapType::VMA && self.start.0 <= base + v
                        % 0x800_0000 < i + 1 {
                        Some(
                            mapped_entry(
                                if self.map_type == MapType::Identity {
                                    (base + v % 0x800_0000) as usize
                                } else {
                                    self.frames@[(base + v % 0x800_0000) as usize].0
                                },
                                self.seg_flags.bits,
                            ),
                        )
                    } else {
                        old(pt).mapped(v)
                    } by {
                    lemma_same_slot_block(v, i, base);
                    assert(pt0.mapped(v) == if self.map_type != MapType::VMA && self.start.0 <= base + v
                        % 0x800_0000 < i {
                        Some(
                            mapped_entry(
                                if self.map_type == MapType::Identity {
                                    (base + v % 0x800_0000) as usize
                                } else {
                                    f0[(base + v % 0x800_0000) as usize].0
                                },
                                self.seg_flags.bits,
                            ),
                        )
                    } else {
                        old(pt).mapped(v)
                    });
                }
                assert forall|k: usize| #[trigger] old(self).frames@.contains_key(k) implies self.frames@[k]
                    == old(self).frames@[k] by {
                    if self.map_type == MapType::Framed {
                        assert(f0.contains_key(k));
                        assert(k != i);
                    }
                }
                assert forall|v: usize| i + 1 <= v < self.end.0 && self.map_type != MapType::VMA implies #[trigger] pt.mapped(v) is None by {
                    lemma_same_slot_block(v, i, base);
                    assert(pt0.mapped(v) is None);
                }
            }
            i = i + 1;
        }
        proof {
            assert forall|v: usize| #[trigger] pt.mapped(v) == match old(self).mapped_by(self.frames@, v) {
                Some(e) => Some(e),
                None => old(pt).mapped(v),
            } by {}
        }
    }
}


/// A memory layout: a page table and the segments mapped in it.
pub struct MemLayout {
    pagetable: PageTable,
    pub segments: Vec<Segment>,
}

impl MemLayout {
    /// The page table of the layout.
    pub closed spec fn table(&self) -> PageTable {
        self.pagetable
    }

    /// The segments of the layout.
    pub closed spec fn segs(&self) -> Seq<Segment> {
        self.segments@
    }

    /// An empty layout, whose page table takes its root from the allocator.
    pub fn new(alloc: &mut StackFrameAllocator) -> (r: Self)
        requires
            old(alloc).wf(),
            spare_frames(*old(alloc)) >= 1,
            frames_fit(*old(alloc)),
        ensures
            table_ok(r.table(), *final(alloc)),
            spare_frames(*final(alloc)) == spare_frames(*old(alloc)) - 1,
            r.segs().len() == 0,
            forall|v: usize| #[trigger] r.table().leaf(v) is None,
    {
        let pagetable = PageTable::new(alloc);
        proof {
            assert(pagetable.frame_set().disjoint(alloc.free_pages()));
        }
        MemLayout { pagetable, segments: Vec::new() }
    }

    /// The leaf entry for `vpn` in the layout's page table.
    pub fn translate(&self, vpn: VirtPageNum) -> (r: Option<PageTableEntry>)
        requires
            self.table().wf(),
        ensures
            r == self.table().leaf(vpn.0),
    {
        self.pagetable.translate(vpn)
    }

    /// The SATP value that selects the layout's page table.
    pub fn get_satp(&self) -> (r: usize)
        ensures
            r == ((8u64 << 60u64) | (self.table().root() as u64)) as usize,
    {
        self.pagetable.get_satp()
    }

    /// Maps every page of `segment` (see `Segment::map_pages`) and adds it to
    /// the layout.
    pub fn add_segment(&mut self, segment: Segment, alloc: &mut StackFrameAllocator)
        requires
            table_ok(old(self).table(), *old(alloc)),
            frames_owned(segment, old(self).table(), *old(alloc)),
            segment.map_type != MapType::VMA ==> segment.end.0 <= block_of(segment.start.0) + vpn_space(),
            spare_frames(*old(alloc)) >= segment.pages_needed(),
            segment.map_type != MapType::VMA ==> forall|v: usize|
                segment.holds(v) ==> #[trigger] old(self).table().mapped(v) is None,
            segment.map_type == MapType::Framed ==> forall|v: usize|
                segment.holds(v) ==> !#[trigger] segment.frames@.contains_key(v),
        ensures
            spare_frames(*final(alloc)) >= spare_frames(*old(alloc)) - segment.pages_needed(),
            segment.map_type == MapType::VMA ==> final(self).table() == old(self).table() && *final(alloc)
                == *old(alloc),
            final(self).segs().last().head_offset == segment.head_offset,
            final(self).segs().last().vma_flags == segment.vma_flags,
            final(self).segs().last().file == segment.file,
            final(self).segs().last().offset == segment.offset,
            segment.map_type != MapType::Framed ==> final(self).segs().last().frames@ == segment.frames@,
            table_ok(final(self).table(), *final(alloc)),
            final(self).table().root() == old(self).table().root(),
            final(self).segs().len() == old(self).segs().len() + 1,
            final(self).segs().drop_last() == old(self).segs(),
            frames_owned(final(self).segs().last(), final(self).table(), *final(alloc)),
            final(alloc).free_pages().subset_of(old(alloc).free_pages()),
            final(self).segs().last().start == segment.start,
            final(self).segs().last().end == segment.end,
            final(self).segs().last().map_type == segment.map_type,
            final(self).segs().last().seg_flags == segment.seg_flags,
            forall|v: usize|
                #[trigger] final(self).table().mapped(v) == match segment.mapped_by(
                    final(self).segs().last().frames@,
                    v,
                ) {
                    Some(e) => Some(e),
                    None => old(self).table().mapped(v),
                },
    {
        let mut segment = segment;
        segment.map_pages(&mut self.pagetable, alloc);
        self.segments.push(segment);
        proof {
            assert(self.segments@.drop_last() =~= old(self).segments@);
        }
    }
}


/// Whether `unmap_page` unmaps page `v` of a segment of type `t` with file
/// mapping flags `vflags`, given its entry in the table: every page but those of
/// a file mapping, which go only when written and writable.
pub open spec fn unmaps(t: MapType, vflags: VMAFlags, m: Option<PageTableEntry>) -> bool {
    t != MapType::VMA || (m matches Some(e) && pte_dirty(e) && vflags.bits & 4 != 0)
}

impl Segment {
    /// Unmaps every page of the segment (see `unmap_page`), from the first; gives
    /// back the pages of a file mapping to write back, in that order.
    pub fn unmap_pages(&mut self, pt: &mut PageTable, alloc: &mut StackFrameAllocator) -> (r: Vec<
        (usize, PhysPageNum),
    >)
        requires
            table_ok(*old(pt), *old(alloc)),
            frames_owned(*old(self), *old(pt), *old(alloc)),
            old(self).end.0 <= block_of(old(self).start.0) + vpn_space(),
            old(self).map_type != MapType::VMA ==> forall|v: usize|
                old(self).holds(v) ==> #[trigger] old(pt).mapped(v) is Some,
            old(self).map_type == MapType::VMA ==> old(self).end.0 * 4096 + old(self).offset
                <= usize::MAX,
        ensures
            table_ok(*final(pt), *final(alloc)),
            frames_owned(*final(self), *final(pt), *final(alloc)),
            final(pt).root() == old(pt).root(),
            final(pt).frame_set() == old(pt).frame_set(),
            final(self).start == old(self).start,
            final(self).end == old(self).end,
            final(self).map_type == old(self).map_type,
            final(self).seg_flags == old(self).seg_flags,
            final(self).vma_flags == old(self).vma_flags,
            final(self).file == old(self).file,
            final(self).offset == old(self).offset,
            final(self).head_offset == old(self).head_offset,
            old(alloc).free_pages().subset_of(final(alloc).free_pages()),
            forall|v: usize|
                #[trigger] final(pt).leaf(v) == if old(self).holds((block_of(old(self).start.0) + v % 0x800_0000) as usize) && unmaps(
                    old(self).map_type,
                    old(self).vma_flags,
                    old(pt).mapped(v),
                ) {
                    Some(PageTableEntry { bits: 0 })
                } else {
                    old(pt).leaf(v)
                },
            forall|k: usize|
                #[trigger] final(self).frames@.contains_key(k) ==> old(self).frames@.contains_key(k)
                    && final(self).frames@[k] == old(self).frames@[k],
            forall|k: usize|
                #[trigger] old(self).frames@.contains_key(k) && old(self).map_type != MapType::Identity
                    && old(self).holds(k) && unmaps(old(self).map_type, old(self).vma_flags, old(pt).mapped(k))
                    ==> !final(self).frames@.contains_key(k),
            forall|j: int|
                0 <= j < r@.len() ==> {
                    let (off, p) = #[trigger] r@[j];
                    let v = (off - old(self).offset) / 4096 + old(self).start.0;
                    &&& old(self).map_type == MapType::VMA
                    &&& old(self).holds(v as usize)
                    &&& unmaps(old(self).map_type, old(self).vma_flags, old(pt).mapped(v as usize))
                    &&& off == (v - old(self).start.0) * 4096 + old(self).offset
                    &&& p.0 == pte_ppn(old(pt).mapped(v as usize)->0)
                },
            old(self).map_type == MapType::VMA ==> forall|v: usize|
                old(self).holds(v) && unmaps(old(self).map_type, old(self).vma_flags, #[trigger] old(pt).mapped(v))
                    ==> exists|j: int| 0 <= j < r@.len() && r@[j].0 == (v - old(self).start.0) * 4096 + old(self).offset,
    {
        let mut out: Vec<(usize, PhysPageNum)> = Vec::new();
        if self.end.0 <= self.start.0 {
            return out;
        }
        let mut i = self.start.0;
        let ghost base = (self.start.0 - self.start.0 % 0x800_0000) as usize;
        while i < self.end.0
            invariant
                self.start == old(self).start,
                self.end == old(self).end,
                self.map_type == old(self).map_type,
                self.seg_flags == old(self).seg_flags,
                self.vma_flags == old(self).vma_flags,
                self.file == old(self).file,
                self.offset == old(self).offset,
                self.head_offset == old(self).head_offset,
                self.start.0 <= i <= self.end.0,
                base == block_of(self.start.0),
                base % 0x800_0000 == 0,
                self.end.0 <= block_of(self.start.0) + vpn_space(),
                self.map_type == MapType::VMA ==> self.end.0 * 4096 + self.offset <= usize::MAX,
                self.map_type != MapType::VMA ==> forall|v: usize|
                    self.start.0 <= v < self.end.0 ==> #[trigger] old(pt).mapped(v) is Some,
                table_ok(*pt, *alloc),
                frames_owned(*self, *pt, *alloc),
                pt.root() == old(pt).root(),
                pt.frame_set() == old(pt).frame_set(),
                old(alloc).free_pages().subset_of(alloc.free_pages()),
                forall|v: usize|
                    #[trigger] pt.leaf(v) == if self.start.0 <= block_of(self.start.0) + v % 0x800_0000 < i && unmaps(
                        self.map_type,
                        self.vma_flags,
                        old(pt).mapped(v),
                    ) {
                        Some(PageTableEntry { bits: 0 })
                    } else {
                        old(pt).leaf(v)
                    },
                forall|k: usize|
                    #[trigger] self.frames@.contains_key(k) ==> old(self).frames@.contains_key(k)
                        && self.frames@[k] == old(self).frames@[k],
                forall|k: usize|
                    #[trigger] old(self).frames@.contains_key(k) && self.map_type != MapType::Identity
                        && self.start.0 <= k < i && unmaps(self.map_type, self.vma_flags, old(pt).mapped(k))
                        ==> !self.frames@.contains_key(k),
                forall|j: int|
                    0 <= j < out@.len() ==> {
                        let (off, p) = #[trigger] out@[j];
                        let v = (off - self.offset) / 4096 + self.start.0;
                        &&& self.map_type == MapType::VMA
                        &&& self.start.0 <= v < i
                        &&& unmaps(self.map_type, self.vma_flags, old(pt).mapped(v as usize))
                        &&& off == (v - self.start.0) * 4096 + self.offset
                        &&& p.0 == pte_ppn(old(pt).mapped(v as usize)->0)
                    },
                self.map_type == MapType::VMA ==> forall|v: usize|
                    self.start.0 <= v < i && unmaps(self.map_type, self.vma_flags, #[trigger] old(pt).mapped(v))
                        ==> exists|j: int| 0 <= j < out@.len() && out@[j].0 == (v - self.start.0) * 4096 + self.offset,
            decreases self.end.0 - i,
        {
            let ghost pt0 = *pt;
            let ghost f0 = self.frames@;
            let ghost o0 = out@;
            proof {
                lemma_same_slot_block(i, i, base);
                assert(pt0.mapped(i) == old(pt).mapped(i));
                assert(pt0.leaf(i) == old(pt).leaf(i));
                if self.map_type == MapType::VMA {
                    assert(i * 4096 + self.offset <= usize::MAX) by (nonlinear_arith)
                        requires
                            self.end.0 * 4096 + self.offset <= usize::MAX,
                            i < self.end.0,
                    ;
                }
            }
            let wb = self.unmap_page(pt, VirtPageNum(i), alloc);
            match wb {
                Some(x) => {
                    out.push(x);
                },
                None => {},
            }
            proof {
                if self.map_type == MapType::VMA {
                    assert forall|v: usize|
                        self.start.0 <= v < i + 1 && unmaps(self.map_type, self.vma_flags, #[trigger] old(pt).mapped(v))
                            implies exists|j: int| 0 <= j < out@.len() && out@[j].0 == (v - self.start.0) * 4096 + self.offset by {
                        if v < i {
                            let j = choose|j: int| 0 <= j < o0.len() && o0[j].0 == (v - self.start.0) * 4096 + self.offset;
                            assert(out@[j] == o0[j]);
                        } else {
                            assert(out@[o0.len() as int].0 == (v - self.start.0) * 4096 + self.offset);
                        }
                    }
                }
                assert forall|v: usize|
                    #[trigger] pt.leaf(v) == if self.start.0 <= block_of(self.start.0) + v % 0x800_0000 < i + 1 && unmaps(
                        self.map_type,
                        self.vma_flags,
                        old(pt).mapped(v),
                    ) {
                        Some(PageTableEntry { bits: 0 })
                    } else {
                        old(pt).leaf(v)
                    } by {
                    lemma_same_slot_block(v, i, base);
                    if same_slot(v, i) {
                        lemma_same_slot_block(i, i, base);
                        lemma_same_slot_leaf(*old(pt), v, i);
                    }
                }
            }
            i = i + 1;
        }
        out
    }
}


/// `i` is the first segment of `segs` that starts at page `start`.
pub open spec fn is_first_seg_at(segs: Seq<Segment>, start: usize, i: int) -> bool {
    &&& 0 <= i < segs.len()
    &&& segs[i].start.0 == start
    &&& forall|j: int| 0 <= j < i ==> (#[trigger] segs[j]).start.0 != start
}

/// The first segment of `segs` that starts at page `start`, if any.
pub open spec fn first_seg_at(segs: Seq<Segment>, start: usize) -> Option<int> {
    if exists|i: int| is_first_seg_at(segs, start, i) {
        Some(choose|i: int| is_first_seg_at(segs, start, i))
    } else {
        None
    }
}

/// The first segment starting at a page is unique.
proof fn lemma_first_seg_at(segs: Seq<Segment>, start: usize, i: int)
    requires
        is_first_seg_at(segs, start, i),
    ensures
        first_seg_at(segs, start) == Some(i),
{
    let j = choose|j: int| is_first_seg_at(segs, start, j);
    assert(is_first_seg_at(segs, start, j));
    if j < i {
        assert(segs[j].start.0 != start);
    }
    if i < j {
        assert(segs[i].start.0 != start);
    }
}

/// What `Segment::unmap_pages` needs of segment `seg` in table `t` with
/// allocator `alloc`: its frames are its own, its pages lie in one block of
/// `vpn_space()` pages (see `block_of`), those of a segment that is no file
/// mapping are all mapped, and the file offsets of a file mapping can be
/// written down.
pub open spec fn droppable(seg: Segment, t: PageTable, alloc: StackFrameAllocator) -> bool {
    &&& frames_owned(seg, t, alloc)
    &&& seg.end.0 <= block_of(seg.start.0) + vpn_space()
    &&& seg.map_type != MapType::VMA ==> forall|v: usize| seg.holds(v) ==> #[trigger] t.mapped(v) is Some
    &&& seg.map_type == MapType::VMA ==> seg.end.0 * 4096 + seg.offset <= usize::MAX
}

/// The table `t1` is `t0` once the pages of `seg` are unmapped: each page of
/// the segment that `unmaps` takes gets an empty entry, in the slot that the
/// page selects.
pub open spec fn table_after_drop(seg: Segment, t0: PageTable, t1: PageTable) -> bool {
    forall|v: usize|
        #[trigger] t1.leaf(v) == if seg.holds((block_of(seg.start.0) + v % 0x800_0000) as usize) && unmaps(
            seg.map_type,
            seg.vma_flags,
            t0.mapped(v),
        ) {
            Some(PageTableEntry { bits: 0 })
        } else {
            t0.leaf(v)
        }
}

/// `w` lists the pages of the file mapping `seg` to write back once unmapped
/// from `t`: each as its offset in the file and its frame, every written page
/// once at least.
pub open spec fn write_backs(seg: Segment, t: PageTable, w: Seq<(usize, PhysPageNum)>) -> bool {
    &&& forall|j: int|
        0 <= j < w.len() ==> {
            let (off, p) = #[trigger] w[j];
            let v = (off - seg.offset) / 4096 + seg.start.0;
            &&& seg.map_type == MapType::VMA
            &&& seg.holds(v as usize)
            &&& unmaps(seg.map_type, seg.vma_flags, t.mapped(v as usize))
            &&& off == (v - seg.start.0) * 4096 + seg.offset
            &&& p.0 == pte_ppn(t.mapped(v as usize)->0)
        }
    &&& seg.map_type == MapType::VMA ==> forall|v: usize|
        seg.holds(v) && unmaps(seg.map_type, seg.vma_flags, #[trigger] t.mapped(v))
            ==> exists|j: int| 0 <= j < w.len() && w[j].0 == (v - seg.start.0) * 4096 + seg.offset
}

impl MemLayout {
    /// Unmaps the pages of the first segment that starts at page `start` (see
    /// `Segment::unmap_pages`) and takes it out of the layout; gives back the
    /// pages of a file mapping to write back. Nothing happens when no segment
    /// starts there.
    pub fn drop_segment(&mut self, start: VirtPageNum, alloc: &mut StackFrameAllocator) -> (r: Vec<
        (usize, PhysPageNum),
    >)
        requires
            table_ok(old(self).table(), *old(alloc)),
            first_seg_at(old(self).segs(), start.0) matches Some(i) ==> droppable(
                old(self).segs()[i],
                old(self).table(),
                *old(alloc),
            ),
        ensures
            table_ok(final(self).table(), *final(alloc)),
            final(self).table().root() == old(self).table().root(),
            final(self).table().frame_set() == old(self).table().frame_set(),
            old(alloc).free_pages().subset_of(final(alloc).free_pages()),
            first_seg_at(old(self).segs(), start.0) is None ==> final(self).segs() == old(self).segs()
                && final(self).table() == old(self).table() && r@.len() == 0,
            first_seg_at(old(self).segs(), start.0) matches Some(i) ==> {
                let seg = old(self).segs()[i];
                &&& final(self).segs() == old(self).segs().remove(i)
                &&& table_after_drop(seg, old(self).table(), final(self).table())
                &&& write_backs(seg, old(self).table(), r@)
            },
    {
        let mut idx: usize = 0;
        while idx < self.segments.len()
            invariant
                idx <= self.segments@.len(),
                *self == *old(self),
                *alloc == *old(alloc),
                table_ok(old(self).table(), *old(alloc)),
                first_seg_at(old(self).segs(), start.0) matches Some(i) ==> droppable(
                    old(self).segs()[i],
                    old(self).table(),
                    *old(alloc),
                ),
                forall|j: int| 0 <= j < idx ==> (#[trigger] self.segments@[j]).start.0 != start.0,
            decreases self.segments@.len() - idx,
        {
            if self.segments[idx].start.0 == start.0 {
                proof {
                    lemma_first_seg_at(self.segments@, start.0, idx as int);
                }
                let mut seg = self.segments.remove(idx);
                let out = seg.unmap_pages(&mut self.pagetable, alloc);
                return out;
            }
            idx = idx + 1;
        }
        proof {
            if exists|i: int| is_first_seg_at(self.segments@, start.0, i) {
                let i = choose|i: int| is_first_seg_at(self.segments@, start.0, i);
                assert(self.segments@[i].start.0 != start.0);
            }
        }
        Vec::new()
    }
}


/// The highest page a free range may end at: `0xffff_ffff_ff000` (kept to
/// the width of `usize`).
pub open spec fn space_top() -> int {
    (0xffff_ffff_ff000u64 as usize) as int
}

/// Whether the range `[start, stop]` comes within one page of segment `seg`:
/// either end lies in the segment widened by a page on each side.
pub open spec fn near_segment(seg: Segment, start: int, stop: int) -> bool {
    ||| seg.start.0 - 1 <= start < seg.end.0 + 1
    ||| seg.start.0 - 1 < stop < seg.end.0 + 1
}

/// Whether the candidate that ends `i` pages below the top, for a length of
/// `len` bytes, comes near a segment of `segs`.
pub open spec fn candidate_taken(segs: Seq<Segment>, len: usize, i: int) -> bool {
    exists|j: int|
        0 <= j < segs.len() && #[trigger] near_segment(segs[j], space_top() - i - len / 4096, space_top() - i)
}

/// The first candidate from `i` on, counting down from the top, that comes near
/// no segment: where its range starts.
pub open spec fn free_space_from(segs: Seq<Segment>, len: usize, i: int) -> Option<usize>
    decreases space_top() - i,
{
    if i < 0 || i >= space_top() {
        None
    } else if !candidate_taken(segs, len, i) {
        Some((space_top() - i - len / 4096) as usize)
    } else {
        free_space_from(segs, len, i + 1)
    }
}

/// The candidates tried from `i` on, up to the first free one, can be written
/// down without going below page zero.
pub open spec fn search_fits(segs: Seq<Segment>, len: usize, i: int) -> bool
    decreases space_top() - i,
{
    0 <= i < space_top() ==> {
        &&& len / 4096 <= space_top() - i
        &&& candidate_taken(segs, len, i) ==> search_fits(segs, len, i + 1)
    }
}

impl MemLayout {
    /// Where a range of `len` bytes fits in the layout's virtual pages: the
    /// highest candidate, ending at most at `space_top()` and going down a page
    /// at a time, that comes within one page of no segment.
    pub fn get_continuous_space(&self, len: usize) -> (r: Option<VirtPageNum>)
        requires
            forall|j: int|
                0 <= j < self.segs().len() ==> 1 <= (#[trigger] self.segs()[j]).start.0
                    && self.segs()[j].end.0 < usize::MAX,
            search_fits(self.segs(), len, 0),
        ensures
            r == match free_space_from(self.segs(), len, 0) {
                Some(s) => Some(VirtPageNum(s)),
                None => None,
            },
    {
        let top: usize = #[verifier::truncate] (0xffff_ffff_ff000u64 as usize);
        let mut i: usize = 0;
        while i < top
            invariant
                top == space_top(),
                i <= top,
                search_fits(self.segs(), len, i as int),
                free_space_from(self.segs(), len, 0) == free_space_from(self.segs(), len, i as int),
                forall|j: int|
                    0 <= j < self.segs().len() ==> 1 <= (#[trigger] self.segs()[j]).start.0
                        && self.segs()[j].end.0 < usize::MAX,
            decreases top - i,
        {
            let stop_vpn = VirtPageNum(top) - i;
            let start_vpn = stop_vpn - len / PAGE_SIZE;
            let mut k: usize = 0;
            let mut taken = false;
            while k < self.segments.len()
                invariant
                    k <= self.segs().len(),
                    self.segs() == self.segments@,
                    stop_vpn.0 == space_top() - i,
                    start_vpn.0 == space_top() - i - len / 4096,
                    forall|j: int|
                        0 <= j < self.segs().len() ==> 1 <= (#[trigger] self.segs()[j]).start.0
                            && self.segs()[j].end.0 < usize::MAX,
                    taken ==> candidate_taken(self.segs(), len, i as int),
                    !taken ==> forall|j: int|
                        0 <= j < k ==> !#[trigger] near_segment(self.segs()[j], start_vpn.0 as int, stop_vpn.0 as int),
                ensures
                    taken ==> candidate_taken(self.segs(), len, i as int),
                    !taken ==> k >= self.segs().len(),
                    !taken ==> forall|j: int|
                        0 <= j < k ==> !#[trigger] near_segment(self.segs()[j], start_vpn.0 as int, stop_vpn.0 as int),
                decreases self.segs().len() - k,
            {
                let seg = &self.segments[k];
                if seg.start.0 - 1 <= start_vpn.0 && start_vpn.0 < seg.end.0 + 1 {
                    taken = true;
                    assert(near_segment(self.segs()[k as int], start_vpn.0 as int, stop_vpn.0 as int));
                    break;
                } else if seg.start.0 - 1 < stop_vpn.0 && stop_vpn.0 < seg.end.0 + 1 {
                    taken = true;
                    assert(near_segment(self.segs()[k as int], start_vpn.0 as int, stop_vpn.0 as int));
                    break;
                }
                k = k + 1;
            }
            if !taken {
                proof {
                    if candidate_taken(self.segs(), len, i as int) {
                        let j = choose|j: int|
                            0 <= j < self.segs().len() && #[trigger] near_segment(
                                self.segs()[j],
                                space_top() - i - len / 4096,
                                space_top() - i,
                            );
                        assert(!near_segment(self.segs()[j], start_vpn.0 as int, stop_vpn.0 as int));
                    }
                }
                return Some(start_vpn);
            }
            i = i + 1;
        }
        None
    }
}


/// The entry `PageTableEntry::modify_access` makes of `e` with `flags`.
pub open spec fn access_set(e: PageTableEntry, flags: PTEFlags) -> PageTableEntry {
    PageTableEntry { bits: (e.bits & 0xffff_ffff_ffff_ff01u64) | ((flags.bits as u64) & 0xfeu64) }
}

/// The first page of `[a, b)` for which the walk of `t` reaches no leaf entry,
/// or `b` when there is none.
pub open spec fn first_unwalkable(t: PageTable, a: int, b: int) -> int
    decreases b - a,
{
    if a >= b {
        b
    } else if t.leaf(a as usize) is None {
        a
    } else {
        first_unwalkable(t, a + 1, b)
    }
}

/// `first_unwalkable` lies in `[a, b]`, and the walk reaches a leaf entry for
/// every page before it.
proof fn lemma_first_unwalkable(t: PageTable, a: int, b: int)
    requires
        a <= b,
    ensures
        a <= first_unwalkable(t, a, b) <= b,
        forall|v: int| a <= v < first_unwalkable(t, a, b) ==> #[trigger] t.leaf(v as usize) is Some,
        first_unwalkable(t, a, b) < b ==> t.leaf(first_unwalkable(t, a, b) as usize) is None,
    decreases b - a,
{
    if a < b && t.leaf(a as usize) is Some {
        lemma_first_unwalkable(t, a + 1, b);
    }
}

/// The access flags of `[a, b)` changed in order, up to the first page for
/// which the walk reaches no leaf entry: `t1` from `t0`.
pub open spec fn access_modified(t0: PageTable, t1: PageTable, a: int, b: int, flags: PTEFlags) -> bool {
    forall|v: usize|
        #[trigger] t1.leaf(v) == if a <= v % 0x800_0000 < first_unwalkable(t0, a, b) {
            Some(access_set(t0.leaf(v)->0, flags))
        } else {
            t0.leaf(v)
        }
}

/// Changes the access flags of the pages `[a, b)`, in order (see
/// `PageTable::modify_access`); `None` at the first page for which the walk
/// reaches no leaf entry, the pages before it changed.
fn modify_range(pt: &mut PageTable, a: usize, b: usize, flags: PTEFlags) -> (r: Option<()>)
    requires
        old(pt).wf(),
        b <= vpn_space(),
    ensures
        final(pt).wf(),
        final(pt).root() == old(pt).root(),
        final(pt).frame_set() == old(pt).frame_set(),
        access_modified(*old(pt), *final(pt), a as int, b as int, flags),
        r is Some <==> a >= b || first_unwalkable(*old(pt), a as int, b as int) >= b,
{
    if a >= b {
        proof {
            assert(access_modified(*old(pt), *pt, a as int, b as int, flags));
        }
        return Some(());
    }
    proof {
        lemma_first_unwalkable(*old(pt), a as int, b as int);
    }
    let mut i = a;
    while i < b
        invariant
            a <= i <= b,
            b <= vpn_space(),
            pt.wf(),
            pt.root() == old(pt).root(),
            pt.frame_set() == old(pt).frame_set(),
            a <= first_unwalkable(*old(pt), a as int, b as int) <= b,
            forall|v: int| a <= v < first_unwalkable(*old(pt), a as int, b as int) ==> #[trigger] old(pt).leaf(v as usize) is Some,
            first_unwalkable(*old(pt), a as int, b as int) < b ==> old(pt).leaf(first_unwalkable(*old(pt), a as int, b as int) as usize) is None,
            i <= first_unwalkable(*old(pt), a as int, b as int),
            forall|v: usize|
                #[trigger] pt.leaf(v) == if a <= v % 0x800_0000 < i {
                    Some(access_set(old(pt).leaf(v)->0, flags))
                } else {
                    old(pt).leaf(v)
                },
        decreases b - i,
    {
        let ghost t0 = *pt;
        proof {
            lemma_same_slot_low(i, i);
            lemma_same_slot_leaf(*old(pt), i, i);
        }
        let r = pt.modify_access(VirtPageNum(i), flags);
        if r.is_none() {
            proof {
                assert(i % 0x800_0000 == i);
                assert(t0.leaf(i) is None);
                assert(t0.leaf(i) == old(pt).leaf(i));
                if first_unwalkable(*old(pt), a as int, b as int) > i {
                    assert(old(pt).leaf(i as int as usize) is Some);
                }
                assert(first_unwalkable(*old(pt), a as int, b as int) == i);
                assert forall|v: usize| #[trigger] pt.leaf(v) == if a <= v % 0x800_0000 < first_unwalkable(*old(pt), a as int, b as int) {
                    Some(access_set(old(pt).leaf(v)->0, flags))
                } else {
                    old(pt).leaf(v)
                } by {}
            }
            return None;
        }
        proof {
            assert forall|v: usize|
                #[trigger] pt.leaf(v) == if a <= v % 0x800_0000 < i + 1 {
                    Some(access_set(old(pt).leaf(v)->0, flags))
                } else {
                    old(pt).leaf(v)
                } by {
                lemma_same_slot_low(v, i);
                if same_slot(v, i) {
                    lemma_same_slot_leaf(*old(pt), v, i);
                    lemma_same_slot_leaf(t0, v, i);
                }
            }
            if i + 1 > first_unwalkable(*old(pt), a as int, b as int) {
                assert(old(pt).leaf(i) is None);
            }
        }
        i = i + 1;
    }
    proof {
        assert(access_modified(*old(pt), *pt, a as int, b as int, flags));
    }
    Some(())
}


/// `i` is the first segment of `segs` that holds page `vpn`.
pub open spec fn is_first_holding(segs: Seq<Segment>, vpn: usize, i: int) -> bool {
    &&& 0 <= i < segs.len()
    &&& segs[i].holds(vpn)
    &&& forall|j: int| 0 <= j < i ==> !(#[trigger] segs[j]).holds(vpn)
}

/// The first segment of `segs` that holds page `vpn`, if any.
pub open spec fn first_holding(segs: Seq<Segment>, vpn: usize) -> Option<int> {
    if exists|i: int| is_first_holding(segs, vpn, i) {
        Some(choose|i: int| is_first_holding(segs, vpn, i))
    } else {
        None
    }
}

/// The first segment holding a page is unique.
proof fn lemma_first_holding(segs: Seq<Segment>, vpn: usize, i: int)
    requires
        is_first_holding(segs, vpn, i),
    ensures
        first_holding(segs, vpn) == Some(i),
{
    let j = choose|j: int| is_first_holding(segs, vpn, j);
    assert(is_first_holding(segs, vpn, j));
    if j < i {
        assert(!segs[j].holds(vpn));
    }
    if i < j {
        assert(!segs[i].holds(vpn));
    }
}

/// The pages `[a, b)` whose access `MemLayout::modify_access` changes in the
/// framed segment `seg` that holds the page of `start`: from that page to the
/// end of the segment when growing up, from the start of the segment to the
/// page after `start` when growing down, else the pages of `[start, start + len)`.
pub open spec fn access_range(seg: Segment, start: usize, len: usize, grow_up: bool, grow_down: bool) -> (int, int) {
    if grow_up {
        ((start / 4096) as int, seg.end.0 as int)
    } else if grow_down {
        (seg.start.0 as int, (start - 1) / 4096 + 1)
    } else {
        ((start / 4096) as int, (start + len - 1) / 4096 + 1)
    }
}

/// The flags of the segment `MemLayout::modify_access` makes for pages of
/// access `flags`: `U`, and the `R`, `W`, `X` and `U` of `flags`.
pub open spec fn new_segment_flags(flags: PTEFlags) -> SegmentFlags {
    SegmentFlags { bits: (16u8 | (flags.bits & 30u8)) as u8 }
}

impl MemLayout {
    /// Changes the access flags of pages around `start`. When growing (up or
    /// down), the first segment holding the page of `start` must be framed, and
    /// its pages from there up to its end, or from its start down to `start`,
    /// change. Otherwise the pages of `[start, start + len)` change when a
    /// framed segment holds the page of `start`, and when no segment holds it a
    /// framed segment for those pages is added, with flags made from `flags`.
    /// `None` when the segment found is not framed, when growing finds no
    /// segment, or when the walk finds a page unmapped (the pages before it
    /// changed).
    #[verifier::rlimit(30)]
    pub fn modify_access(
        &mut self,
        start: VirtAddr,
        len: usize,
        flags: PTEFlags,
        grow_up: bool,
        grow_down: bool,
        alloc: &mut StackFrameAllocator,
    ) -> (r: Option<()>)
        requires
            table_ok(old(self).table(), *old(alloc)),
            (grow_up || grow_down) ==> (first_holding(old(self).segs(), start.0 / 4096) matches Some(i)
                ==> old(self).segs()[i].map_type != MapType::Framed || old(self).segs()[i].end.0 <= vpn_space()),
            !(grow_up || grow_down) ==> start.0 + len <= vpn_space() * 4096,
            !(grow_up || grow_down) ==> start.0 + len <= usize::MAX,
            !grow_up && grow_down ==> (first_holding(old(self).segs(), start.0 / 4096) matches Some(i)
                ==> old(self).segs()[i].map_type != MapType::Framed || start.0 > 0),
            !(grow_up || grow_down) ==> (first_holding(old(self).segs(), start.0 / 4096) matches Some(i)
                ==> old(self).segs()[i].map_type != MapType::Framed || start.0 + len > 0),
            !(grow_up || grow_down) && first_holding(old(self).segs(), start.0 / 4096) is None ==> {
                &&& start.0 + len > 0
                &&& spare_frames(*old(alloc)) >= ((start.0 + len - 1) / 4096 + 1 - start.0 / 4096) * 3
                &&& forall|v: usize|
                    start.0 / 4096 <= v < (start.0 + len - 1) / 4096 + 1
                        ==> #[trigger] old(self).table().mapped(v) is None
            },
        ensures
            table_ok(final(self).table(), *final(alloc)),
            final(self).table().root() == old(self).table().root(),
            match first_holding(old(self).segs(), start.0 / 4096) {
                None => if grow_up || grow_down {
                    &&& r is None
                    &&& *final(self) == *old(self)
                    &&& *final(alloc) == *old(alloc)
                } else {
                    let seg = final(self).segs().last();
                    &&& r is Some
                    &&& final(self).segs().len() == old(self).segs().len() + 1
                    &&& final(self).segs().drop_last() == old(self).segs()
                    &&& seg.start.0 == start.0 / 4096
                    &&& seg.end.0 == (start.0 + len - 1) / 4096 + 1
                    &&& seg.map_type == MapType::Framed
                    &&& seg.seg_flags == new_segment_flags(flags)
                    &&& frames_owned(seg, final(self).table(), *final(alloc))
                    &&& final(alloc).free_pages().subset_of(old(alloc).free_pages())
                    &&& forall|v: usize|
                        #[trigger] final(self).table().mapped(v) == match seg.mapped_by(seg.frames@, v) {
                            Some(e) => Some(e),
                            None => old(self).table().mapped(v),
                        }
                },
                Some(i) => if old(self).segs()[i].map_type != MapType::Framed {
                    &&& r is None
                    &&& *final(self) == *old(self)
                    &&& *final(alloc) == *old(alloc)
                } else {
                    let (a, b) = access_range(old(self).segs()[i], start.0, len, grow_up, grow_down);
                    &&& final(self).segs() == old(self).segs()
                    &&& *final(alloc) == *old(alloc)
                    &&& final(self).table().frame_set() == old(self).table().frame_set()
                    &&& access_modified(old(self).table(), final(self).table(), a, b, flags)
                    &&& (r is Some <==> a >= b || first_unwalkable(old(self).table(), a, b) >= b)
                },
            },
    {
        let page = start.to_vpn();
        let mut idx: usize = 0;
        while idx < self.segments.len()
            invariant
                idx <= self.segments@.len(),
                *self == *old(self),
                *alloc == *old(alloc),
                page.0 == start.0 / 4096,
                forall|j: int| 0 <= j < idx ==> !(#[trigger] self.segments@[j]).holds(page.0),
                table_ok(old(self).table(), *old(alloc)),
                (grow_up || grow_down) ==> (first_holding(old(self).segs(), start.0 / 4096) matches Some(i)
                    ==> old(self).segs()[i].map_type != MapType::Framed || old(self).segs()[i].end.0 <= vpn_space()),
                !(grow_up || grow_down) ==> start.0 + len <= vpn_space() * 4096,
                !(grow_up || grow_down) ==> start.0 + len <= usize::MAX,
                !grow_up && grow_down ==> (first_holding(old(self).segs(), start.0 / 4096) matches Some(i)
                    ==> old(self).segs()[i].map_type != MapType::Framed || start.0 > 0),
                !(grow_up || grow_down) ==> (first_holding(old(self).segs(), start.0 / 4096) matches Some(i)
                    ==> old(self).segs()[i].map_type != MapType::Framed || start.0 + len > 0),
                !(grow_up || grow_down) && first_holding(old(self).segs(), start.0 / 4096) is None ==> {
                    &&& start.0 + len > 0
                    &&& spare_frames(*old(alloc)) >= ((start.0 + len - 1) / 4096 + 1 - start.0 / 4096) * 3
                    &&& forall|v: usize|
                        start.0 / 4096 <= v < (start.0 + len - 1) / 4096 + 1
                            ==> #[trigger] old(self).table().mapped(v) is None
                },
            decreases self.segments@.len() - idx,
        {
            if self.segments[idx].start.0 <= page.0 && page.0 < self.segments[idx].end.0 {
                proof {
                    lemma_first_holding(self.segments@, page.0, idx as int);
                }
                if self.segments[idx].map_type != MapType::Framed {
                    return None;
                }
                let seg_start = self.segments[idx].start.0;
                let seg_end = self.segments[idx].end.0;
                let (a, b) = if grow_up {
                    (page.0, seg_end)
                } else if grow_down {
                    (seg_start, start.to_vpn_ceil().0)
                } else {
                    (page.0, VirtAddr(start.0 + len).to_vpn_ceil().0)
                };
                return modify_range(&mut self.pagetable, a, b, flags);
            }
            idx = idx + 1;
        }
        proof {
            if exists|i: int| is_first_holding(self.segments@, page.0, i) {
                let i = choose|i: int| is_first_holding(self.segments@, page.0, i);
                assert(!self.segments@[i].holds(page.0));
            }
        }
        if grow_up || grow_down {
            return None;
        }
        let seg_flags = SegmentFlags { bits: 16u8 | (flags.bits & 30u8) };
        let seg = Segment::new(
            start,
            VirtAddr(start.0 + len),
            MapType::Framed,
            seg_flags,
            VMAFlags { bits: 0 },
            None,
            0,
        );
        self.add_segment(seg, alloc);
        Some(())
    }
}


/// The page after the last one of a file mapping made at `start` for a file of
/// `file_size` bytes and a length of `length` bytes: the mapping covers the
/// shorter of the two.
pub open spec fn vma_stop(start: usize, file_size: usize, length: usize) -> int {
    let last = if file_size < length { start + file_size } else { start + length };
    (last - 1) / 4096 + 1
}

/// Whether a file mapping over the pages `[a, b)` runs into segment `seg`: its
/// first page lies in `seg`, or its end lies strictly inside `seg`.
pub open spec fn vma_clashes(seg: Segment, a: int, b: int) -> bool {
    ||| seg.start.0 <= a < seg.end.0
    ||| seg.start.0 < b < seg.end.0
}

/// Whether a file mapping over the pages `[a, b)` runs into a segment of `segs`.
pub open spec fn vma_clash(segs: Seq<Segment>, a: int, b: int) -> bool {
    exists|j: int| 0 <= j < segs.len() && #[trigger] vma_clashes(segs[j], a, b)
}

/// The error of a result, as text, if it is one.
pub open spec fn err_of<T>(r: Result<T, &'static str>) -> Option<Seq<char>> {
    match r {
        Ok(_) => None,
        Err(e) => Some(e@),
    }
}

/// `seg` is a file mapping of `file` over the pages `[a, b)`, from byte
/// `offset` of the file on, with the flags `flag` and no frame yet.
pub open spec fn is_new_vma(seg: Segment, a: int, b: int, file: u64, flag: VMAFlags, offset: usize) -> bool {
    &&& seg.start.0 == a
    &&& seg.end.0 == b
    &&& seg.head_offset == 0
    &&& seg.map_type == MapType::VMA
    &&& seg.seg_flags.bits == 0
    &&& seg.vma_flags == flag
    &&& seg.file == Some(file)
    &&& seg.offset == offset
    &&& seg.frames@ == Map::<usize, PhysPageNum>::empty()
}

/// What adding a file mapping at the nonzero address `start` does, from the
/// segments `s0` to `s1`, failing with `err`: refuses a mapping that runs into a
/// segment, else adds the mapping over its pages.
pub open spec fn vma_added(
    s0: Seq<Segment>,
    s1: Seq<Segment>,
    err: Option<Seq<char>>,
    file: u64,
    file_size: usize,
    start: usize,
    flag: VMAFlags,
    offset: usize,
    length: usize,
) -> bool {
    let a = start / 4096;
    let b = vma_stop(start, file_size, length);
    if vma_clash(s0, a as int, b) {
        &&& err == Some("Overlapped mmap segment"@)
        &&& s1 == s0
    } else {
        &&& err is None
        &&& s1.len() == s0.len() + 1
        &&& s1.drop_last() == s0
        &&& is_new_vma(s1.last(), a as int, b, file, flag, offset)
    }
}

/// A nonzero `start` for a file mapping whose ends can be written down.
pub open spec fn vma_fits(start: usize, file_size: usize, length: usize) -> bool {
    &&& start > 0
    &&& start + file_size <= usize::MAX
    &&& start + length <= usize::MAX
    &&& vma_stop(start, file_size, length) * 4096 <= usize::MAX
}

/// The segments `segs` let `get_continuous_space` search for room for
/// `file_size` bytes, and the room found, if any, can take a file mapping.
pub open spec fn anywhere_fits(segs: Seq<Segment>, file_size: usize, length: usize) -> bool {
    &&& forall|j: int|
        0 <= j < segs.len() ==> 1 <= (#[trigger] segs[j]).start.0 && segs[j].end.0 < usize::MAX
    &&& search_fits(segs, file_size, 0)
    &&& free_space_from(segs, file_size, 0) matches Some(s) ==> s * 4096 <= usize::MAX && vma_fits(
        (s * 4096) as usize,
        file_size,
        length,
    )
}

/// What adding a file mapping where `get_continuous_space` finds room does,
/// from the segments `s0` to `s1`, failing with `err`: "No space left" when no
/// room is found, else what adding it at the start of the room does. `at` is
/// that start.
pub open spec fn vma_added_anywhere(
    s0: Seq<Segment>,
    s1: Seq<Segment>,
    err: Option<Seq<char>>,
    at: usize,
    file: u64,
    file_size: usize,
    flag: VMAFlags,
    offset: usize,
    length: usize,
) -> bool {
    match free_space_from(s0, file_size, 0) {
        None => {
            &&& err == Some("No space left"@)
            &&& s1 == s0
        },
        Some(s) => {
            &&& at == s * 4096
            &&& vma_added(s0, s1, err, file, file_size, at, flag, offset, length)
        },
    }
}

/// `MemLayout::add_vma` can be called at `start` on the segments `segs`.
pub open spec fn add_vma_fits(segs: Seq<Segment>, start: usize, file_size: usize, length: usize) -> bool {
    if start == 0 {
        anywhere_fits(segs, file_size, length)
    } else {
        vma_fits(start, file_size, length)
    }
}

/// What `MemLayout::add_vma` does at `start` (the room found when it is 0),
/// from the segments `s0` to `s1`, failing with `err`; `at` is where the mapping
/// starts.
pub open spec fn vma_add_done(
    s0: Seq<Segment>,
    s1: Seq<Segment>,
    err: Option<Seq<char>>,
    at: usize,
    file: u64,
    file_size: usize,
    start: usize,
    flag: VMAFlags,
    offset: usize,
    length: usize,
) -> bool {
    if start == 0 {
        vma_added_anywhere(s0, s1, err, at, file, file_size, flag, offset, length)
    } else {
        &&& at == start
        &&& vma_added(s0, s1, err, file, file_size, start, flag, offset, length)
    }
}

impl MemLayout {
    /// Adds a file mapping at the nonzero address `start` (see `add_vma`).
    fn add_vma_at(
        &mut self,
        file: u64,
        file_size: usize,
        start: VirtAddr,
        flag: VMAFlags,
        offset: usize,
        length: usize,
        alloc: &mut StackFrameAllocator,
    ) -> (r: Result<VirtAddr, &'static str>)
        requires
            table_ok(old(self).table(), *old(alloc)),
            vma_fits(start.0, file_size, length),
        ensures
            final(self).table() == old(self).table(),
            *final(alloc) == *old(alloc),
            vma_added(old(self).segs(), final(self).segs(), err_of(r), file, file_size, start.0, flag, offset, length),
            r is Ok ==> r == Ok::<VirtAddr, &'static str>(start),
    {
        let start_vpn = start.to_vpn();
        let by_size = start.0 + file_size;
        let by_length = start.0 + length;
        let last = if by_size < by_length { by_size } else { by_length };
        let stop_vpn = VirtAddr(last).to_vpn_ceil();
        let mut j: usize = 0;
        while j < self.segments.len()
            invariant
                j <= self.segments@.len(),
                *self == *old(self),
                start_vpn.0 == start.0 / 4096,
                stop_vpn.0 == vma_stop(start.0, file_size, length),
                forall|k: int| 0 <= k < j ==> !vma_clashes(#[trigger] self.segments@[k], start_vpn.0 as int, stop_vpn.0 as int),
            decreases self.segments@.len() - j,
        {
            let seg_start = self.segments[j].start.0;
            let seg_end = self.segments[j].end.0;
            if (seg_start <= start_vpn.0 && start_vpn.0 < seg_end) || (seg_start < stop_vpn.0 && stop_vpn.0 < seg_end) {
                proof {
                    assert(vma_clashes(self.segments@[j as int], start_vpn.0 as int, stop_vpn.0 as int));
                    reveal_strlit("Overlapped mmap segment");
                }
                return Err("Overlapped mmap segment");
            }
            j = j + 1;
        }
        let a = start_vpn.0;
        let b = stop_vpn.0;
        proof {
            assert(a * 4096 <= start.0) by (nonlinear_arith)
                requires
                    a == start.0 / 4096,
            ;
            assert((a * 4096) % 4096 == 0 && (a * 4096) / 4096 == a) by (nonlinear_arith);
            assert(b >= 1 && (b * 4096 - 1) / 4096 + 1 == b) by (nonlinear_arith)
                requires
                    b >= 1,
            ;
        }
        let seg = Segment::new(
            VirtAddr(a * PAGE_SIZE),
            VirtAddr(b * PAGE_SIZE),
            MapType::VMA,
            SegmentFlags { bits: 0 },
            flag,
            Some(file),
            offset,
        );
        self.add_segment(seg, alloc);
        proof {
            assert(!vma_clash(old(self).segs(), a as int, b as int));
        }
        Ok(start)
    }

    /// Maps `length` bytes of the file `file`, of `file_size` bytes, from its
    /// byte `offset` on, at the address `start`, or where
    /// `get_continuous_space` finds room for the whole file when `start` is 0.
    /// The pages are mapped when first touched. Refused when the mapping runs
    /// into a segment, or when no room is found. Answers where the mapping
    /// starts.
    pub fn add_vma(
        &mut self,
        file: u64,
        file_size: usize,
        start: VirtAddr,
        flag: VMAFlags,
        offset: usize,
        length: usize,
        alloc: &mut StackFrameAllocator,
    ) -> (r: Result<VirtAddr, &'static str>)
        requires
            table_ok(old(self).table(), *old(alloc)),
            add_vma_fits(old(self).segs(), start.0, file_size, length),
        ensures
            final(self).table() == old(self).table(),
            *final(alloc) == *old(alloc),
            exists|at: usize| {
                &&& vma_add_done(old(self).segs(), final(self).segs(), err_of(r), at, file, file_size, start.0, flag, offset, length)
                &&& r is Ok ==> r == Ok::<VirtAddr, &'static str>(VirtAddr(at))
            },
    {
        if start.0 == 0 {
            let r = self.add_vma_anywhere(file, file_size, flag, offset, length, alloc);
            proof {
                let at = choose|at: usize| {
                    &&& vma_added_anywhere(old(self).segs(), self.segs(), err_of(r), at, file, file_size, flag, offset, length)
                    &&& r is Ok ==> r == Ok::<VirtAddr, &'static str>(VirtAddr(at))
                };
                assert(vma_add_done(old(self).segs(), self.segs(), err_of(r), at, file, file_size, start.0, flag, offset, length));
            }
            return r;
        }
        let r = self.add_vma_at(file, file_size, start, flag, offset, length, alloc);
        proof {
            assert(vma_add_done(old(self).segs(), self.segs(), err_of(r), start.0, file, file_size, start.0, flag, offset, length));
        }
        r
    }

    /// Maps `length` bytes of the file `file`, of `file_size` bytes, from its
    /// byte `offset` on, where `get_continuous_space` finds room for the whole
    /// file (see `add_vma`); "No space left" when it finds none.
    pub fn add_vma_anywhere(
        &mut self,
        file: u64,
        file_size: usize,
        flag: VMAFlags,
        offset: usize,
        len: usize,
        alloc: &mut StackFrameAllocator,
    ) -> (r: Result<VirtAddr, &'static str>)
        requires
            table_ok(old(self).table(), *old(alloc)),
            anywhere_fits(old(self).segs(), file_size, len),
        ensures
            final(self).table() == old(self).table(),
            *final(alloc) == *old(alloc),
            exists|at: usize| {
                &&& vma_added_anywhere(old(self).segs(), final(self).segs(), err_of(r), at, file, file_size, flag, offset, len)
                &&& r is Ok ==> r == Ok::<VirtAddr, &'static str>(VirtAddr(at))
            },
    {
        match self.get_continuous_space(file_size) {
            None => {
                proof {
                    reveal_strlit("No space left");
                    assert(vma_added_anywhere(old(self).segs(), self.segs(), err_of(Err::<VirtAddr, &'static str>("No space left")), 0, file, file_size, flag, offset, len));
                }
                Err("No space left")
            },
            Some(vpn) => {
                let start = VirtAddr(vpn.0 * PAGE_SIZE);
                let r = self.add_vma_at(file, file_size, start, flag, offset, len, alloc);
                proof {
                    assert(vma_added_anywhere(old(self).segs(), self.segs(), err_of(r), start.0, file, file_size, flag, offset, len));
                }
                r
            },
        }
    }
}


/// Whether the pages `[ds, de)` start inside segment `seg`.
pub open spec fn drop_starts_in(seg: Segment, ds: usize) -> bool {
    seg.start.0 <= ds < seg.end.0
}

/// Whether the pages `[ds, de)` end inside segment `seg`, in the sense
/// `drop_vma` tests: `de` lies above the segment's first page and `ds` at most
/// at its end.
pub open spec fn drop_ends_in(seg: Segment, ds: usize, de: usize) -> bool {
    seg.start.0 < de && ds <= seg.end.0
}

/// `i` is the first segment of `segs` that the pages `[ds, de)` start or end
/// inside.
pub open spec fn is_first_touched(segs: Seq<Segment>, ds: usize, de: usize, i: int) -> bool {
    &&& 0 <= i < segs.len()
    &&& drop_starts_in(segs[i], ds) || drop_ends_in(segs[i], ds, de)
    &&& forall|j: int|
        0 <= j < i ==> !drop_starts_in(#[trigger] segs[j], ds) && !drop_ends_in(segs[j], ds, de)
}

/// The first segment of `segs` that the pages `[ds, de)` start or end inside.
pub open spec fn first_touched(segs: Seq<Segment>, ds: usize, de: usize) -> Option<int> {
    if exists|i: int| is_first_touched(segs, ds, de, i) {
        Some(choose|i: int| is_first_touched(segs, ds, de, i))
    } else {
        None
    }
}

/// The first segment touched by a range is unique.
proof fn lemma_first_touched(segs: Seq<Segment>, ds: usize, de: usize, i: int)
    requires
        is_first_touched(segs, ds, de, i),
    ensures
        first_touched(segs, ds, de) == Some(i),
{
    let j = choose|j: int| is_first_touched(segs, ds, de, j);
    assert(is_first_touched(segs, ds, de, j));
    if j < i {
        assert(!drop_starts_in(segs[j], ds) && !drop_ends_in(segs[j], ds, de));
    }
    if i < j {
        assert(!drop_starts_in(segs[i], ds) && !drop_ends_in(segs[i], ds, de));
    }
}

/// The segment of `segs` that the pages `[ds, de)` may be cut from: the first
/// one they start or end inside, when they both start and end inside it.
pub open spec fn vma_hit(segs: Seq<Segment>, ds: usize, de: usize) -> Option<int> {
    match first_touched(segs, ds, de) {
        Some(i) => if drop_starts_in(segs[i], ds) && drop_ends_in(segs[i], ds, de) {
            Some(i)
        } else {
            None
        },
        None => None,
    }
}

/// A segment that starts at page `start` makes the first one that does exist,
/// at or before it.
proof fn lemma_first_seg_exists(segs: Seq<Segment>, start: usize, j: int)
    requires
        0 <= j < segs.len(),
        segs[j].start.0 == start,
    ensures
        first_seg_at(segs, start) matches Some(k) && k <= j,
    decreases j,
{
    if exists|m: int| 0 <= m < j && (#[trigger] segs[m]).start.0 == start {
        let m = choose|m: int| 0 <= m < j && (#[trigger] segs[m]).start.0 == start;
        lemma_first_seg_exists(segs, start, m);
    } else {
        assert(is_first_seg_at(segs, start, j));
        lemma_first_seg_at(segs, start, j);
    }
}

impl MemLayout {
    /// The segment that `drop_vma` cuts the pages `[drop_start, drop_end)`
    /// from: the first segment they start or end inside, which they must both
    /// start and end inside ("Bad Drop VMA Region." otherwise); "No such VMA
    /// Region" when there is none.
    pub fn find_vma(&self, drop_start: VirtPageNum, drop_end: VirtPageNum) -> (r: Result<usize, &'static str>)
        ensures
            r matches Ok(i) ==> is_first_touched(self.segs(), drop_start.0, drop_end.0, i as int),
            match first_touched(self.segs(), drop_start.0, drop_end.0) {
                None => err_of(r) == Some("No such VMA Region"@),
                Some(i) => if drop_starts_in(self.segs()[i], drop_start.0) && drop_ends_in(
                    self.segs()[i],
                    drop_start.0,
                    drop_end.0,
                ) {
                    r == Ok::<usize, &'static str>(i as usize)
                } else {
                    err_of(r) == Some("Bad Drop VMA Region."@)
                },
            },
    {
        let ds = drop_start.0;
        let de = drop_end.0;
        let mut idx: usize = 0;
        while idx < self.segments.len()
            invariant
                idx <= self.segments@.len(),
                ds == drop_start.0,
                de == drop_end.0,
                forall|j: int|
                    0 <= j < idx ==> !drop_starts_in(#[trigger] self.segments@[j], ds) && !drop_ends_in(
                        self.segments@[j],
                        ds,
                        de,
                    ),
            decreases self.segments@.len() - idx,
        {
            let seg_start = self.segments[idx].start.0;
            let seg_end = self.segments[idx].end.0;
            let start_ok = seg_start <= ds && ds < seg_end;
            let end_ok = seg_start < de && ds <= seg_end;
            if start_ok || end_ok {
                proof {
                    lemma_first_touched(self.segments@, ds, de, idx as int);
                }
                if start_ok && end_ok {
                    return Ok(idx);
                }
                proof {
                    reveal_strlit("Bad Drop VMA Region.");
                }
                return Err("Bad Drop VMA Region.");
            }
            idx = idx + 1;
        }
        proof {
            reveal_strlit("No such VMA Region");
            if exists|i: int| is_first_touched(self.segments@, ds, de, i) {
                let i = choose|i: int| is_first_touched(self.segments@, ds, de, i);
                assert(!drop_starts_in(self.segments@[i], ds) && !drop_ends_in(self.segments@[i], ds, de));
            }
        }
        Err("No such VMA Region")
    }
}

/// The first half of what `MemLayout::drop_vma` does once the segment `seg` it
/// cuts `[ds, de)` from is gone, from the segments `s1` to `s2`, failing with
/// `err`: maps the part of `seg` before `ds` again (see `add_vma`), at `at`, if
/// there is one. `file_size` is the size of the file.
pub open spec fn head_remapped(
    s1: Seq<Segment>,
    s2: Seq<Segment>,
    err: Option<Seq<char>>,
    at: usize,
    seg: Segment,
    ds: usize,
    file_size: usize,
) -> bool {
    if seg.start.0 < ds {
        vma_add_done(
            s1,
            s2,
            err,
            at,
            seg.file->0,
            file_size,
            (seg.start.0 * 4096) as usize,
            seg.vma_flags,
            seg.offset,
            ((ds - seg.start.0) * 4096) as usize,
        )
    } else {
        s2 == s1 && err is None
    }
}

/// The second half: from the segments `s2` to `s3`, failing with `err`, maps
/// the part of `seg` from `de` on again, from its place in the file, if there
/// is one.
pub open spec fn tail_remapped(
    s2: Seq<Segment>,
    s3: Seq<Segment>,
    err: Option<Seq<char>>,
    seg: Segment,
    de: usize,
    file_size: usize,
) -> bool {
    if de < seg.end.0 {
        vma_added(
            s2,
            s3,
            err,
            seg.file->0,
            file_size,
            (de * 4096) as usize,
            seg.vma_flags,
            (seg.offset + (de - seg.start.0) * 4096) as usize,
            ((seg.end.0 - de) * 4096) as usize,
        )
    } else {
        s3 == s2 && err is None
    }
}

/// What `MemLayout::drop_vma` does to the segments once the segment `seg` it
/// cuts `[ds, de)` from is gone, from `s1` to `s3`, failing with `err`: the
/// first half, then, if it worked, the second.
pub open spec fn vma_remapped(
    s1: Seq<Segment>,
    s3: Seq<Segment>,
    err: Option<Seq<char>>,
    seg: Segment,
    ds: usize,
    de: usize,
    file_size: usize,
) -> bool {
    exists|s2: Seq<Segment>, e1: Option<Seq<char>>, at: usize|
        {
            &&& #[trigger] head_remapped(s1, s2, e1, at, seg, ds, file_size)
            &&& e1 is Some ==> s3 == s2 && err == e1
            &&& e1 is None ==> tail_remapped(s2, s3, err, seg, de, file_size)
        }
}

/// What `MemLayout::drop_vma` needs to cut `[ds, de)` from the segment `seg`
/// of `segs` whose first page is also that of segment `k`, the one dropped: a
/// file for `seg`, what unmapping segment `k` needs, and places for the two
/// parts left that can be written down.
pub open spec fn drop_vma_fits(
    segs: Seq<Segment>,
    seg: Segment,
    k: int,
    t: PageTable,
    alloc: StackFrameAllocator,
    ds: usize,
    de: usize,
    file_size: usize,
) -> bool {
    &&& seg.file is Some
    &&& droppable(segs[k], t, alloc)
    &&& seg.start.0 < ds ==> {
        &&& seg.start.0 * 4096 <= usize::MAX
        &&& (ds - seg.start.0) * 4096 <= usize::MAX
        &&& add_vma_fits(
            segs.remove(k),
            (seg.start.0 * 4096) as usize,
            file_size,
            ((ds - seg.start.0) * 4096) as usize,
        )
    }
    &&& de < seg.end.0 ==> {
        &&& de * 4096 <= usize::MAX
        &&& seg.offset + (de - seg.start.0) * 4096 <= usize::MAX
        &&& (seg.end.0 - de) * 4096 <= usize::MAX
        &&& vma_fits((de * 4096) as usize, file_size, ((seg.end.0 - de) * 4096) as usize)
    }
}

impl MemLayout {
    /// Cuts the pages `[drop_start, drop_end)` out of the file mapping found by
    /// `find_vma`: drops the first segment that starts where it starts (see
    /// `drop_segment`) and maps the parts of it before and after the range again
    /// (see `add_vma`); `file_size` is the size of its file. Gives the pages to
    /// write back to the file that `drop_segment` gave, together with the
    /// outcome; the error of `find_vma`, or of a part mapped again.
    #[verifier::rlimit(40)]
    pub fn drop_vma(
        &mut self,
        drop_start: VirtPageNum,
        drop_end: VirtPageNum,
        file_size: usize,
        alloc: &mut StackFrameAllocator,
    ) -> (r: (Vec<(usize, PhysPageNum)>, Result<(), &'static str>))
        requires
            table_ok(old(self).table(), *old(alloc)),
            vma_hit(old(self).segs(), drop_start.0, drop_end.0) matches Some(i) ==> drop_vma_fits(
                old(self).segs(),
                old(self).segs()[i],
                first_seg_at(old(self).segs(), old(self).segs()[i].start.0)->0,
                old(self).table(),
                *old(alloc),
                drop_start.0,
                drop_end.0,
                file_size,
            ),
        ensures
            table_ok(final(self).table(), *final(alloc)),
            final(self).table().root() == old(self).table().root(),
            match vma_hit(old(self).segs(), drop_start.0, drop_end.0) {
                None => {
                    &&& r.0@.len() == 0
                    &&& r.1 is Err
                    &&& err_of(r.1) == if first_touched(old(self).segs(), drop_start.0, drop_end.0) is None {
                        Some("No such VMA Region"@)
                    } else {
                        Some("Bad Drop VMA Region."@)
                    }
                    &&& *final(self) == *old(self)
                    &&& *final(alloc) == *old(alloc)
                },
                Some(i) => {
                    let seg = old(self).segs()[i];
                    let k = first_seg_at(old(self).segs(), seg.start.0)->0;
                    &&& k <= i
                    &&& final(self).table().frame_set() == old(self).table().frame_set()
                    &&& old(alloc).free_pages().subset_of(final(alloc).free_pages())
                    &&& table_after_drop(old(self).segs()[k], old(self).table(), final(self).table())
                    &&& write_backs(old(self).segs()[k], old(self).table(), r.0@)
                    &&& vma_remapped(
                        old(self).segs().remove(k),
                        final(self).segs(),
                        err_of(r.1),
                        seg,
                        drop_start.0,
                        drop_end.0,
                        file_size,
                    )
                },
            },
    {
        let found = self.find_vma(drop_start, drop_end);
        let i = match found {
            Ok(i) => i,
            Err(e) => {
                return (Vec::new(), Err(e));
            },
        };
        let ghost s0 = self.segs();
        let ghost seg = self.segments@[i as int];
        proof {
            lemma_first_touched(s0, drop_start.0, drop_end.0, i as int);
            assert(vma_hit(s0, drop_start.0, drop_end.0) == Some(i as int));
        }
        let file = self.segments[i].file.unwrap();
        let offset = self.segments[i].offset;
        let seg_start = self.segments[i].start;
        let seg_end = self.segments[i].end;
        let flags = self.segments[i].vma_flags;
        proof {
            lemma_first_seg_exists(s0, seg_start.0, i as int);
        }
        let ghost k = first_seg_at(s0, seg_start.0)->0;
        let w = self.drop_segment(seg_start, alloc);
        let ghost s1 = self.segs();
        let ghost mut s2 = s1;
        let ghost mut e1: Option<Seq<char>> = None;
        let ghost mut at: usize = 0;
        if seg_start.0 < drop_start.0 {
            let lead_start = seg_start.0 * PAGE_SIZE;
            let lead_len = (drop_start.0 - seg_start.0) * PAGE_SIZE;
            let r1 = self.add_vma(file, file_size, VirtAddr(lead_start), flags, offset, lead_len, alloc);
            proof {
                s2 = self.segs();
                e1 = err_of(r1);
                at = choose|at: usize| {
                    &&& vma_add_done(s1, s2, e1, at, file, file_size, lead_start, flags, offset, lead_len)
                    &&& r1 is Ok ==> r1 == Ok::<VirtAddr, &'static str>(VirtAddr(at))
                };
                assert(lead_start == (seg.start.0 * 4096) as usize);
                assert(lead_len == ((drop_start.0 - seg.start.0) * 4096) as usize);
                assert(head_remapped(s1, s2, e1, at, seg, drop_start.0, file_size));
            }
            match r1 {
                Err(msg) => {
                    return (w, Err(msg));
                },
                Ok(_) => {},
            }
        }
        if drop_end.0 < seg_end.0 {
            let r2 = self.add_vma(
                file,
                file_size,
                VirtAddr(drop_end.0 * PAGE_SIZE),
                flags,
                offset + (drop_end.0 - seg_start.0) * PAGE_SIZE,
                (seg_end.0 - drop_end.0) * PAGE_SIZE,
                alloc,
            );
            let res: Result<(), &'static str> = match r2 {
                Err(msg) => Err(msg),
                Ok(_) => Ok(()),
            };
            proof {
                assert(head_remapped(s1, s2, e1, at, seg, drop_start.0, file_size));
            }
            return (w, res);
        }
        proof {
            assert(head_remapped(s1, s2, e1, at, seg, drop_start.0, file_size));
        }
        (w, Ok(()))
    }
}


/// What `Segment::adjust_end` needs to move the end of `seg`, in table `t`
/// with allocator `alloc`, to `new_end`: a framed segment whose frames are its
/// own; the pages it gives up mapped, those it takes unmapped, with no frame,
/// inside the space of the table, and frames for all of them or none.
pub open spec fn end_adjustable(s0: Segment, t0: PageTable, a0: StackFrameAllocator, new_end: usize) -> bool {
    &&& s0.map_type == MapType::Framed
    &&& table_ok(t0, a0)
    &&& frames_owned(s0, t0, a0)
    &&& new_end < s0.end.0 ==> {
        &&& s0.end.0 <= vpn_space()
        &&& forall|v: usize| new_end <= v < s0.end.0 ==> #[trigger] t0.mapped(v) is Some
    }
    &&& new_end > s0.end.0 ==> {
        &&& new_end <= vpn_space()
        &&& spare_frames(a0) == 0 || spare_frames(a0) >= (new_end - s0.end.0) * 3
        &&& forall|v: usize| s0.end.0 <= v < new_end ==> #[trigger] t0.mapped(v) is None
        &&& forall|v: usize| s0.end.0 <= v < new_end ==> !#[trigger] s0.frames@.contains_key(v)
    }
}

/// What `Segment::adjust_end` does, moving the end of the segment from `s0` to
/// `s1`, the table from `t0` to `t1`, the allocator from `a0` to `a1`, with
/// result `r`.
pub open spec fn end_adjusted(
    s0: Segment,
    s1: Segment,
    t0: PageTable,
    t1: PageTable,
    a0: StackFrameAllocator,
    a1: StackFrameAllocator,
    new_end: usize,
    r: Option<()>,
) -> bool {
    &&& table_ok(t1, a1)
    &&& frames_owned(s1, t1, a1)
    &&& t1.root() == t0.root()
    &&& s1.start == s0.start
    &&& s1.end.0 == new_end
    &&& s1.map_type == s0.map_type
    &&& s1.seg_flags == s0.seg_flags
    &&& s1.vma_flags == s0.vma_flags
    &&& s1.file == s0.file
    &&& s1.offset == s0.offset
    &&& s1.head_offset == s0.head_offset
    &&& new_end == s0.end.0 ==> {
        &&& r is Some
        &&& s1.frames@ == s0.frames@
        &&& t1 == t0
        &&& a1 == a0
    }
    &&& new_end < s0.end.0 ==> {
        &&& r is Some
        &&& t1.frame_set() == t0.frame_set()
        &&& a0.free_pages().subset_of(a1.free_pages())
        &&& forall|v: usize|
            #[trigger] t1.leaf(v) == if new_end <= v % 0x800_0000 < s0.end.0 {
                Some(PageTableEntry { bits: 0 })
            } else {
                t0.leaf(v)
            }
        &&& forall|k: usize|
            #[trigger] s1.frames@.contains_key(k) <==> s0.frames@.contains_key(k) && !(
            new_end <= k < s0.end.0)
        &&& forall|k: usize|
            #[trigger] s1.frames@.contains_key(k) ==> s1.frames@[k] == s0.frames@[k]
    }
    &&& new_end > s0.end.0 && (spare_frames(a0) == 0 || s0.start.0 > s0.end.0) ==> {
        &&& r is None
        &&& s1.frames@ == s0.frames@
        &&& t1 == t0
        &&& a1.free_pages() == a0.free_pages()
    }
    &&& new_end > s0.end.0 && !(spare_frames(a0) == 0 || s0.start.0 > s0.end.0) ==> {
        &&& r is Some
        &&& a1.free_pages().subset_of(a0.free_pages())
        &&& forall|k: usize|
            #[trigger] s1.frames@.contains_key(k) <==> s0.frames@.contains_key(k) || (
            s0.end.0 <= k < new_end)
        &&& forall|k: usize|
            #[trigger] s0.frames@.contains_key(k) ==> s1.frames@[k] == s0.frames@[k]
        &&& forall|k: usize|
            s0.end.0 <= k < new_end ==> a0.free_pages().contains(
                #[trigger] s1.frames@[k].0,
            )
        &&& forall|v: usize|
            #[trigger] t1.mapped(v) == if s0.end.0 <= v % 0x800_0000 < new_end {
                Some(mapped_entry(s1.frames@[(v % 0x800_0000) as usize].0, s0.seg_flags.bits))
            } else {
                t0.mapped(v)
            }
    }
}

impl Segment {
    /// Unmaps the pages `[from, self.end)` of a framed segment, in order (see
    /// `unmap_page`).
    fn unmap_tail(&mut self, pt: &mut PageTable, from: usize, alloc: &mut StackFrameAllocator)
        requires
            old(self).map_type == MapType::Framed,
            table_ok(*old(pt), *old(alloc)),
            frames_owned(*old(self), *old(pt), *old(alloc)),
            old(self).end.0 <= vpn_space(),
            forall|v: usize| from <= v < old(self).end.0 ==> #[trigger] old(pt).mapped(v) is Some,
        ensures
            table_ok(*final(pt), *final(alloc)),
            frames_owned(*final(self), *final(pt), *final(alloc)),
            final(pt).root() == old(pt).root(),
            final(pt).frame_set() == old(pt).frame_set(),
            final(self).start == old(self).start,
            final(self).end == old(self).end,
            final(self).map_type == old(self).map_type,
            final(self).seg_flags == old(self).seg_flags,
            final(self).vma_flags == old(self).vma_flags,
            final(self).file == old(self).file,
            final(self).offset == old(self).offset,
            final(self).head_offset == old(self).head_offset,
            old(alloc).free_pages().subset_of(final(alloc).free_pages()),
            forall|v: usize|
                #[trigger] final(pt).leaf(v) == if from <= v % 0x800_0000 < old(self).end.0 {
                    Some(PageTableEntry { bits: 0 })
                } else {
                    old(pt).leaf(v)
                },
            forall|k: usize|
                #[trigger] final(self).frames@.contains_key(k) <==> old(self).frames@.contains_key(k) && !(from
                    <= k < old(self).end.0),
            forall|k: usize|
                #[trigger] final(self).frames@.contains_key(k) ==> final(self).frames@[k] == old(self).frames@[k],
    {
        let mut i = from;
        if i >= self.end.0 {
            proof {
                assert forall|k: usize|
                    #[trigger] self.frames@.contains_key(k) <==> old(self).frames@.contains_key(k) && !(from
                        <= k < old(self).end.0) by {}
            }
            return;
        }
        while i < self.end.0
            invariant
                self.start == old(self).start,
                self.end == old(self).end,
                self.map_type == old(self).map_type,
                self.seg_flags == old(self).seg_flags,
                self.vma_flags == old(self).vma_flags,
                self.file == old(self).file,
                self.offset == old(self).offset,
                self.head_offset == old(self).head_offset,
                from <= i <= self.end.0,
                self.end.0 <= vpn_space(),
                self.map_type == MapType::Framed,
                forall|v: usize| from <= v < self.end.0 ==> #[trigger] old(pt).mapped(v) is Some,
                table_ok(*pt, *alloc),
                frames_owned(*self, *pt, *alloc),
                pt.root() == old(pt).root(),
                pt.frame_set() == old(pt).frame_set(),
                old(alloc).free_pages().subset_of(alloc.free_pages()),
                forall|v: usize|
                    #[trigger] pt.leaf(v) == if from <= v % 0x800_0000 < i {
                        Some(PageTableEntry { bits: 0 })
                    } else {
                        old(pt).leaf(v)
                    },
                forall|k: usize|
                    #[trigger] self.frames@.contains_key(k) <==> old(self).frames@.contains_key(k) && !(from
                        <= k < i),
                forall|k: usize|
                    #[trigger] self.frames@.contains_key(k) ==> self.frames@[k] == old(self).frames@[k],
            decreases self.end.0 - i,
        {
            let ghost pt0 = *pt;
            let ghost f0 = self.frames@;
            proof {
                lemma_same_slot_low(i, i);
                assert(pt0.leaf(i) == old(pt).leaf(i));
                assert(pt0.mapped(i) == old(pt).mapped(i));
            }
            self.unmap_page(pt, VirtPageNum(i), alloc);
            proof {
                assert forall|v: usize|
                    #[trigger] pt.leaf(v) == if from <= v % 0x800_0000 < i + 1 {
                        Some(PageTableEntry { bits: 0 })
                    } else {
                        old(pt).leaf(v)
                    } by {
                    lemma_same_slot_low(v, i);
                }
                assert forall|k: usize|
                    #[trigger] self.frames@.contains_key(k) <==> old(self).frames@.contains_key(k) && !(from
                        <= k < i + 1) by {
                    if k != i {
                        assert(self.frames@.contains_key(k) == f0.contains_key(k));
                    }
                }
                assert forall|k: usize| #[trigger] self.frames@.contains_key(k) implies self.frames@[k]
                    == old(self).frames@[k] by {
                    assert(f0.contains_key(k));
                }
            }
            i = i + 1;
        }
    }

    /// Moves the end of a framed segment to `new_end`: the pages past a lower
    /// end are unmapped and their frames go back to `alloc`; the pages up to a
    /// higher end are mapped to frames taken from it (see `map_page`). When the
    /// first of those cannot be mapped (no frame left, or a page below the
    /// segment's start) nothing is mapped and `None` comes back, the end moved
    /// all the same.
    #[verifier::rlimit(40)]
    pub fn adjust_end(&mut self, pt: &mut PageTable, new_end: VirtPageNum, alloc: &mut StackFrameAllocator) -> (r:
        Option<()>)
        requires
            end_adjustable(*old(self), *old(pt), *old(alloc), new_end.0),
        ensures
            end_adjusted(*old(self), *final(self), *old(pt), *final(pt), *old(alloc), *final(alloc), new_end.0, r),
    {
        if new_end.0 < self.end.0 {
            self.unmap_tail(pt, new_end.0, alloc);
            self.end = new_end;
            proof {
                assert(frames_owned(*self, *pt, *alloc));
            }
            return Some(());
        }
        if new_end.0 == self.end.0 {
            return Some(());
        }
        let prev_end = self.end.0;
        self.end = new_end;
        let ghost a0 = *alloc;
        let ghost ok = !(spare_frames(*old(alloc)) == 0 || old(self).start.0 > old(self).end.0);
        let mut i = prev_end;
        while i < new_end.0
            invariant
                self.start == old(self).start,
                self.end == new_end,
                self.map_type == MapType::Framed,
                self.seg_flags == old(self).seg_flags,
                self.vma_flags == old(self).vma_flags,
                self.file == old(self).file,
                self.offset == old(self).offset,
                self.head_offset == old(self).head_offset,
                prev_end == old(self).end.0,
                old(self).map_type == MapType::Framed,
                prev_end <= i <= new_end.0,
                new_end.0 <= vpn_space(),
                ok == !(spare_frames(*old(alloc)) == 0 || old(self).start.0 > old(self).end.0),
                i > prev_end ==> ok,
                i == prev_end ==> *pt == *old(pt) && *alloc == *old(alloc) && self.frames@ == old(self).frames@,
                spare_frames(*old(alloc)) == 0 || spare_frames(*old(alloc)) >= (new_end.0 - prev_end) * 3,
                table_ok(*pt, *alloc),
                frames_owned(*self, *pt, *alloc),
                pt.root() == old(pt).root(),
                alloc.free_pages().subset_of(old(alloc).free_pages()),
                ok ==> spare_frames(*alloc) >= (new_end.0 - i) * 3,
                forall|v: usize| i <= v < new_end.0 ==> #[trigger] pt.mapped(v) is None,
                forall|v: usize| i <= v < new_end.0 ==> !#[trigger] self.frames@.contains_key(v),
                forall|k: usize|
                    #[trigger] self.frames@.contains_key(k) <==> old(self).frames@.contains_key(k) || (prev_end
                        <= k < i),
                forall|k: usize|
                    prev_end <= k < i ==> old(alloc).free_pages().contains(#[trigger] self.frames@[k].0),
                forall|k: usize|
                    #[trigger] old(self).frames@.contains_key(k) ==> self.frames@[k] == old(self).frames@[k],
                forall|v: usize|
                    #[trigger] pt.mapped(v) == if prev_end <= v % 0x800_0000 < i {
                        Some(mapped_entry(self.frames@[(v % 0x800_0000) as usize].0, self.seg_flags.bits))
                    } else {
                        old(pt).mapped(v)
                    },
            decreases new_end.0 - i,
        {
            let ghost pt0 = *pt;
            let ghost f0 = self.frames@;
            let ghost a1 = *alloc;
            let res = self.map_page(pt, VirtPageNum(i), alloc);
            if res.is_err() {
                proof {
                    assert(i == prev_end);
                }
                let mut j = prev_end;
                while j < i
                    invariant
                        prev_end <= j <= i,
                        i == prev_end,
                        *pt == *old(pt),
                        self.frames@ == old(self).frames@,
                        alloc.free_pages() == old(alloc).free_pages(),
                        table_ok(*pt, *alloc),
                        frames_owned(*self, *pt, *alloc),
                        self.start == old(self).start,
                        self.end == new_end,
                        self.map_type == old(self).map_type,
                        self.seg_flags == old(self).seg_flags,
                        self.vma_flags == old(self).vma_flags,
                        self.file == old(self).file,
                        self.offset == old(self).offset,
                        self.head_offset == old(self).head_offset,
                    decreases i - j,
                {
                    self.unmap_page(pt, VirtPageNum(j), alloc);
                    j = j + 1;
                }
                return None;
            }
            proof {
                assert forall|v: usize|
                    #[trigger] pt.mapped(v) == if prev_end <= v % 0x800_0000 < i + 1 {
                        Some(mapped_entry(self.frames@[(v % 0x800_0000) as usize].0, self.seg_flags.bits))
                    } else {
                        old(pt).mapped(v)
                    } by {
                    lemma_same_slot_low(v, i);
                    assert(pt0.mapped(v) == if prev_end <= v % 0x800_0000 < i {
                        Some(mapped_entry(f0[(v % 0x800_0000) as usize].0, self.seg_flags.bits))
                    } else {
                        old(pt).mapped(v)
                    });
                }
                assert forall|k: usize| #[trigger] old(self).frames@.contains_key(k) implies self.frames@[k]
                    == old(self).frames@[k] by {
                    assert(f0.contains_key(k));
                    assert(k != i);
                }
                assert forall|v: usize| i + 1 <= v < new_end.0 implies #[trigger] pt.mapped(v) is None by {
                    lemma_same_slot_low(v, i);
                    assert(pt0.mapped(v) is None);
                }
            }
            i = i + 1;
        }
        Some(())
    }
}


/// `i` is the first segment of `segs` that ends at page `end`.
pub open spec fn is_first_end_at(segs: Seq<Segment>, end: usize, i: int) -> bool {
    &&& 0 <= i < segs.len()
    &&& segs[i].end.0 == end
    &&& forall|j: int| 0 <= j < i ==> (#[trigger] segs[j]).end.0 != end
}

/// The first segment of `segs` that ends at page `end`, if any.
pub open spec fn first_end_at(segs: Seq<Segment>, end: usize) -> Option<int> {
    if exists|i: int| is_first_end_at(segs, end, i) {
        Some(choose|i: int| is_first_end_at(segs, end, i))
    } else {
        None
    }
}

/// The first segment ending at a page is unique.
proof fn lemma_first_end_at(segs: Seq<Segment>, end: usize, i: int)
    requires
        is_first_end_at(segs, end, i),
    ensures
        first_end_at(segs, end) == Some(i),
{
    let j = choose|j: int| is_first_end_at(segs, end, j);
    assert(is_first_end_at(segs, end, j));
    if j < i {
        assert(segs[j].end.0 != end);
    }
    if i < j {
        assert(segs[i].end.0 != end);
    }
}

impl MemLayout {
    /// Moves the end of the first segment that ends at page `old_end` to
    /// `new_end` (see `Segment::adjust_end`); `None` when no segment ends there.
    pub fn alter_segment(&mut self, old_end: VirtPageNum, new_end: VirtPageNum, alloc: &mut StackFrameAllocator) -> (r:
        Option<()>)
        requires
            table_ok(old(self).table(), *old(alloc)),
            first_end_at(old(self).segs(), old_end.0) matches Some(i) ==> end_adjustable(
                old(self).segs()[i],
                old(self).table(),
                *old(alloc),
                new_end.0,
            ),
        ensures
            table_ok(final(self).table(), *final(alloc)),
            match first_end_at(old(self).segs(), old_end.0) {
                None => {
                    &&& r is None
                    &&& *final(self) == *old(self)
                    &&& *final(alloc) == *old(alloc)
                },
                Some(i) => {
                    &&& final(self).segs().len() == old(self).segs().len()
                    &&& forall|j: int|
                        0 <= j < old(self).segs().len() && j != i ==> #[trigger] final(self).segs()[j] == old(
                            self,
                        ).segs()[j]
                    &&& end_adjusted(
                        old(self).segs()[i],
                        final(self).segs()[i],
                        old(self).table(),
                        final(self).table(),
                        *old(alloc),
                        *final(alloc),
                        new_end.0,
                        r,
                    )
                },
            },
    {
        let mut idx: usize = 0;
        while idx < self.segments.len()
            invariant
                idx <= self.segments@.len(),
                *self == *old(self),
                *alloc == *old(alloc),
                table_ok(old(self).table(), *old(alloc)),
                first_end_at(old(self).segs(), old_end.0) matches Some(i) ==> end_adjustable(
                    old(self).segs()[i],
                    old(self).table(),
                    *old(alloc),
                    new_end.0,
                ),
                forall|j: int| 0 <= j < idx ==> (#[trigger] self.segments@[j]).end.0 != old_end.0,
            decreases self.segments@.len() - idx,
        {
            if self.segments[idx].end.0 == old_end.0 {
                proof {
                    lemma_first_end_at(self.segments@, old_end.0, idx as int);
                }
                let r = self.segments[idx].adjust_end(&mut self.pagetable, new_end, alloc);
                return r;
            }
            idx = idx + 1;
        }
        proof {
            if exists|i: int| is_first_end_at(self.segments@, old_end.0, i) {
                let i = choose|i: int| is_first_end_at(self.segments@, old_end.0, i);
                assert(self.segments@[i].end.0 != old_end.0);
            }
        }
        None
    }
}


/// Whether segment `seg` serves a fault on page `vpn` for an access with the
/// flags `access`: a file mapping that holds the page and allows one of the
/// accesses.
pub open spec fn serves_fault(seg: Segment, vpn: usize, access: VMAFlags) -> bool {
    &&& seg.map_type == MapType::VMA
    &&& seg.holds(vpn)
    &&& access.bits & seg.vma_flags.bits != 0
}

/// `i` is the first segment of `segs` that serves a fault on page `vpn` for
/// the access `access`.
pub open spec fn is_first_server(segs: Seq<Segment>, vpn: usize, access: VMAFlags, i: int) -> bool {
    &&& 0 <= i < segs.len()
    &&& serves_fault(segs[i], vpn, access)
    &&& forall|j: int| 0 <= j < i ==> !serves_fault(#[trigger] segs[j], vpn, access)
}

/// The first segment of `segs` that serves a fault on page `vpn` for the
/// access `access`, if any.
pub open spec fn first_server(segs: Seq<Segment>, vpn: usize, access: VMAFlags) -> Option<int> {
    if exists|i: int| is_first_server(segs, vpn, access, i) {
        Some(choose|i: int| is_first_server(segs, vpn, access, i))
    } else {
        None
    }
}

/// The first segment serving a fault is unique.
proof fn lemma_first_server(segs: Seq<Segment>, vpn: usize, access: VMAFlags, i: int)
    requires
        is_first_server(segs, vpn, access, i),
    ensures
        first_server(segs, vpn, access) == Some(i),
{
    let j = choose|j: int| is_first_server(segs, vpn, access, j);
    assert(is_first_server(segs, vpn, access, j));
    if j < i {
        assert(!serves_fault(segs[j], vpn, access));
    }
    if i < j {
        assert(!serves_fault(segs[i], vpn, access));
    }
}

/// What mapping a page of segment `seg` to the frame `frame` in table `t` with
/// allocator `alloc` needs: the page unmapped, the frame its own, and two frames
/// for the walk.
pub open spec fn lazy_mappable(seg: Segment, t: PageTable, alloc: StackFrameAllocator, vpn: usize, frame: PhysPageNum) -> bool {
    &&& frames_owned(seg, t, alloc)
    &&& t.mapped(vpn) is None
    &&& spare_frames(alloc) >= 2
    &&& !t.frame_set().contains(frame.0)
    &&& !alloc.free_pages().contains(frame.0)
    &&& forall|k: usize| #[trigger] seg.frames@.contains_key(k) ==> seg.frames@[k] != frame
}

/// What `Segment::map_lazy_vma` does when the page `vpn` lies in the segment:
/// the frame `frame` is recorded for the page and the page mapped to it with
/// the flags of the file mapping and `U`, from the segment `s0` to `s1` and the
/// table `t0` to `t1`.
pub open spec fn lazy_mapped(s0: Segment, s1: Segment, t0: PageTable, t1: PageTable, vpn: usize, frame: PhysPageNum) -> bool {
    &&& s1.frames@ == s0.frames@.insert(vpn, frame)
    &&& forall|v: usize|
        #[trigger] t1.mapped(v) == if same_slot(v, vpn) {
            Some(mapped_entry(frame.0, (s0.vma_flags.bits | 16u8) as u8))
        } else {
            t0.mapped(v)
        }
}

impl Segment {
    /// Where in the file the page of `va` is read from when first touched: the
    /// distance of `va` from the segment's first byte, less the segment's offset
    /// in the file, down to a page boundary.
    pub fn lazy_file_offset(&self, va: VirtAddr) -> (r: usize)
        requires
            self.start.0 * 4096 + self.offset <= va.0,
        ensures
            r == (va.0 - self.start.0 * 4096 - self.offset) / 4096 * 4096,
    {
        let d = va.0 - self.start.0 * PAGE_SIZE - self.offset;
        d - d % PAGE_SIZE
    }

    /// Maps the page of `va`, first touched, to the frame `frame`, which the
    /// caller has filled from the file (see `lazy_file_offset`): records the
    /// frame and maps the page with the flags of the file mapping and `U`. An
    /// error for a page outside the segment.
    pub fn map_lazy_vma(&mut self, pt: &mut PageTable, va: VirtAddr, frame: PhysPageNum, alloc: &mut StackFrameAllocator) -> (r:
        Result<(), &'static str>)
        requires
            table_ok(*old(pt), *old(alloc)),
            old(self).holds(va.0 / 4096) ==> lazy_mappable(*old(self), *old(pt), *old(alloc), va.0 / 4096, frame),
        ensures
            table_ok(*final(pt), *final(alloc)),
            final(pt).root() == old(pt).root(),
            final(self).start == old(self).start,
            final(self).end == old(self).end,
            final(self).map_type == old(self).map_type,
            final(self).seg_flags == old(self).seg_flags,
            final(self).vma_flags == old(self).vma_flags,
            final(self).file == old(self).file,
            final(self).offset == old(self).offset,
            final(self).head_offset == old(self).head_offset,
            final(alloc).free_pages().subset_of(old(alloc).free_pages()),
            !old(self).holds(va.0 / 4096) ==> {
                &&& err_of(r) == Some("Trying to map a page that is not in this Segment."@)
                &&& final(self).frames@ == old(self).frames@
                &&& *final(pt) == *old(pt)
                &&& *final(alloc) == *old(alloc)
            },
            old(self).holds(va.0 / 4096) ==> {
                &&& r is Ok
                &&& frames_owned(*final(self), *final(pt), *final(alloc))
                &&& lazy_mapped(*old(self), *final(self), *old(pt), *final(pt), va.0 / 4096, frame)
            },
    {
        let vpn = va.to_vpn();
        if vpn.0 < self.start.0 || vpn.0 >= self.end.0 {
            proof {
                reveal_strlit("Trying to map a page that is not in this Segment.");
            }
            return Err("Trying to map a page that is not in this Segment.");
        }
        let ghost f0 = self.frames@;
        let ghost a0 = *alloc;
        self.frames.insert(vpn.0, frame);
        let flags = PTEFlags::from_bits(self.vma_flags.bits).unwrap().union(PTEFlags::U());
        pt.map(vpn, frame, flags, alloc);
        proof {
            assert forall|k: usize| #[trigger] self.frames@.contains_key(k) implies !pt.frame_set().contains(
                self.frames@[k].0,
            ) && !alloc.free_pages().contains(self.frames@[k].0) by {
                if k != vpn.0 {
                    assert(f0.contains_key(k));
                    assert(!a0.free_pages().contains(f0[k].0));
                }
            }
            assert forall|k: usize, m: usize|
                #[trigger] self.frames@.contains_key(k) && #[trigger] self.frames@.contains_key(m) && k != m
                    implies self.frames@[k] != self.frames@[m] by {
                if k != vpn.0 && m != vpn.0 {
                    assert(f0.contains_key(k) && f0.contains_key(m));
                } else if k == vpn.0 {
                    assert(f0.contains_key(m));
                } else {
                    assert(f0.contains_key(k));
                }
            }
        }
        Ok(())
    }
}

impl MemLayout {
    /// The segment that serves a fault at `address` for the access
    /// `access_flag`: the first file mapping that holds its page and allows one
    /// of the accesses; "No such vma segment!" when there is none.
    pub fn lazy_vma_at(&self, address: VirtAddr, access_flag: VMAFlags) -> (r: Result<usize, &'static str>)
        ensures
            r matches Ok(i) ==> is_first_server(self.segs(), address.0 / 4096, access_flag, i as int),
            match first_server(self.segs(), address.0 / 4096, access_flag) {
                None => err_of(r) == Some("No such vma segment!"@),
                Some(i) => r == Ok::<usize, &'static str>(i as usize),
            },
    {
        let vpn = address.to_vpn();
        let mut idx: usize = 0;
        while idx < self.segments.len()
            invariant
                idx <= self.segments@.len(),
                vpn.0 == address.0 / 4096,
                forall|j: int| 0 <= j < idx ==> !serves_fault(#[trigger] self.segments@[j], vpn.0, access_flag),
            decreases self.segments@.len() - idx,
        {
            let seg = &self.segments[idx];
            if seg.map_type == MapType::VMA && seg.start.0 <= vpn.0 && vpn.0 < seg.end.0 {
                if access_flag.bits & seg.vma_flags.bits != 0 {
                    proof {
                        lemma_first_server(self.segments@, vpn.0, access_flag, idx as int);
                    }
                    return Ok(idx);
                }
            }
            idx = idx + 1;
        }
        proof {
            reveal_strlit("No such vma segment!");
            if exists|i: int| is_first_server(self.segments@, vpn.0, access_flag, i) {
                let i = choose|i: int| is_first_server(self.segments@, vpn.0, access_flag, i);
                assert(!serves_fault(self.segments@[i], vpn.0, access_flag));
            }
        }
        Err("No such vma segment!")
    }

    /// Serves a fault at `address` for the access `access_flag`: maps its page
    /// in the segment found by `lazy_vma_at` (see `Segment::map_lazy_vma`) to
    /// `frame`, which the caller has filled from the segment's file.
    pub fn lazy_copy_vma(&mut self, address: VirtAddr, access_flag: VMAFlags, frame: PhysPageNum, alloc: &mut StackFrameAllocator) -> (r:
        Result<(), &'static str>)
        requires
            table_ok(old(self).table(), *old(alloc)),
            first_server(old(self).segs(), address.0 / 4096, access_flag) matches Some(i) ==> lazy_mappable(
                old(self).segs()[i],
                old(self).table(),
                *old(alloc),
                address.0 / 4096,
                frame,
            ),
        ensures
            table_ok(final(self).table(), *final(alloc)),
            final(self).table().root() == old(self).table().root(),
            match first_server(old(self).segs(), address.0 / 4096, access_flag) {
                None => {
                    &&& err_of(r) == Some("No such vma segment!"@)
                    &&& *final(self) == *old(self)
                    &&& *final(alloc) == *old(alloc)
                },
                Some(i) => {
                    &&& r is Ok
                    &&& final(self).segs().len() == old(self).segs().len()
                    &&& forall|j: int|
                        0 <= j < old(self).segs().len() && j != i ==> #[trigger] final(self).segs()[j] == old(
                            self,
                        ).segs()[j]
                    &&& final(self).segs()[i].start == old(self).segs()[i].start
                    &&& final(self).segs()[i].end == old(self).segs()[i].end
                    &&& final(self).segs()[i].map_type == old(self).segs()[i].map_type
                    &&& final(self).segs()[i].vma_flags == old(self).segs()[i].vma_flags
                    &&& final(self).segs()[i].file == old(self).segs()[i].file
                    &&& final(self).segs()[i].offset == old(self).segs()[i].offset
                    &&& frames_owned(final(self).segs()[i], final(self).table(), *final(alloc))
                    &&& final(alloc).free_pages().subset_of(old(alloc).free_pages())
                    &&& lazy_mapped(
                        old(self).segs()[i],
                        final(self).segs()[i],
                        old(self).table(),
                        final(self).table(),
                        address.0 / 4096,
                        frame,
                    )
                },
            },
    {
        let found = self.lazy_vma_at(address, access_flag);
        let i = match found {
            Ok(i) => i,
            Err(e) => {
                return Err(e);
            },
        };
        proof {
            lemma_first_server(self.segments@, address.0 / 4096, access_flag, i as int);
        }
        self.segments[i].map_lazy_vma(&mut self.pagetable, address, frame, alloc)
    }
}


/// A segment that serves a fault makes the first one that does exist, at or
/// before it.
proof fn lemma_first_server_exists(segs: Seq<Segment>, vpn: usize, access: VMAFlags, j: int)
    requires
        0 <= j < segs.len(),
        serves_fault(segs[j], vpn, access),
    ensures
        first_server(segs, vpn, access) matches Some(k) && k <= j,
    decreases j,
{
    if exists|m: int| 0 <= m < j && serves_fault(#[trigger] segs[m], vpn, access) {
        let m = choose|m: int| 0 <= m < j && serves_fault(#[trigger] segs[m], vpn, access);
        lemma_first_server_exists(segs, vpn, access, m);
    } else {
        assert(is_first_server(segs, vpn, access, j));
        lemma_first_server(segs, vpn, access, j);
    }
}

/// Once a file mapping is added (see `MemLayout::add_vma`), a fault on any of
/// its pages, for an access its flags allow, is served by a file mapping: the
/// page is filled when first touched.
pub proof fn lemma_added_vma_serves_faults(
    s0: Seq<Segment>,
    s1: Seq<Segment>,
    file: u64,
    file_size: usize,
    start: usize,
    flag: VMAFlags,
    offset: usize,
    length: usize,
    address: usize,
    access: VMAFlags,
)
    requires
        vma_added(s0, s1, None, file, file_size, start, flag, offset, length),
        start / 4096 <= address / 4096 < vma_stop(start, file_size, length),
        access.bits & flag.bits != 0,
    ensures
        first_server(s1, address / 4096, access) is Some,
{
    let a = start / 4096;
    let b = vma_stop(start, file_size, length);
    assert(!vma_clash(s0, a as int, b));
    let j = s1.len() - 1;
    assert(serves_fault(s1[j], address / 4096, access));
    lemma_first_server_exists(s1, address / 4096, access, j);
}


/// The pages `[start / 4096, ceil(end / 4096))` that `Segment::new` gives the
/// addresses `[start, end)` of section `sec` (start, end, flags).
pub open spec fn sec_pages(sec: (usize, usize, u8)) -> (int, int) {
    ((sec.0 / 4096) as int, (sec.1 - 1) / 4096 + 1)
}

/// The flags of the last section of `secs` whose pages hold page `u`.
pub open spec fn cover(secs: Seq<(usize, usize, u8)>, u: int) -> Option<u8>
    decreases secs.len(),
{
    if secs.len() == 0 {
        None
    } else if sec_pages(secs.last()).0 <= u < sec_pages(secs.last()).1 {
        Some(secs.last().2)
    } else {
        cover(secs.drop_last(), u)
    }
}

/// The pages of the table that mapping the sections `secs` may take: two per
/// page.
pub open spec fn sections_pages(secs: Seq<(usize, usize, u8)>) -> int
    decreases secs.len(),
{
    if secs.len() == 0 {
        0
    } else {
        let (a, b) = sec_pages(secs[0]);
        (if b <= a {
            0
        } else {
            (b - a) * 2
        }) + sections_pages(secs.drop_first())
    }
}

/// The slot of the page table that the trampoline's page selects.
pub open spec fn trampoline_slot() -> int {
    ((TRAMPOLINE / 4096) % 0x800_0000) as int
}

/// The sections of the kernel's layout, as (start, end, flags): `.text` and
/// `.rodata` readable and executable, `.data` readable, `.bss` and the rest of
/// physical memory up to `MEM_END` readable and writable, then each device
/// region of `mmio` (start, length), readable and writable.
pub open spec fn kernel_sections(
    text: (usize, usize),
    rodata: (usize, usize),
    data: (usize, usize),
    bss: (usize, usize),
    ekernel: usize,
    mmio: Seq<(usize, usize)>,
) -> Seq<(usize, usize, u8)> {
    Seq::new(
        5 + mmio.len(),
        |i: int|
            if i == 0 {
                (text.0, text.1, 10u8)
            } else if i == 1 {
                (rodata.0, rodata.1, 10u8)
            } else if i == 2 {
                (data.0, data.1, 2u8)
            } else if i == 3 {
                (bss.0, bss.1, 6u8)
            } else if i == 4 {
                (ekernel, MEM_END, 6u8)
            } else {
                (mmio[i - 5].0, (mmio[i - 5].0 + mmio[i - 5].1) as usize, 6u8)
            },
    )
}

/// Sections that can be identity-mapped one after the other: each ends above
/// address zero and below the trampoline's slot, and no two share a page.
pub open spec fn sections_ok(secs: Seq<(usize, usize, u8)>) -> bool {
    &&& forall|i: int| 0 <= i < secs.len() ==> (#[trigger] secs[i]).1 > 0 && sec_pages(secs[i]).1 <= trampoline_slot()
    &&& forall|i: int, j: int|
        0 <= i < j < secs.len() ==> sec_pages(#[trigger] secs[i]).1 <= sec_pages(secs[j]).0 || sec_pages(
            #[trigger] secs[j],
        ).1 <= sec_pages(secs[i]).0
}

/// A page of section `k` lies in none of the sections before it.
proof fn lemma_cover_before(secs: Seq<(usize, usize, u8)>, k: int, n: int, u: int)
    requires
        sections_ok(secs),
        0 <= n <= k < secs.len(),
        sec_pages(secs[k]).0 <= u < sec_pages(secs[k]).1,
    ensures
        cover(secs.take(n), u) is None,
    decreases n,
{
    if n > 0 {
        let t = secs.take(n);
        assert(t.last() == secs[n - 1]);
        assert(t.drop_last() =~= secs.take(n - 1));
        lemma_cover_before(secs, k, n - 1, u);
    }
}

/// The pages of the sections from `k` on: those of section `k` and those after.
proof fn lemma_sections_pages_step(secs: Seq<(usize, usize, u8)>, k: int)
    requires
        0 <= k < secs.len(),
    ensures
        sections_pages(secs.subrange(k, secs.len() as int)) == (if sec_pages(secs[k]).1 <= sec_pages(secs[k]).0 {
            0
        } else {
            (sec_pages(secs[k]).1 - sec_pages(secs[k]).0) * 2
        }) + sections_pages(secs.subrange(k + 1, secs.len() as int)),
        sections_pages(secs.subrange(k + 1, secs.len() as int)) >= 0,
{
    assert(secs.subrange(k, secs.len() as int).drop_first() =~= secs.subrange(k + 1, secs.len() as int));
    lemma_sections_pages_nonneg(secs.subrange(k + 1, secs.len() as int));
}

/// The pages of sections are never negative.
proof fn lemma_sections_pages_nonneg(secs: Seq<(usize, usize, u8)>)
    ensures
        sections_pages(secs) >= 0,
    decreases secs.len(),
{
    if secs.len() > 0 {
        lemma_sections_pages_nonneg(secs.drop_first());
    }
}

impl MemLayout {
    /// The kernel's layout: the trampoline's page mapped to the trampoline code
    /// at `strampoline`, readable and executable, then each section of
    /// `kernel_sections` (the linker's `.text`, `.rodata`, `.data` and `.bss`
    /// ranges, the rest of physical memory from `ekernel`, the device regions
    /// `mmio`) added as an identity-mapped segment, in that order.
    pub fn new_kernel(
        text: (usize, usize),
        rodata: (usize, usize),
        data: (usize, usize),
        bss: (usize, usize),
        ekernel: usize,
        mmio: &[(usize, usize)],
        strampoline: usize,
        alloc: &mut StackFrameAllocator,
    ) -> (r: MemLayout)
        requires
            old(alloc).wf(),
            frames_fit(*old(alloc)),
            forall|i: int| 0 <= i < mmio@.len() ==> mmio@[i].0 + mmio@[i].1 <= usize::MAX,
            sections_ok(kernel_sections(text, rodata, data, bss, ekernel, mmio@)),
            spare_frames(*old(alloc)) >= 3 + sections_pages(kernel_sections(text, rodata, data, bss, ekernel, mmio@)),
        ensures
            ({
                let secs = kernel_sections(text, rodata, data, bss, ekernel, mmio@);
                &&& table_ok(r.table(), *final(alloc))
                &&& r.segs().len() == secs.len()
                &&& forall|j: int|
                    0 <= j < secs.len() ==> {
                        &&& (#[trigger] r.segs()[j]).start.0 == sec_pages(secs[j]).0
                        &&& r.segs()[j].end.0 == sec_pages(secs[j]).1
                        &&& r.segs()[j].map_type == MapType::Identity
                        &&& r.segs()[j].seg_flags.bits == secs[j].2
                    }
                &&& forall|v: usize|
                    #[trigger] r.table().mapped(v) == match cover(secs, (v % 0x800_0000) as int) {
                        Some(f) => Some(mapped_entry((v % 0x800_0000) as usize, f)),
                        None => if same_slot(v, TRAMPOLINE / 4096) {
                            Some(mapped_entry(strampoline / 4096, 10))
                        } else {
                            None
                        },
                    }
            }),
    {
        let ghost secs_spec = kernel_sections(text, rodata, data, bss, ekernel, mmio@);
        let mut secs: Vec<(usize, usize, u8)> = Vec::new();
        secs.push((text.0, text.1, 10u8));
        secs.push((rodata.0, rodata.1, 10u8));
        secs.push((data.0, data.1, 2u8));
        secs.push((bss.0, bss.1, 6u8));
        secs.push((ekernel, MEM_END, 6u8));
        let mut i: usize = 0;
        while i < mmio.len()
            invariant
                i <= mmio@.len(),
                secs_spec == kernel_sections(text, rodata, data, bss, ekernel, mmio@),
                forall|m: int| 0 <= m < mmio@.len() ==> mmio@[m].0 + mmio@[m].1 <= usize::MAX,
                secs@.len() == 5 + i,
                forall|j: int| 0 <= j < secs@.len() ==> #[trigger] secs@[j] == secs_spec[j],
            decreases mmio@.len() - i,
        {
            let (a, n) = mmio[i];
            secs.push((a, a + n, 6u8));
            i = i + 1;
        }
        proof {
            assert(secs@ =~= secs_spec);
            lemma_sections_pages_nonneg(secs@);
        }
        let mut layout = MemLayout::new(alloc);
        let tv = TRAMPOLINE / PAGE_SIZE;
        proof {
            assert forall|v: usize| layout.pagetable.mapped(v) is None by {
                assert(layout.table().leaf(v) is None);
            }
        }
        layout.pagetable.map(VirtPageNum(tv), PhysPageNum(strampoline / PAGE_SIZE), PTEFlags { bits: 10 }, alloc);
        proof {
            assert(secs@.subrange(0, secs@.len() as int) =~= secs@);
        }
        let mut k: usize = 0;
        while k < secs.len()
            invariant
                k <= secs@.len(),
                secs@ == secs_spec,
                sections_ok(secs_spec),
                tv == TRAMPOLINE / 4096,
                table_ok(layout.table(), *alloc),
                spare_frames(*alloc) >= sections_pages(secs@.subrange(k as int, secs@.len() as int)),
                layout.segs().len() == k,
                forall|j: int|
                    0 <= j < k ==> {
                        &&& (#[trigger] layout.segs()[j]).start.0 == sec_pages(secs@[j]).0
                        &&& layout.segs()[j].end.0 == sec_pages(secs@[j]).1
                        &&& layout.segs()[j].map_type == MapType::Identity
                        &&& layout.segs()[j].seg_flags.bits == secs@[j].2
                    },
                forall|v: usize|
                    #[trigger] layout.table().mapped(v) == match cover(secs@.take(k as int), (v % 0x800_0000) as int) {
                        Some(f) => Some(mapped_entry((v % 0x800_0000) as usize, f)),
                        None => if same_slot(v, tv) {
                            Some(mapped_entry(strampoline / 4096, 10))
                        } else {
                            None
                        },
                    },
            decreases secs@.len() - k,
        {
            let (a, b, f) = secs[k];
            let seg = Segment::new(
                VirtAddr(a),
                VirtAddr(b),
                MapType::Identity,
                SegmentFlags { bits: f },
                VMAFlags { bits: 0 },
                None,
                0,
            );
            let ghost l0 = layout;
            proof {
                lemma_sections_pages_step(secs@, k as int);
                assert(sec_pages(secs@[k as int]) == (seg.start.0 as int, seg.end.0 as int));
                assert forall|v: usize| seg.holds(v) implies #[trigger] layout.table().mapped(v) is None by {
                    lemma_cover_before(secs@, k as int, k as int, v as int);
                    lemma_same_slot_low(tv, v);
                    assert(v % 0x800_0000 == v);
                }
            }
            layout.add_segment(seg, alloc);
            proof {
                let t1 = secs@.take(k + 1);
                assert(t1.last() == secs@[k as int]);
                assert(t1.drop_last() =~= secs@.take(k as int));
                assert forall|j: int| 0 <= j < k + 1 implies {
                    &&& (#[trigger] layout.segs()[j]).start.0 == sec_pages(secs@[j]).0
                    &&& layout.segs()[j].end.0 == sec_pages(secs@[j]).1
                    &&& layout.segs()[j].map_type == MapType::Identity
                    &&& layout.segs()[j].seg_flags.bits == secs@[j].2
                } by {
                    if j < k {
                        assert(layout.segs()[j] == layout.segs().drop_last()[j]);
                    }
                }
            }
            k = k + 1;
        }
        proof {
            assert(secs@.take(secs@.len() as int) =~= secs@);
        }
        layout
    }
}


/// A program header of an ELF file, as its loader reads it: whether it is
/// loaded, where it goes, how much memory it takes, where its bytes are in the
/// file, and its flags (`PF_X` 1, `PF_W` 2, `PF_R` 4).
#[derive(Clone, Copy, PartialEq, Eq, Structural, Debug)]
pub struct ProgramHeader {
    pub load: bool,
    pub vaddr: usize,
    pub mem_size: usize,
    pub offset: usize,
    pub file_size: usize,
    pub flags: u32,
}

/// The kinds of entries of the auxiliary vector handed to a new program.
#[allow(non_camel_case_types)]
#[derive(Clone, Copy, PartialEq, Eq, Structural, Debug)]
pub enum AuxType {
    SYSINFO_EHDR,
    NULL28,
    NULL29,
    NULL2a,
    NULL2b,
    NULL2c,
    NULL2d,
    HWCAP,
    PAGESZ,
    CLKTCK,
    PHDR,
    PHENT,
    PHNUM,
    BASE,
    FLAGS,
    ENTRY,
    UID,
    EUID,
    GID,
    EGID,
    SECURE,
}

/// An entry of the auxiliary vector.
#[derive(Clone, Copy, PartialEq, Eq, Structural, Debug)]
pub struct AuxHeader {
    pub aux_type: AuxType,
    pub value: usize,
}

/// The flags of the segment of a loaded program header with the ELF flags `f`:
/// `U`, with `R`, `W` and `X` as the header allows.
pub open spec fn elf_seg_flags(f: u32) -> u8 {
    (16u8 | (if f & 4 != 0 {
        2u8
    } else {
        0u8
    }) | (if f & 2 != 0 {
        4u8
    } else {
        0u8
    }) | (if f & 1 != 0 {
        8u8
    } else {
        0u8
    })) as u8
}

/// The loaded headers of `hs`, in order.
pub open spec fn loads(hs: Seq<ProgramHeader>) -> Seq<ProgramHeader>
    decreases hs.len(),
{
    if hs.len() == 0 {
        Seq::empty()
    } else if hs.last().load {
        loads(hs.drop_last()).push(hs.last())
    } else {
        loads(hs.drop_last())
    }
}

/// The highest end of a loaded header of `hs`, zero when there is none.
pub open spec fn data_top(hs: Seq<ProgramHeader>) -> int
    decreases hs.len(),
{
    if hs.len() == 0 {
        0
    } else {
        let t = data_top(hs.drop_last());
        let h = hs.last();
        if h.load && t < h.vaddr + h.mem_size {
            h.vaddr + h.mem_size
        } else {
            t
        }
    }
}

/// The pages of the memory of header `h`.
pub open spec fn header_pages(h: ProgramHeader) -> (int, int) {
    ((h.vaddr / 4096) as int, (h.vaddr + h.mem_size - 1) / 4096 + 1)
}

/// The pages of the table and the frames that mapping the loaded headers of
/// `hs` may take: three per page.
pub open spec fn load_pages(hs: Seq<ProgramHeader>) -> int
    decreases hs.len(),
{
    if hs.len() == 0 {
        0
    } else {
        let (a, b) = header_pages(hs[0]);
        (if hs[0].load && a < b {
            (b - a) * 3
        } else {
            0
        }) + load_pages(hs.drop_first())
    }
}

/// The first page of the user stack.
pub open spec fn user_stack_low() -> int {
    (TRAP_CONTEXT - 4096 - USER_STACK_SIZE) as int
}

/// Headers whose loaded ones can be mapped one after the other, below the
/// user stack's slots: each ends above address zero within the address space,
/// and no two share a page.
pub open spec fn headers_ok(hs: Seq<ProgramHeader>) -> bool {
    let ls = loads(hs);
    &&& forall|i: int|
        0 <= i < ls.len() ==> (#[trigger] ls[i]).vaddr + ls[i].mem_size <= usize::MAX && ls[i].vaddr
            + ls[i].mem_size > 0 && header_pages(ls[i]).1 <= (TRAMPOLINE / 4096) % 0x800_0000 - 34
    &&& forall|i: int, j: int|
        0 <= i < j < ls.len() ==> header_pages(#[trigger] ls[i]).1 <= header_pages(ls[j]).0 || header_pages(
            #[trigger] ls[j],
        ).1 <= header_pages(ls[i]).0
}

/// The auxiliary vector of a program whose headers are `hs`, the first at
/// `ph_offset` bytes into its file, each `ph_entry_size` bytes long, entered at
/// `entry`.
pub open spec fn aux_of(hs: Seq<ProgramHeader>, ph_offset: usize, ph_entry_size: usize, entry: usize) -> Seq<
    AuxHeader,
> {
    seq![
        AuxHeader { aux_type: AuxType::SYSINFO_EHDR, value: 0 },
        AuxHeader { aux_type: AuxType::NULL28, value: 0 },
        AuxHeader { aux_type: AuxType::NULL29, value: 0 },
        AuxHeader { aux_type: AuxType::NULL2a, value: 0 },
        AuxHeader { aux_type: AuxType::NULL2b, value: 0 },
        AuxHeader { aux_type: AuxType::NULL2c, value: 0 },
        AuxHeader { aux_type: AuxType::NULL2d, value: 0 },
        AuxHeader { aux_type: AuxType::HWCAP, value: 0 },
        AuxHeader { aux_type: AuxType::PAGESZ, value: 4096 },
        AuxHeader { aux_type: AuxType::CLKTCK, value: 100 },
        AuxHeader { aux_type: AuxType::PHDR, value: (hs[0].vaddr + ph_offset) as usize },
        AuxHeader { aux_type: AuxType::PHENT, value: ph_entry_size },
        AuxHeader { aux_type: AuxType::PHNUM, value: hs.len() as usize },
        AuxHeader { aux_type: AuxType::BASE, value: 0 },
        AuxHeader { aux_type: AuxType::FLAGS, value: 0 },
        AuxHeader { aux_type: AuxType::ENTRY, value: entry },
        AuxHeader { aux_type: AuxType::UID, value: 0 },
        AuxHeader { aux_type: AuxType::EUID, value: 0 },
        AuxHeader { aux_type: AuxType::GID, value: 0 },
        AuxHeader { aux_type: AuxType::EGID, value: 0 },
        AuxHeader { aux_type: AuxType::SECURE, value: 0 },
    ]
}

/// The auxiliary vector that `MemLayout::new_elf_from_headers` gives a program:
/// twenty-one entries, each type once, among them the page size (`PAGE_SIZE`,
/// the size of the pages the layout maps), the clock ticks per second (100),
/// the address of the program headers (the first header's address plus their
/// offset in the file), their size and number, and the entry point.
pub proof fn lemma_aux_entries(hs: Seq<ProgramHeader>, ph_offset: usize, ph_entry_size: usize, entry: usize)
    requires
        hs.len() > 0,
        hs[0].vaddr + ph_offset <= usize::MAX,
        hs.len() <= usize::MAX,
    ensures
        ({
            let aux = aux_of(hs, ph_offset, ph_entry_size, entry);
            &&& aux.len() == 21
            &&& forall|i: int, j: int|
                0 <= i < j < aux.len() ==> (#[trigger] aux[i]).aux_type != (#[trigger] aux[j]).aux_type
            &&& exists|i: int| 0 <= i < aux.len() && (#[trigger] aux[i]).aux_type == AuxType::PAGESZ
            &&& forall|i: int|
                0 <= i < aux.len() ==> {
                    let a = #[trigger] aux[i];
                    &&& a.aux_type == AuxType::PAGESZ ==> a.value == PAGE_SIZE
                    &&& a.aux_type == AuxType::CLKTCK ==> a.value == 100
                    &&& a.aux_type == AuxType::PHDR ==> a.value == hs[0].vaddr + ph_offset
                    &&& a.aux_type == AuxType::PHENT ==> a.value == ph_entry_size
                    &&& a.aux_type == AuxType::PHNUM ==> a.value == hs.len()
                    &&& a.aux_type == AuxType::ENTRY ==> a.value == entry
                }
        }),
{
    let aux = aux_of(hs, ph_offset, ph_entry_size, entry);
    assert(aux[8].aux_type == AuxType::PAGESZ);
}

/// The slots of the page table that the pages of segment `s` select.
pub open spec fn seg_slots(s: Segment) -> (int, int) {
    ((s.start.0 % 0x800_0000) as int, s.start.0 % 0x800_0000 + s.end.0 - s.start.0)
}

/// Whether a segment of `segs` maps page `v` (see `Segment::mapped_by`).
pub open spec fn covered(segs: Seq<Segment>, v: usize) -> bool
    decreases segs.len(),
{
    if segs.len() == 0 {
        false
    } else {
        segs.last().mapped_by(segs.last().frames@, v) is Some || covered(segs.drop_last(), v)
    }
}

/// A page whose slot lies in none of the slot ranges of `segs` is mapped by
/// none of them.
proof fn lemma_not_covered(segs: Seq<Segment>, v: usize)
    requires
        forall|j: int|
            0 <= j < segs.len() ==> !(seg_slots(#[trigger] segs[j]).0 <= v % 0x800_0000 < seg_slots(segs[j]).1),
    ensures
        !covered(segs, v),
    decreases segs.len(),
{
    if segs.len() > 0 {
        let l = segs.last();
        assert(l == segs[segs.len() - 1]);
        lemma_not_covered(segs.drop_last(), v);
    }
}

/// The pages of the loaded headers from `i` on: those of header `i` and those
/// after.
proof fn lemma_load_pages_step(hs: Seq<ProgramHeader>, i: int)
    requires
        0 <= i < hs.len(),
    ensures
        load_pages(hs.subrange(i, hs.len() as int)) == (if hs[i].load && header_pages(hs[i]).0 < header_pages(
            hs[i],
        ).1 {
            (header_pages(hs[i]).1 - header_pages(hs[i]).0) * 3
        } else {
            0
        }) + load_pages(hs.subrange(i + 1, hs.len() as int)),
        load_pages(hs.subrange(i + 1, hs.len() as int)) >= 0,
{
    assert(hs.subrange(i, hs.len() as int).drop_first() =~= hs.subrange(i + 1, hs.len() as int));
    lemma_load_pages_nonneg(hs.subrange(i + 1, hs.len() as int));
}

/// The pages of headers are never negative.
proof fn lemma_load_pages_nonneg(hs: Seq<ProgramHeader>)
    ensures
        load_pages(hs) >= 0,
    decreases hs.len(),
{
    if hs.len() > 0 {
        lemma_load_pages_nonneg(hs.drop_first());
    }
}

/// Where the pages at the top of a user layout fall: the trampoline's page
/// `tv`, the trap context one below, the guard page below it, and the 32 pages
/// of the user stack below that, all in one block of slots.
proof fn lemma_top_pages()
    ensures
        ({
            let tv = (TRAMPOLINE / 4096) as int;
            let t = tv % 0x800_0000;
            &&& t >= 64
            &&& TRAMPOLINE % 4096 == 0
            &&& TRAP_CONTEXT == TRAMPOLINE - 4096
            &&& TRAP_CONTEXT / 4096 == tv - 1
            &&& (TRAP_CONTEXT - 4096) / 4096 == tv - 2
            &&& user_stack_low() / 4096 == tv - 34
            &&& user_stack_low() % 4096 == 0
            &&& (TRAMPOLINE - 1) / 4096 + 1 == tv
            &&& (TRAP_CONTEXT - 1) / 4096 + 1 == tv - 1
            &&& (TRAP_CONTEXT - 4096 - 1) / 4096 + 1 == tv - 2
            &&& user_stack_low() == TRAP_CONTEXT - 4096 - USER_STACK_SIZE
            &&& TRAP_CONTEXT >= 4096 + USER_STACK_SIZE
            &&& (tv - 1) % 0x800_0000 == t - 1
            &&& (tv - 2) % 0x800_0000 == t - 2
            &&& (tv - 34) % 0x800_0000 == t - 34
            &&& block_of((tv - 34) as usize) == tv - t
            &&& block_of((tv - 2) as usize) == tv - t
            &&& block_of((tv - 1) as usize) == tv - t
            &&& block_of(tv as usize) == tv - t
        }),
{
    assert(usize::MAX == 0xffff_ffff || usize::MAX == 0xffff_ffff_ffff_ffff);
}


/// The mappings of a user layout `l` being built: every segment maps its pages
/// to its frames, a page is mapped only by a segment or as the trampoline's, and
/// the trampoline's page `tv` maps to the trampoline code at `tramp`.
pub open spec fn building(l: MemLayout, tv: usize, tramp: usize) -> bool {
    &&& forall|j: int, v: usize|
        #![trigger l.segs()[j].mapped_by(l.segs()[j].frames@, v)]
        0 <= j < l.segs().len() ==> (l.segs()[j].mapped_by(l.segs()[j].frames@, v) matches Some(e)
            ==> l.table().mapped(v) == Some(e))
    &&& forall|v: usize| #[trigger] l.table().mapped(v) is Some ==> covered(l.segs(), v) || same_slot(v, tv)
    &&& forall|v: usize| #[trigger] same_slot(v, tv) ==> l.table().mapped(v) == Some(mapped_entry(tramp / 4096, 10))
}

impl MemLayout {
    /// Adds a framed segment with no frame yet, whose slots no segment of the
    /// layout and not the trampoline's page select (see `add_segment`).
    #[verifier::spinoff_prover]
    #[verifier::rlimit(60)]
    fn push_fresh(&mut self, seg: Segment, alloc: &mut StackFrameAllocator, Ghost(tv): Ghost<usize>, Ghost(tramp): Ghost<usize>)
        requires
            table_ok(old(self).table(), *old(alloc)),
            building(*old(self), tv, tramp),
            seg.map_type == MapType::Framed,
            seg.frames@ == Map::<usize, PhysPageNum>::empty(),
            seg.end.0 <= block_of(seg.start.0) + vpn_space(),
            spare_frames(*old(alloc)) >= seg.pages_needed(),
            forall|j: int|
                0 <= j < old(self).segs().len() ==> seg_slots(#[trigger] old(self).segs()[j]).1 <= seg_slots(seg).0
                    || seg_slots(seg).1 <= seg_slots(old(self).segs()[j]).0,
            !(seg_slots(seg).0 <= tv % 0x800_0000 < seg_slots(seg).1),
        ensures
            table_ok(final(self).table(), *final(alloc)),
            final(self).table().root() == old(self).table().root(),
            spare_frames(*final(alloc)) >= spare_frames(*old(alloc)) - seg.pages_needed(),
            final(self).segs().len() == old(self).segs().len() + 1,
            final(self).segs().drop_last() == old(self).segs(),
            final(self).segs().last().start == seg.start,
            final(self).segs().last().end == seg.end,
            final(self).segs().last().map_type == seg.map_type,
            final(self).segs().last().seg_flags == seg.seg_flags,
            final(self).segs().last().head_offset == seg.head_offset,
            building(*final(self), tv, tramp),
    {
        let ghost s0 = self.segs();
        let ghost t0 = self.table();
        let ghost base = (seg.start.0 - seg.start.0 % 0x800_0000) as usize;
        let ghost tb = (tv - tv % 0x800_0000) as usize;
        proof {
            assert forall|v: usize| seg.holds(v) implies #[trigger] t0.mapped(v) is None by {
                lemma_same_slot_block(v, v, base);
                lemma_same_slot_block(v, tv, tb);
                assert forall|j: int| 0 <= j < s0.len() implies !(seg_slots(#[trigger] s0[j]).0 <= v % 0x800_0000
                    < seg_slots(s0[j]).1) by {}
                lemma_not_covered(s0, v);
            }
        }
        self.add_segment(seg, alloc);
        proof {
            let l = self.segs().last();
            assert(self.segs()[s0.len() as int] == l);
            assert forall|j: int, v: usize|
                #![trigger self.segs()[j].mapped_by(self.segs()[j].frames@, v)]
                0 <= j < self.segs().len() implies (self.segs()[j].mapped_by(self.segs()[j].frames@, v) matches Some(e)
                    ==> self.table().mapped(v) == Some(e)) by {
                if j < s0.len() {
                    assert(self.segs()[j] == s0[j]);
                    if s0[j].mapped_by(s0[j].frames@, v) is Some {
                        assert(t0.mapped(v) == s0[j].mapped_by(s0[j].frames@, v));
                    }
                }
            }
            assert forall|v: usize| #[trigger] self.table().mapped(v) is Some implies covered(self.segs(), v)
                || same_slot(v, tv) by {
                assert(self.segs().drop_last() == s0);
            }
            assert forall|v: usize| #[trigger] same_slot(v, tv) implies self.table().mapped(v) == Some(
                mapped_entry(tramp / 4096, 10),
            ) by {
                lemma_same_slot_block(v, tv, tb);
            }
        }
    }
}


/// The loaded headers of a prefix of `hs` come first among those of a longer
/// prefix.
proof fn lemma_loads_prefix(hs: Seq<ProgramHeader>, i: int, k: int)
    requires
        0 <= i <= k <= hs.len(),
    ensures
        loads(hs.take(i)).len() <= loads(hs.take(k)).len(),
        loads(hs.take(k)).take(loads(hs.take(i)).len() as int) == loads(hs.take(i)),
    decreases k - i,
{
    if k > i {
        lemma_loads_prefix(hs, i, k - 1);
        assert(hs.take(k).drop_last() =~= hs.take(k - 1));
        let a = loads(hs.take(k - 1));
        let m = loads(hs.take(i)).len() as int;
        if hs.take(k).last().load {
            assert(a.push(hs.take(k).last()).take(m) =~= a.take(m));
        }
    } else {
        assert(loads(hs.take(k)).take(loads(hs.take(i)).len() as int) =~= loads(hs.take(i)));
    }
}

impl MemLayout {
    /// The layout of a new user program from its program headers `headers`
    /// (the first at `ph_offset` bytes into its file, each `ph_entry_size` bytes
    /// long) and its entry point `entry`: the trampoline's page mapped to the
    /// trampoline code at `strampoline`, a framed segment for each loaded header
    /// (user-accessible, with the header's access), then the trap context, a
    /// guard page and the user stack below it. Gives the layout, the top of the
    /// loaded data, the top of the user stack, the entry point and the
    /// auxiliary vector. The caller copies each loaded header's bytes into the
    /// frames of its segment.
    pub fn new_elf_from_headers(
        headers: &[ProgramHeader],
        ph_offset: usize,
        ph_entry_size: usize,
        entry: usize,
        strampoline: usize,
        alloc: &mut StackFrameAllocator,
    ) -> (r: (MemLayout, usize, usize, usize, Vec<AuxHeader>))
        requires
            old(alloc).wf(),
            frames_fit(*old(alloc)),
            headers@.len() > 0,
            headers@[0].vaddr + ph_offset <= usize::MAX,
            headers_ok(headers@),
            spare_frames(*old(alloc)) >= 3 + load_pages(headers@) + 3 * 34,
        ensures
            ({
                let ls = loads(headers@);
                let n = ls.len() as int;
                let segs = r.0.segs();
                let tv = TRAMPOLINE / 4096;
                &&& table_ok(r.0.table(), *final(alloc))
                &&& building(r.0, tv, strampoline)
                &&& segs.len() == n + 3
                &&& forall|j: int|
                    0 <= j < n ==> {
                        &&& (#[trigger] segs[j]).start.0 == header_pages(ls[j]).0
                        &&& segs[j].end.0 == header_pages(ls[j]).1
                        &&& segs[j].map_type == MapType::Framed
                        &&& segs[j].seg_flags.bits == elf_seg_flags(ls[j].flags)
                        &&& segs[j].head_offset == ls[j].vaddr % 4096
                    }
                &&& segs[n].start.0 == tv - 1 && segs[n].end.0 == tv
                &&& segs[n].map_type == MapType::Framed && segs[n].seg_flags.bits == 6
                &&& segs[n + 1].start.0 == tv - 2 && segs[n + 1].end.0 == tv - 1
                &&& segs[n + 1].map_type == MapType::Framed && segs[n + 1].seg_flags.bits == 6
                &&& segs[n + 2].start.0 == tv - 34 && segs[n + 2].end.0 == tv - 2
                &&& segs[n + 2].map_type == MapType::Framed && segs[n + 2].seg_flags.bits == 22
                &&& r.1 == data_top(headers@)
                &&& r.2 == TRAP_CONTEXT - 4096
                &&& r.3 == entry
                &&& r.4@ == aux_of(headers@, ph_offset, ph_entry_size, entry)
            }),
    {
        let ghost hs = headers@;
        proof {
            lemma_top_pages();
            lemma_load_pages_nonneg(hs);
        }
        let mut layout = MemLayout::new(alloc);
        let tv = TRAMPOLINE / PAGE_SIZE;
        proof {
            assert forall|v: usize| layout.pagetable.mapped(v) is None by {
                assert(layout.table().leaf(v) is None);
            }
        }
        layout.pagetable.map(VirtPageNum(tv), PhysPageNum(strampoline / PAGE_SIZE), PTEFlags { bits: 10 }, alloc);
        proof {
            assert(hs.subrange(0, hs.len() as int) =~= hs);
            assert(hs.take(0) =~= Seq::<ProgramHeader>::empty());
            assert(building(layout, tv, strampoline));
        }
        let mut top: usize = 0;
        let mut i: usize = 0;
        while i < headers.len()
            invariant
                hs == headers@,
                i <= hs.len(),
                headers_ok(hs),
                tv == TRAMPOLINE / 4096,
                (tv as int) % 0x800_0000 >= 64,
                table_ok(layout.table(), *alloc),
                building(layout, tv, strampoline),
                spare_frames(*alloc) >= load_pages(hs.subrange(i as int, hs.len() as int)) + 3 * 34,
                top == data_top(hs.take(i as int)),
                layout.segs().len() == loads(hs.take(i as int)).len(),
                forall|j: int|
                    0 <= j < layout.segs().len() ==> {
                        let h = loads(hs.take(i as int))[j];
                        &&& (#[trigger] layout.segs()[j]).start.0 == header_pages(h).0
                        &&& layout.segs()[j].end.0 == header_pages(h).1
                        &&& layout.segs()[j].map_type == MapType::Framed
                        &&& layout.segs()[j].seg_flags.bits == elf_seg_flags(h.flags)
                        &&& layout.segs()[j].head_offset == h.vaddr % 4096
                    },
            decreases hs.len() - i,
        {
            let h = headers[i];
            let ghost l0 = layout.segs();
            proof {
                lemma_load_pages_step(hs, i as int);
                assert(hs.take(i + 1).drop_last() =~= hs.take(i as int));
                assert(hs.take(i + 1).last() == h);
                lemma_loads_prefix(hs, i + 1, hs.len() as int);
                assert(hs.take(hs.len() as int) =~= hs);
            }
            if h.load {
                let ghost m = l0.len() as int;
                let ghost ls = loads(hs);
                proof {
                    assert(loads(hs.take(i + 1)) == loads(hs.take(i as int)).push(h));
                    assert(ls.take(m + 1) == loads(hs.take(i + 1)));
                    assert(ls.take(m + 1)[m] == ls[m]);
                    assert(ls[m] == h);
                }
                let stop = h.vaddr + h.mem_size;
                let f: u8 = 16u8 | (if h.flags & 4 != 0 {
                    2u8
                } else {
                    0u8
                }) | (if h.flags & 2 != 0 {
                    4u8
                } else {
                    0u8
                }) | (if h.flags & 1 != 0 {
                    8u8
                } else {
                    0u8
                });
                let seg = Segment::new(
                    VirtAddr(h.vaddr),
                    VirtAddr(stop),
                    MapType::Framed,
                    SegmentFlags { bits: f },
                    VMAFlags { bits: 0 },
                    None,
                    0,
                );
                proof {
                    assert(f == elf_seg_flags(h.flags));
                    assert(header_pages(h).0 <= header_pages(h).1);
                    assert forall|j: int| 0 <= j < l0.len() implies seg_slots(#[trigger] l0[j]).1 <= seg_slots(seg).0
                        || seg_slots(seg).1 <= seg_slots(l0[j]).0 by {
                        assert(loads(hs.take(i + 1))[j] == loads(hs.take(i as int))[j]);
                        assert(ls.take(m + 1)[j] == ls[j]);
                        assert(loads(hs.take(i as int))[j] == ls[j]);
                    }
                }
                layout.push_fresh(seg, alloc, Ghost(tv), Ghost(strampoline));
                if top < stop {
                    top = stop;
                }
                proof {
                    assert forall|j: int| 0 <= j < layout.segs().len() implies {
                        let hh = loads(hs.take(i + 1))[j];
                        &&& (#[trigger] layout.segs()[j]).start.0 == header_pages(hh).0
                        &&& layout.segs()[j].end.0 == header_pages(hh).1
                        &&& layout.segs()[j].map_type == MapType::Framed
                        &&& layout.segs()[j].seg_flags.bits == elf_seg_flags(hh.flags)
                        &&& layout.segs()[j].head_offset == hh.vaddr % 4096
                    } by {
                        if j < m {
                            assert(layout.segs()[j] == l0[j]);
                        }
                    }
                }
            } else {
                proof {
                    assert(loads(hs.take(i + 1)) == loads(hs.take(i as int)));
                }
            }
            i = i + 1;
        }
        proof {
            assert(hs.take(hs.len() as int) =~= hs);
        }
        let ghost n = layout.segs().len() as int;
        let ghost t = (tv as int) % 0x800_0000;
        proof {
            assert forall|j: int| 0 <= j < n implies seg_slots(#[trigger] layout.segs()[j]).1 <= t - 34 by {
                let h = loads(hs)[j];
                assert(0 <= j < loads(hs).len());
                assert(header_pages(h).1 <= t - 34);
                assert(header_pages(h).0 <= header_pages(h).1);
            }
        }
        let trap = Segment::new(
            VirtAddr(TRAP_CONTEXT),
            VirtAddr(TRAMPOLINE),
            MapType::Framed,
            SegmentFlags { bits: 6 },
            VMAFlags { bits: 0 },
            None,
            0,
        );
        layout.push_fresh(trap, alloc, Ghost(tv), Ghost(strampoline));
        proof {
            assert forall|j: int| 0 <= j < n + 1 implies seg_slots(#[trigger] layout.segs()[j]).1 <= t - 34
                || seg_slots(layout.segs()[j]).0 >= t - 1 by {
                if j < n {
                    assert(layout.segs()[j] == layout.segs().drop_last()[j]);
                }
            }
        }
        let guard_high = TRAP_CONTEXT;
        let guard_low = guard_high - PAGE_SIZE;
        let guard = Segment::new(
            VirtAddr(guard_low),
            VirtAddr(guard_high),
            MapType::Framed,
            SegmentFlags { bits: 6 },
            VMAFlags { bits: 0 },
            None,
            0,
        );
        layout.push_fresh(guard, alloc, Ghost(tv), Ghost(strampoline));
        proof {
            assert forall|j: int| 0 <= j < n + 2 implies seg_slots(#[trigger] layout.segs()[j]).1 <= t - 34
                || seg_slots(layout.segs()[j]).0 >= t - 2 by {
                if j < n + 1 {
                    assert(layout.segs()[j] == layout.segs().drop_last()[j]);
                }
            }
        }
        let stack_high = guard_low;
        let stack_low = stack_high - USER_STACK_SIZE;
        let stack = Segment::new(
            VirtAddr(stack_low),
            VirtAddr(stack_high),
            MapType::Framed,
            SegmentFlags { bits: 22 },
            VMAFlags { bits: 0 },
            None,
            0,
        );
        layout.push_fresh(stack, alloc, Ghost(tv), Ghost(strampoline));
        let mut auxv: Vec<AuxHeader> = Vec::new();
        auxv.push(AuxHeader { aux_type: AuxType::SYSINFO_EHDR, value: 0 });
        auxv.push(AuxHeader { aux_type: AuxType::NULL28, value: 0 });
        auxv.push(AuxHeader { aux_type: AuxType::NULL29, value: 0 });
        auxv.push(AuxHeader { aux_type: AuxType::NULL2a, value: 0 });
        auxv.push(AuxHeader { aux_type: AuxType::NULL2b, value: 0 });
        auxv.push(AuxHeader { aux_type: AuxType::NULL2c, value: 0 });
        auxv.push(AuxHeader { aux_type: AuxType::NULL2d, value: 0 });
        auxv.push(AuxHeader { aux_type: AuxType::HWCAP, value: 0 });
        auxv.push(AuxHeader { aux_type: AuxType::PAGESZ, value: PAGE_SIZE });
        auxv.push(AuxHeader { aux_type: AuxType::CLKTCK, value: 100 });
        auxv.push(AuxHeader { aux_type: AuxType::PHDR, value: headers[0].vaddr + ph_offset });
        auxv.push(AuxHeader { aux_type: AuxType::PHENT, value: ph_entry_size });
        auxv.push(AuxHeader { aux_type: AuxType::PHNUM, value: headers.len() });
        auxv.push(AuxHeader { aux_type: AuxType::BASE, value: 0 });
        auxv.push(AuxHeader { aux_type: AuxType::FLAGS, value: 0 });
        auxv.push(AuxHeader { aux_type: AuxType::ENTRY, value: entry });
        auxv.push(AuxHeader { aux_type: AuxType::UID, value: 0 });
        auxv.push(AuxHeader { aux_type: AuxType::EUID, value: 0 });
        auxv.push(AuxHeader { aux_type: AuxType::GID, value: 0 });
        auxv.push(AuxHeader { aux_type: AuxType::EGID, value: 0 });
        auxv.push(AuxHeader { aux_type: AuxType::SECURE, value: 0 });
        proof {
            assert(auxv@ =~= aux_of(hs, ph_offset, ph_entry_size, entry));
            let segs = layout.segs();
            assert(segs[n + 2] == segs.last());
            assert(segs[n + 1] == segs.drop_last().last());
            assert(segs[n] == segs.drop_last().drop_last().last());
            assert forall|j: int| 0 <= j < n implies segs[j] == segs.drop_last().drop_last().drop_last()[j] by {}
        }
        (layout, top, stack_high, entry, auxv)
    }
}

} // verus!
