//! SV39 page table entries and their flags.
use vstd::prelude::*;
use super::addresses::{vpn_index, PhysAddr, PhysPageNum, VirtAddr, VirtPageNum};
use super::frame_alloc::{ppns, StackFrameAllocator};

verus! {

/// Page table entry flags, indicating privileges.
#[derive(Clone, Copy, PartialEq, Eq, Structural, Debug)]
pub struct PTEFlags {
    pub bits: u8,
}

#[allow(non_snake_case)]
impl PTEFlags {
    /// Valid.
    pub fn V() -> (r: Self)
        ensures
            r.bits == 1,
    {
        PTEFlags { bits: 1 }
    }

    /// Read enable.
    pub fn R() -> (r: Self)
        ensures
            r.bits == 2,
    {
        PTEFlags { bits: 2 }
    }

    /// Write enable.
    pub fn W() -> (r: Self)
        ensures
            r.bits == 4,
    {
        PTEFlags { bits: 4 }
    }

    /// Execute enable.
    pub fn X() -> (r: Self)
        ensures
            r.bits == 8,
    {
        PTEFlags { bits: 8 }
    }

    /// User accessibility.
    pub fn U() -> (r: Self)
        ensures
            r.bits == 16,
    {
        PTEFlags { bits: 16 }
    }

    /// Global mapping.
    pub fn G() -> (r: Self)
        ensures
            r.bits == 32,
    {
        PTEFlags { bits: 32 }
    }

    /// Accessed.
    pub fn A() -> (r: Self)
        ensures
            r.bits == 64,
    {
        PTEFlags { bits: 64 }
    }

    /// Dirty.
    pub fn D() -> (r: Self)
        ensures
            r.bits == 128,
    {
        PTEFlags { bits: 128 }
    }

    /// No flag set.
    pub fn empty() -> (r: Self)
        ensures
            r.bits == 0,
    {
        PTEFlags { bits: 0 }
    }

    /// The flags whose bits are `bits`; every one of the eight bits names a flag,
    /// so this always succeeds.
    pub fn from_bits(bits: u8) -> (r: Option<Self>)
        ensures
            r == Some(PTEFlags { bits }),
    {
        Some(PTEFlags { bits })
    }

    /// The raw bits.
    pub fn bits(&self) -> (r: u8)
        ensures
            r == self.bits,
    {
        self.bits
    }

    /// Whether every flag of `other` is set in `self`.
    pub fn contains(&self, other: PTEFlags) -> (r: bool)
        ensures
            r == (self.bits & other.bits == other.bits),
    {
        self.bits & other.bits == other.bits
    }

    /// The flags set in either.
    pub fn union(&self, other: PTEFlags) -> (r: PTEFlags)
        ensures
            r.bits == self.bits | other.bits,
    {
        PTEFlags { bits: self.bits | other.bits }
    }

    /// The flags set in both.
    pub fn intersection(&self, other: PTEFlags) -> (r: PTEFlags)
        ensures
            r.bits == self.bits & other.bits,
    {
        PTEFlags { bits: self.bits & other.bits }
    }
}

/// A page table entry in SV39:
/// `63 .. 54` reserved, `53 .. 10` physical page number, `7 .. 0` flags `DAGUXWRV`.
#[derive(Clone, Copy, PartialEq, Eq, Structural, Debug)]
pub struct PageTableEntry {
    pub bits: u64,
}

impl PageTableEntry {
    /// A new entry mapping `ppn` with `flags`.
    pub fn new(ppn: PhysPageNum, flags: PTEFlags) -> (r: Self)
        ensures
            r.bits == (((ppn.0 as u64) << 10u64) | (flags.bits as u64)),
            ppn.0 < 0x1000_0000_0000 ==> r.bits / 1024 == ppn.0 && r.bits % 256 == flags.bits,
    {
        let p = ppn.0 as u64;
        let f = flags.bits as u64;
        proof {
            assert(f < 256);
            assert(p < 0x1000_0000_0000 && f < 256 ==> ((p << 10u64) | f) / 1024 == p
                && ((p << 10u64) | f) % 256 == f) by (bit_vector);
        }
        PageTableEntry { bits: p << 10 | f }
    }

    /// An entry that maps nothing.
    pub fn empty() -> (r: Self)
        ensures
            r.bits == 0,
    {
        PageTableEntry { bits: 0 }
    }

    /// Replaces the access flags (bits 1 to 7) with those of `flags`, keeping the
    /// valid bit and the physical page number.
    pub fn modify_access(&mut self, flags: PTEFlags)
        ensures
            final(self).bits == (old(self).bits & 0xffff_ffff_ffff_ff01u64) | ((flags.bits as u64)
                & 0xfeu64),
            final(self).bits / 256 == old(self).bits / 256,
            final(self).bits % 2 == old(self).bits % 2,
            final(self).bits % 256 / 2 == flags.bits / 2,
    {
        let mask: u64 = 0xffff_ffff_ffff_ff01;
        let b = self.bits;
        let f = flags.bits as u64;
        proof {
            assert(f < 256 ==> ((b & mask) | (f & 0xfeu64)) / 256 == b / 256
                && ((b & mask) | (f & 0xfeu64)) % 2 == b % 2
                && ((b & mask) | (f & 0xfeu64)) % 256 / 2 == f / 2) by (bit_vector)
                requires
                    mask == 0xffff_ffff_ffff_ff01u64,
            ;
        }
        self.bits = self.bits & mask;
        self.bits = self.bits | (f & 0x0000_0000_0000_00fe);
    }

    /// The physical page number held in bits 53 to 10.
    pub fn ppn(&self) -> (r: PhysPageNum)
        ensures
            r.0 == ((self.bits / 1024) % 0x1000_0000_0000) as usize,
    {
        let b = self.bits;
        proof {
            assert(((b >> 10u64) & 0xFFF_FFFF_FFFFu64) == (b / 1024) % 0x1000_0000_0000)
                by (bit_vector);
        }
        PhysPageNum((self.bits >> 10 & 0xFFF_FFFF_FFFF) as usize)
    }

    /// The flags held in the low byte.
    pub fn flags(&self) -> (r: PTEFlags)
        ensures
            r.bits == self.bits % 256,
    {
        let b = self.bits;
        proof {
            assert((b as u8) == b % 256) by (bit_vector);
        }
        PTEFlags { bits: self.bits as u8 }
    }

    /// Whether the valid bit is set.
    pub fn valid(&self) -> (r: bool)
        ensures
            r == (self.bits % 2 == 1),
    {
        let b = self.bits;
        proof {
            assert((((b % 256) as u8) & 1u8 != 0u8) == (b % 2 == 1)) by (bit_vector);
        }
        (self.flags().bits & PTEFlags::V().bits) != PTEFlags::empty().bits
    }

    /// Whether the page is executable.
    pub fn executable(&self) -> (r: bool)
        ensures
            r == ((self.bits / 8) % 2 == 1),
    {
        let b = self.bits;
        proof {
            assert((((b % 256) as u8) & 8u8 != 0u8) == ((b / 8) % 2 == 1)) by (bit_vector);
        }
        (self.flags().bits & PTEFlags::X().bits) != PTEFlags::empty().bits
    }

    /// Whether the page has been written.
    pub fn dirty(&self) -> (r: bool)
        ensures
            r == ((self.bits / 128) % 2 == 1),
    {
        let b = self.bits;
        proof {
            assert((((b % 256) as u8) & 128u8 == 128u8) == ((b / 128) % 2 == 1)) by (bit_vector);
        }
        self.flags().contains(PTEFlags::D())
    }

    /// Whether the page is writable.
    pub fn writable(&self) -> (r: bool)
        ensures
            r == ((self.bits / 4) % 2 == 1),
    {
        let b = self.bits;
        proof {
            assert((((b % 256) as u8) & 4u8 != 0u8) == ((b / 4) % 2 == 1)) by (bit_vector);
        }
        (self.flags().bits & PTEFlags::W().bits) != PTEFlags::empty().bits
    }

    /// Whether the page is readable.
    pub fn readable(&self) -> (r: bool)
        ensures
            r == ((self.bits / 2) % 2 == 1),
    {
        let b = self.bits;
        proof {
            assert((((b % 256) as u8) & 2u8 != 0u8) == ((b / 2) % 2 == 1)) by (bit_vector);
        }
        (self.flags().bits & PTEFlags::R().bits) != PTEFlags::empty().bits
    }
}

/// An entry made by `new` gives back the page number and the flags it was made with.
pub proof fn lemma_pte_new_roundtrip(ppn: PhysPageNum, flags: PTEFlags, pte: PageTableEntry)
    requires
        ppn.0 < 0x1000_0000_0000,
        pte.bits == (((ppn.0 as u64) << 10u64) | (flags.bits as u64)),
    ensures
        (pte.bits / 1024) % 0x1000_0000_0000 == ppn.0,
        pte.bits % 256 == flags.bits,
{
    let p = ppn.0 as u64;
    let f = flags.bits as u64;
    assert(f < 256);
    assert(p < 0x1000_0000_0000 && f < 256 ==> (((p << 10u64) | f) / 1024) % 0x1000_0000_0000 == p
        && ((p << 10u64) | f) % 256 == f) by (bit_vector);
}


/// The physical page number that an entry holds.
pub open spec fn pte_ppn(e: PageTableEntry) -> usize {
    ((e.bits / 1024) % 0x1000_0000_0000) as usize
}

/// Whether an entry's valid bit is set.
pub open spec fn pte_valid(e: PageTableEntry) -> bool {
    e.bits % 2 == 1
}

/// Two virtual page numbers select the same slot at every level of the table.
pub open spec fn same_slot(v: usize, w: usize) -> bool {
    &&& vpn_index(v, 2) == vpn_index(w, 2)
    &&& vpn_index(v, 1) == vpn_index(w, 1)
    &&& vpn_index(v, 0) == vpn_index(w, 0)
}

/// How many more pages the allocator can hand out.
pub open spec fn spare_frames(a: StackFrameAllocator) -> int {
    a.freed@.len() + if a.current.0 < a.end.0 {
        a.end.0 - a.current.0
    } else {
        0
    }
}

/// The allocator hands out page numbers that fit in a page table entry
/// (44 bits).
pub open spec fn frames_fit(a: StackFrameAllocator) -> bool {
    a.current.0 <= 0x1000_0000_0000 && a.end.0 <= 0x1000_0000_0000
}

/// An SV39 page table: a tree of three levels of 512-entry nodes, each held in
/// a physical frame that the table owns. `nodes[j]` holds the entries of frame
/// `frames[j]`; `frames[0]` is the root.
pub struct PageTable {
    root_ppn: PhysPageNum,
    frames: Vec<PhysPageNum>,
    nodes: Vec<Vec<PageTableEntry>>,
    /// The level of each node: 0 for the root, 2 for the nodes of leaf entries.
    level: Ghost<Seq<int>>,
    /// The node and slot whose entry points to each node but the root.
    parent: Ghost<Seq<(int, int)>>,
}

impl PageTable {
    /// Entry `s` of node `j`.
    spec fn entry(&self, j: int, s: int) -> PageTableEntry {
        self.nodes@[j]@[s]
    }

    /// Whether the table owns frame `p`.
    spec fn has_frame(&self, p: usize) -> bool {
        exists|j: int| 0 <= j < self.frames@.len() && self.frames@[j].0 == p
    }

    /// The node held in frame `p`.
    spec fn node_of(&self, p: usize) -> int {
        choose|j: int| 0 <= j < self.frames@.len() && self.frames@[j].0 == p
    }

    /// Node `j` hangs from a valid entry one level up that points to its frame.
    spec fn child_ok(&self, j: int) -> bool {
        let (p, s) = self.parent@[j];
        &&& 0 <= p < self.frames@.len()
        &&& 0 <= s < 512
        &&& 1 <= self.level@[j] <= 2
        &&& self.level@[j] == self.level@[p] + 1
        &&& pte_valid(self.entry(p, s))
        &&& pte_ppn(self.entry(p, s)) == self.frames@[j].0
    }

    /// A valid entry of an inner node points to a node of the table other than
    /// the root, which hangs from that entry.
    spec fn slot_ok(&self, p: int, s: int) -> bool {
        let e = self.entry(p, s);
        pte_valid(e) ==> {
            &&& self.has_frame(pte_ppn(e))
            &&& self.node_of(pte_ppn(e)) > 0
            &&& self.parent@[self.node_of(pte_ppn(e))] == (p, s)
        }
    }

    /// The frames are distinct.
    spec fn frames_distinct(&self) -> bool {
        forall|i: int, j: int|
            0 <= i < self.frames@.len() && 0 <= j < self.frames@.len() && i != j
                ==> self.frames@[i].0 != self.frames@[j].0
    }

    /// The nodes form a tree of three levels rooted at `root_ppn`.
    pub closed spec fn wf(&self) -> bool {
        let n = self.frames@.len();
        &&& n >= 1
        &&& self.nodes@.len() == n
        &&& self.level@.len() == n
        &&& self.parent@.len() == n
        &&& self.frames@[0] == self.root_ppn
        &&& self.level@[0] == 0
        &&& forall|j: int| 0 <= j < n ==> (#[trigger] self.nodes@[j])@.len() == 512
        &&& forall|j: int| 0 <= j < n ==> (#[trigger] self.frames@[j]).0 < 0x1000_0000_0000
        &&& self.frames_distinct()
        &&& forall|j: int| 0 < j < n ==> #[trigger] self.child_ok(j)
        &&& forall|p: int, s: int|
            0 <= p < n && 0 <= s < 512 && self.level@[p] < 2 ==> #[trigger] self.slot_ok(p, s)
    }

    /// The frame of the root node.
    pub closed spec fn root(&self) -> usize {
        self.root_ppn.0
    }

    /// The frames that the table owns.
    pub closed spec fn frame_set(&self) -> Set<usize> {
        Set::new(|p: usize| self.has_frame(p))
    }

    /// The node of leaf entries that the walk for `vpn` reaches, if the two
    /// inner entries on the way are valid.
    spec fn leaf_node(&self, vpn: usize) -> Option<int> {
        let e0 = self.entry(0, vpn_index(vpn, 2) as int);
        if !pte_valid(e0) {
            None
        } else {
            let j1 = self.node_of(pte_ppn(e0));
            let e1 = self.entry(j1, vpn_index(vpn, 1) as int);
            if !pte_valid(e1) {
                None
            } else {
                Some(self.node_of(pte_ppn(e1)))
            }
        }
    }

    /// The leaf entry for `vpn`, valid or not, where the walk reaches one.
    pub closed spec fn leaf(&self, vpn: usize) -> Option<PageTableEntry> {
        match self.leaf_node(vpn) {
            Some(j) => Some(self.entry(j, vpn_index(vpn, 0) as int)),
            None => None,
        }
    }

    /// The valid leaf entry that maps `vpn`, if any.
    pub open spec fn mapped(&self, vpn: usize) -> Option<PageTableEntry> {
        match self.leaf(vpn) {
            Some(e) => if pte_valid(e) {
                Some(e)
            } else {
                None
            },
            None => None,
        }
    }

    /// With distinct frames, the node held in frame `frames[j]` is node `j`.
    proof fn lemma_node_of(&self, j: int)
        requires
            self.frames_distinct(),
            0 <= j < self.frames@.len(),
        ensures
            self.has_frame(self.frames@[j].0),
            self.node_of(self.frames@[j].0) == j,
    {
        let p = self.frames@[j].0;
        assert(self.has_frame(p));
        let k = self.node_of(p);
        assert(0 <= k < self.frames@.len() && self.frames@[k].0 == p);
    }

    /// The path of the walk for `vpn`: the leaf node hangs from node `j1` at the
    /// level-1 slot of `vpn`, which hangs from the root at the level-2 slot.
    proof fn lemma_leaf_path(&self, vpn: usize) -> (j1: int)
        requires
            self.wf(),
            self.leaf_node(vpn) is Some,
        ensures
            j1 == self.node_of(pte_ppn(self.entry(0, vpn_index(vpn, 2) as int))),
            0 < j1 < self.frames@.len(),
            self.level@[j1] == 1,
            self.parent@[j1] == (0int, vpn_index(vpn, 2) as int),
            0 < self.leaf_node(vpn)->0 < self.frames@.len(),
            self.level@[self.leaf_node(vpn)->0] == 2,
            self.parent@[self.leaf_node(vpn)->0] == (j1, vpn_index(vpn, 1) as int),
    {
        let i0 = vpn_index(vpn, 2) as int;
        let i1 = vpn_index(vpn, 1) as int;
        assert(self.slot_ok(0, i0));
        let j1 = self.node_of(pte_ppn(self.entry(0, i0)));
        assert(self.child_ok(j1));
        assert(self.slot_ok(j1, i1));
        let j2 = self.leaf_node(vpn)->0;
        assert(self.child_ok(j2));
        j1
    }

    /// Two pages whose walks reach the same leaf node select the same inner slots.
    proof fn lemma_same_leaf_node(&self, v: usize, w: usize)
        requires
            self.wf(),
            self.leaf_node(v) is Some,
            self.leaf_node(v) == self.leaf_node(w),
        ensures
            vpn_index(v, 2) == vpn_index(w, 2),
            vpn_index(v, 1) == vpn_index(w, 1),
    {
        let a = self.lemma_leaf_path(v);
        let b = self.lemma_leaf_path(w);
    }

    /// The node held in frame `p`, which the table owns.
    fn find(&self, p: PhysPageNum) -> (r: usize)
        requires
            self.wf(),
            self.has_frame(p.0),
        ensures
            r == self.node_of(p.0),
            r < self.frames@.len(),
    {
        let mut k: usize = 0;
        while k < self.frames.len()
            invariant
                self.wf(),
                self.has_frame(p.0),
                k <= self.frames@.len(),
                forall|i: int| 0 <= i < k ==> (#[trigger] self.frames@[i]).0 != p.0,
            decreases self.frames@.len() - k,
        {
            if self.frames[k].0 == p.0 {
                proof {
                    self.lemma_node_of(k as int);
                }
                return k;
            }
            k = k + 1;
        }
        proof {
            let j = self.node_of(p.0);
            assert(self.frames@[j].0 == p.0);
        }
        0
    }

    /// The leaf node that the walk for `vpn` reaches, if any.
    fn locate(&self, vpn: VirtPageNum) -> (r: Option<usize>)
        requires
            self.wf(),
        ensures
            r matches Some(j) ==> self.leaf_node(vpn.0) == Some(j as int) && j < self.frames@.len(),
            r is None ==> self.leaf_node(vpn.0) is None,
    {
        let idx = vpn.indexes();
        let e0 = self.nodes[0][idx[0]];
        if !e0.valid() {
            return None;
        }
        proof {
            assert(self.slot_ok(0, idx[0] as int));
        }
        let j1 = self.find(e0.ppn());
        proof {
            assert(self.child_ok(j1 as int));
        }
        let e1 = self.nodes[j1][idx[1]];
        if !e1.valid() {
            return None;
        }
        proof {
            assert(self.slot_ok(j1 as int, idx[1] as int));
        }
        let j2 = self.find(e1.ppn());
        Some(j2)
    }

    /// The leaf entry for `vpn`, valid or not; `None` where an inner entry on
    /// the way is not valid.
    pub fn walk(&self, vpn: VirtPageNum) -> (r: Option<PageTableEntry>)
        requires
            self.wf(),
        ensures
            r == self.leaf(vpn.0),
    {
        match self.locate(vpn) {
            Some(j) => {
                let idx = vpn.indexes();
                proof {
                    self.lemma_leaf_path(vpn.0);
                }
                Some(self.nodes[j][idx[2]])
            },
            None => None,
        }
    }

    /// A copy of the leaf entry for `vpn`; see `walk`.
    pub fn translate(&self, vpn: VirtPageNum) -> (r: Option<PageTableEntry>)
        requires
            self.wf(),
        ensures
            r == self.leaf(vpn.0),
    {
        self.walk(vpn)
    }
}


/// Takes a page for a node of a page table from the allocator, which must have
/// one to spare.
fn alloc_node(alloc: &mut StackFrameAllocator) -> (p: PhysPageNum)
    requires
        old(alloc).wf(),
        spare_frames(*old(alloc)) >= 1,
        frames_fit(*old(alloc)),
    ensures
        final(alloc).wf(),
        frames_fit(*final(alloc)),
        spare_frames(*final(alloc)) == spare_frames(*old(alloc)) - 1,
        old(alloc).free_pages().contains(p.0),
        final(alloc).free_pages() == old(alloc).free_pages().remove(p.0),
        p.0 < 0x1000_0000_0000,
{
    let r = alloc.alloc_page();
    match r {
        Some(p) => {
            proof {
                let fp = old(alloc).free_pages();
                assert(fp.contains(p.0));
                if ppns(old(alloc).freed@).to_set().contains(p.0) {
                    let i = choose|i: int|
                        0 <= i < ppns(old(alloc).freed@).len() && ppns(old(alloc).freed@)[i] == p.0;
                    assert(old(alloc).freed@[i].0 == p.0);
                }
            }
            p
        },
        None => {
            proof {
                assert(false);
            }
            PhysPageNum(0)
        },
    }
}

/// A node with no valid entry.
fn empty_node() -> (r: Vec<PageTableEntry>)
    ensures
        r@.len() == 512,
        forall|s: int| 0 <= s < 512 ==> (#[trigger] r@[s]).bits == 0,
{
    let mut v: Vec<PageTableEntry> = Vec::new();
    let mut k: usize = 0;
    while k < 512
        invariant
            k <= 512,
            v@.len() == k,
            forall|s: int| 0 <= s < k ==> (#[trigger] v@[s]).bits == 0,
        decreases 512 - k,
    {
        v.push(PageTableEntry::empty());
        k = k + 1;
    }
    v
}

/// An entry made by `new` with the valid flag is valid, and holds the page
/// number when it fits in 44 bits.
proof fn lemma_new_valid(p: u64, f: u64)
    requires
        f < 256,
        f % 2 == 1,
    ensures
        ((p << 10u64) | f) % 2 == 1,
        p < 0x1000_0000_0000 ==> (((p << 10u64) | f) / 1024) % 0x1000_0000_0000 == p,
{
    assert(f < 256 && f % 2 == 1 ==> ((p << 10u64) | f) % 2 == 1) by (bit_vector);
    assert(p < 0x1000_0000_0000 && f < 256 ==> (((p << 10u64) | f) / 1024) % 0x1000_0000_0000 == p)
        by (bit_vector);
}

impl PageTable {
    /// An empty table, whose root node takes a page of the allocator.
    pub fn new(alloc: &mut StackFrameAllocator) -> (r: Self)
        requires
            old(alloc).wf(),
            spare_frames(*old(alloc)) >= 1,
            frames_fit(*old(alloc)),
        ensures
            r.wf(),
            final(alloc).wf(),
            frames_fit(*final(alloc)),
            spare_frames(*final(alloc)) == spare_frames(*old(alloc)) - 1,
            old(alloc).free_pages().contains(r.root()),
            final(alloc).free_pages() == old(alloc).free_pages().remove(r.root()),
            r.frame_set() == set![r.root()],
            forall|v: usize| #[trigger] r.leaf(v) is None,
    {
        let root = alloc_node(alloc);
        let mut frames: Vec<PhysPageNum> = Vec::new();
        frames.push(root);
        let mut nodes: Vec<Vec<PageTableEntry>> = Vec::new();
        nodes.push(empty_node());
        let ghost lv: Seq<int> = seq![0int];
        let ghost pa: Seq<(int, int)> = seq![(0int, 0int)];
        let r = PageTable { root_ppn: root, frames, nodes, level: Ghost(lv), parent: Ghost(pa) };
        proof {
            assert forall|p: int, s: int|
                0 <= p < 1 && 0 <= s < 512 && r.level@[p] < 2 implies #[trigger] r.slot_ok(p, s) by {
                assert(r.entry(p, s).bits == 0);
            }
            assert(r.frame_set() =~= set![root.0]) by {
                assert forall|x: usize| #[trigger] r.frame_set().contains(x) <==> x == root.0 by {
                    if x == root.0 {
                        assert(r.frames@[0].0 == x);
                    }
                }
            }
            assert forall|v: usize| #[trigger] r.leaf(v) is None by {
                assert(r.entry(0, vpn_index(v, 2) as int).bits == 0);
            }
        }
        r
    }

    /// The value of the SATP register that selects this table: SV39 mode and
    /// the root's page number.
    pub fn get_satp(&self) -> (r: usize)
        ensures
            r == ((8u64 << 60u64) | (self.root() as u64)) as usize,
    {
        ((8u64 << 60) | (self.root_ppn.0 as u64)) as usize
    }

    /// Hangs a new node, held in the fresh frame `p`, from the invalid entry `s`
    /// of inner node `pn`.
    fn add_node(&mut self, pn: usize, s: usize, p: PhysPageNum)
        requires
            old(self).wf(),
            pn < old(self).frames@.len(),
            s < 512,
            old(self).level@[pn as int] < 2,
            !pte_valid(old(self).entry(pn as int, s as int)),
            !old(self).has_frame(p.0),
            p.0 < 0x1000_0000_0000,
        ensures
            final(self).wf(),
            final(self).root() == old(self).root(),
            final(self).frames@ == old(self).frames@.push(p),
            final(self).frame_set() == old(self).frame_set().insert(p.0),
            final(self).level@[old(self).frames@.len() as int] == old(self).level@[pn as int] + 1,
            forall|v: usize| #[trigger] final(self).mapped(v) == old(self).mapped(v),
            forall|v: usize| old(self).leaf(v) is Some ==> #[trigger] final(self).leaf(v) == old(self).leaf(v),
            pte_valid(final(self).entry(pn as int, s as int)),
            final(self).node_of(pte_ppn(final(self).entry(pn as int, s as int))) == old(self).frames@.len(),
            final(self).level@ == old(self).level@.push(old(self).level@[pn as int] + 1),
            forall|j: int, k: int|
                0 <= j < old(self).frames@.len() && 0 <= k < 512 && (j != pn || k != s)
                    ==> #[trigger] final(self).entry(j, k) == old(self).entry(j, k),
            forall|x: usize|
                old(self).has_frame(x) ==> final(self).has_frame(x) && #[trigger] final(self).node_of(x)
                    == old(self).node_of(x),
    {
        let ghost old_t = *self;
        let n = self.frames.len();
        let e = PageTableEntry::new(p, PTEFlags::V());
        proof {
            lemma_new_valid(p.0 as u64, 1);
        }
        let mut node = self.nodes[pn].clone();
        node.set(s, e);
        let ghost new_node = node@;
        self.nodes.set(pn, node);
        self.nodes.push(empty_node());
        self.frames.push(p);
        let ghost lv = self.level@.push(old_t.level@[pn as int] + 1);
        let ghost pa = self.parent@.push((pn as int, s as int));
        self.level = Ghost(lv);
        self.parent = Ghost(pa);
        proof {
            let t = *self;
            assert(new_node == old_t.nodes@[pn as int]@.update(s as int, e));
            assert forall|j: int, k: int|
                0 <= j < n && 0 <= k < 512 && (j != pn || k != s) implies #[trigger] t.entry(j, k)
                == old_t.entry(j, k) by {}
            assert(t.entry(pn as int, s as int) == e);
            assert forall|k: int| 0 <= k < 512 implies #[trigger] t.entry(n as int, k).bits == 0 by {}
            assert(t.frames_distinct()) by {
                assert forall|i: int, j: int|
                    0 <= i < t.frames@.len() && 0 <= j < t.frames@.len() && i != j implies t.frames@[i].0
                    != t.frames@[j].0 by {
                    if i == n {
                        assert(old_t.frames@[j].0 != p.0);
                    } else if j == n {
                        assert(old_t.frames@[i].0 != p.0);
                    }
                }
            }
            assert forall|x: usize| old_t.has_frame(x) implies t.has_frame(x) && t.node_of(x)
                == old_t.node_of(x) by {
                let j = old_t.node_of(x);
                t.lemma_node_of(j);
            }
            t.lemma_node_of(n as int);
            if pn > 0 {
                assert(old_t.child_ok(pn as int));
            }
            assert(t.level@[n as int] == old_t.level@[pn as int] + 1);
            assert(pte_ppn(e) == p.0);
            assert(t.child_ok(n as int));
            assert forall|j: int| 0 < j < t.frames@.len() implies #[trigger] t.child_ok(j) by {
                if j < n {
                    assert(old_t.child_ok(j));
                    let (pp, ss) = old_t.parent@[j];
                    assert(pp != pn || ss != s);
                }
            }
            assert forall|pp: int, ss: int|
                0 <= pp < t.frames@.len() && 0 <= ss < 512 && t.level@[pp] < 2 implies #[trigger] t.slot_ok(
                pp,
                ss,
            ) by {
                if pp < n && (pp != pn || ss != s) {
                    assert(old_t.slot_ok(pp, ss));
                    if pte_valid(old_t.entry(pp, ss)) {
                        let x = pte_ppn(old_t.entry(pp, ss));
                        assert(old_t.has_frame(x));
                    }
                }
            }
            assert(t.frame_set() =~= old_t.frame_set().insert(p.0)) by {
                assert forall|x: usize| #[trigger] t.frame_set().contains(x) <==> old_t.frame_set().insert(
                    p.0,
                ).contains(x) by {
                    if t.has_frame(x) {
                        let j = t.node_of(x);
                        if j < n {
                            assert(old_t.frames@[j].0 == x);
                        }
                    }
                }
            }
            assert forall|v: usize| old_t.leaf(v) is Some implies #[trigger] t.leaf(v) == old_t.leaf(v) by {
                let j1 = old_t.lemma_leaf_path(v);
                let i0 = vpn_index(v, 2) as int;
                let i1 = vpn_index(v, 1) as int;
                let x0 = pte_ppn(old_t.entry(0, i0));
                assert(old_t.slot_ok(0, i0));
                assert(old_t.has_frame(x0));
                assert(j1 == old_t.node_of(x0));
                assert(old_t.slot_ok(j1, i1));
                let x1 = pte_ppn(old_t.entry(j1, i1));
                assert(old_t.has_frame(x1));
            }
            assert forall|v: usize| #[trigger] t.mapped(v) == old_t.mapped(v) by {
                if old_t.leaf(v) is None {
                    let i0 = vpn_index(v, 2) as int;
                    let i1 = vpn_index(v, 1) as int;
                    let i2 = vpn_index(v, 0) as int;
                    let e0 = old_t.entry(0, i0);
                    if pte_valid(e0) {
                        assert(old_t.slot_ok(0, i0));
                        let x0 = pte_ppn(e0);
                        let j1 = old_t.node_of(x0);
                        assert(old_t.has_frame(x0));
                        assert(old_t.child_ok(j1));
                        assert(old_t.level@[j1] == 1);
                        if !(pn == j1 && s == i1) {
                            assert(!pte_valid(old_t.entry(j1, i1)));
                            assert(t.entry(j1, i1) == old_t.entry(j1, i1));
                        } else {
                            assert(t.leaf(v) == Some(t.entry(n as int, i2)));
                        }
                    } else {
                        if pn == 0 && s == i0 {
                            assert(t.node_of(pte_ppn(t.entry(0, i0))) == n);
                            assert(!pte_valid(t.entry(n as int, i1)));
                        } else {
                            assert(t.entry(0, i0) == e0);
                        }
                    }
                }
            }
        }
    }
}


impl PageTable {
    /// The leaf node for `vpn`, creating the inner nodes missing on the way with
    /// pages of the allocator; the pages mapped do not change.
    fn walk_create(&mut self, vpn: VirtPageNum, alloc: &mut StackFrameAllocator) -> (r: usize)
        requires
            old(self).wf(),
            old(alloc).wf(),
            frames_fit(*old(alloc)),
            spare_frames(*old(alloc)) >= 2,
            old(self).frame_set().disjoint(old(alloc).free_pages()),
        ensures
            final(self).wf(),
            final(alloc).wf(),
            frames_fit(*final(alloc)),
            final(self).frame_set().disjoint(final(alloc).free_pages()),
            final(alloc).free_pages().subset_of(old(alloc).free_pages()),
            final(self).frame_set() == old(self).frame_set() + (old(alloc).free_pages()
                - final(alloc).free_pages()),
            spare_frames(*final(alloc)) >= spare_frames(*old(alloc)) - 2,
            final(self).root() == old(self).root(),
            final(self).leaf_node(vpn.0) == Some(r as int),
            r < final(self).frames@.len(),
            final(self).level@[r as int] == 2,
            forall|v: usize| #[trigger] final(self).mapped(v) == old(self).mapped(v),
            forall|v: usize| old(self).leaf(v) is Some ==> #[trigger] final(self).leaf(v) == old(self).leaf(v),
    {
        let ghost t0 = *self;
        let ghost a0 = *alloc;
        let idx = vpn.indexes();
        let i0 = idx[0];
        let i1 = idx[1];
        let e0 = self.nodes[0][i0];
        let j1: usize;
        if !e0.valid() {
            let p = alloc_node(alloc);
            proof {
                assert(!t0.frame_set().contains(p.0));
            }
            self.add_node(0, i0, p);
            j1 = self.frames.len() - 1;
            proof {
                assert(self.frame_set() =~= t0.frame_set() + (a0.free_pages() - alloc.free_pages()));
            }
        } else {
            proof {
                assert(self.slot_ok(0, i0 as int));
            }
            j1 = self.find(e0.ppn());
            proof {
                assert(self.child_ok(j1 as int));
                assert(self.frame_set() =~= t0.frame_set() + (a0.free_pages() - alloc.free_pages()));
            }
        }
        let ghost t1 = *self;
        let ghost a1 = *alloc;
        proof {
            assert(pte_valid(t1.entry(0, i0 as int)));
            assert(t1.node_of(pte_ppn(t1.entry(0, i0 as int))) == j1);
            assert(t1.level@[j1 as int] == 1);
        }
        let e1 = self.nodes[j1][i1];
        let j2: usize;
        if !e1.valid() {
            let p = alloc_node(alloc);
            proof {
                assert(!t1.frame_set().contains(p.0));
            }
            self.add_node(j1, i1, p);
            j2 = self.frames.len() - 1;
            proof {
                let x0 = pte_ppn(t1.entry(0, i0 as int));
                assert(t1.slot_ok(0, i0 as int));
                assert(t1.has_frame(x0));
                assert(self.entry(0, i0 as int) == t1.entry(0, i0 as int));
                assert(self.node_of(x0) == t1.node_of(x0));
                assert(self.node_of(x0) == j1);
            }
        } else {
            proof {
                assert(self.slot_ok(j1 as int, i1 as int));
            }
            j2 = self.find(e1.ppn());
            proof {
                assert(self.child_ok(j2 as int));
            }
        }
        proof {
            assert(self.frame_set() =~= t0.frame_set() + (a0.free_pages() - alloc.free_pages()));
            assert(alloc.free_pages().subset_of(a0.free_pages()));
            assert(self.frame_set().disjoint(alloc.free_pages()));
        }
        j2
    }

    /// Sets entry `s` of the leaf node `j` to `e`.
    fn set_leaf(&mut self, j: usize, s: usize, e: PageTableEntry)
        requires
            old(self).wf(),
            j < old(self).frames@.len(),
            s < 512,
            old(self).level@[j as int] == 2,
        ensures
            final(self).wf(),
            final(self).root() == old(self).root(),
            final(self).frame_set() == old(self).frame_set(),
            forall|v: usize| #[trigger] final(self).leaf_node(v) == old(self).leaf_node(v),
            forall|v: usize|
                #[trigger] final(self).leaf(v) == if old(self).leaf_node(v) == Some(j as int)
                    && vpn_index(v, 0) == s {
                    Some(e)
                } else {
                    old(self).leaf(v)
                },
    {
        let ghost t0 = *self;
        let mut node = self.nodes[j].clone();
        node.set(s, e);
        self.nodes.set(j, node);
        proof {
            let t = *self;
            assert forall|k: int, m: int|
                0 <= k < t.frames@.len() && 0 <= m < 512 && k != j implies #[trigger] t.entry(k, m)
                == t0.entry(k, m) by {}
            assert forall|k: int| 0 <= k < t.frames@.len() implies #[trigger] t.nodes@[k]@.len() == 512 by {
                if k != j {
                    assert(t.nodes@[k] == t0.nodes@[k]);
                }
            }
            assert(t.frames_distinct());
            assert forall|x: usize| #[trigger] t.has_frame(x) == t0.has_frame(x) && t.node_of(x) == t0.node_of(x) by {}
            assert forall|k: int| 0 < k < t.frames@.len() implies #[trigger] t.child_ok(k) by {
                assert(t0.child_ok(k));
                let (pp, ss) = t0.parent@[k];
                if pp == j {
                    assert(t0.level@[k] == 3);
                }
            }
            assert forall|pp: int, ss: int|
                0 <= pp < t.frames@.len() && 0 <= ss < 512 && t.level@[pp] < 2 implies #[trigger] t.slot_ok(pp, ss) by {
                assert(t0.slot_ok(pp, ss));
                assert(pp != j);
            }
            assert(t.frame_set() =~= t0.frame_set());
            assert forall|v: usize| #[trigger] t.leaf_node(v) == t0.leaf_node(v) by {
                let i0 = vpn_index(v, 2) as int;
                let e0 = t0.entry(0, i0);
                if pte_valid(e0) {
                    assert(t0.slot_ok(0, i0));
                    let j1 = t0.node_of(pte_ppn(e0));
                    assert(t0.child_ok(j1));
                }
            }
            assert forall|v: usize|
                #[trigger] t.leaf(v) == if t0.leaf_node(v) == Some(j as int) && vpn_index(v, 0) == s {
                    Some(e)
                } else {
                    t0.leaf(v)
                } by {
                assert(t.leaf_node(v) == t0.leaf_node(v));
                if t0.leaf_node(v) is Some {
                    t0.lemma_leaf_path(v);
                }
            }
        }
    }

    /// Maps page `vpn` to frame `ppn` with `flags` and the valid flag, creating
    /// the inner nodes missing on the way with pages of the allocator. The page
    /// must not be mapped already.
    pub fn map(&mut self, vpn: VirtPageNum, ppn: PhysPageNum, flags: PTEFlags, alloc: &mut StackFrameAllocator)
        requires
            old(self).wf(),
            old(self).mapped(vpn.0) is None,
            old(alloc).wf(),
            frames_fit(*old(alloc)),
            spare_frames(*old(alloc)) >= 2,
            old(self).frame_set().disjoint(old(alloc).free_pages()),
        ensures
            final(self).wf(),
            final(alloc).wf(),
            frames_fit(*final(alloc)),
            final(self).frame_set().disjoint(final(alloc).free_pages()),
            final(alloc).free_pages().subset_of(old(alloc).free_pages()),
            final(self).frame_set() == old(self).frame_set() + (old(alloc).free_pages()
                - final(alloc).free_pages()),
            spare_frames(*final(alloc)) >= spare_frames(*old(alloc)) - 2,
            final(self).root() == old(self).root(),
            forall|v: usize|
                #[trigger] final(self).mapped(v) == if same_slot(v, vpn.0) {
                    Some(PageTableEntry { bits: ((ppn.0 as u64) << 10u64) | ((flags.bits | 1u8) as u64) })
                } else {
                    old(self).mapped(v)
                },
    {
        let j = self.walk_create(vpn, alloc);
        let idx = vpn.indexes();
        let e = PageTableEntry::new(ppn, flags.union(PTEFlags::V()));
        let ghost t1 = *self;
        proof {
            let fb = flags.bits;
            let f = (fb | 1u8) as u64;
            assert((fb | 1u8) as u64 % 2 == 1 && ((fb | 1u8) as u64) < 256) by (bit_vector);
            lemma_new_valid(ppn.0 as u64, f);
        }
        self.set_leaf(j, idx[2], e);
        proof {
            assert forall|v: usize|
                #[trigger] self.mapped(v) == if same_slot(v, vpn.0) {
                    Some(PageTableEntry { bits: ((ppn.0 as u64) << 10u64) | ((flags.bits | 1u8) as u64) })
                } else {
                    old(self).mapped(v)
                } by {
                if same_slot(v, vpn.0) {
                    assert(t1.leaf_node(v) == t1.leaf_node(vpn.0));
                } else if t1.leaf_node(v) == Some(j as int) && vpn_index(v, 0) == idx[2] {
                    t1.lemma_same_leaf_node(v, vpn.0);
                }
                assert(t1.mapped(v) == old(self).mapped(v));
            }
        }
    }

    /// Unmaps page `vpn`, which must be mapped: its leaf entry becomes empty.
    pub fn unmap(&mut self, vpn: VirtPageNum)
        requires
            old(self).wf(),
            old(self).mapped(vpn.0) is Some,
        ensures
            final(self).wf(),
            final(self).root() == old(self).root(),
            final(self).frame_set() == old(self).frame_set(),
            forall|v: usize|
                #[trigger] final(self).leaf(v) == if same_slot(v, vpn.0) {
                    Some(PageTableEntry { bits: 0 })
                } else {
                    old(self).leaf(v)
                },
    {
        let ghost t0 = *self;
        match self.locate(vpn) {
            Some(j) => {
                let idx = vpn.indexes();
                proof {
                    t0.lemma_leaf_path(vpn.0);
                }
                self.set_leaf(j, idx[2], PageTableEntry::empty());
                proof {
                    assert forall|v: usize|
                        #[trigger] self.leaf(v) == if same_slot(v, vpn.0) {
                            Some(PageTableEntry { bits: 0 })
                        } else {
                            t0.leaf(v)
                        } by {
                        if same_slot(v, vpn.0) {
                            assert(t0.leaf_node(v) == t0.leaf_node(vpn.0));
                        } else if t0.leaf_node(v) == Some(j as int) && vpn_index(v, 0) == idx[2] {
                            t0.lemma_same_leaf_node(v, vpn.0);
                        }
                    }
                }
            },
            None => {},
        }
    }

    /// Replaces the access flags of the leaf entry for `vpn` (see
    /// `PageTableEntry::modify_access`); `None`, and no change, where the walk
    /// reaches no leaf entry.
    pub fn modify_access(&mut self, vpn: VirtPageNum, flags: PTEFlags) -> (r: Option<()>)
        requires
            old(self).wf(),
        ensures
            final(self).wf(),
            old(self).leaf(vpn.0) is None ==> r is None && *final(self) == *old(self),
            old(self).leaf(vpn.0) matches Some(e) ==> {
                &&& r is Some
                &&& final(self).root() == old(self).root()
                &&& final(self).frame_set() == old(self).frame_set()
                &&& forall|v: usize|
                    #[trigger] final(self).leaf(v) == if same_slot(v, vpn.0) {
                        Some(
                            PageTableEntry {
                                bits: (e.bits & 0xffff_ffff_ffff_ff01u64) | ((flags.bits as u64) & 0xfeu64),
                            },
                        )
                    } else {
                        old(self).leaf(v)
                    }
            },
    {
        let ghost t0 = *self;
        match self.locate(vpn) {
            Some(j) => {
                let idx = vpn.indexes();
                proof {
                    t0.lemma_leaf_path(vpn.0);
                }
                let mut e = self.nodes[j][idx[2]];
                e.modify_access(flags);
                self.set_leaf(j, idx[2], e);
                proof {
                    assert forall|v: usize|
                        #[trigger] self.leaf(v) == if same_slot(v, vpn.0) {
                            Some(e)
                        } else {
                            t0.leaf(v)
                        } by {
                        if same_slot(v, vpn.0) {
                            assert(t0.leaf_node(v) == t0.leaf_node(vpn.0));
                        } else if t0.leaf_node(v) == Some(j as int) && vpn_index(v, 0) == idx[2] {
                            t0.lemma_same_leaf_node(v, vpn.0);
                        }
                    }
                }
                Some(())
            },
            None => None,
        }
    }

    /// The physical address that virtual address `va` maps to: the frame of the
    /// leaf entry for its page, valid or not, and its offset in the page; `None`
    /// where the walk reaches no leaf entry.
    pub fn translate_va(&self, va: VirtAddr) -> (r: Option<PhysAddr>)
        requires
            self.wf(),
        ensures
            r == match self.leaf(va.0 / 4096) {
                Some(e) => Some(PhysAddr(((pte_ppn(e) << 12usize) + va.0 % 4096) as usize)),
                None => None,
            },
    {
        match self.walk(va.to_vpn()) {
            Some(pte) => {
                let base = PhysAddr::from(pte.ppn());
                let off = va.page_offset();
                let x = pte.ppn().0;
                let y = va.0;
                proof {
                    assert(((x << 12usize) | (y % 4096usize)) == (x << 12usize) + (y % 4096usize))
                        by (bit_vector);
                }
                Some(base + off)
            },
            None => None,
        }
    }
}


/// Pages that select the same slots have the same leaf entry.
pub proof fn lemma_same_slot_leaf(t: PageTable, v: usize, w: usize)
    requires
        same_slot(v, w),
    ensures
        t.leaf(v) == t.leaf(w),
{
}

/// After `map` of a page, the walk for it gives the entry made: it is valid,
/// holds the frame (when its number fits in 44 bits) and the flags with the
/// valid flag.
pub proof fn lemma_map_then_translate(
    t0: PageTable,
    t1: PageTable,
    vpn: usize,
    ppn: PhysPageNum,
    flags: PTEFlags,
)
    requires
        ppn.0 < 0x1000_0000_0000,
        forall|v: usize|
            #[trigger] t1.mapped(v) == if same_slot(v, vpn) {
                Some(PageTableEntry { bits: ((ppn.0 as u64) << 10u64) | ((flags.bits | 1u8) as u64) })
            } else {
                t0.mapped(v)
            },
    ensures
        t1.leaf(vpn) matches Some(e) && pte_valid(e) && pte_ppn(e) == ppn.0 && e.bits % 256 == (flags.bits
            | 1u8),
{
    assert(t1.mapped(vpn) == Some(
        PageTableEntry { bits: ((ppn.0 as u64) << 10u64) | ((flags.bits | 1u8) as u64) },
    ));
    let p = ppn.0 as u64;
    let fb = flags.bits;
    assert(p < 0x1000_0000_0000 ==> (((p << 10u64) | ((fb | 1u8) as u64)) / 1024) % 0x1000_0000_0000 == p
        && ((p << 10u64) | ((fb | 1u8) as u64)) % 256 == (fb | 1u8) as u64) by (bit_vector);
}

/// Unmapping a page that `map` just mapped gives back what every page mapped
/// before.
pub proof fn lemma_unmap_undoes_map(
    t0: PageTable,
    t1: PageTable,
    t2: PageTable,
    vpn: usize,
    e: PageTableEntry,
)
    requires
        t0.mapped(vpn) is None,
        forall|v: usize|
            #[trigger] t1.mapped(v) == if same_slot(v, vpn) {
                Some(e)
            } else {
                t0.mapped(v)
            },
        forall|v: usize|
            #[trigger] t2.leaf(v) == if same_slot(v, vpn) {
                Some(PageTableEntry { bits: 0 })
            } else {
                t1.leaf(v)
            },
    ensures
        forall|v: usize| #[trigger] t2.mapped(v) == t0.mapped(v),
{
    assert forall|v: usize| #[trigger] t2.mapped(v) == t0.mapped(v) by {
        if same_slot(v, vpn) {
            lemma_same_slot_leaf(t0, v, vpn);
        } else {
            assert(t1.mapped(v) == t0.mapped(v));
        }
    }
}

} // verus!
