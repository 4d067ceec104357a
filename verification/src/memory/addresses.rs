//! Virtual address, physical address, physical page number, virtual page number.
use vstd::prelude::*;
use crate::config::{PAGE_OFFSET, PAGE_SIZE};

verus! {

/// A physical address.
///
/// `63 .. 12` hold the physical page number, `11 .. 0` the page offset.
#[derive(Clone, Copy, PartialEq, Eq, Structural, PartialOrd, Ord, Debug)]
pub struct PhysAddr(pub usize);

/// A virtual address in SV39.
///
/// `38 .. 30` level-2 index, `29 .. 21` level-1 index, `20 .. 12` level-0 index,
/// `11 .. 0` page offset.
#[derive(Clone, Copy, PartialEq, Eq, Structural, PartialOrd, Ord, Debug)]
pub struct VirtAddr(pub usize);

/// A physical page number.
#[derive(Clone, Copy, PartialEq, Eq, Structural, PartialOrd, Ord, Debug)]
pub struct PhysPageNum(pub usize);

/// A virtual page number.
#[derive(Clone, Copy, PartialEq, Eq, Structural, PartialOrd, Ord, Debug)]
pub struct VirtPageNum(pub usize);

/// The index into the page table of `level` (2 is the root) that a virtual
/// page number selects: nine bits of the page number.
pub open spec fn vpn_index(vpn: usize, level: int) -> usize {
    ((vpn as int / pow2_9(level)) % 512) as usize
}

/// `512` to the power `level`, for the three levels of SV39.
pub open spec fn pow2_9(level: int) -> int {
    if level == 0 {
        1
    } else if level == 1 {
        512
    } else {
        262144
    }
}

/// `x << 12` is `x * 4096` when the product fits.
proof fn lemma_shl_page(x: usize)
    ensures
        x * 4096 <= usize::MAX ==> (x << 12usize) == x * 4096,
        (x >> 12usize) == x / 4096,
{
    vstd::arithmetic::power2::lemma2_to64();
    if x * 4096 <= usize::MAX {
        vstd::bits::lemma_usize_shl_is_mul(x, 12);
    }
    vstd::bits::lemma_usize_shr_is_div(x, 12);
}

impl From<usize> for PhysAddr {
    fn from(num: usize) -> (r: Self) {
        Self(num)
    }
}

impl vstd::std_specs::convert::FromSpecImpl<usize> for PhysAddr {
    open spec fn obeys_from_spec() -> bool {
        true
    }

    open spec fn from_spec(num: usize) -> Self {
        PhysAddr(num)
    }
}

impl From<usize> for VirtAddr {
    fn from(num: usize) -> (r: Self) {
        Self(num)
    }
}

impl vstd::std_specs::convert::FromSpecImpl<usize> for VirtAddr {
    open spec fn obeys_from_spec() -> bool {
        true
    }

    open spec fn from_spec(num: usize) -> Self {
        VirtAddr(num)
    }
}

impl From<usize> for VirtPageNum {
    fn from(num: usize) -> (r: Self) {
        Self(num)
    }
}

impl vstd::std_specs::convert::FromSpecImpl<usize> for VirtPageNum {
    open spec fn obeys_from_spec() -> bool {
        true
    }

    open spec fn from_spec(num: usize) -> Self {
        VirtPageNum(num)
    }
}

impl From<usize> for PhysPageNum {
    fn from(num: usize) -> (r: Self) {
        Self(num)
    }
}

impl vstd::std_specs::convert::FromSpecImpl<usize> for PhysPageNum {
    open spec fn obeys_from_spec() -> bool {
        true
    }

    open spec fn from_spec(num: usize) -> Self {
        PhysPageNum(num)
    }
}

impl From<PhysAddr> for PhysPageNum {
    fn from(pa: PhysAddr) -> (r: Self) {
        proof {
            lemma_shl_page(pa.0);
        }
        Self(pa.0 >> PAGE_OFFSET)
    }
}

impl vstd::std_specs::convert::FromSpecImpl<PhysAddr> for PhysPageNum {
    open spec fn obeys_from_spec() -> bool {
        true
    }

    open spec fn from_spec(pa: PhysAddr) -> Self {
        PhysPageNum(pa.0 / 4096)
    }
}

impl From<PhysPageNum> for PhysAddr {
    fn from(ppn: PhysPageNum) -> (r: Self) {
        Self(ppn.0 << PAGE_OFFSET)
    }
}

impl vstd::std_specs::convert::FromSpecImpl<PhysPageNum> for PhysAddr {
    open spec fn obeys_from_spec() -> bool {
        true
    }

    open spec fn from_spec(ppn: PhysPageNum) -> Self {
        PhysAddr(ppn.0 << 12usize)
    }
}

impl From<VirtAddr> for VirtPageNum {
    fn from(va: VirtAddr) -> (r: Self) {
        proof {
            lemma_shl_page(va.0);
        }
        Self(va.0 >> PAGE_OFFSET)
    }
}

impl vstd::std_specs::convert::FromSpecImpl<VirtAddr> for VirtPageNum {
    open spec fn obeys_from_spec() -> bool {
        true
    }

    open spec fn from_spec(va: VirtAddr) -> Self {
        VirtPageNum(va.0 / 4096)
    }
}

impl From<VirtPageNum> for VirtAddr {
    fn from(vpn: VirtPageNum) -> (r: Self) {
        Self(vpn.0 << PAGE_OFFSET)
    }
}

impl vstd::std_specs::convert::FromSpecImpl<VirtPageNum> for VirtAddr {
    open spec fn obeys_from_spec() -> bool {
        true
    }

    open spec fn from_spec(vpn: VirtPageNum) -> Self {
        VirtAddr(vpn.0 << 12usize)
    }
}


impl core::ops::Add<usize> for VirtAddr {
    type Output = VirtAddr;

    fn add(self, rhs: usize) -> (r: VirtAddr) {
        VirtAddr(self.0 + rhs)
    }
}

impl vstd::std_specs::ops::AddSpecImpl<usize> for VirtAddr {
    open spec fn obeys_add_spec() -> bool {
        true
    }

    open spec fn add_req(self, rhs: usize) -> bool {
        self.0 + rhs <= usize::MAX
    }

    open spec fn add_spec(self, rhs: usize) -> VirtAddr {
        VirtAddr((self.0 + rhs) as usize)
    }
}

impl core::ops::Sub<usize> for VirtAddr {
    type Output = VirtAddr;

    fn sub(self, rhs: usize) -> (r: VirtAddr) {
        VirtAddr(self.0 - rhs)
    }
}

impl vstd::std_specs::ops::SubSpecImpl<usize> for VirtAddr {
    open spec fn obeys_sub_spec() -> bool {
        true
    }

    open spec fn sub_req(self, rhs: usize) -> bool {
        self.0 >= rhs
    }

    open spec fn sub_spec(self, rhs: usize) -> VirtAddr {
        VirtAddr((self.0 - rhs) as usize)
    }
}

impl core::ops::Add<VirtAddr> for usize {
    type Output = VirtAddr;

    fn add(self, rhs: VirtAddr) -> (r: VirtAddr) {
        VirtAddr(rhs.0 + self)
    }
}

impl vstd::std_specs::ops::AddSpecImpl<VirtAddr> for usize {
    open spec fn obeys_add_spec() -> bool {
        true
    }

    open spec fn add_req(self, rhs: VirtAddr) -> bool {
        self + rhs.0 <= usize::MAX
    }

    open spec fn add_spec(self, rhs: VirtAddr) -> VirtAddr {
        VirtAddr((self + rhs.0) as usize)
    }
}

impl core::ops::Add<usize> for PhysAddr {
    type Output = PhysAddr;

    fn add(self, rhs: usize) -> (r: PhysAddr) {
        PhysAddr(self.0 + rhs)
    }
}

impl vstd::std_specs::ops::AddSpecImpl<usize> for PhysAddr {
    open spec fn obeys_add_spec() -> bool {
        true
    }

    open spec fn add_req(self, rhs: usize) -> bool {
        self.0 + rhs <= usize::MAX
    }

    open spec fn add_spec(self, rhs: usize) -> PhysAddr {
        PhysAddr((self.0 + rhs) as usize)
    }
}

impl core::ops::Sub<usize> for PhysAddr {
    type Output = PhysAddr;

    fn sub(self, rhs: usize) -> (r: PhysAddr) {
        PhysAddr(self.0 - rhs)
    }
}

impl vstd::std_specs::ops::SubSpecImpl<usize> for PhysAddr {
    open spec fn obeys_sub_spec() -> bool {
        true
    }

    open spec fn sub_req(self, rhs: usize) -> bool {
        self.0 >= rhs
    }

    open spec fn sub_spec(self, rhs: usize) -> PhysAddr {
        PhysAddr((self.0 - rhs) as usize)
    }
}

impl core::ops::Add<PhysAddr> for usize {
    type Output = PhysAddr;

    fn add(self, rhs: PhysAddr) -> (r: PhysAddr) {
        PhysAddr(rhs.0 + self)
    }
}

impl vstd::std_specs::ops::AddSpecImpl<PhysAddr> for usize {
    open spec fn obeys_add_spec() -> bool {
        true
    }

    open spec fn add_req(self, rhs: PhysAddr) -> bool {
        self + rhs.0 <= usize::MAX
    }

    open spec fn add_spec(self, rhs: PhysAddr) -> PhysAddr {
        PhysAddr((self + rhs.0) as usize)
    }
}

impl core::ops::Add<usize> for PhysPageNum {
    type Output = PhysPageNum;

    fn add(self, rhs: usize) -> (r: PhysPageNum) {
        PhysPageNum(self.0 + rhs)
    }
}

impl vstd::std_specs::ops::AddSpecImpl<usize> for PhysPageNum {
    open spec fn obeys_add_spec() -> bool {
        true
    }

    open spec fn add_req(self, rhs: usize) -> bool {
        self.0 + rhs <= usize::MAX
    }

    open spec fn add_spec(self, rhs: usize) -> PhysPageNum {
        PhysPageNum((self.0 + rhs) as usize)
    }
}

impl core::ops::Sub<usize> for PhysPageNum {
    type Output = PhysPageNum;

    fn sub(self, rhs: usize) -> (r: PhysPageNum) {
        PhysPageNum(self.0 - rhs)
    }
}

impl vstd::std_specs::ops::SubSpecImpl<usize> for PhysPageNum {
    open spec fn obeys_sub_spec() -> bool {
        true
    }

    open spec fn sub_req(self, rhs: usize) -> bool {
        self.0 >= rhs
    }

    open spec fn sub_spec(self, rhs: usize) -> PhysPageNum {
        PhysPageNum((self.0 - rhs) as usize)
    }
}

impl core::ops::Add<PhysPageNum> for usize {
    type Output = PhysPageNum;

    fn add(self, rhs: PhysPageNum) -> (r: PhysPageNum) {
        PhysPageNum(rhs.0 + self)
    }
}

impl vstd::std_specs::ops::AddSpecImpl<PhysPageNum> for usize {
    open spec fn obeys_add_spec() -> bool {
        true
    }

    open spec fn add_req(self, rhs: PhysPageNum) -> bool {
        self + rhs.0 <= usize::MAX
    }

    open spec fn add_spec(self, rhs: PhysPageNum) -> PhysPageNum {
        PhysPageNum((self + rhs.0) as usize)
    }
}

impl core::ops::Add<usize> for VirtPageNum {
    type Output = VirtPageNum;

    fn add(self, rhs: usize) -> (r: VirtPageNum) {
        VirtPageNum(self.0 + rhs)
    }
}

impl vstd::std_specs::ops::AddSpecImpl<usize> for VirtPageNum {
    open spec fn obeys_add_spec() -> bool {
        true
    }

    open spec fn add_req(self, rhs: usize) -> bool {
        self.0 + rhs <= usize::MAX
    }

    open spec fn add_spec(self, rhs: usize) -> VirtPageNum {
        VirtPageNum((self.0 + rhs) as usize)
    }
}

impl core::ops::Sub<usize> for VirtPageNum {
    type Output = VirtPageNum;

    fn sub(self, rhs: usize) -> (r: VirtPageNum) {
        VirtPageNum(self.0 - rhs)
    }
}

impl vstd::std_specs::ops::SubSpecImpl<usize> for VirtPageNum {
    open spec fn obeys_sub_spec() -> bool {
        true
    }

    open spec fn sub_req(self, rhs: usize) -> bool {
        self.0 >= rhs
    }

    open spec fn sub_spec(self, rhs: usize) -> VirtPageNum {
        VirtPageNum((self.0 - rhs) as usize)
    }
}

impl core::ops::Add<VirtPageNum> for usize {
    type Output = VirtPageNum;

    fn add(self, rhs: VirtPageNum) -> (r: VirtPageNum) {
        VirtPageNum(rhs.0 + self)
    }
}

impl vstd::std_specs::ops::AddSpecImpl<VirtPageNum> for usize {
    open spec fn obeys_add_spec() -> bool {
        true
    }

    open spec fn add_req(self, rhs: VirtPageNum) -> bool {
        self + rhs.0 <= usize::MAX
    }

    open spec fn add_spec(self, rhs: VirtPageNum) -> VirtPageNum {
        VirtPageNum((self + rhs.0) as usize)
    }
}

impl core::ops::Sub<VirtPageNum> for VirtPageNum {
    type Output = usize;

    fn sub(self, rhs: VirtPageNum) -> (r: usize) {
        self.0 - rhs.0
    }
}

impl vstd::std_specs::ops::SubSpecImpl<VirtPageNum> for VirtPageNum {
    open spec fn obeys_sub_spec() -> bool {
        true
    }

    open spec fn sub_req(self, rhs: VirtPageNum) -> bool {
        self.0 >= rhs.0
    }

    open spec fn sub_spec(self, rhs: VirtPageNum) -> usize {
        (self.0 - rhs.0) as usize
    }
}

impl VirtAddr {
    /// The virtual page that holds this address.
    pub fn to_vpn(&self) -> (r: VirtPageNum)
        ensures
            r.0 == self.0 / PAGE_SIZE,
    {
        VirtPageNum(self.0 / PAGE_SIZE)
    }

    /// The first virtual page at or above this address, for a nonzero address.
    pub fn to_vpn_ceil(&self) -> (r: VirtPageNum)
        requires
            self.0 > 0,
        ensures
            r.0 == (self.0 - 1) / PAGE_SIZE as int + 1,
    {
        VirtPageNum((self.0 - 1) / PAGE_SIZE + 1)
    }

    /// The offset of this address inside its page.
    pub fn page_offset(&self) -> (r: usize)
        ensures
            r == self.0 % PAGE_SIZE,
            r < PAGE_SIZE,
    {
        self.0 % PAGE_SIZE
    }
}

impl PhysAddr {
    /// The physical page that holds this address.
    pub fn to_vpn(&self) -> (r: PhysPageNum)
        ensures
            r.0 == self.0 / PAGE_SIZE,
    {
        PhysPageNum(self.0 / PAGE_SIZE)
    }

    /// The first physical page at or above this address, for a nonzero address.
    pub fn to_vpn_ceil(&self) -> (r: PhysPageNum)
        requires
            self.0 > 0,
        ensures
            r.0 == (self.0 - 1) / PAGE_SIZE as int + 1,
    {
        PhysPageNum((self.0 - 1) / PAGE_SIZE + 1)
    }

    /// The offset of this address inside its page.
    pub fn page_offset(&self) -> (r: usize)
        ensures
            r == self.0 % PAGE_SIZE,
            r < PAGE_SIZE,
    {
        self.0 % PAGE_SIZE
    }
}

impl PhysPageNum {
    /// The physical address of the first byte of this page.
    pub fn head_pa(&self) -> (r: PhysAddr)
        ensures
            r.0 == (self.0 << 12usize),
            self.0 * PAGE_SIZE <= usize::MAX ==> r.0 == self.0 * PAGE_SIZE,
    {
        proof {
            lemma_shl_page(self.0);
        }
        PhysAddr(self.0 << PAGE_OFFSET)
    }
}

impl VirtPageNum {
    /// The three SV39 page-table indexes of this page number, root level first.
    pub fn indexes(&self) -> (r: [usize; 3])
        ensures
            r@.len() == 3,
            r@[0] == vpn_index(self.0, 2),
            r@[1] == vpn_index(self.0, 1),
            r@[2] == vpn_index(self.0, 0),
            r@[0] < 512 && r@[1] < 512 && r@[2] < 512,
    {
        let v = self.0;
        proof {
            assert(((v >> 18usize) & 0x1ffusize) == (v / 262144) % 512) by (bit_vector);
            assert(((v >> 9usize) & 0x1ffusize) == (v / 512) % 512) by (bit_vector);
            assert((v & 0x1ffusize) == v % 512) by (bit_vector);
        }
        [(v >> 18) & 0x1ff, (v >> 9) & 0x1ff, v & 0x1ff]
    }
}

} // verus!
