//! Meta-information of the file allocation table and cluster types.
use vstd::prelude::*;

verus! {

/// Placement of a FAT on disk.
pub struct FAT {
    /// First sector of the FAT.
    pub start: u32,
    /// Sector after the last sector of the FAT.
    pub end: u32,
    /// Number of entries in the FAT.
    pub len: u32,
    /// Number of entries in one sector.
    pub clen: u32,
}

/// The type of a cluster, as its FAT entry tells.
#[derive(Clone, Copy, PartialEq, Eq, Structural, Debug)]
pub enum CLUSTER {
    /// A free cluster.
    Free,
    /// A cluster in temporary use.
    Temp,
    /// A data cluster followed by another one.
    Data,
    /// A reserved cluster.
    Rsv,
    /// A bad cluster.
    Bad,
    /// The last cluster of a chain.
    Eoc,
}

/// The type of a cluster whose FAT entry is `clst_num`; only the low 28 bits count.
pub open spec fn cluster_type(clst_num: u32) -> CLUSTER {
    let tmp = clst_num % 0x1000_0000;
    if tmp == 0 {
        CLUSTER::Free
    } else if tmp == 1 {
        CLUSTER::Temp
    } else if tmp < 0x0FFF_FFF0 {
        CLUSTER::Data
    } else if tmp >= 0x0FFF_FFF8 {
        CLUSTER::Eoc
    } else if tmp < 0x0FFF_FFF7 {
        CLUSTER::Rsv
    } else {
        CLUSTER::Bad
    }
}

/// The type of a cluster given its FAT entry.
pub fn get_type(clst_num: u32) -> (r: CLUSTER)
    ensures
        r == cluster_type(clst_num),
{
    let mask: u32 = 0x0FFF_FFFF;
    let tmp = clst_num & mask;
    proof {
        assert((clst_num & 0x0FFF_FFFFu32) == clst_num % 0x1000_0000) by (bit_vector);
    }
    if tmp == 0 {
        return CLUSTER::Free;
    } else if tmp == 1 {
        return CLUSTER::Temp;
    } else if tmp < 0x0FFF_FFF0 {
        return CLUSTER::Data;
    } else if tmp >= 0x0FFF_FFF8 {
        return CLUSTER::Eoc;
    } else if tmp < 0x0FFF_FFF7 {
        return CLUSTER::Rsv;
    } else {
        return CLUSTER::Bad;
    }
}

} // verus!
