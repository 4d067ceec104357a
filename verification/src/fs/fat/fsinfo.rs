//! The FSINFO sector of FAT32: the count of free clusters and where to look
//! for the next one.
use vstd::prelude::*;
use crate::fs::block_cache::{BlockCache, BLOCK_SZ};
use crate::fs::fs_impl::fat32::dbr::{le16, le32};
use crate::fs::fs_impl::fat32::dirent::u32_le;

verus! {

/// The values of the FSINFO sector that the file system keeps.
pub struct FSINFO {
    /// The number of free clusters.
    pub free_clst: u32,
    /// The cluster from which to look for a free one.
    pub next_clst: u32,
}

/// The extension flag at the start of the sector.
pub const EXT_FLAG: u32 = 0x41615252;

/// The signature at offset `0x1E4`.
pub const FSINFO_SIGN: u32 = 0x61417272;

/// The offset of the free cluster count.
pub const FCLST_OFFSET: usize = 0x1E8;

/// The offset of the next free cluster.
pub const NCLST_OFFSET: usize = 0x1EC;

/// The little-endian `u32` at `off` of the bytes `b`.
pub open spec fn u32_at(b: Seq<u8>, off: int) -> int {
    le32(b[off], b[off + 1], b[off + 2], b[off + 3])
}

/// The bytes of `v`, low byte first.
fn u32_bytes(v: u32) -> (r: [u8; 4])
    ensures
        r@ == u32_le(v),
{
    let r = [(v % 256) as u8, ((v / 256) % 256) as u8, ((v / 65536) % 256) as u8, (v / 16777216) as u8];
    assert(r@ =~= u32_le(v));
    r
}

/// The little-endian `u32` at `off` of the cached block.
fn read_u32(cache: &BlockCache, off: usize) -> (r: u32)
    requires
        off + 4 <= BLOCK_SZ,
    ensures
        r == u32_at(cache.bytes(), off as int),
{
    let b = cache.read(off, 4);
    proof {
        cache.lemma_bytes_len();
        let s = cache.bytes().subrange(off as int, off + 4);
        assert(b@ == s);
        assert(s[0] == cache.bytes()[off as int]);
        assert(s[1] == cache.bytes()[off + 1]);
        assert(s[2] == cache.bytes()[off + 2]);
        assert(s[3] == cache.bytes()[off + 3]);
    }
    b[0] as u32 + 256 * (b[1] as u32) + 65536 * (b[2] as u32) + 16777216 * (b[3] as u32)
}

impl FSINFO {
    /// Sets the free cluster count, in this value and in the cached sector; an
    /// error when it exceeds the volume's `cluster_cnt` clusters.
    pub fn set_fclst(&mut self, cache: &mut BlockCache, cluster_cnt: u32, fclst: u32) -> (r: Result<(), &'static str>)
        ensures
            fclst > cluster_cnt ==> r is Err && r->Err_0@ == "set_fclst: invalid fclst"@
                && *final(self) == *old(self) && *final(cache) == *old(cache),
            fclst <= cluster_cnt ==> {
                &&& r is Ok
                &&& final(self).free_clst == fclst
                &&& final(self).next_clst == old(self).next_clst
                &&& final(cache).bytes() == old(cache).bytes().subrange(0, FCLST_OFFSET as int) + u32_le(
                    fclst,
                ) + old(cache).bytes().subrange(FCLST_OFFSET + 4, BLOCK_SZ as int)
                &&& final(cache).id() == old(cache).id()
                &&& final(cache).is_modified()
            },
    {
        if fclst > cluster_cnt {
            proof {
                reveal_strlit("set_fclst: invalid fclst");
            }
            return Err("set_fclst: invalid fclst");
        }
        self.free_clst = fclst;
        let b = u32_bytes(fclst);
        cache.modify(FCLST_OFFSET, &b);
        return Ok(());
    }

    /// Sets the next free cluster, in this value and in the cached sector.
    pub fn set_nclst(&mut self, cache: &mut BlockCache, nclst: u32) -> (r: Result<(), &'static str>)
        ensures
            r is Ok,
            final(self).next_clst == nclst,
            final(self).free_clst == old(self).free_clst,
            final(cache).bytes() == old(cache).bytes().subrange(0, NCLST_OFFSET as int) + u32_le(
                nclst,
            ) + old(cache).bytes().subrange(NCLST_OFFSET + 4, BLOCK_SZ as int),
            final(cache).id() == old(cache).id(),
            final(cache).is_modified(),
    {
        self.next_clst = nclst;
        let b = u32_bytes(nclst);
        cache.modify(NCLST_OFFSET, &b);
        return Ok(());
    }
}

/// The FSINFO sector is valid: the extension flag, the signature, and the
/// block signature `0xAA55` stand where they belong.
pub open spec fn fsinfo_valid(b: Seq<u8>) -> bool {
    &&& u32_at(b, 0) == EXT_FLAG
    &&& u32_at(b, 0x1E4) == FSINFO_SIGN
    &&& le16(b[0x1FE], b[0x1FF]) == 0xAA55
}

/// The values of the FSINFO sector held in `cache`, which must be valid (an
/// invalid sector is a corrupt volume).
pub fn get_fsinfo(cache: &BlockCache) -> (r: FSINFO)
    requires
        fsinfo_valid(cache.bytes()),
    ensures
        r.free_clst == u32_at(cache.bytes(), FCLST_OFFSET as int),
        r.next_clst == u32_at(cache.bytes(), NCLST_OFFSET as int),
{
    let free_clst = read_u32(cache, FCLST_OFFSET);
    let next_clst = read_u32(cache, NCLST_OFFSET);
    FSINFO { free_clst, next_clst }
}


/// A `u32` written low byte first reads back as itself.
proof fn lemma_u32_round_trip(v: u32)
    ensures
        u32_at(u32_le(v), 0) == v,
{
    assert((v % 256) + 256 * ((v / 256) % 256) + 65536 * ((v / 65536) % 256) + 16777216 * (v
        / 16777216) == v) by (bit_vector);
}

/// What `get_fsinfo` gives back of a write: after `set_fclst` stored `fclst`
/// (or `set_nclst` stored `nclst`), the free count (or next free cluster) read
/// from the sector is that value, and the other one is unchanged.
pub proof fn lemma_set_then_get(b0: Seq<u8>, b1: Seq<u8>, off: int, v: u32)
    requires
        b0.len() == BLOCK_SZ,
        off == FCLST_OFFSET || off == NCLST_OFFSET,
        b1 == b0.subrange(0, off) + u32_le(v) + b0.subrange(off + 4, BLOCK_SZ as int),
    ensures
        u32_at(b1, off) == v,
        off == FCLST_OFFSET ==> u32_at(b1, NCLST_OFFSET as int) == u32_at(b0, NCLST_OFFSET as int),
        off == NCLST_OFFSET ==> u32_at(b1, FCLST_OFFSET as int) == u32_at(b0, FCLST_OFFSET as int),
        fsinfo_valid(b0) ==> fsinfo_valid(b1),
{
    lemma_u32_round_trip(v);
    let w = u32_le(v);
    assert(b1[off] == w[0] && b1[off + 1] == w[1] && b1[off + 2] == w[2] && b1[off + 3] == w[3]);
}

} // verus!
