//! In-memory copy of one block of the boot device.
use vstd::prelude::*;
use super::BLOCK_SZ;

verus! {

/// The cached content of a block: its bytes, its number on the device, and
/// whether it changed since it was read or last written back. The device is
/// read and written by the caller: it hands the bytes to `new`, and writes back
/// what `sync` hands out.
pub struct BlockCache {
    cache: [u8; BLOCK_SZ],
    block_id: usize,
    modified: bool,
}

impl BlockCache {
    /// The bytes of the block.
    pub closed spec fn bytes(&self) -> Seq<u8> {
        self.cache@
    }

    /// A block holds `BLOCK_SZ` bytes.
    pub proof fn lemma_bytes_len(&self)
        ensures
            self.bytes().len() == BLOCK_SZ,
    {
    }

    /// The number of the block on the device.
    pub closed spec fn id(&self) -> usize {
        self.block_id
    }

    /// Whether the bytes changed since they were read or last written back.
    pub closed spec fn is_modified(&self) -> bool {
        self.modified
    }

    /// The cache of block `block_id`, whose bytes on the device are `cache`.
    pub fn new(block_id: usize, cache: [u8; BLOCK_SZ]) -> (r: Self)
        ensures
            r.bytes() == cache@,
            r.id() == block_id,
            !r.is_modified(),
    {
        BlockCache { cache, block_id, modified: false }
    }

    /// Sets every byte to zero and forgets the changes, without writing back.
    pub fn clear(&mut self)
        ensures
            final(self).bytes() == Seq::new(BLOCK_SZ as nat, |i: int| 0u8),
            final(self).id() == old(self).id(),
            !final(self).is_modified(),
    {
        self.modified = false;
        let mut i: usize = 0;
        while i < BLOCK_SZ
            invariant
                i <= BLOCK_SZ,
                self.block_id == old(self).block_id,
                !self.modified,
                forall|j: int| 0 <= j < i ==> #[trigger] self.cache@[j] == 0u8,
            decreases BLOCK_SZ - i,
        {
            self.cache[i] = 0;
            i = i + 1;
        }
        assert(self.cache@ =~= Seq::new(BLOCK_SZ as nat, |i: int| 0u8));
    }

    /// What is to be written back: the block's number and bytes when they
    /// changed (the cache then counts as written back), nothing otherwise.
    pub fn sync(&mut self) -> (r: Option<(usize, [u8; BLOCK_SZ])>)
        ensures
            old(self).is_modified() ==> r is Some && (r->0).0 == old(self).id() && (r->0).1@ == old(self).bytes(),
            !old(self).is_modified() ==> r is None,
            final(self).bytes() == old(self).bytes(),
            final(self).id() == old(self).id(),
            !final(self).is_modified(),
    {
        if self.modified {
            self.modified = false;
            return Some((self.block_id, self.cache));
        }
        return None;
    }

    /// The `len` bytes from `offset`.
    pub fn read(&self, offset: usize, len: usize) -> (r: Vec<u8>)
        requires
            offset + len <= BLOCK_SZ,
        ensures
            r@ == self.bytes().subrange(offset as int, offset + len),
    {
        let mut v: Vec<u8> = Vec::new();
        let mut i: usize = 0;
        while i < len
            invariant
                offset + len <= BLOCK_SZ,
                i <= len,
                v@ == self.cache@.subrange(offset as int, offset + i),
            decreases len - i,
        {
            v.push(self.cache[offset + i]);
            i = i + 1;
            proof {
                assert(v@ =~= self.cache@.subrange(offset as int, offset + i));
            }
        }
        v
    }

    /// Writes `bytes` from `offset`; the cache counts as changed.
    pub fn modify(&mut self, offset: usize, bytes: &[u8])
        requires
            offset + bytes@.len() <= BLOCK_SZ,
        ensures
            final(self).bytes() == old(self).bytes().subrange(0, offset as int) + bytes@
                + old(self).bytes().subrange(offset + bytes@.len(), BLOCK_SZ as int),
            final(self).id() == old(self).id(),
            final(self).is_modified(),
    {
        self.modified = true;
        let mut i: usize = 0;
        while i < bytes.len()
            invariant
                offset + bytes@.len() <= BLOCK_SZ,
                i <= bytes@.len(),
                self.block_id == old(self).block_id,
                self.modified,
                forall|j: int|
                    0 <= j < BLOCK_SZ ==> #[trigger] self.cache@[j] == if offset <= j < offset + i {
                        bytes@[j - offset]
                    } else {
                        old(self).cache@[j]
                    },
            decreases bytes@.len() - i,
        {
            self.cache[offset + i] = bytes[i];
            i = i + 1;
        }
        assert(self.cache@ =~= old(self).cache@.subrange(0, offset as int) + bytes@ + old(
            self,
        ).cache@.subrange(offset + bytes@.len(), BLOCK_SZ as int));
    }
}


/// What a read of the cache gives back of a write: after `modify` put `bytes`
/// at `offset`, `read` of that range gives `bytes`.
pub proof fn lemma_modify_then_read(c0: BlockCache, c1: BlockCache, offset: int, bytes: Seq<u8>)
    requires
        0 <= offset,
        offset + bytes.len() <= BLOCK_SZ,
        c1.bytes() == c0.bytes().subrange(0, offset) + bytes + c0.bytes().subrange(
            offset + bytes.len(),
            BLOCK_SZ as int,
        ),
    ensures
        c1.bytes().subrange(offset, offset + bytes.len()) == bytes,
{
    c0.lemma_bytes_len();
    assert(c1.bytes().subrange(offset, offset + bytes.len()) =~= bytes);
}

} // verus!
