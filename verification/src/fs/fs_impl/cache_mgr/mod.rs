//! Caches of the blocks of a block device, and the manager that keeps a bounded
//! number of them.
pub mod blkcache;

pub use blkcache::BlockCache;

use vstd::prelude::*;

verus! {

/// The size of a block in bytes.
pub const BLOCK_SZ: usize = 512;

/// The number of blocks the manager keeps cached at most.
pub const BLOCK_CACHE_SIZE: usize = 16;

/// The block caches that are kept, oldest first, each with its block's number.
/// The device is read and written by the caller: it hands the manager the bytes
/// of a block to cache, and writes back what the manager hands out.
pub struct BlockCacheManager {
    pub queue: Vec<(usize, BlockCache)>,
}

/// The block numbers of the caches in `q`.
pub open spec fn queue_ids(q: Seq<(usize, BlockCache)>) -> Seq<usize> {
    q.map_values(|p: (usize, BlockCache)| p.0)
}

/// The first index at or after `k` where `shared` is false (its length when
/// there is none).
pub open spec fn first_unshared(shared: Seq<bool>, k: int) -> int
    decreases shared.len() - k,
{
    if k >= shared.len() {
        shared.len() as int
    } else if !shared[k] {
        k
    } else {
        first_unshared(shared, k + 1)
    }
}

/// What is to be written back of the caches `q`, in order: the number and bytes
/// of each block whose cache changed.
pub open spec fn pending_writes(q: Seq<(usize, BlockCache)>) -> Seq<(usize, Seq<u8>)>
    decreases q.len(),
{
    if q.len() == 0 {
        Seq::empty()
    } else {
        let rest = pending_writes(q.drop_last());
        if q.last().1.is_modified() {
            rest.push((q.last().1.id(), q.last().1.bytes()))
        } else {
            rest
        }
    }
}

proof fn lemma_first_unshared(shared: Seq<bool>, k: int)
    requires
        0 <= k <= shared.len(),
    ensures
        k <= first_unshared(shared, k) <= shared.len(),
        first_unshared(shared, k) < shared.len() ==> !shared[first_unshared(shared, k)],
        forall|j: int| k <= j < first_unshared(shared, k) ==> #[trigger] shared[j],
    decreases shared.len() - k,
{
    if k < shared.len() && shared[k] {
        lemma_first_unshared(shared, k + 1);
    }
}

impl BlockCacheManager {
    /// The manager's invariant: at most `BLOCK_CACHE_SIZE` caches, each kept
    /// under its own block's number, no block cached twice.
    pub open spec fn wf(&self) -> bool {
        &&& self.queue@.len() <= BLOCK_CACHE_SIZE
        &&& forall|i: int| 0 <= i < self.queue@.len() ==> (#[trigger] self.queue@[i]).0 == self.queue@[i].1.id()
        &&& forall|i: int, j: int|
            0 <= i < j < self.queue@.len() ==> (#[trigger] self.queue@[i]).0 != (#[trigger] self.queue@[j]).0
    }

    /// A manager with no cache.
    pub fn new() -> (r: Self)
        ensures
            r.wf(),
            r.queue@.len() == 0,
    {
        BlockCacheManager { queue: Vec::new() }
    }

    /// The index of the cache of block `block_id`, if it is kept.
    pub fn find(&self, block_id: usize) -> (r: Option<usize>)
        ensures
            r is Some ==> r->0 < self.queue@.len() && self.queue@[r->0 as int].0 == block_id,
            r is None <==> !queue_ids(self.queue@).contains(block_id),
    {
        let mut i: usize = 0;
        while i < self.queue.len()
            invariant
                i <= self.queue@.len(),
                forall|j: int| 0 <= j < i ==> (#[trigger] self.queue@[j]).0 != block_id,
            decreases self.queue@.len() - i,
        {
            if self.queue[i].0 == block_id {
                assert(queue_ids(self.queue@)[i as int] == block_id);
                return Some(i);
            }
            i = i + 1;
        }
        proof {
            if queue_ids(self.queue@).contains(block_id) {
                let j = choose|j: int| 0 <= j < queue_ids(self.queue@).len() && queue_ids(self.queue@)[j] == block_id;
                assert(self.queue@[j].0 == block_id);
            }
        }
        None
    }

    /// The cache of block `block_id`, by its index in the queue, and the cache
    /// that made room for it. A kept cache is returned as it is. Otherwise a
    /// cache of the block is made from `data`, its bytes on the device, and put
    /// at the end; when the manager is full, the oldest cache that is not in use
    /// elsewhere (`shared` tells, cache by cache) leaves first, and is returned
    /// so that the caller can write it back. The manager must not be full of
    /// caches in use.
    pub fn get_block_cache(&mut self, block_id: usize, shared: &[bool], data: [u8; BLOCK_SZ]) -> (r: (
        usize,
        Option<BlockCache>,
    ))
        requires
            old(self).wf(),
            shared@.len() == old(self).queue@.len(),
            !queue_ids(old(self).queue@).contains(block_id) && old(self).queue@.len() == BLOCK_CACHE_SIZE
                ==> first_unshared(shared@, 0) < shared@.len(),
        ensures
            final(self).wf(),
            queue_ids(old(self).queue@).contains(block_id) ==> {
                &&& *final(self) == *old(self)
                &&& r.0 < final(self).queue@.len()
                &&& final(self).queue@[r.0 as int].0 == block_id
                &&& r.1 is None
            },
            !queue_ids(old(self).queue@).contains(block_id) ==> {
                let full = old(self).queue@.len() == BLOCK_CACHE_SIZE;
                let k = first_unshared(shared@, 0);
                let kept = if full {
                    old(self).queue@.remove(k)
                } else {
                    old(self).queue@
                };
                &&& final(self).queue@ == kept.push((block_id, final(self).queue@.last().1))
                &&& final(self).queue@.last().1.bytes() == data@
                &&& final(self).queue@.last().1.id() == block_id
                &&& !final(self).queue@.last().1.is_modified()
                &&& r.0 == kept.len()
                &&& full ==> r.1 == Some(old(self).queue@[k].1)
                &&& !full ==> r.1 is None
            },
    {
        if let Some(i) = self.find(block_id) {
            return (i, None);
        }
        let mut evicted: Option<BlockCache> = None;
        let ghost q0 = self.queue@;
        if self.queue.len() == BLOCK_CACHE_SIZE {
            let mut k: usize = 0;
            proof {
                lemma_first_unshared(shared@, 0);
            }
            while k < shared.len() && shared[k]
                invariant
                    k <= shared@.len(),
                    forall|j: int| 0 <= j < k ==> #[trigger] shared@[j],
                    first_unshared(shared@, 0) < shared@.len(),
                    shared@.len() == q0.len(),
                    self.queue@ == q0,
                decreases shared@.len() - k,
            {
                k = k + 1;
            }
            proof {
                lemma_first_unshared(shared@, 0);
                if first_unshared(shared@, 0) != k {
                    assert(shared@[first_unshared(shared@, 0)] == false);
                }
            }
            let p = self.queue.remove(k);
            evicted = Some(p.1);
        }
        let ghost kept = self.queue@;
        let cache = BlockCache::new(block_id, data);
        self.queue.push((block_id, cache));
        proof {
            assert(self.queue@.last().1 == cache);
            assert forall|i: int, j: int|
                0 <= i < j < self.queue@.len() implies (#[trigger] self.queue@[i]).0 != (
                #[trigger] self.queue@[j]).0 by {
                if j == self.queue@.len() - 1 {
                    assert(self.queue@[i] == kept[i]);
                    assert(queue_ids(q0).contains(kept[i].0)) by {
                        if q0.len() == BLOCK_CACHE_SIZE {
                            let k = first_unshared(shared@, 0);
                            if i < k {
                                assert(queue_ids(q0)[i] == kept[i].0);
                            } else {
                                assert(queue_ids(q0)[i + 1] == kept[i].0);
                            }
                        } else {
                            assert(queue_ids(q0)[i] == kept[i].0);
                        }
                    }
                }
            }
        }
        (self.queue.len() - 1, evicted)
    }

    /// Clears the cache of block `block_id`, if it is kept (see
    /// `BlockCache::clear`); the block on the device is the caller's to clear.
    pub fn clear_block_cache(&mut self, block_id: usize)
        requires
            old(self).wf(),
        ensures
            final(self).wf(),
            queue_ids(final(self).queue@) == queue_ids(old(self).queue@),
            forall|i: int|
                0 <= i < old(self).queue@.len() ==> {
                    let c = (#[trigger] final(self).queue@[i]).1;
                    let c0 = old(self).queue@[i].1;
                    &&& c.id() == c0.id()
                    &&& old(self).queue@[i].0 == block_id ==> c.bytes() == Seq::new(
                        BLOCK_SZ as nat,
                        |j: int| 0u8,
                    ) && !c.is_modified()
                    &&& old(self).queue@[i].0 != block_id ==> c == c0
                },
    {
        if let Some(i) = self.find(block_id) {
            let ghost q0 = self.queue@;
            let mut p = self.queue.remove(i);
            p.1.clear();
            self.queue.insert(i, p);
            proof {
                assert(self.queue@[i as int] == p);
                assert(p.0 == block_id);
                assert(queue_ids(self.queue@) =~= queue_ids(q0));
                assert forall|a: int| 0 <= a < q0.len() && a != i implies self.queue@[a] == q0[a]
                    && q0[a].0 != block_id by {
                    if a < i {
                        assert(q0[a].0 != q0[i as int].0);
                    } else {
                        assert(q0[i as int].0 != q0[a].0);
                    }
                }
            }
        } else {
            assert forall|a: int| 0 <= a < self.queue@.len() implies self.queue@[a].0 != block_id by {
                assert(queue_ids(self.queue@)[a] == self.queue@[a].0);
            }
        }
    }

    /// Hands out what is to be written back of every cache (see
    /// `BlockCache::sync`), oldest first; the caches stay, none changed since.
    pub fn flush_all(&mut self) -> (r: Vec<(usize, [u8; BLOCK_SZ])>)
        requires
            old(self).wf(),
        ensures
            final(self).wf(),
            queue_ids(final(self).queue@) == queue_ids(old(self).queue@),
            forall|i: int|
                0 <= i < old(self).queue@.len() ==> {
                    let c = (#[trigger] final(self).queue@[i]).1;
                    &&& c.id() == old(self).queue@[i].1.id()
                    &&& c.bytes() == old(self).queue@[i].1.bytes()
                    &&& !c.is_modified()
                },
            r@.len() == pending_writes(old(self).queue@).len(),
            forall|i: int|
                0 <= i < r@.len() ==> (#[trigger] r@[i]).0 == pending_writes(old(self).queue@)[i].0
                    && r@[i].1@ == pending_writes(old(self).queue@)[i].1,
    {
        let ghost q0 = self.queue@;
        let mut out: Vec<(usize, [u8; BLOCK_SZ])> = Vec::new();
        let mut i: usize = 0;
        while i < self.queue.len()
            invariant
                self.queue@.len() == q0.len(),
                i <= q0.len(),
                q0.len() <= BLOCK_CACHE_SIZE,
                forall|a: int| 0 <= a < q0.len() ==> (#[trigger] self.queue@[a]).0 == q0[a].0,
                forall|a: int| i <= a < q0.len() ==> #[trigger] self.queue@[a] == q0[a],
                forall|a: int|
                    0 <= a < i ==> {
                        let c = (#[trigger] self.queue@[a]).1;
                        &&& c.id() == q0[a].1.id()
                        &&& c.bytes() == q0[a].1.bytes()
                        &&& !c.is_modified()
                    },
                out@.len() == pending_writes(q0.take(i as int)).len(),
                forall|a: int|
                    0 <= a < out@.len() ==> (#[trigger] out@[a]).0 == pending_writes(q0.take(i as int))[a].0
                        && out@[a].1@ == pending_writes(q0.take(i as int))[a].1,
            decreases q0.len() - i,
        {
            let ghost before = self.queue@;
            let mut p = self.queue.remove(i);
            let w = p.1.sync();
            self.queue.insert(i, p);
            let ghost pw = pending_writes(q0.take(i as int));
            proof {
                assert(q0.take(i + 1).drop_last() =~= q0.take(i as int));
                assert(q0.take(i + 1).last() == q0[i as int]);
                assert forall|a: int| 0 <= a < q0.len() && a != i implies self.queue@[a] == before[a] by {}
            }
            match w {
                Some(x) => {
                    out.push(x);
                },
                None => {},
            }
            proof {
                assert(out@.len() == pending_writes(q0.take(i + 1)).len());
            }
            i = i + 1;
        }
        proof {
            assert(q0.take(q0.len() as int) =~= q0);
            assert(queue_ids(self.queue@) =~= queue_ids(q0));
        }
        out
    }
}

} // verus!
