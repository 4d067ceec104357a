//! The FAT32 file system: a volume held as its allocation table and its data
//! clusters.
pub mod dbr;
pub mod fat;
pub mod dirent;
pub mod chain;
pub mod inode;
pub mod file;
pub mod wrapper;

use vstd::prelude::*;
use dbr::DBR;
use fat::{cluster_type, get_type, CLUSTER};

verus! {

/// The entry value that marks the end of a chain.
pub const EOC: u32 = 0x0FFF_FFFF;

/// Most entries a table can have: every cluster number must read as a data
/// cluster when it stands in an entry.
pub const MAX_CLUSTERS: usize = 0x0FFF_FFF0;

/// A mounted FAT32 volume: its boot record, its file allocation table (one entry
/// per cluster, the first two unused), and the contents of the data clusters
/// (cluster `c` is `data[c - 2]`).
pub struct Fat32FS {
    pub dbr: DBR,
    pub fat: Vec<u32>,
    pub data: Vec<Vec<u8>>,
}

/// The bytes of each cluster.
pub open spec fn data_view(d: Seq<Vec<u8>>) -> Seq<Seq<u8>> {
    d.map_values(|v: Vec<u8>| v@)
}

/// The chain that starts at cluster `c`, following the table for at most `fuel`
/// clusters: a data cluster is followed by the cluster its entry names, an
/// end-of-chain cluster ends the chain, and a cluster of any other type, or one
/// outside the table, is not part of the chain.
pub open spec fn chain_from(fat: Seq<u32>, c: u32, fuel: nat) -> Seq<u32>
    decreases fuel,
{
    if fuel == 0 || c < 2 || c >= fat.len() {
        Seq::empty()
    } else {
        match cluster_type(fat[c as int]) {
            CLUSTER::Data => seq![c] + chain_from(fat, fat[c as int], (fuel - 1) as nat),
            CLUSTER::Eoc => seq![c],
            _ => Seq::empty(),
        }
    }
}

/// Every cluster of a chain is a data cluster of the volume.
pub open spec fn clusters_valid(n: nat, chain: Seq<u32>) -> bool {
    forall|i: int| 0 <= i < chain.len() ==> 2 <= #[trigger] chain[i] < n
}

/// The bytes of the clusters of `chain`, in order.
pub open spec fn chain_content(data: Seq<Seq<u8>>, chain: Seq<u32>) -> Seq<u8>
    decreases chain.len(),
{
    if chain.len() == 0 {
        Seq::empty()
    } else {
        chain_content(data, chain.drop_last()) + data[chain.last() - 2]
    }
}

/// A cluster of zero bytes.
pub open spec fn zeros(n: nat) -> Seq<u8> {
    Seq::new(n, |i: int| 0u8)
}

/// Whether some cluster of the table is free.
pub open spec fn has_free(fat: Seq<u32>) -> bool {
    exists|k: int| 2 <= k < fat.len() && cluster_type(#[trigger] fat[k]) == CLUSTER::Free
}

/// The number of free clusters among the first `n` entries of the table.
pub open spec fn free_count(fat: Seq<u32>, n: int) -> nat
    decreases n,
{
    if n <= 2 {
        0
    } else {
        free_count(fat, n - 1) + (if cluster_type(fat[n - 1]) == CLUSTER::Free {
            1nat
        } else {
            0nat
        })
    }
}

proof fn lemma_chain_from_valid(fat: Seq<u32>, c: u32, fuel: nat)
    ensures
        clusters_valid(fat.len(), chain_from(fat, c, fuel)),
        chain_from(fat, c, fuel).len() <= fuel,
    decreases fuel,
{
    if fuel == 0 || c < 2 || c >= fat.len() {
    } else {
        match cluster_type(fat[c as int]) {
            CLUSTER::Data => {
                lemma_chain_from_valid(fat, fat[c as int], (fuel - 1) as nat);
                let t = chain_from(fat, fat[c as int], (fuel - 1) as nat);
                assert forall|i: int| 0 <= i < (seq![c] + t).len() implies 2 <= #[trigger] (seq![c]
                    + t)[i] < fat.len() by {
                    if i > 0 {
                        assert((seq![c] + t)[i] == t[i - 1]);
                    }
                }
            },
            _ => {},
        }
    }
}

/// The content of a chain is as long as its clusters together.
pub proof fn lemma_chain_content_len(data: Seq<Seq<u8>>, chain: Seq<u32>, cs: nat)
    requires
        forall|i: int| 0 <= i < data.len() ==> (#[trigger] data[i]).len() == cs,
        clusters_valid(data.len() + 2, chain),
    ensures
        chain_content(data, chain).len() == chain.len() * cs,
    decreases chain.len(),
{
    if chain.len() > 0 {
        assert(clusters_valid(data.len() + 2, chain.drop_last())) by {
            assert forall|i: int| 0 <= i < chain.drop_last().len() implies 2
                <= #[trigger] chain.drop_last()[i] < data.len() + 2 by {
                assert(chain.drop_last()[i] == chain[i]);
            }
        }
        lemma_chain_content_len(data, chain.drop_last(), cs);
        assert(chain[chain.len() - 1] == chain.last());
        assert((chain.len() - 1) * cs + cs == chain.len() * cs) by (nonlinear_arith);
    }
}

/// The byte at position `p` of a chain's content is byte `p % cs` of cluster
/// `p / cs` of the chain.
pub proof fn lemma_chain_content_index(data: Seq<Seq<u8>>, chain: Seq<u32>, cs: nat, p: int)
    requires
        cs > 0,
        forall|i: int| 0 <= i < data.len() ==> (#[trigger] data[i]).len() == cs,
        clusters_valid(data.len() + 2, chain),
        0 <= p < chain.len() * cs,
    ensures
        p / (cs as int) < chain.len(),
        chain_content(data, chain)[p] == data[chain[p / (cs as int)] - 2][p % (cs as int)],
    decreases chain.len(),
{
    let n = chain.len();
    let csi = cs as int;
    assert(n > 0) by (nonlinear_arith)
        requires
            0 <= p < n * cs,
    ;
    assert(clusters_valid(data.len() + 2, chain.drop_last())) by {
        assert forall|i: int| 0 <= i < chain.drop_last().len() implies 2 <= #[trigger] chain.drop_last()[i]
            < data.len() + 2 by {
            assert(chain.drop_last()[i] == chain[i]);
        }
    }
    lemma_chain_content_len(data, chain.drop_last(), cs);
    assert(chain[n - 1] == chain.last());
    assert((n - 1) * cs + cs == n * cs) by (nonlinear_arith);
    if p < (n - 1) * cs {
        lemma_chain_content_index(data, chain.drop_last(), cs, p);
        assert(chain.drop_last()[p / csi] == chain[p / csi]);
    } else {
        let q = p - (n - 1) * csi;
        assert(0 <= q < csi);
        assert(p / csi == n - 1 && p % csi == q) by {
            vstd::arithmetic::div_mod::lemma_fundamental_div_mod_converse(p, csi, n - 1, q);
        }
    }
}

impl Fat32FS {
    /// The volume is consistent: clusters are not empty, the table has the two
    /// reserved entries and no more entries than data cluster numbers exist,
    /// and there is one cluster of content per data cluster.
    pub open spec fn wf(&self) -> bool {
        &&& self.dbr.clst_size > 0
        &&& self.fat@.len() >= 2
        &&& self.fat@.len() <= MAX_CLUSTERS
        &&& self.data@.len() + 2 == self.fat@.len()
        &&& forall|i: int|
            0 <= i < self.data@.len() ==> (#[trigger] self.data@[i])@.len() == self.dbr.clst_size
    }

    /// The cluster size in bytes.
    pub open spec fn cs(&self) -> nat {
        self.dbr.clst_size as nat
    }

    /// The contents of the clusters.
    pub open spec fn clusters(&self) -> Seq<Seq<u8>> {
        data_view(self.data@)
    }

    /// Whether `c` names a data cluster of the volume.
    pub open spec fn valid_cluster(&self, c: u32) -> bool {
        2 <= c < self.fat@.len()
    }

    /// A volume made of a boot record, a table and cluster contents that fit
    /// together.
    pub fn new(dbr: DBR, fat: Vec<u32>, data: Vec<Vec<u8>>) -> (r: Fat32FS)
        requires
            dbr.clst_size > 0,
            fat@.len() >= 2,
            fat@.len() <= MAX_CLUSTERS,
            data@.len() + 2 == fat@.len(),
            forall|i: int| 0 <= i < data@.len() ==> (#[trigger] data@[i])@.len() == dbr.clst_size,
        ensures
            r.wf(),
            r.dbr == dbr,
            r.fat@ == fat@,
            r.data@ == data@,
    {
        Fat32FS { dbr, fat, data }
    }

    /// The cluster size in bytes.
    pub fn cluster_size(&self) -> (r: usize)
        ensures
            r == self.dbr.clst_size,
    {
        self.dbr.clst_size as usize
    }

    /// The chain that starts at `start`; see `chain_from`. A chain that comes back
    /// to a cluster it passed is cut once it has as many clusters as the table.
    #[verifier::spinoff_prover]
    pub fn get_chain(&self, start: u32) -> (r: Vec<u32>)
        requires
            self.wf(),
        ensures
            r@ == chain_from(self.fat@, start, self.fat@.len()),
            clusters_valid(self.fat@.len(), r@),
    {
        proof {
            lemma_chain_from_valid(self.fat@, start, self.fat@.len());
        }
        let mut vec: Vec<u32> = Vec::new();
        let mut c = start;
        let mut fuel = self.fat.len();
        while fuel > 0 && c >= 2 && (c as usize) < self.fat.len()
            invariant
                self.wf(),
                clusters_valid(self.fat@.len(), chain_from(self.fat@, start, self.fat@.len() as nat)),
                chain_from(self.fat@, start, self.fat@.len() as nat) == vec@ + chain_from(
                    self.fat@,
                    c,
                    fuel as nat,
                ),
            decreases fuel,
        {
            let next = self.fat[c as usize];
            match get_type(next) {
                CLUSTER::Data => {
                    let ghost old_vec = vec@;
                    vec.push(c);
                    proof {
                        assert(vec@ + chain_from(self.fat@, next, (fuel - 1) as nat) =~= old_vec + (
                        seq![c] + chain_from(self.fat@, next, (fuel - 1) as nat)));
                    }
                    c = next;
                    fuel = fuel - 1;
                },
                CLUSTER::Eoc => {
                    let ghost old_vec = vec@;
                    vec.push(c);
                    proof {
                        assert(chain_from(self.fat@, c, fuel as nat) == seq![c]);
                        assert(vec@ =~= old_vec + seq![c]);
                    }
                    return vec;
                },
                _ => {
                    proof {
                        assert(chain_from(self.fat@, c, fuel as nat) == Seq::<u32>::empty());
                        assert(vec@ + Seq::<u32>::empty() =~= vec@);
                    }
                    return vec;
                },
            }
        }
        proof {
            assert(chain_from(self.fat@, c, fuel as nat) == Seq::<u32>::empty());
            assert(vec@ + Seq::<u32>::empty() =~= vec@);
        }
        vec
    }

    /// Copies bytes of cluster `c`, from offset `off`, into `buf` from index `at`:
    /// as many as fit in both; returns that count.
    pub fn read_cluster(&self, c: u32, off: usize, buf: &mut [u8], at: usize) -> (r: usize)
        requires
            self.wf(),
            self.valid_cluster(c),
            off < self.cs(),
            at <= old(buf)@.len(),
        ensures
            r == vstd::math::min(self.cs() - off, old(buf)@.len() - at),
            final(buf)@.len() == old(buf)@.len(),
            forall|i: int|
                0 <= i < final(buf)@.len() ==> #[trigger] final(buf)@[i] == if at <= i < at + r {
                    self.clusters()[c - 2][off + i - at]
                } else {
                    old(buf)@[i]
                },
    {
        let cs = self.dbr.clst_size as usize;
        let left = cs - off;
        let room = buf.len() - at;
        let n = if left < room {
            left
        } else {
            room
        };
        let cl = &self.data[(c - 2) as usize];
        let mut j: usize = 0;
        while j < n
            invariant
                self.wf(),
                self.valid_cluster(c),
                cl@ == self.data@[c - 2]@,
                n <= cs - off,
                cs == self.cs(),
                at + n <= buf@.len(),
                buf@.len() == buf.len(),
                buf@.len() == old(buf)@.len(),
                j <= n,
                forall|i: int|
                    0 <= i < buf@.len() ==> #[trigger] buf@[i] == if at <= i < at + j {
                        self.clusters()[c - 2][off + i - at]
                    } else {
                        old(buf)@[i]
                    },
            decreases n - j,
        {
            buf[at + j] = cl[off + j];
            j = j + 1;
        }
        n
    }

    /// Copies bytes of `src`, from index `at`, into cluster `c` from offset `off`:
    /// as many as fit in both; returns that count. Other clusters are unchanged.
    pub fn write_cluster(&mut self, c: u32, off: usize, src: &[u8], at: usize) -> (r: usize)
        requires
            old(self).wf(),
            old(self).valid_cluster(c),
            off < old(self).cs(),
            at <= src@.len(),
        ensures
            final(self).wf(),
            final(self).dbr == old(self).dbr,
            final(self).fat@ == old(self).fat@,
            r == vstd::math::min(old(self).cs() - off, src@.len() - at),
            final(self).clusters() == old(self).clusters().update(
                c - 2,
                Seq::new(
                    old(self).cs(),
                    |k: int|
                        if off <= k < off + r {
                            src@[at + k - off]
                        } else {
                            old(self).clusters()[c - 2][k]
                        },
                ),
            ),
    {
        let cs = self.dbr.clst_size as usize;
        let left = cs - off;
        let room = src.len() - at;
        let n = if left < room {
            left
        } else {
            room
        };
        let idx = (c - 2) as usize;
        let mut cl = self.data[idx].clone();
        let ghost orig = cl@;
        let mut j: usize = 0;
        while j < n
            invariant
                n <= cs - off,
                cs == old(self).cs(),
                orig.len() == cs,
                at + n <= src@.len(),
                src@.len() == src.len(),
                cl@.len() == cs,
                j <= n,
                forall|k: int|
                    0 <= k < cs ==> #[trigger] cl@[k] == if off <= k < off + j {
                        src@[at + k - off]
                    } else {
                        orig[k]
                    },
            decreases n - j,
        {
            cl.set(off + j, src[at + j]);
            j = j + 1;
        }
        let ghost newc = cl@;
        self.data.set(idx, cl);
        proof {
            assert(orig == old(self).clusters()[c - 2]);
            assert(newc =~= Seq::new(
                old(self).cs(),
                |k: int|
                    if off <= k < off + n {
                        src@[at + k - off]
                    } else {
                        old(self).clusters()[c - 2][k]
                    },
            ));
            assert(self.clusters() =~= old(self).clusters().update(c - 2, newc));
        }
        n
    }

    /// Takes the first free cluster: marks it as the end of a chain and fills it
    /// with zeroes. `None` when no cluster is free.
    pub fn alloc_cluster(&mut self) -> (r: Option<u32>)
        requires
            old(self).wf(),
        ensures
            final(self).wf(),
            final(self).dbr == old(self).dbr,
            r is None ==> !has_free(old(self).fat@) && final(self).fat@ == old(self).fat@
                && final(self).clusters() == old(self).clusters(),
            r matches Some(f) ==> {
                &&& old(self).valid_cluster(f)
                &&& cluster_type(old(self).fat@[f as int]) == CLUSTER::Free
                &&& forall|k: int|
                    2 <= k < f ==> cluster_type(#[trigger] old(self).fat@[k]) != CLUSTER::Free
                &&& final(self).fat@ == old(self).fat@.update(f as int, EOC)
                &&& final(self).clusters() == old(self).clusters().update(f - 2, zeros(old(self).cs()))
            },
            has_free(old(self).fat@) ==> r is Some,
    {
        let n = self.fat.len();
        let mut i: usize = 2;
        while i < n
            invariant
                n == self.fat@.len(),
                2 <= i <= n,
                *self == *old(self),
                self.wf(),
                forall|k: int| 2 <= k < i ==> cluster_type(#[trigger] self.fat@[k]) != CLUSTER::Free,
            decreases n - i,
        {
            if get_type(self.fat[i]) == CLUSTER::Free {
                self.fat.set(i, EOC);
                let cs = self.dbr.clst_size as usize;
                let z = vec![0u8; cs];
                assert(z@ =~= zeros(old(self).cs()));
                self.data.set(i - 2, z);
                proof {
                    assert(self.clusters() =~= old(self).clusters().update(
                        i - 2,
                        zeros(old(self).cs()),
                    ));
                }
                return Some(i as u32);
            }
            i = i + 1;
        }
        None
    }

    /// Appends a new cluster to the chain that ends at `end`: `None` when `end` is
    /// not a data cluster marked as the end of a chain, or when no cluster is
    /// free; otherwise the new cluster (taken as `alloc_cluster` does), to which
    /// `end` now leads.
    pub fn append_chain(&mut self, end: u32) -> (r: Option<u32>)
        requires
            old(self).wf(),
        ensures
            final(self).wf(),
            final(self).dbr == old(self).dbr,
            !(old(self).valid_cluster(end) && cluster_type(old(self).fat@[end as int])
                == CLUSTER::Eoc) ==> r is None && final(self).fat@ == old(self).fat@
                && final(self).clusters() == old(self).clusters(),
            r is None && old(self).valid_cluster(end) && cluster_type(old(self).fat@[end as int])
                == CLUSTER::Eoc ==> !has_free(old(self).fat@) && final(self).fat@ == old(
                self,
            ).fat@ && final(self).clusters() == old(self).clusters(),
            r matches Some(f) ==> {
                &&& old(self).valid_cluster(end)
                &&& cluster_type(old(self).fat@[end as int]) == CLUSTER::Eoc
                &&& old(self).valid_cluster(f)
                &&& f != end
                &&& cluster_type(old(self).fat@[f as int]) == CLUSTER::Free
                &&& forall|k: int|
                    2 <= k < f ==> cluster_type(#[trigger] old(self).fat@[k]) != CLUSTER::Free
                &&& final(self).fat@ == old(self).fat@.update(f as int, EOC).update(end as int, f)
                &&& final(self).clusters() == old(self).clusters().update(f - 2, zeros(old(self).cs()))
            },
            old(self).valid_cluster(end) && cluster_type(old(self).fat@[end as int])
                == CLUSTER::Eoc && has_free(old(self).fat@) ==> r is Some,
    {
        if end < 2 || (end as usize) >= self.fat.len() {
            return None;
        }
        if get_type(self.fat[end as usize]) != CLUSTER::Eoc {
            return None;
        }
        match self.alloc_cluster() {
            Some(new) => {
                self.fat.set(end as usize, new);
                Some(new)
            },
            None => None,
        }
    }

    /// Frees the clusters of the chain that starts at `start` (see `chain_from`).
    pub fn clear_chain(&mut self, start: u32) -> (r: Result<(), ()>)
        requires
            old(self).wf(),
        ensures
            r is Ok,
            final(self).wf(),
            final(self).dbr == old(self).dbr,
            final(self).clusters() == old(self).clusters(),
            final(self).fat@ == freed(old(self).fat@, chain_from(old(self).fat@, start, old(self).fat@.len())),
    {
        let chain = self.get_chain(start);
        self.free_clusters(&chain);
        Ok(())
    }

    /// Cuts the chain at `clst`: the clusters after it are freed and `clst` is
    /// marked as the end of the chain.
    pub fn truncate_chain(&mut self, clst: u32) -> (r: Result<(), ()>)
        requires
            old(self).wf(),
        ensures
            r is Ok,
            final(self).wf(),
            final(self).dbr == old(self).dbr,
            final(self).clusters() == old(self).clusters(),
            old(self).valid_cluster(clst) ==> final(self).fat@ == freed(
                old(self).fat@,
                chain_from(old(self).fat@, clst, old(self).fat@.len()),
            ).update(clst as int, EOC),
            !old(self).valid_cluster(clst) ==> final(self).fat@ == old(self).fat@,
    {
        let chain = self.get_chain(clst);
        self.free_clusters(&chain);
        if clst >= 2 && (clst as usize) < self.fat.len() {
            self.fat.set(clst as usize, EOC);
        } else {
            proof {
                assert(chain@ =~= Seq::<u32>::empty());
                assert(freed(old(self).fat@, chain@) =~= old(self).fat@);
            }
        }
        Ok(())
    }

    /// Marks the clusters of `chain` free.
    fn free_clusters(&mut self, chain: &Vec<u32>)
        requires
            old(self).wf(),
            clusters_valid(old(self).fat@.len(), chain@),
        ensures
            final(self).wf(),
            final(self).dbr == old(self).dbr,
            final(self).clusters() == old(self).clusters(),
            final(self).fat@ == freed(old(self).fat@, chain@),
    {
        let mut i: usize = 0;
        while i < chain.len()
            invariant
                self.wf(),
                self.dbr == old(self).dbr,
                self.data == old(self).data,
                self.fat@.len() == old(self).fat@.len(),
                clusters_valid(old(self).fat@.len(), chain@),
                i <= chain@.len(),
                self.fat@ == freed(old(self).fat@, chain@.subrange(0, i as int)),
            decreases chain@.len() - i,
        {
            let c = chain[i];
            self.fat.set(c as usize, 0);
            proof {
                assert forall|k: int| 0 <= k < self.fat@.len() implies self.fat@[k] == freed(
                    old(self).fat@,
                    chain@.subrange(0, i + 1),
                )[k] by {
                    if k == c {
                        assert(chain@.subrange(0, i + 1)[i as int] == c);
                    } else {
                        assert(chain@.subrange(0, i + 1).contains(k as u32) <==> chain@.subrange(
                            0,
                            i as int,
                        ).contains(k as u32)) by {
                            if chain@.subrange(0, i + 1).contains(k as u32) {
                                let j = choose|j: int|
                                    0 <= j < i + 1 && #[trigger] chain@.subrange(0, i + 1)[j] == k as u32;
                                assert(j < i);
                                assert(chain@.subrange(0, i as int)[j] == k as u32);
                            }
                            if chain@.subrange(0, i as int).contains(k as u32) {
                                let j = choose|j: int|
                                    0 <= j < i && #[trigger] chain@.subrange(0, i as int)[j] == k as u32;
                                assert(chain@.subrange(0, i + 1)[j] == k as u32);
                            }
                        }
                    }
                }
                assert(self.fat@ =~= freed(old(self).fat@, chain@.subrange(0, i + 1)));
            }
            i = i + 1;
        }
        proof {
            assert(chain@.subrange(0, i as int) =~= chain@);
        }
    }
}

/// The table with the entries of the clusters of `chain` set to free.
pub open spec fn freed(fat: Seq<u32>, chain: Seq<u32>) -> Seq<u32> {
    Seq::new(fat.len(), |k: int| if 0 <= k <= u32::MAX && chain.contains(k as u32) {
        0u32
    } else {
        fat[k]
    })
}

} // verus!
