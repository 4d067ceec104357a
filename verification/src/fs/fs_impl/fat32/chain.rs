//! File chains of FAT32: the clusters that hold a file's data, in order.
use vstd::prelude::*;
use super::{
    chain_content, chain_from, clusters_valid, free_count, has_free, lemma_chain_content_index,
    lemma_chain_content_len, zeros, Fat32FS, EOC, MAX_CLUSTERS,
};
use super::fat::{cluster_type, CLUSTER};
use crate::process::ErrNo;

verus! {

/// A file chain: the clusters of a file, in order. The volume they belong to is
/// passed to each operation.
pub struct Chain {
    pub chain: Vec<u32>,
}

impl Clone for Chain {
    fn clone(&self) -> (r: Self)
        ensures
            r.chain@ == self.chain@,
    {
        let mut v: Vec<u32> = Vec::new();
        let mut i: usize = 0;
        while i < self.chain.len()
            invariant
                i <= self.chain@.len(),
                v@ == self.chain@.subrange(0, i as int),
            decreases self.chain@.len() - i,
        {
            v.push(self.chain[i]);
            i = i + 1;
            proof {
                assert(v@ =~= self.chain@.subrange(0, i as int));
            }
        }
        proof {
            assert(v@ =~= self.chain@);
        }
        Chain { chain: v }
    }
}

/// Longest chain that `write` grows.
pub const MAX_LEN: usize = 1048576;

/// The chain can be read and grown on `fs`: its clusters are data clusters of the
/// volume, each once, none of them free, and the last one ends a chain.
pub open spec fn chain_ok(fs: &Fat32FS, chain: Seq<u32>) -> bool {
    &&& clusters_valid(fs.fat@.len(), chain)
    &&& chain.no_duplicates()
    &&& forall|i: int|
        0 <= i < chain.len() ==> cluster_type(#[trigger] fs.fat@[chain[i] as int]) != CLUSTER::Free
    &&& chain.len() > 0 ==> cluster_type(fs.fat@[chain.last() as int]) == CLUSTER::Eoc
}

/// How many clusters the chain has after writing `len` bytes at `offset`: enough
/// to hold the cluster of `offset` and the bytes written, and no fewer than
/// before.
pub open spec fn written_len(old_len: nat, cs: nat, offset: nat, len: nat) -> nat {
    let need = vstd::math::max((offset / cs + 1) as int, ((offset + len + cs - 1) as nat / cs) as int);
    vstd::math::max(old_len as int, need) as nat
}

/// The content of a chain after writing `buf` at `offset`: the written bytes,
/// the old content elsewhere, and zeroes in the clusters added.
pub open spec fn written_content(old: Seq<u8>, offset: int, buf: Seq<u8>, n: int, total: nat) -> Seq<
    u8,
> {
    Seq::new(
        total,
        |q: int|
            if offset <= q < offset + n {
                buf[q - offset]
            } else if q < old.len() {
                old[q]
            } else {
                0u8
            },
    )
}

/// Byte `j` of cluster `idx` of a chain is byte `idx * cs + j` of its content.
proof fn lemma_content_at(data: Seq<Seq<u8>>, chain: Seq<u32>, cs: nat, idx: int, j: int)
    requires
        cs > 0,
        forall|i: int| 0 <= i < data.len() ==> (#[trigger] data[i]).len() == cs,
        clusters_valid(data.len() + 2, chain),
        0 <= idx < chain.len(),
        0 <= j < cs,
    ensures
        0 <= idx * cs + j < chain.len() * cs,
        chain_content(data, chain)[idx * cs + j] == data[chain[idx] - 2][j],
{
    assert(idx * cs + j < chain.len() * cs) by (nonlinear_arith)
        requires
            idx < chain.len(),
            j < cs,
    ;
    assert(0 <= idx * cs) by (nonlinear_arith)
        requires
            idx >= 0,
    ;
    lemma_chain_content_index(data, chain, cs, idx * cs + j);
    vstd::arithmetic::div_mod::lemma_fundamental_div_mod_converse(idx * cs + j, cs as int, idx, j);
}

/// The content of a chain that does not hold cluster `f` does not depend on `f`.
pub proof fn lemma_content_frame(data: Seq<Seq<u8>>, chain: Seq<u32>, f: int, x: Seq<u8>)
    requires
        !chain.contains(f as u32),
        2 <= f,
        clusters_valid(data.len() + 2, chain),
        f - 2 < data.len(),
    ensures
        chain_content(data.update(f - 2, x), chain) == chain_content(data, chain),
    decreases chain.len(),
{
    if chain.len() > 0 {
        assert(!chain.drop_last().contains(f as u32)) by {
            if chain.drop_last().contains(f as u32) {
                let i = choose|i: int|
                    0 <= i < chain.drop_last().len() && #[trigger] chain.drop_last()[i] == f as u32;
                assert(chain[i] == f as u32);
            }
        }
        assert(clusters_valid(data.len() + 2, chain.drop_last())) by {
            assert forall|i: int| 0 <= i < chain.drop_last().len() implies 2
                <= #[trigger] chain.drop_last()[i] < data.len() + 2 by {
                assert(chain.drop_last()[i] == chain[i]);
            }
        }
        lemma_content_frame(data, chain.drop_last(), f, x);
        assert(chain.last() == chain[chain.len() - 1]);
        assert(chain.last() != f as u32);
    }
}

/// How long a chain `write` lets grow: `MAX_LEN` clusters, or the chain as it is
/// when it is longer.
pub open spec fn write_limit(old_len: nat) -> nat {
    vstd::math::max(old_len as int, MAX_LEN as int) as nat
}

/// How many clusters the chain has after `write`: `written_len`, cut at
/// `write_limit`.
pub open spec fn written_clusters(old_len: nat, cs: nat, offset: nat, len: nat) -> nat {
    vstd::math::min(written_len(old_len, cs, offset, len) as int, write_limit(old_len) as int) as nat
}

/// What a write that started on volume `fs0` with chain `c0` leaves of the
/// volume and the chain `c` it ends with: `c` extends `c0` by clusters that were
/// free, the volume is unchanged outside the chain (and wholly unchanged in its
/// table when no cluster was added), and there is one free cluster fewer for each
/// cluster added.
pub open spec fn write_frame(fs0: Fat32FS, fs: Fat32FS, c0: Seq<u32>, c: Seq<u32>) -> bool {
    &&& fs.wf()
    &&& fs.dbr == fs0.dbr
    &&& chain_ok(&fs, c)
    &&& c0.len() <= c.len()
    &&& c.subrange(0, c0.len() as int) == c0
    &&& forall|i: int|
        c0.len() <= i < c.len() ==> cluster_type(#[trigger] fs0.fat@[c[i] as int]) == CLUSTER::Free
    &&& fs.fat@.len() == fs0.fat@.len()
    &&& c.len() == c0.len() ==> fs.fat@ == fs0.fat@
    &&& forall|k: u32|
        #![trigger c.contains(k)]
        fs0.valid_cluster(k) && !c.contains(k) ==> fs.clusters()[k - 2] == fs0.clusters()[k - 2]
            && fs.fat@[k as int] == fs0.fat@[k as int]
    &&& free_count(fs.fat@, fs.fat@.len() as int) + c.len() == free_count(
        fs0.fat@,
        fs0.fat@.len() as int,
    ) + c0.len()
}

/// Where a write that started on volume `fs0` with chain `c0` (of content
/// `content0`) stands once `w` bytes of `buf` are written at `offset`: the frame
/// of `write_frame`, and the chain's content is the old content with those bytes
/// written and zeroes after it.
pub open spec fn write_state(
    fs0: Fat32FS,
    fs: Fat32FS,
    c0: Seq<u32>,
    c: Seq<u32>,
    content0: Seq<u8>,
    offset: int,
    buf: Seq<u8>,
    w: int,
) -> bool {
    &&& write_frame(fs0, fs, c0, c)
    &&& chain_content(fs.clusters(), c) == written_content(content0, offset, buf, w, c.len() * fs0.cs())
}

/// Two writes in a row, the second going on where the first stopped, make one
/// write of the bytes of both.
pub proof fn lemma_write_state_trans(
    fs0: Fat32FS,
    fs1: Fat32FS,
    fs2: Fat32FS,
    c0: Seq<u32>,
    c1: Seq<u32>,
    c2: Seq<u32>,
    content0: Seq<u8>,
    offset: int,
    buf: Seq<u8>,
    w: int,
    w2: int,
)
    requires
        fs0.wf(),
        content0.len() == c0.len() * fs0.cs(),
        write_state(fs0, fs1, c0, c1, content0, offset, buf, w),
        write_state(
            fs1,
            fs2,
            c1,
            c2,
            chain_content(fs1.clusters(), c1),
            offset + w,
            buf.subrange(w, w + w2),
            w2,
        ),
        0 <= w,
        0 <= w2,
        w + w2 <= buf.len(),
        w == 0 || offset + w <= c1.len() * fs0.cs(),
    ensures
        write_state(fs0, fs2, c0, c2, content0, offset, buf, w + w2),
{
    let cs = fs0.cs();
    assert(c0.len() * cs <= c1.len() * cs) by (nonlinear_arith)
        requires
            c0.len() <= c1.len(),
    ;
    let x1 = chain_content(fs1.clusters(), c1);
    assert(chain_content(fs2.clusters(), c2) =~= written_content(content0, offset, buf, w + w2, c2.len() * cs));
    assert(c2.subrange(0, c0.len() as int) =~= c2.subrange(0, c1.len() as int).subrange(0, c0.len() as int));
    assert forall|i: int| c0.len() <= i < c2.len() implies cluster_type(
        #[trigger] fs0.fat@[c2[i] as int],
    ) == CLUSTER::Free by {
        if i < c1.len() {
            assert(c2.subrange(0, c1.len() as int)[i] == c2[i]);
        } else {
            let k = c2[i];
            assert(cluster_type(fs1.fat@[k as int]) == CLUSTER::Free);
            assert(!c1.contains(k)) by {
                if c1.contains(k) {
                    let j = choose|j: int| 0 <= j < c1.len() && c1[j] == k;
                    assert(c2.subrange(0, c1.len() as int)[j] == c2[j]);
                    assert(c2.no_duplicates());
                }
            }
            assert(2 <= k < fs0.fat@.len());
        }
    }
    assert forall|k: u32| fs0.valid_cluster(k) && !c2.contains(k) implies fs2.clusters()[k - 2]
        == fs0.clusters()[k - 2] && fs2.fat@[k as int] == fs0.fat@[k as int] by {
        assert(!c1.contains(k)) by {
            if c1.contains(k) {
                let j = choose|j: int| 0 <= j < c1.len() && c1[j] == k;
                assert(c2.subrange(0, c1.len() as int)[j] == c2[j]);
            }
        }
    }
}

/// Two writes in a row leave the frame of one write.
pub proof fn lemma_write_frame_trans(
    fs0: Fat32FS,
    fs1: Fat32FS,
    fs2: Fat32FS,
    c0: Seq<u32>,
    c1: Seq<u32>,
    c2: Seq<u32>,
)
    requires
        write_frame(fs0, fs1, c0, c1),
        write_frame(fs1, fs2, c1, c2),
    ensures
        write_frame(fs0, fs2, c0, c2),
{
    assert(c2.subrange(0, c0.len() as int) =~= c2.subrange(0, c1.len() as int).subrange(0, c0.len() as int));
    assert forall|i: int| c0.len() <= i < c2.len() implies cluster_type(
        #[trigger] fs0.fat@[c2[i] as int],
    ) == CLUSTER::Free by {
        if i < c1.len() {
            assert(c2.subrange(0, c1.len() as int)[i] == c2[i]);
        } else {
            let k = c2[i];
            assert(cluster_type(fs1.fat@[k as int]) == CLUSTER::Free);
            assert(!c1.contains(k)) by {
                if c1.contains(k) {
                    let j = choose|j: int| 0 <= j < c1.len() && c1[j] == k;
                    assert(c2.subrange(0, c1.len() as int)[j] == c2[j]);
                    assert(c2.no_duplicates());
                }
            }
        }
    }
    assert forall|k: u32| fs0.valid_cluster(k) && !c2.contains(k) implies fs2.clusters()[k - 2]
        == fs0.clusters()[k - 2] && fs2.fat@[k as int] == fs0.fat@[k as int] by {
        assert(!c1.contains(k)) by {
            if c1.contains(k) {
                let j = choose|j: int| 0 <= j < c1.len() && c1[j] == k;
                assert(c2.subrange(0, c1.len() as int)[j] == c2[j]);
            }
        }
    }
}

/// The cluster after the one of byte `x` is no later than the clusters that
/// bytes up to `y > x` need.
proof fn lemma_floor_next_le_ceil(x: int, y: int, cs: int)
    requires
        cs > 0,
        0 <= x < y,
    ensures
        x / cs + 1 <= (y + cs - 1) / cs,
{
    vstd::arithmetic::div_mod::lemma_fundamental_div_mod(x, cs);
    let q = x / cs;
    let r = x % cs;
    assert(cs * q == q * cs) by (nonlinear_arith);
    assert((q + 1) * cs == q * cs + cs) by (nonlinear_arith);
    vstd::arithmetic::div_mod::lemma_fundamental_div_mod_converse(x + cs, cs, q + 1, r);
    vstd::arithmetic::div_mod::lemma_div_is_ordered(x + cs, y + cs - 1, cs);
}

/// The clusters that bytes up to `x` need grow with `x`.
proof fn lemma_ceil_mono(x: int, y: int, cs: int)
    requires
        cs > 0,
        0 <= x <= y,
    ensures
        (x + cs - 1) / cs <= (y + cs - 1) / cs,
{
    vstd::arithmetic::div_mod::lemma_div_is_ordered(x + cs - 1, y + cs - 1, cs);
}

/// The clusters that bytes up to `x` need hold them.
proof fn lemma_ceil_holds(x: int, cs: int)
    requires
        cs > 0,
        0 <= x,
    ensures
        x <= ((x + cs - 1) / cs) * cs,
{
    vstd::arithmetic::div_mod::lemma_fundamental_div_mod(x + cs - 1, cs);
    let q = (x + cs - 1) / cs;
    assert(cs * q == q * cs) by (nonlinear_arith);
}

/// A write of `w` bytes followed by one of `k` more bytes leaves the chain as long
/// as one write of both; the chain only grows with the bytes written, and holds
/// them.
pub proof fn lemma_written_len_step(old_len: nat, cs: nat, at: nat, w: nat, k: nat)
    requires
        cs > 0,
        k > 0,
    ensures
        written_len(written_len(old_len, cs, at, w), cs, at + w, k) == written_len(
            old_len,
            cs,
            at,
            w + k,
        ),
        written_len(old_len, cs, at, w) <= written_len(old_len, cs, at, w + k),
        at + w <= written_len(old_len, cs, at, w) * cs,
{
    let c = cs as int;
    lemma_floor_next_le_ceil((at + w) as int, (at + w + k) as int, c);
    lemma_floor_next_le_ceil(at as int, (at + w + k) as int, c);
    lemma_ceil_mono((at + w) as int, (at + w + k) as int, c);
    lemma_ceil_holds((at + w) as int, c);
    let n = written_len(old_len, cs, at, w);
    assert(((at + w + cs - 1) as nat / cs) as int == (at + w + c - 1) / c);
    assert(((at + w + k + cs - 1) as nat / cs) as int == (at + w + k + c - 1) / c);
    assert(((at + w + c - 1) / c) * c <= n * c) by (nonlinear_arith)
        requires
            (at + w + c - 1) / c <= n,
            c > 0,
    ;
}

/// Writing within a chain's content keeps its length.
pub proof fn lemma_written_len_within(old_len: nat, cs: nat, at: nat, k: nat)
    requires
        cs > 0,
        at + k <= old_len * cs,
        k > 0,
    ensures
        written_len(old_len, cs, at, k) == old_len,
{
    let c = cs as int;
    lemma_floor_next_le_ceil(at as int, (at + k) as int, c);
    lemma_ceil_mono((at + k) as int, (old_len * cs) as int, c);
    vstd::arithmetic::div_mod::lemma_fundamental_div_mod_converse(
        old_len * c + c - 1,
        c,
        old_len as int,
        c - 1,
    );
    assert(((at + k + cs - 1) as nat / cs) as int == (at + k + c - 1) / c);
}

/// What `Chain::write` of `buf` at `offset` owes, from volume `fs0` and chain `c0`
/// (content `content0`) to volume `fs1` and chain `c1`, with result `r`: an
/// error exactly when `offset` lies beyond the clusters the chain may have; else
/// the count of bytes written, all of them when the chain may grow enough; the
/// chain has `written_clusters` clusters, and the write's state is as
/// `write_state` describes for the bytes written.
pub open spec fn chain_written(
    fs0: Fat32FS,
    fs1: Fat32FS,
    c0: Seq<u32>,
    c1: Seq<u32>,
    content0: Seq<u8>,
    offset: usize,
    buf: Seq<u8>,
    r: Result<usize, ErrNo>,
) -> bool {
    let total = written_clusters(c0.len(), fs0.cs(), offset as nat, buf.len());
    let n = if r is Ok {
        r->Ok_0 as int
    } else {
        0
    };
    &&& (r is Err) == ((offset as nat) / fs0.cs() >= write_limit(c0.len()))
    &&& r is Err ==> r == Err::<usize, ErrNo>(ErrNo::InvalidArgument)
    &&& r is Ok ==> n == vstd::math::min(buf.len() as int, total * fs0.cs() - offset)
    &&& written_len(c0.len(), fs0.cs(), offset as nat, buf.len()) <= MAX_LEN ==> r == Ok::<
        usize,
        ErrNo,
    >(buf.len() as usize)
    &&& write_state(fs0, fs1, c0, c1, content0, offset as int, buf, n)
    &&& c1.len() == total
}

/// One for a free entry, zero for any other.
pub open spec fn free_bit(v: u32) -> int {
    if cluster_type(v) == CLUSTER::Free {
        1
    } else {
        0
    }
}

/// Setting one entry changes the count of free clusters by what the entry
/// gives and takes.
pub proof fn lemma_free_count_update(fat: Seq<u32>, k: int, v: u32, n: int)
    requires
        n <= fat.len(),
        0 <= k < fat.len(),
    ensures
        free_count(fat.update(k, v), n) == free_count(fat, n) + if 2 <= k < n {
            free_bit(v) - free_bit(fat[k])
        } else {
            0
        },
    decreases n,
{
    if n > 2 {
        lemma_free_count_update(fat, k, v, n - 1);
    }
}

/// A positive count of free clusters means some cluster is free.
pub proof fn lemma_free_count_pos(fat: Seq<u32>, n: int)
    requires
        n <= fat.len(),
        free_count(fat, n) > 0,
    ensures
        has_free(fat),
    decreases n,
{
    if cluster_type(fat[n - 1]) == CLUSTER::Free {
        assert(cluster_type(fat[n - 1]) == CLUSTER::Free);
    } else {
        lemma_free_count_pos(fat, n - 1);
    }
}

/// The clusters needed for `a` bytes are at least `k + 1` when `a` passes `k`
/// clusters.
proof fn lemma_ceil_ge(a: int, cs: int, k: int)
    requires
        cs > 0,
        k >= 0,
        a > k * cs,
    ensures
        (a + cs - 1) / cs >= k + 1,
{
    let q = (a + cs - 1) / cs;
    vstd::arithmetic::div_mod::lemma_fundamental_div_mod(a + cs - 1, cs);
    assert(q >= k + 1) by (nonlinear_arith)
        requires
            a + cs - 1 == cs * q + (a + cs - 1) % cs,
            (a + cs - 1) % cs < cs,
            a > k * cs,
            cs > 0,
    ;
}

/// Bytes past `k` clusters and within `k + 1` need exactly `k + 1` clusters.
proof fn lemma_ceil_eq(a: int, cs: int, k: int)
    requires
        cs > 0,
        k >= 0,
        k * cs < a <= (k + 1) * cs,
    ensures
        (a + cs - 1) / cs == k + 1,
{
    let r = a + cs - 1 - (k + 1) * cs;
    assert((k + 1) * cs == k * cs + cs) by (nonlinear_arith);
    vstd::arithmetic::div_mod::lemma_fundamental_div_mod_converse(a + cs - 1, cs, k + 1, r);
}

/// The clusters needed to reach byte `o` are at most one more than its cluster.
proof fn lemma_ceil_le(o: int, cs: int)
    requires
        cs > 0,
        o >= 0,
    ensures
        (o + cs - 1) / cs <= o / cs + 1,
{
    vstd::arithmetic::div_mod::lemma_fundamental_div_mod(o, cs);
    let q = o / cs;
    let r = o % cs;
    assert(cs * q == q * cs) by (nonlinear_arith);
    assert((q + 1) * cs == q * cs + cs) by (nonlinear_arith);
    if r == 0 {
        assert(o + cs - 1 == q * cs + (cs - 1));
        vstd::arithmetic::div_mod::lemma_fundamental_div_mod_converse(o + cs - 1, cs, q, cs - 1);
    } else {
        assert(o + cs - 1 == (q + 1) * cs + (r - 1));
        vstd::arithmetic::div_mod::lemma_fundamental_div_mod_converse(o + cs - 1, cs, q + 1, r - 1);
    }
}

/// A write starts from the chain as it is.
proof fn lemma_write_state_start(fs0: Fat32FS, c0: Seq<u32>, offset: int, buf: Seq<u8>)
    requires
        fs0.wf(),
        chain_ok(&fs0, c0),
    ensures
        write_state(fs0, fs0, c0, c0, chain_content(fs0.clusters(), c0), offset, buf, 0),
{
    let content0 = chain_content(fs0.clusters(), c0);
    lemma_chain_content_len(fs0.clusters(), c0, fs0.cs());
    assert(c0.subrange(0, c0.len() as int) =~= c0);
    assert(content0 =~= written_content(content0, offset, buf, 0, c0.len() * fs0.cs()));
}

/// Adding a fresh cluster to the chain keeps the write's state: the cluster is
/// zero-filled and lies past the bytes written.
proof fn lemma_write_state_grow(
    fs0: Fat32FS,
    fs1: Fat32FS,
    fs2: Fat32FS,
    c0: Seq<u32>,
    c1: Seq<u32>,
    c2: Seq<u32>,
    f: u32,
    content0: Seq<u8>,
    offset: int,
    buf: Seq<u8>,
    w: int,
)
    requires
        content0 == chain_content(fs0.clusters(), c0),
        fs0.wf(),
        write_state(fs0, fs1, c0, c1, content0, offset, buf, w),
        fs2.wf(),
        fs2.dbr == fs1.dbr,
        chain_ok(&fs2, c2),
        c2 == c1.push(f),
        fs1.valid_cluster(f),
        cluster_type(fs1.fat@[f as int]) == CLUSTER::Free,
        !c1.contains(f),
        fs2.clusters() == fs1.clusters().update(f - 2, zeros(fs1.cs())),
        c1.len() == 0 ==> fs2.fat@ == fs1.fat@.update(f as int, EOC),
        c1.len() > 0 ==> fs2.fat@ == fs1.fat@.update(f as int, EOC).update(c1.last() as int, f),
        w <= 0 || offset + w <= c1.len() * fs0.cs(),
    ensures
        write_state(fs0, fs2, c0, c2, content0, offset, buf, w),
{
    let cs = fs0.cs();
    let d1 = fs1.clusters();
    let d2 = fs2.clusters();
    lemma_chain_content_len(fs0.clusters(), c0, cs);
    assert(c2.drop_last() =~= c1);
    assert(c2.last() == f);
    lemma_content_frame(d1, c1, f as int, zeros(cs));
    assert(chain_content(d2, c2) == chain_content(d2, c1) + d2[f - 2]);
    assert((c1.len() + 1) * cs == c1.len() * cs + cs) by (nonlinear_arith);
    assert(c0.len() * cs <= c1.len() * cs) by (nonlinear_arith)
        requires
            c0.len() <= c1.len(),
    ;
    assert(chain_content(d2, c2) =~= written_content(content0, offset, buf, w, c2.len() * cs));
    assert(c2.subrange(0, c0.len() as int) =~= c1.subrange(0, c0.len() as int));
    assert forall|i: int| c0.len() <= i < c2.len() implies cluster_type(
        #[trigger] fs0.fat@[c2[i] as int],
    ) == CLUSTER::Free by {
        if i < c1.len() {
            assert(c2[i] == c1[i]);
        } else {
            assert(!c1.contains(f));
        }
    }
    assert forall|k: u32| fs0.valid_cluster(k) && !c2.contains(k) implies fs2.clusters()[k - 2]
        == fs0.clusters()[k - 2] && fs2.fat@[k as int] == fs0.fat@[k as int] by {
        assert(k != f) by {
            assert(c2[c1.len() as int] == f);
        }
        assert(!c1.contains(k)) by {
            if c1.contains(k) {
                let i = choose|i: int| 0 <= i < c1.len() && c1[i] == k;
                assert(c2[i] == k);
            }
        }
        if c1.len() > 0 {
            assert(c1.contains(c1.last())) by {
                assert(c1[c1.len() - 1] == c1.last());
            }
        }
    }
    let fat1 = fs1.fat@;
    let n = fat1.len() as int;
    lemma_free_count_update(fat1, f as int, EOC, n);
    assert(free_bit(EOC) == 0);
    if c1.len() > 0 {
        let l = c1.last();
        assert(c1[c1.len() - 1] == l);
        assert(l != f);
        lemma_free_count_update(fat1.update(f as int, EOC), l as int, f, n);
        assert(f < MAX_CLUSTERS);
        assert(free_bit(f) == 0);
    }
}

/// Writing bytes into a cluster of the chain moves the write's state on by them.
proof fn lemma_write_state_write(
    fs0: Fat32FS,
    fs1: Fat32FS,
    fs2: Fat32FS,
    c0: Seq<u32>,
    c: Seq<u32>,
    content0: Seq<u8>,
    offset: int,
    buf: Seq<u8>,
    w: int,
    got: int,
    idx: int,
    off: int,
)
    requires
        write_state(fs0, fs1, c0, c, content0, offset, buf, w),
        0 <= idx < c.len(),
        0 <= off < fs0.cs(),
        0 <= w,
        offset + w == idx * fs0.cs() + off,
        got == vstd::math::min(fs0.cs() - off, buf.len() - w),
        w <= buf.len(),
        fs2.wf(),
        fs2.dbr == fs1.dbr,
        fs2.fat@ == fs1.fat@,
        fs2.clusters() == fs1.clusters().update(
            c[idx] - 2,
            Seq::new(
                fs1.cs(),
                |k: int|
                    if off <= k < off + got {
                        buf[w + k - off]
                    } else {
                        fs1.clusters()[c[idx] - 2][k]
                    },
            ),
        ),
    ensures
        write_state(fs0, fs2, c0, c, content0, offset, buf, w + got),
{
    let cs = fs0.cs();
    let csi = cs as int;
    let d1 = fs1.clusters();
    let d2 = fs2.clusters();
    lemma_chain_content_len(d1, c, cs);
    lemma_chain_content_len(d2, c, cs);
    let w1 = chain_content(d1, c);
    let w2 = chain_content(d2, c);
    assert forall|p: int| 0 <= p < c.len() * cs implies #[trigger] w2[p] == written_content(
        content0,
        offset,
        buf,
        w + got,
        c.len() * cs,
    )[p] by {
        lemma_chain_content_index(d1, c, cs, p);
        lemma_chain_content_index(d2, c, cs, p);
        let j = p / csi;
        let m = p % csi;
        vstd::arithmetic::div_mod::lemma_fundamental_div_mod(p, csi);
        assert(csi * j == j * csi) by (nonlinear_arith);
        assert(p == j * csi + m);
        assert(0 <= m < csi);
        if offset + w <= p < offset + w + got {
            vstd::arithmetic::div_mod::lemma_fundamental_div_mod_converse(
                p,
                csi,
                idx,
                p - idx * csi,
            );
            assert(j == idx);
            assert(m == p - idx * csi);
            assert(off <= m < off + got);
            assert(w2[p] == d2[c[idx] - 2][m]);
            assert(d2[c[idx] - 2][m] == buf[w + m - off]);
            assert(w + m - off == p - offset);
        } else {
            assert(w2[p] == d2[c[j] - 2][m]);
            assert(w1[p] == d1[c[j] - 2][m]);
            if c[j] == c[idx] {
                assert(j == idx) by {
                    if j != idx {
                        assert(c.no_duplicates());
                    }
                }
                assert(!(off <= m < off + got));
            }
            assert(w2[p] == w1[p]);
        }
    }
    assert(w2 =~= written_content(content0, offset, buf, w + got, c.len() * cs));
    assert forall|k: u32| fs0.valid_cluster(k) && !c.contains(k) implies fs2.clusters()[k - 2]
        == fs0.clusters()[k - 2] && fs2.fat@[k as int] == fs0.fat@[k as int] by {
        assert(k != c[idx]);
    }
}

impl Chain {
    /// The chain of the root directory.
    pub fn root(fs: &Fat32FS) -> (r: Result<Chain, &'static str>)
        requires
            fs.wf(),
        ensures
            r is Ok,
            r->Ok_0.chain@ == chain_from(fs.fat@, fs.dbr.root, fs.fat@.len()),
            clusters_valid(fs.fat@.len(), r->Ok_0.chain@),
    {
        let chain = fs.get_chain(fs.dbr.root);
        return Ok(Chain { chain });
    }

    /// A chain of the given clusters.
    pub fn new(chain: Vec<u32>) -> (r: Chain)
        ensures
            r.chain@ == chain@,
    {
        Chain { chain }
    }

    /// The content of the chain on `fs`.
    pub open spec fn content(&self, fs: &Fat32FS) -> Seq<u8> {
        chain_content(fs.clusters(), self.chain@)
    }

    /// The position in the chain of the cluster that holds byte `offset`, and
    /// that cluster; an error when the chain is shorter.
    fn get_cluster(&self, fs: &Fat32FS, offset: usize) -> (r: Result<(usize, u32), ErrNo>)
        requires
            fs.wf(),
        ensures
            (offset as nat) / fs.cs() >= self.chain@.len() ==> r == Err::<(usize, u32), ErrNo>(
                ErrNo::Fat32InvalidOffset,
            ),
            (offset as nat) / fs.cs() < self.chain@.len() ==> r == Ok::<(usize, u32), ErrNo>(
                (((offset as nat) / fs.cs()) as usize, self.chain@[((offset as nat) / fs.cs()) as int]),
            ),
    {
        let n = offset / fs.cluster_size();
        if n >= self.chain.len() {
            return Err(ErrNo::Fat32InvalidOffset);
        } else {
            return Ok((n, self.chain[n]));
        }
    }

    /// Fills `buffer` with the chain's content from `offset`, as far as the
    /// content goes; returns the number of bytes read. An error when `offset`
    /// lies beyond the last cluster.
    pub fn read(&self, fs: &Fat32FS, offset: usize, buffer: &mut [u8]) -> (r: Result<usize, ErrNo>)
        requires
            fs.wf(),
            clusters_valid(fs.fat@.len(), self.chain@),
        ensures
            final(buffer)@.len() == old(buffer)@.len(),
            (offset as nat) / fs.cs() >= self.chain@.len() ==> r == Err::<usize, ErrNo>(
                ErrNo::Fat32InvalidOffset,
            ) && final(buffer)@ == old(buffer)@,
            (offset as nat) / fs.cs() < self.chain@.len() ==> r == Ok::<usize, ErrNo>(
                vstd::math::min(
                    old(buffer)@.len() as int,
                    self.chain@.len() * fs.cs() - offset,
                ) as usize,
            ),
            r matches Ok(k) ==> forall|i: int|
                0 <= i < old(buffer)@.len() ==> #[trigger] final(buffer)@[i] == if i < k {
                    self.content(fs)[offset + i]
                } else {
                    old(buffer)@[i]
                },
    {
        let cs = fs.cluster_size();
        let (mut idx, clst) = match self.get_cluster(fs, offset) {
            Ok(c) => c,
            Err(e) => {
                return Err(e);
            },
        };
        let coff = offset % cs;
        let len = buffer.len();
        let ghost content = self.content(fs);
        let ghost data = fs.clusters();
        let ghost csn = fs.cs();
        proof {
            lemma_chain_content_len(data, self.chain@, csn);
            vstd::arithmetic::div_mod::lemma_fundamental_div_mod(offset as int, cs as int);
            assert(cs * idx == idx * cs) by (nonlinear_arith);
            assert(offset == idx * cs + coff);
            assert((idx + 1) * cs == idx * cs + cs) by (nonlinear_arith);
            assert(self.chain@.len() * cs >= (idx + 1) * cs) by (nonlinear_arith)
                requires
                    idx < self.chain@.len(),
                    cs > 0,
            ;
        }
        let mut read = fs.read_cluster(clst, coff, buffer, 0);
        proof {
            assert forall|i: int| 0 <= i < read implies #[trigger] buffer@[i] == content[offset + i] by {
                lemma_content_at(data, self.chain@, csn, idx as int, coff + i);
            }
        }
        let clen = self.chain.len();
        while read < len
            invariant
                clen == self.chain@.len(),
                (offset as nat) / (cs as nat) < self.chain@.len(),
                fs.wf(),
                clusters_valid(fs.fat@.len(), self.chain@),
                content == self.content(fs),
                data == fs.clusters(),
                csn == fs.cs(),
                cs == csn,
                content.len() == self.chain@.len() * cs,
                len == old(buffer)@.len(),
                buffer@.len() == len,
                idx < self.chain@.len(),
                read <= len,
                read < len ==> offset + read == (idx + 1) * cs,
                offset + read <= (idx + 1) * cs,
                forall|i: int|
                    0 <= i < len ==> #[trigger] buffer@[i] == if i < read {
                        content[offset + i]
                    } else {
                        old(buffer)@[i]
                    },
            decreases len - read,
        {
            idx = idx + 1;
            if idx < clen {
                let got = fs.read_cluster(self.chain[idx], 0, buffer, read);
                proof {
                    assert forall|i: int| 0 <= i < len implies #[trigger] buffer@[i] == if i < read
                        + got {
                        content[offset + i]
                    } else {
                        old(buffer)@[i]
                    } by {
                        if read <= i < read + got {
                            lemma_content_at(data, self.chain@, csn, idx as int, i - read);
                            assert(idx * cs == offset + read);
                        }
                    }
                    assert((idx + 1) * cs == idx * cs + cs) by (nonlinear_arith);
                }
                read = read + got;
            } else {
                proof {
                    assert(self.chain@.len() == idx);
                    assert(idx * cs == (idx - 1) * cs + cs) by (nonlinear_arith);
                }
                return Ok(read);
            }
        }
        proof {
            assert(self.chain@.len() * cs >= (idx + 1) * cs) by (nonlinear_arith)
                requires
                    idx < self.chain@.len(),
                    cs > 0,
            ;
        }
        Ok(read)
    }

    /// Adds one cluster to the end of the chain: a fresh one when the chain is
    /// empty, else one appended after its last cluster.
    fn grow(&mut self, fs: &mut Fat32FS) -> (f: u32)
        requires
            old(fs).wf(),
            chain_ok(old(fs), old(self).chain@),
            has_free(old(fs).fat@),
        ensures
            final(fs).wf(),
            final(fs).dbr == old(fs).dbr,
            chain_ok(final(fs), final(self).chain@),
            final(self).chain@ == old(self).chain@.push(f),
            old(fs).valid_cluster(f),
            cluster_type(old(fs).fat@[f as int]) == CLUSTER::Free,
            forall|k: int| 2 <= k < f ==> cluster_type(#[trigger] old(fs).fat@[k]) != CLUSTER::Free,
            !old(self).chain@.contains(f),
            final(fs).clusters() == old(fs).clusters().update(f - 2, zeros(old(fs).cs())),
            old(self).chain@.len() == 0 ==> final(fs).fat@ == old(fs).fat@.update(f as int, EOC),
            old(self).chain@.len() > 0 ==> final(fs).fat@ == old(fs).fat@.update(f as int, EOC).update(
                old(self).chain@.last() as int,
                f,
            ),
    {
        let ghost c0 = self.chain@;
        let new = if self.chain.len() == 0 {
            fs.alloc_cluster().unwrap()
        } else {
            let last = self.chain[self.chain.len() - 1];
            fs.append_chain(last).unwrap()
        };
        self.chain.push(new);
        proof {
            assert(!c0.contains(new)) by {
                if c0.contains(new) {
                    let i = choose|i: int| 0 <= i < c0.len() && #[trigger] c0[i] == new;
                    assert(cluster_type(old(fs).fat@[c0[i] as int]) != CLUSTER::Free);
                }
            }
            let c1 = self.chain@;
            assert forall|i: int| 0 <= i < c1.len() implies cluster_type(
                #[trigger] fs.fat@[c1[i] as int],
            ) != CLUSTER::Free by {
                if i < c0.len() {
                    assert(c1[i] == c0[i]);
                    assert(c0[i] != new);
                    if c0.len() > 0 && c0[i] == c0.last() {
                    } else {
                        assert(fs.fat@[c1[i] as int] == old(fs).fat@[c0[i] as int]);
                    }
                } else {
                    assert(c1[i] == new);
                    if c0.len() > 0 {
                        assert(c0.last() != new);
                        assert(fs.fat@[new as int] == EOC);
                    }
                    assert(cluster_type(EOC) == CLUSTER::Eoc);
                }
            }
            assert(c1.last() == new);
            if c0.len() > 0 {
                assert(c0.last() != new);
                assert(fs.fat@[new as int] == EOC);
            }
            assert(cluster_type(EOC) == CLUSTER::Eoc);
            assert(c1.no_duplicates()) by {
                assert forall|i: int, j: int| 0 <= i < j < c1.len() implies c1[i] != c1[j] by {
                    if j < c0.len() {
                        assert(c1[i] == c0[i] && c1[j] == c0[j]);
                    } else {
                        assert(c1[i] == c0[i]);
                    }
                }
            }
            assert(clusters_valid(fs.fat@.len(), c1)) by {
                assert forall|i: int| 0 <= i < c1.len() implies 2 <= #[trigger] c1[i] < fs.fat@.len() by {
                    if i < c0.len() {
                        assert(c1[i] == c0[i]);
                    }
                }
            }
        }
        new
    }

    /// Writes `buffer` into the chain at `offset`, first adding clusters until the
    /// chain holds `offset` and then as the bytes need them (fresh clusters are
    /// zero-filled, so a gap before `offset` reads as zeroes); returns the number
    /// of bytes written. The chain grows to at most `MAX_LEN` clusters: when
    /// `offset` lies beyond that the result is an error, and a write that would go
    /// beyond it stops there.
    pub fn write(&mut self, fs: &mut Fat32FS, offset: usize, buffer: &[u8]) -> (r: Result<
        usize,
        ErrNo,
    >)
        requires
            old(fs).wf(),
            chain_ok(old(fs), old(self).chain@),
            free_count(old(fs).fat@, old(fs).fat@.len() as int) + old(self).chain@.len()
                >= written_clusters(old(self).chain@.len(), old(fs).cs(), offset as nat, buffer@.len()),
        ensures
            chain_written(
                *old(fs),
                *final(fs),
                old(self).chain@,
                final(self).chain@,
                old(self).content(old(fs)),
                offset,
                buffer@,
                r,
            ),
    {
        let ghost fs0 = *fs;
        let ghost c0 = self.chain@;
        let ghost content0 = self.content(fs);
        let cs = fs.cluster_size();
        let len = buffer.len();
        let ghost total = written_clusters(c0.len(), fs.cs(), offset as nat, len as nat);
        let ghost wlen = written_len(c0.len(), fs.cs(), offset as nat, len as nat);
        proof {
            lemma_chain_content_len(fs0.clusters(), c0, fs0.cs());
            lemma_write_state_start(fs0, c0, offset as int, buffer@);
        }
        // First grow the chain until it holds the cluster of `offset`.
        while offset / cs >= self.chain.len()
            invariant
                fs0 == *old(fs),
                c0 == old(self).chain@,
                fs0.wf(),
                chain_ok(&fs0, c0),
                cs == fs0.cs(),
                cs > 0,
                len == buffer@.len(),
                content0 == chain_content(fs0.clusters(), c0),
                total == written_clusters(c0.len(), cs as nat, offset as nat, len as nat),
                free_count(fs0.fat@, fs0.fat@.len() as int) + c0.len() >= total,
                write_state(fs0, *fs, c0, self.chain@, content0, offset as int, buffer@, 0),
                self.chain@.len() > c0.len() ==> self.chain@.len() <= offset / cs + 1,
                self.chain@.len() == c0.len() || self.chain@.len() <= MAX_LEN,
            decreases offset / cs + 1 - self.chain@.len(),
        {
            if self.chain.len() < MAX_LEN {
                let ghost fs1 = *fs;
                let ghost c1 = self.chain@;
                proof {
                    lemma_free_count_pos(fs.fat@, fs.fat@.len() as int);
                }
                let f = self.grow(fs);
                proof {
                    lemma_write_state_grow(fs0, fs1, *fs, c0, c1, self.chain@, f, content0,
                        offset as int, buffer@, 0);
                }
            } else {
                proof {
                    assert((offset as nat) / fs0.cs() >= write_limit(c0.len()));
                    assert(written_len(c0.len(), cs as nat, offset as nat, len as nat) > MAX_LEN);
                    assert(self.chain@.len() == written_clusters(c0.len(), cs as nat, offset as nat, len as nat));
                    assert(write_state(fs0, *fs, c0, self.chain@, content0, offset as int, buffer@, 0));
                }
                return Err(ErrNo::InvalidArgument);
            }
        }
        let mut idx = offset / cs;
        let clst = self.chain[idx];
        let coff = offset % cs;
        proof {
            vstd::arithmetic::div_mod::lemma_fundamental_div_mod(offset as int, cs as int);
            assert((idx + 1) * cs == idx * cs + cs) by (nonlinear_arith);
            assert(cs * idx == idx * cs) by (nonlinear_arith);
            assert(offset == idx * cs + coff);
        }
        let ghost fs2 = *fs;
        proof {
            assert(cs * idx == idx * cs) by (nonlinear_arith);
        }
        let mut write = fs.write_cluster(clst, coff, buffer, 0);
        proof {
            lemma_write_state_write(fs0, fs2, *fs, c0, self.chain@, content0, offset as int,
                buffer@, 0, write as int, idx as int, coff as int);
        }
        while write < len
            invariant
                fs0 == *old(fs),
                c0 == old(self).chain@,
                fs0.wf(),
                chain_ok(&fs0, c0),
                cs == fs0.cs(),
                cs > 0,
                len == buffer@.len(),
                content0 == chain_content(fs0.clusters(), c0),
                total == written_clusters(c0.len(), cs as nat, offset as nat, len as nat),
                free_count(fs0.fat@, fs0.fat@.len() as int) + c0.len() >= total,
                write_state(fs0, *fs, c0, self.chain@, content0, offset as int, buffer@, write as int),
                idx < self.chain@.len(),
                offset / cs <= idx,
                write <= len,
                write < len ==> offset + write == (idx + 1) * cs,
                offset + write <= (idx + 1) * cs,
                write > 0 ==> offset + write > idx * cs,
                write == 0 ==> idx == offset / cs,
                self.chain@.len() == vstd::math::max(c0.len() as int, idx + 1),
                self.chain@.len() == c0.len() || self.chain@.len() <= MAX_LEN,
            decreases len - write,
        {
            let clen = self.chain.len();
            idx = idx + 1;
            proof {
                assert(idx * cs == (idx - 1) * cs + cs) by (nonlinear_arith);
            }
            if idx < clen {
                let ghost fs3 = *fs;
                let got = fs.write_cluster(self.chain[idx], 0, buffer, write);
                proof {
                    lemma_write_state_write(fs0, fs3, *fs, c0, self.chain@, content0,
                        offset as int, buffer@, write as int, got as int, idx as int, 0);
                    assert((idx + 1) * cs == idx * cs + cs) by (nonlinear_arith);
                }
                write = write + got;
            } else {
                if clen < MAX_LEN {
                    let ghost fs4 = *fs;
                    let ghost c4 = self.chain@;
                    proof {
                        lemma_ceil_ge((offset + len) as int, cs as int, idx as int);
                        lemma_free_count_pos(fs.fat@, fs.fat@.len() as int);
                    }
                    let new = self.grow(fs);
                    proof {
                        lemma_write_state_grow(fs0, fs4, *fs, c0, c4, self.chain@, new, content0,
                            offset as int, buffer@, write as int);
                    }
                    let ghost fs5 = *fs;
                    let got = fs.write_cluster(new, 0, buffer, write);
                    proof {
                        lemma_write_state_write(fs0, fs5, *fs, c0, self.chain@, content0,
                            offset as int, buffer@, write as int, got as int, idx as int, 0);
                        assert((idx + 1) * cs == idx * cs + cs) by (nonlinear_arith);
                    }
                    write = write + got;
                } else {
                    proof {
                        lemma_ceil_ge((offset + len) as int, cs as int, idx as int);
                        assert((offset as nat) / fs0.cs() < write_limit(c0.len()));
                        assert(written_len(c0.len(), cs as nat, offset as nat, len as nat) > MAX_LEN);
                        assert(self.chain@.len() == written_clusters(c0.len(), cs as nat, offset as nat, len as nat));
                        assert(write == vstd::math::min(len as int, self.chain@.len() * cs - offset));
                    }
                    return Ok(write);
                }
            }
        }
        proof {
            if len > 0 {
                lemma_ceil_eq((offset + len) as int, cs as int, idx as int);
            } else {
                lemma_ceil_le(offset as int, cs as int);
            }
            assert(self.chain@.len() * cs >= (idx + 1) * cs) by (nonlinear_arith)
                requires
                    self.chain@.len() >= idx + 1,
                    cs > 0,
            ;
        }
        return Ok(write);
    }

    /// Cuts the chain to `len` clusters, freeing the clusters after them; cut to
    /// zero clusters, the whole chain is freed.
    pub fn truncate(&mut self, fs: &mut Fat32FS, len: usize) -> (r: Result<(), ()>)
        requires
            old(fs).wf(),
            clusters_valid(old(fs).fat@.len(), old(self).chain@),
        ensures
            r is Ok,
            final(fs).wf(),
            final(fs).dbr == old(fs).dbr,
            final(fs).clusters() == old(fs).clusters(),
            old(self).chain@.len() > 0 && len == 0 ==> final(self).chain@ == Seq::<u32>::empty()
                && final(fs).fat@ == super::freed(
                old(fs).fat@,
                chain_from(old(fs).fat@, old(self).chain@[0], old(fs).fat@.len()),
            ),
            old(self).chain@.len() > len > 0 ==> final(self).chain@ == old(self).chain@.subrange(0, len as int)
                && final(fs).fat@ == super::freed(
                old(fs).fat@,
                chain_from(old(fs).fat@, old(self).chain@[len - 1], old(fs).fat@.len()),
            ).update(old(self).chain@[len - 1] as int, EOC),
            old(self).chain@.len() <= len ==> final(self).chain@ == old(self).chain@ && final(fs).fat@
                == old(fs).fat@,
    {
        if self.chain.len() > len {
            if len == 0 {
                fs.clear_chain(self.chain[0]).unwrap();
            } else {
                fs.truncate_chain(self.chain[len - 1]).unwrap();
            }
            self.chain.truncate(len);
        }
        return Ok(());
    }

    /// The chain written out for printing: its first `max` clusters (all of them
    /// when `max` is negative or above the length), each in decimal and followed
    /// by `-`, then `|`; `(null)` for an empty chain.
    pub fn to_string(&self, max: isize) -> (r: String)
        ensures
            self.chain@.len() == 0 ==> r@ == "(null)"@,
            self.chain@.len() > 0 ==> r@ == chain_text(
                self.chain@.subrange(
                    0,
                    if max < 0 || max > self.chain@.len() {
                        self.chain@.len() as int
                    } else {
                        max as int
                    },
                ),
            ) + seq!['|'],
    {
        if self.chain.len() == 0 {
            return "(null)".to_owned();
        } else {
            let mut s = String::new();
            let max = if max < 0 {
                self.chain.len()
            } else if max as usize > self.chain.len() {
                self.chain.len()
            } else {
                max as usize
            };
            let mut i: usize = 0;
            while i < max
                invariant
                    max <= self.chain@.len(),
                    i <= max,
                    s@ == chain_text(self.chain@.subrange(0, i as int)),
                decreases max - i,
            {
                crate::text::push_decimal(&mut s, self.chain[i]);
                crate::strings::string_push(&mut s, '-');
                proof {
                    assert(self.chain@.subrange(0, i + 1).drop_last() =~= self.chain@.subrange(
                        0,
                        i as int,
                    ));
                }
                i = i + 1;
            }
            crate::strings::string_push(&mut s, '|');
            return s;
        }
    }
}

/// Each cluster number in decimal, followed by `-`.
pub open spec fn chain_text(chain: Seq<u32>) -> Seq<char>
    decreases chain.len(),
{
    if chain.len() == 0 {
        Seq::empty()
    } else {
        chain_text(chain.drop_last()) + crate::text::decimal(chain.last() as nat) + seq!['-']
    }
}


/// What a read of the chain gives back of a write: after `write` of `buf` at
/// `offset` returned `Ok(n)`, the chain's content holds the first `n` bytes of
/// `buf` from `offset` on.
pub proof fn lemma_write_then_read(
    fs0: Fat32FS,
    fs1: Fat32FS,
    c0: Seq<u32>,
    c1: Seq<u32>,
    content0: Seq<u8>,
    offset: usize,
    buf: Seq<u8>,
    n: usize,
)
    requires
        fs0.wf(),
        chain_written(fs0, fs1, c0, c1, content0, offset, buf, Ok(n)),
    ensures
        n <= buf.len(),
        offset + n <= chain_content(fs1.clusters(), c1).len(),
        forall|i: int| 0 <= i < n ==> #[trigger] chain_content(fs1.clusters(), c1)[offset + i] == buf[i],
{
    let total = written_clusters(c0.len(), fs0.cs(), offset as nat, buf.len());
    assert(chain_content(fs1.clusters(), c1) == written_content(content0, offset as int, buf, n as int, c1.len() * fs0.cs()));
    assert forall|i: int| 0 <= i < n implies #[trigger] chain_content(fs1.clusters(), c1)[offset + i] == buf[i] by {
        assert(offset <= offset + i < offset + n);
    }
}

} // verus!
