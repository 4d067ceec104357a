//! The tree of mounted file systems: which file system serves a path.
//!
//! A node is a directory on the way to mount points, or a mounted file system.
//! A file system mounted at `/foo/bar/` is a child of node `bar`, which is a
//! child of node `foo`, which stands at the top. A node has at most one file
//! system among its children.
use vstd::prelude::*;
use crate::fs::path::{error_message, names_view, parse_path, parse_spec, path_string, to_string, Path, PathView};

verus! {

/// A node of the mount tree: a directory on the way to mount points, with the
/// nodes under it, or a mounted file system, named by its handle.
pub enum MountNode {
    SubDir(String, Vec<MountNode>),
    FileSystem(u64),
}

/// The mathematical value of a mount node.
pub enum MountTree {
    Dir(Seq<char>, Seq<MountTree>),
    Fs(u64),
}

/// The value of a node.
pub open spec fn tree(n: MountNode) -> MountTree
    decreases n, 1nat,
{
    match n {
        MountNode::SubDir(s, v) => MountTree::Dir(s@, trees(v@)),
        MountNode::FileSystem(f) => MountTree::Fs(f),
    }
}

/// The values of a sequence of nodes.
pub open spec fn trees(q: Seq<MountNode>) -> Seq<MountTree>
    decreases q, 0nat,
{
    if q.len() == 0 {
        Seq::empty()
    } else {
        trees(q.drop_last()).push(tree(q.last()))
    }
}

/// Whether `t` is the directory `name`.
pub open spec fn is_dir_named(t: MountTree, name: Seq<char>) -> bool {
    t matches MountTree::Dir(n, _) && n == name
}

/// The nodes under a directory; none under a file system.
pub open spec fn subtrees(t: MountTree) -> Seq<MountTree> {
    match t {
        MountTree::Dir(_, c) => c,
        MountTree::Fs(_) => Seq::empty(),
    }
}

/// The handle of a file system node.
pub open spec fn fs_of(t: MountTree) -> u64 {
    match t {
        MountTree::Fs(f) => f,
        MountTree::Dir(_, _) => 0,
    }
}

/// `i` is the first directory `name` of `q`.
pub open spec fn is_first_dir(q: Seq<MountTree>, name: Seq<char>, i: int) -> bool {
    &&& 0 <= i < q.len()
    &&& is_dir_named(q[i], name)
    &&& forall|j: int| 0 <= j < i ==> !is_dir_named(#[trigger] q[j], name)
}

/// The first directory `name` of `q`, if any.
pub open spec fn first_dir(q: Seq<MountTree>, name: Seq<char>) -> Option<int> {
    if exists|i: int| is_first_dir(q, name, i) {
        Some(choose|i: int| is_first_dir(q, name, i))
    } else {
        None
    }
}

/// `i` is the first file system of `q`.
pub open spec fn is_first_fs(q: Seq<MountTree>, i: int) -> bool {
    &&& 0 <= i < q.len()
    &&& q[i] is Fs
    &&& forall|j: int| 0 <= j < i ==> !(#[trigger] q[j] is Fs)
}

/// The first file system of `q`, if any.
pub open spec fn first_fs(q: Seq<MountTree>) -> Option<int> {
    if exists|i: int| is_first_fs(q, i) {
        Some(choose|i: int| is_first_fs(q, i))
    } else {
        None
    }
}

/// `i` is the last file system of `q`.
pub open spec fn is_last_fs(q: Seq<MountTree>, i: int) -> bool {
    &&& 0 <= i < q.len()
    &&& q[i] is Fs
    &&& forall|j: int| i < j < q.len() ==> !(#[trigger] q[j] is Fs)
}

/// The last file system of `q`, if any.
pub open spec fn last_fs(q: Seq<MountTree>) -> Option<int> {
    if exists|i: int| is_last_fs(q, i) {
        Some(choose|i: int| is_last_fs(q, i))
    } else {
        None
    }
}

/// Mounting file system `f` at the names `rp` (in reverse order: the next
/// name is the last) under the nodes `q`: the directories on the way are
/// reused, or added when missing; `None` when a file system is mounted there
/// already.
pub open spec fn mount_spec(q: Seq<MountTree>, rp: Seq<Seq<char>>, f: u64) -> Option<Seq<MountTree>>
    decreases rp.len(),
{
    if rp.len() == 0 {
        if first_fs(q) is Some {
            None
        } else {
            Some(q.push(MountTree::Fs(f)))
        }
    } else {
        let name = rp.last();
        match first_dir(q, name) {
            Some(i) => match mount_spec(subtrees(q[i]), rp.drop_last(), f) {
                Some(c) => Some(q.update(i, MountTree::Dir(name, c))),
                None => None,
            },
            None => match mount_spec(Seq::empty(), rp.drop_last(), f) {
                Some(c) => Some(q.push(MountTree::Dir(name, c))),
                None => None,
            },
        }
    }
}

/// Unmounting at the names `rp` (reversed) under `q`: the first file system
/// there leaves, and so does every directory left empty on the way; the nodes
/// that remain and the handle of the file system taken off, if any.
pub open spec fn unmount_spec(q: Seq<MountTree>, rp: Seq<Seq<char>>) -> (Seq<MountTree>, Option<u64>)
    decreases rp.len(),
{
    if rp.len() == 0 {
        match first_fs(q) {
            Some(i) => (q.remove(i), Some(fs_of(q[i]))),
            None => (q, None),
        }
    } else {
        let name = rp.last();
        match first_dir(q, name) {
            Some(i) => {
                let (c, r) = unmount_spec(subtrees(q[i]), rp.drop_last());
                if c.len() == 0 {
                    (q.remove(i), r)
                } else {
                    (q.update(i, MountTree::Dir(name, c)), r)
                }
            },
            None => (q, None),
        }
    }
}

/// The file system that serves the names `rp` (reversed) under `q`, and how
/// many names its mount point takes. The walk follows the directories named by
/// the path as far as they go: where no directory has the next name, the last
/// file system mounted there serves the rest of the path; where the names end,
/// the first one mounted there serves. A directory that has the next name is
/// followed even when nothing serves the path below it.
pub open spec fn find_spec(q: Seq<MountTree>, rp: Seq<Seq<char>>) -> Option<(u64, nat)>
    decreases rp.len(),
{
    if rp.len() == 0 {
        match first_fs(q) {
            Some(i) => Some((fs_of(q[i]), 0nat)),
            None => None,
        }
    } else {
        match first_dir(q, rp.last()) {
            Some(i) => match find_spec(subtrees(q[i]), rp.drop_last()) {
                Some((f, k)) => Some((f, k + 1)),
                None => None,
            },
            None => match last_fs(q) {
                Some(i) => Some((fs_of(q[i]), 0nat)),
                None => None,
            },
        }
    }
}

/// Where file system `f` is mounted under `q`: the names of the directories
/// down to the first node of `f`, in the order of a depth-first walk.
pub open spec fn find_fs_spec(q: Seq<MountTree>, f: u64) -> Option<Seq<Seq<char>>>
    decreases q,
{
    if q.len() == 0 {
        None
    } else {
        match q[0] {
            MountTree::Fs(g) => if g == f {
                Some(Seq::empty())
            } else {
                find_fs_spec(q.drop_first(), f)
            },
            MountTree::Dir(n, c) => match find_fs_spec(c, f) {
                Some(p) => Some(seq![n] + p),
                None => find_fs_spec(q.drop_first(), f),
            },
        }
    }
}


/// The values of the nodes, one for one.
proof fn lemma_trees(q: Seq<MountNode>)
    ensures
        trees(q).len() == q.len(),
        forall|i: int| 0 <= i < q.len() ==> #[trigger] trees(q)[i] == tree(q[i]),
    decreases q.len(),
{
    if q.len() > 0 {
        lemma_trees(q.drop_last());
    }
}

/// The first directory `name` is unique.
proof fn lemma_first_dir(q: Seq<MountTree>, name: Seq<char>, i: int)
    requires
        is_first_dir(q, name, i),
    ensures
        first_dir(q, name) == Some(i),
{
    let j = choose|j: int| is_first_dir(q, name, j);
    assert(is_first_dir(q, name, j));
    if j < i {
        assert(!is_dir_named(q[j], name));
    }
    if i < j {
        assert(!is_dir_named(q[i], name));
    }
}

/// The first file system is unique.
proof fn lemma_first_fs(q: Seq<MountTree>, i: int)
    requires
        is_first_fs(q, i),
    ensures
        first_fs(q) == Some(i),
{
    let j = choose|j: int| is_first_fs(q, j);
    assert(is_first_fs(q, j));
    if j < i {
        assert(!(q[j] is Fs));
    }
    if i < j {
        assert(!(q[i] is Fs));
    }
}

/// The last file system is unique.
proof fn lemma_last_fs(q: Seq<MountTree>, i: int)
    requires
        is_last_fs(q, i),
    ensures
        last_fs(q) == Some(i),
{
    let j = choose|j: int| is_last_fs(q, j);
    assert(is_last_fs(q, j));
    if j < i {
        assert(!(q[i] is Fs));
    }
    if i < j {
        assert(!(q[j] is Fs));
    }
}

/// The first directory of `queue` whose name is `name`.
fn find_dir(queue: &Vec<MountNode>, name: &String) -> (r: Option<usize>)
    ensures
        r matches Some(i) ==> first_dir(trees(queue@), name@) == Some(i as int) && i < queue@.len(),
        r is None ==> first_dir(trees(queue@), name@) is None,
{
    proof {
        lemma_trees(queue@);
    }
    let ghost t = trees(queue@);
    let mut i: usize = 0;
    while i < queue.len()
        invariant
            i <= queue@.len(),
            t == trees(queue@),
            t.len() == queue@.len(),
            forall|k: int| 0 <= k < queue@.len() ==> #[trigger] t[k] == tree(queue@[k]),
            forall|j: int| 0 <= j < i ==> !is_dir_named(#[trigger] t[j], name@),
        decreases queue@.len() - i,
    {
        match &queue[i] {
            MountNode::SubDir(n, _) => {
                if n.eq(name) {
                    proof {
                        lemma_first_dir(t, name@, i as int);
                    }
                    return Some(i);
                }
            },
            MountNode::FileSystem(_) => {},
        }
        assert(!is_dir_named(t[i as int], name@));
        i = i + 1;
    }
    proof {
        if exists|k: int| is_first_dir(t, name@, k) {
            let k = choose|k: int| is_first_dir(t, name@, k);
            assert(!is_dir_named(t[k], name@));
        }
    }
    None
}

/// The first file system of `queue`.
fn find_first_fs(queue: &Vec<MountNode>) -> (r: Option<usize>)
    ensures
        r matches Some(i) ==> first_fs(trees(queue@)) == Some(i as int) && i < queue@.len(),
        r is None ==> first_fs(trees(queue@)) is None,
{
    proof {
        lemma_trees(queue@);
    }
    let ghost t = trees(queue@);
    let mut i: usize = 0;
    while i < queue.len()
        invariant
            i <= queue@.len(),
            t == trees(queue@),
            t.len() == queue@.len(),
            forall|k: int| 0 <= k < queue@.len() ==> #[trigger] t[k] == tree(queue@[k]),
            forall|j: int| 0 <= j < i ==> !(#[trigger] t[j] is Fs),
        decreases queue@.len() - i,
    {
        match &queue[i] {
            MountNode::FileSystem(_) => {
                proof {
                    lemma_first_fs(t, i as int);
                }
                return Some(i);
            },
            MountNode::SubDir(_, _) => {},
        }
        assert(!(t[i as int] is Fs));
        i = i + 1;
    }
    proof {
        if exists|k: int| is_first_fs(t, k) {
            let k = choose|k: int| is_first_fs(t, k);
            assert(!(t[k] is Fs));
        }
    }
    None
}

/// The names of `v` in reverse order.
fn reversed(v: Vec<String>) -> (r: Vec<String>)
    ensures
        names_view(r@) == names_view(v@).reverse(),
{
    let mut v = v;
    let ghost n = v@.len();
    let ghost v0 = v@;
    let mut r: Vec<String> = Vec::new();
    while v.len() > 0
        invariant
            v@ == v0.subrange(0, v@.len() as int),
            v@.len() + r@.len() == n,
            n == v0.len(),
            forall|k: int| 0 <= k < r@.len() ==> #[trigger] r@[k] == v0[n - 1 - k],
        decreases v@.len(),
    {
        let x = v.pop().unwrap();
        r.push(x);
    }
    proof {
        assert(names_view(r@) =~= names_view(v0).reverse());
    }
    r
}

/// The mount tree: the nodes at the top.
pub struct MountManagerInner {
    root: Vec<MountNode>,
}

impl MountManagerInner {
    /// The values of the nodes at the top.
    pub closed spec fn mounts(&self) -> Seq<MountTree> {
        trees(self.root@)
    }

    /// A tree with nothing mounted.
    pub fn new() -> (r: Self)
        ensures
            r.mounts() == Seq::<MountTree>::empty(),
    {
        Self { root: Vec::new() }
    }

    /// Mounts file system `vfs` at the names `path` (reversed: the next name is
    /// the last) under `queue`; an error when one is mounted there already.
    fn mount(queue: &mut Vec<MountNode>, path: Vec<String>, vfs: u64) -> (r: Result<(), &'static str>)
        ensures
            mount_spec(trees(old(queue)@), names_view(path@), vfs) matches Some(t) ==> r is Ok
                && trees(final(queue)@) == t,
            mount_spec(trees(old(queue)@), names_view(path@), vfs) is None ==> r is Err
                && r->Err_0@ == "current dir already mounted"@ && trees(final(queue)@) == trees(old(queue)@),
        decreases path@.len(),
    {
        proof {
            lemma_trees(queue@);
        }
        let ghost q0 = trees(queue@);
        if path.len() == 0 {
            match find_first_fs(queue) {
                Some(_) => {
                    proof {
                        reveal_strlit("current dir already mounted");
                    }
                    return Err("current dir already mounted");
                },
                None => {
                    queue.push(MountNode::FileSystem(vfs));
                    proof {
                        lemma_trees(queue@);
                        assert(trees(queue@) =~= q0.push(MountTree::Fs(vfs)));
                    }
                    return Ok(());
                },
            }
        }
        let mut path = path;
        let ghost p0 = path@;
        let dname = path.pop().unwrap();
        proof {
            assert(names_view(path@) =~= names_view(p0).drop_last());
            assert(names_view(p0).last() == dname@);
        }
        match find_dir(queue, &dname) {
            Some(i) => {
                let ghost before = queue@;
                let node: &mut MountNode = &mut queue[i];
                match node {
                    MountNode::SubDir(n, sq) => {
                        let ghost nm = n@;
                        proof {
                            assert(q0[i as int] == tree(before[i as int]));
                            assert(nm == dname@);
                            assert(subtrees(q0[i as int]) == trees(sq@));
                        }
                        let ghost sq0 = *sq;
                        let r = Self::mount(sq, path, vfs);
                        proof {
                            lemma_trees(queue@);
                            assert(queue@ == before.update(i as int, MountNode::SubDir(*n, *sq)));
                            if r is Err {
                                assert(tree(MountNode::SubDir(*n, *sq)) == tree(before[i as int]));
                                assert(trees(queue@) =~= q0);
                            }
                        }
                        return r;
                    },
                    MountNode::FileSystem(_) => {
                        proof {
                            assert(q0[i as int] == tree(before[i as int]));
                        }
                        return Ok(());
                    },
                }
            },
            None => {
                let mut sq: Vec<MountNode> = Vec::new();
                proof {
                    assert(trees(sq@) =~= Seq::<MountTree>::empty());
                }
                match Self::mount(&mut sq, path, vfs) {
                    Ok(()) => {
                        let ghost c = trees(sq@);
                        queue.push(MountNode::SubDir(dname, sq));
                        proof {
                            lemma_trees(queue@);
                            assert(trees(queue@) =~= q0.push(MountTree::Dir(p0.last()@, c)));
                        }
                        return Ok(());
                    },
                    Err(msg) => {
                        return Err(msg);
                    },
                }
            },
        }
    }
}


impl MountManagerInner {
    /// Mounts file system `vfs` at the absolute path `path`. The result is `Ok`
    /// whenever the path is absolute, also where a file system is mounted there
    /// already; the tree is then unchanged.
    pub fn mount_fs(&mut self, path: &str, vfs: u64) -> (r: Result<(), &'static str>)
        ensures
            match parse_spec(path@) {
                Err(e) => r is Err && r->Err_0@ == error_message(e) && final(self).mounts() == old(
                    self,
                ).mounts(),
                Ok(pv) => if !pv.is_abs {
                    r is Err && r->Err_0@ == "mount_fs: absolute path required"@ && final(self).mounts()
                        == old(self).mounts()
                } else {
                    r is Ok && final(self).mounts() == match mount_spec(
                        old(self).mounts(),
                        pv.path.reverse(),
                        vfs,
                    ) {
                        Some(t) => t,
                        None => old(self).mounts(),
                    }
                },
            },
    {
        let p = match parse_path(path) {
            Ok(p) => p,
            Err(err) => {
                return Err(to_string(err));
            },
        };
        if !p.is_abs {
            proof {
                reveal_strlit("mount_fs: absolute path required");
            }
            return Err("mount_fs: absolute path required");
        }
        let names = reversed(p.path);
        let _ = Self::mount(&mut self.root, names, vfs);
        return Ok(());
    }

    /// Takes off the first file system mounted at the names `path` (reversed)
    /// under `queue`, and every directory left empty on the way.
    fn unmount(queue: &mut Vec<MountNode>, path: Vec<String>) -> (r: Option<u64>)
        ensures
            (trees(final(queue)@), r) == unmount_spec(trees(old(queue)@), names_view(path@)),
        decreases path@.len(),
    {
        proof {
            lemma_trees(queue@);
        }
        let ghost q0 = trees(queue@);
        if path.len() == 0 {
            match find_first_fs(queue) {
                Some(i) => {
                    let n = queue.remove(i);
                    proof {
                        lemma_trees(queue@);
                        assert(trees(queue@) =~= q0.remove(i as int));
                        assert(q0[i as int] == tree(n));
                    }
                    match n {
                        MountNode::FileSystem(fs) => {
                            return Some(fs);
                        },
                        MountNode::SubDir(_, _) => {
                            return None;
                        },
                    }
                },
                None => {
                    return None;
                },
            }
        }
        let mut path = path;
        let ghost p0 = path@;
        let dname = path.pop().unwrap();
        proof {
            assert(names_view(path@) =~= names_view(p0).drop_last());
            assert(names_view(p0).last() == dname@);
        }
        match find_dir(queue, &dname) {
            Some(i) => {
                let ghost before = queue@;
                let node: &mut MountNode = &mut queue[i];
                let (result, empty) = match node {
                    MountNode::SubDir(n, sq) => {
                        proof {
                            assert(q0[i as int] == tree(before[i as int]));
                            assert(n@ == dname@);
                        }
                        let r = Self::unmount(sq, path);
                        proof {
                            lemma_trees(sq@);
                        }
                        (r, sq.len() == 0)
                    },
                    MountNode::FileSystem(_) => {
                        proof {
                            assert(q0[i as int] == tree(before[i as int]));
                        }
                        (None, false)
                    },
                };
                proof {
                    lemma_trees(queue@);
                }
                let ghost mid = queue@;
                if empty {
                    queue.remove(i);
                    proof {
                        lemma_trees(queue@);
                        assert(trees(queue@) =~= q0.remove(i as int));
                    }
                } else {
                    proof {
                        assert(trees(queue@) =~= q0.update(i as int, tree(mid[i as int])));
                    }
                }
                return result;
            },
            None => {
                return None;
            },
        }
    }

    /// Unmounts the file system mounted at the absolute path `path`; an error
    /// when none is.
    pub fn unmount_fs(&mut self, path: &str) -> (r: Result<(), &'static str>)
        ensures
            match parse_spec(path@) {
                Err(e) => r is Err && r->Err_0@ == error_message(e) && final(self).mounts() == old(
                    self,
                ).mounts(),
                Ok(pv) => if !pv.is_abs {
                    r is Err && r->Err_0@ == "unmount_fs: absolute path required"@ && final(self).mounts()
                        == old(self).mounts()
                } else {
                    &&& final(self).mounts() == unmount_spec(old(self).mounts(), pv.path.reverse()).0
                    &&& unmount_spec(old(self).mounts(), pv.path.reverse()).1 is Some ==> r is Ok
                    &&& unmount_spec(old(self).mounts(), pv.path.reverse()).1 is None ==> r is Err
                        && r->Err_0@ == "unmount_fs: path not mounted"@
                },
            },
    {
        let p = match parse_path(path) {
            Ok(p) => p,
            Err(err) => {
                return Err(to_string(err));
            },
        };
        if !p.is_abs {
            proof {
                reveal_strlit("unmount_fs: absolute path required");
            }
            return Err("unmount_fs: absolute path required");
        }
        let names = reversed(p.path);
        if let Some(_) = Self::unmount(&mut self.root, names) {
            return Ok(());
        }
        proof {
            reveal_strlit("unmount_fs: path not mounted");
        }
        return Err("unmount_fs: path not mounted");
    }
}


/// Reversing a sequence, keeping the first `n - k` elements and reversing again
/// keeps the elements of `s` from `k` on.
proof fn lemma_reverse_prefix(s: Seq<Seq<char>>, k: int)
    requires
        0 <= k <= s.len(),
    ensures
        s.reverse().subrange(0, s.len() - k).reverse() == s.subrange(k, s.len() as int),
{
    assert(s.reverse().subrange(0, s.len() - k).reverse() =~= s.subrange(k, s.len() as int));
}

/// The mount point found takes no more names than the path has.
proof fn lemma_find_spec_len(q: Seq<MountTree>, rp: Seq<Seq<char>>)
    ensures
        find_spec(q, rp) matches Some((f, k)) ==> k <= rp.len(),
    decreases rp.len(),
{
    if rp.len() > 0 {
        if let Some(i) = first_dir(q, rp.last()) {
            lemma_find_spec_len(subtrees(q[i]), rp.drop_last());
        }
    }
}

impl MountManagerInner {
    /// The file system that serves the names `path` (reversed) under `queue`;
    /// see `find_spec`. When one does, `path` keeps the names below its mount
    /// point.
    fn find_path(queue: &Vec<MountNode>, path: &mut Vec<String>) -> (r: Option<u64>)
        ensures
            match find_spec(trees(queue@), names_view(old(path)@)) {
                Some((f, k)) => r == Some(f) && names_view(final(path)@) == names_view(old(path)@).subrange(
                    0,
                    old(path)@.len() - k,
                ),
                None => r is None,
            },
        decreases old(path)@.len(),
    {
        proof {
            lemma_trees(queue@);
        }
        let ghost q0 = trees(queue@);
        if path.len() == 0 {
            match find_first_fs(queue) {
                Some(i) => {
                    proof {
                        assert(q0[i as int] == tree(queue@[i as int]));
                        assert(names_view(path@) =~= names_view(old(path)@).subrange(0, old(path)@.len() as int));
                    }
                    match &queue[i] {
                        MountNode::FileSystem(fs) => {
                            return Some(*fs);
                        },
                        MountNode::SubDir(_, _) => {
                            return None;
                        },
                    }
                },
                None => {
                    return None;
                },
            }
        }
        let ghost p0 = path@;
        let dname = path.pop().unwrap();
        proof {
            assert(names_view(path@) =~= names_view(p0).drop_last());
            assert(names_view(p0).last() == dname@);
        }
        let mut result: Option<u64> = None;
        let mut i: usize = 0;
        while i < queue.len()
            invariant
                i <= queue@.len(),
                q0 == trees(queue@),
                q0.len() == queue@.len(),
                forall|k: int| 0 <= k < queue@.len() ==> #[trigger] q0[k] == tree(queue@[k]),
                forall|j: int| 0 <= j < i ==> !is_dir_named(#[trigger] q0[j], dname@),
                path@ == p0.drop_last(),
                names_view(path@) == names_view(p0).drop_last(),
                p0.len() > 0,
                p0 == old(path)@,
                names_view(p0).last() == dname@,
                result matches Some(f) ==> exists|j: int|
                    0 <= j < i && q0[j] == MountTree::Fs(f) && forall|m: int| j < m < i ==> !(#[trigger] q0[m] is Fs),
                result is None ==> forall|j: int| 0 <= j < i ==> !(#[trigger] q0[j] is Fs),
            decreases queue@.len() - i,
        {
            match &queue[i] {
                MountNode::SubDir(name, sq) => {
                    if dname.eq(name) {
                        proof {
                            lemma_first_dir(q0, dname@, i as int);
                            assert(subtrees(q0[i as int]) == trees(sq@));
                            lemma_find_spec_len(trees(sq@), names_view(path@));
                        }
                        let ghost mid = path@;
                        let r = Self::find_path(sq, path);
                        proof {
                            let rp = names_view(p0);
                            assert(rp.last() == dname@);
                            assert(rp.drop_last() == names_view(mid));
                            match find_spec(trees(sq@), names_view(mid)) {
                                Some((f, k)) => {
                                    assert(find_spec(q0, rp) == Some((f, k + 1)));
                                    assert(names_view(path@) =~= rp.subrange(0, p0.len() - (k + 1)));
                                },
                                None => {
                                    assert(find_spec(q0, rp) is None);
                                },
                            }
                        }
                        return r;
                    }
                },
                MountNode::FileSystem(fs) => {
                    result = Some(*fs);
                },
            }
            i = i + 1;
        }
        path.push(dname);
        proof {
            assert(path@ =~= p0);
            if exists|k: int| is_first_dir(q0, dname@, k) {
                let k = choose|k: int| is_first_dir(q0, dname@, k);
                assert(!is_dir_named(q0[k], dname@));
            }
            assert(first_dir(q0, dname@) is None);
            match result {
                Some(f) => {
                    let j = choose|j: int|
                        0 <= j < i && q0[j] == MountTree::Fs(f) && forall|m: int| j < m < i ==> !(#[trigger] q0[m] is Fs);
                    lemma_last_fs(q0, j);
                    assert(names_view(path@) =~= names_view(p0).subrange(0, p0.len() as int));
                },
                None => {
                    if exists|k: int| is_last_fs(q0, k) {
                        let k = choose|k: int| is_last_fs(q0, k);
                        assert(!(q0[k] is Fs));
                    }
                },
            }
        }
        result
    }

    /// The file system that serves the absolute path `total_path`, and the path
    /// below its mount point (absolute, with the `must_dir` of the path given).
    pub fn parse(&self, total_path: &str) -> (r: Result<(u64, Path), &'static str>)
        ensures
            match parse_spec(total_path@) {
                Err(e) => r is Err && r->Err_0@ == error_message(e),
                Ok(pv) => if !pv.is_abs {
                    r is Err && r->Err_0@ == "parse: absolute path required"@
                } else {
                    match find_spec(self.mounts(), pv.path.reverse()) {
                        Some((f, k)) => r is Ok && (r->Ok_0).0 == f && (r->Ok_0).1@ == PathView {
                            path: pv.path.subrange(k as int, pv.path.len() as int),
                            must_dir: pv.must_dir,
                            is_abs: true,
                        },
                        None => r is Err && r->Err_0@ == "parse: fs not found"@,
                    }
                },
            },
    {
        let p = match parse_path(total_path) {
            Ok(p) => p,
            Err(err) => {
                return Err(to_string(err));
            },
        };
        if !p.is_abs {
            proof {
                reveal_strlit("parse: absolute path required");
            }
            return Err("parse: absolute path required");
        }
        let must_dir = p.must_dir;
        let ghost pv = p@;
        let mut names = reversed(p.path);
        match Self::find_path(&self.root, &mut names) {
            Some(vfs) => {
                let names = reversed(names);
                proof {
                    lemma_find_spec_len(self.mounts(), pv.path.reverse());
                    let (f, k) = find_spec(self.mounts(), pv.path.reverse())->0;
                    lemma_reverse_prefix(pv.path, k as int);
                }
                return Ok((vfs, Path { path: names, must_dir, is_abs: true }));
            },
            None => {
                proof {
                    reveal_strlit("parse: fs not found");
                }
                return Err("parse: fs not found");
            },
        }
    }
}


impl MountManagerInner {
    /// Appends to `path` the names of the directories down to the first node of
    /// file system `vfs` under `queue` (see `find_fs_spec`); an error, and
    /// `path` unchanged, when it is not mounted there.
    fn find_fs(queue: &Vec<MountNode>, vfs: u64, path: &mut Vec<String>) -> (r: Result<(), ()>)
        ensures
            match find_fs_spec(trees(queue@), vfs) {
                Some(p) => r is Ok && names_view(final(path)@) == names_view(old(path)@) + p,
                None => r is Err && names_view(final(path)@) == names_view(old(path)@),
            },
        decreases queue@,
    {
        proof {
            lemma_trees(queue@);
        }
        let ghost t = trees(queue@);
        proof {
            assert(t.skip(0) =~= t);
        }
        let mut i: usize = 0;
        while i < queue.len()
            invariant
                i <= queue@.len(),
                t == trees(queue@),
                t.len() == queue@.len(),
                forall|k: int| 0 <= k < queue@.len() ==> #[trigger] t[k] == tree(queue@[k]),
                find_fs_spec(t, vfs) == find_fs_spec(t.skip(i as int), vfs),
                names_view(path@) == names_view(old(path)@),
            decreases queue@.len() - i,
        {
            let ghost s = t.skip(i as int);
            proof {
                assert(s[0] == t[i as int]);
                assert(s.drop_first() =~= t.skip(i + 1));
            }
            match &queue[i] {
                MountNode::FileSystem(fs) => {
                    if *fs == vfs {
                        proof {
                            assert(names_view(path@) =~= names_view(old(path)@) + Seq::<Seq<char>>::empty());
                        }
                        return Ok(());
                    }
                },
                MountNode::SubDir(name, q) => {
                    let ghost before = path@;
                    path.push(name.clone());
                    proof {
                        assert(decreases_to!(queue@ => queue@[i as int]));
                        assert(names_view(path@) =~= names_view(before).push(name@));
                    }
                    let r = Self::find_fs(q, vfs, path);
                    if r.is_ok() {
                        proof {
                            let p = find_fs_spec(trees(q@), vfs)->0;
                            assert(names_view(path@) =~= names_view(old(path)@) + (seq![name@] + p));
                        }
                        return Ok(());
                    }
                    let ghost after = path@;
                    path.pop();
                    proof {
                        assert(path@ == after.drop_last());
                        assert(names_view(after) == names_view(before).push(name@));
                        assert(names_view(path@) =~= names_view(after).drop_last());
                        assert(names_view(path@) =~= names_view(before));
                    }
                },
            }
            i = i + 1;
        }
        proof {
            assert(t.skip(i as int) =~= Seq::<MountTree>::empty());
        }
        Err(())
    }

    /// The absolute path at which file system `vfs` is mounted, written out as a
    /// directory; an error when it is not mounted.
    pub fn mounted_at(&self, vfs: u64) -> (r: Result<String, &'static str>)
        ensures
            match find_fs_spec(self.mounts(), vfs) {
                Some(p) => r is Ok && r->Ok_0@ == path_string(PathView { path: p, must_dir: true, is_abs: true }),
                None => r is Err && r->Err_0@ == "mounted_at: VFS not found"@,
            },
    {
        let mut path: Vec<String> = Vec::new();
        proof {
            assert(names_view(path@) =~= Seq::<Seq<char>>::empty());
        }
        if let Ok(()) = Self::find_fs(&self.root, vfs, &mut path) {
            let p = Path { path, must_dir: true, is_abs: true };
            proof {
                let q = find_fs_spec(self.mounts(), vfs)->0;
                assert(p@.path =~= q);
            }
            return Ok(p.to_string());
        }
        proof {
            reveal_strlit("mounted_at: VFS not found");
        }
        return Err("mounted_at: VFS not found");
    }
}


/// A directory `name` in `q` means a first one.
proof fn lemma_first_dir_exists(q: Seq<MountTree>, name: Seq<char>, j: int)
    requires
        0 <= j < q.len(),
        is_dir_named(q[j], name),
    ensures
        first_dir(q, name) is Some,
    decreases j,
{
    if exists|k: int| 0 <= k < j && is_dir_named(#[trigger] q[k], name) {
        let k = choose|k: int| 0 <= k < j && is_dir_named(#[trigger] q[k], name);
        lemma_first_dir_exists(q, name, k);
    } else {
        assert(is_first_dir(q, name, j));
    }
}

/// A file system in `q` means a first one.
proof fn lemma_first_fs_exists(q: Seq<MountTree>, j: int)
    requires
        0 <= j < q.len(),
        q[j] is Fs,
    ensures
        first_fs(q) is Some,
    decreases j,
{
    if exists|k: int| 0 <= k < j && #[trigger] q[k] is Fs {
        let k = choose|k: int| 0 <= k < j && #[trigger] q[k] is Fs;
        lemma_first_fs_exists(q, k);
    } else {
        assert(is_first_fs(q, j));
    }
}

/// The directories on the way of the names `rp` (reversed) under `q` are not
/// empty, as `unmount_spec` leaves them.
pub open spec fn path_dirs_nonempty(q: Seq<MountTree>, rp: Seq<Seq<char>>) -> bool
    decreases rp.len(),
{
    rp.len() > 0 ==> match first_dir(q, rp.last()) {
        Some(i) => subtrees(q[i]).len() > 0 && path_dirs_nonempty(subtrees(q[i]), rp.drop_last()),
        None => true,
    }
}

/// What mounting does in one level of the tree: the node for the next name is
/// the directory that was there, or a new one at the end.
proof fn lemma_mount_level(q: Seq<MountTree>, rp: Seq<Seq<char>>, f: u64)
    requires
        rp.len() > 0,
        mount_spec(q, rp, f) is Some,
    ensures
        ({
            let q1 = mount_spec(q, rp, f)->0;
            let name = rp.last();
            match first_dir(q, name) {
                Some(i) => first_dir(q1, name) == Some(i) && subtrees(q1[i]) == mount_spec(
                    subtrees(q[i]),
                    rp.drop_last(),
                    f,
                )->0,
                None => first_dir(q1, name) == Some(q.len() as int) && subtrees(q1[q.len() as int])
                    == mount_spec(Seq::empty(), rp.drop_last(), f)->0 && q1 == q.push(q1[q.len() as int]),
            }
        }),
{
    let q1 = mount_spec(q, rp, f)->0;
    let name = rp.last();
    match first_dir(q, name) {
        Some(i) => {
            assert(is_first_dir(q1, name, i));
            lemma_first_dir(q1, name, i);
        },
        None => {
            assert forall|j: int| 0 <= j < q.len() implies !is_dir_named(#[trigger] q[j], name) by {
                if is_dir_named(q[j], name) {
                    lemma_first_dir_exists(q, name, j);
                }
            }
            assert(is_first_dir(q1, name, q.len() as int));
            lemma_first_dir(q1, name, q.len() as int);
        },
    }
}

/// A file system mounted at a path serves that path, taking all its names.
pub proof fn lemma_mount_then_find(q: Seq<MountTree>, rp: Seq<Seq<char>>, f: u64)
    requires
        mount_spec(q, rp, f) is Some,
    ensures
        find_spec(mount_spec(q, rp, f)->0, rp) == Some((f, rp.len())),
    decreases rp.len(),
{
    let q1 = mount_spec(q, rp, f)->0;
    if rp.len() == 0 {
        assert forall|j: int| 0 <= j < q.len() implies !(#[trigger] q[j] is Fs) by {
            if q[j] is Fs {
                lemma_first_fs_exists(q, j);
            }
        }
        assert(is_first_fs(q1, q.len() as int));
        lemma_first_fs(q1, q.len() as int);
    } else {
        lemma_mount_level(q, rp, f);
        match first_dir(q, rp.last()) {
            Some(i) => {
                lemma_mount_then_find(subtrees(q[i]), rp.drop_last(), f);
            },
            None => {
                lemma_mount_then_find(Seq::empty(), rp.drop_last(), f);
            },
        }
    }
}

/// Unmounting a path just mounted gives back the tree as it was and the file
/// system mounted, where the directories on the way were not empty (as the
/// tree keeps them).
pub proof fn lemma_unmount_undoes_mount(q: Seq<MountTree>, rp: Seq<Seq<char>>, f: u64)
    requires
        mount_spec(q, rp, f) is Some,
        path_dirs_nonempty(q, rp),
    ensures
        unmount_spec(mount_spec(q, rp, f)->0, rp) == (q, Some(f)),
    decreases rp.len(),
{
    let q1 = mount_spec(q, rp, f)->0;
    if rp.len() == 0 {
        assert forall|j: int| 0 <= j < q.len() implies !(#[trigger] q[j] is Fs) by {
            if q[j] is Fs {
                lemma_first_fs_exists(q, j);
            }
        }
        assert(is_first_fs(q1, q.len() as int));
        lemma_first_fs(q1, q.len() as int);
        assert(q1.remove(q.len() as int) =~= q);
    } else {
        lemma_mount_level(q, rp, f);
        match first_dir(q, rp.last()) {
            Some(i) => {
                lemma_unmount_undoes_mount(subtrees(q[i]), rp.drop_last(), f);
                assert(q1.update(i, MountTree::Dir(rp.last(), subtrees(q[i]))) =~= q);
            },
            None => {
                assert(path_dirs_nonempty(Seq::<MountTree>::empty(), rp.drop_last()));
                lemma_unmount_undoes_mount(Seq::empty(), rp.drop_last(), f);
                assert(q1.remove(q.len() as int) =~= q);
            },
        }
    }
}

} // verus!
