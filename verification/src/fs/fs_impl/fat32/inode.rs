//! Inodes of FAT32: a file's directory entries and its chain, managed together
//! and named by the path of the directory that holds them.
use vstd::prelude::*;
use super::chain::{
    chain_ok, lemma_content_frame, lemma_free_count_update, lemma_written_len_within, write_frame,
    written_content, written_len, Chain, MAX_LEN,
};
use super::dirent::{
    delete_dirent_group, delete_group_spec, has_non_nul, empty_dir, empty_from, end_scan, group_bytes,
    group_made, lemma_exts_bytes, lfn_units, write_dirent_group, EXT_END,
    group_is, lemma_scan_group_next, entry_bytes, entry_start, exts_bytes_each, groups_from, lemma_group_fields, read_dirent_group,
    root_entry_bytes, scan_group, scanned_name, DirEntryGroup, DirEntryRaw, ScannedGroup, ATTR_FILE,
    ATTR_SUBDIR, ATTR_SYM,
};
use super::{chain_content, chain_from, clusters_valid, free_count, freed, has_free, zeros, Fat32FS, EOC};
use crate::text::{encode_utf16, utf16_of_char};
use super::dirent::{lemma_end_scan_ge, lemma_end_scan_le, short_name, strip_zeros};
use super::lemma_chain_content_len;
use super::fat::{cluster_type, CLUSTER};
use crate::fs::path::{dotdot, purge_run, Path, PathView, PurgeOutcome};
use crate::process::ErrNo;

verus! {

/// A file of the volume: its name, the path of the directory that holds it, its
/// group of directory entries, and its chain. The volume is passed to each
/// operation.
pub struct Inode {
    pub name: String,
    pub path: Path,
    pub group: DirEntryGroup,
    pub chain: Chain,
}

/// The mathematical value of an inode; the entries are taken as their bytes.
pub struct InodeView {
    pub name: Seq<char>,
    pub path: PathView,
    pub exts: Seq<Seq<u8>>,
    pub entry: Seq<u8>,
    pub offset: int,
    pub slotsize: int,
    pub chain: Seq<u32>,
}

impl View for Inode {
    type V = InodeView;

    open spec fn view(&self) -> InodeView {
        InodeView {
            name: self.name@,
            path: self.path@,
            exts: exts_bytes_each(self.group.exts@),
            entry: entry_bytes(self.group.entry),
            offset: self.group.offset as int,
            slotsize: self.group.slotsize as int,
            chain: self.chain.chain@,
        }
    }
}

/// Whether the entry marks a directory.
pub open spec fn view_is_dir(iv: InodeView) -> bool {
    iv.entry[11] & ATTR_SUBDIR == ATTR_SUBDIR
}

/// Whether the entry is `.` or `..`.
pub open spec fn view_is_fake(iv: InodeView) -> bool {
    ||| (iv.entry[0] == 0x2e && iv.entry[1] == 0x20)
    ||| (iv.entry[0] == 0x2e && iv.entry[1] == 0x2e && iv.entry[2] == 0x20)
}

/// The path of the files in directory `name` of path `p`: `p` itself when the
/// name is empty (the root directory).
pub open spec fn child_path(p: PathView, name: Seq<char>) -> PathView {
    if name.len() > 0 {
        PathView { path: p.path.push(name), must_dir: true, is_abs: p.is_abs }
    } else {
        p
    }
}

/// The inode of the group `g`, named `name`, read from directory `iv` of `fs`.
pub open spec fn child_view(fs: Fat32FS, iv: InodeView, g: ScannedGroup, name: Seq<char>) -> InodeView {
    InodeView {
        name: name,
        path: child_path(iv.path, iv.name),
        exts: g.1,
        entry: g.2,
        offset: g.0,
        slotsize: g.3 as int,
        chain: chain_from(fs.fat@, entry_start(g.2), fs.fat@.len()),
    }
}

/// The content of an inode's chain.
pub open spec fn view_content(fs: Fat32FS, iv: InodeView) -> Seq<u8> {
    chain_content(fs.clusters(), iv.chain)
}

/// The groups of directory `iv`.
pub open spec fn view_groups(fs: Fat32FS, iv: InodeView) -> Seq<ScannedGroup> {
    groups_from(view_content(fs, iv), 0)
}

/// The index of the first group, from `i` on, that is named `name`; the length
/// when there is none.
pub open spec fn first_named(gs: Seq<ScannedGroup>, name: Seq<char>, i: int) -> int
    decreases gs.len() - i,
{
    if i >= gs.len() || i < 0 {
        gs.len() as int
    } else if scanned_name(gs[i].1, gs[i].2) == Some(name) {
        i
    } else {
        first_named(gs, name, i + 1)
    }
}

/// The first index named so lies between `i` and the length.
proof fn lemma_first_named_range(gs: Seq<ScannedGroup>, name: Seq<char>, i: int)
    requires
        0 <= i <= gs.len(),
    ensures
        i <= first_named(gs, name, i) <= gs.len(),
    decreases gs.len() - i,
{
    if i < gs.len() && scanned_name(gs[i].1, gs[i].2) != Some(name) {
        lemma_first_named_range(gs, name, i + 1);
    }
}

/// The groups from `off` on: the one read there, then those after it.
proof fn lemma_groups_from_unfold(content: Seq<u8>, off: int)
    requires
        scan_group(content, off, Seq::empty(), 0) is Ok,
    ensures
        ({
            let s = scan_group(content, off, Seq::empty(), 0)->Ok_0;
            groups_from(content, off) == seq![(off, s.0, s.1, s.2, s.3)] + groups_from(content, s.3)
        }),
{
}

/// The chain of an inode can be read on `fs`.
pub open spec fn view_readable(fs: Fat32FS, iv: InodeView) -> bool {
    &&& clusters_valid(fs.fat@.len(), iv.chain)
    &&& view_content(fs, iv).len() <= usize::MAX
}

/// Looking for `name` in directory `iv` can be done: the directory can be read
/// and each group up to the one named so (all of them when none is) has a name.
#[verifier::opaque]
pub open spec fn find_ok(fs: Fat32FS, iv: InodeView, name: Seq<char>) -> bool {
    view_is_dir(iv) ==> {
        &&& view_readable(fs, iv)
        &&& forall|j: int|
            0 <= j < view_groups(fs, iv).len() && j <= first_named(view_groups(fs, iv), name, 0)
                ==> #[trigger] scanned_name(view_groups(fs, iv)[j].1, view_groups(fs, iv)[j].2)
                is Some
    }
}

/// What looking for `name` in directory `iv` gives: the inode of the first group
/// so named; an error when `iv` is no directory or no group has the name.
pub open spec fn find_spec(fs: Fat32FS, iv: InodeView, name: Seq<char>) -> Result<InodeView, ErrNo> {
    if !view_is_dir(iv) {
        Err(ErrNo::NotADirectory)
    } else {
        let gs = view_groups(fs, iv);
        let j = first_named(gs, name, 0);
        if j < gs.len() {
            Ok(child_view(fs, iv, gs[j], name))
        } else {
            Err(ErrNo::NoSuchFileOrDirectory)
        }
    }
}

/// The views of a result of inodes.
pub open spec fn result_view<E>(r: Result<Inode, E>) -> Result<InodeView, E> {
    match r {
        Ok(i) => Ok(i@),
        Err(e) => Err(e),
    }
}

/// What following the names `names` from directory `iv` gives.
pub open spec fn walk_spec(fs: Fat32FS, iv: InodeView, names: Seq<Seq<char>>) -> Result<
    InodeView,
    ErrNo,
>
    decreases names.len(),
{
    if names.len() == 0 {
        Ok(iv)
    } else {
        match find_spec(fs, iv, names[0]) {
            Ok(c) => walk_spec(fs, c, names.drop_first()),
            Err(e) => Err(e),
        }
    }
}

/// Following the names `names` from directory `iv` can be done: each look-up on
/// the way can be.
#[verifier::opaque]
pub open spec fn walk_ok(fs: Fat32FS, iv: InodeView, names: Seq<Seq<char>>) -> bool
    decreases names.len(),
{
    if names.len() == 0 {
        true
    } else {
        &&& find_ok(fs, iv, names[0])
        &&& match find_spec(fs, iv, names[0]) {
            Ok(c) => walk_ok(fs, c, names.drop_first()),
            Err(_) => true,
        }
    }
}

/// What `find_inode_path` gives for `path` from directory `iv`.
pub open spec fn find_path_spec(fs: Fat32FS, iv: InodeView, path: PathView) -> Result<
    InodeView,
    ErrNo,
> {
    if !view_is_dir(iv) {
        Err(ErrNo::NotADirectory)
    } else if path.path.len() == 0 {
        Err(ErrNo::InvalidArgument)
    } else {
        match walk_spec(fs, iv, path.path) {
            Ok(i) => if path.must_dir && !view_is_dir(i) {
                Err(ErrNo::NotADirectory)
            } else {
                Ok(i)
            },
            Err(e) => Err(e),
        }
    }
}

/// The inode of the root directory of `fs`.
pub open spec fn root_view(fs: Fat32FS) -> InodeView {
    InodeView {
        name: Seq::empty(),
        path: PathView { path: Seq::empty(), must_dir: true, is_abs: true },
        exts: Seq::empty(),
        entry: root_entry_bytes(),
        offset: 0,
        slotsize: 0,
        chain: chain_from(fs.fat@, fs.dbr.root, fs.fat@.len()),
    }
}

/// The number of bytes of the group `DirEntryGroup::new` makes for `name`.
pub open spec fn new_group_len(name: Seq<char>) -> nat {
    32 * (lfn_units(name).len() / 13 + 1)
}

/// A group of `len` bytes can be added to directory `iv`: after its last entry,
/// within the chain lengths `Chain::write` allows, with enough free clusters.
pub open spec fn add_fits(fs: Fat32FS, iv: InodeView, len: nat) -> bool {
    let content = view_content(fs, iv);
    let at = end_scan(content, 0, 0).0;
    &&& chain_ok(&fs, iv.chain)
    &&& content.len() <= usize::MAX
    &&& at + len <= usize::MAX
    &&& written_len(iv.chain.len(), fs.cs(), at as nat, len) <= MAX_LEN
    &&& free_count(fs.fat@, fs.fat@.len() as int) + iv.chain.len() >= written_len(
        iv.chain.len(),
        fs.cs(),
        at as nat,
        len,
    )
}

/// The first cluster of a chain, zero for an empty one.
pub open spec fn chain_start(c: Seq<u32>) -> u32 {
    if c.len() == 0 {
        0
    } else {
        c[0]
    }
}

/// `fs1` is `fs0` after adding group `g` to directory `c0` (content `content0`),
/// whose chain became `c1`: the group went where the entries end.
pub open spec fn group_added(
    fs0: Fat32FS,
    fs1: Fat32FS,
    c0: Seq<u32>,
    c1: Seq<u32>,
    content0: Seq<u8>,
    g: DirEntryGroup,
) -> bool {
    let at = end_scan(content0, 0, 0).0;
    let total = written_len(c0.len(), fs0.cs(), at as nat, group_bytes(g).len());
    &&& g.offset == at
    &&& g.slotsize == g.exts@.len() + 1 + end_scan(content0, 0, 0).1
    &&& write_frame(fs0, fs1, c0, c1)
    &&& c1.len() == total
    &&& chain_content(fs1.clusters(), c1) == written_content(
        content0,
        at,
        group_bytes(g),
        group_bytes(g).len() as int,
        total * fs0.cs(),
    )
}

/// A chain keeps its standing when clusters that are not in it are freed.
proof fn lemma_chain_ok_freed(fs0: Fat32FS, fs1: Fat32FS, c: Seq<u32>, fc: Seq<u32>)
    requires
        fs0.wf(),
        fs1.wf(),
        chain_ok(&fs0, c),
        fs1.fat@ == freed(fs0.fat@, fc),
        forall|i: int| 0 <= i < c.len() ==> !fc.contains(#[trigger] c[i]),
    ensures
        chain_ok(&fs1, c),
{
    assert forall|i: int| 0 <= i < c.len() implies fs1.fat@[c[i] as int] == fs0.fat@[c[i] as int] by {
        assert(!fc.contains(c[i]));
    }
    if c.len() > 0 {
        assert(fs1.fat@[c.last() as int] == fs0.fat@[c.last() as int]) by {
            assert(c[c.len() - 1] == c.last());
        }
    }
}

/// Deleting the file named `name` from directory `iv` can be done: when the
/// file is found, its chain can be read, shares no cluster with the directory's,
/// and its group can be marked deleted.
#[verifier::opaque]
pub open spec fn delete_fits(fs: Fat32FS, iv: InodeView, name: Seq<char>) -> bool {
    let gs = view_groups(fs, iv);
    let j = first_named(gs, name, 0);
    view_is_dir(iv) && j < gs.len() ==> {
        let fc = chain_from(fs.fat@, entry_start(gs[j].2), fs.fat@.len());
        &&& chain_content(fs.clusters(), fc).len() <= usize::MAX
        &&& forall|i: int| 0 <= i < iv.chain.len() ==> !fc.contains(#[trigger] iv.chain[i])
        &&& delete_group_spec(view_content(fs, iv), gs[j].0).0 is Ok
    }
}

/// `fs1` is `fs0` after its first free cluster `f` was taken for a new chain:
/// marked as the end of a chain and zero-filled.
pub open spec fn cluster_taken(fs0: Fat32FS, fs1: Fat32FS, f: u32) -> bool {
    &&& fs0.valid_cluster(f)
    &&& cluster_type(fs0.fat@[f as int]) == CLUSTER::Free
    &&& forall|k: int| 2 <= k < f ==> cluster_type(#[trigger] fs0.fat@[k]) != CLUSTER::Free
    &&& fs1.wf()
    &&& fs1.dbr == fs0.dbr
    &&& fs1.fat@ == fs0.fat@.update(f as int, EOC)
    &&& fs1.clusters() == fs0.clusters().update(f - 2, zeros(fs0.cs()))
}

/// How `new_dir` went, from `fs0` to `fs4`: cluster `f` was taken (`fs1`),
/// the group `g` for `name` added to the parent directory, whose chain went from
/// `cp0` (content `content0`) to `cp1` (`fs2`), then the group `.` added to the new
/// directory, whose chain went from `[f]` to `c1` (`fs3`), then the group `..`
/// (whose chain is the parent's), which left it as `cn`.
pub open spec fn dir_made(
    fs0: Fat32FS,
    fs1: Fat32FS,
    fs2: Fat32FS,
    fs3: Fat32FS,
    fs4: Fat32FS,
    f: u32,
    cp0: Seq<u32>,
    cp1: Seq<u32>,
    content0: Seq<u8>,
    g: DirEntryGroup,
    c1: Seq<u32>,
    g_dot: DirEntryGroup,
    g_dd: DirEntryGroup,
    cn: Seq<u32>,
    name: Seq<char>,
    attr: u8,
) -> bool {
    &&& cluster_taken(fs0, fs1, f)
    &&& group_made(g, name, f, attr)
    &&& group_added(fs1, fs2, cp0, cp1, content0, g)
    &&& group_made(g_dot, "."@, f, ATTR_SUBDIR)
    &&& group_added(fs2, fs3, seq![f], c1, zeros(fs0.cs()), g_dot)
    &&& group_made(g_dd, ".."@, chain_start(cp1), ATTR_SUBDIR)
    &&& group_added(fs3, fs4, c1, cn, chain_content(fs3.clusters(), c1), g_dd)
}

/// `new_dir` went from `fs0` to `fs4` in some such steps (see `dir_made`).
pub open spec fn dir_made_some(
    fs0: Fat32FS,
    fs4: Fat32FS,
    cp0: Seq<u32>,
    cp1: Seq<u32>,
    content0: Seq<u8>,
    g: DirEntryGroup,
    cn: Seq<u32>,
    name: Seq<char>,
    attr: u8,
) -> bool {
    exists|
        fs1: Fat32FS,
        fs2: Fat32FS,
        fs3: Fat32FS,
        f: u32,
        c1: Seq<u32>,
        g_dot: DirEntryGroup,
        g_dd: DirEntryGroup,
    |
        #[trigger] dir_made(
            fs0,
            fs1,
            fs2,
            fs3,
            fs4,
            f,
            cp0,
            cp1,
            content0,
            g,
            c1,
            g_dot,
            g_dd,
            cn,
            name,
            attr,
        )
}

/// Whether a short name is `.` or `..`.
pub open spec fn short_is_fake(n: Seq<u8>) -> bool {
    ||| (n[0] == 0x2e && n[1] == 0x20)
    ||| (n[0] == 0x2e && n[1] == 0x2e && n[2] == 0x20)
}

/// The groups for `.` and `..` take 64 bytes each.
proof fn lemma_dot_group_len()
    ensures
        new_group_len("."@) == 64,
        new_group_len(".."@) == 64,
        has_non_nul("."@),
        has_non_nul(".."@),
{
    reveal_strlit(".");
    reveal_strlit("..");
    let d = seq!['.'];
    let dd = seq!['.', '.'];
    assert("."@ == d);
    assert(".."@ == dd);
    assert(utf16_of_char('.') == seq![46u16]);
    assert(d.drop_last() =~= Seq::<char>::empty());
    assert(d.last() == '.');
    assert('.' as u32 == 46);
    assert(encode_utf16(Seq::<char>::empty()) == Seq::<u16>::empty());
    assert(encode_utf16(d) =~= seq![46u16]);
    assert(dd.last() == '.');
    assert(dd.drop_last() =~= d);
    assert(encode_utf16(dd) =~= seq![46u16, 46u16]);
    assert(strip_zeros(seq![46u16]) == seq![46u16]);
    assert(strip_zeros(seq![46u16, 46u16]) == seq![46u16, 46u16]);
    assert(d[0] != '\0');
    assert(dd[0] != '\0');
}

/// The inode with the size its entry records set to `size`.
pub open spec fn with_size(i: Inode, size: u32) -> Inode {
    Inode {
        group: DirEntryGroup { entry: DirEntryRaw { size: size, ..i.group.entry }, ..i.group },
        ..i
    }
}

/// `new_dir` can add a directory named `name` to `iv` of `fs`: a name, a free
/// cluster, clusters of a usual size, and when `iv` is a directory other than `.`
/// or `..`: a name that is not `.` or `..`, room for the group, and two free
/// clusters besides those the group needs.
#[verifier::opaque]
pub open spec fn new_dir_ok(fs: Fat32FS, iv: InodeView, name: Seq<char>) -> bool {
    &&& 128 <= fs.cs() <= 1048576
    &&& has_non_nul(name)
    &&& has_free(fs.fat@)
    &&& view_is_dir(iv) && !view_is_fake(iv) ==> {
        let at = end_scan(view_content(fs, iv), 0, 0).0;
        &&& !short_is_fake(short_name(vstd::utf8::encode_utf8(name)).0)
        &&& add_fits(fs, iv, new_group_len(name))
        &&& free_count(fs.fat@, fs.fat@.len() as int) + iv.chain.len() >= written_len(
            iv.chain.len(),
            fs.cs(),
            at as nat,
            new_group_len(name),
        ) + 2
    }
}

/// What `new_dir` gives, from `fs0` to `fs1`, adding directory `name` with
/// attribute `attr` to directory `iv0`, whose chain becomes `cp1`.
pub open spec fn new_dir_done(
    fs0: Fat32FS,
    fs1: Fat32FS,
    iv0: InodeView,
    cp1: Seq<u32>,
    name: Seq<char>,
    attr: u8,
    r: Result<Inode, ErrNo>,
) -> bool {
    &&& r is Ok
    &&& r->Ok_0.name@ == name
    &&& r->Ok_0.path@ == child_path(iv0.path, iv0.name)
    &&& dir_made_some(
        fs0,
        fs1,
        iv0.chain,
        cp1,
        view_content(fs0, iv0),
        r->Ok_0.group,
        r->Ok_0.chain.chain@,
        name,
        attr | ATTR_SUBDIR,
    )
}

/// What `new_dir` gives, from `fs0` to `fs1`, asked to add directory `name` with
/// attribute `attr` to `iv0`, whose chain becomes `cp1`: when `iv0` is no
/// directory, or is `.` or `..`, the error, and the cluster it took is freed
/// again (its entry set to zero, its content zeroes); else see `new_dir_done`.
#[verifier::opaque]
pub open spec fn new_dir_result(
    fs0: Fat32FS,
    fs1: Fat32FS,
    iv0: InodeView,
    cp1: Seq<u32>,
    name: Seq<char>,
    attr: u8,
    r: Result<Inode, ErrNo>,
) -> bool {
    if !view_is_dir(iv0) || view_is_fake(iv0) {
        &&& r == Err::<Inode, ErrNo>(
            if !view_is_dir(iv0) {
                ErrNo::NotADirectory
            } else {
                ErrNo::Fat32FakeInode
            },
        )
        &&& cp1 == iv0.chain
        &&& exists|f: u32|
            #![trigger fs0.fat@[f as int]]
            {
                &&& fs0.valid_cluster(f)
                &&& cluster_type(fs0.fat@[f as int]) == CLUSTER::Free
                &&& fs1.wf()
                &&& fs1.dbr == fs0.dbr
                &&& fs1.fat@ == fs0.fat@.update(f as int, 0)
                &&& fs1.clusters() == fs0.clusters().update(f - 2, zeros(fs0.cs()))
            }
    } else {
        new_dir_done(fs0, fs1, iv0, cp1, name, attr, r)
    }
}

/// What `new_file` gives, from `fs0` to `fs1`, asked to add file `name` with
/// attribute `attr` to `iv0`, whose chain becomes `cp1`.
#[verifier::opaque]
pub open spec fn new_file_result(
    fs0: Fat32FS,
    fs1: Fat32FS,
    iv0: InodeView,
    cp1: Seq<u32>,
    name: Seq<char>,
    attr: u8,
    r: Result<Inode, ErrNo>,
) -> bool {
    if !view_is_dir(iv0) {
        r == Err::<Inode, ErrNo>(ErrNo::NotADirectory) && fs1 == fs0 && cp1 == iv0.chain
    } else if view_is_fake(iv0) {
        r == Err::<Inode, ErrNo>(ErrNo::Fat32FakeInode) && fs1 == fs0 && cp1 == iv0.chain
    } else {
        new_file_done(fs0, fs1, iv0, cp1, name, attr, r)
    }
}

/// What `delete_inode` gives, from `fs0` to `fs1`, asked to delete `name` from
/// `iv`.
#[verifier::opaque]
pub open spec fn delete_result(
    fs0: Fat32FS,
    fs1: Fat32FS,
    iv: InodeView,
    name: Seq<char>,
    r: Result<(), ErrNo>,
) -> bool {
    if !view_is_dir(iv) {
        r == Err::<(), ErrNo>(ErrNo::NotADirectory) && fs1 == fs0
    } else {
        delete_done(fs0, fs1, iv, name, r)
    }
}

/// `new_file` can add a file named `name` to `iv` of `fs`.
#[verifier::opaque]
pub open spec fn new_file_ok(fs: Fat32FS, iv: InodeView, name: Seq<char>) -> bool {
    &&& has_non_nul(name)
    &&& view_is_dir(iv) && !view_is_fake(iv) ==> add_fits(fs, iv, new_group_len(name))
}

/// What `new_file` gives, from `fs0` to `fs1`, adding file `name` with attribute
/// `attr` to directory `iv0`, whose chain becomes `cp1`.
pub open spec fn new_file_done(
    fs0: Fat32FS,
    fs1: Fat32FS,
    iv0: InodeView,
    cp1: Seq<u32>,
    name: Seq<char>,
    attr: u8,
    r: Result<Inode, ErrNo>,
) -> bool {
    &&& r is Ok
    &&& group_made(r->Ok_0.group, name, 0, attr | ATTR_FILE)
    &&& r->Ok_0.name@ == name
    &&& r->Ok_0.path@ == child_path(iv0.path, iv0.name)
    &&& r->Ok_0.chain.chain@ == Seq::<u32>::empty()
    &&& group_added(fs0, fs1, iv0.chain, cp1, view_content(fs0, iv0), r->Ok_0.group)
}

/// What deleting `name` from directory `iv` gives, from `fs0` to `fs1`, with
/// result `r` (see `Inode::delete_inode`).
pub open spec fn delete_done(
    fs0: Fat32FS,
    fs1: Fat32FS,
    iv: InodeView,
    name: Seq<char>,
    r: Result<(), ErrNo>,
) -> bool {
    let gs = view_groups(fs0, iv);
    let j = first_named(gs, name, 0);
    let fc = chain_from(fs0.fat@, entry_start(gs[j].2), fs0.fat@.len());
    let is_dir_entry = gs[j].2[11] & ATTR_SUBDIR == ATTR_SUBDIR;
    &&& j == gs.len() ==> r == Err::<(), ErrNo>(ErrNo::NoSuchFileOrDirectory) && fs1 == fs0
    &&& j < gs.len() && is_dir_entry && !empty_from(chain_content(fs0.clusters(), fc), 0) ==> r
        == Err::<(), ErrNo>(ErrNo::DirectoryNotEmpty) && fs1 == fs0
    &&& j < gs.len() && !(is_dir_entry && !empty_from(chain_content(fs0.clusters(), fc), 0))
        ==> {
        &&& r is Ok
        &&& fs1.wf()
        &&& fs1.dbr == fs0.dbr
        &&& fs1.fat@ == freed(fs0.fat@, fc)
        &&& forall|k: u32|
            #![trigger iv.chain.contains(k)]
            fs0.valid_cluster(k) && !iv.chain.contains(k) ==> fs1.clusters()[k - 2]
                == fs0.clusters()[k - 2]
        &&& chain_content(fs1.clusters(), iv.chain) == delete_group_spec(view_content(fs0, iv), gs[j].0).1
    }
}

/// The path `p` with its `..` names removed (see `Path::purge`).
pub open spec fn purged_path(p: PathView) -> PathView {
    PathView {
        path: purge_run(Seq::empty(), p.path, p.is_abs)->Done_0,
        must_dir: p.must_dir,
        is_abs: p.is_abs,
    }
}

/// The path of the directory that the inode `iv` (`.` or `..`) names, before
/// its `..` names are removed: the path of the files of the directory that
/// holds the entry (its own path) for `.`, one level up from it for `..`.
pub open spec fn realize_path(iv: InodeView) -> PathView {
    if iv.entry[0] == 0x2e && iv.entry[1] == 0x2e && iv.entry[2] == 0x20 {
        PathView { path: iv.path.path.push(dotdot()), ..iv.path }
    } else {
        iv.path
    }
}

/// `realize` can be done on the inode `iv` (`.` or `..`): the path of the
/// directory it names (see `realize_path`) loses its `..` names without
/// climbing above the root, and then is empty (the root) or leads from the root
/// to an inode.
pub open spec fn realize_ok(fs: Fat32FS, iv: InodeView) -> bool {
    let p = realize_path(iv);
    &&& purge_run(Seq::empty(), p.path, p.is_abs) is Done
    &&& purged_path(p).path.len() > 0 ==> {
        &&& walk_ok(fs, root_view(fs), purged_path(p).path)
        &&& find_path_spec(fs, root_view(fs), purged_path(p)) is Ok
    }
}

/// The inode that `realize` gives for `iv`: the root when the path of the
/// directory it names comes down to nothing, else the inode that path leads to.
pub open spec fn realized(fs: Fat32FS, iv: InodeView) -> InodeView {
    let p = purged_path(realize_path(iv));
    if p.path.len() == 0 {
        root_view(fs)
    } else {
        find_path_spec(fs, root_view(fs), p)->Ok_0
    }
}

/// Whether the strings hold the same characters.
fn same_chars(a: &String, b: &String) -> (r: bool)
    ensures
        r == (a@ == b@),
{
    a.eq(b)
}

impl Inode {
    /// The inode of the root directory: no entry refers to it, so its group is
    /// made up.
    pub fn root(fs: &Fat32FS) -> (r: Inode)
        requires
            fs.wf(),
        ensures
            r@ == root_view(*fs),
    {
        let r = Inode {
            chain: Chain::root(fs).unwrap(),
            path: Path::root(),
            group: DirEntryGroup::root(),
            name: String::new(),
        };
        proof {
            assert(r.path@.path =~= Seq::<Seq<char>>::empty());
            assert(exts_bytes_each(r.group.exts@) =~= Seq::<Seq<u8>>::empty());
        }
        r
    }

    /// Whether the inode is a symbolic link.
    pub fn is_link(&self) -> (r: bool)
        ensures
            r == (self.group.entry.attr & ATTR_SYM == ATTR_SYM),
    {
        return self.group.entry.is_link();
    }

    /// Whether the inode is a directory.
    pub fn is_dir(&self) -> (r: bool)
        ensures
            r == view_is_dir(self@),
    {
        proof {
            lemma_group_fields(self.group, self@.exts, self@.entry);
        }
        return self.group.entry.is_dir();
    }

    /// Whether the inode is `.`.
    pub fn is_cur(&self) -> (r: bool)
        ensures
            r == (self@.entry[0] == 0x2e && self@.entry[1] == 0x20),
    {
        proof {
            lemma_group_fields(self.group, self@.exts, self@.entry);
        }
        return self.group.is_cur();
    }

    /// Whether the inode is `..`.
    pub fn is_par(&self) -> (r: bool)
        ensures
            r == (self@.entry[0] == 0x2e && self@.entry[1] == 0x2e && self@.entry[2] == 0x20),
    {
        proof {
            lemma_group_fields(self.group, self@.exts, self@.entry);
        }
        return self.group.is_par();
    }

    /// Whether the inode is a symbolic link (the attribute's top bit).
    pub fn is_slink(&self) -> (r: bool)
        ensures
            r == (self.group.entry.attr & ATTR_SYM != 0),
    {
        return self.group.entry.attr & ATTR_SYM != 0;
    }

    /// The file size the entry records (zero for a directory).
    pub fn get_size(&self) -> (r: usize)
        ensures
            r == self.group.entry.size,
    {
        return self.group.entry.size as usize;
    }

    /// Sets the file size the entry records.
    pub fn set_size(&mut self, size: u32)
        ensures
            *final(self) == with_size(*old(self), size),
    {
        self.group.entry.size = size;
    }

    /// The inode of `group`, named `name`, read from this directory: its chain is
    /// the one its entry starts.
    fn child(&self, fs: &Fat32FS, group: DirEntryGroup, name: String, Ghost(g): Ghost<ScannedGroup>) -> (r:
        Inode)
        requires
            fs.wf(),
            group_is(group, g),
        ensures
            r@ == child_view(*fs, self@, g, name@),
    {
        proof {
            lemma_group_fields(group, g.1, g.2);
        }
        let c = Chain::new(fs.get_chain(group.get_start()));
        let mut path = self.path.clone();
        if !self.name.as_str().is_empty() {
            path.push(self.name.clone(), true).unwrap();
        }
        let r = Inode { name, path, group, chain: c };
        proof {
            if self.name@.len() > 0 {
                assert(r.path@ =~= child_path(self.path@, self.name@));
            } else {
                assert(r.path@ =~= child_path(self.path@, self.name@));
            }
            assert(r@ =~= child_view(*fs, self@, g, name@));
        }
        r
    }

    /// The name of a group read from a directory, whose name is known to exist.
    fn name_of(group: &DirEntryGroup, Ghost(g): Ghost<ScannedGroup>) -> (r: String)
        requires
            group_is(*group, g),
            scanned_name(g.1, g.2) is Some,
        ensures
            r@ == scanned_name(g.1, g.2)->0,
    {
        proof {
            lemma_group_fields(*group, g.1, g.2);
        }
        group.get_name().unwrap()
    }

    /// The inodes of the files in this directory, in the order of their groups.
    pub fn get_inodes(&self, fs: &Fat32FS) -> (r: Result<Vec<Inode>, &'static str>)
        requires
            fs.wf(),
            view_is_dir(self@) ==> view_readable(*fs, self@),
            view_is_dir(self@) ==> forall|j: int|
                0 <= j < view_groups(*fs, self@).len() ==> #[trigger] scanned_name(
                    view_groups(*fs, self@)[j].1,
                    view_groups(*fs, self@)[j].2,
                ) is Some,
        ensures
            !view_is_dir(self@) ==> r is Err && r->Err_0@ == "get_inodes: not a directory"@,
            view_is_dir(self@) ==> {
                let gs = view_groups(*fs, self@);
                &&& r is Ok
                &&& r->Ok_0@.len() == gs.len()
                &&& forall|j: int|
                    0 <= j < gs.len() ==> (#[trigger] r->Ok_0@[j])@ == child_view(
                        *fs,
                        self@,
                        gs[j],
                        scanned_name(gs[j].1, gs[j].2)->0,
                    )
            },
    {
        if !self.is_dir() {
            proof {
                reveal_strlit("get_inodes: not a directory");
            }
            return Err("get_inodes: not a directory");
        }
        let mut offset: usize = 0;
        let mut inodes: Vec<Inode> = Vec::new();
        let ghost content = view_content(*fs, self@);
        let ghost gs = groups_from(content, 0);
        proof {
            assert(gs.subrange(0, gs.len() as int) =~= gs);
        }
        loop
            invariant
                fs.wf(),
                view_is_dir(self@),
                view_readable(*fs, self@),
                content == self.chain.content(fs),
                gs == view_groups(*fs, self@),
                forall|j: int|
                    0 <= j < gs.len() ==> #[trigger] scanned_name(gs[j].1, gs[j].2) is Some,
                inodes@.len() <= gs.len(),
                groups_from(content, offset as int) == gs.subrange(inodes@.len() as int, gs.len() as int),
                forall|j: int|
                    0 <= j < inodes@.len() ==> (#[trigger] inodes@[j])@ == child_view(
                        *fs,
                        self@,
                        gs[j],
                        scanned_name(gs[j].1, gs[j].2)->0,
                    ),
            decreases content.len() - offset,
        {
            let ghost k = inodes@.len() as int;
            proof {
                lemma_scan_group_next(content, offset as int, Seq::empty(), 0);
            }
            match read_dirent_group(&self.chain, fs, offset) {
                Ok((group, next)) => {
                    proof {
                        lemma_groups_from_unfold(content, offset as int);
                        assert(gs.subrange(k, gs.len() as int).len() > 0);
                    }
                    let ghost g = gs[k];
                    proof {
                        assert(gs.subrange(k, gs.len() as int)[0] == gs[k]);
                        assert(gs.subrange(k + 1, gs.len() as int) =~= gs.subrange(
                            k,
                            gs.len() as int,
                        ).drop_first());
                    }
                    let name = Self::name_of(&group, Ghost(g));
                    let inode = self.child(fs, group, name, Ghost(g));
                    inodes.push(inode);
                    offset = next;
                },
                Err(_) => {
                    proof {
                        assert(gs.subrange(k, gs.len() as int).len() == 0);
                    }
                    return Ok(inodes);
                },
            }
        }
    }

    /// The inode of the first file named `name` in this directory (see
    /// `find_spec`).
    pub fn find_inode(&self, fs: &Fat32FS, name: &str) -> (r: Result<Inode, ErrNo>)
        requires
            fs.wf(),
            find_ok(*fs, self@, name@),
        ensures
            result_view(r) == find_spec(*fs, self@, name@),
    {
        proof {
            reveal(find_ok);
        }
        if !self.is_dir() {
            return Err(ErrNo::NotADirectory);
        }
        let target = name.to_owned();
        let mut offset: usize = 0;
        let ghost content = view_content(*fs, self@);
        let ghost gs = groups_from(content, 0);
        let ghost mut k: int = 0;
        proof {
            assert(gs.subrange(0, gs.len() as int) =~= gs);
            lemma_first_named_range(gs, name@, 0);
        }
        loop
            invariant
                fs.wf(),
                view_is_dir(self@),
                find_ok(*fs, self@, name@),
                target@ == name@,
                content == self.chain.content(fs),
                gs == view_groups(*fs, self@),
                0 <= k <= gs.len(),
                k <= first_named(gs, name@, 0),
                first_named(gs, name@, 0) == first_named(gs, name@, k),
                groups_from(content, offset as int) == gs.subrange(k, gs.len() as int),
            decreases content.len() - offset,
        {
            proof {
                reveal(find_ok);
            }
            proof {
                lemma_scan_group_next(content, offset as int, Seq::empty(), 0);
            }
            match read_dirent_group(&self.chain, fs, offset) {
                Ok((group, next)) => {
                    proof {
                        lemma_groups_from_unfold(content, offset as int);
                        assert(gs.subrange(k, gs.len() as int).len() > 0);
                    }
                    let ghost g = gs[k];
                    proof {
                        assert(gs.subrange(k, gs.len() as int)[0] == gs[k]);
                        assert(gs.subrange(k + 1, gs.len() as int) =~= gs.subrange(
                            k,
                            gs.len() as int,
                        ).drop_first());
                        assert(scanned_name(gs[k].1, gs[k].2) is Some);
                    }
                    let iname = Self::name_of(&group, Ghost(g));
                    if same_chars(&iname, &target) {
                        return Ok(self.child(fs, group, iname, Ghost(g)));
                    }
                    offset = next;
                    proof {
                        k = k + 1;
                        lemma_first_named_range(gs, name@, k);
                    }
                },
                Err(_) => {
                    proof {
                        assert(gs.subrange(k, gs.len() as int).len() == 0);
                    }
                    return Err(ErrNo::NoSuchFileOrDirectory);
                },
            }
        }
    }

    /// The inode at `path` from this directory: each name is looked up in the
    /// inode before it; an error when this is no directory, the path is empty, a
    /// look-up fails, or the path must be a directory and the inode is not.
    pub fn find_inode_path(&self, fs: &Fat32FS, path: &Path) -> (r: Result<Inode, ErrNo>)
        requires
            fs.wf(),
            view_is_dir(self@) ==> walk_ok(*fs, self@, path@.path),
        ensures
            result_view(r) == find_path_spec(*fs, self@, path@),
    {
        proof {
            reveal(walk_ok);
        }
        if !self.is_dir() {
            return Err(ErrNo::NotADirectory);
        }
        if path.path.len() == 0 {
            return Err(ErrNo::InvalidArgument);
        }
        let ghost names = path@.path;
        let mut i = match self.find_inode(fs, path.path[0].as_str()) {
            Ok(inode) => inode,
            Err(e) => {
                return Err(e);
            },
        };
        let mut k: usize = 1;
        proof {
            assert(names.drop_first() =~= names.subrange(1, names.len() as int));
        }
        while k < path.path.len()
            invariant
                fs.wf(),
                names == path@.path,
                1 <= k <= names.len(),
                walk_spec(*fs, self@, names) == walk_spec(*fs, i@, names.subrange(k as int, names.len() as int)),
                walk_ok(*fs, i@, names.subrange(k as int, names.len() as int)),
            decreases names.len() - k,
        {
            proof {
                reveal(walk_ok);
            }
            let ghost rest = names.subrange(k as int, names.len() as int);
            proof {
                assert(rest[0] == names[k as int]);
                assert(rest.drop_first() =~= names.subrange(k + 1, names.len() as int));
                assert(path.path@[k as int]@ == names[k as int]);
            }
            i = match i.find_inode(fs, path.path[k].as_str()) {
                Ok(inode) => inode,
                Err(e) => {
                    return Err(e);
                },
            };
            k = k + 1;
        }
        proof {
            assert(names.subrange(k as int, names.len() as int).len() == 0);
        }
        if path.must_dir && !i.is_dir() {
            return Err(ErrNo::NotADirectory);
        }
        return Ok(i);
    }

    /// The inode of the directory that holds this one: the root when the path is
    /// empty.
    pub fn get_parent(&self, fs: &Fat32FS) -> (r: Result<Inode, ErrNo>)
        requires
            fs.wf(),
            self@.path.path.len() > 0 ==> walk_ok(*fs, root_view(*fs), self@.path.path),
        ensures
            self@.path.path.len() == 0 ==> r is Ok && r->Ok_0@ == root_view(*fs),
            self@.path.path.len() > 0 ==> result_view(r) == find_path_spec(
                *fs,
                root_view(*fs),
                self@.path,
            ),
    {
        let root = Inode::root(fs);
        if self.path.path.len() == 0 {
            return Ok(root);
        }
        proof {
            assert(root_entry_bytes()[11] == ATTR_SUBDIR);
            assert(ATTR_SUBDIR & ATTR_SUBDIR == ATTR_SUBDIR) by (bit_vector);
        }
        if self.path.path.len() == 0 {
            return Ok(root);
        } else {
            return root.find_inode_path(fs, &self.path);
        }
    }

    /// Makes the inode `.` or `..` stand for the directory it names: the
    /// directory that holds it for `.`, that directory's parent for `..`. The
    /// path of that directory, with `..` names removed, is looked up from the
    /// root; a path that comes down to nothing names the root. An error when
    /// the inode is neither.
    pub fn realize(&mut self, fs: &Fat32FS) -> (r: Result<Inode, &'static str>)
        requires
            fs.wf(),
            view_is_fake(old(self)@) ==> realize_ok(*fs, old(self)@),
        ensures
            !view_is_fake(old(self)@) ==> r is Err && r->Err_0@ == "realize: not fake inode"@
                && final(self)@ == old(self)@,
            view_is_fake(old(self)@) ==> {
                &&& final(self)@ == (InodeView { path: purged_path(realize_path(old(self)@)), ..old(self)@ })
                &&& r is Ok
                &&& r->Ok_0@ == realized(*fs, old(self)@)
            },
    {
        if !self.is_cur() && !self.is_par() {
            proof {
                reveal_strlit("realize: not fake inode");
            }
            return Err("realize: not fake inode");
        }
        if self.is_par() {
            let dd = "..".to_owned();
            proof {
                reveal_strlit("..");
                assert(dd@ =~= dotdot());
            }
            let md = self.path.must_dir;
            let ghost p0 = self.path@;
            self.path.push(dd, md);
            proof {
                assert(self.path@ =~= realize_path(old(self)@));
            }
        }
        match self.path.purge() {
            Ok(()) => {},
            Err(_) => {
                proof {
                    reveal_strlit("Path format error");
                }
                return Err("Path format error");
            },
        }
        let root = Inode::root(fs);
        proof {
            assert(self@ =~= (InodeView { path: self.path@, ..old(self)@ }));
        }
        if self.path.path.len() == 0 {
            return Ok(root);
        }
        proof {
            assert(root_entry_bytes()[11] == ATTR_SUBDIR);
            assert(ATTR_SUBDIR & ATTR_SUBDIR == ATTR_SUBDIR) by (bit_vector);
        }
        let found = root.find_inode_path(fs, &self.path);
        return Ok(found.unwrap());
    }

    /// Adds to this directory a group for a file named `name` whose chain is
    /// `chain`, with attribute `attr`, and gives the file's inode. An error when
    /// this is no directory, or is `.` or `..`.
    pub fn new(&mut self, fs: &mut Fat32FS, name: &str, chain: Chain, attr: u8) -> (r: Result<
        Inode,
        ErrNo,
    >)
        requires
            old(fs).wf(),
            has_non_nul(name@),
            view_is_dir(old(self)@) && !view_is_fake(old(self)@) ==> add_fits(
                *old(fs),
                old(self)@,
                new_group_len(name@),
            ),
        ensures
            !view_is_dir(old(self)@) ==> r == Err::<Inode, ErrNo>(ErrNo::NotADirectory)
                && *final(fs) == *old(fs) && *final(self) == *old(self),
            view_is_dir(old(self)@) && view_is_fake(old(self)@) ==> r == Err::<Inode, ErrNo>(
                ErrNo::Fat32FakeInode,
            ) && *final(fs) == *old(fs) && *final(self) == *old(self),
            view_is_dir(old(self)@) && !view_is_fake(old(self)@) ==> {
                &&& r is Ok
                &&& group_made(r->Ok_0.group, name@, chain_start(chain.chain@), attr)
                &&& r->Ok_0.name@ == name@
                &&& r->Ok_0.path@ == child_path(old(self).path@, old(self).name@)
                &&& r->Ok_0.chain.chain@ == chain.chain@
                &&& group_added(
                    *old(fs),
                    *final(fs),
                    old(self).chain.chain@,
                    final(self).chain.chain@,
                    old(self).chain.content(old(fs)),
                    r->Ok_0.group,
                )
                &&& final(self).name@ == old(self).name@
                &&& final(self).path@ == old(self).path@
                &&& final(self).group == old(self).group
            },
    {
        if !self.is_dir() {
            return Err(ErrNo::NotADirectory);
        }
        if self.is_fake() {
            return Err(ErrNo::Fat32FakeInode);
        }
        let start = if chain.chain.len() == 0 {
            0u32
        } else {
            chain.chain[0]
        };
        let mut group = DirEntryGroup::new(name, start, attr);
        proof {
            lemma_exts_bytes(group.exts@, 0);
        }
        write_dirent_group(&mut self.chain, fs, &mut group).unwrap();
        let mut path = self.path.clone();
        if !self.name.as_str().is_empty() {
            path.push(self.name.clone(), true).unwrap();
        }
        let new = Inode { name: name.to_owned(), path, group, chain };
        proof {
            assert(new.path@ =~= child_path(self.path@, self.name@));
        }
        return Ok(new);
    }

    /// Adds to this directory a directory named `name` (the directory attribute
    /// is added to `attr`): a free cluster is taken for its chain, its group is
    /// added here (see `new`), and groups `.` (for itself) and `..` (for this
    /// directory) are added to it. When the group cannot be added here, the
    /// cluster is freed again and the error is returned.
    #[verifier::rlimit(60)]
    #[verifier::spinoff_prover]
    pub fn new_dir(&mut self, fs: &mut Fat32FS, name: &str, attr: u8) -> (r: Result<Inode, ErrNo>)
        requires
            old(fs).wf(),
            new_dir_ok(*old(fs), old(self)@, name@),
        ensures
            final(self).name@ == old(self).name@,
            final(self).path@ == old(self).path@,
            final(self).group == old(self).group,
            new_dir_result(*old(fs), *final(fs), old(self)@, final(self).chain.chain@, name@, attr, r),
            !view_is_dir(old(self)@) || view_is_fake(old(self)@) ==> final(self)@ == old(self)@,
    {
        proof {
            reveal(new_dir_ok);
            reveal(new_dir_result);
        }
        let attr0 = attr;
        let attr = attr | ATTR_SUBDIR;
        let ghost fs0 = *fs;
        let ghost c_self = self.chain.chain@;
        let f = fs.alloc_cluster().unwrap();
        let ghost fs1 = *fs;
        let mut v: Vec<u32> = Vec::new();
        v.push(f);
        let chain = Chain::new(v);
        proof {
            lemma_dot_group_len();
            if view_is_dir(self@) && !view_is_fake(self@) {
                assert(!c_self.contains(f)) by {
                    if c_self.contains(f) {
                        let i = choose|i: int| 0 <= i < c_self.len() && c_self[i] == f;
                        assert(cluster_type(fs0.fat@[c_self[i] as int]) != CLUSTER::Free);
                    }
                }
                lemma_content_frame(fs0.clusters(), c_self, f as int, zeros(fs0.cs()));
                lemma_free_count_update(fs0.fat@, f as int, EOC, fs0.fat@.len() as int);
                assert(cluster_type(EOC) == CLUSTER::Eoc);
                assert forall|i: int| 0 <= i < c_self.len() implies fs1.fat@[c_self[i] as int]
                    == fs0.fat@[c_self[i] as int] by {
                    assert(c_self[i] != f);
                }
                if c_self.len() > 0 {
                    assert(c_self[c_self.len() - 1] == c_self.last());
                }
                assert(chain_ok(&fs1, c_self));
                assert(self.chain.content(&fs1) == self.chain.content(&fs0));
            }
        }
        let mut nd = match self.new(fs, name, chain.clone(), attr) {
            Ok(inode) => inode,
            Err(errno) => {
                let ghost fsx = *fs;
                fs.clear_chain(chain.chain[0]).unwrap();
                proof {
                    assert(chain_from(fsx.fat@, f, fsx.fat@.len()) =~= seq![f]);
                    assert(freed(fsx.fat@, seq![f]) =~= fs0.fat@.update(f as int, 0)) by {
                        assert forall|k: int| 0 <= k < fsx.fat@.len() implies freed(fsx.fat@, seq![f])[k]
                            == fs0.fat@.update(f as int, 0)[k] by {
                            if k == f {
                                assert(seq![f][0] == f);
                            } else if 0 <= k <= u32::MAX {
                                assert(!seq![f].contains(k as u32));
                            }
                        }
                    }
                    assert(fs.fat@[f as int] == 0);
                    assert(fs0.fat@[f as int] == fs0.fat@[f as int]);
                }
                return Err(errno);
            },
        };
        let ghost fs2 = *fs;
        let ghost c_self2 = self.chain.chain@;
        proof {
            lemma_exts_bytes(nd.group.exts@, 0);
            assert(!c_self2.contains(f)) by {
                if c_self2.contains(f) {
                    let i = choose|i: int| 0 <= i < c_self2.len() && c_self2[i] == f;
                    if i < c_self.len() {
                        assert(c_self2.subrange(0, c_self.len() as int)[i] == c_self2[i]);
                        assert(c_self.contains(f));
                    } else {
                        assert(cluster_type(fs1.fat@[c_self2[i] as int]) == CLUSTER::Free);
                    }
                }
            }
            assert(fs2.fat@[f as int] == EOC);
            assert(fs2.clusters()[f - 2] == zeros(fs0.cs()));
            assert(cluster_type(EOC) == CLUSTER::Eoc);
            assert(nd.chain.chain@ == seq![f]);
            assert(chain_content(fs2.clusters(), seq![f]) =~= zeros(fs0.cs())) by {
                assert(seq![f].drop_last() =~= Seq::<u32>::empty());
                assert(seq![f].last() == f);
                assert(chain_content(fs2.clusters(), Seq::<u32>::empty()) == Seq::<u8>::empty());
            }
            assert(end_scan(zeros(fs0.cs()), 0, 0) == (0int, 0nat));
            lemma_written_len_within(1, fs0.cs(), 0, 64);
            lemma_group_fields(nd.group, nd@.exts, nd@.entry);
            assert(ATTR_SUBDIR & ATTR_SUBDIR == ATTR_SUBDIR) by (bit_vector);
            assert(attr & ATTR_SUBDIR == ATTR_SUBDIR) by (bit_vector)
                requires
                    attr == attr0 | ATTR_SUBDIR,
            ;
            assert(nd@.entry[0] == nd.group.entry.name@[0]);
            assert(nd@.entry[1] == nd.group.entry.name@[1]);
            assert(nd@.entry[2] == nd.group.entry.name@[2]);
            assert(!view_is_fake(nd@));
            assert(view_is_dir(nd@));
        }
        let dot = nd.new(fs, ".", chain, ATTR_SUBDIR).unwrap();
        let ghost g_dot_ghost = dot.group;
        let ghost fs3 = *fs;
        let ghost c1 = nd.chain.chain@;
        proof {
            lemma_exts_bytes(g_dot_ghost.exts@, 0);
            assert(c1.len() == 1);
            assert(c1 =~= seq![f]) by {
                assert(c1 =~= c1.subrange(0, 1));
            }
            let content3 = chain_content(fs3.clusters(), c1);
            lemma_chain_content_len(fs3.clusters(), c1, fs3.cs());
            lemma_end_scan_le(content3, 0, 0);
            lemma_end_scan_ge(content3, 0, 0);
            let at2 = end_scan(content3, 0, 0).0;
            let cs = fs0.cs() as int;
            vstd::arithmetic::div_mod::lemma_div_is_ordered(at2, 2 * cs - 1, cs);
            vstd::arithmetic::div_mod::lemma_fundamental_div_mod_converse(2 * cs - 1, cs, 1, cs - 1);
            vstd::arithmetic::div_mod::lemma_div_is_ordered(at2 + 64 + cs - 1, 3 * cs - 1, cs);
            vstd::arithmetic::div_mod::lemma_fundamental_div_mod_converse(3 * cs - 1, cs, 2, cs - 1);
            assert(((at2 + 64 + fs0.cs() - 1) as nat / fs0.cs()) as int == (at2 + 64 + cs - 1) / cs);
            let at1 = end_scan(old(self).chain.content(&fs0), 0, 0).0;
            assert(free_count(fs1.fat@, fs1.fat@.len() as int) + 1 == free_count(fs0.fat@, fs0.fat@.len() as int));
            assert(c_self2.len() == written_len(c_self.len(), fs0.cs(), at1 as nat, new_group_len(name@)));
            assert(free_count(fs2.fat@, fs2.fat@.len() as int) >= 1);
            assert(free_count(fs3.fat@, fs3.fat@.len() as int) >= 1);
            assert(written_len(1, fs0.cs(), at2 as nat, 64) <= 2);
            assert(content3.len() <= usize::MAX);
            assert(chain_ok(&fs3, c1));
        }
        let parent = self.chain.clone();
        let dotdot = nd.new(fs, "..", parent, ATTR_SUBDIR).unwrap();
        let ghost g_dd_ghost = dotdot.group;
        proof {
            assert(cluster_taken(fs0, fs1, f));
            assert(group_made(g_dot_ghost, "."@, f, ATTR_SUBDIR));
            assert(group_added(fs2, fs3, seq![f], c1, zeros(fs0.cs()), g_dot_ghost));
            assert(group_added(fs1, fs2, c_self, self.chain.chain@, old(self).chain.content(&fs0), nd.group));
            assert(group_made(g_dd_ghost, ".."@, chain_start(self.chain.chain@), ATTR_SUBDIR));
            assert(group_made(nd.group, name@, f, attr0 | ATTR_SUBDIR));
            assert(group_added(fs3, *fs, c1, nd.chain.chain@, chain_content(fs3.clusters(), c1), g_dd_ghost));
            assert(nd.name@ == name@);
            assert(nd.path@ == child_path(old(self).path@, old(self).name@));
            assert(dir_made(*old(fs), fs1, fs2, fs3, *fs, f, old(self).chain.chain@, self.chain.chain@,
                old(self).chain.content(old(fs)), nd.group, c1, g_dot_ghost, g_dd_ghost,
                nd.chain.chain@, name@, attr0 | ATTR_SUBDIR));
            assert(dir_made_some(*old(fs), *fs, old(self).chain.chain@, self.chain.chain@,
                old(self).chain.content(old(fs)), nd.group, nd.chain.chain@, name@, attr0 | ATTR_SUBDIR));
            assert(nd.name@ == name@);
            assert(self.name@ == old(self).name@);
            assert(self.group == old(self).group);
        }
        return Ok(nd);
    }

    /// Adds to this directory an empty regular file named `name` (the file
    /// attribute is added to `attr`); see `new`.
    pub fn new_file(&mut self, fs: &mut Fat32FS, name: &str, attr: u8) -> (r: Result<Inode, ErrNo>)
        requires
            old(fs).wf(),
            new_file_ok(*old(fs), old(self)@, name@),
        ensures
            !view_is_dir(old(self)@) ==> r == Err::<Inode, ErrNo>(ErrNo::NotADirectory)
                && *final(fs) == *old(fs) && *final(self) == *old(self),
            view_is_dir(old(self)@) && view_is_fake(old(self)@) ==> r == Err::<Inode, ErrNo>(
                ErrNo::Fat32FakeInode,
            ) && *final(fs) == *old(fs) && *final(self) == *old(self),
            view_is_dir(old(self)@) && !view_is_fake(old(self)@) ==> {
                &&& new_file_done(*old(fs), *final(fs), old(self)@, final(self).chain.chain@, name@, attr, r)
                &&& final(self).name@ == old(self).name@
                &&& final(self).path@ == old(self).path@
                &&& final(self).group == old(self).group
            },
            new_file_result(*old(fs), *final(fs), old(self)@, final(self).chain.chain@, name@, attr, r),
    {
        proof {
            reveal(new_file_ok);
            reveal(new_file_result);
        }
        let attr = attr | ATTR_FILE;
        let chain = Chain::new(Vec::new());
        return self.new(fs, name, chain, attr);
    }

    /// Removes from this directory the first file named `name`: its chain is
    /// freed and its group marked deleted. An error when this is no directory, no
    /// file has the name, or the file is a directory that holds more than `.`
    /// and `..`.
    pub fn delete_inode(&mut self, fs: &mut Fat32FS, name: &String) -> (r: Result<(), ErrNo>)
        requires
            old(fs).wf(),
            find_ok(*old(fs), old(self)@, name@),
            view_is_dir(old(self)@) ==> chain_ok(old(fs), old(self).chain.chain@),
            delete_fits(*old(fs), old(self)@, name@),
        ensures
            !view_is_dir(old(self)@) ==> r == Err::<(), ErrNo>(ErrNo::NotADirectory)
                && *final(fs) == *old(fs) && final(self)@ == old(self)@,
            view_is_dir(old(self)@) ==> {
                &&& final(self).name@ == old(self).name@
                &&& final(self).path@ == old(self).path@
                &&& final(self).group == old(self).group
                &&& final(self).chain.chain@ == old(self).chain.chain@
                &&& delete_done(*old(fs), *final(fs), old(self)@, name@, r)
            },
            delete_result(*old(fs), *final(fs), old(self)@, name@, r),
    {
        proof {
            reveal(find_ok);
            reveal(delete_fits);
            reveal(delete_result);
        }
        if !self.is_dir() {
            return Err(ErrNo::NotADirectory);
        }
        let mut offset: usize = 0;
        let ghost content = view_content(*fs, self@);
        let ghost gs = groups_from(content, 0);
        let ghost mut k: int = 0;
        proof {
            assert(gs.subrange(0, gs.len() as int) =~= gs);
            lemma_first_named_range(gs, name@, 0);
        }
        loop
            invariant
                fs.wf(),
                *fs == *old(fs),
                *self == *old(self),
                view_is_dir(self@),
                find_ok(*fs, self@, name@),
                chain_ok(fs, self.chain.chain@),
                delete_fits(*fs, self@, name@),
                content == self.chain.content(fs),
                gs == view_groups(*fs, self@),
                0 <= k <= gs.len(),
                k <= first_named(gs, name@, 0),
                first_named(gs, name@, 0) == first_named(gs, name@, k),
                groups_from(content, offset as int) == gs.subrange(k, gs.len() as int),
            decreases content.len() - offset,
        {
            proof {
                reveal(find_ok);
                reveal(delete_fits);
                reveal(delete_result);
            }
            proof {
                lemma_scan_group_next(content, offset as int, Seq::empty(), 0);
            }
            match read_dirent_group(&self.chain, fs, offset) {
                Ok((group, next)) => {
                    proof {
                        lemma_groups_from_unfold(content, offset as int);
                        assert(gs.subrange(k, gs.len() as int).len() > 0);
                    }
                    let ghost g = gs[k];
                    proof {
                        assert(gs.subrange(k, gs.len() as int)[0] == gs[k]);
                        assert(gs.subrange(k + 1, gs.len() as int) =~= gs.subrange(
                            k,
                            gs.len() as int,
                        ).drop_first());
                        lemma_group_fields(group, g.1, g.2);
                    }
                    let iname = Self::name_of(&group, Ghost(g));
                    if same_chars(name, &iname) {
                        let start = group.get_start();
                        if group.entry.is_dir() {
                            let c = Chain::new(fs.get_chain(start));
                            if !empty_dir(&c, fs) {
                                return Err(ErrNo::DirectoryNotEmpty);
                            }
                        }
                        let ghost fs0 = *fs;
                        fs.clear_chain(start).unwrap();
                        proof {
                            lemma_chain_ok_freed(fs0, *fs, self.chain.chain@, chain_from(
                                fs0.fat@,
                                start,
                                fs0.fat@.len(),
                            ));
                        }
                        let ghost fs1 = *fs;
                        delete_dirent_group(&mut self.chain, fs, offset).unwrap();
                        proof {
                            assert forall|c: u32|
                                #![trigger old(self).chain.chain@.contains(c)]
                                old(fs).valid_cluster(c) && !old(self).chain.chain@.contains(c)
                                    implies fs.clusters()[c - 2] == old(fs).clusters()[c - 2] by {
                                assert(!self.chain.chain@.contains(c));
                            }
                        }
                        return Ok(());
                    }
                    offset = next;
                    proof {
                        k = k + 1;
                        lemma_first_named_range(gs, name@, k);
                    }
                },
                Err(_) => {
                    proof {
                        assert(gs.subrange(k, gs.len() as int).len() == 0);
                    }
                    return Err(ErrNo::NoSuchFileOrDirectory);
                },
            }
        }
    }

    /// Whether the inode is `.` or `..`.
    pub fn is_fake(&self) -> (r: bool)
        ensures
            r == view_is_fake(self@),
    {
        return self.is_cur() || self.is_par();
    }
}

} // verus!
