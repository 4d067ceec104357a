//! Open files of FAT32: an inode with a cursor and an access mode.
use vstd::prelude::*;
use super::chain::{chain_ok, chain_written, written_clusters, Chain};
use super::dirent::{lemma_offset_past, group_made, group_renamed, has_non_nul, same_but_name, short_name, scanned_name, DirEntryRaw};
use super::inode::{
    view_content, delete_fits, delete_result, new_dir_ok, new_dir_result, new_file_ok, new_file_result,
    child_view, find_ok, find_path_spec, find_spec, result_view, root_view, view_groups, view_is_dir,
    view_is_fake, view_readable, walk_ok, with_size, Inode, InodeView,
};
use super::{chain_content, clusters_valid, free_count, lemma_chain_content_len, Fat32FS};
use crate::fs::file::{FileType, SeekOp};
use crate::fs::path::{parse_path, parse_spec, Path, PathView};
use crate::fs::path::result_view as path_result_view;
use super::inode::{realize_ok, realized};
use super::dirent::{group_write_ok, group_written, write_dirent_group, entry_bytes, lemma_entry_bytes_size, lemma_group_fields, u32_le, ATTR_SUBDIR, ATTR_SYM};
use super::dbr::le32;
use vstd::utf8::{decode_utf8, valid_utf8};
use crate::process::ErrNo;

verus! {

/// The directory that holds the file of inode `iv`: the root when its path is
/// empty, else the inode its path leads to from the root.
pub open spec fn parent_view(fs: Fat32FS, iv: InodeView) -> InodeView {
    if iv.path.path.len() == 0 {
        root_view(fs)
    } else {
        find_path_spec(fs, root_view(fs), iv.path)->Ok_0
    }
}

/// The parent of inode `iv` can be found: its path leads to an inode.
pub open spec fn parent_ok(fs: Fat32FS, iv: InodeView) -> bool {
    iv.path.path.len() > 0 ==> walk_ok(fs, root_view(fs), iv.path.path) && find_path_spec(
        fs,
        root_view(fs),
        iv.path,
    ) is Ok
}

/// The path without its last name, which must be a directory.
pub open spec fn prefix_path(p: PathView) -> PathView {
    PathView { path: p.path.drop_last(), must_dir: true, is_abs: p.is_abs }
}

/// The error of the checks that `open`, `mkdir`, `mkfile` and `remove` make
/// first, on a file of inode `iv` and a path `p`: the file must be a directory
/// other than `.` and `..`, an absolute path goes with the root only, a relative
/// one with any other directory, and the path must not be empty (`empty_err`).
pub open spec fn start_check(iv: InodeView, p: PathView, empty_err: ErrNo) -> Option<ErrNo> {
    if !view_is_dir(iv) {
        Some(ErrNo::NotADirectory)
    } else if view_is_fake(iv) {
        Some(ErrNo::Fat32FakeInode)
    } else if p.is_abs && iv.name.len() != 0 {
        Some(ErrNo::InvalidArgument)
    } else if !p.is_abs && iv.name.len() == 0 {
        Some(ErrNo::InvalidArgument)
    } else if p.path.len() == 0 {
        Some(empty_err)
    } else {
        None
    }
}

/// The inode of a result of files.
pub open spec fn file_inode<E>(r: Result<FileInner, E>) -> Result<Inode, E> {
    match r {
        Ok(f) => Ok(f.inode()),
        Err(e) => Err(e),
    }
}

/// A file made anew has its cursor at the start and no access mode.
pub open spec fn fresh<E>(r: Result<FileInner, E>) -> bool {
    r is Ok ==> r->Ok_0.cursor() == 0 && r->Ok_0.mode() == 0
}

/// A file freshly given by `list`, `mkdir` or `mkfile` (see `fresh`) is neither
/// readable nor writable (see `FileInner::readable`, `FileInner::writable`).
pub proof fn lemma_fresh_file_closed(r: Result<FileInner, ErrNo>)
    requires
        fresh(r),
        r is Ok,
    ensures
        r->Ok_0.mode() & READ == 0,
        r->Ok_0.mode() & WRITE == 0,
{
    lemma_flag_constants();
}

/// Facts about the flag constants: no access bit in mode 0, and the
/// subdirectory attribute without the link bit.
proof fn lemma_flag_constants()
    ensures
        0usize & READ == 0,
        0usize & WRITE == 0,
        ATTR_SUBDIR & ATTR_SUBDIR == ATTR_SUBDIR,
        ATTR_SUBDIR & ATTR_SYM != ATTR_SYM,
{
    assert(0usize & 1usize == 0 && 0usize & 2usize == 0 && 0x10u8 & 0x10u8 == 0x10u8 && 0x10u8 & 0x80u8
        != 0x80u8) by (bit_vector);
}

/// The type of a file follows the attribute of its entry: a link when it has
/// the link bit; else a directory when it has the subdirectory bit, as the root
/// directory and the directories that `mkdir` makes have; else a regular file.
pub proof fn lemma_file_type_attr(i: Inode)
    ensures
        i.group.entry.attr & ATTR_SYM == ATTR_SYM ==> inode_file_type(i) == FileType::Link,
        i.group.entry.attr & ATTR_SYM != ATTR_SYM && i.group.entry.attr & ATTR_SUBDIR == ATTR_SUBDIR
            ==> inode_file_type(i) == FileType::Directory,
        i.group.entry.attr & ATTR_SYM != ATTR_SYM && i.group.entry.attr & ATTR_SUBDIR != ATTR_SUBDIR
            ==> inode_file_type(i) == FileType::Regular,
        i.group.entry.attr == ATTR_SUBDIR ==> inode_file_type(i) == FileType::Directory,
        !(i.group.entry.attr & ATTR_SYM == ATTR_SYM) && view_is_dir(i@) ==> inode_file_type(i)
            == FileType::Directory,
{
    assert(entry_bytes(i.group.entry)[11] == i.group.entry.attr);
    lemma_flag_constants();
}

/// The directory that holds the last name of `p`, from directory `iv`: `iv`
/// itself when the path has one name, else the inode the rest leads to.
pub open spec fn holder(fs: Fat32FS, iv: InodeView, p: PathView) -> Result<InodeView, ErrNo> {
    if prefix_path(p).path.len() == 0 {
        Ok(iv)
    } else {
        find_path_spec(fs, iv, prefix_path(p))
    }
}

/// The holder of the last name of `p` can be looked up.
pub open spec fn holder_ok(fs: Fat32FS, iv: InodeView, p: PathView) -> bool {
    prefix_path(p).path.len() > 0 ==> walk_ok(fs, iv, prefix_path(p).path)
}

/// Access mode bit: reading is allowed.
pub const READ: usize = 1;

/// Access mode bit: writing is allowed.
pub const WRITE: usize = 2;

/// Access mode bit: create the file when it is missing.
pub const CREATE: usize = 4;

/// Access mode bit: a directory is opened.
pub const DIR: usize = 8;

/// Access mode bit: symbolic links are not followed.
pub const NO_FOLLOW: usize = 16;

/// Access mode bit: the file size is set to zero on opening.
pub const TRUNCATE: usize = 32;

/// The type of the file of inode `i`: a link, a directory, or a regular file.
pub open spec fn inode_file_type(i: Inode) -> FileType {
    if i.group.entry.attr & ATTR_SYM == ATTR_SYM {
        FileType::Link
    } else if view_is_dir(i@) {
        FileType::Directory
    } else {
        FileType::Regular
    }
}

/// What `FileInner::read` does to file `f0`, open for reading, on `fs`, giving
/// `f1`, the buffer `b0` turned into `b1` and the result `r`: from the cursor,
/// as many bytes as the size, the buffer and the chain allow; an error when the
/// cursor lies past the chain.
pub open spec fn file_read(fs: Fat32FS, f0: FileInner, f1: FileInner, b0: Seq<u8>, b1: Seq<u8>, r: Result<usize, ErrNo>) -> bool {
    let c = f0.inode().chain;
    let n = vstd::math::min(f0.inode().group.entry.size - f0.cursor(), b0.len() as int);
    &&& f1.inode() == f0.inode()
    &&& f1.mode() == f0.mode()
    &&& (f0.cursor() as nat) / fs.cs() >= c.chain@.len() ==> r == Err::<usize, ErrNo>(
        ErrNo::Fat32InvalidOffset,
    ) && f1.cursor() == f0.cursor() && b1 == b0
    &&& (f0.cursor() as nat) / fs.cs() < c.chain@.len() ==> {
        let k = vstd::math::min(n, c.chain@.len() * fs.cs() - f0.cursor());
        &&& r is Ok && r->Ok_0 == k
        &&& f1.cursor() == f0.cursor() + k
        &&& b1.len() == b0.len()
        &&& forall|i: int|
            0 <= i < b0.len() ==> #[trigger] b1[i] == if i < k {
                c.content(&fs)[f0.cursor() + i]
            } else {
                b0[i]
            }
    }
}

/// What `FileInner::write` does to file `f0`, open for writing, on `fs0`,
/// giving `f1` on `fs1` and the result `r`, for the bytes `buf`: the chain
/// takes them at the cursor (see `Chain::write`), the cursor moves past them,
/// and the size grows to the cursor when it lies beyond (keeping the low 32
/// bits).
pub open spec fn file_written(
    fs0: Fat32FS,
    fs1: Fat32FS,
    f0: FileInner,
    f1: FileInner,
    buf: Seq<u8>,
    r: Result<usize, ErrNo>,
) -> bool {
    let i0 = f0.inode();
    let i1 = f1.inode();
    let n = if r is Ok {
        r->Ok_0 as int
    } else {
        0
    };
    let cur = f0.cursor() + n;
    &&& chain_written(fs0, fs1, i0.chain.chain@, i1.chain.chain@, i0.chain.content(&fs0), f0.cursor(), buf, r)
    &&& f1.cursor() == cur
    &&& f1.mode() == f0.mode()
    &&& i1.name == i0.name
    &&& i1.path == i0.path
    &&& i1.group.exts == i0.group.exts
    &&& i1.group.offset == i0.group.offset
    &&& i1.group.slotsize == i0.group.slotsize
    &&& i1.group.entry == (DirEntryRaw {
        size: if r is Ok && i0.group.entry.size < cur {
            cur as u32
        } else {
            i0.group.entry.size
        },
        ..i0.group.entry
    })
}

/// An open file of the volume.
pub struct FileInner {
    inode: Inode,
    cursor: usize,
    mode: usize,
}

impl FileInner {
    /// The file's inode.
    pub closed spec fn inode(&self) -> Inode {
        self.inode
    }

    /// The file's cursor.
    pub closed spec fn cursor(&self) -> usize {
        self.cursor
    }

    /// The file's access mode.
    pub closed spec fn mode(&self) -> usize {
        self.mode
    }

    /// A file for `inode` with access mode `mode` and the cursor at the start; the
    /// size is set to zero when the mode truncates.
    pub fn new(inode: Inode, mode: usize) -> (r: FileInner)
        ensures
            r.inode() == (if mode & TRUNCATE != 0 {
                with_size(inode, 0)
            } else {
                inode
            }),
            r.cursor() == 0,
            r.mode() == mode,
    {
        let mut inode = inode;
        if mode & TRUNCATE != 0 {
            inode.set_size(0);
        }
        FileInner { inode, cursor: 0, mode }
    }

    /// Whether the file is a symbolic link.
    pub fn is_link(&self) -> (r: bool)
        ensures
            r == (self.inode().group.entry.attr & super::dirent::ATTR_SYM
                == super::dirent::ATTR_SYM),
    {
        self.inode.is_link()
    }

    /// Whether the file is a directory.
    pub fn is_dir(&self) -> (r: bool)
        ensures
            r == view_is_dir(self.inode()@),
    {
        self.inode.is_dir()
    }

    /// Sets the bits of `attr` in the attribute of the file's entry.
    pub fn set_attr(&mut self, attr: u8)
        ensures
            final(self).inode() == (Inode {
                group: super::dirent::DirEntryGroup {
                    entry: DirEntryRaw { attr: old(self).inode().group.entry.attr | attr, ..old(self).inode().group.entry },
                    ..old(self).inode().group
                },
                ..old(self).inode()
            }),
            final(self).cursor() == old(self).cursor(),
            final(self).mode() == old(self).mode(),
    {
        self.inode.group.entry.attr = self.inode.group.entry.attr | attr;
    }

    /// Clears the bits of `attr` in the attribute of the file's entry.
    pub fn reset_attr(&mut self, attr: u8)
        ensures
            final(self).inode() == (Inode {
                group: super::dirent::DirEntryGroup {
                    entry: DirEntryRaw { attr: old(self).inode().group.entry.attr & !attr, ..old(self).inode().group.entry },
                    ..old(self).inode().group
                },
                ..old(self).inode()
            }),
            final(self).cursor() == old(self).cursor(),
            final(self).mode() == old(self).mode(),
    {
        self.inode.group.entry.attr = self.inode.group.entry.attr & !attr;
    }

    /// The attribute of the file's entry.
    pub fn get_attr(&self) -> (r: u8)
        ensures
            r == self.inode().group.entry.attr,
    {
        return self.inode.group.entry.attr;
    }

    /// The path of the file: its directory's path with its name appended (and a
    /// directory flag as the file is one); the root directory's path for the root.
    pub fn get_path(&self) -> (r: Path)
        ensures
            self.inode().name@.len() > 0 ==> r@ == (PathView {
                path: self.inode().path@.path.push(self.inode().name@),
                must_dir: view_is_dir(self.inode()@),
                is_abs: self.inode().path@.is_abs,
            }),
            self.inode().name@.len() == 0 ==> r@ == self.inode().path@,
    {
        let mut p = self.inode.path.clone();
        if !self.inode.name.as_str().is_empty() {
            let ghost before = p@;
            p.path.push(self.inode.name.clone());
            p.must_dir = self.inode.is_dir();
            proof {
                assert(p@.path =~= before.path.push(self.inode.name@));
            }
        }
        return p;
    }

    /// Moves the cursor to `offset` counted as `op` says (from the start, the
    /// cursor or the end of the file); a position below zero wraps around as a
    /// cast to `usize` does. Directories have no cursor.
    pub fn seek(&mut self, offset: isize, op: SeekOp) -> (r: Result<(), ErrNo>)
        requires
            !view_is_dir(old(self).inode()@) ==> old(self).inode().group.entry.size <= isize::MAX,
            !view_is_dir(old(self).inode()@) ==> match op {
                SeekOp::CUR => old(self).cursor() <= isize::MAX && isize::MIN <= old(self).cursor()
                    + offset <= isize::MAX,
                SeekOp::END => isize::MIN <= old(self).inode().group.entry.size + offset
                    <= isize::MAX,
                SeekOp::SET => true,
            },
        ensures
            view_is_dir(old(self).inode()@) ==> r == Err::<(), ErrNo>(ErrNo::IllegalSeek)
                && *final(self) == *old(self),
            !view_is_dir(old(self).inode()@) ==> {
                let new_cur: int = match op {
                    SeekOp::CUR => old(self).cursor() + offset,
                    SeekOp::END => old(self).inode().group.entry.size + offset,
                    SeekOp::SET => offset as int,
                };
                &&& r is Ok
                &&& final(self).cursor() == new_cur as isize as usize
                &&& final(self).inode() == old(self).inode()
                &&& final(self).mode() == old(self).mode()
            },
    {
        if self.inode.is_dir() {
            return Err(ErrNo::IllegalSeek);
        }
        let new_cur: isize = match op {
            SeekOp::CUR => self.cursor as isize + offset,
            SeekOp::END => self.inode.get_size() as isize + offset,
            SeekOp::SET => offset,
        };
        if new_cur < 0 && new_cur > self.inode.get_size() as isize {
            return Err(ErrNo::InvalidArgument);
        }
        self.cursor = new_cur as usize;
        return Ok(());
    }

    /// The cursor; directories have none.
    pub fn get_cursor(&self) -> (r: Result<usize, ErrNo>)
        ensures
            view_is_dir(self.inode()@) ==> r == Err::<usize, ErrNo>(ErrNo::IllegalSeek),
            !view_is_dir(self.inode()@) ==> r == Ok::<usize, ErrNo>(self.cursor()),
    {
        if self.inode.is_dir() {
            return Err(ErrNo::IllegalSeek);
        }
        return Ok(self.cursor);
    }

    /// Reads from the cursor into `buffer`, as far as the file size and the
    /// buffer go (see `Chain::read`), and moves the cursor past the bytes read.
    /// Directories cannot be read, nor files opened without the read bit.
    pub fn read(&mut self, fs: &Fat32FS, buffer: &mut [u8]) -> (r: Result<usize, ErrNo>)
        requires
            fs.wf(),
            clusters_valid(fs.fat@.len(), old(self).inode().chain.chain@),
            !view_is_dir(old(self).inode()@) && old(self).mode() & READ != 0 ==> old(self).cursor()
                <= old(self).inode().group.entry.size,
        ensures
            final(buffer)@.len() == old(buffer)@.len(),
            view_is_dir(old(self).inode()@) ==> r == Err::<usize, ErrNo>(ErrNo::IsADirectory)
                && *final(self) == *old(self) && final(buffer)@ == old(buffer)@,
            !view_is_dir(old(self).inode()@) && old(self).mode() & READ == 0 ==> r == Err::<
                usize,
                ErrNo,
            >(ErrNo::BadFileDescriptor) && *final(self) == *old(self) && final(buffer)@ == old(
                buffer,
            )@,
            !view_is_dir(old(self).inode()@) && old(self).mode() & READ != 0 ==> file_read(
                *fs,
                *old(self),
                *final(self),
                old(buffer)@,
                final(buffer)@,
                r,
            ),
    {
        if self.inode.is_dir() {
            return Err(ErrNo::IsADirectory);
        }
        if self.mode & READ == 0 {
            return Err(ErrNo::BadFileDescriptor);
        }
        let left = self.inode.get_size() - self.cursor;
        proof {
            lemma_offset_past(self.cursor as int, fs.cs() as int, self.inode.chain.chain@.len() as int);
            lemma_chain_content_len(fs.clusters(), self.inode.chain.chain@, fs.cs());
        }
        if left < buffer.len() {
            let mut tmp: Vec<u8> = vec![0u8; left];
            let ghost content = self.inode.chain.content(fs);
            let res = self.inode.chain.read(fs, self.cursor, tmp.as_mut_slice());
            assert(tmp@.len() == left);
            match res {
                Ok(r) => {
                    assert(r <= left);
                    assert(forall|j: int| 0 <= j < r ==> #[trigger] tmp@[j] == content[self.cursor + j]);
                    let mut i: usize = 0;
                    while i < r
                        invariant
                            r <= tmp@.len(),
                            tmp@.len() == left,
                            left < buffer@.len(),
                            buffer@.len() == old(buffer)@.len(),
                            forall|j: int| 0 <= j < r ==> #[trigger] tmp@[j] == content[self.cursor + j],
                            i <= r,
                            forall|j: int|
                                0 <= j < buffer@.len() ==> #[trigger] buffer@[j] == if j < i {
                                    tmp@[j]
                                } else {
                                    old(buffer)@[j]
                                },
                        decreases r - i,
                    {
                        buffer[i] = tmp[i];
                        i = i + 1;
                    }
                    self.cursor = self.cursor + r;
                    return Ok(r);
                },
                Err(e) => {
                    return Err(e);
                },
            }
        } else {
            match self.inode.chain.read(fs, self.cursor, buffer) {
                Ok(r) => {
                    self.cursor = self.cursor + r;
                    return Ok(r);
                },
                Err(e) => {
                    return Err(e);
                },
            }
        }
    }

    /// Writes `buffer` at the cursor (see `Chain::write`), moves the cursor past
    /// the bytes written, and raises the size to the cursor when it lies beyond
    /// (the size keeps the low 32 bits). Directories cannot be written, nor files
    /// opened without the write bit.
    pub fn write(&mut self, fs: &mut Fat32FS, buffer: &[u8]) -> (r: Result<usize, ErrNo>)
        requires
            old(fs).wf(),
            !view_is_dir(old(self).inode()@) && old(self).mode() & WRITE != 0 ==> {
                &&& chain_ok(old(fs), old(self).inode().chain.chain@)
                &&& free_count(old(fs).fat@, old(fs).fat@.len() as int) + old(
                    self,
                ).inode().chain.chain@.len() >= written_clusters(
                    old(self).inode().chain.chain@.len(),
                    old(fs).cs(),
                    old(self).cursor() as nat,
                    buffer@.len(),
                )
                &&& old(self).cursor() + buffer@.len() <= usize::MAX
            },
        ensures
            view_is_dir(old(self).inode()@) ==> r == Err::<usize, ErrNo>(ErrNo::IsADirectory)
                && *final(self) == *old(self) && *final(fs) == *old(fs),
            !view_is_dir(old(self).inode()@) && old(self).mode() & WRITE == 0 ==> r == Err::<
                usize,
                ErrNo,
            >(ErrNo::BadFileDescriptor) && *final(self) == *old(self) && *final(fs) == *old(fs),
            !view_is_dir(old(self).inode()@) && old(self).mode() & WRITE != 0 ==> file_written(
                *old(fs),
                *final(fs),
                *old(self),
                *final(self),
                buffer@,
                r,
            ),
    {
        if self.inode.is_dir() {
            return Err(ErrNo::IsADirectory);
        }
        if self.mode & WRITE == 0 {
            return Err(ErrNo::BadFileDescriptor);
        }
        match self.inode.chain.write(fs, self.cursor, buffer) {
            Ok(w) => {
                self.cursor = self.cursor + w;
                if self.inode.get_size() < self.cursor {
                    self.inode.set_size(self.cursor as u32);
                }
                return Ok(w);
            },
            Err(e) => {
                return Err(e);
            },
        }
    }

    /// The files of this directory, in the order of their groups, each with the
    /// cursor at the start and no access mode. An error for a file that is no
    /// directory, or is `.` or `..`.
    pub fn list(&self, fs: &Fat32FS) -> (r: Result<Vec<FileInner>, &'static str>)
        requires
            fs.wf(),
            view_is_dir(self.inode()@) && !view_is_fake(self.inode()@) ==> {
                &&& view_readable(*fs, self.inode()@)
                &&& forall|j: int|
                    0 <= j < view_groups(*fs, self.inode()@).len() ==> #[trigger] scanned_name(
                        view_groups(*fs, self.inode()@)[j].1,
                        view_groups(*fs, self.inode()@)[j].2,
                    ) is Some
            },
        ensures
            !view_is_dir(self.inode()@) ==> r is Err && r->Err_0@ == "list: not from directory"@,
            view_is_dir(self.inode()@) && view_is_fake(self.inode()@) ==> r is Err && r->Err_0@
                == "list: fake inode"@,
            view_is_dir(self.inode()@) && !view_is_fake(self.inode()@) ==> {
                let gs = view_groups(*fs, self.inode()@);
                &&& r is Ok
                &&& r->Ok_0@.len() == gs.len()
                &&& forall|j: int|
                    0 <= j < gs.len() ==> {
                        &&& (#[trigger] r->Ok_0@[j]).inode()@ == child_view(
                            *fs,
                            self.inode()@,
                            gs[j],
                            scanned_name(gs[j].1, gs[j].2)->0,
                        )
                        &&& r->Ok_0@[j].cursor() == 0
                        &&& r->Ok_0@[j].mode() == 0
                    }
            },
    {
        if !self.inode.is_dir() {
            proof {
                reveal_strlit("list: not from directory");
            }
            return Err("list: not from directory");
        }
        if self.inode.is_fake() {
            proof {
                reveal_strlit("list: fake inode");
            }
            return Err("list: fake inode");
        }
        let mut inodes = self.inode.get_inodes(fs).unwrap();
        let ghost gs = view_groups(*fs, self.inode@);
        let ghost all = inodes@;
        let n = inodes.len();
        let mut files: Vec<FileInner> = Vec::new();
        let mut k: usize = 0;
        while k < n
            invariant
                n == all.len(),
                k <= n,
                inodes@ == all.subrange(k as int, n as int),
                files@.len() == k,
                forall|j: int|
                    0 <= j < k ==> {
                        &&& (#[trigger] files@[j]).inode() == all[j]
                        &&& files@[j].cursor() == 0
                        &&& files@[j].mode() == 0
                    },
            decreases n - k,
        {
            let inode = inodes.remove(0);
            proof {
                assert(inodes@ =~= all.subrange(k + 1, n as int));
            }
            files.push(FileInner { inode, cursor: 0, mode: 0 });
            k = k + 1;
        }
        return Ok(files);
    }

    /// Renames the file to `new_name`: a new 8.3 name and long-file-name entries
    /// for its group, and the new name. An error when the directory that holds it
    /// has a file of that name already.
    pub fn rename(&mut self, fs: &Fat32FS, new_name: &str) -> (r: Result<(), ErrNo>)
        requires
            fs.wf(),
            has_non_nul(new_name@),
            parent_ok(*fs, old(self).inode()@),
            find_ok(*fs, parent_view(*fs, old(self).inode()@), new_name@),
        ensures
            find_spec(*fs, parent_view(*fs, old(self).inode()@), new_name@) is Ok ==> r
                == Err::<(), ErrNo>(ErrNo::FileExists) && *final(self) == *old(self),
            find_spec(*fs, parent_view(*fs, old(self).inode()@), new_name@) is Err ==> {
                &&& r is Ok
                &&& group_renamed(old(self).inode().group, final(self).inode().group, new_name@)
                &&& final(self).inode().name@ == new_name@
                &&& final(self).inode().path == old(self).inode().path
                &&& final(self).inode().chain == old(self).inode().chain
                &&& final(self).cursor() == old(self).cursor()
                &&& final(self).mode() == old(self).mode()
            },
    {
        let parent = self.inode.get_parent(fs).unwrap();
        match parent.find_inode(fs, new_name) {
            Ok(_) => {
                return Err(ErrNo::FileExists);
            },
            Err(_) => {},
        }
        self.inode.group.rename(new_name).unwrap();
        self.inode.name = new_name.to_owned();
        return Ok(());
    }

    /// Makes the directory at `path` from this directory: an error when the
    /// checks of `start_check` fail (an empty path exists already), when the
    /// directory that is to hold it cannot be found, when it holds a file of that
    /// name, or as `Inode::new_dir` gives.
    pub fn mkdir(&mut self, fs: &mut Fat32FS, path: Path) -> (r: Result<FileInner, ErrNo>)
        requires
            old(fs).wf(),
            start_check(old(self).inode()@, path@, ErrNo::FileExists) is None ==> {
                &&& holder_ok(*old(fs), old(self).inode()@, path@)
                &&& holder(*old(fs), old(self).inode()@, path@) matches Ok(pv) ==> make_ok(
                    *old(fs),
                    pv,
                    path@.path.last(),
                    true,
                    true,
                )
            },
        ensures
            fresh(r),
            start_check(old(self).inode()@, path@, ErrNo::FileExists) matches Some(e) ==> r
                == Err::<FileInner, ErrNo>(e) && *final(fs) == *old(fs) && *final(self) == *old(
                self,
            ),
            start_check(old(self).inode()@, path@, ErrNo::FileExists) is None ==> made_in_holder(
                *old(fs),
                *final(fs),
                *old(self),
                *final(self),
                path@,
                true,
                true,
                file_inode(r),
            ),
    {
        let mut path = path;
        if !self.inode.is_dir() {
            return Err(ErrNo::NotADirectory);
        }
        if self.inode.is_fake() {
            return Err(ErrNo::Fat32FakeInode);
        }
        if path.is_abs && !self.inode.name.as_str().is_empty() {
            return Err(ErrNo::InvalidArgument);
        }
        if !path.is_abs && self.inode.name.as_str().is_empty() {
            return Err(ErrNo::InvalidArgument);
        }
        if path.path.len() == 0 {
            return Err(ErrNo::FileExists);
        }
        let ghost p0 = path@;
        let name = path.path.pop().unwrap();
        proof {
            assert(path@.path =~= p0.path.drop_last());
            assert(name@ == p0.path.last());
        }
        if path.path.len() > 0 {
            path.must_dir = true;
            proof {
                assert(path@ == prefix_path(p0));
            }
            let mut parent = match self.inode.find_inode_path(fs, &path) {
                Ok(inode) => inode,
                Err(e) => {
                    return Err(e);
                },
            };
            let ghost pv = parent@;
            let r = make_at(&mut parent, fs, &name, true, true);
            proof {
                assert(made_at(*old(fs), *fs, pv, parent.chain.chain@, name@, true, true, file_inode(r)));
            }
            return r;
        } else {
            return make_at(&mut self.inode, fs, &name, true, true);
        }
    }

    /// Makes the regular file at `path` from this directory: an error when the
    /// checks of `start_check` fail (an empty path is refused), when the
    /// directory that is to hold it cannot be found, or as `Inode::new_file`
    /// gives. For a path of several names, the directory that is to hold the file
    /// is first searched for the last name (`FileExists` when it is there); for a
    /// path of one name it is not searched, and a second entry of that name may
    /// be added.
    pub fn mkfile(&mut self, fs: &mut Fat32FS, path: Path) -> (r: Result<FileInner, ErrNo>)
        requires
            old(fs).wf(),
            start_check(old(self).inode()@, path@, ErrNo::InvalidArgument) is None ==> {
                &&& holder_ok(*old(fs), old(self).inode()@, path@)
                &&& holder(*old(fs), old(self).inode()@, path@) matches Ok(pv) ==> make_ok(
                    *old(fs),
                    pv,
                    path@.path.last(),
                    false,
                    path@.path.len() > 1,
                )
            },
        ensures
            fresh(r),
            start_check(old(self).inode()@, path@, ErrNo::InvalidArgument) matches Some(e) ==> r
                == Err::<FileInner, ErrNo>(e) && *final(fs) == *old(fs) && *final(self) == *old(
                self,
            ),
            start_check(old(self).inode()@, path@, ErrNo::InvalidArgument) is None ==> made_in_holder(
                *old(fs),
                *final(fs),
                *old(self),
                *final(self),
                path@,
                false,
                path@.path.len() > 1,
                file_inode(r),
            ),
    {
        let mut path = path;
        if !self.inode.is_dir() {
            return Err(ErrNo::NotADirectory);
        }
        if self.inode.is_fake() {
            return Err(ErrNo::Fat32FakeInode);
        }
        if path.is_abs && !self.inode.name.as_str().is_empty() {
            return Err(ErrNo::InvalidArgument);
        }
        if !path.is_abs && self.inode.name.as_str().is_empty() {
            return Err(ErrNo::InvalidArgument);
        }
        if path.path.len() == 0 {
            return Err(ErrNo::InvalidArgument);
        }
        let ghost p0 = path@;
        let name = path.path.pop().unwrap();
        proof {
            assert(path@.path =~= p0.path.drop_last());
            assert(name@ == p0.path.last());
        }
        if path.path.len() > 0 {
            path.must_dir = true;
            proof {
                assert(path@ == prefix_path(p0));
            }
            let mut parent = match self.inode.find_inode_path(fs, &path) {
                Ok(inode) => inode,
                Err(e) => {
                    return Err(e);
                },
            };
            let ghost pv = parent@;
            let r = make_at(&mut parent, fs, &name, false, true);
            proof {
                assert(made_at(*old(fs), *fs, pv, parent.chain.chain@, name@, false, true, file_inode(r)));
            }
            return r;
        } else {
            return make_at(&mut self.inode, fs, &name, false, false);
        }
    }

    /// Removes the regular file or empty directory at `path` from this
    /// directory: an error when the checks of `start_check` fail (an empty path is
    /// refused), when the directory that holds it cannot be found, or as
    /// `Inode::delete_inode` gives.
    pub fn remove(&mut self, fs: &mut Fat32FS, path: Path) -> (r: Result<(), ErrNo>)
        requires
            old(fs).wf(),
            start_check(old(self).inode()@, path@, ErrNo::InvalidArgument) is None ==> {
                &&& holder_ok(*old(fs), old(self).inode()@, path@)
                &&& holder(*old(fs), old(self).inode()@, path@) matches Ok(pv) ==> {
                    &&& find_ok(*old(fs), pv, path@.path.last())
                    &&& view_is_dir(pv) ==> chain_ok(old(fs), pv.chain)
                    &&& delete_fits(*old(fs), pv, path@.path.last())
                }
            },
        ensures
            start_check(old(self).inode()@, path@, ErrNo::InvalidArgument) matches Some(e) ==> r
                == Err::<(), ErrNo>(e) && *final(fs) == *old(fs) && *final(self) == *old(self),
            start_check(old(self).inode()@, path@, ErrNo::InvalidArgument) is None ==> {
                &&& final(self).inode()@ == old(self).inode()@
                &&& final(self).cursor() == old(self).cursor()
                &&& final(self).mode() == old(self).mode()
                &&& match holder(*old(fs), old(self).inode()@, path@) {
                    Err(e) => r == Err::<(), ErrNo>(ErrNo::NoSuchFileOrDirectory) && *final(fs)
                        == *old(fs),
                    Ok(pv) => delete_result(*old(fs), *final(fs), pv, path@.path.last(), r),
                }
            },
    {
        let mut path = path;
        if !self.inode.is_dir() {
            return Err(ErrNo::NotADirectory);
        }
        if self.inode.is_fake() {
            return Err(ErrNo::Fat32FakeInode);
        }
        if path.is_abs && !self.inode.name.as_str().is_empty() {
            return Err(ErrNo::InvalidArgument);
        }
        if !path.is_abs && self.inode.name.as_str().is_empty() {
            return Err(ErrNo::InvalidArgument);
        }
        if path.path.len() == 0 {
            return Err(ErrNo::InvalidArgument);
        }
        let ghost p0 = path@;
        let name = path.path.pop().unwrap();
        proof {
            assert(path@.path =~= p0.path.drop_last());
            assert(name@ == p0.path.last());
        }
        if path.path.len() > 0 {
            path.must_dir = true;
            proof {
                assert(path@ == prefix_path(p0));
            }
            let mut parent = match self.inode.find_inode_path(fs, &path) {
                Ok(inode) => inode,
                Err(_) => {
                    return Err(ErrNo::NoSuchFileOrDirectory);
                },
            };
            return parent.delete_inode(fs, &name);
        } else {
            return self.inode.delete_inode(fs, &name);
        }
    }

    /// Opens `path` from this directory with access mode `mode` (see
    /// `open_rel`); links on the way are followed at most as often as some
    /// bound lets `open_ok` hold.
    pub fn open(&mut self, fs: &mut Fat32FS, path: Path, mode: usize) -> (r: Result<FileInner, ErrNo>)
        requires
            old(fs).wf(),
            exists|n: nat| open_ok(*old(fs), old(self).inode()@, path@, mode, n),
        ensures
            open_rel(
                *old(fs),
                *final(fs),
                old(self).inode()@,
                Some(final(self).inode().chain.chain@),
                path@,
                mode,
                r,
                choose|n: nat| open_ok(*old(fs), old(self).inode()@, path@, mode, n),
            ),
            final(self).inode().name@ == old(self).inode().name@,
            final(self).inode().path@ == old(self).inode().path@,
            final(self).inode().group == old(self).inode().group,
            final(self).cursor() == old(self).cursor(),
            final(self).mode() == old(self).mode(),
    {
        let ghost n = choose|n: nat| open_ok(*old(fs), old(self).inode()@, path@, mode, n);
        self.open_fuel(fs, path, mode, Ghost(n))
    }

    /// `open`, following at most `fuel` links.
    fn open_fuel(&mut self, fs: &mut Fat32FS, path: Path, mode: usize, Ghost(fuel): Ghost<nat>) -> (r:
        Result<FileInner, ErrNo>)
        requires
            old(fs).wf(),
            open_ok(*old(fs), old(self).inode()@, path@, mode, fuel),
        ensures
            open_rel(
                *old(fs),
                *final(fs),
                old(self).inode()@,
                Some(final(self).inode().chain.chain@),
                path@,
                mode,
                r,
                fuel,
            ),
            final(self).inode().name@ == old(self).inode().name@,
            final(self).inode().path@ == old(self).inode().path@,
            final(self).inode().group == old(self).inode().group,
            final(self).cursor() == old(self).cursor(),
            final(self).mode() == old(self).mode(),
        decreases fuel, 2nat,
    {
        let mut path = path;
        if !self.inode.is_dir() {
            return Err(ErrNo::NotADirectory);
        }
        if self.inode.is_fake() {
            return Err(ErrNo::Fat32FakeInode);
        }
        if path.is_abs && !self.inode.name.as_str().is_empty() {
            return Err(ErrNo::InvalidArgument);
        }
        if !path.is_abs && self.inode.name.as_str().is_empty() {
            return Err(ErrNo::InvalidArgument);
        }
        let dir_flag = mode & DIR != 0;
        if path.path.len() == 0 {
            return Err(ErrNo::InvalidArgument);
        }
        if path.must_dir && !dir_flag {
            return Err(ErrNo::IsADirectory);
        }
        let ghost p0 = path@;
        let name = path.path.pop().unwrap();
        proof {
            assert(path@.path =~= p0.path.drop_last());
            assert(name@ == p0.path.last());
        }
        if path.path.len() == 0 {
            let ghost iv = self.inode@;
            let r = open_d(&mut self.inode, fs, &name, mode, dir_flag, mode & NO_FOLLOW != 0, Ghost(fuel));
            proof {
                assert(open_d_rel(*old(fs), *fs, iv, Some(self.inode.chain.chain@), name@, mode, r, fuel));
                assert(prefix_path(p0).path.len() == 0);
                assert(start_check(iv, p0, ErrNo::InvalidArgument) is None);
            }
            return r;
        } else {
            path.must_dir = true;
            proof {
                assert(path@ == prefix_path(p0));
            }
            match self.inode.find_inode_path(fs, &path) {
                Ok(parent) => {
                    let mut parent = parent;
                    let ghost pv = parent@;
                    let r = open_d(&mut parent, fs, &name, mode, dir_flag, mode & NO_FOLLOW != 0, Ghost(fuel));
                    proof {
                        let c = parent.chain.chain@;
                        lemma_open_d_rel_weaken(*old(fs), *fs, pv, c, name@, mode, r, fuel);
                    }
                    return r;
                },
                Err(_) => {
                    return Err(ErrNo::NoSuchFileOrDirectory);
                },
            }
        }
    }

    /// Writes the file's metadata back: for a regular file, an entry with no
    /// start yet gets the chain's first cluster and the chain is cut to the
    /// clusters its size needs; then the group is written into the directory that
    /// holds the file (see `write_dirent_group`). The root directory has no group
    /// and is left as it is.
    pub fn close(&mut self, fs: &mut Fat32FS)
        requires
            old(fs).wf(),
            close_ok(*old(fs), *old(self)),
        ensures
            old(self).inode().name@.len() == 0 ==> *final(self) == *old(self) && *final(fs) == *old(
                fs,
            ),
            old(self).inode().name@.len() > 0 ==> closed_as(
                *old(fs),
                *final(fs),
                old(self).inode(),
                final(self).inode(),
            ),
            final(self).cursor() == old(self).cursor(),
            final(self).mode() == old(self).mode(),
    {
        if self.inode.name.as_str().is_empty() {
            return;
        }
        let ghost fs0 = *fs;
        let ghost i0 = self.inode;
        if !self.inode.is_dir() {
            if self.inode.group.get_start() == 0 && self.inode.chain.chain.len() != 0 {
                self.inode.group.entry.set_start(self.inode.chain.chain[0]);
            }
            let csize = fs.cluster_size();
            let clen = (self.inode.get_size() + csize - 1) / csize;
            self.inode.chain.truncate(fs, clen).unwrap();
        }
        let ghost fs1 = *fs;
        let ghost i1 = self.inode;
        proof {
            assert(close_prep(fs0, fs1, i0, i1));
        }
        let mut parent = self.inode.get_parent(fs).unwrap();
        let ghost pc = parent.chain.chain@;
        let r = write_dirent_group(&mut parent.chain, fs, &mut self.inode.group);
        proof {
            assert(group_written(fs1, *fs, pc, parent.chain.chain@, i1.group, self.inode.group, r));
            assert(self.inode == (Inode { group: self.inode.group, ..i1 }));
            assert(close_step(fs0, fs1, *fs, i0, i1, parent.chain.chain@, self.inode));
        }
        r.unwrap();
    }

    /// Whether the mode allows reading.
    pub fn readable(&self) -> (r: bool)
        ensures
            r == (self.mode() & READ != 0),
    {
        self.mode & READ != 0
    }

    /// Whether the mode allows writing.
    pub fn writable(&self) -> (r: bool)
        ensures
            r == (self.mode() & WRITE != 0),
    {
        self.mode & WRITE != 0
    }

    /// The last access time in seconds: the entry's access day times a day's
    /// seconds.
    pub fn last_acc_time_sec(&self) -> (r: usize)
        requires
            self.inode().group.entry.accessed_sec * 86400 <= usize::MAX,
        ensures
            r == self.inode().group.entry.accessed_sec * 86400,
    {
        self.inode.group.entry.accessed_sec as usize * 86400usize
    }

    /// The creation time in seconds: the creation day times a day's seconds plus
    /// the creation seconds.
    pub fn create_time_sec(&self) -> (r: usize)
        requires
            self.inode().group.entry.created_date * 86400 + self.inode().group.entry.created_sec
                <= usize::MAX,
        ensures
            r == self.inode().group.entry.created_date * 86400 + self.inode().group.entry.created_sec,
    {
        self.inode.group.entry.created_date as usize * 86400usize
            + self.inode.group.entry.created_sec as usize
    }

    /// The nanoseconds of the creation time.
    pub fn create_time_nsec(&self) -> (r: usize)
        requires
            self.inode().group.entry.created_minisec * 1000000 <= usize::MAX,
        ensures
            r == self.inode().group.entry.created_minisec * 1000000,
    {
        self.inode.group.entry.created_minisec as usize * 1000000usize
    }

    /// The file size the entry records (zero for a directory).
    pub fn size(&self) -> (r: usize)
        ensures
            r == self.inode().group.entry.size,
    {
        self.inode.get_size()
    }

    /// The file name.
    pub fn name(&self) -> (r: String)
        ensures
            r@ == self.inode().name@,
    {
        self.inode.name.clone()
    }

    /// The file type: a link, a directory, or a regular file.
    pub fn ftype(&self) -> (r: FileType)
        ensures
            r == inode_file_type(self.inode()),
    {
        if self.inode.is_link() {
            FileType::Link
        } else if self.inode.is_dir() {
            FileType::Directory
        } else {
            FileType::Regular
        }
    }

    /// The access mode.
    pub fn fmode(&self) -> (r: usize)
        ensures
            r == self.mode(),
    {
        self.mode
    }
}

/// Making `name` in directory `pv` (a directory when `dir`, else a regular
/// file) can be done; `look` says whether an existing file of the name is looked
/// for first.
pub open spec fn make_ok(fs: Fat32FS, pv: InodeView, name: Seq<char>, dir: bool, look: bool) -> bool {
    &&& look ==> find_ok(fs, pv, name)
    &&& !look || find_spec(fs, pv, name) is Err ==> if dir {
        new_dir_ok(fs, pv, name)
    } else {
        new_file_ok(fs, pv, name)
    }
}

/// What making `name` in `pv` gives (see `make_at`), from `fs0` to `fs1`, the
/// chain of `pv` becoming `cp1`.
pub open spec fn made_at(
    fs0: Fat32FS,
    fs1: Fat32FS,
    pv: InodeView,
    cp1: Seq<u32>,
    name: Seq<char>,
    dir: bool,
    look: bool,
    r: Result<Inode, ErrNo>,
) -> bool {
    if look && find_spec(fs0, pv, name) is Ok {
        r == Err::<Inode, ErrNo>(ErrNo::FileExists) && fs1 == fs0 && cp1 == pv.chain
    } else if dir {
        new_dir_result(fs0, fs1, pv, cp1, name, 0, r)
    } else {
        new_file_result(fs0, fs1, pv, cp1, name, 0, r)
    }
}

/// What `mkdir` (when `dir`) or `mkfile` give for `path` from the file `f0`, once
/// the first checks passed: the error of looking up the holder, or what making
/// the last name in it gives; the file `f1` changes only in its directory's chain,
/// and only when it is the holder.
pub open spec fn made_in_holder(
    fs0: Fat32FS,
    fs1: Fat32FS,
    f0: FileInner,
    f1: FileInner,
    path: PathView,
    dir: bool,
    look: bool,
    r: Result<Inode, ErrNo>,
) -> bool {
    let name = path.path.last();
    let iv = f0.inode()@;
    match holder(fs0, iv, path) {
        Err(e) => r == Err::<Inode, ErrNo>(e) && fs1 == fs0 && f1 == f0,
        Ok(pv) => if prefix_path(path).path.len() == 0 {
            &&& made_at(fs0, fs1, iv, f1.inode().chain.chain@, name, dir, look, r)
            &&& f1.inode().name@ == f0.inode().name@
            &&& f1.inode().path@ == f0.inode().path@
            &&& f1.inode().group == f0.inode().group
            &&& f1.cursor() == f0.cursor()
            &&& f1.mode() == f0.mode()
        } else {
            &&& f1 == f0
            &&& exists|cp1: Seq<u32>| #[trigger] made_at(fs0, fs1, pv, cp1, name, dir, look, r)
        },
    }
}

/// Makes `name` in directory `parent` — a directory when `dir`, else a regular
/// file — after looking for an existing file of that name when `look`; the new
/// file is open with the cursor at the start and no access mode.
fn make_at(parent: &mut Inode, fs: &mut Fat32FS, name: &String, dir: bool, look: bool) -> (r:
    Result<FileInner, ErrNo>)
    requires
        old(fs).wf(),
        make_ok(*old(fs), old(parent)@, name@, dir, look),
    ensures
        fresh(r),
        made_at(*old(fs), *final(fs), old(parent)@, final(parent).chain.chain@, name@, dir, look, file_inode(r)),
        final(parent).name@ == old(parent).name@,
        final(parent).path@ == old(parent).path@,
        final(parent).group == old(parent).group,
{
    if look {
        match parent.find_inode(fs, name.as_str()) {
            Ok(_) => {
                return Err(ErrNo::FileExists);
            },
            Err(_) => {},
        }
    }
    let res = if dir {
        parent.new_dir(fs, name.as_str(), 0)
    } else {
        parent.new_file(fs, name.as_str(), 0)
    };
    match res {
        Ok(inode) => Ok(FileInner { inode, cursor: 0, mode: 0 }),
        Err(e) => Err(e),
    }
}

/// Whether the entry marks a symbolic link (its top attribute bit).
pub open spec fn view_is_slink(iv: InodeView) -> bool {
    iv.entry[11] & ATTR_SYM != 0
}

/// The size the entry records.
pub open spec fn view_size(iv: InodeView) -> int {
    le32(iv.entry[28], iv.entry[29], iv.entry[30], iv.entry[31])
}

/// The 512 bytes a link's target is read from: the start of its content,
/// zeroes past its end.
pub open spec fn link_bytes(fs: Fat32FS, iv: InodeView) -> Seq<u8> {
    let c = view_content(fs, iv);
    Seq::new(512, |i: int| if i < c.len() {
        c[i]
    } else {
        0u8
    })
}

/// The inode of a file opened with `mode`: its size is zero when the mode
/// truncates.
pub open spec fn opened_view(iv: InodeView, mode: usize) -> InodeView {
    if mode & TRUNCATE != 0 {
        InodeView { entry: iv.entry.subrange(0, 28) + seq![0u8, 0u8, 0u8, 0u8], ..iv }
    } else {
        iv
    }
}

/// `r` is the file `FileInner::new` makes with `mode` of the inode result `ri`.
pub open spec fn opened_from(ri: Result<Inode, ErrNo>, r: Result<FileInner, ErrNo>, mode: usize) -> bool {
    match ri {
        Ok(i) => r is Ok && r->Ok_0.inode()@ == opened_view(i@, mode) && r->Ok_0.cursor() == 0
            && r->Ok_0.mode() == mode,
        Err(e) => r == Err::<FileInner, ErrNo>(e),
    }
}

/// Opening `name` in directory `pv` with `mode` can be done, following at most
/// `fuel` more links: the look-up can be done; a link that is followed can be
/// read and names a path that can be opened from the root; `.` and `..` can be
/// realized; a missing file can be made when the mode creates.
pub open spec fn open_d_ok(fs: Fat32FS, pv: InodeView, name: Seq<char>, mode: usize, fuel: nat) -> bool
    decreases fuel, 0nat,
{
    let dir_flag = mode & DIR != 0;
    let no_follow = mode & NO_FOLLOW != 0;
    &&& find_ok(fs, pv, name)
    &&& match find_spec(fs, pv, name) {
        Ok(iv) => if view_is_slink(iv) && !no_follow {
            view_size(iv) <= 512 ==> {
                &&& view_readable(fs, iv)
                &&& iv.chain.len() > 0
                &&& valid_utf8(link_bytes(fs, iv))
                &&& parse_spec(decode_utf8(link_bytes(fs, iv))) is Ok ==> fuel > 0 && open_ok(
                    fs,
                    root_view(fs),
                    parse_spec(decode_utf8(link_bytes(fs, iv)))->Ok_0,
                    mode,
                    (fuel - 1) as nat,
                )
            }
        } else if (dir_flag && !view_is_dir(iv)) || (!dir_flag && view_is_dir(iv)) {
            true
        } else {
            view_is_fake(iv) ==> realize_ok(fs, iv)
        },
        Err(_) => mode & CREATE != 0 ==> if dir_flag {
            new_dir_ok(fs, pv, name)
        } else {
            new_file_ok(fs, pv, name)
        },
    }
}

/// Opening `p` with `mode` from directory `iv` can be done, following at most
/// `fuel` links.
pub open spec fn open_ok(fs: Fat32FS, iv: InodeView, p: PathView, mode: usize, fuel: nat) -> bool
    decreases fuel, 1nat,
{
    start_check(iv, p, ErrNo::InvalidArgument) is None && !(p.must_dir && mode & DIR == 0) ==> {
        &&& holder_ok(fs, iv, p)
        &&& holder(fs, iv, p) is Ok ==> open_d_ok(fs, holder(fs, iv, p)->Ok_0, p.path.last(), mode, fuel)
    }
}

/// The chain `c` is the one `cp1` asks for, if it asks for one.
pub open spec fn chain_is(cp1: Option<Seq<u32>>, c: Seq<u32>) -> bool {
    cp1 is None || cp1 == Some(c)
}

/// What `new_dir` (when `dir`) or `new_file` give, from `fs0` to `fs1`, the
/// chain of `pv` becoming `cp1` when it is given, some chain otherwise.
pub open spec fn made_result(
    fs0: Fat32FS,
    fs1: Fat32FS,
    pv: InodeView,
    cp1: Option<Seq<u32>>,
    name: Seq<char>,
    dir: bool,
    ri: Result<Inode, ErrNo>,
) -> bool {
    match cp1 {
        Some(c) => if dir {
            new_dir_result(fs0, fs1, pv, c, name, 0, ri)
        } else {
            new_file_result(fs0, fs1, pv, c, name, 0, ri)
        },
        None => exists|c: Seq<u32>|
            #![trigger new_dir_result(fs0, fs1, pv, c, name, 0, ri)]
            #![trigger new_file_result(fs0, fs1, pv, c, name, 0, ri)]
            if dir {
                new_dir_result(fs0, fs1, pv, c, name, 0, ri)
            } else {
                new_file_result(fs0, fs1, pv, c, name, 0, ri)
            },
    }
}

/// What opening `name` in directory `pv` with `mode` gives, from `fs0` to `fs1`,
/// the chain of `pv` becoming `cp1` (when given): a link is followed (unless the
/// mode says not to) by opening its target from the root, when it is short
/// enough and parses; a file of the wrong kind is an error; `.` and `..` are
/// realized; the file is opened with `mode`; a missing file is made when the
/// mode creates.
pub open spec fn open_d_rel(
    fs0: Fat32FS,
    fs1: Fat32FS,
    pv: InodeView,
    cp1: Option<Seq<u32>>,
    name: Seq<char>,
    mode: usize,
    r: Result<FileInner, ErrNo>,
    fuel: nat,
) -> bool
    decreases fuel, 0nat,
{
    let dir_flag = mode & DIR != 0;
    let no_follow = mode & NO_FOLLOW != 0;
    match find_spec(fs0, pv, name) {
        Ok(iv) => if view_is_slink(iv) && !no_follow {
            &&& chain_is(cp1, pv.chain)
            &&& if view_size(iv) > 512 {
                r == Err::<FileInner, ErrNo>(ErrNo::FileNameTooLong) && fs1 == fs0
            } else {
                match parse_spec(decode_utf8(link_bytes(fs0, iv))) {
                    Err(_) => r == Err::<FileInner, ErrNo>(ErrNo::InvalidArgument) && fs1 == fs0,
                    Ok(p2) => fuel > 0 && open_rel(
                        fs0,
                        fs1,
                        root_view(fs0),
                        None,
                        p2,
                        mode,
                        r,
                        (fuel - 1) as nat,
                    ),
                }
            }
        } else if dir_flag && !view_is_dir(iv) {
            r == Err::<FileInner, ErrNo>(ErrNo::NotADirectory) && fs1 == fs0 && chain_is(cp1, pv.chain)
        } else if !dir_flag && view_is_dir(iv) {
            r == Err::<FileInner, ErrNo>(ErrNo::IsADirectory) && fs1 == fs0 && chain_is(cp1, pv.chain)
        } else {
            &&& fs1 == fs0
            &&& chain_is(cp1, pv.chain)
            &&& r is Ok
            &&& r->Ok_0.inode()@ == opened_view(
                if view_is_fake(iv) {
                    realized(fs0, iv)
                } else {
                    iv
                },
                mode,
            )
            &&& r->Ok_0.cursor() == 0
            &&& r->Ok_0.mode() == mode
        },
        Err(_) => if mode & CREATE != 0 {
            exists|ri: Result<Inode, ErrNo>|
                #[trigger] opened_from(ri, r, mode) && made_result(fs0, fs1, pv, cp1, name, dir_flag, ri)
        } else {
            r == Err::<FileInner, ErrNo>(ErrNo::NoSuchFileOrDirectory) && fs1 == fs0 && chain_is(
                cp1,
                pv.chain,
            )
        },
    }
}

/// What opening `p` with `mode` from directory `iv` gives, from `fs0` to `fs1`,
/// the chain of `iv` becoming `cp1` (when given): the errors of `start_check`, a
/// path that must be a directory opened without the directory bit, or a holder
/// that cannot be found; else what opening the last name in the holder gives.
pub open spec fn open_rel(
    fs0: Fat32FS,
    fs1: Fat32FS,
    iv: InodeView,
    cp1: Option<Seq<u32>>,
    p: PathView,
    mode: usize,
    r: Result<FileInner, ErrNo>,
    fuel: nat,
) -> bool
    decreases fuel, 1nat,
{
    match start_check(iv, p, ErrNo::InvalidArgument) {
        Some(e) => r == Err::<FileInner, ErrNo>(e) && fs1 == fs0 && chain_is(cp1, iv.chain),
        None => if p.must_dir && mode & DIR == 0 {
            r == Err::<FileInner, ErrNo>(ErrNo::IsADirectory) && fs1 == fs0 && chain_is(cp1, iv.chain)
        } else if prefix_path(p).path.len() == 0 {
            open_d_rel(fs0, fs1, iv, cp1, p.path.last(), mode, r, fuel)
        } else {
            match find_path_spec(fs0, iv, prefix_path(p)) {
                Err(_) => r == Err::<FileInner, ErrNo>(ErrNo::NoSuchFileOrDirectory) && fs1 == fs0
                    && chain_is(cp1, iv.chain),
                Ok(pv) => chain_is(cp1, iv.chain) && open_d_rel(
                    fs0,
                    fs1,
                    pv,
                    None,
                    p.path.last(),
                    mode,
                    r,
                    fuel,
                ),
            }
        },
    }
}

/// Forgetting the final chain of the directory keeps `open_d_rel`.
proof fn lemma_open_d_rel_weaken(
    fs0: Fat32FS,
    fs1: Fat32FS,
    pv: InodeView,
    c: Seq<u32>,
    name: Seq<char>,
    mode: usize,
    r: Result<FileInner, ErrNo>,
    fuel: nat,
)
    requires
        open_d_rel(fs0, fs1, pv, Some(c), name, mode, r, fuel),
    ensures
        open_d_rel(fs0, fs1, pv, None, name, mode, r, fuel),
{
    if find_spec(fs0, pv, name) is Err && mode & CREATE != 0 {
        let ri = choose|ri: Result<Inode, ErrNo>|
            #[trigger] opened_from(ri, r, mode) && made_result(fs0, fs1, pv, Some(c), name, mode & DIR != 0, ri);
        assert(opened_from(ri, r, mode));
        if mode & DIR != 0 {
            assert(new_dir_result(fs0, fs1, pv, c, name, 0, ri));
        } else {
            assert(new_file_result(fs0, fs1, pv, c, name, 0, ri));
        }
        assert(made_result(fs0, fs1, pv, None, name, mode & DIR != 0, ri));
    }
}

/// Forgetting the final chain of the directory keeps `open_rel`.
proof fn lemma_open_rel_weaken(
    fs0: Fat32FS,
    fs1: Fat32FS,
    iv: InodeView,
    c: Seq<u32>,
    p: PathView,
    mode: usize,
    r: Result<FileInner, ErrNo>,
    fuel: nat,
)
    requires
        open_rel(fs0, fs1, iv, Some(c), p, mode, r, fuel),
    ensures
        open_rel(fs0, fs1, iv, None, p, mode, r, fuel),
{
    if start_check(iv, p, ErrNo::InvalidArgument) is None && !(p.must_dir && mode & DIR == 0)
        && prefix_path(p).path.len() == 0 {
        lemma_open_d_rel_weaken(fs0, fs1, iv, c, p.path.last(), mode, r, fuel);
    }
}

/// The view of an inode with its size set to zero.
proof fn lemma_opened_view(i: Inode, mode: usize)
    ensures
        (if mode & TRUNCATE != 0 {
            with_size(i, 0)
        } else {
            i
        })@ == opened_view(i@, mode),
{
    lemma_entry_bytes_size(i.group.entry, 0);
    assert(u32_le(0) =~= seq![0u8, 0u8, 0u8, 0u8]);
    if mode & TRUNCATE != 0 {
        assert(with_size(i, 0)@ =~= opened_view(i@, mode));
    }
}

/// Opens the target of the link `inode` (not followed yet) from the root, with
/// `mode`, following at most `fuel` more links.
fn open_link(inode: &Inode, fs: &mut Fat32FS, mode: usize, Ghost(fuel): Ghost<nat>) -> (r: Result<
    FileInner,
    ErrNo,
>)
    requires
        old(fs).wf(),
        view_size(inode@) <= 512 ==> {
            &&& view_readable(*old(fs), inode@)
            &&& inode@.chain.len() > 0
            &&& valid_utf8(link_bytes(*old(fs), inode@))
            &&& parse_spec(decode_utf8(link_bytes(*old(fs), inode@))) is Ok ==> fuel > 0
                && open_ok(
                *old(fs),
                root_view(*old(fs)),
                parse_spec(decode_utf8(link_bytes(*old(fs), inode@)))->Ok_0,
                mode,
                (fuel - 1) as nat,
            )
        },
    ensures
        view_size(inode@) > 512 ==> r == Err::<FileInner, ErrNo>(ErrNo::FileNameTooLong)
            && *final(fs) == *old(fs),
        view_size(inode@) <= 512 ==> match parse_spec(decode_utf8(link_bytes(*old(fs), inode@))) {
            Err(_) => r == Err::<FileInner, ErrNo>(ErrNo::InvalidArgument) && *final(fs) == *old(fs),
            Ok(p2) => fuel > 0 && open_rel(
                *old(fs),
                *final(fs),
                root_view(*old(fs)),
                None,
                p2,
                mode,
                r,
                (fuel - 1) as nat,
            ),
        },
    decreases fuel, 0nat,
{
    proof {
        lemma_group_fields(inode.group, inode@.exts, inode@.entry);
    }
    let size = inode.get_size();
    if size > 512 {
        return Err(ErrNo::FileNameTooLong);
    }
    let mut buf = [0u8; 512];
    proof {
        lemma_offset_past(0, fs.cs() as int, inode.chain.chain@.len() as int);
        lemma_chain_content_len(fs.clusters(), inode.chain.chain@, fs.cs());
    }
    inode.chain.read(fs, 0, &mut buf).unwrap();
    proof {
        assert(buf@ =~= link_bytes(*fs, inode@));
    }
    let text = crate::text::str_from_utf8(&buf).unwrap();
    let path = match parse_path(text) {
        Ok(p) => p,
        Err(_) => {
            return Err(ErrNo::InvalidArgument);
        },
    };
    let root = Inode::root(fs);
    let mut root = FileInner::new(root, 0);
    proof {
        assert(0usize & TRUNCATE == 0) by (bit_vector);
        assert(root.inode()@ == root_view(*fs));
        assert(path@ == parse_spec(decode_utf8(link_bytes(*old(fs), inode@)))->Ok_0);
    }
    let r = root.open_fuel(fs, path, mode, Ghost((fuel - 1) as nat));
    proof {
        let c = root.inode().chain.chain@;
        lemma_open_rel_weaken(*old(fs), *fs, root_view(*old(fs)), c, path@, mode, r, (fuel - 1) as nat);
    }
    return r;
}

/// Opens the file `inode`, found in a directory and not a link to follow: an
/// error when its kind is not the one `dir_flag` asks for; `.` and `..` are
/// realized first.
fn open_found(inode: Inode, fs: &Fat32FS, mode: usize, dir_flag: bool) -> (r: Result<FileInner, ErrNo>)
    requires
        fs.wf(),
        !((dir_flag && !view_is_dir(inode@)) || (!dir_flag && view_is_dir(inode@))) ==> (
        view_is_fake(inode@) ==> realize_ok(*fs, inode@)),
    ensures
        dir_flag && !view_is_dir(inode@) ==> r == Err::<FileInner, ErrNo>(ErrNo::NotADirectory),
        !dir_flag && view_is_dir(inode@) ==> r == Err::<FileInner, ErrNo>(ErrNo::IsADirectory),
        !((dir_flag && !view_is_dir(inode@)) || (!dir_flag && view_is_dir(inode@))) ==> {
            &&& r is Ok
            &&& r->Ok_0.inode()@ == opened_view(
                if view_is_fake(inode@) {
                    realized(*fs, inode@)
                } else {
                    inode@
                },
                mode,
            )
            &&& r->Ok_0.cursor() == 0
            &&& r->Ok_0.mode() == mode
        },
{
    let mut inode = inode;
    if dir_flag && !inode.is_dir() {
        return Err(ErrNo::NotADirectory);
    }
    if !dir_flag && inode.is_dir() {
        return Err(ErrNo::IsADirectory);
    }
    if inode.is_fake() {
        inode = inode.realize(fs).unwrap();
    }
    proof {
        lemma_opened_view(inode, mode);
    }
    return Ok(FileInner::new(inode, mode));
}

/// Makes `name` in directory `parent` (a directory when `dir_flag`) and opens it
/// with `mode`.
fn open_create(parent: &mut Inode, fs: &mut Fat32FS, name: &String, mode: usize, dir_flag: bool) -> (r:
    Result<FileInner, ErrNo>)
    requires
        old(fs).wf(),
        if dir_flag {
            new_dir_ok(*old(fs), old(parent)@, name@)
        } else {
            new_file_ok(*old(fs), old(parent)@, name@)
        },
    ensures
        exists|ri: Result<Inode, ErrNo>|
            #[trigger] opened_from(ri, r, mode) && made_result(
                *old(fs),
                *final(fs),
                old(parent)@,
                Some(final(parent).chain.chain@),
                name@,
                dir_flag,
                ri,
            ),
        final(parent).name@ == old(parent).name@,
        final(parent).path@ == old(parent).path@,
        final(parent).group == old(parent).group,
{
    let ri = if dir_flag {
        parent.new_dir(fs, name.as_str(), 0)
    } else {
        parent.new_file(fs, name.as_str(), 0)
    };
    let r = match ri {
        Ok(inode) => {
            proof {
                lemma_opened_view(inode, mode);
            }
            Ok(FileInner::new(inode, mode))
        },
        Err(e) => Err(e),
    };
    proof {
        assert(opened_from(ri, r, mode));
    }
    return r;
}

/// Opens `name` in directory `parent` with `mode` (see `open_d_rel`), following
/// at most `fuel` links.
fn open_d(
    parent: &mut Inode,
    fs: &mut Fat32FS,
    name: &String,
    mode: usize,
    dir_flag: bool,
    no_follow: bool,
    Ghost(fuel): Ghost<nat>,
) -> (r: Result<FileInner, ErrNo>)
    requires
        old(fs).wf(),
        dir_flag == (mode & DIR != 0),
        no_follow == (mode & NO_FOLLOW != 0),
        open_d_ok(*old(fs), old(parent)@, name@, mode, fuel),
    ensures
        open_d_rel(*old(fs), *final(fs), old(parent)@, Some(final(parent).chain.chain@), name@, mode, r, fuel),
        final(parent).name@ == old(parent).name@,
        final(parent).path@ == old(parent).path@,
        final(parent).group == old(parent).group,
    decreases fuel, 1nat,
{
    match parent.find_inode(fs, name.as_str()) {
        Ok(inode) => {
            proof {
                lemma_group_fields(inode.group, inode@.exts, inode@.entry);
            }
            if inode.is_slink() && !no_follow {
                return open_link(&inode, fs, mode, Ghost(fuel));
            }
            return open_found(inode, fs, mode, dir_flag);
        },
        Err(_) => {
            if mode & CREATE != 0 {
                return open_create(parent, fs, name, mode, dir_flag);
            } else {
                return Err(ErrNo::NoSuchFileOrDirectory);
            }
        },
    }
}

/// The entry with its start set as `set_start` sets it.
pub open spec fn start_set(e: DirEntryRaw, start: u32) -> DirEntryRaw {
    DirEntryRaw { start_h: (start / 65536) as u16, start_l: (start % 65536) as u16, ..e }
}

/// The first steps of `close` on a regular file, from `fs0` and inode `i0` to
/// `fs1` and `i1`: an entry that has no start yet gets the chain's first cluster,
/// and the chain is cut to the clusters that the size needs. A directory is left
/// as it is.
pub open spec fn close_prep(fs0: Fat32FS, fs1: Fat32FS, i0: Inode, i1: Inode) -> bool {
    if view_is_dir(i0@) {
        fs1 == fs0 && i1 == i0
    } else {
        let e0 = i0.group.entry;
        let c0 = i0.chain.chain@;
        let e1 = if e0.start_h * 65536 + e0.start_l == 0 && c0.len() != 0 {
            start_set(e0, c0[0])
        } else {
            e0
        };
        let clen = (e0.size + fs0.cs() - 1) / (fs0.cs() as int);
        &&& i1.name == i0.name
        &&& i1.path == i0.path
        &&& i1.group.exts == i0.group.exts
        &&& i1.group.offset == i0.group.offset
        &&& i1.group.slotsize == i0.group.slotsize
        &&& i1.group.entry == e1
        &&& fs1.wf()
        &&& fs1.dbr == fs0.dbr
        &&& fs1.clusters() == fs0.clusters()
        &&& c0.len() > clen > 0 ==> i1.chain.chain@ == c0.subrange(0, clen) && fs1.fat@ == super::freed(
            fs0.fat@,
            super::chain_from(fs0.fat@, c0[clen - 1], fs0.fat@.len()),
        ).update(c0[clen - 1] as int, super::EOC)
        &&& c0.len() > 0 && clen == 0 ==> i1.chain.chain@ == Seq::<u32>::empty() && fs1.fat@ == super::freed(
            fs0.fat@,
            super::chain_from(fs0.fat@, c0[0], fs0.fat@.len()),
        )
        &&& c0.len() <= clen ==> i1.chain.chain@ == c0 && fs1.fat@ == fs0.fat@
    }
}

/// `close` went from `fs0` and inode `i0` through `fs1` and `i1` (see
/// `close_prep`) to `fs2` and `i2`: the group was written into the directory that
/// holds the file, whose chain became `c`.
pub open spec fn close_step(
    fs0: Fat32FS,
    fs1: Fat32FS,
    fs2: Fat32FS,
    i0: Inode,
    i1: Inode,
    c: Seq<u32>,
    i2: Inode,
) -> bool {
    &&& close_prep(fs0, fs1, i0, i1)
    &&& group_written(fs1, fs2, parent_view(fs1, i1@).chain, c, i1.group, i2.group, Ok(()))
    &&& i2 == (Inode { group: i2.group, ..i1 })
}

/// `close` went from `fs0` and inode `i0` to `fs2` and `i2` in such steps.
pub open spec fn closed_as(fs0: Fat32FS, fs2: Fat32FS, i0: Inode, i2: Inode) -> bool {
    exists|fs1: Fat32FS, i1: Inode, c: Seq<u32>| #[trigger] close_step(fs0, fs1, fs2, i0, i1, c, i2)
}

/// After `close`, the first steps of another `close` (see `close_prep`) change
/// nothing: the entry already has its start cluster and the chain is already
/// cut to what the size needs.
pub proof fn lemma_close_prep_settled(
    fs0: Fat32FS,
    fs2: Fat32FS,
    i0: Inode,
    i2: Inode,
    fs3: Fat32FS,
    i3: Inode,
)
    requires
        fs0.wf(),
        !view_is_dir(i0@) ==> clusters_valid(fs0.fat@.len(), i0.chain.chain@),
        closed_as(fs0, fs2, i0, i2),
        close_prep(fs2, fs3, i2, i3),
    ensures
        fs3.dbr == fs2.dbr,
        fs3.fat@ == fs2.fat@,
        fs3.clusters() == fs2.clusters(),
        i3@ == i2@,
        i3.group.entry == i2.group.entry,
{
    let (fs1, i1, c) = choose|fs1: Fat32FS, i1: Inode, c: Seq<u32>| #[trigger] close_step(
        fs0,
        fs1,
        fs2,
        i0,
        i1,
        c,
        i2,
    );
    assert(close_step(fs0, fs1, fs2, i0, i1, c, i2));
    let e0 = i0.group.entry;
    let e2 = i2.group.entry;
    assert(e2 == i1.group.entry);
    assert(i2.chain == i1.chain);
    assert(fs2.dbr == fs1.dbr);
    assert(entry_bytes(e2)[11] == e2.attr);
    assert(entry_bytes(e0)[11] == e0.attr);
    assert(e2.attr == e0.attr);
    if view_is_dir(i0@) {
        assert(view_is_dir(i2@));
    } else {
        assert(!view_is_dir(i2@));
        let c0 = i0.chain.chain@;
        let clen = (e0.size + fs0.cs() - 1) / (fs0.cs() as int);
        assert(e2.size == e0.size);
        assert(fs2.cs() == fs0.cs());
        let c2 = i2.chain.chain@;
        assert(c2.len() <= clen);
        if e0.start_h * 65536 + e0.start_l == 0 && c0.len() != 0 {
            let st = c0[0];
            assert(2 <= st);
            assert(e2 == start_set(e0, st));
            assert(e2.start_h * 65536 + e2.start_l == st);
        }
        assert(e2.start_h * 65536 + e2.start_l == 0 ==> c2.len() == 0);
        assert(i3.group.entry == e2);
        assert(i3.chain.chain@ == c2);
    }
}

/// `close` can be done on file `f` of `fs`: a regular file's chain can be
/// read, and after the first steps the directory that holds the file can be
/// found, and its group written there.
pub open spec fn close_ok(fs0: Fat32FS, f: FileInner) -> bool {
    let i0 = f.inode();
    i0.name@.len() > 0 ==> {
        &&& !view_is_dir(i0@) ==> {
            &&& clusters_valid(fs0.fat@.len(), i0.chain.chain@)
            &&& i0.group.entry.size + fs0.cs() <= usize::MAX
        }
        &&& forall|fs1: Fat32FS, i1: Inode|
            #[trigger] close_prep(fs0, fs1, i0, i1) ==> {
                &&& parent_ok(fs1, i1@)
                &&& group_write_ok(fs1, parent_view(fs1, i1@).chain, i1.group)
            }
    }
}


/// What a read gives back of a write: once `FileInner::write` of `buf` at the
/// cursor `c` of a file returned `Ok(n)`, with `n > 0` and `c + n` below `2^32`
/// (the size keeps 32 bits), a read of the file from `c` (see `FileInner::read`)
/// into a buffer of `len` bytes succeeds with at least `min(n, len)` bytes, and
/// those are the first bytes of `buf`.
pub proof fn lemma_file_write_then_read(
    fs0: Fat32FS,
    fs1: Fat32FS,
    f0: FileInner,
    f1: FileInner,
    buf: Seq<u8>,
    n: usize,
    f2: FileInner,
    f3: FileInner,
    b0: Seq<u8>,
    b1: Seq<u8>,
    r: Result<usize, ErrNo>,
)
    requires
        fs0.wf(),
        file_written(fs0, fs1, f0, f1, buf, Ok(n)),
        n > 0,
        f0.cursor() + n < 0x1_0000_0000,
        f2.inode() == f1.inode(),
        f2.cursor() == f0.cursor(),
        file_read(fs1, f2, f3, b0, b1, r),
    ensures
        r is Ok,
        r->Ok_0 >= vstd::math::min(n as int, b0.len() as int),
        forall|i: int| 0 <= i < vstd::math::min(n as int, b0.len() as int) ==> #[trigger] b1[i] == buf[i],
{
    let c = f0.cursor();
    let c0 = f0.inode().chain.chain@;
    let c1 = f1.inode().chain.chain@;
    super::chain::lemma_write_then_read(fs0, fs1, c0, c1, f0.inode().chain.content(&fs0), c, buf, n);
    let cs = fs1.cs() as int;
    assert(fs1.dbr == fs0.dbr);
    assert(cs > 0);
    assert(chain_content(fs1.clusters(), c1).len() == c1.len() * fs0.cs());
    lemma_offset_past(c as int, cs, c1.len() as int);
    assert(f1.inode().group.entry.size >= c + n);
    assert forall|i: int| 0 <= i < vstd::math::min(n as int, b0.len() as int) implies #[trigger] b1[i] == buf[i] by {
        assert(b1[i] == f2.inode().chain.content(&fs1)[c + i]);
    }
}

} // verus!
