//! An open FAT32 file as the kernel's file interface sees it: user buffers and
//! a status.
use vstd::prelude::*;
use super::file::{FileInner, READ, WRITE};
use super::inode::view_is_dir;
use super::{clusters_valid, Fat32FS};
use crate::fs::file::{FileStatus, FileType};
use crate::fs::fs_impl::cache_mgr::BLOCK_SZ;
use crate::memory::UserBuffer;
use crate::process::ErrNo;

verus! {

/// An open file of a FAT32 volume.
pub struct FAT32File {
    pub inner: FileInner,
}

impl FAT32File {
    /// Whether the file is a directory, which lists and opens files.
    pub fn is_dir_file(&self) -> (r: bool)
        ensures
            r == view_is_dir(self.inner.inode()@),
    {
        self.inner.is_dir()
    }

    /// Reads from the cursor into `buffer` (see `FileInner::read`) through a
    /// zeroed copy of it, which then replaces the whole buffer: past the bytes
    /// read, and on an error, the buffer is zeroed.
    pub fn read_user_buffer(&mut self, fs: &Fat32FS, buffer: &mut UserBuffer) -> (r: Result<usize, ErrNo>)
        requires
            fs.wf(),
            old(buffer).wf(),
            clusters_valid(fs.fat@.len(), old(self).inner.inode().chain.chain@),
            !view_is_dir(old(self).inner.inode()@) && old(self).inner.mode() & READ != 0 ==> old(
                self,
            ).inner.cursor() <= old(self).inner.inode().group.entry.size,
        ensures
            final(buffer).wf(),
            final(buffer).bytes().len() == old(buffer).bytes().len(),
            view_is_dir(old(self).inner.inode()@) ==> r == Err::<usize, ErrNo>(ErrNo::IsADirectory),
            !view_is_dir(old(self).inner.inode()@) && old(self).inner.mode() & READ == 0 ==> r == Err::<
                usize,
                ErrNo,
            >(ErrNo::BadFileDescriptor),
            !view_is_dir(old(self).inner.inode()@) && old(self).inner.mode() & READ != 0 ==> {
                let c = old(self).inner.inode().chain;
                let cur = old(self).inner.cursor();
                let n = vstd::math::min(
                    old(self).inner.inode().group.entry.size - cur,
                    old(buffer).bytes().len() as int,
                );
                &&& (cur as nat) / fs.cs() >= c.chain@.len() ==> r == Err::<usize, ErrNo>(
                    ErrNo::Fat32InvalidOffset,
                )
                &&& (cur as nat) / fs.cs() < c.chain@.len() ==> r == Ok::<usize, ErrNo>(
                    vstd::math::min(n, c.chain@.len() * fs.cs() - cur) as usize,
                )
            },
            final(self).inner.inode() == old(self).inner.inode(),
            final(self).inner.mode() == old(self).inner.mode(),
            final(self).inner.cursor() == old(self).inner.cursor() + if r is Ok {
                r->Ok_0 as int
            } else {
                0
            },
            forall|i: int|
                0 <= i < old(buffer).bytes().len() ==> #[trigger] final(buffer).bytes()[i] == if r is Ok && i
                    < r->Ok_0 {
                    old(self).inner.inode().chain.content(fs)[old(self).inner.cursor() + i]
                } else {
                    0u8
                },
    {
        let len = buffer.len();
        let mut temp: Vec<u8> = Vec::new();
        let mut k: usize = 0;
        while k < len
            invariant
                k <= len,
                temp@.len() == k,
                forall|i: int| 0 <= i < k ==> temp@[i] == 0u8,
            decreases len - k,
        {
            temp.push(0u8);
            k = k + 1;
        }
        let ghost t0 = temp@;
        let res = self.inner.read(fs, temp.as_mut_slice());
        buffer.write_bytes(temp.as_slice(), 0);
        proof {
            assert(buffer.bytes() =~= temp@);
        }
        res
    }

    /// Writes the bytes of `buffer` at the cursor (see `FileInner::write`).
    pub fn write_user_buffer(&mut self, fs: &mut Fat32FS, buffer: &UserBuffer) -> (r: Result<usize, ErrNo>)
        requires
            old(fs).wf(),
            !view_is_dir(old(self).inner.inode()@) && old(self).inner.mode() & WRITE != 0 ==> {
                &&& super::chain::chain_ok(old(fs), old(self).inner.inode().chain.chain@)
                &&& super::free_count(old(fs).fat@, old(fs).fat@.len() as int) + old(
                    self,
                ).inner.inode().chain.chain@.len() >= super::chain::written_clusters(
                    old(self).inner.inode().chain.chain@.len(),
                    old(fs).cs(),
                    old(self).inner.cursor() as nat,
                    buffer.bytes().len(),
                )
                &&& old(self).inner.cursor() + buffer.bytes().len() <= usize::MAX
            },
        ensures
            view_is_dir(old(self).inner.inode()@) ==> r == Err::<usize, ErrNo>(ErrNo::IsADirectory)
                && final(self).inner == old(self).inner && *final(fs) == *old(fs),
            !view_is_dir(old(self).inner.inode()@) && old(self).inner.mode() & WRITE == 0 ==> r == Err::<
                usize,
                ErrNo,
            >(ErrNo::BadFileDescriptor) && final(self).inner == old(self).inner && *final(fs) == *old(fs),
            !view_is_dir(old(self).inner.inode()@) && old(self).inner.mode() & WRITE != 0 ==> {
                let i0 = old(self).inner.inode();
                let i1 = final(self).inner.inode();
                let n = if r is Ok {
                    r->Ok_0 as int
                } else {
                    0
                };
                &&& super::chain::chain_written(
                    *old(fs),
                    *final(fs),
                    i0.chain.chain@,
                    i1.chain.chain@,
                    i0.chain.content(old(fs)),
                    old(self).inner.cursor(),
                    buffer.bytes(),
                    r,
                )
                &&& final(self).inner.cursor() == old(self).inner.cursor() + n
                &&& final(self).inner.mode() == old(self).inner.mode()
            },
    {
        let temp = buffer.clone_bytes();
        self.inner.write(fs, temp.as_slice())
    }

    /// The status of the file: its access, size, name, type and mode from the
    /// open file, its times from its entry (kept to 32 bits), blocks of
    /// `BLOCK_SZ` bytes, and zero for the inode and device numbers and owners.
    pub fn poll(&self) -> (r: FileStatus)
        requires
            self.inner.inode().group.entry.accessed_sec * 86400 <= usize::MAX,
            self.inner.inode().group.entry.created_date * 86400 + self.inner.inode().group.entry.created_sec
                <= usize::MAX,
            self.inner.inode().group.entry.created_minisec * 1000000 <= usize::MAX,
        ensures
            r.readable == (self.inner.mode() & READ != 0),
            r.writeable == (self.inner.mode() & WRITE != 0),
            r.size == self.inner.inode().group.entry.size,
            r.name@ == self.inner.inode().name@,
            r.ftype == super::file::inode_file_type(self.inner.inode()),
            r.inode == 0,
            r.dev_no == 0,
            r.mode == self.inner.mode() as u32,
            r.block_sz == 512,
            r.blocks == self.inner.inode().group.entry.size / 512,
            r.uid == 0,
            r.gid == 0,
            r.atime_sec == (self.inner.inode().group.entry.accessed_sec * 86400) as u32,
            r.atime_nsec == 0,
            r.mtime_sec == (self.inner.inode().group.entry.created_date * 86400
                + self.inner.inode().group.entry.created_sec) as u32,
            r.mtime_nsec == (self.inner.inode().group.entry.created_minisec * 1000000) as u32,
            r.ctime_sec == r.mtime_sec,
            r.ctime_nsec == r.mtime_nsec,
    {
        let size = self.inner.size();
        let created = self.inner.create_time_sec() as u32;
        let created_nsec = self.inner.create_time_nsec() as u32;
        FileStatus {
            readable: self.inner.readable(),
            writeable: self.inner.writable(),
            size: size as u64,
            name: self.inner.name(),
            ftype: self.inner.ftype(),
            inode: 0,
            dev_no: 0,
            mode: self.inner.fmode() as u32,
            block_sz: BLOCK_SZ as u32,
            blocks: (size / BLOCK_SZ) as u64,
            uid: 0,
            gid: 0,
            atime_sec: self.inner.last_acc_time_sec() as u32,
            atime_nsec: 0,
            mtime_sec: created,
            mtime_nsec: created_nsec,
            ctime_sec: created,
            ctime_nsec: created_nsec,
        }
    }
}

} // verus!
