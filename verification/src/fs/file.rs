//! Kinds shared by the files of all file systems.
use vstd::prelude::*;

verus! {

/// Where a seek counts from, as in Linux: the start, the cursor, or the end.
#[derive(Clone, Copy, PartialEq, Eq, Structural, Debug)]
pub enum SeekOp {
    SET,
    CUR,
    END,
}

/// The type of a file.
#[derive(Clone, Copy, PartialEq, Eq, Structural, Debug)]
pub enum FileType {
    Unknown,
    FIFO,
    CharDev,
    Directory,
    BlockDev,
    Regular,
    Link,
    Sock,
}

/// The mode bits (as in `st_mode`) of each file type.
pub open spec fn file_type_bits(t: FileType) -> u32 {
    match t {
        FileType::Unknown => 0o000000,
        FileType::FIFO => 0o010000,
        FileType::CharDev => 0o020000,
        FileType::Directory => 0o040000,
        FileType::BlockDev => 0o060000,
        FileType::Regular => 0o100000,
        FileType::Link => 0o120000,
        FileType::Sock => 0o140000,
    }
}

impl FileType {
    /// The mode bits of the file type.
    pub fn bits(&self) -> (r: u32)
        ensures
            r == file_type_bits(*self),
    {
        match self {
            FileType::Unknown => 0o000000,
            FileType::FIFO => 0o010000,
            FileType::CharDev => 0o020000,
            FileType::Directory => 0o040000,
            FileType::BlockDev => 0o060000,
            FileType::Regular => 0o100000,
            FileType::Link => 0o120000,
            FileType::Sock => 0o140000,
        }
    }
}

/// The status of a file: access, size, name, type, mode and times, in the
/// shape of Linux's `stat`.
pub struct FileStatus {
    pub readable: bool,
    pub writeable: bool,
    pub size: u64,
    pub name: String,
    pub ftype: FileType,
    pub inode: u64,
    pub dev_no: u64,
    pub mode: u32,
    pub block_sz: u32,
    pub blocks: u64,
    pub uid: u32,
    pub gid: u32,
    pub atime_sec: u32,
    pub atime_nsec: u32,
    pub mtime_sec: u32,
    pub mtime_nsec: u32,
    pub ctime_sec: u32,
    pub ctime_nsec: u32,
}

} // verus!
