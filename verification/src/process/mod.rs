//! Error numbers returned by kernel services.
use vstd::prelude::*;

verus! {

/// Error numbers of the kernel's file services.
#[derive(Clone, Copy, PartialEq, Eq, Structural, Debug)]
pub enum ErrNo {
    InvalidArgument,
    NotADirectory,
    PermissionDenied,
    NoSuchFileOrDirectory,
    IllegalSeek,
    FileExists,
    Fat32FakeInode,
    IsADirectory,
    Fat32EntryShortRead,
    BadFileDescriptor,
    NotSuchDevice,
    FileNameTooLong,
    Fat32NoMoreEntry,
    Fat32InvalidOffset,
    DirectoryNotEmpty,
    CrossdeviceLink,
}

} // verus!
