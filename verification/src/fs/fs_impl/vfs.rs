//! The flags with which a file system is asked to open a file.
use vstd::prelude::*;

verus! {

/// The flags of an open request, as bits.
#[derive(Clone, Copy, PartialEq, Eq, Structural, Debug)]
pub struct OpenMode {
    pub bits: u64,
}

#[allow(non_snake_case)]
impl OpenMode {
    /// Whether every flag of `other` is set.
    pub open spec fn has(self, other: OpenMode) -> bool {
        self.bits & other.bits == other.bits
    }

    /// Open for reading.
    pub fn READ() -> (r: Self)
        ensures
            r.bits == 1,
    {
        OpenMode { bits: 1 }
    }

    /// Open for writing.
    pub fn WRITE() -> (r: Self)
        ensures
            r.bits == 2,
    {
        OpenMode { bits: 2 }
    }

    /// Create the file when it is missing.
    pub fn CREATE() -> (r: Self)
        ensures
            r.bits == 4,
    {
        OpenMode { bits: 4 }
    }

    /// Open a directory.
    pub fn DIR() -> (r: Self)
        ensures
            r.bits == 8,
    {
        OpenMode { bits: 8 }
    }

    /// Do not follow a symbolic link.
    pub fn NO_FOLLOW() -> (r: Self)
        ensures
            r.bits == 16,
    {
        OpenMode { bits: 16 }
    }

    /// Cut the file to length zero.
    pub fn TRUNCATE() -> (r: Self)
        ensures
            r.bits == 32,
    {
        OpenMode { bits: 32 }
    }

    /// A request of the kernel itself: read, write, and no link is followed.
    pub fn SYS() -> (r: Self)
        ensures
            r.bits == 64,
    {
        OpenMode { bits: 64 }
    }

    /// No flag set.
    pub fn empty() -> (r: Self)
        ensures
            r.bits == 0,
    {
        OpenMode { bits: 0 }
    }

    /// The raw bits.
    pub fn bits(&self) -> (r: u64)
        ensures
            r == self.bits,
    {
        self.bits
    }

    /// Whether every flag of `other` is set in `self`.
    pub fn contains(&self, other: OpenMode) -> (r: bool)
        ensures
            r == self.has(other),
    {
        self.bits & other.bits == other.bits
    }

    /// The flags set in either.
    pub fn union(&self, other: OpenMode) -> (r: OpenMode)
        ensures
            r.bits == self.bits | other.bits,
    {
        OpenMode { bits: self.bits | other.bits }
    }
}

} // verus!
