//! The FAT32 volume as one of the mounted file systems.
use vstd::prelude::*;
use super::fat32::Fat32FS;

verus! {

/// A mounted FAT32 file system.
pub struct Fat32W {
    pub inner: Fat32FS,
}

} // verus!
