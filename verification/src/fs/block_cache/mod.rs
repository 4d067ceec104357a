//! Caches of the blocks of the boot device.
pub mod blkcache;

pub use blkcache::BlockCache;

use vstd::prelude::*;

verus! {

/// The size of a block in bytes.
pub const BLOCK_SZ: usize = 512;

} // verus!
