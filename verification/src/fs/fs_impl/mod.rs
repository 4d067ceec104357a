//! File system implementations.
pub mod fat32;
pub mod cache_mgr;
pub mod vfs;
pub mod utils;
pub mod fat32_wrapper;

pub use vfs::OpenMode;
