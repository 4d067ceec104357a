//! File system logic.
pub mod path;
pub mod file;
pub mod block_cache;
pub mod fat;
pub mod fs_impl;
pub mod pipe;
pub mod mount_manager;

pub use path::{parse_path, to_string, Path, PathFormatError};
pub use file::{FileType, SeekOp};
