//! A verified core of the OSHIT RISC-V kernel: address arithmetic, page table
//! entries, the physical frame allocator, user buffers, path parsing and the
//! FAT32 file system logic.
pub mod config;
pub mod memory;
pub mod drivers;
pub mod fs;
pub mod process;
mod strings;
pub mod text;
