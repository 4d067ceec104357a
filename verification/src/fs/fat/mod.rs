//! FAT32 metadata kept outside the allocation table.
pub mod fsinfo;
