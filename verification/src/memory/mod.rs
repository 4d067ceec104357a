//! Memory management: addresses, page table entries, the frame allocator and
//! user buffers.
pub mod addresses;
pub mod pagetable;
pub mod frame_alloc;
pub mod userbuffer;
pub mod layout;

pub use addresses::{PhysAddr, PhysPageNum, VirtAddr, VirtPageNum};
pub use pagetable::{PTEFlags, PageTable, PageTableEntry};
pub use userbuffer::{UserBuffer, UserBufferIter};
