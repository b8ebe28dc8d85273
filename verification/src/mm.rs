//! Memory management: typed addresses, the frame pool, translation tables and
//! per-task address spaces.

pub mod address;
pub mod frame_allocator;
pub mod page_table;
pub mod memory_set;
pub mod image;
