//! Virtual-memory core of a small Sv39 kernel: frame allocation, page tables
//! and segment-based address spaces, over an explicit model of physical memory.

pub mod address;
pub mod bits;
pub mod config;
pub mod error;
pub mod frame;
pub mod mapping;
pub mod memory;
pub mod process;
pub mod range;
