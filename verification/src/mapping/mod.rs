//! Page tables and the address spaces built from them.

pub mod mapping;
pub mod memory_set;
pub mod page_table;
pub mod page_table_entry;
pub mod segment;
pub mod translate;
pub mod walk;
