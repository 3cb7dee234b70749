//! Byte-level storage: slotted pages and the heap file built from them.
pub mod heap;
pub mod page;
