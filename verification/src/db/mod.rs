//! A small page-based storage engine: slotted pages, a heap file of pages,
//! record encoding, indexes and a sequential-scan executor.
pub mod bytes;
pub mod executor;
pub mod fixture;
pub mod index;
pub mod record;
pub mod report;
pub mod storage;
pub mod table;
