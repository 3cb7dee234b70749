//! Query execution over a heap file.
pub mod scan;
