//! A memory lab: a tiny addressable RAM and CPU, a bump arena, access
//! patterns over arrays and lists, the resident-set size a process status
//! text reports, and the text the lab prints.
pub mod access;
pub mod arena;
pub mod command;
pub mod format;
pub mod machine;
pub mod status;
