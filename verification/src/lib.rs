pub mod arithmetic;
pub mod db;
pub mod gates;
pub mod instruction;
pub mod memory;
pub mod text;
pub mod memory_lab;
