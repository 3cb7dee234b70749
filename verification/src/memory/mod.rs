//! Sequential logic: components that hold state across clock ticks.
mod dff;
mod model;
mod pc;
mod ram;
mod register;

pub use dff::DFF;
pub use model::{memory_read_after_write, write_cell};
pub use pc::{pc_next, pc_priority, PC};
pub use ram::{RAM16K, RAM4K, RAM512, RAM64, RAM8};
pub use register::{pack_bits, Bit, Register};
