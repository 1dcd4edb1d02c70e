//! What compiled code and the emulator agree on.

pub mod exec_state;
pub mod internal_traits;
pub mod memory;
