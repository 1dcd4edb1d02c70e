//! Compiling the execution IR, and what compiled code calls back into.

pub mod compiler;
pub mod ffi_laws;
pub mod ffi_support;
