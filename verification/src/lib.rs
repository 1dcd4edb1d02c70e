//! Building blocks of an ARM emulator: a page-mapped MMU over host memory, the
//! fabric that emulated cores share, the compiler front door and the passes of
//! the execution IR.

pub mod a64;
pub mod aligned_laws;
pub mod aligned_mmu;
pub mod armv9;
pub mod cpu_fabric;
pub mod decimal;
pub mod emu_abi;
pub mod exec_ir;
pub mod halt_reason;
pub mod host_memory;
pub mod io_mmu;
pub mod ir;
pub mod le;
pub mod mmu;
pub mod paging;
pub mod tear_mem_ops;
pub mod vaddr;
