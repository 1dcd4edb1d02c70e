//! Device-backed memory.

pub mod dma_async_flusher;
pub mod fault;
pub mod icache;
pub mod queue_laws;

use vstd::prelude::*;
use crate::mmu::MMU;

verus! {

/// The memory of a machine, and how often its mappings have changed.
pub struct IoMMU {
    pub mmu: MMU<u64>,
    /// Never zero: a lookup that was never made has the generation zero.
    pub generation: u64,
}

impl IoMMU {
    pub open spec fn wf(self) -> bool {
        self.mmu.wf() && self.generation > 0
    }

    /// The generation of the mappings.
    pub fn get_generation(&self) -> (r: u64)
        ensures
            r == self.generation,
    {
        self.generation
    }
}

} // verus!
