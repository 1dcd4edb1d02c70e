//! Instruction caches that have to be told of changed code.

use vstd::prelude::*;
use crate::emu_abi::memory::PagePointer;

verus! {

/// An instruction cache.
pub trait ICache: 'static + Send + Sync {
    /// Forgets what was decoded from `page`.
    fn invalidate(&self, page: PagePointer);
}

} // verus!
