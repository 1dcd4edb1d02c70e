//! The 64-bit ARM profile.

pub mod cpu_core;
pub mod laws;

use vstd::prelude::*;
use crate::aligned_mmu;
use crate::cpu_fabric;
use crate::host_memory::HostMemory;
use crate::le;
use crate::mmu::{MemoryFault, PageFlags, MMU};
use crate::vaddr;
pub use crate::a64::cpu_core::Arm64CpuCore;

verus! {

/// The address type of the profile.
pub type VAddr = u64;

/// The page size of the profile.
pub const PAGE_SIZE: u64 = 4096;

/// What a load-exclusive read, by width.
#[derive(Clone, Copy, PartialEq, Eq, Structural, Debug, Hash)]
pub enum ExclusiveMonitorLoad {
    U8(u8),
    U16(u16),
    U32(u32),
    U64(u64),
}

/// The host's pointer-sized integer of the same value, if there is one.
pub fn u64_to_usize(value: u64) -> (r: Option<usize>)
    ensures
        match r {
            Some(same) => same == value,
            None => value > usize::MAX,
        },
{
    if value > usize::MAX as u64 {
        return None;
    }
    Some(value as usize)
}

/// Spreads the bits of an address over the whole word.
pub open spec fn mixed(a: u64) -> u64 {
    let x = a ^ (a >> 30);
    let x = x.wrapping_mul(0xbf58_476d_1ce4_e5b9);
    let x = x ^ (x >> 27);
    let x = x.wrapping_mul(0x94d0_49bb_1331_11eb);
    x ^ (x >> 31)
}

impl vaddr::VAddr for u64 {
    const NULL: u64 = 0;

    const PAGE_SIZE: usize = 4096;

    const PAGE_SIZE_SELF: u64 = 4096;

    type InsnWord = u32;

    type ExclusiveMonitorLoadValue = ExclusiveMonitorLoad;

    open spec fn as_nat(self) -> nat {
        self as nat
    }

    open spec fn max_nat() -> nat {
        u64::MAX as nat
    }

    open spec fn bucket(self) -> nat {
        mixed(self) as nat % (cpu_fabric::BUCKET_COUNT as nat)
    }

    proof fn page_size_facts() {
        vstd::arithmetic::power2::lemma2_to64();
        assert(Self::PAGE_SIZE == vstd::arithmetic::power2::pow2(12));
        assert(Self::PAGE_SIZE_SELF == 4096u64);
        assert(Self::NULL == 0u64);
    }

    proof fn as_nat_facts(a: Self, b: Self) {
    }

    proof fn bucket_facts(self) {
    }

    fn from_u8(value: u8) -> (r: Self) {
        value as u64
    }

    fn reservation_index(self) -> (r: usize) {
        let mut x: u64 = self;
        x = x ^ (x >> 30);
        x = x.wrapping_mul(0xbf58_476d_1ce4_e5b9);
        x = x ^ (x >> 27);
        x = x.wrapping_mul(0x94d0_49bb_1331_11eb);
        x = x ^ (x >> 31);
        let bucket_count: u16 = cpu_fabric::BUCKET_COUNT;
        let index: u16 = (x % bucket_count as u64) as u16;
        index as usize
    }

    fn same_address(self, other: Self) -> (r: bool) {
        self == other
    }

    fn add_addr(self, other: Self) -> (r: Option<Self>) {
        self.checked_add(other)
    }

    fn add_offset(self, other: usize) -> (r: Option<Self>) {
        self.checked_add(other as u64)
    }

    fn is_multiple_of(self, other: Self) -> (r: bool) {
        if other == 0 {
            self == 0
        } else {
            self % other == 0
        }
    }

    fn try_to_usize(self) -> (r: Option<usize>) {
        u64_to_usize(self)
    }

    fn div_rem_page_size(self) -> (r: (Self, usize)) {
        (self / PAGE_SIZE, (self % PAGE_SIZE) as usize)
    }

    fn div_page_size_unchecked(self) -> (r: Self) {
        self / PAGE_SIZE
    }
}

/// The constants of the profile's addresses.
pub proof fn address_constants()
    ensures
        <u64 as vaddr::VAddr>::PAGE_SIZE == PAGE_SIZE,
        <u64 as vaddr::VAddr>::PAGE_SIZE_SELF == PAGE_SIZE,
        <u64 as vaddr::VAddr>::NULL == 0,
{
    assert(<u64 as vaddr::VAddr>::PAGE_SIZE == 4096usize);
    assert(<u64 as vaddr::VAddr>::PAGE_SIZE_SELF == 4096u64);
    assert(<u64 as vaddr::VAddr>::NULL == 0u64);
}

/// Instructions are aligned words of executable pages.
impl vaddr::InsnFetch for u64 {
    open spec fn fetched(self, mmu: MMU<u64>, host: Seq<u8>) -> Result<u32, MemoryFault> {
        if self % 4 == 0 && mmu.can_access(self as nat, PageFlags::EXECUTE) {
            Ok(le::value_of(mmu.loaded(host, self as nat, 4)) as u32)
        } else {
            Err(MemoryFault)
        }
    }

    open spec fn fetched_aligned(self, mmu: aligned_mmu::MMU<u64>, host: Seq<u8>) -> Result<
        u32,
        MemoryFault,
    > {
        self.fetched(mmu.table, host)
    }

    fn fetch_insn_word(self, mmu: &MMU<u64>, host: &HostMemory) -> (r: Result<u32, MemoryFault>) {
        let (page, offset) = match mmu.single_page_aligned_access::<4>(self) {
            Ok(place) => place,
            Err(fault) => return Err(fault),
        };
        proof {
            aligned_mmu::MMU::<u64>::lemma_inside(self as nat, 4);
            mmu.lemma_small_range(self as nat, 4, PageFlags::EXECUTE);
            assert(mmu.pages@[page as int].wf());
            assert(mmu.pages@[page as int].backed_by(host@.len()));
        }
        let word = mmu.pages[page].fetch32(host, offset);
        proof {
            if word is Ok {
                mmu.lemma_loaded_inside(host@, self as nat, 4, PageFlags::EXECUTE);
                assert(word->Ok_0 == le::value_of(mmu.loaded(host@, self as nat, 4)));
            } else {
                assert(word->Err_0 == MemoryFault);
            }
        }
        word
    }

    fn fetch_aligned_insn_word(self, mmu: &aligned_mmu::MMU<u64>, host: &HostMemory) -> (r: Result<
        u32,
        MemoryFault,
    >) {
        self.fetch_insn_word(&mmu.table, host)
    }
}

} // verus!
