//! Guest virtual addresses.

use vstd::prelude::*;
use crate::aligned_mmu;
use crate::host_memory::HostMemory;
use crate::mmu::{MemoryFault, MMU};

verus! {

/// An address type of an emulated CPU profile.
///
/// `as_nat` is the number that an address stands for. Addresses range over
/// `0 ..= max_nat()`, one address per number.
///
/// `PAGE_SIZE` is a power of two greater than or equal to 64.
pub trait VAddr: 'static + Send + Sync + Copy + Sized {
    const NULL: Self;

    const PAGE_SIZE: usize;

    const PAGE_SIZE_SELF: Self;

    type InsnWord;

    type ExclusiveMonitorLoadValue: Copy;

    spec fn as_nat(self) -> nat;

    spec fn max_nat() -> nat;

    /// The reservation bucket that an address belongs to.
    spec fn bucket(self) -> nat;

    proof fn page_size_facts()
        ensures
            Self::PAGE_SIZE >= 64,
            exists|k: nat| Self::PAGE_SIZE == vstd::arithmetic::power2::pow2(k),
            Self::PAGE_SIZE_SELF.as_nat() == Self::PAGE_SIZE,
            Self::NULL.as_nat() == 0,
    ;

    proof fn as_nat_facts(a: Self, b: Self)
        ensures
            a.as_nat() <= Self::max_nat(),
            a.as_nat() == b.as_nat() ==> a == b,
    ;

    proof fn bucket_facts(self)
        ensures
            self.bucket() < crate::cpu_fabric::BUCKET_COUNT,
    ;

    /// The address with the number `value`.
    fn from_u8(value: u8) -> (r: Self)
        ensures
            r.as_nat() == value,
    ;

    fn reservation_index(self) -> (r: usize)
        ensures
            r == self.bucket(),
            r < crate::cpu_fabric::BUCKET_COUNT,
    ;

    fn same_address(self, other: Self) -> (r: bool)
        ensures
            r == (self == other),
    ;

    fn add_addr(self, other: Self) -> (r: Option<Self>)
        ensures
            match r {
                Some(sum) => sum.as_nat() == self.as_nat() + other.as_nat(),
                None => self.as_nat() + other.as_nat() > Self::max_nat(),
            },
    ;

    fn add_offset(self, other: usize) -> (r: Option<Self>)
        ensures
            match r {
                Some(sum) => sum.as_nat() == self.as_nat() + other,
                None => self.as_nat() + other > Self::max_nat(),
            },
    ;

    fn inc(self) -> (r: Option<Self>)
        ensures
            match r {
                Some(sum) => sum.as_nat() == self.as_nat() + 1,
                None => self.as_nat() == Self::max_nat(),
            },
    {
        proof {
            Self::as_nat_facts(self, self);
        }
        self.add_addr(Self::from_u8(1))
    }

    fn is_multiple_of(self, other: Self) -> (r: bool)
        ensures
            r == if other.as_nat() == 0 {
                self.as_nat() == 0
            } else {
                self.as_nat() % other.as_nat() == 0
            },
    ;

    fn is_page_aligned(self) -> (r: bool)
        ensures
            r == (self.as_nat() % (Self::PAGE_SIZE as nat) == 0),
    {
        proof {
            Self::page_size_facts();
        }
        self.is_multiple_of(Self::PAGE_SIZE_SELF)
    }

    fn try_to_usize(self) -> (r: Option<usize>)
        ensures
            match r {
                Some(value) => value == self.as_nat(),
                None => self.as_nat() > usize::MAX,
            },
    ;

    fn div_rem_page_size(self) -> (r: (Self, usize))
        ensures
            r.0.as_nat() == self.as_nat() / (Self::PAGE_SIZE as nat),
            r.1 == self.as_nat() % (Self::PAGE_SIZE as nat),
    ;

    /// The page number of a page-aligned address.
    fn div_page_size_unchecked(self) -> (r: Self)
        requires
            self.as_nat() % (Self::PAGE_SIZE as nat) == 0,
        ensures
            r.as_nat() == self.as_nat() / (Self::PAGE_SIZE as nat),
    ;
}

/// An address type whose profile says how instructions are fetched.
pub trait InsnFetch: VAddr {
    /// What an instruction fetch through `mmu` over the host bytes gives.
    spec fn fetched(self, mmu: MMU<Self>, host: Seq<u8>) -> Result<Self::InsnWord, MemoryFault>;

    /// What an instruction fetch through an aligned-only `mmu` gives.
    spec fn fetched_aligned(
        self,
        mmu: aligned_mmu::MMU<Self>,
        host: Seq<u8>,
    ) -> Result<Self::InsnWord, MemoryFault>;

    fn fetch_insn_word(self, mmu: &MMU<Self>, host: &HostMemory) -> (r: Result<
        Self::InsnWord,
        MemoryFault,
    >)
        requires
            mmu.wf(),
            mmu.backed_by(host@.len()),
        ensures
            r == self.fetched(*mmu, host@),
    ;

    fn fetch_aligned_insn_word(self, mmu: &aligned_mmu::MMU<Self>, host: &HostMemory) -> (r: Result<
        Self::InsnWord,
        MemoryFault,
    >)
        requires
            mmu.wf(),
            mmu.backed_by(host@.len()),
        ensures
            r == self.fetched_aligned(*mmu, host@),
    ;
}

/// Every page size is a multiple of eight, the widest scalar.
pub proof fn lemma_page_size<A: VAddr>()
    ensures
        A::PAGE_SIZE >= 64,
        A::PAGE_SIZE % 8 == 0,
{
    A::page_size_facts();
    let k = choose|k: nat| A::PAGE_SIZE == vstd::arithmetic::power2::pow2(k);
    vstd::arithmetic::power2::lemma2_to64();
    if k < 6 {
        vstd::arithmetic::power2::lemma_pow2_strictly_increases(k, 6);
    }
    vstd::arithmetic::power2::lemma_pow2_adds(3, (k - 3) as nat);
    let q = vstd::arithmetic::power2::pow2((k - 3) as nat);
    assert((8 * q) % 8 == 0);
}

/// The host's pointer width leaves room for a small access behind a page: a power of two
/// is at most half of what a pointer can count to.
pub proof fn lemma_page_leaves_room<A: VAddr>()
    ensures
        A::PAGE_SIZE + u8::MAX <= usize::MAX,
{
    A::page_size_facts();
    let k = choose|k: nat| A::PAGE_SIZE == vstd::arithmetic::power2::pow2(k);
    vstd::arithmetic::power2::lemma2_to64();
    vstd::arithmetic::power2::lemma2_to64_rest();
    let bits = usize::BITS as nat;
    assert(vstd::arithmetic::power2::pow2(bits) == usize::MAX + 1);
    if k >= bits {
        if k > bits {
            vstd::arithmetic::power2::lemma_pow2_strictly_increases(bits, k);
        }
    } else if k < bits - 1 {
        vstd::arithmetic::power2::lemma_pow2_strictly_increases(k, (bits - 1) as nat);
    }
    vstd::arithmetic::power2::lemma_pow2_unfold(bits);
}

} // verus!
