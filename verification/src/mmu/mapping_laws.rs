//! What mapping, unmapping and protecting memory does to the page of an address.

use vstd::prelude::*;
use crate::mmu::laws;
use crate::mmu::{MemoryFault, MemoryProtections, MMU};
use crate::paging;
use crate::vaddr;
use crate::vaddr::VAddr;

verus! {

/// A region is mapped exactly if its first address, its size and its host pointer are multiples
/// of the page size and its end is an address, wherever in the address space it lies.
///
/// Then the address `x`, if it lies in the region, is backed by the byte of the host region
/// that is as far behind its start, with the permissions asked for. Other addresses are as
/// they were. A region that is not mapped changes nothing.
pub proof fn aligned_regions_are_mapped<A: VAddr>(
    before: MMU<A>,
    after: MMU<A>,
    base: A,
    ptr: usize,
    size: A,
    protections: MemoryProtections,
    r: Result<(), MemoryFault>,
    x: nat,
)
    requires
        before.wf(),
        ptr + size.as_nat() <= usize::MAX,
        exists|mmu: &mut MMU<A>|
            *mmu == before && *final(mmu) == after && #[trigger] call_ensures(
                MMU::<A>::map_memory,
                (mmu, base, ptr, size, protections),
                r,
            ),
    ensures
        after.wf(),
        r is Ok <==> {
            &&& base.as_nat() % (A::PAGE_SIZE as nat) == 0
            &&& size.as_nat() % (A::PAGE_SIZE as nat) == 0
            &&& ptr as nat % (A::PAGE_SIZE as nat) == 0
            &&& base.as_nat() + size.as_nat() <= A::max_nat()
        },
        r is Err ==> after.pages@ == before.pages@,
        // The table grows as far as it has to.
        r is Ok ==> after.pages@.len() == vstd::math::max(
            before.pages@.len() as int,
            (base.as_nat() + size.as_nat()) as int / (A::PAGE_SIZE as int),
        ),
        r is Ok ==> {
            let p = x / (A::PAGE_SIZE as nat);
            if base.as_nat() <= x < base.as_nat() + size.as_nat() {
                &&& p < after.pages@.len()
                &&& after.pages@[p as int].ptr is Some
                &&& after.pages@[p as int].ptr->0 + x % (A::PAGE_SIZE as nat) == ptr + (x
                    - base.as_nat())
                &&& after.pages@[p as int].page_flags.bits == protections.bits & 7
            } else if p < before.pages@.len() {
                &&& p < after.pages@.len()
                &&& after.pages@[p as int] == before.pages@[p as int]
            } else {
                p < after.pages@.len() ==> after.pages@[p as int].ptr is None
                    && after.pages@[p as int].page_flags.bits == 0
            }
        },
{
    vaddr::lemma_page_size::<A>();
    if r is Ok {
        laws::mapping_places_region(before, after, base, ptr, size, protections, x);
        laws::lemma_in_range::<A>(base, size, x);
        paging::lemma_page_parts(x, A::PAGE_SIZE as nat);
        paging::lemma_page_parts(base.as_nat(), A::PAGE_SIZE as nat);
        paging::lemma_aligned_sum(
            base.as_nat(),
            size.as_nat(),
            A::PAGE_SIZE as nat,
        );
    }
}

/// Any region may be asked for whose pages and whose host bytes can be counted.
pub proof fn regions_can_be_asked_for<A: VAddr>(
    mmu: &mut MMU<A>,
    base: A,
    ptr: usize,
    size: A,
    protections: MemoryProtections,
)
    requires
        old(mmu).wf(),
        (base.as_nat() + size.as_nat()) / (A::PAGE_SIZE as nat) <= usize::MAX,
        ptr + size.as_nat() <= usize::MAX,
    ensures
        call_requires(MMU::<A>::map_memory, (mmu, base, ptr, size, protections)),
        call_requires(MMU::<A>::unmap_memory, (mmu, base, size)),
        call_requires(MMU::<A>::mem_protect, (mmu, base, size, protections)),
{
}

/// A run of addresses is unmapped exactly if it starts and ends between pages and the table
/// reaches to its end. Then the pages of its addresses are gone, and the others are as they
/// were. A run that is not unmapped changes nothing.
pub proof fn whole_pages_are_unmapped<A: VAddr>(
    before: MMU<A>,
    after: MMU<A>,
    start: A,
    size: A,
    r: Result<(), MemoryFault>,
    x: nat,
)
    requires
        before.wf(),
        exists|mmu: &mut MMU<A>|
            *mmu == before && *final(mmu) == after && #[trigger] call_ensures(
                MMU::<A>::unmap_memory,
                (mmu, start, size),
                r,
            ),
    ensures
        after.wf(),
        after.pages@.len() == before.pages@.len(),
        r is Ok <==> {
            &&& start.as_nat() % (A::PAGE_SIZE as nat) == 0
            &&& size.as_nat() % (A::PAGE_SIZE as nat) == 0
            &&& (start.as_nat() + size.as_nat()) / (A::PAGE_SIZE as nat) <= before.pages@.len()
        },
        r is Err ==> after.pages@ == before.pages@,
        r is Ok && x / (A::PAGE_SIZE as nat) < before.pages@.len() ==> {
            let p = (x / (A::PAGE_SIZE as nat)) as int;
            if start.as_nat() <= x < start.as_nat() + size.as_nat() {
                after.pages@[p].ptr is None && after.pages@[p].page_flags.bits == 0
            } else {
                after.pages@[p] == before.pages@[p]
            }
        },
{
    if r is Ok {
        laws::lemma_in_range::<A>(start, size, x);
    }
}

/// Permissions are replaced exactly if the run starts and ends between pages, the table reaches
/// to its end and every page of it is mapped. Then its pages have the permissions asked for and
/// the bytes that they had, and the others are as they were. Otherwise nothing changes.
pub proof fn whole_mapped_pages_are_protected<A: VAddr>(
    before: MMU<A>,
    after: MMU<A>,
    start: A,
    size: A,
    protections: MemoryProtections,
    r: Result<(), MemoryFault>,
    x: nat,
)
    requires
        before.wf(),
        exists|mmu: &mut MMU<A>|
            *mmu == before && *final(mmu) == after && #[trigger] call_ensures(
                MMU::<A>::mem_protect,
                (mmu, start, size, protections),
                r,
            ),
    ensures
        after.wf(),
        after.pages@.len() == before.pages@.len(),
        r is Ok <==> {
            let first = start.as_nat() / (A::PAGE_SIZE as nat);
            let end = (start.as_nat() + size.as_nat()) / (A::PAGE_SIZE as nat);
            &&& start.as_nat() % (A::PAGE_SIZE as nat) == 0
            &&& size.as_nat() % (A::PAGE_SIZE as nat) == 0
            &&& end <= before.pages@.len()
            &&& forall|i: int| first <= i < end ==> (#[trigger] before.pages@[i]).ptr is Some
        },
        r is Err ==> after.pages@ == before.pages@,
        r is Ok && x / (A::PAGE_SIZE as nat) < before.pages@.len() ==> {
            let p = (x / (A::PAGE_SIZE as nat)) as int;
            if start.as_nat() <= x < start.as_nat() + size.as_nat() {
                after.pages@[p].ptr == before.pages@[p].ptr && after.pages@[p].page_flags.bits
                    == protections.bits & 7
            } else {
                after.pages@[p] == before.pages@[p]
            }
        },
{
    if r is Ok {
        laws::lemma_in_range::<A>(start, size, x);
    }
    if before.is_page_range(start, size) {
        let first = start.as_nat() / (A::PAGE_SIZE as nat);
        let end = (start.as_nat() + size.as_nat()) / (A::PAGE_SIZE as nat);
        assert forall|i: int| first <= i < end && before.range_mapped(start, size) implies (
        #[trigger] before.pages@[i]).ptr is Some by {
            assert(MMU::<A>::in_range(i, start, size));
        }
    }
}

/// The fault says that the access is invalid, and there is but one.
pub proof fn faults_say_that_the_access_is_invalid(fault: MemoryFault, text: &'static str)
    requires
        call_ensures(MemoryFault::fault, (), fault),
        call_ensures(MemoryFault::message, (&fault,), text),
    ensures
        text@ == "invalid memory access"@,
{
}

} // verus!
