//! What memory does in which scalars have to be aligned, said of the host bytes that
//! addresses are mapped to.

use vstd::prelude::*;
use crate::aligned_mmu::MMU;
use crate::host_memory::HostMemory;
use crate::le;
use crate::mmu;
use crate::mmu::access_laws;
use crate::mmu::access_laws::{backing, grants, grants_all, rest_is_kept, spelled, touched};
use crate::mmu::laws;
use crate::mmu::{MemoryFault, MemoryProtections, PageFlags};
use crate::paging;
use crate::vaddr;
use crate::vaddr::VAddr;

verus! {

/// Every page is mapped to where it was and has the flags that it had; the pages of
/// `a .. a + len` are marked besides.
pub open spec fn pages_are_marked<A: VAddr>(
    before: MMU<A>,
    after: MMU<A>,
    a: nat,
    len: nat,
) -> bool {
    &&& after.table.pages@.len() == before.table.pages@.len()
    &&& forall|p: int|
        0 <= p < before.table.pages@.len() ==> {
            let bits = before.table.pages@[p].page_flags.bits;
            &&& (#[trigger] after.table.pages@[p]).ptr == before.table.pages@[p].ptr
            &&& after.table.pages@[p].page_flags.bits == if touched::<A>(p, a, len) {
                bits | 8
            } else {
                bits
            }
        }
}

proof fn lemma_marked<A: VAddr>(before: MMU<A>, after: MMU<A>, a: nat, len: nat)
    requires
        after.table.pages@ == before.dirtied(a, len),
    ensures
        pages_are_marked(before, after, a, len),
{
    assert forall|p: int| 0 <= p < before.table.pages@.len() implies {
        let bits = before.table.pages@[p].page_flags.bits;
        &&& (#[trigger] after.table.pages@[p]).ptr == before.table.pages@[p].ptr
        &&& after.table.pages@[p].page_flags.bits == if touched::<A>(p, a, len) {
            bits | 8
        } else {
            bits
        }
    } by {
        access_laws::lemma_touched::<A>(p, a, len);
    }
}

/// The addresses of an aligned scalar lie in the page of the first one.
proof fn lemma_aligned<A: VAddr>(table: mmu::MMU<A>, a: nat, bytes: nat, flag: u8)
    requires
        bytes == 1 || bytes == 2 || bytes == 4 || bytes == 8,
        a % bytes == 0,
    ensures
        table.range_accessible(a, bytes, flag) <==> grants(table, a, flag),
{
    MMU::<A>::lemma_inside(a, bytes);
    vaddr::lemma_page_size::<A>();
    table.lemma_small_range(a, bytes, flag);
}

/// A region is mapped exactly if its first address, its size and its host pointer are multiples
/// of the page size and its end is an address. Then the address `x`, if it lies in the region,
/// is backed by the byte of the host region that is as far behind its start, with the
/// permissions asked for. Other addresses are as they were.
pub proof fn aligned_regions_are_mapped<A: VAddr>(
    before: MMU<A>,
    after: MMU<A>,
    base: A,
    ptr: usize,
    size: A,
    protections: MemoryProtections,
    r: Result<(), MemoryFault>,
    x: nat,
)
    requires
        before.wf(),
        ptr + size.as_nat() <= usize::MAX,
        exists|mmu: &mut MMU<A>|
            *mmu == before && *final(mmu) == after && #[trigger] call_ensures(
                MMU::<A>::map_memory,
                (mmu, base, ptr, size, protections),
                r,
            ),
    ensures
        after.wf(),
        r is Ok <==> {
            &&& base.as_nat() % (A::PAGE_SIZE as nat) == 0
            &&& size.as_nat() % (A::PAGE_SIZE as nat) == 0
            &&& ptr as nat % (A::PAGE_SIZE as nat) == 0
            &&& base.as_nat() + size.as_nat() <= A::max_nat()
        },
        r is Err ==> after.table.pages@ == before.table.pages@,
        // The table grows as far as it has to.
        r is Ok ==> after.table.pages@.len() == vstd::math::max(
            before.table.pages@.len() as int,
            (base.as_nat() + size.as_nat()) as int / (A::PAGE_SIZE as int),
        ),
        r is Ok ==> {
            let p = x / (A::PAGE_SIZE as nat);
            if base.as_nat() <= x < base.as_nat() + size.as_nat() {
                &&& p < after.table.pages@.len()
                &&& after.table.pages@[p as int].ptr is Some
                &&& backing(after.table, x) == ptr + (x - base.as_nat())
                &&& after.table.pages@[p as int].page_flags.bits == protections.bits & 7
            } else if p < before.table.pages@.len() {
                &&& p < after.table.pages@.len()
                &&& after.table.pages@[p as int] == before.table.pages@[p as int]
            } else {
                p < after.table.pages@.len() ==> after.table.pages@[p as int].ptr is None
                    && after.table.pages@[p as int].page_flags.bits == 0
            }
        },
{
    vaddr::lemma_page_size::<A>();
    if r is Ok {
        laws::mapping_places_region(before.table, after.table, base, ptr, size, protections, x);
        laws::lemma_in_range::<A>(base, size, x);
        paging::lemma_page_parts(x, A::PAGE_SIZE as nat);
        paging::lemma_page_parts(base.as_nat(), A::PAGE_SIZE as nat);
        paging::lemma_aligned_sum(base.as_nat(), size.as_nat(), A::PAGE_SIZE as nat);
    }
}

/// Any access may be asked for.
pub proof fn accesses_can_be_asked_for<A: VAddr>(
    mmu: &mut MMU<A>,
    host: &mut HostMemory,
    vaddr: A,
    mem: &mut [u8],
    data: &[u8],
    value: u64,
)
    requires
        old(mmu).wf(),
        old(mmu).backed_by(old(host)@.len()),
    ensures
        call_requires(MMU::<A>::load, (&*old(mmu), &*old(host), vaddr, mem)),
        call_requires(MMU::<A>::store, (mmu, host, vaddr, data)),
        call_requires(MMU::<A>::load64, (&*old(mmu), &*old(host), vaddr)),
        call_requires(MMU::<A>::load32, (&*old(mmu), &*old(host), vaddr)),
        call_requires(MMU::<A>::load16, (&*old(mmu), &*old(host), vaddr)),
        call_requires(MMU::<A>::load8, (&*old(mmu), &*old(host), vaddr)),
        call_requires(MMU::<A>::store64, (mmu, host, vaddr, value)),
        call_requires(MMU::<A>::store32, (mmu, host, vaddr, value as u32)),
        call_requires(MMU::<A>::store16, (mmu, host, vaddr, value as u16)),
        call_requires(MMU::<A>::store8, (mmu, host, vaddr, value as u8)),
{
}

/// A load succeeds exactly if the page of every address may be read, and then gives the host
/// bytes that the addresses are mapped to, in order. A load that fails gives nothing.
pub proof fn loads_copy_the_mapped_bytes<A: VAddr>(
    mmu: MMU<A>,
    host: HostMemory,
    vaddr: A,
    before: Seq<u8>,
    after: Seq<u8>,
    r: Result<(), MemoryFault>,
)
    requires
        mmu.wf(),
        mmu.backed_by(host@.len()),
        exists|mem: &mut [u8]|
            mem@ == before && final(mem)@ == after && #[trigger] call_ensures(
                MMU::<A>::load,
                (&mmu, &host, vaddr, mem),
                r,
            ),
    ensures
        r is Ok <==> grants_all(mmu.table, vaddr.as_nat(), before.len(), 1),
        after.len() == before.len(),
        r is Ok ==> forall|i: int|
            0 <= i < after.len() ==> #[trigger] after[i] == host@[backing(
                mmu.table,
                (vaddr.as_nat() + i) as nat,
            )],
        r is Err ==> after == before,
{
    access_laws::lemma_grants(mmu.table, vaddr.as_nat(), before.len(), PageFlags::READ);
}

/// A store succeeds exactly if the page of every address may be written to. Then each address
/// is mapped to the byte that was stored to it, where no later address of the store is mapped
/// to the same byte, no other host byte has changed, and the pages that were written to are
/// marked. A store that fails changes nothing.
pub proof fn stores_write_the_mapped_bytes<A: VAddr>(
    before: MMU<A>,
    after: MMU<A>,
    memory: HostMemory,
    written: HostMemory,
    vaddr: A,
    mem: &[u8],
    r: Result<(), MemoryFault>,
)
    requires
        before.wf(),
        before.backed_by(memory@.len()),
        exists|mmu: &mut MMU<A>, host: &mut HostMemory|
            *mmu == before && *final(mmu) == after && *host == memory && *final(host) == written
                && #[trigger] call_ensures(MMU::<A>::store, (mmu, host, vaddr, mem), r),
    ensures
        after.wf(),
        after.backed_by(written@.len()),
        r is Ok <==> grants_all(before.table, vaddr.as_nat(), mem@.len(), 2),
        r is Ok ==> {
            let a = vaddr.as_nat();
            &&& forall|i: int|
                0 <= i < mem@.len() && (forall|y: nat|
                    a + i < y < a + mem@.len() ==> #[trigger] backing(before.table, y) != backing(
                        before.table,
                        (a + i) as nat,
                    )) ==> written@[#[trigger] backing(before.table, (a + i) as nat)] == mem@[i]
            &&& rest_is_kept(before.table, memory@, written@, a, mem@.len())
            &&& pages_are_marked(before, after, a, mem@.len())
        },
        r is Err ==> written@ == memory@ && after.table.pages@ == before.table.pages@,
{
    let a = vaddr.as_nat();
    access_laws::lemma_grants(before.table, a, mem@.len(), PageFlags::WRITE);
    if r is Ok {
        access_laws::lemma_stored(before.table, memory@, a, mem@);
        lemma_marked(before, after, a, mem@.len());
    }
}

/// A load of a `u64` succeeds exactly if its address is a multiple of 8 in a page that may be
/// read, and then gives the number that the host bytes spell which the addresses are mapped
/// to, lowest byte first.
pub proof fn loads_of_u64_read_the_mapped_bytes<A: VAddr>(
    mmu: MMU<A>,
    host: HostMemory,
    vaddr: A,
    r: Result<u64, MemoryFault>,
)
    requires
        mmu.wf(),
        mmu.backed_by(host@.len()),
        call_ensures(MMU::<A>::load64, (&mmu, &host, vaddr), r),
    ensures
        r is Ok <==> vaddr.as_nat() % 8 == 0 && grants(mmu.table, vaddr.as_nat(), 1),
        r matches Ok(value) ==> value == spelled(mmu.table, host@, vaddr.as_nat(), 8),
{
    access_laws::lemma_grants(mmu.table, vaddr.as_nat(), 8, PageFlags::READ);
    access_laws::lemma_spelled(mmu.table, host@, vaddr.as_nat(), 8);
    assert(grants(mmu.table, vaddr.as_nat(), 1) == mmu.table.can_access(vaddr.as_nat(), 1));
}

/// A store of a `u64` succeeds exactly if its address is a multiple of 8 in a page that may be
/// written to. Then the host bytes that the addresses are mapped to spell the number, lowest
/// byte first, no other one has changed, and the page is marked.
pub proof fn stores_of_u64_write_the_mapped_bytes<A: VAddr>(
    before: MMU<A>,
    after: MMU<A>,
    memory: HostMemory,
    written: HostMemory,
    vaddr: A,
    value: u64,
    r: Result<(), MemoryFault>,
)
    requires
        before.wf(),
        before.backed_by(memory@.len()),
        exists|mmu: &mut MMU<A>, host: &mut HostMemory|
            *mmu == before && *final(mmu) == after && *host == memory && *final(host) == written
                && #[trigger] call_ensures(MMU::<A>::store64, (mmu, host, vaddr, value), r),
    ensures
        after.wf(),
        after.backed_by(written@.len()),
        r is Ok <==> vaddr.as_nat() % 8 == 0 && grants(before.table, vaddr.as_nat(), 2),
        r is Ok ==> {
            &&& spelled(before.table, written@, vaddr.as_nat(), 8) == value
            &&& rest_is_kept(before.table, memory@, written@, vaddr.as_nat(), 8)
            &&& pages_are_marked(before, after, vaddr.as_nat(), 8)
        },
        r is Err ==> written@ == memory@ && after.table.pages@ == before.table.pages@,
{
    let a = vaddr.as_nat();
    access_laws::lemma_grants(before.table, a, 8, PageFlags::WRITE);
    assert(grants(before.table, a, 2) == before.table.can_access(a, 2));
    if r is Ok {
        le::pow256_values();
        lemma_aligned(before.table, a, 8, PageFlags::WRITE);
        access_laws::lemma_stored_scalar(before.table, memory@, a, value as nat, 8);
        lemma_marked(before, after, a, 8);
    }
}

/// A load of a `u32` succeeds exactly if its address is a multiple of 4 in a page that may be
/// read, and then gives the number that the host bytes spell which the addresses are mapped
/// to, lowest byte first.
pub proof fn loads_of_u32_read_the_mapped_bytes<A: VAddr>(
    mmu: MMU<A>,
    host: HostMemory,
    vaddr: A,
    r: Result<u32, MemoryFault>,
)
    requires
        mmu.wf(),
        mmu.backed_by(host@.len()),
        call_ensures(MMU::<A>::load32, (&mmu, &host, vaddr), r),
    ensures
        r is Ok <==> vaddr.as_nat() % 4 == 0 && grants(mmu.table, vaddr.as_nat(), 1),
        r matches Ok(value) ==> value == spelled(mmu.table, host@, vaddr.as_nat(), 4),
{
    access_laws::lemma_grants(mmu.table, vaddr.as_nat(), 4, PageFlags::READ);
    access_laws::lemma_spelled(mmu.table, host@, vaddr.as_nat(), 4);
    assert(grants(mmu.table, vaddr.as_nat(), 1) == mmu.table.can_access(vaddr.as_nat(), 1));
}

/// A store of a `u32` succeeds exactly if its address is a multiple of 4 in a page that may be
/// written to. Then the host bytes that the addresses are mapped to spell the number, lowest
/// byte first, no other one has changed, and the page is marked.
pub proof fn stores_of_u32_write_the_mapped_bytes<A: VAddr>(
    before: MMU<A>,
    after: MMU<A>,
    memory: HostMemory,
    written: HostMemory,
    vaddr: A,
    value: u32,
    r: Result<(), MemoryFault>,
)
    requires
        before.wf(),
        before.backed_by(memory@.len()),
        exists|mmu: &mut MMU<A>, host: &mut HostMemory|
            *mmu == before && *final(mmu) == after && *host == memory && *final(host) == written
                && #[trigger] call_ensures(MMU::<A>::store32, (mmu, host, vaddr, value), r),
    ensures
        after.wf(),
        after.backed_by(written@.len()),
        r is Ok <==> vaddr.as_nat() % 4 == 0 && grants(before.table, vaddr.as_nat(), 2),
        r is Ok ==> {
            &&& spelled(before.table, written@, vaddr.as_nat(), 4) == value
            &&& rest_is_kept(before.table, memory@, written@, vaddr.as_nat(), 4)
            &&& pages_are_marked(before, after, vaddr.as_nat(), 4)
        },
        r is Err ==> written@ == memory@ && after.table.pages@ == before.table.pages@,
{
    let a = vaddr.as_nat();
    access_laws::lemma_grants(before.table, a, 4, PageFlags::WRITE);
    assert(grants(before.table, a, 2) == before.table.can_access(a, 2));
    if r is Ok {
        le::pow256_values();
        lemma_aligned(before.table, a, 4, PageFlags::WRITE);
        access_laws::lemma_stored_scalar(before.table, memory@, a, value as nat, 4);
        lemma_marked(before, after, a, 4);
    }
}

/// A load of a `u16` succeeds exactly if its address is a multiple of 2 in a page that may be
/// read, and then gives the number that the host bytes spell which the addresses are mapped
/// to, lowest byte first.
pub proof fn loads_of_u16_read_the_mapped_bytes<A: VAddr>(
    mmu: MMU<A>,
    host: HostMemory,
    vaddr: A,
    r: Result<u16, MemoryFault>,
)
    requires
        mmu.wf(),
        mmu.backed_by(host@.len()),
        call_ensures(MMU::<A>::load16, (&mmu, &host, vaddr), r),
    ensures
        r is Ok <==> vaddr.as_nat() % 2 == 0 && grants(mmu.table, vaddr.as_nat(), 1),
        r matches Ok(value) ==> value == spelled(mmu.table, host@, vaddr.as_nat(), 2),
{
    access_laws::lemma_grants(mmu.table, vaddr.as_nat(), 2, PageFlags::READ);
    access_laws::lemma_spelled(mmu.table, host@, vaddr.as_nat(), 2);
    assert(grants(mmu.table, vaddr.as_nat(), 1) == mmu.table.can_access(vaddr.as_nat(), 1));
}

/// A store of a `u16` succeeds exactly if its address is a multiple of 2 in a page that may be
/// written to. Then the host bytes that the addresses are mapped to spell the number, lowest
/// byte first, no other one has changed, and the page is marked.
pub proof fn stores_of_u16_write_the_mapped_bytes<A: VAddr>(
    before: MMU<A>,
    after: MMU<A>,
    memory: HostMemory,
    written: HostMemory,
    vaddr: A,
    value: u16,
    r: Result<(), MemoryFault>,
)
    requires
        before.wf(),
        before.backed_by(memory@.len()),
        exists|mmu: &mut MMU<A>, host: &mut HostMemory|
            *mmu == before && *final(mmu) == after && *host == memory && *final(host) == written
                && #[trigger] call_ensures(MMU::<A>::store16, (mmu, host, vaddr, value), r),
    ensures
        after.wf(),
        after.backed_by(written@.len()),
        r is Ok <==> vaddr.as_nat() % 2 == 0 && grants(before.table, vaddr.as_nat(), 2),
        r is Ok ==> {
            &&& spelled(before.table, written@, vaddr.as_nat(), 2) == value
            &&& rest_is_kept(before.table, memory@, written@, vaddr.as_nat(), 2)
            &&& pages_are_marked(before, after, vaddr.as_nat(), 2)
        },
        r is Err ==> written@ == memory@ && after.table.pages@ == before.table.pages@,
{
    let a = vaddr.as_nat();
    access_laws::lemma_grants(before.table, a, 2, PageFlags::WRITE);
    assert(grants(before.table, a, 2) == before.table.can_access(a, 2));
    if r is Ok {
        le::pow256_values();
        lemma_aligned(before.table, a, 2, PageFlags::WRITE);
        access_laws::lemma_stored_scalar(before.table, memory@, a, value as nat, 2);
        lemma_marked(before, after, a, 2);
    }
}

/// A load of a byte succeeds exactly if the page of its address may be read, and then gives
/// the host byte that the address is mapped to.
pub proof fn loads_of_u8_read_the_mapped_bytes<A: VAddr>(
    mmu: MMU<A>,
    host: HostMemory,
    vaddr: A,
    r: Result<u8, MemoryFault>,
)
    requires
        mmu.wf(),
        mmu.backed_by(host@.len()),
        call_ensures(MMU::<A>::load8, (&mmu, &host, vaddr), r),
    ensures
        r is Ok <==> vaddr.as_nat() % 1 == 0 && grants(mmu.table, vaddr.as_nat(), 1),
        r matches Ok(value) ==> value == spelled(mmu.table, host@, vaddr.as_nat(), 1),
{
    access_laws::lemma_grants(mmu.table, vaddr.as_nat(), 1, PageFlags::READ);
    access_laws::lemma_spelled(mmu.table, host@, vaddr.as_nat(), 1);
    assert(grants(mmu.table, vaddr.as_nat(), 1) == mmu.table.can_access(vaddr.as_nat(), 1));
}

/// A store of a byte succeeds exactly if the page of its address may be written to. Then the
/// byte stands where the address is mapped to, no other one has changed, and the page is
/// marked.
pub proof fn stores_of_u8_write_the_mapped_bytes<A: VAddr>(
    before: MMU<A>,
    after: MMU<A>,
    memory: HostMemory,
    written: HostMemory,
    vaddr: A,
    value: u8,
    r: Result<(), MemoryFault>,
)
    requires
        before.wf(),
        before.backed_by(memory@.len()),
        exists|mmu: &mut MMU<A>, host: &mut HostMemory|
            *mmu == before && *final(mmu) == after && *host == memory && *final(host) == written
                && #[trigger] call_ensures(MMU::<A>::store8, (mmu, host, vaddr, value), r),
    ensures
        after.wf(),
        after.backed_by(written@.len()),
        r is Ok <==> vaddr.as_nat() % 1 == 0 && grants(before.table, vaddr.as_nat(), 2),
        r is Ok ==> {
            &&& spelled(before.table, written@, vaddr.as_nat(), 1) == value
            &&& rest_is_kept(before.table, memory@, written@, vaddr.as_nat(), 1)
            &&& pages_are_marked(before, after, vaddr.as_nat(), 1)
        },
        r is Err ==> written@ == memory@ && after.table.pages@ == before.table.pages@,
{
    let a = vaddr.as_nat();
    access_laws::lemma_grants(before.table, a, 1, PageFlags::WRITE);
    assert(grants(before.table, a, 2) == before.table.can_access(a, 2));
    if r is Ok {
        le::pow256_values();
        lemma_aligned(before.table, a, 1, PageFlags::WRITE);
        access_laws::lemma_stored_scalar(before.table, memory@, a, value as nat, 1);
        lemma_marked(before, after, a, 1);
    }
}

/// In fresh memory nothing is mapped: every access fails.
pub proof fn fresh_memory_faults<A: VAddr>(
    mmu: MMU<A>,
    host: HostMemory,
    vaddr: A,
    r: Result<u8, MemoryFault>,
)
    requires
        call_ensures(MMU::<A>::new, (), mmu) || call_ensures(MMU::<A>::default, (), mmu),
        call_ensures(MMU::<A>::load8, (&mmu, &host, vaddr), r),
    ensures
        mmu.table.pages@.len() == 0,
        mmu.wf(),
        mmu.backed_by(host@.len()),
        r is Err,
{
}

} // verus!
