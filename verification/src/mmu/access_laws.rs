//! What loads and stores do, said of the host bytes that addresses are mapped to.

use vstd::prelude::*;
use crate::host_memory::HostMemory;
use crate::le;
use crate::mmu::laws;
use crate::mmu::{MemoryFault, PageFlags, MMU};
use crate::paging;
use crate::vaddr;
use crate::vaddr::VAddr;

verus! {

/// The page of the address `x` has the flag `flag`.
pub open spec fn grants<A: VAddr>(mmu: MMU<A>, x: nat, flag: u8) -> bool {
    let p = x / (A::PAGE_SIZE as nat);
    p < mmu.pages@.len() && mmu.pages@[p as int].page_flags.bits & flag == flag
}

/// The pages of all addresses of `a .. a + len` have the flag `flag`.
pub open spec fn grants_all<A: VAddr>(mmu: MMU<A>, a: nat, len: nat, flag: u8) -> bool {
    forall|x: nat| a <= x < a + len ==> #[trigger] grants(mmu, x, flag)
}

/// Where in host memory the byte at the address `x` is.
pub open spec fn backing<A: VAddr>(mmu: MMU<A>, x: nat) -> int {
    mmu.pages@[(x / (A::PAGE_SIZE as nat)) as int].ptr->0 + x % (A::PAGE_SIZE as nat)
}

/// The number that the `len` bytes from the address `a` on spell, lowest byte first.
pub open spec fn spelled<A: VAddr>(mmu: MMU<A>, host: Seq<u8>, a: nat, len: nat) -> nat
    decreases len,
{
    if len == 0 {
        0
    } else {
        host[backing(mmu, a)] as nat + 256 * spelled(mmu, host, a + 1, (len - 1) as nat)
    }
}

/// No host byte has changed but those that `a .. a + len` is mapped to.
pub open spec fn rest_is_kept<A: VAddr>(
    mmu: MMU<A>,
    before: Seq<u8>,
    after: Seq<u8>,
    a: nat,
    len: nat,
) -> bool {
    &&& after.len() == before.len()
    &&& forall|h: int|
        0 <= h < before.len() && (forall|x: nat|
            a <= x < a + len ==> #[trigger] backing(mmu, x) != h) ==> #[trigger] after[h] == before[h]
}

/// Page `p` holds an address of `a .. a + len`.
pub open spec fn touched<A: VAddr>(p: int, a: nat, len: nat) -> bool {
    exists|x: nat| a <= x < a + len && #[trigger] (x / (A::PAGE_SIZE as nat)) == p
}

/// Every page is mapped to where it was and has the flags that it had, but for the pages of
/// `a .. a + len` that may be executed: they are marked.
pub open spec fn executable_pages_are_marked<A: VAddr>(
    before: MMU<A>,
    after: MMU<A>,
    a: nat,
    len: nat,
) -> bool {
    &&& after.pages@.len() == before.pages@.len()
    &&& forall|p: int|
        0 <= p < before.pages@.len() ==> {
            let bits = before.pages@[p].page_flags.bits;
            &&& (#[trigger] after.pages@[p]).ptr == before.pages@[p].ptr
            &&& after.pages@[p].page_flags.bits == if touched::<A>(p, a, len) && bits & 4 == 4 {
                bits | 8
            } else {
                bits
            }
        }
}

pub(crate) proof fn lemma_grants<A: VAddr>(mmu: MMU<A>, a: nat, len: nat, flag: u8)
    ensures
        forall|x: nat| #[trigger] grants(mmu, x, flag) == mmu.can_access(x, flag),
        grants_all(mmu, a, len, flag) == mmu.range_accessible(a, len, flag),
        forall|x: nat| #[trigger] backing(mmu, x) == mmu.host_addr(x),
{
    assert forall|x: nat| #[trigger] grants(mmu, x, flag) == mmu.can_access(x, flag) by {}
    if grants_all(mmu, a, len, flag) {
        assert forall|x: nat| a <= x < a + len implies #[trigger] mmu.can_access(x, flag) by {
            assert(grants(mmu, x, flag));
        }
    }
}

pub(crate) proof fn lemma_spelled<A: VAddr>(mmu: MMU<A>, host: Seq<u8>, a: nat, len: nat)
    ensures
        spelled(mmu, host, a, len) == le::value_of(mmu.loaded(host, a, len)),
    decreases len,
{
    if len > 0 {
        lemma_spelled(mmu, host, a + 1, (len - 1) as nat);
        assert(mmu.loaded(host, a, len).drop_first() =~= mmu.loaded(
            host,
            a + 1,
            (len - 1) as nat,
        ));
    }
}

/// The pages of a range are those between its first and its last one.
pub(crate) proof fn lemma_touched<A: VAddr>(p: int, a: nat, len: nat)
    requires
        p >= 0,
    ensures
        touched::<A>(p, a, len) <==> len > 0 && MMU::<A>::page_of(a) <= p <= MMU::<A>::page_of(
            (a + len - 1) as nat,
        ),
{
    vaddr::lemma_page_size::<A>();
    let ps = A::PAGE_SIZE as nat;
    if touched::<A>(p, a, len) {
        let x = choose|x: nat| a <= x < a + len && #[trigger] (x / ps) == p;
        paging::lemma_page_order(a, x, ps);
        paging::lemma_page_order(x, (a + len - 1) as nat, ps);
    }
    if len > 0 && MMU::<A>::page_of(a) <= p <= MMU::<A>::page_of((a + len - 1) as nat) {
        let b = (a + len - 1) as nat;
        let q = p as nat;
        paging::lemma_page_parts(a, ps);
        paging::lemma_page_parts(b, ps);
        if a / ps == q {
            assert(a / ps == p);
        } else {
            paging::lemma_page_starts(a / ps, q, ps);
            if q < b / ps {
                paging::lemma_page_starts(q, b / ps, ps);
            }
            paging::lemma_page_of(q * ps, q, ps);
            assert((q * ps) / ps == p);
        }
    }
}

pub(crate) proof fn lemma_marked<A: VAddr>(before: MMU<A>, after: MMU<A>, a: nat, len: nat)
    requires
        after.pages@ == before.stored_pages(a, len),
    ensures
        executable_pages_are_marked(before, after, a, len),
{
    assert forall|p: int| 0 <= p < before.pages@.len() implies {
        let bits = before.pages@[p].page_flags.bits;
        &&& (#[trigger] after.pages@[p]).ptr == before.pages@[p].ptr
        &&& after.pages@[p].page_flags.bits == if touched::<A>(p, a, len) && bits & 4 == 4 {
            bits | 8
        } else {
            bits
        }
    } by {
        lemma_touched::<A>(p, a, len);
    }
}

/// What a store leaves in host memory.
pub(crate) proof fn lemma_stored<A: VAddr>(mmu: MMU<A>, host: Seq<u8>, a: nat, data: Seq<u8>)
    requires
        mmu.wf(),
        mmu.backed_by(host.len()),
        mmu.range_accessible(a, data.len(), PageFlags::WRITE),
    ensures
        rest_is_kept(mmu, host, mmu.stored(host, a, data), a, data.len()),
        laws::unaliased(mmu, a, data.len()) ==> mmu.loaded(
            mmu.stored(host, a, data),
            a,
            data.len(),
        ) == data,
        forall|i: int|
            0 <= i < data.len() && (forall|y: nat|
                a + i < y < a + data.len() ==> #[trigger] backing(mmu, y) != backing(
                    mmu,
                    (a + i) as nat,
                )) ==> mmu.stored(host, a, data)[#[trigger] backing(mmu, (a + i) as nat)] == data[i],
    decreases data.len(),
{
    let n = data.len();
    let stored = mmu.stored(host, a, data);
    mmu.lemma_range_backed(a, n, PageFlags::WRITE, host.len());
    laws::lemma_stored_at(mmu, host, a, data);
    lemma_grants(mmu, a, n, PageFlags::WRITE);
    assert forall|h: int|
        0 <= h < host.len() && (forall|x: nat|
            a <= x < a + n ==> #[trigger] backing(mmu, x) != h) implies #[trigger] stored[h] == host[h] by {
        assert forall|x: nat| a <= x < a + n implies #[trigger] mmu.host_addr(x) != h by {
            assert(backing(mmu, x) != h);
        }
    }
    if laws::unaliased(mmu, a, n) {
        let read = mmu.loaded(stored, a, n);
        assert forall|i: int| 0 <= i < n implies read[i] == data[i] by {
            assert(stored[mmu.host_addr((a + i) as nat)] == data[i]);
        }
        assert(read =~= data);
    }
    if n > 0 {
        let rest = data.drop_last();
        let last = (a + n - 1) as nat;
        assert(mmu.range_accessible(a, rest.len(), PageFlags::WRITE));
        lemma_stored(mmu, host, a, rest);
        mmu.lemma_stored_len(host, a, rest);
        assert(0 <= mmu.host_addr(last) < host.len());
        assert forall|i: int|
            0 <= i < n && (forall|y: nat|
                a + i < y < a + n ==> #[trigger] backing(mmu, y) != backing(
                    mmu,
                    (a + i) as nat,
                )) implies stored[#[trigger] backing(mmu, (a + i) as nat)] == data[i] by {
            let x = (a + i) as nat;
            assert(backing(mmu, x) == mmu.host_addr(x));
            assert(0 <= mmu.host_addr(x) < host.len());
            if i < n - 1 {
                assert(backing(mmu, last) != backing(mmu, x));
                assert(mmu.stored(host, a, rest)[backing(mmu, x)] == rest[i]);
            }
        }
    }
}

/// What a store of a scalar leaves in host memory.
pub(crate) proof fn lemma_stored_scalar<A: VAddr>(
    mmu: MMU<A>,
    host: Seq<u8>,
    a: nat,
    value: nat,
    bytes: nat,
)
    requires
        mmu.wf(),
        mmu.backed_by(host.len()),
        mmu.range_accessible(a, bytes, PageFlags::WRITE),
        bytes <= 8,
        value < le::pow256(bytes),
    ensures
        ({
            let after = mmu.stored(host, a, le::bytes_of(value, bytes));
            &&& spelled(mmu, after, a, bytes) == value
            &&& rest_is_kept(mmu, host, after, a, bytes)
        }),
{
    vaddr::lemma_page_size::<A>();
    le::bytes_of_len(value, bytes);
    laws::short_ranges_are_unaliased(mmu, a, bytes, PageFlags::WRITE);
    lemma_stored(mmu, host, a, le::bytes_of(value, bytes));
    lemma_spelled(mmu, mmu.stored(host, a, le::bytes_of(value, bytes)), a, bytes);
    le::value_of_bytes_of(value, bytes);
}

/// A load succeeds exactly if the page of every address may be read, and then gives the host
/// bytes that the addresses are mapped to, in order. A load that fails gives nothing.
pub proof fn loads_copy_the_mapped_bytes<A: VAddr>(
    mmu: MMU<A>,
    host: HostMemory,
    vaddr: A,
    before: Seq<u8>,
    after: Seq<u8>,
    r: Result<(), MemoryFault>,
)
    requires
        mmu.wf(),
        mmu.backed_by(host@.len()),
        exists|mem: &mut [u8]|
            mem@ == before && final(mem)@ == after && #[trigger] call_ensures(
                MMU::<A>::load,
                (&mmu, &host, vaddr, mem),
                r,
            ),
    ensures
        r is Ok <==> grants_all(mmu, vaddr.as_nat(), before.len(), 1),
        after.len() == before.len(),
        r is Ok ==> forall|i: int|
            0 <= i < after.len() ==> #[trigger] after[i] == host@[backing(
                mmu,
                (vaddr.as_nat() + i) as nat,
            )],
        r is Err ==> after == before,
{
    lemma_grants(mmu, vaddr.as_nat(), before.len(), PageFlags::READ);
}

/// A store succeeds exactly if the page of every address may be written to. Then each address
/// is mapped to the byte that was stored to it, where no later address of the store is mapped
/// to the same byte, no other host byte has changed, and the pages that were written to are
/// marked where they may be executed. A store that fails changes nothing.
pub proof fn stores_write_the_mapped_bytes<A: VAddr>(
    before: MMU<A>,
    after: MMU<A>,
    memory: HostMemory,
    written: HostMemory,
    vaddr: A,
    mem: &[u8],
    r: Result<(), MemoryFault>,
)
    requires
        before.wf(),
        before.backed_by(memory@.len()),
        exists|mmu: &mut MMU<A>, host: &mut HostMemory|
            *mmu == before && *final(mmu) == after && *host == memory && *final(host) == written
                && #[trigger] call_ensures(MMU::<A>::store, (mmu, host, vaddr, mem), r),
    ensures
        after.wf(),
        after.backed_by(written@.len()),
        r is Ok <==> grants_all(before, vaddr.as_nat(), mem@.len(), 2),
        r is Ok ==> {
            let a = vaddr.as_nat();
            &&& forall|i: int|
                0 <= i < mem@.len() && (forall|y: nat|
                    a + i < y < a + mem@.len() ==> #[trigger] backing(before, y) != backing(
                        before,
                        (a + i) as nat,
                    )) ==> written@[#[trigger] backing(before, (a + i) as nat)] == mem@[i]
            &&& rest_is_kept(before, memory@, written@, a, mem@.len())
            &&& executable_pages_are_marked(before, after, a, mem@.len())
        },
        r is Err ==> written@ == memory@ && after.pages@ == before.pages@,
{
    let a = vaddr.as_nat();
    lemma_grants(before, a, mem@.len(), PageFlags::WRITE);
    if r is Ok {
        lemma_stored(before, memory@, a, mem@);
        lemma_marked(before, after, a, mem@.len());
    }
}

/// Any access may be asked for.
pub proof fn accesses_can_be_asked_for<A: VAddr>(
    mmu: &mut MMU<A>,
    host: &mut HostMemory,
    vaddr: A,
    mem: &mut [u8],
    data: &[u8],
    value: u64,
)
    requires
        old(mmu).wf(),
        old(mmu).backed_by(old(host)@.len()),
    ensures
        call_requires(MMU::<A>::load, (&*old(mmu), &*old(host), vaddr, mem)),
        call_requires(MMU::<A>::store, (mmu, host, vaddr, data)),
        call_requires(MMU::<A>::load64_le, (&*old(mmu), &*old(host), vaddr)),
        call_requires(MMU::<A>::load32_le, (&*old(mmu), &*old(host), vaddr)),
        call_requires(MMU::<A>::load16_le, (&*old(mmu), &*old(host), vaddr)),
        call_requires(MMU::<A>::load_byte, (&*old(mmu), &*old(host), vaddr)),
        call_requires(MMU::<A>::store64_le, (mmu, host, vaddr, value)),
        call_requires(MMU::<A>::store32_le, (mmu, host, vaddr, value as u32)),
        call_requires(MMU::<A>::store16_le, (mmu, host, vaddr, value as u16)),
        call_requires(MMU::<A>::store_byte, (mmu, host, vaddr, value as u8)),
{
}

/// A load of a `u64` succeeds exactly if the pages of all its eight addresses may be read, on
/// both sides of a page boundary, and then gives the number that the host bytes spell which
/// the addresses are mapped to, lowest byte first.
pub proof fn loads_of_u64_read_the_mapped_bytes<A: VAddr>(
    mmu: MMU<A>,
    host: HostMemory,
    vaddr: A,
    r: Result<u64, MemoryFault>,
)
    requires
        mmu.wf(),
        mmu.backed_by(host@.len()),
        call_ensures(MMU::<A>::load64_le, (&mmu, &host, vaddr), r),
    ensures
        r is Ok <==> grants_all(mmu, vaddr.as_nat(), 8, 1),
        r matches Ok(value) ==> value == spelled(mmu, host@, vaddr.as_nat(), 8),
{
    lemma_grants(mmu, vaddr.as_nat(), 8, PageFlags::READ);
    lemma_spelled(mmu, host@, vaddr.as_nat(), 8);
}

/// A store of a `u64` succeeds exactly if the pages of all its eight addresses may be written to,
/// on both sides of a page boundary. Then the host bytes that the addresses are mapped to
/// spell the number, lowest byte first, and no other host byte has changed.
pub proof fn stores_of_u64_write_the_mapped_bytes<A: VAddr>(
    before: MMU<A>,
    after: MMU<A>,
    memory: HostMemory,
    written: HostMemory,
    vaddr: A,
    value: u64,
    r: Result<(), MemoryFault>,
)
    requires
        before.wf(),
        before.backed_by(memory@.len()),
        exists|mmu: &mut MMU<A>, host: &mut HostMemory|
            *mmu == before && *final(mmu) == after && *host == memory && *final(host) == written
                && #[trigger] call_ensures(MMU::<A>::store64_le, (mmu, host, vaddr, value), r),
    ensures
        after.wf(),
        after.backed_by(written@.len()),
        r is Ok <==> grants_all(before, vaddr.as_nat(), 8, 2),
        r is Ok ==> {
            &&& spelled(before, written@, vaddr.as_nat(), 8) == value
            &&& rest_is_kept(before, memory@, written@, vaddr.as_nat(), 8)
            &&& executable_pages_are_marked(before, after, vaddr.as_nat(), 8)
        },
        r is Err ==> written@ == memory@ && after.pages@ == before.pages@,
{
    let a = vaddr.as_nat();
    lemma_grants(before, a, 8, PageFlags::WRITE);
    if r is Ok {
        le::pow256_values();
        lemma_stored_scalar(before, memory@, a, value as nat, 8);
        lemma_marked(before, after, a, 8);
    }
}

/// A load of a `u32` succeeds exactly if the pages of all its four addresses may be read, on
/// both sides of a page boundary, and then gives the number that the host bytes spell which
/// the addresses are mapped to, lowest byte first.
pub proof fn loads_of_u32_read_the_mapped_bytes<A: VAddr>(
    mmu: MMU<A>,
    host: HostMemory,
    vaddr: A,
    r: Result<u32, MemoryFault>,
)
    requires
        mmu.wf(),
        mmu.backed_by(host@.len()),
        call_ensures(MMU::<A>::load32_le, (&mmu, &host, vaddr), r),
    ensures
        r is Ok <==> grants_all(mmu, vaddr.as_nat(), 4, 1),
        r matches Ok(value) ==> value == spelled(mmu, host@, vaddr.as_nat(), 4),
{
    lemma_grants(mmu, vaddr.as_nat(), 4, PageFlags::READ);
    lemma_spelled(mmu, host@, vaddr.as_nat(), 4);
}

/// A store of a `u32` succeeds exactly if the pages of all its four addresses may be written to,
/// on both sides of a page boundary. Then the host bytes that the addresses are mapped to
/// spell the number, lowest byte first, and no other host byte has changed.
pub proof fn stores_of_u32_write_the_mapped_bytes<A: VAddr>(
    before: MMU<A>,
    after: MMU<A>,
    memory: HostMemory,
    written: HostMemory,
    vaddr: A,
    value: u32,
    r: Result<(), MemoryFault>,
)
    requires
        before.wf(),
        before.backed_by(memory@.len()),
        exists|mmu: &mut MMU<A>, host: &mut HostMemory|
            *mmu == before && *final(mmu) == after && *host == memory && *final(host) == written
                && #[trigger] call_ensures(MMU::<A>::store32_le, (mmu, host, vaddr, value), r),
    ensures
        after.wf(),
        after.backed_by(written@.len()),
        r is Ok <==> grants_all(before, vaddr.as_nat(), 4, 2),
        r is Ok ==> {
            &&& spelled(before, written@, vaddr.as_nat(), 4) == value
            &&& rest_is_kept(before, memory@, written@, vaddr.as_nat(), 4)
            &&& executable_pages_are_marked(before, after, vaddr.as_nat(), 4)
        },
        r is Err ==> written@ == memory@ && after.pages@ == before.pages@,
{
    let a = vaddr.as_nat();
    lemma_grants(before, a, 4, PageFlags::WRITE);
    if r is Ok {
        le::pow256_values();
        lemma_stored_scalar(before, memory@, a, value as nat, 4);
        lemma_marked(before, after, a, 4);
    }
}

/// A load of a `u16` succeeds exactly if the pages of all its two addresses may be read, on
/// both sides of a page boundary, and then gives the number that the host bytes spell which
/// the addresses are mapped to, lowest byte first.
pub proof fn loads_of_u16_read_the_mapped_bytes<A: VAddr>(
    mmu: MMU<A>,
    host: HostMemory,
    vaddr: A,
    r: Result<u16, MemoryFault>,
)
    requires
        mmu.wf(),
        mmu.backed_by(host@.len()),
        call_ensures(MMU::<A>::load16_le, (&mmu, &host, vaddr), r),
    ensures
        r is Ok <==> grants_all(mmu, vaddr.as_nat(), 2, 1),
        r matches Ok(value) ==> value == spelled(mmu, host@, vaddr.as_nat(), 2),
{
    lemma_grants(mmu, vaddr.as_nat(), 2, PageFlags::READ);
    lemma_spelled(mmu, host@, vaddr.as_nat(), 2);
}

/// A store of a `u16` succeeds exactly if the pages of all its two addresses may be written to,
/// on both sides of a page boundary. Then the host bytes that the addresses are mapped to
/// spell the number, lowest byte first, and no other host byte has changed.
pub proof fn stores_of_u16_write_the_mapped_bytes<A: VAddr>(
    before: MMU<A>,
    after: MMU<A>,
    memory: HostMemory,
    written: HostMemory,
    vaddr: A,
    value: u16,
    r: Result<(), MemoryFault>,
)
    requires
        before.wf(),
        before.backed_by(memory@.len()),
        exists|mmu: &mut MMU<A>, host: &mut HostMemory|
            *mmu == before && *final(mmu) == after && *host == memory && *final(host) == written
                && #[trigger] call_ensures(MMU::<A>::store16_le, (mmu, host, vaddr, value), r),
    ensures
        after.wf(),
        after.backed_by(written@.len()),
        r is Ok <==> grants_all(before, vaddr.as_nat(), 2, 2),
        r is Ok ==> {
            &&& spelled(before, written@, vaddr.as_nat(), 2) == value
            &&& rest_is_kept(before, memory@, written@, vaddr.as_nat(), 2)
            &&& executable_pages_are_marked(before, after, vaddr.as_nat(), 2)
        },
        r is Err ==> written@ == memory@ && after.pages@ == before.pages@,
{
    let a = vaddr.as_nat();
    lemma_grants(before, a, 2, PageFlags::WRITE);
    if r is Ok {
        le::pow256_values();
        lemma_stored_scalar(before, memory@, a, value as nat, 2);
        lemma_marked(before, after, a, 2);
    }
}

/// A load of a byte succeeds exactly if the page of its address may be read, and then gives
/// the host byte that the address is mapped to.
pub proof fn byte_loads_read_the_mapped_byte<A: VAddr>(
    mmu: MMU<A>,
    host: HostMemory,
    vaddr: A,
    r: Result<u8, MemoryFault>,
)
    requires
        mmu.wf(),
        mmu.backed_by(host@.len()),
        call_ensures(MMU::<A>::load_byte, (&mmu, &host, vaddr), r),
    ensures
        r is Ok <==> grants_all(mmu, vaddr.as_nat(), 1, 1),
        r matches Ok(value) ==> value == spelled(mmu, host@, vaddr.as_nat(), 1),
{
    lemma_grants(mmu, vaddr.as_nat(), 1, PageFlags::READ);
    lemma_spelled(mmu, host@, vaddr.as_nat(), 1);
    if r is Ok {
        assert(spelled(mmu, host@, vaddr.as_nat() + 1, 0) == 0);
    }
}

/// A store of a byte succeeds exactly if the page of its address may be written to, and then
/// puts it where the address is mapped to, and nowhere else.
pub proof fn byte_stores_write_the_mapped_byte<A: VAddr>(
    before: MMU<A>,
    after: MMU<A>,
    memory: HostMemory,
    written: HostMemory,
    vaddr: A,
    value: u8,
    r: Result<(), MemoryFault>,
)
    requires
        before.wf(),
        before.backed_by(memory@.len()),
        exists|mmu: &mut MMU<A>, host: &mut HostMemory|
            *mmu == before && *final(mmu) == after && *host == memory && *final(host) == written
                && #[trigger] call_ensures(MMU::<A>::store_byte, (mmu, host, vaddr, value), r),
    ensures
        after.wf(),
        after.backed_by(written@.len()),
        r is Ok <==> grants_all(before, vaddr.as_nat(), 1, 2),
        r is Ok ==> {
            &&& spelled(before, written@, vaddr.as_nat(), 1) == value
            &&& rest_is_kept(before, memory@, written@, vaddr.as_nat(), 1)
            &&& executable_pages_are_marked(before, after, vaddr.as_nat(), 1)
        },
        r is Err ==> written@ == memory@ && after.pages@ == before.pages@,
{
    let a = vaddr.as_nat();
    lemma_grants(before, a, 1, PageFlags::WRITE);
    if r is Ok {
        le::pow256_values();
        assert(le::bytes_of(value as nat, 1) =~= seq![value]) by {
            assert(le::bytes_of(value as nat / 256, 0) =~= Seq::empty());
        }
        lemma_stored_scalar(before, memory@, a, value as nat, 1);
        lemma_marked(before, after, a, 1);
    }
}

/// In fresh memory nothing is mapped: every access fails.
pub proof fn fresh_memory_faults<A: VAddr>(
    mmu: MMU<A>,
    host: HostMemory,
    vaddr: A,
    r: Result<u8, MemoryFault>,
)
    requires
        call_ensures(MMU::<A>::new, (), mmu) || call_ensures(MMU::<A>::default, (), mmu),
        call_ensures(MMU::<A>::load_byte, (&mmu, &host, vaddr), r),
    ensures
        mmu.pages@.len() == 0,
        mmu.wf(),
        mmu.backed_by(host@.len()),
        r is Err,
{
}

} // verus!
