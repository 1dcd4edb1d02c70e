//! What the accesses of compiled code do, said of the host bytes that addresses are mapped to
//! and of the entries of the cache of page lookups.

use vstd::prelude::*;
use crate::a64;
use crate::emu_abi::memory::{Tlb, TlbEntry};
use crate::exec_ir::ffi_support;
use crate::exec_ir::ffi_support::IoMmuStatus;
use crate::host_memory::HostMemory;
use crate::io_mmu::IoMMU;
use crate::le;
use crate::mmu::access_laws;
use crate::mmu::access_laws::{executable_pages_are_marked, grants_all, rest_is_kept, spelled};
use crate::mmu::laws;
use crate::mmu::{PageFlags, MMU};

verus! {

/// The entry holds the lookup of the page `p`.
pub open spec fn holds_lookup(entry: TlbEntry, io_mmu: IoMMU, p: nat) -> bool {
    &&& entry.generation == io_mmu.generation
    &&& entry.page_number.0 == p
    &&& entry.ptr == io_mmu.mmu.pages@[p as int].ptr
    &&& entry.page_flags == io_mmu.mmu.pages@[p as int].page_flags.bits
}

/// The lookups of the pages of `a .. a + len` were put into the cache, each into the entry that
/// the number of the page picks, the later one last. The other entries are as they were.
pub open spec fn lookups_are_cached(
    before: Seq<TlbEntry>,
    after: Seq<TlbEntry>,
    io_mmu: IoMMU,
    a: nat,
    len: nat,
) -> bool {
    let first = a / 4096;
    let last = (a + len - 1) as nat / 4096;
    &&& after.len() == before.len()
    &&& forall|i: int|
        0 <= i < before.len() ==> if i == last % before.len() {
            holds_lookup(#[trigger] after[i], io_mmu, last)
        } else if i == first % before.len() {
            holds_lookup(after[i], io_mmu, first)
        } else {
            after[i] == before[i]
        }
}

proof fn lemma_cached(
    tlb: Tlb,
    after: Seq<TlbEntry>,
    io_mmu: IoMMU,
    addr: u64,
    bytes: nat,
    required: u8,
)
    requires
        tlb.wf(),
        0 < bytes <= 8,
        io_mmu.mmu.range_accessible(addr as nat, bytes, required),
        after == ffi_support::remembered(
            tlb.entries@,
            io_mmu.generation,
            io_mmu.mmu.pages@,
            addr,
            bytes,
        ),
    ensures
        lookups_are_cached(tlb.entries@, after, io_mmu, addr as nat, bytes),
{
    a64::address_constants();
    let before = tlb.entries@;
    let k = choose|k: nat| k < 32 && before.len() == #[trigger] vstd::arithmetic::power2::pow2(k);
    vstd::arithmetic::power2::lemma_pow2_pos(k);
    let a = addr as nat;
    let p = a / 4096;
    let j = (bytes - 1) as nat;
    io_mmu.mmu.lemma_small_range(a, bytes, required);
    assert(MMU::<u64>::page_of(a + j) == (a + j) / 4096);
    assert(MMU::<u64>::page_of(a) == p);
    assert(p % before.len() < before.len() && (p + 1) % before.len() < before.len());
    assert(a + bytes - 1 == a + j);
}

/// Compiled code reads zero where an access succeeded, and one where it did not.
pub proof fn zero_means_success(status: IoMmuStatus, r: u8)
    requires
        call_ensures(IoMmuStatus::code, (status,), r),
    ensures
        status is Success <==> r == 0,
        status is Fault <==> r == 1,
{
}

/// Any access may be asked for, with a cache of any size that is a power of two.
pub proof fn accesses_can_be_asked_for(
    io_mmu: &mut IoMMU,
    host: &mut HostMemory,
    tlb: &mut Tlb,
    addr: u64,
    value: u64,
    byte: &mut u8,
    half: &mut u16,
    word: &mut u32,
    double: &mut u64,
)
    requires
        old(io_mmu).mmu.wf(),
        old(io_mmu).generation > 0,
        old(io_mmu).mmu.backed_by(old(host)@.len()),
        exists|k: nat|
            k < 32 && old(tlb).entries@.len() == #[trigger] vstd::arithmetic::power2::pow2(k),
    ensures
        call_requires(
            ffi_support::io_mmu_load_byte,
            (&*old(io_mmu), &*old(host), tlb, addr, byte),
        ),
        call_requires(
            ffi_support::io_mmu_load16_le,
            (&*old(io_mmu), &*old(host), tlb, addr, half),
        ),
        call_requires(
            ffi_support::io_mmu_load32_le,
            (&*old(io_mmu), &*old(host), tlb, addr, word),
        ),
        call_requires(
            ffi_support::io_mmu_load64_le,
            (&*old(io_mmu), &*old(host), tlb, addr, double),
        ),
        call_requires(ffi_support::io_mmu_store_byte, (io_mmu, host, tlb, addr, value as u8)),
        call_requires(ffi_support::io_mmu_store16_le, (io_mmu, host, tlb, addr, value as u16)),
        call_requires(ffi_support::io_mmu_store32_le, (io_mmu, host, tlb, addr, value as u32)),
        call_requires(ffi_support::io_mmu_store64_le, (io_mmu, host, tlb, addr, value)),
{
}

/// A load of a `u64` succeeds exactly if the pages of all its eight addresses may be read. Then it
/// gives the number that the host bytes spell which the addresses are mapped to, and the
/// lookups of the pages are cached. A load that fails changes nothing.
pub proof fn loads_of_u64_read_the_mapped_bytes(
    io_mmu: IoMMU,
    host: HostMemory,
    before: Tlb,
    after: Tlb,
    addr: u64,
    was: u64,
    now: u64,
    r: IoMmuStatus,
)
    requires
        io_mmu.wf(),
        io_mmu.mmu.backed_by(host@.len()),
        before.wf(),
        exists|tlb: &mut Tlb, out: &mut u64|
            *tlb == before && *final(tlb) == after && *out == was && *final(out) == now
                && #[trigger] call_ensures(
                ffi_support::io_mmu_load64_le,
                (&io_mmu, &host, tlb, addr, out),
                r,
            ),
    ensures
        after.wf(),
        r is Success <==> grants_all(io_mmu.mmu, addr as nat, 8, 1),
        r is Success ==> {
            &&& now == spelled(io_mmu.mmu, host@, addr as nat, 8)
            &&& lookups_are_cached(before.entries@, after.entries@, io_mmu, addr as nat, 8)
        },
        r is Fault ==> now == was && after.entries@ == before.entries@,
{
    let a = addr as nat;
    access_laws::lemma_grants(io_mmu.mmu, a, 8, PageFlags::READ);
    access_laws::lemma_spelled(io_mmu.mmu, host@, a, 8);
    if r is Success {
        lemma_cached(before, after.entries@, io_mmu, addr, 8, PageFlags::READ);
    }
}

/// A store of a `u64` succeeds exactly if the pages of all its eight addresses may be written to.
/// Then the host bytes that the addresses are mapped to spell the number, no other one has
/// changed, and the lookups of the pages are cached. A store that fails changes nothing.
pub proof fn stores_of_u64_write_the_mapped_bytes(
    before: IoMMU,
    after: IoMMU,
    memory: HostMemory,
    written: HostMemory,
    was: Tlb,
    now: Tlb,
    addr: u64,
    value: u64,
    r: IoMmuStatus,
)
    requires
        before.wf(),
        before.mmu.backed_by(memory@.len()),
        was.wf(),
        exists|io_mmu: &mut IoMMU, host: &mut HostMemory, tlb: &mut Tlb|
            *io_mmu == before && *final(io_mmu) == after && *host == memory && *final(host)
                == written && *tlb == was && *final(tlb) == now && #[trigger] call_ensures(
                ffi_support::io_mmu_store64_le,
                (io_mmu, host, tlb, addr, value),
                r,
            ),
    ensures
        now.wf(),
        after.wf(),
        after.mmu.backed_by(written@.len()),
        after.generation == before.generation,
        r is Success <==> grants_all(before.mmu, addr as nat, 8, 2),
        r is Success ==> {
            &&& spelled(before.mmu, written@, addr as nat, 8) == value
            &&& rest_is_kept(before.mmu, memory@, written@, addr as nat, 8)
            &&& executable_pages_are_marked(before.mmu, after.mmu, addr as nat, 8)
            &&& lookups_are_cached(was.entries@, now.entries@, after, addr as nat, 8)
        },
        r is Fault ==> {
            &&& written@ == memory@
            &&& after.mmu.pages@ == before.mmu.pages@
            &&& now.entries@ == was.entries@
        },
{
    let a = addr as nat;
    access_laws::lemma_grants(before.mmu, a, 8, PageFlags::WRITE);
    le::pow256_values();
    if r is Success {
        access_laws::lemma_stored_scalar(before.mmu, memory@, a, value as nat, 8);
        access_laws::lemma_marked(before.mmu, after.mmu, a, 8);
        laws::store_keeps_mapping(before.mmu, after.mmu, a, 8);
        assert forall|x: nat| a <= x < a + 8 implies #[trigger] after.mmu.can_access(
            x,
            PageFlags::WRITE,
        ) by {
            assert(before.mmu.can_access(x, PageFlags::WRITE));
        }
        lemma_cached(was, now.entries@, after, addr, 8, PageFlags::WRITE);
    }
}

/// A load of a `u32` succeeds exactly if the pages of all its four addresses may be read. Then it
/// gives the number that the host bytes spell which the addresses are mapped to, and the
/// lookups of the pages are cached. A load that fails changes nothing.
pub proof fn loads_of_u32_read_the_mapped_bytes(
    io_mmu: IoMMU,
    host: HostMemory,
    before: Tlb,
    after: Tlb,
    addr: u64,
    was: u32,
    now: u32,
    r: IoMmuStatus,
)
    requires
        io_mmu.wf(),
        io_mmu.mmu.backed_by(host@.len()),
        before.wf(),
        exists|tlb: &mut Tlb, out: &mut u32|
            *tlb == before && *final(tlb) == after && *out == was && *final(out) == now
                && #[trigger] call_ensures(
                ffi_support::io_mmu_load32_le,
                (&io_mmu, &host, tlb, addr, out),
                r,
            ),
    ensures
        after.wf(),
        r is Success <==> grants_all(io_mmu.mmu, addr as nat, 4, 1),
        r is Success ==> {
            &&& now == spelled(io_mmu.mmu, host@, addr as nat, 4)
            &&& lookups_are_cached(before.entries@, after.entries@, io_mmu, addr as nat, 4)
        },
        r is Fault ==> now == was && after.entries@ == before.entries@,
{
    let a = addr as nat;
    access_laws::lemma_grants(io_mmu.mmu, a, 4, PageFlags::READ);
    access_laws::lemma_spelled(io_mmu.mmu, host@, a, 4);
    if r is Success {
        lemma_cached(before, after.entries@, io_mmu, addr, 4, PageFlags::READ);
    }
}

/// A store of a `u32` succeeds exactly if the pages of all its four addresses may be written to.
/// Then the host bytes that the addresses are mapped to spell the number, no other one has
/// changed, and the lookups of the pages are cached. A store that fails changes nothing.
pub proof fn stores_of_u32_write_the_mapped_bytes(
    before: IoMMU,
    after: IoMMU,
    memory: HostMemory,
    written: HostMemory,
    was: Tlb,
    now: Tlb,
    addr: u64,
    value: u32,
    r: IoMmuStatus,
)
    requires
        before.wf(),
        before.mmu.backed_by(memory@.len()),
        was.wf(),
        exists|io_mmu: &mut IoMMU, host: &mut HostMemory, tlb: &mut Tlb|
            *io_mmu == before && *final(io_mmu) == after && *host == memory && *final(host)
                == written && *tlb == was && *final(tlb) == now && #[trigger] call_ensures(
                ffi_support::io_mmu_store32_le,
                (io_mmu, host, tlb, addr, value),
                r,
            ),
    ensures
        now.wf(),
        after.wf(),
        after.mmu.backed_by(written@.len()),
        after.generation == before.generation,
        r is Success <==> grants_all(before.mmu, addr as nat, 4, 2),
        r is Success ==> {
            &&& spelled(before.mmu, written@, addr as nat, 4) == value
            &&& rest_is_kept(before.mmu, memory@, written@, addr as nat, 4)
            &&& executable_pages_are_marked(before.mmu, after.mmu, addr as nat, 4)
            &&& lookups_are_cached(was.entries@, now.entries@, after, addr as nat, 4)
        },
        r is Fault ==> {
            &&& written@ == memory@
            &&& after.mmu.pages@ == before.mmu.pages@
            &&& now.entries@ == was.entries@
        },
{
    let a = addr as nat;
    access_laws::lemma_grants(before.mmu, a, 4, PageFlags::WRITE);
    le::pow256_values();
    if r is Success {
        access_laws::lemma_stored_scalar(before.mmu, memory@, a, value as nat, 4);
        access_laws::lemma_marked(before.mmu, after.mmu, a, 4);
        laws::store_keeps_mapping(before.mmu, after.mmu, a, 4);
        assert forall|x: nat| a <= x < a + 4 implies #[trigger] after.mmu.can_access(
            x,
            PageFlags::WRITE,
        ) by {
            assert(before.mmu.can_access(x, PageFlags::WRITE));
        }
        lemma_cached(was, now.entries@, after, addr, 4, PageFlags::WRITE);
    }
}

/// A load of a `u16` succeeds exactly if the pages of all its two addresses may be read. Then it
/// gives the number that the host bytes spell which the addresses are mapped to, and the
/// lookups of the pages are cached. A load that fails changes nothing.
pub proof fn loads_of_u16_read_the_mapped_bytes(
    io_mmu: IoMMU,
    host: HostMemory,
    before: Tlb,
    after: Tlb,
    addr: u64,
    was: u16,
    now: u16,
    r: IoMmuStatus,
)
    requires
        io_mmu.wf(),
        io_mmu.mmu.backed_by(host@.len()),
        before.wf(),
        exists|tlb: &mut Tlb, out: &mut u16|
            *tlb == before && *final(tlb) == after && *out == was && *final(out) == now
                && #[trigger] call_ensures(
                ffi_support::io_mmu_load16_le,
                (&io_mmu, &host, tlb, addr, out),
                r,
            ),
    ensures
        after.wf(),
        r is Success <==> grants_all(io_mmu.mmu, addr as nat, 2, 1),
        r is Success ==> {
            &&& now == spelled(io_mmu.mmu, host@, addr as nat, 2)
            &&& lookups_are_cached(before.entries@, after.entries@, io_mmu, addr as nat, 2)
        },
        r is Fault ==> now == was && after.entries@ == before.entries@,
{
    let a = addr as nat;
    access_laws::lemma_grants(io_mmu.mmu, a, 2, PageFlags::READ);
    access_laws::lemma_spelled(io_mmu.mmu, host@, a, 2);
    if r is Success {
        lemma_cached(before, after.entries@, io_mmu, addr, 2, PageFlags::READ);
    }
}

/// A store of a `u16` succeeds exactly if the pages of all its two addresses may be written to.
/// Then the host bytes that the addresses are mapped to spell the number, no other one has
/// changed, and the lookups of the pages are cached. A store that fails changes nothing.
pub proof fn stores_of_u16_write_the_mapped_bytes(
    before: IoMMU,
    after: IoMMU,
    memory: HostMemory,
    written: HostMemory,
    was: Tlb,
    now: Tlb,
    addr: u64,
    value: u16,
    r: IoMmuStatus,
)
    requires
        before.wf(),
        before.mmu.backed_by(memory@.len()),
        was.wf(),
        exists|io_mmu: &mut IoMMU, host: &mut HostMemory, tlb: &mut Tlb|
            *io_mmu == before && *final(io_mmu) == after && *host == memory && *final(host)
                == written && *tlb == was && *final(tlb) == now && #[trigger] call_ensures(
                ffi_support::io_mmu_store16_le,
                (io_mmu, host, tlb, addr, value),
                r,
            ),
    ensures
        now.wf(),
        after.wf(),
        after.mmu.backed_by(written@.len()),
        after.generation == before.generation,
        r is Success <==> grants_all(before.mmu, addr as nat, 2, 2),
        r is Success ==> {
            &&& spelled(before.mmu, written@, addr as nat, 2) == value
            &&& rest_is_kept(before.mmu, memory@, written@, addr as nat, 2)
            &&& executable_pages_are_marked(before.mmu, after.mmu, addr as nat, 2)
            &&& lookups_are_cached(was.entries@, now.entries@, after, addr as nat, 2)
        },
        r is Fault ==> {
            &&& written@ == memory@
            &&& after.mmu.pages@ == before.mmu.pages@
            &&& now.entries@ == was.entries@
        },
{
    let a = addr as nat;
    access_laws::lemma_grants(before.mmu, a, 2, PageFlags::WRITE);
    le::pow256_values();
    if r is Success {
        access_laws::lemma_stored_scalar(before.mmu, memory@, a, value as nat, 2);
        access_laws::lemma_marked(before.mmu, after.mmu, a, 2);
        laws::store_keeps_mapping(before.mmu, after.mmu, a, 2);
        assert forall|x: nat| a <= x < a + 2 implies #[trigger] after.mmu.can_access(
            x,
            PageFlags::WRITE,
        ) by {
            assert(before.mmu.can_access(x, PageFlags::WRITE));
        }
        lemma_cached(was, now.entries@, after, addr, 2, PageFlags::WRITE);
    }
}

/// A load of a byte succeeds exactly if the page of its address may be read. Then it gives the
/// host byte that the address is mapped to, and the lookup of the page is cached. A load that
/// fails changes nothing.
pub proof fn loads_of_u8_read_the_mapped_bytes(
    io_mmu: IoMMU,
    host: HostMemory,
    before: Tlb,
    after: Tlb,
    addr: u64,
    was: u8,
    now: u8,
    r: IoMmuStatus,
)
    requires
        io_mmu.wf(),
        io_mmu.mmu.backed_by(host@.len()),
        before.wf(),
        exists|tlb: &mut Tlb, out: &mut u8|
            *tlb == before && *final(tlb) == after && *out == was && *final(out) == now
                && #[trigger] call_ensures(
                ffi_support::io_mmu_load_byte,
                (&io_mmu, &host, tlb, addr, out),
                r,
            ),
    ensures
        after.wf(),
        r is Success <==> grants_all(io_mmu.mmu, addr as nat, 1, 1),
        r is Success ==> {
            &&& now == spelled(io_mmu.mmu, host@, addr as nat, 1)
            &&& lookups_are_cached(before.entries@, after.entries@, io_mmu, addr as nat, 1)
        },
        r is Fault ==> now == was && after.entries@ == before.entries@,
{
    let a = addr as nat;
    access_laws::lemma_grants(io_mmu.mmu, a, 1, PageFlags::READ);
    access_laws::lemma_spelled(io_mmu.mmu, host@, a, 1);
    assert(io_mmu.mmu.range_accessible(a, 1, PageFlags::READ) == io_mmu.mmu.can_access(
        a,
        PageFlags::READ,
    ));
    assert(spelled(io_mmu.mmu, host@, a + 1, 0) == 0);
    if r is Success {
        lemma_cached(before, after.entries@, io_mmu, addr, 1, PageFlags::READ);
    }
}

/// A store of a byte succeeds exactly if the page of its address may be written to. Then the
/// byte stands where the address is mapped to, no other one has changed, and the lookup of the
/// page is cached. A store that fails changes nothing.
pub proof fn stores_of_u8_write_the_mapped_bytes(
    before: IoMMU,
    after: IoMMU,
    memory: HostMemory,
    written: HostMemory,
    was: Tlb,
    now: Tlb,
    addr: u64,
    value: u8,
    r: IoMmuStatus,
)
    requires
        before.wf(),
        before.mmu.backed_by(memory@.len()),
        was.wf(),
        exists|io_mmu: &mut IoMMU, host: &mut HostMemory, tlb: &mut Tlb|
            *io_mmu == before && *final(io_mmu) == after && *host == memory && *final(host)
                == written && *tlb == was && *final(tlb) == now && #[trigger] call_ensures(
                ffi_support::io_mmu_store_byte,
                (io_mmu, host, tlb, addr, value),
                r,
            ),
    ensures
        now.wf(),
        after.wf(),
        after.mmu.backed_by(written@.len()),
        after.generation == before.generation,
        r is Success <==> grants_all(before.mmu, addr as nat, 1, 2),
        r is Success ==> {
            &&& spelled(before.mmu, written@, addr as nat, 1) == value
            &&& rest_is_kept(before.mmu, memory@, written@, addr as nat, 1)
            &&& executable_pages_are_marked(before.mmu, after.mmu, addr as nat, 1)
            &&& lookups_are_cached(was.entries@, now.entries@, after, addr as nat, 1)
        },
        r is Fault ==> {
            &&& written@ == memory@
            &&& after.mmu.pages@ == before.mmu.pages@
            &&& now.entries@ == was.entries@
        },
{
    let a = addr as nat;
    access_laws::lemma_grants(before.mmu, a, 1, PageFlags::WRITE);
    le::pow256_values();
    assert(before.mmu.range_accessible(a, 1, PageFlags::WRITE) == before.mmu.can_access(
        a,
        PageFlags::WRITE,
    ));
    assert(le::bytes_of(value as nat, 1) =~= seq![value]) by {
        assert(le::bytes_of(value as nat / 256, 0) =~= Seq::empty());
    }
    if r is Success {
        access_laws::lemma_stored_scalar(before.mmu, memory@, a, value as nat, 1);
        access_laws::lemma_marked(before.mmu, after.mmu, a, 1);
        laws::store_keeps_mapping(before.mmu, after.mmu, a, 1);
        assert forall|x: nat| a <= x < a + 1 implies #[trigger] after.mmu.can_access(
            x,
            PageFlags::WRITE,
        ) by {
            assert(before.mmu.can_access(x, PageFlags::WRITE));
        }
        lemma_cached(was, now.entries@, after, addr, 1, PageFlags::WRITE);
    }
}

} // verus!
