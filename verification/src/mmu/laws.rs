//! What holds of mappings, loads and stores together.

use vstd::prelude::*;
use crate::le;
use crate::mmu::flags;
use crate::mmu::{MemoryProtections, Page, PageFlags, MMU};
use crate::paging;
use crate::vaddr;
use crate::vaddr::VAddr;

verus! {

/// No two addresses of `a .. a + len` share a host byte.
pub open spec fn unaliased<A: VAddr>(mmu: MMU<A>, a: nat, len: nat) -> bool {
    forall|x: nat, y: nat|
        a <= x < y < a + len ==> #[trigger] mmu.host_addr(x) != #[trigger] mmu.host_addr(y)
}

/// What a store leaves at an address of the range it wrote to, and elsewhere.
pub(crate) proof fn lemma_stored_at<A: VAddr>(mmu: MMU<A>, host: Seq<u8>, a: nat, data: Seq<u8>)
    requires
        mmu.range_backed(a, data.len(), host.len()),
    ensures
        mmu.stored(host, a, data).len() == host.len(),
        unaliased(mmu, a, data.len()) ==> forall|i: int|
            0 <= i < data.len() ==> mmu.stored(host, a, data)[#[trigger] mmu.host_addr(
                (a + i) as nat,
            )] == data[i],
        forall|h: int|
            0 <= h < host.len() && (forall|x: nat|
                a <= x < a + data.len() ==> #[trigger] mmu.host_addr(x) != h)
                ==> #[trigger] mmu.stored(host, a, data)[h] == host[h],
    decreases data.len(),
{
    mmu.lemma_stored_len(host, a, data);
    if data.len() > 0 {
        let rest = data.drop_last();
        let last = (a + data.len() - 1) as nat;
        assert(mmu.range_backed(a, rest.len(), host.len()));
        lemma_stored_at(mmu, host, a, rest);
        assert(0 <= mmu.host_addr(last) < host.len());
        let before = mmu.stored(host, a, rest);
        if unaliased(mmu, a, data.len()) {
            assert(unaliased(mmu, a, rest.len()));
            assert forall|i: int| 0 <= i < data.len() implies mmu.stored(
                host,
                a,
                data,
            )[#[trigger] mmu.host_addr((a + i) as nat)] == data[i] by {
                let x = (a + i) as nat;
                assert(0 <= mmu.host_addr(x) < host.len());
                if i < rest.len() {
                    assert(mmu.host_addr(x) != mmu.host_addr(last));
                    assert(before[mmu.host_addr(x)] == rest[i]);
                }
            }
        }
        assert forall|h: int|
            0 <= h < host.len() && (forall|x: nat|
                a <= x < a + data.len() ==> #[trigger] mmu.host_addr(x) != h) implies #[trigger] mmu.stored(
            host,
            a,
            data,
        )[h] == host[h] by {
            assert(mmu.host_addr(last) != h);
            assert(before[h] == host[h]);
        }
    }
}

/// A store moves no page and changes no permission.
pub proof fn store_keeps_mapping<A: VAddr>(before: MMU<A>, after: MMU<A>, a: nat, len: nat)
    requires
        after.pages@ == before.stored_pages(a, len),
    ensures
        after.pages@.len() == before.pages@.len(),
        forall|x: nat|
            MMU::<A>::page_of(x) < before.pages@.len() ==> #[trigger] after.host_addr(x)
                == before.host_addr(x),
        forall|x: nat| #[trigger]
            after.can_access(x, PageFlags::READ) == before.can_access(x, PageFlags::READ),
        forall|x: nat| #[trigger]
            after.can_access(x, PageFlags::WRITE) == before.can_access(x, PageFlags::WRITE),
        forall|x: nat| #[trigger]
            after.can_access(x, PageFlags::EXECUTE) == before.can_access(x, PageFlags::EXECUTE),
{
    assert forall|i: int| 0 <= i < before.pages@.len() implies {
        let f = before.pages@[i].page_flags;
        let g = (#[trigger] after.pages@[i]).page_flags;
        &&& g.has(PageFlags::READ) == f.has(PageFlags::READ)
        &&& g.has(PageFlags::WRITE) == f.has(PageFlags::WRITE)
        &&& g.has(PageFlags::EXECUTE) == f.has(PageFlags::EXECUTE)
    } by {
        flags::after_store_keeps_permissions(before.pages@[i].page_flags);
    }
    assert forall|x: nat|
        MMU::<A>::page_of(x) < before.pages@.len() implies #[trigger] after.host_addr(x)
        == before.host_addr(x) by {
        let i = MMU::<A>::page_of(x) as int;
        assert(after.pages@[i].ptr == before.pages@[i].ptr);
    }
}

/// After a store, every executable page it touched is dirty, and no page that it
/// did not touch has changed.
pub proof fn store_marks_executable_pages<A: VAddr>(
    before: MMU<A>,
    after: MMU<A>,
    a: nat,
    len: nat,
    x: nat,
)
    requires
        after.pages@ == before.stored_pages(a, len),
        a <= x < a + len,
        before.can_access(x, PageFlags::EXECUTE),
    ensures
        after.can_access(x, PageFlags::INSN_DIRTY),
        forall|i: int|
            0 <= i < before.pages@.len() && (i < MMU::<A>::page_of(a) || i > MMU::<A>::page_of(
                (a + len - 1) as nat,
            )) ==> #[trigger] after.pages@[i] == before.pages@[i],
{
    vaddr::lemma_page_size::<A>();
    let ps = A::PAGE_SIZE as nat;
    paging::lemma_page_order(a, x, ps);
    paging::lemma_page_order(x, (a + len - 1) as nat, ps);
    flags::after_store_keeps_permissions(before.pages@[MMU::<A>::page_of(x) as int].page_flags);
}

/// A load of the bytes that a store has just written gives them back.
///
/// Left out are ranges in which two addresses share a host byte.
pub proof fn load_after_store<A: VAddr>(
    before: MMU<A>,
    after: MMU<A>,
    host: Seq<u8>,
    a: nat,
    data: Seq<u8>,
)
    requires
        before.wf(),
        before.backed_by(host.len()),
        before.range_accessible(a, data.len(), PageFlags::WRITE),
        after.pages@ == before.stored_pages(a, data.len()),
        unaliased(before, a, data.len()),
    ensures
        after.loaded(before.stored(host, a, data), a, data.len()) == data,
{
    before.lemma_range_backed(a, data.len(), PageFlags::WRITE, host.len());
    lemma_stored_at(before, host, a, data);
    store_keeps_mapping(before, after, a, data.len());
    let read = after.loaded(before.stored(host, a, data), a, data.len());
    assert forall|i: int| 0 <= i < data.len() implies read[i] == data[i] by {
        let x = (a + i) as nat;
        assert(MMU::<A>::page_of(x) < before.pages@.len());
        assert(after.host_addr(x) == before.host_addr(x));
        assert(before.stored(host, a, data)[before.host_addr((a + i) as nat)] == data[i]);
    }
    assert(read =~= data);
}

/// Ranges of at most a page size never alias: pages are mapped at page-aligned
/// host pointers.
pub proof fn short_ranges_are_unaliased<A: VAddr>(mmu: MMU<A>, a: nat, len: nat, required: u8)
    requires
        mmu.wf(),
        len <= A::PAGE_SIZE,
        mmu.range_accessible(a, len, required),
        required == PageFlags::READ || required == PageFlags::WRITE || required
            == PageFlags::EXECUTE,
    ensures
        unaliased(mmu, a, len),
{
    vaddr::lemma_page_size::<A>();
    let ps = A::PAGE_SIZE as nat;
    assert forall|x: nat, y: nat| a <= x < y < a + len implies #[trigger] mmu.host_addr(x)
        != #[trigger] mmu.host_addr(y) by {
        assert(mmu.can_access(x, required) && mmu.can_access(y, required));
        let px = mmu.pages@[MMU::<A>::page_of(x) as int];
        let py = mmu.pages@[MMU::<A>::page_of(y) as int];
        assert(px.wf() && py.wf());
        let u = px.ptr->0 as nat;
        let v = py.ptr->0 as nat;
        paging::lemma_page_parts(x, ps);
        paging::lemma_page_parts(y, ps);
        paging::lemma_page_parts(u, ps);
        paging::lemma_page_parts(v, ps);
        if mmu.host_addr(x) == mmu.host_addr(y) {
            paging::lemma_page_of(mmu.host_addr(x) as nat, u / ps, ps);
            paging::lemma_page_of(mmu.host_addr(y) as nat, v / ps, ps);
            assert(x % ps == y % ps);
            paging::lemma_page_order(x, y, ps);
            if x / ps < y / ps {
                paging::lemma_page_starts(x / ps, y / ps, ps);
            }
        }
    }
}

/// A scalar load of the scalar that a store has just written gives it back,
/// across a page boundary too.
pub proof fn scalar_load_after_store<A: VAddr>(
    before: MMU<A>,
    after: MMU<A>,
    host: Seq<u8>,
    a: nat,
    value: nat,
    bytes: nat,
)
    requires
        before.wf(),
        before.backed_by(host.len()),
        bytes <= 8,
        value < le::pow256(bytes),
        before.range_accessible(a, bytes, PageFlags::WRITE),
        after.pages@ == before.stored_pages(a, bytes),
    ensures
        le::value_of(
            after.loaded(before.stored(host, a, le::bytes_of(value, bytes)), a, bytes),
        ) == value,
{
    vaddr::lemma_page_size::<A>();
    short_ranges_are_unaliased(before, a, bytes, PageFlags::WRITE);
    le::bytes_of_len(value, bytes);
    load_after_store(before, after, host, a, le::bytes_of(value, bytes));
    le::value_of_bytes_of(value, bytes);
}

/// A store changes no byte that the guest sees elsewhere: an address that shares
/// no host byte with the range written to reads as before.
pub proof fn store_leaves_other_bytes<A: VAddr>(
    before: MMU<A>,
    after: MMU<A>,
    host: Seq<u8>,
    a: nat,
    data: Seq<u8>,
    z: nat,
)
    requires
        before.wf(),
        before.backed_by(host.len()),
        before.range_accessible(a, data.len(), PageFlags::WRITE),
        before.can_access(z, PageFlags::READ),
        after.pages@ == before.stored_pages(a, data.len()),
        forall|x: nat|
            a <= x < a + data.len() ==> #[trigger] before.host_addr(x) != before.host_addr(z),
    ensures
        after.loaded(before.stored(host, a, data), z, 1) == before.loaded(host, z, 1),
{
    before.lemma_range_backed(a, data.len(), PageFlags::WRITE, host.len());
    assert(before.range_accessible(z, 1, PageFlags::READ));
    before.lemma_range_backed(z, 1, PageFlags::READ, host.len());
    lemma_stored_at(before, host, a, data);
    store_keeps_mapping(before, after, a, data.len());
    assert(0 <= before.host_addr(z) < host.len());
    assert(after.host_addr(z) == before.host_addr(z));
    assert(before.stored(host, a, data)[before.host_addr(z)] == host[before.host_addr(z)]);
    assert(after.loaded(before.stored(host, a, data), z, 1) =~= before.loaded(host, z, 1));
}

/// A mapping puts the bytes of the host region at the addresses from `base` on, in
/// order, with the permissions asked for, and leaves every other address alone.
pub proof fn mapping_places_region<A: VAddr>(
    before: MMU<A>,
    after: MMU<A>,
    base: A,
    ptr: usize,
    size: A,
    protections: MemoryProtections,
    x: nat,
)
    requires
        before.wf(),
        MMU::<A>::mapping_valid(base, ptr, size),
        ptr + size.as_nat() <= usize::MAX,
        after.pages@ == before.mapped_pages(base, ptr, size, protections),
    ensures
        base.as_nat() <= x < base.as_nat() + size.as_nat() ==> {
            &&& after.host_addr(x) == ptr + (x - base.as_nat())
            &&& after.can_access(x, PageFlags::READ) == (protections.bits & MemoryProtections::READ
                == MemoryProtections::READ)
            &&& after.can_access(x, PageFlags::WRITE) == (protections.bits
                & MemoryProtections::WRITE == MemoryProtections::WRITE)
            &&& after.can_access(x, PageFlags::EXECUTE) == (protections.bits
                & MemoryProtections::EXECUTE == MemoryProtections::EXECUTE)
            &&& !after.can_access(x, PageFlags::INSN_DIRTY)
        },
        !(base.as_nat() <= x < base.as_nat() + size.as_nat()) ==> {
            &&& MMU::<A>::page_of(x) < before.pages@.len() ==> after.pages@[MMU::<A>::page_of(
                x,
            ) as int] == before.pages@[MMU::<A>::page_of(x) as int]
            &&& after.can_access(x, PageFlags::READ) == before.can_access(x, PageFlags::READ)
            &&& after.can_access(x, PageFlags::WRITE) == before.can_access(x, PageFlags::WRITE)
            &&& after.can_access(x, PageFlags::EXECUTE) == before.can_access(x, PageFlags::EXECUTE)
        },
{
    vaddr::lemma_page_size::<A>();
    let ps = A::PAGE_SIZE as nat;
    let a = base.as_nat();
    let b = a + size.as_nat();
    let p = MMU::<A>::page_of(x);
    let start = a / ps;
    let end = b / ps;
    paging::lemma_aligned_sum(a, size.as_nat(), ps);
    paging::lemma_page_parts(a, ps);
    paging::lemma_page_parts(b, ps);
    paging::lemma_page_parts(x, ps);
    assert(0u8 & 1 == 0 && 0u8 & 2 == 0 && 0u8 & 4 == 0) by (bit_vector);
    flags::page_flags_grant_protections(protections);
    if start <= p < end {
        paging::lemma_page_starts(p, end, ps);
        if start < p {
            paging::lemma_page_starts(start, p, ps);
        }
        let k = (p - start) as nat;
        assert(p * ps - start * ps == k * ps) by (nonlinear_arith)
            requires
                k == p - start,
        ;
        assert(a <= x < b);
        let at = ptr + (p - start) * A::PAGE_SIZE;
        assert(at == ptr + k * ps);
        assert(0 <= at <= usize::MAX);
        assert(after.pages@[p as int] == Page::<A>::spec_mapped(at as usize, protections));
    } else {
        if p < start {
            paging::lemma_page_starts(p, start, ps);
        } else if p > end {
            paging::lemma_page_starts(end, p, ps);
        }
        assert(!(a <= x < b));
    }
}

/// Addresses whose pages were unmapped fault on every access; the others are as
/// they were.
pub proof fn unmapped_pages_fault<A: VAddr>(
    before: MMU<A>,
    after: MMU<A>,
    start: A,
    size: A,
    x: nat,
    required: u8,
)
    requires
        before.is_page_range(start, size),
        required == PageFlags::READ || required == PageFlags::WRITE || required
            == PageFlags::EXECUTE,
        after.pages@ == Seq::new(
            before.pages@.len(),
            |i: int|
                if MMU::<A>::in_range(i, start, size) {
                    Page::spec_unmapped()
                } else {
                    before.pages@[i]
                },
        ),
    ensures
        start.as_nat() <= x < start.as_nat() + size.as_nat() ==> !after.can_access(x, required),
        !(start.as_nat() <= x < start.as_nat() + size.as_nat()) ==> {
            &&& after.can_access(x, required) == before.can_access(x, required)
            &&& before.can_access(x, required) ==> after.host_addr(x) == before.host_addr(x)
        },
{
    assert(0u8 & 1 == 0 && 0u8 & 2 == 0 && 0u8 & 4 == 0) by (bit_vector);
    lemma_in_range::<A>(start, size, x);
}

/// The pages of a run of whole pages hold exactly its addresses.
pub(crate) proof fn lemma_in_range<A: VAddr>(start: A, size: A, x: nat)
    requires
        start.as_nat() % (A::PAGE_SIZE as nat) == 0,
        size.as_nat() % (A::PAGE_SIZE as nat) == 0,
    ensures
        MMU::<A>::in_range(MMU::<A>::page_of(x) as int, start, size) <==> start.as_nat() <= x
            < start.as_nat() + size.as_nat(),
{
    vaddr::lemma_page_size::<A>();
    let ps = A::PAGE_SIZE as nat;
    let a = start.as_nat();
    let b = a + size.as_nat();
    let p = x / ps;
    paging::lemma_aligned_sum(a, size.as_nat(), ps);
    paging::lemma_page_parts(a, ps);
    paging::lemma_page_parts(b, ps);
    paging::lemma_page_parts(x, ps);
    if p < a / ps {
        paging::lemma_page_starts(p, a / ps, ps);
    } else if a / ps < p {
        paging::lemma_page_starts(a / ps, p, ps);
    }
    if p < b / ps {
        paging::lemma_page_starts(p, b / ps, ps);
    } else if b / ps < p {
        paging::lemma_page_starts(b / ps, p, ps);
    }
}

/// A change of permissions moves no page: it grants exactly the new permissions on
/// the pages of its range, which are then clean, and leaves the others alone.
pub proof fn protecting_keeps_bytes<A: VAddr>(
    before: MMU<A>,
    after: MMU<A>,
    start: A,
    size: A,
    protections: MemoryProtections,
    x: nat,
)
    requires
        before.is_page_range(start, size),
        after.pages@ == Seq::new(
            before.pages@.len(),
            |i: int|
                if MMU::<A>::in_range(i, start, size) {
                    Page { page_flags: protections.page_flags(), ..before.pages@[i] }
                } else {
                    before.pages@[i]
                },
        ),
        MMU::<A>::page_of(x) < before.pages@.len(),
    ensures
        after.host_addr(x) == before.host_addr(x),
        start.as_nat() <= x < start.as_nat() + size.as_nat() ==> {
            &&& after.can_access(x, PageFlags::READ) == (protections.bits & MemoryProtections::READ
                == MemoryProtections::READ)
            &&& after.can_access(x, PageFlags::WRITE) == (protections.bits
                & MemoryProtections::WRITE == MemoryProtections::WRITE)
            &&& after.can_access(x, PageFlags::EXECUTE) == (protections.bits
                & MemoryProtections::EXECUTE == MemoryProtections::EXECUTE)
            &&& !after.can_access(x, PageFlags::INSN_DIRTY)
        },
        !(start.as_nat() <= x < start.as_nat() + size.as_nat()) ==> after.pages@[MMU::<A>::page_of(
            x,
        ) as int] == before.pages@[MMU::<A>::page_of(x) as int],
{
    flags::page_flags_grant_protections(protections);
    lemma_in_range::<A>(start, size, x);
}

} // verus!
