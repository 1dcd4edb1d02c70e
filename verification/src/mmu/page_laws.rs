//! What holds of one page and its bytes.

use vstd::arithmetic::power::pow;
use vstd::prelude::*;
use crate::host_memory::HostMemory;
use crate::le;
use crate::mmu::flags;
use crate::mmu::{MemoryFault, MemoryProtections, Page};
use crate::vaddr::VAddr;

verus! {

/// The page is mapped to where it was, and has the flags that it had, and the mark besides where
/// it may be executed.
pub open spec fn is_marked<A: VAddr>(before: Page<A>, after: Page<A>) -> bool {
    &&& after.ptr == before.ptr
    &&& after.page_flags.bits == if before.page_flags.bits & 4 == 4 {
        before.page_flags.bits | 8
    } else {
        before.page_flags.bits
    }
}

/// A page has access exactly if none of the flags is missing, and its bytes are found exactly
/// if it is mapped, too.
pub proof fn flags_open_the_page<A: VAddr>(
    page: Page<A>,
    required: u8,
    access: bool,
    r: Result<usize, MemoryFault>,
    mapped: bool,
)
    requires
        call_ensures(Page::<A>::has_access, (&page, required), access),
        call_ensures(Page::<A>::get_data_ptr, (&page, required), r),
        call_ensures(Page::<A>::is_mapped, (&page,), mapped),
    ensures
        access <==> required & !page.page_flags.bits == 0,
        mapped <==> page.ptr is Some,
        r is Ok <==> access && mapped,
        r matches Ok(ptr) ==> page.ptr == Some(ptr),
{
    flags::lemma_missing(page.page_flags.bits, required);
}

/// A page that was written to is marked exactly if it may be executed.
pub proof fn written_pages_are_marked<A: VAddr>(before: Page<A>, after: Page<A>)
    requires
        before.wf(),
        exists|page: &mut Page<A>|
            *page == before && *final(page) == after && #[trigger] call_ensures(
                Page::<A>::set_insn_dirty,
                (page,),
                (),
            ),
    ensures
        after.wf(),
        is_marked(before, after),
{
}

/// A mapped page has its pointer and its permissions, a page that is protected keeps its pointer
/// and has the new permissions, and an unmapped page has neither.
pub proof fn pages_are_mapped_protected_and_unmapped<A: VAddr>(
    ptr: usize,
    protections: MemoryProtections,
    other: MemoryProtections,
    mapped: Page<A>,
    protected: Page<A>,
    gone: Page<A>,
    never: Page<A>,
)
    requires
        ptr as nat % (A::PAGE_SIZE as nat) == 0,
        call_ensures(Page::<A>::mapped, (ptr, protections), mapped),
        exists|page: &mut Page<A>|
            *page == mapped && *final(page) == protected && #[trigger] call_ensures(
                Page::<A>::mem_protect,
                (page, other),
                (),
            ),
        exists|page: &mut Page<A>|
            *page == protected && *final(page) == gone && #[trigger] call_ensures(
                Page::<A>::unmap,
                (page,),
                (),
            ),
        call_ensures(Page::<A>::unmapped, (), never),
    ensures
        mapped.wf() && protected.wf() && gone.wf(),
        mapped.ptr == Some(ptr),
        mapped.page_flags.bits == protections.bits & 7,
        protected.ptr == Some(ptr),
        protected.page_flags.bits == other.bits & 7,
        gone.ptr is None,
        gone.page_flags.bits == 0,
        never == gone,
{
}

/// A `u64` of a page is read exactly if the page may be read.
pub proof fn loads_of_u64_read_the_page<A: VAddr>(
    page: Page<A>,
    host: HostMemory,
    offset: usize,
    r: Result<u64, MemoryFault>,
)
    requires
        page.wf(),
        page.backed_by(host@.len()),
        offset + 8 <= A::PAGE_SIZE,
        call_ensures(Page::<A>::load64, (&page, &host, offset), r),
    ensures
        r is Ok <==> page.page_flags.bits & 1 == 1,
        r matches Ok(value) ==> le::has_digits(host@, page.ptr->0 + offset, 8, value as int),
{
    if r is Ok {
        le::values_have_their_bytes(
            host@.subrange(page.ptr->0 + offset, page.ptr->0 + offset + 8),
        );
    }
}

/// A `u32` of a page is read exactly if the page may be read.
pub proof fn loads_of_u32_read_the_page<A: VAddr>(
    page: Page<A>,
    host: HostMemory,
    offset: usize,
    r: Result<u32, MemoryFault>,
)
    requires
        page.wf(),
        page.backed_by(host@.len()),
        offset + 4 <= A::PAGE_SIZE,
        call_ensures(Page::<A>::load32, (&page, &host, offset), r),
    ensures
        r is Ok <==> page.page_flags.bits & 1 == 1,
        r matches Ok(value) ==> le::has_digits(host@, page.ptr->0 + offset, 4, value as int),
{
    if r is Ok {
        le::values_have_their_bytes(
            host@.subrange(page.ptr->0 + offset, page.ptr->0 + offset + 4),
        );
    }
}

/// A `u16` of a page is read exactly if the page may be read.
pub proof fn loads_of_u16_read_the_page<A: VAddr>(
    page: Page<A>,
    host: HostMemory,
    offset: usize,
    r: Result<u16, MemoryFault>,
)
    requires
        page.wf(),
        page.backed_by(host@.len()),
        offset + 2 <= A::PAGE_SIZE,
        call_ensures(Page::<A>::load16, (&page, &host, offset), r),
    ensures
        r is Ok <==> page.page_flags.bits & 1 == 1,
        r matches Ok(value) ==> le::has_digits(host@, page.ptr->0 + offset, 2, value as int),
{
    if r is Ok {
        le::values_have_their_bytes(
            host@.subrange(page.ptr->0 + offset, page.ptr->0 + offset + 2),
        );
    }
}

/// An instruction of a page is fetched exactly if the page may be executed.
pub proof fn fetches_read_the_page<A: VAddr>(
    page: Page<A>,
    host: HostMemory,
    offset: usize,
    r: Result<u32, MemoryFault>,
)
    requires
        page.wf(),
        page.backed_by(host@.len()),
        offset + 4 <= A::PAGE_SIZE,
        call_ensures(Page::<A>::fetch32, (&page, &host, offset), r),
    ensures
        r is Ok <==> page.page_flags.bits & 4 == 4,
        r matches Ok(value) ==> le::has_digits(host@, page.ptr->0 + offset, 4, value as int),
{
    if r is Ok {
        le::values_have_their_bytes(
            host@.subrange(page.ptr->0 + offset, page.ptr->0 + offset + 4),
        );
    }
}

/// A byte of a page is read exactly if the page may be read.
pub proof fn loads_of_u8_read_the_page<A: VAddr>(
    page: Page<A>,
    host: HostMemory,
    offset: usize,
    r: Result<u8, MemoryFault>,
)
    requires
        page.wf(),
        page.backed_by(host@.len()),
        offset + 1 <= A::PAGE_SIZE,
        call_ensures(Page::<A>::load_byte, (&page, &host, offset), r),
    ensures
        r is Ok <==> page.page_flags.bits & 1 == 1,
        r matches Ok(value) ==> value == host@[page.ptr->0 + offset],
{
}

/// A `u64` of a page is written exactly if the page may be written to. No other byte changes, and the page is marked
/// where it may be executed.
pub proof fn stores_of_u64_write_the_page<A: VAddr>(
    before: Page<A>,
    after: Page<A>,
    memory: HostMemory,
    written: HostMemory,
    offset: usize,
    value: u64,
    r: Result<(), MemoryFault>,
)
    requires
        before.wf(),
        before.backed_by(memory@.len()),
        offset + 8 <= A::PAGE_SIZE,
        exists|page: &mut Page<A>, host: &mut HostMemory|
            *page == before && *final(page) == after && *host == memory && *final(host) == written
                && #[trigger] call_ensures(Page::<A>::store64, (page, host, offset, value), r),
    ensures
        after.wf(),
        r is Ok <==> before.page_flags.bits & 2 == 2,
        r is Ok ==> {
            let at = before.ptr->0 + offset;
            &&& le::has_digits(written@, at, 8, value as int)
            &&& written@.len() == memory@.len()
            &&& forall|i: int|
                0 <= i < memory@.len() && !(at <= i < at + 8) ==> #[trigger] written@[i]
                    == memory@[i]
            &&& is_marked(before, after)
        },
        r is Err ==> written@ == memory@ && after == before,
{
    if r is Ok {
        let at = before.ptr->0 + offset;
        le::bytes_of_len(value as nat, 8);
        le::pow256_values();
        le::value_of_bytes_of(value as nat, 8);
        le::values_have_their_bytes(le::bytes_of(value as nat, 8));
        assert forall|i: nat| i < 8 implies (value as int / #[trigger] pow(256, i)) % 256
            == written@[at + i] by {
            assert(written@[at + i] == le::bytes_of(value as nat, 8)[i as int]);
        }
    }
}

/// A `u32` of a page is written exactly if the page may be written to. No other byte changes, and the page is marked
/// where it may be executed.
pub proof fn stores_of_u32_write_the_page<A: VAddr>(
    before: Page<A>,
    after: Page<A>,
    memory: HostMemory,
    written: HostMemory,
    offset: usize,
    value: u32,
    r: Result<(), MemoryFault>,
)
    requires
        before.wf(),
        before.backed_by(memory@.len()),
        offset + 4 <= A::PAGE_SIZE,
        exists|page: &mut Page<A>, host: &mut HostMemory|
            *page == before && *final(page) == after && *host == memory && *final(host) == written
                && #[trigger] call_ensures(Page::<A>::store32, (page, host, offset, value), r),
    ensures
        after.wf(),
        r is Ok <==> before.page_flags.bits & 2 == 2,
        r is Ok ==> {
            let at = before.ptr->0 + offset;
            &&& le::has_digits(written@, at, 4, value as int)
            &&& written@.len() == memory@.len()
            &&& forall|i: int|
                0 <= i < memory@.len() && !(at <= i < at + 4) ==> #[trigger] written@[i]
                    == memory@[i]
            &&& is_marked(before, after)
        },
        r is Err ==> written@ == memory@ && after == before,
{
    if r is Ok {
        let at = before.ptr->0 + offset;
        le::bytes_of_len(value as nat, 4);
        le::pow256_values();
        le::value_of_bytes_of(value as nat, 4);
        le::values_have_their_bytes(le::bytes_of(value as nat, 4));
        assert forall|i: nat| i < 4 implies (value as int / #[trigger] pow(256, i)) % 256
            == written@[at + i] by {
            assert(written@[at + i] == le::bytes_of(value as nat, 4)[i as int]);
        }
    }
}

/// A `u16` of a page is written exactly if the page may be written to. No other byte changes, and the page is marked
/// where it may be executed.
pub proof fn stores_of_u16_write_the_page<A: VAddr>(
    before: Page<A>,
    after: Page<A>,
    memory: HostMemory,
    written: HostMemory,
    offset: usize,
    value: u16,
    r: Result<(), MemoryFault>,
)
    requires
        before.wf(),
        before.backed_by(memory@.len()),
        offset + 2 <= A::PAGE_SIZE,
        exists|page: &mut Page<A>, host: &mut HostMemory|
            *page == before && *final(page) == after && *host == memory && *final(host) == written
                && #[trigger] call_ensures(Page::<A>::store16, (page, host, offset, value), r),
    ensures
        after.wf(),
        r is Ok <==> before.page_flags.bits & 2 == 2,
        r is Ok ==> {
            let at = before.ptr->0 + offset;
            &&& le::has_digits(written@, at, 2, value as int)
            &&& written@.len() == memory@.len()
            &&& forall|i: int|
                0 <= i < memory@.len() && !(at <= i < at + 2) ==> #[trigger] written@[i]
                    == memory@[i]
            &&& is_marked(before, after)
        },
        r is Err ==> written@ == memory@ && after == before,
{
    if r is Ok {
        let at = before.ptr->0 + offset;
        le::bytes_of_len(value as nat, 2);
        le::pow256_values();
        le::value_of_bytes_of(value as nat, 2);
        le::values_have_their_bytes(le::bytes_of(value as nat, 2));
        assert forall|i: nat| i < 2 implies (value as int / #[trigger] pow(256, i)) % 256
            == written@[at + i] by {
            assert(written@[at + i] == le::bytes_of(value as nat, 2)[i as int]);
        }
    }
}

/// A byte of a page is written exactly if the page may be written to. No other byte changes, and the page is marked
/// where it may be executed.
pub proof fn stores_of_u8_write_the_page<A: VAddr>(
    before: Page<A>,
    after: Page<A>,
    memory: HostMemory,
    written: HostMemory,
    offset: usize,
    value: u8,
    r: Result<(), MemoryFault>,
)
    requires
        before.wf(),
        before.backed_by(memory@.len()),
        offset + 1 <= A::PAGE_SIZE,
        exists|page: &mut Page<A>, host: &mut HostMemory|
            *page == before && *final(page) == after && *host == memory && *final(host) == written
                && #[trigger] call_ensures(Page::<A>::store_byte, (page, host, offset, value), r),
    ensures
        after.wf(),
        r is Ok <==> before.page_flags.bits & 2 == 2,
        r is Ok ==> {
            let at = before.ptr->0 + offset;
            &&& written@[at] == value
            &&& written@.len() == memory@.len()
            &&& forall|i: int|
                0 <= i < memory@.len() && !(at <= i < at + 1) ==> #[trigger] written@[i]
                    == memory@[i]
            &&& is_marked(before, after)
        },
        r is Err ==> written@ == memory@ && after == before,
{
}

/// Bytes of a page are copied out exactly if the page may be read; the rest of the buffer stays
/// as it was.
pub proof fn bytes_are_copied_out<A: VAddr>(
    page: Page<A>,
    host: HostMemory,
    offset: usize,
    before: Seq<u8>,
    after: Seq<u8>,
    at: usize,
    len: usize,
    r: Result<(), MemoryFault>,
)
    requires
        page.wf(),
        page.backed_by(host@.len()),
        offset + len <= A::PAGE_SIZE,
        at + len <= before.len(),
        exists|mem: &mut [u8]|
            mem@ == before && final(mem)@ == after && #[trigger] call_ensures(
                Page::<A>::load,
                (&page, &host, offset, mem, at, len),
                r,
            ),
    ensures
        r is Ok <==> page.page_flags.bits & 1 == 1,
        after.len() == before.len(),
        r is Ok ==> forall|i: int|
            0 <= i < after.len() ==> #[trigger] after[i] == if at <= i < at + len {
                host@[page.ptr->0 + offset + (i - at)]
            } else {
                before[i]
            },
        r is Err ==> after == before,
{
}

/// Bytes are copied into a page exactly if the page may be written to; no other byte changes,
/// and the page is marked where it may be executed.
pub proof fn bytes_are_copied_in<A: VAddr>(
    before: Page<A>,
    after: Page<A>,
    memory: HostMemory,
    written: HostMemory,
    offset: usize,
    mem: &[u8],
    at: usize,
    len: usize,
    r: Result<(), MemoryFault>,
)
    requires
        before.wf(),
        before.backed_by(memory@.len()),
        offset + len <= A::PAGE_SIZE,
        at + len <= mem@.len(),
        exists|page: &mut Page<A>, host: &mut HostMemory|
            *page == before && *final(page) == after && *host == memory && *final(host) == written
                && #[trigger] call_ensures(Page::<A>::store, (page, host, offset, mem, at, len), r),
    ensures
        after.wf(),
        r is Ok <==> before.page_flags.bits & 2 == 2,
        written@.len() == memory@.len(),
        r is Ok ==> {
            let to = before.ptr->0 + offset;
            &&& forall|i: int|
                0 <= i < memory@.len() ==> #[trigger] written@[i] == if to <= i < to + len {
                    mem@[at + (i - to)]
                } else {
                    memory@[i]
                }
            &&& is_marked(before, after)
        },
        r is Err ==> written@ == memory@ && after == before,
{
}

} // verus!
