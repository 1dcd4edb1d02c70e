//! Memory accesses of compiled code.

use vstd::prelude::*;
use crate::a64;
use crate::emu_abi::memory::{PageNumber, Tlb, TlbEntry};
use crate::host_memory::HostMemory;
use crate::io_mmu::IoMMU;
use crate::le;
use crate::mmu::laws;
use crate::mmu::{Page, PageFlags, MMU};
use crate::vaddr::VAddr;

verus! {

/// How an access ended.
#[derive(Clone, Copy, Debug, PartialEq, Eq, Structural)]
pub enum IoMmuStatus {
    Success,
    Fault,
}

impl IoMmuStatus {
    /// The status as compiled code reads it.
    pub fn code(self) -> (r: u8)
        ensures
            r == if self is Success {
                0
            } else {
                1u8
            },
    {
        match self {
            IoMmuStatus::Success => 0,
            IoMmuStatus::Fault => 1,
        }
    }
}

/// The cache after the pages of an access to `addr .. addr + bytes` were looked up.
pub open spec fn remembered(
    tlb: Seq<TlbEntry>,
    generation: u64,
    pages: Seq<Page<u64>>,
    addr: u64,
    bytes: nat,
) -> Seq<TlbEntry> {
    let p = MMU::<u64>::page_of(addr as nat);
    let one = looked_up(tlb, generation, pages, p);
    if MMU::<u64>::crosses(addr as nat, bytes) {
        looked_up(one, generation, pages, p + 1)
    } else {
        one
    }
}

/// The cache after the page `p` was looked up.
pub open spec fn looked_up(
    tlb: Seq<TlbEntry>,
    generation: u64,
    pages: Seq<Page<u64>>,
    p: nat,
) -> Seq<TlbEntry> {
    tlb.update(
        (p % tlb.len()) as int,
        TlbEntry::remembering(generation, PageNumber(p as u64), pages[p as int]),
    )
}

/// After an access the cache holds the lookup of its first page, and of the second one
/// it touches, where the cache has room for both.
pub proof fn accesses_are_remembered(
    tlb: Tlb,
    generation: u64,
    pages: Seq<Page<u64>>,
    addr: u64,
    bytes: nat,
)
    requires
        tlb.wf(),
        tlb.entries@.len() > 1,
    ensures
        ({
            let p = MMU::<u64>::page_of(addr as nat);
            let len = tlb.entries@.len();
            let after = remembered(tlb.entries@, generation, pages, addr, bytes);
            &&& after.len() == len
            &&& after[(p % len) as int] == TlbEntry::remembering(
                generation,
                PageNumber(p as u64),
                pages[p as int],
            )
            &&& MMU::<u64>::crosses(addr as nat, bytes) ==> after[((p + 1) % len) as int]
                == TlbEntry::remembering(
                generation,
                PageNumber((p + 1) as u64),
                pages[(p + 1) as int],
            )
        }),
{
    let p = MMU::<u64>::page_of(addr as nat);
    let len = tlb.entries@.len();
    assert(p % len < len && (p + 1) % len < len);
    assert(p % len != (p + 1) % len) by {
        if p % len == (p + 1) % len {
            vstd::arithmetic::div_mod::lemma_fundamental_div_mod(p as int, len as int);
            vstd::arithmetic::div_mod::lemma_fundamental_div_mod((p + 1) as int, len as int);
            let d = (p + 1) / len - p / len;
            assert(len * ((p + 1) / len) - len * (p / len) == len * d) by (nonlinear_arith)
                requires
                    d == (p + 1) / len - p / len,
            ;
            assert(len * d != 1) by (nonlinear_arith)
                requires
                    len > 1,
            ;
        }
    }
}

/// Remembers the lookup of the page `page_number`.
fn update_tlb(tlb: &mut Tlb, current_generation: u64, page_number: PageNumber, page: &Page<u64>)
    requires
        old(tlb).wf(),
    ensures
        final(tlb).wf(),
        final(tlb).entries@.len() == old(tlb).entries@.len(),
        final(tlb).entries@ == old(tlb).entries@.update(
            old(tlb).index_of(page_number),
            TlbEntry::remembering(current_generation, page_number, *page),
        ),
{
    let size: usize = tlb.entries.len();
    let ghost k = choose|k: nat|
        k < 32 && tlb.entries@.len() == #[trigger] vstd::arithmetic::power2::pow2(k);
    proof {
        vstd::arithmetic::power2::lemma_pow2_pos(k);
        vstd::bits::lemma_u64_low_bits_mask_is_mod(page_number.0, k);
        vstd::bits::lemma_low_bits_mask_values();
        assert(vstd::bits::low_bits_mask(k) == size - 1);
    }
    let mask: u64 = (size - 1) as u64;
    let tlb_index: usize = (page_number.0 & mask) as usize;
    tlb.entries[tlb_index].update_entry(current_generation, page_number, page);
}

/// Remembers the lookup of the page `base_page_number`, and of the page behind it
/// where there is one.
fn update_tlb_int(
    tlb: &mut Tlb,
    current_generation: u64,
    base_page_number: PageNumber,
    page: &Page<u64>,
    second_page: Option<&Page<u64>>,
)
    requires
        old(tlb).wf(),
        second_page is Some ==> base_page_number.0 < u64::MAX,
    ensures
        final(tlb).wf(),
        ({
            let len = old(tlb).entries@.len();
            let one = old(tlb).entries@.update(
                old(tlb).index_of(base_page_number),
                TlbEntry::remembering(current_generation, base_page_number, *page),
            );
            let next = PageNumber((base_page_number.0 + 1) as u64);
            final(tlb).entries@ == match second_page {
                Some(second) => one.update(
                    old(tlb).index_of(next),
                    TlbEntry::remembering(current_generation, next, *second),
                ),
                None => one,
            }
        }),
{
    update_tlb(tlb, current_generation, base_page_number, page);
    if let Some(second_page) = second_page {
        let second_page_number = PageNumber(base_page_number.0 + 1);
        update_tlb(tlb, current_generation, second_page_number, second_page);
    }
}

/// Remembers the lookups of an access that has succeeded.
fn remember_access(
    tlb: &mut Tlb,
    current_generation: u64,
    mmu: &MMU<u64>,
    addr: u64,
    bytes: usize,
    Ghost(required): Ghost<u8>,
)
    requires
        old(tlb).wf(),
        mmu.wf(),
        0 < bytes <= 8,
        mmu.range_accessible(addr as nat, bytes as nat, required),
    ensures
        final(tlb).wf(),
        final(tlb).entries@ == remembered(
            old(tlb).entries@,
            current_generation,
            mmu.pages@,
            addr,
            bytes as nat,
        ),
{
    let page_size: usize = a64::PAGE_SIZE as usize;
    proof {
        a64::address_constants();
        mmu.lemma_small_range(addr as nat, bytes as nat, required);
    }
    let total: usize = mmu.pages.len();
    let (page_number, offset) = addr.div_rem_page_size();
    let second_page = if offset + bytes > page_size {
        Some(&mmu.pages[page_number as usize + 1])
    } else {
        None
    };
    update_tlb_int(
        tlb,
        current_generation,
        PageNumber(page_number),
        &mmu.pages[page_number as usize],
        second_page,
    );
    proof {
        let before = old(tlb).entries@;
        let p = MMU::<u64>::page_of(addr as nat);
        let k = choose|k: nat| k < 32 && before.len() == #[trigger] vstd::arithmetic::power2::pow2(k);
        vstd::arithmetic::power2::lemma_pow2_pos(k);
        let one = looked_up(before, current_generation, mmu.pages@, p);
        assert(p % before.len() < before.len());
        assert(one.len() == before.len());
        assert(PageNumber(p as u64) == PageNumber(page_number));
    }
}

/// Loads a byte for compiled code, and remembers the lookup.
///
/// Nothing is changed on a fault.
pub fn io_mmu_load_byte(
    io_mmu: &IoMMU,
    host: &HostMemory,
    tlb: &mut Tlb,
    addr: u64,
    out: &mut u8,
) -> (r: IoMmuStatus)
    requires
        io_mmu.wf(),
        io_mmu.mmu.backed_by(host@.len()),
        old(tlb).wf(),
    ensures
        final(tlb).wf(),
        r == if io_mmu.mmu.can_access(addr as nat, PageFlags::READ) {
            IoMmuStatus::Success
        } else {
            IoMmuStatus::Fault
        },
        r == IoMmuStatus::Success ==> {
            &&& *final(out) == host@[io_mmu.mmu.host_addr(addr as nat)]
            &&& final(tlb).entries@ == remembered(
                old(tlb).entries@,
                io_mmu.generation,
                io_mmu.mmu.pages@,
                addr,
                1,
            )
        },
        r == IoMmuStatus::Fault ==> *final(out) == *old(out) && final(tlb).entries@
            == old(tlb).entries@,
{
    match io_mmu.mmu.load_byte(host, addr) {
        Ok(byte) => {
            let current_generation = io_mmu.get_generation();
            remember_access(tlb, current_generation, &io_mmu.mmu, addr, 1, Ghost(PageFlags::READ));
            *out = byte;
            IoMmuStatus::Success
        },
        Err(_) => IoMmuStatus::Fault,
    }
}

/// Stores a byte for compiled code, and remembers the lookup.
///
/// Nothing is changed on a fault.
pub fn io_mmu_store_byte(
    io_mmu: &mut IoMMU,
    host: &mut HostMemory,
    tlb: &mut Tlb,
    addr: u64,
    value: u8,
) -> (r: IoMmuStatus)
    requires
        old(io_mmu).wf(),
        old(io_mmu).mmu.backed_by(old(host)@.len()),
        old(tlb).wf(),
    ensures
        final(tlb).wf(),
        final(io_mmu).wf(),
        final(io_mmu).mmu.backed_by(final(host)@.len()),
        final(io_mmu).generation == old(io_mmu).generation,
        r == if old(io_mmu).mmu.can_access(addr as nat, PageFlags::WRITE) {
            IoMmuStatus::Success
        } else {
            IoMmuStatus::Fault
        },
        r == IoMmuStatus::Success ==> {
            &&& final(host)@ == old(io_mmu).mmu.stored(old(host)@, addr as nat, seq![value])
            &&& final(io_mmu).mmu.pages@ == old(io_mmu).mmu.stored_pages(addr as nat, 1)
            &&& final(tlb).entries@ == remembered(
                old(tlb).entries@,
                old(io_mmu).generation,
                final(io_mmu).mmu.pages@,
                addr,
                1,
            )
        },
        r == IoMmuStatus::Fault ==> {
            &&& final(host)@ == old(host)@
            &&& final(io_mmu).mmu.pages@ == old(io_mmu).mmu.pages@
            &&& final(tlb).entries@ == old(tlb).entries@
        },
{
    let ghost before = io_mmu.mmu;
    match io_mmu.mmu.store_byte(host, addr, value) {
        Ok(()) => {
            proof {
                laws::store_keeps_mapping(before, io_mmu.mmu, addr as nat, 1);
                assert(io_mmu.mmu.can_access(addr as nat, PageFlags::WRITE));
            }
            let current_generation = io_mmu.get_generation();
            remember_access(tlb, current_generation, &io_mmu.mmu, addr, 1, Ghost(PageFlags::WRITE));
            IoMmuStatus::Success
        },
        Err(_) => IoMmuStatus::Fault,
    }
}

/// Loads a little-endian `u64` for compiled code, and remembers the lookup.
///
/// Nothing is changed on a fault.
pub fn io_mmu_load64_le(
    io_mmu: &IoMMU,
    host: &HostMemory,
    tlb: &mut Tlb,
    addr: u64,
    out: &mut u64,
) -> (r: IoMmuStatus)
    requires
        io_mmu.wf(),
        io_mmu.mmu.backed_by(host@.len()),
        old(tlb).wf(),
    ensures
        final(tlb).wf(),
        r == if io_mmu.mmu.range_accessible(addr as nat, 8, PageFlags::READ) {
            IoMmuStatus::Success
        } else {
            IoMmuStatus::Fault
        },
        r == IoMmuStatus::Success ==> {
            &&& *final(out) == le::value_of(io_mmu.mmu.loaded(host@, addr as nat, 8))
            &&& final(tlb).entries@ == remembered(
                old(tlb).entries@,
                io_mmu.generation,
                io_mmu.mmu.pages@,
                addr,
                8,
            )
        },
        r == IoMmuStatus::Fault ==> *final(out) == *old(out) && final(tlb).entries@ == old(tlb).entries@,
{
    match io_mmu.mmu.load64_le(host, addr) {
        Ok(value) => {
            let current_generation = io_mmu.get_generation();
            remember_access(tlb, current_generation, &io_mmu.mmu, addr, 8, Ghost(PageFlags::READ));
            *out = value;
            IoMmuStatus::Success
        },
        Err(_) => IoMmuStatus::Fault,
    }
}

/// Loads a little-endian `u32` for compiled code, and remembers the lookup.
///
/// Nothing is changed on a fault.
pub fn io_mmu_load32_le(
    io_mmu: &IoMMU,
    host: &HostMemory,
    tlb: &mut Tlb,
    addr: u64,
    out: &mut u32,
) -> (r: IoMmuStatus)
    requires
        io_mmu.wf(),
        io_mmu.mmu.backed_by(host@.len()),
        old(tlb).wf(),
    ensures
        final(tlb).wf(),
        r == if io_mmu.mmu.range_accessible(addr as nat, 4, PageFlags::READ) {
            IoMmuStatus::Success
        } else {
            IoMmuStatus::Fault
        },
        r == IoMmuStatus::Success ==> {
            &&& *final(out) == le::value_of(io_mmu.mmu.loaded(host@, addr as nat, 4))
            &&& final(tlb).entries@ == remembered(
                old(tlb).entries@,
                io_mmu.generation,
                io_mmu.mmu.pages@,
                addr,
                4,
            )
        },
        r == IoMmuStatus::Fault ==> *final(out) == *old(out) && final(tlb).entries@ == old(tlb).entries@,
{
    match io_mmu.mmu.load32_le(host, addr) {
        Ok(value) => {
            let current_generation = io_mmu.get_generation();
            remember_access(tlb, current_generation, &io_mmu.mmu, addr, 4, Ghost(PageFlags::READ));
            *out = value;
            IoMmuStatus::Success
        },
        Err(_) => IoMmuStatus::Fault,
    }
}

/// Loads a little-endian `u16` for compiled code, and remembers the lookup.
///
/// Nothing is changed on a fault.
pub fn io_mmu_load16_le(
    io_mmu: &IoMMU,
    host: &HostMemory,
    tlb: &mut Tlb,
    addr: u64,
    out: &mut u16,
) -> (r: IoMmuStatus)
    requires
        io_mmu.wf(),
        io_mmu.mmu.backed_by(host@.len()),
        old(tlb).wf(),
    ensures
        final(tlb).wf(),
        r == if io_mmu.mmu.range_accessible(addr as nat, 2, PageFlags::READ) {
            IoMmuStatus::Success
        } else {
            IoMmuStatus::Fault
        },
        r == IoMmuStatus::Success ==> {
            &&& *final(out) == le::value_of(io_mmu.mmu.loaded(host@, addr as nat, 2))
            &&& final(tlb).entries@ == remembered(
                old(tlb).entries@,
                io_mmu.generation,
                io_mmu.mmu.pages@,
                addr,
                2,
            )
        },
        r == IoMmuStatus::Fault ==> *final(out) == *old(out) && final(tlb).entries@ == old(tlb).entries@,
{
    match io_mmu.mmu.load16_le(host, addr) {
        Ok(value) => {
            let current_generation = io_mmu.get_generation();
            remember_access(tlb, current_generation, &io_mmu.mmu, addr, 2, Ghost(PageFlags::READ));
            *out = value;
            IoMmuStatus::Success
        },
        Err(_) => IoMmuStatus::Fault,
    }
}

/// Stores a little-endian `u64` for compiled code, and remembers the lookup.
///
/// Nothing is changed on a fault.
pub fn io_mmu_store64_le(
    io_mmu: &mut IoMMU,
    host: &mut HostMemory,
    tlb: &mut Tlb,
    addr: u64,
    value: u64,
) -> (r: IoMmuStatus)
    requires
        old(io_mmu).wf(),
        old(io_mmu).mmu.backed_by(old(host)@.len()),
        old(tlb).wf(),
    ensures
        final(tlb).wf(),
        final(io_mmu).wf(),
        final(io_mmu).mmu.backed_by(final(host)@.len()),
        final(io_mmu).generation == old(io_mmu).generation,
        r == if old(io_mmu).mmu.range_accessible(addr as nat, 8, PageFlags::WRITE) {
            IoMmuStatus::Success
        } else {
            IoMmuStatus::Fault
        },
        r == IoMmuStatus::Success ==> {
            &&& final(host)@ == old(io_mmu).mmu.stored(
                old(host)@,
                addr as nat,
                le::bytes_of(value as nat, 8),
            )
            &&& final(io_mmu).mmu.pages@ == old(io_mmu).mmu.stored_pages(addr as nat, 8)
            &&& final(tlb).entries@ == remembered(
                old(tlb).entries@,
                old(io_mmu).generation,
                final(io_mmu).mmu.pages@,
                addr,
                8,
            )
        },
        r == IoMmuStatus::Fault ==> {
            &&& final(host)@ == old(host)@
            &&& final(io_mmu).mmu.pages@ == old(io_mmu).mmu.pages@
            &&& final(tlb).entries@ == old(tlb).entries@
        },
{
    let ghost before = io_mmu.mmu;
    match io_mmu.mmu.store64_le(host, addr, value) {
        Ok(()) => {
            proof {
                laws::store_keeps_mapping(before, io_mmu.mmu, addr as nat, 8);
                assert forall|x: nat| addr <= x < addr + 8 implies #[trigger] io_mmu.mmu.can_access(
                    x,
                    PageFlags::WRITE,
                ) by {
                    assert(before.can_access(x, PageFlags::WRITE));
                }
            }
            let current_generation = io_mmu.get_generation();
            remember_access(tlb, current_generation, &io_mmu.mmu, addr, 8, Ghost(PageFlags::WRITE));
            IoMmuStatus::Success
        },
        Err(_) => IoMmuStatus::Fault,
    }
}

/// Stores a little-endian `u32` for compiled code, and remembers the lookup.
///
/// Nothing is changed on a fault.
pub fn io_mmu_store32_le(
    io_mmu: &mut IoMMU,
    host: &mut HostMemory,
    tlb: &mut Tlb,
    addr: u64,
    value: u32,
) -> (r: IoMmuStatus)
    requires
        old(io_mmu).wf(),
        old(io_mmu).mmu.backed_by(old(host)@.len()),
        old(tlb).wf(),
    ensures
        final(tlb).wf(),
        final(io_mmu).wf(),
        final(io_mmu).mmu.backed_by(final(host)@.len()),
        final(io_mmu).generation == old(io_mmu).generation,
        r == if old(io_mmu).mmu.range_accessible(addr as nat, 4, PageFlags::WRITE) {
            IoMmuStatus::Success
        } else {
            IoMmuStatus::Fault
        },
        r == IoMmuStatus::Success ==> {
            &&& final(host)@ == old(io_mmu).mmu.stored(
                old(host)@,
                addr as nat,
                le::bytes_of(value as nat, 4),
            )
            &&& final(io_mmu).mmu.pages@ == old(io_mmu).mmu.stored_pages(addr as nat, 4)
            &&& final(tlb).entries@ == remembered(
                old(tlb).entries@,
                old(io_mmu).generation,
                final(io_mmu).mmu.pages@,
                addr,
                4,
            )
        },
        r == IoMmuStatus::Fault ==> {
            &&& final(host)@ == old(host)@
            &&& final(io_mmu).mmu.pages@ == old(io_mmu).mmu.pages@
            &&& final(tlb).entries@ == old(tlb).entries@
        },
{
    let ghost before = io_mmu.mmu;
    match io_mmu.mmu.store32_le(host, addr, value) {
        Ok(()) => {
            proof {
                laws::store_keeps_mapping(before, io_mmu.mmu, addr as nat, 4);
                assert forall|x: nat| addr <= x < addr + 4 implies #[trigger] io_mmu.mmu.can_access(
                    x,
                    PageFlags::WRITE,
                ) by {
                    assert(before.can_access(x, PageFlags::WRITE));
                }
            }
            let current_generation = io_mmu.get_generation();
            remember_access(tlb, current_generation, &io_mmu.mmu, addr, 4, Ghost(PageFlags::WRITE));
            IoMmuStatus::Success
        },
        Err(_) => IoMmuStatus::Fault,
    }
}

/// Stores a little-endian `u16` for compiled code, and remembers the lookup.
///
/// Nothing is changed on a fault.
pub fn io_mmu_store16_le(
    io_mmu: &mut IoMMU,
    host: &mut HostMemory,
    tlb: &mut Tlb,
    addr: u64,
    value: u16,
) -> (r: IoMmuStatus)
    requires
        old(io_mmu).wf(),
        old(io_mmu).mmu.backed_by(old(host)@.len()),
        old(tlb).wf(),
    ensures
        final(tlb).wf(),
        final(io_mmu).wf(),
        final(io_mmu).mmu.backed_by(final(host)@.len()),
        final(io_mmu).generation == old(io_mmu).generation,
        r == if old(io_mmu).mmu.range_accessible(addr as nat, 2, PageFlags::WRITE) {
            IoMmuStatus::Success
        } else {
            IoMmuStatus::Fault
        },
        r == IoMmuStatus::Success ==> {
            &&& final(host)@ == old(io_mmu).mmu.stored(
                old(host)@,
                addr as nat,
                le::bytes_of(value as nat, 2),
            )
            &&& final(io_mmu).mmu.pages@ == old(io_mmu).mmu.stored_pages(addr as nat, 2)
            &&& final(tlb).entries@ == remembered(
                old(tlb).entries@,
                old(io_mmu).generation,
                final(io_mmu).mmu.pages@,
                addr,
                2,
            )
        },
        r == IoMmuStatus::Fault ==> {
            &&& final(host)@ == old(host)@
            &&& final(io_mmu).mmu.pages@ == old(io_mmu).mmu.pages@
            &&& final(tlb).entries@ == old(tlb).entries@
        },
{
    let ghost before = io_mmu.mmu;
    match io_mmu.mmu.store16_le(host, addr, value) {
        Ok(()) => {
            proof {
                laws::store_keeps_mapping(before, io_mmu.mmu, addr as nat, 2);
                assert forall|x: nat| addr <= x < addr + 2 implies #[trigger] io_mmu.mmu.can_access(
                    x,
                    PageFlags::WRITE,
                ) by {
                    assert(before.can_access(x, PageFlags::WRITE));
                }
            }
            let current_generation = io_mmu.get_generation();
            remember_access(tlb, current_generation, &io_mmu.mmu, addr, 2, Ghost(PageFlags::WRITE));
            IoMmuStatus::Success
        },
        Err(_) => IoMmuStatus::Fault,
    }
}

} // verus!
