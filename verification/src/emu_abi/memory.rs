//! Pages, and the cache of page lookups.

use vstd::prelude::*;
use crate::mmu::Page;

verus! {

/// The number of a page of virtual memory.
#[derive(Clone, Copy, PartialEq, Eq, Structural, Debug)]
pub struct PageNumber(pub u64);

/// The host pointer of a page's bytes.
#[derive(Clone, Copy, PartialEq, Eq, Structural, Debug)]
pub struct PagePointer(pub usize);

/// A remembered page lookup.
#[derive(Clone, Copy, PartialEq, Eq, Structural, Debug)]
pub struct TlbEntry {
    /// When the lookup was made; zero for an entry that was never used.
    pub generation: u64,
    pub page_number: PageNumber,
    pub ptr: Option<usize>,
    pub page_flags: u8,
}

impl TlbEntry {
    /// The entry that remembers `page` as the page `page_number`.
    pub open spec fn remembering(
        generation: u64,
        page_number: PageNumber,
        page: Page<u64>,
    ) -> TlbEntry {
        TlbEntry { generation, page_number, ptr: page.ptr, page_flags: page.page_flags.bits }
    }

    /// An entry that was never used.
    pub fn empty() -> (r: Self)
        ensures
            r == (TlbEntry {
                generation: 0,
                page_number: PageNumber(0),
                ptr: None,
                page_flags: 0,
            }),
    {
        TlbEntry { generation: 0, page_number: PageNumber(0), ptr: None, page_flags: 0 }
    }

    /// Remembers `page` as the page `page_number`.
    pub fn update_entry(&mut self, generation: u64, page_number: PageNumber, page: &Page<u64>)
        ensures
            *final(self) == Self::remembering(generation, page_number, *page),
    {
        *self = TlbEntry {
            generation,
            page_number,
            ptr: page.ptr,
            page_flags: page.page_flags.bits,
        };
    }
}

/// The cache of page lookups. Its size is a power of two, and the low bits of a page
/// number pick its entry.
pub struct Tlb {
    pub entries: Vec<TlbEntry>,
}

impl Tlb {
    pub open spec fn wf(self) -> bool {
        exists|k: nat| k < 32 && self.entries@.len() == #[trigger] vstd::arithmetic::power2::pow2(k)
    }

    /// The entry of a page.
    pub open spec fn index_of(self, page_number: PageNumber) -> int {
        (page_number.0 as nat % self.entries@.len()) as int
    }
}

/// A fresh entry has the generation zero, which no memory has, and maps nothing. An entry that
/// is updated holds the generation, the number of the page, and where and how it is mapped.
pub proof fn entries_hold_their_page(
    fresh: TlbEntry,
    after: TlbEntry,
    generation: u64,
    page_number: PageNumber,
    page: Page<u64>,
)
    requires
        call_ensures(TlbEntry::empty, (), fresh),
        exists|entry: &mut TlbEntry|
            *final(entry) == after && #[trigger] call_ensures(
                TlbEntry::update_entry,
                (entry, generation, page_number, &page),
                (),
            ),
    ensures
        fresh.generation == 0,
        fresh.ptr is None,
        fresh.page_flags == 0,
        after.generation == generation,
        after.page_number == page_number,
        after.ptr == page.ptr,
        after.page_flags == page.page_flags.bits,
{
}

} // verus!
