//! Page-based virtual memory abstraction backed by host memory.
//!
//! This module implements a small MMU-like layer that maps guest virtual pages
//! onto host memory and enforces per-page access permissions.
//!
//! - Memory is mapped in page-sized chunks.
//! - Each page may be readable, writable, and/or executable.
//! - Unmapped access or permission violations return [`MemoryFault`].
//! - Byte-range reads and writes may span multiple pages.
//! - Scalar load/store helpers are provided for 8/16/32/64-bit little-endian
//!   accesses. They may cross page boundaries when both pages are mapped with the
//!   required permissions.
//! - Executable pages that are written to turn dirty, so that stale instructions
//!   can be found.
//!
//! A host pointer is an offset into a [`crate::host_memory::HostMemory`]. Accesses are
//! described one at a time: what racing accesses observe of each other is not.
//!
//! Typical usage:
//! 1. Construct an [`MMU`].
//! 2. Map one or more host memory regions with [`MMU::map_memory`].
//! 3. Access byte ranges through [`MMU::load`] / [`MMU::store`].
//! 4. Access scalars through `load_byte/load16_le/load32_le/load64_le` and
//!    `store_byte/store16_le/store32_le/store64_le`.

pub mod access;
pub mod access_laws;
pub mod flags;
pub mod laws;
pub mod mapping_laws;
pub mod page;
pub mod page_laws;
pub mod scalar;

use vstd::prelude::*;
use crate::paging;
use crate::vaddr;
use crate::vaddr::VAddr;
pub use crate::mmu::flags::{MemoryProtections, PageFlags};
pub use crate::mmu::page::Page;

verus! {

/// Fault returned when a memory access is invalid.
///
/// This is returned when an access:
/// - targets an unmapped page,
/// - violates page permissions,
/// - overflows the virtual address range,
/// - fails a required alignment check,
/// - crosses into an unmapped or insufficiently-permitted page,
/// - or otherwise fails MMU validation.
#[derive(Debug, Clone, Copy, PartialEq, Eq, Structural)]
pub struct MemoryFault;

impl MemoryFault {
    /// The fault.
    pub fn fault() -> (r: Self)
        ensures
            r == MemoryFault,
    {
        MemoryFault
    }

    /// What the fault says of itself.
    pub fn message(&self) -> (r: &'static str)
        ensures
            r@ == "invalid memory access"@,
    {
        "invalid memory access"
    }
}

/// Page-mapped virtual memory view over host-backed storage.
///
/// `MMU<A>` maps virtual addresses of type `A` onto page-aligned host memory.
/// Access permissions are checked per page, and invalid access returns
/// [`MemoryFault`].
pub struct MMU<A> {
    pub pages: Vec<Page<A>>,
}

impl<A: VAddr> MMU<A> {
    /// Every page table entry is well formed, and the table covers no address
    /// beyond the last one.
    pub open spec fn wf(self) -> bool {
        &&& self.pages@.len() * A::PAGE_SIZE <= A::max_nat()
        &&& forall|i: int| 0 <= i < self.pages@.len() ==> (#[trigger] self.pages@[i]).wf()
    }

    /// All mapped bytes lie inside a host region of `len` bytes.
    pub open spec fn backed_by(self, len: nat) -> bool {
        forall|i: int| 0 <= i < self.pages@.len() ==> (#[trigger] self.pages@[i]).backed_by(len)
    }

    /// The page that the address `a` lies in.
    pub open spec fn page_of(a: nat) -> nat {
        a / (A::PAGE_SIZE as nat)
    }

    /// Where in its page the address `a` lies.
    pub open spec fn offset_of(a: nat) -> nat {
        a % (A::PAGE_SIZE as nat)
    }

    /// The byte at `a` may be accessed with the permissions `required`.
    pub open spec fn can_access(self, a: nat, required: u8) -> bool {
        &&& Self::page_of(a) < self.pages@.len()
        &&& self.pages@[Self::page_of(a) as int].page_flags.has(required)
    }

    /// Every byte of `a .. a + len` may be accessed with the permissions `required`.
    pub open spec fn range_accessible(self, a: nat, len: nat, required: u8) -> bool {
        forall|x: nat| a <= x < a + len ==> #[trigger] self.can_access(x, required)
    }

    /// The host pointer of the byte at the mapped address `a`.
    pub open spec fn host_addr(self, a: nat) -> int {
        self.pages@[Self::page_of(a) as int].ptr->0 + Self::offset_of(a)
    }

    /// The `len` bytes that the guest sees from the address `a` on.
    pub open spec fn loaded(self, host: Seq<u8>, a: nat, len: nat) -> Seq<u8> {
        Seq::new(len, |i: int| host[self.host_addr((a + i) as nat)])
    }

    /// The host bytes after the guest has written `data` from the address `a` on,
    /// first byte first.
    pub open spec fn stored(self, host: Seq<u8>, a: nat, data: Seq<u8>) -> Seq<u8>
        decreases data.len(),
    {
        if data.len() == 0 {
            host
        } else {
            self.stored(host, a, data.drop_last()).update(
                self.host_addr((a + data.len() - 1) as nat),
                data.last(),
            )
        }
    }

    /// The page table after a store to `a .. a + len`: executable pages that were
    /// touched are dirty.
    pub open spec fn stored_pages(self, a: nat, len: nat) -> Seq<Page<A>> {
        Seq::new(
            self.pages@.len(),
            |i: int|
                if len > 0 && Self::page_of(a) <= i <= Self::page_of((a + len - 1) as nat) {
                    self.pages@[i].after_store()
                } else {
                    self.pages@[i]
                },
        )
    }

    /// A mapping request that is accepted.
    pub open spec fn mapping_valid(base: A, ptr: usize, size: A) -> bool {
        &&& base.as_nat() + size.as_nat() <= A::max_nat()
        &&& base.as_nat() % (A::PAGE_SIZE as nat) == 0
        &&& size.as_nat() % (A::PAGE_SIZE as nat) == 0
        &&& ptr as nat % (A::PAGE_SIZE as nat) == 0
    }

    /// The page table after `size` bytes of host memory from `ptr` on were mapped
    /// at `base`.
    pub open spec fn mapped_pages(
        self,
        base: A,
        ptr: usize,
        size: A,
        protections: MemoryProtections,
    ) -> Seq<Page<A>> {
        let start = Self::page_of(base.as_nat());
        let end = Self::page_of(base.as_nat() + size.as_nat());
        let len = if self.pages@.len() < end { end } else { self.pages@.len() };
        Seq::new(
            len,
            |i: int|
                if start <= i < end {
                    Page::spec_mapped((ptr + (i - start) * A::PAGE_SIZE) as usize, protections)
                } else if i < self.pages@.len() {
                    self.pages@[i]
                } else {
                    Page::spec_unmapped()
                },
        )
    }

    /// `start .. start + size` is a run of whole pages of the table.
    pub open spec fn is_page_range(self, start: A, size: A) -> bool {
        &&& start.as_nat() % (A::PAGE_SIZE as nat) == 0
        &&& size.as_nat() % (A::PAGE_SIZE as nat) == 0
        &&& Self::page_of(start.as_nat() + size.as_nat()) <= self.pages@.len()
    }

    /// Page `i` lies in `start .. start + size`.
    pub open spec fn in_range(i: int, start: A, size: A) -> bool {
        Self::page_of(start.as_nat()) <= i < Self::page_of(start.as_nat() + size.as_nat())
    }

    /// Creates an empty MMU with no mapped pages.
    ///
    /// All accesses fault until memory is mapped with [`MMU::map_memory`].
    pub fn new() -> (r: Self)
        ensures
            r.pages@.len() == 0,
            r.wf(),
            forall|len: nat| r.backed_by(len),
    {
        MMU { pages: vec![] }
    }

    /// Maps a host memory region into the MMU page table.
    ///
    /// `base` is the starting virtual address, `ptr` is the backing host pointer,
    /// and `size` is the mapping size in bytes.
    ///
    /// Requirements:
    /// - `base` must be page-aligned,
    /// - `size` must be page-aligned,
    /// - `ptr` must be aligned to the page size,
    /// - `base + size` must not overflow.
    ///
    /// Permissions are applied to every mapped page in the region.
    ///
    /// The number of pages and the end of the host region must fit the host's
    /// pointer width.
    ///
    /// Returns [`MemoryFault`] if alignment or address validation fails.
    pub fn map_memory(
        &mut self,
        base: A,
        ptr: usize,
        size: A,
        protections: MemoryProtections,
    ) -> (r: Result<(), MemoryFault>)
        requires
            old(self).wf(),
            Self::mapping_valid(base, ptr, size) ==> {
                &&& Self::page_of(base.as_nat() + size.as_nat()) <= usize::MAX
                &&& ptr + size.as_nat() <= usize::MAX
            },
        ensures
            final(self).wf(),
            r is Ok <==> Self::mapping_valid(base, ptr, size),
            r is Ok ==> final(self).pages@ == old(self).mapped_pages(base, ptr, size, protections),
            r is Err ==> final(self).pages@ == old(self).pages@,
            forall|len: nat|
                old(self).backed_by(len) && ptr + size.as_nat() <= len ==> #[trigger] final(self).backed_by(len),
    {
        proof {
            vaddr::lemma_page_size::<A>();
        }
        let end_vaddr = match base.add_addr(size) {
            Some(end_vaddr) => end_vaddr,
            None => return Err(MemoryFault::fault()),
        };
        proof {
            A::as_nat_facts(end_vaddr, end_vaddr);
        }
        if !base.is_page_aligned() || !size.is_page_aligned() || ptr % A::PAGE_SIZE != 0 {
            return Err(MemoryFault::fault());
        }
        let ghost ps = A::PAGE_SIZE as nat;
        let ghost start = Self::page_of(base.as_nat());
        let ghost end = Self::page_of(base.as_nat() + size.as_nat());
        proof {
            paging::lemma_aligned_sum(base.as_nat(), size.as_nat(), ps);
            paging::lemma_page_parts(base.as_nat(), ps);
            paging::lemma_page_parts(end_vaddr.as_nat(), ps);
            paging::lemma_page_parts(size.as_nat(), ps);
        }
        let end_page = match end_vaddr.div_page_size_unchecked().try_to_usize() {
            Some(end_page) => end_page,
            None => return Err(MemoryFault::fault()),
        };
        let start_page = match base.div_page_size_unchecked().try_to_usize() {
            Some(start_page) => start_page,
            None => return Err(MemoryFault::fault()),
        };
        let ghost len0 = self.pages@.len();
        while self.pages.len() < end_page
            invariant
                end_page == end,
                len0 == old(self).pages@.len(),
                self.pages@.len() == len0 || len0 <= self.pages@.len() <= end_page,
                forall|i: int| 0 <= i < len0 ==> self.pages@[i] == old(self).pages@[i],
                forall|i: int|
                    len0 <= i < self.pages@.len() ==> self.pages@[i] == Page::<A>::spec_unmapped(),
            decreases end_page - self.pages@.len(),
        {
            self.pages.push(Page::unmapped());
        }
        let ghost len1 = self.pages@.len();
        let ghost padded = self.pages@;
        let mut page_idx: usize = start_page;
        while page_idx < end_page
            invariant
                ps == A::PAGE_SIZE,
                start_page == start,
                end_page == end,
                start_page <= page_idx <= end_page,
                end_page <= len1,
                self.pages@.len() == len1 == padded.len(),
                ptr + (end - start) * ps <= usize::MAX,
                forall|i: int|
                    start_page <= i < page_idx ==> self.pages@[i] == Page::<A>::spec_mapped(
                        (ptr + (i - start) * A::PAGE_SIZE) as usize,
                        protections,
                    ),
                forall|i: int|
                    0 <= i < len1 && !(start_page <= i < page_idx) ==> self.pages@[i] == padded[i],
            decreases end_page - page_idx,
        {
            proof {
                let k = (page_idx - start) as nat;
                paging::lemma_page_starts(k, (end - start) as nat, ps);
            }
            let backing_page_idx: usize = page_idx - start_page;
            let page_ptr: usize = ptr + backing_page_idx * A::PAGE_SIZE;
            self.pages[page_idx] = Page::mapped(page_ptr, protections);
            page_idx = page_idx + 1;
        }
        proof {
            let target = old(self).mapped_pages(base, ptr, size, protections);
            assert(target.len() == len1);
            assert forall|i: int| 0 <= i < len1 implies self.pages@[i] == target[i] by {
                if start <= i < end {
                    assert(self.pages@[i] == Page::<A>::spec_mapped(
                        (ptr + (i - start) * A::PAGE_SIZE) as usize,
                        protections,
                    ));
                    assert(target[i] == Page::<A>::spec_mapped(
                        (ptr + (i - start) * A::PAGE_SIZE) as usize,
                        protections,
                    ));
                } else if i < len0 {
                    assert(padded[i] == old(self).pages@[i]);
                } else {
                    assert(padded[i] == Page::<A>::spec_unmapped());
                }
            }
            assert(self.pages@ =~= old(self).mapped_pages(base, ptr, size, protections));
            assert forall|i: int| 0 <= i < self.pages@.len() implies (#[trigger] self.pages@[i]).wf() by {
                if start <= i < end {
                    let k = (i - start) as nat;
                    paging::lemma_page_starts(k, (end - start) as nat, ps);
                    paging::lemma_page_of(k * ps, k, ps);
                    paging::lemma_aligned_sum(ptr as nat, k * ps, ps);
                } else if i >= len0 {
                    Self::unmapped_is_wf();
                } else {
                    assert(old(self).pages@[i].wf());
                }
            }
            assert forall|len: nat|
                old(self).backed_by(len) && ptr + size.as_nat() <= len implies #[trigger] self.backed_by(
                len,
            ) by {
                assert forall|i: int| 0 <= i < self.pages@.len() implies (#[trigger] self.pages@[i]).backed_by(
                    len,
                ) by {
                    if start <= i < end {
                        let k = (i - start) as nat;
                        paging::lemma_page_starts(k, (end - start) as nat, ps);
                    } else if i < len0 {
                        assert(old(self).pages@[i].backed_by(len));
                    }
                }
            }
        }
        Ok(())
    }

    proof fn unmapped_is_wf()
        ensures
            Page::<A>::spec_unmapped().wf(),
    {
        assert(0u8 & 1 == 0 && 0u8 & 2 == 0 && 0u8 & 4 == 0) by (bit_vector);
    }

    /// The page numbers of a run of whole pages: its first, and the one after its last.
    fn page_range(&self, start: A, size: A) -> (r: Result<(usize, usize), MemoryFault>)
        requires
            self.wf(),
        ensures
            match r {
                Ok((start_page, end_page)) => {
                    &&& self.is_page_range(start, size)
                    &&& start_page == Self::page_of(start.as_nat())
                    &&& end_page == Self::page_of(start.as_nat() + size.as_nat())
                    &&& start_page <= end_page <= self.pages@.len()
                },
                Err(_) => !self.is_page_range(start, size),
            },
    {
        let ghost ps = A::PAGE_SIZE as nat;
        let ghost a = start.as_nat();
        let ghost b = start.as_nat() + size.as_nat();
        proof {
            vaddr::lemma_page_size::<A>();
            if a % ps == 0 && size.as_nat() % ps == 0 {
                paging::lemma_aligned_sum(a, size.as_nat(), ps);
                paging::lemma_page_parts(b, ps);
                if b / ps <= self.pages@.len() {
                    vstd::arithmetic::mul::lemma_mul_inequality(
                        (b / ps) as int,
                        self.pages@.len() as int,
                        ps as int,
                    );
                }
            }
            if a % ps == 0 && b % ps == 0 {
                paging::lemma_page_parts(a, ps);
                paging::lemma_page_parts(b, ps);
                paging::lemma_page_order(a, b, ps);
                let d = (b / ps - a / ps) as nat;
                assert(size.as_nat() == d * ps) by (nonlinear_arith)
                    requires
                        d == b / ps - a / ps,
                        size.as_nat() == b - a,
                        a == (a / ps) * ps,
                        b == (b / ps) * ps,
                ;
                paging::lemma_page_of(size.as_nat(), d, ps);
            }
        }
        let end = match start.add_addr(size) {
            Some(end) => end,
            None => return Err(MemoryFault::fault()),
        };
        let (end_page, end_remainder) = end.div_rem_page_size();
        let (start_page, start_remainder) = start.div_rem_page_size();
        if end_remainder != 0 || start_remainder != 0 {
            return Err(MemoryFault::fault());
        }
        let len: usize = self.pages.len();
        let start_page = match start_page.try_to_usize() {
            Some(start_page) => start_page,
            None => return Err(MemoryFault::fault()),
        };
        let end_page = match end_page.try_to_usize() {
            Some(end_page) => end_page,
            None => return Err(MemoryFault::fault()),
        };
        if end_page > len {
            return Err(MemoryFault::fault());
        }
        Ok((start_page, end_page))
    }

    /// Unmaps a run of whole pages of the page table.
    pub fn unmap_memory(&mut self, start: A, size: A) -> (r: Result<(), MemoryFault>)
        requires
            old(self).wf(),
        ensures
            final(self).wf(),
            r is Ok <==> old(self).is_page_range(start, size),
            r is Ok ==> final(self).pages@ == Seq::new(
                old(self).pages@.len(),
                |i: int|
                    if Self::in_range(i, start, size) {
                        Page::spec_unmapped()
                    } else {
                        old(self).pages@[i]
                    },
            ),
            r is Err ==> final(self).pages@ == old(self).pages@,
            forall|len: nat| old(self).backed_by(len) ==> #[trigger] final(self).backed_by(len),
    {
        let (start_page, end_page) = match self.page_range(start, size) {
            Ok(range) => range,
            Err(fault) => return Err(fault),
        };
        let mut i: usize = start_page;
        while i < end_page
            invariant
                start_page <= i <= end_page <= self.pages@.len(),
                self.pages@.len() == old(self).pages@.len(),
                forall|j: int|
                    0 <= j < self.pages@.len() ==> self.pages@[j] == if start_page <= j < i {
                        Page::<A>::spec_unmapped()
                    } else {
                        old(self).pages@[j]
                    },
            decreases end_page - i,
        {
            self.pages[i].unmap();
            i = i + 1;
        }
        proof {
            Self::unmapped_is_wf();
            assert forall|j: int| 0 <= j < self.pages@.len() implies (#[trigger] self.pages@[j]).wf() by {
                assert(old(self).pages@[j].wf());
            }
            assert forall|len: nat| old(self).backed_by(len) implies #[trigger] self.backed_by(len) by {
                assert forall|j: int| 0 <= j < self.pages@.len() implies (#[trigger] self.pages@[j]).backed_by(
                    len,
                ) by {
                    assert(old(self).pages@[j].backed_by(len));
                }
            }
        }
        Ok(())
    }

    /// Every page of `start .. start + size` is mapped.
    pub open spec fn range_mapped(self, start: A, size: A) -> bool {
        forall|i: int|
            0 <= i < self.pages@.len() && Self::in_range(i, start, size) ==> (
            #[trigger] self.pages@[i]).ptr is Some
    }

    /// Replaces the permissions of a run of whole, mapped pages.
    ///
    /// Nothing changes if any page of the run is unmapped.
    pub fn mem_protect(&mut self, start: A, size: A, protections: MemoryProtections) -> (r: Result<
        (),
        MemoryFault,
    >)
        requires
            old(self).wf(),
        ensures
            final(self).wf(),
            r is Ok <==> old(self).is_page_range(start, size) && old(self).range_mapped(start, size),
            r is Ok ==> final(self).pages@ == Seq::new(
                old(self).pages@.len(),
                |i: int|
                    if Self::in_range(i, start, size) {
                        Page { page_flags: protections.page_flags(), ..old(self).pages@[i] }
                    } else {
                        old(self).pages@[i]
                    },
            ),
            r is Err ==> final(self).pages@ == old(self).pages@,
            forall|len: nat| old(self).backed_by(len) ==> #[trigger] final(self).backed_by(len),
    {
        let (start_page, end_page) = match self.page_range(start, size) {
            Ok(range) => range,
            Err(fault) => return Err(fault),
        };
        let mut i: usize = start_page;
        while i < end_page
            invariant
                *self == *old(self),
                old(self).wf(),
                start_page == Self::page_of(start.as_nat()),
                end_page == Self::page_of(start.as_nat() + size.as_nat()),
                start_page <= i <= end_page <= self.pages@.len(),
                forall|j: int| start_page <= j < i ==> (#[trigger] self.pages@[j]).ptr is Some,
            decreases end_page - i,
        {
            if !self.pages[i].is_mapped() {
                assert(!self.range_mapped(start, size)) by {
                    assert(Self::in_range(i as int, start, size));
                }
                return Err(MemoryFault::fault());
            }
            i = i + 1;
        }
        let mut i: usize = start_page;
        while i < end_page
            invariant
                start_page <= i <= end_page <= self.pages@.len(),
                self.pages@.len() == old(self).pages@.len(),
                old(self).wf(),
                forall|j: int| start_page <= j < end_page ==> (#[trigger] old(self).pages@[j]).ptr is Some,
                forall|j: int|
                    0 <= j < self.pages@.len() ==> (#[trigger] self.pages@[j]).wf() && self.pages@[j]
                        == if start_page <= j < i {
                        Page { page_flags: protections.page_flags(), ..old(self).pages@[j] }
                    } else {
                        old(self).pages@[j]
                    },
            decreases end_page - i,
        {
            assert(old(self).pages@[i as int].ptr is Some);
            self.pages[i].mem_protect(protections);
            i = i + 1;
        }
        proof {
            assert forall|len: nat| old(self).backed_by(len) implies #[trigger] self.backed_by(len) by {
                assert forall|j: int| 0 <= j < self.pages@.len() implies (#[trigger] self.pages@[j]).backed_by(
                    len,
                ) by {
                    assert(old(self).pages@[j].backed_by(len));
                }
            }
        }
        Ok(())
    }
}

} // verus!
