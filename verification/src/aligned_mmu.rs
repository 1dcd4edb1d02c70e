//! Page-mapped virtual memory with natural alignment.
//!
//! This view differs from [`crate::mmu`] in two ways: scalar loads and stores must
//! be naturally aligned, and every page that is written to turns dirty, not only
//! the executable ones.
//!
//! - Byte-range reads and writes may span multiple pages.
//! - Aligned 8/16/32/64-bit scalar loads and stores are provided as fast paths.
//! - Unmapped access, misaligned scalar access and permission violations return
//!   [`MemoryFault`].

use vstd::prelude::*;
use crate::host_memory::HostMemory;
use crate::le;
use crate::mmu;
use crate::mmu::laws;
use crate::mmu::{MemoryFault, MemoryProtections, Page, PageFlags};
use crate::paging;
use crate::vaddr;
use crate::vaddr::{InsnFetch, VAddr};

verus! {

/// The bit of a page's flags that says that the page was written to.
pub const DIRTY: u8 = 0b1000;

/// Page-mapped virtual memory view over host-backed storage.
///
/// `MMU<A>` maps virtual addresses of type `A` onto page-aligned host memory.
/// Access permissions are checked per page, and invalid access returns
/// [`MemoryFault`].
pub struct MMU<A> {
    pub table: mmu::MMU<A>,
}

/// Marking a page dirty changes no permission.
proof fn lemma_dirty(b: u8)
    ensures
        (b | DIRTY) & 1 == b & 1,
        (b | DIRTY) & 2 == b & 2,
        (b | DIRTY) & 4 == b & 4,
        (b | DIRTY) | DIRTY == b | DIRTY,
{
    assert((b | 8) & 1 == b & 1 && (b | 8) & 2 == b & 2 && (b | 8) & 4 == b & 4 && (b | 8) | 8 == b
        | 8) by (bit_vector);
}

impl<A: VAddr> MMU<A> {
    pub open spec fn wf(self) -> bool {
        self.table.wf()
    }

    /// All mapped bytes lie inside a host region of `len` bytes.
    pub open spec fn backed_by(self, len: nat) -> bool {
        self.table.backed_by(len)
    }

    /// A scalar of `bytes` bytes at `a` is aligned and may be accessed with the
    /// permissions `required`.
    pub open spec fn can_access_scalar(self, a: nat, bytes: nat, required: u8) -> bool {
        a % bytes == 0 && self.table.can_access(a, required)
    }

    /// A page after a write to its bytes.
    pub open spec fn dirty(page: Page<A>) -> Page<A> {
        Page { page_flags: PageFlags { bits: page.page_flags.bits | DIRTY }, ..page }
    }

    /// The page table after a store to `a .. a + len`: every page that was touched
    /// is dirty.
    pub open spec fn dirtied(self, a: nat, len: nat) -> Seq<Page<A>> {
        Seq::new(
            self.table.pages@.len(),
            |i: int|
                if len > 0 && mmu::MMU::<A>::page_of(a) <= i <= mmu::MMU::<A>::page_of(
                    (a + len - 1) as nat,
                ) {
                    Self::dirty(self.table.pages@[i])
                } else {
                    self.table.pages@[i]
                },
        )
    }

    /// Creates an empty MMU with no mapped pages.
    ///
    /// All accesses fault until memory is mapped with [`MMU::map_memory`].
    pub fn new() -> (r: Self)
        ensures
            r.table.pages@.len() == 0,
            r.wf(),
            forall|len: nat| r.backed_by(len),
    {
        MMU { table: mmu::MMU::new() }
    }

    /// Maps a host memory region into the MMU page table.
    ///
    /// `base` is the starting virtual address, `ptr` is the backing host pointer,
    /// and `size` is the mapping size in bytes.
    ///
    /// Requirements:
    /// - `base` must be page-aligned,
    /// - `size` must be page-aligned,
    /// - `ptr` must be aligned to the page size,
    /// - `base + size` must not overflow.
    ///
    /// Permissions are applied to every mapped page in the region.
    ///
    /// The number of pages and the end of the host region must fit the host's
    /// pointer width.
    ///
    /// Returns [`MemoryFault`] if alignment or address validation fails.
    pub fn map_memory(
        &mut self,
        base: A,
        ptr: usize,
        size: A,
        protections: MemoryProtections,
    ) -> (r: Result<(), MemoryFault>)
        requires
            old(self).wf(),
            mmu::MMU::<A>::mapping_valid(base, ptr, size) ==> {
                &&& mmu::MMU::<A>::page_of(base.as_nat() + size.as_nat()) <= usize::MAX
                &&& ptr + size.as_nat() <= usize::MAX
            },
        ensures
            final(self).wf(),
            r is Ok <==> mmu::MMU::<A>::mapping_valid(base, ptr, size),
            r is Ok ==> final(self).table.pages@ == old(self).table.mapped_pages(
                base,
                ptr,
                size,
                protections,
            ),
            r is Err ==> final(self).table.pages@ == old(self).table.pages@,
            forall|len: nat|
                old(self).backed_by(len) && ptr + size.as_nat() <= len ==> #[trigger] final(self).backed_by(len),
    {
        self.table.map_memory(base, ptr, size, protections)
    }

    /// Loads a byte slice from virtual memory into `mem`.
    ///
    /// The load may span multiple pages. Every covered page must be mapped and have
    /// read permission.
    ///
    /// Returns [`MemoryFault`] if the range is unmapped, unreadable, or if address
    /// arithmetic overflows. `mem` is then unchanged.
    pub fn load(&self, host: &HostMemory, vaddr: A, mem: &mut [u8]) -> (r: Result<(), MemoryFault>)
        requires
            self.wf(),
            self.backed_by(host@.len()),
        ensures
            r is Ok <==> self.table.range_accessible(
                vaddr.as_nat(),
                old(mem)@.len(),
                PageFlags::READ,
            ),
            r is Ok ==> final(mem)@ == self.table.loaded(host@, vaddr.as_nat(), old(mem)@.len()),
            r is Err ==> final(mem)@ == old(mem)@,
    {
        self.table.load(host, vaddr, mem)
    }

    /// Marks the pages `first ..= last` dirty, which a store to `a .. a + len` has
    /// just written to.
    fn mark_dirty(
        &mut self,
        first: usize,
        last: usize,
        Ghost(before): Ghost<Self>,
        Ghost(a): Ghost<nat>,
        Ghost(len): Ghost<nat>,
        Ghost(host_len): Ghost<nat>,
    )
        requires
            len > 0,
            before.wf(),
            before.backed_by(host_len),
            old(self).table.pages@ == before.table.stored_pages(a, len),
            first == mmu::MMU::<A>::page_of(a),
            last == mmu::MMU::<A>::page_of((a + len - 1) as nat),
            first <= last < before.table.pages@.len(),
        ensures
            final(self).table.pages@ == before.dirtied(a, len),
            final(self).wf(),
            final(self).backed_by(host_len),
    {
        let total: usize = self.table.pages.len();
        let mut i: usize = first;
        while i <= last
            invariant
                first <= i <= last + 1,
                last < total == self.table.pages@.len() == before.table.pages@.len(),
                forall|j: int|
                    0 <= j < total ==> #[trigger] self.table.pages@[j] == if first <= j < i {
                        Self::dirty(before.table.pages@[j])
                    } else if first <= j <= last {
                        before.table.pages@[j].after_store()
                    } else {
                        before.table.pages@[j]
                    },
            decreases last + 1 - i,
        {
            proof {
                lemma_dirty(before.table.pages@[i as int].page_flags.bits);
            }
            let bits: u8 = self.table.pages[i].load_flags().bits();
            self.table.pages[i].page_flags = PageFlags::from_bits_retain(bits | DIRTY);
            i = i + 1;
        }
        proof {
            assert(self.table.pages@ =~= before.dirtied(a, len));
            assert forall|j: int| 0 <= j < total implies (#[trigger] self.table.pages@[j]).wf()
                && self.table.pages@[j].backed_by(host_len) by {
                assert(before.table.pages@[j].wf() && before.table.pages@[j].backed_by(host_len));
                lemma_dirty(before.table.pages@[j].page_flags.bits);
            }
        }
    }

    /// Stores a byte slice into virtual memory.
    ///
    /// The store may span multiple pages. Every covered page must be mapped and
    /// have write permission.
    ///
    /// Returns [`MemoryFault`] if the range is unmapped, unwritable, or if address
    /// arithmetic overflows. Nothing is written then.
    pub fn store(&mut self, host: &mut HostMemory, vaddr: A, mem: &[u8]) -> (r: Result<
        (),
        MemoryFault,
    >)
        requires
            old(self).wf(),
            old(self).backed_by(old(host)@.len()),
        ensures
            final(self).wf(),
            final(self).backed_by(final(host)@.len()),
            r is Ok <==> old(self).table.range_accessible(
                vaddr.as_nat(),
                mem@.len(),
                PageFlags::WRITE,
            ),
            r is Ok ==> {
                &&& final(host)@ == old(self).table.stored(old(host)@, vaddr.as_nat(), mem@)
                &&& final(self).table.pages@ == old(self).dirtied(vaddr.as_nat(), mem@.len())
            },
            r is Err ==> final(host)@ == old(host)@ && final(self).table.pages@ == old(self).table.pages@,
    {
        let ghost a = vaddr.as_nat();
        let ghost before = *self;
        let ghost memory = host@;
        let len: usize = mem.len();
        let table_len: usize = self.table.pages.len();
        match self.table.store(host, vaddr, mem) {
            Ok(()) => {},
            Err(fault) => return Err(fault),
        }
        proof {
            before.table.lemma_range_backed(a, len as nat, PageFlags::WRITE, memory.len());
            before.table.lemma_stored_len(memory, a, mem@);
        }
        if len == 0 {
            assert(self.table.pages@ =~= before.dirtied(a, 0));
            return Ok(());
        }
        proof {
            vaddr::lemma_page_size::<A>();
            let b = (a + len - 1) as nat;
            assert(before.table.can_access(b, PageFlags::WRITE));
            paging::lemma_page_order(a, b, A::PAGE_SIZE as nat);
            paging::lemma_page_parts(b, A::PAGE_SIZE as nat);
            paging::lemma_page_starts(
                mmu::MMU::<A>::page_of(b),
                before.table.pages@.len(),
                A::PAGE_SIZE as nat,
            );
        }
        let end = match vaddr.add_offset(len - 1) {
            Some(end) => end,
            None => return Err(MemoryFault::fault()),
        };
        let (first, _) = vaddr.div_rem_page_size();
        let (last, _) = end.div_rem_page_size();
        match (first.try_to_usize(), last.try_to_usize()) {
            (Some(first), Some(last)) => {
                self.mark_dirty(
                    first,
                    last,
                    Ghost(before),
                    Ghost(a),
                    Ghost(len as nat),
                    Ghost(memory.len()),
                );
            },
            _ => {},
        }
        Ok(())
    }

    /// Finds the page of an address that is a multiple of `BYTES`.
    pub(crate) fn aligned_static_acces<const BYTES: u8>(&self, vaddr: A) -> (r: Result<
        (usize, usize),
        MemoryFault,
    >)
        requires
            BYTES > 0,
        ensures
            ({
                let a = vaddr.as_nat();
                let found = a % (BYTES as nat) == 0 && mmu::MMU::<A>::page_of(a)
                    < self.table.pages@.len();
                match r {
                    Ok((page, offset)) => found && page == mmu::MMU::<A>::page_of(a) && offset
                        == mmu::MMU::<A>::offset_of(a),
                    Err(_) => !found,
                }
            }),
    {
        self.table.single_page_aligned_access::<BYTES>(vaddr)
    }

    /// A naturally aligned scalar lies in one page.
    pub(crate) proof fn lemma_inside(a: nat, bytes: nat)
        requires
            bytes == 1 || bytes == 2 || bytes == 4 || bytes == 8,
            a % bytes == 0,
        ensures
            !mmu::MMU::<A>::crosses(a, bytes),
            bytes <= A::PAGE_SIZE,
    {
        vaddr::lemma_page_size::<A>();
        let ps = A::PAGE_SIZE as nat;
        paging::lemma_page_parts(a, ps);
        let q = a / ps;
        let m = ps / 8;
        assert(q * ps == 8 * (q * m)) by (nonlinear_arith)
            requires
                ps == 8 * m,
        ;
    }

    /// Loads a little-endian `u64` from virtual memory.
    ///
    /// The address must be aligned to the width of a `u64`.
    ///
    /// Returns [`MemoryFault`] on misalignment, unmapped access, or permission
    /// failure.
    pub fn load64(&self, host: &HostMemory, vaddr: A) -> (r: Result<u64, MemoryFault>)
        requires
            self.wf(),
            self.backed_by(host@.len()),
        ensures
            match r {
                Ok(value) => {
                    &&& self.can_access_scalar(vaddr.as_nat(), 8, PageFlags::READ)
                    &&& value == le::value_of(self.table.loaded(host@, vaddr.as_nat(), 8))
                },
                Err(_) => !self.can_access_scalar(vaddr.as_nat(), 8, PageFlags::READ),
            },
    {
        let ghost a = vaddr.as_nat();
        let (page, offset) = match self.aligned_static_acces::<8>(vaddr) {
            Ok(place) => place,
            Err(fault) => return Err(fault),
        };
        proof {
            Self::lemma_inside(a, 8);
            self.table.lemma_small_range(a, 8, PageFlags::READ);
            assert(self.table.pages@[page as int].wf());
            assert(self.table.pages@[page as int].backed_by(host@.len()));
        }
        let loaded = self.table.pages[page].load64(host, offset);
        proof {
            if loaded is Ok {
                self.table.lemma_loaded_inside(host@, a, 8, PageFlags::READ);
            }
        }
        loaded
    }

    /// Stores a little-endian `u64` into virtual memory.
    ///
    /// The address must be aligned to the width of a `u64`.
    ///
    /// Returns [`MemoryFault`] on misalignment, unmapped access, or permission
    /// failure. Nothing is written then.
    pub fn store64(&mut self, host: &mut HostMemory, vaddr: A, value: u64) -> (r: Result<
        (),
        MemoryFault,
    >)
        requires
            old(self).wf(),
            old(self).backed_by(old(host)@.len()),
        ensures
            final(self).wf(),
            final(self).backed_by(final(host)@.len()),
            r is Ok <==> old(self).can_access_scalar(vaddr.as_nat(), 8, PageFlags::WRITE),
            r is Ok ==> {
                &&& final(host)@ == old(self).table.stored(
                    old(host)@,
                    vaddr.as_nat(),
                    le::bytes_of(value as nat, 8),
                )
                &&& final(self).table.pages@ == old(self).dirtied(vaddr.as_nat(), 8)
            },
            r is Err ==> final(host)@ == old(host)@ && final(self).table.pages@ == old(self).table.pages@,
    {
        let ghost a = vaddr.as_nat();
        let ghost before = *self;
        let ghost memory = host@;
        let (page, offset) = match self.aligned_static_acces::<8>(vaddr) {
            Ok(place) => place,
            Err(fault) => return Err(fault),
        };
        proof {
            Self::lemma_inside(a, 8);
            self.table.lemma_small_range(a, 8, PageFlags::WRITE);
            le::bytes_of_len(value as nat, 8);
            assert(self.table.pages@[page as int].wf());
            assert(self.table.pages@[page as int].backed_by(host@.len()));
        }
        let stored = self.table.pages[page].store64(host, offset, value);
        if stored.is_ok() {
            proof {
                before.table.lemma_stored_inside(memory, a, le::bytes_of(value as nat, 8));
                let last = (8 - 1) as nat;
                assert(mmu::MMU::<A>::page_of(a + last) == page);
                assert(self.table.pages@ =~= before.table.stored_pages(a, 8));
            }
            self.mark_dirty(page, page, Ghost(before), Ghost(a), Ghost(8), Ghost(host@.len()));
        } else {
            assert(self.table.pages@ =~= before.table.pages@);
        }
        stored
    }

    /// Loads a little-endian `u32` from virtual memory.
    ///
    /// The address must be aligned to the width of a `u32`.
    ///
    /// Returns [`MemoryFault`] on misalignment, unmapped access, or permission
    /// failure.
    pub fn load32(&self, host: &HostMemory, vaddr: A) -> (r: Result<u32, MemoryFault>)
        requires
            self.wf(),
            self.backed_by(host@.len()),
        ensures
            match r {
                Ok(value) => {
                    &&& self.can_access_scalar(vaddr.as_nat(), 4, PageFlags::READ)
                    &&& value == le::value_of(self.table.loaded(host@, vaddr.as_nat(), 4))
                },
                Err(_) => !self.can_access_scalar(vaddr.as_nat(), 4, PageFlags::READ),
            },
    {
        let ghost a = vaddr.as_nat();
        let (page, offset) = match self.aligned_static_acces::<4>(vaddr) {
            Ok(place) => place,
            Err(fault) => return Err(fault),
        };
        proof {
            Self::lemma_inside(a, 4);
            self.table.lemma_small_range(a, 4, PageFlags::READ);
            assert(self.table.pages@[page as int].wf());
            assert(self.table.pages@[page as int].backed_by(host@.len()));
        }
        let loaded = self.table.pages[page].load32(host, offset);
        proof {
            if loaded is Ok {
                self.table.lemma_loaded_inside(host@, a, 4, PageFlags::READ);
            }
        }
        loaded
    }

    /// Stores a little-endian `u32` into virtual memory.
    ///
    /// The address must be aligned to the width of a `u32`.
    ///
    /// Returns [`MemoryFault`] on misalignment, unmapped access, or permission
    /// failure. Nothing is written then.
    pub fn store32(&mut self, host: &mut HostMemory, vaddr: A, value: u32) -> (r: Result<
        (),
        MemoryFault,
    >)
        requires
            old(self).wf(),
            old(self).backed_by(old(host)@.len()),
        ensures
            final(self).wf(),
            final(self).backed_by(final(host)@.len()),
            r is Ok <==> old(self).can_access_scalar(vaddr.as_nat(), 4, PageFlags::WRITE),
            r is Ok ==> {
                &&& final(host)@ == old(self).table.stored(
                    old(host)@,
                    vaddr.as_nat(),
                    le::bytes_of(value as nat, 4),
                )
                &&& final(self).table.pages@ == old(self).dirtied(vaddr.as_nat(), 4)
            },
            r is Err ==> final(host)@ == old(host)@ && final(self).table.pages@ == old(self).table.pages@,
    {
        let ghost a = vaddr.as_nat();
        let ghost before = *self;
        let ghost memory = host@;
        let (page, offset) = match self.aligned_static_acces::<4>(vaddr) {
            Ok(place) => place,
            Err(fault) => return Err(fault),
        };
        proof {
            Self::lemma_inside(a, 4);
            self.table.lemma_small_range(a, 4, PageFlags::WRITE);
            le::bytes_of_len(value as nat, 4);
            assert(self.table.pages@[page as int].wf());
            assert(self.table.pages@[page as int].backed_by(host@.len()));
        }
        let stored = self.table.pages[page].store32(host, offset, value);
        if stored.is_ok() {
            proof {
                before.table.lemma_stored_inside(memory, a, le::bytes_of(value as nat, 4));
                let last = (4 - 1) as nat;
                assert(mmu::MMU::<A>::page_of(a + last) == page);
                assert(self.table.pages@ =~= before.table.stored_pages(a, 4));
            }
            self.mark_dirty(page, page, Ghost(before), Ghost(a), Ghost(4), Ghost(host@.len()));
        } else {
            assert(self.table.pages@ =~= before.table.pages@);
        }
        stored
    }

    /// Loads a little-endian `u16` from virtual memory.
    ///
    /// The address must be aligned to the width of a `u16`.
    ///
    /// Returns [`MemoryFault`] on misalignment, unmapped access, or permission
    /// failure.
    pub fn load16(&self, host: &HostMemory, vaddr: A) -> (r: Result<u16, MemoryFault>)
        requires
            self.wf(),
            self.backed_by(host@.len()),
        ensures
            match r {
                Ok(value) => {
                    &&& self.can_access_scalar(vaddr.as_nat(), 2, PageFlags::READ)
                    &&& value == le::value_of(self.table.loaded(host@, vaddr.as_nat(), 2))
                },
                Err(_) => !self.can_access_scalar(vaddr.as_nat(), 2, PageFlags::READ),
            },
    {
        let ghost a = vaddr.as_nat();
        let (page, offset) = match self.aligned_static_acces::<2>(vaddr) {
            Ok(place) => place,
            Err(fault) => return Err(fault),
        };
        proof {
            Self::lemma_inside(a, 2);
            self.table.lemma_small_range(a, 2, PageFlags::READ);
            assert(self.table.pages@[page as int].wf());
            assert(self.table.pages@[page as int].backed_by(host@.len()));
        }
        let loaded = self.table.pages[page].load16(host, offset);
        proof {
            if loaded is Ok {
                self.table.lemma_loaded_inside(host@, a, 2, PageFlags::READ);
            }
        }
        loaded
    }

    /// Stores a little-endian `u16` into virtual memory.
    ///
    /// The address must be aligned to the width of a `u16`.
    ///
    /// Returns [`MemoryFault`] on misalignment, unmapped access, or permission
    /// failure. Nothing is written then.
    pub fn store16(&mut self, host: &mut HostMemory, vaddr: A, value: u16) -> (r: Result<
        (),
        MemoryFault,
    >)
        requires
            old(self).wf(),
            old(self).backed_by(old(host)@.len()),
        ensures
            final(self).wf(),
            final(self).backed_by(final(host)@.len()),
            r is Ok <==> old(self).can_access_scalar(vaddr.as_nat(), 2, PageFlags::WRITE),
            r is Ok ==> {
                &&& final(host)@ == old(self).table.stored(
                    old(host)@,
                    vaddr.as_nat(),
                    le::bytes_of(value as nat, 2),
                )
                &&& final(self).table.pages@ == old(self).dirtied(vaddr.as_nat(), 2)
            },
            r is Err ==> final(host)@ == old(host)@ && final(self).table.pages@ == old(self).table.pages@,
    {
        let ghost a = vaddr.as_nat();
        let ghost before = *self;
        let ghost memory = host@;
        let (page, offset) = match self.aligned_static_acces::<2>(vaddr) {
            Ok(place) => place,
            Err(fault) => return Err(fault),
        };
        proof {
            Self::lemma_inside(a, 2);
            self.table.lemma_small_range(a, 2, PageFlags::WRITE);
            le::bytes_of_len(value as nat, 2);
            assert(self.table.pages@[page as int].wf());
            assert(self.table.pages@[page as int].backed_by(host@.len()));
        }
        let stored = self.table.pages[page].store16(host, offset, value);
        if stored.is_ok() {
            proof {
                before.table.lemma_stored_inside(memory, a, le::bytes_of(value as nat, 2));
                let last = (2 - 1) as nat;
                assert(mmu::MMU::<A>::page_of(a + last) == page);
                assert(self.table.pages@ =~= before.table.stored_pages(a, 2));
            }
            self.mark_dirty(page, page, Ghost(before), Ghost(a), Ghost(2), Ghost(host@.len()));
        } else {
            assert(self.table.pages@ =~= before.table.pages@);
        }
        stored
    }

    /// Loads a little-endian `u8` from virtual memory.
    ///
    /// The address must be aligned to the width of a `u8`.
    ///
    /// Returns [`MemoryFault`] on misalignment, unmapped access, or permission
    /// failure.
    pub fn load8(&self, host: &HostMemory, vaddr: A) -> (r: Result<u8, MemoryFault>)
        requires
            self.wf(),
            self.backed_by(host@.len()),
        ensures
            match r {
                Ok(value) => {
                    &&& self.can_access_scalar(vaddr.as_nat(), 1, PageFlags::READ)
                    &&& value == le::value_of(self.table.loaded(host@, vaddr.as_nat(), 1))
                },
                Err(_) => !self.can_access_scalar(vaddr.as_nat(), 1, PageFlags::READ),
            },
    {
        let ghost a = vaddr.as_nat();
        let (page, offset) = match self.aligned_static_acces::<1>(vaddr) {
            Ok(place) => place,
            Err(fault) => return Err(fault),
        };
        proof {
            Self::lemma_inside(a, 1);
            self.table.lemma_small_range(a, 1, PageFlags::READ);
            assert(self.table.pages@[page as int].wf());
            assert(self.table.pages@[page as int].backed_by(host@.len()));
        }
        let loaded = self.table.pages[page].load_byte(host, offset);
        proof {
            if loaded is Ok {
                self.table.lemma_loaded_inside(host@, a, 1, PageFlags::READ);
                let bytes = self.table.loaded(host@, a, 1);
                assert(bytes.drop_first() =~= Seq::empty());
                assert(le::value_of(bytes.drop_first()) == 0);
            }
        }
        loaded
    }

    /// Stores a little-endian `u8` into virtual memory.
    ///
    /// The address must be aligned to the width of a `u8`.
    ///
    /// Returns [`MemoryFault`] on misalignment, unmapped access, or permission
    /// failure. Nothing is written then.
    pub fn store8(&mut self, host: &mut HostMemory, vaddr: A, value: u8) -> (r: Result<
        (),
        MemoryFault,
    >)
        requires
            old(self).wf(),
            old(self).backed_by(old(host)@.len()),
        ensures
            final(self).wf(),
            final(self).backed_by(final(host)@.len()),
            r is Ok <==> old(self).can_access_scalar(vaddr.as_nat(), 1, PageFlags::WRITE),
            r is Ok ==> {
                &&& final(host)@ == old(self).table.stored(
                    old(host)@,
                    vaddr.as_nat(),
                    le::bytes_of(value as nat, 1),
                )
                &&& final(self).table.pages@ == old(self).dirtied(vaddr.as_nat(), 1)
            },
            r is Err ==> final(host)@ == old(host)@ && final(self).table.pages@ == old(self).table.pages@,
    {
        let ghost a = vaddr.as_nat();
        let ghost before = *self;
        let ghost memory = host@;
        let (page, offset) = match self.aligned_static_acces::<1>(vaddr) {
            Ok(place) => place,
            Err(fault) => return Err(fault),
        };
        proof {
            Self::lemma_inside(a, 1);
            self.table.lemma_small_range(a, 1, PageFlags::WRITE);
            le::bytes_of_len(value as nat, 1);
            assert(self.table.pages@[page as int].wf());
            assert(self.table.pages@[page as int].backed_by(host@.len()));
        }
        let stored = self.table.pages[page].store_byte(host, offset, value);
        if stored.is_ok() {
            proof {
                before.table.lemma_stored_inside(memory, a, le::bytes_of(value as nat, 1));
                assert(le::bytes_of(value as nat, 1) =~= seq![value]) by {
                    assert(le::bytes_of(value as nat / 256, 0) =~= Seq::empty());
                }
                assert(host@ =~= le::write_at(
                    memory,
                    before.table.pages@[page as int].ptr->0 + offset,
                    seq![value],
                ));
                let last = (1 - 1) as nat;
                assert(mmu::MMU::<A>::page_of(a + last) == page);
                assert(self.table.pages@ =~= before.table.stored_pages(a, 1));
            }
            self.mark_dirty(page, page, Ghost(before), Ghost(a), Ghost(1), Ghost(host@.len()));
        } else {
            assert(self.table.pages@ =~= before.table.pages@);
        }
        stored
    }

    /// Fetches an instruction.
    pub fn fetch(&self, host: &HostMemory, vaddr: A) -> (r: Result<A::InsnWord, MemoryFault>) where
        A: InsnFetch,

        requires
            self.wf(),
            self.backed_by(host@.len()),
        ensures
            r == vaddr.fetched_aligned(*self, host@),
    {
        vaddr.fetch_aligned_insn_word(self, host)
    }
}

impl<A: VAddr> Default for MMU<A> {
    fn default() -> (r: Self)
        ensures
            r.table.pages@.len() == 0,
            r.wf(),
    {
        Self::new()
    }
}

/// A store moves no page and changes no permission; the pages that it touches are dirty
/// afterwards, and the others are as they were.
pub proof fn store_dirties_pages<A: VAddr>(before: MMU<A>, after: MMU<A>, a: nat, len: nat, x: nat)
    requires
        after.table.pages@ == before.dirtied(a, len),
        mmu::MMU::<A>::page_of(x) < before.table.pages@.len(),
    ensures
        after.table.host_addr(x) == before.table.host_addr(x),
        after.table.can_access(x, PageFlags::READ) == before.table.can_access(x, PageFlags::READ),
        after.table.can_access(x, PageFlags::WRITE) == before.table.can_access(x, PageFlags::WRITE),
        after.table.can_access(x, PageFlags::EXECUTE) == before.table.can_access(
            x,
            PageFlags::EXECUTE,
        ),
        a <= x < a + len ==> after.table.can_access(x, DIRTY),
        mmu::MMU::<A>::page_of(x) < mmu::MMU::<A>::page_of(a) || mmu::MMU::<A>::page_of(x)
            > mmu::MMU::<A>::page_of((a + len - 1) as nat) || len == 0
            ==> after.table.pages@[mmu::MMU::<A>::page_of(x) as int]
            == before.table.pages@[mmu::MMU::<A>::page_of(x) as int],
{
    vaddr::lemma_page_size::<A>();
    let ps = A::PAGE_SIZE as nat;
    let b = before.table.pages@[mmu::MMU::<A>::page_of(x) as int].page_flags.bits;
    lemma_dirty(b);
    assert((b | 8) & 8 == 8) by (bit_vector);
    if a <= x < a + len {
        paging::lemma_page_order(a, x, ps);
        paging::lemma_page_order(x, (a + len - 1) as nat, ps);
    }
}

/// A load of the bytes that a store has just written gives them back.
///
/// Left out are ranges in which two addresses share a host byte.
pub proof fn load_after_store<A: VAddr>(
    before: MMU<A>,
    after: MMU<A>,
    host: Seq<u8>,
    a: nat,
    data: Seq<u8>,
)
    requires
        before.wf(),
        before.backed_by(host.len()),
        before.table.range_accessible(a, data.len(), PageFlags::WRITE),
        after.table.pages@ == before.dirtied(a, data.len()),
        laws::unaliased(before.table, a, data.len()),
    ensures
        after.table.loaded(before.table.stored(host, a, data), a, data.len()) == data,
{
    before.table.lemma_range_backed(a, data.len(), PageFlags::WRITE, host.len());
    laws::lemma_stored_at(before.table, host, a, data);
    let read = after.table.loaded(before.table.stored(host, a, data), a, data.len());
    assert forall|i: int| 0 <= i < data.len() implies read[i] == data[i] by {
        let x = (a + i) as nat;
        assert(before.table.can_access(x, PageFlags::WRITE));
        store_dirties_pages(before, after, a, data.len(), x);
        assert(before.table.stored(host, a, data)[before.table.host_addr((a + i) as nat)]
            == data[i]);
    }
    assert(read =~= data);
}

/// An aligned scalar load gives back the scalar that a store has just written.
pub proof fn scalar_load_after_store<A: VAddr>(
    before: MMU<A>,
    after: MMU<A>,
    host: Seq<u8>,
    a: nat,
    value: nat,
    bytes: nat,
)
    requires
        before.wf(),
        before.backed_by(host.len()),
        bytes == 1 || bytes == 2 || bytes == 4 || bytes == 8,
        value < le::pow256(bytes),
        before.can_access_scalar(a, bytes, PageFlags::WRITE),
        after.table.pages@ == before.dirtied(a, bytes),
    ensures
        le::value_of(
            after.table.loaded(before.table.stored(host, a, le::bytes_of(value, bytes)), a, bytes),
        ) == value,
{
    MMU::<A>::lemma_inside(a, bytes);
    before.table.lemma_small_range(a, bytes, PageFlags::WRITE);
    laws::short_ranges_are_unaliased(before.table, a, bytes, PageFlags::WRITE);
    le::bytes_of_len(value, bytes);
    load_after_store(before, after, host, a, le::bytes_of(value, bytes));
    le::value_of_bytes_of(value, bytes);
}

} // verus!
