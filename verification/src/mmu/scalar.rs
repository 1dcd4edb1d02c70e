//! Scalar accesses.

use vstd::prelude::*;
use crate::host_memory::HostMemory;
use crate::le;
use crate::mmu::{MemoryFault, PageFlags, MMU};
use crate::paging;
use crate::tear_mem_ops;
use crate::vaddr;
use crate::vaddr::{InsnFetch, VAddr};

verus! {

/// The page that a scalar access runs over into, and by how many bytes.
pub struct SecondPage {
    pub page: usize,
    pub overflow_amount: u8,
}

/// Where a scalar access lies: its first page, the place in it, and the page that
/// it runs over into, if it crosses a page boundary.
pub struct SmallAccess {
    pub base_page: usize,
    pub base_page_offset: usize,
    pub second_page: Option<SecondPage>,
}

/// Joining the upper bytes of `lo` and the lower bytes of `hi`, 64 bits wide.
proof fn lemma_join64(hi: u64, lo: u64, k: u8)
    requires
        0 < k < 8,
    ensures
        (hi << ((64 - 8 * k) as u32)) | (lo >> ((8 * k) as u32)) == lo as nat / le::pow256(k as nat)
            + le::pow256((8 - k) as nat) * (hi as nat % le::pow256(k as nat)),
{
    le::pow256_values();
    if k == 1 {
        assert((hi << 56u32) | (lo >> 8u32) == lo / 0x100 + 0x100000000000000 * (hi % 0x100))
            by (bit_vector);
    } else if k == 2 {
        assert((hi << 48u32) | (lo >> 16u32) == lo / 0x10000 + 0x1000000000000 * (hi % 0x10000))
            by (bit_vector);
    } else if k == 3 {
        assert((hi << 40u32) | (lo >> 24u32) == lo / 0x1000000 + 0x10000000000 * (hi % 0x1000000))
            by (bit_vector);
    } else if k == 4 {
        assert((hi << 32u32) | (lo >> 32u32) == lo / 0x100000000 + 0x100000000 * (hi % 0x100000000))
            by (bit_vector);
    } else if k == 5 {
        assert((hi << 24u32) | (lo >> 40u32) == lo / 0x10000000000 + 0x1000000 * (hi % 0x10000000000))
            by (bit_vector);
    } else if k == 6 {
        assert((hi << 16u32) | (lo >> 48u32) == lo / 0x1000000000000 + 0x10000 * (hi % 0x1000000000000))
            by (bit_vector);
    } else if k == 7 {
        assert((hi << 8u32) | (lo >> 56u32) == lo / 0x100000000000000 + 0x100 * (hi % 0x100000000000000))
            by (bit_vector);
    }
}

/// Joining the upper bytes of `lo` and the lower bytes of `hi`, 32 bits wide.
proof fn lemma_join32(hi: u32, lo: u32, k: u8)
    requires
        0 < k < 4,
    ensures
        (hi << ((32 - 8 * k) as u32)) | (lo >> ((8 * k) as u32)) == lo as nat / le::pow256(k as nat)
            + le::pow256((4 - k) as nat) * (hi as nat % le::pow256(k as nat)),
{
    le::pow256_values();
    if k == 1 {
        assert((hi << 24u32) | (lo >> 8u32) == lo / 0x100 + 0x1000000 * (hi % 0x100))
            by (bit_vector);
    } else if k == 2 {
        assert((hi << 16u32) | (lo >> 16u32) == lo / 0x10000 + 0x10000 * (hi % 0x10000))
            by (bit_vector);
    } else if k == 3 {
        assert((hi << 8u32) | (lo >> 24u32) == lo / 0x1000000 + 0x100 * (hi % 0x1000000))
            by (bit_vector);
    }
}

/// Joining the upper bytes of `lo` and the lower bytes of `hi`, 16 bits wide.
proof fn lemma_join16(hi: u16, lo: u16, k: u8)
    requires
        0 < k < 2,
    ensures
        (hi << ((16 - 8 * k) as u32)) | (lo >> ((8 * k) as u32)) == lo as nat / le::pow256(k as nat)
            + le::pow256((2 - k) as nat) * (hi as nat % le::pow256(k as nat)),
{
    le::pow256_values();
    if k == 1 {
        assert((hi << 8u32) | (lo >> 8u32) == lo / 0x100 + 0x100 * (hi % 0x100))
            by (bit_vector);
    }
}

impl<A: VAddr> MMU<A> {
    /// An access to `a .. a + bytes` crosses a page boundary.
    pub open spec fn crosses(a: nat, bytes: nat) -> bool {
        Self::offset_of(a) + bytes > A::PAGE_SIZE
    }

    /// A scalar lies in its first page, or in that page and the next.
    pub(crate) proof fn lemma_small_range(self, a: nat, bytes: nat, required: u8)
        requires
            0 < bytes <= A::PAGE_SIZE,
        ensures
            self.range_accessible(a, bytes, required) <==> {
                let p = Self::page_of(a);
                &&& p < self.pages@.len() && self.pages@[p as int].page_flags.has(required)
                &&& Self::crosses(a, bytes) ==> p + 1 < self.pages@.len() && self.pages@[(p
                    + 1) as int].page_flags.has(required)
            },
            forall|k: nat|
                k < bytes ==> {
                    let p = Self::page_of(a);
                    let off = Self::offset_of(a);
                    if off + k < A::PAGE_SIZE {
                        Self::page_of(#[trigger] (a + k)) == p && Self::offset_of(a + k) == off + k
                    } else {
                        Self::page_of(a + k) == p + 1 && Self::offset_of(a + k) == off + k
                            - A::PAGE_SIZE
                    }
                },
    {
        let ps = A::PAGE_SIZE as nat;
        vaddr::lemma_page_size::<A>();
        let p = Self::page_of(a);
        let off = Self::offset_of(a);
        paging::lemma_page_parts(a, ps);
        assert((p + 1) * ps == p * ps + ps) by (nonlinear_arith);
        assert forall|k: nat| k < bytes implies {
            if off + k < ps {
                Self::page_of(#[trigger] (a + k)) == p && Self::offset_of(a + k) == off + k
            } else {
                Self::page_of(a + k) == p + 1 && Self::offset_of(a + k) == off + k - ps
            }
        } by {
            if off + k < ps {
                paging::lemma_page_of(a + k, p, ps);
            } else {
                paging::lemma_page_of(a + k, p + 1, ps);
            }
        }
        if self.range_accessible(a, bytes, required) {
            assert(self.can_access(a + 0, required));
            let last = (bytes - 1) as nat;
            assert(self.can_access(a + last, required));
        }
        let first_ok = p < self.pages@.len() && self.pages@[p as int].page_flags.has(required);
        let second_ok = p + 1 < self.pages@.len() && self.pages@[(p + 1) as int].page_flags.has(required);
        if first_ok && (Self::crosses(a, bytes) ==> second_ok) {
            assert forall|x: nat| a <= x < a + bytes implies #[trigger] self.can_access(
                x,
                required,
            ) by {
                let k = (x - a) as nat;
                assert(x == a + k);
            }
        }
    }

    /// Finds the page, or the two pages, that a scalar of `BYTES` bytes lies in.
    fn static_small_multibyte_acces<const BYTES: u8>(&self, vaddr: A) -> (r: Result<
        SmallAccess,
        MemoryFault,
    >)
        requires
            self.wf(),
            1 < BYTES,
            BYTES < A::PAGE_SIZE,
        ensures
            ({
                let a = vaddr.as_nat();
                let p = Self::page_of(a);
                let found = p < self.pages@.len() && (Self::crosses(a, BYTES as nat) ==> p + 1
                    < self.pages@.len());
                match r {
                    Ok(access) => {
                        &&& found
                        &&& access.base_page == p
                        &&& access.base_page_offset == Self::offset_of(a)
                        &&& match access.second_page {
                            None => !Self::crosses(a, BYTES as nat),
                            Some(second_page) => {
                                &&& Self::crosses(a, BYTES as nat)
                                &&& second_page.page == p + 1
                                &&& second_page.overflow_amount == Self::offset_of(a) + BYTES
                                    - A::PAGE_SIZE
                                &&& 0 < second_page.overflow_amount < BYTES
                            },
                        }
                    },
                    Err(_) => !found,
                }
            }),
    {
        proof {
            vaddr::lemma_page_size::<A>();
            vaddr::lemma_page_leaves_room::<A>();
            paging::lemma_page_parts(vaddr.as_nat(), A::PAGE_SIZE as nat);
        }
        let table_len: usize = self.pages.len();
        let (base_page_idx, base_page_offset) = vaddr.div_rem_page_size();
        let base_page = match base_page_idx.try_to_usize() {
            Some(base_page) => base_page,
            None => return Err(MemoryFault::fault()),
        };
        if base_page >= table_len {
            return Err(MemoryFault::fault());
        }
        let end_offset: usize = base_page_offset + BYTES as usize;
        let second_page = if end_offset > A::PAGE_SIZE {
            let overflow_amount: u8 = (end_offset - A::PAGE_SIZE) as u8;
            let second_page_idx: usize = base_page + 1;
            if second_page_idx >= table_len {
                return Err(MemoryFault::fault());
            }
            Some(SecondPage { page: second_page_idx, overflow_amount })
        } else {
            None
        };
        Ok(SmallAccess { base_page, base_page_offset, second_page })
    }

    /// A page-aligned pointer is aligned for every scalar.
    proof fn lemma_pointer_aligned(ptr: nat, bytes: nat)
        requires
            ptr % (A::PAGE_SIZE as nat) == 0,
            bytes == 2 || bytes == 4 || bytes == 8,
        ensures
            ptr % bytes == 0,
            (ptr + A::PAGE_SIZE - bytes) as nat % bytes == 0,
    {
        vaddr::lemma_page_size::<A>();
        let ps = A::PAGE_SIZE as nat;
        paging::lemma_page_parts(ptr, ps);
        let q = ptr / ps;
        let m = ps / 8;
        assert(q * ps == 8 * (q * m)) by (nonlinear_arith)
            requires
                ps == 8 * m,
        ;
    }

    /// What a scalar inside one page reads.
    pub(crate) proof fn lemma_loaded_inside(self, host: Seq<u8>, a: nat, bytes: nat, required: u8)
        requires
            self.wf(),
            self.backed_by(host.len()),
            0 < bytes <= A::PAGE_SIZE,
            !Self::crosses(a, bytes),
            self.range_accessible(a, bytes, required),
            required == PageFlags::READ || required == PageFlags::EXECUTE,
        ensures
            ({
                let at = self.pages@[Self::page_of(a) as int].ptr->0 + Self::offset_of(a);
                self.loaded(host, a, bytes) == host.subrange(at, at + bytes)
            }),
    {
        self.lemma_small_range(a, bytes, required);
        let page = self.pages@[Self::page_of(a) as int];
        assert(page.wf() && page.backed_by(host.len()));
        let at = page.ptr->0 + Self::offset_of(a);
        assert forall|i: int| 0 <= i < bytes implies self.loaded(host, a, bytes)[i] == host.subrange(
            at,
            at + bytes,
        )[i] by {
            let k = i as nat;
            assert(Self::page_of(a + k) == Self::page_of(a));
        }
        assert(self.loaded(host, a, bytes) =~= host.subrange(at, at + bytes));
    }

    /// What a scalar over a page boundary reads: the upper bytes of the word that
    /// ends its first page, then the lower bytes of the word that starts the next.
    proof fn lemma_loaded_across(self, host: Seq<u8>, a: nat, bytes: nat, k: nat)
        requires
            self.wf(),
            self.backed_by(host.len()),
            0 < bytes <= A::PAGE_SIZE,
            Self::crosses(a, bytes),
            k == Self::offset_of(a) + bytes - A::PAGE_SIZE,
            self.range_accessible(a, bytes, PageFlags::READ),
        ensures
            ({
                let end = self.pages@[Self::page_of(a) as int].ptr->0 + A::PAGE_SIZE;
                let next = self.pages@[Self::page_of(a) as int + 1].ptr->0 as int;
                let lo = le::value_of(host.subrange(end - bytes, end));
                let hi = le::value_of(host.subrange(next, next + bytes));
                le::value_of(self.loaded(host, a, bytes)) == lo / le::pow256(k) + le::pow256(
                    (bytes - k) as nat,
                ) * (hi % le::pow256(k))
            }),
    {
        vaddr::lemma_page_size::<A>();
        self.lemma_small_range(a, bytes, PageFlags::READ);
        paging::lemma_page_parts(a, A::PAGE_SIZE as nat);
        let p = Self::page_of(a) as int;
        assert(self.pages@[p].wf() && self.pages@[p].backed_by(host.len()));
        assert(self.pages@[p + 1].wf() && self.pages@[p + 1].backed_by(host.len()));
        let end = self.pages@[p].ptr->0 + A::PAGE_SIZE;
        let next = self.pages@[p + 1].ptr->0 as int;
        let lo = host.subrange(end - bytes, end);
        let hi = host.subrange(next, next + bytes);
        let joined = lo.skip(k as int) + hi.take(k as int);
        let loaded = self.loaded(host, a, bytes);
        assert forall|i: int| 0 <= i < bytes implies loaded[i] == joined[i] by {
            let j = i as nat;
            assert(Self::page_of(a + j) == if j < bytes - k {
                p
            } else {
                p + 1
            });
        }
        assert(loaded =~= joined);
        le::value_of_concat(lo.skip(k as int), hi.take(k as int));
        le::value_of_split(lo, k);
        le::value_of_split(hi, k);
    }

    /// What a scalar inside one page writes.
    pub(crate) proof fn lemma_stored_inside(self, host: Seq<u8>, a: nat, data: Seq<u8>)
        requires
            self.wf(),
            self.backed_by(host.len()),
            0 < data.len() <= A::PAGE_SIZE,
            !Self::crosses(a, data.len()),
            self.range_accessible(a, data.len(), PageFlags::WRITE),
        ensures
            self.stored(host, a, data) == le::write_at(
                host,
                self.pages@[Self::page_of(a) as int].ptr->0 + Self::offset_of(a),
                data,
            ),
    {
        self.lemma_small_range(a, data.len(), PageFlags::WRITE);
        self.lemma_range_backed(a, data.len(), PageFlags::WRITE, host.len());
        self.lemma_stored_chunk(
            host,
            a,
            data,
            0,
            data.len(),
            Self::page_of(a),
            Self::offset_of(a),
        );
        assert(data.take(0) =~= Seq::empty());
        assert(data.take(data.len() as int) =~= data);
        assert(data.subrange(0, data.len() as int) =~= data);
    }

    /// The page table after the page of a scalar turned dirty.
    proof fn lemma_stored_table(self, after: Self, host: Seq<u8>, a: nat, bytes: nat)
        requires
            self.wf(),
            self.backed_by(host.len()),
            0 < bytes <= A::PAGE_SIZE,
            !Self::crosses(a, bytes),
            Self::page_of(a) < self.pages@.len(),
            self.pages@[Self::page_of(a) as int].after_store().wf(),
            after.pages@ == self.pages@.update(
                Self::page_of(a) as int,
                self.pages@[Self::page_of(a) as int].after_store(),
            ),
        ensures
            after.pages@ == self.stored_pages(a, bytes),
            after.wf(),
            after.backed_by(host.len()),
    {
        self.lemma_small_range(a, bytes, PageFlags::WRITE);
        let last = (bytes - 1) as nat;
        assert(Self::page_of(a + last) == Self::page_of(a));
        assert(after.pages@ =~= self.stored_pages(a, bytes));
        assert forall|i: int| 0 <= i < after.pages@.len() implies (#[trigger] after.pages@[i]).wf()
            && after.pages@[i].backed_by(host.len()) by {
            assert(self.pages@[i].wf() && self.pages@[i].backed_by(host.len()));
        }
    }

    /// Stores the bytes of a scalar that runs over into the next page.
    fn store_across(
        &mut self,
        host: &mut HostMemory,
        vaddr: A,
        base_page: usize,
        second_page: usize,
        bytes: &[u8],
    ) -> (r: Result<(), MemoryFault>)
        requires
            old(self).wf(),
            old(self).backed_by(old(host)@.len()),
            0 < bytes@.len() <= 8,
            Self::crosses(vaddr.as_nat(), bytes@.len()),
            base_page == Self::page_of(vaddr.as_nat()),
            second_page == base_page + 1,
            second_page < old(self).pages@.len(),
        ensures
            final(self).wf(),
            final(self).backed_by(final(host)@.len()),
            r is Ok <==> old(self).range_accessible(vaddr.as_nat(), bytes@.len(), PageFlags::WRITE),
            r is Ok ==> {
                &&& final(host)@ == old(self).stored(old(host)@, vaddr.as_nat(), bytes@)
                &&& final(self).pages@ == old(self).stored_pages(vaddr.as_nat(), bytes@.len())
            },
            r is Err ==> final(host)@ == old(host)@ && final(self).pages@ == old(self).pages@,
    {
        let ghost a = vaddr.as_nat();
        let ghost ps = A::PAGE_SIZE as nat;
        let ghost m0 = *self;
        let ghost h0 = host@;
        let total: usize = host.len();
        let len: usize = bytes.len();
        proof {
            vaddr::lemma_page_size::<A>();
            self.lemma_small_range(a, len as nat, PageFlags::WRITE);
            paging::lemma_page_parts(a, ps);
            assert(self.pages@[base_page as int].wf() && self.pages@[base_page as int].backed_by(
                h0.len(),
            ));
            assert(self.pages@[second_page as int].wf() && self.pages@[second_page as int].backed_by(
                h0.len(),
            ));
        }
        let hi_page_ptr = match self.pages[second_page].get_data_ptr(PageFlags::WRITE) {
            Ok(hi_page_ptr) => hi_page_ptr,
            Err(fault) => return Err(fault),
        };
        let lo_page_ptr = match self.pages[base_page].get_data_ptr(PageFlags::WRITE) {
            Ok(lo_page_ptr) => lo_page_ptr,
            Err(fault) => return Err(fault),
        };
        let (_, base_page_offset) = vaddr.div_rem_page_size();
        let lo_len: usize = A::PAGE_SIZE - base_page_offset;
        let ghost at = lo_page_ptr + base_page_offset;
        // The bytes of the next page, last byte first.
        let mut i: usize = len;
        while i > lo_len
            invariant
                0 < lo_len <= i <= len,
                len == bytes@.len() <= 8,
                A::PAGE_SIZE >= 64,
                total == host@.len() == h0.len(),
                hi_page_ptr + A::PAGE_SIZE <= total,
                host@ == le::write_at(
                    h0,
                    hi_page_ptr + (i - lo_len),
                    bytes@.subrange(i as int, len as int),
                ),
            decreases i,
        {
            i = i - 1;
            host.store_byte(hi_page_ptr + (i - lo_len), bytes[i]);
            assert(host@ =~= le::write_at(
                h0,
                hi_page_ptr + (i - lo_len),
                bytes@.subrange(i as int, len as int),
            ));
        }
        // The bytes of the base page, last byte first.
        let ghost h1 = host@;
        while i > 0
            invariant
                i <= lo_len <= len,
                len == bytes@.len() <= 8,
                A::PAGE_SIZE >= 64,
                lo_len == A::PAGE_SIZE - base_page_offset,
                at == lo_page_ptr + base_page_offset,
                total == host@.len() == h1.len(),
                lo_page_ptr + A::PAGE_SIZE <= total,
                host@ == le::write_at(h1, at + i, bytes@.subrange(i as int, lo_len as int)),
            decreases i,
        {
            i = i - 1;
            host.store_byte(lo_page_ptr + (base_page_offset + i), bytes[i]);
            assert(host@ =~= le::write_at(h1, at + i, bytes@.subrange(i as int, lo_len as int)));
        }
        self.pages[base_page].set_insn_dirty();
        self.pages[second_page].set_insn_dirty();
        proof {
            m0.lemma_stored_across(h0, a, bytes@, lo_len as nat);
            assert(self.pages@ =~= m0.stored_pages(a, len as nat)) by {
                let last = (len - 1) as nat;
                assert(Self::page_of(a + last) == second_page);
            }
            assert forall|j: int| 0 <= j < self.pages@.len() implies (#[trigger] self.pages@[j]).wf()
                && self.pages@[j].backed_by(host@.len()) by {
                assert(m0.pages@[j].wf() && m0.pages@[j].backed_by(h0.len()));
            }
        }
        Ok(())
    }

    /// A scalar over a page boundary writes two runs of bytes that do not overlap.
    proof fn lemma_stored_across(self, host: Seq<u8>, a: nat, data: Seq<u8>, n: nat)
        requires
            self.wf(),
            self.backed_by(host.len()),
            0 < data.len() <= 8,
            Self::crosses(a, data.len()),
            self.range_accessible(a, data.len(), PageFlags::WRITE),
            n == A::PAGE_SIZE - Self::offset_of(a),
        ensures
            ({
                let p = Self::page_of(a) as int;
                let hi = self.pages@[p + 1].ptr->0 as int;
                let lo = self.pages@[p].ptr->0 + Self::offset_of(a);
                self.stored(host, a, data) == le::write_at(
                    le::write_at(host, hi, data.subrange(n as int, data.len() as int)),
                    lo,
                    data.subrange(0, n as int),
                )
            }),
    {
        vaddr::lemma_page_size::<A>();
        let ps = A::PAGE_SIZE as nat;
        self.lemma_small_range(a, data.len(), PageFlags::WRITE);
        self.lemma_range_backed(a, data.len(), PageFlags::WRITE, host.len());
        paging::lemma_page_parts(a, ps);
        let p = Self::page_of(a);
        let off = Self::offset_of(a);
        let len = data.len();
        assert forall|k: nat| 0 <= k < n implies Self::page_of(#[trigger] (a + k)) == p
            && Self::offset_of(a + k) == off + (k - 0) by {}
        self.lemma_stored_chunk(host, a, data, 0, n, p, off);
        assert forall|k: nat| n <= k < len implies Self::page_of(#[trigger] (a + k)) == p + 1
            && Self::offset_of(a + k) == 0 + (k - n) by {}
        self.lemma_stored_chunk(host, a, data, n, len, p + 1, 0);
        assert(data.take(0) =~= Seq::empty());
        assert(data.take(len as int) =~= data);
        let lo_page = self.pages@[p as int];
        let hi_page = self.pages@[(p + 1) as int];
        assert(lo_page.wf() && hi_page.wf() && lo_page.backed_by(host.len()) && hi_page.backed_by(
            host.len(),
        ));
        let x = lo_page.ptr->0 as nat;
        let y = hi_page.ptr->0 as nat;
        paging::lemma_page_parts(x, ps);
        paging::lemma_page_parts(y, ps);
        if x / ps < y / ps {
            paging::lemma_page_starts(x / ps, y / ps, ps);
        } else if y / ps < x / ps {
            paging::lemma_page_starts(y / ps, x / ps, ps);
        }
        assert(self.stored(host, a, data) =~= le::write_at(
            le::write_at(host, y as int, data.subrange(n as int, len as int)),
            (x + off) as int,
            data.subrange(0, n as int),
        ));
    }

    /// Loads a little-endian scalar from virtual memory.
    ///
    /// The access requires read permission for every page it touches. If the access
    /// crosses a page boundary, both pages must be mapped and readable.
    ///
    /// Returns [`MemoryFault`] on unmapped access, permission failure, or overflow.
    pub fn load64_le(&self, host: &HostMemory, vaddr: A) -> (r: Result<u64, MemoryFault>)
        requires
            self.wf(),
            self.backed_by(host@.len()),
        ensures
            match r {
                Ok(value) => {
                    &&& self.range_accessible(vaddr.as_nat(), 8, PageFlags::READ)
                    &&& value == le::value_of(self.loaded(host@, vaddr.as_nat(), 8))
                },
                Err(_) => !self.range_accessible(vaddr.as_nat(), 8, PageFlags::READ),
            },
    {
        let ghost a = vaddr.as_nat();
        let total: usize = host.len();
        proof {
            vaddr::lemma_page_size::<A>();
            self.lemma_small_range(a, 8, PageFlags::READ);
        }
        let access = match self.static_small_multibyte_acces::<8>(vaddr) {
            Ok(access) => access,
            Err(fault) => return Err(fault),
        };
        let base_page = &self.pages[access.base_page];
        proof {
            assert(base_page.wf() && base_page.backed_by(host@.len()));
        }
        match access.second_page {
            None => {
                let loaded = base_page.load64(host, access.base_page_offset);
                proof {
                    if loaded is Ok {
                        self.lemma_loaded_inside(host@, a, 8, PageFlags::READ);
                    }
                }
                loaded
            },
            Some(second_page) => {
                let next_page = &self.pages[second_page.page];
                proof {
                    assert(next_page.wf() && next_page.backed_by(host@.len()));
                }
                let hi_ptr = match next_page.get_data_ptr(PageFlags::READ) {
                    Ok(hi_ptr) => hi_ptr,
                    Err(fault) => return Err(fault),
                };
                let lo_page_ptr = match base_page.get_data_ptr(PageFlags::READ) {
                    Ok(lo_page_ptr) => lo_page_ptr,
                    Err(fault) => return Err(fault),
                };
                // The word that ends at the end of the base page, and the word that the
                // next page starts with, hold all bytes of the value.
                let lo_offset: usize = access.base_page_offset - second_page.overflow_amount as usize;
                proof {
                    Self::lemma_pointer_aligned(hi_ptr as nat, 8);
                    Self::lemma_pointer_aligned(lo_page_ptr as nat, 8);
                }
                let hi = tear_mem_ops::load_le_64_aligned(host, hi_ptr);
                let lo = tear_mem_ops::load_le_64_aligned(host, lo_page_ptr + lo_offset);
                let bit_offset: u32 = second_page.overflow_amount as u32 * 8;
                let hi_shift: u32 = 64 - bit_offset;
                proof {
                    self.lemma_loaded_across(host@, a, 8, second_page.overflow_amount as nat);
                    lemma_join64(hi, lo, second_page.overflow_amount);
                }
                Ok((hi << hi_shift) | (lo >> bit_offset))
            },
        }
    }

    /// Stores a little-endian scalar into virtual memory.
    ///
    /// The access requires write permission for every page it touches. If the access
    /// crosses a page boundary, both pages must be mapped and writable. Executable
    /// pages that are written to turn dirty.
    ///
    /// Returns [`MemoryFault`] on unmapped access, permission failure, or overflow.
    /// Nothing is written then.
    pub fn store64_le(&mut self, host: &mut HostMemory, vaddr: A, value: u64) -> (r: Result<
        (),
        MemoryFault,
    >)
        requires
            old(self).wf(),
            old(self).backed_by(old(host)@.len()),
        ensures
            final(self).wf(),
            final(self).backed_by(final(host)@.len()),
            r is Ok <==> old(self).range_accessible(vaddr.as_nat(), 8, PageFlags::WRITE),
            r is Ok ==> {
                &&& final(host)@ == old(self).stored(
                    old(host)@,
                    vaddr.as_nat(),
                    le::bytes_of(value as nat, 8),
                )
                &&& final(self).pages@ == old(self).stored_pages(vaddr.as_nat(), 8)
            },
            r is Err ==> final(host)@ == old(host)@ && final(self).pages@ == old(self).pages@,
    {
        let ghost a = vaddr.as_nat();
        proof {
            vaddr::lemma_page_size::<A>();
            self.lemma_small_range(a, 8, PageFlags::WRITE);
            le::bytes_of_len(value as nat, 8);
        }
        let access = match self.static_small_multibyte_acces::<8>(vaddr) {
            Ok(access) => access,
            Err(fault) => return Err(fault),
        };
        let ghost p = access.base_page as int;
        proof {
            assert(self.pages@[p].wf() && self.pages@[p].backed_by(host@.len()));
        }
        match access.second_page {
            None => {
                let ghost before = *self;
                let ghost memory = host@;
                let stored = self.pages[access.base_page].store64(
                    host,
                    access.base_page_offset,
                    value,
                );
                proof {
                    if stored is Ok {
                        before.lemma_stored_inside(memory, a, le::bytes_of(value as nat, 8));
                        before.lemma_stored_table(*self, memory, a, 8);
                    } else {
                        assert(self.pages@ =~= before.pages@);
                    }
                }
                stored
            },
            Some(second_page) => {
                let bytes = le::to_le_bytes(value as u64, 8);
                self.store_across(host, vaddr, access.base_page, second_page.page, bytes.as_slice())
            },
        }
    }

    /// Loads a little-endian scalar from virtual memory.
    ///
    /// The access requires read permission for every page it touches. If the access
    /// crosses a page boundary, both pages must be mapped and readable.
    ///
    /// Returns [`MemoryFault`] on unmapped access, permission failure, or overflow.
    pub fn load32_le(&self, host: &HostMemory, vaddr: A) -> (r: Result<u32, MemoryFault>)
        requires
            self.wf(),
            self.backed_by(host@.len()),
        ensures
            match r {
                Ok(value) => {
                    &&& self.range_accessible(vaddr.as_nat(), 4, PageFlags::READ)
                    &&& value == le::value_of(self.loaded(host@, vaddr.as_nat(), 4))
                },
                Err(_) => !self.range_accessible(vaddr.as_nat(), 4, PageFlags::READ),
            },
    {
        let ghost a = vaddr.as_nat();
        let total: usize = host.len();
        proof {
            vaddr::lemma_page_size::<A>();
            self.lemma_small_range(a, 4, PageFlags::READ);
        }
        let access = match self.static_small_multibyte_acces::<4>(vaddr) {
            Ok(access) => access,
            Err(fault) => return Err(fault),
        };
        let base_page = &self.pages[access.base_page];
        proof {
            assert(base_page.wf() && base_page.backed_by(host@.len()));
        }
        match access.second_page {
            None => {
                let loaded = base_page.load32(host, access.base_page_offset);
                proof {
                    if loaded is Ok {
                        self.lemma_loaded_inside(host@, a, 4, PageFlags::READ);
                    }
                }
                loaded
            },
            Some(second_page) => {
                let next_page = &self.pages[second_page.page];
                proof {
                    assert(next_page.wf() && next_page.backed_by(host@.len()));
                }
                let hi_ptr = match next_page.get_data_ptr(PageFlags::READ) {
                    Ok(hi_ptr) => hi_ptr,
                    Err(fault) => return Err(fault),
                };
                let lo_page_ptr = match base_page.get_data_ptr(PageFlags::READ) {
                    Ok(lo_page_ptr) => lo_page_ptr,
                    Err(fault) => return Err(fault),
                };
                // The word that ends at the end of the base page, and the word that the
                // next page starts with, hold all bytes of the value.
                let lo_offset: usize = access.base_page_offset - second_page.overflow_amount as usize;
                proof {
                    Self::lemma_pointer_aligned(hi_ptr as nat, 4);
                    Self::lemma_pointer_aligned(lo_page_ptr as nat, 4);
                }
                let hi = tear_mem_ops::load_le_32_aligned(host, hi_ptr);
                let lo = tear_mem_ops::load_le_32_aligned(host, lo_page_ptr + lo_offset);
                let bit_offset: u32 = second_page.overflow_amount as u32 * 8;
                let hi_shift: u32 = 32 - bit_offset;
                proof {
                    self.lemma_loaded_across(host@, a, 4, second_page.overflow_amount as nat);
                    lemma_join32(hi, lo, second_page.overflow_amount);
                }
                Ok((hi << hi_shift) | (lo >> bit_offset))
            },
        }
    }

    /// Stores a little-endian scalar into virtual memory.
    ///
    /// The access requires write permission for every page it touches. If the access
    /// crosses a page boundary, both pages must be mapped and writable. Executable
    /// pages that are written to turn dirty.
    ///
    /// Returns [`MemoryFault`] on unmapped access, permission failure, or overflow.
    /// Nothing is written then.
    pub fn store32_le(&mut self, host: &mut HostMemory, vaddr: A, value: u32) -> (r: Result<
        (),
        MemoryFault,
    >)
        requires
            old(self).wf(),
            old(self).backed_by(old(host)@.len()),
        ensures
            final(self).wf(),
            final(self).backed_by(final(host)@.len()),
            r is Ok <==> old(self).range_accessible(vaddr.as_nat(), 4, PageFlags::WRITE),
            r is Ok ==> {
                &&& final(host)@ == old(self).stored(
                    old(host)@,
                    vaddr.as_nat(),
                    le::bytes_of(value as nat, 4),
                )
                &&& final(self).pages@ == old(self).stored_pages(vaddr.as_nat(), 4)
            },
            r is Err ==> final(host)@ == old(host)@ && final(self).pages@ == old(self).pages@,
    {
        let ghost a = vaddr.as_nat();
        proof {
            vaddr::lemma_page_size::<A>();
            self.lemma_small_range(a, 4, PageFlags::WRITE);
            le::bytes_of_len(value as nat, 4);
        }
        let access = match self.static_small_multibyte_acces::<4>(vaddr) {
            Ok(access) => access,
            Err(fault) => return Err(fault),
        };
        let ghost p = access.base_page as int;
        proof {
            assert(self.pages@[p].wf() && self.pages@[p].backed_by(host@.len()));
        }
        match access.second_page {
            None => {
                let ghost before = *self;
                let ghost memory = host@;
                let stored = self.pages[access.base_page].store32(
                    host,
                    access.base_page_offset,
                    value,
                );
                proof {
                    if stored is Ok {
                        before.lemma_stored_inside(memory, a, le::bytes_of(value as nat, 4));
                        before.lemma_stored_table(*self, memory, a, 4);
                    } else {
                        assert(self.pages@ =~= before.pages@);
                    }
                }
                stored
            },
            Some(second_page) => {
                let bytes = le::to_le_bytes(value as u64, 4);
                self.store_across(host, vaddr, access.base_page, second_page.page, bytes.as_slice())
            },
        }
    }

    /// Loads a little-endian scalar from virtual memory.
    ///
    /// The access requires read permission for every page it touches. If the access
    /// crosses a page boundary, both pages must be mapped and readable.
    ///
    /// Returns [`MemoryFault`] on unmapped access, permission failure, or overflow.
    pub fn load16_le(&self, host: &HostMemory, vaddr: A) -> (r: Result<u16, MemoryFault>)
        requires
            self.wf(),
            self.backed_by(host@.len()),
        ensures
            match r {
                Ok(value) => {
                    &&& self.range_accessible(vaddr.as_nat(), 2, PageFlags::READ)
                    &&& value == le::value_of(self.loaded(host@, vaddr.as_nat(), 2))
                },
                Err(_) => !self.range_accessible(vaddr.as_nat(), 2, PageFlags::READ),
            },
    {
        let ghost a = vaddr.as_nat();
        let total: usize = host.len();
        proof {
            vaddr::lemma_page_size::<A>();
            self.lemma_small_range(a, 2, PageFlags::READ);
        }
        let access = match self.static_small_multibyte_acces::<2>(vaddr) {
            Ok(access) => access,
            Err(fault) => return Err(fault),
        };
        let base_page = &self.pages[access.base_page];
        proof {
            assert(base_page.wf() && base_page.backed_by(host@.len()));
        }
        match access.second_page {
            None => {
                let loaded = base_page.load16(host, access.base_page_offset);
                proof {
                    if loaded is Ok {
                        self.lemma_loaded_inside(host@, a, 2, PageFlags::READ);
                    }
                }
                loaded
            },
            Some(second_page) => {
                let next_page = &self.pages[second_page.page];
                proof {
                    assert(next_page.wf() && next_page.backed_by(host@.len()));
                }
                let hi_ptr = match next_page.get_data_ptr(PageFlags::READ) {
                    Ok(hi_ptr) => hi_ptr,
                    Err(fault) => return Err(fault),
                };
                let lo_page_ptr = match base_page.get_data_ptr(PageFlags::READ) {
                    Ok(lo_page_ptr) => lo_page_ptr,
                    Err(fault) => return Err(fault),
                };
                // The word that ends at the end of the base page, and the word that the
                // next page starts with, hold all bytes of the value.
                let lo_offset: usize = access.base_page_offset - second_page.overflow_amount as usize;
                proof {
                    Self::lemma_pointer_aligned(hi_ptr as nat, 2);
                    Self::lemma_pointer_aligned(lo_page_ptr as nat, 2);
                }
                let hi = tear_mem_ops::load_le_16_aligned(host, hi_ptr);
                let lo = tear_mem_ops::load_le_16_aligned(host, lo_page_ptr + lo_offset);
                let bit_offset: u32 = second_page.overflow_amount as u32 * 8;
                let hi_shift: u32 = 16 - bit_offset;
                proof {
                    self.lemma_loaded_across(host@, a, 2, second_page.overflow_amount as nat);
                    lemma_join16(hi, lo, second_page.overflow_amount);
                }
                Ok((hi << hi_shift) | (lo >> bit_offset))
            },
        }
    }

    /// Stores a little-endian scalar into virtual memory.
    ///
    /// The access requires write permission for every page it touches. If the access
    /// crosses a page boundary, both pages must be mapped and writable. Executable
    /// pages that are written to turn dirty.
    ///
    /// Returns [`MemoryFault`] on unmapped access, permission failure, or overflow.
    /// Nothing is written then.
    pub fn store16_le(&mut self, host: &mut HostMemory, vaddr: A, value: u16) -> (r: Result<
        (),
        MemoryFault,
    >)
        requires
            old(self).wf(),
            old(self).backed_by(old(host)@.len()),
        ensures
            final(self).wf(),
            final(self).backed_by(final(host)@.len()),
            r is Ok <==> old(self).range_accessible(vaddr.as_nat(), 2, PageFlags::WRITE),
            r is Ok ==> {
                &&& final(host)@ == old(self).stored(
                    old(host)@,
                    vaddr.as_nat(),
                    le::bytes_of(value as nat, 2),
                )
                &&& final(self).pages@ == old(self).stored_pages(vaddr.as_nat(), 2)
            },
            r is Err ==> final(host)@ == old(host)@ && final(self).pages@ == old(self).pages@,
    {
        let ghost a = vaddr.as_nat();
        proof {
            vaddr::lemma_page_size::<A>();
            self.lemma_small_range(a, 2, PageFlags::WRITE);
            le::bytes_of_len(value as nat, 2);
        }
        let access = match self.static_small_multibyte_acces::<2>(vaddr) {
            Ok(access) => access,
            Err(fault) => return Err(fault),
        };
        let ghost p = access.base_page as int;
        proof {
            assert(self.pages@[p].wf() && self.pages@[p].backed_by(host@.len()));
        }
        match access.second_page {
            None => {
                let ghost before = *self;
                let ghost memory = host@;
                let stored = self.pages[access.base_page].store16(
                    host,
                    access.base_page_offset,
                    value,
                );
                proof {
                    if stored is Ok {
                        before.lemma_stored_inside(memory, a, le::bytes_of(value as nat, 2));
                        before.lemma_stored_table(*self, memory, a, 2);
                    } else {
                        assert(self.pages@ =~= before.pages@);
                    }
                }
                stored
            },
            Some(second_page) => {
                let bytes = le::to_le_bytes(value as u64, 2);
                self.store_across(host, vaddr, access.base_page, second_page.page, bytes.as_slice())
            },
        }
    }

    /// Finds the page of an address that is a multiple of `ALIGN`.
    pub(crate) fn single_page_aligned_access<const ALIGN: u8>(&self, vaddr: A) -> (r: Result<
        (usize, usize),
        MemoryFault,
    >)
        requires
            ALIGN > 0,
        ensures
            ({
                let a = vaddr.as_nat();
                let found = a % (ALIGN as nat) == 0 && Self::page_of(a) < self.pages@.len();
                match r {
                    Ok((page, offset)) => found && page == Self::page_of(a) && offset
                        == Self::offset_of(a),
                    Err(_) => !found,
                }
            }),
    {
        if !vaddr.is_multiple_of(A::from_u8(ALIGN)) {
            return Err(MemoryFault::fault());
        }
        let table_len: usize = self.pages.len();
        let (page, offset) = vaddr.div_rem_page_size();
        match page.try_to_usize() {
            Some(page) => if page < table_len {
                Ok((page, offset))
            } else {
                Err(MemoryFault::fault())
            },
            None => Err(MemoryFault::fault()),
        }
    }

    /// Loads one byte from virtual memory.
    ///
    /// Returns [`MemoryFault`] if the byte's page is unmapped or unreadable.
    pub fn load_byte(&self, host: &HostMemory, vaddr: A) -> (r: Result<u8, MemoryFault>)
        requires
            self.wf(),
            self.backed_by(host@.len()),
        ensures
            match r {
                Ok(value) => {
                    &&& self.can_access(vaddr.as_nat(), PageFlags::READ)
                    &&& value == host@[self.host_addr(vaddr.as_nat())]
                },
                Err(_) => !self.can_access(vaddr.as_nat(), PageFlags::READ),
            },
    {
        proof {
            vaddr::lemma_page_size::<A>();
            paging::lemma_page_parts(vaddr.as_nat(), A::PAGE_SIZE as nat);
        }
        match self.single_page_aligned_access::<1>(vaddr) {
            Ok((page, offset)) => {
                assert(self.pages@[page as int].wf() && self.pages@[page as int].backed_by(host@.len()));
                self.pages[page].load_byte(host, offset)
            },
            Err(fault) => Err(fault),
        }
    }

    /// Stores one byte into virtual memory.
    ///
    /// Returns [`MemoryFault`] if the byte's page is unmapped or unwritable.
    pub fn store_byte(&mut self, host: &mut HostMemory, vaddr: A, value: u8) -> (r: Result<
        (),
        MemoryFault,
    >)
        requires
            old(self).wf(),
            old(self).backed_by(old(host)@.len()),
        ensures
            final(self).wf(),
            final(self).backed_by(final(host)@.len()),
            r is Ok <==> old(self).can_access(vaddr.as_nat(), PageFlags::WRITE),
            r is Ok ==> {
                &&& final(host)@ == old(self).stored(old(host)@, vaddr.as_nat(), seq![value])
                &&& final(self).pages@ == old(self).stored_pages(vaddr.as_nat(), 1)
            },
            r is Err ==> final(host)@ == old(host)@ && final(self).pages@ == old(self).pages@,
    {
        let ghost a = vaddr.as_nat();
        let ghost m0 = *self;
        let ghost h0 = host@;
        proof {
            vaddr::lemma_page_size::<A>();
            paging::lemma_page_parts(a, A::PAGE_SIZE as nat);
        }
        let (page, offset) = match self.single_page_aligned_access::<1>(vaddr) {
            Ok(place) => place,
            Err(fault) => return Err(fault),
        };
        assert(self.pages@[page as int].wf() && self.pages@[page as int].backed_by(host@.len()));
        let stored = self.pages[page].store_byte(host, offset, value);
        proof {
            if stored is Ok {
                m0.lemma_stored_table(*self, h0, a, 1);
                assert(seq![value].drop_last() =~= Seq::empty());
                assert(m0.stored(h0, a, Seq::empty()) == h0);
            } else {
                assert(self.pages@ =~= m0.pages@);
            }
        }
        stored
    }

    /// Fetches an instruction.
    pub fn fetch(&self, host: &HostMemory, vaddr: A) -> (r: Result<A::InsnWord, MemoryFault>) where
        A: InsnFetch,

        requires
            self.wf(),
            self.backed_by(host@.len()),
        ensures
            r == vaddr.fetched(*self, host@),
    {
        vaddr.fetch_insn_word(self, host)
    }
}

impl<A: VAddr> Default for MMU<A> {
    fn default() -> (r: Self)
        ensures
            r.pages@.len() == 0,
            r.wf(),
    {
        Self::new()
    }
}

} // verus!
