//! Byte-range accesses.

use vstd::prelude::*;
use crate::host_memory::HostMemory;
use crate::le;
use crate::mmu::{MemoryFault, PageFlags, MMU};
use crate::paging;
use crate::vaddr;
use crate::vaddr::VAddr;

verus! {

/// The part of an access that lies in one page: `len` bytes at `page_off` in the
/// page numbered `page`, which are the bytes from `buf_off` on of the access.
pub struct PageChunk {
    pub page: usize,
    pub page_off: usize,
    pub buf_off: usize,
    pub len: usize,
}

/// `c` is the `i`-th chunk of an access to `a .. a + len` with pages of `ps` bytes.
pub open spec fn is_chunk(c: PageChunk, a: nat, len: nat, ps: nat, i: nat) -> bool {
    let p = a / ps + i;
    &&& c.page == p
    &&& c.page_off == if i == 0 { a % ps } else { 0 }
    &&& c.buf_off == if i == 0 { 0 } else { p * ps - a }
    &&& c.buf_off + c.len == if a + len <= p * ps + ps { len as int } else { p * ps + ps - a }
}

/// The addresses of a chunk lie in its page, in order, inside the access.
proof fn lemma_chunk(c: PageChunk, a: nat, len: nat, ps: nat, i: nat)
    requires
        is_chunk(c, a, len, ps, i),
        ps > 0,
        len > 0,
        i <= (a + len - 1) as nat / ps - a / ps,
    ensures
        c.len > 0,
        c.page_off + c.len <= ps,
        c.buf_off + c.len <= len,
        forall|k: nat|
            k < c.len ==> #[trigger] ((a + c.buf_off + k) as nat / ps) == c.page && (a + c.buf_off
                + k) as nat % ps == c.page_off + k,
{
    let last = (a + len - 1) as nat;
    let p = a / ps + i;
    paging::lemma_page_parts(a, ps);
    paging::lemma_page_parts(last, ps);
    paging::lemma_page_order(a, last, ps);
    if p < last / ps {
        paging::lemma_page_starts(p, last / ps, ps);
    }
    if i > 0 {
        paging::lemma_page_starts(a / ps, p, ps);
    }
    assert forall|k: nat| k < c.len implies #[trigger] ((a + c.buf_off + k) as nat / ps) == c.page
        && (a + c.buf_off + k) as nat % ps == c.page_off + k by {
        paging::lemma_page_of((a + c.buf_off + k) as nat, p, ps);
    }
}

/// Where a chunk ends: at the end of the access, or where the next chunk starts.
proof fn lemma_chunk_end(c: PageChunk, a: nat, len: nat, ps: nat, i: nat)
    requires
        is_chunk(c, a, len, ps, i),
        ps > 0,
        len > 0,
        i <= (a + len - 1) as nat / ps - a / ps,
    ensures
        c.buf_off + c.len == if i == (a + len - 1) as nat / ps - a / ps {
            len as int
        } else {
            (a / ps + i + 1) * ps - a
        },
{
    let last = (a + len - 1) as nat;
    let p = a / ps + i;
    paging::lemma_page_parts(last, ps);
    assert((p + 1) * ps == p * ps + ps) by (nonlinear_arith);
    if p < last / ps {
        paging::lemma_page_starts(p, last / ps, ps);
    }
}

impl<A: VAddr> MMU<A> {
    /// Every byte of `a .. a + len` has a place in a host region of `size` bytes.
    pub open spec fn range_backed(self, a: nat, len: nat, size: nat) -> bool {
        forall|x: nat| a <= x < a + len ==> 0 <= #[trigger] self.host_addr(x) < size
    }

    /// Accessible bytes have a place in the backing region.
    pub(crate) proof fn lemma_range_backed(self, a: nat, len: nat, required: u8, size: nat)
        requires
            self.wf(),
            self.backed_by(size),
            self.range_accessible(a, len, required),
            required == PageFlags::READ || required == PageFlags::WRITE || required
                == PageFlags::EXECUTE,
        ensures
            self.range_backed(a, len, size),
            forall|x: nat|
                a <= x < a + len ==> #[trigger] Self::page_of(x) < self.pages@.len()
                    && self.pages@[Self::page_of(x) as int].ptr is Some,
    {
        vaddr::lemma_page_size::<A>();
        assert forall|x: nat| a <= x < a + len implies 0 <= #[trigger] self.host_addr(x) < size by {
            assert(self.can_access(x, required));
            let page = self.pages@[Self::page_of(x) as int];
            assert(page.wf() && page.backed_by(size));
            paging::lemma_page_parts(x, A::PAGE_SIZE as nat);
        }
        assert forall|x: nat| a <= x < a + len implies #[trigger] Self::page_of(x) < self.pages@.len()
            && self.pages@[Self::page_of(x) as int].ptr is Some by {
            assert(self.can_access(x, required));
            assert(self.pages@[Self::page_of(x) as int].wf());
        }
    }

    /// Writing a run of bytes that lies in one page writes them side by side.
    pub(crate) proof fn lemma_stored_chunk(
        self,
        host: Seq<u8>,
        a: nat,
        data: Seq<u8>,
        from: nat,
        to: nat,
        page: nat,
        off: nat,
    )
        requires
            from <= to <= data.len(),
            self.range_backed(a, data.len(), host.len()),
            forall|k: nat|
                from <= k < to ==> Self::page_of(#[trigger] (a + k)) == page && Self::offset_of(
                    a + k,
                ) == off + (k - from),
        ensures
            self.stored(host, a, data.take(to as int)) == le::write_at(
                self.stored(host, a, data.take(from as int)),
                self.pages@[page as int].ptr->0 + off,
                data.subrange(from as int, to as int),
            ),
        decreases to - from,
    {
        let base = self.stored(host, a, data.take(from as int));
        let at = self.pages@[page as int].ptr->0 + off;
        if to == from {
            assert(le::write_at(base, at, data.subrange(from as int, to as int)) =~= base);
        } else {
            let mid = (to - 1) as nat;
            self.lemma_stored_len(host, a, data.take(from as int));
            self.lemma_stored_len(host, a, data.take(mid as int));
            assert(0 <= self.host_addr(a + mid) < host.len());
            self.lemma_stored_chunk(host, a, data, from, mid, page, off);
            assert(data.take(to as int).drop_last() =~= data.take(mid as int));
            assert(Self::page_of(a + mid) == page);
            assert(self.host_addr(a + mid) == at + (mid - from));
            assert(self.stored(host, a, data.take(to as int)) =~= le::write_at(
                base,
                at,
                data.subrange(from as int, to as int),
            ));
        }
    }

    /// A store keeps the size of the host region.
    pub(crate) proof fn lemma_stored_len(self, host: Seq<u8>, a: nat, data: Seq<u8>)
        requires
            self.range_backed(a, data.len(), host.len()),
        ensures
            self.stored(host, a, data).len() == host.len(),
        decreases data.len(),
    {
        if data.len() > 0 {
            self.lemma_stored_len(host, a, data.drop_last());
            assert(0 <= self.host_addr((a + data.len() - 1) as nat) < host.len());
        }
    }

    /// Splits the access to `vaddr_start ..= vaddr_end` at the page boundaries,
    /// after checking every covered page for the permissions `required`.
    fn page_chunks(&self, vaddr_start: A, vaddr_end: A, required: u8) -> (r: Result<
        Vec<PageChunk>,
        MemoryFault,
    >)
        requires
            self.wf(),
            vaddr_start.as_nat() <= vaddr_end.as_nat(),
            vaddr_end.as_nat() - vaddr_start.as_nat() < usize::MAX,
        ensures
            ({
                let a = vaddr_start.as_nat();
                let len = (vaddr_end.as_nat() - a + 1) as nat;
                match r {
                    Ok(chunks) => {
                        &&& self.range_accessible(a, len, required)
                        &&& chunks@.len() == Self::page_of(vaddr_end.as_nat()) - Self::page_of(a) + 1
                        &&& forall|i: int|
                            0 <= i < chunks@.len() ==> is_chunk(
                                #[trigger] chunks@[i],
                                a,
                                len,
                                A::PAGE_SIZE as nat,
                                i as nat,
                            )
                    },
                    Err(_) => !self.range_accessible(a, len, required),
                }
            }),
    {
        let ghost ps = A::PAGE_SIZE as nat;
        let ghost a = vaddr_start.as_nat();
        let ghost b = vaddr_end.as_nat();
        let ghost len = (b - a + 1) as nat;
        proof {
            vaddr::lemma_page_size::<A>();
            paging::lemma_page_parts(a, ps);
            paging::lemma_page_parts(b, ps);
            paging::lemma_page_order(a, b, ps);
        }
        let table_len: usize = self.pages.len();
        let (end_page, end_offset) = vaddr_end.div_rem_page_size();
        let end_page = match end_page.try_to_usize() {
            Some(end_page) => end_page,
            None => {
                assert(!self.can_access(b, required));
                return Err(MemoryFault::fault());
            },
        };
        if end_page >= table_len {
            assert(!self.can_access(b, required));
            return Err(MemoryFault::fault());
        }
        let (start_page, start_offset) = vaddr_start.div_rem_page_size();
        let start_page = match start_page.try_to_usize() {
            Some(start_page) => start_page,
            None => return Err(MemoryFault::fault()),
        };
        let mut page_idx: usize = start_page;
        while page_idx <= end_page
            invariant
                ps == A::PAGE_SIZE,
                ps > 0,
                a == vaddr_start.as_nat(),
                b == vaddr_end.as_nat(),
                a <= b,
                len == b - a + 1,
                a == (a / ps) * ps + a % ps,
                b == (b / ps) * ps + b % ps,
                start_page == a / ps,
                end_page == b / ps,
                start_page <= page_idx <= end_page + 1,
                end_page < self.pages@.len() <= usize::MAX,
                forall|i: int|
                    start_page <= i < page_idx ==> (#[trigger] self.pages@[i]).page_flags.has(required),
            decreases end_page + 1 - page_idx,
        {
            if !self.pages[page_idx].has_access(required) {
                proof {
                    let p = page_idx as nat;
                    let x = if p == a / ps { a } else { p * ps };
                    paging::lemma_page_parts(a, ps);
                    if p != a / ps {
                        paging::lemma_page_starts(a / ps, p, ps);
                    }
                    if p != b / ps {
                        paging::lemma_page_starts(p, b / ps, ps);
                    }
                    paging::lemma_page_of(x, p, ps);
                    assert(!self.can_access(x, required));
                }
                return Err(MemoryFault::fault());
            }
            page_idx = page_idx + 1;
        }
        proof {
            assert forall|x: nat| a <= x < a + len implies #[trigger] self.can_access(x, required) by {
                paging::lemma_page_order(a, x, ps);
                paging::lemma_page_order(x, b, ps);
                assert(self.pages@[(x / ps) as int].page_flags.has(required));
            }
        }
        let mut chunks: Vec<PageChunk> = Vec::new();
        let mut buf_offset: usize = 0;
        let mut page_idx: usize = start_page;
        while page_idx <= end_page
            invariant
                ps == A::PAGE_SIZE,
                ps > 0,
                a <= b,
                len == b - a + 1,
                len <= usize::MAX,
                a == (a / ps) * ps + a % ps,
                a % ps < ps,
                b == (b / ps) * ps + b % ps,
                b % ps < ps,
                start_page == a / ps,
                end_page == b / ps,
                start_offset == a % ps,
                end_offset == b % ps,
                start_page <= page_idx <= end_page + 1,
                end_page < usize::MAX,
                chunks@.len() == page_idx - start_page,
                page_idx == start_page ==> buf_offset == 0,
                start_page < page_idx <= end_page ==> buf_offset == page_idx as nat * ps - a,
                forall|i: int|
                    0 <= i < chunks@.len() ==> is_chunk(#[trigger] chunks@[i], a, len, ps, i as nat),
            decreases end_page + 1 - page_idx,
        {
            let page_off: usize = if page_idx == start_page {
                start_offset
            } else {
                0
            };
            let page_end: usize = if page_idx == end_page {
                end_offset + 1
            } else {
                A::PAGE_SIZE
            };
            proof {
                let p = page_idx as nat;
                if p < b / ps {
                    paging::lemma_page_starts(p, b / ps, ps);
                }
                if p > a / ps {
                    paging::lemma_page_starts(a / ps, p, ps);
                }
                assert((p + 1) * ps == p * ps + ps) by (nonlinear_arith);
            }
            let chunk_len: usize = page_end - page_off;
            let chunk = PageChunk {
                page: page_idx,
                page_off,
                buf_off: buf_offset,
                len: chunk_len,
            };
            assert(is_chunk(chunk, a, len, ps, (page_idx - start_page) as nat));
            chunks.push(chunk);
            buf_offset = buf_offset + chunk_len;
            page_idx = page_idx + 1;
        }
        Ok(chunks)
    }

    /// Splits the access to `vaddr .. vaddr + len` at the page boundaries, after
    /// checking every covered page for the permissions `required`.
    fn page_chunks_len(&self, vaddr: A, len: usize, required: u8) -> (r: Result<
        Vec<PageChunk>,
        MemoryFault,
    >)
        requires
            self.wf(),
        ensures
            ({
                let a = vaddr.as_nat();
                match r {
                    Ok(chunks) => {
                        &&& self.range_accessible(a, len as nat, required)
                        &&& len == 0 ==> chunks@.len() == 0
                        &&& len > 0 ==> chunks@.len() == Self::page_of((a + len - 1) as nat)
                            - Self::page_of(a) + 1
                        &&& forall|i: int|
                            0 <= i < chunks@.len() ==> is_chunk(
                                #[trigger] chunks@[i],
                                a,
                                len as nat,
                                A::PAGE_SIZE as nat,
                                i as nat,
                            )
                    },
                    Err(_) => !self.range_accessible(a, len as nat, required),
                }
            }),
    {
        if len == 0 {
            return Ok(Vec::new());
        }
        let end = match vaddr.add_offset(len - 1) {
            Some(end) => end,
            None => {
                proof {
                    let x = (vaddr.as_nat() + len - 1) as nat;
                    let ps = A::PAGE_SIZE as nat;
                    vaddr::lemma_page_size::<A>();
                    paging::lemma_page_parts(x, ps);
                    if x / ps < self.pages@.len() {
                        paging::lemma_page_starts(x / ps, self.pages@.len(), ps);
                    }
                    assert(!self.can_access(x, required));
                }
                return Err(MemoryFault::fault());
            },
        };
        self.page_chunks(vaddr, end, required)
    }

    /// Loads a byte slice from virtual memory into `mem`.
    ///
    /// The load may span multiple pages. Every covered page must be mapped and have
    /// read permission.
    ///
    /// Returns [`MemoryFault`] if the range is unmapped, unreadable, or if address
    /// arithmetic overflows. `mem` is then unchanged.
    pub fn load(&self, host: &HostMemory, vaddr: A, mem: &mut [u8]) -> (r: Result<(), MemoryFault>)
        requires
            self.wf(),
            self.backed_by(host@.len()),
        ensures
            r is Ok <==> self.range_accessible(
                vaddr.as_nat(),
                old(mem)@.len(),
                PageFlags::READ,
            ),
            r is Ok ==> final(mem)@ == self.loaded(host@, vaddr.as_nat(), old(mem)@.len()),
            r is Err ==> final(mem)@ == old(mem)@,
    {
        let len: usize = mem.len();
        let ghost a = vaddr.as_nat();
        let ghost ps = A::PAGE_SIZE as nat;
        let chunks = match self.page_chunks_len(vaddr, len, PageFlags::READ) {
            Ok(chunks) => chunks,
            Err(fault) => return Err(fault),
        };
        let count: usize = chunks.len();
        proof {
            vaddr::lemma_page_size::<A>();
            if len > 0 {
                paging::lemma_page_order(a, (a + len - 1) as nat, ps);
            }
        }
        let mut i: usize = 0;
        while i < count
            invariant
                i <= count == chunks@.len(),
                a == vaddr.as_nat(),
                ps == A::PAGE_SIZE,
                ps > 0,
                self.wf(),
                self.backed_by(host@.len()),
                self.range_accessible(a, len as nat, PageFlags::READ),
                mem@.len() == len == old(mem)@.len(),
                len == 0 ==> count == 0,
                len > 0 ==> count == (a + len - 1) as nat / ps - a / ps + 1,
                forall|i: int|
                    0 <= i < chunks@.len() ==> is_chunk(
                        #[trigger] chunks@[i],
                        a,
                        len as nat,
                        ps,
                        i as nat,
                    ),
                forall|j: int|
                    0 <= j < (if i < count { chunks@[i as int].buf_off } else { len }) ==> mem@[j]
                        == host@[self.host_addr((a + j) as nat)],
            decreases count - i,
        {
            let chunk = &chunks[i];
            let ghost before = mem@;
            proof {
                lemma_chunk(*chunk, a, len as nat, ps, i as nat);
                lemma_chunk_end(*chunk, a, len as nat, ps, i as nat);
                if i + 1 < count {
                    assert(is_chunk(chunks@[i + 1], a, len as nat, ps, (i + 1) as nat));
                }
                let x = (a + chunk.buf_off + 0nat) as nat;
                assert(x / ps == chunk.page);
                assert(self.can_access(x, PageFlags::READ));
                let page = self.pages@[chunk.page as int];
                assert(page.wf() && page.backed_by(host@.len()));
            }
            let loaded = self.pages[chunk.page].load(
                host,
                chunk.page_off,
                mem,
                chunk.buf_off,
                chunk.len,
            );
            assert(loaded is Ok);
            proof {
                assert forall|j: int| 0 <= j < chunk.buf_off + chunk.len implies mem@[j]
                    == host@[self.host_addr((a + j) as nat)] by {
                    if j >= chunk.buf_off {
                        let k = (j - chunk.buf_off) as nat;
                        assert((a + chunk.buf_off + k) as nat / ps == chunk.page);
                    } else {
                        assert(mem@[j] == before[j]);
                    }
                }
            }
            i = i + 1;
        }
        assert(mem@ =~= self.loaded(host@, a, len as nat));
        Ok(())
    }

    /// Stores a byte slice into virtual memory.
    ///
    /// The store may span multiple pages. Every covered page must be mapped and have
    /// write permission. Executable pages that are written to turn dirty.
    ///
    /// Returns [`MemoryFault`] if the range is unmapped, unwritable, or if address
    /// arithmetic overflows. Nothing is written then.
    pub fn store(&mut self, host: &mut HostMemory, vaddr: A, mem: &[u8]) -> (r: Result<
        (),
        MemoryFault,
    >)
        requires
            old(self).wf(),
            old(self).backed_by(old(host)@.len()),
        ensures
            final(self).wf(),
            final(self).backed_by(final(host)@.len()),
            r is Ok <==> old(self).range_accessible(
                vaddr.as_nat(),
                mem@.len(),
                PageFlags::WRITE,
            ),
            r is Ok ==> {
                &&& final(host)@ == old(self).stored(old(host)@, vaddr.as_nat(), mem@)
                &&& final(self).pages@ == old(self).stored_pages(vaddr.as_nat(), mem@.len())
            },
            r is Err ==> final(host)@ == old(host)@ && final(self).pages@ == old(self).pages@,
    {
        let len: usize = mem.len();
        let ghost a = vaddr.as_nat();
        let ghost ps = A::PAGE_SIZE as nat;
        let ghost m0 = *self;
        let ghost h0 = host@;
        let chunks = match self.page_chunks_len(vaddr, len, PageFlags::WRITE) {
            Ok(chunks) => chunks,
            Err(fault) => return Err(fault),
        };
        let count: usize = chunks.len();
        proof {
            vaddr::lemma_page_size::<A>();
            if len > 0 {
                paging::lemma_page_order(a, (a + len - 1) as nat, ps);
            }
            m0.lemma_range_backed(a, len as nat, PageFlags::WRITE, h0.len());
            assert(mem@.take(0) =~= Seq::empty());
        }
        let mut i: usize = 0;
        while i < count
            invariant
                i <= count == chunks@.len(),
                a == vaddr.as_nat(),
                ps == A::PAGE_SIZE,
                ps > 0,
                m0.wf(),
                m0.backed_by(h0.len()),
                m0.range_accessible(a, len as nat, PageFlags::WRITE),
                m0.range_backed(a, len as nat, h0.len()),
                mem@.len() == len,
                host@.len() == h0.len(),
                len == 0 ==> count == 0,
                len > 0 ==> count == (a + len - 1) as nat / ps - a / ps + 1,
                forall|i: int|
                    0 <= i < chunks@.len() ==> is_chunk(
                        #[trigger] chunks@[i],
                        a,
                        len as nat,
                        ps,
                        i as nat,
                    ),
                host@ == m0.stored(
                    h0,
                    a,
                    mem@.take(if i < count { chunks@[i as int].buf_off as int } else { len as int }),
                ),
                self.pages@.len() == m0.pages@.len(),
                forall|j: int|
                    0 <= j < m0.pages@.len() ==> (#[trigger] self.pages@[j]).wf() && self.pages@[j]
                        == if a / ps <= j < a / ps + i {
                        m0.pages@[j].after_store()
                    } else {
                        m0.pages@[j]
                    },
            decreases count - i,
        {
            let chunk = &chunks[i];
            proof {
                lemma_chunk(*chunk, a, len as nat, ps, i as nat);
                lemma_chunk_end(*chunk, a, len as nat, ps, i as nat);
                if i + 1 < count {
                    assert(is_chunk(chunks@[i + 1], a, len as nat, ps, (i + 1) as nat));
                }
                let x = (a + chunk.buf_off + 0nat) as nat;
                assert(x / ps == chunk.page);
                assert(m0.can_access(x, PageFlags::WRITE));
                let page = m0.pages@[chunk.page as int];
                assert(page.wf() && page.backed_by(h0.len()));
                assert(self.pages@[chunk.page as int] == page);
                assert forall|k: nat|
                    chunk.buf_off <= k < chunk.buf_off + chunk.len implies Self::page_of(
                    #[trigger] (a + k),
                ) == chunk.page && Self::offset_of(a + k) == chunk.page_off + (k - chunk.buf_off) by {
                    let d = (k - chunk.buf_off) as nat;
                    assert((a + chunk.buf_off + d) as nat / ps == chunk.page);
                }
                m0.lemma_stored_chunk(
                    h0,
                    a,
                    mem@,
                    chunk.buf_off as nat,
                    (chunk.buf_off + chunk.len) as nat,
                    chunk.page as nat,
                    chunk.page_off as nat,
                );
            }
            let stored = self.pages[chunk.page].store(
                host,
                chunk.page_off,
                mem,
                chunk.buf_off,
                chunk.len,
            );
            assert(stored is Ok);
            i = i + 1;
        }
        proof {
            assert(mem@.take(len as int) =~= mem@);
            assert(self.pages@ =~= m0.stored_pages(a, len as nat));
            assert forall|j: int| 0 <= j < self.pages@.len() implies (#[trigger] self.pages@[j]).backed_by(
                host@.len(),
            ) by {
                assert(m0.pages@[j].backed_by(h0.len()));
            }
        }
        Ok(())
    }
}

} // verus!
