//! One entry of the page table.

use core::marker::PhantomData;
use vstd::prelude::*;
use crate::host_memory::HostMemory;
use crate::le;
use crate::mmu::flags::{MemoryProtections, PageFlags};
use crate::mmu::MemoryFault;
use crate::vaddr::VAddr;

verus! {

/// A guest page: the host pointer that backs it, if any, and its flags.
///
/// If any access permission is on, the page is mapped; a mapped page's host
/// pointer is page-aligned.
pub struct Page<A> {
    pub ptr: Option<usize>,
    pub page_flags: PageFlags,
    pub _addr_ty: PhantomData<A>,
}

impl<A: VAddr> Page<A> {
    pub open spec fn wf(self) -> bool {
        &&& self.page_flags.any_access() ==> self.ptr is Some
        &&& self.ptr matches Some(p) ==> p as nat % (A::PAGE_SIZE as nat) == 0
    }

    /// The backing bytes lie inside a host region of `len` bytes.
    pub open spec fn backed_by(self, len: nat) -> bool {
        self.ptr matches Some(p) ==> p + A::PAGE_SIZE <= len
    }

    /// The page table entry of an address that nothing is mapped to.
    pub open spec fn spec_unmapped() -> Page<A> {
        Page { ptr: None, page_flags: PageFlags { bits: 0 }, _addr_ty: PhantomData }
    }

    /// The entry of a page mapped onto `ptr` with `protections`.
    pub open spec fn spec_mapped(ptr: usize, protections: MemoryProtections) -> Page<A> {
        Page { ptr: Some(ptr), page_flags: protections.page_flags(), _addr_ty: PhantomData }
    }

    /// The entry after a store to its bytes.
    pub open spec fn after_store(self) -> Page<A> {
        Page { page_flags: self.page_flags.after_store(), ..self }
    }

    /// An entry that nothing is mapped to.
    pub fn unmapped() -> (r: Self)
        ensures
            r == Self::spec_unmapped(),
            r.wf(),
    {
        proof {
            assert(0u8 & 1 == 0 && 0u8 & 2 == 0 && 0u8 & 4 == 0) by (bit_vector);
        }
        Page { ptr: None, page_flags: PageFlags { bits: 0 }, _addr_ty: PhantomData }
    }

    /// An entry mapped onto the page-aligned host pointer `ptr`.
    pub fn mapped(ptr: usize, memory_protections: MemoryProtections) -> (r: Self)
        ensures
            r == Self::spec_mapped(ptr, memory_protections),
            ptr as nat % (A::PAGE_SIZE as nat) == 0 ==> r.wf(),
    {
        Page {
            ptr: Some(ptr),
            page_flags: memory_protections.into_page_flags(),
            _addr_ty: PhantomData,
        }
    }

    /// Drops the mapping.
    pub fn unmap(&mut self)
        ensures
            *final(self) == Self::spec_unmapped(),
            final(self).wf(),
    {
        *self = Self::unmapped();
    }

    /// Whether the page is mapped.
    pub fn is_mapped(&self) -> (r: bool)
        ensures
            r == (self.ptr is Some),
    {
        self.ptr.is_some()
    }

    /// Replaces the flags of a mapped page.
    pub fn mem_protect(&mut self, memory_protections: MemoryProtections)
        requires
            old(self).wf(),
            old(self).ptr is Some,
        ensures
            *final(self) == (Page { page_flags: memory_protections.page_flags(), ..*old(self) }),
            final(self).wf(),
    {
        self.page_flags = memory_protections.into_page_flags();
    }

    /// The page's flags.
    pub fn load_flags(&self) -> (r: PageFlags)
        ensures
            r == self.page_flags,
    {
        self.page_flags
    }

    /// Marks an executable page as written to.
    pub fn set_insn_dirty(&mut self)
        requires
            old(self).wf(),
        ensures
            *final(self) == old(self).after_store(),
            final(self).wf(),
    {
        proof {
            super::flags::after_store_keeps_permissions(self.page_flags);
        }
        let initial_flags = self.load_flags();
        if initial_flags.contains(PageFlags::EXECUTE) {
            if !initial_flags.contains(PageFlags::INSN_DIRTY) {
                self.page_flags = PageFlags::from_bits_retain(
                    initial_flags.bits() | PageFlags::INSN_DIRTY,
                );
            } else {
                proof {
                    let b = self.page_flags.bits;
                    assert(b & 8 == 8 ==> b | 8 == b) by (bit_vector);
                }
            }
        }
    }

    /// Whether the page grants all of `flags`.
    pub fn has_access(&self, flags: u8) -> (r: bool)
        ensures
            r == self.page_flags.has(flags),
    {
        self.load_flags().contains(flags)
    }

    /// The host pointer of the page's bytes, if the page is mapped and has all of `flags`.
    pub fn get_data_ptr(&self, flags: u8) -> (r: Result<usize, MemoryFault>)
        ensures
            match r {
                Ok(ptr) => self.page_flags.has(flags) && self.ptr == Some(ptr),
                Err(_) => !self.page_flags.has(flags) || self.ptr is None,
            },
    {
        if !self.has_access(flags) {
            return Err(MemoryFault::fault());
        }
        match self.ptr {
            Some(ptr) => Ok(ptr),
            None => Err(MemoryFault::fault()),
        }
    }

    /// Copies `len` bytes of the page, from `offset` on, into `mem` at `at`.
    pub fn load(&self, host: &HostMemory, offset: usize, mem: &mut [u8], at: usize, len: usize) -> (r:
        Result<(), MemoryFault>)
        requires
            self.wf(),
            self.backed_by(host@.len()),
            offset + len <= A::PAGE_SIZE,
            at + len <= old(mem)@.len(),
        ensures
            match r {
                Ok(()) => {
                    &&& self.page_flags.has(PageFlags::READ)
                    &&& final(mem)@ == le::write_at(
                        old(mem)@,
                        at as int,
                        host@.subrange(self.ptr->0 + offset, self.ptr->0 + offset + len),
                    )
                },
                Err(_) => !self.page_flags.has(PageFlags::READ) && final(mem)@ == old(mem)@,
            },
    {
        let ptr = match self.get_data_ptr(PageFlags::READ) {
            Ok(ptr) => ptr,
            Err(fault) => return Err(fault),
        };
        let total: usize = host.len();
        let room: usize = mem.len();
        let mut i: usize = 0;
        while i < len
            invariant
                i <= len,
                total == host@.len(),
                room == mem@.len() == old(mem)@.len(),
                at + len <= room,
                offset + len <= A::PAGE_SIZE,
                ptr + A::PAGE_SIZE <= total,
                mem@ == le::write_at(
                    old(mem)@,
                    at as int,
                    host@.subrange(ptr + offset, ptr + offset + i),
                ),
            decreases len - i,
        {
            mem[at + i] = host.load_byte(ptr + offset + i);
            i = i + 1;
            assert(mem@ =~= le::write_at(
                old(mem)@,
                at as int,
                host@.subrange(ptr + offset, ptr + offset + i),
            ));
        }
        Ok(())
    }

    /// Copies `len` bytes of `mem`, from `at` on, into the page at `offset`.
    pub fn store(&mut self, host: &mut HostMemory, offset: usize, mem: &[u8], at: usize, len: usize) -> (r:
        Result<(), MemoryFault>)
        requires
            old(self).wf(),
            old(self).backed_by(old(host)@.len()),
            offset + len <= A::PAGE_SIZE,
            at + len <= mem@.len(),
        ensures
            final(self).wf(),
            match r {
                Ok(()) => {
                    &&& old(self).page_flags.has(PageFlags::WRITE)
                    &&& *final(self) == old(self).after_store()
                    &&& final(host)@ == le::write_at(
                        old(host)@,
                        old(self).ptr->0 + offset,
                        mem@.subrange(at as int, at + len),
                    )
                },
                Err(_) => {
                    &&& !old(self).page_flags.has(PageFlags::WRITE)
                    &&& *final(self) == *old(self)
                    &&& final(host)@ == old(host)@
                },
            },
    {
        let ptr = match self.get_data_ptr(PageFlags::WRITE) {
            Ok(ptr) => ptr,
            Err(fault) => return Err(fault),
        };
        let total: usize = host.len();
        let room: usize = mem.len();
        let mut i: usize = 0;
        while i < len
            invariant
                i <= len,
                *self == *old(self),
                total == host@.len() == old(host)@.len(),
                room == mem@.len(),
                at + len <= room,
                offset + len <= A::PAGE_SIZE,
                ptr + A::PAGE_SIZE <= total,
                host@ == le::write_at(
                    old(host)@,
                    ptr + offset,
                    mem@.subrange(at as int, at + i),
                ),
            decreases len - i,
        {
            host.store_byte(ptr + offset + i, mem[at + i]);
            i = i + 1;
            assert(host@ =~= le::write_at(
                old(host)@,
                ptr + offset,
                mem@.subrange(at as int, at + i),
            ));
        }
        self.set_insn_dirty();
        Ok(())
    }

    /// Reads one byte of the page.
    pub fn load_byte(&self, host: &HostMemory, offset: usize) -> (r: Result<u8, MemoryFault>)
        requires
            self.wf(),
            self.backed_by(host@.len()),
            offset < A::PAGE_SIZE,
        ensures
            match r {
                Ok(value) => self.page_flags.has(PageFlags::READ) && value == host@[self.ptr->0
                    + offset],
                Err(_) => !self.page_flags.has(PageFlags::READ),
            },
    {
        let total: usize = host.len();
        match self.get_data_ptr(PageFlags::READ) {
            Ok(ptr) => Ok(host.load_byte(ptr + offset)),
            Err(fault) => Err(fault),
        }
    }

    /// Writes one byte of the page.
    pub fn store_byte(&mut self, host: &mut HostMemory, offset: usize, value: u8) -> (r: Result<
        (),
        MemoryFault,
    >)
        requires
            old(self).wf(),
            old(self).backed_by(old(host)@.len()),
            offset < A::PAGE_SIZE,
        ensures
            final(self).wf(),
            match r {
                Ok(()) => {
                    &&& old(self).page_flags.has(PageFlags::WRITE)
                    &&& *final(self) == old(self).after_store()
                    &&& final(host)@ == old(host)@.update(old(self).ptr->0 + offset, value)
                },
                Err(_) => {
                    &&& !old(self).page_flags.has(PageFlags::WRITE)
                    &&& *final(self) == *old(self)
                    &&& final(host)@ == old(host)@
                },
            },
    {
        let total: usize = host.len();
        let ptr = match self.get_data_ptr(PageFlags::WRITE) {
            Ok(ptr) => ptr,
            Err(fault) => return Err(fault),
        };
        host.store_byte(ptr + offset, value);
        self.set_insn_dirty();
        Ok(())
    }

    /// Reads a little-endian `u64` of the page.
    pub fn load64(&self, host: &HostMemory, offset: usize) -> (r: Result<u64, MemoryFault>)
        requires
            self.wf(),
            self.backed_by(host@.len()),
            offset + 8 <= A::PAGE_SIZE,
        ensures
            match r {
                Ok(value) => self.page_flags.has(PageFlags::READ) && value == le::value_of(
                    host@.subrange(self.ptr->0 + offset, self.ptr->0 + offset + 8),
                ),
                Err(_) => !self.page_flags.has(PageFlags::READ),
            },
    {
        let total: usize = host.len();
        match self.get_data_ptr(PageFlags::READ) {
            Ok(ptr) => Ok(host.load64_le(ptr + offset)),
            Err(fault) => Err(fault),
        }
    }

    /// Writes a little-endian `u64` of the page.
    pub fn store64(&mut self, host: &mut HostMemory, offset: usize, value: u64) -> (r: Result<
        (),
        MemoryFault,
    >)
        requires
            old(self).wf(),
            old(self).backed_by(old(host)@.len()),
            offset + 8 <= A::PAGE_SIZE,
        ensures
            final(self).wf(),
            match r {
                Ok(()) => {
                    &&& old(self).page_flags.has(PageFlags::WRITE)
                    &&& *final(self) == old(self).after_store()
                    &&& final(host)@ == le::write_at(
                        old(host)@,
                        old(self).ptr->0 + offset,
                        le::bytes_of(value as nat, 8),
                    )
                },
                Err(_) => {
                    &&& !old(self).page_flags.has(PageFlags::WRITE)
                    &&& *final(self) == *old(self)
                    &&& final(host)@ == old(host)@
                },
            },
    {
        let total: usize = host.len();
        let ptr = match self.get_data_ptr(PageFlags::WRITE) {
            Ok(ptr) => ptr,
            Err(fault) => return Err(fault),
        };
        host.store64_le(ptr + offset, value);
        self.set_insn_dirty();
        Ok(())
    }

    /// Reads a little-endian `u32` of the page.
    pub fn load32(&self, host: &HostMemory, offset: usize) -> (r: Result<u32, MemoryFault>)
        requires
            self.wf(),
            self.backed_by(host@.len()),
            offset + 4 <= A::PAGE_SIZE,
        ensures
            match r {
                Ok(value) => self.page_flags.has(PageFlags::READ) && value == le::value_of(
                    host@.subrange(self.ptr->0 + offset, self.ptr->0 + offset + 4),
                ),
                Err(_) => !self.page_flags.has(PageFlags::READ),
            },
    {
        let total: usize = host.len();
        match self.get_data_ptr(PageFlags::READ) {
            Ok(ptr) => Ok(host.load32_le(ptr + offset)),
            Err(fault) => Err(fault),
        }
    }

    /// Writes a little-endian `u32` of the page.
    pub fn store32(&mut self, host: &mut HostMemory, offset: usize, value: u32) -> (r: Result<
        (),
        MemoryFault,
    >)
        requires
            old(self).wf(),
            old(self).backed_by(old(host)@.len()),
            offset + 4 <= A::PAGE_SIZE,
        ensures
            final(self).wf(),
            match r {
                Ok(()) => {
                    &&& old(self).page_flags.has(PageFlags::WRITE)
                    &&& *final(self) == old(self).after_store()
                    &&& final(host)@ == le::write_at(
                        old(host)@,
                        old(self).ptr->0 + offset,
                        le::bytes_of(value as nat, 4),
                    )
                },
                Err(_) => {
                    &&& !old(self).page_flags.has(PageFlags::WRITE)
                    &&& *final(self) == *old(self)
                    &&& final(host)@ == old(host)@
                },
            },
    {
        let total: usize = host.len();
        let ptr = match self.get_data_ptr(PageFlags::WRITE) {
            Ok(ptr) => ptr,
            Err(fault) => return Err(fault),
        };
        host.store32_le(ptr + offset, value);
        self.set_insn_dirty();
        Ok(())
    }

    /// Reads a little-endian `u16` of the page.
    pub fn load16(&self, host: &HostMemory, offset: usize) -> (r: Result<u16, MemoryFault>)
        requires
            self.wf(),
            self.backed_by(host@.len()),
            offset + 2 <= A::PAGE_SIZE,
        ensures
            match r {
                Ok(value) => self.page_flags.has(PageFlags::READ) && value == le::value_of(
                    host@.subrange(self.ptr->0 + offset, self.ptr->0 + offset + 2),
                ),
                Err(_) => !self.page_flags.has(PageFlags::READ),
            },
    {
        let total: usize = host.len();
        match self.get_data_ptr(PageFlags::READ) {
            Ok(ptr) => Ok(host.load16_le(ptr + offset)),
            Err(fault) => Err(fault),
        }
    }

    /// Writes a little-endian `u16` of the page.
    pub fn store16(&mut self, host: &mut HostMemory, offset: usize, value: u16) -> (r: Result<
        (),
        MemoryFault,
    >)
        requires
            old(self).wf(),
            old(self).backed_by(old(host)@.len()),
            offset + 2 <= A::PAGE_SIZE,
        ensures
            final(self).wf(),
            match r {
                Ok(()) => {
                    &&& old(self).page_flags.has(PageFlags::WRITE)
                    &&& *final(self) == old(self).after_store()
                    &&& final(host)@ == le::write_at(
                        old(host)@,
                        old(self).ptr->0 + offset,
                        le::bytes_of(value as nat, 2),
                    )
                },
                Err(_) => {
                    &&& !old(self).page_flags.has(PageFlags::WRITE)
                    &&& *final(self) == *old(self)
                    &&& final(host)@ == old(host)@
                },
            },
    {
        let total: usize = host.len();
        let ptr = match self.get_data_ptr(PageFlags::WRITE) {
            Ok(ptr) => ptr,
            Err(fault) => return Err(fault),
        };
        host.store16_le(ptr + offset, value);
        self.set_insn_dirty();
        Ok(())
    }

    /// Reads a little-endian `u32` of an executable page as an instruction word.
    pub fn fetch32(&self, host: &HostMemory, offset: usize) -> (r: Result<u32, MemoryFault>)
        requires
            self.wf(),
            self.backed_by(host@.len()),
            offset + 4 <= A::PAGE_SIZE,
        ensures
            match r {
                Ok(value) => self.page_flags.has(PageFlags::EXECUTE) && value == le::value_of(
                    host@.subrange(self.ptr->0 + offset, self.ptr->0 + offset + 4),
                ),
                Err(_) => !self.page_flags.has(PageFlags::EXECUTE),
            },
    {
        let total: usize = host.len();
        match self.get_data_ptr(PageFlags::EXECUTE) {
            Ok(ptr) => Ok(host.load32_le(ptr + offset)),
            Err(fault) => Err(fault),
        }
    }
}

} // verus!
