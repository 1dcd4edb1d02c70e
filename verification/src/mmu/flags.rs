//! Page permissions and page state bits.

use vstd::prelude::*;

verus! {

/// The state bits of a page.
#[derive(Clone, Copy, PartialEq, Eq, Structural, Debug, Hash)]
pub struct PageFlags {
    pub bits: u8,
}

impl PageFlags {
    pub const READ: u8 = 0b0001;

    pub const WRITE: u8 = 0b0010;

    pub const EXECUTE: u8 = 0b0100;

    pub const INSN_DIRTY: u8 = 0b1000;

    /// Flags with exactly these bits.
    pub fn from_bits_retain(bits: u8) -> (r: Self)
        ensures
            r.bits == bits,
    {
        PageFlags { bits }
    }

    /// The raw bits.
    pub fn bits(&self) -> (r: u8)
        ensures
            r == self.bits,
    {
        self.bits
    }

    /// All of `required` is set.
    pub open spec fn has(self, required: u8) -> bool {
        self.bits & required == required
    }

    /// Some access permission is set.
    pub open spec fn any_access(self) -> bool {
        self.has(PageFlags::READ) || self.has(PageFlags::WRITE) || self.has(PageFlags::EXECUTE)
    }

    /// What a write to the page's bytes leaves: an executable page turns dirty.
    pub open spec fn after_store(self) -> PageFlags {
        if self.has(PageFlags::EXECUTE) {
            PageFlags { bits: self.bits | PageFlags::INSN_DIRTY }
        } else {
            self
        }
    }

    /// Whether all bits of `required` are set.
    pub fn contains(&self, required: u8) -> (r: bool)
        ensures
            r == self.has(required),
    {
        self.bits & required == required
    }
}

/// The permissions that a mapping grants.
#[derive(Clone, Copy, PartialEq, Eq, Structural, Debug, Hash)]
pub struct MemoryProtections {
    pub bits: u8,
}

impl MemoryProtections {
    pub const READ: u8 = 0b0001;

    pub const WRITE: u8 = 0b0010;

    pub const EXECUTE: u8 = 0b0100;

    /// Protections with exactly these bits.
    pub fn from_bits_retain(bits: u8) -> (r: Self)
        ensures
            r.bits == bits,
    {
        MemoryProtections { bits }
    }

    /// No permission at all.
    pub fn empty() -> (r: Self)
        ensures
            r.bits == 0,
    {
        MemoryProtections { bits: 0 }
    }

    /// Every permission.
    pub fn all() -> (r: Self)
        ensures
            r.bits == 0b0111,
    {
        MemoryProtections { bits: 0b0111 }
    }

    /// The page flags of a fresh mapping: the permission bits and nothing else.
    pub open spec fn page_flags(self) -> PageFlags {
        PageFlags { bits: self.bits & 0b0111 }
    }

    /// The page flags that grant these permissions.
    pub fn into_page_flags(self) -> (r: PageFlags)
        ensures
            r == self.page_flags(),
    {
        PageFlags::from_bits_retain(self.bits & MemoryProtections::all().bits)
    }
}

/// A fresh mapping grants exactly the permissions asked for, and is not dirty.
pub proof fn page_flags_grant_protections(p: MemoryProtections)
    ensures
        p.page_flags().has(PageFlags::READ) == (p.bits & MemoryProtections::READ
            == MemoryProtections::READ),
        p.page_flags().has(PageFlags::WRITE) == (p.bits & MemoryProtections::WRITE
            == MemoryProtections::WRITE),
        p.page_flags().has(PageFlags::EXECUTE) == (p.bits & MemoryProtections::EXECUTE
            == MemoryProtections::EXECUTE),
        !p.page_flags().has(PageFlags::INSN_DIRTY),
{
    let b = p.bits;
    assert((b & 7) & 1 == b & 1 && (b & 7) & 2 == b & 2 && (b & 7) & 4 == b & 4 && (b & 7) & 8
        == 0) by (bit_vector);
}

/// A store changes no permission, and leaves the dirty bit set exactly on pages
/// that were dirty or are executable.
pub proof fn after_store_keeps_permissions(f: PageFlags)
    ensures
        f.after_store().has(PageFlags::READ) == f.has(PageFlags::READ),
        f.after_store().has(PageFlags::WRITE) == f.has(PageFlags::WRITE),
        f.after_store().has(PageFlags::EXECUTE) == f.has(PageFlags::EXECUTE),
        f.after_store().has(PageFlags::INSN_DIRTY) == (f.has(PageFlags::INSN_DIRTY) || f.has(
            PageFlags::EXECUTE,
        )),
        f.after_store().after_store() == f.after_store(),
{
    let b = f.bits;
    assert((b | 8) & 1 == b & 1 && (b | 8) & 2 == b & 2 && (b | 8) & 4 == b & 4 && (b | 8) & 8 == 8
        && (b | 8) | 8 == b | 8) by (bit_vector);
}

/// Flags are all set exactly where none is missing.
pub(crate) proof fn lemma_missing(bits: u8, required: u8)
    ensures
        bits & required == required <==> required & !bits == 0,
{
    assert(bits & required == required <==> required & !bits == 0) by (bit_vector);
}

/// Flags are found exactly if none of them is missing.
pub proof fn no_required_flag_is_missing(flags: PageFlags, required: u8, r: bool)
    requires
        call_ensures(PageFlags::contains, (&flags, required), r),
    ensures
        r <==> required & !flags.bits == 0,
{
    lemma_missing(flags.bits, required);
}

/// The flags of a mapping are its three permissions, in the three lowest bits, and nothing
/// else.
pub proof fn permissions_become_flags(p: MemoryProtections, r: PageFlags)
    requires
        call_ensures(MemoryProtections::into_page_flags, (p,), r),
    ensures
        r.bits == p.bits % 8,
        PageFlags::READ == 1,
        PageFlags::WRITE == 2,
        PageFlags::EXECUTE == 4,
        PageFlags::INSN_DIRTY == 8,
        MemoryProtections::READ == 1,
        MemoryProtections::WRITE == 2,
        MemoryProtections::EXECUTE == 4,
{
    let b = p.bits;
    assert(b & 7 == b % 8) by (bit_vector);
}

/// Bits are kept as they are; no permission is no bit, and every permission is the three lowest
/// ones.
pub proof fn bits_are_kept(
    bits: u8,
    flags: PageFlags,
    back: u8,
    protections: MemoryProtections,
    none: MemoryProtections,
    every: MemoryProtections,
)
    requires
        call_ensures(PageFlags::from_bits_retain, (bits,), flags),
        call_ensures(PageFlags::bits, (&flags,), back),
        call_ensures(MemoryProtections::from_bits_retain, (bits,), protections),
        call_ensures(MemoryProtections::empty, (), none),
        call_ensures(MemoryProtections::all, (), every),
    ensures
        flags.bits == bits,
        back == bits,
        protections.bits == bits,
        none.bits == 0,
        every.bits == 7,
{
}

} // verus!
