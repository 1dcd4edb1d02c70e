//! What holds of the addresses, the memory and the instructions of the profile.

use vstd::prelude::*;
use crate::aligned_mmu;
use crate::host_memory::HostMemory;
use crate::mmu::access_laws;
use crate::mmu::access_laws::{grants, spelled};
use crate::mmu::mapping_laws;
use crate::mmu::{MemoryFault, MemoryProtections, MMU};
use crate::a64;
use crate::vaddr::{InsnFetch, VAddr};

verus! {

/// A fetch succeeds exactly if its address is a multiple of four in a page that may be
/// executed, and then gives the number that the four host bytes spell which the address and
/// the three behind it are mapped to, lowest byte first.
pub open spec fn is_fetched(
    mmu: MMU<u64>,
    host: Seq<u8>,
    vaddr: u64,
    r: Result<u32, MemoryFault>,
) -> bool {
    &&& r is Ok <==> vaddr % 4 == 0 && grants(mmu, vaddr as nat, 4)
    &&& r matches Ok(word) ==> word == spelled(mmu, host, vaddr as nat, 4)
}

proof fn lemma_fetched(mmu: MMU<u64>, host: Seq<u8>, vaddr: u64)
    ensures
        is_fetched(mmu, host, vaddr, vaddr.fetched(mmu, host)),
{
    let a = vaddr as nat;
    access_laws::lemma_grants(mmu, a, 4, 4);
    access_laws::lemma_spelled(mmu, host, a, 4);
    assert(mmu.loaded(host, a, 4).len() == 4);
    crate::le::value_of_bound(mmu.loaded(host, a, 4));
    crate::le::pow256_values();
    assert(grants(mmu, a, 4) == mmu.can_access(a, 4));
}

/// [`InsnFetch::fetch_insn_word`] gives the word at the address, and nothing where the address
/// is not a multiple of four or may not be executed.
pub proof fn fetches_read_the_mapped_word(
    mmu: MMU<u64>,
    host: HostMemory,
    vaddr: u64,
    r: Result<u32, MemoryFault>,
)
    requires
        mmu.wf(),
        mmu.backed_by(host@.len()),
        call_ensures(<u64 as InsnFetch>::fetch_insn_word, (vaddr, &mmu, &host), r)
            || call_ensures(MMU::<u64>::fetch, (&mmu, &host, vaddr), r),
    ensures
        vaddr % 4 != 0 ==> r is Err,
        vaddr % 4 == 0 ==> (r is Ok <==> grants(mmu, vaddr as nat, 4)),
        r matches Ok(word) ==> word == spelled(mmu, host@, vaddr as nat, 4),
{
    lemma_fetched(mmu, host@, vaddr);
}

/// Memory in which scalars have to be aligned gives the same words.
pub proof fn aligned_fetches_read_the_mapped_word(
    mmu: aligned_mmu::MMU<u64>,
    host: HostMemory,
    vaddr: u64,
    r: Result<u32, MemoryFault>,
)
    requires
        mmu.wf(),
        mmu.backed_by(host@.len()),
        call_ensures(<u64 as InsnFetch>::fetch_aligned_insn_word, (vaddr, &mmu, &host), r)
            || call_ensures(aligned_mmu::MMU::<u64>::fetch, (&mmu, &host, vaddr), r),
    ensures
        vaddr % 4 != 0 ==> r is Err,
        vaddr % 4 == 0 ==> (r is Ok <==> grants(mmu.table, vaddr as nat, 4)),
        r matches Ok(word) ==> word == spelled(mmu.table, host@, vaddr as nat, 4),
{
    lemma_fetched(mmu.table, host@, vaddr);
}

/// A word that was stored at a multiple of four, also where that is no multiple of eight, is
/// the word that is fetched there, if the page may be executed.
pub proof fn stored_words_are_fetched(
    before: MMU<u64>,
    after: MMU<u64>,
    memory: HostMemory,
    written: HostMemory,
    vaddr: u64,
    value: u32,
    r: Result<u32, MemoryFault>,
)
    requires
        before.wf(),
        before.backed_by(memory@.len()),
        vaddr % 4 == 0,
        grants(before, vaddr as nat, 4),
        exists|mmu: &mut MMU<u64>, host: &mut HostMemory|
            *mmu == before && *final(mmu) == after && *host == memory && *final(host) == written
                && #[trigger] call_ensures(
                MMU::<u64>::store32_le,
                (mmu, host, vaddr, value),
                Ok::<(), MemoryFault>(()),
            ),
        call_ensures(<u64 as InsnFetch>::fetch_insn_word, (vaddr, &after, &written), r),
    ensures
        r == Ok::<u32, MemoryFault>(value),
{
    let a = vaddr as nat;
    let p = (a / (<u64 as VAddr>::PAGE_SIZE as nat)) as int;
    access_laws::stores_of_u32_write_the_mapped_bytes(
        before,
        after,
        memory,
        written,
        vaddr,
        value,
        Ok(()),
    );
    fetches_read_the_mapped_word(after, written, vaddr, r);
    lemma_same_bytes(before, after, written@, a, 4);
    let b = before.pages@[p].page_flags.bits;
    assert(b & 4 == 4 ==> (b | 8) & 4 == 4) by (bit_vector);
    assert(after.pages@[p].ptr == before.pages@[p].ptr);
    assert(grants(after, a, 4));
}

/// Tables that map addresses to the same host bytes spell the same numbers.
proof fn lemma_same_bytes(one: MMU<u64>, other: MMU<u64>, host: Seq<u8>, a: nat, len: nat)
    requires
        other.pages@.len() == one.pages@.len(),
        forall|p: int| 0 <= p < one.pages@.len() ==> (#[trigger] other.pages@[p]).ptr
            == one.pages@[p].ptr,
        access_laws::grants_all(one, a, len, 2),
    ensures
        spelled(other, host, a, len) == spelled(one, host, a, len),
    decreases len,
{
    if len > 0 {
        assert(grants(one, a, 2));
        let p = (a / (<u64 as VAddr>::PAGE_SIZE as nat)) as int;
        assert(other.pages@[p].ptr == one.pages@[p].ptr);
        assert forall|x: nat| a + 1 <= x < a + 1 + (len - 1) implies #[trigger] grants(one, x, 2) by {}
        lemma_same_bytes(one, other, host, a + 1, (len - 1) as nat);
    }
}

/// Any region of the 64-bit address space can be mapped that starts and ends between pages of
/// 4096 bytes, onto host memory that starts at a multiple of as many bytes.
pub proof fn regions_of_the_address_space_are_mapped(
    before: MMU<u64>,
    after: MMU<u64>,
    base: u64,
    ptr: usize,
    size: u64,
    protections: MemoryProtections,
    r: Result<(), MemoryFault>,
)
    requires
        before.wf(),
        ptr + size <= usize::MAX,
        exists|mmu: &mut MMU<u64>|
            *mmu == before && *final(mmu) == after && #[trigger] call_ensures(
                MMU::<u64>::map_memory,
                (mmu, base, ptr, size, protections),
                r,
            ),
    ensures
        r is Ok <==> base % 4096 == 0 && size % 4096 == 0 && ptr % 4096 == 0 && base + size
            <= u64::MAX,
{
    a64::address_constants();
    mapping_laws::aligned_regions_are_mapped(before, after, base, ptr, size, protections, r, 0);
}

/// Memory that was mapped can be used as it was mapped: a byte of the region can be loaded
/// exactly if that was asked for, and is then the byte of the host region that is as far
/// behind its start.
pub proof fn mapped_memory_can_be_loaded(
    before: MMU<u64>,
    after: MMU<u64>,
    host: HostMemory,
    base: u64,
    ptr: usize,
    size: u64,
    protections: MemoryProtections,
    vaddr: u64,
    r: Result<u8, MemoryFault>,
)
    requires
        before.wf(),
        before.backed_by(host@.len()),
        ptr + size <= host@.len(),
        exists|mmu: &mut MMU<u64>|
            *mmu == before && *final(mmu) == after && #[trigger] call_ensures(
                MMU::<u64>::map_memory,
                (mmu, base, ptr, size, protections),
                Ok::<(), MemoryFault>(()),
            ),
        base <= vaddr < base + size,
        call_ensures(MMU::<u64>::load_byte, (&after, &host, vaddr), r),
    ensures
        after.wf(),
        after.backed_by(host@.len()),
        r is Ok <==> protections.bits & 1 == 1,
        r matches Ok(byte) ==> byte == host@[ptr + (vaddr - base)],
{
    assert(host.bytes@.len() == host.bytes.len());
    mapping_laws::aligned_regions_are_mapped(
        before,
        after,
        base,
        ptr,
        size,
        protections,
        Ok(()),
        vaddr as nat,
    );
    access_laws::byte_loads_read_the_mapped_byte(after, host, vaddr, r);
    let b = protections.bits;
    assert((b & 7) & 1 == b & 1) by (bit_vector);
    assert(spelled(after, host@, vaddr as nat + 1, 0) == 0);
    if protections.bits & 1 == 1 {
        assert(grants(after, vaddr as nat, 1));
    } else {
        assert(!grants(after, vaddr as nat, 1));
    }
}

/// Addresses are the numbers of 64 bits. Sums are addresses exactly where they fit, and every
/// address is 4096 times the number of its page and the place in the page.
pub proof fn addresses_are_numbers(
    a: u64,
    b: u64,
    offset: usize,
    sum: Option<u64>,
    further: Option<u64>,
    next: Option<u64>,
    parts: (u64, usize),
    multiple: bool,
    aligned: bool,
    same: bool,
)
    requires
        call_ensures(<u64 as VAddr>::add_addr, (a, b), sum),
        call_ensures(<u64 as VAddr>::add_offset, (a, offset), further),
        call_ensures(<u64 as VAddr>::inc, (a,), next),
        call_ensures(<u64 as VAddr>::div_rem_page_size, (a,), parts),
        call_ensures(<u64 as VAddr>::is_multiple_of, (a, b), multiple),
        call_ensures(<u64 as VAddr>::is_page_aligned, (a,), aligned),
        call_ensures(<u64 as VAddr>::same_address, (a, b), same),
    ensures
        sum == if a + b <= u64::MAX {
            Some((a + b) as u64)
        } else {
            None
        },
        further == if a + offset <= u64::MAX {
            Some((a + offset) as u64)
        } else {
            None
        },
        next == if a < u64::MAX {
            Some((a + 1) as u64)
        } else {
            None
        },
        4096 * parts.0 + parts.1 == a,
        parts.1 < 4096,
        b > 0 ==> (multiple <==> a % b == 0),
        b == 0 ==> (multiple <==> a == 0),
        aligned <==> a % 4096 == 0,
        same <==> a == b,
{
    a64::address_constants();
}

/// A number becomes a host integer of the same value exactly where that can hold it.
pub proof fn numbers_that_fit_are_kept(value: u64, r: Option<usize>, s: Option<usize>)
    requires
        call_ensures(a64::u64_to_usize, (value,), r),
        call_ensures(<u64 as VAddr>::try_to_usize, (value,), s),
    ensures
        r is Some <==> value <= usize::MAX,
        r matches Some(same) ==> same == value,
        s == r,
{
}

/// The bucket of an address, in arithmetic: three times the number is combined with a part of
/// itself, shifted down by 30, 27 and 31 bits, and in between it is multiplied by two odd
/// factors, modulo the number of 64-bit numbers; the remainder by 257 is the bucket.
pub proof fn buckets_mix_all_bits(a: u64, x: u64, y: u64, r: usize)
    requires
        call_ensures(<u64 as VAddr>::reservation_index, (a,), r),
        x == ((a ^ (a / 0x4000_0000)) * 0xbf58_476d_1ce4_e5b9) % 0x1_0000_0000_0000_0000,
        y == ((x ^ (x / 0x800_0000)) * 0x94d0_49bb_1331_11eb) % 0x1_0000_0000_0000_0000,
    ensures
        r == (y ^ (y / 0x8000_0000)) % 257,
{
    assert(a >> 30 == a / 0x4000_0000 && x >> 27 == x / 0x800_0000 && y >> 31 == y / 0x8000_0000)
        by (bit_vector);
    let p = a ^ (a >> 30);
    assert(p.wrapping_mul(0xbf58_476d_1ce4_e5b9) == (p * 0xbf58_476d_1ce4_e5b9)
        % 0x1_0000_0000_0000_0000);
    let q = x ^ (x >> 27);
    assert(q.wrapping_mul(0x94d0_49bb_1331_11eb) == (q * 0x94d0_49bb_1331_11eb)
        % 0x1_0000_0000_0000_0000);
    assert(crate::cpu_fabric::BUCKET_COUNT == 257);
}

/// Small numbers are the addresses of the same value, and the number of a page is its first
/// address divided by 4096.
pub proof fn page_numbers_are_quotients(value: u8, small: u64, a: u64, page: u64)
    requires
        call_ensures(<u64 as VAddr>::from_u8, (value,), small),
        a % 4096 == 0,
        call_ensures(<u64 as VAddr>::div_page_size_unchecked, (a,), page),
    ensures
        small == value,
        4096 * page == a,
        a64::PAGE_SIZE == 4096,
        <u64 as VAddr>::NULL == 0,
        <u64 as VAddr>::PAGE_SIZE == 4096,
        <u64 as VAddr>::PAGE_SIZE_SELF == 4096,
{
    a64::address_constants();
}

} // verus!
