//! Mapping, protecting and accessing guest memory through the page table.

use rapid_arm_emu::host_memory::HostMemory;
use rapid_arm_emu::mmu::flags::{MemoryProtections, PageFlags};
use rapid_arm_emu::mmu::{MemoryFault, Page, MMU};

const BASE: u64 = 0;

const PAGE_SIZE: usize = 4096;

fn page_size() -> usize {
    PAGE_SIZE
}

fn page_addr(page: usize) -> u64 {
    BASE + (page * page_size()) as u64
}

fn protections(bits: u8) -> MemoryProtections {
    MemoryProtections::from_bits_retain(bits)
}

fn pattern_byte(i: usize) -> u8 {
    (i as u8).wrapping_mul(37).wrapping_add(0x51)
}

fn pattern_array<const N: usize>(start: usize) -> [u8; N] {
    std::array::from_fn(|i| pattern_byte(start.wrapping_add(i)))
}

/// An MMU whose pages are mapped onto a host region of the same size.
struct Fixture {
    mmu: MMU<u64>,
    host: HostMemory,
}

impl Fixture {
    fn new(pages: usize, protections: MemoryProtections) -> Self {
        Self::with_bytes(pages, protections, |_| 0)
    }

    fn with_bytes(
        pages: usize,
        protections: MemoryProtections,
        byte: impl FnMut(usize) -> u8,
    ) -> Self {
        let bytes: Vec<u8> = (0..pages * page_size()).map(byte).collect();
        let mut mmu = MMU::<u64>::new();
        mmu.map_memory(BASE, 0, (pages * page_size()) as u64, protections)
            .unwrap();
        Self { mmu, host: HostMemory { bytes } }
    }

    fn with_page_protections(protections: &[MemoryProtections]) -> Self {
        Self::with_page_protections_and_bytes(protections, |_| 0)
    }

    fn with_page_protections_and_bytes(
        protections: &[MemoryProtections],
        byte: impl FnMut(usize) -> u8,
    ) -> Self {
        assert!(!protections.is_empty());
        let bytes: Vec<u8> = (0..protections.len() * page_size()).map(byte).collect();
        let mut mmu = MMU::<u64>::new();
        for (page, protections) in protections.iter().copied().enumerate() {
            mmu.map_memory(
                page_addr(page),
                page * page_size(),
                page_size() as u64,
                protections,
            )
            .unwrap();
        }
        Self { mmu, host: HostMemory { bytes } }
    }

    fn read_vec(&self, vaddr: u64, len: usize) -> Vec<u8> {
        let mut out = vec![0u8; len];
        self.mmu.load(&self.host, vaddr, &mut out).unwrap();
        out
    }

    fn flags(&self, page: usize) -> PageFlags {
        self.mmu.pages[page].load_flags()
    }

    fn is_dirty(&self, page: usize) -> bool {
        self.flags(page).contains(PageFlags::INSN_DIRTY)
    }
}

fn sparse_fixture_with_hole() -> Fixture {
    let bytes: Vec<u8> = (0..3 * page_size()).map(pattern_byte).collect();
    let mut mmu = MMU::<u64>::new();
    let page = page_size() as u64;
    let read_write = protections(MemoryProtections::READ | MemoryProtections::WRITE);

    mmu.map_memory(page_addr(0), 0, page, read_write).unwrap();

    // Intentionally skip page 1.

    mmu.map_memory(page_addr(2), 2 * page_size(), page, read_write)
        .unwrap();

    Fixture { mmu, host: HostMemory { bytes } }
}

#[test]
fn new_mmu_faults_non_empty_accesses() {
    let mut mmu = MMU::<u64>::new();
    let mut host = HostMemory::new(0);

    let mut one = [0u8];
    assert!(mmu.load(&host, BASE, &mut one).is_err());
    assert!(mmu.store(&mut host, BASE, &[1]).is_err());

    assert!(mmu.load_byte(&host, BASE).is_err());
    assert!(mmu.store_byte(&mut host, BASE, 1).is_err());

    assert!(mmu.load16_le(&host, BASE).is_err());
    assert!(mmu.load32_le(&host, BASE).is_err());
    assert!(mmu.load64_le(&host, BASE).is_err());

    assert!(mmu.store16_le(&mut host, BASE, 0x1234).is_err());
    assert!(mmu.store32_le(&mut host, BASE, 0x1234_5678).is_err());
    assert!(mmu.store64_le(&mut host, BASE, 0x1234_5678_9abc_def0).is_err());
}

#[test]
fn zero_length_load_and_store_do_not_require_mapping() {
    let mut mmu = MMU::<u64>::new();
    let mut host = HostMemory::new(0);

    let mut empty: [u8; 0] = [];

    mmu.load(&host, 0x1234_5678, &mut empty).unwrap();
    assert!(empty.is_empty());

    assert!(mmu.store(&mut host, 0x1234_5678, &[]).is_ok());
}

#[test]
fn map_memory_rejects_unaligned_base_size_ptr_and_overflow() {
    let mut mmu = MMU::<u64>::new();

    assert!(mmu
        .map_memory(1, 0, page_size() as u64, protections(MemoryProtections::READ))
        .is_err());

    assert!(mmu
        .map_memory(BASE, 1, page_size() as u64, protections(MemoryProtections::READ))
        .is_err());

    assert!(mmu
        .map_memory(BASE, 0, (page_size() - 1) as u64, protections(MemoryProtections::READ))
        .is_err());

    let overflow_base = u64::MAX - ((page_size() as u64) - 1);

    assert!(mmu
        .map_memory(overflow_base, 0, page_size() as u64, protections(MemoryProtections::READ))
        .is_err());
}

#[test]
fn nonzero_base_maps_only_requested_page() {
    let mut host = HostMemory::new(page_size());
    host.bytes[0] = 0xaa;

    let mut mmu = MMU::<u64>::new();
    let base = page_addr(2);

    mmu.map_memory(base, 0, page_size() as u64, protections(MemoryProtections::READ))
        .unwrap();

    assert!(mmu.load_byte(&host, 0).is_err());
    assert!(mmu.load_byte(&host, page_addr(1)).is_err());
    assert_eq!(mmu.load_byte(&host, base).unwrap(), 0xaa);
}

#[test]
fn read_only_page_allows_loads_and_rejects_stores() {
    let mut fixture = Fixture::new(1, protections(MemoryProtections::READ));

    assert_eq!(fixture.mmu.load_byte(&fixture.host, BASE).unwrap(), 0);

    let mut one = [0u8];
    assert!(fixture.mmu.load(&fixture.host, BASE, &mut one).is_ok());

    assert!(fixture.mmu.store_byte(&mut fixture.host, BASE, 1).is_err());
    assert!(fixture.mmu.store(&mut fixture.host, BASE, &[1]).is_err());
    assert!(fixture.mmu.store16_le(&mut fixture.host, BASE, 0xbeef).is_err());
    assert!(fixture.mmu.store32_le(&mut fixture.host, BASE, 0xfeed_beef).is_err());
    assert!(fixture.mmu.store64_le(&mut fixture.host, BASE, 0xfeed_beef_dead_cafe).is_err());
}

#[test]
fn write_only_page_allows_stores_and_rejects_loads() {
    let mut fixture = Fixture::new(1, protections(MemoryProtections::WRITE));

    assert!(fixture.mmu.store_byte(&mut fixture.host, BASE, 1).is_ok());
    assert!(fixture.mmu.store(&mut fixture.host, BASE, &[1, 2, 3]).is_ok());
    assert!(fixture.mmu.store16_le(&mut fixture.host, BASE, 0xbeef).is_ok());

    let mut one = [0u8];
    assert!(fixture.mmu.load(&fixture.host, BASE, &mut one).is_err());

    assert!(fixture.mmu.load_byte(&fixture.host, BASE).is_err());
    assert!(fixture.mmu.load16_le(&fixture.host, BASE).is_err());
    assert!(fixture.mmu.load32_le(&fixture.host, BASE).is_err());
    assert!(fixture.mmu.load64_le(&fixture.host, BASE).is_err());
}

#[test]
fn execute_only_page_rejects_data_loads_and_stores() {
    let mut fixture = Fixture::new(1, protections(MemoryProtections::EXECUTE));

    let mut one = [0u8];
    assert!(fixture.mmu.load(&fixture.host, BASE, &mut one).is_err());
    assert!(fixture.mmu.store(&mut fixture.host, BASE, &[1]).is_err());

    assert!(fixture.mmu.load_byte(&fixture.host, BASE).is_err());
    assert!(fixture.mmu.store_byte(&mut fixture.host, BASE, 1).is_err());

    assert!(fixture.mmu.load16_le(&fixture.host, BASE).is_err());
    assert!(fixture.mmu.store16_le(&mut fixture.host, BASE, 0xbeef).is_err());
}

#[test]
fn empty_protection_mapping_rejects_all_data_accesses() {
    let mut fixture = Fixture::new(1, MemoryProtections::empty());

    let mut one = [0u8];
    assert!(fixture.mmu.load(&fixture.host, BASE, &mut one).is_err());
    assert!(fixture.mmu.store(&mut fixture.host, BASE, &[1]).is_err());

    assert!(fixture.mmu.load_byte(&fixture.host, BASE).is_err());
    assert!(fixture.mmu.store_byte(&mut fixture.host, BASE, 1).is_err());
}

#[test]
fn byte_load_store_roundtrip() {
    let mut fixture = Fixture::new(1, protections(MemoryProtections::READ | MemoryProtections::WRITE));

    for i in 0..64_u8 {
        fixture.mmu.store_byte(&mut fixture.host, i.into(), pattern_byte(i.into())).unwrap();
    }

    for i in 0..64_u8 {
        assert_eq!(
            fixture.mmu.load_byte(&fixture.host, i.into()).unwrap(),
            pattern_byte(i.into())
        );
    }
}

#[test]
fn slice_store_load_roundtrip_inside_one_page() {
    let mut fixture = Fixture::new(1, protections(MemoryProtections::READ | MemoryProtections::WRITE));

    let data = pattern_array::<128>(0);
    let start = 17u64;

    fixture.mmu.store(&mut fixture.host, start, &data).unwrap();

    assert_eq!(fixture.read_vec(start, data.len()), data);
}

#[test]
fn slice_store_load_roundtrip_across_two_pages() {
    let mut fixture = Fixture::new(
        2,
        protections(MemoryProtections::READ | MemoryProtections::WRITE)
    );

    let start = u64::try_from(page_size() - 5).unwrap();
    let data = pattern_array::<13>(0);

    fixture.mmu.store(&mut fixture.host, start, &data).unwrap();

    assert_eq!(fixture.read_vec(start, data.len()), data);
}

#[test]
fn slice_store_across_boundary_requires_write_on_both_pages() {
    let mut fixture = Fixture::with_page_protections(&[
        protections(MemoryProtections::READ | MemoryProtections::WRITE),
        protections(MemoryProtections::READ),
    ]);

    let start = (page_size() - 1) as u64;

    assert!(fixture.mmu.store(&mut fixture.host, start, &[1, 2]).is_err());
}

#[test]
fn slice_load_across_boundary_requires_read_on_both_pages() {
    let fixture = Fixture::with_page_protections(&[
        protections(MemoryProtections::READ | MemoryProtections::WRITE),
        protections(MemoryProtections::WRITE),
    ]);

    let start = (page_size() - 1) as u64;
    let mut out = [0u8; 2];

    assert!(fixture.mmu.load(&fixture.host, start, &mut out).is_err());
}

#[test]
fn failed_slice_store_across_unmapped_page_does_not_partially_write() {
    let mut fixture = Fixture::new(1, protections(MemoryProtections::READ | MemoryProtections::WRITE));

    let last = (page_size() - 1) as u64;
    fixture.mmu.store_byte(&mut fixture.host, last, 0xaa).unwrap();

    assert!(fixture.mmu.store(&mut fixture.host, last, &[0xbb, 0xcc]).is_err());

    assert_eq!(fixture.mmu.load_byte(&fixture.host, last).unwrap(), 0xaa);
}

#[test]
fn scalar_loads_inside_one_page_are_little_endian() {
    let fixture = Fixture::with_bytes(
        1,
        protections(MemoryProtections::READ | MemoryProtections::WRITE),
        pattern_byte,
    );

    let off16 = 11usize;
    let off32 = 19usize;
    let off64 = 29usize;

    assert_eq!(
        fixture.mmu.load16_le(&fixture.host, off16 as u64).unwrap(),
        u16::from_le_bytes(pattern_array::<2>(off16))
    );

    assert_eq!(
        fixture.mmu.load32_le(&fixture.host, off32 as u64).unwrap(),
        u32::from_le_bytes(pattern_array::<4>(off32))
    );

    assert_eq!(
        fixture.mmu.load64_le(&fixture.host, off64 as u64).unwrap(),
        u64::from_le_bytes(pattern_array::<8>(off64))
    );
}

#[test]
fn scalar_stores_inside_one_page_are_little_endian() {
    let mut fixture = Fixture::new(1, protections(MemoryProtections::READ | MemoryProtections::WRITE));

    fixture.mmu.store16_le(&mut fixture.host, 11, 0xbeef).unwrap();
    assert_eq!(fixture.read_vec(11, 2), 0xbeefu16.to_le_bytes().to_vec());

    fixture.mmu.store32_le(&mut fixture.host, 19, 0xaabb_ccdd).unwrap();
    assert_eq!(
        fixture.read_vec(19, 4),
        0xaabb_ccddu32.to_le_bytes().to_vec()
    );

    fixture.mmu.store64_le(&mut fixture.host, 29, 0x0123_4567_89ab_cdef).unwrap();
    assert_eq!(
        fixture.read_vec(29, 8),
        0x0123_4567_89ab_cdefu64.to_le_bytes().to_vec()
    );
}

#[test]
fn scalar_loads_at_last_non_crossing_offsets_succeed() {
    let fixture = Fixture::with_bytes(
        1,
        protections(MemoryProtections::READ | MemoryProtections::WRITE),
        pattern_byte,
    );

    let p = page_size();

    assert_eq!(
        fixture.mmu.load16_le(&fixture.host, (p - 2) as u64).unwrap(),
        u16::from_le_bytes(pattern_array::<2>(p - 2))
    );

    assert_eq!(
        fixture.mmu.load32_le(&fixture.host, (p - 4) as u64).unwrap(),
        u32::from_le_bytes(pattern_array::<4>(p - 4))
    );

    assert_eq!(
        fixture.mmu.load64_le(&fixture.host, (p - 8) as u64).unwrap(),
        u64::from_le_bytes(pattern_array::<8>(p - 8))
    );
}

#[test]
fn scalar_loads_crossing_page_boundary_read_expected_bytes() {
    let fixture = Fixture::with_bytes(
        2,
        protections(MemoryProtections::READ | MemoryProtections::WRITE),
        pattern_byte,
    );

    let p = page_size();

    assert_eq!(
        fixture.mmu.load16_le(&fixture.host, (p - 1) as u64).unwrap(),
        u16::from_le_bytes(pattern_array::<2>(p - 1))
    );

    for bytes_in_first_page in 1..4 {
        let start = p - bytes_in_first_page;
        assert_eq!(
            fixture.mmu.load32_le(&fixture.host, start as u64).unwrap(),
            u32::from_le_bytes(pattern_array::<4>(start)),
            "u32 crossing with {bytes_in_first_page} byte(s) in the first page"
        );
    }

    for bytes_in_first_page in 1..8 {
        let start = p - bytes_in_first_page;
        assert_eq!(
            fixture.mmu.load64_le(&fixture.host, start as u64).unwrap(),
            u64::from_le_bytes(pattern_array::<8>(start)),
            "u64 crossing with {bytes_in_first_page} byte(s) in the first page"
        );
    }
}

#[test]
fn scalar_stores_crossing_page_boundary_write_expected_bytes() {
    let mut fixture = Fixture::new(2, protections(MemoryProtections::READ | MemoryProtections::WRITE));
    let p = page_size();

    let value16 = 0xbeefu16;
    fixture.mmu.store16_le(&mut fixture.host, (p - 1) as u64, value16).unwrap();
    assert_eq!(
        fixture.read_vec((p - 1) as u64, 2),
        value16.to_le_bytes().to_vec()
    );

    for bytes_in_first_page in 1..4_u8 {
        let start = p - bytes_in_first_page as usize;
        let value = 0xaabb_ccddu32 ^ bytes_in_first_page as u32;

        fixture.mmu.store32_le(&mut fixture.host, start as u64, value).unwrap();

        assert_eq!(
            fixture.read_vec(start as u64, 4),
            value.to_le_bytes().to_vec(),
            "u32 crossing with {bytes_in_first_page} byte(s) in the first page"
        );
    }

    for bytes_in_first_page in 1..8 {
        let start = p - bytes_in_first_page;
        let value = 0x0123_4567_89ab_cdefu64 ^ bytes_in_first_page as u64;

        fixture.mmu.store64_le(&mut fixture.host, start as u64, value).unwrap();

        assert_eq!(
            fixture.read_vec(start as u64, 8),
            value.to_le_bytes().to_vec(),
            "u64 crossing with {bytes_in_first_page} byte(s) in the first page"
        );
    }
}

#[test]
fn crossing_scalar_load_requires_read_on_both_pages() {
    let fixture = Fixture::with_page_protections(&[
        protections(MemoryProtections::READ),
        protections(MemoryProtections::WRITE),
    ]);

    assert!(fixture.mmu.load16_le(&fixture.host, (page_size() - 1) as u64).is_err());
}

#[test]
fn crossing_scalar_store_requires_write_on_both_pages() {
    let mut fixture = Fixture::with_page_protections(&[
        protections(MemoryProtections::WRITE),
        protections(MemoryProtections::READ),
    ]);

    assert!(fixture.mmu.store16_le(&mut fixture.host, (page_size() - 1) as u64, 0xbeef).is_err());
}

#[test]
fn crossing_scalar_access_to_unmapped_second_page_faults() {
    let mut fixture = Fixture::new(1, protections(MemoryProtections::READ | MemoryProtections::WRITE));

    let last = (page_size() - 1) as u64;

    fixture.mmu.store_byte(&mut fixture.host, last, 0xaa).unwrap();

    assert!(fixture.mmu.load16_le(&fixture.host, last).is_err());
    assert!(fixture.mmu.store16_le(&mut fixture.host, last, 0xbeef).is_err());

    assert_eq!(fixture.mmu.load_byte(&fixture.host, last).unwrap(), 0xaa);
}

#[test]
fn store_byte_marks_executable_page_dirty() {
    let mut fixture = Fixture::new(
        1,
        protections(MemoryProtections::READ | MemoryProtections::WRITE | MemoryProtections::EXECUTE),
    );

    assert!(!fixture.is_dirty(0));

    fixture.mmu.store_byte(&mut fixture.host, BASE, 0xaa).unwrap();

    assert!(fixture.is_dirty(0));
}

#[test]
fn store_slice_marks_executable_page_dirty() {
    let mut fixture = Fixture::new(
        1,
        protections(MemoryProtections::READ | MemoryProtections::WRITE | MemoryProtections::EXECUTE),
    );

    assert!(!fixture.is_dirty(0));

    fixture.mmu.store(&mut fixture.host, 8, &[1, 2, 3, 4]).unwrap();

    assert!(fixture.is_dirty(0));
}

#[test]
fn store_slice_crossing_pages_marks_both_executable_pages_dirty() {
    let mut fixture = Fixture::new(
        2,
        protections(MemoryProtections::READ | MemoryProtections::WRITE | MemoryProtections::EXECUTE),
    );

    assert!(!fixture.is_dirty(0));
    assert!(!fixture.is_dirty(1));

    fixture.mmu.store(&mut fixture.host, (page_size() - 2) as u64, &[1, 2, 3, 4]).unwrap();

    assert!(fixture.is_dirty(0));
    assert!(fixture.is_dirty(1));
}

#[test]
fn single_page_scalar_store_marks_executable_page_dirty() {
    let mut fixture = Fixture::new(
        1,
        protections(MemoryProtections::READ | MemoryProtections::WRITE | MemoryProtections::EXECUTE),
    );

    assert!(!fixture.is_dirty(0));

    fixture.mmu.store64_le(&mut fixture.host, 8, 0x0123_4567_89ab_cdef).unwrap();

    assert!(fixture.is_dirty(0));
}

#[test]
fn store_to_non_executable_page_does_not_mark_dirty() {
    let mut fixture = Fixture::new(1, protections(MemoryProtections::READ | MemoryProtections::WRITE));

    fixture.mmu.store_byte(&mut fixture.host, BASE, 0xaa).unwrap();
    fixture.mmu.store16_le(&mut fixture.host, 8, 0xbeef).unwrap();
    fixture.mmu.store(&mut fixture.host, 16, &[1, 2, 3]).unwrap();

    assert!(!fixture.is_dirty(0));
}

#[test]
fn bug_load_exactly_one_page_should_not_require_next_page() {
    let fixture = Fixture::with_bytes(1, protections(MemoryProtections::READ), pattern_byte);

    let mut out = vec![0u8; page_size()];

    assert!(fixture.mmu.load(&fixture.host, BASE, &mut out).is_ok());
}

#[test]
fn bug_store_exactly_one_page_should_not_require_next_page() {
    let mut fixture = Fixture::new(1, protections(MemoryProtections::READ | MemoryProtections::WRITE));
    let data = vec![0x5a; page_size()];

    assert!(fixture.mmu.store(&mut fixture.host, BASE, &data).is_ok());
}

#[test]
fn bug_load_ending_at_boundary_should_not_require_read_on_next_page() {
    let fixture = Fixture::with_page_protections_and_bytes(
        &[
            protections(MemoryProtections::READ),
            protections(MemoryProtections::WRITE),
        ],
        pattern_byte,
    );

    let mut out = vec![0u8; page_size()];

    assert!(fixture.mmu.load(&fixture.host, BASE, &mut out).is_ok());
}

#[test]
fn bug_cross_page_scalar_store_should_mark_touched_executable_pages_dirty() {
    let mut fixture = Fixture::new(
        2,
        protections(MemoryProtections::READ | MemoryProtections::WRITE | MemoryProtections::EXECUTE),
    );

    assert!(!fixture.is_dirty(0));
    assert!(!fixture.is_dirty(1));

    let addr = (page_size() - 1) as u64;

    fixture.mmu.store16_le(&mut fixture.host, addr, 0xbeef).unwrap();

    assert!(fixture.is_dirty(0));
    assert!(fixture.is_dirty(1));
}

#[test]
fn unmap_memory_unmaps_one_page() {
    let mut fixture = Fixture::new(1, protections(MemoryProtections::READ | MemoryProtections::WRITE));
    let page = page_size() as u64;

    fixture.mmu.store_byte(&mut fixture.host, BASE, 0xaa).unwrap();
    assert_eq!(fixture.mmu.load_byte(&fixture.host, BASE).unwrap(), 0xaa);

    fixture.mmu.unmap_memory(BASE, page).unwrap();

    assert!(fixture.mmu.load_byte(&fixture.host, BASE).is_err());
    assert!(fixture.mmu.store_byte(&mut fixture.host, BASE, 0xbb).is_err());

    let mut out = [0u8];
    assert!(fixture.mmu.load(&fixture.host, BASE, &mut out).is_err());
    assert!(fixture.mmu.store(&mut fixture.host, BASE, &[0xcc]).is_err());

    assert!(fixture.mmu.load16_le(&fixture.host, BASE).is_err());
    assert!(fixture.mmu.store16_le(&mut fixture.host, BASE, 0xbeef).is_err());
}

#[test]
fn unmap_memory_unmaps_only_requested_page_range() {
    let mut fixture = Fixture::new(3, protections(MemoryProtections::READ | MemoryProtections::WRITE));
    let page = page_size() as u64;

    fixture.mmu.store_byte(&mut fixture.host, page_addr(0), 0x10).unwrap();
    fixture.mmu.store_byte(&mut fixture.host, page_addr(1), 0x20).unwrap();
    fixture.mmu.store_byte(&mut fixture.host, page_addr(2), 0x30).unwrap();

    fixture.mmu.unmap_memory(page_addr(1), page).unwrap();

    assert_eq!(fixture.mmu.load_byte(&fixture.host, page_addr(0)).unwrap(), 0x10);
    assert!(fixture.mmu.load_byte(&fixture.host, page_addr(1)).is_err());
    assert_eq!(fixture.mmu.load_byte(&fixture.host, page_addr(2)).unwrap(), 0x30);

    assert!(fixture.mmu.store_byte(&mut fixture.host, page_addr(0), 0x11).is_ok());
    assert!(fixture.mmu.store_byte(&mut fixture.host, page_addr(1), 0x21).is_err());
    assert!(fixture.mmu.store_byte(&mut fixture.host, page_addr(2), 0x31).is_ok());
}

#[test]
fn unmap_memory_can_unmap_multiple_pages() {
    let mut fixture = Fixture::new(4, protections(MemoryProtections::READ | MemoryProtections::WRITE));
    let page = page_size() as u64;

    fixture.mmu.unmap_memory(page_addr(1), page * 2).unwrap();

    assert!(fixture.mmu.load_byte(&fixture.host, page_addr(0)).is_ok());
    assert!(fixture.mmu.load_byte(&fixture.host, page_addr(1)).is_err());
    assert!(fixture.mmu.load_byte(&fixture.host, page_addr(2)).is_err());
    assert!(fixture.mmu.load_byte(&fixture.host, page_addr(3)).is_ok());
}

#[test]
fn unmap_memory_is_idempotent_for_existing_page_entries() {
    let mut fixture = Fixture::new(1, protections(MemoryProtections::READ | MemoryProtections::WRITE));
    let page = page_size() as u64;

    fixture.mmu.unmap_memory(BASE, page).unwrap();
    fixture.mmu.unmap_memory(BASE, page).unwrap();

    assert!(fixture.mmu.load_byte(&fixture.host, BASE).is_err());
    assert!(fixture.mmu.store_byte(&mut fixture.host, BASE, 0xaa).is_err());
}

#[test]
fn unmap_memory_rejects_unaligned_start_and_leaves_mapping_unchanged() {
    let mut fixture = Fixture::new(1, protections(MemoryProtections::READ | MemoryProtections::WRITE));
    let page = page_size() as u64;

    fixture.mmu.store_byte(&mut fixture.host, BASE, 0xaa).unwrap();

    assert!(fixture.mmu.unmap_memory(1, page).is_err());

    assert_eq!(fixture.mmu.load_byte(&fixture.host, BASE).unwrap(), 0xaa);
    assert!(fixture.mmu.store_byte(&mut fixture.host, BASE, 0xbb).is_ok());
}

#[test]
fn unmap_memory_rejects_unaligned_size_and_leaves_mapping_unchanged() {
    let mut fixture = Fixture::new(1, protections(MemoryProtections::READ | MemoryProtections::WRITE));
    let page = page_size() as u64;

    fixture.mmu.store_byte(&mut fixture.host, BASE, 0xaa).unwrap();

    assert!(fixture.mmu.unmap_memory(BASE, page - 1).is_err());

    assert_eq!(fixture.mmu.load_byte(&fixture.host, BASE).unwrap(), 0xaa);
    assert!(fixture.mmu.store_byte(&mut fixture.host, BASE, 0xbb).is_ok());
}

#[test]
fn unmap_memory_rejects_range_past_page_table() {
    let mut fixture = Fixture::new(1, protections(MemoryProtections::READ | MemoryProtections::WRITE));
    let page = page_size() as u64;

    assert!(fixture.mmu.unmap_memory(page_addr(1), page).is_err());

    assert!(fixture.mmu.load_byte(&fixture.host, BASE).is_ok());
    assert!(fixture.mmu.store_byte(&mut fixture.host, BASE, 0xaa).is_ok());
}

#[test]
fn unmap_memory_rejects_address_overflow() {
    let mut fixture = Fixture::new(1, protections(MemoryProtections::READ | MemoryProtections::WRITE));

    assert!(fixture.mmu.unmap_memory(u64::MAX, 1).is_err());

    assert!(fixture.mmu.load_byte(&fixture.host, BASE).is_ok());
}

#[test]
fn unmap_memory_allows_zero_sized_noop_at_start() {
    let mut mmu = MMU::<u64>::new();

    assert!(mmu.unmap_memory(BASE, 0).is_ok());
}

#[test]
fn unmap_memory_then_remap_restores_access() {
    let mut fixture = Fixture::new(1, protections(MemoryProtections::READ | MemoryProtections::WRITE));
    let page = page_size() as u64;

    fixture.mmu.store_byte(&mut fixture.host, BASE, 0xaa).unwrap();
    fixture.mmu.unmap_memory(BASE, page).unwrap();

    assert!(fixture.mmu.load_byte(&fixture.host, BASE).is_err());

    fixture
        .mmu
        .map_memory(
            BASE,
            0,
            page,
            protections(MemoryProtections::READ | MemoryProtections::WRITE),
        )
        .unwrap();

    fixture.mmu.store_byte(&mut fixture.host, BASE, 0xbb).unwrap();
    assert_eq!(fixture.mmu.load_byte(&fixture.host, BASE).unwrap(), 0xbb);
}

#[test]
fn mem_protect_can_make_page_read_only() {
    let mut fixture = Fixture::new(1, protections(MemoryProtections::READ | MemoryProtections::WRITE));
    let page = page_size() as u64;

    fixture.mmu.store_byte(&mut fixture.host, BASE, 0xaa).unwrap();

    fixture.mmu.mem_protect(BASE, page, protections(MemoryProtections::READ)).unwrap();

    assert_eq!(fixture.mmu.load_byte(&fixture.host, BASE).unwrap(), 0xaa);
    assert!(fixture.mmu.store_byte(&mut fixture.host, BASE, 0xbb).is_err());
    assert!(fixture.mmu.store(&mut fixture.host, BASE, &[0xcc]).is_err());
    assert!(fixture.mmu.store16_le(&mut fixture.host, BASE, 0xbeef).is_err());
}

#[test]
fn mem_protect_can_make_page_write_only() {
    let mut fixture = Fixture::new(1, protections(MemoryProtections::READ | MemoryProtections::WRITE));
    let page = page_size() as u64;

    fixture.mmu.store_byte(&mut fixture.host, BASE, 0xaa).unwrap();
    assert_eq!(fixture.mmu.load_byte(&fixture.host, BASE).unwrap(), 0xaa);

    fixture.mmu.mem_protect(BASE, page, protections(MemoryProtections::WRITE)).unwrap();

    assert!(fixture.mmu.load_byte(&fixture.host, BASE).is_err());
    assert!(fixture.mmu.load16_le(&fixture.host, BASE).is_err());

    assert!(fixture.mmu.store_byte(&mut fixture.host, BASE, 0xbb).is_ok());
    assert!(fixture.mmu.store(&mut fixture.host, BASE, &[0xcc]).is_ok());
    assert!(fixture.mmu.store16_le(&mut fixture.host, BASE, 0xbeef).is_ok());
}

#[test]
fn mem_protect_can_make_page_execute_only_for_data_accesses() {
    let mut fixture = Fixture::new(1, protections(MemoryProtections::READ | MemoryProtections::WRITE));
    let page = page_size() as u64;

    fixture.mmu.mem_protect(BASE, page, protections(MemoryProtections::EXECUTE)).unwrap();

    assert!(fixture.mmu.load_byte(&fixture.host, BASE).is_err());
    assert!(fixture.mmu.store_byte(&mut fixture.host, BASE, 0xaa).is_err());

    let mut out = [0u8];
    assert!(fixture.mmu.load(&fixture.host, BASE, &mut out).is_err());
    assert!(fixture.mmu.store(&mut fixture.host, BASE, &[0xaa]).is_err());
}

#[test]
fn mem_protect_can_restore_read_write_after_read_only() {
    let mut fixture = Fixture::new(1, protections(MemoryProtections::READ | MemoryProtections::WRITE));
    let page = page_size() as u64;

    fixture.mmu.mem_protect(BASE, page, protections(MemoryProtections::READ)).unwrap();

    assert!(fixture.mmu.store_byte(&mut fixture.host, BASE, 0xaa).is_err());

    fixture.mmu.mem_protect(BASE, page, protections(MemoryProtections::READ | MemoryProtections::WRITE)).unwrap();

    fixture.mmu.store_byte(&mut fixture.host, BASE, 0xbb).unwrap();
    assert_eq!(fixture.mmu.load_byte(&fixture.host, BASE).unwrap(), 0xbb);
}

#[test]
fn mem_protect_only_changes_requested_pages() {
    let mut fixture = Fixture::new(2, protections(MemoryProtections::READ | MemoryProtections::WRITE));
    let page = page_size() as u64;

    fixture.mmu.mem_protect(page_addr(1), page, protections(MemoryProtections::READ)).unwrap();

    assert!(fixture.mmu.store_byte(&mut fixture.host, page_addr(0), 0xaa).is_ok());
    assert!(fixture.mmu.store_byte(&mut fixture.host, page_addr(1), 0xbb).is_err());

    assert!(fixture.mmu.load_byte(&fixture.host, page_addr(0)).is_ok());
    assert!(fixture.mmu.load_byte(&fixture.host, page_addr(1)).is_ok());
}

#[test]
fn mem_protect_can_change_multiple_pages() {
    let mut fixture = Fixture::new(3, protections(MemoryProtections::READ | MemoryProtections::WRITE));
    let page = page_size() as u64;

    fixture.mmu.mem_protect(page_addr(0), page * 2, protections(MemoryProtections::READ)).unwrap();

    assert!(fixture.mmu.store_byte(&mut fixture.host, page_addr(0), 0xaa).is_err());
    assert!(fixture.mmu.store_byte(&mut fixture.host, page_addr(1), 0xbb).is_err());
    assert!(fixture.mmu.store_byte(&mut fixture.host, page_addr(2), 0xcc).is_ok());

    assert!(fixture.mmu.load_byte(&fixture.host, page_addr(0)).is_ok());
    assert!(fixture.mmu.load_byte(&fixture.host, page_addr(1)).is_ok());
    assert!(fixture.mmu.load_byte(&fixture.host, page_addr(2)).is_ok());
}

#[test]
fn mem_protect_rejects_unmapped_page() {
    let mut fixture = Fixture::new(1, protections(MemoryProtections::READ | MemoryProtections::WRITE));
    let page = page_size() as u64;

    fixture.mmu.unmap_memory(BASE, page).unwrap();

    assert!(fixture.mmu.mem_protect(BASE, page, protections(MemoryProtections::READ)).is_err());

    assert!(fixture.mmu.load_byte(&fixture.host, BASE).is_err());
    assert!(fixture.mmu.store_byte(&mut fixture.host, BASE, 0xaa).is_err());
}

#[test]
fn mem_protect_rejects_sparse_range_and_does_not_partially_update() {
    let mut fixture = sparse_fixture_with_hole();
    let page = page_size() as u64;

    assert!(fixture.mmu.mem_protect(page_addr(0), page * 3, protections(MemoryProtections::READ)).is_err());

    // Page 0 and page 2 must still be writable. This catches accidental
    // partial updates if the implementation protects pages as it checks them.
    assert!(fixture.mmu.store_byte(&mut fixture.host, page_addr(0), 0xaa).is_ok());
    assert!(fixture.mmu.store_byte(&mut fixture.host, page_addr(2), 0xbb).is_ok());

    assert_eq!(fixture.mmu.load_byte(&fixture.host, page_addr(0)).unwrap(), 0xaa);
    assert_eq!(fixture.mmu.load_byte(&fixture.host, page_addr(2)).unwrap(), 0xbb);
}

#[test]
fn mem_protect_rejects_unaligned_start_and_leaves_mapping_unchanged() {
    let mut fixture = Fixture::new(1, protections(MemoryProtections::READ | MemoryProtections::WRITE));
    let page = page_size() as u64;

    assert!(fixture.mmu.mem_protect(1, page, protections(MemoryProtections::READ)).is_err());

    assert!(fixture.mmu.store_byte(&mut fixture.host, BASE, 0xaa).is_ok());
    assert_eq!(fixture.mmu.load_byte(&fixture.host, BASE).unwrap(), 0xaa);
}

#[test]
fn mem_protect_rejects_unaligned_size_and_leaves_mapping_unchanged() {
    let mut fixture = Fixture::new(1, protections(MemoryProtections::READ | MemoryProtections::WRITE));
    let page = page_size() as u64;

    assert!(fixture.mmu.mem_protect(BASE, page - 1, protections(MemoryProtections::READ)).is_err());

    assert!(fixture.mmu.store_byte(&mut fixture.host, BASE, 0xaa).is_ok());
    assert_eq!(fixture.mmu.load_byte(&fixture.host, BASE).unwrap(), 0xaa);
}

#[test]
fn mem_protect_rejects_range_past_page_table() {
    let mut fixture = Fixture::new(1, protections(MemoryProtections::READ | MemoryProtections::WRITE));
    let page = page_size() as u64;

    assert!(fixture.mmu.mem_protect(page_addr(1), page, protections(MemoryProtections::READ)).is_err());

    assert!(fixture.mmu.store_byte(&mut fixture.host, BASE, 0xaa).is_ok());
    assert_eq!(fixture.mmu.load_byte(&fixture.host, BASE).unwrap(), 0xaa);
}

#[test]
fn mem_protect_rejects_address_overflow() {
    let mut fixture = Fixture::new(1, protections(MemoryProtections::READ | MemoryProtections::WRITE));

    assert!(fixture.mmu.mem_protect(u64::MAX, 1, protections(MemoryProtections::READ)).is_err());

    assert!(fixture.mmu.store_byte(&mut fixture.host, BASE, 0xaa).is_ok());
}

#[test]
fn mem_protect_allows_zero_sized_noop_at_start() {
    let mut mmu = MMU::<u64>::new();
    assert!(mmu.mem_protect(BASE, 0, protections(MemoryProtections::READ)).is_ok());
}

#[test]
fn fetch_needs_execute_permission_and_alignment() {
    let word = 0xd503_201fu32;
    let mut fixture = Fixture::with_page_protections(&[
        protections(MemoryProtections::READ | MemoryProtections::WRITE | MemoryProtections::EXECUTE),
        protections(MemoryProtections::READ | MemoryProtections::WRITE),
    ]);

    fixture.mmu.store32_le(&mut fixture.host, 8, word).unwrap();
    fixture.mmu.store32_le(&mut fixture.host, page_addr(1), word).unwrap();

    assert_eq!(fixture.mmu.fetch(&fixture.host, 8).unwrap(), word);
    assert!(fixture.mmu.fetch(&fixture.host, 10).is_err());
    assert!(fixture.mmu.fetch(&fixture.host, page_addr(1)).is_err());
    assert!(fixture.mmu.fetch(&fixture.host, page_addr(2)).is_err());
}

#[test]
fn stores_leave_other_bytes_unchanged() {
    let mut fixture = Fixture::with_bytes(
        2,
        protections(MemoryProtections::READ | MemoryProtections::WRITE),
        pattern_byte,
    );
    let before = fixture.host.bytes.clone();
    let start = page_size() - 3;

    fixture.mmu.store64_le(&mut fixture.host, start as u64, 0x0123_4567_89ab_cdef).unwrap();

    for i in 0..before.len() {
        if i < start || start + 8 <= i {
            assert_eq!(fixture.host.bytes[i], before[i]);
        }
    }
    assert_eq!(
        fixture.host.bytes[start..start + 8],
        [0xef, 0xcd, 0xab, 0x89, 0x67, 0x45, 0x23, 0x01]
    );
}

#[test]
fn later_bytes_win_where_pages_share_host_memory() {
    let read_write = protections(MemoryProtections::READ | MemoryProtections::WRITE);
    let mut mmu = MMU::<u64>::new();
    let mut host = HostMemory::new(page_size());
    mmu.map_memory(page_addr(0), 0, page_size() as u64, read_write).unwrap();
    mmu.map_memory(page_addr(1), 0, page_size() as u64, read_write).unwrap();

    let data: Vec<u8> = (0..page_size() + 2).map(pattern_byte).collect();
    mmu.store(&mut host, BASE, &data).unwrap();

    assert_eq!(host.bytes[0], pattern_byte(page_size()));
    assert_eq!(host.bytes[1], pattern_byte(page_size() + 1));
    assert_eq!(host.bytes[2], pattern_byte(2));
}

#[test]
fn protecting_a_page_keeps_its_bytes_and_cleans_it() {
    let mut fixture = Fixture::new(
        1,
        protections(MemoryProtections::READ | MemoryProtections::WRITE | MemoryProtections::EXECUTE),
    );
    fixture.mmu.store_byte(&mut fixture.host, 9, 0x77).unwrap();
    assert!(fixture.is_dirty(0));

    fixture
        .mmu
        .mem_protect(BASE, page_size() as u64, protections(MemoryProtections::READ))
        .unwrap();

    assert!(!fixture.is_dirty(0));
    assert_eq!(fixture.flags(0).bits(), PageFlags::READ);
    assert_eq!(fixture.mmu.load_byte(&fixture.host, 9).unwrap(), 0x77);
}

#[test]
fn remapping_a_page_replaces_its_backing() {
    let read = protections(MemoryProtections::READ);
    let mut mmu = MMU::<u64>::new();
    let mut host = HostMemory::new(2 * page_size());
    host.bytes[4] = 0x11;
    host.bytes[page_size() + 4] = 0x22;

    mmu.map_memory(BASE, 0, page_size() as u64, read).unwrap();
    assert_eq!(mmu.load_byte(&host, 4).unwrap(), 0x11);
    mmu.map_memory(BASE, page_size(), page_size() as u64, read).unwrap();
    assert_eq!(mmu.load_byte(&host, 4).unwrap(), 0x22);
}

#[test]
fn accesses_past_the_last_address_fault() {
    let mut fixture = Fixture::new(1, protections(MemoryProtections::READ | MemoryProtections::WRITE));
    let mut out = [0u8; 4];

    assert!(fixture.mmu.load(&fixture.host, u64::MAX - 1, &mut out).is_err());
    assert!(fixture.mmu.store(&mut fixture.host, u64::MAX - 1, &out).is_err());
    assert!(fixture.mmu.load64_le(&fixture.host, u64::MAX).is_err());
    assert_eq!(
        fixture.mmu.load_byte(&fixture.host, u64::MAX).unwrap_err().message(),
        MemoryFault::fault().message()
    );
}

#[test]
fn a_page_gives_its_pointer_where_all_flags_are_held() {
    let page = Page::<u64>::mapped(4096, protections(MemoryProtections::READ | MemoryProtections::WRITE));
    assert_eq!(page.get_data_ptr(PageFlags::READ), Ok(4096));
    assert_eq!(page.get_data_ptr(PageFlags::READ | PageFlags::WRITE), Ok(4096));
    assert!(page.get_data_ptr(PageFlags::READ | PageFlags::EXECUTE).is_err());
    assert_eq!(page.get_data_ptr(0), Ok(4096));
    assert!(Page::<u64>::unmapped().get_data_ptr(0).is_err());
}
