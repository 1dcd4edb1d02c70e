//! Guest memory with naturally aligned scalar accesses.

use rapid_arm_emu::aligned_mmu::{DIRTY, MMU};
use rapid_arm_emu::host_memory::HostMemory;
use rapid_arm_emu::mmu::flags::MemoryProtections;

type Addr = u64;

const PAGE_SIZE: usize = 4096;

fn addr(x: usize) -> Addr {
    Addr::try_from(x).expect("addr overflow")
}

fn new_backing(pages: usize) -> HostMemory {
    HostMemory::new(pages * PAGE_SIZE)
}

fn hash_index(i: usize) -> u8 {
    i.wrapping_mul(3) as u8
}

fn protections(bits: u8) -> MemoryProtections {
    MemoryProtections::from_bits_retain(bits)
}

/// Maps guest pages from `base` on onto the host region from its start on.
fn map_region(mmu: &mut MMU<Addr>, base: usize, size: usize, prot: MemoryProtections) {
    assert_eq!(base % PAGE_SIZE, 0, "test base must be page aligned");
    assert_eq!(size % PAGE_SIZE, 0, "test size must be page aligned");

    mmu.map_memory(addr(base), 0, addr(size), prot)
        .expect("map_memory should succeed");
}

#[test]
fn unmapped_load_faults() {
    let mmu = MMU::<Addr>::new();
    let host = new_backing(0);
    let mut buf = [0u8; 4];

    let err = mmu.load(&host, addr(0), &mut buf).unwrap_err();
    let _ = err;
}

#[test]
fn unmapped_store_faults() {
    let mut mmu = MMU::<Addr>::new();
    let mut host = new_backing(0);
    let err = mmu.store(&mut host, addr(0), &[1, 2, 3, 4]).unwrap_err();
    let _ = err;
}

#[test]
fn map_and_load_single_page() {
    let mut mmu = MMU::<Addr>::new();
    let mut host = new_backing(1);

    for (i, byte) in host.bytes.iter_mut().enumerate() {
        *byte = hash_index(i);
    }

    map_region(
        &mut mmu,
        0,
        PAGE_SIZE,
        protections(MemoryProtections::READ),
    );

    let mut buf = [0u8; 16];
    mmu.load(&host, addr(8), &mut buf).expect("load should succeed");

    let expected: Vec<u8> = (8..24).map(hash_index).collect();
    assert_eq!(buf.as_slice(), expected.as_slice());
}

#[test]
fn load_across_page_boundary() {
    let mut mmu = MMU::<Addr>::new();
    let mut host = new_backing(2);

    for (i, byte) in host.bytes.iter_mut().enumerate() {
        *byte = hash_index(i);
    }

    map_region(
        &mut mmu,
        0,
        2 * PAGE_SIZE,
        protections(MemoryProtections::READ),
    );

    let start = PAGE_SIZE - 8;
    let mut buf = [0u8; 16];
    mmu.load(&host, addr(start), &mut buf).expect("cross-page load should succeed");

    let expected: Vec<u8> = (start..start + 16).map(hash_index).collect();
    assert_eq!(buf.as_slice(), expected.as_slice());
}

#[test]
fn store_across_page_boundary() {
    let mut mmu = MMU::<Addr>::new();
    let mut host = new_backing(2);

    map_region(
        &mut mmu,
        0,
        2 * PAGE_SIZE,
        protections(MemoryProtections::READ | MemoryProtections::WRITE),
    );

    let start = PAGE_SIZE - 4;
    let data = [10, 20, 30, 40, 50, 60, 70, 80];

    mmu.store(&mut host, addr(start), &data)
        .expect("cross-page store should succeed");

    for (i, expected) in data.into_iter().enumerate() {
        let got = host.bytes[start + i];
        assert_eq!(got, expected);
    }
}

#[test]
fn read_permission_is_enforced() {
    let mut mmu = MMU::<Addr>::new();
    let host = new_backing(1);

    map_region(
        &mut mmu,
        0,
        PAGE_SIZE,
        protections(MemoryProtections::WRITE),
    );

    let mut buf = [0u8; 1];
    let err = mmu.load(&host, addr(0), &mut buf).unwrap_err();
    let _ = err;
}

#[test]
fn write_permission_is_enforced() {
    let mut mmu = MMU::<Addr>::new();
    let mut host = new_backing(1);

    map_region(
        &mut mmu,
        0,
        PAGE_SIZE,
        protections(MemoryProtections::READ),
    );

    let err = mmu.store(&mut host, addr(0), &[0xAA]).unwrap_err();
    let _ = err;
}

#[test]
fn scalar_load_store_8() {
    let mut mmu = MMU::<Addr>::new();
    let mut host = new_backing(1);

    map_region(
        &mut mmu,
        0,
        PAGE_SIZE,
        protections(MemoryProtections::READ | MemoryProtections::WRITE),
    );

    mmu.store8(&mut host, addr(7), 0xAB).expect("store8 should succeed");
    let got = mmu.load8(&host, addr(7)).expect("load8 should succeed");

    assert_eq!(got, 0xAB);
}

#[test]
fn scalar_load_store_16() {
    let mut mmu = MMU::<Addr>::new();
    let mut host = new_backing(1);

    map_region(
        &mut mmu,
        0,
        PAGE_SIZE,
        protections(MemoryProtections::READ | MemoryProtections::WRITE),
    );

    mmu.store16(&mut host, addr(6), 0xBEEF).expect("store16 should succeed");
    let got = mmu.load16(&host, addr(6)).expect("load16 should succeed");

    assert_eq!(got, 0xBEEF);
}

#[test]
fn scalar_load_store_32() {
    let mut mmu = MMU::<Addr>::new();
    let mut host = new_backing(1);

    map_region(
        &mut mmu,
        0,
        PAGE_SIZE,
        protections(MemoryProtections::READ | MemoryProtections::WRITE),
    );

    mmu.store32(&mut host, addr(8), 0xDEADBEEF)
        .expect("store32 should succeed");
    let got = mmu.load32(&host, addr(8)).expect("load32 should succeed");

    assert_eq!(got, 0xDEADBEEF);
}

#[test]
fn scalar_load_store_64() {
    let mut mmu = MMU::<Addr>::new();
    let mut host = new_backing(1);

    map_region(
        &mut mmu,
        0,
        PAGE_SIZE,
        protections(MemoryProtections::READ | MemoryProtections::WRITE),
    );

    mmu.store64(&mut host, addr(16), 0x0123_4567_89AB_CDEF)
        .expect("store64 should succeed");
    let got = mmu.load64(&host, addr(16)).expect("load64 should succeed");

    assert_eq!(got, 0x0123_4567_89AB_CDEF);
}

#[test]
fn scalar_alignment_is_enforced() {
    let mut mmu = MMU::<Addr>::new();
    let mut host = new_backing(1);

    map_region(
        &mut mmu,
        0,
        PAGE_SIZE,
        protections(MemoryProtections::READ | MemoryProtections::WRITE),
    );

    assert!(mmu.load16(&host, addr(1)).is_err());
    assert!(mmu.load32(&host, addr(2)).is_err());
    assert!(mmu.load64(&host, addr(4)).is_err());

    assert!(mmu.store16(&mut host, addr(1), 1).is_err());
    assert!(mmu.store32(&mut host, addr(2), 1).is_err());
    assert!(mmu.store64(&mut host, addr(4), 1).is_err());
}

#[test]
fn scalar_access_must_not_cross_page() {
    let mut mmu = MMU::<Addr>::new();
    let mut host = new_backing(2);

    map_region(
        &mut mmu,
        0,
        2 * PAGE_SIZE,
        protections(MemoryProtections::READ | MemoryProtections::WRITE),
    );

    let off16 = PAGE_SIZE - 1;
    let off32 = PAGE_SIZE - 2;
    let off64 = PAGE_SIZE - 4;

    assert!(mmu.load16(&host, addr(off16)).is_err());
    assert!(mmu.load32(&host, addr(off32)).is_err());
    assert!(mmu.load64(&host, addr(off64)).is_err());

    assert!(mmu.store16(&mut host, addr(off16), 1).is_err());
    assert!(mmu.store32(&mut host, addr(off32), 1).is_err());
    assert!(mmu.store64(&mut host, addr(off64), 1).is_err());
}

#[test]
fn byte_range_access_must_fault_when_range_runs_off_mapped_pages() {
    let mut mmu = MMU::<Addr>::new();
    let mut host = new_backing(1);

    map_region(
        &mut mmu,
        0,
        PAGE_SIZE,
        protections(MemoryProtections::READ | MemoryProtections::WRITE),
    );

    let start = PAGE_SIZE - 4;
    let mut buf = [0u8; 8];
    assert!(mmu.load(&host, addr(start), &mut buf).is_err());
    assert!(mmu.store(&mut host, addr(start), &[1, 2, 3, 4, 5, 6, 7, 8]).is_err());
}

#[test]
fn zero_length_load_is_ok() {
    let mmu = MMU::<Addr>::new();
    let host = new_backing(0);
    let mut got: [u8; 0] = [];
    mmu.load(&host, addr(0), &mut got).expect("zero-length load should succeed");
    assert!(got.is_empty());
}

#[test]
fn zero_length_store_is_ok() {
    let mut mmu = MMU::<Addr>::new();
    let mut host = new_backing(0);
    mmu.store(&mut host, addr(0), &[]).expect("zero-length store should succeed");
}

#[test]
fn map_memory_rejects_unaligned_inputs() {
    let mut mmu = MMU::<Addr>::new();

    assert!(mmu
        .map_memory(addr(1), 0, addr(PAGE_SIZE), protections(MemoryProtections::READ))
        .is_err());

    assert!(mmu
        .map_memory(addr(0), 0, addr(PAGE_SIZE - 1), protections(MemoryProtections::READ))
        .is_err());

    assert!(mmu
        .map_memory(addr(0), 1, addr(PAGE_SIZE), protections(MemoryProtections::READ))
        .is_err());
}

#[test]
fn range_ending_at_page_boundary_does_not_touch_next_page() {
    let mut mmu = MMU::<Addr>::new();
    let mut host = new_backing(1);

    map_region(
        &mut mmu,
        0,
        PAGE_SIZE,
        protections(MemoryProtections::READ | MemoryProtections::WRITE),
    );

    let data = vec![0x5a; PAGE_SIZE];
    mmu.store(&mut host, addr(0), &data).unwrap();
    let mut out = vec![0u8; PAGE_SIZE];
    mmu.load(&host, addr(0), &mut out).unwrap();
    assert_eq!(out, data);
}

#[test]
fn every_written_page_turns_dirty() {
    let mut mmu = MMU::<Addr>::new();
    let mut host = new_backing(3);

    map_region(
        &mut mmu,
        0,
        3 * PAGE_SIZE,
        protections(MemoryProtections::READ | MemoryProtections::WRITE),
    );

    mmu.store(&mut host, addr(PAGE_SIZE - 1), &[1, 2]).unwrap();

    let dirty: Vec<bool> = mmu
        .table
        .pages
        .iter()
        .map(|page| page.load_flags().contains(DIRTY))
        .collect();
    assert_eq!(dirty, [true, true, false]);
}

#[test]
fn aligned_fetch_reads_an_instruction_word() {
    let mut mmu = MMU::<Addr>::new();
    let mut host = new_backing(1);
    host.bytes[8..12].copy_from_slice(&0xd503_201fu32.to_le_bytes());

    map_region(&mut mmu, 0, PAGE_SIZE, protections(MemoryProtections::EXECUTE));

    assert_eq!(mmu.fetch(&host, addr(8)).unwrap(), 0xd503_201f);
    assert!(mmu.fetch(&host, addr(9)).is_err());
    assert!(mmu.load32(&host, addr(8)).is_err());
}
